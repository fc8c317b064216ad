use game_search::default_heuristic::DefaultHeuristic;
use game_search::game::{Game, State};
use game_search::heuristic::{Heuristic, Native};
use game_search::mancala::Mancala;
use game_search::othello::{self, Othello};
use game_search::tablut;
use game_search::tablut_heuristics::{BuggedHeuristic, FmHeuristic, DIST};
use game_search::tablut_with_draw;
use game_search::test_heuristic::{TestHeuristic, KV};
use game_search::tictactoe::Ttt;

#[test]
fn mancala_opening() {
    let g = Mancala::new(true);
    assert_eq!(g.a, [4, 4, 4, 4, 4, 4, 0, 4, 4, 4, 4, 4, 4, 0]);
    assert!(g.turn());
    assert_eq!(g.state(), State::Going);
    assert_eq!(g.get_moves(), vec![5, 4, 3, 2, 1, 0]);
    assert_eq!(Mancala::new(false).get_moves(), vec![12, 11, 10, 9, 8, 7]);
    assert_eq!(g.get_moves_sorted(), g.get_moves());
    assert_eq!(g.heuristic(), 0);
    assert_eq!(g.get_static_state(), (g.a, true));
}

#[test]
fn mancala_sowing_passes_the_turn() {
    let mut g = Mancala::new(true);
    g.mov(&0);
    assert_eq!(g.a, [0, 5, 5, 5, 5, 4, 0, 4, 4, 4, 4, 4, 4, 0]);
    assert!(!g.turn());
    assert_eq!(g.heuristic(), 5 * (6 + 5 + 4 + 3) + 4 * 2 - 4 * (7 + 6 + 5 + 4 + 3 + 2));
}

#[test]
fn mancala_last_stone_in_the_own_store_moves_again() {
    let mut g = Mancala::new(true);
    g.mov(&2);
    assert_eq!(g.a, [4, 4, 0, 5, 5, 5, 1, 4, 4, 4, 4, 4, 4, 0]);
    assert!(g.turn());
    let mut g = Mancala::new(false);
    g.mov(&9);
    assert_eq!(g.a, [4, 4, 4, 4, 4, 4, 0, 4, 4, 0, 5, 5, 5, 1]);
    assert!(!g.turn());
}

#[test]
fn mancala_sowing_skips_the_store_of_the_opponent() {
    let mut g = Mancala { a: [0, 0, 0, 0, 0, 10, 0, 1, 1, 1, 1, 1, 1, 0], turn: true };
    g.mov(&5);
    // Store 6, pits 7 to 12, not 13, then pits 0, 1, 2; the last stone lies
    // alone in pit 2 and takes the two stones of pit 10.
    assert_eq!(g.a, [1, 1, 3, 0, 0, 0, 1, 2, 2, 2, 0, 2, 2, 0]);
    assert!(!g.turn());
    let mut g = Mancala { a: [1, 1, 1, 1, 1, 1, 0, 0, 0, 0, 0, 0, 10, 0], turn: false };
    g.mov(&12);
    // Store 13, pits 0 to 5, not 6, then pits 7, 8, 9; the last stone lies
    // alone in pit 9 and takes the two stones of pit 3.
    assert_eq!(g.a, [2, 2, 2, 0, 2, 2, 0, 1, 1, 3, 0, 0, 0, 1]);
    assert!(g.turn());
}

#[test]
fn mancala_a_lone_last_stone_captures_across() {
    let mut g = Mancala { a: [1, 0, 3, 0, 0, 0, 0, 0, 0, 0, 0, 5, 0, 0], turn: true };
    g.mov(&0);
    assert_eq!(g.a, [0, 6, 3, 0, 0, 0, 0, 0, 0, 0, 0, 0, 0, 0]);
    assert!(!g.turn());
    assert_eq!(g.state(), State::Win);
    assert_eq!(g.heuristic(), 32768);
}

#[test]
fn mancala_the_end_of_the_game() {
    let g = Mancala { a: [0, 0, 0, 0, 0, 0, 20, 1, 0, 0, 0, 0, 0, 27], turn: true };
    assert_eq!(g.state(), State::Lose);
    assert_eq!(g.heuristic(), -32768);
    assert_eq!(DefaultHeuristic::eval(&g), -32768);
    let g = Mancala { a: [0, 0, 0, 0, 0, 0, 24, 0, 0, 0, 0, 0, 0, 24], turn: true };
    assert_eq!(g.state(), State::Draw);
    assert_eq!(g.heuristic(), 24 * 8 - 24 * 8);
    assert_eq!(DefaultHeuristic::eval(&g), 0);
    let g = Mancala { a: [1, 0, 0, 0, 0, 0, 25, 1, 0, 0, 0, 0, 0, 21], turn: true };
    assert_eq!(g.state(), State::Win);
    let g = Mancala { a: [1, 0, 0, 0, 0, 0, 21, 1, 0, 0, 0, 0, 0, 25], turn: true };
    assert_eq!(g.state(), State::Lose);
    let g = Mancala { a: [1, 2, 0, 0, 0, 0, 21, 1, 0, 0, 3, 0, 0, 20], turn: true };
    assert_eq!(g.state(), State::Going);
    assert_eq!(g.heuristic(), 7 + 12 + 21 * 8 - 7 - 3 * 4 - 20 * 8);
    assert_eq!(DefaultHeuristic::eval(&g), g.heuristic());
}

#[test]
fn mancala_undo_restores_the_position() {
    let mut g = Mancala::new(true);
    let mut n = 0usize;
    while g.state() == State::Going && n < 200 {
        let before = g.clone();
        let moves = g.get_moves();
        assert!(!moves.is_empty());
        for m in moves.iter() {
            let rb = g.mov_with_rollback(m);
            assert_eq!(rb, before);
            assert_eq!(g.a.iter().map(|&x| x as u32).sum::<u32>(), 48);
            g.rollback(rb);
            assert_eq!(g, before);
        }
        g.mov(&moves[(n * 3) % moves.len()]);
        n += 1;
    }
    assert_ne!(g.state(), State::Going);
}

#[test]
fn mancala_keys() {
    let a = Mancala::new(true);
    let b = Mancala::new(true);
    assert!(Mancala::same_key(&a.get_static_state(), &b.get_static_state()));
    assert_eq!(
        Mancala::key_digest(&a.get_static_state()),
        Mancala::key_digest(&b.get_static_state())
    );
    assert!(!Mancala::same_key(&a.get_static_state(), &Mancala::new(false).get_static_state()));
}

#[test]
fn othello_opening() {
    let g = Othello::new(true);
    assert_eq!(othello::mapc(3, 3), 27);
    assert_eq!(othello::unmapc(27), (3, 3));
    assert_eq!(othello::unmapc(44), (4, 5));
    assert!(g.has_piece(27) && g.get_piece(27));
    assert!(g.has_piece(36) && g.get_piece(36));
    assert!(g.has_piece(35) && !g.get_piece(35));
    assert!(g.has_piece(28) && !g.get_piece(28));
    assert_eq!(g.board.0.count_ones(), 4);
    assert_eq!(g.state(), State::Going);
    assert_eq!(g.get_moves(), vec![20, 29, 34, 43]);
    assert_eq!(Othello::new(false).get_moves(), vec![19, 26, 37, 44]);
    assert_eq!(g.heuristic(), 0);
    assert_eq!(g.get_static_state(), (g.board.0, g.board.1, true));
}

#[test]
fn othello_a_move_turns_the_gripped_pieces() {
    let mut g = Othello::new(true);
    assert!(g.reversable(true, (4, 2), (0, 1)));
    assert!(!g.reversable(true, (4, 2), (1, 0)));
    assert!(!g.reversable(false, (4, 2), (0, 1)));
    assert_eq!(g.grip(true, (4, 2), (0, 1)), vec![28]);
    assert_eq!(g.grip(true, (4, 2), (0, -1)), Vec::<u8>::new());
    g.mov(&20);
    assert!(g.has_piece(20) && g.get_piece(20));
    assert!(g.get_piece(28));
    assert!(!g.get_piece(35));
    assert!(!g.turn());
    assert_eq!(g.passes, 0);
    assert_eq!(g.board.0.count_ones(), 5);
    assert_eq!(g.board.1.count_ones(), 4);
    // 20 weighs 0 and 27, 28, 35 and 36 weigh 1 each; the piece on 35 is
    // the only one of the second player.
    assert_eq!(g.heuristic(), 0 + 1 + 1 + 1 - 1);
    assert_eq!(DefaultHeuristic::eval(&g), g.heuristic());
}

#[test]
fn othello_pieces_can_be_put_turned_and_taken() {
    let mut g = Othello { board: (0, 0), turn: true, passes: 0 };
    g.add_piece(9, true);
    g.add_piece(10, false);
    assert!(g.has_piece(9) && g.get_piece(9));
    assert!(g.has_piece(10) && !g.get_piece(10));
    g.flip(10);
    assert!(g.get_piece(10));
    g.flip(9);
    assert!(!g.get_piece(9) && g.has_piece(9));
    g.rem_piece(10);
    assert!(!g.has_piece(10) && !g.get_piece(10));
    let mut h = Othello { board: (0, 0), turn: true, passes: 0 };
    h.add_piece(0, true);
    h.add_piece(1, false);
    h.add_piece(2, false);
    assert_eq!(h.reverse(true, (3, 0), (-1, 0)), vec![2, 1]);
    assert!(h.get_piece(1) && h.get_piece(2));
    assert_eq!(h.reverse(true, (3, 0), (1, 0)), Vec::<u8>::new());
}

#[test]
fn othello_the_pass_and_the_end_of_the_game() {
    let mut g = Othello { board: (0b11, 0b01), turn: false, passes: 0 };
    // White (second) has no move: it can grip nothing.
    assert_eq!(g.get_moves(), vec![othello::PASS]);
    assert_eq!(g.get_moves_sorted(), vec![othello::PASS]);
    g.mov(&othello::PASS);
    assert_eq!(g.passes, 1);
    assert!(g.turn());
    assert_eq!(g.state(), State::Going);
    assert_eq!(g.get_moves(), vec![2]);
    let mut h = g;
    h.mov(&2);
    assert_eq!(h.passes, 0);
    assert_eq!(h.board, (0b111, 0b111));
    let rb = g.mov_with_rollback(&2);
    g.rollback(rb);
    assert_eq!(g.passes, 1);
    let mut e = Othello { board: (0b1, 0b1), turn: true, passes: 1 };
    e.mov(&othello::PASS);
    assert_eq!(e.passes, 2);
    assert_eq!(e.state(), State::Lose);
    assert_eq!(e.heuristic(), -32768);
    assert_eq!(DefaultHeuristic::eval(&e), -256);
    let full = Othello { board: (u64::MAX, u64::MAX >> 31), turn: true, passes: 0 };
    assert_eq!(full.state(), State::Win);
    assert_eq!(DefaultHeuristic::eval(&full), 256);
    let even = Othello { board: (u64::MAX, u64::MAX >> 32), turn: true, passes: 0 };
    assert_eq!(even.state(), State::Draw);
    assert_eq!(even.heuristic(), 0);
}

#[test]
fn othello_sorted_moves_put_the_best_cells_first() {
    let mut g = Othello::new(true);
    for step in 0..20usize {
        if g.state() != State::Going {
            break;
        }
        let mut plain = g.get_moves();
        let sorted = g.get_moves_sorted();
        let w: Vec<i64> = sorted
            .iter()
            .map(|&m| if m < 64 { -othello::WEIGHTS[m as usize] } else { 0 })
            .collect();
        assert!(w.windows(2).all(|p| p[0] <= p[1]));
        let mut again = sorted.clone();
        plain.sort();
        again.sort();
        assert_eq!(plain, again);
        g.mov(&sorted[step % sorted.len()]);
    }
}

#[test]
fn othello_undo_restores_the_position() {
    let mut g = Othello::new(false);
    let mut n = 0usize;
    while g.state() == State::Going && n < 70 {
        let before = g;
        let moves = g.get_moves();
        assert!(!moves.is_empty());
        for m in moves.iter() {
            let rb = g.mov_with_rollback(m);
            g.rollback(rb);
            assert_eq!(g, before);
        }
        g.mov(&moves[(n * 5) % moves.len()]);
        n += 1;
    }
    assert_ne!(g.state(), State::Going);
    assert!(Othello::same_key(&g.get_static_state(), &g.get_static_state()));
    assert_eq!(
        Othello::key_digest(&g.get_static_state()),
        Othello::key_digest(&g.get_static_state())
    );
}

#[test]
fn heuristics_default_on_tic_tac_toe() {
    assert_eq!(DefaultHeuristic::eval(&Ttt::new(true)), 0);
    assert_eq!(DefaultHeuristic::eval(&Ttt { a: [1, 1, 1, 0, 0, 2, 2, 2, 2], turn: false }), 1);
    assert_eq!(DefaultHeuristic::eval(&Ttt { a: [0, 0, 0, 1, 1, 2, 2, 2, 1], turn: true }), -1);
    assert_eq!(<Native as Heuristic<Ttt>>::eval(&Ttt::new(true)), 0);
}

fn cell(x: u8, y: u8) -> u8 {
    y * 11 + x
}

fn bitboard(a: &[(u8, u8)], d: &[(u8, u8)], k: &[(u8, u8)], turn: u32) -> tablut::Tablut {
    let set = |cs: &[(u8, u8)]| cs.iter().fold(0u128, |s, &(x, y)| s | (1u128 << cell(x, y)));
    tablut::Tablut { a: set(a), d: set(d), k: set(k), turn, state: State::Going, strict: false }
}

#[test]
fn heuristics_of_the_bitboard_tablut() {
    let g = tablut::Tablut::new(true);
    assert_eq!(DefaultHeuristic::eval(&g), 8 * 8 + 4 * (-1) - 16 * 16);
    assert_eq!(<Native as Heuristic<tablut::Tablut>>::eval(&g), DefaultHeuristic::eval(&g));
    // The one lane ends on the throne under the king, which counts four times.
    assert_eq!(BuggedHeuristic::eval(&g), 8 * 16 + 4 * (-4) - 16 * 32);
    assert_eq!(BuggedHeuristic::eval(&tablut::Tablut::new(false)), 8 * 16 + 4 * (-4) - 16 * 32 - 1);
    // The king on the throne is six steps from an escape and no side is closed.
    assert_eq!(FmHeuristic::eval(&g), 250 * 8 + 42 * 0 - 147 * 0 - 164 * 16);
    assert_eq!(DIST[60], 6);
    assert_eq!(DIST[cell(2, 1) as usize], 0);
    assert_eq!(DIST[cell(3, 3) as usize], 2);

    let g = bitboard(&[(4, 3)], &[(9, 9)], &[(3, 3)], 0);
    // Right of the king stands an attacker: the lane holds the square of the
    // king alone and ends on a hostile cell.
    assert_eq!(BuggedHeuristic::eval(&g), 16 + 4 * (1 - 4) - 32);
    assert_eq!(FmHeuristic::eval(&g), 250 + 42 * (6 - 2) - 147 * 1 - 164);
    let lanes = (1 - 1) + 6 + 2 + 2;
    assert_eq!(DefaultHeuristic::eval(&g), 8 + 4 * lanes - 16);

    let mut won = bitboard(&[(9, 9)], &[], &[(3, 1)], 7);
    won.state = State::Win;
    assert_eq!(DefaultHeuristic::eval(&won), i64::MAX - 7);
    assert_eq!(BuggedHeuristic::eval(&won), i64::MAX - 7);
    assert_eq!(FmHeuristic::eval(&won), i64::MAX - 7);
    won.state = State::Lose;
    assert_eq!(DefaultHeuristic::eval(&won), i64::MIN + 7);
    assert_eq!(BuggedHeuristic::eval(&won), i64::MIN + 7);
    assert_eq!(FmHeuristic::eval(&won), i64::MIN + 7);
    won.state = State::Draw;
    assert_eq!(DefaultHeuristic::eval(&won), 0);
    assert_eq!(BuggedHeuristic::eval(&won), 0);
    assert_eq!(FmHeuristic::eval(&won), 0);
}

#[test]
fn heuristics_of_the_tablut_with_draws() {
    let g = tablut_with_draw::Tablut::new(true);
    // The king stands on the throne, which is worth 4.
    assert_eq!(KV[40], 4);
    assert_eq!(TestHeuristic::eval(&g), 8 * 24 - 16 * 12 - 80 + 2 * 56 - 16 + 1 + 4 * 4);
    let g = tablut_with_draw::Tablut::new(false);
    assert_eq!(TestHeuristic::eval(&g), 8 * 24 - 16 * 12 - 80 + 2 * 56 - 16 - 1 + 4 * 4);
    let mut g = tablut_with_draw::Tablut::new(true);
    for p in 0..81 {
        g.set(p, tablut_with_draw::Tile::E);
    }
    g.set(tablut_with_draw::mapc(2, 2), tablut_with_draw::Tile::K);
    g.set(tablut_with_draw::mapc(8, 8), tablut_with_draw::Tile::A);
    assert_eq!(g.king_cell(), 20);
    assert_eq!(KV[20], 8);
    // The king slides 2 + 6 + 2 + 6 cells, the attacker 2 + 2 up to the camps.
    assert_eq!(g.mobility(), (4, 0, 16));
    assert_eq!(TestHeuristic::eval(&g), -12 - 4 + 4 * 16 - 16 + 1 + 8 * 4);
    g.mov(&(tablut_with_draw::mapc(2, 2), tablut_with_draw::mapc(2, 0)));
    assert_eq!(g.state(), State::Win);
    assert_eq!(TestHeuristic::eval(&g), 32768 - 1);
}
