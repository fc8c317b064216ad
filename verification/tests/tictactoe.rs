use game_search::ai::Ai;
use game_search::game::{Game, State};
use game_search::minimax_simple::MinimaxSimple;
use game_search::tictactoe::Ttt;

/// Full-width minimax, written without any pruning.
fn plain_minimax(g: &mut Ttt, depth: u32) -> i64 {
    if g.state() != State::Going || depth == 0 {
        return g.heuristic();
    }
    let first = g.turn();
    let mut best = if first { i64::MIN } else { i64::MAX };
    for m in g.get_moves() {
        let rb = g.mov_with_rollback(&m);
        let h = plain_minimax(g, depth - 1);
        g.rollback(rb);
        best = if first { best.max(h) } else { best.min(h) };
    }
    best
}

#[test]
fn ttt_new_board_is_empty_and_going() {
    let g = Ttt::new(true);
    assert_eq!(g.get_moves(), vec![0, 1, 2, 3, 4, 5, 6, 7, 8]);
    assert_eq!(g.state(), State::Going);
    assert!(g.turn());
    assert_eq!(g.heuristic(), 0);
    assert_eq!(g.get_static_state(), ([2u8; 9], true));
}

#[test]
fn ttt_a_move_marks_the_cell_and_passes_the_turn() {
    let mut g = Ttt::new(true);
    g.mov(&4);
    assert_eq!(g.a, [2, 2, 2, 2, 1, 2, 2, 2, 2]);
    assert!(!g.turn());
    assert_eq!(g.get_moves(), vec![0, 1, 2, 3, 5, 6, 7, 8]);
    g.mov(&0);
    assert_eq!(g.a, [0, 2, 2, 2, 1, 2, 2, 2, 2]);
    assert!(g.turn());
}

#[test]
fn ttt_undo_restores_the_position() {
    let mut g = Ttt::new(true);
    g.mov(&4);
    g.mov(&0);
    let before = g.clone();
    for m in g.get_moves() {
        let rb = g.mov_with_rollback(&m);
        assert_ne!(g, before);
        g.rollback(rb);
        assert_eq!(g, before);
    }
}

#[test]
fn ttt_rows_columns_and_diagonals_decide() {
    let g = Ttt { a: [1, 1, 1, 0, 0, 2, 2, 2, 2], turn: false };
    assert_eq!(g.state(), State::Win);
    assert_eq!(g.heuristic(), 1);
    let g = Ttt { a: [0, 1, 1, 0, 1, 2, 0, 2, 2], turn: true };
    assert_eq!(g.state(), State::Lose);
    assert_eq!(g.heuristic(), -1);
    let g = Ttt { a: [1, 0, 0, 2, 1, 2, 2, 2, 1], turn: false };
    assert_eq!(g.state(), State::Win);
    let g = Ttt { a: [1, 1, 0, 2, 0, 2, 0, 2, 1], turn: true };
    assert_eq!(g.state(), State::Lose);
}

#[test]
fn ttt_a_full_board_without_a_line_is_a_draw() {
    let g = Ttt { a: [1, 0, 1, 1, 0, 0, 0, 1, 1], turn: false };
    assert_eq!(g.state(), State::Draw);
    assert_eq!(g.get_moves(), Vec::<u8>::new());
    assert_eq!(g.heuristic(), 0);
}

#[test]
fn ttt_a_going_position_has_a_move() {
    let mut g = Ttt::new(false);
    let mut n = 0;
    while g.state() == State::Going {
        let moves = g.get_moves();
        assert!(!moves.is_empty());
        g.mov(&moves[n % moves.len()]);
        n += 1;
    }
    assert!(n <= 9);
}

#[test]
fn ttt_equal_positions_have_equal_keys() {
    let mut a = Ttt::new(true);
    a.mov(&0);
    a.mov(&4);
    a.mov(&8);
    let mut b = Ttt::new(true);
    b.mov(&8);
    b.mov(&4);
    b.mov(&0);
    assert_eq!(a.get_static_state(), b.get_static_state());
    assert!(Ttt::same_key(&a.get_static_state(), &b.get_static_state()));
    assert_eq!(
        Ttt::key_digest(&a.get_static_state()),
        Ttt::key_digest(&b.get_static_state())
    );
    b.mov(&1);
    assert_ne!(a.get_static_state(), b.get_static_state());
    assert!(!Ttt::same_key(&a.get_static_state(), &b.get_static_state()));
}

#[test]
fn ttt_alpha_beta_agrees_with_plain_minimax() {
    for depth in 0..=9u32 {
        let mut e = MinimaxSimple::new_with_game(Ttt::new(true));
        let v = e.minimax(i64::MIN, i64::MAX, depth);
        let mut g = Ttt::new(true);
        assert_eq!(v, plain_minimax(&mut g, depth));
        assert_eq!(e.g, Ttt::new(true));
    }
    let mut g = Ttt::new(false);
    g.mov(&0);
    g.mov(&4);
    g.mov(&1);
    for depth in 0..=6u32 {
        let mut e = MinimaxSimple::new_with_game(g.clone());
        let v = e.minimax(i64::MIN, i64::MAX, depth);
        let mut c = g.clone();
        assert_eq!(v, plain_minimax(&mut c, depth));
    }
}

#[test]
fn ttt_a_narrow_window_gives_a_bound_on_the_right_side() {
    // The empty board is worth 0 when searched to the end.
    let mut e = MinimaxSimple::new_with_game(Ttt::new(true));
    assert_eq!(e.minimax(i64::MIN, i64::MAX, 9), 0);
    assert!(e.minimax(0, 1, 9) <= 0);
    assert!(e.minimax(-1, 0, 9) >= 0);
}

#[test]
fn ttt_the_winning_move_is_found() {
    // X to move completes the top row.
    let g = Ttt { a: [1, 1, 2, 0, 0, 2, 2, 2, 2], turn: true };
    let mut e = MinimaxSimple::new_with_game(g);
    assert_eq!(e.get_mov_with_fixed_depth(1), 2);
    assert_eq!(e.get_mov_with_fixed_depth(5), 2);
    // O to move has to complete its own row rather than block.
    let g = Ttt { a: [1, 1, 2, 0, 0, 2, 2, 2, 1], turn: false };
    let mut e = MinimaxSimple::new_with_game(g);
    assert_eq!(e.get_mov_with_fixed_depth(1), 5);
}

#[test]
fn ttt_optimal_play_from_the_empty_board_is_a_draw() {
    for run in 0..100 {
        let mut a = MinimaxSimple::<Ttt>::new(run % 2 == 0);
        let mut b = MinimaxSimple::<Ttt>::new(run % 2 == 0);
        while a.state() == State::Going {
            let m = if a.turn() {
                a.get_mov_with_fixed_depth(9)
            } else {
                b.get_mov_with_fixed_depth(9)
            };
            a.mov(&m);
            b.mov(&m);
        }
        assert_eq!(a.state(), State::Draw);
        assert_eq!(b.state(), State::Draw);
    }
}

#[test]
fn ttt_a_budget_yields_a_legal_move() {
    let mut a = MinimaxSimple::<Ttt>::new(true);
    let m = a.get_mov(std::time::Duration::from_millis(30));
    assert!(a.g.get_moves().contains(&m));
    assert_eq!(a.g, Ttt::new(true));
    let mut b = MinimaxSimple::<Ttt>::new(true);
    let m = b.get_mov(std::time::Duration::from_millis(0));
    assert!(b.g.get_moves().contains(&m));
}
