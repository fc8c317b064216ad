use game_search::ai::Ai;
use game_search::default_heuristic::DefaultHeuristic;
use game_search::game::{Game, State};
use game_search::heuristic::{Heuristic, Native};
use game_search::minimax::{alphabeta, best_move};
use game_search::minimax_final::{MinimaxFinal, Tree};
use game_search::minimax_hard::MinimaxHard;
use game_search::minimax_simple::MinimaxSimple;
use game_search::minimax_tablut::MinimaxTablut;
use game_search::tablut;
use game_search::tablut_with_draw;
use game_search::tictactoe::Ttt;
use game_search::transposition::TranspositionTable;
use std::time::Duration;

/// Full-width minimax over any game, written without any pruning.
fn plain<G: Game, H: Heuristic<G>>(g: &mut G, depth: u32) -> i64 {
    if g.state() != State::Going || depth == 0 {
        return H::eval(g);
    }
    let first = g.turn();
    let mut best = if first { i64::MIN } else { i64::MAX };
    for m in g.get_moves() {
        let rb = g.mov_with_rollback(&m);
        let h = plain::<G, H>(g, depth - 1);
        g.rollback(rb);
        best = if first { best.max(h) } else { best.min(h) };
    }
    best
}

#[test]
fn search_alpha_beta_equals_minimax_on_tic_tac_toe() {
    for depth in 0..=9u32 {
        let mut g = Ttt::new(true);
        let v = alphabeta::<Ttt, Native>(&mut g, i64::MIN, i64::MAX, depth);
        assert_eq!(g, Ttt::new(true));
        assert_eq!(v, plain::<Ttt, Native>(&mut g, depth));
    }
    assert_eq!(plain::<Ttt, Native>(&mut Ttt::new(true), 9), 0);
}

#[test]
fn search_alpha_beta_equals_minimax_on_both_tabluts() {
    for depth in 0..=2u32 {
        for t in [true, false] {
            let mut g = tablut::Tablut::new(t);
            let v = alphabeta::<tablut::Tablut, Native>(&mut g, i64::MIN, i64::MAX, depth);
            assert_eq!(g, tablut::Tablut::new(t));
            assert_eq!(v, plain::<tablut::Tablut, Native>(&mut g, depth));
            let mut g = tablut_with_draw::Tablut::new(t);
            let v = alphabeta::<tablut_with_draw::Tablut, Native>(&mut g, i64::MIN, i64::MAX, depth);
            assert_eq!(g, tablut_with_draw::Tablut::new(t));
            assert_eq!(v, plain::<tablut_with_draw::Tablut, Native>(&mut g, depth));
        }
    }
}

#[test]
fn search_best_move_attains_the_minimax_value() {
    let mut g = Ttt { a: [1, 0, 2, 2, 0, 2, 2, 2, 1], turn: true };
    for depth in 1..=7u32 {
        let (m, v) = best_move::<Ttt, Native>(&mut g, depth);
        assert_eq!(v, plain::<Ttt, Native>(&mut g, depth));
        let rb = g.mov_with_rollback(&m);
        assert_eq!(plain::<Ttt, Native>(&mut g, depth - 1), v);
        g.rollback(rb);
    }
    // O threatens the middle column; only the block at 7 holds the draw.
    assert_eq!(best_move::<Ttt, Native>(&mut g, 7), (7, 0));
}

#[test]
fn search_with_another_heuristic_uses_it_at_the_leaves() {
    let mut g = tablut::Tablut::new(true);
    assert_eq!(
        alphabeta::<tablut::Tablut, DefaultHeuristic>(&mut g, i64::MIN, i64::MAX, 0),
        DefaultHeuristic::eval(&g)
    );
    let v = alphabeta::<tablut::Tablut, DefaultHeuristic>(&mut g, i64::MIN, i64::MAX, 2);
    assert_eq!(v, plain::<tablut::Tablut, DefaultHeuristic>(&mut g, 2));
}

#[test]
fn search_simple_engine_values_and_moves() {
    let mut e = MinimaxSimple::new_with_game(tablut::Tablut::new(false));
    let v = e.minimax(i64::MIN, i64::MAX, 2);
    assert_eq!(v, plain::<tablut::Tablut, Native>(&mut tablut::Tablut::new(false), 2));
    assert!(!e.ended_early);
    assert!(!e.minimax_move(2));
    assert_eq!(e.reached, 2);
    let m = e.last_ans.unwrap();
    let mut g = tablut::Tablut::new(false);
    g.mov(&m);
    assert_eq!(plain::<tablut::Tablut, Native>(&mut g, 1), v);
}

#[test]
fn search_simple_engine_under_a_budget() {
    let mut e = MinimaxSimple::<tablut::Tablut>::new(false);
    let m = e.get_mov(Duration::from_millis(60));
    assert!(e.g.get_moves().contains(&m));
    assert_eq!(e.g, tablut::Tablut::new(false));
    assert!(e.reached >= 1);
    e.mov(&m);
    assert!(e.turn());
    assert_eq!(e.state(), State::Going);
}

#[test]
fn search_tablut_engine_prefers_the_quicker_win() {
    let mut e = <MinimaxTablut as Ai<tablut_with_draw::Tablut>>::new(true);
    let start = e.heur();
    assert_eq!(start, -16 + 1 + 6 * 8 - 3 * 16 + 2 * 56 - 80);
    let v = e.minimax(i64::MIN, i64::MAX, 2);
    assert_eq!(
        v,
        plain::<tablut_with_draw::Tablut, MinimaxTablut>(&mut tablut_with_draw::Tablut::new(true), 2)
    );
    let m = e.minimax_move(2);
    assert!(e.g.get_moves().contains(&m));
    assert_eq!(e.reached, 2);
    // The move chosen is counted once as chosen, and each legal move once as tried.
    let slot = m.0 as usize * 81 + m.1 as usize;
    assert_eq!(e.mf[slot], 1);
    assert_eq!(e.mf.iter().sum::<usize>(), 1);
    assert_eq!(e.mdf.iter().sum::<usize>(), 1);
    assert_eq!(e.mftot.iter().sum::<usize>(), 56);
    assert_eq!(e.mdftot.iter().sum::<usize>(), 56);
    assert_eq!(e.mftot[slot], 1);
}

#[test]
fn search_tablut_engine_values_a_decided_game_by_its_length() {
    let mut g = tablut_with_draw::Tablut::new(true);
    for p in 0..81 {
        g.set(p, tablut_with_draw::Tile::E);
    }
    g.set(tablut_with_draw::mapc(2, 2), tablut_with_draw::Tile::K);
    g.set(tablut_with_draw::mapc(8, 8), tablut_with_draw::Tile::A);
    let mut e = MinimaxTablut::new_with_game(g);
    let m = e.minimax_move(1);
    assert_eq!(m.0, tablut_with_draw::mapc(2, 2));
    e.mov(&m);
    assert_eq!(e.state(), State::Win);
    assert_eq!(e.heur(), 32768 - 1);
}

#[test]
fn search_tablut_engine_under_a_budget() {
    let mut e = <MinimaxTablut as Ai<tablut_with_draw::Tablut>>::new(false);
    let m = e.get_mov(Duration::from_millis(30));
    assert!(e.g.get_moves().contains(&m));
    assert!(e.reached >= 1);
}

#[test]
fn table_keeps_the_deepest_value() {
    let x = Ttt::new(true).get_static_state();
    let mut y = Ttt::new(true);
    y.mov(&4);
    let y = y.get_static_state();
    let mut t = TranspositionTable::<Ttt>::new(0);
    assert_eq!(t.peek(&x), None);
    assert_eq!(t.lookup(&x, 0), None);
    t.store(x, 10, 5);
    assert_eq!(t.lookup(&x, 3), Some(10));
    assert_eq!(t.lookup(&x, 5), Some(10));
    assert_eq!(t.lookup(&x, 7), None);
    assert_eq!(t.peek(&x), Some((10, 5)));
    assert_eq!(t.peek(&y), None);
    // A shallower value does not replace a deeper one.
    t.store(x, 11, 4);
    assert_eq!(t.peek(&x), Some((10, 5)));
    // An equally deep or a deeper one does.
    t.store(x, 12, 5);
    assert_eq!(t.peek(&x), Some((12, 5)));
    t.store(x, 13, 8);
    assert_eq!(t.peek(&x), Some((13, 8)));
    t.store(y, -1, 2);
    assert_eq!(t.peek(&x), Some((13, 8)));
    assert_eq!(t.peek(&y), Some((-1, 2)));
    assert_eq!(t.band(), 0);
}

#[test]
fn table_tolerates_a_shortfall_in_the_band() {
    let x = Ttt::new(true).get_static_state();
    let mut t = TranspositionTable::<Ttt>::new(4);
    t.store(x, 10, 5);
    assert_eq!(t.lookup(&x, 7), Some(10));
    assert_eq!(t.lookup(&x, 9), Some(10));
    assert_eq!(t.lookup(&x, 10), None);
    let mut t = TranspositionTable::<Ttt>::new(4);
    t.store(x, 10, 12);
    assert_eq!(t.lookup(&x, 13), Some(10));
    assert_eq!(t.lookup(&x, 14), None);
    let mut t = TranspositionTable::<Ttt>::new(4);
    t.store(x, 10, 1);
    assert_eq!(t.lookup(&x, 4), None);
    assert_eq!(t.lookup(&x, 5), Some(10));
}

#[test]
fn table_keeps_positions_with_the_same_digest_apart() {
    let mut t = TranspositionTable::<tablut::Tablut>::new(0);
    let mut keys = Vec::new();
    let mut g = tablut::Tablut::new(false);
    for i in 0..40i64 {
        let moves = g.get_moves();
        g.mov(&moves[(i as usize * 5) % moves.len()]);
        if g.state() != State::Going {
            break;
        }
        t.store(g.get_static_state(), i, i as u32);
        keys.push((g.get_static_state(), i));
    }
    assert!(keys.len() > 20);
    for (k, _) in keys.iter() {
        // A position that came twice was stored twice, the deeper value last.
        let last = keys.iter().filter(|(o, _)| o == k).map(|(_, i)| *i).max().unwrap();
        assert_eq!(t.peek(k), Some((last, last as u32)));
    }
}

#[test]
fn search_hard_engine_with_nothing_remembered_is_alpha_beta() {
    for depth in 0..=4u32 {
        let mut e = MinimaxHard::new_with_game(Ttt::new(true));
        let v = e.minimax(i64::MIN, i64::MAX, depth);
        assert_eq!(v, plain::<Ttt, Native>(&mut Ttt::new(true), depth));
        assert_eq!(e.g, Ttt::new(true));
        assert_eq!(e.table.peek(&e.g.get_static_state()), None);
    }
}

#[test]
fn search_hard_engine_remembers_from_depth_five() {
    let mut e = MinimaxHard::new_with_game(Ttt::new(true));
    let v = e.minimax(i64::MIN, i64::MAX, 6);
    let k = e.g.get_static_state();
    assert_eq!(e.table.peek(&k), Some((v, 6)));
    // A remembered value answers a search that it is deep enough for.
    e.table.store(k, 77, 9);
    assert_eq!(e.minimax(i64::MIN, i64::MAX, 9), 77);
    assert_eq!(e.minimax(i64::MIN, i64::MAX, 3), 77);
}

#[test]
fn search_hard_engine_orders_by_what_it_remembers() {
    let mut e = MinimaxHard::new_with_game(Ttt::new(true));
    let plain_order = e.g.get_moves();
    assert_eq!(e.ordered_moves(0), plain_order);
    let mut g = Ttt::new(true);
    g.mov(&8);
    e.table.store(g.get_static_state(), 5, 1);
    let mut g = Ttt::new(true);
    g.mov(&3);
    e.table.store(g.get_static_state(), -5, 1);
    // The first player looks at the highest value first.
    assert_eq!(e.ordered_moves(0), vec![8, 0, 1, 2, 4, 5, 6, 7, 3]);
    e.g.turn = false;
    let mut g = Ttt::new(false);
    g.mov(&8);
    e.table.store(g.get_static_state(), 5, 1);
    let mut g = Ttt::new(false);
    g.mov(&3);
    e.table.store(g.get_static_state(), -5, 1);
    assert_eq!(e.ordered_moves(0), vec![3, 0, 1, 2, 4, 5, 6, 7, 8]);
}

#[test]
fn search_hard_engine_moves() {
    let mut e = MinimaxHard::<Ttt>::new(true);
    let m = e.minimax_move(3);
    assert!(e.g.get_moves().contains(&m));
    let m = e.get_mov(Duration::from_millis(25));
    assert!(e.g.get_moves().contains(&m));
    assert_eq!(e.g, Ttt::new(true));
    // The winning move is among the first six and is found.
    let mut e = MinimaxHard::new_with_game(Ttt { a: [1, 1, 2, 0, 0, 2, 2, 2, 2], turn: true });
    assert_eq!(e.minimax_move(1), 2);
}

#[test]
fn search_final_engine_on_a_fresh_tree_is_alpha_beta() {
    for depth in 0..=6u32 {
        let mut e = MinimaxFinal::new_with_game(Ttt::new(true));
        let mut t = Tree::new();
        e.minimax(i64::MIN, i64::MAX, depth, &mut t);
        assert_eq!(t.val, plain::<Ttt, Native>(&mut Ttt::new(true), depth));
        assert_eq!(t.depth, depth);
        assert_eq!(e.g, Ttt::new(true));
        assert_eq!(t.children.len(), if depth == 0 { 0 } else { 9 });
    }
}

#[test]
fn search_final_engine_keeps_what_is_proven() {
    // A game that the first player wins with the next move, in Tablut
    // with draws, where a win after one move is worth one less than `WON`.
    let mut g = tablut_with_draw::Tablut::new(true);
    for p in 0..81 {
        g.set(p, tablut_with_draw::Tile::E);
    }
    g.set(tablut_with_draw::mapc(2, 2), tablut_with_draw::Tile::K);
    g.set(tablut_with_draw::mapc(8, 8), tablut_with_draw::Tile::A);
    let mut e = MinimaxFinal::new_with_game(g);
    let m = e.get_mov_with_passes(1);
    assert_eq!(e.tree.val, tablut_with_draw::WON - 1);
    assert_eq!(e.tree.depth, 1);
    let kids: Vec<(u32, i64)> = e.tree.children.iter().map(|c| (c.1.depth, c.1.val)).collect();
    // Searching deeper changes nothing any more.
    let again = e.get_mov_with_passes(3);
    assert_eq!(again, m);
    assert_eq!(e.tree.val, tablut_with_draw::WON - 1);
    assert_eq!(e.tree.depth, 1);
    assert_eq!(e.cur_depth, 1);
    let kids2: Vec<(u32, i64)> = e.tree.children.iter().map(|c| (c.1.depth, c.1.val)).collect();
    assert_eq!(kids, kids2);
    let mut t = Tree::new();
    std::mem::swap(&mut t, &mut e.tree);
    e.minimax(i64::MIN, i64::MAX, 5, &mut t);
    assert_eq!((t.val, t.depth), (tablut_with_draw::WON - 1, 1));
    // The move leads the king to an escape square.
    e.tree = t;
    e.mov(&m);
    assert_eq!(e.state(), State::Win);
}

#[test]
fn search_final_engine_reuses_the_tree_across_moves() {
    let mut e = MinimaxFinal::<Ttt>::new(true);
    let m = e.get_mov_with_passes(3);
    assert_eq!(e.cur_depth, 3);
    assert_eq!(e.tree.depth, 3);
    assert_eq!(e.tree.children.len(), 9);
    let under: Vec<u32> =
        e.tree.children.iter().filter(|c| c.0 == m).map(|c| c.1.depth).collect();
    assert_eq!(under, vec![2]);
    e.mov(&m);
    assert_eq!(e.cur_depth, 2);
    assert_eq!(e.tree.depth, 2);
    assert_eq!(e.tree.children.len(), 8);
    // A move that the tree does not hold starts a new tree.
    let mut e = MinimaxFinal::<Ttt>::new(true);
    e.mov(&4);
    assert_eq!(e.tree.children.len(), 0);
    assert_eq!((e.tree.val, e.tree.depth), (0, 0));
    assert!(!e.turn());
}

#[test]
fn search_final_engine_picks_depth_before_value() {
    let mut e = MinimaxFinal::new_with_game(Ttt::new(true));
    let leaf = |val: i64, depth: u32| Tree::<Ttt> { val, depth, children: Vec::new() };
    let t = Tree::<Ttt> {
        val: 0,
        depth: 3,
        children: vec![(0, leaf(5, 1)), (1, leaf(-1, 2)), (2, leaf(-3, 2)), (3, leaf(-1, 2))],
    };
    // The deepest, then the best value for the side to move, the last of equals.
    assert_eq!(e.select(&t), 3);
    e.g.turn = false;
    assert_eq!(e.select(&t), 2);
    assert_eq!(e.select(&Tree::new()), 0);
}

#[test]
fn search_final_engine_under_a_budget() {
    let mut e = MinimaxFinal::<tablut::Tablut>::new(false);
    let m = e.get_mov(Duration::from_millis(40));
    assert!(e.g.get_moves().contains(&m));
    assert_eq!(e.g, tablut::Tablut::new(false));
    e.mov(&m);
    assert!(e.turn());
}

#[test]
fn search_no_engine_beats_optimal_play_at_tic_tac_toe() {
    for run in 0..8 {
        let first = run % 2 == 0;
        let mut x = MinimaxSimple::<Ttt>::new(first);
        let mut o1 = MinimaxFinal::<Ttt>::new(first);
        let mut o2 = MinimaxHard::<Ttt>::new(first);
        while x.state() == State::Going {
            let m = if x.turn() {
                x.get_mov_with_fixed_depth(9)
            } else if run < 4 {
                o1.get_mov_with_passes(9)
            } else {
                o2.minimax_move(3)
            };
            assert!(x.g.get_moves().contains(&m));
            x.mov(&m);
            o1.mov(&m);
            o2.mov(&m);
        }
        assert_eq!(x.state(), o1.state());
        assert_eq!(x.state(), o2.state());
        assert_ne!(x.state(), State::Lose);
    }
}

#[test]
fn search_answers_the_first_of_the_best_moves_in_the_order_tried() {
    // Every move of the opening of tic-tac-toe holds the draw: the first is taken.
    let mut e = MinimaxSimple::new_with_game(Ttt::new(true));
    assert_eq!(e.get_mov_with_fixed_depth(9), 0);
    assert_eq!(best_move::<Ttt, Native>(&mut Ttt::new(true), 9), (0, 0));
    // In Tablut the moves are tried in the order of their keys.
    let mut g = tablut::Tablut::new(false);
    let sorted = g.get_moves_sorted();
    let (m, v) = best_move::<tablut::Tablut, Native>(&mut g, 1);
    let values: Vec<i64> = sorted
        .iter()
        .map(|m| {
            let mut n = g;
            n.mov(m);
            n.heuristic()
        })
        .collect();
    let best = *values.iter().min().unwrap();
    assert_eq!(v, best);
    assert_eq!(m, sorted[values.iter().position(|&x| x == best).unwrap()]);
    // An engine without a budget to speak of answers the first move tried.
    let mut e = MinimaxSimple::<tablut::Tablut>::new(false);
    e.nnw = 255;
    let m = e.get_mov(Duration::from_millis(0));
    if e.reached == 0 {
        assert_eq!(m, sorted[0]);
    }
}

#[test]
fn search_hard_engine_with_nothing_remembered_answers_the_first_of_the_best_it_looks_at() {
    let mut e = MinimaxHard::<Ttt>::new(true);
    assert_eq!(e.minimax_move(3), 0);
    // X holds 0 and 1: the move to 2 wins and is the first that does.
    let mut e = MinimaxHard::new_with_game(Ttt { a: [1, 1, 2, 0, 0, 2, 2, 2, 2], turn: true });
    assert_eq!(e.minimax_move(2), 2);
    // Beyond depth 3 only three moves are looked at: of the moves 2, 5, 6 the
    // first two lose to the reply at 7, and 7 itself is not looked at.
    let lost = Ttt { a: [1, 0, 2, 1, 0, 2, 2, 2, 0], turn: true };
    let mut e = MinimaxHard::new_with_game(lost.clone());
    let three = e.minimax_move(4);
    assert!([2u8, 5, 6].contains(&three));
    let mut values = Vec::new();
    for m in [2u8, 5, 6] {
        let mut g = lost.clone();
        g.mov(&m);
        values.push(plain::<Ttt, Native>(&mut g, 3));
    }
    let best = *values.iter().max().unwrap();
    assert_eq!(three, [2u8, 5, 6][values.iter().position(|&v| v == best).unwrap()]);
}

/// Plays a match of two agents with the budget `tl` for each move, for
/// `cap` moves at most, and makes sure that they see the game alike.
fn compete<G: Game, A: Ai<G>, B: Ai<G>>(tl: Duration, cap: usize) -> State {
    let mut a = A::new(true);
    let mut b = B::new(true);
    let mut g = G::new(true);
    let mut n = 0;
    while a.state() == State::Going && n < cap {
        let m = if a.turn() { a.get_mov(tl) } else { b.get_mov(tl) };
        assert!(g.get_moves().iter().any(|x| G::same_move(x, &m)));
        a.mov(&m);
        b.mov(&m);
        g.mov(&m);
        assert_eq!(a.state(), b.state());
        assert_eq!(a.state(), g.state());
        assert_eq!(a.turn(), b.turn());
        n += 1;
    }
    a.state()
}

#[test]
fn test_times() {
    compete::<tablut::Tablut, MinimaxSimple<tablut::Tablut>, MinimaxSimple<tablut::Tablut>>(
        Duration::from_millis(300),
        16,
    );
}

#[test]
fn search_engines_of_different_kinds_see_the_game_alike() {
    let tl = Duration::from_millis(25);
    compete::<tablut::Tablut, MinimaxFinal<tablut::Tablut>, MinimaxHard<tablut::Tablut>>(tl, 12);
    compete::<tablut_with_draw::Tablut, MinimaxTablut, MinimaxSimple<tablut_with_draw::Tablut>>(
        tl, 12,
    );
    let end = compete::<Ttt, MinimaxSimple<Ttt>, MinimaxFinal<Ttt>>(tl, 9);
    assert_ne!(end, State::Going);
    assert_ne!(end, State::Lose);
}

#[test]
fn search_final_engine_goes_one_ply_deeper_with_each_pass() {
    for passes in 1..=5u32 {
        let mut e = MinimaxFinal::new_with_game(Ttt::new(true));
        let m = e.get_mov_with_passes(passes);
        assert!(e.g.get_moves().contains(&m));
        assert_eq!(e.cur_depth, passes);
        assert_eq!(e.tree.depth, passes);
        assert_eq!(e.tree.val, plain::<Ttt, Native>(&mut Ttt::new(true), passes));
        assert_eq!(e.tree.children.len(), 9);
        // The children stand in the order of their values before the last
        // pass, and hold each legal move once.
        let mut moves: Vec<u8> = e.tree.children.iter().map(|c| c.0).collect();
        moves.sort();
        assert_eq!(moves, e.g.get_moves());
    }
    // Passes in two runs are passes in one.
    let mut a = MinimaxFinal::new_with_game(Ttt::new(true));
    let mut b = MinimaxFinal::new_with_game(Ttt::new(true));
    a.get_mov_with_passes(2);
    let ma = a.get_mov_with_passes(2);
    let mb = b.get_mov_with_passes(4);
    assert_eq!(ma, mb);
    assert_eq!(a.tree.val, b.tree.val);
    assert_eq!(a.tree.depth, b.tree.depth);
    // No pass at all answers the first move and leaves the tree alone.
    let mut c = MinimaxFinal::new_with_game(Ttt::new(true));
    assert_eq!(c.get_mov_with_passes(0), 0);
    assert_eq!(c.tree.children.len(), 0);
    assert_eq!(c.cur_depth, 0);
}

#[test]
fn search_hard_engine_answers_by_table_and_position_alone() {
    let g = Ttt::new(true);
    let k = g.get_static_state();
    let mut a = MinimaxHard::new_with_game(g.clone());
    let mut b = MinimaxHard::new_with_game(g.clone());
    for depth in 1..=7u32 {
        assert_eq!(a.minimax_move(depth), b.minimax_move(depth));
        assert_eq!(a.table.peek(&k), b.table.peek(&k));
        assert_eq!(a.table.peek(&k).map(|e| e.1), if depth >= 5 { Some(depth) } else { None });
    }
    // What is kept is the deepest: a shallower search leaves it alone.
    let kept = a.table.peek(&k);
    a.minimax_move(5);
    assert_eq!(a.table.peek(&k), kept);
}

#[test]
fn search_hard_engine_takes_no_value_from_a_search_too_shallow() {
    // With a value of depth 5 remembered for the position, a search of 7
    // plies finds what it finds with nothing remembered; one of 3 plies is
    // answered from memory.
    let g = Ttt::new(true);
    let k = g.get_static_state();
    let mut e = MinimaxHard::new_with_game(g.clone());
    e.table.store(k, 10, 5);
    assert_eq!(e.table.lookup(&k, 7), None);
    assert_eq!(e.minimax(i64::MIN, i64::MAX, 7), plain::<Ttt, Native>(&mut g.clone(), 7));
    let mut e = MinimaxHard::new_with_game(g.clone());
    e.table.store(k, 10, 5);
    assert_eq!(e.minimax(i64::MIN, i64::MAX, 3), 10);
    assert_eq!(e.table.peek(&k), Some((10, 5)));
    assert_eq!(e.table.lookup(&k, 6), Some(10));
    assert_eq!(e.g, g);
}

#[test]
fn search_hard_engine_finds_the_best_of_all_moves_whatever_it_remembers() {
    // The last move generated is the only one that wins within two
    // plies: it is found though it comes after the sixth.
    let g = Ttt { a: [2, 2, 2, 2, 2, 2, 1, 1, 2], turn: true };
    assert_eq!(g.get_moves().len(), 7);
    assert_eq!(*g.get_moves().last().unwrap(), 8);
    for depth in 1..=2u32 {
        let mut e = MinimaxHard::new_with_game(g.clone());
        assert_eq!(e.minimax_move(depth), 8);
        assert!(!e.ended_early);
    }
    // What is remembered of the positions after the moves puts them in
    // another order and changes nothing of the answer.
    for junk in [-50i64, 0, 50] {
        let mut e = MinimaxHard::new_with_game(g.clone());
        for m in g.get_moves() {
            let mut h = g.clone();
            h.mov(&m);
            e.table.store(h.get_static_state(), if m == 8 { -junk } else { junk }, 9);
        }
        assert_eq!(e.minimax_move(2), 8);
    }
    // Three plies deep the first move wins as well, with two threats, and
    // is answered as the first of the best.
    let mut e = MinimaxHard::new_with_game(g.clone());
    assert_eq!(e.minimax_move(3), 0);
    // On the empty board every move draws, and the first is answered.
    let mut e = MinimaxHard::new_with_game(Ttt::new(true));
    let m = e.minimax_move(9);
    let mut h = Ttt::new(true);
    h.mov(&m);
    assert_eq!(plain::<Ttt, Native>(&mut h, 8), plain::<Ttt, Native>(&mut Ttt::new(true), 9));
    assert_eq!(plain::<Ttt, Native>(&mut Ttt::new(true), 9), 0);
}

#[test]
fn search_final_engine_goes_on_with_the_tree_under_the_move() {
    let mut e = MinimaxFinal::new_with_game(Ttt::new(true));
    e.get_mov_with_passes(3);
    assert_eq!(e.cur_depth, 3);
    let under: Vec<(u32, i64, usize)> = e
        .tree
        .children
        .iter()
        .filter(|c| c.0 == 4)
        .map(|c| (c.1.depth, c.1.val, c.1.children.len()))
        .collect();
    assert_eq!(under.len(), 1);
    e.mov(&4);
    assert_eq!((e.tree.depth, e.tree.val, e.tree.children.len()), under[0]);
    assert_eq!(e.cur_depth, 2);
    // A move that the tree holds no child for leaves nothing found.
    let mut e = MinimaxFinal::new_with_game(Ttt::new(true));
    e.mov(&4);
    assert_eq!((e.tree.depth, e.tree.val, e.tree.children.len()), (0, 0, 0));
    assert_eq!(e.cur_depth, 0);
}
