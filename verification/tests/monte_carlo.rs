use game_search::ai::Ai;
use game_search::game::{Game, State};
use game_search::mancala::Mancala;
use game_search::mcts_heuristic;
use game_search::monte_carlo::{pick_rate, MonteCarlo};
use game_search::monte_carlo_total::{pick, MonteCarloTotal};
use game_search::monte_carlo_tree_search::{
    appraise, final_choice, pick_child, MonteCarloTreeSearch, Policy, Shure, Tree, WinRate,
};
use game_search::othello::Othello;
use game_search::playout::{guided_playout, random_playout};
use game_search::clock::Stopwatch;
use game_search::random::{coin, drawn_or_seeded, fresh_rng, heads};
use game_search::random_agent::{random_play, RandomAgent};
use game_search::tablut;
use game_search::tablut_with_draw;
use game_search::tictactoe::Ttt;
use game_search::ucb::{log2, log2_quarters, log2_wide, sqrt, Ucb};
use rand::SeedableRng;
use rand_xoshiro::Xoroshiro128Plus;
use std::time::Duration;

fn rng(seed: u64) -> Xoroshiro128Plus {
    Xoroshiro128Plus::seed_from_u64(seed)
}

fn test_rollback<G: Game + Clone>(seed: u64)
where
    G::S: PartialEq + std::fmt::Debug,
{
    let mut a = RandomAgent::<G>::new_with_rng(G::new(true), rng(seed));
    let mut b = RandomAgent::<G>::new_with_rng(G::new(true), rng(seed + 1));
    let mut g = G::new(true);
    let mut v: Vec<(G, Option<G::R>)> = vec![(g.clone(), None)];
    let tl = Duration::from_millis(10);
    let mut n = 0;
    while g.state() == State::Going && n < 400 {
        let m = if g.turn() { a.get_mov(tl) } else { b.get_mov(tl) };
        let rb = g.mov_with_rollback(&m);
        a.mov(&m);
        b.mov(&m);
        v.push((g.clone(), Some(rb)));
        n += 1;
    }
    while let Some(x) = v.pop() {
        assert_eq!(x.0.get_static_state(), g.get_static_state());
        if let Some(rb) = x.1 {
            g.rollback(rb);
        }
    }
}

#[test]
fn rollbacks_test() {
    test_rollback::<Mancala>(1);
    test_rollback::<Ttt>(2);
    test_rollback::<tablut::Tablut>(3);
    test_rollback::<tablut_with_draw::Tablut>(4);
    test_rollback::<Othello>(5);
}

#[test]
fn random_generators_are_drawn_from() {
    let mut r = fresh_rng(7);
    let mut heads = 0;
    for _ in 0..200 {
        if coin(&mut r) {
            heads += 1;
        }
    }
    assert!(heads > 40 && heads < 160);
}

#[test]
fn random_agent_plays_legal_moves() {
    let mut a = RandomAgent::<Ttt>::new(true);
    let mut seen = std::collections::HashSet::new();
    for _ in 0..200 {
        let m = a.get_mov(Duration::from_millis(1));
        assert!(a.g.get_moves().contains(&m));
        seen.insert(m);
    }
    assert!(seen.len() > 1);
    a.mov(&4);
    assert!(!a.turn());
    assert_eq!(a.state(), State::Going);
}

#[test]
fn random_play_ends_the_game() {
    let mut r = rng(11);
    for _ in 0..20 {
        let (st, n) = random_play::<Ttt>(&mut r, 100);
        assert_ne!(st, State::Going);
        assert!(n >= 5 && n <= 9);
    }
    let (st, n) = random_play::<Ttt>(&mut r, 3);
    assert_eq!((st, n), (State::Going, 3));
    let (st, n) = random_play::<tablut::Tablut>(&mut r, 100_000);
    assert_ne!(st, State::Going);
    assert!(n > 0);
    let (st, _) = random_play::<tablut_with_draw::Tablut>(&mut r, 100_000);
    assert_ne!(st, State::Going);
}

#[test]
fn playouts_leave_the_position_as_it_was() {
    let mut r = rng(5);
    let mut g = tablut::Tablut::new(false);
    for _ in 0..5 {
        let st = random_playout(&mut g, &mut r, 5000);
        assert_ne!(st, State::Going);
        assert_eq!(g, tablut::Tablut::new(false));
    }
    assert_eq!(random_playout(&mut g, &mut r, 2), State::Going);
    assert_eq!(random_playout(&mut g, &mut r, 0), State::Going);
    let mut g = tablut_with_draw::Tablut::new(true);
    let st = random_playout(&mut g, &mut r, 5000);
    assert_ne!(st, State::Going);
    assert_eq!(g, tablut_with_draw::Tablut::new(true));
    let mut won = Ttt { a: [1, 1, 1, 0, 0, 2, 2, 2, 2], turn: false };
    assert_eq!(random_playout(&mut won, &mut r, 10), State::Win);
}

#[test]
fn guided_playouts_follow_the_best_moves() {
    // X completes the top row at once.
    let mut g = Ttt { a: [1, 1, 2, 0, 0, 2, 2, 2, 2], turn: true };
    let before = g.clone();
    assert_eq!(guided_playout(&mut g, 2, 51), (State::Win, 1));
    assert_eq!(g, before);
    // X has a double threat: O blocks, X wins.
    let mut g = Ttt { a: [1, 2, 0, 2, 0, 2, 1, 2, 1], turn: false };
    assert_eq!(guided_playout(&mut g, 2, 51), (State::Win, 2));
    assert_eq!(guided_playout(&mut g, 2, 1).1, 1);
    assert_eq!(guided_playout(&mut g, 2, 0), (State::Going, 0));
}

#[test]
fn flat_monte_carlo_picks_the_last_of_the_best() {
    assert_eq!(pick(&vec![3, 9, 2, 9, 1]), 3);
    assert_eq!(pick(&vec![0, 0, 0]), 2);
    assert_eq!(pick(&vec![5]), 0);
}

#[test]
fn flat_monte_carlo_finds_the_winning_move() {
    let g = Ttt { a: [1, 1, 2, 0, 0, 2, 2, 2, 2], turn: true };
    let mut e = MonteCarloTotal::new_with_rng(g.clone(), rng(3));
    assert_eq!(e.explore_branch(&2, true), 1);
    assert_eq!(e.explore_branch(&2, false), 0);
    assert_eq!(e.g, g);
    assert_eq!(e.get_mov_with_rounds(40), 2);
    assert_eq!(e.rounds, 40);
    assert_eq!(e.g, g);
    let mut e = MonteCarloTotal::<Ttt>::new(true);
    let m = e.get_mov(Duration::from_millis(30));
    assert!(e.g.get_moves().contains(&m));
    assert!(e.rounds >= 1);
    e.mov(&m);
    assert!(!e.turn());
    assert_eq!(e.state(), State::Going);
}

#[test]
fn table_monte_carlo_picks_the_best_rate() {
    assert_eq!(pick_rate(&vec![1, 2, 3], &vec![2, 3, 4]), 2);
    assert_eq!(pick_rate(&vec![1, 2, 1], &vec![2, 4, 2]), 0);
    assert_eq!(pick_rate(&vec![0, 0], &vec![5, 7]), 0);
    assert_eq!(pick_rate(&vec![0, 1], &vec![5, 7]), 1);
    assert_eq!(pick_rate(&vec![], &vec![]), 0);
}

#[test]
fn table_monte_carlo_finds_the_winning_move() {
    let g = Ttt { a: [1, 1, 2, 0, 0, 2, 2, 2, 2], turn: true };
    let mut e = MonteCarlo::new_with(g.clone(), rng(9), Ucb { c: 1500 });
    assert!(e.step());
    assert_eq!(e.g, g);
    assert_eq!(e.get_mov_with_steps(300), 2);
    assert_eq!(e.g, g);
    // Each of the five moves was simulated once; then the way through the
    // table ends in the won game, and nothing more is counted.
    let root = e.table.peek(&g.get_static_state()).unwrap();
    assert_eq!(root.1, 5);
    assert!(root.0 >= 1 && root.0 <= 5);
    assert!(!e.step());
    // A decided game is not simulated.
    let mut over = MonteCarlo::new_with(
        Ttt { a: [1, 1, 1, 0, 0, 2, 2, 2, 2], turn: false },
        rng(9),
        WinRate,
    );
    assert!(!over.step());
    let mut e = MonteCarlo::<Ttt, Ucb>::new(true);
    let m = e.get_mov(Duration::from_millis(30));
    assert!(e.g.get_moves().contains(&m));
    e.mov(&m);
    assert!(!e.turn());
}

#[test]
fn tree_search_picks_by_urgency_and_by_weight() {
    assert_eq!(pick_child(&vec![3, 9, 9, 1], &vec![false, false, false, false]), 1);
    assert_eq!(pick_child(&vec![3, 9, 9, 1], &vec![false, true, false, false]), 2);
    assert_eq!(pick_child(&vec![3, 9, 9, 1], &vec![true, true, true, false]), 3);
    assert_eq!(pick_child(&vec![3, 9], &vec![true, true]), 0);
    assert_eq!(pick_child(&vec![0, -4], &vec![false, false]), 0);
    assert_eq!(pick_child(&vec![], &vec![]), 0);
    let leaf = |vis: u64, shure: Shure| Tree::<Ttt> {
        wins: 0,
        vis,
        movs: Vec::new(),
        shure,
        children: Vec::new(),
    };
    let cs = vec![leaf(5, Shure::No), leaf(9, Shure::No), leaf(9, Shure::No), leaf(2, Shure::Loss)];
    assert_eq!(final_choice(&cs, true), 1);
    assert_eq!(final_choice(&cs, false), 3);
    let cs = vec![leaf(5, Shure::Loss), leaf(1, Shure::Win), leaf(9, Shure::No)];
    assert_eq!(final_choice(&cs, true), 1);
    assert_eq!(final_choice(&cs, false), 0);
    let cs = vec![leaf(0, Shure::No), leaf(0, Shure::Loss)];
    assert_eq!(final_choice(&cs, true), 0);
    assert_eq!(final_choice(&Vec::<Tree<Ttt>>::new(), true), 0);
}

#[test]
fn tree_search_appraises_a_simulation() {
    assert_eq!(appraise(State::Win, 0, 51, false), (2, Shure::Win));
    assert_eq!(appraise(State::Win, 2, 51, false), (2, Shure::Win));
    assert_eq!(appraise(State::Win, 3, 51, true), (2, Shure::No));
    assert_eq!(appraise(State::Lose, 1, 51, true), (0, Shure::Loss));
    assert_eq!(appraise(State::Lose, 30, 51, true), (0, Shure::No));
    assert_eq!(appraise(State::Draw, 1, 51, true), (1, Shure::No));
    assert_eq!(appraise(State::Going, 51, 51, true), (2, Shure::No));
    assert_eq!(appraise(State::Win, 51, 51, false), (0, Shure::No));
    assert_eq!(WinRate.urgency(6, 4, 10), 750);
    assert_eq!(WinRate.urgency(0, 4, 10), 1);
    assert_eq!(WinRate.urgency(0, 0, 10), 1000);
}

#[test]
fn tree_search_finds_a_forced_win_and_marks_it_proven() {
    // O threatens 6; X has to play there and then holds two threats.
    let g = Ttt { a: [1, 2, 0, 2, 0, 2, 2, 2, 1], turn: true };
    let mut e = MonteCarloTreeSearch::new_with(g.clone(), rng(21), Ucb { c: 1300 });
    let m = e.get_mov_with_steps(30);
    assert_eq!(m, 6);
    assert_eq!(e.g, g);
    assert_eq!(e.tot, 30);
    assert_eq!(e.tree.vis, 30);
    assert!(e.tree.wins <= 60);
    assert_eq!(e.tree.movs, vec![1, 3, 5, 6, 7]);
    assert_eq!(e.tree.children.len(), 5);
    let at = e.tree.movs.iter().position(|&x| x == 6).unwrap();
    assert_eq!(e.tree.children[at].shure, Shure::Win);
    for (i, c) in e.tree.children.iter().enumerate() {
        if i != at {
            assert_eq!(c.shure, Shure::Loss);
        }
        assert!(c.vis >= 1);
        assert!(c.wins <= 2 * c.vis);
    }
    assert_eq!(e.tree.vis, 1 + e.tree.children.iter().map(|c| c.vis).sum::<u64>());
    assert_eq!(e.tree.shure, Shure::No);
    // The simulations under the children add up as well.
    for c in e.tree.children.iter() {
        if !c.children.is_empty() {
            assert_eq!(c.vis, 1 + c.children.iter().map(|d| d.vis).sum::<u64>());
        }
    }
}

#[test]
fn tree_search_hands_what_is_certain_up_the_tree() {
    // X wins whatever it plays: both moves complete a line.
    let g = Ttt { a: [1, 1, 2, 1, 0, 0, 2, 0, 0], turn: true };
    let mut e = MonteCarloTreeSearch::new_with(g.clone(), rng(2), WinRate);
    e.get_mov_with_steps(8);
    assert_eq!(e.tree.children.len(), 2);
    assert!(e.tree.children.iter().all(|c| c.shure == Shure::Win));
    assert_eq!(e.tree.shure, Shure::Win);
}

#[test]
fn tree_search_goes_on_with_the_subtree_of_the_move() {
    let g = Ttt::new(true);
    let mut e = MonteCarloTreeSearch::new_with(g, rng(4), Ucb { c: 1300 });
    let m = e.get_mov_with_steps(60);
    assert!(e.g.get_moves().contains(&m));
    let at = e.tree.movs.iter().position(|&x| x == m).unwrap();
    let vis = e.tree.children[at].vis;
    let wins = e.tree.children[at].wins;
    e.commit(&m);
    assert_eq!((e.tree.vis, e.tree.wins), (vis, wins));
    assert!(!e.g.turn());
    // A move that has no child starts a new tree.
    let mut e = MonteCarloTreeSearch::new_with(Ttt::new(true), rng(4), WinRate);
    e.get_mov_with_steps(3);
    assert_eq!(e.tree.children.len(), 2);
    e.commit(&8);
    assert_eq!((e.tree.vis, e.tree.children.len()), (0, 0));
    let mut e = MonteCarloTreeSearch::<Ttt, Ucb>::new(true);
    let m = e.get_mov(Duration::from_millis(20));
    assert!(e.g.get_moves().contains(&m));
    e.mov(&m);
    assert!(!e.turn());
    assert_eq!(e.state(), State::Going);
}

#[test]
fn tree_search_remembers_the_simulations() {
    let g = Ttt { a: [1, 1, 2, 0, 0, 2, 2, 2, 2], turn: true };
    let mut e = MonteCarloTreeSearch::new_with(g.clone(), rng(8), WinRate);
    let first = e.explore_branch();
    assert_eq!(first, (2, Shure::Win));
    assert_eq!(e.hits, 0);
    assert_eq!(e.explore_branch(), first);
    assert_eq!(e.hits, 1);
    assert_eq!(e.g, g);
}

#[test]
fn tablut_tree_search_grows_and_thins_its_tree() {
    let g = tablut::Tablut::new(false);
    let mut e = mcts_heuristic::MonteCarloTreeSearch::new_with(g, rng(13), Ucb { c: 1200 });
    let mut t = mcts_heuristic::Tree::new(0, g, (0, 0));
    assert_eq!(t.count_nodes(), (1, 0));
    let x = e.step(&mut t);
    assert!(x <= 1);
    assert_eq!((t.vis, t.wins, t.children.len()), (1, x, 0));
    for _ in 0..99 {
        e.step(&mut t);
    }
    assert_eq!(e.g, g);
    assert_eq!(t.vis, 100);
    assert!(t.wins <= 100);
    // 80 moves: each got its child, and 19 simulations went on from there.
    assert_eq!(t.children.len(), 80);
    assert_eq!(t.children.iter().map(|c| c.vis).sum::<u64>(), 99);
    let mut moves: Vec<(u8, u8)> = t.children.iter().map(|c| c.prev_move).collect();
    let mut legal = g.get_moves();
    moves.sort();
    legal.sort();
    assert_eq!(moves, legal);
    for c in t.children.iter() {
        assert_eq!(c.depth, 1);
        let mut n = g;
        n.mov(&c.prev_move);
        assert_eq!(c.state, n);
    }
    let (nodes, kids) = t.count_nodes();
    assert_eq!(kids, 80);
    assert!(nodes >= 81);
    let best = t.most_visited();
    assert!(t.children.iter().all(|c| c.vis <= t.children[best].vis));
    assert!(t.children[..best].iter().all(|c| c.vis < t.children[best].vis));
    let kept: Vec<(u8, u8)> =
        t.children.iter().filter(|c| c.vis > 3).map(|c| c.prev_move).collect();
    t.prune();
    assert_eq!(t.children.iter().map(|c| c.prev_move).collect::<Vec<_>>(), kept);
    assert_eq!(t.vis, 100);
    fn thin(t: &mcts_heuristic::Tree) -> bool {
        t.children.iter().all(|c| c.vis > 3 && thin(c))
    }
    assert!(thin(&t));
}

#[test]
fn tablut_tree_search_takes_the_moves_in_the_order_given() {
    let g = tablut::Tablut::new(false);
    let mut e = mcts_heuristic::MonteCarloTreeSearch::new_with(g, rng(1), WinRate);
    let mut t = mcts_heuristic::Tree::new(0, g, (0, 0));
    let movs = g.get_moves();
    e.step_on(&mut t, movs.clone());
    e.step_on(&mut t, movs.clone());
    e.step_on(&mut t, movs.clone());
    assert_eq!(t.children.len(), 2);
    assert_eq!(t.children[0].prev_move, movs[0]);
    assert_eq!(t.children[1].prev_move, movs[1]);
    // The fixed shuffle puts the moves in another order, always the same.
    let mut t1 = mcts_heuristic::Tree::new(0, g, (0, 0));
    let mut t2 = mcts_heuristic::Tree::new(0, g, (0, 0));
    for _ in 0..6 {
        e.step(&mut t1);
        e.step(&mut t2);
    }
    let o1: Vec<(u8, u8)> = t1.children.iter().map(|c| c.prev_move).collect();
    let o2: Vec<(u8, u8)> = t2.children.iter().map(|c| c.prev_move).collect();
    assert_eq!(o1, o2);
    assert_eq!(o1.len(), 5);
    assert_ne!(o1, movs[..5].to_vec());
}

#[test]
fn tablut_tree_search_runs_down_the_most_tried_line() {
    let g = tablut::Tablut::new(false);
    let mut e = mcts_heuristic::MonteCarloTreeSearch::new_with(g, rng(17), Ucb { c: 1200 });
    let mut t = mcts_heuristic::Tree::new(0, g, (0, 0));
    e.run_at(&mut t, 0, 120);
    assert_eq!(t.vis, 120);
    let best = t.most_visited();
    let before = t.children[best].vis;
    e.run_at(&mut t, 1, 10);
    assert_eq!(t.vis, 120);
    assert_eq!(t.children[best].vis, before + 10);
    assert_eq!(e.g, g);
    assert_eq!(e.result_u64(State::Win), 1);
    assert_eq!(e.result_u64(State::Lose), 0);
    assert!(e.result_u64(State::Draw) <= 1);
    assert_eq!(mcts_heuristic::result_of(State::Going, true), 1);
    assert_eq!(mcts_heuristic::result_of(State::Going, false), 0);
    assert!(e.explore_branch() <= 1);
    let fresh = mcts_heuristic::MonteCarloTreeSearch::new(true, WinRate);
    assert_eq!(fresh.g, tablut::Tablut::new(true));
}

#[test]
fn tablut_tree_search_tells_a_tree_that_does_not_belong() {
    let g = tablut::Tablut::new(false);
    let mut e = mcts_heuristic::MonteCarloTreeSearch::new_with(g, rng(3), WinRate);
    let mut t = mcts_heuristic::Tree::new(0, g, (0, 0));
    for _ in 0..90 {
        e.step(&mut t);
    }
    assert!(t.fitting(&g));
    assert!(!t.fitting(&tablut::Tablut::new(true)));
    let mut bad = mcts_heuristic::Tree::new(0, g, (0, 0));
    bad.wins = 1;
    assert!(!bad.fitting(&g));
    let m = t.children[0].prev_move;
    // A child under a move that is not legal.
    t.children[0].prev_move = (1, 1);
    assert!(!t.fitting(&g));
    t.children[0].prev_move = m;
    assert!(t.fitting(&g));
    // A child that holds the key of another position.
    t.children[3].state = g;
    assert!(!t.fitting(&g));
}

#[test]
fn ucb_logarithm_and_root_in_whole_numbers() {
    assert_eq!(log2(0), 0);
    assert_eq!(log2(1), 0);
    assert_eq!(log2(2), 1);
    assert_eq!(log2(3), 1);
    assert_eq!(log2(1024), 10);
    assert_eq!(log2(1025), 10);
    assert_eq!(log2(u64::MAX), 63);
    assert_eq!(log2_wide(0), 0);
    assert_eq!(log2_wide(1 << 100), 100);
    assert_eq!(log2_wide(u128::MAX), 127);
    // In quarters: the logarithm of 3 is a little over six quarters.
    assert_eq!(log2_quarters(0), 0);
    assert_eq!(log2_quarters(1), 0);
    assert_eq!(log2_quarters(2), 4);
    assert_eq!(log2_quarters(3), 6);
    assert_eq!(log2_quarters(10), 13);
    assert_eq!(log2_quarters(0xffff_ffff), 127);
    assert_eq!(log2_quarters(0x1_0000_0000), 128);
    assert_eq!(log2_quarters(u64::MAX), 252);
    assert_eq!(sqrt(0), 0);
    assert_eq!(sqrt(1), 1);
    assert_eq!(sqrt(3), 1);
    assert_eq!(sqrt(4), 2);
    assert_eq!(sqrt(99), 9);
    assert_eq!(sqrt(100), 10);
    assert_eq!(sqrt(693_000), 832);
    assert_eq!(sqrt(u64::MAX), 0xffff_ffff);
}

#[test]
fn ucb_urgency_is_the_rate_and_a_bonus() {
    let p = Ucb { c: 1300 };
    // Three wins in four tries; the parent was tried sixteen times:
    // 750 and 1.3 times the root of 693 * 4 * 1000 / 4.
    assert_eq!(p.urgency(6, 4, 16), 750 + 1300 * 832 / 1000);
    // The bonus shrinks as the child is tried more often.
    assert_eq!(p.urgency(6, 4, 16), 1831);
    assert_eq!(p.urgency(60, 40, 16), 750 + 1300 * 263 / 1000);
    assert_eq!(p.urgency(0, 1, 1), 0);
    // The parent tried three times: the root of 693 * 6 * 250 is 1019,
    // where the root of the logarithm of 3 is 1.048.
    assert_eq!(Ucb { c: 1000 }.urgency(0, 1, 3), 1019);
    assert_eq!(p.urgency(0, 0, 5), i64::MAX);
    assert_eq!(Ucb { c: 0 }.urgency(2, 1, 1000), 1000);
    assert_eq!(Ucb { c: u64::MAX }.urgency(2, 1, u64::MAX), i64::MAX);
}

#[test]
fn ucb_tree_search_finds_the_forced_win() {
    let g = Ttt { a: [1, 2, 0, 2, 0, 2, 2, 2, 1], turn: true };
    let mut e = MonteCarloTreeSearch::new_with(g.clone(), rng(5), Ucb { c: 1300 });
    assert_eq!(e.get_mov_with_steps(40), 6);
    let at = e.tree.movs.iter().position(|&x| x == 6).unwrap();
    assert_eq!(e.tree.children[at].shure, Shure::Win);
    // Without anything known for certain the simulations find the best move too.
    let g = Ttt { a: [1, 1, 2, 0, 0, 2, 2, 2, 2], turn: true };
    let mut e = MonteCarlo::new_with(g, rng(6), Ucb { c: 1500 });
    assert_eq!(e.get_mov_with_steps(100), 2);
}

#[test]
fn table_monte_carlo_counts_along_the_line() {
    let g = Ttt::new(true);
    let mut e = MonteCarlo::new_with(g.clone(), rng(31), Ucb { c: 1500 });
    // With nothing in the table every move stands at one win in two, and
    // the first is answered.
    assert_eq!(e.get_mov_with_steps(0), g.get_moves()[0]);
    assert_eq!(e.table.peek(&g.get_static_state()), None);
    // The first simulation goes into the first move, which the table does
    // not hold, and counts for the position and for the one after the move.
    assert!(e.step());
    let mut after = g.clone();
    after.mov(&g.get_moves()[0]);
    let root = e.table.peek(&g.get_static_state()).unwrap();
    let child = e.table.peek(&after.get_static_state()).unwrap();
    assert_eq!(root.1, 1);
    assert_eq!(child.1, 1);
    assert_eq!(root.0, child.0);
    assert!(root.0 == 0 || root.0 == 1);
    // The second goes into the second move.
    assert!(e.step());
    let mut second = g.clone();
    second.mov(&g.get_moves()[1]);
    assert_eq!(e.table.peek(&g.get_static_state()).unwrap().1, 2);
    assert_eq!(e.table.peek(&after.get_static_state()).unwrap(), child);
    assert_eq!(e.table.peek(&second.get_static_state()).unwrap().1, 1);
}

#[test]
fn flat_monte_carlo_without_rounds_answers_the_last_move() {
    let g = Ttt::new(true);
    let mut e = MonteCarloTotal::new_with_rng(g.clone(), rng(3));
    assert_eq!(e.get_mov_with_rounds(0), *g.get_moves().last().unwrap());
    assert_eq!(e.rounds, 0);
}

#[test]
fn tree_search_tries_each_move_before_any_twice() {
    let g = Ttt::new(true);
    let mut e = MonteCarloTreeSearch::new_with(g.clone(), rng(12), Ucb { c: 1300 });
    let mut t = Tree::<Ttt>::new();
    // The first simulation is of the position itself; each of the next
    // nine gives one more move its child.
    for k in 0..10u64 {
        let x = e.step(&mut t);
        assert!(x <= 2);
        assert_eq!(t.vis, k + 1);
        assert_eq!(t.children.len() as u64, k);
    }
    assert_eq!(t.movs, g.get_moves());
    assert!(t.children.iter().all(|c| c.vis == 1));
    // With every move tried, the next simulation goes through the child of
    // greatest urgency and through no other.
    let first = g.turn();
    let scores: Vec<i64> = t
        .children
        .iter()
        .map(|c| e.policy.urgency(if first { c.wins } else { 2 * c.vis - c.wins }, c.vis, t.vis))
        .collect();
    let known: Vec<bool> = t.children.iter().map(|c| c.shure != Shure::No).collect();
    let k = pick_child(&scores, &known);
    e.step(&mut t);
    for (j, c) in t.children.iter().enumerate() {
        assert_eq!(c.vis, if j == k { 2 } else { 1 });
    }
    assert_eq!(e.g, g);
}

#[test]
fn clock_keeps_a_margin_of_the_budget() {
    let w = Stopwatch::start_millis(100);
    assert_eq!(w.limit, 80);
    assert!(!w.over(0));
    assert!(!w.over(80));
    assert!(w.over(81));
    let w = Stopwatch::start_millis(5);
    assert_eq!(w.limit, 0);
    assert!(!w.over(0));
    assert!(w.over(1));
    let w = Stopwatch::start(&Duration::from_millis(1020));
    assert_eq!(w.limit, 1000);
    assert!(!w.expired());
    assert!(Stopwatch::start(&Duration::from_millis(0)).over(1));
}

#[test]
fn random_bits_show_heads_by_their_lowest_bit() {
    assert!(heads(1));
    assert!(heads(u32::MAX));
    assert!(!heads(0));
    assert!(!heads(2));
    // The generator that was drawn is kept; the seed serves where none was.
    assert_eq!(drawn_or_seeded(Some(rng(5)), 9), rng(5));
    assert_eq!(drawn_or_seeded(None, 9), rng(9));
    assert_ne!(drawn_or_seeded(None, 9), rng(5));
}

#[test]
fn flat_monte_carlo_counts_at_most_one_win_a_round() {
    let g = Ttt { a: [1, 1, 2, 0, 0, 2, 2, 2, 2], turn: true };
    let mut e = MonteCarloTotal::new_with_rng(g.clone(), rng(41));
    // The move that wins at once wins every line of play that begins with
    // it; each of the others loses one at least in fifty.
    assert_eq!(e.get_mov_with_rounds(50), 2);
    assert_eq!(e.rounds, 50);
    assert_eq!(e.g, g);
}

#[test]
fn tree_search_goes_on_with_the_tree_under_the_move() {
    let g = Ttt::new(true);
    let mut e = MonteCarloTreeSearch::new_with(g.clone(), rng(77), Ucb { c: 1300 });
    e.get_mov_with_steps(200);
    assert_eq!(e.tree.vis, 200);
    let at = e.tree.movs.iter().position(|&m| m == 4).unwrap();
    let (wins, vis, kids) =
        (e.tree.children[at].wins, e.tree.children[at].vis, e.tree.children[at].children.len());
    assert!(vis >= 1);
    e.commit(&4);
    assert_eq!((e.tree.wins, e.tree.vis, e.tree.children.len()), (wins, vis, kids));
    // A move without a child leaves a tree in which nothing was tried.
    let mut e = MonteCarloTreeSearch::new_with(g.clone(), rng(77), Ucb { c: 1300 });
    e.get_mov_with_steps(3);
    assert_eq!(e.tree.children.len(), 2);
    e.commit(&8);
    assert_eq!((e.tree.wins, e.tree.vis, e.tree.children.len()), (0, 0, 0));
    assert!(e.tree.movs.is_empty());
    // Under a budget the tree gains 128 simulations at least.
    let mut e = MonteCarloTreeSearch::<Ttt, Ucb>::new(true);
    e.get_mov(Duration::from_millis(0));
    assert!(e.tree.vis >= 128);
}

#[test]
fn thinning_keeps_what_was_simulated_more_than_three_times() {
    let g = tablut::Tablut::new(false);
    let leaf = |vis: u64, mov: (u8, u8)| {
        let mut t = mcts_heuristic::Tree::new(1, g, mov);
        t.vis = vis;
        t
    };
    let mut deep = leaf(9, (1, 1));
    deep.children = vec![leaf(4, (5, 5)), leaf(3, (6, 6)), leaf(7, (7, 7))];
    let mut t = mcts_heuristic::Tree::new(0, g, (0, 0));
    t.vis = 2;
    t.children = vec![leaf(3, (2, 2)), deep, leaf(0, (3, 3)), leaf(4, (4, 4))];
    t.prune();
    // The root stays though it was simulated twice only.
    assert_eq!(t.vis, 2);
    let kept: Vec<(u64, (u8, u8))> = t.children.iter().map(|c| (c.vis, c.prev_move)).collect();
    assert_eq!(kept, vec![(9, (1, 1)), (4, (4, 4))]);
    let below: Vec<(u64, (u8, u8))> =
        t.children[0].children.iter().map(|c| (c.vis, c.prev_move)).collect();
    assert_eq!(below, vec![(4, (5, 5)), (7, (7, 7))]);
}
