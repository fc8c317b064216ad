//! Alpha-beta search that remembers the positions it has valued. What is
//! remembered answers a search as a whole where it was found deep enough,
//! and puts the moves in order, the best remembered values first; it never
//! changes what a search of the moves finds.

use crate::ai::Ai;
use crate::clock::Stopwatch;
use crate::game::{Game, State};
use crate::heuristic::Native;
use crate::minimax::{
    best, better, first_best, lemma_best_monotone, lemma_best_order, lemma_best_range,
    lemma_first_best_stays, lemma_same_moves, lemma_value_range, optimal, value, within,
};
use crate::sorting::{
    items, keyed, lemma_sorted_by, lemma_sorted_by_level, sort_by_key, sorted_by,
};
use crate::transposition::usable;
use crate::transposition::TranspositionTable;
use std::time::Duration;
use vstd::prelude::*;

verus! {

/// By how many plies a remembered value may fall short of the depth asked
/// for, for the depths from 5 to 13.
pub const BAND: u32 = 1;

/// The least depth at which a value is remembered.
pub const KEEP_FROM: u32 = 5;

/// The engine: the position of the game and the table of what was found.
pub struct MinimaxHard<G: Game> {
    pub g: G,
    pub table: TranspositionTable<G>,
    /// Counts the calls of the search, so that the clock is read once in 256.
    pub nnw: u8,
    /// The running budget; `None` while a search runs to a fixed depth.
    pub watch: Option<Stopwatch>,
    /// The depth of the last search that ran to its end, 0 if none did.
    pub reached: u32,
    /// Whether the budget ran out during the current search.
    pub ended_early: bool,
}

/// The key that puts the higher value first.
fn flip(x: i64) -> (r: i64)
    ensures
        r == (if x == i64::MIN {
            i64::MAX as int
        } else {
            -x
        }),
{
    if x == i64::MIN {
        i64::MAX
    } else {
        -x
    }
}

/// The key by which a move is tried sooner or later: the value remembered
/// for the position that it leads to, `unknown` where none is, turned round
/// for the first player, so that the best for the side to move comes first.
pub open spec fn hint<G: Game>(
    t: Map<G::S, (i64, u32)>,
    v: G::V,
    m: G::M,
    unknown: i64,
) -> int {
    let k = G::key(G::next(v, m));
    let x = if t.contains_key(k) {
        t[k].0
    } else {
        unknown
    };
    if !G::to_move(v) {
        x as int
    } else if x == i64::MIN {
        i64::MAX as int
    } else {
        -x
    }
}

/// The legal moves of `v` in the order in which a search with the table
/// `t` tries them: by their keys, see [`hint`], and moves with the same key
/// in the order in which they are generated.
pub open spec fn ordered<G: Game>(t: Map<G::S, (i64, u32)>, v: G::V, unknown: i64) -> Seq<G::M> {
    sorted_by(G::moves(v), |m: G::M| hint::<G>(t, v, m, unknown))
}

/// The key for a move whose position is not remembered, in a search for
/// the side `first`: the worst that the side can get.
pub open spec fn unknown(first: bool) -> i64 {
    if first {
        i64::MIN
    } else {
        i64::MAX
    }
}

/// Whether the table `t` holds for the key `k`, after a search of `depth`
/// plies that found `res`, a value found as deep or deeper, and `res` where
/// none was found deeper.
pub open spec fn holds<G: Game>(t: TranspositionTable<G>, k: G::S, res: i64, depth: u32) -> bool {
    match t.entry(k) {
        Some((x, d)) => d >= depth && (d == depth ==> x == res),
        None => false,
    }
}

/// Whether what the table holds for a position, `e`, answers a search of
/// `depth` plies: it was found as deep, or short of it by no more than the
/// tolerance `band` allows.
pub open spec fn answers(e: Option<(i64, u32)>, depth: u32, band: u32) -> bool {
    match e {
        Some((_, d)) => usable(depth, d, band),
        None => false,
    }
}

/// The value that the table holds for a position, 0 where it holds none.
pub open spec fn held(e: Option<(i64, u32)>) -> i64 {
    match e {
        Some((v, _)) => v,
        None => 0,
    }
}

/// Whether a search of `depth` plies keeps what it finds for a position of
/// which the table held `e` when the search began: from depth 5 on, where
/// nothing as deep was held.
pub open spec fn keeps(e: Option<(i64, u32)>, depth: u32) -> bool {
    depth >= KEEP_FROM && (match e {
        Some((_, d)) => depth > d,
        None => depth > 0,
    })
}

impl<G: Game> MinimaxHard<G> {
    /// An engine that takes up the game at `g` with nothing remembered.
    pub fn new_with_game(g: G) -> (s: Self)
        requires
            g.inv(),
        ensures
            s.g == g,
            s.table.is_empty(),
            s.table.tolerance() == BAND,
            s.watch is None,
            s.reached == 0,
            !s.ended_early,
    {
        MinimaxHard {
            g,
            table: TranspositionTable::new(BAND),
            nnw: 0,
            watch: None,
            reached: 0,
            ended_early: false,
        }
    }

    /// Whether a budget runs and is used up.
    fn out_of_time(&self) -> (r: bool)
        ensures
            self.watch is None ==> !r,
    {
        match &self.watch {
            Some(w) => w.expired(),
            None => false,
        }
    }

    /// The legal moves, those first whose positions are remembered with the
    /// best values for the side to move; a position that is not remembered
    /// counts as `unknown`, and moves that count the same stay in the order
    /// in which they are generated.
    pub fn ordered_moves(&mut self, unknown: i64) -> (r: Vec<G::M>)
        requires
            old(self).g.inv(),
            G::status(old(self).g@) == State::Going,
        ensures
            final(self).g.inv(),
            final(self).g@ == old(self).g@,
            final(self).table == old(self).table,
            final(self).watch == old(self).watch,
            final(self).reached == old(self).reached,
            final(self).ended_early == old(self).ended_early,
            r@ == ordered::<G>(old(self).table.book(), old(self).g@, unknown),
            r@.to_multiset() == G::moves(old(self).g@).to_multiset(),
    {
        let mut moves = self.g.get_moves();
        let first = self.g.turn();
        let ghost v0 = self.g@;
        let ghost all = moves@;
        let ghost key = |m: G::M| hint::<G>(old(self).table.book(), v0, m, unknown);
        let ghost goal = keyed(all, key);
        proof {
            self.g.law_inv();
        }
        let mut pairs: Vec<(i64, G::M)> = Vec::new();
        let mut i: usize = 0;
        while i < moves.len()
            invariant
                i <= moves.len(),
                moves@ == all,
                all == G::moves(v0),
                self.g.inv(),
                self.g@ == v0,
                first == G::to_move(v0),
                self.table == old(self).table,
                self.watch == old(self).watch,
                self.reached == old(self).reached,
                self.ended_early == old(self).ended_early,
                G::valid(v0),
                G::status(v0) == State::Going,
                goal == keyed(all, key),
                key == (|m: G::M| hint::<G>(old(self).table.book(), v0, m, unknown)),
                pairs@ == goal.subrange(0, i as int),
            decreases moves.len() - i,
        {
            proof {
                assert(all.contains(all[i as int]));
                G::law_undo(v0, all[i as int]);
            }
            let rb = self.g.mov_with_rollback(&moves[i]);
            let k = self.g.get_static_state();
            let ans = match self.table.peek(&k) {
                Some((v, _)) => v,
                None => unknown,
            };
            self.g.rollback(rb);
            let x = if first { flip(ans) } else { ans };
            pairs.push((x, G::copy_move(&moves[i])));
            assert(pairs@ =~= goal.subrange(0, i + 1));
            i += 1;
        }
        assert(pairs@ =~= goal);
        let sorted = sort_by_key(pairs);
        let mut ans: Vec<G::M> = Vec::new();
        let mut j: usize = 0;
        while j < sorted.len()
            invariant
                j <= sorted.len(),
                ans@ == items(sorted@).subrange(0, j as int),
            decreases sorted.len() - j,
        {
            ans.push(G::copy_move(&sorted[j].1));
            assert(ans@ =~= items(sorted@).subrange(0, j + 1));
            j += 1;
        }
        assert(ans@ =~= items(sorted@));
        proof {
            lemma_sorted_by(all, key);
        }
        ans
    }

    /// Searches the moves of the position `depth` plies deep inside the
    /// window `(a, b)`, those first whose positions are remembered with the
    /// best values, and a line given up as soon as it cannot matter any
    /// more. What is remembered only puts the moves in order: the result is
    /// the minimax value where that lies inside the window, and else a
    /// bound on the side where it lies. From depth 5 on the result is
    /// remembered. Where a budget runs, the clock is read once in 256
    /// calls; once the budget is used up the search is given up, nothing
    /// more is remembered and the result says nothing. The position is as
    /// before in either case.
    pub fn search(&mut self, a: i64, b: i64, depth: u32) -> (res: i64)
        requires
            old(self).g.inv(),
            a < b,
        ensures
            final(self).g.inv(),
            final(self).g@ == old(self).g@,
            final(self).table.tolerance() == old(self).table.tolerance(),
            final(self).watch == old(self).watch,
            final(self).reached == old(self).reached,
            old(self).ended_early ==> final(self).ended_early,
            old(self).watch is None && !old(self).ended_early ==> !final(self).ended_early,
            !final(self).ended_early ==> within(
                value::<G, Native>(old(self).g@, depth as nat),
                a as int,
                b as int,
                res as int,
            ),
            !final(self).ended_early && a == i64::MIN && b == i64::MAX ==> res == value::<
                G,
                Native,
            >(old(self).g@, depth as nat),
            G::status(old(self).g@) != State::Going || depth < KEEP_FROM ==> final(self).table
                == old(self).table,
            !final(self).ended_early && G::status(old(self).g@) == State::Going && keeps(
                old(self).table.entry(G::key(old(self).g@)),
                depth,
            ) ==> holds(final(self).table, G::key(old(self).g@), res, depth),
        decreases depth,
    {
        proof {
            lemma_value_range::<G, Native>(self.g@, depth as nat);
        }
        if self.g.state() != State::Going || depth == 0 {
            return self.g.heuristic();
        }
        let key = self.g.get_static_state();
        let old_depth: u32 = match self.table.peek(&key) {
            Some((_, d)) => d,
            None => 0,
        };
        let first = self.g.turn();
        let a0 = a;
        let b0 = b;
        let mut a = a;
        let mut b = b;
        let mut res = if first { a } else { b };
        self.nnw = self.nnw.wrapping_add(1);
        if self.ended_early || (self.nnw == 0 && self.out_of_time()) {
            self.ended_early = true;
            return res;
        }
        let moves = self.ordered_moves(res);
        let ghost v0 = self.g@;
        proof {
            self.g.law_inv();
            lemma_same_moves(moves@, G::moves(v0));
        }
        let mut i: usize = 0;
        let mut done = false;
        while i < moves.len() && !done
            invariant
                i <= moves.len(),
                self.g.inv(),
                self.g@ == v0,
                self.table.tolerance() == old(self).table.tolerance(),
                self.watch == old(self).watch,
                self.reached == old(self).reached,
                old(self).watch is None ==> !self.ended_early,
                depth < KEEP_FROM ==> self.table == old(self).table,
                G::valid(v0),
                G::status(v0) == State::Going,
                first == G::to_move(v0),
                depth > 0,
                a0 < b0,
                forall|m: G::M| moves@.contains(m) <==> G::moves(v0).contains(m),
                first ==> res == a && b == b0,
                !first ==> res == b && a == a0,
                !done ==> a < b,
                !self.ended_early && !done && first ==> a as int == better(
                    true,
                    a0 as int,
                    best::<G, Native>(v0, moves@, depth as nat, i as nat),
                ),
                !self.ended_early && !done && !first ==> b as int == better(
                    false,
                    b0 as int,
                    best::<G, Native>(v0, moves@, depth as nat, i as nat),
                ),
                !self.ended_early && done && first ==> a >= b0 && best::<G, Native>(
                    v0,
                    moves@,
                    depth as nat,
                    i as nat,
                ) >= b0,
                !self.ended_early && done && !first ==> b <= a0 && best::<G, Native>(
                    v0,
                    moves@,
                    depth as nat,
                    i as nat,
                ) <= a0,
            decreases moves.len() - i,
        {
            proof {
                assert(moves@.contains(moves@[i as int]));
                G::law_undo(v0, moves@[i as int]);
            }
            let rb = self.g.mov_with_rollback(&moves[i]);
            let h = self.search(a, b, depth - 1);
            self.g.rollback(rb);
            if first {
                if h > res {
                    res = h;
                }
                if h > a {
                    a = h;
                }
            } else {
                if h < res {
                    res = h;
                }
                if h < b {
                    b = h;
                }
            }
            i += 1;
            if a >= b {
                done = true;
            }
        }
        proof {
            lemma_best_monotone::<G, Native>(v0, moves@, depth as nat, i as nat, moves@.len());
            lemma_best_order::<G, Native>(v0, moves@, G::moves(v0), depth as nat);
        }
        if !self.ended_early && depth > old_depth && depth >= KEEP_FROM {
            self.table.store(key, res, depth);
        }
        res
    }

    /// Values the position for a search of `depth` plies inside the window
    /// `(a, b)`.
    ///
    /// At a finished position and at depth 0 the result is the static
    /// evaluation. Else a remembered value that answers the depth is handed
    /// back as it is, and nothing changes. Else the moves are searched, see
    /// [`MinimaxHard::search`]: unless the budget ran out, the result is the
    /// minimax value where that lies inside the window, and else a bound on
    /// the side where it lies. The position is as before in every case.
    pub fn minimax(&mut self, a: i64, b: i64, depth: u32) -> (res: i64)
        requires
            old(self).g.inv(),
            a < b,
        ensures
            final(self).g.inv(),
            final(self).g@ == old(self).g@,
            final(self).table.tolerance() == old(self).table.tolerance(),
            final(self).watch == old(self).watch,
            final(self).reached == old(self).reached,
            old(self).ended_early ==> final(self).ended_early,
            old(self).watch is None && !old(self).ended_early ==> !final(self).ended_early,
            G::status(old(self).g@) != State::Going || depth == 0 ==> res == G::score(
                old(self).g@,
            ) && final(self).table == old(self).table,
            G::status(old(self).g@) == State::Going && depth > 0 && answers(
                old(self).table.entry(G::key(old(self).g@)),
                depth,
                old(self).table.tolerance(),
            ) ==> res == held(old(self).table.entry(G::key(old(self).g@))) && final(self).table
                == old(self).table && final(self).ended_early == old(self).ended_early,
            G::status(old(self).g@) == State::Going && depth > 0 && !answers(
                old(self).table.entry(G::key(old(self).g@)),
                depth,
                old(self).table.tolerance(),
            ) && !final(self).ended_early ==> within(
                value::<G, Native>(old(self).g@, depth as nat),
                a as int,
                b as int,
                res as int,
            ) && (a == i64::MIN && b == i64::MAX ==> res == value::<G, Native>(
                old(self).g@,
                depth as nat,
            )),
            depth < KEEP_FROM ==> final(self).table == old(self).table,
    {
        if self.g.state() != State::Going || depth == 0 {
            return self.g.heuristic();
        }
        let key = self.g.get_static_state();
        match self.table.lookup(&key, depth) {
            Some(v) => v,
            None => self.search(a, b, depth),
        }
    }

    /// Searches every move of the position `depth` plies deep, those first
    /// whose positions are remembered with the best values, and answers the
    /// first of them that attains the minimax value. With nothing
    /// remembered the moves are tried in the order in which the game
    /// generates them. From depth 5 on the value found is remembered. Where
    /// the budget ran out during the search, the answer is a legal move and
    /// no more.
    pub fn minimax_move(&mut self, depth: u32) -> (m: G::M)
        requires
            old(self).g.inv(),
            G::status(old(self).g@) == State::Going,
            depth > 0,
        ensures
            final(self).g.inv(),
            final(self).g@ == old(self).g@,
            final(self).table.tolerance() == old(self).table.tolerance(),
            final(self).watch == old(self).watch,
            final(self).reached == old(self).reached,
            old(self).ended_early ==> final(self).ended_early,
            old(self).watch is None && !old(self).ended_early ==> !final(self).ended_early,
            G::moves(old(self).g@).contains(m),
            !final(self).ended_early ==> optimal::<G, Native>(old(self).g@, m, depth as nat),
            !final(self).ended_early ==> ({
                let ms = ordered::<G>(
                    old(self).table.book(),
                    old(self).g@,
                    unknown(G::to_move(old(self).g@)),
                );
                m == ms[first_best::<G, Native>(old(self).g@, ms, depth as nat, ms.len())]
            }),
            !final(self).ended_early && old(self).table.is_empty() ==> m == G::moves(
                old(self).g@,
            )[first_best::<G, Native>(
                old(self).g@,
                G::moves(old(self).g@),
                depth as nat,
                G::moves(old(self).g@).len(),
            )],
            depth < KEEP_FROM ==> final(self).table == old(self).table,
            !final(self).ended_early && keeps(
                old(self).table.entry(G::key(old(self).g@)),
                depth,
            ) ==> holds(
                final(self).table,
                G::key(old(self).g@),
                value::<G, Native>(old(self).g@, depth as nat) as i64,
                depth,
            ),
    {
        let mut a = i64::MIN;
        let mut b = i64::MAX;
        let key = self.g.get_static_state();
        let old_depth: u32 = match self.table.peek(&key) {
            Some((_, d)) => d,
            None => 0,
        };
        let first = self.g.turn();
        let mut res = if first { a } else { b };
        let ghost v0 = self.g@;
        let moves = self.ordered_moves(res);
        proof {
            self.g.law_inv();
            G::law_going_has_moves(v0);
            lemma_same_moves(moves@, G::moves(v0));
            assert(moves@.contains(moves@[0]));
            if old(self).table.is_empty() {
                lemma_sorted_by_level(
                    G::moves(v0),
                    |m: G::M| hint::<G>(old(self).table.book(), v0, m, res),
                );
            }
        }
        let mut ans = G::copy_move(&moves[0]);
        let ghost mut at: int = 0;
        let mut i: usize = 0;
        let mut done = false;
        while i < moves.len() && !done
            invariant
                i <= moves.len(),
                moves.len() > 0,
                self.g.inv(),
                self.g@ == v0,
                self.table.tolerance() == old(self).table.tolerance(),
                self.watch == old(self).watch,
                self.reached == old(self).reached,
                old(self).ended_early ==> self.ended_early,
                old(self).watch is None && !old(self).ended_early ==> !self.ended_early,
                depth < KEEP_FROM ==> self.table == old(self).table,
                G::valid(v0),
                G::status(v0) == State::Going,
                first == G::to_move(v0),
                depth > 0,
                forall|m: G::M| moves@.contains(m) <==> G::moves(v0).contains(m),
                G::moves(v0).contains(ans),
                !done ==> a < b,
                first ==> res == a && b == i64::MAX,
                !first ==> res == b && a == i64::MIN,
                done && first ==> res == i64::MAX,
                done && !first ==> res == i64::MIN,
                0 <= at < moves.len(),
                i == 0 ==> at == 0,
                ans == moves@[at],
                !self.ended_early ==> at == first_best::<G, Native>(
                    v0,
                    moves@,
                    depth as nat,
                    i as nat,
                ),
                !self.ended_early ==> res as int == best::<G, Native>(
                    v0,
                    moves@,
                    depth as nat,
                    i as nat,
                ),
                !self.ended_early && i > 0 ==> at < i && res as int == value::<G, Native>(
                    G::next(v0, moves@[at]),
                    (depth - 1) as nat,
                ),
            decreases moves.len() - i,
        {
            proof {
                assert(moves@.contains(moves@[i as int]));
                G::law_undo(v0, moves@[i as int]);
                lemma_value_range::<G, Native>(G::next(v0, moves@[i as int]), (depth - 1) as nat);
            }
            let rb = self.g.mov_with_rollback(&moves[i]);
            let h = self.search(a, b, depth - 1);
            self.g.rollback(rb);
            if first {
                if h > res {
                    res = h;
                    ans = G::copy_move(&moves[i]);
                    proof {
                        at = i as int;
                    }
                }
                if h > a {
                    a = h;
                }
            } else {
                if h < res {
                    res = h;
                    ans = G::copy_move(&moves[i]);
                    proof {
                        at = i as int;
                    }
                }
                if h < b {
                    b = h;
                }
            }
            i += 1;
            if a >= b {
                done = true;
            }
        }
        proof {
            lemma_best_monotone::<G, Native>(v0, moves@, depth as nat, i as nat, moves@.len());
            lemma_best_range::<G, Native>(v0, moves@, depth as nat, moves@.len());
            lemma_best_order::<G, Native>(v0, moves@, G::moves(v0), depth as nat);
            if done && !self.ended_early {
                lemma_first_best_stays::<G, Native>(v0, moves@, depth as nat, i as nat, moves@.len());
            }
            assert(moves@.contains(moves@[at]));
        }
        if !self.ended_early && depth > old_depth && depth >= KEEP_FROM {
            self.table.store(key, res, depth);
        }
        ans
    }
}

impl<G: Game> Ai<G> for MinimaxHard<G> {
    open spec fn game(&self) -> G::V {
        self.g@
    }

    open spec fn ready(&self) -> bool {
        self.g.inv()
    }

    fn new(t: bool) -> (s: Self)
        ensures
            s.table.is_empty(),
            s.table.tolerance() == BAND,
            s.watch is None,
            s.reached == 0,
            !s.ended_early,
    {
        MinimaxHard::new_with_game(G::new(t))
    }

    fn state(&self) -> (r: State) {
        self.g.state()
    }

    fn turn(&self) -> (r: bool) {
        self.g.turn()
    }

    /// Deepens the search ply by ply until the budget runs out, and answers
    /// the move of the deepest search that ran to its end: afterwards
    /// `reached` is that depth and the move attains the minimax value at
    /// it. Where not even the first search ended in time, `reached` is 0
    /// and the move is the first one generated.
    fn get_mov(&mut self, tl: Duration) -> (m: G::M)
        ensures
            final(self).table.tolerance() == old(self).table.tolerance(),
            final(self).reached > 0 ==> optimal::<G, Native>(
                old(self).g@,
                m,
                final(self).reached as nat,
            ),
            final(self).reached == 0 ==> m == G::moves(old(self).g@)[0],
    {
        let moves = self.g.get_moves();
        let ghost v0 = self.g@;
        proof {
            self.g.law_inv();
            G::law_going_has_moves(v0);
            assert(moves@.contains(moves@[0]));
        }
        self.watch = Some(Stopwatch::start(&tl));
        self.ended_early = false;
        self.reached = 0;
        let mut ans = G::copy_move(&moves[0]);
        let mut depth: u32 = 1;
        let mut going = true;
        while going && depth < u32::MAX
            invariant
                depth >= 1,
                self.g.inv(),
                self.g@ == v0,
                G::status(v0) == State::Going,
                G::moves(v0).contains(ans),
                self.table.tolerance() == old(self).table.tolerance(),
                self.reached > 0 ==> optimal::<G, Native>(v0, ans, self.reached as nat),
                self.reached == 0 ==> ans == G::moves(v0)[0],
            decreases u32::MAX - depth, going as int,
        {
            let found = self.minimax_move(depth);
            if self.ended_early {
                going = false;
            } else {
                ans = found;
                self.reached = depth;
                depth += 1;
            }
        }
        ans
    }

    /// Takes note of a move made by either side. What is remembered stays.
    fn mov(&mut self, m: &G::M)
        ensures
            final(self).table == old(self).table,
            final(self).watch == old(self).watch,
            final(self).reached == old(self).reached,
            final(self).ended_early == old(self).ended_early,
    {
        self.g.mov(m);
    }
}

} // verus!
