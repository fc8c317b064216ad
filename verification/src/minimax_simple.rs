//! Alpha-beta search with iterative deepening under a soft time budget.

use crate::ai::Ai;
use crate::clock::Stopwatch;
use crate::game::{Game, State};
use crate::heuristic::Native;
use crate::minimax::{
    best, better, choice, first_best, lemma_best_monotone, lemma_best_order, lemma_best_range,
    lemma_first_best_stays, lemma_same_moves, lemma_value_range, optimal, value, within,
};
use std::time::Duration;
use vstd::prelude::*;

verus! {

/// The engine: the position of the game and the state of the search.
pub struct MinimaxSimple<G: Game> {
    pub g: G,
    /// Counts the calls of the search, so that the clock is read once in 256.
    pub nnw: u8,
    /// The running budget; `None` while a search runs to a fixed depth.
    pub watch: Option<Stopwatch>,
    /// The best move of the last search that ran to its end.
    pub last_ans: Option<G::M>,
    /// The depth of the last search that ran to its end, 0 if none did.
    pub reached: u32,
    /// Whether the budget ran out during the current search.
    pub ended_early: bool,
}

impl<G: Game> MinimaxSimple<G> {
    /// An engine that takes up the game at `g`.
    pub fn new_with_game(g: G) -> (s: Self)
        requires
            g.inv(),
        ensures
            s.g == g,
            s.watch is None,
            s.last_ans is None,
            s.reached == 0,
            !s.ended_early,
    {
        MinimaxSimple { g, nnw: 0, watch: None, last_ans: None, reached: 0, ended_early: false }
    }

    /// Whether a budget runs and is used up.
    fn out_of_time(&self) -> (r: bool)
        ensures
            self.watch is None ==> !r,
    {
        match &self.watch {
            Some(w) => w.expired(),
            None => false,
        }
    }

    /// Searches the position `depth` plies deep inside the window `(a, b)`.
    /// Unless the budget ran out, the result is the minimax value where that
    /// lies inside the window, and else a bound on the side where it lies.
    /// The position is as before in either case.
    pub fn minimax(&mut self, a: i64, b: i64, depth: u32) -> (res: i64)
        requires
            old(self).g.inv(),
            a < b,
        ensures
            final(self).g.inv(),
            final(self).g@ == old(self).g@,
            final(self).watch == old(self).watch,
            final(self).last_ans == old(self).last_ans,
            final(self).reached == old(self).reached,
            old(self).ended_early ==> final(self).ended_early,
            old(self).watch is None && !old(self).ended_early ==> !final(self).ended_early,
            !final(self).ended_early ==> within(
                value::<G, Native>(old(self).g@, depth as nat),
                a as int,
                b as int,
                res as int,
            ),
            !final(self).ended_early && a == i64::MIN && b == i64::MAX ==> res == value::<
                G,
                Native,
            >(old(self).g@, depth as nat),
        decreases depth,
    {
        proof {
            lemma_value_range::<G, Native>(self.g@, depth as nat);
        }
        if self.g.state() != State::Going || depth == 0 {
            return self.g.heuristic();
        }
        let first = self.g.turn();
        let a0 = a;
        let b0 = b;
        let mut a = a;
        let mut b = b;
        let mut res = if first { a } else { b };
        self.nnw = self.nnw.wrapping_add(1);
        if self.ended_early || (self.nnw == 0 && self.out_of_time()) {
            self.ended_early = true;
            return res;
        }
        let moves = self.g.get_moves_sorted();
        let ghost v0 = self.g@;
        proof {
            self.g.law_inv();
            G::law_sorted(v0);
            lemma_same_moves(moves@, G::moves(v0));
        }
        let mut i: usize = 0;
        let mut done = false;
        while i < moves.len() && !done
            invariant
                i <= moves.len(),
                self.g.inv(),
                self.g@ == v0,
                self.watch == old(self).watch,
                self.last_ans == old(self).last_ans,
                self.reached == old(self).reached,
                self.watch is None ==> !self.ended_early,
                G::valid(v0),
                G::status(v0) == State::Going,
                first == G::to_move(v0),
                depth > 0,
                a0 < b0,
                forall|m: G::M| moves@.contains(m) <==> G::moves(v0).contains(m),
                first ==> res == a && b == b0,
                !first ==> res == b && a == a0,
                !done ==> a < b,
                !self.ended_early && !done && first ==> a as int == better(
                    true,
                    a0 as int,
                    best::<G, Native>(v0, moves@, depth as nat, i as nat),
                ),
                !self.ended_early && !done && !first ==> b as int == better(
                    false,
                    b0 as int,
                    best::<G, Native>(v0, moves@, depth as nat, i as nat),
                ),
                !self.ended_early && done && first ==> a >= b0 && best::<G, Native>(
                    v0,
                    moves@,
                    depth as nat,
                    i as nat,
                ) >= b0,
                !self.ended_early && done && !first ==> b <= a0 && best::<G, Native>(
                    v0,
                    moves@,
                    depth as nat,
                    i as nat,
                ) <= a0,
            decreases moves.len() - i,
        {
            proof {
                assert(moves@.contains(moves@[i as int]));
                G::law_undo(v0, moves@[i as int]);
            }
            let rb = self.g.mov_with_rollback(&moves[i]);
            let h = self.minimax(a, b, depth - 1);
            self.g.rollback(rb);
            if first {
                if h > res {
                    res = h;
                }
                if h > a {
                    a = h;
                }
            } else {
                if h < res {
                    res = h;
                }
                if h < b {
                    b = h;
                }
            }
            i += 1;
            if a >= b || self.ended_early {
                done = true;
            }
        }
        proof {
            if !self.ended_early {
                lemma_best_monotone::<G, Native>(v0, moves@, depth as nat, i as nat, moves@.len());
                lemma_best_order::<G, Native>(v0, moves@, G::moves(v0), depth as nat);
            }
        }
        res
    }

    /// Searches every move of the position `depth` plies deep and keeps the
    /// first one that attains the minimax value. Answers whether the budget
    /// ran out, in which case the move kept before stays.
    pub fn minimax_move(&mut self, depth: u32) -> (r: bool)
        requires
            old(self).g.inv(),
            G::status(old(self).g@) == State::Going,
            depth > 0,
        ensures
            final(self).g.inv(),
            final(self).g@ == old(self).g@,
            final(self).watch == old(self).watch,
            r == final(self).ended_early,
            old(self).ended_early ==> r,
            old(self).watch is None && !old(self).ended_early ==> !r,
            r ==> final(self).last_ans == old(self).last_ans && final(self).reached == old(
                self,
            ).reached,
            !r ==> final(self).reached == depth && final(self).last_ans is Some && optimal::<G, Native>(
                old(self).g@,
                final(self).last_ans->0,
                depth as nat,
            ) && final(self).last_ans->0 == choice::<G, Native>(old(self).g@, depth as nat),
    {
        let mut a = i64::MIN;
        let mut b = i64::MAX;
        let moves = self.g.get_moves_sorted();
        let first = self.g.turn();
        let ghost v0 = self.g@;
        proof {
            self.g.law_inv();
            G::law_going_has_moves(v0);
            G::law_sorted(v0);
            lemma_same_moves(moves@, G::moves(v0));
        }
        let mut res = if first { a } else { b };
        let mut ans = G::copy_move(&moves[0]);
        let ghost mut at: int = 0;
        let mut i: usize = 0;
        let mut done = false;
        while i < moves.len() && !done
            invariant
                i <= moves.len(),
                moves.len() > 0,
                self.g.inv(),
                self.g@ == v0,
                self.watch == old(self).watch,
                self.last_ans == old(self).last_ans,
                self.reached == old(self).reached,
                old(self).ended_early ==> self.ended_early,
                old(self).watch is None && !old(self).ended_early ==> !self.ended_early,
                G::valid(v0),
                G::status(v0) == State::Going,
                first == G::to_move(v0),
                depth > 0,
                forall|m: G::M| moves@.contains(m) <==> G::moves(v0).contains(m),
                first ==> res == a && b == i64::MAX,
                !first ==> res == b && a == i64::MIN,
                !self.ended_early && done && first ==> res == i64::MAX,
                !self.ended_early && done && !first ==> res == i64::MIN,
                0 <= at < moves.len(),
                i == 0 ==> at == 0,
                ans == moves@[at],
                moves@ == G::moves_sorted(v0),
                !self.ended_early ==> at == first_best::<G, Native>(
                    v0,
                    moves@,
                    depth as nat,
                    i as nat,
                ),
                !done ==> a < b,
                !self.ended_early ==> res as int == best::<G, Native>(v0, moves@, depth as nat, i as nat),
                !self.ended_early && i > 0 ==> at < i && res as int == value::<G, Native>(
                    G::next(v0, moves@[at]),
                    (depth - 1) as nat,
                ),
            decreases moves.len() - i,
        {
            proof {
                assert(moves@.contains(moves@[i as int]));
                G::law_undo(v0, moves@[i as int]);
                lemma_value_range::<G, Native>(G::next(v0, moves@[i as int]), (depth - 1) as nat);
            }
            let rb = self.g.mov_with_rollback(&moves[i]);
            let h = self.minimax(a, b, depth - 1);
            self.g.rollback(rb);
            if first {
                if h > res {
                    res = h;
                    ans = G::copy_move(&moves[i]);
                    proof {
                        at = i as int;
                    }
                }
                if h > a {
                    a = h;
                }
            } else {
                if h < res {
                    res = h;
                    ans = G::copy_move(&moves[i]);
                    proof {
                        at = i as int;
                    }
                }
                if h < b {
                    b = h;
                }
            }
            i += 1;
            if a >= b || self.ended_early {
                done = true;
            }
        }
        if self.ended_early {
            true
        } else {
            proof {
                lemma_best_monotone::<G, Native>(v0, moves@, depth as nat, i as nat, moves@.len());
                lemma_best_range::<G, Native>(v0, moves@, depth as nat, moves@.len());
                lemma_best_order::<G, Native>(v0, moves@, G::moves(v0), depth as nat);
                if done {
                    lemma_first_best_stays::<G, Native>(
                        v0,
                        moves@,
                        depth as nat,
                        i as nat,
                        moves@.len(),
                    );
                }
                assert(moves@.contains(moves@[at]));
            }
            self.last_ans = Some(ans);
            self.reached = depth;
            false
        }
    }

    /// The first move that attains the minimax value of the position at
    /// `depth` plies, found without a time limit.
    pub fn get_mov_with_fixed_depth(&mut self, depth: u32) -> (m: G::M)
        requires
            old(self).g.inv(),
            G::status(old(self).g@) == State::Going,
            depth > 0,
        ensures
            final(self).g.inv(),
            final(self).g@ == old(self).g@,
            final(self).reached == depth,
            optimal::<G, Native>(old(self).g@, m, depth as nat),
            m == choice::<G, Native>(old(self).g@, depth as nat),
    {
        self.watch = None;
        self.ended_early = false;
        let r = self.minimax_move(depth);
        match &self.last_ans {
            Some(m) => G::copy_move(m),
            None => {
                let moves = self.g.get_moves();
                G::copy_move(&moves[0])
            },
        }
    }
}

impl<G: Game> Ai<G> for MinimaxSimple<G> {
    open spec fn game(&self) -> G::V {
        self.g@
    }

    open spec fn ready(&self) -> bool {
        self.g.inv()
    }

    fn new(t: bool) -> (s: Self)
        ensures
            s.watch is None,
            s.last_ans is None,
            s.reached == 0,
            !s.ended_early,
    {
        MinimaxSimple::new_with_game(G::new(t))
    }

    fn state(&self) -> (r: State) {
        self.g.state()
    }

    fn turn(&self) -> (r: bool) {
        self.g.turn()
    }

    /// Deepens the search ply by ply until the budget runs out, and answers
    /// the best move of the deepest search that ran to its end: afterwards
    /// `reached` is that depth and the move is optimal for it. Where not even
    /// the first search ended in time, `reached` is 0 and the move is the
    /// first one generated.
    fn get_mov(&mut self, tl: Duration) -> (m: G::M)
        ensures
            final(self).reached > 0 ==> optimal::<G, Native>(
                old(self).g@,
                m,
                final(self).reached as nat,
            ) && m == choice::<G, Native>(old(self).g@, final(self).reached as nat),
            final(self).reached == 0 ==> m == G::moves_sorted(old(self).g@)[0],
    {
        let moves = self.g.get_moves_sorted();
        let ghost v0 = self.g@;
        proof {
            self.g.law_inv();
            G::law_going_has_moves(v0);
            G::law_sorted(v0);
            lemma_same_moves(moves@, G::moves(v0));
            assert(moves@.contains(moves@[0]));
        }
        self.watch = Some(Stopwatch::start(&tl));
        self.ended_early = false;
        self.last_ans = Some(G::copy_move(&moves[0]));
        self.reached = 0;
        let mut depth: u32 = 1;
        let mut going = true;
        while going && depth < u32::MAX
            invariant
                depth >= 1,
                self.g.inv(),
                self.g@ == v0,
                G::status(v0) == State::Going,
                self.last_ans is Some,
                G::moves(v0).contains(self.last_ans->0),
                self.reached > 0 ==> optimal::<G, Native>(v0, self.last_ans->0, self.reached as nat)
                    && self.last_ans->0 == choice::<G, Native>(v0, self.reached as nat),
                self.reached == 0 ==> self.last_ans->0 == G::moves_sorted(v0)[0],
            decreases u32::MAX - depth, going as int,
        {
            if self.minimax_move(depth) {
                going = false;
            } else {
                depth += 1;
            }
        }
        match &self.last_ans {
            Some(m) => G::copy_move(m),
            None => G::copy_move(&moves[0]),
        }
    }

    /// Takes note of a move made by either side. What the engine keeps of
    /// its searches stays as it is.
    fn mov(&mut self, m: &G::M)
        ensures
            final(self).watch == old(self).watch,
            final(self).last_ans == old(self).last_ans,
            final(self).reached == old(self).reached,
            final(self).ended_early == old(self).ended_early,
    {
        self.g.mov(m);
    }
}

} // verus!
