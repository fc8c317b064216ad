//! Alpha-beta search for the Tablut with draws, with an evaluation that
//! prefers the quicker win, and with a record of which moves were tried and
//! which were chosen.

use crate::ai::Ai;
use crate::clock::Stopwatch;
use crate::game::{Game, State};
use crate::heuristic::Heuristic;
use crate::minimax::{alphabeta, best_move, choice, optimal, value, within};
use crate::tablut_with_draw::{outlook, Position, Tablut};
use std::time::Duration;
use vstd::prelude::*;

verus! {

/// The engine: the position of the game and the record of the moves.
pub struct MinimaxTablut {
    pub g: Tablut,
    /// How often each move was chosen, the move from `f` to `t` at `f * 81 + t`.
    pub mf: [usize; 6561],
    /// How often each move was tried.
    pub mftot: [usize; 6561],
    /// How often a move of each reach was chosen.
    pub mdf: [usize; 9],
    /// How often a move of each reach was tried.
    pub mdftot: [usize; 9],
    /// The depth of the last search that ran to its end.
    pub reached: u32,
}

/// What a position is worth: a decided game the more the sooner it ended,
/// one that is going by material and by the slides that the pieces have.
pub open spec fn paced_rating(v: Position) -> int {
    match v.state {
        State::Win => 32768 - v.turn,
        State::Lose => -32768 + v.turn,
        State::Draw => 0,
        State::Going => outlook(v),
    }
}

impl Heuristic<Tablut> for MinimaxTablut {
    open spec fn rate(v: Position) -> i64 {
        paced_rating(v) as i64
    }

    fn eval(g: &Tablut) -> (r: i64)
        ensures
            r == paced_rating(g@),
    {
        match g.state() {
            State::Win => 32768 - g.plies() as i64,
            State::Lose => -32768 + g.plies() as i64,
            State::Draw => 0,
            State::Going => g.prospects(),
        }
    }
}

/// The number of cells that a move crosses, 0 for one that is no slide along
/// a row or a column of the board.
pub open spec fn reach(m: (u8, u8)) -> int {
    let dif = if m.0 > m.1 {
        m.0 - m.1
    } else {
        m.1 - m.0
    };
    let dist = if dif >= 9 {
        dif / 9
    } else {
        dif
    };
    if dist < 9 {
        dist
    } else {
        0
    }
}

/// The place of a move in the records, 0 for one that leaves the board.
pub open spec fn slot(m: (u8, u8)) -> int {
    if m.0 < 81 && m.1 < 81 {
        m.0 * 81 + m.1
    } else {
        0
    }
}

/// A count after one more, as far as the counter goes.
pub open spec fn more(n: usize) -> usize {
    if n < usize::MAX {
        (n + 1) as usize
    } else {
        n
    }
}

/// The counts after each of the first `n` moves of `ms` has been counted
/// once, at the place that `place` gives it.
pub open spec fn counted(
    counts: Seq<usize>,
    ms: Seq<(u8, u8)>,
    n: nat,
    place: spec_fn((u8, u8)) -> int,
) -> Seq<usize>
    decreases n,
{
    if n == 0 || n > ms.len() {
        counts
    } else {
        let c = counted(counts, ms, (n - 1) as nat, place);
        c.update(place(ms[n - 1]), more(c[place(ms[n - 1])]))
    }
}

/// The number of cells that a move crosses.
fn reach_of(m: &(u8, u8)) -> (r: usize)
    ensures
        r == reach(*m),
        r < 9,
{
    let dif = if m.0 > m.1 { m.0 - m.1 } else { m.1 - m.0 };
    let dist = if dif >= 9 { dif / 9 } else { dif };
    if dist < 9 {
        dist as usize
    } else {
        0
    }
}

/// The place of a move in the records.
fn slot_of(m: &(u8, u8)) -> (r: usize)
    ensures
        r == slot(*m),
        r < 6561,
{
    if m.0 < 81 && m.1 < 81 {
        m.0 as usize * 81 + m.1 as usize
    } else {
        0
    }
}

/// A count after one more.
fn one_more(n: usize) -> (r: usize)
    ensures
        r == more(n),
{
    if n < usize::MAX {
        n + 1
    } else {
        n
    }
}

impl MinimaxTablut {
    /// An engine that takes up the game at `g`.
    pub fn new_with_game(g: Tablut) -> (s: Self)
        requires
            g.inv(),
        ensures
            s.g == g,
            s.reached == 0,
            forall|i: int| 0 <= i < 6561 ==> s.mf[i] == 0 && s.mftot[i] == 0,
            forall|i: int| 0 <= i < 9 ==> s.mdf[i] == 0 && s.mdftot[i] == 0,
    {
        MinimaxTablut {
            g,
            mf: [0usize;6561],
            mftot: [0usize;6561],
            mdf: [0usize;9],
            mdftot: [0usize;9],
            reached: 0,
        }
    }

    /// What the position is worth.
    pub fn heur(&self) -> (r: i64)
        requires
            self.g.inv(),
        ensures
            r == paced_rating(self.g@),
    {
        <MinimaxTablut as Heuristic<Tablut>>::eval(&self.g)
    }

    /// Searches the position `depth` plies deep inside the window `(a, b)`:
    /// the result is the minimax value where that lies inside the window,
    /// and else a bound on the side where it lies.
    pub fn minimax(&mut self, a: i64, b: i64, depth: u32) -> (res: i64)
        requires
            old(self).g.inv(),
            a < b,
        ensures
            final(self).g.inv(),
            final(self).g@ == old(self).g@,
            final(self).mf == old(self).mf,
            final(self).mftot == old(self).mftot,
            final(self).mdf == old(self).mdf,
            final(self).mdftot == old(self).mdftot,
            final(self).reached == old(self).reached,
            within(
                value::<Tablut, MinimaxTablut>(old(self).g@, depth as nat),
                a as int,
                b as int,
                res as int,
            ),
    {
        alphabeta::<Tablut, MinimaxTablut>(&mut self.g, a, b, depth)
    }

    /// Counts each legal move as tried.
    fn note_tried(&mut self)
        requires
            old(self).g.inv(),
        ensures
            final(self).g == old(self).g,
            final(self).mf == old(self).mf,
            final(self).mdf == old(self).mdf,
            final(self).reached == old(self).reached,
            final(self).mftot@ == counted(
                old(self).mftot@,
                Tablut::moves(old(self).g@),
                Tablut::moves(old(self).g@).len(),
                |m: (u8, u8)| slot(m),
            ),
            final(self).mdftot@ == counted(
                old(self).mdftot@,
                Tablut::moves(old(self).g@),
                Tablut::moves(old(self).g@).len(),
                |m: (u8, u8)| reach(m),
            ),
    {
        let moves = self.g.get_moves();
        let ghost by_slot = |m: (u8, u8)| slot(m);
        let ghost by_reach = |m: (u8, u8)| reach(m);
        let mut i: usize = 0;
        while i < moves.len()
            invariant
                i <= moves.len(),
                self.g == old(self).g,
                self.mf == old(self).mf,
                self.mdf == old(self).mdf,
                self.reached == old(self).reached,
                by_slot == (|m: (u8, u8)| slot(m)),
                by_reach == (|m: (u8, u8)| reach(m)),
                self.mftot@ == counted(old(self).mftot@, moves@, i as nat, by_slot),
                self.mdftot@ == counted(old(self).mdftot@, moves@, i as nat, by_reach),
            decreases moves.len() - i,
        {
            let d = reach_of(&moves[i]);
            let s = slot_of(&moves[i]);
            let ghost tot = self.mftot@;
            let ghost dtot = self.mdftot@;
            self.mdftot[d] = one_more(self.mdftot[d]);
            self.mftot[s] = one_more(self.mftot[s]);
            proof {
                assert(self.mftot@ =~= tot.update(s as int, more(tot[s as int])));
                assert(self.mdftot@ =~= dtot.update(d as int, more(dtot[d as int])));
            }
            i += 1;
        }
    }

    /// Searches every move of the position `depth` plies deep and answers
    /// the first one, in the order in which the game sorts them, that
    /// attains the minimax value. Every legal move is counted as tried and
    /// the answer as chosen.
    pub fn minimax_move(&mut self, depth: u32) -> (m: (u8, u8))
        requires
            old(self).g.inv(),
            Tablut::status(old(self).g@) == State::Going,
            depth > 0,
        ensures
            final(self).g.inv(),
            final(self).g@ == old(self).g@,
            final(self).reached == depth,
            optimal::<Tablut, MinimaxTablut>(old(self).g@, m, depth as nat),
            m == choice::<Tablut, MinimaxTablut>(old(self).g@, depth as nat),
            final(self).mf@ == old(self).mf@.update(slot(m), more(old(self).mf[slot(m)])),
            final(self).mdf@ == old(self).mdf@.update(reach(m), more(old(self).mdf[reach(m)])),
            final(self).mftot@ == counted(
                old(self).mftot@,
                Tablut::moves(old(self).g@),
                Tablut::moves(old(self).g@).len(),
                |m: (u8, u8)| slot(m),
            ),
            final(self).mdftot@ == counted(
                old(self).mdftot@,
                Tablut::moves(old(self).g@),
                Tablut::moves(old(self).g@).len(),
                |m: (u8, u8)| reach(m),
            ),
    {
        self.note_tried();
        let (ans, _) = best_move::<Tablut, MinimaxTablut>(&mut self.g, depth);
        let d = reach_of(&ans);
        let s = slot_of(&ans);
        let ghost f = self.mf@;
        let ghost df = self.mdf@;
        self.mdf[d] = one_more(self.mdf[d]);
        self.mf[s] = one_more(self.mf[s]);
        proof {
            assert(self.mf@ =~= f.update(s as int, more(f[s as int])));
            assert(self.mdf@ =~= df.update(d as int, more(df[d as int])));
        }
        self.reached = depth;
        ans
    }
}

impl Ai<Tablut> for MinimaxTablut {
    open spec fn game(&self) -> Position {
        self.g@
    }

    open spec fn ready(&self) -> bool {
        self.g.inv()
    }

    fn new(t: bool) -> (s: Self)
        ensures
            s.reached == 0,
            forall|i: int| 0 <= i < 6561 ==> s.mf[i] == 0 && s.mftot[i] == 0,
            forall|i: int| 0 <= i < 9 ==> s.mdf[i] == 0 && s.mdftot[i] == 0,
    {
        MinimaxTablut::new_with_game(Tablut::new(t))
    }

    fn state(&self) -> (r: State) {
        self.g.state()
    }

    fn turn(&self) -> (r: bool) {
        self.g.turn()
    }

    /// Deepens the search ply by ply and looks at the clock between two
    /// searches: the answer is the best move of the last search, which is
    /// `reached` plies deep.
    fn get_mov(&mut self, tl: Duration) -> (m: (u8, u8))
        ensures
            final(self).reached > 0,
            optimal::<Tablut, MinimaxTablut>(old(self).g@, m, final(self).reached as nat),
            m == choice::<Tablut, MinimaxTablut>(old(self).g@, final(self).reached as nat),
    {
        let watch = Stopwatch::start(&tl);
        let mut depth: u32 = 1;
        let mut ans = self.minimax_move(1);
        while depth < u32::MAX && !watch.expired()
            invariant
                depth >= 1,
                self.g.inv(),
                self.g@ == old(self).g@,
                Tablut::status(self.g@) == State::Going,
                self.reached == depth,
                optimal::<Tablut, MinimaxTablut>(old(self).g@, ans, depth as nat),
                ans == choice::<Tablut, MinimaxTablut>(old(self).g@, depth as nat),
            decreases u32::MAX - depth,
        {
            depth += 1;
            ans = self.minimax_move(depth);
        }
        ans
    }

    /// Takes note of a move made by either side. The counts of the moves
    /// stay as they are.
    fn mov(&mut self, m: &(u8, u8))
        ensures
            final(self).reached == old(self).reached,
            final(self).mf == old(self).mf,
            final(self).mftot == old(self).mftot,
            final(self).mdf == old(self).mdf,
            final(self).mdftot == old(self).mdftot,
    {
        self.g.mov(m);
    }
}

} // verus!
