//! Monte Carlo search on a table of positions: each simulation goes from
//! position to position by the urgency of the moves until it meets a
//! position that is not in the table, plays the game out at random from
//! there, and counts the result for every position on its way.

use crate::ai::Ai;
use crate::clock::Stopwatch;
use crate::game::{Game, State};
use crate::monte_carlo_tree_search::{pick_child, urgent, Policy};
use crate::ucb::Ucb;
use crate::playout::{ends, follow, lawful, lemma_follow_push, random_playout};
use crate::random::{coin, fresh_rng};
use crate::transposition::TranspositionTable;
use rand_xoshiro::Xoroshiro128Plus;
use std::time::Duration;
use vstd::prelude::*;

verus! {

/// The moves after which a line of play is given up.
pub const LINE_CAP: usize = 4096;

/// The engine: the position of the game, the generator that the playouts
/// draw from, the table of the simulations and the policy by which the
/// moves are tried.
pub struct MonteCarlo<G: Game, P: Policy> {
    pub g: G,
    pub rng: Xoroshiro128Plus,
    /// For each position that a simulation has met: the simulations through
    /// it that the first player won, kept as the value, and the simulations
    /// through it, kept as the depth.
    pub table: TranspositionTable<G>,
    pub policy: P,
}

/// Whether the rate `c1 / n1` is greater than the rate `c2 / n2`.
pub open spec fn rate_above(c1: u64, n1: u64, c2: u64, n2: u64) -> bool {
    c1 * n2 > c2 * n1
}

/// The greatest rate above 0 among the first `n` pairs of wins and
/// simulations, as such a pair, and the place of the first pair that has
/// it; no win in one simulation and the first place where there is none.
pub open spec fn best_rate(credits: Seq<u64>, visits: Seq<u64>, n: nat) -> (u64, u64, int)
    decreases n,
{
    if n == 0 || n > credits.len() || n > visits.len() {
        (0u64, 1u64, 0int)
    } else {
        let r = best_rate(credits, visits, (n - 1) as nat);
        if rate_above(credits[n - 1], visits[n - 1], r.0, r.1) {
            (credits[n - 1], visits[n - 1], n - 1)
        } else {
            r
        }
    }
}

/// The place of the greatest rate of wins: see [`best_rate`].
pub fn pick_rate(credits: &Vec<u64>, visits: &Vec<u64>) -> (i: usize)
    requires
        credits@.len() == visits@.len(),
    ensures
        i == best_rate(credits@, visits@, credits@.len()).2,
        credits@.len() > 0 ==> i < credits@.len(),
{
    let mut bc: u64 = 0;
    let mut bn: u64 = 1;
    let mut at: usize = 0;
    let mut i: usize = 0;
    while i < credits.len()
        invariant
            i <= credits@.len(),
            credits@.len() == visits@.len(),
            (bc, bn, at as int) == best_rate(credits@, visits@, i as nat),
            i > 0 ==> at < i,
            i == 0 ==> at == 0,
        decreases credits@.len() - i,
    {
        let c = credits[i];
        let v = visits[i];
        assert(c * bn <= u64::MAX * u64::MAX && bc * v <= u64::MAX * u64::MAX)
            by (nonlinear_arith)
            requires
                0 <= c <= u64::MAX,
                0 <= bn <= u64::MAX,
                0 <= bc <= u64::MAX,
                0 <= v <= u64::MAX,
        ;
        if c as u128 * bn as u128 > bc as u128 * v as u128 {
            bc = credits[i];
            bn = visits[i];
            at = i;
        }
        i += 1;
    }
    at
}

/// The wins of the first player and the simulations that an entry of the
/// table stands for: the wins are its value, held between nothing and the
/// simulations, which are its depth.
pub open spec fn tally(e: (i64, u32)) -> (u32, u32) {
    if e.0 <= 0 {
        (0u32, e.1)
    } else if e.0 >= e.1 {
        (e.1, e.1)
    } else {
        (e.0 as u32, e.1)
    }
}

/// The wins and the simulations that the table `b` holds for the position
/// `v`.
pub open spec fn seen<G: Game>(b: Map<G::S, (i64, u32)>, v: G::V) -> Option<(u32, u32)> {
    if b.contains_key(G::key(v)) {
        Some(tally(b[G::key(v)]))
    } else {
        None
    }
}

/// The entry of a position with the wins and simulations `e` after one
/// more simulation, which the first player won if `mc` is 1. The counters
/// stay where they can go no further.
pub open spec fn bumped(e: Option<(u32, u32)>, mc: u32) -> (i64, u32) {
    let w = match e {
        Some(x) => x.0,
        None => 0u32,
    };
    let n = match e {
        Some(x) => x.1,
        None => 0u32,
    };
    let n1 = if n < u32::MAX {
        (n + 1) as u32
    } else {
        n
    };
    if w < n1 {
        ((w + mc) as i64, n1)
    } else {
        (w as i64, n1)
    }
}

/// The table `b` after one more simulation through the position `v`.
pub open spec fn counted<G: Game>(b: Map<G::S, (i64, u32)>, v: G::V, mc: u32) -> Map<
    G::S,
    (i64, u32),
> {
    b.insert(G::key(v), bumped(seen::<G>(b, v), mc))
}

/// The wins of the side `first` among `n` simulations of which the first
/// player won `w`.
pub open spec fn side(first: bool, w: u32, n: u32) -> u64 {
    if first {
        w as u64
    } else if n >= w {
        (n - w) as u64
    } else {
        0
    }
}

/// The simulations through the position `v`, none where the table does not
/// hold it.
pub open spec fn tried<G: Game>(b: Map<G::S, (i64, u32)>, v: G::V) -> u64 {
    match seen::<G>(b, v) {
        Some(x) => x.1 as u64,
        None => 0,
    }
}

/// The urgency of the move at the place `i` in the position `v`, which
/// leads to a position that the table holds.
pub open spec fn rated<G: Game, P: Policy>(
    p: P,
    b: Map<G::S, (i64, u32)>,
    v: G::V,
    i: int,
) -> i64 {
    match seen::<G>(b, G::next(v, G::moves(v)[i])) {
        Some(x) => p.rank(
            (2 * side(G::to_move(v), x.0, x.1)) as u64,
            x.1 as u64,
            tried::<G>(b, v),
        ),
        None => 0i64,
    }
}

/// The place of the first among the first `n` moves of `v` that leads to a
/// position that the table does not hold, and `n` where there is none.
pub open spec fn first_unseen<G: Game>(b: Map<G::S, (i64, u32)>, v: G::V, n: nat) -> int
    decreases n,
{
    if n == 0 {
        0
    } else {
        let r = first_unseen::<G>(b, v, (n - 1) as nat);
        if r < n - 1 {
            r
        } else if seen::<G>(b, G::next(v, G::moves(v)[n - 1])) is None {
            n - 1
        } else {
            n as int
        }
    }
}

/// The place of the move that a simulation tries in the position `v`, and
/// whether it leads to a position that the table does not hold: the first
/// move that does so, and where there is none the first move of greatest
/// urgency.
pub open spec fn chosen<G: Game, P: Policy>(p: P, b: Map<G::S, (i64, u32)>, v: G::V) -> (
    int,
    bool,
) {
    let n = G::moves(v).len();
    let f = first_unseen::<G>(b, v, n);
    if f < n {
        (f, true)
    } else {
        (
            urgent(
                Seq::new(n, |i: int| rated::<G, P>(p, b, v, i)),
                Seq::new(n, |i: int| false),
                n,
            ).1,
            false,
        )
    }
}

/// The wins of the side to move and the simulations of the position after
/// the move at the place `i` in `v`; one win in two where the table does
/// not hold that position.
pub open spec fn odds<G: Game>(b: Map<G::S, (i64, u32)>, v: G::V, i: int) -> (u64, u64) {
    match seen::<G>(b, G::next(v, G::moves(v)[i])) {
        Some(x) => (side(G::to_move(v), x.0, x.1), x.1 as u64),
        None => (side(G::to_move(v), 1, 2), 2u64),
    }
}

/// The move to play in `v` by the table `b`: the first that leads to the
/// position with the greatest rate of wins for the side to move, and the
/// first legal move where no rate is above 0.
pub open spec fn reply<G: Game>(b: Map<G::S, (i64, u32)>, v: G::V) -> G::M {
    let n = G::moves(v).len();
    G::moves(v)[best_rate(
        Seq::new(n, |i: int| odds::<G>(b, v, i).0),
        Seq::new(n, |i: int| odds::<G>(b, v, i).1),
        n,
    ).2]
}

/// The line that a simulation takes from the position `v` through the
/// table `b`, of `cap` moves at most, and whether it ends with a move into a
/// position that the table does not hold: the moves are the chosen ones,
/// see [`chosen`], until such a position is met or the game is decided.
pub open spec fn line<G: Game, P: Policy>(p: P, b: Map<G::S, (i64, u32)>, v: G::V, cap: nat) -> (
    Seq<G::M>,
    bool,
)
    decreases cap,
{
    if cap == 0 || G::status(v) != State::Going {
        (Seq::empty(), false)
    } else {
        let c = chosen::<G, P>(p, b, v);
        let m = G::moves(v)[c.0];
        if c.1 {
            (seq![m], true)
        } else {
            let r = line::<G, P>(p, b, G::next(v, m), (cap - 1) as nat);
            (seq![m] + r.0, r.1)
        }
    }
}

/// The table `b` after a simulation was counted for each position on the
/// line `path` from `v`, from the one after `from` moves to the last.
pub open spec fn credited<G: Game>(
    b: Map<G::S, (i64, u32)>,
    v: G::V,
    path: Seq<G::M>,
    from: nat,
    mc: u32,
) -> Map<G::S, (i64, u32)>
    decreases path.len() + 1 - from,
{
    if from > path.len() {
        b
    } else {
        counted::<G>(
            credited::<G>(b, v, path, from + 1, mc),
            follow::<G>(v, path, from),
            mc,
        )
    }
}

/// The table `b` with the position `v` in it: as it is where it holds the
/// position, and else with no simulation for it.
pub open spec fn opened<G: Game>(b: Map<G::S, (i64, u32)>, v: G::V) -> Map<G::S, (i64, u32)> {
    if b.contains_key(G::key(v)) {
        b
    } else {
        b.insert(G::key(v), (0i64, 0u32))
    }
}

/// Whether `after` is the table `b` after a simulation that took the line
/// `path` from `v`, played the game out from there by the moves of `tail`
/// to the end `st`, and counted `mc` for every position of the line: 1 for
/// a win of the first player, 0 for a loss, and either where the game was
/// not decided.
pub open spec fn simulated<G: Game>(
    b: Map<G::S, (i64, u32)>,
    v: G::V,
    path: Seq<G::M>,
    tail: Seq<G::M>,
    st: State,
    mc: u32,
    after: Map<G::S, (i64, u32)>,
) -> bool {
    &&& ends::<G>(follow::<G>(v, path, path.len()), tail, LINE_CAP as nat, st)
    &&& mc <= 1
    &&& st == State::Win ==> mc == 1
    &&& st == State::Lose ==> mc == 0
    &&& after == credited::<G>(b, v, path, 0, mc)
}

/// A line goes on from the position that its first moves lead to.
proof fn lemma_line_step<G: Game, P: Policy>(
    p: P,
    b: Map<G::S, (i64, u32)>,
    v: G::V,
    cap: nat,
    path: Seq<G::M>,
    w: G::V,
    left: nat,
)
    requires
        left > 0,
        G::status(w) == State::Going,
        line::<G, P>(p, b, v, cap) == (
            path + line::<G, P>(p, b, w, left).0,
            line::<G, P>(p, b, w, left).1,
        ),
    ensures
        ({
            let c = chosen::<G, P>(p, b, w);
            let m = G::moves(w)[c.0];
            let r = line::<G, P>(p, b, G::next(w, m), (left - 1) as nat);
            &&& c.1 ==> line::<G, P>(p, b, v, cap) == (path.push(m), true)
            &&& !c.1 ==> line::<G, P>(p, b, v, cap) == (path.push(m) + r.0, r.1)
        }),
{
    let c = chosen::<G, P>(p, b, w);
    let m = G::moves(w)[c.0];
    let r = line::<G, P>(p, b, G::next(w, m), (left - 1) as nat);
    if c.1 {
        assert(path + seq![m] =~= path.push(m));
    } else {
        assert(path + (seq![m] + r.0) =~= path.push(m) + r.0);
    }
}

/// Once a move leads to a position that the table does not hold, it stays
/// the first to do so however many more moves are looked at.
pub proof fn lemma_first_unseen<G: Game>(b: Map<G::S, (i64, u32)>, v: G::V, k: nat, n: nat)
    requires
        k <= n,
    ensures
        0 <= first_unseen::<G>(b, v, k) <= k,
        first_unseen::<G>(b, v, k) < k ==> first_unseen::<G>(b, v, n) == first_unseen::<G>(
            b,
            v,
            k,
        ),
    decreases n,
{
    if k > 0 {
        lemma_first_unseen::<G>(b, v, (k - 1) as nat, (k - 1) as nat);
    }
    if n > k {
        lemma_first_unseen::<G>(b, v, k, (n - 1) as nat);
    }
}

impl<G: Game, P: Policy> MonteCarlo<G, P> {
    /// An engine that takes up the game at `g`, draws from `rng` and tries
    /// the moves as `policy` says.
    pub fn new_with(g: G, rng: Xoroshiro128Plus, policy: P) -> (s: Self)
        requires
            g.inv(),
        ensures
            s.g == g,
            s.table.is_empty(),
    {
        MonteCarlo { g, rng, table: TranspositionTable::new(0), policy }
    }

    /// Plays the game out at random from the position and tells whether the
    /// first player won: 1 or 0, and one of the two by the toss of a coin
    /// where the game was not decided. The position is as before.
    pub fn explore_branch(&mut self) -> (r: u32)
        requires
            old(self).g.inv(),
        ensures
            final(self).g.inv(),
            final(self).g@ == old(self).g@,
            final(self).table == old(self).table,
            final(self).policy == old(self).policy,
            r <= 1,
            exists|path: Seq<G::M>, st: State|
                ends::<G>(old(self).g@, path, LINE_CAP as nat, st) && (st == State::Win ==> r
                    == 1) && (st == State::Lose ==> r == 0),
    {
        let ghost v0 = self.g@;
        let st = random_playout(&mut self.g, &mut self.rng, LINE_CAP);
        let r: u32 = match st {
            State::Win => 1,
            State::Lose => 0,
            _ => if coin(&mut self.rng) {
                1
            } else {
                0
            },
        };
        proof {
            let path = choose|path: Seq<G::M>| ends::<G>(v0, path, LINE_CAP as nat, st);
            assert(ends::<G>(v0, path, LINE_CAP as nat, st) && (st == State::Win ==> r == 1) && (
            st == State::Lose ==> r == 0));
        }
        r
    }

    /// The wins and the simulations that the table holds for the position.
    fn counts(&self) -> (r: Option<(u32, u32)>)
        requires
            self.g.inv(),
        ensures
            r == seen::<G>(self.table.book(), self.g@),
    {
        let key = self.g.get_static_state();
        match self.table.peek(&key) {
            Some((w, n)) => {
                let wins: u32 = if w <= 0 {
                    0
                } else if w >= n as i64 {
                    n
                } else {
                    w as u32
                };
                Some((wins, n))
            },
            None => None,
        }
    }

    /// Counts one more simulation for the position, won by the first player
    /// if `mc` is 1.
    fn count(&mut self, mc: u32)
        requires
            old(self).g.inv(),
            mc <= 1,
        ensures
            final(self).g == old(self).g,
            final(self).policy == old(self).policy,
            final(self).table.book() == counted::<G>(old(self).table.book(), old(self).g@, mc),
    {
        let (w, n) = match self.counts() {
            Some(x) => x,
            None => (0, 0),
        };
        let key = self.g.get_static_state();
        let n1: u32 = if n < u32::MAX { n + 1 } else { n };
        let w1: u32 = if w < n1 { w + mc } else { w };
        self.table.store(key, w1 as i64, n1);
        assert(self.table.book() =~= counted::<G>(old(self).table.book(), old(self).g@, mc));
    }

    /// The move to try next, and whether it leads to a position that is not
    /// in the table: the first move that does so, and where there is none
    /// the move of greatest urgency.
    fn next_move(&mut self) -> (r: (G::M, bool))
        requires
            old(self).g.inv(),
            G::status(old(self).g@) == State::Going,
        ensures
            final(self).g.inv(),
            final(self).g@ == old(self).g@,
            final(self).table == old(self).table,
            final(self).policy == old(self).policy,
            G::moves(old(self).g@).contains(r.0),
            0 <= chosen::<G, P>(old(self).policy, old(self).table.book(), old(self).g@).0
                < G::moves(old(self).g@).len(),
            r.0 == G::moves(old(self).g@)[chosen::<G, P>(
                old(self).policy,
                old(self).table.book(),
                old(self).g@,
            ).0],
            r.1 == chosen::<G, P>(old(self).policy, old(self).table.book(), old(self).g@).1,
    {
        let moves = self.g.get_moves();
        let first = self.g.turn();
        let ghost v0 = self.g@;
        let ghost b = self.table.book();
        proof {
            self.g.law_inv();
            G::law_going_has_moves(v0);
        }
        let np: u64 = match self.counts() {
            Some((_, n)) => n as u64,
            None => 0,
        };
        let mut scores: Vec<i64> = Vec::new();
        let mut known: Vec<bool> = Vec::new();
        let mut i: usize = 0;
        while i < moves.len()
            invariant
                i <= moves@.len(),
                scores@.len() == i,
                known@.len() == i,
                moves@ == G::moves(v0),
                v0 == old(self).g@,
                self.table == old(self).table,
                self.policy == old(self).policy,
                b == self.table.book(),
                first == G::to_move(v0),
                np == tried::<G>(b, v0),
                self.g.inv(),
                self.g@ == v0,
                G::valid(v0),
                G::status(v0) == State::Going,
                first_unseen::<G>(b, v0, i as nat) == i,
                forall|j: int| 0 <= j < i ==> scores@[j] == rated::<G, P>(self.policy, b, v0, j),
                forall|j: int| 0 <= j < i ==> !known@[j],
            decreases moves@.len() - i,
        {
            proof {
                assert(moves@.contains(moves@[i as int]));
                G::law_undo(v0, moves@[i as int]);
            }
            let rb = self.g.mov_with_rollback(&moves[i]);
            let seen = self.counts();
            self.g.rollback(rb);
            match seen {
                Some((w, n)) => {
                    let credit: u64 = if first {
                        w as u64
                    } else if n >= w {
                        (n - w) as u64
                    } else {
                        0
                    };
                    scores.push(self.policy.urgency(2 * credit, n as u64, np));
                    known.push(false);
                },
                None => {
                    proof {
                        lemma_first_unseen::<G>(b, v0, (i + 1) as nat, moves@.len());
                    }
                    return (G::copy_move(&moves[i]), true);
                },
            }
            i += 1;
        }
        let at = pick_child(&scores, &known);
        proof {
            let n = moves@.len();
            assert(scores@ =~= Seq::new(n, |i: int| rated::<G, P>(self.policy, b, v0, i)));
            assert(known@ =~= Seq::new(n, |i: int| false));
            assert(moves@.contains(moves@[at as int]));
        }
        (G::copy_move(&moves[at]), false)
    }

    /// One simulation from the position of the game. Answers `false`, with
    /// nothing counted, where the way through the table ends in a decided
    /// game. The position is as before.
    pub fn step(&mut self) -> (r: bool)
        requires
            old(self).g.inv(),
        ensures
            final(self).g.inv(),
            final(self).g@ == old(self).g@,
            final(self).policy == old(self).policy,
            G::status(old(self).g@) != State::Going ==> !r,
            r == line::<G, P>(
                old(self).policy,
                opened::<G>(old(self).table.book(), old(self).g@),
                old(self).g@,
                LINE_CAP as nat,
            ).1,
            !r ==> final(self).table.book() == opened::<G>(old(self).table.book(), old(self).g@),
            r ==> exists|tail: Seq<G::M>, st: State, mc: u32|
                simulated::<G>(
                    opened::<G>(old(self).table.book(), old(self).g@),
                    old(self).g@,
                    line::<G, P>(
                        old(self).policy,
                        opened::<G>(old(self).table.book(), old(self).g@),
                        old(self).g@,
                        LINE_CAP as nat,
                    ).0,
                    tail,
                    st,
                    mc,
                    final(self).table.book(),
                ),
    {
        let ghost v0 = self.g@;
        let ghost mut path: Seq<G::M> = Seq::empty();
        let mut tokens: Vec<G::R> = Vec::new();
        let mut n: usize = 0;
        let mut found = false;
        proof {
            self.g.law_inv();
        }
        if self.counts().is_none() {
            let key = self.g.get_static_state();
            self.table.store(key, 0, 0);
        }
        let ghost b = self.table.book();
        let ghost p = self.policy;
        proof {
            assert(b =~= opened::<G>(old(self).table.book(), v0));
            assert(Seq::<G::M>::empty() + line::<G, P>(p, b, v0, LINE_CAP as nat).0 =~= line::<G, P>(
                p,
                b,
                v0,
                LINE_CAP as nat,
            ).0);
        }
        while !found && n < LINE_CAP && self.g.state() == State::Going
            invariant
                n <= LINE_CAP,
                n == path.len(),
                self.g.inv(),
                G::valid(v0),
                lawful::<G>(v0, path),
                tokens@.len() == path.len(),
                self.g@ == follow::<G>(v0, path, path.len()),
                path.len() == 0 ==> !found,
                self.policy == p,
                self.table.book() == b,
                found ==> line::<G, P>(p, b, v0, LINE_CAP as nat) == (path, true),
                !found ==> line::<G, P>(p, b, v0, LINE_CAP as nat) == (
                    path + line::<G, P>(p, b, self.g@, (LINE_CAP - n) as nat).0,
                    line::<G, P>(p, b, self.g@, (LINE_CAP - n) as nat).1,
                ),
                forall|i: int|
                    0 <= i < path.len() ==> #[trigger] tokens@[i] == G::token(
                        follow::<G>(v0, path, i as nat),
                        path[i],
                    ),
            decreases LINE_CAP - n,
        {
            let ghost w = self.g@;
            let (m, unseen) = self.next_move();
            let ghost old_path = path;
            let ghost old_tokens = tokens@;
            let rb = self.g.mov_with_rollback(&m);
            tokens.push(rb);
            proof {
                lemma_line_step::<G, P>(p, b, v0, LINE_CAP as nat, path, w, (LINE_CAP - n) as nat);
                path = path.push(m);
                lemma_follow_push::<G>(v0, old_path, m, old_path.len());
                assert forall|i: int| 0 <= i < path.len() implies G::status(
                    #[trigger] follow::<G>(v0, path, i as nat),
                ) == State::Going && G::moves(follow::<G>(v0, path, i as nat)).contains(
                    path[i],
                ) by {
                    lemma_follow_push::<G>(v0, old_path, m, i as nat);
                }
                assert forall|i: int| 0 <= i < path.len() implies #[trigger] tokens@[i]
                    == G::token(follow::<G>(v0, path, i as nat), path[i]) by {
                    lemma_follow_push::<G>(v0, old_path, m, i as nat);
                    if i < old_path.len() {
                        assert(tokens@[i] == old_tokens[i]);
                    }
                }
            }
            n += 1;
            found = unseen;
        }
        proof {
            if path.len() > 0 {
                let i = 0int;
                assert(G::status(follow::<G>(v0, path, i as nat)) == State::Going);
            }
            if !found {
                assert(path + Seq::<G::M>::empty() =~= path);
            }
            assert(line::<G, P>(p, b, v0, LINE_CAP as nat) == (path, found));
        }
        let mut mc: u32 = 0;
        let ghost mut tail: Seq<G::M> = Seq::empty();
        let ghost mut st: State = State::Going;
        if found {
            let ghost w = self.g@;
            mc = self.explore_branch();
            proof {
                let (pa, s) = choose|pa: Seq<G::M>, s: State|
                    ends::<G>(w, pa, LINE_CAP as nat, s) && (s == State::Win ==> mc == 1) && (s
                        == State::Lose ==> mc == 0);
                tail = pa;
                st = s;
            }
            self.count(mc);
            proof {
                assert(credited::<G>(b, v0, path, path.len() + 1, mc) == b);
                assert(self.table.book() == credited::<G>(b, v0, path, path.len(), mc));
            }
        }
        while tokens.len() > 0
            invariant
                self.g.inv(),
                G::valid(v0),
                lawful::<G>(v0, path),
                mc <= 1,
                tokens@.len() <= path.len(),
                self.g@ == follow::<G>(v0, path, tokens@.len()),
                self.policy == p,
                !found ==> self.table.book() == b,
                found ==> self.table.book() == credited::<G>(b, v0, path, tokens@.len(), mc),
                forall|i: int|
                    0 <= i < tokens@.len() ==> #[trigger] tokens@[i] == G::token(
                        follow::<G>(v0, path, i as nat),
                        path[i],
                    ),
            decreases tokens@.len(),
        {
            let ghost k = (tokens@.len() - 1) as nat;
            let ghost toks = tokens@;
            let rb = tokens.pop().unwrap();
            proof {
                assert(rb == toks[k as int]);
                crate::playout::lemma_follow_valid::<G>(v0, path, k);
                G::law_undo(follow::<G>(v0, path, k), path[k as int]);
            }
            self.g.rollback(rb);
            if found {
                self.count(mc);
            }
        }
        proof {
            if found {
                assert(simulated::<G>(b, v0, path, tail, st, mc, self.table.book()));
            }
        }
        found
    }

    /// The move to play after the simulations: the one that leads to the
    /// position with the greatest rate of wins for the side to move, a
    /// position that is not in the table counted as one win in two; the
    /// first legal move where no rate is above 0.
    pub fn answer(&mut self) -> (m: G::M)
        requires
            old(self).g.inv(),
            G::status(old(self).g@) == State::Going,
        ensures
            final(self).g.inv(),
            final(self).g@ == old(self).g@,
            final(self).table == old(self).table,
            final(self).policy == old(self).policy,
            G::moves(old(self).g@).contains(m),
            m == reply::<G>(old(self).table.book(), old(self).g@),
    {
        let moves = self.g.get_moves();
        let first = self.g.turn();
        let ghost v0 = self.g@;
        let ghost b = self.table.book();
        proof {
            self.g.law_inv();
            G::law_going_has_moves(v0);
        }
        let mut credits: Vec<u64> = Vec::new();
        let mut visits: Vec<u64> = Vec::new();
        let mut i: usize = 0;
        while i < moves.len()
            invariant
                i <= moves@.len(),
                credits@.len() == i,
                visits@.len() == i,
                moves@ == G::moves(v0),
                self.table == old(self).table,
                self.policy == old(self).policy,
                b == self.table.book(),
                first == G::to_move(v0),
                self.g.inv(),
                self.g@ == v0,
                G::valid(v0),
                G::status(v0) == State::Going,
                forall|j: int| 0 <= j < i ==> credits@[j] == odds::<G>(b, v0, j).0,
                forall|j: int| 0 <= j < i ==> visits@[j] == odds::<G>(b, v0, j).1,
            decreases moves@.len() - i,
        {
            proof {
                assert(moves@.contains(moves@[i as int]));
                G::law_undo(v0, moves@[i as int]);
            }
            let rb = self.g.mov_with_rollback(&moves[i]);
            let (w, n) = match self.counts() {
                Some(x) => x,
                None => (1, 2),
            };
            self.g.rollback(rb);
            credits.push(
                if first {
                    w as u64
                } else if n >= w {
                    (n - w) as u64
                } else {
                    0
                },
            );
            visits.push(n as u64);
            i += 1;
        }
        let at = pick_rate(&credits, &visits);
        proof {
            let n = moves@.len();
            assert(credits@ =~= Seq::new(n, |i: int| odds::<G>(b, v0, i).0));
            assert(visits@ =~= Seq::new(n, |i: int| odds::<G>(b, v0, i).1));
            assert(moves@.contains(moves@[at as int]));
        }
        G::copy_move(&moves[at])
    }

    /// Runs up to `n` simulations and answers the move to play by what the
    /// table then holds.
    pub fn get_mov_with_steps(&mut self, n: u32) -> (m: G::M)
        requires
            old(self).g.inv(),
            G::status(old(self).g@) == State::Going,
        ensures
            final(self).g.inv(),
            final(self).g@ == old(self).g@,
            final(self).policy == old(self).policy,
            G::moves(old(self).g@).contains(m),
            m == reply::<G>(final(self).table.book(), old(self).g@),
            n == 0 ==> final(self).table == old(self).table,
    {
        let mut i: u32 = 0;
        while i < n
            invariant
                self.g.inv(),
                self.g@ == old(self).g@,
                self.policy == old(self).policy,
                i <= n,
                i == 0 ==> self.table == old(self).table,
            decreases n - i,
        {
            self.step();
            i += 1;
        }
        self.answer()
    }
}

/// The weight of the bonus for what was tried little, in parts of a
/// thousand, that an engine takes unless it is given a policy.
pub const EXPLORATION: u64 = 1500;

impl<G: Game> Ai<G> for MonteCarlo<G, Ucb> {
    open spec fn game(&self) -> G::V {
        self.g@
    }

    open spec fn ready(&self) -> bool {
        self.g.inv()
    }

    fn new(t: bool) -> (s: Self) {
        MonteCarlo::new_with(G::new(t), fresh_rng(0), Ucb { c: EXPLORATION })
    }

    fn state(&self) -> (r: State) {
        self.g.state()
    }

    fn turn(&self) -> (r: bool) {
        self.g.turn()
    }

    /// Runs simulations, 128 between two looks at the clock, until the
    /// budget runs out, and answers the move to play by what the table
    /// then holds.
    fn get_mov(&mut self, tl: Duration) -> (m: G::M)
        ensures
            m == reply::<G>(final(self).table.book(), old(self).g@),
    {
        let watch = Stopwatch::start(&tl);
        let mut m = self.get_mov_with_steps(128);
        let mut rounds: u32 = 0;
        while rounds < u32::MAX && !watch.expired()
            invariant
                self.g.inv(),
                self.g@ == old(self).g@,
                G::status(self.g@) == State::Going,
                G::moves(self.g@).contains(m),
                m == reply::<G>(self.table.book(), self.g@),
            decreases u32::MAX - rounds,
        {
            m = self.get_mov_with_steps(128);
            rounds += 1;
        }
        m
    }

    fn mov(&mut self, m: &G::M) {
        self.g.mov(m);
    }
}

} // verus!
