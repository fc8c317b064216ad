//! Monte Carlo tree search: a tree of the lines of play that were tried,
//! grown by one leaf with each simulation, the lines that look best tried
//! most, and what is known for certain handed up the tree.

use crate::ai::Ai;
use crate::clock::Stopwatch;
use crate::game::{Game, State};
use crate::playout::{ends, guided, guided_playout};
use crate::random::{coin, fresh_rng};
use crate::transposition::TranspositionTable;
use crate::ucb::Ucb;
use rand_xoshiro::Xoroshiro128Plus;
use std::time::Duration;
use vstd::prelude::*;

verus! {

/// How urgent it is to try a line of play again.
pub trait Policy {
    /// The urgency of a child that was tried `visits` times and brought
    /// `credit` half points to the side to move at its parent, which was
    /// tried `parent_visits` times. The search takes the child of greatest
    /// urgency and none whose urgency is not above 0.
    spec fn rank(&self, credit: u64, visits: u64, parent_visits: u64) -> i64;

    fn urgency(&self, credit: u64, visits: u64, parent_visits: u64) -> (r: i64)
        ensures
            r == self.rank(credit, visits, parent_visits),
    ;
}

/// The rate of wins alone, in parts of a thousand and never less than one.
pub struct WinRate;

/// The rate of `credit` half points in `visits` tries, in parts of a
/// thousand and never less than one; a thousand where nothing was tried.
pub open spec fn win_rate(credit: u64, visits: u64) -> int {
    if visits == 0 || credit / 2 > visits {
        1000
    } else if (credit / 2) * 1000 / (visits as int) == 0 {
        1
    } else {
        (credit / 2) * 1000 / (visits as int)
    }
}

impl Policy for WinRate {
    open spec fn rank(&self, credit: u64, visits: u64, parent_visits: u64) -> i64 {
        win_rate(credit, visits) as i64
    }

    fn urgency(&self, credit: u64, visits: u64, parent_visits: u64) -> (r: i64) {
        if visits == 0 || credit / 2 > visits {
            1000
        } else {
            let half: u64 = credit / 2;
            assert(half * 1000 / (visits as int) <= 1000) by (nonlinear_arith)
                requires
                    0 <= half <= visits,
                    visits > 0,
            ;
            let r = half as u128 * 1000 / (visits as u128);
            if r == 0 {
                1
            } else {
                r as i64
            }
        }
    }
}

/// What is known for certain of a position: nothing, that the first player
/// wins, or that the first player loses.
#[derive(PartialEq, Eq, Copy, Clone, Debug, Structural)]
pub enum Shure {
    No,
    Win,
    Loss,
}

/// A position in the tree of the search.
pub struct Tree<G: Game> {
    /// The half points that the simulations through this position brought
    /// the first player: two for a win, one for a draw.
    pub wins: u64,
    /// The simulations through this position.
    pub vis: u64,
    /// The legal moves, once the position was expanded.
    pub movs: Vec<G::M>,
    pub shure: Shure,
    /// The positions after the first of the moves, as many as were tried.
    pub children: Vec<Tree<G>>,
}

/// The simulations through the first `n` of the children.
pub open spec fn visits<G: Game>(cs: Seq<Tree<G>>, n: nat) -> int
    decreases n,
{
    if n == 0 || n > cs.len() {
        0
    } else {
        visits(cs, (n - 1) as nat) + cs[n - 1].vis
    }
}

/// Whether the tree belongs to the position `v` and its counts add up:
/// the half points are no more than two a simulation; the moves, once
/// listed, are the legal moves of `v`, which is still going; there is a
/// child for a move only; a position with children was simulated once
/// itself and once with each simulation of a child; a position that is
/// still going and has no child was simulated once at most; and each child
/// was simulated and belongs to the position that its move leads to.
pub open spec fn fits<G: Game>(t: Tree<G>, v: G::V) -> bool
    decreases t,
{
    &&& t.wins <= 2 * t.vis
    &&& t.movs@.len() > 0 ==> G::status(v) == State::Going && t.movs@ == G::moves(v)
    &&& t.children@.len() <= t.movs@.len()
    &&& t.children@.len() > 0 ==> t.vis == 1 + visits(t.children@, t.children@.len())
    &&& t.children@.len() == 0 && G::status(v) == State::Going ==> t.vis <= 1
    &&& forall|i: int|
        0 <= i < t.children@.len() ==> (#[trigger] t.children@[i]).vis >= 1 && fits(
            t.children@[i],
            G::next(v, t.movs@[i]),
        )
}

/// Whether nothing has been tried yet.
pub open spec fn untried<G: Game>(t: Tree<G>) -> bool {
    t.wins == 0 && t.vis == 0 && t.movs@.len() == 0 && t.children@.len() == 0 && t.shure
        == Shure::No
}

/// Whether every move has a child and all of them are known to end as `s`.
pub open spec fn all_known<G: Game>(t: Tree<G>, s: Shure) -> bool {
    t.children@.len() == t.movs@.len() && forall|i: int|
        0 <= i < t.children@.len() ==> (#[trigger] t.children@[i]).shure == s
}

/// What is known of a position after a look at its children: a win where
/// every move leads to a position known to be won, a loss where every move
/// leads to one known to be lost, and else what was known before.
pub open spec fn verdict<G: Game>(t: Tree<G>) -> Shure {
    if all_known(t, Shure::Loss) {
        Shure::Loss
    } else if all_known(t, Shure::Win) {
        Shure::Win
    } else {
        t.shure
    }
}

/// The greatest urgency above 0 among the first `n` children that are not
/// known for certain, and the place of the first child that has it; 0 and
/// the first place where there is none.
pub open spec fn urgent(scores: Seq<i64>, known: Seq<bool>, n: nat) -> (i64, int)
    decreases n,
{
    if n == 0 || n > scores.len() || n > known.len() {
        (0i64, 0int)
    } else {
        let r = urgent(scores, known, (n - 1) as nat);
        if !known[n - 1] && scores[n - 1] > r.0 {
            (scores[n - 1], n - 1)
        } else {
            r
        }
    }
}

/// The half points that the simulations through the position `c` brought
/// the side to move at its parent.
pub open spec fn credit<G: Game>(c: Tree<G>, first: bool) -> u64 {
    if first {
        c.wins
    } else {
        (2 * c.vis - c.wins) as u64
    }
}

/// The place of the child that a simulation through the position `t`, which
/// has `n` moves, goes on with: a new child while there is a move without
/// one, and then the first among the children not known for certain that
/// the policy `p` finds most urgent.
pub open spec fn next_child<G: Game, P: Policy>(p: P, t: Tree<G>, n: nat, first: bool) -> int {
    if t.children@.len() < n {
        t.children@.len() as int
    } else {
        urgent(
            Seq::new(
                t.children@.len(),
                |j: int| p.rank(credit(t.children@[j], first), t.children@[j].vis, t.vis),
            ),
            Seq::new(t.children@.len(), |j: int| t.children@[j].shure != Shure::No),
            t.children@.len(),
        ).1
    }
}

/// The first place from `from` on at which the move `m` stands among
/// `movs`, and their number where it stands at none.
pub open spec fn spot<M>(movs: Seq<M>, m: M, from: nat) -> nat
    decreases movs.len() - from,
{
    if from >= movs.len() {
        movs.len()
    } else if movs[from as int] == m {
        from
    } else {
        spot(movs, m, from + 1)
    }
}

/// What a child counts when the move is chosen: its simulations, but all
/// that can be where it is known to be won for the side to move, and
/// nothing where it is known to be lost.
pub open spec fn weight(vis: u64, s: Shure, first: bool) -> u64 {
    match s {
        Shure::No => vis,
        Shure::Win => if first {
            u64::MAX
        } else {
            0
        },
        Shure::Loss => if first {
            0
        } else {
            u64::MAX
        },
    }
}

/// The greatest weight above 0 among the first `n` children, and the place
/// of the first child that has it; 0 and the first place where there is
/// none.
pub open spec fn heaviest<G: Game>(cs: Seq<Tree<G>>, first: bool, n: nat) -> (u64, int)
    decreases n,
{
    if n == 0 || n > cs.len() {
        (0u64, 0int)
    } else {
        let r = heaviest(cs, first, (n - 1) as nat);
        let w = weight(cs[n - 1].vis, cs[n - 1].shure, first);
        if w > r.0 {
            (w, n - 1)
        } else {
            r
        }
    }
}

/// Whether `m` is the move that the tree `t` answers in the position `v`:
/// the move under the child of greatest weight, and the first legal move
/// where the tree has no child.
pub open spec fn answered<G: Game>(t: Tree<G>, v: G::V, m: G::M) -> bool {
    &&& t.children@.len() > 0 ==> m == t.movs@[heaviest(
        t.children@,
        G::to_move(v),
        t.children@.len(),
    ).1]
    &&& t.children@.len() == 0 ==> m == G::moves(v)[0]
}

impl<G: Game> Tree<G> {
    /// A tree in which nothing has been tried yet.
    pub fn new() -> (t: Self)
        ensures
            untried(t),
    {
        Tree { wins: 0, vis: 0, movs: Vec::new(), shure: Shure::No, children: Vec::new() }
    }
}

impl<G: Game> Default for Tree<G> {
    fn default() -> (t: Self)
        ensures
            untried(t),
    {
        Tree::new()
    }
}

/// The place of the child to try next: see [`urgent`].
pub fn pick_child(scores: &Vec<i64>, known: &Vec<bool>) -> (i: usize)
    requires
        scores@.len() == known@.len(),
    ensures
        i == urgent(scores@, known@, scores@.len()).1,
        scores@.len() > 0 ==> i < scores@.len(),
        scores@.len() == 0 ==> i == 0,
{
    let mut best: i64 = 0;
    let mut at: usize = 0;
    let mut i: usize = 0;
    while i < scores.len()
        invariant
            i <= scores@.len(),
            scores@.len() == known@.len(),
            (best, at as int) == urgent(scores@, known@, i as nat),
            i > 0 ==> at < i,
            i == 0 ==> at == 0,
        decreases scores@.len() - i,
    {
        if !known[i] && scores[i] > best {
            best = scores[i];
            at = i;
        }
        i += 1;
    }
    at
}

/// The place of the child under the move to play: see [`heaviest`].
pub fn final_choice<G: Game>(cs: &Vec<Tree<G>>, first: bool) -> (i: usize)
    ensures
        i == heaviest(cs@, first, cs@.len()).1,
        cs@.len() > 0 ==> i < cs@.len(),
        cs@.len() == 0 ==> i == 0,
{
    let mut best: u64 = 0;
    let mut at: usize = 0;
    let mut i: usize = 0;
    while i < cs.len()
        invariant
            i <= cs@.len(),
            (best, at as int) == heaviest(cs@, first, i as nat),
            i > 0 ==> at < i,
            i == 0 ==> at == 0,
        decreases cs@.len() - i,
    {
        let w: u64 = match cs[i].shure {
            Shure::No => cs[i].vis,
            Shure::Win => if first {
                u64::MAX
            } else {
                0
            },
            Shure::Loss => if first {
                0
            } else {
                u64::MAX
            },
        };
        if w > best {
            best = w;
            at = i;
        }
        i += 1;
    }
    at
}

/// What a simulation brings the first player and what it shows for
/// certain, given how the line of play ended, after how many moves, and
/// what the coin showed: two half points for a win, none for a loss, one
/// for a draw; for a line that was given up, two or none by the coin. A
/// game decided within two moves is known for certain.
pub open spec fn appraised(st: State, plies: nat, cap: nat, heads: bool) -> (u64, Shure) {
    (
        if plies >= cap {
            if heads {
                2u64
            } else {
                0u64
            }
        } else {
            match st {
                State::Win => 2u64,
                State::Lose => 0u64,
                _ => 1u64,
            }
        },
        if plies >= cap || plies > 2 {
            Shure::No
        } else {
            match st {
                State::Win => Shure::Win,
                State::Lose => Shure::Loss,
                _ => Shure::No,
            }
        },
    )
}

/// The half points that a remembered value stands for.
pub open spec fn remembered(v: i64) -> u64 {
    if v <= 0 {
        0
    } else if v == 1 {
        1
    } else {
        2
    }
}

/// What a remembered number says is known for certain.
pub open spec fn meant(c: u32) -> Shure {
    if c == 1 {
        Shure::Win
    } else if c == 2 {
        Shure::Loss
    } else {
        Shure::No
    }
}

/// The number under which what is known for certain is remembered.
pub open spec fn code(s: Shure) -> u32 {
    match s {
        Shure::No => 0,
        Shure::Win => 1,
        Shure::Loss => 2,
    }
}

/// What a simulation brings the first player and what it shows for
/// certain: see [`appraised`].
pub fn appraise(st: State, plies: usize, cap: usize, heads: bool) -> (r: (u64, Shure))
    ensures
        r == appraised(st, plies as nat, cap as nat, heads),
{
    if plies >= cap {
        (
            if heads {
                2
            } else {
                0
            },
            Shure::No,
        )
    } else {
        match st {
            State::Win => (
                2,
                if plies <= 2 {
                    Shure::Win
                } else {
                    Shure::No
                },
            ),
            State::Lose => (
                0,
                if plies <= 2 {
                    Shure::Loss
                } else {
                    Shure::No
                },
            ),
            _ => (1, Shure::No),
        }
    }
}

proof fn lemma_visits_update<G: Game>(cs: Seq<Tree<G>>, i: int, c: Tree<G>, n: nat)
    requires
        0 <= i < cs.len(),
        n <= cs.len(),
    ensures
        visits(cs.update(i, c), n) == visits(cs, n) + (if i < n {
            c.vis - cs[i].vis
        } else {
            0
        }),
    decreases n,
{
    if n > 0 {
        lemma_visits_update(cs, i, c, (n - 1) as nat);
    }
}

proof fn lemma_visits_prefix<G: Game>(cs: Seq<Tree<G>>, c: Tree<G>, n: nat)
    requires
        n <= cs.len(),
    ensures
        visits(cs.push(c), n) == visits(cs, n),
    decreases n,
{
    if n > 0 {
        lemma_visits_prefix(cs, c, (n - 1) as nat);
        assert(cs.push(c)[n - 1] == cs[n - 1]);
    }
}

proof fn lemma_visits_push<G: Game>(cs: Seq<Tree<G>>, c: Tree<G>)
    ensures
        visits(cs.push(c), cs.len() + 1) == visits(cs, cs.len()) + c.vis,
{
    lemma_visits_prefix(cs, c, cs.len());
    assert(cs.push(c)[cs.len() as int] == c);
}

proof fn lemma_visits_bound<G: Game>(cs: Seq<Tree<G>>, i: int, n: nat)
    requires
        0 <= i < n <= cs.len(),
    ensures
        cs[i].vis <= visits(cs, n),
        0 <= visits(cs, n),
    decreases n,
{
    lemma_visits_positive(cs, n);
    lemma_visits_positive(cs, (n - 1) as nat);
    if i < n - 1 {
        lemma_visits_bound(cs, i, (n - 1) as nat);
    }
}

proof fn lemma_visits_positive<G: Game>(cs: Seq<Tree<G>>, n: nat)
    ensures
        0 <= visits(cs, n),
    decreases n,
{
    if n > 0 {
        lemma_visits_positive(cs, (n - 1) as nat);
    }
}

/// The moves after which a guided line of play is given up.
pub const PLAYOUT_CAP: usize = 51;

/// The depth of the searches that guide a line of play.
pub const PLAYOUT_DEPTH: u32 = 2;

/// The engine: the position of the game, the tree of the search for it, and
/// what the simulations need.
pub struct MonteCarloTreeSearch<G: Game, P: Policy> {
    pub g: G,
    pub rng: Xoroshiro128Plus,
    pub tree: Tree<G>,
    /// The simulations that were run before, by position: the half points
    /// as the value and what they showed for certain as the depth.
    pub games: TranspositionTable<G>,
    /// The simulations that were answered from `games`.
    pub hits: u32,
    /// The simulations asked for.
    pub tot: u32,
    pub policy: P,
}

/// The number that stands for what is known for certain.
fn shure_code(s: Shure) -> (r: u32)
    ensures
        r == code(s),
{
    match s {
        Shure::No => 0,
        Shure::Win => 1,
        Shure::Loss => 2,
    }
}

/// What the number `c` stands for.
fn shure_of(c: u32) -> (s: Shure)
    ensures
        s == meant(c),
{
    if c == 1 {
        Shure::Win
    } else if c == 2 {
        Shure::Loss
    } else {
        Shure::No
    }
}

impl<G: Game, P: Policy> MonteCarloTreeSearch<G, P> {
    /// An engine that takes up the game at `g`, draws from `rng` and tries
    /// the lines of play as `policy` says.
    pub fn new_with(g: G, rng: Xoroshiro128Plus, policy: P) -> (s: Self)
        requires
            g.inv(),
        ensures
            s.g == g,
            untried(s.tree),
            s.games.is_empty(),
            s.hits == 0,
            s.tot == 0,
    {
        MonteCarloTreeSearch {
            g,
            rng,
            tree: Tree::new(),
            games: TranspositionTable::new(0),
            hits: 0,
            tot: 0,
            policy,
        }
    }

    /// Simulates the game from the position on: both sides play what a
    /// search of two plies finds best, for up to 51 moves. Tells what the
    /// simulation brings the first player, in half points, and what it
    /// shows for certain. A position that was simulated before is answered
    /// from memory. The position is as before.
    pub fn explore_branch(&mut self) -> (r: (u64, Shure))
        requires
            old(self).g.inv(),
        ensures
            final(self).g.inv(),
            final(self).g@ == old(self).g@,
            final(self).tree == old(self).tree,
            final(self).policy == old(self).policy,
            r.0 <= 2,
            old(self).games.entry(G::key(old(self).g@)) matches Some((v, d)) ==> r == (
                remembered(v),
                meant(d),
            ) && final(self).games == old(self).games,
            old(self).games.entry(G::key(old(self).g@)) is None ==> (exists|
                path: Seq<G::M>,
                st: State,
                heads: bool,
            |
                ends::<G>(old(self).g@, path, PLAYOUT_CAP as nat, st) && guided::<G>(
                    old(self).g@,
                    path,
                    PLAYOUT_DEPTH as nat,
                ) && r == appraised(st, path.len(), PLAYOUT_CAP as nat, heads)),
            old(self).games.entry(G::key(old(self).g@)) is None ==> final(self).games.entry(
                G::key(old(self).g@),
            ) == Some((r.0 as i64, code(r.1))),
            forall|k: G::S|
                k != G::key(old(self).g@) ==> final(self).games.entry(k) == old(self).games.entry(
                    k,
                ),
    {
        let key = self.g.get_static_state();
        match self.games.peek(&key) {
            Some((v, d)) => {
                if self.hits < u32::MAX {
                    self.hits += 1;
                }
                let halves: u64 = if v <= 0 {
                    0
                } else if v == 1 {
                    1
                } else {
                    2
                };
                return (halves, shure_of(d));
            },
            None => {},
        }
        let ghost v0 = self.g@;
        let (st, n) = guided_playout(&mut self.g, PLAYOUT_DEPTH, PLAYOUT_CAP);
        let heads = coin(&mut self.rng);
        let r = appraise(st, n, PLAYOUT_CAP, heads);
        self.games.store(key, r.0 as i64, shure_code(r.1));
        proof {
            let path = choose|path: Seq<G::M>|
                ends::<G>(v0, path, PLAYOUT_CAP as nat, st) && guided::<G>(
                    v0,
                    path,
                    PLAYOUT_DEPTH as nat,
                ) && path.len() == n;
            assert(ends::<G>(v0, path, PLAYOUT_CAP as nat, st) && guided::<G>(
                v0,
                path,
                PLAYOUT_DEPTH as nat,
            ) && r == appraised(st, path.len(), PLAYOUT_CAP as nat, heads));
        }
        r
    }

    /// The half points that the simulations through a child brought the
    /// side to move at its parent.
    fn credit_of(c: &Tree<G>, first: bool) -> (r: u64)
        requires
            c.wins <= 2 * c.vis,
            c.vis <= u64::MAX / 2,
        ensures
            r == credit(*c, first),
    {
        if first {
            c.wins
        } else {
            2 * c.vis - c.wins
        }
    }

    /// The place of the child to try next.
    fn choose_child(&self, t: &Tree<G>, first: bool) -> (i: usize)
        requires
            t.children@.len() > 0,
            t.vis <= u64::MAX / 2,
            t.vis == 1 + visits(t.children@, t.children@.len()),
            forall|i: int|
                0 <= i < t.children@.len() ==> (#[trigger] t.children@[i]).wins <= 2
                    * t.children@[i].vis,
        ensures
            i < t.children@.len(),
            i == next_child(self.policy, *t, t.children@.len(), first),
    {
        let mut scores: Vec<i64> = Vec::new();
        let mut known: Vec<bool> = Vec::new();
        let mut i: usize = 0;
        while i < t.children.len()
            invariant
                i <= t.children@.len(),
                scores@.len() == i,
                known@.len() == i,
                t.vis <= u64::MAX / 2,
                t.vis == 1 + visits(t.children@, t.children@.len()),
                forall|j: int|
                    0 <= j < t.children@.len() ==> (#[trigger] t.children@[j]).wins <= 2
                        * t.children@[j].vis,
                forall|j: int|
                    0 <= j < i ==> scores@[j] == self.policy.rank(
                        credit(t.children@[j], first),
                        t.children@[j].vis,
                        t.vis,
                    ),
                forall|j: int| 0 <= j < i ==> known@[j] == (t.children@[j].shure != Shure::No),
            decreases t.children@.len() - i,
        {
            proof {
                lemma_visits_bound(t.children@, i as int, t.children@.len());
            }
            let c = &t.children[i];
            scores.push(self.policy.urgency(Self::credit_of(c, first), c.vis, t.vis));
            known.push(c.shure != Shure::No);
            i += 1;
        }
        proof {
            let n = t.children@.len();
            assert(scores@ =~= Seq::new(
                n,
                |j: int| self.policy.rank(credit(t.children@[j], first), t.children@[j].vis, t.vis),
            ));
            assert(known@ =~= Seq::new(n, |j: int| t.children@[j].shure != Shure::No));
        }
        pick_child(&scores, &known)
    }

    /// One simulation: goes down the tree by the urgency of the children,
    /// gives the first position that has a move without a child a new one,
    /// simulates the game from a position that was never tried or is
    /// decided, and adds what the simulation brought, in half points for the
    /// first player, to every position on the way. A position all of whose
    /// moves lead to positions known to be won, or all to positions known to
    /// be lost, is known so itself. The position of the game is as before.
    pub fn step(&mut self, t: &mut Tree<G>) -> (x: u64)
        requires
            old(self).g.inv(),
            fits(*old(t), old(self).g@),
            old(t).vis < u64::MAX / 2,
        ensures
            final(self).g.inv(),
            final(self).g@ == old(self).g@,
            final(self).tree == old(self).tree,
            fits(*final(t), old(self).g@),
            x <= 2,
            final(t).vis == old(t).vis + 1,
            final(t).wins == old(t).wins + x,
            G::status(old(self).g@) == State::Going && old(t).vis > 0 ==> final(t).shure
                == verdict(Tree { shure: old(t).shure, ..*final(t) }),
            G::status(old(self).g@) == State::Going && old(t).vis > 0 ==> final(t).movs@
                == G::moves(old(self).g@) && final(t).children@.len() == (if old(
                t,
            ).children@.len() < G::moves(old(self).g@).len() {
                old(t).children@.len() + 1
            } else {
                old(t).children@.len()
            }),
            G::status(old(self).g@) != State::Going || old(t).vis == 0 ==> final(t).movs == old(
                t,
            ).movs && final(t).children == old(t).children,
            final(self).policy == old(self).policy,
            G::status(old(self).g@) == State::Going && old(t).vis > 0 ==> ({
                let k = next_child(
                    old(self).policy,
                    *old(t),
                    G::moves(old(self).g@).len(),
                    G::to_move(old(self).g@),
                );
                let was = old(t).children@;
                let now = final(t).children@;
                &&& 0 <= k < now.len()
                &&& forall|j: int| 0 <= j < was.len() && j != k ==> now[j] == was[j]
                &&& k < was.len() ==> now[k].vis == was[k].vis + 1 && now[k].wins == was[k].wins
                    + x
                &&& k == was.len() ==> now[k].vis == 1 && now[k].wins == x
            }),
            G::status(old(self).g@) != State::Going || old(t).vis == 0 ==> (match old(
                self,
            ).games.entry(G::key(old(self).g@)) {
                Some((v, d)) => x == remembered(v) && final(t).shure == meant(d),
                None => exists|path: Seq<G::M>, st: State, heads: bool|
                    ends::<G>(old(self).g@, path, PLAYOUT_CAP as nat, st) && guided::<G>(
                        old(self).g@,
                        path,
                        PLAYOUT_DEPTH as nat,
                    ) && (x, final(t).shure) == appraised(
                        st,
                        path.len(),
                        PLAYOUT_CAP as nat,
                        heads,
                    ),
            }),
        decreases old(t).vis,
    {
        let first = self.g.turn();
        let ghost v0 = self.g@;
        if self.g.state() != State::Going || t.vis == 0 {
            proof {
                lemma_visits_positive(t.children@, t.children@.len());
            }
            let (mc, sh) = self.explore_branch();
            t.vis += 1;
            t.wins += mc;
            t.shure = sh;
            return mc;
        }
        proof {
            self.g.law_inv();
            G::law_going_has_moves(v0);
        }
        if t.movs.len() == 0 {
            t.movs = self.g.get_moves();
        }
        let ghost t1 = *t;
        let movi = if t.children.len() < t.movs.len() {
            t.children.push(Tree::new());
            proof {
                lemma_visits_push(t1.children@, t.children@[t1.children@.len() as int]);
                lemma_visits_positive(t1.children@, t1.children@.len());
            }
            t.children.len() - 1
        } else {
            proof {
                assert forall|j: int| 0 <= j < t.children@.len() implies (
                #[trigger] t.children@[j]).wins <= 2 * t.children@[j].vis by {
                    assert(fits(t.children@[j], G::next(v0, t.movs@[j])));
                }
            }
            self.choose_child(t, first)
        };
        let ghost kids = t.children@;
        let ghost m = t.movs@[movi as int];
        proof {
            assert(G::moves(v0).contains(m));
            G::law_undo(v0, m);
            if movi < t1.children@.len() {
                lemma_visits_bound(kids, movi as int, kids.len());
            }
            assert forall|j: int| 0 <= j < kids.len() && j != movi implies (#[trigger] kids[j]).vis
                >= 1 && fits(kids[j], G::next(v0, t.movs@[j])) by {
                assert(kids[j] == t1.children@[j]);
            }
        }
        let rb = self.g.mov_with_rollback(&t.movs[movi]);
        let x = self.step(&mut t.children[movi]);
        self.g.rollback(rb);
        proof {
            lemma_visits_update(kids, movi as int, t.children@[movi as int], kids.len());
            assert(t.children@ =~= kids.update(movi as int, t.children@[movi as int]));
        }
        t.wins += x;
        t.vis += 1;
        let all_win = t.children.len() == t.movs.len() && Self::all_are(&t.children, Shure::Win);
        let all_lose = t.children.len() == t.movs.len() && Self::all_are(&t.children, Shure::Loss);
        if all_win {
            t.shure = Shure::Win;
        }
        if all_lose {
            t.shure = Shure::Loss;
        }
        proof {
            assert forall|j: int| 0 <= j < t.children@.len() implies (#[trigger] t.children@[j]).vis
                >= 1 && fits(t.children@[j], G::next(v0, t.movs@[j])) by {
                if j != movi {
                    assert(t.children@[j] == kids[j]);
                }
            }
        }
        x
    }

    /// Whether all the children are known to end as `s`.
    fn all_are(cs: &Vec<Tree<G>>, s: Shure) -> (r: bool)
        ensures
            r == forall|i: int| 0 <= i < cs@.len() ==> (#[trigger] cs@[i]).shure == s,
    {
        let mut i: usize = 0;
        while i < cs.len()
            invariant
                i <= cs@.len(),
                forall|j: int| 0 <= j < i ==> (#[trigger] cs@[j]).shure == s,
            decreases cs@.len() - i,
        {
            if cs[i].shure != s {
                return false;
            }
            i += 1;
        }
        true
    }

    /// The move to play after the simulations: the one under the child of
    /// greatest weight, and the first legal move where no child has any.
    pub fn answer(&self) -> (m: G::M)
        requires
            self.g.inv(),
            G::status(self.g@) == State::Going,
            fits(self.tree, self.g@),
        ensures
            G::moves(self.g@).contains(m),
            answered(self.tree, self.g@, m),
    {
        proof {
            self.g.law_inv();
            G::law_going_has_moves(self.g@);
        }
        if self.tree.children.len() == 0 {
            let moves = self.g.get_moves();
            assert(moves@.contains(moves@[0]));
            return G::copy_move(&moves[0]);
        }
        let first = self.g.turn();
        let i = final_choice(&self.tree.children, first);
        assert(G::moves(self.g@).contains(self.tree.movs@[i as int]));
        G::copy_move(&self.tree.movs[i])
    }

    /// Runs `n` simulations from the position and answers the move to play.
    pub fn get_mov_with_steps(&mut self, n: u32) -> (m: G::M)
        requires
            old(self).g.inv(),
            G::status(old(self).g@) == State::Going,
            fits(old(self).tree, old(self).g@),
        ensures
            final(self).g.inv(),
            final(self).g@ == old(self).g@,
            fits(final(self).tree, final(self).g@),
            old(self).tree.vis <= final(self).tree.vis <= old(self).tree.vis + n,
            old(self).tree.vis + n < u64::MAX / 2 ==> final(self).tree.vis == old(self).tree.vis
                + n,
            G::moves(old(self).g@).contains(m),
            answered(final(self).tree, old(self).g@, m),
    {
        let mut t = Tree::new();
        std::mem::swap(&mut t, &mut self.tree);
        let mut i: u32 = 0;
        while i < n && t.vis < u64::MAX / 2
            invariant
                i <= n,
                self.g.inv(),
                self.g@ == old(self).g@,
                fits(t, self.g@),
                t.vis == old(self).tree.vis + i,
            decreases n - i,
        {
            self.step(&mut t);
            if self.tot < u32::MAX {
                self.tot += 1;
            }
            i += 1;
        }
        self.tree = t;
        self.answer()
    }
}

/// The weight of the bonus for what was tried little, in parts of a
/// thousand, that an engine takes unless it is given a policy.
pub const EXPLORATION: u64 = 1300;

impl<G: Game> Ai<G> for MonteCarloTreeSearch<G, Ucb> {
    open spec fn game(&self) -> G::V {
        self.g@
    }

    open spec fn ready(&self) -> bool {
        self.g.inv() && fits(self.tree, self.g@)
    }

    fn new(t: bool) -> (s: Self)
        ensures
            untried(s.tree),
            s.games.is_empty(),
            s.hits == 0,
            s.tot == 0,
    {
        let g = G::new(t);
        MonteCarloTreeSearch::new_with(g, fresh_rng(0), Ucb { c: EXPLORATION })
    }

    fn state(&self) -> (r: State) {
        self.g.state()
    }

    fn turn(&self) -> (r: bool) {
        self.g.turn()
    }

    /// Runs simulations, 128 between two looks at the clock, until the
    /// budget runs out, and answers the move to play by what the tree then
    /// holds.
    fn get_mov(&mut self, tl: Duration) -> (m: G::M)
        ensures
            answered(final(self).tree, old(self).g@, m),
            final(self).tree.vis >= old(self).tree.vis,
            old(self).tree.vis + 128 < u64::MAX / 2 ==> final(self).tree.vis >= old(self).tree.vis
                + 128,
    {
        let watch = Stopwatch::start(&tl);
        let mut m = self.get_mov_with_steps(128);
        let mut rounds: u32 = 0;
        while rounds < u32::MAX && !watch.expired()
            invariant
                self.tree.vis >= old(self).tree.vis,
                old(self).tree.vis + 128 < u64::MAX / 2 ==> self.tree.vis >= old(self).tree.vis
                    + 128,
                self.g.inv(),
                self.g@ == old(self).g@,
                G::status(self.g@) == State::Going,
                fits(self.tree, self.g@),
                G::moves(self.g@).contains(m),
                answered(self.tree, self.g@, m),
            decreases u32::MAX - rounds,
        {
            m = self.get_mov_with_steps(128);
            rounds += 1;
        }
        m
    }

    /// Goes on with the part of the tree that stands under the move, the
    /// rest given up: see [`MonteCarloTreeSearch::commit`].
    fn mov(&mut self, m: &G::M)
        ensures
            spot(old(self).tree.movs@, *m, 0) < old(self).tree.children@.len() ==> final(self).tree
                == old(self).tree.children@[spot(old(self).tree.movs@, *m, 0) as int],
            spot(old(self).tree.movs@, *m, 0) >= old(self).tree.children@.len() ==> untried(
                final(self).tree,
            ),
    {
        self.commit(m);
    }
}

impl<G: Game, P: Policy> MonteCarloTreeSearch<G, P> {
    /// Takes note of a move made by either side: the game goes on from
    /// there, and so does the search, with the part of the tree that stands
    /// under the move where there is one.
    pub fn commit(&mut self, m: &G::M)
        requires
            old(self).g.inv(),
            G::status(old(self).g@) == State::Going,
            G::moves(old(self).g@).contains(*m),
            fits(old(self).tree, old(self).g@),
        ensures
            final(self).g.inv(),
            final(self).g@ == G::next(old(self).g@, *m),
            fits(final(self).tree, final(self).g@),
            final(self).games == old(self).games,
            final(self).hits == old(self).hits,
            final(self).tot == old(self).tot,
            final(self).policy == old(self).policy,
            spot(old(self).tree.movs@, *m, 0) < old(self).tree.children@.len() ==> final(self).tree
                == old(self).tree.children@[spot(old(self).tree.movs@, *m, 0) as int],
            spot(old(self).tree.movs@, *m, 0) >= old(self).tree.children@.len() ==> untried(
                final(self).tree,
            ),
    {
        let mut t = Tree::new();
        std::mem::swap(&mut t, &mut self.tree);
        let ghost v0 = self.g@;
        let ghost kids = t.children@;
        let ghost movs = t.movs@;
        let mut i: usize = 0;
        let mut found = false;
        while i < t.movs.len() && !found
            invariant
                i <= t.movs@.len(),
                t.movs@ == movs,
                t.children@ == kids,
                untried(self.tree),
                found ==> i > 0 && movs[i - 1] == *m && spot(movs, *m, 0) == i - 1,
                !found ==> spot(movs, *m, 0) == spot(movs, *m, i as nat),
            decreases t.movs@.len() - i,
        {
            if G::same_move(&t.movs[i], m) {
                found = true;
            }
            i += 1;
        }
        let mut children = t.children;
        if found && i - 1 < children.len() {
            let c = children.swap_remove(i - 1);
            assert(c == kids[i - 1]);
            self.tree = c;
        }
        self.g.mov(m);
    }
}

} // verus!
