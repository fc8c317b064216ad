//! Monte Carlo tree search for the Tablut of the bitboards, on a tree that
//! can be kept between runs: each position of the tree holds its key and
//! the move that led to it, so that the tree can be thinned out, stored and
//! taken up again.

use crate::game::{Game, State};
use crate::monte_carlo_tree_search::{pick_child, urgent, Policy};
use crate::playout::{ends, random_playout};
use crate::random::{fresh_rng, rng_from_bytes, rng_next_u64, rng_shuffle};
use crate::tablut::{all_moves, well_placed, Tablut};
use rand_xoshiro::Xoroshiro128Plus;
use vstd::prelude::*;

verus! {

/// The moves after which a line of random play is given up.
pub const PLAYOUT_CAP: usize = 4096;

/// The seed of the generator that puts the moves of a position in the
/// order in which they get their children.
pub const ORDER_SEED: [u8; 16] = [0, 0, 0, 0, 0, 0, 0, 0, 0, 0, 0, 0, 0, 0, 0, 0];

/// The simulations that a position needs to outlast a thinning.
pub const KEEP_ABOVE: u64 = 3;

/// A position in the tree of the search.
pub struct Tree {
    /// The simulations through this position that the first player won.
    pub wins: u64,
    /// The simulations through this position.
    pub vis: u64,
    /// The number of moves from the root of the tree.
    pub depth: u64,
    /// The key of the position.
    pub state: Tablut,
    /// The move that led to the position.
    pub prev_move: (u8, u8),
    pub children: Vec<Tree>,
}

/// Whether the tree belongs to the position `v`: it holds the key of `v`
/// and no more wins than simulations, and each child stands under a legal
/// move of `v`, which is still going, and belongs to the position that the
/// move leads to.
pub open spec fn fits(t: Tree, v: Tablut) -> bool
    decreases t,
{
    &&& t.state == v
    &&& t.wins <= t.vis
    &&& forall|i: int|
        0 <= i < t.children@.len() ==> v.state == State::Going && all_moves(v).contains(
            (#[trigger] t.children@[i]).prev_move,
        ) && fits(t.children@[i], crate::tablut::after(v, t.children@[i].prev_move))
}

/// The height of the tree.
pub open spec fn tall(t: Tree) -> nat
    decreases t, 1nat,
{
    1 + tallest(t, t.children@.len())
}

/// The height of the highest of the first `n` children.
pub open spec fn tallest(t: Tree, n: nat) -> nat
    decreases t, 0nat, n,
{
    if n == 0 || n > t.children@.len() {
        0
    } else {
        let h = tall(t.children@[n - 1]);
        let r = tallest(t, (n - 1) as nat);
        if h > r {
            h
        } else {
            r
        }
    }
}

/// The positions in the tree.
pub open spec fn nodes(t: Tree) -> nat
    decreases t, 1nat,
{
    1 + nodes_below(t, t.children@.len())
}

/// The positions in the first `n` children.
pub open spec fn nodes_below(t: Tree, n: nat) -> nat
    decreases t, 0nat, n,
{
    if n == 0 || n > t.children@.len() {
        0
    } else {
        nodes(t.children@[n - 1]) + nodes_below(t, (n - 1) as nat)
    }
}

/// The greatest number of simulations above 0 among the first `n`
/// children, and the place of the first child that has it; 0 and the first
/// place where there is none.
pub open spec fn most_tried(cs: Seq<Tree>, n: nat) -> (u64, int)
    decreases n,
{
    if n == 0 || n > cs.len() {
        (0u64, 0int)
    } else {
        let r = most_tried(cs, (n - 1) as nat);
        if cs[n - 1].vis > r.0 {
            (cs[n - 1].vis, n - 1)
        } else {
            r
        }
    }
}

/// The half points that the simulations through the position `c` brought
/// the side to move at its parent, as far as the counter goes.
pub open spec fn credit(c: Tree, first: bool) -> u64 {
    let own = if first {
        c.wins
    } else if c.vis >= c.wins {
        (c.vis - c.wins) as u64
    } else {
        0
    };
    if own <= u64::MAX / 2 {
        (2 * own) as u64
    } else {
        u64::MAX
    }
}

/// The place of the child that a simulation through the position `t`, which
/// has `n` moves, goes on with: a new child while there is a move without
/// one, and then the first child that the policy `p` finds most urgent.
pub open spec fn next_child<P: Policy>(p: P, t: Tree, n: nat, first: bool) -> int {
    if t.children@.len() < n {
        t.children@.len() as int
    } else {
        urgent(
            Seq::new(
                t.children@.len(),
                |j: int| p.rank(credit(t.children@[j], first), t.children@[j].vis, t.vis),
            ),
            Seq::new(t.children@.len(), |j: int| false),
            t.children@.len(),
        ).1
    }
}

/// Whether every position below the root of the tree was simulated more
/// than three times.
pub open spec fn thinned(t: Tree) -> bool
    decreases t,
{
    forall|i: int|
        0 <= i < t.children@.len() ==> (#[trigger] t.children@[i]).vis > KEEP_ABOVE && thinned(
            t.children@[i],
        )
}

/// The places of those among the first `n` children that were simulated
/// more than three times, in their order.
pub open spec fn kept_places(cs: Seq<Tree>, n: nat) -> Seq<int>
    decreases n,
{
    if n == 0 || n > cs.len() {
        Seq::empty()
    } else if cs[n - 1].vis > KEEP_ABOVE {
        kept_places(cs, (n - 1) as nat).push(n - 1)
    } else {
        kept_places(cs, (n - 1) as nat)
    }
}

/// Whether `now` is the tree `was` thinned out: the root is as it was, and
/// its children are those of before that were simulated more than three
/// times, in their order, each thinned out in its turn.
pub open spec fn thins(was: Tree, now: Tree) -> bool
    decreases was,
{
    let p = kept_places(was.children@, was.children@.len());
    &&& now.wins == was.wins
    &&& now.vis == was.vis
    &&& now.depth == was.depth
    &&& now.state == was.state
    &&& now.prev_move == was.prev_move
    &&& now.children@.len() == p.len()
    &&& forall|j: int|
        0 <= j < p.len() && 0 <= #[trigger] p[j] < was.children@.len() ==> thins(
            was.children@[p[j]],
            now.children@[j],
        )
}

/// The places kept are places of children, in rising order.
pub proof fn lemma_kept_places(cs: Seq<Tree>, n: nat)
    requires
        n <= cs.len(),
    ensures
        kept_places(cs, n).len() <= n,
        forall|j: int|
            0 <= j < kept_places(cs, n).len() ==> 0 <= #[trigger] kept_places(cs, n)[j] < n
                && cs[kept_places(cs, n)[j]].vis > KEEP_ABOVE,
        forall|i: int, j: int|
            0 <= i < j < kept_places(cs, n).len() ==> kept_places(cs, n)[i] < kept_places(
                cs,
                n,
            )[j],
    decreases n,
{
    if n > 0 {
        lemma_kept_places(cs, (n - 1) as nat);
    }
}

proof fn lemma_tallest(t: Tree, i: int, n: nat)
    requires
        0 <= i < n <= t.children@.len(),
    ensures
        tall(t.children@[i]) <= tallest(t, n),
    decreases n,
{
    if i < n - 1 {
        lemma_tallest(t, i, (n - 1) as nat);
    }
}

impl Tree {
    /// A position that was never simulated.
    pub fn new(depth: u64, state: Tablut, mov: (u8, u8)) -> (t: Self)
        ensures
            t.wins == 0,
            t.vis == 0,
            t.depth == depth,
            t.state == state,
            t.prev_move == mov,
            t.children@.len() == 0,
    {
        Tree { wins: 0, vis: 0, depth, state, prev_move: mov, children: Vec::new() }
    }

    /// The positions in the tree, counted as far as the counter goes, and
    /// the children of its root.
    pub fn count_nodes(&self) -> (r: (u64, u64))
        ensures
            r.0 == (if nodes(*self) <= u64::MAX {
                nodes(*self) as int
            } else {
                u64::MAX as int
            }),
            r.1 == self.children@.len(),
        decreases self,
    {
        let mut n: u64 = 1;
        let mut i: usize = 0;
        while i < self.children.len()
            invariant
                i <= self.children@.len(),
                n == (if 1 + nodes_below(*self, i as nat) <= u64::MAX {
                    (1 + nodes_below(*self, i as nat)) as int
                } else {
                    u64::MAX as int
                }),
            decreases self.children@.len() - i,
        {
            let (c, _) = self.children[i].count_nodes();
            n = if c <= u64::MAX - n { n + c } else { u64::MAX };
            i += 1;
        }
        (n, self.children.len() as u64)
    }

    /// Whether the tree belongs to the position `g`: see [`fits`].
    pub fn fitting(&self, g: &Tablut) -> (r: bool)
        requires
            well_placed(*g),
        ensures
            r == fits(*self, *g),
        decreases self,
    {
        if !(self.state == *g) || self.wins > self.vis {
            return false;
        }
        if self.children.len() == 0 {
            return true;
        }
        if g.state() != State::Going {
            proof {
                let c0 = self.children@[0];
                assert(fits(*self, *g) ==> g.state == State::Going && all_moves(*g).contains(
                    c0.prev_move,
                ));
            }
            return false;
        }
        let moves = g.get_moves();
        let mut i: usize = 0;
        while i < self.children.len()
            invariant
                i <= self.children@.len(),
                well_placed(*g),
                g.state == State::Going,
                self.state == *g,
                self.wins <= self.vis,
                moves@ == all_moves(*g),
                forall|j: int|
                    0 <= j < i ==> all_moves(*g).contains(
                        (#[trigger] self.children@[j]).prev_move,
                    ) && fits(self.children@[j], crate::tablut::after(*g, self.children@[j].prev_move)),
            decreases self.children@.len() - i,
        {
            let c = &self.children[i];
            let mut k: usize = 0;
            let mut legal = false;
            while k < moves.len() && !legal
                invariant
                    k <= moves@.len(),
                    legal ==> moves@.contains(c.prev_move),
                    !legal ==> forall|l: int| 0 <= l < k ==> moves@[l] != c.prev_move,
                decreases moves@.len() - k,
            {
                if moves[k].0 == c.prev_move.0 && moves[k].1 == c.prev_move.1 {
                    legal = true;
                    assert(moves@[k as int] == c.prev_move);
                }
                k += 1;
            }
            if !legal {
                return false;
            }
            proof {
                crate::tablut::lemma_after_placed(*g, c.prev_move);
            }
            let mut next = *g;
            next.mov(&c.prev_move);
            if !c.fitting(&next) {
                return false;
            }
            i += 1;
        }
        true
    }

    /// The place of the child that was simulated most often: see
    /// [`most_tried`].
    pub fn most_visited(&self) -> (i: usize)
        ensures
            i == most_tried(self.children@, self.children@.len()).1,
            self.children@.len() > 0 ==> i < self.children@.len(),
    {
        let mut best: u64 = 0;
        let mut at: usize = 0;
        let mut i: usize = 0;
        while i < self.children.len()
            invariant
                i <= self.children@.len(),
                (best, at as int) == most_tried(self.children@, i as nat),
                i > 0 ==> at < i,
                i == 0 ==> at == 0,
            decreases self.children@.len() - i,
        {
            if self.children[i].vis > best {
                best = self.children[i].vis;
                at = i;
            }
            i += 1;
        }
        at
    }

    /// Thins the tree out: a position that was simulated three times or
    /// less goes, with all that stands under it. The root stays.
    pub fn prune(&mut self)
        ensures
            thinned(*final(self)),
            final(self).wins == old(self).wins,
            final(self).vis == old(self).vis,
            final(self).depth == old(self).depth,
            final(self).state == old(self).state,
            final(self).prev_move == old(self).prev_move,
            forall|v: Tablut| fits(*old(self), v) ==> fits(*final(self), v),
            final(self).children@.len() <= old(self).children@.len(),
            thins(*old(self), *final(self)),
        decreases *old(self),
    {
        let mut kept: Vec<Tree> = Vec::new();
        let mut rest: Vec<Tree> = Vec::new();
        std::mem::swap(&mut rest, &mut self.children);
        let ghost all = rest@;
        let ghost mut src: Seq<int> = Seq::empty();
        let mut n: usize = 0;
        while n < rest.len()
            invariant
                n <= rest@.len(),
                rest@.len() == all.len(),
                all == old(self).children@,
                src.len() == kept@.len(),
                kept@.len() <= n,
                src == kept_places(all, n as nat),
                forall|i: int| 0 <= i < kept@.len() ==> thins(all[src[i]], #[trigger] kept@[i]),
                self.wins == old(self).wins,
                self.vis == old(self).vis,
                self.depth == old(self).depth,
                self.state == old(self).state,
                self.prev_move == old(self).prev_move,
                forall|i: int| n <= i < rest@.len() ==> rest@[i] == all[i],
                forall|i: int|
                    0 <= i < kept@.len() ==> (#[trigger] kept@[i]).vis > KEEP_ABOVE && thinned(
                        kept@[i],
                    ),
                forall|i: int|
                    0 <= i < kept@.len() ==> 0 <= #[trigger] src[i] < n && kept@[i].prev_move
                        == all[src[i]].prev_move,
                forall|i: int, j: int| 0 <= i < j < kept@.len() ==> src[i] < src[j],
                forall|i: int, w: Tablut|
                    0 <= i < kept@.len() && #[trigger] fits(all[src[i]], w) ==> fits(kept@[i], w),
            decreases rest@.len() - n,
        {
            let ghost k = n as int;
            let mut c = Tree::new(0, self.state, (0, 0));
            std::mem::swap(&mut c, &mut rest[n]);
            assert(c == all[k]);
            if c.vis > KEEP_ABOVE {
                c.prune();
                let ghost before = kept@;
                let ghost old_src = src;
                kept.push(c);
                proof {
                    src = src.push(k);
                    assert forall|i: int| 0 <= i < kept@.len() implies 0 <= #[trigger] src[i] < n
                        + 1 && kept@[i].prev_move == all[src[i]].prev_move by {
                        if i < before.len() {
                            assert(kept@[i] == before[i]);
                            assert(src[i] == old_src[i]);
                        }
                    }
                    assert forall|i: int, j: int| 0 <= i < j < kept@.len() implies src[i]
                        < src[j] by {
                        assert(src[i] == old_src[i]);
                        if j < before.len() {
                            assert(src[j] == old_src[j]);
                        }
                    }
                    assert forall|i: int, w: Tablut|
                        0 <= i < kept@.len() && #[trigger] fits(all[src[i]], w) implies fits(
                        kept@[i],
                        w,
                    ) by {
                        if i < before.len() {
                            assert(kept@[i] == before[i]);
                            assert(src[i] == old_src[i]);
                        }
                    }
                    assert forall|i: int| 0 <= i < kept@.len() implies thins(
                        all[src[i]],
                        #[trigger] kept@[i],
                    ) by {
                        if i < before.len() {
                            assert(kept@[i] == before[i]);
                            assert(src[i] == old_src[i]);
                        }
                    }
                }
            }
            n += 1;
        }
        self.children = kept;
        assert forall|v: Tablut| fits(*old(self), v) implies fits(*self, v) by {
            assert forall|i: int| 0 <= i < self.children@.len() implies v.state == State::Going
                && all_moves(v).contains((#[trigger] self.children@[i]).prev_move) && fits(
                self.children@[i],
                crate::tablut::after(v, self.children@[i].prev_move),
            ) by {
                let j = src[i];
                assert(fits(all[j], crate::tablut::after(v, all[j].prev_move)));
            }
        }
    }
}

/// The search: the position of the game, the generator that the playouts
/// draw from, and the policy by which the lines of play are tried.
pub struct MonteCarloTreeSearch<P: Policy> {
    pub g: Tablut,
    pub rng: Xoroshiro128Plus,
    pub policy: P,
}

/// What a game that ended in `s` counts for the first player, given what
/// the coin showed: one for a win, nothing for a loss, and one or nothing
/// by the coin where it was not decided.
pub fn result_of(s: State, heads: bool) -> (r: u64)
    ensures
        r == (match s {
            State::Win => 1u64,
            State::Lose => 0u64,
            _ => if heads {
                1u64
            } else {
                0u64
            },
        }),
{
    match s {
        State::Win => 1,
        State::Lose => 0,
        _ => if heads {
            1
        } else {
            0
        },
    }
}

impl<P: Policy> MonteCarloTreeSearch<P> {
    /// An engine for a new game that draws from a generator seeded by the
    /// system.
    pub fn new(t: bool, policy: P) -> (s: Self)
        ensures
            s.g == crate::tablut::opening(t),
            well_placed(s.g),
    {
        MonteCarloTreeSearch { g: Tablut::new(t), rng: fresh_rng(0), policy }
    }

    /// An engine that takes up the game at `g` and draws from `rng`.
    pub fn new_with(g: Tablut, rng: Xoroshiro128Plus, policy: P) -> (s: Self)
        ensures
            s.g == g,
    {
        MonteCarloTreeSearch { g, rng, policy }
    }

    /// What a game that ended in `s` counts for the first player.
    pub fn result_u64(&mut self, s: State) -> (r: u64)
        ensures
            final(self).g == old(self).g,
            final(self).policy == old(self).policy,
            r <= 1,
            s == State::Win ==> r == 1,
            s == State::Lose ==> r == 0,
    {
        let heads = rng_next_u64(&mut self.rng) % 2 == 1;
        result_of(s, heads)
    }

    /// Plays the game out at random from the position and tells what it
    /// counts for the first player. The position is as before.
    pub fn explore_branch(&mut self) -> (r: u64)
        requires
            well_placed(old(self).g),
        ensures
            final(self).g == old(self).g,
            final(self).policy == old(self).policy,
            r <= 1,
            exists|path: Seq<(u8, u8)>, st: State|
                ends::<Tablut>(old(self).g, path, PLAYOUT_CAP as nat, st) && (st == State::Win
                    ==> r == 1) && (st == State::Lose ==> r == 0),
    {
        let ghost v0 = self.g;
        let st = random_playout(&mut self.g, &mut self.rng, PLAYOUT_CAP);
        let r = self.result_u64(st);
        proof {
            let path = choose|path: Seq<(u8, u8)>|
                ends::<Tablut>(v0, path, PLAYOUT_CAP as nat, st);
            assert(ends::<Tablut>(v0, path, PLAYOUT_CAP as nat, st) && (st == State::Win ==> r
                == 1) && (st == State::Lose ==> r == 0));
        }
        r
    }

    /// The place of the child to try next, by the urgency that the policy
    /// gives to each.
    fn choose_child(&self, t: &Tree, first: bool) -> (i: usize)
        requires
            t.children@.len() > 0,
        ensures
            i < t.children@.len(),
            i == next_child(self.policy, *t, t.children@.len(), first),
    {
        let mut scores: Vec<i64> = Vec::new();
        let mut known: Vec<bool> = Vec::new();
        let mut i: usize = 0;
        while i < t.children.len()
            invariant
                i <= t.children@.len(),
                scores@.len() == i,
                known@.len() == i,
                forall|j: int|
                    0 <= j < i ==> scores@[j] == self.policy.rank(
                        credit(t.children@[j], first),
                        t.children@[j].vis,
                        t.vis,
                    ),
                forall|j: int| 0 <= j < i ==> !known@[j],
            decreases t.children@.len() - i,
        {
            let c = &t.children[i];
            let credit: u64 = if first {
                c.wins
            } else if c.vis >= c.wins {
                c.vis - c.wins
            } else {
                0
            };
            let double = if credit <= u64::MAX / 2 { 2 * credit } else { u64::MAX };
            scores.push(self.policy.urgency(double, c.vis, t.vis));
            known.push(false);
            i += 1;
        }
        proof {
            let n = t.children@.len();
            assert(scores@ =~= Seq::new(
                n,
                |j: int| self.policy.rank(credit(t.children@[j], first), t.children@[j].vis, t.vis),
            ));
            assert(known@ =~= Seq::new(n, |j: int| false));
        }
        pick_child(&scores, &known)
    }

    /// One simulation through the position of the tree, whose legal moves
    /// are given in the order in which they get their children. A position
    /// that was never simulated, or that is decided, is played out at
    /// random. Else the first move without a child gets one, or, where all
    /// have one, the child of greatest urgency is taken; the simulation goes
    /// on through that child, unless its count of simulations is at its end,
    /// in which case the simulation counts as lost. What it counts for the
    /// first player is added to the position. The position of the game is
    /// as before.
    pub fn step_on(&mut self, t: &mut Tree, movs: Vec<(u8, u8)>) -> (x: u64)
        requires
            well_placed(old(self).g),
            fits(*old(t), old(self).g),
            old(t).vis < u64::MAX,
            old(self).g.state == State::Going ==> movs@.to_multiset() == all_moves(
                old(self).g,
            ).to_multiset(),
        ensures
            final(self).g == old(self).g,
            fits(*final(t), old(self).g),
            x <= 1,
            final(t).vis == old(t).vis + 1,
            final(t).wins == old(t).wins + x,
            final(t).depth == old(t).depth,
            final(t).prev_move == old(t).prev_move,
            old(self).g.state != State::Going || old(t).vis == 0 ==> final(t).children == old(
                t,
            ).children,
            old(self).g.state == State::Going && old(t).vis > 0 ==> final(t).children@.len() == (
            if old(t).children@.len() < movs@.len() {
                old(t).children@.len() + 1
            } else {
                old(t).children@.len()
            }),
            old(self).g.state == State::Going && old(t).vis > 0 && old(t).children@.len()
                < movs@.len() ==> final(t).children@[old(t).children@.len() as int].prev_move
                == movs@[old(t).children@.len() as int],
            final(self).policy == old(self).policy,
            old(self).g.state == State::Going && old(t).vis > 0 ==> ({
                let k = next_child(
                    old(self).policy,
                    *old(t),
                    movs@.len(),
                    Tablut::to_move(old(self).g),
                );
                let was = old(t).children@;
                let now = final(t).children@;
                &&& 0 <= k < now.len()
                &&& forall|j: int| 0 <= j < was.len() && j != k ==> now[j] == was[j]
                &&& k < was.len() && was[k].vis < u64::MAX ==> now[k].vis == was[k].vis + 1
                    && now[k].wins == was[k].wins + x
                &&& k < was.len() && was[k].vis == u64::MAX ==> now[k] == was[k] && x == 0
                &&& k == was.len() ==> now[k].vis == 1 && now[k].wins == x && now[k].state
                    == crate::tablut::after(old(self).g, movs@[k])
            }),
        decreases tall(*old(t)), (if old(t).vis == 0 {
            0nat
        } else {
            1nat
        }), 0nat,
    {
        let ghost v0 = self.g;
        if self.g.state() != State::Going || t.vis == 0 {
            t.vis += 1;
            let mc = self.explore_branch();
            t.wins += mc;
            return mc;
        }
        let first = self.g.turn();
        proof {
            crate::minimax::lemma_same_moves(movs@, all_moves(v0));
        }
        let ghost t1 = *t;
        let i = if t.children.len() < movs.len() {
            let m = movs[t.children.len()];
            proof {
                assert(movs@.contains(m));
                crate::tablut::lemma_after_placed(v0, m);
            }
            let mut next = self.g;
            next.mov(&m);
            let depth = if t.depth < u64::MAX { t.depth + 1 } else { t.depth };
            t.children.push(Tree::new(depth, next, m));
            t.children.len() - 1
        } else {
            proof {
                assert(all_moves(v0).len() > 0);
            }
            self.choose_child(t, first)
        };
        let ghost kids = t.children@;
        let mov = t.children[i].prev_move;
        proof {
            assert forall|j: int| 0 <= j < kids.len() implies all_moves(v0).contains(
                (#[trigger] kids[j]).prev_move,
            ) && fits(kids[j], crate::tablut::after(v0, kids[j].prev_move)) by {
                if j < t1.children@.len() {
                    assert(kids[j] == t1.children@[j]);
                }
            }
            crate::tablut::lemma_after_placed(v0, mov);
            if i < t1.children@.len() {
                lemma_tallest(t1, i as int, t1.children@.len());
            } else {
                assert(tall(kids[i as int]) == 1);
            }
        }
        if t.children[i].vis == u64::MAX {
            t.vis += 1;
            return 0;
        }
        let rb = self.g.mov_with_rollback(&mov);
        let x = self.step(&mut t.children[i]);
        self.g.rollback(rb);
        t.wins += x;
        t.vis += 1;
        proof {
            assert forall|j: int| 0 <= j < t.children@.len() implies v0.state == State::Going
                && all_moves(v0).contains((#[trigger] t.children@[j]).prev_move) && fits(
                t.children@[j],
                crate::tablut::after(v0, t.children@[j].prev_move),
            ) by {
                if j != i {
                    assert(t.children@[j] == kids[j]);
                }
            }
        }
        x
    }

    /// One simulation through the position of the tree, the moves taken in
    /// an order that is shuffled, but the same whenever the same position is
    /// met: the generator that shuffles them is made anew from the same seed
    /// each time.
    pub fn step(&mut self, t: &mut Tree) -> (x: u64)
        requires
            well_placed(old(self).g),
            fits(*old(t), old(self).g),
            old(t).vis < u64::MAX,
        ensures
            final(self).g == old(self).g,
            fits(*final(t), old(self).g),
            x <= 1,
            final(t).vis == old(t).vis + 1,
            final(t).wins == old(t).wins + x,
            final(t).depth == old(t).depth,
            final(t).prev_move == old(t).prev_move,
            final(self).policy == old(self).policy,
            old(self).g.state != State::Going || old(t).vis == 0 ==> final(t).children == old(
                t,
            ).children,
            old(self).g.state == State::Going && old(t).vis > 0 ==> ({
                let k = next_child(
                    old(self).policy,
                    *old(t),
                    all_moves(old(self).g).len(),
                    Tablut::to_move(old(self).g),
                );
                let was = old(t).children@;
                let now = final(t).children@;
                &&& 0 <= k < now.len()
                &&& now.len() == (if k < was.len() {
                    was.len()
                } else {
                    was.len() + 1
                })
                &&& forall|j: int| 0 <= j < was.len() && j != k ==> now[j] == was[j]
                &&& k < was.len() && was[k].vis < u64::MAX ==> now[k].vis == was[k].vis + 1
                    && now[k].wins == was[k].wins + x
                &&& k < was.len() && was[k].vis == u64::MAX ==> now[k] == was[k] && x == 0
                &&& k == was.len() ==> now[k].vis == 1 && now[k].wins == x
            }),
        decreases tall(*old(t)), (if old(t).vis == 0 {
            0nat
        } else {
            1nat
        }), 1nat,
    {
        let mut movs = self.g.get_moves();
        let mut order = rng_from_bytes(ORDER_SEED);
        rng_shuffle(&mut order, &mut movs);
        proof {
            crate::minimax::lemma_same_moves(movs@, all_moves(self.g));
        }
        self.step_on(t, movs)
    }

    /// Runs `steps` simulations through the position that lies `depth`
    /// moves down the tree along the children that were simulated most, as
    /// far as the tree goes. The position of the game is as before.
    pub fn run_at(&mut self, t: &mut Tree, depth: u64, steps: u32)
        requires
            well_placed(old(self).g),
            fits(*old(t), old(self).g),
        ensures
            final(self).g == old(self).g,
            final(self).policy == old(self).policy,
            fits(*final(t), old(self).g),
            final(t).depth == old(t).depth,
            final(t).prev_move == old(t).prev_move,
            depth == 0 || old(t).children@.len() == 0 ==> final(t).vis == (if old(t).vis + steps
                <= u64::MAX {
                (old(t).vis + steps) as u64
            } else {
                u64::MAX
            }) && old(t).wins <= final(t).wins <= old(t).wins + steps,
            depth > 0 && old(t).children@.len() > 0 ==> ({
                let k = most_tried(old(t).children@, old(t).children@.len()).1;
                let was = old(t).children@;
                let now = final(t).children@;
                &&& final(t).vis == old(t).vis
                &&& final(t).wins == old(t).wins
                &&& now.len() == was.len()
                &&& forall|j: int| 0 <= j < was.len() && j != k ==> now[j] == was[j]
            }),
        decreases depth,
    {
        let ghost v0 = self.g;
        if depth == 0 || t.children.len() == 0 {
            let mut i: u32 = 0;
            while i < steps && t.vis < u64::MAX
                invariant
                    self.g == v0,
                    self.policy == old(self).policy,
                    well_placed(v0),
                    fits(*t, v0),
                    t.depth == old(t).depth,
                    t.prev_move == old(t).prev_move,
                    i <= steps,
                    t.vis == old(t).vis + i,
                    old(t).wins <= t.wins <= old(t).wins + i,
                decreases steps - i,
            {
                self.step(t);
                i += 1;
            }
        } else {
            let i = t.most_visited();
            let ghost kids = t.children@;
            let mov = t.children[i].prev_move;
            proof {
                assert(all_moves(v0).contains(kids[i as int].prev_move));
                crate::tablut::lemma_after_placed(v0, mov);
            }
            let rb = self.g.mov_with_rollback(&mov);
            self.run_at(&mut t.children[i], depth - 1, steps);
            self.g.rollback(rb);
            proof {
                assert forall|j: int| 0 <= j < t.children@.len() implies v0.state == State::Going
                    && all_moves(v0).contains((#[trigger] t.children@[j]).prev_move) && fits(
                    t.children@[j],
                    crate::tablut::after(v0, t.children@[j].prev_move),
                ) by {
                    if j != i {
                        assert(t.children@[j] == kids[j]);
                    }
                }
            }
        }
    }
}

} // verus!
