//! Alpha-beta search with iterative deepening on a tree of results that is
//! kept from pass to pass and from turn to turn.

use crate::ai::Ai;
use crate::clock::Stopwatch;
use crate::game::{Game, State};
use crate::heuristic::Native;
use crate::minimax::{best, better, lemma_best_monotone, value, within};
use crate::sorting::{items, keyed, lemma_sorted_by, sort_by_key, sorted_by};
use std::time::Duration;
use vstd::prelude::*;

verus! {

/// What a search has found for a position: its value, the depth to which it
/// was searched, and the same for the positions one move away, as far as
/// they have been looked at.
pub struct Tree<G: Game> {
    pub val: i64,
    pub depth: u32,
    pub children: Vec<(G::M, Tree<G>)>,
}

/// Whether a value says that the game is won or lost for certain.
pub open spec fn proven(val: i64) -> bool {
    val > 30000 || val < -30000
}

/// Whether nothing has been found yet.
pub open spec fn fresh<G: Game>(t: Tree<G>) -> bool {
    t.val == 0 && t.depth == 0 && t.children@.len() == 0
}

/// Whether the tree belongs to the position `v`: the moves under which its
/// children stand are legal in `v`, and each child belongs to the position
/// that its move leads to.
pub open spec fn suits<G: Game>(t: Tree<G>, v: G::V) -> bool
    decreases t,
{
    t.children@.len() > 0 ==> {
        &&& G::status(v) == State::Going
        &&& forall|i: int|
            0 <= i < t.children@.len() ==> G::moves(v).contains((#[trigger] t.children@[i]).0)
                && suits(t.children@[i].1, G::next(v, t.children@[i].0))
    }
}

impl<G: Game> Tree<G> {
    /// A tree in which nothing has been found yet.
    pub fn new() -> (t: Self)
        ensures
            fresh(t),
    {
        Tree { val: 0, depth: 0, children: Vec::new() }
    }
}

impl<G: Game> Default for Tree<G> {
    fn default() -> (t: Self)
        ensures
            fresh(t),
    {
        Tree::new()
    }
}

/// The key that puts the higher value first.
fn flip(x: i64) -> (r: i64)
    ensures
        r == (if x == i64::MIN {
            i64::MAX as int
        } else {
            -x
        }),
{
    if x == i64::MIN {
        i64::MAX
    } else {
        -x
    }
}

/// The key by which the children are put in order: the value, turned
/// round for the first player, so that the best for the side to move comes
/// first.
pub open spec fn child_key<G: Game>(c: (G::M, Tree<G>), first: bool) -> int {
    if !first {
        c.1.val as int
    } else if c.1.val == i64::MIN {
        i64::MAX as int
    } else {
        -c.1.val
    }
}

/// The children in the order of their values, the best for the side to
/// move first, children of the same value in the order in which they stand.
pub open spec fn resorted<G: Game>(kids: Seq<(G::M, Tree<G>)>, first: bool) -> Seq<
    (G::M, Tree<G>),
> {
    sorted_by(kids, |c: (G::M, Tree<G>)| child_key(c, first))
}

/// The window of a search that began with `(a, b)`, after the first `i` of
/// the children `kids` were searched: the first player raises the lower
/// bound to each value found, the second lowers the upper bound.
pub open spec fn window<G: Game>(
    kids: Seq<(G::M, Tree<G>)>,
    a: i64,
    b: i64,
    first: bool,
    i: nat,
) -> (i64, i64)
    decreases i,
{
    if i == 0 || i > kids.len() {
        (a, b)
    } else {
        let w = window(kids, a, b, first, (i - 1) as nat);
        let h = kids[i - 1].1.val;
        if first {
            (
                if h > w.0 {
                    h
                } else {
                    w.0
                },
                w.1,
            )
        } else {
            (
                w.0,
                if h < w.1 {
                    h
                } else {
                    w.1
                },
            )
        }
    }
}

/// How many of the first `n` children are searched: each in its turn while
/// the window is not empty.
pub open spec fn stop<G: Game>(kids: Seq<(G::M, Tree<G>)>, a: i64, b: i64, first: bool, n: nat)
    -> nat
    decreases n,
{
    if n == 0 {
        0
    } else {
        let s = stop(kids, a, b, first, (n - 1) as nat);
        let w = window(kids, a, b, first, (n - 1) as nat);
        if s == n - 1 && w.0 < w.1 {
            n
        } else {
            s
        }
    }
}

/// Whether `now` is what a search of the position `v`, `depth` plies deep
/// inside the window `(a, b)`, makes of a tree with the value `val0`, the
/// depth `depth0` and the children `kids0`, when no budget runs out.
///
/// At a finished position and at depth 0 the tree takes the static
/// evaluation. A tree whose value says that the game is decided, or that
/// was searched as deep before, stays as it is. Else it takes the depth
/// and the bound of the side to move in the window as it is when the
/// search of the children stops, see [`stop`] and [`window`]. The children
/// are those of before in the order of their values, see [`resorted`], and
/// one for each legal move where there were none; those that are searched
/// are what a search one ply less deep, inside the window as it is by
/// then, makes of them, and the others stay as they are.
pub open spec fn grows<G: Game>(
    val0: i64,
    depth0: u32,
    kids0: Seq<(G::M, Tree<G>)>,
    now: Tree<G>,
    v: G::V,
    a: i64,
    b: i64,
    depth: u32,
) -> bool
    decreases depth,
{
    if G::status(v) != State::Going || depth == 0 {
        now.val == G::score(v) && now.depth == depth && now.children@ == kids0
    } else if proven(val0) || depth0 >= depth {
        now.val == val0 && now.depth == depth0 && now.children@ == kids0
    } else {
        let first = G::to_move(v);
        let kids = now.children@;
        let s = stop(kids, a, b, first, kids.len());
        let base = resorted::<G>(kids0, first);
        &&& now.depth == depth
        &&& now.val == (if first {
            window(kids, a, b, first, s).0
        } else {
            window(kids, a, b, first, s).1
        })
        &&& kids0.len() == 0 ==> kids.len() == G::moves(v).len()
        &&& kids0.len() > 0 ==> kids.len() == base.len()
        &&& forall|j: int|
            0 <= j < kids.len() ==> (#[trigger] kids[j]).0 == (if kids0.len() == 0 {
                G::moves(v)[j]
            } else {
                base[j].0
            })
        &&& forall|j: int|
            s <= j < kids.len() ==> (if kids0.len() == 0 {
                fresh((#[trigger] kids[j]).1)
            } else {
                kids[j].1 == base[j].1
            })
        &&& forall|j: int|
            0 <= j < s && j < kids.len() ==> (if kids0.len() == 0 {
                grows::<G>(
                    0,
                    0,
                    Seq::empty(),
                    (#[trigger] kids[j]).1,
                    G::next(v, kids[j].0),
                    window(kids, a, b, first, j as nat).0,
                    window(kids, a, b, first, j as nat).1,
                    (depth - 1) as u32,
                )
            } else {
                grows::<G>(
                    base[j].1.val,
                    base[j].1.depth,
                    base[j].1.children@,
                    kids[j].1,
                    G::next(v, kids[j].0),
                    window(kids, a, b, first, j as nat).0,
                    window(kids, a, b, first, j as nat).1,
                    (depth - 1) as u32,
                )
            })
    }
}

/// The first place from `from` on at which a child stands under the move
/// `m`, and the number of the children where none does.
pub open spec fn place<G: Game>(kids: Seq<(G::M, Tree<G>)>, m: G::M, from: nat) -> nat
    decreases kids.len() - from,
{
    if from >= kids.len() {
        kids.len()
    } else if kids[from as int].0 == m {
        from
    } else {
        place::<G>(kids, m, from + 1)
    }
}

/// Whether `t1` is what the pass number `n` makes of the tree `t0` of the
/// position `v`, which was searched `d0` plies deep before the first pass:
/// a search of the whole window `d0 + n` plies deep, and nothing where the
/// value of the tree says that the game is decided or the depth can go no
/// further.
pub open spec fn pass<G: Game>(t0: Tree<G>, t1: Tree<G>, v: G::V, d0: u32, n: nat) -> bool {
    if proven(t0.val) || d0 + n > u32::MAX {
        t1 == t0
    } else {
        grows::<G>(t0.val, t0.depth, t0.children@, t1, v, i64::MIN, i64::MAX, (d0 + n) as u32)
    }
}

/// Whether `t1` is what `n` passes, one after the other, make of the tree
/// `t0` of the position `v`, which was searched `d0` plies deep.
pub open spec fn passed<G: Game>(t0: Tree<G>, t1: Tree<G>, v: G::V, d0: u32, n: nat) -> bool
    decreases n,
{
    if n == 0 {
        t1 == t0
    } else {
        exists|tm: Tree<G>|
            passed(t0, tm, v, d0, (n - 1) as nat) && #[trigger] pass(tm, t1, v, d0, n)
    }
}

/// What is proven stays proven: however many passes, each a ply deeper
/// than the one before, go over a tree whose value says that the game is
/// decided, the tree stays as it is, and its value with it.
pub proof fn lemma_proven_stays<G: Game>(t0: Tree<G>, t1: Tree<G>, v: G::V, d0: u32, n: nat)
    requires
        proven(t0.val),
        passed(t0, t1, v, d0, n),
    ensures
        t1 == t0,
    decreases n,
{
    if n > 0 {
        let tm = choose|tm: Tree<G>|
            passed(t0, tm, v, d0, (n - 1) as nat) && #[trigger] pass(tm, t1, v, d0, n);
        lemma_proven_stays(t0, tm, v, d0, (n - 1) as nat);
    }
}

/// Passes over a tree that is decided, or that can be searched no deeper,
/// leave it as it is.
pub proof fn lemma_idle<G: Game>(t0: Tree<G>, t: Tree<G>, v: G::V, d0: u32, k: nat, n: nat)
    requires
        k <= n,
        passed(t0, t, v, d0, k),
        proven(t.val) || d0 + k >= u32::MAX,
    ensures
        passed(t0, t, v, d0, n),
    decreases n,
{
    if n > k {
        lemma_idle(t0, t, v, d0, k, (n - 1) as nat);
        assert(passed(t0, t, v, d0, (n - 1) as nat) && pass(t, t, v, d0, n));
    }
}

/// The window after the first `i` children depends on their values alone.
pub proof fn lemma_window_frame<G: Game>(
    k1: Seq<(G::M, Tree<G>)>,
    k2: Seq<(G::M, Tree<G>)>,
    a: i64,
    b: i64,
    first: bool,
    i: nat,
)
    requires
        k1.len() == k2.len(),
        forall|j: int| 0 <= j < i && j < k1.len() ==> k1[j].1.val == k2[j].1.val,
    ensures
        window(k1, a, b, first, i) == window(k2, a, b, first, i),
        stop(k1, a, b, first, i) == stop(k2, a, b, first, i),
    decreases i,
{
    if i > 0 {
        lemma_window_frame(k1, k2, a, b, first, (i - 1) as nat);
    }
}

/// Once the window is empty no more children are searched.
pub proof fn lemma_stop_stays<G: Game>(
    kids: Seq<(G::M, Tree<G>)>,
    a: i64,
    b: i64,
    first: bool,
    i: nat,
    n: nat,
)
    requires
        i <= n,
        stop(kids, a, b, first, i) == i,
        window(kids, a, b, first, i).0 >= window(kids, a, b, first, i).1 || i == n,
    ensures
        stop(kids, a, b, first, n) == i,
    decreases n,
{
    if n > i {
        if n - 1 > i {
            lemma_stop_stays(kids, a, b, first, i, (n - 1) as nat);
        }
    }
}

/// Puts the children in the order of their values, the best for the side
/// to move first, children of the same value in the order in which they
/// stand.
pub fn resort<G: Game>(children: Vec<(G::M, Tree<G>)>, first: bool) -> (r: Vec<(G::M, Tree<G>)>)
    ensures
        r@ == resorted::<G>(children@, first),
        r@.to_multiset() == children@.to_multiset(),
        r@.len() == children@.len(),
{
    let mut src = children;
    let mut pairs: Vec<(i64, (G::M, Tree<G>))> = Vec::new();
    let ghost all = src@;
    let ghost key = |c: (G::M, Tree<G>)| child_key(c, first);
    let ghost goal = keyed(all, key);
    let ghost mut k: nat = 0;
    assert(src@ =~= all.subrange(0, all.len() as int));
    assert(pairs@ =~= goal.subrange(0, 0));
    while src.len() > 0
        invariant
            k <= all.len(),
            goal == keyed(all, key),
            key == (|c: (G::M, Tree<G>)| child_key(c, first)),
            src@ == all.subrange(k as int, all.len() as int),
            pairs@ == goal.subrange(0, k as int),
        decreases src.len(),
    {
        let c = src.remove(0);
        assert(c == all[k as int]);
        let x = if first { flip(c.1.val) } else { c.1.val };
        pairs.push((x, c));
        proof {
            assert(src@ =~= all.subrange(k as int + 1, all.len() as int));
            assert(pairs@ =~= goal.subrange(0, k as int + 1));
            k = k + 1;
        }
    }
    assert(pairs@ =~= goal);
    let mut sorted = sort_by_key(pairs);
    let ghost done = items(sorted@);
    let mut ans: Vec<(G::M, Tree<G>)> = Vec::new();
    while sorted.len() > 0
        invariant
            ans@ + items(sorted@) == done,
        decreases sorted.len(),
    {
        let ghost s0 = sorted@;
        let ghost a0 = ans@;
        let kc = sorted.remove(0);
        ans.push(kc.1);
        assert(items(sorted@) =~= items(s0).remove(0));
        assert(a0.push(kc.1) + items(s0).remove(0) =~= a0 + items(s0));
    }
    assert(ans@ + Seq::<(G::M, Tree<G>)>::empty() =~= ans@);
    assert(items(sorted@) =~= Seq::empty());
    proof {
        lemma_sorted_by(all, key);
    }
    ans
}

/// The engine: the position of the game and the tree of what was found for
/// it.
pub struct MinimaxFinal<G: Game> {
    pub g: G,
    /// The depth of the last pass that ran to its end.
    pub cur_depth: u32,
    /// What has been found for the position of `g`.
    pub tree: Tree<G>,
    /// Counts the calls of the search, so that the clock is read once in 256.
    pub nnw: u8,
    /// The running budget; `None` while a search runs to a fixed depth.
    pub watch: Option<Stopwatch>,
    /// Whether the budget ran out during the current search.
    pub ended_early: bool,
}

/// By what a child is chosen: the depth to which it was searched, and then
/// its value for the side to move.
pub open spec fn merit<G: Game>(c: (G::M, Tree<G>), first: bool) -> (int, int) {
    (
        c.1.depth as int,
        if first {
            c.1.val as int
        } else if c.1.val == i64::MIN {
            i64::MAX as int
        } else {
            -c.1.val
        },
    )
}

/// Whether the merit `x` is no greater than the merit `y`.
pub open spec fn no_better(x: (int, int), y: (int, int)) -> bool {
    x.0 < y.0 || (x.0 == y.0 && x.1 <= y.1)
}

/// Whether `m` is the move that the tree `t` answers in the position `v`:
/// the move under a child of greatest merit, and the first legal move where
/// the tree has no child.
pub open spec fn selected<G: Game>(t: Tree<G>, v: G::V, m: G::M) -> bool {
    &&& t.children@.len() == 0 ==> m == G::moves(v)[0]
    &&& t.children@.len() > 0 ==> exists|i: int|
        0 <= i < t.children@.len() && m == (#[trigger] t.children@[i]).0 && forall|j: int|
            0 <= j < t.children@.len() ==> no_better(
                merit(#[trigger] t.children@[j], G::to_move(v)),
                merit(t.children@[i], G::to_move(v)),
            )
}

impl<G: Game> MinimaxFinal<G> {
    /// An engine that takes up the game at `g` with nothing found yet.
    pub fn new_with_game(g: G) -> (s: Self)
        requires
            g.inv(),
        ensures
            s.g == g,
            fresh(s.tree),
            s.cur_depth == 0,
            s.watch is None,
            !s.ended_early,
    {
        MinimaxFinal {
            g,
            cur_depth: 0,
            tree: Tree::new(),
            nnw: 0,
            watch: None,
            ended_early: false,
        }
    }

    /// Whether a budget runs and is used up.
    fn out_of_time(&self) -> (r: bool)
        ensures
            self.watch is None ==> !r,
    {
        match &self.watch {
            Some(w) => w.expired(),
            None => false,
        }
    }

    /// Gives the tree a fresh child for each legal move, in the order in
    /// which the game generates them.
    fn expand(&self, t: &mut Tree<G>)
        requires
            self.g.inv(),
            G::status(self.g@) == State::Going,
            old(t).children@.len() == 0,
        ensures
            final(t).val == old(t).val,
            final(t).depth == old(t).depth,
            final(t).children@.len() == G::moves(self.g@).len(),
            forall|i: int|
                0 <= i < final(t).children@.len() ==> (#[trigger] final(t).children@[i]).0
                    == G::moves(self.g@)[i] && fresh(final(t).children@[i].1),
            suits(*final(t), self.g@),
    {
        let moves = self.g.get_moves();
        let mut i: usize = 0;
        while i < moves.len()
            invariant
                i <= moves.len(),
                moves@ == G::moves(self.g@),
                t.val == old(t).val,
                t.depth == old(t).depth,
                t.children@.len() == i,
                forall|j: int|
                    0 <= j < i ==> (#[trigger] t.children@[j]).0 == moves@[j] && fresh(
                        t.children@[j].1,
                    ),
            decreases moves.len() - i,
        {
            t.children.push((G::copy_move(&moves[i]), Tree::new()));
            i += 1;
        }
        assert forall|j: int| 0 <= j < t.children@.len() implies G::moves(self.g@).contains(
            (#[trigger] t.children@[j]).0,
        ) && suits(t.children@[j].1, G::next(self.g@, t.children@[j].0)) by {
            assert(moves@[j] == t.children@[j].0);
        }
    }

    /// Puts the children of the tree in the order of their values, the best
    /// for the side to move first.
    fn reorder(&self, t: &mut Tree<G>, first: bool)
        requires
            suits(*old(t), self.g@),
            old(t).children@.len() > 0,
        ensures
            final(t).val == old(t).val,
            final(t).depth == old(t).depth,
            final(t).children@ == resorted::<G>(old(t).children@, first),
            final(t).children@.len() > 0,
            suits(*final(t), self.g@),
    {
        let mut tmp: Vec<(G::M, Tree<G>)> = Vec::new();
        std::mem::swap(&mut tmp, &mut t.children);
        let ghost before = tmp@;
        let sorted = resort::<G>(tmp, first);
        proof {
            sorted@.to_multiset_ensures();
            before.to_multiset_ensures();
            assert forall|j: int| 0 <= j < sorted@.len() implies G::moves(self.g@).contains(
                (#[trigger] sorted@[j]).0,
            ) && suits(sorted@[j].1, G::next(self.g@, sorted@[j].0)) by {
                assert(sorted@.contains(sorted@[j]));
                assert(sorted@.to_multiset().count(sorted@[j]) > 0);
                assert(before.contains(sorted@[j]));
                let l = choose|l: int| 0 <= l < before.len() && before[l] == sorted@[j];
                assert(before[l] == old(t).children@[l]);
            }
        }
        t.children = sorted;
    }

    /// Searches the position `depth` plies deep inside the window `(a, b)`
    /// and writes what it finds into the tree.
    ///
    /// At a finished position and at depth 0 the tree takes the static
    /// evaluation. A tree whose value says that the game is decided, or that
    /// was searched as deep before, stays as it is. Else the children are
    /// searched one ply less deep, those with the best values first; unless
    /// the budget runs out, the tree takes the value found and the depth.
    /// On a tree in which nothing had been found, that value is what plain
    /// alpha-beta gives: the minimax value where that lies inside the window,
    /// and else a bound on its side. The position is as before in every case.
    pub fn minimax(&mut self, a: i64, b: i64, depth: u32, t: &mut Tree<G>)
        requires
            old(self).g.inv(),
            a < b,
            suits(*old(t), old(self).g@),
        ensures
            final(self).g.inv(),
            final(self).g@ == old(self).g@,
            final(self).watch == old(self).watch,
            final(self).cur_depth == old(self).cur_depth,
            final(self).tree == old(self).tree,
            suits(*final(t), old(self).g@),
            old(self).ended_early ==> final(self).ended_early,
            old(self).watch is None && !old(self).ended_early ==> !final(self).ended_early,
            G::status(old(self).g@) != State::Going || depth == 0 ==> final(t).val == G::score(
                old(self).g@,
            ) && final(t).depth == depth && final(t).children == old(t).children,
            G::status(old(self).g@) == State::Going && depth > 0 && (proven(old(t).val) || old(
                t,
            ).depth >= depth) ==> *final(t) == *old(t),
            final(self).ended_early && G::status(old(self).g@) == State::Going && depth > 0
                ==> final(t).val == old(t).val && final(t).depth == old(t).depth,
            !final(self).ended_early && fresh(*old(t)) ==> final(t).depth == depth && within(
                value::<G, Native>(old(self).g@, depth as nat),
                a as int,
                b as int,
                final(t).val as int,
            ),
            !final(self).ended_early ==> grows::<G>(
                old(t).val,
                old(t).depth,
                old(t).children@,
                *final(t),
                old(self).g@,
                a,
                b,
                depth,
            ),
        decreases depth,
    {
        if self.g.state() != State::Going || depth == 0 {
            t.val = self.g.heuristic();
            t.depth = depth;
            return ;
        }
        if t.val > 30000 || t.val < -30000 || t.depth >= depth {
            return ;
        }
        self.nnw = self.nnw.wrapping_add(1);
        if self.ended_early || (self.nnw == 0 && self.out_of_time()) {
            self.ended_early = true;
            return ;
        }
        let first = self.g.turn();
        let ghost v0 = self.g@;
        let ghost exact = fresh(*old(t));
        let ghost ms = G::moves(v0);
        proof {
            self.g.law_inv();
            G::law_going_has_moves(v0);
        }
        let ghost kids0 = t.children@;
        if t.children.len() == 0 {
            self.expand(t);
        } else {
            self.reorder(t, first);
            proof {
                lemma_sorted_by(kids0, |c: (G::M, Tree<G>)| child_key(c, first));
            }
        }
        let ghost base = t.children@;
        let a0 = a;
        let b0 = b;
        let mut a = a;
        let mut b = b;
        let mut i: usize = 0;
        let mut done = false;
        while i < t.children.len() && !done
            invariant
                i <= t.children@.len(),
                self.g.inv(),
                self.g@ == v0,
                kids0 == old(t).children@,
                kids0.len() == 0 ==> base.len() == ms.len() && forall|j: int|
                    0 <= j < base.len() ==> (#[trigger] base[j]).0 == ms[j] && fresh(base[j].1),
                kids0.len() > 0 ==> base == resorted::<G>(kids0, first),
                t.children@.len() == base.len(),
                forall|j: int| 0 <= j < base.len() ==> (#[trigger] t.children@[j]).0 == base[j].0,
                forall|j: int| i <= j < base.len() ==> (#[trigger] t.children@[j]) == base[j],
                (a, b) == window(t.children@, a0, b0, first, i as nat),
                stop(t.children@, a0, b0, first, i as nat) == i,
                done == (a >= b),
                !self.ended_early ==> forall|j: int|
                    0 <= j < i ==> grows::<G>(
                        base[j].1.val,
                        base[j].1.depth,
                        base[j].1.children@,
                        (#[trigger] t.children@[j]).1,
                        G::next(v0, t.children@[j].0),
                        window(t.children@, a0, b0, first, j as nat).0,
                        window(t.children@, a0, b0, first, j as nat).1,
                        (depth - 1) as u32,
                    ),
                self.watch == old(self).watch,
                self.cur_depth == old(self).cur_depth,
                self.tree == old(self).tree,
                self.watch is None ==> !self.ended_early,
                t.val == old(t).val,
                t.depth == old(t).depth,
                t.children@.len() > 0,
                suits(*t, v0),
                G::valid(v0),
                G::status(v0) == State::Going,
                first == G::to_move(v0),
                depth > 0,
                a0 < b0,
                ms == G::moves(v0),
                first ==> b == b0,
                !first ==> a == a0,
                !done ==> a < b,
                exact ==> t.children@.len() == ms.len(),
                exact ==> forall|j: int|
                    0 <= j < t.children@.len() ==> (#[trigger] t.children@[j]).0 == ms[j],
                exact ==> forall|j: int|
                    i <= j < t.children@.len() ==> fresh((#[trigger] t.children@[j]).1),
                exact && !self.ended_early && !done && first ==> a as int == better(
                    true,
                    a0 as int,
                    best::<G, Native>(v0, ms, depth as nat, i as nat),
                ),
                exact && !self.ended_early && !done && !first ==> b as int == better(
                    false,
                    b0 as int,
                    best::<G, Native>(v0, ms, depth as nat, i as nat),
                ),
                exact && !self.ended_early && done && first ==> a >= b0 && best::<G, Native>(
                    v0,
                    ms,
                    depth as nat,
                    i as nat,
                ) >= b0,
                exact && !self.ended_early && done && !first ==> b <= a0 && best::<G, Native>(
                    v0,
                    ms,
                    depth as nat,
                    i as nat,
                ) <= a0,
            decreases t.children@.len() - i,
        {
            let ghost kids = t.children@;
            let ghost m = kids[i as int].0;
            proof {
                assert(G::moves(v0).contains(kids[i as int].0));
                G::law_undo(v0, m);
            }
            let rb = self.g.mov_with_rollback(&t.children[i].0);
            self.minimax(a, b, depth - 1, &mut t.children[i].1);
            let h = t.children[i].1.val;
            self.g.rollback(rb);
            proof {
                assert forall|j: int| 0 <= j < t.children@.len() implies G::moves(v0).contains(
                    (#[trigger] t.children@[j]).0,
                ) && suits(t.children@[j].1, G::next(v0, t.children@[j].0)) by {
                    if j != i {
                        assert(t.children@[j] == kids[j]);
                    }
                }
                let now = t.children@;
                assert forall|j: int| 0 <= j < base.len() implies (#[trigger] now[j]).0
                    == base[j].0 by {
                    if j != i {
                        assert(now[j] == kids[j]);
                    }
                }
                assert forall|j: int| i < j < base.len() implies (#[trigger] now[j]) == base[j] by {
                    assert(now[j] == kids[j]);
                }
                assert forall|j: int| 0 <= j < i implies now[j] == kids[j] by {}
                lemma_window_frame(kids, now, a0, b0, first, i as nat);
                if !self.ended_early {
                    assert forall|j: int| 0 <= j <= i implies grows::<G>(
                        base[j].1.val,
                        base[j].1.depth,
                        base[j].1.children@,
                        (#[trigger] now[j]).1,
                        G::next(v0, now[j].0),
                        window(now, a0, b0, first, j as nat).0,
                        window(now, a0, b0, first, j as nat).1,
                        (depth - 1) as u32,
                    ) by {
                        lemma_window_frame(kids, now, a0, b0, first, j as nat);
                        if j < i {
                            assert(now[j] == kids[j]);
                        }
                    }
                }
            }
            if first {
                if h > a {
                    a = h;
                }
            } else {
                if h < b {
                    b = h;
                }
            }
            i += 1;
            if a >= b {
                done = true;
            }
        }
        if self.ended_early {
            return ;
        }
        proof {
            if exact {
                lemma_best_monotone::<G, Native>(v0, ms, depth as nat, i as nat, ms.len());
            }
            lemma_stop_stays(t.children@, a0, b0, first, i as nat, t.children@.len());
        }
        t.val = if first { a } else { b };
        t.depth = depth;
        proof {
            let kids = t.children@;
            assert forall|j: int| 0 <= j < i && j < kids.len() implies (if kids0.len() == 0 {
                grows::<G>(
                    0,
                    0,
                    Seq::empty(),
                    (#[trigger] kids[j]).1,
                    G::next(v0, kids[j].0),
                    window(kids, a0, b0, first, j as nat).0,
                    window(kids, a0, b0, first, j as nat).1,
                    (depth - 1) as u32,
                )
            } else {
                grows::<G>(
                    base[j].1.val,
                    base[j].1.depth,
                    base[j].1.children@,
                    kids[j].1,
                    G::next(v0, kids[j].0),
                    window(kids, a0, b0, first, j as nat).0,
                    window(kids, a0, b0, first, j as nat).1,
                    (depth - 1) as u32,
                )
            }) by {
                if kids0.len() == 0 {
                    assert(fresh(base[j].1));
                    assert(base[j].1.children@ =~= Seq::empty());
                }
            }
        }
    }

    /// The move under which the child of greatest merit stands: the one
    /// searched deepest, and among those the one of best value for the side
    /// to move, the last of them where several are equal. Where the tree has
    /// no child it is the first move that the game generates.
    pub fn select(&self, t: &Tree<G>) -> (m: G::M)
        requires
            self.g.inv(),
            G::status(self.g@) == State::Going,
            suits(*t, self.g@),
        ensures
            G::moves(self.g@).contains(m),
            selected(*t, self.g@, m),
    {
        if t.children.len() == 0 {
            let moves = self.g.get_moves();
            proof {
                self.g.law_inv();
                G::law_going_has_moves(self.g@);
                assert(moves@.contains(moves@[0]));
            }
            return G::copy_move(&moves[0]);
        }
        let first = self.g.turn();
        let mut at: usize = 0;
        let mut i: usize = 1;
        while i < t.children.len()
            invariant
                1 <= i <= t.children@.len(),
                at < i,
                first == G::to_move(self.g@),
                forall|j: int|
                    0 <= j < i ==> no_better(
                        merit(#[trigger] t.children@[j], first),
                        merit(t.children@[at as int], first),
                    ),
            decreases t.children@.len() - i,
        {
            let c = &t.children[i];
            let o = &t.children[at];
            let kc = if first { c.1.val } else { flip(c.1.val) };
            let ko = if first { o.1.val } else { flip(o.1.val) };
            if c.1.depth > o.1.depth || (c.1.depth == o.1.depth && kc >= ko) {
                at = i;
            }
            i += 1;
        }
        assert(G::moves(self.g@).contains(t.children@[at as int].0));
        G::copy_move(&t.children[at].0)
    }

    /// Deepens the search of the position pass by pass, up to `limit`
    /// passes, and answers the move of greatest merit.
    fn deepen(&mut self, limit: u32) -> (m: G::M)
        requires
            old(self).g.inv(),
            G::status(old(self).g@) == State::Going,
            suits(old(self).tree, old(self).g@),
        ensures
            final(self).g.inv(),
            final(self).g@ == old(self).g@,
            suits(final(self).tree, final(self).g@),
            G::moves(old(self).g@).contains(m),
            selected(final(self).tree, old(self).g@, m),
            proven(old(self).tree.val) ==> final(self).tree == old(self).tree,
            old(self).watch is None && !old(self).ended_early ==> passed(
                old(self).tree,
                final(self).tree,
                old(self).g@,
                old(self).cur_depth,
                limit as nat,
            ),
    {
        let mut t = Tree::new();
        std::mem::swap(&mut t, &mut self.tree);
        let mut passes: u32 = 0;
        let ghost t0 = t;
        let ghost d0 = self.cur_depth;
        let ghost timeless = self.watch is None && !self.ended_early;
        while !(t.val > 30000 || t.val < -30000) && !self.ended_early && self.cur_depth < u32::MAX
            && passes < limit
            invariant
                self.g.inv(),
                self.g@ == old(self).g@,
                suits(t, self.g@),
                proven(old(self).tree.val) ==> t == old(self).tree,
                t0 == old(self).tree,
                d0 == old(self).cur_depth,
                passes <= limit,
                timeless ==> self.watch is None && !self.ended_early && self.cur_depth == d0
                    + passes && passed(t0, t, self.g@, d0, passes as nat),
            decreases limit - passes,
        {
            let ghost before = t;
            self.cur_depth += 1;
            passes += 1;
            self.minimax(i64::MIN, i64::MAX, self.cur_depth, &mut t);
            proof {
                if timeless {
                    assert(passed(t0, before, self.g@, d0, (passes - 1) as nat) && pass(
                        before,
                        t,
                        self.g@,
                        d0,
                        passes as nat,
                    ));
                }
            }
        }
        proof {
            if timeless && passes < limit {
                lemma_idle(t0, t, self.g@, d0, passes as nat, limit as nat);
            }
        }
        if self.ended_early && self.cur_depth != 0 {
            self.cur_depth -= 1;
        }
        let ans = self.select(&t);
        self.tree = t;
        ans
    }

    /// Searches the position `passes` passes deeper than it has been
    /// searched, without a time limit, and answers the move of greatest
    /// merit.
    pub fn get_mov_with_passes(&mut self, passes: u32) -> (m: G::M)
        requires
            old(self).g.inv(),
            G::status(old(self).g@) == State::Going,
            suits(old(self).tree, old(self).g@),
        ensures
            final(self).g.inv(),
            final(self).g@ == old(self).g@,
            suits(final(self).tree, final(self).g@),
            G::moves(old(self).g@).contains(m),
            selected(final(self).tree, old(self).g@, m),
            proven(old(self).tree.val) ==> final(self).tree == old(self).tree,
            passed(
                old(self).tree,
                final(self).tree,
                old(self).g@,
                old(self).cur_depth,
                passes as nat,
            ),
    {
        self.watch = None;
        self.ended_early = false;
        self.deepen(passes)
    }
}

impl<G: Game> Ai<G> for MinimaxFinal<G> {
    open spec fn game(&self) -> G::V {
        self.g@
    }

    open spec fn ready(&self) -> bool {
        self.g.inv() && suits(self.tree, self.g@)
    }

    fn new(t: bool) -> (s: Self)
        ensures
            fresh(s.tree),
            s.cur_depth == 0,
            s.watch is None,
            !s.ended_early,
    {
        MinimaxFinal::new_with_game(G::new(t))
    }

    fn state(&self) -> (r: State) {
        self.g.state()
    }

    fn turn(&self) -> (r: bool) {
        self.g.turn()
    }

    /// Deepens the search pass by pass until the game is decided or the
    /// budget runs out, and answers the move of greatest merit. A tree whose
    /// value says that the game is decided is not searched again.
    fn get_mov(&mut self, tl: Duration) -> (m: G::M)
        ensures
            selected(final(self).tree, old(self).g@, m),
            proven(old(self).tree.val) ==> final(self).tree == old(self).tree,
    {
        self.watch = Some(Stopwatch::start(&tl));
        self.ended_early = false;
        self.deepen(u32::MAX)
    }

    /// Goes on with the part of the tree that stands under the move, the
    /// rest given up: the tree is the first child under the move, as it
    /// was found, and one in which nothing has been found where there is no
    /// such child. The depth searched is one less, as far as it goes.
    fn mov(&mut self, m: &G::M)
        ensures
            final(self).watch == old(self).watch,
            final(self).ended_early == old(self).ended_early,
            final(self).cur_depth == (if old(self).cur_depth == 0 {
                0
            } else {
                old(self).cur_depth - 1
            }),
            place::<G>(old(self).tree.children@, *m, 0) < old(self).tree.children@.len()
                ==> final(self).tree == old(self).tree.children@[place::<G>(
                old(self).tree.children@,
                *m,
                0,
            ) as int].1,
            place::<G>(old(self).tree.children@, *m, 0) >= old(self).tree.children@.len() ==> fresh(
                final(self).tree,
            ),
    {
        let mut t = Tree::new();
        std::mem::swap(&mut t, &mut self.tree);
        let ghost v0 = self.g@;
        let ghost kids = t.children@;
        let mut children = t.children;
        let mut i: usize = 0;
        let mut found = false;
        while i < children.len() && !found
            invariant
                i <= children@.len(),
                children@ == kids,
                kids == old(self).tree.children@,
                fresh(self.tree),
                found ==> i > 0 && kids[i - 1].0 == *m && place::<G>(kids, *m, 0) == i - 1,
                !found ==> place::<G>(kids, *m, 0) == place::<G>(kids, *m, i as nat),
            decreases children@.len() - i,
        {
            if G::same_move(&children[i].0, m) {
                found = true;
            }
            i += 1;
        }
        if found {
            let c = children.swap_remove(i - 1);
            assert(c == kids[i - 1]);
            self.tree = c.1;
        }
        if self.cur_depth != 0 {
            self.cur_depth -= 1;
        }
        self.g.mov(m);
    }
}

} // verus!
