//! The value of a position under full-width minimax to a fixed depth, the
//! facts about it that the pruning searches rest on, and the plain
//! alpha-beta search.

use crate::game::{Game, State};
use crate::heuristic::Heuristic;
use vstd::prelude::*;

verus! {

/// What the side to move starts from before it has looked at any move.
pub open spec fn worst(first: bool) -> int {
    if first {
        i64::MIN as int
    } else {
        i64::MAX as int
    }
}

/// The better of two values for the side to move.
pub open spec fn better(first: bool, x: int, y: int) -> int {
    if first {
        if x > y {
            x
        } else {
            y
        }
    } else {
        if x < y {
            x
        } else {
            y
        }
    }
}

/// The minimax value of `v` searched `depth` plies deep: the static
/// evaluation at a finished position or at depth 0, else the best value
/// among the positions one move away, for the side to move.
pub open spec fn value<G: Game, H: Heuristic<G>>(v: G::V, depth: nat) -> int
    decreases depth, 1nat, 0nat,
{
    if G::status(v) != State::Going || depth == 0 {
        H::rate(v) as int
    } else {
        best::<G, H>(v, G::moves(v), depth, G::moves(v).len())
    }
}

/// The best value among the first `n` moves of `ms`, each followed by a
/// search of `depth - 1` plies.
pub open spec fn best<G: Game, H: Heuristic<G>>(v: G::V, ms: Seq<G::M>, depth: nat, n: nat) -> int
    decreases depth, 0nat, n,
{
    if n == 0 || n > ms.len() || depth == 0 {
        worst(G::to_move(v))
    } else {
        better(
            G::to_move(v),
            value::<G, H>(G::next(v, ms[n - 1]), (depth - 1) as nat),
            best::<G, H>(v, ms, depth, (n - 1) as nat),
        )
    }
}

/// Whether the value `x` is better than the value `y` for the side to move.
pub open spec fn beats(first: bool, x: int, y: int) -> bool {
    if first {
        x > y
    } else {
        x < y
    }
}

/// The place of the first among the first `n` moves of `ms` that attains
/// their best value; the first place where none of them is better than
/// nothing.
pub open spec fn first_best<G: Game, H: Heuristic<G>>(
    v: G::V,
    ms: Seq<G::M>,
    depth: nat,
    n: nat,
) -> int
    decreases n,
{
    if n == 0 || n > ms.len() || depth == 0 {
        0
    } else if beats(
        G::to_move(v),
        value::<G, H>(G::next(v, ms[n - 1]), (depth - 1) as nat),
        best::<G, H>(v, ms, depth, (n - 1) as nat),
    ) {
        n - 1
    } else {
        first_best::<G, H>(v, ms, depth, (n - 1) as nat)
    }
}

/// The move that a search of `depth` plies chooses in `v`: the first, in
/// the order in which the moves are tried, that attains the minimax value.
pub open spec fn choice<G: Game, H: Heuristic<G>>(v: G::V, depth: nat) -> G::M {
    G::moves_sorted(v)[first_best::<G, H>(
        v,
        G::moves_sorted(v),
        depth,
        G::moves_sorted(v).len(),
    )]
}

/// A move that attains the minimax value of `v` at `depth`.
pub open spec fn optimal<G: Game, H: Heuristic<G>>(v: G::V, m: G::M, depth: nat) -> bool {
    &&& depth > 0
    &&& G::moves(v).contains(m)
    &&& value::<G, H>(G::next(v, m), (depth - 1) as nat) == value::<G, H>(v, depth)
}

/// What a search with the window `(a, b)` owes for a position of true value
/// `m`: the value itself inside the window, and a bound on the same side
/// outside it.
pub open spec fn within(m: int, a: int, b: int, r: int) -> bool {
    &&& m <= a ==> r <= a
    &&& m >= b ==> r >= b
    &&& a < m < b ==> r == m
}

/// With the widest window a search with pruning owes the minimax value
/// itself: pruning changes the work, not the result.
pub proof fn lemma_full_window(m: int, r: int)
    requires
        i64::MIN <= m <= i64::MAX,
        i64::MIN <= r <= i64::MAX,
        within(m, i64::MIN as int, i64::MAX as int, r),
    ensures
        r == m,
{
}

/// Every value lies in the range of the evaluation.
pub proof fn lemma_value_range<G: Game, H: Heuristic<G>>(v: G::V, depth: nat)
    ensures
        i64::MIN <= value::<G, H>(v, depth) <= i64::MAX,
    decreases depth, 1nat, 0nat,
{
    if G::status(v) != State::Going || depth == 0 {
    } else {
        lemma_best_range::<G, H>(v, G::moves(v), depth, G::moves(v).len());
    }
}

/// Every partial best lies in the range of the evaluation.
pub proof fn lemma_best_range<G: Game, H: Heuristic<G>>(v: G::V, ms: Seq<G::M>, depth: nat, n: nat)
    ensures
        i64::MIN <= best::<G, H>(v, ms, depth, n) <= i64::MAX,
    decreases depth, 0nat, n,
{
    if n == 0 || n > ms.len() || depth == 0 {
    } else {
        lemma_value_range::<G, H>(G::next(v, ms[n - 1]), (depth - 1) as nat);
        lemma_best_range::<G, H>(v, ms, depth, (n - 1) as nat);
    }
}

/// The partial best bounds the value of each move it covers.
pub proof fn lemma_best_bounds<G: Game, H: Heuristic<G>>(v: G::V, ms: Seq<G::M>, depth: nat, n: nat, i: int)
    requires
        depth > 0,
        0 <= i < n <= ms.len(),
    ensures
        G::to_move(v) ==> value::<G, H>(G::next(v, ms[i]), (depth - 1) as nat) <= best::<G, H>(
            v,
            ms,
            depth,
            n,
        ),
        !G::to_move(v) ==> value::<G, H>(G::next(v, ms[i]), (depth - 1) as nat) >= best::<G, H>(
            v,
            ms,
            depth,
            n,
        ),
    decreases n,
{
    if i < n - 1 {
        lemma_best_bounds::<G, H>(v, ms, depth, (n - 1) as nat, i);
    }
}

/// The partial best is the value of one of the moves it covers, unless it
/// covers none.
pub proof fn lemma_best_attained<G: Game, H: Heuristic<G>>(v: G::V, ms: Seq<G::M>, depth: nat, n: nat) -> (i: int)
    requires
        depth > 0,
        0 < n <= ms.len(),
    ensures
        0 <= i < n,
        best::<G, H>(v, ms, depth, n) == value::<G, H>(G::next(v, ms[i]), (depth - 1) as nat),
    decreases n,
{
    let h = value::<G, H>(G::next(v, ms[n - 1]), (depth - 1) as nat);
    if n == 1 {
        lemma_value_range::<G, H>(G::next(v, ms[0]), (depth - 1) as nat);
        assert(best::<G, H>(v, ms, depth, 0) == worst(G::to_move(v)));
        0
    } else {
        let j = lemma_best_attained::<G, H>(v, ms, depth, (n - 1) as nat);
        if best::<G, H>(v, ms, depth, n) == h {
            n - 1
        } else {
            j
        }
    }
}

/// Two lists that hold the same moves have the same best value: the order
/// in which a search tries the moves does not change what it finds.
pub proof fn lemma_best_order<G: Game, H: Heuristic<G>>(v: G::V, ms1: Seq<G::M>, ms2: Seq<G::M>, depth: nat)
    requires
        depth > 0,
        forall|m: G::M| ms1.contains(m) <==> ms2.contains(m),
    ensures
        best::<G, H>(v, ms1, depth, ms1.len()) == best::<G, H>(v, ms2, depth, ms2.len()),
{
    if ms1.len() == 0 {
        if ms2.len() > 0 {
            assert(ms2.contains(ms2[0]));
        }
    } else {
        assert(ms1.contains(ms1[0]));
        let i1 = lemma_best_attained::<G, H>(v, ms1, depth, ms1.len());
        assert(ms1.contains(ms1[i1]));
        let j2 = choose|j: int| 0 <= j < ms2.len() && ms2[j] == ms1[i1];
        lemma_best_bounds::<G, H>(v, ms2, depth, ms2.len(), j2);
        let i2 = lemma_best_attained::<G, H>(v, ms2, depth, ms2.len());
        assert(ms2.contains(ms2[i2]));
        let j1 = choose|j: int| 0 <= j < ms1.len() && ms1[j] == ms2[i2];
        lemma_best_bounds::<G, H>(v, ms1, depth, ms1.len(), j1);
    }
}

/// A rearrangement of a list holds the same moves.
pub proof fn lemma_same_moves<M>(s1: Seq<M>, s2: Seq<M>)
    requires
        s1.to_multiset() == s2.to_multiset(),
    ensures
        forall|m: M| s1.contains(m) <==> s2.contains(m),
        s1.len() == s2.len(),
{
    s1.to_multiset_ensures();
    s2.to_multiset_ensures();
    assert forall|m: M| s1.contains(m) <==> s2.contains(m) by {
        assert(s1.contains(m) <==> s1.to_multiset().count(m) > 0);
        assert(s2.contains(m) <==> s2.to_multiset().count(m) > 0);
    }
}

/// Once the best value cannot be bettered, the first move that attains it
/// stays the first.
pub proof fn lemma_first_best_stays<G: Game, H: Heuristic<G>>(
    v: G::V,
    ms: Seq<G::M>,
    depth: nat,
    i: nat,
    n: nat,
)
    requires
        depth > 0,
        i <= n <= ms.len(),
        best::<G, H>(v, ms, depth, i) == worst(!G::to_move(v)),
    ensures
        first_best::<G, H>(v, ms, depth, n) == first_best::<G, H>(v, ms, depth, i),
        best::<G, H>(v, ms, depth, n) == best::<G, H>(v, ms, depth, i),
    decreases n - i,
{
    if i < n {
        lemma_first_best_stays::<G, H>(v, ms, depth, i, (n - 1) as nat);
        lemma_value_range::<G, H>(G::next(v, ms[n - 1]), (depth - 1) as nat);
    }
}

/// The partial best of a list grows with the part taken, for the side it
/// serves.
pub proof fn lemma_best_monotone<G: Game, H: Heuristic<G>>(v: G::V, ms: Seq<G::M>, depth: nat, i: nat, n: nat)
    requires
        depth > 0,
        i <= n <= ms.len(),
    ensures
        G::to_move(v) ==> best::<G, H>(v, ms, depth, i) <= best::<G, H>(v, ms, depth, n),
        !G::to_move(v) ==> best::<G, H>(v, ms, depth, i) >= best::<G, H>(v, ms, depth, n),
    decreases n - i,
{
    if i < n {
        lemma_best_monotone::<G, H>(v, ms, depth, i, (n - 1) as nat);
    }
}

/// Searches the position `depth` plies deep inside the window `(a, b)`,
/// the moves tried in the order in which the game sorts them, and a line
/// given up as soon as it cannot matter any more. The result is the minimax
/// value where that lies inside the window, and else a bound on the side
/// where it lies. The position is as before.
pub fn alphabeta<G: Game, H: Heuristic<G>>(g: &mut G, a: i64, b: i64, depth: u32) -> (res: i64)
    requires
        old(g).inv(),
        a < b,
    ensures
        final(g).inv(),
        final(g)@ == old(g)@,
        within(value::<G, H>(old(g)@, depth as nat), a as int, b as int, res as int),
        a == i64::MIN && b == i64::MAX ==> res == value::<G, H>(old(g)@, depth as nat),
    decreases depth,
{
    proof {
        lemma_value_range::<G, H>(g@, depth as nat);
    }
    if g.state() != State::Going || depth == 0 {
        return H::eval(g);
    }
    let first = g.turn();
    let a0 = a;
    let b0 = b;
    let mut a = a;
    let mut b = b;
    let mut res = if first { a } else { b };
    let moves = g.get_moves_sorted();
    let ghost v0 = g@;
    proof {
        g.law_inv();
        G::law_sorted(v0);
            lemma_same_moves(moves@, G::moves(v0));
    }
    let mut i: usize = 0;
    let mut done = false;
    while i < moves.len() && !done
        invariant
            i <= moves.len(),
            g.inv(),
            g@ == v0,
            G::valid(v0),
            G::status(v0) == State::Going,
            first == G::to_move(v0),
            depth > 0,
            a0 < b0,
            forall|m: G::M| moves@.contains(m) <==> G::moves(v0).contains(m),
            first ==> res == a && b == b0,
            !first ==> res == b && a == a0,
            !done ==> a < b,
            !done && first ==> a as int == better(
                true,
                a0 as int,
                best::<G, H>(v0, moves@, depth as nat, i as nat),
            ),
            !done && !first ==> b as int == better(
                false,
                b0 as int,
                best::<G, H>(v0, moves@, depth as nat, i as nat),
            ),
            done && first ==> a >= b0 && best::<G, H>(v0, moves@, depth as nat, i as nat) >= b0,
            done && !first ==> b <= a0 && best::<G, H>(v0, moves@, depth as nat, i as nat) <= a0,
        decreases moves.len() - i,
    {
        proof {
            assert(moves@.contains(moves@[i as int]));
            G::law_undo(v0, moves@[i as int]);
        }
        let rb = g.mov_with_rollback(&moves[i]);
        let h = alphabeta::<G, H>(g, a, b, depth - 1);
        g.rollback(rb);
        if first {
            if h > res {
                res = h;
            }
            if h > a {
                a = h;
            }
        } else {
            if h < res {
                res = h;
            }
            if h < b {
                b = h;
            }
        }
        i += 1;
        if a >= b {
            done = true;
        }
    }
    proof {
        lemma_best_monotone::<G, H>(v0, moves@, depth as nat, i as nat, moves@.len());
        lemma_best_order::<G, H>(v0, moves@, G::moves(v0), depth as nat);
    }
    res
}

/// Searches every move of the position `depth` plies deep, all of them with
/// the full window on the side of the opponent, and answers the first one
/// that attains the minimax value, with that value.
pub fn best_move<G: Game, H: Heuristic<G>>(g: &mut G, depth: u32) -> (r: (G::M, i64))
    requires
        old(g).inv(),
        G::status(old(g)@) == State::Going,
        depth > 0,
    ensures
        final(g).inv(),
        final(g)@ == old(g)@,
        optimal::<G, H>(old(g)@, r.0, depth as nat),
        r.0 == choice::<G, H>(old(g)@, depth as nat),
        r.1 == value::<G, H>(old(g)@, depth as nat),
{
    let mut a = i64::MIN;
    let mut b = i64::MAX;
    let moves = g.get_moves_sorted();
    let first = g.turn();
    let ghost v0 = g@;
    proof {
        g.law_inv();
        G::law_going_has_moves(v0);
        G::law_sorted(v0);
            lemma_same_moves(moves@, G::moves(v0));
    }
    let mut res = if first { a } else { b };
    let mut ans = G::copy_move(&moves[0]);
    let ghost mut at: int = 0;
    let mut i: usize = 0;
    let mut done = false;
    while i < moves.len() && !done
        invariant
            i <= moves.len(),
            moves.len() > 0,
            g.inv(),
            g@ == v0,
            G::valid(v0),
            G::status(v0) == State::Going,
            first == G::to_move(v0),
            depth > 0,
            forall|m: G::M| moves@.contains(m) <==> G::moves(v0).contains(m),
            first ==> res == a && b == i64::MAX,
            !first ==> res == b && a == i64::MIN,
            done && first ==> res == i64::MAX,
            done && !first ==> res == i64::MIN,
            0 <= at < moves.len(),
            i == 0 ==> at == 0,
            ans == moves@[at],
            moves@ == G::moves_sorted(v0),
            at == first_best::<G, H>(v0, moves@, depth as nat, i as nat),
            !done ==> a < b,
            res as int == best::<G, H>(v0, moves@, depth as nat, i as nat),
            i > 0 ==> at < i && res as int == value::<G, H>(
                G::next(v0, moves@[at]),
                (depth - 1) as nat,
            ),
        decreases moves.len() - i,
    {
        proof {
            assert(moves@.contains(moves@[i as int]));
            G::law_undo(v0, moves@[i as int]);
            lemma_value_range::<G, H>(G::next(v0, moves@[i as int]), (depth - 1) as nat);
        }
        let rb = g.mov_with_rollback(&moves[i]);
        let h = alphabeta::<G, H>(g, a, b, depth - 1);
        g.rollback(rb);
        if first {
            if h > res {
                res = h;
                ans = G::copy_move(&moves[i]);
                proof {
                    at = i as int;
                }
            }
            if h > a {
                a = h;
            }
        } else {
            if h < res {
                res = h;
                ans = G::copy_move(&moves[i]);
                proof {
                    at = i as int;
                }
            }
            if h < b {
                b = h;
            }
        }
        i += 1;
        if a >= b {
            done = true;
        }
    }
    proof {
        lemma_best_monotone::<G, H>(v0, moves@, depth as nat, i as nat, moves@.len());
        lemma_best_range::<G, H>(v0, moves@, depth as nat, moves@.len());
        lemma_best_order::<G, H>(v0, moves@, G::moves(v0), depth as nat);
        if done {
            lemma_first_best_stays::<G, H>(v0, moves@, depth as nat, i as nat, moves@.len());
        }
        assert(moves@.contains(moves@[at]));
    }
    (ans, res)
}

} // verus!
