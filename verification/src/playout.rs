//! Playing a game out to see how it ends.

use crate::game::{Game, State};
use crate::heuristic::Native;
use crate::minimax::{best_move, optimal};
use crate::random::rng_choose;
use rand_xoshiro::Xoroshiro128Plus;
use vstd::prelude::*;

verus! {

/// The position that the first `n` moves of `path` lead to from `v`.
pub open spec fn follow<G: Game>(v: G::V, path: Seq<G::M>, n: nat) -> G::V
    decreases n,
{
    if n == 0 || n > path.len() {
        v
    } else {
        G::next(follow::<G>(v, path, (n - 1) as nat), path[n - 1])
    }
}

/// Whether `path` is a line of play from `v`: each of its moves is legal
/// in the position that the moves before it lead to, which is still going.
pub open spec fn lawful<G: Game>(v: G::V, path: Seq<G::M>) -> bool {
    forall|i: int|
        0 <= i < path.len() ==> G::status(#[trigger] follow::<G>(v, path, i as nat))
            == State::Going && G::moves(follow::<G>(v, path, i as nat)).contains(path[i])
}

/// Whether each move of `path` attains the minimax value, `depth` plies
/// deep, of the position in which it is made.
pub open spec fn guided<G: Game>(v: G::V, path: Seq<G::M>, depth: nat) -> bool {
    forall|i: int|
        0 <= i < path.len() ==> optimal::<G, Native>(
            #[trigger] follow::<G>(v, path, i as nat),
            path[i],
            depth,
        )
}

/// Whether `r` is how a line of play of at most `cap` moves from `v` ends:
/// in a decided position, or still going after `cap` moves.
pub open spec fn ends<G: Game>(v: G::V, path: Seq<G::M>, cap: nat, r: State) -> bool {
    &&& lawful::<G>(v, path)
    &&& path.len() <= cap
    &&& r == G::status(follow::<G>(v, path, path.len()))
    &&& r == State::Going ==> path.len() == cap
}

proof fn lemma_follow_prefix<G: Game>(v: G::V, path: Seq<G::M>, m: G::M, n: nat)
    requires
        n <= path.len(),
    ensures
        follow::<G>(v, path.push(m), n) == follow::<G>(v, path, n),
    decreases n,
{
    if n > 0 {
        lemma_follow_prefix::<G>(v, path, m, (n - 1) as nat);
        assert(path.push(m)[n - 1] == path[n - 1]);
    }
}

/// A line of play that is made one move longer leads where it led, and
/// with the new move to the position after it.
pub proof fn lemma_follow_push<G: Game>(v: G::V, path: Seq<G::M>, m: G::M, n: nat)
    requires
        n <= path.len(),
    ensures
        follow::<G>(v, path.push(m), n) == follow::<G>(v, path, n),
        follow::<G>(v, path.push(m), path.len() + 1) == G::next(
            follow::<G>(v, path, path.len()),
            m,
        ),
{
    lemma_follow_prefix::<G>(v, path, m, n);
    lemma_follow_prefix::<G>(v, path, m, path.len());
    assert(path.push(m)[path.len() as int] == m);
}

/// A line of play from a reachable position goes through reachable
/// positions only.
pub proof fn lemma_follow_valid<G: Game>(v: G::V, path: Seq<G::M>, n: nat)
    requires
        G::valid(v),
        lawful::<G>(v, path),
        n <= path.len(),
    ensures
        G::valid(follow::<G>(v, path, n)),
    decreases n,
{
    if n > 0 {
        lemma_follow_valid::<G>(v, path, (n - 1) as nat);
        G::law_next(follow::<G>(v, path, (n - 1) as nat), path[n - 1]);
    }
}

/// Takes back the moves of a line of play, the last first.
fn unwind<G: Game>(g: &mut G, tokens: Vec<G::R>, Ghost(v0): Ghost<G::V>, Ghost(path): Ghost<Seq<G::M>>)
    requires
        old(g).inv(),
        G::valid(v0),
        lawful::<G>(v0, path),
        tokens@.len() == path.len(),
        old(g)@ == follow::<G>(v0, path, path.len()),
        forall|i: int|
            0 <= i < path.len() ==> #[trigger] tokens@[i] == G::token(
                follow::<G>(v0, path, i as nat),
                path[i],
            ),
    ensures
        final(g).inv(),
        final(g)@ == v0,
{
    let mut tokens = tokens;
    while tokens.len() > 0
        invariant
            g.inv(),
            G::valid(v0),
            lawful::<G>(v0, path),
            tokens@.len() <= path.len(),
            g@ == follow::<G>(v0, path, tokens@.len()),
            forall|i: int|
                0 <= i < tokens@.len() ==> #[trigger] tokens@[i] == G::token(
                    follow::<G>(v0, path, i as nat),
                    path[i],
                ),
        decreases tokens@.len(),
    {
        let ghost k = (tokens@.len() - 1) as nat;
        let ghost toks = tokens@;
        let rb = tokens.pop().unwrap();
        proof {
            assert(rb == toks[k as int]);
            lemma_follow_valid::<G>(v0, path, k);
            G::law_undo(follow::<G>(v0, path, k), path[k as int]);
        }
        g.rollback(rb);
    }
}

/// Plays moves picked at random until the game is decided or `cap` moves
/// are made, and tells how the line of play ended. The position is as
/// before.
pub fn random_playout<G: Game>(g: &mut G, rng: &mut Xoroshiro128Plus, cap: usize) -> (r: State)
    requires
        old(g).inv(),
    ensures
        final(g).inv(),
        final(g)@ == old(g)@,
        exists|path: Seq<G::M>| ends::<G>(old(g)@, path, cap as nat, r),
{
    let ghost v0 = g@;
    let ghost mut path: Seq<G::M> = Seq::empty();
    let mut tokens: Vec<G::R> = Vec::new();
    let mut n: usize = 0;
    proof {
        g.law_inv();
    }
    while n < cap && g.state() == State::Going
        invariant
            n <= cap,
            n == path.len(),
            g.inv(),
            G::valid(v0),
            lawful::<G>(v0, path),
            tokens@.len() == path.len(),
            g@ == follow::<G>(v0, path, path.len()),
            forall|i: int|
                0 <= i < path.len() ==> #[trigger] tokens@[i] == G::token(
                    follow::<G>(v0, path, i as nat),
                    path[i],
                ),
        decreases cap - n,
    {
        let moves = g.get_moves();
        let ghost cur = g@;
        proof {
            g.law_inv();
            G::law_going_has_moves(cur);
        }
        match rng_choose(rng, &moves) {
            Some(m) => {
                let ghost mv = *m;
                let ghost old_path = path;
                let ghost old_tokens = tokens@;
                let rb = g.mov_with_rollback(m);
                tokens.push(rb);
                proof {
                    path = path.push(mv);
                    lemma_follow_push::<G>(v0, old_path, mv, old_path.len());
                    assert forall|i: int| 0 <= i < path.len() implies G::status(
                        #[trigger] follow::<G>(v0, path, i as nat),
                    ) == State::Going && G::moves(follow::<G>(v0, path, i as nat)).contains(
                        path[i],
                    ) by {
                        lemma_follow_push::<G>(v0, old_path, mv, i as nat);
                    }
                    assert forall|i: int| 0 <= i < path.len() implies #[trigger] tokens@[i]
                        == G::token(follow::<G>(v0, path, i as nat), path[i]) by {
                        lemma_follow_push::<G>(v0, old_path, mv, i as nat);
                        if i < old_path.len() {
                            assert(tokens@[i] == old_tokens[i]);
                        }
                    }
                }
                n += 1;
            },
            None => {},
        }
    }
    let r = g.state();
    unwind::<G>(g, tokens, Ghost(v0), Ghost(path));
    proof {
        assert(ends::<G>(v0, path, cap as nat, r));
    }
    r
}

/// Plays the moves that a search of `depth` plies finds best for the side
/// to move, until the game is decided or `cap` moves are made, and tells
/// how the line of play ended and how long it was. The position is as
/// before.
pub fn guided_playout<G: Game>(g: &mut G, depth: u32, cap: usize) -> (r: (State, usize))
    requires
        old(g).inv(),
        depth > 0,
    ensures
        final(g).inv(),
        final(g)@ == old(g)@,
        exists|path: Seq<G::M>|
            ends::<G>(old(g)@, path, cap as nat, r.0) && guided::<G>(old(g)@, path, depth as nat)
                && path.len() == r.1,
{
    let ghost v0 = g@;
    let ghost mut path: Seq<G::M> = Seq::empty();
    let mut tokens: Vec<G::R> = Vec::new();
    let mut n: usize = 0;
    proof {
        g.law_inv();
    }
    while n < cap && g.state() == State::Going
        invariant
            n <= cap,
            n == path.len(),
            depth > 0,
            g.inv(),
            G::valid(v0),
            lawful::<G>(v0, path),
            guided::<G>(v0, path, depth as nat),
            tokens@.len() == path.len(),
            g@ == follow::<G>(v0, path, path.len()),
            forall|i: int|
                0 <= i < path.len() ==> #[trigger] tokens@[i] == G::token(
                    follow::<G>(v0, path, i as nat),
                    path[i],
                ),
        decreases cap - n,
    {
        let (m, _) = best_move::<G, Native>(g, depth);
        let ghost old_path = path;
        let ghost old_tokens = tokens@;
        let rb = g.mov_with_rollback(&m);
        tokens.push(rb);
        proof {
            path = path.push(m);
            lemma_follow_push::<G>(v0, old_path, m, old_path.len());
            assert forall|i: int| 0 <= i < path.len() implies G::status(
                #[trigger] follow::<G>(v0, path, i as nat),
            ) == State::Going && G::moves(follow::<G>(v0, path, i as nat)).contains(path[i]) by {
                lemma_follow_push::<G>(v0, old_path, m, i as nat);
            }
            assert forall|i: int| 0 <= i < path.len() implies optimal::<G, Native>(
                #[trigger] follow::<G>(v0, path, i as nat),
                path[i],
                depth as nat,
            ) by {
                lemma_follow_push::<G>(v0, old_path, m, i as nat);
            }
            assert forall|i: int| 0 <= i < path.len() implies #[trigger] tokens@[i] == G::token(
                follow::<G>(v0, path, i as nat),
                path[i],
            ) by {
                lemma_follow_push::<G>(v0, old_path, m, i as nat);
                if i < old_path.len() {
                    assert(tokens@[i] == old_tokens[i]);
                }
            }
        }
        n += 1;
    }
    let r = g.state();
    unwind::<G>(g, tokens, Ghost(v0), Ghost(path));
    proof {
        assert(ends::<G>(v0, path, cap as nat, r));
    }
    (r, n)
}

} // verus!
