//! An agent that plays a move picked at random, and random play of a whole
//! game.

use crate::ai::Ai;
use crate::game::{Game, State};
use crate::playout::{ends, follow, lawful};
use crate::random::{fresh_rng, rng_choose};
use rand_xoshiro::Xoroshiro128Plus;
use std::time::Duration;
use vstd::prelude::*;

verus! {

/// The agent: the position of the game and the generator that it draws
/// from.
pub struct RandomAgent<G: Game> {
    pub g: G,
    pub rng: Xoroshiro128Plus,
}

impl<G: Game> RandomAgent<G> {
    /// An agent that takes up the game at `g` and draws from `rng`.
    pub fn new_with_rng(g: G, rng: Xoroshiro128Plus) -> (s: Self)
        requires
            g.inv(),
        ensures
            s.g == g,
            s.rng == rng,
    {
        RandomAgent { g, rng }
    }
}

impl<G: Game> Ai<G> for RandomAgent<G> {
    open spec fn game(&self) -> G::V {
        self.g@
    }

    open spec fn ready(&self) -> bool {
        self.g.inv()
    }

    fn new(t: bool) -> (s: Self) {
        RandomAgent { g: G::new(t), rng: fresh_rng(0) }
    }

    fn state(&self) -> (r: State) {
        self.g.state()
    }

    fn turn(&self) -> (r: bool) {
        self.g.turn()
    }

    /// One of the legal moves, whichever the generator picks.
    fn get_mov(&mut self, _tl: Duration) -> (m: G::M) {
        let moves = self.g.get_moves();
        proof {
            self.g.law_inv();
            G::law_going_has_moves(self.g@);
        }
        match rng_choose(&mut self.rng, &moves) {
            Some(m) => G::copy_move(m),
            None => {
                assert(moves@.contains(moves@[0]));
                G::copy_move(&moves[0])
            },
        }
    }

    fn mov(&mut self, m: &G::M) {
        self.g.mov(m);
    }
}

/// Plays a game from its start, the first player to move, with moves picked
/// at random, until it is decided or `cap` moves are made; tells how it
/// ended and how many moves it took.
pub fn random_play<G: Game>(rng: &mut Xoroshiro128Plus, cap: usize) -> (r: (State, usize))
    ensures
        r.1 <= cap,
        exists|path: Seq<G::M>|
            ends::<G>(G::start(true), path, cap as nat, r.0) && path.len() == r.1,
{
    let mut g = G::new(true);
    let ghost v0 = g@;
    let ghost mut path: Seq<G::M> = Seq::empty();
    let mut n: usize = 0;
    while n < cap && g.state() == State::Going
        invariant
            n <= cap,
            n == path.len(),
            g.inv(),
            lawful::<G>(v0, path),
            g@ == follow::<G>(v0, path, path.len()),
        decreases cap - n,
    {
        let moves = g.get_moves();
        proof {
            g.law_inv();
            G::law_going_has_moves(g@);
        }
        match rng_choose(rng, &moves) {
            Some(m) => {
                let ghost mv = *m;
                let ghost old_path = path;
                g.mov(m);
                proof {
                    path = path.push(mv);
                    crate::playout::lemma_follow_push::<G>(v0, old_path, mv, old_path.len());
                    assert forall|i: int| 0 <= i < path.len() implies G::status(
                        #[trigger] follow::<G>(v0, path, i as nat),
                    ) == State::Going && G::moves(follow::<G>(v0, path, i as nat)).contains(
                        path[i],
                    ) by {
                        crate::playout::lemma_follow_push::<G>(v0, old_path, mv, i as nat);
                    }
                }
                n += 1;
            },
            None => {},
        }
    }
    let r = g.state();
    proof {
        assert(ends::<G>(v0, path, cap as nat, r));
    }
    (r, n)
}

} // verus!
