//! Static evaluations that can be plugged into a search.

use crate::game::Game;
use vstd::prelude::*;

verus! {

/// A static evaluation of the positions of the game `G`, positive when the
/// first player is ahead.
pub trait Heuristic<G: Game> {
    /// What a position is worth.
    spec fn rate(v: G::V) -> i64;

    fn eval(g: &G) -> (r: i64)
        requires
            g.inv(),
        ensures
            r == Self::rate(g@),
    ;
}

/// The evaluation that a game brings along.
pub struct Native;

impl<G: Game> Heuristic<G> for Native {
    open spec fn rate(v: G::V) -> i64 {
        G::score(v)
    }

    fn eval(g: &G) -> (r: i64) {
        g.heuristic()
    }
}

} // verus!
