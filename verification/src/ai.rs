//! The contract between a search engine and whoever drives a match.

use crate::game::{Game, State};
use std::time::Duration;
use vstd::prelude::*;

verus! {

/// An agent that follows one game and picks moves under a time budget.
pub trait Ai<G: Game>: Sized {
    /// The position the agent has reached.
    spec fn game(&self) -> G::V;

    /// The invariant of the agent.
    spec fn ready(&self) -> bool;

    fn new(t: bool) -> (s: Self)
        ensures
            s.ready(),
            s.game() == G::start(t),
    ;

    fn state(&self) -> (r: State)
        requires
            self.ready(),
        ensures
            r == G::status(self.game()),
    ;

    fn turn(&self) -> (r: bool)
        requires
            self.ready(),
        ensures
            r == G::to_move(self.game()),
    ;

    /// Picks a legal move within about `tl`; the position stays as it was.
    fn get_mov(&mut self, tl: Duration) -> (m: G::M)
        requires
            old(self).ready(),
            G::status(old(self).game()) == State::Going,
        ensures
            final(self).ready(),
            final(self).game() == old(self).game(),
            G::moves(old(self).game()).contains(m),
    ;

    /// Takes note of a move made by either side.
    fn mov(&mut self, m: &G::M)
        requires
            old(self).ready(),
            G::status(old(self).game()) == State::Going,
            G::moves(old(self).game()).contains(*m),
        ensures
            final(self).ready(),
            final(self).game() == G::next(old(self).game(), *m),
    ;
}

} // verus!
