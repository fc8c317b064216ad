//! The contract between a rules engine and the search engines.
//!
//! A game is a deterministic state machine over an abstract model (its
//! view). Every executable operation is specified against that model, and
//! the rules every search relies on are obligations of the implementor.

use vstd::prelude::*;

verus! {

/// Terminal classification of a position. `Win` and `Lose` are counted for
/// the first player, the one for whom [`Game::turn`] answers `true`.
#[derive(Debug, Copy, Clone, PartialEq, Eq, Hash, Structural)]
pub enum State {
    Win,
    Lose,
    Draw,
    Going,
}

/// A two-player, perfect-information, zero-sum game with reversible moves.
pub trait Game: View + Sized {
    /// A move.
    type M;

    /// The canonical key of a position.
    type S;

    /// What is needed to take one move back.
    type R;

    /// The representation invariant of the executable state.
    spec fn inv(&self) -> bool;

    /// The initial position; `t` tells whether the first player begins.
    spec fn start(t: bool) -> Self::V;

    /// Whether the first player is to move.
    spec fn to_move(v: Self::V) -> bool;

    /// The terminal classification.
    spec fn status(v: Self::V) -> State;

    /// The legal moves, in generation order.
    spec fn moves(v: Self::V) -> Seq<Self::M>;

    /// The legal moves in the order in which a search tries them.
    spec fn moves_sorted(v: Self::V) -> Seq<Self::M>;

    /// The canonical key.
    spec fn key(v: Self::V) -> Self::S;

    /// The digest of a canonical key.
    spec fn digest(k: Self::S) -> u64;

    /// What the rules distinguish in a position.
    spec fn position(v: Self::V) -> Self::V;

    /// The static evaluation, positive when the first player is ahead.
    spec fn score(v: Self::V) -> i64;

    /// The position after a move.
    spec fn next(v: Self::V, m: Self::M) -> Self::V;

    /// The undo token that playing `m` in `v` hands out.
    spec fn token(v: Self::V, m: Self::M) -> Self::R;

    /// Whether `rb` can be applied to `v`.
    spec fn undoable(v: Self::V, rb: Self::R) -> bool;

    /// The position after taking back the move recorded in `rb`.
    spec fn prev(v: Self::V, rb: Self::R) -> Self::V;

    /// What holds of every position that play can reach.
    spec fn valid(v: Self::V) -> bool;

    /// The executable state stands for a reachable position.
    proof fn law_inv(&self)
        requires
            self.inv(),
        ensures
            Self::valid(self@),
    ;

    /// A legal move leads to a reachable position.
    proof fn law_next(v: Self::V, m: Self::M)
        requires
            Self::valid(v),
            Self::status(v) == State::Going,
            Self::moves(v).contains(m),
        ensures
            Self::valid(Self::next(v, m)),
    ;

    /// Undo is a true inverse: taking back a legal move with the token it
    /// handed out restores the position exactly.
    proof fn law_undo(v: Self::V, m: Self::M)
        requires
            Self::valid(v),
            Self::status(v) == State::Going,
            Self::moves(v).contains(m),
        ensures
            Self::undoable(Self::next(v, m), Self::token(v, m)),
            Self::prev(Self::next(v, m), Self::token(v, m)) == v,
    ;

    /// The order in which a search tries the moves holds each legal move as
    /// often as the list of the legal moves does.
    proof fn law_sorted(v: Self::V)
        requires
            Self::valid(v),
        ensures
            Self::moves_sorted(v).to_multiset() == Self::moves(v).to_multiset(),
    ;

    /// A position that is still going has a move to play.
    proof fn law_going_has_moves(v: Self::V)
        requires
            Self::valid(v),
            Self::status(v) == State::Going,
        ensures
            Self::moves(v).len() > 0,
    ;

    /// The canonical key separates exactly what the rules distinguish.
    proof fn law_key(a: Self::V, b: Self::V)
        requires
            Self::valid(a),
            Self::valid(b),
        ensures
            Self::key(a) == Self::key(b) <==> Self::position(a) == Self::position(b),
    ;

    fn new(t: bool) -> (g: Self)
        ensures
            g.inv(),
            g@ == Self::start(t),
    ;

    fn turn(&self) -> (r: bool)
        requires
            self.inv(),
        ensures
            r == Self::to_move(self@),
    ;

    fn get_moves(&self) -> (r: Vec<Self::M>)
        requires
            self.inv(),
        ensures
            r@ == Self::moves(self@),
    ;

    /// The legal moves again, the more promising first.
    fn get_moves_sorted(&self) -> (r: Vec<Self::M>)
        requires
            self.inv(),
        ensures
            r@ == Self::moves_sorted(self@),
    ;

    fn get_static_state(&self) -> (r: Self::S)
        requires
            self.inv(),
        ensures
            r == Self::key(self@),
    ;

    fn state(&self) -> (r: State)
        requires
            self.inv(),
        ensures
            r == Self::status(self@),
    ;

    fn heuristic(&self) -> (r: i64)
        requires
            self.inv(),
        ensures
            r == Self::score(self@),
    ;

    fn mov(&mut self, m: &Self::M)
        requires
            old(self).inv(),
            Self::status(old(self)@) == State::Going,
            Self::moves(old(self)@).contains(*m),
        ensures
            final(self).inv(),
            final(self)@ == Self::next(old(self)@, *m),
    ;

    fn mov_with_rollback(&mut self, m: &Self::M) -> (rb: Self::R)
        requires
            old(self).inv(),
            Self::status(old(self)@) == State::Going,
            Self::moves(old(self)@).contains(*m),
        ensures
            final(self).inv(),
            final(self)@ == Self::next(old(self)@, *m),
            rb == Self::token(old(self)@, *m),
    ;

    fn rollback(&mut self, rb: Self::R)
        requires
            old(self).inv(),
            Self::undoable(old(self)@, rb),
        ensures
            final(self).inv(),
            final(self)@ == Self::prev(old(self)@, rb),
    ;

    /// A copy of a move.
    fn copy_move(m: &Self::M) -> (r: Self::M)
        ensures
            r == *m,
    ;

    /// Equality of moves.
    fn same_move(a: &Self::M, b: &Self::M) -> (r: bool)
        ensures
            r == (*a == *b),
    ;

    /// Equality of canonical keys.
    fn same_key(a: &Self::S, b: &Self::S) -> (r: bool)
        ensures
            r == (*a == *b),
    ;

    /// A digest of a canonical key, to spread keys over a table.
    fn key_digest(k: &Self::S) -> (r: u64)
        ensures
            r == Self::digest(*k),
    ;
}

} // verus!
