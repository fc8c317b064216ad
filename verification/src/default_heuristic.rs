//! The evaluation that each game is searched with unless another is chosen.

use crate::game::{Game, State};
use crate::heuristic::Heuristic;
use crate::mancala;
use crate::othello;
use crate::tablut;
use crate::tictactoe;
use vstd::prelude::*;

verus! {

/// The usual evaluation of each of the games.
pub struct DefaultHeuristic;

impl Heuristic<tablut::Tablut> for DefaultHeuristic {
    open spec fn rate(v: tablut::Tablut) -> i64 {
        tablut::rating(v) as i64
    }

    /// A decided game counts the more the sooner it ended; one that is going
    /// counts eight for a defender, four for each square of room that the
    /// king has, and sixteen against for an attacker.
    fn eval(g: &tablut::Tablut) -> (r: i64)
        ensures
            r == tablut::rating(*g),
    {
        g.rate()
    }
}

/// What a game of tic-tac-toe is worth: one for the side that has won.
pub open spec fn ttt_rating(v: tictactoe::Ttt) -> int {
    match tictactoe::board_status(v.a) {
        State::Win => 1,
        State::Lose => -1,
        _ => 0,
    }
}

impl Heuristic<tictactoe::Ttt> for DefaultHeuristic {
    open spec fn rate(v: tictactoe::Ttt) -> i64 {
        ttt_rating(v) as i64
    }

    fn eval(g: &tictactoe::Ttt) -> (r: i64)
        ensures
            r == ttt_rating(*g),
    {
        match g.state() {
            State::Win => 1,
            State::Lose => -1,
            _ => 0,
        }
    }
}

/// What a game of Othello is worth: 256 for the side that has won, and
/// while it goes on the worth of the pieces by the cells they stand on.
pub open spec fn othello_rating(v: othello::Othello) -> int {
    match othello::outcome(v) {
        State::Win => 256,
        State::Lose => -256,
        State::Draw => 0,
        State::Going => othello::weighed(v.board, 64),
    }
}

impl Heuristic<othello::Othello> for DefaultHeuristic {
    open spec fn rate(v: othello::Othello) -> i64 {
        othello_rating(v) as i64
    }

    fn eval(g: &othello::Othello) -> (r: i64)
        ensures
            r == othello_rating(*g),
    {
        match g.state() {
            State::Win => 256,
            State::Lose => -256,
            State::Draw => 0,
            State::Going => g.weigh(),
        }
    }
}

/// What a game of Mancala is worth: 32768 for the side that has won,
/// nothing for a draw, and while it goes on the stones by the weights of
/// their pits.
pub open spec fn mancala_rating(v: mancala::Mancala) -> int {
    match mancala::outcome(v) {
        State::Win => 32768,
        State::Lose => -32768,
        State::Draw => 0,
        State::Going => mancala::weighted(v.a@, 14),
    }
}

impl Heuristic<mancala::Mancala> for DefaultHeuristic {
    open spec fn rate(v: mancala::Mancala) -> i64 {
        mancala_rating(v) as i64
    }

    fn eval(g: &mancala::Mancala) -> (r: i64)
        ensures
            r == mancala_rating(*g),
    {
        match g.state() {
            State::Win => 32768,
            State::Lose => -32768,
            State::Draw => 0,
            State::Going => g.weigh(),
        }
    }
}

} // verus!
