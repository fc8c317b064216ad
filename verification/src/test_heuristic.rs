//! An evaluation of the Tablut with draws that values where the king stands.

use crate::game::{Game, State};
use crate::heuristic::Heuristic;
use crate::tablut_with_draw::{king_below, slides, tally, tempo, Position, Tablut, Tile};
use vstd::prelude::*;

verus! {

/// What it is worth to have the king on each cell of the board.
pub const KV: [i64; 81] = [
    0, 0, 0, 0, 0, 0, 0, 0, 0,
    0, 6, 6, 1, 0, 1, 6, 6, 0,
    0, 6, 8, 2, 1, 2, 8, 6, 0,
    0, 1, 2, 2, 4, 2, 2, 1, 0,
    0, 0, 1, 4, 4, 4, 1, 0, 0,
    0, 1, 2, 2, 4, 2, 2, 1, 0,
    0, 6, 8, 2, 1, 2, 8, 6, 0,
    0, 6, 6, 1, 0, 1, 6, 6, 0,
    0, 0, 0, 0, 0, 0, 0, 0, 0,
];

/// An evaluation by material, by the slides that the pieces have and by the
/// cell of the king.
pub struct TestHeuristic;

/// What a position that is still going is worth: 24 for a defender, 12
/// against for an attacker, for each slide that a piece could make two for a
/// defender, four for the king and one against for an attacker, and four
/// times the worth of the cell of the king.
pub open spec fn placed_outlook(v: Position) -> int {
    tally(v.cells, Tile::D, 81) * 24 - tally(v.cells, Tile::A, 81) * 12 - slides(
        v.cells,
        Tile::A,
        324,
    ) + 2 * slides(v.cells, Tile::D, 324) + 4 * slides(v.cells, Tile::K, 324) - 16 + tempo(v)
        + KV[king_below(v.cells, 81)] * 4
}

/// What [`TestHeuristic`] gives: a decided game counts the more the sooner
/// it ended.
pub open spec fn placed_rating(v: Position) -> int {
    match v.state {
        State::Win => 32768 - v.turn,
        State::Lose => -32768 + v.turn,
        State::Draw => 0,
        State::Going => placed_outlook(v),
    }
}

impl Heuristic<Tablut> for TestHeuristic {
    open spec fn rate(v: Position) -> i64 {
        placed_rating(v) as i64
    }

    fn eval(g: &Tablut) -> (r: i64)
        ensures
            r == placed_rating(g@),
    {
        match g.state() {
            State::Win => 32768 - g.plies() as i64,
            State::Lose => -32768 + g.plies() as i64,
            State::Draw => 0,
            State::Going => {
                let (na, nd) = g.material();
                let (ma, md, mk) = g.mobility();
                let kp = g.king_cell();
                let tempo: i64 = if g.turn() { 1 } else { -1 };
                assert(0 <= KV[kp as int] <= 8);
                nd * 24 - na * 12 - ma + 2 * md + 4 * mk - 16 + tempo + KV[kp as usize] * 4
            },
        }
    }
}

} // verus!
