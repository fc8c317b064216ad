//! Two more evaluations of the Tablut of the bitboards.

use crate::game::State;
use crate::heuristic::Heuristic;
use crate::tablut::{
    bit, count, count_cells, decided, has, inside, king_cell, king_from, lane, lane_of,
    lemma_count_bound, lemma_free_inside, lemma_king_found, lemma_on_board, Tablut, BLOCK,
    CAPTURE_AID,
};
use vstd::prelude::*;

verus! {

/// An evaluation that looks along one lane only: from the square of the king
/// up his row, with the cell that ends it counted four times where it is
/// hostile.
pub struct BuggedHeuristic;

/// The room of the king as [`BuggedHeuristic`] sees it.
pub open spec fn narrow_room(s: Tablut) -> int {
    let kp = king_from(s.k, 0) as int;
    if kp >= 121 {
        0
    } else {
        lane(!(BLOCK | (s.a | s.d)), s.a | CAPTURE_AID, kp, 1, 4)
    }
}

/// What [`BuggedHeuristic`] gives: sixteen for a defender, four for each
/// square of the lane, thirty-two against for an attacker, and one against
/// when the attackers are to move.
pub open spec fn narrow_rating(s: Tablut) -> int {
    if s.state == State::Going {
        count(s.d, 121) * 16 + narrow_room(s) * 4 - count(s.a, 121) * 32 - (s.turn & 1)
    } else {
        decided(s)
    }
}

impl Heuristic<Tablut> for BuggedHeuristic {
    open spec fn rate(v: Tablut) -> i64 {
        narrow_rating(v) as i64
    }

    fn eval(g: &Tablut) -> (r: i64)
        ensures
            r == narrow_rating(*g),
    {
        match g.state {
            State::Win => i64::MAX - g.turn as i64,
            State::Lose => i64::MIN + g.turn as i64,
            State::Draw => 0,
            State::Going => {
                let nd = count_cells(g.d);
                let na = count_cells(g.a);
                let kp = king_cell(g.k);
                let km = if kp >= 121 {
                    0
                } else {
                    proof {
                        lemma_free_inside(g.a | g.d);
                    }
                    lane_of(!(BLOCK | (g.a | g.d)), g.a | CAPTURE_AID, kp, 1, true, 4)
                };
                proof {
                    lemma_count_bound(g.d, 121);
                    lemma_count_bound(g.a, 121);
                    let t = g.turn;
                    assert(t & 1 <= 1) by (bit_vector);
                }
                nd * 16 + km * 4 - na * 32 - (g.turn & 1) as i64
            },
        }
    }
}

/// The distance of each cell of the frame from the nearest square on which
/// the king escapes; 6 outside the board.
pub const DIST: [i64; 121] = [
    6, 6, 6, 6, 6, 6, 6, 6, 6, 6, 6,
    6, 1, 0, 0, 1, 2, 1, 0, 0, 1, 6,
    6, 0, 1, 1, 2, 3, 2, 1, 1, 0, 6,
    6, 0, 1, 2, 3, 4, 3, 2, 1, 0, 6,
    6, 1, 2, 3, 4, 5, 4, 3, 2, 1, 6,
    6, 2, 3, 4, 5, 6, 5, 4, 3, 2, 6,
    6, 1, 2, 3, 4, 5, 4, 3, 2, 1, 6,
    6, 0, 1, 2, 3, 4, 3, 2, 1, 0, 6,
    6, 0, 1, 1, 2, 3, 2, 1, 1, 0, 6,
    6, 1, 0, 0, 1, 2, 1, 0, 0, 1, 6,
    6, 6, 6, 6, 6, 6, 6, 6, 6, 6, 6,
];

/// An evaluation by material, by how near the king is to an escape and by
/// how many hostile cells are next to him.
pub struct FmHeuristic;

/// One where the cell `c` is in the set `x`.
pub open spec fn one_if(x: u128, c: int) -> int {
    if 0 <= c < 121 && bit(x, c as u8) {
        1
    } else {
        0
    }
}

/// The hostile cells among the four neighbours of `c`.
pub open spec fn closed_sides(hostile: u128, c: int) -> int {
    one_if(hostile, c + 1) + one_if(hostile, c + 11) + one_if(hostile, c - 1) + one_if(
        hostile,
        c - 11,
    )
}

/// What [`FmHeuristic`] gives: 250 for a defender, 42 for each step that the
/// king is nearer to an escape than the throne is, 147 against for each
/// hostile cell next to him, 164 against for an attacker. A position without
/// a king is taken as one with the king out of reach and out of danger.
pub open spec fn fm_rating(s: Tablut) -> int {
    if s.state == State::Going {
        let kp = king_from(s.k, 0) as int;
        let km = if kp >= 121 {
            0
        } else {
            6 - DIST[kp]
        };
        let kcs = if kp >= 121 {
            0
        } else {
            closed_sides(s.a | CAPTURE_AID, kp)
        };
        250 * count(s.d, 121) + 42 * km - 147 * kcs - 164 * count(s.a, 121)
    } else {
        decided(s)
    }
}

/// One where the cell `c` is in the set `x`.
fn one(x: u128, c: u8) -> (r: i64)
    requires
        c < 121,
    ensures
        r == one_if(x, c as int),
{
    if has(x, c) {
        1
    } else {
        0
    }
}

impl Heuristic<Tablut> for FmHeuristic {
    open spec fn rate(v: Tablut) -> i64 {
        fm_rating(v) as i64
    }

    fn eval(g: &Tablut) -> (r: i64)
        ensures
            r == fm_rating(*g),
    {
        match g.state {
            State::Win => i64::MAX - g.turn as i64,
            State::Lose => i64::MIN + g.turn as i64,
            State::Draw => 0,
            State::Going => {
                let nd = count_cells(g.d);
                let na = count_cells(g.a);
                let kp = king_cell(g.k);
                proof {
                    lemma_count_bound(g.d, 121);
                    lemma_count_bound(g.a, 121);
                }
                if kp >= 121 {
                    250 * nd - 164 * na
                } else {
                    proof {
                        lemma_on_board(g.k);
                        lemma_king_found(g.k, 0);
                        assert(inside(kp));
                    }
                    let km = 6 - DIST[kp as usize];
                    let capturers = g.a | CAPTURE_AID;
                    let kcs = one(capturers, kp + 1) + one(capturers, kp + 11) + one(
                        capturers,
                        kp - 1,
                    ) + one(capturers, kp - 11);
                    assert(0 <= DIST[kp as int] <= 6);
                    250 * nd + 42 * km - 147 * kcs - 164 * na
                }
            },
        }
    }
}

} // verus!
