//! Tablut on bitboards.
//!
//! The nine by nine board lies inside an eleven by eleven frame: cell
//! `y * 11 + x` with `x` and `y` from 1 to 9 is a square of the board, and
//! the frame around it is never entered. A set of cells is one `u128`.
//!
//! The first player defends the king, the second attacks.
//!
//! # The rules
//!
//! A piece slides along its row or its column over free squares. The camps
//! and the throne are never slid onto, but an attacker that still stands in
//! a camp may move within the camps of its side of the board.
//!
//! A piece is taken when an enemy lands next to it and another enemy, or an
//! empty square that helps a capture, stands right behind it.
//!
//! The rule for the king comes in two variants, chosen by the field
//! `strict` of a position. On the throne and on the four squares next to it
//! the king falls only when all four squares around him are hostile;
//! anywhere else he is taken like any other piece. By the usual rule the
//! empty throne is hostile to him, so that three attackers take him next to
//! it; by the strict rule only attackers are. See [`king_after`].
//!
//! The king on an escape square wins the game for the defenders, the king
//! taken loses it, and a side that cannot move has the pass alone and loses
//! by it.

use crate::game::{Game, State};
use crate::sorting::{items, keyed, lemma_keys, lemma_sorted_by, sort_by_key, sorted_by};
use vstd::prelude::*;

verus! {

/// The camps on the low side of each axis.
pub const CITADELS_0: u128 = 0x380200008018020000000000000;

/// The camps on the high side of each axis.
pub const CITADELS_1: u128 = 0x80300200008038000;

/// Where the attackers start.
pub const START_A: u128 = 0x380200008098320200008038000;

/// Where the defenders start.
pub const START_D: u128 = 0x400806c02004000000000;

/// Where the king starts: the throne.
pub const START_K: u128 = 0x1000000000000000;

/// The throne and the four squares next to it.
pub const K_SAFETY: u128 = 0x803802000000000000;

/// The frame, the camps and the throne: what no piece slides onto.
pub const BLOCK: u128 = 0x1ffe38c2180380f93e0380308638fff;

/// The squares that help a capture while nothing stands on them.
pub const CAPTURE_AID: u128 = 0x280200008089220200008028000;

/// The squares on which the king has escaped.
pub const GOAL: u128 = 0xc620240400000000404808c6000;

/// The squares of the board.
pub const INTERIOR: u128 = 0x1ff3fe7fcff9ff3fe7fcff9ff000;

/// The move that stands for "no move can be made".
pub const PASS: (u8, u8) = (0, 0);

/// Whether cell `i` is in the set `x`.
pub open spec fn bit(x: u128, i: u8) -> bool {
    i < 128 && (x >> i) & 1 != 0
}

/// The set `x` with cell `p`.
pub open spec fn put(x: u128, p: u8) -> u128 {
    x | (1u128 << p)
}

/// The set `x` without cell `p`.
pub open spec fn take(x: u128, p: u8) -> u128 {
    x & !(1u128 << p)
}

/// Whether cell `i` is a square of the board.
pub open spec fn inside(i: u8) -> bool {
    1 <= i % 11 <= 9 && 1 <= i / 11 <= 9
}

/// Whether the set `x` holds squares of the board only.
pub open spec fn on_board(x: u128) -> bool {
    x & !INTERIOR == 0
}

/// A set on the board holds squares of the board only.
pub proof fn lemma_on_board(x: u128)
    requires
        on_board(x),
    ensures
        forall|i: u8| #[trigger] bit(x, i) ==> inside(i),
{
    assert(x & !INTERIOR == 0 ==> forall|i: u8| #[trigger]
        bit(x, i) ==> 1 <= i % 11 <= 9 && 1 <= i / 11 <= 9) by (bit_vector);
}

/// A set on the board stays on the board when a cell is taken out, and
/// loses that cell and no other.
pub proof fn lemma_take(x: u128, p: u8)
    requires
        on_board(x),
        p < 128,
    ensures
        on_board(take(x, p)),
        forall|i: u8| #[trigger] bit(take(x, p), i) == (bit(x, i) && i != p),
{
    assert(x & !INTERIOR == 0 ==> (x & !(1u128 << p)) & !INTERIOR == 0) by (bit_vector);
    assert(forall|i: u8| #[trigger]
        bit(x & !(1u128 << p), i) == (bit(x, i) && i != p)) by (bit_vector)
        requires
            p < 128,
    ;
}

/// A set on the board stays on the board when a square is put in, and gains
/// that square and no other.
pub proof fn lemma_put(x: u128, p: u8)
    requires
        on_board(x),
        inside(p),
    ensures
        on_board(put(x, p)),
        forall|i: u8| #[trigger] bit(put(x, p), i) == (bit(x, i) || i == p),
{
    assert(x & !INTERIOR == 0 && 1 <= p % 11 <= 9 && 1 <= p / 11 <= 9 ==> (x | (1u128 << p))
        & !INTERIOR == 0) by (bit_vector);
    assert(forall|i: u8| #[trigger]
        bit(x | (1u128 << p), i) == (bit(x, i) || i == p)) by (bit_vector)
        requires
            1 <= p % 11 <= 9 && 1 <= p / 11 <= 9,
    ;
}

/// A cell of the frame is never free, whichever camps are open.
pub proof fn lemma_free_inside(x: u128)
    ensures
        forall|i: u8| i < 121 && #[trigger] bit(!(BLOCK | x), i) ==> inside(i),
        forall|i: u8| i < 121 && #[trigger] bit(!((BLOCK ^ CITADELS_0) | x), i) ==> inside(i),
        forall|i: u8| i < 121 && #[trigger] bit(!((BLOCK ^ CITADELS_1) | x), i) ==> inside(i),
{
    assert((forall|i: u8|
        i < 121 && #[trigger] bit(!(BLOCK | x), i) ==> 1 <= i % 11 <= 9 && 1 <= i / 11 <= 9) && (
    forall|i: u8|
        i < 121 && #[trigger] bit(!((BLOCK ^ CITADELS_0) | x), i) ==> 1 <= i % 11 <= 9 && 1 <= i
            / 11 <= 9) && (forall|i: u8|
        i < 121 && #[trigger] bit(!((BLOCK ^ CITADELS_1) | x), i) ==> 1 <= i % 11 <= 9 && 1 <= i
            / 11 <= 9)) by (bit_vector);
}

/// A position: the three sets of pieces, the count of the moves, how the
/// game stands, and the rule for the king.
#[derive(Debug, Clone, Copy, PartialEq, Eq, Hash, Structural)]
pub struct Tablut {
    /// The attackers.
    pub a: u128,
    /// The defenders.
    pub d: u128,
    /// The king.
    pub k: u128,
    /// The moves made, counted modulo 2^32; the defenders move on even counts.
    pub turn: u32,
    pub state: State,
    /// The rule for the king by the throne: whether only attackers count
    /// among the four squares around him, and not the empty throne.
    pub strict: bool,
}

impl View for Tablut {
    type V = Tablut;

    open spec fn view(&self) -> Tablut {
        *self
    }
}

/// Whether the defenders are to move.
pub open spec fn defends(s: Tablut) -> bool {
    s.turn & 1 == 0
}

/// The pieces of the side to move.
pub open spec fn allies(s: Tablut) -> u128 {
    if defends(s) {
        s.d | s.k
    } else {
        s.a
    }
}

/// What stops the piece on `p`: the blocked squares, less the camps of its
/// own side of the board for an attacker that still stands in one.
pub open spec fn barrier(s: Tablut, p: u8) -> u128 {
    if defends(s) {
        BLOCK
    } else if bit(CITADELS_0, p) {
        BLOCK ^ CITADELS_0
    } else if bit(CITADELS_1, p) {
        BLOCK ^ CITADELS_1
    } else {
        BLOCK
    }
}

/// The squares that the piece on `p` can slide over.
pub open spec fn free(s: Tablut, p: u8) -> u128 {
    !(barrier(s, p) | (s.d | s.k | s.a))
}

/// How far cell `q` is from leaving the frame in steps of `step`.
pub open spec fn span(q: int, step: int) -> nat {
    if q < 0 || q >= 121 {
        0
    } else if step > 0 {
        (121 - q) as nat
    } else {
        (q + 1) as nat
    }
}

/// The moves of the piece on `p` that go on from cell `q` in steps of
/// `step`: one for each free cell up to the first that is not.
pub open spec fn slide(pass: u128, p: u8, q: int, step: int) -> Seq<(u8, u8)>
    decreases span(q, step),
{
    if step == 0 || q < 0 || q >= 121 || !bit(pass, q as u8) {
        Seq::empty()
    } else {
        seq![(p, q as u8)] + slide(pass, p, q + step, step)
    }
}

/// The moves of the piece on `p`: along the row upwards, along the column
/// upwards, along the row downwards, along the column downwards.
pub open spec fn piece_moves(s: Tablut, p: u8) -> Seq<(u8, u8)> {
    let f = free(s, p);
    slide(f, p, p + 1, 1) + slide(f, p, p + 11, 11) + slide(f, p, p - 1, -1) + slide(
        f,
        p,
        p - 11,
        -11,
    )
}

/// The moves of the pieces of the side to move on the cells below `n`.
pub open spec fn moves_below(s: Tablut, n: nat) -> Seq<(u8, u8)>
    decreases n,
{
    if n == 0 {
        Seq::empty()
    } else if bit(allies(s), (n - 1) as u8) {
        moves_below(s, (n - 1) as nat) + piece_moves(s, (n - 1) as u8)
    } else {
        moves_below(s, (n - 1) as nat)
    }
}

/// Every move of every piece of the side to move, the pieces taken from the
/// lowest cell up; the pass alone where there is none.
pub open spec fn all_moves(s: Tablut) -> Seq<(u8, u8)> {
    if moves_below(s, 121).len() == 0 {
        seq![PASS]
    } else {
        moves_below(s, 121)
    }
}

/// Whether every set of pieces lies on the board.
pub open spec fn well_placed(s: Tablut) -> bool {
    on_board(s.a) && on_board(s.d) && on_board(s.k)
}

/// What a sliding move is made of.
pub open spec fn sliding(s: Tablut, m: (u8, u8)) -> bool {
    &&& inside(m.0)
    &&& inside(m.1)
    &&& bit(allies(s), m.0)
    &&& bit(free(s, m.0), m.1)
}

proof fn lemma_concat_contains<T>(a: Seq<T>, b: Seq<T>, x: T)
    ensures
        (a + b).contains(x) <==> a.contains(x) || b.contains(x),
{
    if (a + b).contains(x) {
        let i = choose|i: int| 0 <= i < (a + b).len() && (a + b)[i] == x;
        if i < a.len() {
            assert(a[i] == x);
        } else {
            assert(b[i - a.len()] == x);
        }
    }
    if a.contains(x) {
        let i = choose|i: int| 0 <= i < a.len() && a[i] == x;
        assert((a + b)[i] == x);
    }
    if b.contains(x) {
        let i = choose|i: int| 0 <= i < b.len() && b[i] == x;
        assert((a + b)[i + a.len()] == x);
    }
}

proof fn lemma_slide_sound(pass: u128, p: u8, q: int, step: int, m: (u8, u8))
    requires
        slide(pass, p, q, step).contains(m),
    ensures
        m.0 == p,
        m.1 < 121,
        bit(pass, m.1),
    decreases span(q, step),
{
    if step == 0 || q < 0 || q >= 121 || !bit(pass, q as u8) {
    } else {
        let head = seq![(p, q as u8)];
        lemma_concat_contains(head, slide(pass, p, q + step, step), m);
        if head.contains(m) {
            assert(head[0] == m);
        } else {
            lemma_slide_sound(pass, p, q + step, step, m);
        }
    }
}

proof fn lemma_below_sound(s: Tablut, n: nat, m: (u8, u8))
    requires
        n <= 121,
        moves_below(s, n).contains(m),
    ensures
        m.0 < n,
        m.1 < 121,
        bit(allies(s), m.0),
        bit(free(s, m.0), m.1),
    decreases n,
{
    if n == 0 {
    } else if bit(allies(s), (n - 1) as u8) {
        let p = (n - 1) as u8;
        let f = free(s, p);
        let s1 = slide(f, p, p + 1, 1);
        let s2 = slide(f, p, p + 11, 11);
        let s3 = slide(f, p, p - 1, -1);
        let s4 = slide(f, p, p - 11, -11);
        lemma_concat_contains(moves_below(s, (n - 1) as nat), piece_moves(s, p), m);
        if moves_below(s, (n - 1) as nat).contains(m) {
            lemma_below_sound(s, (n - 1) as nat, m);
        } else {
            lemma_concat_contains(s1 + s2 + s3, s4, m);
            lemma_concat_contains(s1 + s2, s3, m);
            lemma_concat_contains(s1, s2, m);
            if s1.contains(m) {
                lemma_slide_sound(f, p, p + 1, 1, m);
            } else if s2.contains(m) {
                lemma_slide_sound(f, p, p + 11, 11, m);
            } else if s3.contains(m) {
                lemma_slide_sound(f, p, p - 1, -1, m);
            } else {
                lemma_slide_sound(f, p, p - 11, -11, m);
            }
        }
    } else {
        lemma_below_sound(s, (n - 1) as nat, m);
    }
}

/// A legal move is the pass, where nothing else can be done, or the slide of
/// a piece of the side to move from one square of the board to another.
pub proof fn lemma_moves_sound(s: Tablut, m: (u8, u8))
    requires
        well_placed(s),
        all_moves(s).contains(m),
    ensures
        m == PASS || sliding(s, m),
        m == PASS <==> m.0 == 0,
{
    if moves_below(s, 121).len() == 0 {
        assert(seq![PASS][0] == m);
    } else {
        lemma_below_sound(s, 121, m);
        lemma_on_board(s.a);
        lemma_on_board(s.d);
        lemma_on_board(s.k);
        lemma_free_inside(s.d | s.k | s.a);
        assert(bit(s.d | s.k, m.0) ==> bit(s.d, m.0) || bit(s.k, m.0)) by {
            let d = s.d;
            let k = s.k;
            let i = m.0;
            assert(bit(d | k, i) ==> bit(d, i) || bit(k, i)) by (bit_vector);
        }
    }
}

/// Whether cell `i` is in the set `x`.
pub fn has(x: u128, i: u8) -> (r: bool)
    requires
        i < 128,
    ensures
        r == bit(x, i),
{
    (x >> i) & 1 != 0
}

/// Appends the moves of the piece on `p` that go on from cell `q`, upwards
/// or downwards in steps of `stride`.
fn slide_into(ans: &mut Vec<(u8, u8)>, pass: u128, p: u8, q: u8, stride: u8, up: bool)
    requires
        q < 121,
        stride == 1 || stride == 11,
        forall|i: u8| i < 121 && #[trigger] bit(pass, i) ==> inside(i),
    ensures
        final(ans)@ == old(ans)@ + slide(
            pass,
            p,
            q as int,
            if up {
                stride as int
            } else {
                -(stride as int)
            },
        ),
{
    let ghost step: int = if up { stride as int } else { -(stride as int) };
    let ghost goal = ans@ + slide(pass, p, q as int, step);
    let mut i: u8 = q;
    assert(ans@ + slide(pass, p, i as int, step) =~= goal);
    while has(pass, i)
        invariant
            i < 121,
            stride == 1 || stride == 11,
            step == (if up {
                stride as int
            } else {
                -(stride as int)
            }),
            forall|j: u8| j < 121 && #[trigger] bit(pass, j) ==> inside(j),
            ans@ + slide(pass, p, i as int, step) == goal,
        decreases
                (if up {
                    121 - i
                } else {
                    i + 1
                }),
    {
        let ghost before = ans@;
        ans.push((p, i));
        proof {
            assert(inside(i));
            let rest = slide(pass, p, i + step, step);
            assert(before + (seq![(p, i)] + rest) =~= before.push((p, i)) + rest);
        }
        if up {
            i = i + stride;
        } else {
            i = i - stride;
        }
    }
    proof {
        assert(slide(pass, p, i as int, step) =~= Seq::empty());
        assert(ans@ + Seq::<(u8, u8)>::empty() =~= ans@);
    }
}

impl Tablut {
    /// The start of a game under the rule for the king that `strict` names.
    pub fn with_king_rule(t: bool, strict: bool) -> (g: Self)
        ensures
            g == (Tablut { strict, ..opening(t) }),
            well_placed(g),
    {
        assert(on_board(START_A) && on_board(START_D) && on_board(START_K)) by (bit_vector);
        Tablut {
            a: START_A,
            d: START_D,
            k: START_K,
            turn: if t {
                0
            } else {
                1
            },
            state: State::Going,
            strict,
        }
    }

    /// Whether every set of pieces lies on the board.
    pub fn placed_well(&self) -> (r: bool)
        ensures
            r == well_placed(*self),
    {
        self.a & !INTERIOR == 0 && self.d & !INTERIOR == 0 && self.k & !INTERIOR == 0
    }

    /// The squares that the piece on `p` can slide over.
    fn free_for(&self, p: u8) -> (r: u128)
        requires
            p < 128,
        ensures
            r == free(*self, p),
    {
        let pawns = self.d | self.k | self.a;
        let stop = if self.turn & 1 == 0 {
            BLOCK
        } else if has(CITADELS_0, p) {
            BLOCK ^ CITADELS_0
        } else if has(CITADELS_1, p) {
            BLOCK ^ CITADELS_1
        } else {
            BLOCK
        };
        !(stop | pawns)
    }

    /// The legal moves in a position whose pieces lie on the board.
    pub fn list_moves(&self) -> (r: Vec<(u8, u8)>)
        requires
            well_placed(*self),
        ensures
            r@ == all_moves(*self),
    {
        let mut ans: Vec<(u8, u8)> = Vec::with_capacity(96);
        let own = if self.turn & 1 == 0 { self.d | self.k } else { self.a };
        proof {
            lemma_on_board(self.a);
            lemma_on_board(self.d);
            lemma_on_board(self.k);
            lemma_free_inside(self.d | self.k | self.a);
            assert(forall|i: u8| #[trigger] bit(self.d | self.k, i) ==> inside(i)) by {
                let d = self.d;
                let k = self.k;
                assert(forall|i: u8| #[trigger]
                    bit(d | k, i) ==> bit(d, i) || bit(k, i)) by (bit_vector);
            }
        }
        let mut p: u8 = 0;
        while p < 121
            invariant
                p <= 121,
                own == allies(*self),
                ans@ == moves_below(*self, p as nat),
                forall|i: u8| #[trigger] bit(own, i) ==> inside(i),
                forall|i: u8, q: u8|
                    i < 121 && #[trigger] bit(free(*self, q), i) ==> inside(i),
            decreases 121 - p,
        {
            if has(own, p) {
                let pass = self.free_for(p);
                let ghost base = ans@;
                assert(inside(p));
                slide_into(&mut ans, pass, p, p + 1, 1, true);
                slide_into(&mut ans, pass, p, p + 11, 11, true);
                slide_into(&mut ans, pass, p, p - 1, 1, false);
                slide_into(&mut ans, pass, p, p - 11, 11, false);
                assert(ans@ =~= base + piece_moves(*self, p));
            }
            p += 1;
        }
        if ans.len() == 0 {
            ans.push(PASS);
            assert(ans@ =~= seq![PASS]);
        }
        ans
    }
}

/// The set `victims` after a piece has landed on `to`, as far as the
/// neighbour of `to` in one direction goes: it leaves where a capturer
/// stands right behind it. `near` is that neighbour and `far` the cell behind.
pub open spec fn struck(victims: u128, capturers: u128, near: int, far: int) -> u128 {
    if 0 <= near < 121 && 0 <= far < 121 && bit(capturers, far as u8) {
        take(victims, near as u8)
    } else {
        victims
    }
}

/// The set `victims` after a piece has landed on `to`: each neighbour of
/// `to` that has a capturer right behind it leaves.
pub open spec fn captured(victims: u128, capturers: u128, to: u8) -> u128 {
    let v1 = struck(victims, capturers, to + 1, to + 2);
    let v2 = struck(v1, capturers, to + 11, to + 22);
    let v3 = struck(v2, capturers, to - 1, to - 2);
    struck(v3, capturers, to - 11, to - 22)
}

/// Whether the king stands next to `to`.
pub open spec fn beside(k: u128, to: u8) -> bool {
    bit(k, (to + 1) as u8) || bit(k, (to + 11) as u8) || bit(k, (to - 1) as u8) || bit(
        k,
        (to - 11) as u8,
    )
}

/// The neighbour of `to` on which the king stands.
pub open spec fn king_beside(k: u128, to: u8) -> u8 {
    if bit(k, (to + 1) as u8) {
        (to + 1) as u8
    } else if bit(k, (to + 11) as u8) {
        (to + 11) as u8
    } else if bit(k, (to - 1) as u8) {
        (to - 1) as u8
    } else {
        (to - 11) as u8
    }
}

/// Whether all four neighbours of `c` are capturers.
pub open spec fn surrounded(capturers: u128, c: u8) -> bool {
    bit(capturers, (c + 1) as u8) && bit(capturers, (c + 11) as u8) && bit(
        capturers,
        (c - 1) as u8,
    ) && bit(capturers, (c - 11) as u8)
}

/// The king after an attacker has landed on `to`. On the throne or next to
/// it the king falls only when all four squares around him are held by
/// `besiegers`; anywhere else he is taken like any other piece, by the
/// `capturers`. The besiegers are the capturers by the usual rule, so that
/// the empty throne stands for the fourth attacker, and the attackers alone
/// by the strict rule.
pub open spec fn king_after(k: u128, capturers: u128, besiegers: u128, to: u8) -> u128 {
    if !beside(k, to) {
        k
    } else if k & K_SAFETY != 0 {
        if surrounded(besiegers, king_beside(k, to)) {
            0
        } else {
            k
        }
    } else {
        captured(k, capturers, to)
    }
}

/// The squares that help a capture: those marked for it on which nothing
/// stands.
pub open spec fn helpers(a: u128, d: u128, k: u128) -> u128 {
    CAPTURE_AID & !(a | d | k)
}

/// The classification that follows from where the king is.
pub open spec fn outcome(k: u128) -> State {
    if k == 0 {
        State::Lose
    } else if k & GOAL != 0 {
        State::Win
    } else {
        State::Going
    }
}

/// The count of moves after one more.
pub open spec fn bump(turn: u32) -> u32 {
    if turn == u32::MAX {
        0
    } else {
        (turn + 1) as u32
    }
}

/// The position after the move `m`. The pass loses the game for the side
/// that has to make it. Any other move slides a piece, takes the enemy
/// pieces it closes in on, and hands the turn over.
pub open spec fn after(s: Tablut, m: (u8, u8)) -> Tablut {
    if m.0 == 0 {
        Tablut {
            state: if defends(s) {
                State::Lose
            } else {
                State::Win
            },
            ..s
        }
    } else if defends(s) {
        let d1 = if bit(s.d, m.0) {
            put(take(s.d, m.0), m.1)
        } else {
            s.d
        };
        let k1 = if bit(s.d, m.0) {
            s.k
        } else {
            put(take(s.k, m.0), m.1)
        };
        let a1 = captured(s.a, d1 | k1 | helpers(s.a, d1, k1), m.1);
        Tablut { a: a1, d: d1, k: k1, turn: bump(s.turn), state: outcome(k1), ..s }
    } else {
        let a1 = put(take(s.a, m.0), m.1);
        let cap = a1 | helpers(a1, s.d, s.k);
        let d1 = captured(s.d, cap, m.1);
        let k1 = king_after(
            s.k,
            cap,
            if s.strict {
                a1
            } else {
                cap
            },
            m.1,
        );
        Tablut { a: a1, d: d1, k: k1, turn: bump(s.turn), state: outcome(k1), ..s }
    }
}

/// The start of a game, with the usual rule for the king.
pub open spec fn opening(t: bool) -> Tablut {
    Tablut {
        a: START_A,
        d: START_D,
        k: START_K,
        turn: if t {
            0
        } else {
            1
        },
        state: State::Going,
        strict: false,
    }
}

proof fn lemma_struck(victims: u128, capturers: u128, near: int, far: int)
    requires
        on_board(victims),
    ensures
        on_board(struck(victims, capturers, near, far)),
{
    if 0 <= near < 121 {
        lemma_take(victims, near as u8);
    }
}

proof fn lemma_captured(victims: u128, capturers: u128, to: u8)
    requires
        on_board(victims),
    ensures
        on_board(captured(victims, capturers, to)),
{
    let v1 = struck(victims, capturers, to + 1, to + 2);
    let v2 = struck(v1, capturers, to + 11, to + 22);
    let v3 = struck(v2, capturers, to - 1, to - 2);
    lemma_struck(victims, capturers, to + 1, to + 2);
    lemma_struck(v1, capturers, to + 11, to + 22);
    lemma_struck(v2, capturers, to - 1, to - 2);
    lemma_struck(v3, capturers, to - 11, to - 22);
}

proof fn lemma_relocate(x: u128, from: u8, to: u8)
    requires
        on_board(x),
        inside(from),
        inside(to),
    ensures
        on_board(put(take(x, from), to)),
{
    lemma_take(x, from);
    lemma_put(take(x, from), to);
}

/// The turn passes with every move that is not the pass.
pub proof fn lemma_turn_passes(s: Tablut, m: (u8, u8))
    requires
        m.0 != 0,
    ensures
        defends(after(s, m)) == !defends(s),
{
    let t = s.turn;
    assert(bump(t) & 1 == 0 <==> t & 1 != 0) by {
        assert(t < u32::MAX ==> (((t + 1) as u32) & 1 == 0 <==> t & 1 != 0)) by (bit_vector);
        assert(0xffff_ffffu32 & 1 != 0 && 0u32 & 1 == 0) by (bit_vector);
    }
}

/// A legal move leaves every piece on the board.
pub proof fn lemma_after_placed(s: Tablut, m: (u8, u8))
    requires
        well_placed(s),
        all_moves(s).contains(m),
    ensures
        well_placed(after(s, m)),
{
    lemma_moves_sound(s, m);
    if m.0 != 0 {
        if defends(s) {
            lemma_relocate(s.d, m.0, m.1);
            lemma_relocate(s.k, m.0, m.1);
            let n = after(s, m);
            lemma_captured(s.a, n.d | n.k | helpers(s.a, n.d, n.k), m.1);
        } else {
            lemma_relocate(s.a, m.0, m.1);
            let a1 = put(take(s.a, m.0), m.1);
            let cap = a1 | helpers(a1, s.d, s.k);
            lemma_captured(s.d, cap, m.1);
            lemma_captured(s.k, cap, m.1);
            assert(on_board(0u128)) by (bit_vector);
        }
    }
}

/// The set `victims` less the neighbour `near` of a landing square, where a
/// capturer stands on `far` right behind it.
fn strike(victims: u128, capturers: u128, near: u8, far: u8) -> (r: u128)
    requires
        near < 121,
        far < 121,
    ensures
        r == struck(victims, capturers, near as int, far as int),
{
    if has(capturers, far) {
        victims & !(1u128 << near)
    } else {
        victims
    }
}

/// The set `victims` after a piece has landed on `to`.
fn capture(victims: u128, capturers: u128, to: u8) -> (r: u128)
    requires
        inside(to),
    ensures
        r == captured(victims, capturers, to),
{
    let mut v = strike(victims, capturers, to + 1, to + 2);
    if to + 22 < 121 {
        v = strike(v, capturers, to + 11, to + 22);
    }
    v = strike(v, capturers, to - 1, to - 2);
    if to >= 22 {
        v = strike(v, capturers, to - 11, to - 22);
    }
    v
}

/// The king after an attacker has landed on `to`.
fn king_struck(k: u128, capturers: u128, besiegers: u128, to: u8) -> (r: u128)
    requires
        inside(to),
        on_board(k),
    ensures
        r == king_after(k, capturers, besiegers, to),
{
    proof {
        lemma_on_board(k);
    }
    let c = if has(k, to + 1) {
        to + 1
    } else if has(k, to + 11) {
        to + 11
    } else if has(k, to - 1) {
        to - 1
    } else if has(k, to - 11) {
        to - 11
    } else {
        return k;
    };
    if k & K_SAFETY != 0 {
        if has(besiegers, c + 1) && has(besiegers, c + 11) && has(besiegers, c - 1) && has(
            besiegers,
            c - 11,
        ) {
            0
        } else {
            k
        }
    } else {
        capture(k, capturers, to)
    }
}

/// The number of cells below `n` in the set `x`.
pub open spec fn count(x: u128, n: nat) -> nat
    decreases n,
{
    if n == 0 {
        0
    } else if bit(x, (n - 1) as u8) {
        count(x, (n - 1) as nat) + 1
    } else {
        count(x, (n - 1) as nat)
    }
}

/// The lowest cell from `i` on that is in the set `k`, 121 if there is none.
pub open spec fn king_from(k: u128, i: nat) -> nat
    decreases 121 - i,
{
    if i >= 121 {
        121
    } else if bit(k, i as u8) {
        i
    } else {
        king_from(k, i + 1)
    }
}

/// The free cells from `q` on in steps of `step`, less `fine` where the cell
/// that ends the run is hostile.
pub open spec fn lane(pass: u128, hostile: u128, q: int, step: int, fine: int) -> int
    decreases span(q, step),
{
    if step == 0 || q < 0 || q >= 121 || !bit(pass, q as u8) {
        if 0 <= q < 121 && bit(hostile, q as u8) {
            -fine
        } else {
            0
        }
    } else {
        1 + lane(pass, hostile, q + step, step, fine)
    }
}

/// The room of the king: the lanes that lead away from him, the first of
/// them counted from his own square.
pub open spec fn king_room(s: Tablut) -> int {
    let kp = king_from(s.k, 0) as int;
    let pass = !(BLOCK | (s.a | s.d));
    let hostile = s.a | CAPTURE_AID;
    if kp >= 121 {
        0
    } else {
        lane(pass, hostile, kp, 1, 1) + lane(pass, hostile, kp + 11, 11, 1) + lane(
            pass,
            hostile,
            kp - 1,
            -1,
            1,
        ) + lane(pass, hostile, kp - 11, -11, 1)
    }
}

/// The value of a position that is decided: the sooner the better for the
/// side that has won.
pub open spec fn decided(s: Tablut) -> int {
    match s.state {
        State::Win => i64::MAX - s.turn,
        State::Lose => i64::MIN + s.turn,
        _ => 0,
    }
}

/// The static evaluation: eight for a defender, four for each square of
/// room the king has, sixteen against for an attacker.
pub open spec fn rating(s: Tablut) -> int {
    if s.state == State::Going {
        count(s.d, 121) * 8 + king_room(s) * 4 - count(s.a, 121) * 16
    } else {
        decided(s)
    }
}

/// No more cells below `n` are in a set than there are.
pub proof fn lemma_count_bound(x: u128, n: nat)
    ensures
        count(x, n) <= n,
    decreases n,
{
    if n > 0 {
        lemma_count_bound(x, (n - 1) as nat);
    }
}

proof fn lemma_lane_bound(pass: u128, hostile: u128, q: int, step: int, fine: int)
    requires
        fine >= 0,
    ensures
        -fine <= lane(pass, hostile, q, step, fine) <= span(q, step),
    decreases span(q, step),
{
    if step == 0 || q < 0 || q >= 121 || !bit(pass, q as u8) {
    } else {
        lemma_lane_bound(pass, hostile, q + step, step, fine);
    }
}

/// The number of cells in the set `x`.
pub fn count_cells(x: u128) -> (r: i64)
    ensures
        r == count(x, 121),
{
    let mut n: i64 = 0;
    let mut i: u8 = 0;
    while i < 121
        invariant
            i <= 121,
            0 <= n <= i,
            n == count(x, i as nat),
        decreases 121 - i,
    {
        if has(x, i) {
            n += 1;
        }
        i += 1;
    }
    n
}

/// The lowest cell in the set `k`, 121 if it is empty.
pub fn king_cell(k: u128) -> (r: u8)
    ensures
        r == king_from(k, 0),
        r <= 121,
{
    let mut i: u8 = 0;
    while i < 121
        invariant
            i <= 121,
            king_from(k, i as nat) == king_from(k, 0),
        decreases 121 - i,
    {
        if has(k, i) {
            return i;
        }
        i += 1;
    }
    121
}

/// The free cells from `q` on, less `fine` where the run ends on a hostile
/// cell.
pub fn lane_of(pass: u128, hostile: u128, q: u8, stride: u8, up: bool, fine: u8) -> (r: i64)
    requires
        q < 121,
        stride == 1 || stride == 11,
        forall|i: u8| i < 121 && #[trigger] bit(pass, i) ==> inside(i),
    ensures
        r == lane(
            pass,
            hostile,
            q as int,
            if up {
                stride as int
            } else {
                -(stride as int)
            },
            fine as int,
        ),
        -fine <= r <= 121,
{
    let ghost step: int = if up { stride as int } else { -(stride as int) };
    let mut i: u8 = q;
    let mut n: i64 = 0;
    proof {
        lemma_lane_bound(pass, hostile, q as int, step, fine as int);
    }
    while has(pass, i)
        invariant
            i < 121,
            stride == 1 || stride == 11,
            step == (if up {
                stride as int
            } else {
                -(stride as int)
            }),
            forall|j: u8| j < 121 && #[trigger] bit(pass, j) ==> inside(j),
            0 <= n,
            n + lane(pass, hostile, i as int, step, fine as int) == lane(
                pass,
                hostile,
                q as int,
                step,
                fine as int,
            ),
            lane(pass, hostile, q as int, step, fine as int) <= 121,
        decreases span(i as int, step),
    {
        proof {
            assert(inside(i));
            lemma_lane_bound(pass, hostile, i + step, step, fine as int);
        }
        if up {
            i = i + stride;
        } else {
            i = i - stride;
        }
        n += 1;
    }
    if has(hostile, i) {
        n - fine as i64
    } else {
        n
    }
}

impl Tablut {
    /// The room of the king.
    fn room(&self) -> (r: i64)
        requires
            well_placed(*self),
        ensures
            r == king_room(*self),
            -4 <= r <= 484,
    {
        let kp = king_cell(self.k);
        if kp >= 121 {
            return 0;
        }
        let pass = !(BLOCK | (self.a | self.d));
        let hostile = self.a | CAPTURE_AID;
        proof {
            lemma_on_board(self.k);
            lemma_free_inside(self.a | self.d);
            lemma_king_found(self.k, 0);
        }
        lane_of(pass, hostile, kp, 1, true, 1) + lane_of(pass, hostile, kp + 11, 11, true, 1)
            + lane_of(pass, hostile, kp - 1, 1, false, 1) + lane_of(
            pass,
            hostile,
            kp - 11,
            11,
            false,
            1,
        )
    }

    /// The static evaluation.
    pub fn rate(&self) -> (r: i64)
        requires
            well_placed(*self),
        ensures
            r == rating(*self),
    {
        match self.state {
            State::Win => i64::MAX - self.turn as i64,
            State::Lose => i64::MIN + self.turn as i64,
            State::Draw => 0,
            State::Going => {
                let nd = count_cells(self.d);
                let na = count_cells(self.a);
                let km = self.room();
                proof {
                    lemma_count_bound(self.d, 121);
                    lemma_count_bound(self.a, 121);
                }
                nd * 8 + km * 4 - na * 16
            },
        }
    }
}

/// The cell found for the king holds the king.
pub proof fn lemma_king_found(k: u128, i: nat)
    ensures
        king_from(k, i) < 121 ==> bit(k, king_from(k, i) as u8),
        i <= 121 ==> i <= king_from(k, i) <= 121,
    decreases 121 - i,
{
    if i < 121 && !bit(k, i as u8) {
        lemma_king_found(k, i + 1);
    }
}

/// How many squares a move crosses.
pub open spec fn reach(m: (u8, u8)) -> int {
    let dif = if m.0 > m.1 {
        m.0 - m.1
    } else {
        m.1 - m.0
    };
    if dif >= 11 {
        dif / 11
    } else {
        dif
    }
}

/// The place of a reach in the order in which the defenders try their moves.
pub open spec fn rank_d(dist: int) -> int {
    if dist == 1 {
        4
    } else if dist == 2 {
        5
    } else if dist == 3 {
        3
    } else if dist == 4 {
        6
    } else if dist == 5 {
        7
    } else if dist == 6 {
        2
    } else if dist == 7 {
        1
    } else if dist == 8 {
        0
    } else {
        9
    }
}

/// The place of a reach in the order in which the attackers try their moves.
pub open spec fn rank_a(dist: int) -> int {
    if dist == 1 {
        5
    } else if dist == 2 {
        2
    } else if dist == 3 {
        4
    } else if dist == 4 {
        3
    } else if dist == 5 {
        7
    } else if dist == 6 {
        1
    } else if dist == 7 {
        6
    } else if dist == 8 {
        0
    } else {
        9
    }
}

/// The key by which the moves are ordered, the lower the sooner: the place
/// of the reach, and eight more for a move that does not concern the king,
/// which for the defenders is one of another piece and for the attackers
/// one that does not end next to him.
pub open spec fn order_key(s: Tablut, m: (u8, u8)) -> int {
    if !inside(m.0) || !inside(m.1) {
        0
    } else if defends(s) {
        rank_d(reach(m)) + if bit(s.k, m.0) {
            0int
        } else {
            8int
        }
    } else {
        rank_a(reach(m)) + if beside(s.k, m.1) {
            0int
        } else {
            8int
        }
    }
}

/// Whether `r` holds the moves in ascending order of their keys.
pub open spec fn ordered(s: Tablut, r: Seq<(u8, u8)>) -> bool {
    forall|i: int, j: int| 0 <= i <= j < r.len() ==> order_key(s, r[i]) <= order_key(s, r[j])
}

/// Whether a cell is a square of the board.
fn is_inside(i: u8) -> (r: bool)
    ensures
        r == inside(i),
{
    1 <= i % 11 && i % 11 <= 9 && 1 <= i / 11 && i / 11 <= 9
}

/// The place of a reach in the order in which a side tries its moves.
pub fn rank_of(attacking: bool, dist: u8) -> (r: i64)
    ensures
        r == (if attacking {
            rank_a(dist as int)
        } else {
            rank_d(dist as int)
        }),
        0 <= r <= 9,
{
    if attacking {
        if dist == 1 {
            5
        } else if dist == 2 {
            2
        } else if dist == 3 {
            4
        } else if dist == 4 {
            3
        } else if dist == 5 {
            7
        } else if dist == 6 {
            1
        } else if dist == 7 {
            6
        } else if dist == 8 {
            0
        } else {
            9
        }
    } else {
        if dist == 1 {
            4
        } else if dist == 2 {
            5
        } else if dist == 3 {
            3
        } else if dist == 4 {
            6
        } else if dist == 5 {
            7
        } else if dist == 6 {
            2
        } else if dist == 7 {
            1
        } else if dist == 8 {
            0
        } else {
            9
        }
    }
}

impl Tablut {
    /// The key by which `m` is ordered.
    pub fn key_of(&self, m: &(u8, u8)) -> (r: i64)
        ensures
            r == order_key(*self, *m),
    {
        if !is_inside(m.0) || !is_inside(m.1) {
            return 0;
        }
        let dif = if m.0 > m.1 { m.0 - m.1 } else { m.1 - m.0 };
        let dist = if dif >= 11 { dif / 11 } else { dif };
        if self.turn & 1 == 0 {
            let base = rank_of(false, dist);
            if has(self.k, m.0) {
                base
            } else {
                base + 8
            }
        } else {
            let base = rank_of(true, dist);
            let to = m.1;
            if has(self.k, to + 1) || has(self.k, to + 11) || has(self.k, to - 1) || has(
                self.k,
                to - 11,
            ) {
                base
            } else {
                base + 8
            }
        }
    }
}

impl Default for Tablut {
    fn default() -> (r: Self)
        ensures
            r == opening(true),
    {
        Tablut { a: START_A, d: START_D, k: START_K, turn: 0, state: State::Going, strict: false }
    }
}

impl Game for Tablut {
    type M = (u8, u8);

    type S = (u128, u128, u128, bool);

    type R = Tablut;

    open spec fn inv(&self) -> bool {
        well_placed(*self)
    }

    open spec fn start(t: bool) -> Tablut {
        opening(t)
    }

    open spec fn to_move(v: Tablut) -> bool {
        defends(v)
    }

    open spec fn status(v: Tablut) -> State {
        v.state
    }

    open spec fn moves(v: Tablut) -> Seq<(u8, u8)> {
        all_moves(v)
    }

    open spec fn moves_sorted(v: Tablut) -> Seq<(u8, u8)> {
        sorted_by(all_moves(v), |m: (u8, u8)| order_key(v, m))
    }

    /// The pieces and the side to move: neither the count of the moves
    /// nor the variant that is played is part of the key.
    open spec fn key(v: Tablut) -> (u128, u128, u128, bool) {
        (v.a, v.d, v.k, defends(v))
    }

    open spec fn digest(k: (u128, u128, u128, bool)) -> u64 {
        (((k.0 % 0x1_0000_0000) * 0x1_0000_0000 + (k.1 % 0x1_0000_0000) + ((k.2 % 0x1_0000) * 2
            + (if k.3 {
            0int
        } else {
            1int
        })) * 31) % 0x1_0000_0000_0000_0000) as u64
    }

    /// The pieces and the side to move, as a position before the first
    /// move.
    open spec fn position(v: Tablut) -> Tablut {
        Tablut {
            a: v.a,
            d: v.d,
            k: v.k,
            turn: if defends(v) {
                0
            } else {
                1
            },
            state: State::Going,
            strict: false,
        }
    }

    open spec fn score(v: Tablut) -> i64 {
        rating(v) as i64
    }

    open spec fn next(v: Tablut, m: (u8, u8)) -> Tablut {
        after(v, m)
    }

    open spec fn token(v: Tablut, m: (u8, u8)) -> Tablut {
        v
    }

    open spec fn undoable(v: Tablut, rb: Tablut) -> bool {
        well_placed(rb)
    }

    open spec fn prev(v: Tablut, rb: Tablut) -> Tablut {
        rb
    }

    open spec fn valid(v: Tablut) -> bool {
        well_placed(v)
    }

    proof fn law_inv(&self) {
    }

    proof fn law_next(v: Tablut, m: (u8, u8)) {
        lemma_after_placed(v, m);
    }

    proof fn law_undo(v: Tablut, m: (u8, u8)) {
    }

    proof fn law_sorted(v: Tablut) {
        lemma_sorted_by(all_moves(v), |m: (u8, u8)| order_key(v, m));
    }

    proof fn law_going_has_moves(v: Tablut) {
    }

    proof fn law_key(a: Tablut, b: Tablut) {
    }

    fn new(t: bool) -> (g: Self) {
        assert(on_board(START_A) && on_board(START_D) && on_board(START_K)) by (bit_vector);
        Tablut {
            a: START_A,
            d: START_D,
            k: START_K,
            turn: if t {
                0
            } else {
                1
            },
            state: State::Going,
            strict: false,
        }
    }

    fn turn(&self) -> (r: bool) {
        self.turn & 1 == 0
    }

    fn get_moves(&self) -> (r: Vec<(u8, u8)>) {
        self.list_moves()
    }

    /// The legal moves in ascending order of their keys, moves with the
    /// same key in the order in which they are generated.
    fn get_moves_sorted(&self) -> (r: Vec<(u8, u8)>)
        ensures
            ordered(*self, r@),
    {
        let moves = self.list_moves();
        let ghost key = |m: (u8, u8)| order_key(*self, m);
        let ghost goal = keyed(moves@, key);
        let mut pairs: Vec<(i64, (u8, u8))> = Vec::with_capacity(moves.len());
        let mut i: usize = 0;
        while i < moves.len()
            invariant
                i <= moves.len(),
                goal == keyed(moves@, key),
                key == (|m: (u8, u8)| order_key(*self, m)),
                pairs@ == goal.subrange(0, i as int),
            decreases moves.len() - i,
        {
            pairs.push((self.key_of(&moves[i]), moves[i]));
            assert(pairs@ =~= goal.subrange(0, i + 1));
            i += 1;
        }
        assert(pairs@ =~= goal);
        let sorted = sort_by_key(pairs);
        let mut ans: Vec<(u8, u8)> = Vec::with_capacity(sorted.len());
        let mut j: usize = 0;
        while j < sorted.len()
            invariant
                j <= sorted.len(),
                ans@ == items(sorted@).subrange(0, j as int),
            decreases sorted.len() - j,
        {
            ans.push(sorted[j].1);
            assert(ans@ =~= items(sorted@).subrange(0, j + 1));
            j += 1;
        }
        assert(ans@ =~= items(sorted@));
        proof {
            lemma_keys(goal, sorted@, key);
            assert forall|x: int, y: int| 0 <= x <= y < ans@.len() implies order_key(
                *self,
                ans@[x],
            ) <= order_key(*self, ans@[y]) by {
                assert(sorted@[x].0 <= sorted@[y].0);
                assert(sorted@[x].0 == key(sorted@[x].1) as i64);
                assert(sorted@[y].0 == key(sorted@[y].1) as i64);
                assert(0 <= order_key(*self, ans@[x]) <= 17);
                assert(0 <= order_key(*self, ans@[y]) <= 17);
            }
        }
        ans
    }

    fn get_static_state(&self) -> (r: (u128, u128, u128, bool)) {
        (self.a, self.d, self.k, self.turn & 1 == 0)
    }

    fn state(&self) -> (r: State) {
        self.state
    }

    fn heuristic(&self) -> (r: i64)
        ensures
            r == rating(self@),
    {
        self.rate()
    }

    fn mov(&mut self, m: &(u8, u8)) {
        proof {
            lemma_moves_sound(*self, *m);
            lemma_after_placed(*self, *m);
        }
        if m.0 == 0 {
            self.state = if self.turn & 1 == 0 {
                State::Lose
            } else {
                State::Win
            };
            return ;
        }
        let from = m.0;
        let to = m.1;
        if self.turn & 1 == 0 {
            if has(self.d, from) {
                self.d = (self.d & !(1u128 << from)) | (1u128 << to);
            } else {
                self.k = (self.k & !(1u128 << from)) | (1u128 << to);
            }
            let cap = self.d | self.k | (CAPTURE_AID & !(self.a | self.d | self.k));
            self.a = capture(self.a, cap, to);
        } else {
            self.a = (self.a & !(1u128 << from)) | (1u128 << to);
            let cap = self.a | (CAPTURE_AID & !(self.a | self.d | self.k));
            self.d = capture(self.d, cap, to);
            self.k = king_struck(self.k, cap, if self.strict { self.a } else { cap }, to);
        }
        self.turn = self.turn.wrapping_add(1);
        self.state = if self.k == 0 {
            State::Lose
        } else if self.k & GOAL != 0 {
            State::Win
        } else {
            State::Going
        };
    }

    fn mov_with_rollback(&mut self, m: &(u8, u8)) -> (rb: Tablut) {
        let t = *self;
        self.mov(m);
        t
    }

    fn rollback(&mut self, rb: Tablut) {
        *self = rb;
    }

    fn copy_move(m: &(u8, u8)) -> (r: (u8, u8)) {
        *m
    }

    fn same_move(a: &(u8, u8), b: &(u8, u8)) -> (r: bool) {
        a.0 == b.0 && a.1 == b.1
    }

    fn same_key(a: &(u128, u128, u128, bool), b: &(u128, u128, u128, bool)) -> (r: bool) {
        a.0 == b.0 && a.1 == b.1 && a.2 == b.2 && a.3 == b.3
    }

    fn key_digest(k: &(u128, u128, u128, bool)) -> (r: u64) {
        let x = (k.0 % 0x1_0000_0000) * 0x1_0000_0000 + (k.1 % 0x1_0000_0000);
        let side: u128 = if k.3 { 0 } else { 1 };
        let y = (k.2 % 0x1_0000) * 2 + side;
        ((x + y * 31) % 0x1_0000_0000_0000_0000) as u64
    }
}

} // verus!
