//! Mancala on two rows of six pits and two stores.
//!
//! The pits 0 to 5 and the store 6 belong to the first player, the pits 7
//! to 12 and the store 13 to the second. Stones are sown pit by pit in the
//! order of the numbers, past the store of the opponent.

use crate::game::{Game, State};
use vstd::prelude::*;

verus! {

/// A position: the stones in the fourteen pits, and who is to move.
#[derive(Debug, Hash, Clone, PartialEq, Eq)]
pub struct Mancala {
    pub a: [u8; 14],
    pub turn: bool,
}

impl View for Mancala {
    type V = Mancala;

    open spec fn view(&self) -> Mancala {
        *self
    }
}

/// What each pit weighs in the evaluation.
pub const WEIGHTS: [i64; 14] = [7, 6, 5, 4, 3, 2, 8, -7, -6, -5, -4, -3, -2, -8];

/// The stones in the pits below `n`.
pub open spec fn total(a: Seq<u8>, n: nat) -> int
    decreases n,
{
    if n == 0 {
        0
    } else {
        total(a, (n - 1) as nat) + a[n - 1]
    }
}

/// The stones in the pits from `lo` up to `lo + n`.
pub open spec fn row(a: Seq<u8>, lo: int, n: nat) -> int
    decreases n,
{
    if n == 0 {
        0
    } else {
        row(a, lo, (n - 1) as nat) + a[lo + n - 1]
    }
}

/// The weighted stones in the pits below `n`.
pub open spec fn weighted(a: Seq<u8>, n: nat) -> int
    decreases n,
{
    if n == 0 {
        0
    } else {
        weighted(a, (n - 1) as nat) + WEIGHTS[n - 1] * a[n - 1]
    }
}

/// The pit after `i` for the side `turn`, the store of the opponent left out.
pub open spec fn next_pit(i: int, turn: bool) -> int {
    let j = (i + 1) % 14;
    if (j == 13 && turn) || (j == 6 && !turn) {
        (j + 1) % 14
    } else {
        j
    }
}

/// The pits with `v` stones in the pit `i`.
pub open spec fn with_pit(a: [u8; 14], i: int, v: u8) -> [u8; 14] {
    vstd::array::spec_array_update(a, i, v)
}

/// The pits after `x` stones have been sown from the pit after `i` on.
pub open spec fn sown(a: [u8; 14], i: int, x: nat, turn: bool) -> [u8; 14]
    decreases x,
{
    if x == 0 {
        a
    } else {
        let j = next_pit(i, turn);
        sown(with_pit(a, j, (a[j] + 1) as u8), j, (x - 1) as nat, turn)
    }
}

/// The pit that takes the last of `x` stones sown from the pit after `i` on.
pub open spec fn last_pit(i: int, x: nat, turn: bool) -> int
    decreases x,
{
    if x == 0 {
        i
    } else {
        last_pit(next_pit(i, turn), (x - 1) as nat, turn)
    }
}

/// Whether the pit `i` is one from which the side `turn` may capture.
pub open spec fn own_pit(i: int, turn: bool) -> bool {
    (turn && i < 6) || (!turn && i > 6 && i < 13)
}

/// The position after the pit `m` has been played: its stones are sown; a
/// last stone that lands alone in a pit of the side that moved takes the
/// stones of the pit across; and the turn passes unless the last stone
/// landed in the store of the side that moved.
pub open spec fn after(s: Mancala, m: u8) -> Mancala {
    let x = s.a[m as int] as nat;
    let a1 = sown(with_pit(s.a, m as int, 0), m as int, x, s.turn);
    let i = last_pit(m as int, x, s.turn);
    let a2 = if a1[i] == 1 && own_pit(i, s.turn) {
        with_pit(with_pit(a1, i, (1 + a1[12 - i]) as u8), 12 - i, 0)
    } else {
        a1
    };
    Mancala {
        a: a2,
        turn: if (i == 6 && s.turn) || (i == 13 && !s.turn) {
            s.turn
        } else {
            !s.turn
        },
    }
}

/// The pits that the side to move may play among those from `lo` up to
/// `lo + n`, the highest first.
pub open spec fn playable(a: Seq<u8>, lo: int, n: nat) -> Seq<u8>
    decreases n,
{
    if n == 0 {
        Seq::empty()
    } else if a[lo + n - 1] != 0 {
        seq![(lo + n - 1) as u8] + playable(a, lo, (n - 1) as nat)
    } else {
        playable(a, lo, (n - 1) as nat)
    }
}

/// The legal moves: the pits of the side to move that hold stones, the
/// highest first; for the second player the store counts among them.
pub open spec fn all_moves(s: Mancala) -> Seq<u8> {
    if s.turn {
        playable(s.a@, 0, 6)
    } else {
        playable(s.a@, 7, 7)
    }
}

/// The classification: the game ends when one side has no stone in its
/// pits, and the side with more stones, the store counted in, has won; it
/// also ends when one store holds more than half of the stones of a game.
pub open spec fn outcome(s: Mancala) -> State {
    let down = row(s.a@, 0, 6);
    let up = row(s.a@, 7, 6);
    if down == 0 || up == 0 {
        if down + s.a[6] > up + s.a[13] {
            State::Win
        } else if down + s.a[6] < up + s.a[13] {
            State::Lose
        } else {
            State::Draw
        }
    } else if s.a[6] > 24 {
        State::Win
    } else if s.a[13] > 24 {
        State::Lose
    } else {
        State::Going
    }
}

/// The static evaluation.
pub open spec fn rating(s: Mancala) -> int {
    match outcome(s) {
        State::Win => 32768,
        State::Lose => -32768,
        _ => weighted(s.a@, 14),
    }
}

/// Whether the stones can be counted in a byte.
pub open spec fn countable(s: Mancala) -> bool {
    total(s.a@, 14) <= 255
}

proof fn lemma_total_update(a: Seq<u8>, i: int, v: u8, n: nat)
    requires
        0 <= i < a.len(),
        n <= a.len(),
    ensures
        total(a.update(i, v), n) == total(a, n) + (if i < n {
            v - a[i]
        } else {
            0
        }),
    decreases n,
{
    if n > 0 {
        lemma_total_update(a, i, v, (n - 1) as nat);
    }
}

proof fn lemma_total_positive(a: Seq<u8>, n: nat)
    ensures
        total(a, n) >= 0,
    decreases n,
{
    if n > 0 {
        lemma_total_positive(a, (n - 1) as nat);
    }
}

proof fn lemma_total_bounds(a: Seq<u8>, i: int, n: nat)
    requires
        0 <= i < n <= a.len(),
    ensures
        a[i] <= total(a, n),
        total(a, n) >= 0,
    decreases n,
{
    lemma_total_positive(a, n);
    lemma_total_positive(a, (n - 1) as nat);
    if i < n - 1 {
        lemma_total_bounds(a, i, (n - 1) as nat);
    }
}

proof fn lemma_total_two(a: Seq<u8>, i: int, j: int)
    requires
        a.len() == 14,
        0 <= i < 14,
        0 <= j < 14,
        i != j,
    ensures
        a[i] + a[j] <= total(a, 14),
{
    let b = a.update(i, 0);
    lemma_total_update(a, i, 0, 14);
    lemma_total_bounds(b, j, 14);
}

proof fn lemma_sown(a: [u8; 14], i: int, x: nat, turn: bool)
    requires
        0 <= i < 14,
        total(a@, 14) + x <= 255,
    ensures
        total(sown(a, i, x, turn)@, 14) == total(a@, 14) + x,
        0 <= last_pit(i, x, turn) < 14,
    decreases x,
{
    if x > 0 {
        let j = next_pit(i, turn);
        lemma_total_bounds(a@, j, 14);
        lemma_total_update(a@, j, (a[j] + 1) as u8, 14);
        lemma_sown(with_pit(a, j, (a[j] + 1) as u8), j, (x - 1) as nat, turn);
    }
}

proof fn lemma_playable(a: Seq<u8>, lo: int, n: nat, m: u8)
    requires
        0 <= lo,
        lo + n <= 14,
    ensures
        playable(a, lo, n).contains(m) <==> lo <= m < lo + n && a[m as int] != 0,
    decreases n,
{
    if n > 0 {
        let head = seq![(lo + n - 1) as u8];
        let rest = playable(a, lo, (n - 1) as nat);
        lemma_playable(a, lo, (n - 1) as nat, m);
        if a[lo + n - 1] != 0 {
            let s = head + rest;
            if s.contains(m) {
                let i = choose|i: int| 0 <= i < s.len() && s[i] == m;
                if i > 0 {
                    assert(rest[i - 1] == m);
                }
            }
            if rest.contains(m) {
                let i = choose|i: int| 0 <= i < rest.len() && rest[i] == m;
                assert(s[i + 1] == m);
            }
            if m == lo + n - 1 {
                assert(s[0] == m);
            }
        }
    }
}

proof fn lemma_row_positive(a: Seq<u8>, lo: int, n: nat)
    requires
        row(a, lo, n) != 0,
    ensures
        exists|i: int| lo <= i < lo + n && a[i] != 0,
    decreases n,
{
    if n > 0 {
        if a[lo + n - 1] == 0 {
            lemma_row_positive(a, lo, (n - 1) as nat);
        }
    }
}

/// A legal move keeps the stones countable.
pub proof fn lemma_after(s: Mancala, m: u8)
    requires
        countable(s),
        all_moves(s).contains(m),
    ensures
        m < 14,
        s.a[m as int] != 0,
        total(after(s, m).a@, 14) == total(s.a@, 14),
        countable(after(s, m)),
{
    if s.turn {
        lemma_playable(s.a@, 0, 6, m);
    } else {
        lemma_playable(s.a@, 7, 7, m);
    }
    let x = s.a[m as int] as nat;
    let a0 = with_pit(s.a, m as int, 0);
    lemma_total_update(s.a@, m as int, 0, 14);
    lemma_sown(a0, m as int, x, s.turn);
    let a1 = sown(a0, m as int, x, s.turn);
    let i = last_pit(m as int, x, s.turn);
    if a1[i] == 1 && own_pit(i, s.turn) {
        lemma_total_two(a1@, i, 12 - i);
        let a1b = with_pit(a1, i, (1 + a1[12 - i]) as u8);
        lemma_total_update(a1@, i, (1 + a1[12 - i]) as u8, 14);
        lemma_total_update(a1b@, 12 - i, 0, 14);
    }
}

impl Mancala {
    /// The stones in the pits from `lo` up to `lo + 6`.
    fn row_sum(&self, lo: usize) -> (r: u32)
        requires
            lo + 6 <= 14,
        ensures
            r == row(self.a@, lo as int, 6),
            r <= 1530,
    {
        let mut s: u32 = 0;
        let mut i: usize = 0;
        while i < 6
            invariant
                i <= 6,
                lo + 6 <= 14,
                s == row(self.a@, lo as int, i as nat),
                s <= 255 * i,
            decreases 6 - i,
        {
            s += self.a[lo + i] as u32;
            i += 1;
        }
        s
    }

    /// The weighted stones on the board.
    pub fn weigh(&self) -> (r: i64)
        ensures
            r == weighted(self.a@, 14),
    {
        let mut res: i64 = 0;
        let mut i: usize = 0;
        while i < 14
            invariant
                i <= 14,
                res == weighted(self.a@, i as nat),
                -2040 * i <= res <= 2040 * i,
            decreases 14 - i,
        {
            assert(-8 <= WEIGHTS[i as int] <= 8);
            assert(WEIGHTS[i as int] * self.a[i as int] <= 2040 && WEIGHTS[i as int]
                * self.a[i as int] >= -2040) by (nonlinear_arith)
                requires
                    -8 <= WEIGHTS[i as int] <= 8,
                    0 <= self.a[i as int] <= 255,
            ;
            res += WEIGHTS[i] * self.a[i] as i64;
            i += 1;
        }
        res
    }

    /// The pits of the side to move that hold stones among those from `lo`
    /// up to `lo + n`, the highest first.
    fn pits(&self, lo: u8, n: u8) -> (r: Vec<u8>)
        requires
            lo + n <= 14,
        ensures
            r@ == playable(self.a@, lo as int, n as nat),
    {
        let mut ans: Vec<u8> = Vec::new();
        let mut k: u8 = n;
        while k > 0
            invariant
                k <= n,
                lo + n <= 14,
                ans@ + playable(self.a@, lo as int, k as nat) == playable(
                    self.a@,
                    lo as int,
                    n as nat,
                ),
            decreases k,
        {
            let ghost before = ans@;
            let ghost rest = playable(self.a@, lo as int, (k - 1) as nat);
            if self.a[(lo + k - 1) as usize] != 0 {
                ans.push(lo + k - 1);
                assert(before + (seq![(lo + k - 1) as u8] + rest) =~= ans@ + rest);
            }
            k -= 1;
        }
        assert(ans@ + Seq::<u8>::empty() =~= ans@);
        ans
    }
}

impl Game for Mancala {
    type M = u8;

    type S = ([u8; 14], bool);

    type R = Mancala;

    open spec fn inv(&self) -> bool {
        countable(*self)
    }

    open spec fn start(t: bool) -> Mancala {
        Mancala { a: [4, 4, 4, 4, 4, 4, 0, 4, 4, 4, 4, 4, 4, 0], turn: t }
    }

    open spec fn to_move(v: Mancala) -> bool {
        v.turn
    }

    open spec fn status(v: Mancala) -> State {
        outcome(v)
    }

    open spec fn moves(v: Mancala) -> Seq<u8> {
        all_moves(v)
    }

    open spec fn moves_sorted(v: Mancala) -> Seq<u8> {
        Self::moves(v)
    }

    open spec fn key(v: Mancala) -> ([u8; 14], bool) {
        (v.a, v.turn)
    }

    open spec fn digest(k: ([u8; 14], bool)) -> u64 {
        mixed(k, 14) as u64
    }

    open spec fn position(v: Mancala) -> Mancala {
        v
    }

    open spec fn score(v: Mancala) -> i64 {
        rating(v) as i64
    }

    open spec fn next(v: Mancala, m: u8) -> Mancala {
        after(v, m)
    }

    open spec fn token(v: Mancala, m: u8) -> Mancala {
        v
    }

    open spec fn undoable(v: Mancala, rb: Mancala) -> bool {
        countable(rb)
    }

    open spec fn prev(v: Mancala, rb: Mancala) -> Mancala {
        rb
    }

    open spec fn valid(v: Mancala) -> bool {
        countable(v)
    }

    proof fn law_inv(&self) {
    }

    proof fn law_next(v: Mancala, m: u8) {
        lemma_after(v, m);
    }

    proof fn law_undo(v: Mancala, m: u8) {
    }

    proof fn law_sorted(v: Mancala) {
    }

    proof fn law_going_has_moves(v: Mancala) {
        if v.turn {
            lemma_row_positive(v.a@, 0, 6);
            let i = choose|i: int| 0 <= i < 6 && v.a@[i] != 0;
            lemma_playable(v.a@, 0, 6, i as u8);
        } else {
            lemma_row_positive(v.a@, 7, 6);
            let i = choose|i: int| 7 <= i < 13 && v.a@[i] != 0;
            lemma_playable(v.a@, 7, 7, i as u8);
        }
    }

    proof fn law_key(a: Mancala, b: Mancala) {
    }

    fn new(t: bool) -> (g: Self) {
        let g = Mancala { a: [4, 4, 4, 4, 4, 4, 0, 4, 4, 4, 4, 4, 4, 0], turn: t };
        proof {
            reveal_with_fuel(total, 15);
        }
        g
    }

    fn turn(&self) -> (r: bool) {
        self.turn
    }

    fn get_moves(&self) -> (r: Vec<u8>) {
        if self.turn {
            self.pits(0, 6)
        } else {
            self.pits(7, 7)
        }
    }

    fn get_moves_sorted(&self) -> (r: Vec<u8>) {
        self.get_moves()
    }

    fn get_static_state(&self) -> (r: ([u8; 14], bool)) {
        (self.a, self.turn)
    }

    fn state(&self) -> (r: State) {
        let down = self.row_sum(0);
        let up = self.row_sum(7);
        if down == 0 || up == 0 {
            let d = down + self.a[6] as u32;
            let u = up + self.a[13] as u32;
            if d > u {
                State::Win
            } else if d < u {
                State::Lose
            } else {
                State::Draw
            }
        } else if self.a[6] > 24 {
            State::Win
        } else if self.a[13] > 24 {
            State::Lose
        } else {
            State::Going
        }
    }

    fn heuristic(&self) -> (r: i64)
        ensures
            r == rating(*self),
    {
        match self.state() {
            State::Win => 32768,
            State::Lose => -32768,
            _ => self.weigh(),
        }
    }

    fn mov(&mut self, m: &u8) {
        let ghost s0 = *self;
        proof {
            lemma_after(s0, *m);
            lemma_total_update(s0.a@, *m as int, 0, 14);
        }
        let mut i: usize = *m as usize;
        let mut x: u8 = self.a[i];
        self.a[i] = 0;
        let ghost a0 = self.a;
        let ghost x0 = x as nat;
        assert(a0 =~= with_pit(s0.a, *m as int, 0));
        while x != 0
            invariant
                i < 14,
                self.turn == s0.turn,
                total(self.a@, 14) + x <= 255,
                sown(self.a, i as int, x as nat, s0.turn) == sown(a0, *m as int, x0, s0.turn),
                last_pit(i as int, x as nat, s0.turn) == last_pit(*m as int, x0, s0.turn),
            decreases x,
        {
            i = (i + 1) % 14;
            if (i == 13 && self.turn) || (i == 6 && !self.turn) {
                i = (i + 1) % 14;
            }
            proof {
                lemma_total_bounds(self.a@, i as int, 14);
                lemma_total_update(self.a@, i as int, (self.a[i as int] + 1) as u8, 14);
            }
            let ghost before = self.a;
            self.a[i] = self.a[i] + 1;
            assert(self.a =~= with_pit(before, i as int, (before[i as int] + 1) as u8));
            x -= 1;
        }
        let ghost a1 = self.a;
        if self.a[i] == 1 && ((self.turn && i < 6) || (!self.turn && i > 6 && i < 13)) {
            let o = 12 - i;
            proof {
                lemma_total_two(self.a@, i as int, o as int);
            }
            self.a[i] = self.a[i] + self.a[o];
            self.a[o] = 0;
        }
        if !((i == 6 && self.turn) || (i == 13 && !self.turn)) {
            self.turn = !self.turn;
        }
        proof {
            if a1[i as int] == 1 && own_pit(i as int, s0.turn) {
                assert(self.a =~= with_pit(
                    with_pit(a1, i as int, (1 + a1[12 - i]) as u8),
                    12 - i,
                    0,
                ));
            }
        }
    }

    fn mov_with_rollback(&mut self, m: &u8) -> (rb: Mancala) {
        let t = Mancala { a: self.a, turn: self.turn };
        self.mov(m);
        t
    }

    fn rollback(&mut self, rb: Mancala) {
        *self = rb;
    }

    fn copy_move(m: &u8) -> (r: u8) {
        *m
    }

    fn same_move(a: &u8, b: &u8) -> (r: bool) {
        *a == *b
    }

    fn same_key(a: &([u8; 14], bool), b: &([u8; 14], bool)) -> (r: bool) {
        let mut i: usize = 0;
        while i < 14
            invariant
                i <= 14,
                forall|j: int| 0 <= j < i ==> a.0[j] == b.0[j],
            decreases 14 - i,
        {
            if a.0[i] != b.0[i] {
                return false;
            }
            i += 1;
        }
        assert(a.0 =~= b.0);
        a.1 == b.1
    }

    fn key_digest(k: &([u8; 14], bool)) -> (r: u64) {
        let mut h: u64 = if k.1 { 1 } else { 0 };
        let mut i: usize = 0;
        while i < 14
            invariant
                i <= 14,
                h < 0x1_0000_0000_0000,
                h == mixed(*k, i as nat),
            decreases 14 - i,
        {
            h = (h * 257 + k.0[i] as u64) % 0x1_0000_0000_0000;
            i += 1;
        }
        h
    }
}

/// The first `n` pits of a key and its turn, folded into one number.
pub open spec fn mixed(k: ([u8; 14], bool), n: nat) -> int
    decreases n,
{
    if n == 0 {
        if k.1 {
            1
        } else {
            0
        }
    } else if n > 14 {
        0
    } else {
        (mixed(k, (n - 1) as nat) * 257 + k.0[n - 1]) % 0x1_0000_0000_0000
    }
}

} // verus!
