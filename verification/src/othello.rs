//! Othello on a board of 64 cells, cell `(y << 3) | x` in column `x` of
//! row `y`, kept in two sets: the cells that hold a piece, and among them
//! those whose piece belongs to the first player.

use crate::game::{Game, State};
use crate::sorting::{items, keyed, lemma_keys, lemma_sorted_by, sort_by_key, sorted_by};
use vstd::prelude::*;

verus! {

/// The eight directions, by their steps along the columns.
pub const DX: [i8; 8] = [0, -1, -1, -1, 0, 1, 1, 1];

/// The eight directions, by their steps along the rows.
pub const DY: [i8; 8] = [1, 1, 0, -1, -1, -1, 0, 1];

/// What a piece on each cell is worth to its owner.
pub const WEIGHTS: [i64; 64] = [
    4, -3, 2, 2, 2, 2, -3, 4,
    -3, -4, -1, -1, -1, -1, -4, -3,
    2, -1, 1, 0, 0, 1, -1, 2,
    2, -1, 0, 1, 1, 0, -1, 2,
    2, -1, 0, 1, 1, 0, -1, 2,
    2, -1, 1, 0, 0, 1, -1, 2,
    -3, -4, -1, -1, -1, -1, -4, -3,
    4, -3, 2, 2, 2, 2, -3, 4,
];

/// The move that stands for "no piece can be placed".
pub const PASS: u8 = 64;

/// A position: the board, who is to move, and the passes just made.
#[derive(Debug, Hash, Clone, Copy, PartialEq, Eq)]
pub struct Othello {
    /// The cells that hold a piece, and those that hold one of the first
    /// player.
    pub board: (u64, u64),
    pub turn: bool,
    /// The passes made in a row, counted up to two.
    pub passes: u8,
}

impl View for Othello {
    type V = Othello;

    open spec fn view(&self) -> Othello {
        *self
    }
}

/// The cell in column `x` of row `y`.
pub open spec fn cell(x: u8, y: u8) -> u8 {
    (y << 3u8) | x
}

/// Whether the cell `p` holds a piece.
pub open spec fn held(b: (u64, u64), p: u8) -> bool {
    (b.0 >> p) & 1 != 0
}

/// Whether the piece on the cell `p` belongs to the first player.
pub open spec fn shade(b: (u64, u64), p: u8) -> bool {
    (b.1 >> p) & 1 != 0
}

/// The bit that stands for the side `c`.
pub open spec fn mark(c: bool) -> u64 {
    if c {
        1
    } else {
        0
    }
}

/// The board with a piece of the side `c` on the cell `p`.
pub open spec fn placed(b: (u64, u64), p: u8, c: bool) -> (u64, u64) {
    (b.0 | (1u64 << p), b.1 | (mark(c) << p))
}

/// The board without a piece on the cell `p`.
pub open spec fn lifted(b: (u64, u64), p: u8) -> (u64, u64) {
    (b.0 & !(1u64 << p), b.1 & !(1u64 << p))
}

/// The board with the piece on the cell `p` turned over.
pub open spec fn turned(b: (u64, u64), p: u8) -> (u64, u64) {
    (b.0, b.1 ^ (1u64 << p))
}

/// The board with the pieces on the cells `cs` turned over.
pub open spec fn turned_all(b: (u64, u64), cs: Seq<u8>) -> (u64, u64)
    decreases cs.len(),
{
    if cs.len() == 0 {
        b
    } else {
        turned(turned_all(b, cs.drop_last()), cs.last())
    }
}

/// Whether `(x, y)` is on the board.
pub open spec fn on_board(x: int, y: int) -> bool {
    0 <= x < 8 && 0 <= y < 8
}

/// The pieces of the other side in a row from `(x, y)` on in the direction
/// `(dx, dy)` that end on a piece of the side `t`, as far as `fuel` cells
/// are looked at; `None` where the row does not end so.
pub open spec fn run(b: (u64, u64), t: bool, x: int, y: int, dx: int, dy: int, fuel: nat)
    -> Option<Seq<u8>>
    decreases fuel,
{
    if fuel == 0 || !on_board(x, y) || !held(b, cell(x as u8, y as u8)) {
        None
    } else if shade(b, cell(x as u8, y as u8)) == t {
        Some(Seq::empty())
    } else {
        match run(b, t, x + dx, y + dy, dx, dy, (fuel - 1) as nat) {
            Some(r) => Some(seq![cell(x as u8, y as u8)] + r),
            None => None,
        }
    }
}

/// The pieces that a piece of the side `t` placed on `(x, y)` turns over in
/// the direction `(dx, dy)`.
pub open spec fn gripped(b: (u64, u64), t: bool, x: int, y: int, dx: int, dy: int) -> Seq<u8> {
    match run(b, t, x + dx, y + dy, dx, dy, 8) {
        Some(r) => r,
        None => Seq::empty(),
    }
}

/// Whether a piece of the side `t` placed on `(x, y)` turns a piece over in
/// the direction `(dx, dy)`.
pub open spec fn grips(b: (u64, u64), t: bool, x: int, y: int, dx: int, dy: int) -> bool {
    gripped(b, t, x, y, dx, dy).len() > 0
}

/// Whether a piece of the side `t` placed on `(x, y)` turns a piece over in
/// one of the first `n` directions.
pub open spec fn grips_any(b: (u64, u64), t: bool, x: int, y: int, n: nat) -> bool
    decreases n,
{
    if n == 0 || n > 8 {
        false
    } else {
        grips_any(b, t, x, y, (n - 1) as nat) || grips(
            b,
            t,
            x,
            y,
            DX[n - 1] as int,
            DY[n - 1] as int,
        )
    }
}

/// Whether the side `t` may place a piece on `(x, y)`.
pub open spec fn playable(b: (u64, u64), t: bool, x: int, y: int) -> bool {
    !held(b, cell(x as u8, y as u8)) && grips_any(b, t, x, y, 8)
}

/// The cells among the first `n`, taken row by row, on which the side to
/// move may place a piece.
pub open spec fn places(s: Othello, n: nat) -> Seq<u8>
    decreases n,
{
    if n == 0 {
        Seq::empty()
    } else if playable(s.board, s.turn, (n - 1) % 8, (n - 1) / 8) {
        places(s, (n - 1) as nat).push(cell(((n - 1) % 8) as u8, ((n - 1) / 8) as u8))
    } else {
        places(s, (n - 1) as nat)
    }
}

/// The legal moves; the pass alone where no piece can be placed.
pub open spec fn all_moves(s: Othello) -> Seq<u8> {
    if places(s, 64).len() == 0 {
        seq![PASS]
    } else {
        places(s, 64)
    }
}

/// The board after the pieces gripped in the first `n` directions have been
/// turned over, one direction after the other.
pub open spec fn swept(b: (u64, u64), t: bool, x: int, y: int, n: nat) -> (u64, u64)
    decreases n,
{
    if n == 0 || n > 8 {
        b
    } else {
        let b1 = swept(b, t, x, y, (n - 1) as nat);
        turned_all(b1, gripped(b1, t, x, y, DX[n - 1] as int, DY[n - 1] as int))
    }
}

/// The position after the move `m`: the pass hands the turn over; a piece
/// placed turns over what it grips in each direction.
pub open spec fn after(s: Othello, m: u8) -> Othello {
    if m == PASS {
        Othello {
            board: s.board,
            turn: !s.turn,
            passes: if s.passes < 2 {
                (s.passes + 1) as u8
            } else {
                2
            },
        }
    } else {
        Othello {
            board: placed(swept(s.board, s.turn, (m & 7) as int, (m >> 3u8) as int, 8), m, s.turn),
            turn: !s.turn,
            passes: 0,
        }
    }
}

/// The number of cells below `n` in the set `x`.
pub open spec fn count(x: u64, n: nat) -> int
    decreases n,
{
    if n == 0 {
        0
    } else if (x >> ((n - 1) as u8)) & 1 != 0 {
        count(x, (n - 1) as nat) + 1
    } else {
        count(x, (n - 1) as nat)
    }
}

/// The classification: the game goes on until the board is full or both
/// sides have passed in a row; then the side with more than half of the
/// cells of the board has won.
pub open spec fn outcome(s: Othello) -> State {
    if s.board.0 != u64::MAX && s.passes < 2 {
        State::Going
    } else if count(s.board.1, 64) > 32 {
        State::Win
    } else if count(s.board.1, 64) < 32 {
        State::Lose
    } else {
        State::Draw
    }
}

/// What the piece on the cell `p` is worth to the first player.
pub open spec fn worth(b: (u64, u64), p: int) -> int {
    if held(b, p as u8) {
        if shade(b, p as u8) {
            WEIGHTS[p] as int
        } else {
            -WEIGHTS[p]
        }
    } else {
        0
    }
}

/// What the pieces on the cells below `n` are worth to the first player.
pub open spec fn weighed(b: (u64, u64), n: nat) -> int
    decreases n,
{
    if n == 0 {
        0
    } else {
        weighed(b, (n - 1) as nat) + worth(b, n - 1)
    }
}

/// The static evaluation.
pub open spec fn rating(s: Othello) -> int {
    match outcome(s) {
        State::Lose => -32768,
        State::Win => 32768,
        State::Draw => 0,
        State::Going => weighed(s.board, 64),
    }
}

/// The key by which the moves are ordered, the lower the sooner.
pub open spec fn order_key(m: u8) -> int {
    if m < 64 {
        -WEIGHTS[m as int]
    } else {
        0
    }
}

/// Whether `r` holds the moves in ascending order of their keys.
pub open spec fn ordered(r: Seq<u8>) -> bool {
    forall|i: int, j: int| 0 <= i <= j < r.len() ==> order_key(r[i]) <= order_key(r[j])
}

proof fn lemma_order_key(m: u8)
    ensures
        -4 <= order_key(m) <= 4,
{
    if m < 64 {
        assert(-4 <= WEIGHTS[m as int] <= 4);
    }
}

proof fn lemma_cell(x: u8, y: u8)
    requires
        x < 8,
        y < 8,
    ensures
        cell(x, y) < 64,
        cell(x, y) & 7 == x,
        cell(x, y) >> 3u8 == y,
{
    assert(x < 8 && y < 8 ==> ((y << 3u8) | x) < 64 && ((y << 3u8) | x) & 7 == x && ((y << 3u8)
        | x) >> 3u8 == y) by (bit_vector);
}

proof fn lemma_uncell(p: u8)
    requires
        p < 64,
    ensures
        p & 7 < 8,
        p >> 3u8 < 8,
{
    assert(p < 64 ==> p & 7 < 8 && p >> 3u8 < 8) by (bit_vector);
}

proof fn lemma_places(s: Othello, n: nat, m: u8)
    requires
        n <= 64,
        places(s, n).contains(m),
    ensures
        m < 64,
        playable(s.board, s.turn, (m & 7) as int, (m >> 3u8) as int),
    decreases n,
{
    if n > 0 {
        let r = places(s, (n - 1) as nat);
        let x = ((n - 1) % 8) as u8;
        let y = ((n - 1) / 8) as u8;
        if playable(s.board, s.turn, (n - 1) % 8, (n - 1) / 8) {
            let c = cell(x, y);
            lemma_cell(x, y);
            if r.contains(m) {
                lemma_places(s, (n - 1) as nat, m);
            } else {
                let i = choose|i: int| 0 <= i < r.push(c).len() && r.push(c)[i] == m;
                if i < r.len() {
                    assert(r[i] == m);
                }
                assert(m == c);
            }
        } else {
            lemma_places(s, (n - 1) as nat, m);
        }
    }
}

/// A legal move is the pass or places a piece on a cell of the board.
pub proof fn lemma_moves(s: Othello, m: u8)
    requires
        all_moves(s).contains(m),
    ensures
        m <= 64,
{
    if places(s, 64).len() == 0 {
        assert(seq![PASS][0] == m);
    } else {
        lemma_places(s, 64, m);
    }
}

proof fn lemma_count_bound(x: u64, n: nat)
    ensures
        0 <= count(x, n) <= n,
    decreases n,
{
    if n > 0 {
        lemma_count_bound(x, (n - 1) as nat);
    }
}

/// The cell in column `x` of row `y`.
pub fn mapc(x: u8, y: u8) -> (p: u8)
    requires
        x < 8,
        y < 8,
    ensures
        p == cell(x, y),
        p < 64,
{
    proof {
        lemma_cell(x, y);
    }
    (y << 3u8) | x
}

/// The column and the row of the cell `p`.
pub fn unmapc(p: u8) -> (r: (u8, u8))
    ensures
        r.0 == p & 7,
        r.1 == p >> 3u8,
{
    (p & 7, p >> 3u8)
}

impl Othello {
    /// Puts a piece of the side `c` on the cell `p`.
    pub fn add_piece(&mut self, p: u8, c: bool)
        requires
            p < 64,
        ensures
            final(self).board == placed(old(self).board, p, c),
            final(self).turn == old(self).turn,
            final(self).passes == old(self).passes,
    {
        self.board.0 = self.board.0 | (1u64 << p);
        let bit: u64 = if c { 1 } else { 0 };
        self.board.1 = self.board.1 | (bit << p);
    }

    /// Takes the piece on the cell `p` away.
    pub fn rem_piece(&mut self, p: u8)
        requires
            p < 64,
        ensures
            final(self).board == lifted(old(self).board, p),
            final(self).turn == old(self).turn,
            final(self).passes == old(self).passes,
    {
        self.board.0 = self.board.0 & !(1u64 << p);
        self.board.1 = self.board.1 & !(1u64 << p);
    }

    /// Turns the piece on the cell `p` over.
    pub fn flip(&mut self, p: u8)
        requires
            p < 64,
        ensures
            final(self).board == turned(old(self).board, p),
            final(self).turn == old(self).turn,
            final(self).passes == old(self).passes,
    {
        self.board.1 = self.board.1 ^ (1u64 << p);
    }

    /// Whether the cell `p` holds a piece.
    pub fn has_piece(&self, p: u8) -> (r: bool)
        requires
            p < 64,
        ensures
            r == held(self.board, p),
    {
        (self.board.0 >> p) & 1 != 0
    }

    /// Whether the piece on the cell `p` belongs to the first player.
    pub fn get_piece(&self, p: u8) -> (r: bool)
        requires
            p < 64,
        ensures
            r == shade(self.board, p),
    {
        (self.board.1 >> p) & 1 != 0
    }

    /// The pieces that a piece of the side `t` placed on `pos` turns over
    /// in the direction `dir`.
    pub fn grip(&self, t: bool, pos: (i8, i8), dir: (i8, i8)) -> (r: Vec<u8>)
        requires
            on_board(pos.0 as int, pos.1 as int),
            -1 <= dir.0 <= 1,
            -1 <= dir.1 <= 1,
        ensures
            r@ == gripped(
                self.board,
                t,
                pos.0 as int,
                pos.1 as int,
                dir.0 as int,
                dir.1 as int,
            ),
            forall|i: int| 0 <= i < r@.len() ==> r@[i] < 64,
    {
        let mut x: i8 = pos.0 + dir.0;
        let mut y: i8 = pos.1 + dir.1;
        let mut ans: Vec<u8> = Vec::new();
        let mut k: u8 = 0;
        let ghost goal = run(self.board, t, x as int, y as int, dir.0 as int, dir.1 as int, 8);
        while k < 8 && 0 <= x && x < 8 && 0 <= y && y < 8
            invariant
                k <= 8,
                -1 <= x <= 8,
                -1 <= y <= 8,
                -1 <= dir.0 <= 1,
                -1 <= dir.1 <= 1,
                forall|i: int| 0 <= i < ans@.len() ==> ans@[i] < 64,
                goal == run(
                    self.board,
                    t,
                    pos.0 + dir.0,
                    pos.1 + dir.1,
                    dir.0 as int,
                    dir.1 as int,
                    8,
                ),
                goal == (match run(
                    self.board,
                    t,
                    x as int,
                    y as int,
                    dir.0 as int,
                    dir.1 as int,
                    (8 - k) as nat,
                ) {
                    Some(r) => Some(ans@ + r),
                    None => None,
                }),
            decreases 8 - k,
        {
            let p = mapc(x as u8, y as u8);
            if !self.has_piece(p) {
                return Vec::new();
            } else if self.get_piece(p) == t {
                assert(ans@ + Seq::<u8>::empty() =~= ans@);
                return ans;
            }
            let ghost before = ans@;
            ans.push(p);
            proof {
                let rest = run(
                    self.board,
                    t,
                    x + dir.0,
                    y + dir.1,
                    dir.0 as int,
                    dir.1 as int,
                    (8 - k - 1) as nat,
                );
                if rest is Some {
                    assert(before + (seq![p] + rest->0) =~= ans@ + rest->0);
                }
            }
            x = x + dir.0;
            y = y + dir.1;
            k += 1;
        }
        Vec::new()
    }

    /// Whether a piece of the side `t` placed on `pos` turns a piece over
    /// in the direction `dir`.
    pub fn reversable(&self, t: bool, pos: (i8, i8), dir: (i8, i8)) -> (r: bool)
        requires
            on_board(pos.0 as int, pos.1 as int),
            -1 <= dir.0 <= 1,
            -1 <= dir.1 <= 1,
        ensures
            r == grips(self.board, t, pos.0 as int, pos.1 as int, dir.0 as int, dir.1 as int),
    {
        self.grip(t, pos, dir).len() > 0
    }

    /// Turns over the pieces that a piece of the side `t` placed on `pos`
    /// grips in the direction `dir`, and tells which they were.
    pub fn reverse(&mut self, t: bool, pos: (i8, i8), dir: (i8, i8)) -> (r: Vec<u8>)
        requires
            on_board(pos.0 as int, pos.1 as int),
            -1 <= dir.0 <= 1,
            -1 <= dir.1 <= 1,
        ensures
            r@ == gripped(
                old(self).board,
                t,
                pos.0 as int,
                pos.1 as int,
                dir.0 as int,
                dir.1 as int,
            ),
            final(self).board == turned_all(old(self).board, r@),
            final(self).turn == old(self).turn,
            final(self).passes == old(self).passes,
    {
        let cells = self.grip(t, pos, dir);
        let mut i: usize = 0;
        while i < cells.len()
            invariant
                i <= cells.len(),
                forall|j: int| 0 <= j < cells@.len() ==> cells@[j] < 64,
                self.board == turned_all(old(self).board, cells@.subrange(0, i as int)),
                self.turn == old(self).turn,
                self.passes == old(self).passes,
            decreases cells.len() - i,
        {
            self.flip(cells[i]);
            proof {
                let s = cells@.subrange(0, i + 1);
                assert(s.drop_last() =~= cells@.subrange(0, i as int));
                assert(s.last() == cells@[i as int]);
            }
            i += 1;
        }
        assert(cells@.subrange(0, cells@.len() as int) =~= cells@);
        cells
    }

    /// Whether the side to move may place a piece on `(x, y)`.
    fn can_play(&self, x: u8, y: u8) -> (r: bool)
        requires
            x < 8,
            y < 8,
        ensures
            r == playable(self.board, self.turn, x as int, y as int),
    {
        if self.has_piece(mapc(x, y)) {
            return false;
        }
        let mut di: usize = 0;
        while di < 8
            invariant
                di <= 8,
                x < 8,
                y < 8,
                !held(self.board, cell(x, y)),
                !grips_any(self.board, self.turn, x as int, y as int, di as nat),
            decreases 8 - di,
        {
            assert(-1 <= DX[di as int] <= 1 && -1 <= DY[di as int] <= 1);
            if self.reversable(self.turn, (x as i8, y as i8), (DX[di], DY[di])) {
                proof {
                    lemma_grips_any(self.board, self.turn, x as int, y as int, di as nat + 1, 8);
                }
                return true;
            }
            di += 1;
        }
        false
    }

    /// The number of cells in the set `x`.
    fn count_cells(x: u64) -> (r: u32)
        ensures
            r == count(x, 64),
            r <= 64,
    {
        let mut n: u32 = 0;
        let mut i: u8 = 0;
        while i < 64
            invariant
                i <= 64,
                n <= i,
                n == count(x, i as nat),
            decreases 64 - i,
        {
            if (x >> i) & 1 != 0 {
                n += 1;
            }
            i += 1;
        }
        n
    }

    /// What the pieces on the board are worth to the first player.
    pub fn weigh(&self) -> (r: i64)
        ensures
            r == weighed(self.board, 64),
    {
        let mut ans: i64 = 0;
        let mut i: u8 = 0;
        while i < 64
            invariant
                i <= 64,
                ans == weighed(self.board, i as nat),
                -4 * i <= ans <= 4 * i,
            decreases 64 - i,
        {
            assert(-4 <= WEIGHTS[i as int] <= 4);
            if self.has_piece(i) {
                if self.get_piece(i) {
                    ans += WEIGHTS[i as usize];
                } else {
                    ans -= WEIGHTS[i as usize];
                }
            }
            i += 1;
        }
        ans
    }
}

proof fn lemma_grips_any(b: (u64, u64), t: bool, x: int, y: int, n: nat, m: nat)
    requires
        0 < n <= m <= 8,
        grips(b, t, x, y, DX[n - 1] as int, DY[n - 1] as int),
    ensures
        grips_any(b, t, x, y, m),
    decreases m,
{
    if n < m {
        lemma_grips_any(b, t, x, y, n, (m - 1) as nat);
    }
}

impl Game for Othello {
    type M = u8;

    type S = (u64, u64, bool);

    type R = Othello;

    open spec fn inv(&self) -> bool {
        true
    }

    open spec fn start(t: bool) -> Othello {
        Othello {
            board: placed(
                placed(placed(placed((0, 0), cell(3, 3), true), cell(4, 4), true), cell(3, 4), false),
                cell(4, 3),
                false,
            ),
            turn: t,
            passes: 0,
        }
    }

    open spec fn to_move(v: Othello) -> bool {
        v.turn
    }

    open spec fn status(v: Othello) -> State {
        outcome(v)
    }

    open spec fn moves(v: Othello) -> Seq<u8> {
        all_moves(v)
    }

    open spec fn moves_sorted(v: Othello) -> Seq<u8> {
        sorted_by(all_moves(v), |m: u8| order_key(m))
    }

    open spec fn key(v: Othello) -> (u64, u64, bool) {
        (v.board.0, v.board.1, v.turn)
    }

    open spec fn digest(k: (u64, u64, bool)) -> u64 {
        ((k.0 % 0x1_0000_0000) * 0x1_0000_0000 + (k.1 % 0x7fff_ffff) * 2 + (if k.2 {
            1int
        } else {
            0int
        })) as u64
    }

    open spec fn position(v: Othello) -> Othello {
        Othello { passes: 0, ..v }
    }

    open spec fn score(v: Othello) -> i64 {
        rating(v) as i64
    }

    open spec fn next(v: Othello, m: u8) -> Othello {
        after(v, m)
    }

    open spec fn token(v: Othello, m: u8) -> Othello {
        v
    }

    open spec fn undoable(v: Othello, rb: Othello) -> bool {
        true
    }

    open spec fn prev(v: Othello, rb: Othello) -> Othello {
        rb
    }

    open spec fn valid(v: Othello) -> bool {
        true
    }

    proof fn law_inv(&self) {
    }

    proof fn law_next(v: Othello, m: u8) {
    }

    proof fn law_undo(v: Othello, m: u8) {
    }

    proof fn law_sorted(v: Othello) {
        lemma_sorted_by(all_moves(v), |m: u8| order_key(m));
    }

    proof fn law_going_has_moves(v: Othello) {
    }

    proof fn law_key(a: Othello, b: Othello) {
    }

    fn new(t: bool) -> (g: Self) {
        let mut ans = Othello { board: (0, 0), turn: t, passes: 0 };
        ans.add_piece(mapc(3, 3), true);
        ans.add_piece(mapc(4, 4), true);
        ans.add_piece(mapc(3, 4), false);
        ans.add_piece(mapc(4, 3), false);
        ans
    }

    fn turn(&self) -> (r: bool) {
        self.turn
    }

    fn get_moves(&self) -> (r: Vec<u8>) {
        let mut ans: Vec<u8> = Vec::new();
        let mut y: u8 = 0;
        while y < 8
            invariant
                y <= 8,
                ans@ == places(*self, (y * 8) as nat),
            decreases 8 - y,
        {
            let mut x: u8 = 0;
            while x < 8
                invariant
                    y < 8,
                    x <= 8,
                    ans@ == places(*self, (y * 8 + x) as nat),
                decreases 8 - x,
            {
                let ghost n = y * 8 + x;
                assert(n % 8 == x && n / 8 == y);
                if self.can_play(x, y) {
                    ans.push(mapc(x, y));
                }
                x += 1;
            }
            y += 1;
        }
        if ans.len() == 0 {
            ans.push(PASS);
            assert(ans@ =~= seq![PASS]);
        }
        ans
    }

    /// The legal moves in ascending order of their keys, moves with the
    /// same key in the order in which they are generated.
    fn get_moves_sorted(&self) -> (r: Vec<u8>)
        ensures
            ordered(r@),
    {
        let moves = self.get_moves();
        let ghost key = |m: u8| order_key(m);
        let ghost goal = keyed(moves@, key);
        let mut pairs: Vec<(i64, u8)> = Vec::with_capacity(moves.len());
        let mut i: usize = 0;
        while i < moves.len()
            invariant
                i <= moves.len(),
                goal == keyed(moves@, key),
                key == (|m: u8| order_key(m)),
                pairs@ == goal.subrange(0, i as int),
            decreases moves.len() - i,
        {
            let m = moves[i];
            let k: i64 = if m < 64 {
                assert(-4 <= WEIGHTS[m as int] <= 4);
                -WEIGHTS[m as usize]
            } else {
                0
            };
            pairs.push((k, m));
            assert(pairs@ =~= goal.subrange(0, i + 1));
            i += 1;
        }
        assert(pairs@ =~= goal);
        let sorted = sort_by_key(pairs);
        let mut ans: Vec<u8> = Vec::with_capacity(sorted.len());
        let mut j: usize = 0;
        while j < sorted.len()
            invariant
                j <= sorted.len(),
                ans@ == items(sorted@).subrange(0, j as int),
            decreases sorted.len() - j,
        {
            ans.push(sorted[j].1);
            assert(ans@ =~= items(sorted@).subrange(0, j + 1));
            j += 1;
        }
        assert(ans@ =~= items(sorted@));
        proof {
            lemma_keys(goal, sorted@, key);
            assert forall|x: int, y: int| 0 <= x <= y < ans@.len() implies order_key(ans@[x])
                <= order_key(ans@[y]) by {
                assert(sorted@[x].0 <= sorted@[y].0);
                assert(sorted@[x].0 == key(sorted@[x].1) as i64);
                assert(sorted@[y].0 == key(sorted@[y].1) as i64);
                lemma_order_key(ans@[x]);
                lemma_order_key(ans@[y]);
            }
        }
        ans
    }

    fn get_static_state(&self) -> (r: (u64, u64, bool)) {
        (self.board.0, self.board.1, self.turn)
    }

    fn state(&self) -> (r: State) {
        if self.board.0 != u64::MAX && self.passes < 2 {
            State::Going
        } else {
            let n = Othello::count_cells(self.board.1);
            if n > 32 {
                State::Win
            } else if n < 32 {
                State::Lose
            } else {
                State::Draw
            }
        }
    }

    fn heuristic(&self) -> (r: i64)
        ensures
            r == rating(*self),
    {
        match self.state() {
            State::Lose => -32768,
            State::Win => 32768,
            State::Draw => 0,
            State::Going => self.weigh(),
        }
    }

    fn mov(&mut self, m: &u8) {
        proof {
            lemma_moves(*self, *m);
        }
        if *m != PASS {
            proof {
                lemma_uncell(*m);
            }
            let (x, y) = unmapc(*m);
            let t = self.turn;
            let mut di: usize = 0;
            while di < 8
                invariant
                    di <= 8,
                    x < 8,
                    y < 8,
                    t == old(self).turn,
                    self.turn == old(self).turn,
                    self.passes == old(self).passes,
                    self.board == swept(old(self).board, t, x as int, y as int, di as nat),
                decreases 8 - di,
            {
                assert(-1 <= DX[di as int] <= 1 && -1 <= DY[di as int] <= 1);
                self.reverse(t, (x as i8, y as i8), (DX[di], DY[di]));
                di += 1;
            }
            self.add_piece(*m, t);
            self.passes = 0;
        } else {
            self.passes = if self.passes < 2 { self.passes + 1 } else { 2 };
        }
        self.turn = !self.turn;
    }

    fn mov_with_rollback(&mut self, m: &u8) -> (rb: Othello) {
        let t = *self;
        self.mov(m);
        t
    }

    fn rollback(&mut self, rb: Othello) {
        *self = rb;
    }

    fn copy_move(m: &u8) -> (r: u8) {
        *m
    }

    fn same_move(a: &u8, b: &u8) -> (r: bool) {
        *a == *b
    }

    fn same_key(a: &(u64, u64, bool), b: &(u64, u64, bool)) -> (r: bool) {
        a.0 == b.0 && a.1 == b.1 && a.2 == b.2
    }

    fn key_digest(k: &(u64, u64, bool)) -> (r: u64) {
        let t: u64 = if k.2 { 1 } else { 0 };
        (k.0 % 0x1_0000_0000) * 0x1_0000_0000 + (k.1 % 0x7fff_ffff) * 2 + t
    }
}

} // verus!
