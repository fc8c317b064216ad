//! Tablut with draws by repetition.
//!
//! The board has 81 cells, cell `y * 9 + x` in column `x` of row `y`, and is
//! kept two bits a cell. A position that comes up a second time ends the
//! game in a draw.
//!
//! The first player defends the king, the second attacks.
//!
//! # The rules
//!
//! A piece slides along its row or its column over empty cells. It enters
//! no camp and not the throne, but a piece that set out from one of these
//! cells may go on to another that is no more than two steps away.
//!
//! A piece is taken when an enemy lands next to it and the cell right
//! behind it is hostile: an enemy stands there, or it is an empty cell that
//! helps a capture.
//!
//! The rule for the king comes in two variants, chosen with
//! [`Tablut::set_king_rule`]. The king falls when all four cells around him
//! count against him, and away from the throne and the four cells next to
//! it also like any other piece. By the usual rule the empty throne counts
//! against him, so that three attackers take him next to it; by the strict
//! rule only attackers do. See [`taken`].
//!
//! The king on an escape cell wins the game for the defenders, the king
//! taken loses it, a side that cannot move has the pass alone and loses by
//! it, and a position that has come up before is a draw.

use crate::game::{Game, State};
use crate::sorting::{items, keyed, lemma_keys, lemma_sorted_by, sort_by_key, sorted_by};
use crate::tablut::{rank_a, rank_d, rank_of};
use vstd::prelude::*;
use vstd::std_specs::convert::FromSpecImpl;

verus! {

/// What a cell holds: nothing, an attacker, a defender or the king.
#[derive(Hash, Clone, Copy, PartialEq, Eq, Debug, Structural)]
pub enum Tile {
    E,
    A,
    D,
    K,
}

/// The tile that the two low bits of `x` stand for.
pub open spec fn tile_of(x: u8) -> Tile {
    let c = x & 3;
    if c == 1 {
        Tile::A
    } else if c == 2 {
        Tile::D
    } else if c == 3 {
        Tile::K
    } else {
        Tile::E
    }
}

/// The two bits that stand for a tile.
pub open spec fn code_of(t: Tile) -> u8 {
    match t {
        Tile::E => 0,
        Tile::A => 1,
        Tile::D => 2,
        Tile::K => 3,
    }
}

impl From<u8> for Tile {
    fn from(x: u8) -> (r: Tile) {
        match x & 3 {
            1 => Tile::A,
            2 => Tile::D,
            3 => Tile::K,
            _ => Tile::E,
        }
    }
}

impl FromSpecImpl<u8> for Tile {
    open spec fn obeys_from_spec() -> bool {
        true
    }

    open spec fn from_spec(x: u8) -> Tile {
        tile_of(x)
    }
}

/// The two bits that stand for a tile.
fn code(t: Tile) -> (r: u8)
    ensures
        r == code_of(t),
        r <= 3,
{
    match t {
        Tile::E => 0,
        Tile::A => 1,
        Tile::D => 2,
        Tile::K => 3,
    }
}

/// Where the king has escaped.
pub const GOALS: u128 = 0xc680c0400000040602c6;

/// The camps and the throne.
pub const BLOCKS: u128 = 0x38080020393808002038;

/// The cells that help a capture while nothing stands on them.
pub const AIDS: u128 = 0x28080020292808002028;

/// Where the attackers start.
pub const FIRST_A: u128 = 0x38080020383808002038;

/// Where the defenders start.
pub const FIRST_D: u128 = 0x40206c080400000;

/// Where the king starts: the throne.
pub const FIRST_K: u128 = 0x10000000000;

/// The move that stands for "no move can be made".
pub const PASS: (u8, u8) = (40, 40);

/// No cell.
pub const NONE: u8 = 128;

/// Whether the cell `p` is in the set `mask`.
pub open spec fn marked(mask: u128, p: int) -> bool {
    0 <= p < 81 && (mask >> (p as u8)) & 1 != 0
}

/// Whether the cell `p` is in the set `mask`.
fn is_marked(mask: u128, p: u8) -> (r: bool)
    requires
        p < 81,
    ensures
        r == marked(mask, p as int),
{
    (mask >> p) & 1 != 0
}

/// The cell in column `x` of row `y`.
pub fn mapc(x: u8, y: u8) -> (p: u8)
    requires
        y * 9 + x <= u8::MAX,
    ensures
        p == y * 9 + x,
{
    y * 9 + x
}

/// The column and the row of the cell `p`.
pub fn unmapc(p: u8) -> (r: (u8, u8))
    ensures
        r.0 == p % 9,
        r.1 == p / 9,
{
    (p % 9, p / 9)
}

/// Whether the cell `p` is a camp or the throne.
pub fn is_block_um(p: u8) -> (r: bool)
    requires
        p < 81,
    ensures
        r == marked(BLOCKS, p as int),
{
    is_marked(BLOCKS, p)
}

/// Whether the cell `p` helps a capture.
pub fn is_capture_aid(p: u8) -> (r: bool)
    requires
        p < 81,
    ensures
        r == marked(AIDS, p as int),
{
    is_marked(AIDS, p)
}

/// The number that a letter from `a` to `i` names, counted from 0.
pub open spec fn column_of(c: char) -> Option<u8> {
    if c == 'a' {
        Some(0u8)
    } else if c == 'b' {
        Some(1u8)
    } else if c == 'c' {
        Some(2u8)
    } else if c == 'd' {
        Some(3u8)
    } else if c == 'e' {
        Some(4u8)
    } else if c == 'f' {
        Some(5u8)
    } else if c == 'g' {
        Some(6u8)
    } else if c == 'h' {
        Some(7u8)
    } else if c == 'i' {
        Some(8u8)
    } else {
        None
    }
}

/// The number that a digit from `1` to `9` names, counted from 0.
pub open spec fn row_of(c: char) -> Option<u8> {
    if c == '1' {
        Some(0u8)
    } else if c == '2' {
        Some(1u8)
    } else if c == '3' {
        Some(2u8)
    } else if c == '4' {
        Some(3u8)
    } else if c == '5' {
        Some(4u8)
    } else if c == '6' {
        Some(5u8)
    } else if c == '7' {
        Some(6u8)
    } else if c == '8' {
        Some(7u8)
    } else if c == '9' {
        Some(8u8)
    } else {
        None
    }
}

/// The cell that a letter for the column and a digit for the row name, as
/// in `e5` for the throne; nothing where one of the two names none.
pub fn scan_cell(col: char, row: char) -> (r: Option<u8>)
    ensures
        r == (match (column_of(col), row_of(row)) {
            (Some(x), Some(y)) => Some((y * 9 + x) as u8),
            _ => None,
        }),
{
    let x: u8 = match col {
        'a' => 0,
        'b' => 1,
        'c' => 2,
        'd' => 3,
        'e' => 4,
        'f' => 5,
        'g' => 6,
        'h' => 7,
        'i' => 8,
        _ => {
            return None;
        },
    };
    let y: u8 = match row {
        '1' => 0,
        '2' => 1,
        '3' => 2,
        '4' => 3,
        '5' => 4,
        '6' => 5,
        '7' => 6,
        '8' => 7,
        '9' => 8,
        _ => {
            return None;
        },
    };
    Some(y * 9 + x)
}

/// The two bits in place `k` of a byte.
pub open spec fn crumb(x: u8, k: u8) -> u8 {
    (x >> k >> k) & 3
}

/// The byte `x` with `c` in place `k`.
pub open spec fn with_crumb(x: u8, k: u8, c: u8) -> u8 {
    (x & !(3u8 << k << k)) | (c << k << k)
}

/// The tiles that a packed board stands for.
pub open spec fn unpack(b: [u8; 21]) -> Seq<Tile> {
    Seq::new(81, |p: int| tile_of(crumb(b[p / 4], (p % 4) as u8)))
}

/// Whether the bits of a packed board that stand for no cell are clear.
pub open spec fn tidy(b: [u8; 21]) -> bool {
    b[20] & 0xfc == 0
}

proof fn lemma_crumbs(x: u8, k: u8, c: u8)
    requires
        k < 4,
        c <= 3,
    ensures
        crumb(with_crumb(x, k, c), k) == c,
        forall|j: u8| j < 4 && j != k ==> #[trigger] crumb(with_crumb(x, k, c), j) == crumb(x, j),
        x & 0xfc == 0 && k == 0 ==> with_crumb(x, k, c) & 0xfc == 0,
{
    assert(k < 4 && c <= 3 ==> (((x & !(3u8 << k << k)) | (c << k << k)) >> k >> k) & 3 == c)
        by (bit_vector);
    assert(forall|j: u8|
        k < 4 && c <= 3 && j < 4 && j != k ==> #[trigger] crumb(
            (x & !(3u8 << k << k)) | (c << k << k),
            j,
        ) == crumb(x, j)) by (bit_vector);
    assert(c <= 3 && x & 0xfc == 0 && k == 0 ==> ((x & !(3u8 << k << k)) | (c << k << k)) & 0xfc
        == 0) by (bit_vector);
}

proof fn lemma_tile_bits()
    ensures
        forall|a: u8, b: u8| tile_of(a) == tile_of(b) ==> #[trigger] (a & 3) == #[trigger] (b & 3),
{
    assert(forall|a: u8| #[trigger] (a & 3) <= 3) by (bit_vector);
}

proof fn lemma_crumbs_decide(x: u8, y: u8)
    requires
        forall|j: u8| j < 4 ==> tile_of(#[trigger] crumb(x, j)) == tile_of(crumb(y, j)),
    ensures
        x == y,
{
    assert(tile_of(crumb(x, 0)) == tile_of(crumb(y, 0)));
    assert(tile_of(crumb(x, 1)) == tile_of(crumb(y, 1)));
    assert(tile_of(crumb(x, 2)) == tile_of(crumb(y, 2)));
    assert(tile_of(crumb(x, 3)) == tile_of(crumb(y, 3)));
    lemma_tile_bits();
    assert(((x >> 0u8 >> 0u8) & 3) & 3 == ((y >> 0u8 >> 0u8) & 3) & 3 && ((x >> 1u8 >> 1u8) & 3) & 3
        == ((y >> 1u8 >> 1u8) & 3) & 3 && ((x >> 2u8 >> 2u8) & 3) & 3 == ((y >> 2u8 >> 2u8) & 3)
        & 3 && ((x >> 3u8 >> 3u8) & 3) & 3 == ((y >> 3u8 >> 3u8) & 3) & 3 ==> x == y)
        by (bit_vector);
}

proof fn lemma_low_crumb_decides(x: u8, y: u8)
    requires
        x & 0xfc == 0,
        y & 0xfc == 0,
        tile_of(crumb(x, 0)) == tile_of(crumb(y, 0)),
    ensures
        x == y,
{
    lemma_tile_bits();
    assert(x & 0xfc == 0 && y & 0xfc == 0 && ((x >> 0u8 >> 0u8) & 3) & 3 == ((y >> 0u8 >> 0u8)
        & 3) & 3 ==> x == y) by (bit_vector);
}

/// Two tidy boards that stand for the same tiles are the same board.
pub proof fn lemma_unpack_decides(a: [u8; 21], b: [u8; 21])
    requires
        tidy(a),
        tidy(b),
        unpack(a) == unpack(b),
    ensures
        a == b,
{
    assert forall|i: int| 0 <= i < 21 implies a[i] == b[i] by {
        if i < 20 {
            assert forall|j: u8| j < 4 implies tile_of(#[trigger] crumb(a[i], j)) == tile_of(
                crumb(b[i], j),
            ) by {
                let p = i * 4 + j;
                assert(p / 4 == i && (p % 4) as u8 == j);
                assert(unpack(a)[p] == tile_of(crumb(a[i], j)));
                assert(unpack(b)[p] == tile_of(crumb(b[i], j)));
            }
            lemma_crumbs_decide(a[i], b[i]);
        } else {
            assert(unpack(a)[80] == tile_of(crumb(a[20], 0)));
            assert(unpack(b)[80] == tile_of(crumb(b[20], 0)));
            lemma_low_crumb_decides(a[20], b[20]);
        }
    }
    assert(a =~= b);
}

proof fn lemma_tile_codes(t: Tile)
    ensures
        tile_of(code_of(t)) == t,
{
    assert(0u8 & 3 == 0 && 1u8 & 3 == 1 && 2u8 & 3 == 2 && 3u8 & 3 == 3) by (bit_vector);
}

/// A position as the rules see it.
pub struct Position {
    /// What each of the 81 cells holds.
    pub cells: Seq<Tile>,
    /// The moves made, counted modulo 2^32; the defenders move on even counts.
    pub turn: u32,
    pub state: State,
    /// The positions that have come up, each with whether the defenders were
    /// to move, the latest last.
    pub seen: Seq<(Seq<Tile>, bool)>,
    /// The rule for the king by the throne: whether only attackers count
    /// among the four cells around him, and not the empty throne.
    pub strict: bool,
}

/// A position: the packed board, the count of the moves, how the game
/// stands, the positions that have come up, and the rule for the king.
#[derive(Debug, Clone, PartialEq, Eq)]
pub struct Tablut {
    board: [u8; 21],
    turn: u32,
    state: State,
    /// The positions that have come up, in the order in which they did, so
    /// that the last can be taken back with its move. A hash set of packed
    /// boards would be searched faster, but nothing could be proved of it:
    /// the specifications of the hash collections of the standard library
    /// hold for keys of primitive types only.
    vis: Vec<([u8; 21], bool)>,
    strict: bool,
}

impl View for Tablut {
    type V = Position;

    closed spec fn view(&self) -> Position {
        Position {
            cells: unpack(self.board),
            turn: self.turn,
            state: self.state,
            seen: self.vis@.map_values(|e: ([u8; 21], bool)| (unpack(e.0), e.1)),
            strict: self.strict,
        }
    }
}

/// Whether the defenders are to move.
pub open spec fn defends(v: Position) -> bool {
    v.turn & 1 == 0
}

/// The cell that a scan in direction `dir` visits in place `j` of line
/// `line`: along the rows to the right and to the left, then along the
/// columns downwards and upwards.
pub open spec fn cell_at(dir: int, line: int, j: int) -> int {
    if dir == 0 {
        line * 9 + j
    } else if dir == 1 {
        line * 9 + (8 - j)
    } else if dir == 2 {
        j * 9 + line
    } else {
        (8 - j) * 9 + line
    }
}

/// The distance between two neighbours along the direction `dir`.
pub open spec fn stride(dir: int) -> int {
    if dir < 2 {
        1
    } else {
        9
    }
}

/// Whether a piece that set out from `from` may slide onto the empty cell
/// `p`: always where `p` is no camp or throne, and onto such a cell only
/// from another one no more than two steps away.
pub open spec fn admits(from: int, p: int, dir: int) -> bool {
    !marked(BLOCKS, p) || (marked(BLOCKS, from) && (if p > from {
        p - from
    } else {
        from - p
    }) <= 2 * stride(dir))
}

/// The piece that is sliding once the scan has passed the cell `p`, given
/// the one that was sliding before (`NONE` for none).
pub open spec fn carry(cells: Seq<Tile>, dir: int, o: int, p: int) -> int {
    if cells[p] != Tile::E {
        p
    } else if o != NONE && admits(o, p, dir) {
        o
    } else {
        NONE as int
    }
}

/// The piece that is sliding once the scan has passed `j` cells of a line.
pub open spec fn origin(cells: Seq<Tile>, dir: int, line: int, j: nat) -> int
    decreases j,
{
    if j == 0 {
        NONE as int
    } else {
        carry(cells, dir, origin(cells, dir, line, (j - 1) as nat), cell_at(dir, line, j - 1))
    }
}

/// The slide that ends on the scanned cell number `n`, if there is one: the
/// cell it starts from, else `NONE`. The cells are numbered through the four
/// directions, nine lines each, nine cells each.
pub open spec fn slide_onto(cells: Seq<Tile>, n: int) -> int {
    let dir = n / 81;
    let line = (n % 81) / 9;
    let j = n % 9;
    if cells[cell_at(dir, line, j)] == Tile::E {
        origin(cells, dir, line, (j + 1) as nat)
    } else {
        NONE as int
    }
}

/// The cell that the scan visits as number `n`.
pub open spec fn scanned(n: int) -> int {
    cell_at(n / 81, (n % 81) / 9, n % 9)
}

/// Whether a piece belongs to the side to move.
pub open spec fn allied(v: Position, t: Tile) -> bool {
    t != Tile::E && defends(v) == (t != Tile::A)
}

/// The moves found on the first `n` scanned cells.
pub open spec fn moves_upto(v: Position, n: nat) -> Seq<(u8, u8)>
    decreases n,
{
    if n == 0 {
        Seq::empty()
    } else {
        let o = slide_onto(v.cells, n - 1);
        if o != NONE && allied(v, v.cells[o]) {
            moves_upto(v, (n - 1) as nat).push((o as u8, scanned(n - 1) as u8))
        } else {
            moves_upto(v, (n - 1) as nat)
        }
    }
}

/// Every slide of a piece of the side to move, in the order of the scan;
/// the pass alone where there is none.
pub open spec fn all_moves(v: Position) -> Seq<(u8, u8)> {
    if moves_upto(v, 324).len() == 0 {
        seq![PASS]
    } else {
        moves_upto(v, 324)
    }
}

/// What holds of every position: the board has its 81 cells, and so has
/// each board that has come up.
pub open spec fn sound(v: Position) -> bool {
    &&& v.cells.len() == 81
    &&& forall|i: int| 0 <= i < v.seen.len() ==> (#[trigger] v.seen[i]).0.len() == 81
}

proof fn lemma_origin_range(cells: Seq<Tile>, dir: int, line: int, j: nat)
    requires
        0 <= dir < 4,
        0 <= line < 9,
        j <= 9,
        cells.len() == 81,
    ensures
        origin(cells, dir, line, j) == NONE || (0 <= origin(cells, dir, line, j) < 81
            && cells[origin(cells, dir, line, j)] != Tile::E),
    decreases j,
{
    if j > 0 {
        lemma_origin_range(cells, dir, line, (j - 1) as nat);
    }
}

/// A legal move is the pass, where nothing else can be done, or leads a
/// piece of the side to move onto an empty cell.
pub proof fn lemma_moves_sound(v: Position, n: nat, m: (u8, u8))
    requires
        sound(v),
        n <= 324,
        moves_upto(v, n).contains(m),
    ensures
        m.0 < 81,
        m.1 < 81,
        m.0 != m.1,
        allied(v, v.cells[m.0 as int]),
        v.cells[m.1 as int] == Tile::E,
    decreases n,
{
    if n > 0 {
        let o = slide_onto(v.cells, n - 1);
        let r = moves_upto(v, (n - 1) as nat);
        let k = n - 1;
        lemma_origin_range(v.cells, k / 81, (k % 81) / 9, (k % 9 + 1) as nat);
        if o != NONE && allied(v, v.cells[o]) {
            let x = (o as u8, scanned(n - 1) as u8);
            if r.contains(m) {
                lemma_moves_sound(v, (n - 1) as nat, m);
            } else {
                let i = choose|i: int| 0 <= i < r.push(x).len() && r.push(x)[i] == m;
                if i < r.len() {
                    assert(r[i] == m);
                }
                assert(m == x);
            }
        } else {
            lemma_moves_sound(v, (n - 1) as nat, m);
        }
    }
}

/// Whether the piece in place `i` of a line can slide to the cell in place
/// `j` further along the scan: a piece stands in place `i`, and every cell
/// behind it up to place `j` is empty and admits it.
pub open spec fn can_slide(cells: Seq<Tile>, dir: int, line: int, i: int, j: int) -> bool {
    &&& 0 <= i < j < 9
    &&& cells[cell_at(dir, line, i)] != Tile::E
    &&& forall|k: int|
        i < k <= j ==> cells[#[trigger] cell_at(dir, line, k)] == Tile::E && admits(
            cell_at(dir, line, i),
            cell_at(dir, line, k),
            dir,
        )
}

proof fn lemma_origin_place(cells: Seq<Tile>, dir: int, line: int, j: nat)
    requires
        0 <= dir < 4,
        0 <= line < 9,
        j <= 9,
    ensures
        origin(cells, dir, line, j) == NONE || exists|i: int|
            0 <= i < j && origin(cells, dir, line, j) == #[trigger] cell_at(dir, line, i),
    decreases j,
{
    if j > 0 {
        lemma_origin_place(cells, dir, line, (j - 1) as nat);
        let o = origin(cells, dir, line, (j - 1) as nat);
        let p = cell_at(dir, line, j - 1);
        let r = origin(cells, dir, line, j);
        if r != NONE {
            if r == p {
                assert(r == cell_at(dir, line, j - 1));
            } else {
                let i = choose|i: int| 0 <= i < j - 1 && o == #[trigger] cell_at(dir, line, i);
                assert(r == cell_at(dir, line, i));
            }
        }
    }
}

/// What the scan finds is what the rule says: once the scan has passed the
/// cell in place `j` of a line, the piece that is sliding is the one in
/// place `i` exactly if that piece can slide to place `j`.
pub proof fn lemma_origin(cells: Seq<Tile>, dir: int, line: int, i: int, j: int)
    requires
        0 <= dir < 4,
        0 <= line < 9,
        0 <= i < j < 9,
    ensures
        can_slide(cells, dir, line, i, j) <==> (cells[cell_at(dir, line, j)] == Tile::E && origin(
            cells,
            dir,
            line,
            (j + 1) as nat,
        ) == cell_at(dir, line, i)),
    decreases j,
{
    let cj = cell_at(dir, line, j);
    let ci = cell_at(dir, line, i);
    let o = origin(cells, dir, line, j as nat);
    lemma_origin_place(cells, dir, line, j as nat);
    if cells[cj] == Tile::E {
        // The piece that was sliding before the cell in place `j`.
        if i == j - 1 {
            let before = origin(cells, dir, line, (j - 1) as nat);
            lemma_origin_place(cells, dir, line, (j - 1) as nat);
            if cells[ci] == Tile::E {
                if before != NONE {
                    let k = choose|k: int|
                        0 <= k < j - 1 && before == #[trigger] cell_at(dir, line, k);
                    assert(cell_at(dir, line, k) != ci);
                }
                assert(o != ci);
            } else {
                assert(o == ci);
            }
            assert(can_slide(cells, dir, line, i, j) <==> (cells[ci] != Tile::E && admits(
                ci,
                cj,
                dir,
            ))) by {
                if cells[ci] != Tile::E && admits(ci, cj, dir) {
                    assert forall|k: int| i < k <= j implies cells[#[trigger] cell_at(
                        dir,
                        line,
                        k,
                    )] == Tile::E && admits(ci, cell_at(dir, line, k), dir) by {
                        assert(k == j);
                    }
                }
                if can_slide(cells, dir, line, i, j) {
                    assert(cells[cell_at(dir, line, j)] == Tile::E && admits(
                        ci,
                        cell_at(dir, line, j),
                        dir,
                    ));
                }
            }
        } else {
            lemma_origin(cells, dir, line, i, j - 1);
            let cm = cell_at(dir, line, j - 1);
            assert(cm != ci);
            if can_slide(cells, dir, line, i, j) {
                assert forall|k: int| i < k <= j - 1 implies cells[#[trigger] cell_at(
                    dir,
                    line,
                    k,
                )] == Tile::E && admits(ci, cell_at(dir, line, k), dir) by {}
                assert(can_slide(cells, dir, line, i, j - 1));
                assert(cells[cell_at(dir, line, j)] == Tile::E && admits(
                    ci,
                    cell_at(dir, line, j),
                    dir,
                ));
            }
            if o == ci && admits(ci, cj, dir) {
                assert(can_slide(cells, dir, line, i, j - 1));
                assert forall|k: int| i < k <= j implies cells[#[trigger] cell_at(
                    dir,
                    line,
                    k,
                )] == Tile::E && admits(ci, cell_at(dir, line, k), dir) by {
                    if k < j {
                        assert(cells[cell_at(dir, line, k)] == Tile::E);
                    }
                }
            }
        }
    } else {
        if can_slide(cells, dir, line, i, j) {
            assert(cells[cell_at(dir, line, j)] == Tile::E);
        }
    }
}

/// The moves are the slides of the pieces of the side to move: the move
/// from `o` to `p` is among those found on the first `n` scanned cells
/// exactly if `o` is a cell of the board, one of the scanned cells is `p`,
/// and the slide that ends on it there starts from `o`, a piece of the side
/// to move.
pub proof fn lemma_moves_are_slides(v: Position, n: nat, o: u8, p: u8)
    requires
        sound(v),
        n <= 324,
    ensures
        moves_upto(v, n).contains((o, p)) <==> o < 81 && exists|k: int|
            0 <= k < n && #[trigger] scanned(k) == p && slide_onto(v.cells, k) == o && allied(
                v,
                v.cells[o as int],
            ),
    decreases n,
{
    if n > 0 {
        let r = moves_upto(v, (n - 1) as nat);
        let k0 = n - 1;
        let so = slide_onto(v.cells, k0);
        lemma_moves_are_slides(v, (n - 1) as nat, o, p);
        lemma_origin_range(v.cells, k0 / 81, (k0 % 81) / 9, (k0 % 9 + 1) as nat);
        let here = so != NONE && allied(v, v.cells[so]);
        let x = (so as u8, scanned(k0) as u8);
        let hit = here && x == (o, p);
        if here {
            let s = r.push(x);
            if s.contains((o, p)) {
                let i = choose|i: int| 0 <= i < s.len() && s[i] == (o, p);
                if i < r.len() {
                    assert(r[i] == (o, p));
                    assert(r.contains((o, p)));
                }
            }
            if r.contains((o, p)) {
                let i = choose|i: int| 0 <= i < r.len() && r[i] == (o, p);
                assert(s[i] == (o, p));
            }
            if x == (o, p) {
                assert(s[r.len() as int] == (o, p));
            }
            assert(s.contains((o, p)) <==> r.contains((o, p)) || x == (o, p));
        }
        assert(moves_upto(v, n).contains((o, p)) <==> r.contains((o, p)) || hit);
        if hit {
            assert(0 <= k0 < n && scanned(k0) == p && slide_onto(v.cells, k0) == o);
        }
        if o < 81 && exists|k: int|
            0 <= k < n && #[trigger] scanned(k) == p && slide_onto(v.cells, k) == o && allied(
                v,
                v.cells[o as int],
            ) {
            let k = choose|k: int|
                0 <= k < n && #[trigger] scanned(k) == p && slide_onto(v.cells, k) == o
                    && allied(v, v.cells[o as int]);
            if k == k0 {
                assert(hit);
            } else {
                assert(0 <= k < n - 1 && scanned(k) == p);
            }
        }
    }
}

proof fn lemma_scan_index(dir: int, line: int, j: int)
    requires
        0 <= dir < 4,
        0 <= line < 9,
        0 <= j < 9,
    ensures
        (dir * 81 + line * 9 + j) / 81 == dir,
        ((dir * 81 + line * 9 + j) % 81) / 9 == line,
        (dir * 81 + line * 9 + j) % 9 == j,
{
}

/// The cell that a scan visits in place `j` of line `line`.
fn cell_of(dir: u8, line: u8, j: u8) -> (p: u8)
    requires
        dir < 4,
        line < 9,
        j < 9,
    ensures
        p == cell_at(dir as int, line as int, j as int),
        p < 81,
{
    if dir == 0 {
        line * 9 + j
    } else if dir == 1 {
        line * 9 + (8 - j)
    } else if dir == 2 {
        j * 9 + line
    } else {
        (8 - j) * 9 + line
    }
}

impl Tablut {
    /// The representation invariant: no stray bits in any packed board.
    pub closed spec fn tidy_all(&self) -> bool {
        &&& tidy(self.board)
        &&& forall|i: int| 0 <= i < self.vis@.len() ==> tidy((#[trigger] self.vis@[i]).0)
    }

    /// What the cell `pos` holds.
    pub fn get(&self, pos: u8) -> (r: Tile)
        requires
            pos < 81,
        ensures
            r == self@.cells[pos as int],
    {
        assert(pos >> 2 == pos / 4 && pos & 3 == pos % 4) by (bit_vector);
        Tile::from((self.board[(pos >> 2) as usize] >> (pos & 3) >> (pos & 3)) & 3)
    }

    /// Puts `v` on the cell `pos`.
    pub fn set(&mut self, pos: u8, v: Tile)
        requires
            pos < 81,
        ensures
            final(self)@ == (Position { cells: old(self)@.cells.update(pos as int, v), ..old(self)@ }),
            old(self).tidy_all() ==> final(self).tidy_all(),
    {
        assert(pos >> 2 == pos / 4 && pos & 3 == pos % 4) by (bit_vector);
        let i = (pos >> 2) as usize;
        let k = pos & 3;
        let c = code(v);
        let x = self.board[i];
        let y = (x & !(3u8 << k << k)) | (c << k << k);
        self.board[i] = y;
        proof {
            lemma_crumbs(x, k, c);
            lemma_tile_codes(v);
            assert forall|q: int| 0 <= q < 81 implies unpack(self.board)[q] == unpack(
                old(self).board,
            ).update(pos as int, v)[q] by {
                if q / 4 == i as int {
                    let j = (q % 4) as u8;
                    if j != k {
                        assert(crumb(with_crumb(x, k, c), j) == crumb(x, j));
                    }
                }
            }
            assert(unpack(self.board) =~= unpack(old(self).board).update(pos as int, v));
        }
    }

    /// Whether the defenders are to move.
    fn defending(&self) -> (r: bool)
        ensures
            r == defends(self@),
    {
        (self.turn & 1) == 0
    }

    /// The piece that is sliding once the scan has passed the cell `p`.
    fn slider(&self, dir: u8, last: u8, p: u8) -> (r: u8)
        requires
            dir < 4,
            p < 81,
            last < 81 || last == NONE,
        ensures
            r == carry(self@.cells, dir as int, last as int, p as int),
            r < 81 || r == NONE,
    {
        if self.get(p) != Tile::E {
            p
        } else if last == NONE {
            NONE
        } else if !is_block_um(p) {
            last
        } else {
            let dist = if p > last { p - last } else { last - p };
            let reach: u8 = if dir < 2 { 2 } else { 18 };
            if is_block_um(last) && dist <= reach {
                last
            } else {
                NONE
            }
        }
    }

    /// The legal moves.
    pub fn list_moves(&self) -> (r: Vec<(u8, u8)>)
        ensures
            r@ == all_moves(self@),
    {
        let mut ans: Vec<(u8, u8)> = Vec::new();
        let defending = self.defending();
        let mut dir: u8 = 0;
        while dir < 4
            invariant
                dir <= 4,
                defending == defends(self@),
                ans@ == moves_upto(self@, (dir * 81) as nat),
            decreases 4 - dir,
        {
            let mut line: u8 = 0;
            while line < 9
                invariant
                    dir < 4,
                    line <= 9,
                    defending == defends(self@),
                    ans@ == moves_upto(self@, (dir * 81 + line * 9) as nat),
                decreases 9 - line,
            {
                let mut last: u8 = NONE;
                let mut j: u8 = 0;
                while j < 9
                    invariant
                        dir < 4,
                        line < 9,
                        j <= 9,
                        defending == defends(self@),
                        last < 81 || last == NONE,
                        last == origin(self@.cells, dir as int, line as int, j as nat),
                        ans@ == moves_upto(self@, (dir * 81 + line * 9 + j) as nat),
                    decreases 9 - j,
                {
                    let p = cell_of(dir, line, j);
                    let t = self.get(p);
                    last = self.slider(dir, last, p);
                    proof {
                        lemma_scan_index(dir as int, line as int, j as int);
                    }
                    if t == Tile::E && last != NONE {
                        let lt = self.get(last);
                        if lt != Tile::E && defending == (lt != Tile::A) {
                            ans.push((last, p));
                        }
                    }
                    j += 1;
                }
                line += 1;
            }
            dir += 1;
        }
        if ans.len() == 0 {
            ans.push(PASS);
            assert(ans@ =~= seq![PASS]);
        }
        ans
    }
}

/// Whether the cell `c` counts against a piece of the side that did not
/// move: a piece of the side that moved stands on it, or it helps a capture
/// and nothing stands on it.
pub open spec fn hostile(cells: Seq<Tile>, mover_defends: bool, c: int) -> bool {
    0 <= c < 81 && ((if mover_defends {
        cells[c] == Tile::D || cells[c] == Tile::K
    } else {
        cells[c] == Tile::A
    }) || (marked(AIDS, c) && cells[c] == Tile::E))
}

/// Whether the cell `c` is the throne or next to it.
pub open spec fn by_throne(c: int) -> bool {
    c == 40 || c == 31 || c == 39 || c == 49 || c == 41
}

/// Whether the cell `c` counts against the king when he is closed in on
/// all four sides: an attacker stands on it, or, unless the rule is the
/// strict one, it is an empty cell that helps a capture.
pub open spec fn besieging(cells: Seq<Tile>, strict: bool, c: int) -> bool {
    0 <= c < 81 && (cells[c] == Tile::A || (!strict && marked(AIDS, c) && cells[c] == Tile::E))
}

/// Whether the piece on `a1` is taken, `a2` being the cell behind it as seen
/// from the piece that moved. An attacker or a defender falls between two
/// hostile cells. The king falls when all four cells around him count
/// against him, and away from the throne also like any other piece.
pub open spec fn taken(cells: Seq<Tile>, mover_defends: bool, strict: bool, a1: int, a2: int)
    -> bool {
    if mover_defends {
        cells[a1] == Tile::A && hostile(cells, true, a2)
    } else {
        ||| (cells[a1] == Tile::D && hostile(cells, false, a2))
        ||| (cells[a1] == Tile::K && besieging(cells, strict, a1 + 9) && besieging(
            cells,
            strict,
            a1 - 9,
        ) && besieging(cells, strict, a1 + 1) && besieging(cells, strict, a1 - 1))
        ||| (cells[a1] == Tile::K && !by_throne(a1) && hostile(cells, false, a2))
    }
}

/// The neighbour of `to` that a capture in direction `i` concerns, `NONE`
/// where the board ends before the cell behind it. The directions are down,
/// up, right and left.
pub open spec fn prey(to: int, i: int) -> int {
    if i == 0 {
        if to + 18 < 81 {
            to + 9
        } else {
            NONE as int
        }
    } else if i == 1 {
        if to >= 18 {
            to - 9
        } else {
            NONE as int
        }
    } else if i == 2 {
        if to % 9 < 7 {
            to + 1
        } else {
            NONE as int
        }
    } else {
        if to % 9 >= 2 {
            to - 1
        } else {
            NONE as int
        }
    }
}

/// Whether the neighbour of `to` in direction `i` is taken.
pub open spec fn falls(cells: Seq<Tile>, mover_defends: bool, strict: bool, to: int, i: int)
    -> bool {
    prey(to, i) != NONE && taken(cells, mover_defends, strict, prey(to, i), 2 * prey(to, i) - to)
}

/// The cells with `q` emptied where `f` holds.
pub open spec fn clear_if(cells: Seq<Tile>, f: bool, q: int) -> Seq<Tile> {
    if f {
        cells.update(q, Tile::E)
    } else {
        cells
    }
}

/// The cells after the captures that the piece which landed on `to` makes.
pub open spec fn cleared(cells: Seq<Tile>, mover_defends: bool, strict: bool, to: int) -> Seq<
    Tile,
> {
    let c0 = clear_if(cells, falls(cells, mover_defends, strict, to, 0), prey(to, 0));
    let c1 = clear_if(c0, falls(cells, mover_defends, strict, to, 1), prey(to, 1));
    let c2 = clear_if(c1, falls(cells, mover_defends, strict, to, 2), prey(to, 2));
    clear_if(c2, falls(cells, mover_defends, strict, to, 3), prey(to, 3))
}

/// Whether the king is among the pieces taken.
pub open spec fn king_falls(cells: Seq<Tile>, mover_defends: bool, strict: bool, to: int) -> bool {
    exists|i: int|
        0 <= i < 4 && #[trigger] falls(cells, mover_defends, strict, to, i) && cells[prey(to, i)]
            == Tile::K
}

/// The count of moves after one more.
pub open spec fn bump(turn: u32) -> u32 {
    if turn == u32::MAX {
        0
    } else {
        (turn + 1) as u32
    }
}

/// The count of moves before the last one.
pub open spec fn unbump(turn: u32) -> u32 {
    if turn == 0 {
        u32::MAX
    } else {
        (turn - 1) as u32
    }
}

/// The position after the move `m`. The pass loses the game for the side
/// that has to make it. Any other move slides a piece and takes what it
/// closes in on; the king taken is a loss, the king on an escape square a
/// win, and a position that has come up before a draw whatever else holds.
pub open spec fn after(v: Position, m: (u8, u8)) -> Position {
    if m.0 == m.1 {
        Position {
            turn: bump(v.turn),
            state: if defends(v) {
                State::Lose
            } else {
                State::Win
            },
            ..v
        }
    } else {
        let d = defends(v);
        let to = m.1 as int;
        let slid = v.cells.update(m.0 as int, Tile::E).update(to, v.cells[m.0 as int]);
        let cells = cleared(slid, d, v.strict, to);
        let s1 = if king_falls(slid, d, v.strict, to) {
            State::Lose
        } else {
            v.state
        };
        let s2 = if marked(GOALS, to) && cells[to] == Tile::K {
            State::Win
        } else {
            s1
        };
        let turn = bump(v.turn);
        let k = (cells, turn & 1 == 0);
        if v.seen.contains(k) {
            Position { cells, turn, state: State::Draw, seen: v.seen, strict: v.strict }
        } else {
            Position { cells, turn, state: s2, seen: v.seen.push(k), strict: v.strict }
        }
    }
}

/// Four pairs of bits in one byte, the first lowest.
pub open spec fn pack4(c0: u8, c1: u8, c2: u8, c3: u8) -> u8 {
    c0 | (c1 << 2u8) | (c2 << 4u8) | (c3 << 6u8)
}

/// The bits for what the cell `q` holds, 0 where `ok` does not hold.
pub open spec fn note(cells: Seq<Tile>, ok: bool, q: int) -> u8 {
    if ok {
        code_of(cells[q])
    } else {
        0
    }
}

/// What is kept to take the move `m` back: the move, and what the four
/// neighbours of its end hold, as far as they exist.
pub open spec fn receipt(v: Position, m: (u8, u8)) -> ((u8, u8), u8) {
    let to = m.1 as int;
    (
        m,
        pack4(
            note(v.cells, to + 9 < 81, to + 9),
            note(v.cells, to >= 9, to - 9),
            note(v.cells, to + 1 < 81, to + 1),
            note(v.cells, to >= 1, to - 1),
        ),
    )
}

/// The cells with `t` put on `q` where `ok` holds.
pub open spec fn put_if(cells: Seq<Tile>, ok: bool, q: int, t: Tile) -> Seq<Tile> {
    if ok {
        cells.update(q, t)
    } else {
        cells
    }
}

/// The cells as the token restores them.
pub open spec fn restored(cells: Seq<Tile>, m: (u8, u8), r: u8) -> Seq<Tile> {
    let to = m.1 as int;
    let c0 = put_if(cells, to + 9 < 81, to + 9, tile_of(r));
    let c1 = put_if(c0, to >= 9, to - 9, tile_of(r >> 2u8));
    let c2 = put_if(c1, to + 1 < 81, to + 1, tile_of(r >> 4u8));
    let c3 = put_if(c2, to >= 1, to - 1, tile_of(r >> 6u8));
    c3.update(m.0 as int, c3[to]).update(to, Tile::E)
}

/// The position before the move recorded in `rb`.
pub open spec fn before(v: Position, rb: ((u8, u8), u8)) -> Position {
    let m = rb.0;
    let r = rb.1;
    if m.0 == m.1 {
        Position { turn: unbump(v.turn), state: State::Going, ..v }
    } else {
        Position {
            cells: restored(v.cells, m, r),
            turn: unbump(v.turn),
            state: State::Going,
            seen: if v.state != State::Draw && v.seen.len() > 0 {
                v.seen.drop_last()
            } else {
                v.seen
            },
            strict: v.strict,
        }
    }
}

/// Whether a packed board exists for the cells.
pub open spec fn packable(cells: Seq<Tile>) -> bool {
    exists|b: [u8; 21]| tidy(b) && unpack(b) == cells
}

/// The packed board of the cells.
pub open spec fn pack(cells: Seq<Tile>) -> [u8; 21] {
    choose|b: [u8; 21]| tidy(b) && unpack(b) == cells
}

/// What holds of every position that play can reach.
pub open spec fn reachable(v: Position) -> bool {
    sound(v) && packable(v.cells)
}

/// Whether the token `rb` can be applied to `v`.
pub open spec fn fits(v: Position, rb: ((u8, u8), u8)) -> bool {
    &&& reachable(v)
    &&& rb.0.0 < 81
    &&& rb.0.1 < 81
}

/// The start of a game.
pub open spec fn first_tile(p: int) -> Tile {
    if marked(FIRST_A, p) {
        Tile::A
    } else if marked(FIRST_D, p) {
        Tile::D
    } else if marked(FIRST_K, p) {
        Tile::K
    } else {
        Tile::E
    }
}

/// The start of a game.
pub open spec fn opening(t: bool) -> Position {
    let cells = Seq::new(81, |p: int| first_tile(p));
    Position {
        cells,
        turn: if t {
            0
        } else {
            1
        },
        state: State::Going,
        seen: seq![(cells, t)],
        strict: false,
    }
}

proof fn lemma_pack4(c0: u8, c1: u8, c2: u8, c3: u8)
    requires
        c0 <= 3,
        c1 <= 3,
        c2 <= 3,
        c3 <= 3,
    ensures
        pack4(c0, c1, c2, c3) & 3 == c0,
        (pack4(c0, c1, c2, c3) >> 2u8) & 3 == c1,
        (pack4(c0, c1, c2, c3) >> 4u8) & 3 == c2,
        (pack4(c0, c1, c2, c3) >> 6u8) & 3 == c3,
{
    assert(c0 <= 3 && c1 <= 3 && c2 <= 3 && c3 <= 3 ==> (c0 | (c1 << 2u8) | (c2 << 4u8) | (c3
        << 6u8)) & 3 == c0 && ((c0 | (c1 << 2u8) | (c2 << 4u8) | (c3 << 6u8)) >> 2u8) & 3 == c1
        && ((c0 | (c1 << 2u8) | (c2 << 4u8) | (c3 << 6u8)) >> 4u8) & 3 == c2 && ((c0 | (c1
        << 2u8) | (c2 << 4u8) | (c3 << 6u8)) >> 6u8) & 3 == c3) by (bit_vector);
}

proof fn lemma_note(cells: Seq<Tile>, ok: bool, q: int)
    ensures
        note(cells, ok, q) <= 3,
        ok ==> tile_of(note(cells, ok, q)) == cells[q],
        forall|x: u8| x & 3 == note(cells, ok, q) && ok ==> tile_of(x) == cells[q],
{
    if ok {
        lemma_tile_codes(cells[q]);
    }
    assert(forall|x: u8| #[trigger] ((x & 3) & 3) == x & 3) by (bit_vector);
}

/// A board can be packed again after a cell has changed.
proof fn lemma_packable_update(cells: Seq<Tile>, q: int, t: Tile)
    requires
        packable(cells),
        0 <= q < 81,
    ensures
        packable(cells.update(q, t)),
{
    let b = choose|b: [u8; 21]| tidy(b) && unpack(b) == cells;
    let i = q / 4;
    let k = (q % 4) as u8;
    let c = code_of(t);
    let x = b[i];
    let b2 = vstd::array::spec_array_update(b, i, with_crumb(x, k, c));
    lemma_crumbs(x, k, c);
    lemma_tile_codes(t);
    assert forall|p: int| 0 <= p < 81 implies unpack(b2)[p] == cells.update(q, t)[p] by {
        if p / 4 == i {
            let j = (p % 4) as u8;
            if j != k {
                assert(crumb(with_crumb(x, k, c), j) == crumb(x, j));
            }
        }
        assert(unpack(b)[p] == cells[p]);
    }
    assert(unpack(b2) =~= cells.update(q, t));
    assert(tidy(b2));
}

proof fn lemma_prey_range(to: int, i: int)
    requires
        0 <= to < 81,
        0 <= i < 4,
    ensures
        prey(to, i) == NONE || (0 <= prey(to, i) < 81 && 0 <= 2 * prey(to, i) - to < 81),
{
}

proof fn lemma_cleared(cells: Seq<Tile>, d: bool, strict: bool, to: int)
    requires
        0 <= to < 81,
        cells.len() == 81,
        packable(cells),
    ensures
        cleared(cells, d, strict, to).len() == 81,
        packable(cleared(cells, d, strict, to)),
        forall|q: int|
            0 <= q < 81 && q != to + 9 && q != to - 9 && q != to + 1 && q != to - 1 ==> cleared(
                cells,
                d,
                strict,
                to,
            )[q] == cells[q],
{
    let c0 = clear_if(cells, falls(cells, d, strict, to, 0), prey(to, 0));
    let c1 = clear_if(c0, falls(cells, d, strict, to, 1), prey(to, 1));
    let c2 = clear_if(c1, falls(cells, d, strict, to, 2), prey(to, 2));
    lemma_prey_range(to, 0);
    lemma_prey_range(to, 1);
    lemma_prey_range(to, 2);
    lemma_prey_range(to, 3);
    if falls(cells, d, strict, to, 0) {
        lemma_packable_update(cells, prey(to, 0), Tile::E);
    }
    if falls(cells, d, strict, to, 1) {
        lemma_packable_update(c0, prey(to, 1), Tile::E);
    }
    if falls(cells, d, strict, to, 2) {
        lemma_packable_update(c1, prey(to, 2), Tile::E);
    }
    if falls(cells, d, strict, to, 3) {
        lemma_packable_update(c2, prey(to, 3), Tile::E);
    }
}

/// The turn passes with every move.
pub proof fn lemma_turn_passes(v: Position, m: (u8, u8))
    ensures
        defends(after(v, m)) == !defends(v),
{
    let t = v.turn;
    assert(bump(t) & 1 == 0 <==> t & 1 != 0) by {
        assert(t < u32::MAX ==> (((t + 1) as u32) & 1 == 0 <==> t & 1 != 0)) by (bit_vector);
        assert(0xffff_ffffu32 & 1 != 0 && 0u32 & 1 == 0) by (bit_vector);
    }
}

/// Among the legal moves only the pass ends where it starts.
pub proof fn lemma_pass(v: Position, m: (u8, u8))
    requires
        sound(v),
        all_moves(v).contains(m),
        m.0 == m.1,
    ensures
        m == PASS,
{
    if moves_upto(v, 324).len() == 0 {
        assert(seq![PASS][0] == m);
    } else {
        lemma_moves_sound(v, 324, m);
    }
}

/// A legal move leads to a reachable position.
pub proof fn lemma_after_reachable(v: Position, m: (u8, u8))
    requires
        reachable(v),
        all_moves(v).contains(m),
    ensures
        reachable(after(v, m)),
{
    if m.0 != m.1 {
        assert(moves_upto(v, 324).contains(m)) by {
            if moves_upto(v, 324).len() == 0 {
                assert(seq![PASS][0] == m);
            }
        }
        lemma_moves_sound(v, 324, m);
        let to = m.1 as int;
        let s0 = v.cells.update(m.0 as int, Tile::E);
        let slid = s0.update(to, v.cells[m.0 as int]);
        lemma_packable_update(v.cells, m.0 as int, Tile::E);
        lemma_packable_update(s0, to, v.cells[m.0 as int]);
        lemma_cleared(slid, defends(v), v.strict, to);
        let n = after(v, m);
        assert forall|i: int| 0 <= i < n.seen.len() implies (#[trigger] n.seen[i]).0.len()
            == 81 by {
            if i < v.seen.len() {
                assert(n.seen[i] == v.seen[i]);
            }
        }
    }
}

proof fn lemma_restore(orig: Seq<Tile>, mid: Seq<Tile>, m: (u8, u8), r: u8)
    requires
        orig.len() == 81,
        mid.len() == 81,
        m.0 < 81,
        m.1 < 81,
        m.0 != m.1,
        orig[m.1 as int] == Tile::E,
        mid[m.1 as int] == orig[m.0 as int],
        forall|q: int|
            0 <= q < 81 && q != m.1 + 9 && q != m.1 - 9 && q != m.1 + 1 && q != m.1 - 1 && q
                != m.0 && q != m.1 ==> mid[q] == orig[q],
        m.1 + 9 < 81 ==> tile_of(r) == orig[m.1 + 9],
        m.1 >= 9 ==> tile_of(r >> 2u8) == orig[m.1 - 9],
        m.1 + 1 < 81 ==> tile_of(r >> 4u8) == orig[m.1 + 1],
        m.1 >= 1 ==> tile_of(r >> 6u8) == orig[m.1 - 1],
    ensures
        restored(mid, m, r) == orig,
{
    assert(restored(mid, m, r) =~= orig);
}

proof fn lemma_receipt(cells: Seq<Tile>, v: Position, m: (u8, u8))
    requires
        cells == v.cells,
        cells.len() == 81,
        m.1 < 81,
    ensures
        m.1 + 9 < 81 ==> tile_of(receipt(v, m).1) == cells[m.1 + 9],
        m.1 >= 9 ==> tile_of(receipt(v, m).1 >> 2u8) == cells[m.1 - 9],
        m.1 + 1 < 81 ==> tile_of(receipt(v, m).1 >> 4u8) == cells[m.1 + 1],
        m.1 >= 1 ==> tile_of(receipt(v, m).1 >> 6u8) == cells[m.1 - 1],
{
    let to = m.1 as int;
    let n0 = note(v.cells, to + 9 < 81, to + 9);
    let n1 = note(v.cells, to >= 9, to - 9);
    let n2 = note(v.cells, to + 1 < 81, to + 1);
    let n3 = note(v.cells, to >= 1, to - 1);
    lemma_note(v.cells, to + 9 < 81, to + 9);
    lemma_note(v.cells, to >= 9, to - 9);
    lemma_note(v.cells, to + 1 < 81, to + 1);
    lemma_note(v.cells, to >= 1, to - 1);
    lemma_pack4(n0, n1, n2, n3);
}

/// Undo is a true inverse: the token of a legal move takes the position
/// back to what it was, cell for cell, with its turn, its state and its
/// record of the positions that have come up.
pub proof fn lemma_undo(v: Position, m: (u8, u8))
    requires
        reachable(v),
        v.state == State::Going,
        all_moves(v).contains(m),
    ensures
        fits(after(v, m), receipt(v, m)),
        before(after(v, m), receipt(v, m)) == v,
{
    lemma_after_reachable(v, m);
    let n = after(v, m);
    let rb = receipt(v, m);
    let p = before(n, rb);
    if m.0 != m.1 {
        assert(moves_upto(v, 324).contains(m)) by {
            if moves_upto(v, 324).len() == 0 {
                assert(seq![PASS][0] == m);
            }
        }
        lemma_moves_sound(v, 324, m);
        let to = m.1 as int;
        let s0 = v.cells.update(m.0 as int, Tile::E);
        let slid = s0.update(to, v.cells[m.0 as int]);
        lemma_packable_update(v.cells, m.0 as int, Tile::E);
        lemma_packable_update(s0, to, v.cells[m.0 as int]);
        lemma_cleared(slid, defends(v), v.strict, to);
        lemma_receipt(v.cells, v, m);
        let mid = cleared(slid, defends(v), v.strict, to);
        assert(n.cells == mid);
        lemma_restore(v.cells, mid, m, rb.1);
        assert(p.cells == restored(n.cells, m, rb.1));
        assert(p.seen =~= v.seen);
    } else {
        lemma_pass(v, m);
    }
}

/// The number of `who` on the cells below `n`.
pub open spec fn tally(cells: Seq<Tile>, who: Tile, n: nat) -> int
    decreases n,
{
    if n == 0 {
        0
    } else if cells[n - 1] == who {
        tally(cells, who, (n - 1) as nat) + 1
    } else {
        tally(cells, who, (n - 1) as nat)
    }
}

/// The number of slides that the pieces `who` can make onto the first `n`
/// scanned cells, whoever is to move.
pub open spec fn slides(cells: Seq<Tile>, who: Tile, n: nat) -> int
    decreases n,
{
    if n == 0 {
        0
    } else if slide_onto(cells, n - 1) != NONE && cells[slide_onto(cells, n - 1)] == who {
        slides(cells, who, (n - 1) as nat) + 1
    } else {
        slides(cells, who, (n - 1) as nat)
    }
}

/// The last cell below `n` that holds the king, 0 if none does.
pub open spec fn king_below(cells: Seq<Tile>, n: nat) -> int
    decreases n,
{
    if n == 0 {
        0
    } else if cells[n - 1] == Tile::K {
        n - 1
    } else {
        king_below(cells, (n - 1) as nat)
    }
}

/// The side to move, as a bonus of one point.
pub open spec fn tempo(v: Position) -> int {
    if defends(v) {
        1
    } else {
        -1
    }
}

/// What a position that is still going is worth: six for a defender, three
/// against for an attacker, and for each slide that a piece could make two
/// for a defender, four for the king and one against for an attacker.
pub open spec fn outlook(v: Position) -> int {
    -16 + tempo(v) + 6 * tally(v.cells, Tile::D, 81) - 3 * tally(v.cells, Tile::A, 81) + 2
        * slides(v.cells, Tile::D, 324) + 4 * slides(v.cells, Tile::K, 324) - slides(
        v.cells,
        Tile::A,
        324,
    )
}

/// What a game is worth that was won before the first move. Each move
/// made takes one off, and what is left is above 30000 however many moves
/// were counted.
pub const WON: i64 = 0x1_0000_7530;

/// The static evaluation: a decided game is worth the more to the side
/// that has won the fewer moves it took, a draw nothing, and a game that is
/// going what its outlook says.
pub open spec fn rating(v: Position) -> int {
    match v.state {
        State::Win => WON - v.turn,
        State::Lose => -WON + v.turn,
        State::Draw => 0,
        State::Going => outlook(v),
    }
}

proof fn lemma_tally_bound(cells: Seq<Tile>, who: Tile, n: nat)
    ensures
        0 <= tally(cells, who, n) <= n,
    decreases n,
{
    if n > 0 {
        lemma_tally_bound(cells, who, (n - 1) as nat);
    }
}

proof fn lemma_slides_bound(cells: Seq<Tile>, who: Tile, n: nat)
    ensures
        0 <= slides(cells, who, n) <= n,
    decreases n,
{
    if n > 0 {
        lemma_slides_bound(cells, who, (n - 1) as nat);
    }
}

/// The evaluation tells the decided games from those that are going: a win
/// is worth more than 30000, a loss less than -30000, a draw nothing, and a
/// game that is going something in between.
pub proof fn lemma_rating_ranges(v: Position)
    ensures
        v.state == State::Win ==> 30000 < rating(v) <= WON,
        v.state == State::Lose ==> -WON <= rating(v) < -30000,
        v.state == State::Draw ==> rating(v) == 0,
        v.state == State::Going ==> -30000 < rating(v) < 30000,
{
    lemma_tally_bound(v.cells, Tile::D, 81);
    lemma_tally_bound(v.cells, Tile::A, 81);
    lemma_slides_bound(v.cells, Tile::D, 324);
    lemma_slides_bound(v.cells, Tile::K, 324);
    lemma_slides_bound(v.cells, Tile::A, 324);
}

/// Of two games that the same side has won, the one that took fewer moves
/// is worth more to that side.
pub proof fn lemma_quicker_win(a: Position, b: Position)
    requires
        a.state == b.state,
        a.state == State::Win || a.state == State::Lose,
        a.turn < b.turn,
    ensures
        a.state == State::Win ==> rating(a) > rating(b),
        a.state == State::Lose ==> rating(a) < rating(b),
{
}

/// Whether two packed boards are the same.
fn same_board(a: &[u8; 21], b: &[u8; 21]) -> (r: bool)
    ensures
        r == (*a == *b),
{
    let mut i: usize = 0;
    while i < 21
        invariant
            i <= 21,
            forall|j: int| 0 <= j < i ==> a[j] == b[j],
        decreases 21 - i,
    {
        if a[i] != b[i] {
            return false;
        }
        i += 1;
    }
    assert(*a =~= *b);
    true
}

impl Tablut {
    /// Whether the cell `c` counts against a piece of the side that did not
    /// move.
    fn hostile_at(&self, mover_defends: bool, c: u8) -> (r: bool)
        requires
            c < 81,
        ensures
            r == hostile(self@.cells, mover_defends, c as int),
    {
        let t = self.get(c);
        if mover_defends {
            t == Tile::D || t == Tile::K || (t == Tile::E && is_capture_aid(c))
        } else {
            t == Tile::A || (t == Tile::E && is_capture_aid(c))
        }
    }

    /// Whether the cell `c` counts against the king when he is closed in on
    /// all four sides.
    fn besieging_at(&self, c: u8) -> (r: bool)
        requires
            c < 81,
        ensures
            r == besieging(self@.cells, self@.strict, c as int),
    {
        let t = self.get(c);
        t == Tile::A || (!self.strict && t == Tile::E && is_capture_aid(c))
    }

    /// Whether the side to move, having just moved, takes the piece on `a1`,
    /// `a2` being the cell behind it.
    pub fn captured(&self, a1: u8, a2: u8) -> (r: bool)
        requires
            a1 < 81,
            a2 < 81,
        ensures
            r == taken(self@.cells, defends(self@), self@.strict, a1 as int, a2 as int),
    {
        let t = self.get(a1);
        if self.defending() {
            t == Tile::A && self.hostile_at(true, a2)
        } else if t == Tile::D {
            self.hostile_at(false, a2)
        } else if t == Tile::K {
            let around = a1 + 9 < 81 && self.besieging_at(a1 + 9) && a1 >= 9 && self.besieging_at(
                a1 - 9,
            ) && a1 + 1 < 81 && self.besieging_at(a1 + 1) && a1 >= 1 && self.besieging_at(a1 - 1);
            let away = a1 != 40 && a1 != 31 && a1 != 39 && a1 != 49 && a1 != 41;
            around || (away && self.hostile_at(false, a2))
        } else {
            false
        }
    }

    /// Whether the position with this key has come up.
    fn seen_before(&self, key: &([u8; 21], bool)) -> (r: bool)
        requires
            self.tidy_all(),
            tidy(key.0),
        ensures
            r == self@.seen.contains((unpack(key.0), key.1)),
    {
        let mut i: usize = 0;
        while i < self.vis.len()
            invariant
                i <= self.vis.len(),
                self.tidy_all(),
                tidy(key.0),
                forall|j: int| 0 <= j < i ==> self@.seen[j] != (unpack(key.0), key.1),
            decreases self.vis.len() - i,
        {
            if same_board(&self.vis[i].0, &key.0) && self.vis[i].1 == key.1 {
                assert(self@.seen[i as int] == (unpack(key.0), key.1));
                return true;
            }
            proof {
                if self@.seen[i as int] == (unpack(key.0), key.1) {
                    lemma_unpack_decides(self.vis@[i as int].0, key.0);
                }
            }
            i += 1;
        }
        false
    }

    /// The attackers and the defenders on the board.
    pub fn material(&self) -> (r: (i64, i64))
        ensures
            r.0 == tally(self@.cells, Tile::A, 81),
            r.1 == tally(self@.cells, Tile::D, 81),
            0 <= r.0 <= 81,
            0 <= r.1 <= 81,
    {
        let mut na: i64 = 0;
        let mut nd: i64 = 0;
        let mut i: u8 = 0;
        while i < 81
            invariant
                i <= 81,
                0 <= na <= i,
                0 <= nd <= i,
                na == tally(self@.cells, Tile::A, i as nat),
                nd == tally(self@.cells, Tile::D, i as nat),
            decreases 81 - i,
        {
            let t = self.get(i);
            if t == Tile::D {
                nd += 1;
            }
            if t == Tile::A {
                na += 1;
            }
            i += 1;
        }
        (na, nd)
    }

    /// The last cell that holds the king, 0 if none does.
    pub fn king_cell(&self) -> (r: u8)
        ensures
            r == king_below(self@.cells, 81),
            r < 81,
    {
        let mut kp: u8 = 0;
        let mut i: u8 = 0;
        while i < 81
            invariant
                i <= 81,
                kp < 81,
                kp == king_below(self@.cells, i as nat),
            decreases 81 - i,
        {
            if self.get(i) == Tile::K {
                kp = i;
            }
            i += 1;
        }
        kp
    }

    /// The slides that the attackers, the defenders and the king could make,
    /// whoever is to move.
    pub fn mobility(&self) -> (r: (i64, i64, i64))
        ensures
            r.0 == slides(self@.cells, Tile::A, 324),
            r.1 == slides(self@.cells, Tile::D, 324),
            r.2 == slides(self@.cells, Tile::K, 324),
            0 <= r.0 <= 324,
            0 <= r.1 <= 324,
            0 <= r.2 <= 324,
    {
        let mut ma: i64 = 0;
        let mut md: i64 = 0;
        let mut mk: i64 = 0;
        let mut dir: u8 = 0;
        while dir < 4
            invariant
                dir <= 4,
                0 <= ma <= dir * 81,
                0 <= md <= dir * 81,
                0 <= mk <= dir * 81,
                ma == slides(self@.cells, Tile::A, (dir * 81) as nat),
                md == slides(self@.cells, Tile::D, (dir * 81) as nat),
                mk == slides(self@.cells, Tile::K, (dir * 81) as nat),
            decreases 4 - dir,
        {
            let mut line: u8 = 0;
            while line < 9
                invariant
                    dir < 4,
                    line <= 9,
                    0 <= ma <= dir * 81 + line * 9,
                    0 <= md <= dir * 81 + line * 9,
                    0 <= mk <= dir * 81 + line * 9,
                    ma == slides(self@.cells, Tile::A, (dir * 81 + line * 9) as nat),
                    md == slides(self@.cells, Tile::D, (dir * 81 + line * 9) as nat),
                    mk == slides(self@.cells, Tile::K, (dir * 81 + line * 9) as nat),
                decreases 9 - line,
            {
                let mut last: u8 = NONE;
                let mut j: u8 = 0;
                while j < 9
                    invariant
                        dir < 4,
                        line < 9,
                        j <= 9,
                        last < 81 || last == NONE,
                        last == origin(self@.cells, dir as int, line as int, j as nat),
                        0 <= ma <= dir * 81 + line * 9 + j,
                        0 <= md <= dir * 81 + line * 9 + j,
                        0 <= mk <= dir * 81 + line * 9 + j,
                        ma == slides(self@.cells, Tile::A, (dir * 81 + line * 9 + j) as nat),
                        md == slides(self@.cells, Tile::D, (dir * 81 + line * 9 + j) as nat),
                        mk == slides(self@.cells, Tile::K, (dir * 81 + line * 9 + j) as nat),
                    decreases 9 - j,
                {
                    let p = cell_of(dir, line, j);
                    let t = self.get(p);
                    last = self.slider(dir, last, p);
                    proof {
                        lemma_scan_index(dir as int, line as int, j as int);
                    }
                    if t == Tile::E && last != NONE {
                        match self.get(last) {
                            Tile::A => {
                                ma += 1;
                            },
                            Tile::D => {
                                md += 1;
                            },
                            Tile::K => {
                                mk += 1;
                            },
                            Tile::E => {},
                        }
                    }
                    j += 1;
                }
                line += 1;
            }
            dir += 1;
        }
        (ma, md, mk)
    }

    /// What a position that is still going is worth.
    pub fn prospects(&self) -> (r: i64)
        ensures
            r == outlook(self@),
    {
        let (na, nd) = self.material();
        let (ma, md, mk) = self.mobility();
        let tempo: i64 = if self.defending() { 1 } else { -1 };
        -16 + tempo + 6 * nd - 3 * na + 2 * md + 4 * mk - ma
    }

    /// The static evaluation.
    pub fn rate(&self) -> (r: i64)
        ensures
            r == rating(self@),
    {
        match self.state {
            State::Win => WON - self.turn as i64,
            State::Lose => -WON + self.turn as i64,
            State::Draw => 0,
            State::Going => self.prospects(),
        }
    }

    /// Chooses the rule for the king by the throne: the strict one, by which
    /// only attackers count among the four cells around him, or the usual
    /// one, by which the empty throne counts as well.
    pub fn set_king_rule(&mut self, strict: bool)
        ensures
            final(self)@ == (Position { strict, ..old(self)@ }),
            old(self).tidy_all() ==> final(self).tidy_all(),
    {
        self.strict = strict;
        assert(self@.seen =~= old(self)@.seen);
    }

    /// The number of moves made, modulo 2^32.
    pub fn plies(&self) -> (r: u32)
        ensures
            r == self@.turn,
    {
        self.turn
    }
}

/// The key by which the moves are ordered, the lower the sooner: the place
/// of the number of cells that a move crosses.
pub open spec fn order_key(v: Position, m: (u8, u8)) -> int {
    let dif = if m.0 > m.1 {
        m.0 - m.1
    } else {
        m.1 - m.0
    };
    let dist = if dif >= 9 {
        dif / 9
    } else {
        dif
    };
    if defends(v) {
        rank_d(dist)
    } else {
        rank_a(dist)
    }
}

/// Whether `r` holds the moves in ascending order of their keys.
pub open spec fn ordered(v: Position, r: Seq<(u8, u8)>) -> bool {
    forall|i: int, j: int| 0 <= i <= j < r.len() ==> order_key(v, r[i]) <= order_key(v, r[j])
}

/// The first `n` bytes of a key and its turn, folded into one number.
pub open spec fn mixed(k: ([u8; 21], bool), n: nat) -> int
    decreases n,
{
    if n == 0 {
        if k.1 {
            1
        } else {
            0
        }
    } else if n > 21 {
        0
    } else {
        (mixed(k, (n - 1) as nat) * 257 + k.0[n - 1]) % 0x1_0000_0000_0000
    }
}

/// What the rules distinguish in a position: the board and the side to move.
pub open spec fn bare(v: Position) -> Position {
    Position {
        cells: v.cells,
        turn: if defends(v) {
            0
        } else {
            1
        },
        state: State::Going,
        seen: Seq::empty(),
        strict: false,
    }
}

proof fn lemma_pack(cells: Seq<Tile>)
    requires
        packable(cells),
    ensures
        tidy(pack(cells)),
        unpack(pack(cells)) == cells,
{
}

impl Tablut {
    /// The key by which `m` is ordered.
    pub fn key_of(&self, m: &(u8, u8)) -> (r: i64)
        ensures
            r == order_key(self@, *m),
    {
        let dif = if m.0 > m.1 { m.0 - m.1 } else { m.1 - m.0 };
        let dist = if dif >= 9 { dif / 9 } else { dif };
        rank_of(!self.defending(), dist)
    }

    /// The first tile of the cell `p`.
    fn first(p: u8) -> (r: Tile)
        requires
            p < 81,
        ensures
            r == first_tile(p as int),
    {
        if is_marked(FIRST_A, p) {
            Tile::A
        } else if is_marked(FIRST_D, p) {
            Tile::D
        } else if is_marked(FIRST_K, p) {
            Tile::K
        } else {
            Tile::E
        }
    }
}

impl Tablut {
    /// Loses the game for the side that cannot move.
    fn pass(&mut self)
        requires
            old(self).tidy_all(),
        ensures
            final(self).tidy_all(),
            final(self)@ == (Position {
                turn: bump(old(self)@.turn),
                state: if defends(old(self)@) {
                    State::Lose
                } else {
                    State::Win
                },
                ..old(self)@
            }),
    {
        self.state = if self.defending() {
            State::Lose
        } else {
            State::Win
        };
        self.turn = self.turn.wrapping_add(1);
        assert(self@.seen =~= old(self)@.seen);
    }

    /// Takes a pass back.
    fn unpass(&mut self)
        requires
            old(self).tidy_all(),
        ensures
            final(self).tidy_all(),
            final(self)@ == (Position {
                turn: unbump(old(self)@.turn),
                state: State::Going,
                ..old(self)@
            }),
    {
        self.turn = self.turn.wrapping_sub(1);
        self.state = State::Going;
        assert(self@.seen =~= old(self)@.seen);
    }

    /// Moves the piece on `from` to `to`.
    fn relocate(&mut self, from: u8, to: u8)
        requires
            old(self).tidy_all(),
            from < 81,
            to < 81,
        ensures
            final(self).tidy_all(),
            final(self)@ == (Position {
                cells: old(self)@.cells.update(from as int, Tile::E).update(
                    to as int,
                    old(self)@.cells[from as int],
                ),
                ..old(self)@
            }),
    {
        let x = self.get(from);
        self.set(from, Tile::E);
        self.set(to, x);
    }

    /// Whether the neighbour of `to` in direction `i` is taken.
    fn falling(&self, to: u8, i: u8) -> (r: bool)
        requires
            to < 81,
            i < 4,
        ensures
            r == falls(self@.cells, defends(self@), self@.strict, to as int, i as int),
            r ==> 0 <= prey(to as int, i as int) < 81,
    {
        if i == 0 {
            to + 18 < 81 && self.captured(to + 9, to + 18)
        } else if i == 1 {
            to >= 18 && self.captured(to - 9, to - 18)
        } else if i == 2 {
            to % 9 < 7 && self.captured(to + 1, to + 2)
        } else {
            to % 9 >= 2 && self.captured(to - 1, to - 2)
        }
    }

    /// Takes the pieces that the piece which landed on `to` closes in on,
    /// and tells whether the king is among them.
    fn capture_around(&mut self, to: u8) -> (king: bool)
        requires
            old(self).tidy_all(),
            old(self)@.cells.len() == 81,
            to < 81,
        ensures
            final(self).tidy_all(),
            final(self)@ == (Position {
                cells: cleared(
                    old(self)@.cells,
                    defends(old(self)@),
                    old(self)@.strict,
                    to as int,
                ),
                ..old(self)@
            }),
            king == king_falls(
                old(self)@.cells,
                defends(old(self)@),
                old(self)@.strict,
                to as int,
            ),
    {
        let ghost slid = self@.cells;
        let ghost d = defends(self@);
        let ghost strict = self@.strict;
        let f0 = self.falling(to, 0);
        let f1 = self.falling(to, 1);
        let f2 = self.falling(to, 2);
        let f3 = self.falling(to, 3);
        let king = (f0 && self.get(to + 9) == Tile::K) || (f1 && self.get(to - 9) == Tile::K) || (f2
            && self.get(to + 1) == Tile::K) || (f3 && self.get(to - 1) == Tile::K);
        proof {
            let t = to as int;
            if king {
                let i: int = if f0 && slid[t + 9] == Tile::K {
                    0
                } else if f1 && slid[t - 9] == Tile::K {
                    1
                } else if f2 && slid[t + 1] == Tile::K {
                    2
                } else {
                    3
                };
                assert(falls(slid, d, strict, t, i) && slid[prey(t, i)] == Tile::K);
            }
        }
        if f0 {
            self.set(to + 9, Tile::E);
        }
        if f1 {
            self.set(to - 9, Tile::E);
        }
        if f2 {
            self.set(to + 1, Tile::E);
        }
        if f3 {
            self.set(to - 1, Tile::E);
        }
        king
    }

    /// Decides the game where the king has fallen or has escaped, and hands
    /// the turn over.
    fn settle(&mut self, to: u8, king: bool)
        requires
            old(self).tidy_all(),
            to < 81,
        ensures
            final(self).tidy_all(),
            final(self)@ == (Position {
                turn: bump(old(self)@.turn),
                state: if marked(GOALS, to as int) && old(self)@.cells[to as int] == Tile::K {
                    State::Win
                } else if king {
                    State::Lose
                } else {
                    old(self)@.state
                },
                ..old(self)@
            }),
    {
        if king {
            self.state = State::Lose;
        }
        if is_marked(GOALS, to) && self.get(to) == Tile::K {
            self.state = State::Win;
        }
        self.turn = self.turn.wrapping_add(1);
        assert(self@.seen =~= old(self)@.seen);
    }

    /// Takes note of the position: a draw where it has come up before.
    fn record(&mut self)
        requires
            old(self).tidy_all(),
        ensures
            final(self).tidy_all(),
            final(self)@ == (if old(self)@.seen.contains(
                (old(self)@.cells, defends(old(self)@)),
            ) {
                Position { state: State::Draw, ..old(self)@ }
            } else {
                Position {
                    seen: old(self)@.seen.push((old(self)@.cells, defends(old(self)@))),
                    ..old(self)@
                }
            }),
    {
        let key = (self.board, self.defending());
        if self.seen_before(&key) {
            self.state = State::Draw;
            assert(self@.seen =~= old(self)@.seen);
        } else {
            self.vis.push(key);
            assert(self@.seen =~= old(self)@.seen.push((unpack(key.0), key.1)));
        }
    }

    /// Drops the note of the position, unless it was a draw and none was
    /// taken.
    fn forget(&mut self)
        requires
            old(self).tidy_all(),
        ensures
            final(self).tidy_all(),
            final(self)@ == (Position {
                seen: if old(self)@.state != State::Draw && old(self)@.seen.len() > 0 {
                    old(self)@.seen.drop_last()
                } else {
                    old(self)@.seen
                },
                ..old(self)@
            }),
    {
        if self.state != State::Draw {
            self.vis.pop();
        }
        assert(self@.seen =~= (if old(self)@.state != State::Draw && old(self)@.seen.len() > 0 {
            old(self)@.seen.drop_last()
        } else {
            old(self)@.seen
        }));
    }

    /// Puts back what the token holds and leads the piece back.
    fn restore(&mut self, m: (u8, u8), r: u8)
        requires
            old(self).tidy_all(),
            m.0 < 81,
            m.1 < 81,
        ensures
            final(self).tidy_all(),
            final(self)@ == (Position {
                cells: restored(old(self)@.cells, m, r),
                turn: unbump(old(self)@.turn),
                state: State::Going,
                ..old(self)@
            }),
    {
        self.turn = self.turn.wrapping_sub(1);
        self.state = State::Going;
        assert(self@.seen =~= old(self)@.seen);
        let to = m.1;
        if to + 9 < 81 {
            self.set(to + 9, Tile::from(r));
        }
        if to >= 9 {
            self.set(to - 9, Tile::from(r >> 2u8));
        }
        if to + 1 < 81 {
            self.set(to + 1, Tile::from(r >> 4u8));
        }
        if to >= 1 {
            self.set(to - 1, Tile::from(r >> 6u8));
        }
        let x = self.get(to);
        self.set(m.0, x);
        self.set(to, Tile::E);
    }
}

impl Game for Tablut {
    type M = (u8, u8);

    type S = ([u8; 21], bool);

    type R = ((u8, u8), u8);

    open spec fn inv(&self) -> bool {
        self.tidy_all()
    }

    open spec fn start(t: bool) -> Position {
        opening(t)
    }

    open spec fn to_move(v: Position) -> bool {
        defends(v)
    }

    open spec fn status(v: Position) -> State {
        v.state
    }

    open spec fn moves(v: Position) -> Seq<(u8, u8)> {
        all_moves(v)
    }

    open spec fn moves_sorted(v: Position) -> Seq<(u8, u8)> {
        sorted_by(all_moves(v), |m: (u8, u8)| order_key(v, m))
    }

    open spec fn key(v: Position) -> ([u8; 21], bool) {
        (pack(v.cells), defends(v))
    }

    open spec fn digest(k: ([u8; 21], bool)) -> u64 {
        mixed(k, 21) as u64
    }

    open spec fn position(v: Position) -> Position {
        bare(v)
    }

    open spec fn score(v: Position) -> i64 {
        rating(v) as i64
    }

    open spec fn next(v: Position, m: (u8, u8)) -> Position {
        after(v, m)
    }

    open spec fn token(v: Position, m: (u8, u8)) -> ((u8, u8), u8) {
        receipt(v, m)
    }

    open spec fn undoable(v: Position, rb: ((u8, u8), u8)) -> bool {
        fits(v, rb)
    }

    open spec fn prev(v: Position, rb: ((u8, u8), u8)) -> Position {
        before(v, rb)
    }

    open spec fn valid(v: Position) -> bool {
        reachable(v)
    }

    proof fn law_inv(&self) {
        assert(tidy(self.board) && unpack(self.board) == self@.cells);
    }

    proof fn law_next(v: Position, m: (u8, u8)) {
        lemma_after_reachable(v, m);
    }

    proof fn law_undo(v: Position, m: (u8, u8)) {
        lemma_undo(v, m);
    }

    proof fn law_sorted(v: Position) {
        lemma_sorted_by(all_moves(v), |m: (u8, u8)| order_key(v, m));
    }

    proof fn law_going_has_moves(v: Position) {
    }

    proof fn law_key(a: Position, b: Position) {
        lemma_pack(a.cells);
        lemma_pack(b.cells);
    }

    fn new(t: bool) -> (g: Self) {
        let mut ans = Tablut {
            board: [0, 0, 0, 0, 0, 0, 0, 0, 0, 0, 0, 0, 0, 0, 0, 0, 0, 0, 0, 0, 0],
            turn: if t {
                0
            } else {
                1
            },
            state: State::Going,
            vis: Vec::new(),
            strict: false,
        };
        assert(0u8 & 0xfc == 0) by (bit_vector);
        assert(ans@.seen =~= Seq::empty());
        let mut p: u8 = 0;
        while p < 81
            invariant
                p <= 81,
                ans.tidy_all(),
                ans@.seen == Seq::<(Seq<Tile>, bool)>::empty(),
                ans@.state == State::Going,
                !ans@.strict,
                ans@.turn == (if t {
                    0u32
                } else {
                    1u32
                }),
                ans@.cells.len() == 81,
                forall|q: int| 0 <= q < p ==> ans@.cells[q] == first_tile(q),
            decreases 81 - p,
        {
            ans.set(p, Tablut::first(p));
            p += 1;
        }
        assert(0u32 & 1 == 0 && 1u32 & 1 == 1) by (bit_vector);
        ans.record();
        proof {
            assert(ans@.cells =~= opening(t).cells);
            assert(ans@.seen =~= opening(t).seen);
        }
        ans
    }

    fn turn(&self) -> (r: bool) {
        self.defending()
    }

    fn get_moves(&self) -> (r: Vec<(u8, u8)>) {
        self.list_moves()
    }

    /// The legal moves in ascending order of their keys, moves with the
    /// same key in the order in which they are generated.
    fn get_moves_sorted(&self) -> (r: Vec<(u8, u8)>)
        ensures
            ordered(self@, r@),
    {
        let moves = self.list_moves();
        let ghost key = |m: (u8, u8)| order_key(self@, m);
        let ghost goal = keyed(moves@, key);
        let mut pairs: Vec<(i64, (u8, u8))> = Vec::with_capacity(moves.len());
        let mut i: usize = 0;
        while i < moves.len()
            invariant
                i <= moves.len(),
                goal == keyed(moves@, key),
                key == (|m: (u8, u8)| order_key(self@, m)),
                pairs@ == goal.subrange(0, i as int),
            decreases moves.len() - i,
        {
            pairs.push((self.key_of(&moves[i]), moves[i]));
            assert(pairs@ =~= goal.subrange(0, i + 1));
            i += 1;
        }
        assert(pairs@ =~= goal);
        let sorted = sort_by_key(pairs);
        let mut ans: Vec<(u8, u8)> = Vec::with_capacity(sorted.len());
        let mut j: usize = 0;
        while j < sorted.len()
            invariant
                j <= sorted.len(),
                ans@ == items(sorted@).subrange(0, j as int),
            decreases sorted.len() - j,
        {
            ans.push(sorted[j].1);
            assert(ans@ =~= items(sorted@).subrange(0, j + 1));
            j += 1;
        }
        assert(ans@ =~= items(sorted@));
        proof {
            lemma_keys(goal, sorted@, key);
            assert forall|x: int, y: int| 0 <= x <= y < ans@.len() implies order_key(
                self@,
                ans@[x],
            ) <= order_key(self@, ans@[y]) by {
                assert(sorted@[x].0 <= sorted@[y].0);
                assert(sorted@[x].0 == key(sorted@[x].1) as i64);
                assert(sorted@[y].0 == key(sorted@[y].1) as i64);
                assert(0 <= order_key(self@, ans@[x]) <= 9);
                assert(0 <= order_key(self@, ans@[y]) <= 9);
            }
        }
        ans
    }

    fn get_static_state(&self) -> (r: ([u8; 21], bool)) {
        proof {
            self.law_inv();
            lemma_pack(self@.cells);
            lemma_unpack_decides(self.board, pack(self@.cells));
        }
        (self.board, self.defending())
    }

    fn state(&self) -> (r: State) {
        self.state
    }

    fn heuristic(&self) -> (r: i64)
        ensures
            r == rating(self@),
    {
        self.rate()
    }

    fn mov(&mut self, m: &(u8, u8)) {
        let ghost v0 = self@;
        proof {
            self.law_inv();
            lemma_after_reachable(v0, *m);
        }
        let d = self.defending();
        if m.0 == m.1 {
            self.pass();
            return ;
        }
        proof {
            assert(moves_upto(v0, 324).contains(*m)) by {
                if moves_upto(v0, 324).len() == 0 {
                    assert(seq![PASS][0] == *m);
                }
            }
            lemma_moves_sound(v0, 324, *m);
        }
        self.relocate(m.0, m.1);
        let king = self.capture_around(m.1);
        self.settle(m.1, king);
        self.record();
    }

    fn mov_with_rollback(&mut self, m: &(u8, u8)) -> (rb: ((u8, u8), u8)) {
        proof {
            self.law_inv();
            if m.0 != m.1 {
                assert(moves_upto(self@, 324).contains(*m)) by {
                    if moves_upto(self@, 324).len() == 0 {
                        assert(seq![PASS][0] == *m);
                    }
                }
                lemma_moves_sound(self@, 324, *m);
            } else {
                lemma_pass(self@, *m);
            }
        }
        let to = m.1;
        let n0 = if to + 9 < 81 { code(self.get(to + 9)) } else { 0 };
        let n1 = if to >= 9 { code(self.get(to - 9)) } else { 0 };
        let n2 = if to + 1 < 81 { code(self.get(to + 1)) } else { 0 };
        let n3 = if to >= 1 { code(self.get(to - 1)) } else { 0 };
        let r = n0 | (n1 << 2u8) | (n2 << 4u8) | (n3 << 6u8);
        self.mov(m);
        (*m, r)
    }

    fn rollback(&mut self, rb: ((u8, u8), u8)) {
        let m = rb.0;
        if m.0 == m.1 {
            self.unpass();
            return ;
        }
        self.forget();
        self.restore(m, rb.1);
    }

    fn copy_move(m: &(u8, u8)) -> (r: (u8, u8)) {
        *m
    }

    fn same_move(a: &(u8, u8), b: &(u8, u8)) -> (r: bool) {
        a.0 == b.0 && a.1 == b.1
    }

    fn same_key(a: &([u8; 21], bool), b: &([u8; 21], bool)) -> (r: bool) {
        same_board(&a.0, &b.0) && a.1 == b.1
    }

    fn key_digest(k: &([u8; 21], bool)) -> (r: u64) {
        let mut h: u64 = if k.1 { 1 } else { 0 };
        let mut i: usize = 0;
        while i < 21
            invariant
                i <= 21,
                h < 0x1_0000_0000_0000,
                h == mixed(*k, i as nat),
            decreases 21 - i,
        {
            h = (h * 257 + k.0[i] as u64) % 0x1_0000_0000_0000;
            i += 1;
        }
        h
    }
}

} // verus!
