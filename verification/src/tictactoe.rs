//! Tic-tac-toe on a board of nine cells.

use crate::game::{Game, State};
use vstd::prelude::*;

verus! {

/// A cell holds 1 (a mark of the first player), 0 (a mark of the second)
/// or 2 (nothing).
#[derive(Debug, Hash, Clone, PartialEq, Eq)]
pub struct Ttt {
    pub a: [u8; 9],
    pub turn: bool,
}

impl View for Ttt {
    type V = Ttt;

    open spec fn view(&self) -> Ttt {
        *self
    }
}

/// Three equal marks on the cells `i`, `j`, `k`.
pub open spec fn line(a: [u8; 9], i: int, j: int, k: int) -> bool {
    a[i] == a[j] && a[i] == a[k] && a[i] != 2
}

/// The result that a completed line of `x` stands for.
pub open spec fn owner(x: u8) -> State {
    if x == 1 {
        State::Win
    } else {
        State::Lose
    }
}

/// Whether no cell is empty.
pub open spec fn full(a: [u8; 9]) -> bool {
    forall|i: int| 0 <= i < 9 ==> a[i] != 2
}

/// The classification of a board: the first completed line decides, the
/// lines taken row and column in turn and then the two diagonals.
pub open spec fn board_status(a: [u8; 9]) -> State {
    if line(a, 0, 1, 2) {
        owner(a[0])
    } else if line(a, 0, 3, 6) {
        owner(a[0])
    } else if line(a, 3, 4, 5) {
        owner(a[3])
    } else if line(a, 1, 4, 7) {
        owner(a[1])
    } else if line(a, 6, 7, 8) {
        owner(a[6])
    } else if line(a, 2, 5, 8) {
        owner(a[2])
    } else if line(a, 0, 4, 8) {
        owner(a[0])
    } else if line(a, 2, 4, 6) {
        owner(a[2])
    } else if full(a) {
        State::Draw
    } else {
        State::Going
    }
}

/// The empty cells below `n`, in increasing order.
pub open spec fn empties(a: [u8; 9], n: nat) -> Seq<u8>
    decreases n,
{
    if n == 0 {
        Seq::empty()
    } else if n <= 9 && a[n - 1] == 2 {
        empties(a, (n - 1) as nat).push((n - 1) as u8)
    } else {
        empties(a, (n - 1) as nat)
    }
}

/// What `empties` holds: exactly the empty cells below `n`.
pub proof fn lemma_empties(a: [u8; 9], n: nat)
    requires
        n <= 9,
    ensures
        forall|m: u8| #[trigger] empties(a, n).contains(m) <==> (m < n && a[m as int] == 2),
    decreases n,
{
    if n > 0 {
        let r = empties(a, (n - 1) as nat);
        lemma_empties(a, (n - 1) as nat);
        let last = (n - 1) as u8;
        assert forall|m: u8| #[trigger] empties(a, n).contains(m) <==> (m < n && a[m as int] == 2) by {
            if a[n - 1] == 2 {
                let s = r.push(last);
                assert(empties(a, n) == s);
                if s.contains(m) {
                    let i = choose|i: int| 0 <= i < s.len() && s[i] == m;
                    if i < r.len() {
                        assert(r[i] == m);
                        assert(r.contains(m));
                    }
                }
                if r.contains(m) {
                    let i = choose|i: int| 0 <= i < r.len() && r[i] == m;
                    assert(s[i] == m);
                }
                if m == last {
                    assert(s[r.len() as int] == last);
                }
            } else {
                assert(empties(a, n) == r);
            }
        }
    }
}

/// The first `n` cells of a key and its turn, folded into one number.
pub open spec fn mixed(k: ([u8; 9], bool), n: nat) -> int
    decreases n,
{
    if n == 0 {
        if k.1 {
            1
        } else {
            0
        }
    } else if n > 9 {
        0
    } else {
        (mixed(k, (n - 1) as nat) * 4 + k.0[n - 1] % 4) % 0x1_0000_0000_0000
    }
}

/// The mark of the side to move.
pub open spec fn mark(turn: bool) -> u8 {
    if turn {
        1
    } else {
        0
    }
}

impl Ttt {
    /// Whether the cells `i`, `j`, `k` hold three equal marks.
    fn is_line(&self, i: usize, j: usize, k: usize) -> (r: bool)
        requires
            i < 9,
            j < 9,
            k < 9,
        ensures
            r == line(self.a, i as int, j as int, k as int),
    {
        self.a[i] == self.a[j] && self.a[i] == self.a[k] && self.a[i] != 2
    }

    /// The result that the mark on cell `i` stands for.
    fn owner_at(&self, i: usize) -> (r: State)
        requires
            i < 9,
        ensures
            r == owner(self.a[i as int]),
    {
        if self.a[i] == 1 {
            State::Win
        } else {
            State::Lose
        }
    }

    /// Whether no cell is empty.
    fn is_full(&self) -> (r: bool)
        ensures
            r == full(self.a),
    {
        let mut i: usize = 0;
        while i < 9
            invariant
                i <= 9,
                forall|j: int| 0 <= j < i ==> self.a[j] != 2,
            decreases 9 - i,
        {
            if self.a[i] == 2 {
                return false;
            }
            i += 1;
        }
        true
    }
}

impl Game for Ttt {
    type M = u8;

    type S = ([u8; 9], bool);

    type R = u8;

    open spec fn inv(&self) -> bool {
        forall|i: int| 0 <= i < 9 ==> self.a[i] <= 2
    }

    open spec fn start(t: bool) -> Ttt {
        Ttt { a: [2, 2, 2, 2, 2, 2, 2, 2, 2], turn: t }
    }

    open spec fn to_move(v: Ttt) -> bool {
        v.turn
    }

    open spec fn status(v: Ttt) -> State {
        board_status(v.a)
    }

    open spec fn moves(v: Ttt) -> Seq<u8> {
        empties(v.a, 9)
    }

    open spec fn moves_sorted(v: Ttt) -> Seq<u8> {
        Self::moves(v)
    }

    open spec fn key(v: Ttt) -> ([u8; 9], bool) {
        (v.a, v.turn)
    }

    open spec fn digest(k: ([u8; 9], bool)) -> u64 {
        mixed(k, 9) as u64
    }

    open spec fn position(v: Ttt) -> Ttt {
        v
    }

    open spec fn score(v: Ttt) -> i64 {
        match board_status(v.a) {
            State::Win => 1i64,
            State::Lose => -1i64,
            _ => 0i64,
        }
    }

    open spec fn next(v: Ttt, m: u8) -> Ttt {
        Ttt { a: vstd::array::spec_array_update(v.a, m as int, mark(v.turn)), turn: !v.turn }
    }

    open spec fn token(v: Ttt, m: u8) -> u8 {
        m
    }

    open spec fn undoable(v: Ttt, rb: u8) -> bool {
        rb < 9
    }

    open spec fn prev(v: Ttt, rb: u8) -> Ttt {
        Ttt { a: vstd::array::spec_array_update(v.a, rb as int, 2), turn: !v.turn }
    }

    open spec fn valid(v: Ttt) -> bool {
        forall|i: int| 0 <= i < 9 ==> v.a[i] <= 2
    }

    proof fn law_inv(&self) {
    }

    proof fn law_next(v: Ttt, m: u8) {
        lemma_empties(v.a, 9);
    }

    proof fn law_undo(v: Ttt, m: u8) {
        lemma_empties(v.a, 9);
        let n = Self::next(v, m);
        let p = Self::prev(n, m);
        assert(p.a =~= v.a);
    }

    proof fn law_sorted(v: Ttt) {
    }

    proof fn law_going_has_moves(v: Ttt) {
        lemma_empties(v.a, 9);
        let i = choose|i: int| 0 <= i < 9 && v.a[i] == 2;
        assert(empties(v.a, 9).contains(i as u8));
    }

    proof fn law_key(a: Ttt, b: Ttt) {
    }

    fn new(t: bool) -> (g: Self) {
        Ttt { a: [2, 2, 2, 2, 2, 2, 2, 2, 2], turn: t }
    }

    fn turn(&self) -> (r: bool) {
        self.turn
    }

    fn get_moves(&self) -> (r: Vec<u8>) {
        let mut ans: Vec<u8> = Vec::new();
        let mut i: u8 = 0;
        while i < 9
            invariant
                i <= 9,
                ans@ == empties(self.a, i as nat),
            decreases 9 - i,
        {
            if self.a[i as usize] == 2 {
                ans.push(i);
            }
            i += 1;
        }
        ans
    }

    fn get_moves_sorted(&self) -> (r: Vec<u8>) {
        self.get_moves()
    }

    fn get_static_state(&self) -> (r: ([u8; 9], bool)) {
        (self.a, self.turn)
    }

    fn state(&self) -> (r: State) {
        if self.is_line(0, 1, 2) {
            self.owner_at(0)
        } else if self.is_line(0, 3, 6) {
            self.owner_at(0)
        } else if self.is_line(3, 4, 5) {
            self.owner_at(3)
        } else if self.is_line(1, 4, 7) {
            self.owner_at(1)
        } else if self.is_line(6, 7, 8) {
            self.owner_at(6)
        } else if self.is_line(2, 5, 8) {
            self.owner_at(2)
        } else if self.is_line(0, 4, 8) {
            self.owner_at(0)
        } else if self.is_line(2, 4, 6) {
            self.owner_at(2)
        } else if self.is_full() {
            State::Draw
        } else {
            State::Going
        }
    }

    fn heuristic(&self) -> (r: i64) {
        match self.state() {
            State::Win => 1,
            State::Lose => -1,
            _ => 0,
        }
    }

    fn mov(&mut self, m: &u8) {
        proof {
            lemma_empties(self.a, 9);
        }
        self.a[*m as usize] = if self.turn { 1 } else { 0 };
        self.turn = !self.turn;
        assert(self.a =~= vstd::array::spec_array_update(old(self).a, *m as int, mark(old(self).turn)));
    }

    fn mov_with_rollback(&mut self, m: &u8) -> (rb: u8) {
        self.mov(m);
        *m
    }

    fn rollback(&mut self, rb: u8) {
        self.a[rb as usize] = 2;
        self.turn = !self.turn;
        assert(self.a =~= vstd::array::spec_array_update(old(self).a, rb as int, 2));
    }

    fn copy_move(m: &u8) -> (r: u8) {
        *m
    }

    fn same_move(a: &u8, b: &u8) -> (r: bool) {
        *a == *b
    }

    fn same_key(a: &([u8; 9], bool), b: &([u8; 9], bool)) -> (r: bool) {
        let mut i: usize = 0;
        while i < 9
            invariant
                i <= 9,
                forall|j: int| 0 <= j < i ==> a.0[j] == b.0[j],
            decreases 9 - i,
        {
            if a.0[i] != b.0[i] {
                return false;
            }
            i += 1;
        }
        assert(a.0 =~= b.0);
        a.1 == b.1
    }

    fn key_digest(k: &([u8; 9], bool)) -> (r: u64) {
        let mut h: u64 = if k.1 { 1 } else { 0 };
        let mut i: usize = 0;
        while i < 9
            invariant
                i <= 9,
                h < 0x1_0000_0000_0000,
                h == mixed(*k, i as nat),
            decreases 9 - i,
        {
            h = (h * 4 + (k.0[i] % 4) as u64) % 0x1_0000_0000_0000;
            i += 1;
        }
        h
    }
}

} // verus!
