//! The urgency of a line of play by the rule "upper confidence bound", in
//! whole numbers: the rate of wins, and a bonus that shrinks as the line is
//! tried more often. Logarithm and root are taken in whole numbers, which
//! makes the bonus a little coarser than the rule has it and keeps it exact.

use crate::monte_carlo_tree_search::Policy;
use vstd::prelude::*;

verus! {

/// The whole part of the logarithm of `n` to the base 2; 0 for 0.
pub open spec fn lg(n: nat) -> nat
    decreases n,
{
    if n <= 1 {
        0
    } else {
        1 + lg(n / 2)
    }
}

/// Whether `r` is the whole part of the square root of `n`.
pub open spec fn is_root(n: nat, r: nat) -> bool {
    r * r <= n < (r + 1) * (r + 1)
}

/// The whole part of the square root of `n`.
pub open spec fn root(n: nat) -> nat {
    choose|r: nat| is_root(n, r)
}

/// A number has one whole root only.
pub proof fn lemma_root_unique(n: nat, r1: nat, r2: nat)
    requires
        is_root(n, r1),
        is_root(n, r2),
    ensures
        r1 == r2,
{
    if r1 < r2 {
        assert((r1 + 1) * (r1 + 1) <= r2 * r2) by (nonlinear_arith)
            requires
                r1 + 1 <= r2,
        ;
    }
    if r2 < r1 {
        assert((r2 + 1) * (r2 + 1) <= r1 * r1) by (nonlinear_arith)
            requires
                r2 + 1 <= r1,
        ;
    }
}

/// Two to the power of `k`.
pub open spec fn pow2(k: nat) -> nat
    decreases k,
{
    if k == 0 {
        1
    } else {
        2 * pow2((k - 1) as nat)
    }
}

/// A number below two to the power of `k` has a logarithm below `k`.
pub proof fn lemma_lg_bound(n: nat, k: nat)
    requires
        n < pow2(k),
        k >= 1,
    ensures
        lg(n) < k,
    decreases k,
{
    if n > 1 {
        lemma_lg_bound(n / 2, (k - 1) as nat);
    }
}

proof fn lemma_pow2_add(a: nat, b: nat)
    ensures
        pow2(a + b) == pow2(a) * pow2(b),
    decreases b,
{
    if b > 0 {
        lemma_pow2_add(a, (b - 1) as nat);
        let x = pow2(a);
        let y = pow2((b - 1) as nat);
        assert(pow2(b) == 2 * y);
        assert(pow2(a + b) == 2 * pow2((a + b - 1) as nat));
        assert((a + b - 1) as nat == a + (b - 1) as nat);
        assert(2 * (x * y) == x * (2 * y)) by (nonlinear_arith);
    } else {
        assert(pow2(b) == 1);
        assert(pow2(a) * 1 == pow2(a)) by (nonlinear_arith);
    }
}

proof fn lemma_pow2_wide()
    ensures
        pow2(64) == 0x1_0000_0000_0000_0000,
        pow2(128) > u128::MAX,
{
    assert(pow2(32) == 0x1_0000_0000) by {
        reveal_with_fuel(pow2, 33);
    }
    lemma_pow2_add(32, 32);
    lemma_pow2_add(64, 64);
    assert(0x1_0000_0000nat * 0x1_0000_0000nat == 0x1_0000_0000_0000_0000nat) by (nonlinear_arith);
    assert(0x1_0000_0000_0000_0000nat * 0x1_0000_0000_0000_0000nat > u128::MAX)
        by (nonlinear_arith);
}

/// The whole part of the logarithm of `n` to the base 2.
pub fn log2_wide(n: u128) -> (r: u64)
    ensures
        r == lg(n as nat),
        r < 128,
{
    proof {
        lemma_pow2_wide();
        lemma_lg_bound(n as nat, 128);
    }
    let mut m = n;
    let mut k: u64 = 0;
    while m > 1
        invariant
            k + lg(m as nat) == lg(n as nat),
            lg(n as nat) < 128,
        decreases m,
    {
        m = m / 2;
        k += 1;
    }
    k
}

/// The whole part of the logarithm of `n` to the base 2.
pub fn log2(n: u64) -> (r: u64)
    ensures
        r == lg(n as nat),
        r < 64,
{
    proof {
        lemma_pow2_wide();
        lemma_lg_bound(n as nat, 64);
    }
    log2_wide(n as u128)
}

/// Four times the logarithm of `n` to the base 2, in whole numbers: the
/// whole part of the logarithm of the fourth power of `n` where `n` is
/// below two to the power of 32, and four times the whole part of the
/// logarithm of `n` beyond.
pub open spec fn quarters(n: nat) -> nat {
    if n < 0x1_0000_0000 {
        lg(n * n * n * n)
    } else {
        4 * lg(n)
    }
}

/// Four times the logarithm of `n` to the base 2: see [`quarters`].
pub fn log2_quarters(n: u64) -> (r: u64)
    ensures
        r == quarters(n as nat),
        r < 256,
{
    if n < 0x1_0000_0000 {
        assert(n * n < 0x1_0000_0000 * 0x1_0000_0000) by (nonlinear_arith)
            requires
                0 <= n < 0x1_0000_0000,
        ;
        let n2: u64 = n * n;
        assert(n2 * n2 <= 0xffff_ffff_ffff_ffff * 0xffff_ffff_ffff_ffff) by (nonlinear_arith)
            requires
                0 <= n2 <= 0xffff_ffff_ffff_ffff,
        ;
        let n4: u128 = n2 as u128 * n2 as u128;
        assert(n as nat * n as nat * n as nat * n as nat == n4) by (nonlinear_arith)
            requires
                n2 == n * n,
                n4 == n2 * n2,
        ;
        log2_wide(n4)
    } else {
        4 * log2(n)
    }
}

/// The whole part of the square root of `n`.
pub fn sqrt(n: u64) -> (r: u64)
    ensures
        is_root(n as nat, r as nat),
        r == root(n as nat),
        r < 0x1_0000_0000,
{
    let mut lo: u64 = 0;
    let mut hi: u64 = 0x1_0000_0000;
    assert(0x1_0000_0000nat * 0x1_0000_0000nat == 0x1_0000_0000_0000_0000nat) by (nonlinear_arith);
    while hi - lo > 1
        invariant
            lo < hi <= 0x1_0000_0000,
            lo as nat * lo as nat <= n,
            n < hi as nat * hi as nat,
        decreases hi - lo,
    {
        let mid = lo + (hi - lo) / 2;
        assert(mid as nat * mid as nat <= 0x1_0000_0000nat * 0x1_0000_0000nat) by (nonlinear_arith)
            requires
                mid <= 0x1_0000_0000,
        ;
        if mid as u128 * mid as u128 <= n as u128 {
            lo = mid;
        } else {
            hi = mid;
        }
    }
    proof {
        assert(is_root(n as nat, lo as nat));
        lemma_root_unique(n as nat, lo as nat, root(n as nat));
    }
    lo
}

/// The urgency by the rule, in parts of a thousand: the rate of wins, and
/// `c` parts of a thousand of the root of the logarithm of the tries of the
/// parent over the tries of the child. The logarithm is 693 parts of a
/// thousand of the logarithm to the base 2, which is taken in quarters, see
/// [`quarters`]. A child that was never tried is as urgent as can be.
pub open spec fn urgency_of(c: u64, credit: u64, visits: u64, parent_visits: u64) -> int {
    if visits == 0 {
        i64::MAX as int
    } else {
        let rate = (credit * 500) / (visits as int);
        let spread = root(((693 * quarters(parent_visits as nat) * 250) / (visits as nat)) as nat);
        let u = rate + (c * spread) / 1000;
        if u > i64::MAX {
            i64::MAX as int
        } else {
            u
        }
    }
}

/// The rule with the weight `c`, in parts of a thousand, on the bonus.
pub struct Ucb {
    pub c: u64,
}

impl Policy for Ucb {
    open spec fn rank(&self, credit: u64, visits: u64, parent_visits: u64) -> i64 {
        urgency_of(self.c, credit, visits, parent_visits) as i64
    }

    fn urgency(&self, credit: u64, visits: u64, parent_visits: u64) -> (r: i64) {
        if visits == 0 {
            return i64::MAX;
        }
        let rate: u128 = (credit as u128 * 500) / (visits as u128);
        let l = log2_quarters(parent_visits);
        let inner: u64 = (693 * l * 250) / visits;
        let spread = sqrt(inner);
        assert(self.c * spread <= u64::MAX * 0x1_0000_0000) by (nonlinear_arith)
            requires
                self.c <= u64::MAX,
                spread < 0x1_0000_0000,
        ;
        let bonus: u128 = (self.c as u128 * spread as u128) / 1000;
        let u = rate + bonus;
        if u > i64::MAX as u128 {
            i64::MAX
        } else {
            u as i64
        }
    }
}

} // verus!
