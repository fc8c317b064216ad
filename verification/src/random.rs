//! The random numbers that the Monte Carlo engines draw.

use rand::seq::SliceRandom;
use rand::{RngCore, SeedableRng};
use rand_xoshiro::Xoroshiro128Plus;
use vstd::prelude::*;

verus! {

/// `rand_xoshiro::Xoroshiro128Plus`, a generator of random numbers.
/// Nothing is seen of what it holds.
#[verifier::external_type_specification]
#[verifier::external_body]
pub struct ExXoroshiro128Plus(Xoroshiro128Plus);

/// `SeedableRng::from_rng` of `rand_core` on `rand::rngs::OsRng`, the
/// source of random bytes of the system: a generator seeded from it, or
/// nothing where the source gave an error. Nothing is claimed of it.
#[verifier::external_body]
pub(crate) fn rng_from_entropy() -> Option<Xoroshiro128Plus> {
    Xoroshiro128Plus::from_rng(rand::rngs::OsRng).ok()
}

/// `SeedableRng::seed_from_u64` of `rand_core`: the generator that the seed
/// stands for. It is used as an opaque value, so nothing is claimed of it.
#[verifier::external_body]
pub(crate) fn rng_from_seed(seed: u64) -> Xoroshiro128Plus {
    Xoroshiro128Plus::seed_from_u64(seed)
}

/// `RngCore::next_u32` of `rand_core`: the next 32 random bits. Nothing is
/// claimed of them.
#[verifier::external_body]
pub(crate) fn rng_next_u32(rng: &mut Xoroshiro128Plus) -> u32 {
    rng.next_u32()
}

/// `RngCore::next_u64` of `rand_core`: the next 64 random bits. Nothing is
/// claimed of them.
#[verifier::external_body]
pub(crate) fn rng_next_u64(rng: &mut Xoroshiro128Plus) -> u64 {
    rng.next_u64()
}

/// `SliceRandom::choose` of `rand`: one of the items of the list, whichever
/// the generator picks, and nothing where the list is empty.
#[verifier::external_body]
pub(crate) fn rng_choose<'a, T>(rng: &mut Xoroshiro128Plus, v: &'a Vec<T>) -> (r: Option<&'a T>)
    ensures
        match r {
            Some(x) => v@.contains(*x),
            None => v@.len() == 0,
        },
{
    v.choose(rng)
}

/// `SeedableRng::from_seed` of `rand_core`: the generator that the sixteen
/// bytes of the seed stand for. It is used as an opaque value, so nothing
/// is claimed of it.
#[verifier::external_body]
pub(crate) fn rng_from_bytes(seed: [u8; 16]) -> Xoroshiro128Plus {
    Xoroshiro128Plus::from_seed(seed)
}

/// `SliceRandom::shuffle` of `rand`: the list is rearranged, as the
/// generator has it.
#[verifier::external_body]
pub(crate) fn rng_shuffle<T>(rng: &mut Xoroshiro128Plus, v: &mut Vec<T>)
    ensures
        final(v)@.to_multiset() == old(v)@.to_multiset(),
{
    v.shuffle(rng);
}

/// The generator that was drawn, and the one that `fallback` seeds where
/// none was.
pub fn drawn_or_seeded(drawn: Option<Xoroshiro128Plus>, fallback: u64) -> (r: Xoroshiro128Plus)
    ensures
        drawn matches Some(rng) ==> r == rng,
{
    match drawn {
        Some(rng) => rng,
        None => rng_from_seed(fallback),
    }
}

/// A generator seeded by the system, or by `fallback` where the system
/// gives no seed.
pub fn fresh_rng(fallback: u64) -> Xoroshiro128Plus {
    drawn_or_seeded(rng_from_entropy(), fallback)
}

/// Whether random bits show heads: their lowest bit is set.
pub fn heads(bits: u32) -> (r: bool)
    ensures
        r == (bits % 2 == 1),
{
    bits % 2 == 1
}

/// Heads or tails.
pub fn coin(rng: &mut Xoroshiro128Plus) -> bool {
    heads(rng_next_u32(rng))
}

} // verus!
