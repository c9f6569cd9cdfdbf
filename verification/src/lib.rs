//! Block-buffered random number generation and little-endian helpers.
//!
//! [`block::BlockRng`] and [`block::BlockRng64`] turn a [`block::Generator`],
//! which fills a whole block of words at a time, into a full [`RngCore`]:
//! values are taken from the block in order, and a new block is generated
//! when the current one runs out. [`utils`] holds helpers for implementing
//! [`RngCore`] and [`SeedableRng`] in little-endian order.

pub mod block;
pub mod draws;
pub mod le;
pub mod run;
pub mod stream;
pub mod utils;
pub mod word;

use vstd::prelude::*;

verus! {

/// The core of a random number generator.
///
/// Each method may only be called in a state that its readiness predicate
/// admits, and does what its outcome predicate describes. A call of a method
/// leaves the generator ready for another call of the same method. A generator that does
/// not define these predicates is always ready, and allows any outcome.
pub trait RngCore {
    /// Whether `next_u32` may be called.
    open spec fn can_next_u32(&self) -> bool {
        true
    }

    /// Whether `next_u64` may be called.
    open spec fn can_next_u64(&self) -> bool {
        true
    }

    /// Whether `fill_bytes` may be called with a non-empty destination.
    open spec fn can_fill_bytes(&self) -> bool {
        true
    }

    /// Whether a call of `next_u32` may take the generator from `pre` to
    /// `post` and return `value`.
    open spec fn next_u32_outcome(pre: &Self, post: &Self, value: u32) -> bool {
        true
    }

    /// Whether a call of `next_u64` may take the generator from `pre` to
    /// `post` and return `value`.
    open spec fn next_u64_outcome(pre: &Self, post: &Self, value: u64) -> bool {
        true
    }

    /// Whether a call of `fill_bytes` may take the generator from `pre` to
    /// `post` and leave `bytes` in the destination.
    open spec fn fill_bytes_outcome(pre: &Self, post: &Self, bytes: Seq<u8>) -> bool {
        true
    }

    /// Returns the next random `u32`.
    fn next_u32(&mut self) -> (r: u32)
        requires
            old(self).can_next_u32(),
        ensures
            final(self).can_next_u32(),
            Self::next_u32_outcome(old(self), final(self), r),
    ;

    /// Returns the next random `u64`.
    fn next_u64(&mut self) -> (r: u64)
        requires
            old(self).can_next_u64(),
        ensures
            final(self).can_next_u64(),
            Self::next_u64_outcome(old(self), final(self), r),
    ;

    /// Fills `dst` with random bytes.
    fn fill_bytes(&mut self, dst: &mut [u8])
        requires
            old(self).can_fill_bytes() || old(dst)@.len() == 0,
        ensures
            final(dst)@.len() == old(dst)@.len(),
            old(self).can_fill_bytes() ==> final(self).can_fill_bytes(),
            Self::fill_bytes_outcome(old(self), final(self), final(dst)@),
    ;
}

/// A marker for generators that are meant to be cryptographically secure.
pub trait CryptoRng: RngCore {}

/// A random number generator that can be built from a seed.
///
/// Each constructor builds what its predicate describes. A generator that does
/// not define these predicates allows any result.
pub trait SeedableRng: Sized {
    /// The seed type.
    type Seed;

    /// Whether `from_seed(seed)` may return `r`.
    open spec fn seeded(seed: Self::Seed, r: Self) -> bool {
        true
    }

    /// Whether `seed_from_u64(state)` may return `r`.
    open spec fn seeded_from_u64(state: u64, r: Self) -> bool {
        true
    }

    /// Whether `from_rng` may return `r`, taking the source generator from
    /// `pre` to `post`.
    open spec fn seeded_from_rng<R: RngCore + ?Sized>(pre: &R, post: &R, r: Self) -> bool {
        true
    }

    /// Creates a new generator from `seed`.
    fn from_seed(seed: Self::Seed) -> (r: Self)
        ensures
            Self::seeded(seed, r),
    ;

    /// Creates a new generator from a `u64` seed.
    fn seed_from_u64(state: u64) -> (r: Self)
        ensures
            Self::seeded_from_u64(state, r),
    ;

    /// Creates a new generator seeded from another generator.
    fn from_rng<R: RngCore + ?Sized>(rng: &mut R) -> (r: Self)
        ensures
            Self::seeded_from_rng(old(rng), final(rng), r),
    ;
}

} // verus!
