//! The `Generator` trait and the block-buffered generators built on it.
//!
//! A [`Generator`] fills a whole block of words at once. [`BlockRng`] (for
//! `u32` blocks) and [`BlockRng64`] (for `u64` blocks) keep such a block and an
//! index into it, hand out the words in order, and ask the generator for a
//! new block when the current one is used up.
//!
//! The words that a generator hands out are described in [`crate::stream`].

use vstd::prelude::*;
use vstd::layout::size_of;
use crate::le::words_le_bytes;
use crate::run::{
    deterministic, fill_from_blocks, filled_by_generator, lemma_fill_of_read_run,
    lemma_read_run_of_fill, lemma_read_runs_agree, lemma_read_word_deterministic, read_run,
    read_word, words_for,
};
use crate::word::{
    high_half, join_u32, join_u32_le, lemma_join_halves, lemma_join_u32_bound, low_half, Word,
};
use crate::stream::{lemma_take_words_compose, refill, take_half, take_word, take_words, words_left};
use crate::{CryptoRng, RngCore, SeedableRng};

verus! {

broadcast use vstd::layout::group_layout_axioms;

/// A generator of random data, one block at a time.
pub trait Generator {
    /// The block type.
    ///
    /// For use with [`BlockRng`] this must be `[u32; _]`, and with
    /// [`BlockRng64`] `[u64; _]`.
    type Output;

    /// Whether one call of `generate` may take the generator from `pre` to
    /// `post` and write `block`. A generator that does not say allows any.
    open spec fn generated(pre: &Self, post: &Self, block: Self::Output) -> bool {
        true
    }

    /// Generates a new block into `output`.
    ///
    /// This must fill `output` with random data.
    fn generate(&mut self, output: &mut Self::Output)
        ensures
            Self::generated(old(self), final(self), *final(output)),
    ;

    /// Destructs the block.
    ///
    /// [`BlockRng`] calls this when it is dropped. The default does nothing; it
    /// leaves the generator and the block as they are.
    fn drop(&mut self, output: &mut Self::Output)
        default_ensures
            &*final(self) == &*old(self),
            *final(output) == *old(output),
        opens_invariants none
        no_unwind
    {
    }
}

/// A marker for generators that are meant to be cryptographically secure.
///
/// Mock generators should implement it only in tests.
pub trait CryptoGenerator: Generator {}

/// A full random number generator over a [`Generator`] with `u32` blocks.
///
/// No whole generated `u32` is thrown away and all are taken in order.
/// `next_u32` takes the next `u32`; `next_u64` takes the next two, the low
/// half first; `fill_bytes` takes as many whole `u32` values as it needs,
/// each in little-endian order, and discards the unused bytes of the last.
pub struct BlockRng<G: Generator> {
    results: G::Output,
    index: usize,
    /// The generator that fills the blocks.
    pub core: G,
}

impl<G: Generator> Drop for BlockRng<G> {
    fn drop(&mut self)
        opens_invariants none
        no_unwind
    {
        Generator::drop(&mut self.core, &mut self.results);
    }
}

impl<G: Generator> BlockRng<G> {
    /// The current block.
    pub closed spec fn block(&self) -> G::Output {
        self.results
    }

    /// The index of the next word in the current block; at `N` or beyond, the
    /// block is used up.
    pub closed spec fn cursor(&self) -> int {
        self.index as int
    }

    /// The generator that fills the blocks (the `core` field).
    pub closed spec fn generator(&self) -> G {
        self.core
    }
}

impl<const N: usize, G: Generator<Output = [u32; N]>> BlockRng<G> {
    /// The words of the current block; there are always `N` of them.
    pub open spec fn buffer(&self) -> Seq<u32> {
        self.block()@
    }

    /// Whether `r` is as built from a generator: its block is all zeros and
    /// used up, so the first read generates a new one.
    pub open spec fn unstarted(r: Self) -> bool {
        &&& r.cursor() == N
        &&& r.buffer() == Seq::new(N as nat, |i: int| 0u32)
    }

    /// The current block holds `N` words.
    pub proof fn lemma_buffer_len(&self)
        ensures
            self.buffer().len() == N,
    {
    }

    /// Whether the generator moved from `pre` to `post` as reading `k` more
    /// words from `pre` requires: not at all while `pre`'s block has `k`
    /// words left; otherwise by one call of `generate`, which wrote `post`'s
    /// block.
    pub open spec fn generator_step(pre: &Self, post: &Self, k: int) -> bool {
        if k <= words_left(pre.buffer(), pre.cursor()) {
            post.generator() == pre.generator()
        } else {
            G::generated(&pre.generator(), &post.generator(), post.block())
        }
    }

    /// Creates a `BlockRng` over `core`; the first block is generated on first use.
    pub fn new(core: G) -> (r: BlockRng<G>)
        ensures
            r.generator() == core,
            r.cursor() == N,
            r.buffer() == Seq::new(N as nat, |i: int| 0u32),
    {
        let r = BlockRng { core, index: N, results: [0;N] };
        assert(r.buffer() =~= Seq::new(N as nat, |i: int| 0u32));
        r
    }

    /// The index into the current block. At `N` or beyond, the block is used
    /// up and the next read generates a new one.
    pub fn index(&self) -> (r: usize)
        ensures
            r == self.cursor(),
    {
        self.index
    }

    /// Marks the current block as used up, so that the next read generates a new one.
    pub fn reset(&mut self)
        ensures
            final(self).cursor() == N,
            final(self).buffer() == old(self).buffer(),
            final(self).generator() == old(self).generator(),
    {
        self.index = N;
    }

    /// Generates a new block now, and sets the index to `index`.
    pub fn generate_and_set(&mut self, index: usize)
        requires
            index < N,
        ensures
            final(self).cursor() == index,
            G::generated(&old(self).generator(), &final(self).generator(), final(self).block()),
    {
        self.core.generate(&mut self.results);
        self.index = index;
    }
}

impl<const N: usize, G: Generator<Output = [u32; N]>> RngCore for BlockRng<G> {
    open spec fn can_next_u32(&self) -> bool {
        N >= 1
    }

    open spec fn can_next_u64(&self) -> bool {
        N >= 2
    }

    open spec fn can_fill_bytes(&self) -> bool {
        N >= 1
    }

    /// The value is the next word taken, using a fresh block (which `post`
    /// holds, written by one call of `generate`) only if `pre` had no word left.
    open spec fn next_u32_outcome(pre: &Self, post: &Self, value: u32) -> bool {
        &&& pre.buffer().len() == N
        &&& post.buffer().len() == N
        &&& read_word(
            pre.block(),
            pre.cursor(),
            pre.generator(),
            post.block(),
            post.cursor(),
            post.generator(),
            value,
        )
    }

    /// The value joins the next two words taken, the first as the low half,
    /// using a fresh block (which `post` holds, written by one call of
    /// `generate`) only if `pre` had fewer than two words left.
    open spec fn next_u64_outcome(pre: &Self, post: &Self, value: u64) -> bool {
        let (b1, i1, rest1, lo) = take_word(
            pre.buffer(),
            pre.cursor(),
            refill(pre.buffer(), pre.cursor(), 2, post.buffer()),
        );
        let (b2, i2, rest2, hi) = take_word(b1, i1, rest1);
        &&& pre.buffer().len() == N
        &&& post.buffer().len() == N
        &&& b2 == post.buffer()
        &&& i2 == post.cursor()
        &&& rest2.len() == 0
        &&& value == join_u32(lo, hi)
        &&& Self::generator_step(pre, post, 2)
    }

    /// The bytes are those of the next whole words taken, each in
    /// little-endian order, cut to length, using as many fresh blocks as
    /// needed, each written by one call of `generate`, in order.
    open spec fn fill_bytes_outcome(pre: &Self, post: &Self, bytes: Seq<u8>) -> bool {
        &&& pre.buffer().len() == N
        &&& post.buffer().len() == N
        &&& filled_by_generator(
            pre.block(),
            pre.cursor(),
            pre.generator(),
            post.block(),
            post.cursor(),
            post.generator(),
            bytes,
        )
    }

    /// Takes the next `u32` of the block, generating a new block first if
    /// the current one is used up.
    fn next_u32(&mut self) -> (r: u32) {
        if self.index >= N {
            self.generate_and_set(0);
        }
        let value = self.results[self.index];
        self.index += 1;
        proof {
            assert(take_word(
                old(self).buffer(),
                old(self).cursor(),
                refill(old(self).buffer(), old(self).cursor(), 1, self.buffer()),
            ) == (self.buffer(), self.cursor(), Seq::<Seq<u32>>::empty(), value));
        }
        value
    }

    /// Takes the next two `u32` values and joins them, the first as the low half.
    fn next_u64(&mut self) -> (r: u64) {
        proof {
            reveal_with_fuel(take_words, 3);
        }
        let index = self.index;
        if index < N - 1 {
            self.index += 2;
            join_u32_le(self.results[index], self.results[index + 1])
        } else if index >= N {
            self.core.generate(&mut self.results);
            self.index = 2;
            join_u32_le(self.results[0], self.results[1])
        } else {
            let x = self.results[N - 1];
            self.generate_and_set(1);
            let y = self.results[0];
            join_u32_le(x, y)
        }
    }

    /// Fills `dest` with whole `u32` values in order, each in little-endian
    /// order; the unused bytes of the last one are discarded.
    fn fill_bytes(&mut self, dest: &mut [u8]) {
        fill_from_blocks(&mut self.core, &mut self.results, &mut self.index, dest);
    }
}

impl<const N: usize, G: Generator<Output = [u32; N]> + SeedableRng> SeedableRng for BlockRng<G> {
    type Seed = G::Seed;

    /// The generator is one that `from_seed(seed)` may build, and no block
    /// has been generated yet.
    open spec fn seeded(seed: Self::Seed, r: Self) -> bool {
        &&& G::seeded(seed, r.generator())
        &&& Self::unstarted(r)
    }

    /// The generator is one that `seed_from_u64(state)` may build, and no
    /// block has been generated yet.
    open spec fn seeded_from_u64(state: u64, r: Self) -> bool {
        &&& G::seeded_from_u64(state, r.generator())
        &&& Self::unstarted(r)
    }

    /// Creates a `BlockRng` over the generator seeded with `seed`.
    fn from_seed(seed: Self::Seed) -> (r: Self)
        ensures
            G::seeded(seed, r.generator()),
            Self::unstarted(r),
    {
        Self::new(G::from_seed(seed))
    }

    /// Creates a `BlockRng` over the generator seeded from the `u64` `state`.
    fn seed_from_u64(state: u64) -> (r: Self)
        ensures
            G::seeded_from_u64(state, r.generator()),
            Self::unstarted(r),
    {
        Self::new(G::seed_from_u64(state))
    }

    /// Creates a `BlockRng` over a generator seeded from `rng`.
    fn from_rng<R: RngCore + ?Sized>(rng: &mut R) -> (r: Self)
        ensures
            G::seeded_from_rng(old(rng), final(rng), r.generator()),
            Self::unstarted(r),
    {
        Self::new(G::from_rng(rng))
    }
}

impl<const N: usize, G: CryptoGenerator<Output = [u32; N]>> CryptoRng for BlockRng<G> {}

impl<G: Generator + Clone> Clone for BlockRng<G> where G::Output: Copy {
    /// Copies the block and the position in it; the generator is cloned.
    fn clone(&self) -> (r: Self)
        ensures
            r.block() == self.block(),
            r.cursor() == self.cursor(),
            cloned(self.generator(), r.generator()),
    {
        BlockRng {
            results: self.results,
            index: self.index,
            core: self.core.clone(),
        }
    }
}

/// A full random number generator over a [`Generator`] with `u64` blocks.
///
/// No whole generated `u64` is thrown away and all are taken in order.
/// `next_u64` takes the next `u64`. `next_u32` takes half of one: the low half
/// of the next `u64`, leaving the high half for a following `next_u32`; both
/// `next_u64` and `fill_bytes` discard such a leftover half. `fill_bytes`
/// takes as many whole `u64` values as it needs, each in little-endian order,
/// and discards the unused bytes of the last.
pub struct BlockRng64<G: Generator + ?Sized> {
    results: G::Output,
    index: usize,
    half_used: bool,
    /// The generator that fills the blocks.
    pub core: G,
}

impl<G: Generator> BlockRng64<G> {
    /// The current block.
    pub closed spec fn block(&self) -> G::Output {
        self.results
    }

    /// The index of the next whole word in the current block; at `N` or
    /// beyond, the block is used up.
    pub closed spec fn cursor(&self) -> int {
        self.index as int
    }

    /// Whether only the low half of the word before the cursor has been read.
    pub closed spec fn half_used(&self) -> bool {
        self.half_used
    }

    /// The generator that fills the blocks (the `core` field).
    pub closed spec fn generator(&self) -> G {
        self.core
    }
}

impl<const N: usize, G: Generator<Output = [u64; N]>> BlockRng64<G> {
    /// The words of the current block; there are always `N` of them.
    pub open spec fn buffer(&self) -> Seq<u64> {
        self.block()@
    }

    /// Whether `r` is as built from a generator: its block is all zeros and
    /// used up, so the first read generates a new one.
    pub open spec fn unstarted(r: Self) -> bool {
        &&& r.cursor() == N
        &&& !r.half_used()
        &&& r.buffer() == Seq::new(N as nat, |i: int| 0u64)
        &&& r.well_formed()
    }

    /// The current block holds `N` words.
    pub proof fn lemma_buffer_len(&self)
        ensures
            self.buffer().len() == N,
    {
    }

    /// Whether the generator moved from `pre` to `post` as reading `k` more
    /// words from `pre` requires: not at all while `pre`'s block has `k`
    /// words left; otherwise by one call of `generate`, which wrote `post`'s
    /// block.
    pub open spec fn generator_step(pre: &Self, post: &Self, k: int) -> bool {
        if k <= words_left(pre.buffer(), pre.cursor()) {
            post.generator() == pre.generator()
        } else {
            G::generated(&pre.generator(), &post.generator(), post.block())
        }
    }

    /// The cursor is within the block, and follows the word whose high half
    /// is still to be read, if any.
    pub open spec fn well_formed(&self) -> bool {
        &&& self.cursor() <= N
        &&& self.half_used() ==> self.cursor() >= 1
    }

    /// Creates a `BlockRng64` over `core`; the first block is generated on first use.
    pub fn new(core: G) -> (r: BlockRng64<G>)
        ensures
            r.generator() == core,
            r.cursor() == N,
            !r.half_used(),
            r.buffer() == Seq::new(N as nat, |i: int| 0u64),
            r.well_formed(),
    {
        let r = BlockRng64 { core, index: N, half_used: false, results: [0;N] };
        assert(r.buffer() =~= Seq::new(N as nat, |i: int| 0u64));
        r
    }

    /// The index into the current block. At `N` or beyond, the block is used
    /// up and the next read generates a new one.
    pub fn index(&self) -> (r: usize)
        ensures
            r == self.cursor(),
    {
        self.index
    }

    /// Marks the current block as used up, so that the next read generates a
    /// new one, and drops any leftover half word.
    pub fn reset(&mut self)
        ensures
            final(self).cursor() == N,
            !final(self).half_used(),
            final(self).buffer() == old(self).buffer(),
            final(self).generator() == old(self).generator(),
            final(self).well_formed(),
    {
        self.index = N;
        self.half_used = false;
    }

    /// Generates a new block now, sets the index to `index`, and drops any
    /// leftover half word.
    pub fn generate_and_set(&mut self, index: usize)
        requires
            index < N,
        ensures
            final(self).cursor() == index,
            !final(self).half_used(),
            final(self).well_formed(),
            G::generated(&old(self).generator(), &final(self).generator(), final(self).block()),
    {
        self.core.generate(&mut self.results);
        self.index = index;
        self.half_used = false;
    }
}

impl<const N: usize, G: Generator<Output = [u64; N]>> RngCore for BlockRng64<G> {
    open spec fn can_next_u32(&self) -> bool {
        N >= 1 && self.well_formed()
    }

    open spec fn can_next_u64(&self) -> bool {
        N >= 1
    }

    open spec fn can_fill_bytes(&self) -> bool {
        N >= 1
    }

    /// The value is the high half of the word whose low half the last read
    /// took, if any; otherwise the low half of the next word taken, using a
    /// fresh block (which `post` holds, written by one call of `generate`)
    /// only if `pre` had no word left.
    open spec fn next_u32_outcome(pre: &Self, post: &Self, value: u32) -> bool {
        let k = if pre.half_used() {
            0
        } else {
            1
        };
        &&& pre.buffer().len() == N
        &&& post.buffer().len() == N
        &&& take_half(
            pre.buffer(),
            pre.cursor(),
            pre.half_used(),
            refill(pre.buffer(), pre.cursor(), k, post.buffer()),
        ) == (post.buffer(), post.cursor(), post.half_used(), Seq::<Seq<u64>>::empty(), value)
        &&& Self::generator_step(pre, post, k)
    }

    /// Any leftover half word is dropped; the value is the next whole word
    /// taken, using a fresh block (which `post` holds, written by one call of
    /// `generate`) only if `pre` had no word left.
    open spec fn next_u64_outcome(pre: &Self, post: &Self, value: u64) -> bool {
        &&& pre.buffer().len() == N
        &&& post.buffer().len() == N
        &&& read_word(
            pre.block(),
            pre.cursor(),
            pre.generator(),
            post.block(),
            post.cursor(),
            post.generator(),
            value,
        )
        &&& !post.half_used()
        &&& post.well_formed()
    }

    /// Any leftover half word is dropped; the bytes are those of the next
    /// whole words taken, each in little-endian order, cut to length, using as
    /// many fresh blocks as needed, each written by one call of `generate`, in
    /// order.
    open spec fn fill_bytes_outcome(pre: &Self, post: &Self, bytes: Seq<u8>) -> bool {
        &&& pre.buffer().len() == N
        &&& post.buffer().len() == N
        &&& !post.half_used()
        &&& pre.cursor() <= N || bytes.len() > 0 ==> post.well_formed()
        &&& filled_by_generator(
            pre.block(),
            pre.cursor(),
            pre.generator(),
            post.block(),
            post.cursor(),
            post.generator(),
            bytes,
        )
    }

    /// Reads the high half of the word whose low half the last call read, if
    /// any; otherwise the low half of the next word, generating a new block
    /// first if the current one is used up.
    fn next_u32(&mut self) -> (r: u32) {
        let mut index = self.index - self.half_used as usize;
        if index >= N {
            self.core.generate(&mut self.results);
            self.index = 0;
            index = 0;
            self.half_used = false;
        }
        let shift = 32 * (self.half_used as usize);
        self.half_used = !self.half_used;
        self.index += self.half_used as usize;
        let w = self.results[index];
        proof {
            if shift == 0 {
                assert((w >> shift) as u32 == (w % 0x1_0000_0000u64) as u32) by (bit_vector)
                    requires
                        shift == 0usize,
                ;
            } else {
                assert((w >> shift) as u32 == (w / 0x1_0000_0000u64) as u32) by (bit_vector)
                    requires
                        shift == 32usize,
                ;
            }
        }
        let r = (#[verifier::truncate]
        ((w >> shift) as u32));
        proof {
            let k = if old(self).half_used() {
                0
            } else {
                1
            };
            assert(take_half(
                old(self).buffer(),
                old(self).cursor(),
                old(self).half_used(),
                refill(old(self).buffer(), old(self).cursor(), k, self.buffer()),
            ) == (self.buffer(), self.cursor(), self.half_used(), Seq::<Seq<u64>>::empty(), r));
        }
        r
    }

    /// Takes the next whole `u64`, dropping any leftover half word.
    fn next_u64(&mut self) -> (r: u64) {
        if self.index >= N {
            self.core.generate(&mut self.results);
            self.index = 0;
        }
        let value = self.results[self.index];
        self.index += 1;
        self.half_used = false;
        proof {
            assert(take_word(
                old(self).buffer(),
                old(self).cursor(),
                refill(old(self).buffer(), old(self).cursor(), 1, self.buffer()),
            ) == (self.buffer(), self.cursor(), Seq::<Seq<u64>>::empty(), value));
        }
        value
    }

    /// Drops any leftover half word, then fills `dest` with whole `u64` values
    /// in order, each in little-endian order; the unused bytes of the last one
    /// are discarded.
    fn fill_bytes(&mut self, dest: &mut [u8]) {
        self.half_used = false;
        fill_from_blocks(&mut self.core, &mut self.results, &mut self.index, dest);
    }
}

impl<const N: usize, G: Generator<Output = [u64; N]> + SeedableRng> SeedableRng for BlockRng64<G> {
    type Seed = G::Seed;

    /// The generator is one that `from_seed(seed)` may build, and no block
    /// has been generated yet.
    open spec fn seeded(seed: Self::Seed, r: Self) -> bool {
        &&& G::seeded(seed, r.generator())
        &&& Self::unstarted(r)
    }

    /// The generator is one that `seed_from_u64(state)` may build, and no
    /// block has been generated yet.
    open spec fn seeded_from_u64(state: u64, r: Self) -> bool {
        &&& G::seeded_from_u64(state, r.generator())
        &&& Self::unstarted(r)
    }

    /// Creates a `BlockRng64` over the generator seeded with `seed`.
    fn from_seed(seed: Self::Seed) -> (r: Self)
        ensures
            G::seeded(seed, r.generator()),
            Self::unstarted(r),
    {
        Self::new(G::from_seed(seed))
    }

    /// Creates a `BlockRng64` over the generator seeded from the `u64` `state`.
    fn seed_from_u64(state: u64) -> (r: Self)
        ensures
            G::seeded_from_u64(state, r.generator()),
            Self::unstarted(r),
    {
        Self::new(G::seed_from_u64(state))
    }

    /// Creates a `BlockRng64` over a generator seeded from `rng`.
    fn from_rng<R: RngCore + ?Sized>(rng: &mut R) -> (r: Self)
        ensures
            G::seeded_from_rng(old(rng), final(rng), r.generator()),
            Self::unstarted(r),
    {
        Self::new(G::from_rng(rng))
    }
}

impl<const N: usize, G: CryptoGenerator<Output = [u64; N]>> CryptoRng for BlockRng64<G> {}

impl<G: Generator + Clone> Clone for BlockRng64<G> where G::Output: Copy {
    /// Copies the block and the position in it; the generator is cloned.
    fn clone(&self) -> (r: Self)
        ensures
            r.block() == self.block(),
            r.cursor() == self.cursor(),
            r.half_used() == self.half_used(),
            cloned(self.generator(), r.generator()),
    {
        BlockRng64 {
            results: self.results,
            index: self.index,
            half_used: self.half_used,
            core: self.core.clone(),
        }
    }
}

/// Reading a `u64` from a `BlockRng` does what reading two `u32` values does:
/// whatever two calls of `next_u32` may return and leave, a call of
/// `next_u64` may leave the same, returning the two values joined, the first
/// as the low half.
pub proof fn lemma_next_u64_is_two_next_u32<const N: usize, G: Generator<Output = [u32; N]>>(
    pre: &BlockRng<G>,
    mid: &BlockRng<G>,
    post: &BlockRng<G>,
    lo: u32,
    hi: u32,
)
    requires
        N >= 2,
        BlockRng::next_u32_outcome(pre, mid, lo),
        BlockRng::next_u32_outcome(mid, post, hi),
    ensures
        BlockRng::next_u64_outcome(pre, post, join_u32(lo, hi) as u64),
{
    lemma_join_u32_bound(lo, hi);
    lemma_take_words_compose(
        pre.buffer(),
        pre.cursor(),
        refill(pre.buffer(), pre.cursor(), 2, post.buffer()),
        1,
        1,
    );
    reveal_with_fuel(take_words, 2);
    if words_left(pre.buffer(), pre.cursor()) < 1 {
        assert(words_left(mid.buffer(), mid.cursor()) >= 1);
        assert(post.buffer() == mid.buffer());
        assert(post.block() =~= mid.block());
    }
}

/// Reading two `u32` values from a `BlockRng64` with no half word pending
/// reads the low and then the high half of one word: whatever two calls of
/// `next_u32` may return and leave, a call of `next_u64` may leave the same,
/// returning the word the two halves make up.
pub proof fn lemma_two_next_u32_split_next_u64<const N: usize, G: Generator<Output = [u64; N]>>(
    pre: &BlockRng64<G>,
    mid: &BlockRng64<G>,
    post: &BlockRng64<G>,
    lo: u32,
    hi: u32,
)
    requires
        N >= 1,
        !pre.half_used(),
        BlockRng64::next_u32_outcome(pre, mid, lo),
        BlockRng64::next_u32_outcome(mid, post, hi),
    ensures
        BlockRng64::next_u64_outcome(pre, post, join_u32(lo, hi) as u64),
{
    let (b, i, bl, w) = take_word(
        pre.buffer(),
        pre.cursor(),
        refill(pre.buffer(), pre.cursor(), 1, mid.buffer()),
    );
    assert(i >= 1);
    assert(b[i - 1] == w);
    lemma_join_halves(w);
    reveal_with_fuel(take_words, 2);
    assert(post.buffer() == mid.buffer());
    assert(post.block() =~= mid.block());
}

/// Filling the bytes of `k` whole `u32` values from a `BlockRng` takes the
/// same words as `k` calls of `next_u32`: whatever a run of `next_u32` calls
/// may return and leave, a call of `fill_bytes` may leave the same, writing
/// the values' little-endian bytes.
pub proof fn lemma_fill_bytes_is_next_u32_run<const N: usize, G: Generator<Output = [u32; N]>>(
    states: Seq<BlockRng<G>>,
    values: Seq<u32>,
)
    requires
        N >= 1,
        states.len() == values.len() + 1,
        forall|j: int|
            0 <= j < values.len() ==> BlockRng::next_u32_outcome(
                &states[j],
                &states[j + 1],
                #[trigger] values[j],
            ),
    ensures
        BlockRng::fill_bytes_outcome(&states[0], &states[values.len() as int], words_le_bytes(values)),
{
    let blocks = states.map_values(|s: BlockRng<G>| s.block());
    let indices = states.map_values(|s: BlockRng<G>| s.cursor());
    let cores = states.map_values(|s: BlockRng<G>| s.generator());
    assert(read_run(blocks, indices, cores, values));
    lemma_fill_of_read_run(blocks, indices, cores, values);
}

/// Every fill of a `BlockRng` is a run of `next_u32` calls: whatever a call
/// of `fill_bytes` may write and leave, a run of `next_u32` calls may leave
/// the same, returning values whose little-endian bytes, cut to length, are
/// the bytes written.
#[verifier::spinoff_prover]
pub proof fn lemma_next_u32_run_of_fill_bytes<const N: usize, G: Generator<Output = [u32; N]>>(
    pre: &BlockRng<G>,
    post: &BlockRng<G>,
    bytes: Seq<u8>,
)
    requires
        N >= 1,
        BlockRng::fill_bytes_outcome(pre, post, bytes),
    ensures
        exists|states: Seq<BlockRng<G>>, values: Seq<u32>|
            #![trigger states.len(), values.len()]
            {
                &&& states.len() == values.len() + 1
                &&& states[0] == *pre
                &&& states[values.len() as int] == *post
                &&& values.len() == words_for::<u32>(bytes.len() as int)
                &&& bytes == words_le_bytes(values).take(bytes.len() as int)
                &&& forall|j: int|
                    0 <= j < values.len() ==> BlockRng::next_u32_outcome(
                        &states[j],
                        &states[j + 1],
                        #[trigger] values[j],
                    )
            },
{
    lemma_read_run_of_fill(
        pre.block(),
        pre.cursor(),
        pre.generator(),
        post.block(),
        post.cursor(),
        post.generator(),
        bytes,
    );
    let (blocks, indices, cores, values) = choose|
        blocks: Seq<[u32; N]>,
        indices: Seq<int>,
        cores: Seq<G>,
        values: Seq<u32>,
    |
        #![trigger read_run(blocks, indices, cores, values)]
        {
            &&& read_run(blocks, indices, cores, values)
            &&& blocks[0] == pre.block()
            &&& indices[0] == pre.cursor()
            &&& cores[0] == pre.generator()
            &&& blocks[values.len() as int] == post.block()
            &&& indices[values.len() as int] == post.cursor()
            &&& cores[values.len() as int] == post.generator()
            &&& values.len() == words_for::<u32>(bytes.len() as int)
            &&& bytes == words_le_bytes(values).take(bytes.len() as int)
            &&& forall|j: int| 0 <= j <= values.len() ==> 0 <= #[trigger] indices[j]
            &&& forall|j: int| 0 < j <= values.len() ==> #[trigger] indices[j] <= N
        };
    let k = values.len() as int;
    let states = Seq::new(
        (k + 1) as nat,
        |j: int|
            if j == 0 {
                *pre
            } else if j == k {
                *post
            } else {
                BlockRng { results: blocks[j], index: indices[j] as usize, core: cores[j] }
            },
    );
    assert forall|j: int| 0 <= j <= k implies {
        &&& (#[trigger] states[j]).block() == blocks[j]
        &&& states[j].cursor() == indices[j]
        &&& states[j].generator() == cores[j]
    } by {
        if 0 < j < k {
            assert(indices[j] <= N);
            assert(0 <= indices[j]);
        }
    }
    assert forall|j: int| 0 <= j < k implies BlockRng::next_u32_outcome(
        &states[j],
        &states[j + 1],
        #[trigger] values[j],
    ) by {
        assert(read_word(
            blocks[j],
            indices[j],
            cores[j],
            blocks[j + 1],
            indices[j + 1],
            cores[j + 1],
            values[j],
        ));
        assert(states[j].block() == blocks[j]);
        assert(states[j + 1].block() == blocks[j + 1]);
    }
    assert(states.len() == values.len() + 1);
}

/// Filling the bytes of `k` whole `u64` values from a `BlockRng64` takes the
/// same words as `k` calls of `next_u64`: whatever a run of `next_u64` calls
/// may return and leave, a call of `fill_bytes` may leave the same, writing
/// the values' little-endian bytes. (With no call, no half word may be
/// pending, since a fill drops it.)
pub proof fn lemma_fill_bytes_is_next_u64_run<const N: usize, G: Generator<Output = [u64; N]>>(
    states: Seq<BlockRng64<G>>,
    values: Seq<u64>,
)
    requires
        N >= 1,
        states.len() == values.len() + 1,
        values.len() > 0 || !states[0].half_used(),
        forall|j: int|
            0 <= j < values.len() ==> BlockRng64::next_u64_outcome(
                &states[j],
                &states[j + 1],
                #[trigger] values[j],
            ),
    ensures
        BlockRng64::fill_bytes_outcome(
            &states[0],
            &states[values.len() as int],
            words_le_bytes(values),
        ),
{
    let blocks = states.map_values(|s: BlockRng64<G>| s.block());
    let indices = states.map_values(|s: BlockRng64<G>| s.cursor());
    let cores = states.map_values(|s: BlockRng64<G>| s.generator());
    assert(read_run(blocks, indices, cores, values));
    lemma_fill_of_read_run(blocks, indices, cores, values);
    if values.len() > 0 {
        let last = values.len() - 1;
        assert(BlockRng64::next_u64_outcome(&states[last], &states[last + 1], values[last]));
    }
}

/// Every fill of a `BlockRng64` is a run of `next_u64` calls: whatever a call
/// of `fill_bytes` may write and leave, a run of `next_u64` calls may leave
/// the same, returning values whose little-endian bytes, cut to length, are
/// the bytes written. (With nothing to write, no half word may be pending,
/// since a fill drops it.)
#[verifier::spinoff_prover]
pub proof fn lemma_next_u64_run_of_fill_bytes<const N: usize, G: Generator<Output = [u64; N]>>(
    pre: &BlockRng64<G>,
    post: &BlockRng64<G>,
    bytes: Seq<u8>,
)
    requires
        N >= 1,
        bytes.len() > 0 || !pre.half_used(),
        BlockRng64::fill_bytes_outcome(pre, post, bytes),
    ensures
        exists|states: Seq<BlockRng64<G>>, values: Seq<u64>|
            #![trigger states.len(), values.len()]
            {
                &&& states.len() == values.len() + 1
                &&& states[0] == *pre
                &&& states[values.len() as int] == *post
                &&& values.len() == words_for::<u64>(bytes.len() as int)
                &&& bytes == words_le_bytes(values).take(bytes.len() as int)
                &&& forall|j: int|
                    0 <= j < values.len() ==> BlockRng64::next_u64_outcome(
                        &states[j],
                        &states[j + 1],
                        #[trigger] values[j],
                    )
            },
{
    lemma_read_run_of_fill(
        pre.block(),
        pre.cursor(),
        pre.generator(),
        post.block(),
        post.cursor(),
        post.generator(),
        bytes,
    );
    let (blocks, indices, cores, values) = choose|
        blocks: Seq<[u64; N]>,
        indices: Seq<int>,
        cores: Seq<G>,
        values: Seq<u64>,
    |
        #![trigger read_run(blocks, indices, cores, values)]
        {
            &&& read_run(blocks, indices, cores, values)
            &&& blocks[0] == pre.block()
            &&& indices[0] == pre.cursor()
            &&& cores[0] == pre.generator()
            &&& blocks[values.len() as int] == post.block()
            &&& indices[values.len() as int] == post.cursor()
            &&& cores[values.len() as int] == post.generator()
            &&& values.len() == words_for::<u64>(bytes.len() as int)
            &&& bytes == words_le_bytes(values).take(bytes.len() as int)
            &&& forall|j: int| 0 <= j <= values.len() ==> 0 <= #[trigger] indices[j]
            &&& forall|j: int| 0 < j <= values.len() ==> #[trigger] indices[j] <= N
        };
    let k = values.len() as int;
    if k == 0 {
        assert(bytes.len() == 0) by {
            <u64 as Word>::lemma_size();
            if bytes.len() > 0 {
                crate::le::lemma_split(bytes.len() + 8 - 1, 8);
            }
        }
    }
    let states = Seq::new(
        (k + 1) as nat,
        |j: int|
            if j == 0 {
                *pre
            } else if j == k {
                *post
            } else {
                BlockRng64 {
                    results: blocks[j],
                    index: indices[j] as usize,
                    half_used: false,
                    core: cores[j],
                }
            },
    );
    assert forall|j: int| 0 <= j <= k implies {
        &&& (#[trigger] states[j]).block() == blocks[j]
        &&& states[j].cursor() == indices[j]
        &&& states[j].generator() == cores[j]
        &&& j > 0 ==> !states[j].half_used() && states[j].well_formed()
    } by {
        if 0 < j < k {
            assert(indices[j] <= N);
            assert(0 <= indices[j]);
        }
    }
    assert forall|j: int| 0 <= j < k implies BlockRng64::next_u64_outcome(
        &states[j],
        &states[j + 1],
        #[trigger] values[j],
    ) by {
        assert(read_word(
            blocks[j],
            indices[j],
            cores[j],
            blocks[j + 1],
            indices[j + 1],
            cores[j + 1],
            values[j],
        ));
        assert(states[j].block() == blocks[j]);
        assert(states[j + 1].block() == blocks[j + 1]);
    }
    assert(states.len() == values.len() + 1);
}

/// For a generator whose `generate` depends on its state alone, a fill of a
/// `BlockRng` does what the `next_u32` calls for as many words from the same
/// state do: it leaves the state they leave, and writes the little-endian
/// bytes of the values they return, cut to length.
pub proof fn lemma_fill_bytes_equals_next_u32_run<const N: usize, G: Generator<Output = [u32; N]>>(
    pre: &BlockRng<G>,
    post: &BlockRng<G>,
    bytes: Seq<u8>,
    states: Seq<BlockRng<G>>,
    values: Seq<u32>,
)
    requires
        N >= 1,
        deterministic::<G>(),
        BlockRng::fill_bytes_outcome(pre, post, bytes),
        states.len() == values.len() + 1,
        states[0] == *pre,
        values.len() == words_for::<u32>(bytes.len() as int),
        forall|j: int|
            0 <= j < values.len() ==> BlockRng::next_u32_outcome(
                &states[j],
                &states[j + 1],
                #[trigger] values[j],
            ),
    ensures
        states[values.len() as int] == *post,
        bytes == words_le_bytes(values).take(bytes.len() as int),
{
    lemma_next_u32_run_of_fill_bytes(pre, post, bytes);
    let (states2, values2) = choose|states2: Seq<BlockRng<G>>, values2: Seq<u32>|
        #![trigger states2.len(), values2.len()]
        {
            &&& states2.len() == values2.len() + 1
            &&& states2[0] == *pre
            &&& states2[values2.len() as int] == *post
            &&& values2.len() == words_for::<u32>(bytes.len() as int)
            &&& bytes == words_le_bytes(values2).take(bytes.len() as int)
            &&& forall|j: int|
                0 <= j < values2.len() ==> BlockRng::next_u32_outcome(
                    &states2[j],
                    &states2[j + 1],
                    #[trigger] values2[j],
                )
        };
    let blocks1 = states.map_values(|s: BlockRng<G>| s.block());
    let indices1 = states.map_values(|s: BlockRng<G>| s.cursor());
    let cores1 = states.map_values(|s: BlockRng<G>| s.generator());
    let blocks2 = states2.map_values(|s: BlockRng<G>| s.block());
    let indices2 = states2.map_values(|s: BlockRng<G>| s.cursor());
    let cores2 = states2.map_values(|s: BlockRng<G>| s.generator());
    assert(read_run(blocks1, indices1, cores1, values));
    assert(read_run(blocks2, indices2, cores2, values2));
    lemma_read_runs_agree(blocks1, indices1, cores1, values, blocks2, indices2, cores2, values2);
    let k = values.len() as int;
    assert(blocks1[k] == blocks2[k] && indices1[k] == indices2[k] && cores1[k] == cores2[k]);
    assert(states[k].results == post.results);
    assert(states[k].index == post.index);
    assert(states[k].core == post.core);
}

/// For a generator whose `generate` depends on its state alone, a fill of a
/// `BlockRng64` does what the `next_u64` calls for as many words from the
/// same state do: it leaves the state they leave, and writes the
/// little-endian bytes of the values they return, cut to length. (With
/// nothing to write, no half word may be pending, since a fill drops it.)
pub proof fn lemma_fill_bytes_equals_next_u64_run<const N: usize, G: Generator<Output = [u64; N]>>(
    pre: &BlockRng64<G>,
    post: &BlockRng64<G>,
    bytes: Seq<u8>,
    states: Seq<BlockRng64<G>>,
    values: Seq<u64>,
)
    requires
        N >= 1,
        deterministic::<G>(),
        bytes.len() > 0 || !pre.half_used(),
        BlockRng64::fill_bytes_outcome(pre, post, bytes),
        states.len() == values.len() + 1,
        states[0] == *pre,
        values.len() == words_for::<u64>(bytes.len() as int),
        forall|j: int|
            0 <= j < values.len() ==> BlockRng64::next_u64_outcome(
                &states[j],
                &states[j + 1],
                #[trigger] values[j],
            ),
    ensures
        states[values.len() as int] == *post,
        bytes == words_le_bytes(values).take(bytes.len() as int),
{
    lemma_next_u64_run_of_fill_bytes(pre, post, bytes);
    let (states2, values2) = choose|states2: Seq<BlockRng64<G>>, values2: Seq<u64>|
        #![trigger states2.len(), values2.len()]
        {
            &&& states2.len() == values2.len() + 1
            &&& states2[0] == *pre
            &&& states2[values2.len() as int] == *post
            &&& values2.len() == words_for::<u64>(bytes.len() as int)
            &&& bytes == words_le_bytes(values2).take(bytes.len() as int)
            &&& forall|j: int|
                0 <= j < values2.len() ==> BlockRng64::next_u64_outcome(
                    &states2[j],
                    &states2[j + 1],
                    #[trigger] values2[j],
                )
        };
    let blocks1 = states.map_values(|s: BlockRng64<G>| s.block());
    let indices1 = states.map_values(|s: BlockRng64<G>| s.cursor());
    let cores1 = states.map_values(|s: BlockRng64<G>| s.generator());
    let blocks2 = states2.map_values(|s: BlockRng64<G>| s.block());
    let indices2 = states2.map_values(|s: BlockRng64<G>| s.cursor());
    let cores2 = states2.map_values(|s: BlockRng64<G>| s.generator());
    assert(read_run(blocks1, indices1, cores1, values));
    assert(read_run(blocks2, indices2, cores2, values2));
    lemma_read_runs_agree(blocks1, indices1, cores1, values, blocks2, indices2, cores2, values2);
    let k = values.len() as int;
    assert(blocks1[k] == blocks2[k] && indices1[k] == indices2[k] && cores1[k] == cores2[k]);
    if k > 0 {
        assert(BlockRng64::next_u64_outcome(&states[k - 1], &states[k], values[k - 1]));
        assert(BlockRng64::next_u64_outcome(&states2[k - 1], &states2[k], values2[k - 1]));
    }
    assert(states[k].results == post.results);
    assert(states[k].index == post.index);
    assert(states[k].half_used == post.half_used);
    assert(states[k].core == post.core);
}

/// For a generator whose `generate` depends on its state alone, a call of
/// `next_u64` on a `BlockRng` has one outcome.
pub proof fn lemma_next_u64_deterministic<const N: usize, G: Generator<Output = [u32; N]>>(
    pre: &BlockRng<G>,
    post1: &BlockRng<G>,
    value1: u64,
    post2: &BlockRng<G>,
    value2: u64,
)
    requires
        deterministic::<G>(),
        BlockRng::next_u64_outcome(pre, post1, value1),
        BlockRng::next_u64_outcome(pre, post2, value2),
    ensures
        *post1 == *post2,
        value1 == value2,
{
    if 2 <= words_left(pre.buffer(), pre.cursor()) {
        assert(post1.block() =~= post2.block());
    } else {
        assert(G::generated(&pre.generator(), &post1.generator(), post1.block()));
        assert(G::generated(&pre.generator(), &post2.generator(), post2.block()));
    }
    assert(post1.results == post2.results);
}

/// For a generator whose `generate` depends on its state alone, reading a
/// `u64` from a `BlockRng` and reading two `u32` values from the same state
/// (say, from a clone) leave the same state, and the `u64` is the two values
/// joined, the first as the low half.
pub proof fn lemma_next_u64_equals_two_next_u32<const N: usize, G: Generator<Output = [u32; N]>>(
    pre: &BlockRng<G>,
    mid: &BlockRng<G>,
    post: &BlockRng<G>,
    lo: u32,
    hi: u32,
    post64: &BlockRng<G>,
    value: u64,
)
    requires
        N >= 2,
        deterministic::<G>(),
        BlockRng::next_u32_outcome(pre, mid, lo),
        BlockRng::next_u32_outcome(mid, post, hi),
        BlockRng::next_u64_outcome(pre, post64, value),
    ensures
        *post64 == *post,
        value == join_u32(lo, hi),
{
    lemma_next_u64_is_two_next_u32(pre, mid, post, lo, hi);
    lemma_next_u64_deterministic(pre, post64, value, post, join_u32(lo, hi) as u64);
    lemma_join_u32_bound(lo, hi);
}

/// For a generator whose `generate` depends on its state alone, reading two
/// `u32` values from a `BlockRng64` with no half word pending and reading one
/// `u64` from the same state (say, from a clone) leave the same state, and
/// the `u64` is the two values joined, the first as the low half.
pub proof fn lemma_two_next_u32_equal_next_u64<const N: usize, G: Generator<Output = [u64; N]>>(
    pre: &BlockRng64<G>,
    mid: &BlockRng64<G>,
    post: &BlockRng64<G>,
    lo: u32,
    hi: u32,
    post64: &BlockRng64<G>,
    value: u64,
)
    requires
        N >= 1,
        deterministic::<G>(),
        !pre.half_used(),
        BlockRng64::next_u32_outcome(pre, mid, lo),
        BlockRng64::next_u32_outcome(mid, post, hi),
        BlockRng64::next_u64_outcome(pre, post64, value),
    ensures
        *post64 == *post,
        value == join_u32(lo, hi),
{
    lemma_two_next_u32_split_next_u64(pre, mid, post, lo, hi);
    lemma_join_u32_bound(lo, hi);
    let v = join_u32(lo, hi) as u64;
    assert(BlockRng64::next_u64_outcome(pre, post, v));
    lemma_read_word_deterministic(
        pre.block(),
        pre.cursor(),
        pre.generator(),
        post64.block(),
        post64.cursor(),
        post64.generator(),
        value,
        post.block(),
        post.cursor(),
        post.generator(),
        v,
    );
    assert(post64.results == post.results);
    assert(post64.index == post.index);
    assert(post64.half_used == post.half_used);
}

} // verus!
