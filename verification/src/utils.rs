//! # Little-endian utilities
//!
//! For reproducibility across platforms, little-endian order (least
//! significant part first) is the standard for converting between types:
//! [`next_u64_via_u32`] takes `u32` values `x`, `y`, then returns
//! `(y << 32) | x`.
//!
//! These helpers implement the [`RngCore`] methods that a generator does not
//! implement over its own source, and [`read_words`] turns a seed of bytes
//! into words.

use vstd::prelude::*;
use vstd::layout::size_of;
use crate::RngCore;
use crate::draws::Draws;
use crate::le::{
    fill_via_chunks, lemma_fill_step_bytes, lemma_words_le_bytes_concat, lemma_words_le_bytes_index,
    lemma_words_le_bytes_len, lemma_words_le_bytes_single, words_le_bytes,
};
use crate::word::{join_u32, join_u32_le};
pub use crate::word::Word;

verus! {

broadcast use vstd::layout::group_layout_axioms;

/// Implements `next_u64` via `next_u32`, little-endian order: the first
/// value is the low half.
pub fn next_u64_via_u32<R: RngCore + ?Sized>(rng: &mut R) -> (r: u64)
    requires
        old(rng).can_next_u32(),
    ensures
        final(rng).can_next_u32(),
        exists|mid: &R, lo: u32, hi: u32|
            {
                &&& R::next_u32_outcome(old(rng), mid, lo)
                &&& R::next_u32_outcome(mid, final(rng), hi)
                &&& r == join_u32(lo, hi)
            },
{
    let x = rng.next_u32();
    let ghost mid = &*rng;
    let y = rng.next_u32();
    join_u32_le(x, y)
}

/// Bytes laid out from `drawn` for a buffer of `len` bytes, with one word per
/// started word-sized chunk, use every word and use them in order: byte `j`
/// of word `i` of the buffer is byte `j` of `drawn[i]`, and every word of
/// `drawn` supplies at least its first byte, so none is skipped.
pub proof fn lemma_fill_uses_words_in_order<W: Word>(bytes: Seq<u8>, drawn: Seq<W>, len: int)
    requires
        0 <= len,
        drawn.len() == (len + size_of::<W>() - 1) / (size_of::<W>() as int),
        bytes == words_le_bytes(drawn).take(len),
    ensures
        bytes.len() == len,
        forall|i: int, j: int|
            #![trigger drawn[i].spec_to_le_bytes()[j]]
            0 <= i < drawn.len() && 0 <= j < size_of::<W>() && i * size_of::<W>() + j < len
                ==> bytes[i * size_of::<W>() + j] == drawn[i].spec_to_le_bytes()[j],
        forall|i: int| #![trigger drawn[i]] 0 <= i < drawn.len() ==> i * size_of::<W>() < len,
{
    let s = size_of::<W>() as int;
    W::lemma_size();
    lemma_words_le_bytes_len(drawn);
    assert(len <= drawn.len() * s) by (nonlinear_arith)
        requires
            drawn.len() == (len + s - 1) / s,
            s > 0,
            len >= 0,
    ;
    assert forall|i: int, j: int|
        0 <= i < drawn.len() && 0 <= j < s && i * s + j < len implies bytes[i * s + j]
        == #[trigger] drawn[i].spec_to_le_bytes()[j] by {
        lemma_words_le_bytes_index(drawn, i, j);
    }
    assert forall|i: int| #![trigger drawn[i]] 0 <= i < drawn.len() implies i * s < len by {
        assert(i * s <= (drawn.len() - 1) * s) by (nonlinear_arith)
            requires
                i <= drawn.len() - 1,
                s > 0,
        ;
        assert((drawn.len() - 1) * s < len) by (nonlinear_arith)
            requires
                drawn.len() == (len + s - 1) / s,
                s > 0,
                len >= 0,
        ;
    }
}

/// Fills `dst` with bytes from words that `next_word` returns.
///
/// The words are used in the order they are returned, each in little-endian
/// order; the last word may be partly discarded.
///
/// Every call of `next_word` goes through a [`Draws`], whose log is returned:
/// entry `i` of the log is the value of call `i + 1`. The contract says, over
/// that log, that there are exactly as many calls as words are needed, and
/// that word `i` of `dst` is the value of call `i + 1`.
pub fn fill_bytes_via_next_word<W: Word, F: FnMut() -> W>(dst: &mut [u8], next_word: F) -> (calls:
    Ghost<Draws<W, F>>)
    requires
        call_requires(next_word, ()),
    ensures
        calls@.source() == next_word,
        calls@.drawn().len() == (old(dst)@.len() + size_of::<W>() - 1) / (size_of::<W>() as int),
        final(dst)@ == words_le_bytes(calls@.drawn()).take(old(dst)@.len() as int),
        forall|i: int, j: int|
            #![trigger calls@.drawn()[i].spec_to_le_bytes()[j]]
            0 <= i < calls@.drawn().len() && 0 <= j < size_of::<W>() && i * size_of::<W>() + j
                < old(dst)@.len() ==> final(dst)@[i * size_of::<W>() + j]
                == calls@.drawn()[i].spec_to_le_bytes()[j],
        forall|i: int|
            #![trigger calls@.drawn()[i]]
            0 <= i < calls@.drawn().len() ==> i * size_of::<W>() < old(dst)@.len(),
        forall|i: int|
            0 <= i < calls@.drawn().len() ==> call_ensures(next_word, (), #[trigger] calls@.drawn()[i]),
        exists|words: Seq<W>|
            #![trigger words_le_bytes(words)]
            {
                &&& words.len() == (old(dst)@.len() + size_of::<W>() - 1) / (size_of::<W>() as int)
                &&& final(dst)@ == words_le_bytes(words).take(old(dst)@.len() as int)
                &&& forall|i: int| 0 <= i < words.len() ==> call_ensures(next_word, (), #[trigger] words[i])
            },
{
    let size = core::mem::size_of::<W>();
    let len = dst.len();
    let ghost first = next_word;
    let mut draws = Draws::new(next_word);
    proof {
        W::lemma_size();
        lemma_words_le_bytes_len(draws.drawn());
        if size == 4 {
            assert((0 + 4 - 1) / 4int == 0);
        } else {
            assert((0 + 8 - 1) / 8int == 0);
        }
    }
    let mut pos: usize = 0;
    while pos < len
        invariant
            draws.source() == first,
            call_requires(first, ()),
            size == size_of::<W>(),
            size == 4 || size == 8,
            len == dst@.len(),
            len == old(dst)@.len(),
            pos <= len,
            pos < len ==> pos == size * draws.drawn().len(),
            draws.drawn().len() == (pos + size - 1) / (size as int),
            dst@.take(pos as int) == words_le_bytes(draws.drawn()).take(pos as int),
            forall|i: int|
                0 <= i < draws.drawn().len() ==> call_ensures(first, (), #[trigger] draws.drawn()[i]),
        decreases len - pos,
    {
        let ghost words = draws.drawn();
        let val = draws.draw();
        let one = [val];
        let src: &[W] = &one;
        assert(src@ == seq![val]);
        let ghost mid_dst = dst@;
        let (consumed, filled) = {
            let (_, rest) = dst.split_at_mut(pos);
            fill_via_chunks(src, rest)
        };
        proof {
            lemma_words_le_bytes_len(words);
            assert(mid_dst.take(pos as int) =~= words_le_bytes(words));
            assert(dst@.take(pos + filled) =~= words_le_bytes(words) + words_le_bytes(src@).take(
                filled as int,
            ));
            lemma_fill_step_bytes(
                words,
                src@,
                consumed as int,
                filled as int,
                pos as int,
                len as int,
                dst@,
            );
            assert(src@.take(consumed as int) =~= seq![val]);
            assert(words + seq![val] =~= draws.drawn());
            assert forall|i: int|
                0 <= i < draws.drawn().len() implies call_ensures(
                first,
                (),
                #[trigger] draws.drawn()[i],
            ) by {
                if i < words.len() {
                    assert(draws.drawn()[i] == words[i]);
                } else {
                    assert(draws.drawn()[i] == val);
                }
            }
        }
        pos = pos + filled;
    }
    proof {
        let drawn = draws.drawn();
        assert(dst@ =~= dst@.take(pos as int));
        assert(dst@ == words_le_bytes(drawn).take(len as int));
        lemma_fill_uses_words_in_order(dst@, drawn, len as int);
    }
    Ghost(draws)
}

/// Returns a word made from the bytes that one call of `fill_bytes` leaves,
/// in little-endian order.
///
/// This may be used to implement `next_u32` or `next_u64`.
pub fn next_word_via_fill<W: Word, R: RngCore + ?Sized>(rng: &mut R) -> (r: W)
    requires
        old(rng).can_fill_bytes(),
    ensures
        exists|bytes: Seq<u8>|
            {
                &&& bytes.len() == size_of::<W>()
                &&& R::fill_bytes_outcome(old(rng), final(rng), bytes)
                &&& r == W::spec_from_le_bytes(bytes)
            },
{
    let size = core::mem::size_of::<W>();
    proof {
        W::lemma_size();
    }
    let mut buf = [0u8; 8];
    let (bytes, _) = buf.split_at_mut(size);
    rng.fill_bytes(bytes);
    W::from_le_bytes(bytes)
}

/// Reads an array of words from a byte slice.
///
/// Words are read from `src` in order, each from little-endian bytes. `src`
/// must hold exactly as many bytes as the array.
pub fn read_words<W: Word, const N: usize>(src: &[u8]) -> (r: [W; N])
    requires
        src@.len() == N * size_of::<W>(),
    ensures
        words_le_bytes(r@) == src@,
        forall|i: int|
            0 <= i < N ==> #[trigger] r@[i] == W::spec_from_le_bytes(
                src@.subrange(i * size_of::<W>(), (i + 1) * size_of::<W>()),
            ),
{
    let size = core::mem::size_of::<W>();
    proof {
        W::lemma_size();
    }
    let total = src.len();
    let mut dst = [W::from_usize(0);N];
    let mut i: usize = 0;
    let mut pos: usize = 0;
    while i < N
        invariant
            size == size_of::<W>(),
            size == 4 || size == 8,
            src@.len() == N * size,
            total == src@.len(),
            i <= N,
            pos == i * size,
            words_le_bytes(dst@.take(i as int)) == src@.take(pos as int),
            forall|j: int|
                0 <= j < i ==> dst@[j] == W::spec_from_le_bytes(
                    #[trigger] src@.subrange(j * size, (j + 1) * size),
                ),
        decreases N - i,
    {
        proof {
            assert((i + 1) * size == i * size + size) by (nonlinear_arith);
            assert((i + 1) * size <= N * size) by (nonlinear_arith)
                requires
                    i < N,
                    size > 0,
            ;
            assert(pos + size <= src@.len());
        }
        let chunk = &src[pos..pos + size];
        let w = W::from_le_bytes(chunk);
        let ghost prev = dst@;
        dst[i] = w;
        proof {
            W::lemma_decode_encode(chunk@);
            lemma_words_le_bytes_concat(prev.take(i as int), seq![w]);
            lemma_words_le_bytes_single(w);
            assert(dst@.take(i + 1) =~= prev.take(i as int) + seq![w]);
            assert(src@.take(pos + size) =~= src@.take(pos as int) + chunk@);
            assert forall|j: int| 0 <= j < i + 1 implies dst@[j] == W::spec_from_le_bytes(
                #[trigger] src@.subrange(j * size, (j + 1) * size),
            ) by {
                if j < i {
                    assert(dst@[j] == prev[j]);
                }
            }
        }
        i = i + 1;
        pos = pos + size;
    }
    proof {
        assert(dst@.take(N as int) =~= dst@);
        assert(src@.take(pos as int) =~= src@);
    }
    dst
}

} // verus!
