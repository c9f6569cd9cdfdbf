//! The order in which a block-buffered generator hands out words.
//!
//! A generator keeps a buffer (the current block) and an index into it. A
//! read takes the next word of the buffer while it has one left; otherwise a
//! fresh block is generated, becomes the buffer, and the read takes its first
//! word. [`take_words`] describes this for any number of reads, given the
//! fresh blocks in the order they are generated.

use vstd::prelude::*;
use vstd::layout::size_of;
use crate::le::words_le_bytes;
use crate::word::{high_half, low_half, Word};

verus! {

/// Takes one word: the next one in `buffer` while there is one at `index`;
/// otherwise the first word of the next fresh block, which becomes the buffer.
///
/// Returns the new buffer, the new index, the fresh blocks still unused, and
/// the word taken.
pub open spec fn take_word<T>(buffer: Seq<T>, index: int, blocks: Seq<Seq<T>>) -> (
    Seq<T>,
    int,
    Seq<Seq<T>>,
    T,
) {
    if index < buffer.len() {
        (buffer, index + 1, blocks, buffer[index])
    } else {
        (blocks[0], 1, blocks.drop_first(), blocks[0][0])
    }
}

/// Takes `k` words one after the other, as [`take_word`] does.
///
/// Returns the new buffer, the new index, the fresh blocks still unused, and
/// the words taken, in order.
pub open spec fn take_words<T>(buffer: Seq<T>, index: int, blocks: Seq<Seq<T>>, k: nat) -> (
    Seq<T>,
    int,
    Seq<Seq<T>>,
    Seq<T>,
)
    decreases k,
{
    if k == 0 {
        (buffer, index, blocks, Seq::empty())
    } else {
        let (b1, i1, bl1, w) = take_word(buffer, index, blocks);
        let (b2, i2, bl2, ws) = take_words(b1, i1, bl1, (k - 1) as nat);
        (b2, i2, bl2, seq![w] + ws)
    }
}

/// Taking `k` words gives `k` words.
pub proof fn lemma_take_words_len<T>(buffer: Seq<T>, index: int, blocks: Seq<Seq<T>>, k: nat)
    ensures
        take_words(buffer, index, blocks, k).3.len() == k,
    decreases k,
{
    if k > 0 {
        let (b1, i1, bl1, w) = take_word(buffer, index, blocks);
        lemma_take_words_len(b1, i1, bl1, (k - 1) as nat);
    }
}

/// Taking `k1` words and then `k2` more is the same as taking `k1 + k2`
/// words at once: no word is skipped, repeated or reordered.
pub proof fn lemma_take_words_compose<T>(
    buffer: Seq<T>,
    index: int,
    blocks: Seq<Seq<T>>,
    k1: nat,
    k2: nat,
)
    ensures
        ({
            let (b1, i1, bl1, w1) = take_words(buffer, index, blocks, k1);
            let (b2, i2, bl2, w2) = take_words(b1, i1, bl1, k2);
            take_words(buffer, index, blocks, k1 + k2) == (b2, i2, bl2, w1 + w2)
        }),
    decreases k1,
{
    if k1 == 0 {
        let (b2, i2, bl2, w2) = take_words(buffer, index, blocks, k2);
        assert(Seq::<T>::empty() + w2 =~= w2);
    } else {
        let (b1, i1, bl1, w) = take_word(buffer, index, blocks);
        lemma_take_words_compose(b1, i1, bl1, (k1 - 1) as nat, k2);
        let (c1, j1, cl1, v1) = take_words(b1, i1, bl1, (k1 - 1) as nat);
        let (c2, j2, cl2, v2) = take_words(c1, j1, cl1, k2);
        assert((k1 + k2 - 1) as nat == ((k1 - 1) as nat + k2) as nat);
        assert(seq![w] + (v1 + v2) =~= (seq![w] + v1) + v2);
    }
}

/// While the buffer has `k` words left at `index`, taking `k` words takes
/// them from the buffer and leaves the fresh blocks untouched.
pub proof fn lemma_take_words_in_buffer<T>(buffer: Seq<T>, index: int, blocks: Seq<Seq<T>>, k: nat)
    requires
        0 <= index,
        index + k <= buffer.len(),
    ensures
        take_words(buffer, index, blocks, k) == (
            buffer,
            index + k,
            blocks,
            buffer.subrange(index, index + k),
        ),
    decreases k,
{
    if k == 0 {
        assert(buffer.subrange(index, index) =~= Seq::<T>::empty());
    } else {
        lemma_take_words_in_buffer(buffer, index + 1, blocks, (k - 1) as nat);
        assert(seq![buffer[index]] + buffer.subrange(index + 1, index + k) =~= buffer.subrange(
            index,
            index + k,
        ));
    }
}

/// How many words are left in `buffer` at `index`.
pub open spec fn words_left<T>(buffer: Seq<T>, index: int) -> int {
    if index < buffer.len() {
        buffer.len() - index
    } else {
        0
    }
}

/// Whether every block in `blocks` holds `n` words.
pub open spec fn blocks_of_len<T>(blocks: Seq<Seq<T>>, n: int) -> bool {
    forall|j: int| 0 <= j < blocks.len() ==> (#[trigger] blocks[j]).len() == n
}

/// Blocks beyond those that `k` words reach are left unused, in order.
pub proof fn lemma_take_words_extra_blocks<T>(
    buffer: Seq<T>,
    index: int,
    blocks: Seq<Seq<T>>,
    extra: Seq<Seq<T>>,
    k: nat,
)
    requires
        0 <= index,
        buffer.len() > 0,
        blocks_of_len(blocks, buffer.len() as int),
        k <= words_left(buffer, index) + blocks.len() * buffer.len(),
    ensures
        ({
            let (b, i, bl, ws) = take_words(buffer, index, blocks, k);
            take_words(buffer, index, blocks + extra, k) == (b, i, bl + extra, ws)
        }),
    decreases k,
{
    if k > 0 {
        let n = buffer.len() as int;
        if index < buffer.len() {
            lemma_take_words_extra_blocks(buffer, index + 1, blocks, extra, (k - 1) as nat);
        } else {
            assert(blocks.len() > 0) by {
                if blocks.len() == 0 {
                    assert(blocks.len() * n == 0);
                }
            }
            assert((blocks + extra)[0] == blocks[0]);
            assert((blocks + extra).drop_first() =~= blocks.drop_first() + extra);
            assert(blocks.drop_first().len() * n == blocks.len() * n - n) by (nonlinear_arith)
                requires
                    blocks.drop_first().len() == blocks.len() - 1,
            ;
            assert(blocks_of_len(blocks.drop_first(), n)) by {
                assert forall|j: int| 0 <= j < blocks.drop_first().len() implies (
                #[trigger] blocks.drop_first()[j]).len() == n by {
                    assert(blocks.drop_first()[j] == blocks[j + 1]);
                }
            }
            lemma_take_words_extra_blocks(
                blocks[0],
                1,
                blocks.drop_first(),
                extra,
                (k - 1) as nat,
            );
        }
    }
}

/// From a used-up buffer, taking `c` words with one fresh block at hand
/// takes the first `c` words of that block, which becomes the buffer.
pub proof fn lemma_take_words_fresh_block<T>(buffer: Seq<T>, index: int, block: Seq<T>, c: nat)
    requires
        index >= buffer.len(),
        1 <= c <= block.len(),
    ensures
        take_words(buffer, index, seq![block], c) == (
            block,
            c as int,
            Seq::<Seq<T>>::empty(),
            block.take(c as int),
        ),
{
    lemma_take_words_compose(buffer, index, seq![block], 1, (c - 1) as nat);
    assert(seq![block].drop_first() =~= Seq::<Seq<T>>::empty());
    reveal_with_fuel(take_words, 2);
    lemma_take_words_in_buffer(block, 1, Seq::<Seq<T>>::empty(), (c - 1) as nat);
    assert(seq![block[0]] + block.subrange(1, c as int) =~= block.take(c as int));
    assert((1 + (c - 1) as nat) as nat == c);
}

/// Reads a `u32` from a buffer of `u64` words: the high half of the word whose
/// low half the last read took, if `half_used`; otherwise the low half of the
/// next word, taken as [`take_word`] does.
///
/// Returns the new buffer, index and `half_used`, the fresh blocks still
/// unused, and the value read.
pub open spec fn take_half(buffer: Seq<u64>, index: int, half_used: bool, blocks: Seq<Seq<u64>>) -> (
    Seq<u64>,
    int,
    bool,
    Seq<Seq<u64>>,
    u32,
) {
    if half_used {
        (buffer, index, false, blocks, high_half(buffer[index - 1]))
    } else {
        let (b, i, bl, w) = take_word(buffer, index, blocks);
        (b, i, true, bl, low_half(w))
    }
}

/// The fresh blocks that taking `k` words at `index` needs, when at most one is
/// needed and it is `fresh`: none while the buffer has `k` words left.
pub open spec fn refill<T>(buffer: Seq<T>, index: int, k: int, fresh: Seq<T>) -> Seq<Seq<T>> {
    if k <= words_left(buffer, index) {
        Seq::empty()
    } else {
        seq![fresh]
    }
}

/// Whether `dest` holds, after a fill, the bytes of the words taken from a
/// block buffer: there is a run of fresh `n`-word blocks such that taking as
/// many words as `dest` needs, from `buffer` at `index` and then from those
/// blocks, ends at `new_buffer` and `new_index`, and gives the words whose
/// little-endian bytes, cut to the length of `dest`, are `dest`. The run holds
/// exactly the blocks needed: the words taken and those left at the end are
/// those there were at the start and in the blocks, and the last block, if
/// any, has been read from.
pub open spec fn filled_from_blocks<W: Word>(
    buffer: Seq<W>,
    index: int,
    n: int,
    new_buffer: Seq<W>,
    new_index: int,
    dest: Seq<u8>,
    blocks: Seq<Seq<W>>,
) -> bool {
    let s = size_of::<W>() as int;
    let k = ((dest.len() + s - 1) / s) as nat;
    let (b, i, rest, words) = take_words(buffer, index, blocks, k);
    &&& blocks_of_len(blocks, n)
    &&& b == new_buffer
    &&& i == new_index
    &&& rest.len() == 0
    &&& dest == words_le_bytes(words).take(dest.len() as int)
    &&& k + words_left(new_buffer, new_index) == words_left(buffer, index) + blocks.len() * n
    &&& blocks.len() > 0 ==> new_index >= 1
}

/// One step of filling from blocks, on the model: after the words taken so far,
/// possibly a fresh block, then `consumed` more words from the buffer.
pub proof fn lemma_fill_step_model<T>(
    old_buffer: Seq<T>,
    old_index: int,
    pre_blocks: Seq<Seq<T>>,
    taken: Seq<T>,
    pre_buffer: Seq<T>,
    pre_index: int,
    generated: bool,
    buffer: Seq<T>,
    index: int,
    consumed: int,
)
    requires
        0 <= old_index,
        old_buffer.len() > 0,
        blocks_of_len(pre_blocks, old_buffer.len() as int),
        taken.len() + words_left(pre_buffer, pre_index) == words_left(old_buffer, old_index)
            + pre_blocks.len() * old_buffer.len(),
        take_words(old_buffer, old_index, pre_blocks, taken.len()) == (
            pre_buffer,
            pre_index,
            Seq::<Seq<T>>::empty(),
            taken,
        ),
        generated ==> pre_index >= pre_buffer.len() && buffer.len() == old_buffer.len() && index
            == 0,
        !generated ==> buffer == pre_buffer && index == pre_index && 0 <= index,
        1 <= consumed,
        index + consumed <= buffer.len(),
    ensures
        ({
            let blocks = if generated {
                pre_blocks.push(buffer)
            } else {
                pre_blocks
            };
            &&& blocks_of_len(blocks, old_buffer.len() as int)
            &&& take_words(old_buffer, old_index, blocks, (taken.len() + consumed) as nat) == (
                buffer,
                index + consumed,
                Seq::<Seq<T>>::empty(),
                taken + buffer.subrange(index, index + consumed),
            )
            &&& taken.len() + consumed + words_left(buffer, index + consumed) == words_left(
                old_buffer,
                old_index,
            ) + blocks.len() * old_buffer.len()
        }),
{
    let n = old_buffer.len() as int;
    if generated {
        let blocks = pre_blocks.push(buffer);
        assert(blocks_of_len(blocks, n)) by {
            assert forall|j: int| 0 <= j < blocks.len() implies (#[trigger] blocks[j]).len()
                == n by {
                if j < pre_blocks.len() {
                    assert(blocks[j] == pre_blocks[j]);
                }
            }
        }
        assert((pre_blocks.len() + 1) * n == pre_blocks.len() * n + n) by (nonlinear_arith);
        lemma_take_words_extra_blocks(old_buffer, old_index, pre_blocks, seq![buffer], taken.len());
        assert(pre_blocks + seq![buffer] =~= blocks);
        assert(Seq::<Seq<T>>::empty() + seq![buffer] =~= seq![buffer]);
        lemma_take_words_compose(old_buffer, old_index, blocks, taken.len(), consumed as nat);
        lemma_take_words_fresh_block(pre_buffer, pre_index, buffer, consumed as nat);
        assert(buffer.take(consumed) =~= buffer.subrange(0, consumed));
    } else {
        lemma_take_words_compose(old_buffer, old_index, pre_blocks, taken.len(), consumed as nat);
        lemma_take_words_in_buffer(buffer, index, Seq::<Seq<T>>::empty(), consumed as nat);
    }
}

} // verus!
