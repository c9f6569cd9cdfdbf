//! A block buffer together with the generator that refills it: reads of one
//! word, and fills of bytes, each fresh block tied to one call of
//! [`Generator::generate`].
//!
//! A state is a block, the index of the next word in it, and the generator.

use vstd::prelude::*;
use vstd::layout::size_of;
use crate::block::Generator;
use crate::le::{
    fill_via_chunks, lemma_fill_step_bytes, lemma_position, lemma_words_le_bytes_concat,
    lemma_words_le_bytes_len, words_le_bytes,
};
use crate::stream::{
    blocks_of_len, filled_from_blocks, lemma_fill_step_model, lemma_take_words_len, refill,
    take_word, take_words, words_left,
};
use crate::word::Word;

verus! {

broadcast use vstd::layout::group_layout_axioms;

/// Whether `cores` and `blocks` record a run of `generate` calls that took
/// the generator from `first` to `last`: call `j` took it from `cores[j]` to
/// `cores[j + 1]` and wrote `blocks[j]`. With no call, `first == last`.
pub open spec fn generated_run<G: Generator>(
    first: G,
    last: G,
    cores: Seq<G>,
    blocks: Seq<G::Output>,
) -> bool {
    &&& cores.len() == blocks.len() + 1
    &&& cores[0] == first
    &&& cores.last() == last
    &&& forall|j: int|
        0 <= j < blocks.len() ==> G::generated(&cores[j], &cores[j + 1], #[trigger] blocks[j])
}

/// The words of each block in `blocks`.
pub open spec fn block_words<W, const N: usize>(blocks: Seq<[W; N]>) -> Seq<Seq<W>> {
    blocks.map_values(|b: [W; N]| b@)
}

/// Whether reading one word takes the state (`block`, `index`, `core`) to
/// (`new_block`, `new_index`, `new_core`) and gives `value`: the next word of
/// `block` while it has one left, with the generator untouched; otherwise the
/// first word of `new_block`, which one call of `generate` wrote.
pub open spec fn read_word<W, const N: usize, G: Generator<Output = [W; N]>>(
    block: [W; N],
    index: int,
    core: G,
    new_block: [W; N],
    new_index: int,
    new_core: G,
    value: W,
) -> bool {
    &&& take_word(block@, index, refill(block@, index, 1, new_block@)) == (
        new_block@,
        new_index,
        Seq::<Seq<W>>::empty(),
        value,
    )
    &&& if 1 <= words_left(block@, index) {
        new_core == core
    } else {
        G::generated(&core, &new_core, new_block)
    }
}

/// Whether `blocks`, `indices` and `cores` are the states of a run of word
/// reads that gives `values`: read `j` takes state `j` to state `j + 1`.
pub open spec fn read_run<W, const N: usize, G: Generator<Output = [W; N]>>(
    blocks: Seq<[W; N]>,
    indices: Seq<int>,
    cores: Seq<G>,
    values: Seq<W>,
) -> bool {
    &&& blocks.len() == values.len() + 1
    &&& indices.len() == values.len() + 1
    &&& cores.len() == values.len() + 1
    &&& forall|j: int|
        0 <= j < values.len() ==> read_word(
            blocks[j],
            indices[j],
            cores[j],
            blocks[j + 1],
            indices[j + 1],
            cores[j + 1],
            #[trigger] values[j],
        )
}

/// Whether filling `bytes` takes the state (`block`, `index`, `core`) to
/// (`new_block`, `new_index`, `new_core`): the bytes are those of the next
/// whole words taken, each in little-endian order, cut to length, using
/// exactly the fresh blocks needed, each written by one call of `generate`,
/// in order.
pub open spec fn filled_by_generator<W: Word, const N: usize, G: Generator<Output = [W; N]>>(
    block: [W; N],
    index: int,
    core: G,
    new_block: [W; N],
    new_index: int,
    new_core: G,
    bytes: Seq<u8>,
) -> bool {
    exists|cores: Seq<G>, blocks: Seq<[W; N]>|
        #![trigger generated_run(core, new_core, cores, blocks)]
        {
            &&& generated_run(core, new_core, cores, blocks)
            &&& filled_from_blocks(
                block@,
                index,
                N as int,
                new_block@,
                new_index,
                bytes,
                block_words(blocks),
            )
        }
}

/// The number of words a fill of `len` bytes takes.
pub open spec fn words_for<W: Word>(len: int) -> int {
    (len + size_of::<W>() - 1) / (size_of::<W>() as int)
}

/// Filling the bytes of `k` whole words takes the same words as `k` word reads:
/// whatever a run of reads may give and leave, a fill may leave the same,
/// with the values' little-endian bytes.
#[verifier::spinoff_prover]
pub proof fn lemma_fill_of_read_run<W: Word, const N: usize, G: Generator<Output = [W; N]>>(
    blocks: Seq<[W; N]>,
    indices: Seq<int>,
    cores: Seq<G>,
    values: Seq<W>,
)
    requires
        N >= 1,
        0 <= indices[0],
        read_run(blocks, indices, cores, values),
    ensures
        filled_by_generator(
            blocks[0],
            indices[0],
            cores[0],
            blocks[values.len() as int],
            indices[values.len() as int],
            cores[values.len() as int],
            words_le_bytes(values),
        ),
        values.len() > 0 ==> indices[values.len() as int] >= 1,
    decreases values.len(),
{
    let k = values.len() as int;
    let s = size_of::<W>() as int;
    W::lemma_size();
    lemma_words_le_bytes_len(values);
    lemma_position(k, s - 1, s);
    assert(words_for::<W>(words_le_bytes(values).len() as int) == k);
    let (b0, i0, c0) = (blocks[0], indices[0], cores[0]);
    let (bk, ik, ck) = (blocks[k], indices[k], cores[k]);
    if k == 0 {
        let fcores = seq![c0];
        let fblocks = Seq::<[W; N]>::empty();
        assert(generated_run(c0, ck, fcores, fblocks));
        assert(words_le_bytes(values) =~= words_le_bytes(Seq::<W>::empty()).take(0));
        assert(filled_from_blocks(
            b0@,
            i0,
            N as int,
            bk@,
            ik,
            words_le_bytes(values),
            block_words(fblocks),
        ));
    } else {
        assert(read_word(blocks[0], indices[0], cores[0], blocks[1], indices[1], cores[1], values[0]));
        let (b1, i1, c1) = (blocks[1], indices[1], cores[1]);
        let rb = blocks.drop_first();
        let ri = indices.drop_first();
        let rc = cores.drop_first();
        let rv = values.drop_first();
        assert forall|j: int| 0 <= j < rv.len() implies read_word(
            rb[j],
            ri[j],
            rc[j],
            rb[j + 1],
            ri[j + 1],
            rc[j + 1],
            #[trigger] rv[j],
        ) by {
            let jj = j + 1;
            assert(read_word(
                blocks[jj],
                indices[jj],
                cores[jj],
                blocks[jj + 1],
                indices[jj + 1],
                cores[jj + 1],
                values[jj],
            ));
        }
        lemma_fill_of_read_run(rb, ri, rc, rv);
        assert(rb[rv.len() as int] == bk && ri[rv.len() as int] == ik && rc[rv.len() as int] == ck);
        let (fcores, fblocks) = choose|fcores: Seq<G>, fblocks: Seq<[W; N]>|
            #![trigger generated_run(c1, ck, fcores, fblocks)]
            {
                &&& generated_run(c1, ck, fcores, fblocks)
                &&& filled_from_blocks(
                    b1@,
                    i1,
                    N as int,
                    bk@,
                    ik,
                    words_le_bytes(rv),
                    block_words(fblocks),
                )
            };
        let fresh = words_left(b0@, i0) < 1;
        let cores2 = if fresh {
            seq![c0] + fcores
        } else {
            fcores
        };
        let blocks2 = if fresh {
            seq![b1] + fblocks
        } else {
            fblocks
        };
        assert(generated_run(c0, ck, cores2, blocks2)) by {
            if fresh {
                assert forall|j: int| 0 <= j < blocks2.len() implies G::generated(
                    &cores2[j],
                    &cores2[j + 1],
                    #[trigger] blocks2[j],
                ) by {
                    if j > 0 {
                        assert(G::generated(&fcores[j - 1], &fcores[j], fblocks[j - 1]));
                    }
                }
            }
        }
        // the words: the first read's word, then those of the rest of the run
        let rk = (k - 1) as nat;
        lemma_words_le_bytes_len(rv);
        lemma_position(rk as int, s - 1, s);
        lemma_take_words_len(b1@, i1, block_words(fblocks), rk);
        let rest_words = take_words(b1@, i1, block_words(fblocks), rk).3;
        lemma_words_le_bytes_len(rest_words);
        assert(words_le_bytes(rest_words) =~= words_le_bytes(rv));
        let bw2 = block_words(blocks2);
        if fresh {
            assert(bw2[0] == b1@);
            assert(bw2.drop_first() =~= block_words(fblocks));
        } else {
            assert(bw2 == block_words(fblocks));
        }
        reveal_with_fuel(take_words, 2);
        let words = take_words(b0@, i0, bw2, k as nat).3;
        assert(words =~= seq![values[0]] + rest_words);
        lemma_same_le_bytes_after_first(values, rest_words);
        assert(words_le_bytes(words).take(s * k) == words_le_bytes(values));
        assert(blocks_of_len(bw2, N as int)) by {
            assert forall|j: int| 0 <= j < bw2.len() implies (#[trigger] bw2[j]).len() == N by {
                assert(bw2[j] == blocks2[j]@);
            }
        }
        if fresh {
            assert((fblocks.len() + 1) * N == fblocks.len() * N + N) by (nonlinear_arith);
        }
        assert(filled_from_blocks(
            b0@,
            i0,
            N as int,
            bk@,
            ik,
            words_le_bytes(values),
            bw2,
        ));
    }
}

/// Two word sequences with the same first word, whose tails have the same
/// encoding, have the same encoding, as long as the whole.
proof fn lemma_same_le_bytes_after_first<W: Word>(values: Seq<W>, rest: Seq<W>)
    requires
        values.len() >= 1,
        words_le_bytes(rest) == words_le_bytes(values.drop_first()),
    ensures
        words_le_bytes(seq![values[0]] + rest) == words_le_bytes(values),
        words_le_bytes(values).len() == values.len() * size_of::<W>(),
        words_le_bytes(values).take((values.len() * size_of::<W>()) as int) == words_le_bytes(values),
{
    assert(values =~= seq![values[0]] + values.drop_first());
    lemma_words_le_bytes_concat(seq![values[0]], rest);
    lemma_words_le_bytes_concat(seq![values[0]], values.drop_first());
    lemma_words_le_bytes_len(values);
    assert(words_le_bytes(values).take((values.len() * size_of::<W>()) as int) =~= words_le_bytes(values));
}

/// The run of word reads that a fill takes, from a state where taking `k`
/// words needs exactly the fresh blocks `blocks`, written by the calls that
/// `cores` records.
#[verifier::spinoff_prover]
proof fn lemma_read_run_from_blocks<W, const N: usize, G: Generator<Output = [W; N]>>(
    block: [W; N],
    index: int,
    core: G,
    cores: Seq<G>,
    blocks: Seq<[W; N]>,
    k: nat,
) -> (r: (Seq<[W; N]>, Seq<int>, Seq<G>, Seq<W>))
    requires
        N >= 1,
        0 <= index,
        cores.len() == blocks.len() + 1,
        cores[0] == core,
        forall|j: int|
            0 <= j < blocks.len() ==> G::generated(&cores[j], &cores[j + 1], #[trigger] blocks[j]),
        blocks.len() == 0 ==> k <= words_left(block@, index),
        blocks.len() > 0 ==> words_left(block@, index) + (blocks.len() - 1) * N < k
            <= words_left(block@, index) + blocks.len() * N,
    ensures
        read_run(r.0, r.1, r.2, r.3),
        r.0[0] == block,
        r.1[0] == index,
        r.2[0] == core,
        r.3.len() == k,
        ({
            let (b, i, rest, words) = take_words(block@, index, block_words(blocks), k);
            &&& r.0[k as int]@ == b
            &&& r.1[k as int] == i
            &&& r.2[k as int] == cores.last()
            &&& r.3 == words
        }),
        forall|j: int| 0 <= j <= k ==> 0 <= #[trigger] r.1[j],
        forall|j: int| 0 < j <= k ==> #[trigger] r.1[j] <= N,
    decreases k,
{
    if k == 0 {
        if blocks.len() > 0 {
            assert((blocks.len() - 1) * N >= 0) by (nonlinear_arith)
                requires
                    blocks.len() >= 1,
            ;
        }
        let r = (seq![block], seq![index], seq![core], Seq::<W>::empty());
        assert(read_run(r.0, r.1, r.2, r.3));
        r
    } else if 1 <= words_left(block@, index) {
        let rest = lemma_read_run_from_blocks(block, index + 1, core, cores, blocks, (k - 1) as nat);
        let r = (seq![block] + rest.0, seq![index] + rest.1, seq![core] + rest.2, seq![block@[index]] + rest.3);
        assert forall|j: int| 0 <= j < r.3.len() implies read_word(
            r.0[j],
            r.1[j],
            r.2[j],
            r.0[j + 1],
            r.1[j + 1],
            r.2[j + 1],
            #[trigger] r.3[j],
        ) by {
            if j > 0 {
                assert(read_word(
                    rest.0[j - 1],
                    rest.1[j - 1],
                    rest.2[j - 1],
                    rest.0[j],
                    rest.1[j],
                    rest.2[j],
                    rest.3[j - 1],
                ));
            }
        }
        assert forall|j: int| 0 <= j <= k implies 0 <= #[trigger] r.1[j] by {
            if j > 0 {
                assert(r.1[j] == rest.1[j - 1]);
            }
        }
        assert forall|j: int| 0 < j <= k implies #[trigger] r.1[j] <= N by {
            assert(r.1[j] == rest.1[j - 1]);
        }
        assert(r.3 =~= take_words(block@, index, block_words(blocks), k).3);
        r
    } else {
        assert(blocks.len() > 0) by {
            if blocks.len() == 0 {
                assert(k <= 0);
            }
        }
        let b0 = blocks[0];
        assert(b0@.len() == N);
        assert(words_left(b0@, 1) == N - 1);
        assert(blocks.drop_first().len() == blocks.len() - 1);
        assert(G::generated(&cores[0], &cores[1], blocks[0]));
        assert((blocks.len() - 1) * N == (blocks.len() - 2) * N + N) by (nonlinear_arith);
        assert(blocks.len() * N == (blocks.len() - 1) * N + N) by (nonlinear_arith);
        if blocks.len() == 1 {
            assert((blocks.len() - 1) * N == 0) by (nonlinear_arith)
                requires
                    blocks.len() == 1,
            ;
        }
        let rest = lemma_read_run_from_blocks(
            b0,
            1,
            cores[1],
            cores.drop_first(),
            blocks.drop_first(),
            (k - 1) as nat,
        );
        let r = (seq![block] + rest.0, seq![index] + rest.1, seq![core] + rest.2, seq![b0@[0]] + rest.3);
        assert(block_words(blocks)[0] == b0@);
        assert(block_words(blocks).drop_first() =~= block_words(blocks.drop_first()));
        assert(refill(block@, index, 1, b0@) == seq![b0@]);
        assert(seq![b0@].drop_first() =~= Seq::<Seq<W>>::empty());
        assert forall|j: int| 0 <= j < r.3.len() implies read_word(
            r.0[j],
            r.1[j],
            r.2[j],
            r.0[j + 1],
            r.1[j + 1],
            r.2[j + 1],
            #[trigger] r.3[j],
        ) by {
            if j > 0 {
                assert(read_word(
                    rest.0[j - 1],
                    rest.1[j - 1],
                    rest.2[j - 1],
                    rest.0[j],
                    rest.1[j],
                    rest.2[j],
                    rest.3[j - 1],
                ));
            }
        }
        assert forall|j: int| 0 <= j <= k implies 0 <= #[trigger] r.1[j] by {
            if j > 0 {
                assert(r.1[j] == rest.1[j - 1]);
            }
        }
        assert forall|j: int| 0 < j <= k implies #[trigger] r.1[j] <= N by {
            assert(r.1[j] == rest.1[j - 1]);
        }
        assert(cores.drop_first().last() == cores.last());
        assert(r.3 =~= take_words(block@, index, block_words(blocks), k).3);
        r
    }
}

/// Every fill is a run of word reads: whatever a fill may give and leave, a
/// run of reads may leave the same, giving words whose little-endian bytes,
/// cut to length, are the bytes filled.
#[verifier::spinoff_prover]
pub proof fn lemma_read_run_of_fill<W: Word, const N: usize, G: Generator<Output = [W; N]>>(
    block: [W; N],
    index: int,
    core: G,
    new_block: [W; N],
    new_index: int,
    new_core: G,
    bytes: Seq<u8>,
)
    requires
        N >= 1,
        0 <= index,
        filled_by_generator(block, index, core, new_block, new_index, new_core, bytes),
    ensures
        exists|blocks: Seq<[W; N]>, indices: Seq<int>, cores: Seq<G>, values: Seq<W>|
            #![trigger read_run(blocks, indices, cores, values)]
            {
                &&& read_run(blocks, indices, cores, values)
                &&& blocks[0] == block
                &&& indices[0] == index
                &&& cores[0] == core
                &&& blocks[values.len() as int] == new_block
                &&& indices[values.len() as int] == new_index
                &&& cores[values.len() as int] == new_core
                &&& values.len() == words_for::<W>(bytes.len() as int)
                &&& bytes == words_le_bytes(values).take(bytes.len() as int)
                &&& forall|j: int| 0 <= j <= values.len() ==> 0 <= #[trigger] indices[j]
                &&& forall|j: int| 0 < j <= values.len() ==> #[trigger] indices[j] <= N
            },
{
    let (fcores, fblocks) = choose|fcores: Seq<G>, fblocks: Seq<[W; N]>|
        #![trigger generated_run(core, new_core, fcores, fblocks)]
        {
            &&& generated_run(core, new_core, fcores, fblocks)
            &&& filled_from_blocks(
                block@,
                index,
                N as int,
                new_block@,
                new_index,
                bytes,
                block_words(fblocks),
            )
        };
    let s = size_of::<W>() as int;
    W::lemma_size();
    let k = ((bytes.len() + s - 1) / s) as nat;
    assert(k >= 0) by {
        crate::le::lemma_split((bytes.len() + s - 1) as int, s);
    }
    let wl = words_left(block@, index);
    let wn = words_left(new_block@, new_index);
    assert(block_words(fblocks).len() == fblocks.len());
    assert(k + wn == wl + fblocks.len() * N);
    assert(wn >= 0);
    if fblocks.len() == 0 {
        assert(fblocks.len() * N == 0) by (nonlinear_arith)
            requires
                fblocks.len() == 0,
        ;
    }
    if fblocks.len() > 0 {
        assert(wn <= N - 1);
        assert((fblocks.len() - 1) * N == fblocks.len() * N - N) by (nonlinear_arith);
    }
    let r = lemma_read_run_from_blocks(block, index, core, fcores, fblocks, k);
    assert(r.0[k as int] =~= new_block);
    assert(read_run(r.0, r.1, r.2, r.3));
}

/// Whether `generate` depends on the generator's state alone: from one state,
/// every call leaves the same state and writes the same block.
pub open spec fn deterministic<G: Generator>() -> bool {
    forall|pre: G, post1: G, post2: G, block1: G::Output, block2: G::Output|
        #![trigger G::generated(&pre, &post1, block1), G::generated(&pre, &post2, block2)]
        G::generated(&pre, &post1, block1) && G::generated(&pre, &post2, block2) ==> post1 == post2
            && block1 == block2
}

/// With a deterministic generator, a word read from a given state has one
/// outcome.
pub proof fn lemma_read_word_deterministic<W, const N: usize, G: Generator<Output = [W; N]>>(
    block: [W; N],
    index: int,
    core: G,
    block1: [W; N],
    index1: int,
    core1: G,
    value1: W,
    block2: [W; N],
    index2: int,
    core2: G,
    value2: W,
)
    requires
        deterministic::<G>(),
        read_word(block, index, core, block1, index1, core1, value1),
        read_word(block, index, core, block2, index2, core2, value2),
    ensures
        block1 == block2,
        index1 == index2,
        core1 == core2,
        value1 == value2,
{
    if 1 <= words_left(block@, index) {
        assert(block1 =~= block);
        assert(block2 =~= block);
    } else {
        assert(G::generated(&core, &core1, block1));
        assert(G::generated(&core, &core2, block2));
    }
}

/// The states and values of two such runs agree up to state `m`.
proof fn lemma_read_runs_agree_upto<W, const N: usize, G: Generator<Output = [W; N]>>(
    blocks1: Seq<[W; N]>,
    indices1: Seq<int>,
    cores1: Seq<G>,
    values1: Seq<W>,
    blocks2: Seq<[W; N]>,
    indices2: Seq<int>,
    cores2: Seq<G>,
    values2: Seq<W>,
    m: nat,
)
    requires
        deterministic::<G>(),
        read_run(blocks1, indices1, cores1, values1),
        read_run(blocks2, indices2, cores2, values2),
        values1.len() == values2.len(),
        m <= values1.len(),
        blocks1[0] == blocks2[0],
        indices1[0] == indices2[0],
        cores1[0] == cores2[0],
    ensures
        forall|j: int| 0 <= j <= m ==> #[trigger] blocks1[j] == blocks2[j],
        forall|j: int| 0 <= j <= m ==> #[trigger] indices1[j] == indices2[j],
        forall|j: int| 0 <= j <= m ==> #[trigger] cores1[j] == cores2[j],
        forall|j: int| 0 <= j < m ==> #[trigger] values1[j] == values2[j],
    decreases m,
{
    if m > 0 {
        let p = m - 1;
        lemma_read_runs_agree_upto(
            blocks1,
            indices1,
            cores1,
            values1,
            blocks2,
            indices2,
            cores2,
            values2,
            p as nat,
        );
        assert(read_word(
            blocks1[p],
            indices1[p],
            cores1[p],
            blocks1[p + 1],
            indices1[p + 1],
            cores1[p + 1],
            values1[p],
        ));
        assert(read_word(
            blocks2[p],
            indices2[p],
            cores2[p],
            blocks2[p + 1],
            indices2[p + 1],
            cores2[p + 1],
            values2[p],
        ));
        lemma_read_word_deterministic(
            blocks1[p],
            indices1[p],
            cores1[p],
            blocks1[p + 1],
            indices1[p + 1],
            cores1[p + 1],
            values1[p],
            blocks2[p + 1],
            indices2[p + 1],
            cores2[p + 1],
            values2[p],
        );
        assert(blocks1[p + 1] == blocks2[p + 1]);
        assert(indices1[p + 1] == indices2[p + 1]);
        assert(cores1[p + 1] == cores2[p + 1]);
        assert(values1[p] == values2[p]);
    }
}

/// With a deterministic generator, two runs of word reads of the same length
/// from the same state pass through the same states and give the same values.
pub proof fn lemma_read_runs_agree<W, const N: usize, G: Generator<Output = [W; N]>>(
    blocks1: Seq<[W; N]>,
    indices1: Seq<int>,
    cores1: Seq<G>,
    values1: Seq<W>,
    blocks2: Seq<[W; N]>,
    indices2: Seq<int>,
    cores2: Seq<G>,
    values2: Seq<W>,
)
    requires
        deterministic::<G>(),
        read_run(blocks1, indices1, cores1, values1),
        read_run(blocks2, indices2, cores2, values2),
        values1.len() == values2.len(),
        blocks1[0] == blocks2[0],
        indices1[0] == indices2[0],
        cores1[0] == cores2[0],
    ensures
        blocks1 == blocks2,
        indices1 == indices2,
        cores1 == cores2,
        values1 == values2,
{
    let k = values1.len() as int;
    lemma_read_runs_agree_upto(
        blocks1,
        indices1,
        cores1,
        values1,
        blocks2,
        indices2,
        cores2,
        values2,
        k as nat,
    );
    assert(blocks1 =~= blocks2);
    assert(indices1 =~= indices2);
    assert(cores1 =~= cores2);
    assert(values1 =~= values2);
}

/// Fills `dest` with the words of the block buffer `results` from `index` on,
/// in little-endian order, generating new blocks with `core` as needed.
#[verifier::spinoff_prover]
pub(crate) fn fill_from_blocks<W: Word, const N: usize, G: Generator<Output = [W; N]>>(
    core: &mut G,
    results: &mut [W; N],
    index: &mut usize,
    dest: &mut [u8],
)
    requires
        N >= 1 || old(dest)@.len() == 0,
    ensures
        final(dest)@.len() == old(dest)@.len(),
        *final(index) <= N || (old(dest)@.len() == 0 && *final(index) == *old(index)),
        filled_by_generator(
            *old(results),
            *old(index) as int,
            *old(core),
            *final(results),
            *final(index) as int,
            *final(core),
            final(dest)@,
        ),
{
    let ghost old_buffer = results@;
    let ghost old_index = *index as int;
    let ghost old_core = *core;
    let ghost mut blocks: Seq<Seq<W>> = Seq::empty();
    let ghost mut cores: Seq<G> = seq![*core];
    let ghost mut outputs: Seq<[W; N]> = Seq::empty();
    let ghost mut taken: Seq<W> = Seq::empty();
    let ghost s = size_of::<W>() as int;
    proof {
        W::lemma_size();
        lemma_words_le_bytes_len(taken);
        reveal_with_fuel(take_words, 1);
    }
    let mut read_len: usize = 0;
    while read_len < dest.len()
        invariant
            N >= 1 || old(dest)@.len() == 0,
            0 <= old_index,
            old_buffer.len() == N,
            s == size_of::<W>(),
            s == 4 || s == 8,
            dest@.len() == old(dest)@.len(),
            read_len <= dest@.len(),
            read_len < dest@.len() ==> read_len == s * taken.len(),
            taken.len() == (read_len + s - 1) / s,
            blocks_of_len(blocks, N as int),
            blocks == block_words(outputs),
            generated_run(old_core, *core, cores, outputs),
            read_len == 0 ==> *index == old_index && blocks.len() == 0,
            blocks.len() > 0 ==> *index >= 1,
            read_len > 0 ==> *index <= N,
            taken.len() + words_left(results@, *index as int) == words_left(old_buffer, old_index)
                + blocks.len() * N,
            take_words(old_buffer, old_index, blocks, taken.len()) == (
                results@,
                *index as int,
                Seq::<Seq<W>>::empty(),
                taken,
            ),
            dest@.take(read_len as int) == words_le_bytes(taken).take(read_len as int),
        decreases dest@.len() - read_len,
    {
        let ghost pre_blocks = blocks;
        let ghost pre_buffer = results@;
        let ghost pre_index = *index as int;
        let generated = *index >= N;
        if generated {
            let ghost pre_core = *core;
            core.generate(results);
            *index = 0;
            proof {
                let pre_cores = cores;
                let pre_outputs = outputs;
                cores = cores.push(*core);
                outputs = outputs.push(*results);
                assert forall|j: int| 0 <= j < outputs.len() implies G::generated(
                    &cores[j],
                    &cores[j + 1],
                    #[trigger] outputs[j],
                ) by {
                    if j < pre_outputs.len() {
                        assert(cores[j] == pre_cores[j]);
                        assert(cores[j + 1] == pre_cores[j + 1]);
                        assert(outputs[j] == pre_outputs[j]);
                    }
                }
                assert(block_words(outputs) =~= block_words(pre_outputs).push(results@));
            }
        }
        let ghost mid_dest = dest@;
        let src = &results[*index..N];
        assert(src@ == results@.subrange(*index as int, N as int));
        let (consumed, filled) = {
            let (_, rest) = dest.split_at_mut(read_len);
            fill_via_chunks(src, rest)
        };
        proof {
            lemma_words_le_bytes_len(taken);
            assert(mid_dest.take(read_len as int) =~= words_le_bytes(taken));
            assert(dest@.take(read_len + filled) =~= words_le_bytes(taken) + words_le_bytes(
                src@,
            ).take(filled as int));
            lemma_fill_step_bytes(
                taken,
                src@,
                consumed as int,
                filled as int,
                read_len as int,
                dest@.len() as int,
                dest@,
            );
            lemma_fill_step_model(
                old_buffer,
                old_index,
                pre_blocks,
                taken,
                pre_buffer,
                pre_index,
                generated,
                results@,
                *index as int,
                consumed as int,
            );
            if generated {
                blocks = pre_blocks.push(results@);
            }
            assert(src@.take(consumed as int) =~= results@.subrange(
                *index as int,
                *index + consumed,
            ));
            taken = taken + src@.take(consumed as int);
        }
        *index = *index + consumed;
        read_len = read_len + filled;
    }
    proof {
        assert(dest@ =~= dest@.take(read_len as int));
        assert(filled_from_blocks(
            old_buffer,
            old_index,
            N as int,
            results@,
            *index as int,
            dest@,
            block_words(outputs),
        ));
    }
}

} // verus!
