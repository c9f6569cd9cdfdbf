//! Little-endian layout of word sequences, and the copying of words into bytes.

use vstd::prelude::*;
use vstd::layout::size_of;
use vstd::arithmetic::div_mod::{lemma_fundamental_div_mod, lemma_fundamental_div_mod_converse, lemma_mod_pos_bound};
use vstd::arithmetic::mul::lemma_mul_inequality;
use crate::word::Word;

verus! {

broadcast use vstd::layout::group_layout_axioms;

/// The bytes of `words`, each word in little-endian order, the words in sequence.
pub open spec fn words_le_bytes<W: Word>(words: Seq<W>) -> Seq<u8> {
    let s = size_of::<W>() as int;
    Seq::new((words.len() * s) as nat, |p: int| words[p / s].spec_to_le_bytes()[p % s])
}

/// Byte position `q * s + r` with `r < s` lies in word `q`, at offset `r`.
pub proof fn lemma_position(q: int, r: int, s: int)
    requires
        0 <= r < s,
    ensures
        (q * s + r) / s == q,
        (q * s + r) % s == r,
{
    lemma_fundamental_div_mod_converse(q * s + r, s, q, r);
}

/// Every position `p` splits into a word index and an offset into that word.
pub proof fn lemma_split(p: int, s: int)
    requires
        0 <= p,
        0 < s,
    ensures
        p == (p / s) * s + p % s,
        0 <= p % s < s,
        0 <= p / s,
{
    lemma_fundamental_div_mod(p, s);
    lemma_mod_pos_bound(p, s);
    assert((p / s) * s == s * (p / s)) by (nonlinear_arith);
    if p / s < 0 {
        lemma_mul_inequality(p / s, -1, s);
        assert((-1) * s == -s);
    }
}

/// A position below `n * s` lies in one of the first `n` words.
pub proof fn lemma_word_index_bound(p: int, s: int, n: int)
    requires
        0 <= p < n * s,
        0 < s,
    ensures
        0 <= p / s < n,
{
    lemma_split(p, s);
    if p / s >= n {
        lemma_mul_inequality(n, p / s, s);
    }
}

/// The encoding of a sequence of words is as long as the words together.
pub proof fn lemma_words_le_bytes_len<W: Word>(words: Seq<W>)
    ensures
        words_le_bytes(words).len() == words.len() * size_of::<W>(),
{
    W::lemma_size();
    assert(words.len() * size_of::<W>() >= 0) by (nonlinear_arith)
        requires
            size_of::<W>() > 0,
    ;
}

/// Byte `r` of word `q` sits at position `q * s + r` of the encoding.
pub proof fn lemma_words_le_bytes_index<W: Word>(words: Seq<W>, q: int, r: int)
    requires
        0 <= q < words.len(),
        0 <= r < size_of::<W>(),
    ensures
        q * size_of::<W>() + r < words_le_bytes(words).len(),
        words_le_bytes(words)[q * size_of::<W>() + r] == words[q].spec_to_le_bytes()[r],
{
    let s = size_of::<W>() as int;
    W::lemma_size();
    lemma_words_le_bytes_len(words);
    lemma_position(q, r, s);
    lemma_mul_inequality(q + 1, words.len() as int, s);
    assert((q + 1) * s == q * s + s) by (nonlinear_arith);
}

/// Encoding two runs of words one after the other gives their encodings one after the other.
pub proof fn lemma_words_le_bytes_concat<W: Word>(a: Seq<W>, b: Seq<W>)
    ensures
        words_le_bytes(a + b) == words_le_bytes(a) + words_le_bytes(b),
{
    let s = size_of::<W>() as int;
    W::lemma_size();
    lemma_words_le_bytes_len(a);
    lemma_words_le_bytes_len(b);
    lemma_words_le_bytes_len(a + b);
    assert((a.len() + b.len()) * s == a.len() * s + b.len() * s) by (nonlinear_arith);
    let x = words_le_bytes(a + b);
    let y = words_le_bytes(a) + words_le_bytes(b);
    assert forall|p: int| 0 <= p < x.len() implies x[p] == y[p] by {
        lemma_split(p, s);
        let q = p / s;
        let r = p % s;
        if p < a.len() * s {
            lemma_word_index_bound(p, s, a.len() as int);
            assert((a + b)[q] == a[q]);
        } else {
            let p2 = p - a.len() * s;
            lemma_split(p2, s);
            let q2 = p2 / s;
            let r2 = p2 % s;
            lemma_word_index_bound(p2, s, b.len() as int);
            assert(p == (q2 + a.len()) * s + r2) by (nonlinear_arith)
                requires
                    p2 == q2 * s + r2,
                    p2 == p - a.len() * s,
            ;
            lemma_position(q2 + a.len(), r2, s);
            assert((a + b)[q2 + a.len()] == b[q2]);
        }
    }
    assert(x =~= y);
}

/// The encoding of one word is its little-endian encoding.
pub proof fn lemma_words_le_bytes_single<W: Word>(w: W)
    ensures
        words_le_bytes(seq![w]) == w.spec_to_le_bytes(),
{
    let s = size_of::<W>() as int;
    W::lemma_size();
    W::lemma_encode_decode(w);
    lemma_words_le_bytes_len(seq![w]);
    assert forall|p: int| 0 <= p < s implies words_le_bytes(seq![w])[p]
        == w.spec_to_le_bytes()[p] by {
        lemma_position(0, p, s);
    }
    assert(words_le_bytes(seq![w]) =~= w.spec_to_le_bytes());
}

/// The encoding of the first `k` words is the first `k * s` bytes of the encoding.
pub proof fn lemma_words_le_bytes_take<W: Word>(words: Seq<W>, k: int)
    requires
        0 <= k <= words.len(),
    ensures
        words_le_bytes(words.take(k)) == words_le_bytes(words).take(k * size_of::<W>()),
{
    assert(words == words.take(k) + words.skip(k));
    lemma_words_le_bytes_concat(words.take(k), words.skip(k));
    lemma_words_le_bytes_len(words.take(k));
}

/// One step of filling bytes from words: when `dest` holds the encoding of
/// `taken` and then the bytes that [`fill_via_chunks`] copied from `src`, it
/// holds the encoding of `taken` followed by the words of `src` consumed.
pub proof fn lemma_fill_step_bytes<W: Word>(
    taken: Seq<W>,
    src: Seq<W>,
    consumed: int,
    filled: int,
    read_len: int,
    len: int,
    dest: Seq<u8>,
)
    requires
        size_of::<W>() == 4 || size_of::<W>() == 8,
        src.len() >= 1,
        read_len == size_of::<W>() * taken.len(),
        read_len < len,
        filled == (if src.len() * size_of::<W>() <= len - read_len {
            (src.len() * size_of::<W>()) as int
        } else {
            len - read_len
        }),
        consumed == (filled + size_of::<W>() - 1) / (size_of::<W>() as int),
        consumed <= src.len(),
        dest.take(read_len + filled) == words_le_bytes(taken) + words_le_bytes(src).take(filled),
    ensures
        1 <= consumed,
        dest.take(read_len + filled) == words_le_bytes(taken + src.take(consumed)).take(
            read_len + filled,
        ),
        read_len + filled < len ==> read_len + filled == size_of::<W>() * (taken.len()
            + consumed),
        taken.len() + consumed == (read_len + filled + size_of::<W>() - 1) / (
        size_of::<W>() as int),
{
    let s = size_of::<W>() as int;
    lemma_words_le_bytes_len(taken);
    lemma_words_le_bytes_len(src);
    lemma_words_le_bytes_concat(taken, src.take(consumed));
    lemma_words_le_bytes_take(src, consumed);
    assert(src.len() * s >= s) by (nonlinear_arith)
        requires
            src.len() >= 1,
            s > 0,
    ;
    assert(filled >= 1);
    lemma_split(filled + s - 1, s);
    assert(consumed >= 1) by {
        if consumed < 1 {
            assert(filled + s - 1 < s);
        }
    }
    assert(filled <= consumed * s);
    assert(words_le_bytes(taken + src.take(consumed)).take(read_len + filled) =~= words_le_bytes(
        taken,
    ) + words_le_bytes(src).take(filled));
    if read_len + filled < len {
        assert(filled == src.len() * s);
        lemma_position(src.len() as int, s - 1, s);
        assert(consumed == src.len());
        assert(read_len + filled == s * (taken.len() + consumed)) by (nonlinear_arith)
            requires
                read_len == s * taken.len(),
                filled == src.len() * s,
                consumed == src.len(),
        ;
    }
    assert(read_len + filled + s - 1 == (taken.len() + consumed) * s + (filled + s - 1) % s)
        by (nonlinear_arith)
        requires
            read_len == s * taken.len(),
            filled + s - 1 == consumed * s + (filled + s - 1) % s,
    ;
    lemma_position(taken.len() + consumed, (filled + s - 1) % s, s);
}

/// Copies words from `src` into `dest`, each in little-endian order, until
/// `dest` is full or `src` runs out.
///
/// Returns the number of words consumed and the number of bytes filled. The
/// last word consumed may be only partly copied.
pub fn fill_via_chunks<W: Word>(src: &[W], dest: &mut [u8]) -> (r: (usize, usize))
    ensures
        r.1 == (if src@.len() * size_of::<W>() <= old(dest)@.len() {
            (src@.len() * size_of::<W>()) as int
        } else {
            old(dest)@.len() as int
        }),
        r.0 == (r.1 + size_of::<W>() - 1) / (size_of::<W>() as int),
        r.0 <= src@.len(),
        final(dest)@ == words_le_bytes(src@).take(r.1 as int) + old(dest)@.skip(r.1 as int),
{
    let size = core::mem::size_of::<W>();
    proof {
        W::lemma_size();
    }
    let byte_len = if dest.len() / size < src.len() {
        proof {
            lemma_split(dest@.len() as int, size as int);
            lemma_mul_inequality((dest@.len() as int) / (size as int) + 1, src@.len() as int, size as int);
            assert(((dest@.len() as int) / (size as int) + 1) * size == ((dest@.len() as int) / (size as int)) * size
                + size) by (nonlinear_arith);
        }
        dest.len()
    } else {
        proof {
            lemma_split(dest@.len() as int, size as int);
            lemma_mul_inequality(src@.len() as int, (dest@.len() as int) / (size as int), size as int);
        }
        src.len() * size
    };
    let ghost bytes = words_le_bytes(src@);
    proof {
        lemma_words_le_bytes_len(src@);
    }
    let mut p: usize = 0;
    while p < byte_len
        invariant
            size == size_of::<W>(),
            size == 4 || size == 8,
            bytes == words_le_bytes(src@),
            bytes.len() == src@.len() * size,
            byte_len <= bytes.len(),
            byte_len <= dest@.len(),
            dest@.len() == old(dest)@.len(),
            0 <= p <= byte_len,
            forall|j: int| 0 <= j < p ==> dest@[j] == bytes[j],
            forall|j: int| p <= j < dest@.len() ==> dest@[j] == old(dest)@[j],
        decreases byte_len - p,
    {
        proof {
            lemma_split(p as int, size as int);
            lemma_word_index_bound(p as int, size as int, src@.len() as int);
            lemma_words_le_bytes_index(src@, (p / size) as int, (p % size) as int);
        }
        let b = src[p / size].le_byte(p % size);
        dest[p] = b;
        p = p + 1;
    }
    let num_chunks = if byte_len % size == 0 {
        byte_len / size
    } else {
        byte_len / size + 1
    };
    proof {
        lemma_split(byte_len as int, size as int);
        let q = byte_len / size;
        let r = byte_len % size;
        if r == 0 {
            lemma_position(q as int, size - 1, size as int);
            assert(q * size + size - 1 == byte_len + size - 1);
        } else {
            lemma_position(q + 1, r - 1, size as int);
            assert((q + 1) * size + r - 1 == byte_len + size - 1) by (nonlinear_arith)
                requires
                    byte_len == q * size + r,
            ;
        }
        if num_chunks > src@.len() {
            lemma_mul_inequality(src@.len() as int, q as int, size as int);
        }
        assert(dest@ =~= bytes.take(byte_len as int) + old(dest)@.skip(byte_len as int));
    }
    (num_chunks, byte_len)
}

} // verus!
