//! Unsigned integer words that block generators produce, and their
//! little-endian byte encoding.

use vstd::prelude::*;
use vstd::layout::size_of;

verus! {

broadcast use vstd::layout::group_layout_axioms;

/// An unsigned integer type in which random data is generated: `u32` or `u64`.
///
/// Conversions to and from bytes always use little-endian order (least
/// significant byte first), so that results are reproducible across platforms.
pub trait Word: Copy + Sized {
    /// The little-endian encoding of the word.
    spec fn spec_to_le_bytes(self) -> Seq<u8>;

    /// The word whose little-endian encoding is `bytes`.
    spec fn spec_from_le_bytes(bytes: Seq<u8>) -> Self;

    /// The word that `val` converts to, keeping its low-order bits.
    spec fn spec_from_usize(val: usize) -> Self;

    /// A word is 4 or 8 bytes long.
    proof fn lemma_size()
        ensures
            size_of::<Self>() == 4 || size_of::<Self>() == 8,
    ;

    /// Encoding a word gives as many bytes as the word is long, and decoding
    /// them gives the word back.
    proof fn lemma_encode_decode(w: Self)
        ensures
            w.spec_to_le_bytes().len() == size_of::<Self>(),
            Self::spec_from_le_bytes(w.spec_to_le_bytes()) == w,
    ;

    /// Decoding bytes and encoding the word gives the bytes back.
    proof fn lemma_decode_encode(bytes: Seq<u8>)
        requires
            bytes.len() == size_of::<Self>(),
        ensures
            Self::spec_from_le_bytes(bytes).spec_to_le_bytes() == bytes,
    ;

    /// The byte at position `i` of the little-endian encoding.
    fn le_byte(self, i: usize) -> (b: u8)
        requires
            i < size_of::<Self>(),
        ensures
            b == self.spec_to_le_bytes()[i as int],
    ;

    /// Reads a word from exactly as many little-endian bytes as it is long.
    fn from_le_bytes(bytes: &[u8]) -> (w: Self)
        requires
            bytes@.len() == size_of::<Self>(),
        ensures
            w == Self::spec_from_le_bytes(bytes@),
    ;

    /// Converts `val`, keeping its low-order bits.
    fn from_usize(val: usize) -> (w: Self)
        ensures
            w == Self::spec_from_usize(val),
    ;
}

/// Byte `i` of the little-endian encoding of `x`.
pub open spec fn u32_le_byte(x: u32, i: int) -> u8 {
    ((x >> ((8 * i) as u32)) & 0xffu32) as u8
}

/// Byte `i` of the little-endian encoding of `x`.
pub open spec fn u64_le_byte(x: u64, i: int) -> u8 {
    ((x >> ((8 * i) as u64)) & 0xffu64) as u8
}

impl Word for u32 {
    open spec fn spec_to_le_bytes(self) -> Seq<u8> {
        Seq::new(4, |i: int| u32_le_byte(self, i))
    }

    open spec fn spec_from_le_bytes(bytes: Seq<u8>) -> u32 {
        (bytes[0] as u32) | ((bytes[1] as u32) << 8u32) | ((bytes[2] as u32) << 16u32) | ((
        bytes[3] as u32) << 24u32)
    }

    open spec fn spec_from_usize(val: usize) -> u32 {
        val as u32
    }

    proof fn lemma_size() {
        assert(size_of::<u32>() == 4);
    }

    proof fn lemma_encode_decode(w: u32) {
        assert(size_of::<u32>() == 4);
        let b = w.spec_to_le_bytes();
        assert(b[0] == u32_le_byte(w, 0) && b[1] == u32_le_byte(w, 1) && b[2] == u32_le_byte(w, 2)
            && b[3] == u32_le_byte(w, 3));
        assert(w == (((w >> 0u32) & 0xffu32) as u8 as u32) | ((((w >> 8u32) & 0xffu32) as u8 as u32)
            << 8u32) | ((((w >> 16u32) & 0xffu32) as u8 as u32) << 16u32) | ((((w >> 24u32)
            & 0xffu32) as u8 as u32) << 24u32)) by (bit_vector);
    }

    proof fn lemma_decode_encode(bytes: Seq<u8>) {
        assert(size_of::<u32>() == 4);
        let (b0, b1, b2, b3) = (bytes[0], bytes[1], bytes[2], bytes[3]);
        let x = <u32 as Word>::spec_from_le_bytes(bytes);
        assert(x == (b0 as u32) | ((b1 as u32) << 8u32) | ((b2 as u32) << 16u32) | ((b3 as u32)
            << 24u32));
        assert(x == (b0 as u32) | ((b1 as u32) << 8u32) | ((b2 as u32) << 16u32) | ((b3 as u32)
            << 24u32) ==> ((x >> 0u32) & 0xffu32) as u8 == b0 && ((x >> 8u32) & 0xffu32) as u8
            == b1 && ((x >> 16u32) & 0xffu32) as u8 == b2 && ((x >> 24u32) & 0xffu32) as u8 == b3)
            by (bit_vector);
        let e = x.spec_to_le_bytes();
        assert(e[0] == u32_le_byte(x, 0) && e[1] == u32_le_byte(x, 1) && e[2] == u32_le_byte(x, 2)
            && e[3] == u32_le_byte(x, 3));
        assert(e =~= bytes);
    }

    fn le_byte(self, i: usize) -> (b: u8) {
        assert(size_of::<u32>() == 4);
        let shift: u32 = 8 * (i as u32);
        ((self >> shift) & 0xff) as u8
    }

    fn from_le_bytes(bytes: &[u8]) -> (w: u32) {
        assert(size_of::<u32>() == 4);
        (bytes[0] as u32) | ((bytes[1] as u32) << 8u32) | ((bytes[2] as u32) << 16u32) | ((
        bytes[3] as u32) << 24u32)
    }

    fn from_usize(val: usize) -> (w: u32) {
        #[verifier::truncate]
        (val as u32)
    }
}

impl Word for u64 {
    open spec fn spec_to_le_bytes(self) -> Seq<u8> {
        Seq::new(8, |i: int| u64_le_byte(self, i))
    }

    open spec fn spec_from_le_bytes(bytes: Seq<u8>) -> u64 {
        (bytes[0] as u64) | ((bytes[1] as u64) << 8u64) | ((bytes[2] as u64) << 16u64) | ((
        bytes[3] as u64) << 24u64) | ((bytes[4] as u64) << 32u64) | ((bytes[5] as u64) << 40u64)
            | ((bytes[6] as u64) << 48u64) | ((bytes[7] as u64) << 56u64)
    }

    open spec fn spec_from_usize(val: usize) -> u64 {
        val as u64
    }

    proof fn lemma_size() {
        assert(size_of::<u64>() == 8);
    }

    proof fn lemma_encode_decode(w: u64) {
        assert(size_of::<u64>() == 8);
        let b = w.spec_to_le_bytes();
        assert(b[0] == u64_le_byte(w, 0) && b[1] == u64_le_byte(w, 1) && b[2] == u64_le_byte(w, 2)
            && b[3] == u64_le_byte(w, 3) && b[4] == u64_le_byte(w, 4) && b[5] == u64_le_byte(w, 5)
            && b[6] == u64_le_byte(w, 6) && b[7] == u64_le_byte(w, 7));
        assert(w == (((w >> 0u64) & 0xffu64) as u8 as u64) | ((((w >> 8u64) & 0xffu64) as u8 as u64)
            << 8u64) | ((((w >> 16u64) & 0xffu64) as u8 as u64) << 16u64) | ((((w >> 24u64)
            & 0xffu64) as u8 as u64) << 24u64) | ((((w >> 32u64) & 0xffu64) as u8 as u64)
            << 32u64) | ((((w >> 40u64) & 0xffu64) as u8 as u64) << 40u64) | ((((w >> 48u64)
            & 0xffu64) as u8 as u64) << 48u64) | ((((w >> 56u64) & 0xffu64) as u8 as u64)
            << 56u64)) by (bit_vector);
    }

    proof fn lemma_decode_encode(bytes: Seq<u8>) {
        assert(size_of::<u64>() == 8);
        let (b0, b1, b2, b3) = (bytes[0], bytes[1], bytes[2], bytes[3]);
        let (b4, b5, b6, b7) = (bytes[4], bytes[5], bytes[6], bytes[7]);
        let x = <u64 as Word>::spec_from_le_bytes(bytes);
        assert(x == (b0 as u64) | ((b1 as u64) << 8u64) | ((b2 as u64) << 16u64) | ((b3 as u64)
            << 24u64) | ((b4 as u64) << 32u64) | ((b5 as u64) << 40u64) | ((b6 as u64) << 48u64)
            | ((b7 as u64) << 56u64));
        assert(x == (b0 as u64) | ((b1 as u64) << 8u64) | ((b2 as u64) << 16u64) | ((b3 as u64)
            << 24u64) | ((b4 as u64) << 32u64) | ((b5 as u64) << 40u64) | ((b6 as u64) << 48u64)
            | ((b7 as u64) << 56u64) ==> ((x >> 0u64) & 0xffu64) as u8 == b0 && ((x >> 8u64)
            & 0xffu64) as u8 == b1 && ((x >> 16u64) & 0xffu64) as u8 == b2 && ((x >> 24u64)
            & 0xffu64) as u8 == b3 && ((x >> 32u64) & 0xffu64) as u8 == b4 && ((x >> 40u64)
            & 0xffu64) as u8 == b5 && ((x >> 48u64) & 0xffu64) as u8 == b6 && ((x >> 56u64)
            & 0xffu64) as u8 == b7) by (bit_vector);
        let e = x.spec_to_le_bytes();
        assert(e[0] == u64_le_byte(x, 0) && e[1] == u64_le_byte(x, 1) && e[2] == u64_le_byte(x, 2)
            && e[3] == u64_le_byte(x, 3) && e[4] == u64_le_byte(x, 4) && e[5] == u64_le_byte(x, 5)
            && e[6] == u64_le_byte(x, 6) && e[7] == u64_le_byte(x, 7));
        assert(e =~= bytes);
    }

    fn le_byte(self, i: usize) -> (b: u8) {
        assert(size_of::<u64>() == 8);
        let shift: u64 = 8 * (i as u64);
        ((self >> shift) & 0xff) as u8
    }

    fn from_le_bytes(bytes: &[u8]) -> (w: u64) {
        assert(size_of::<u64>() == 8);
        (bytes[0] as u64) | ((bytes[1] as u64) << 8u64) | ((bytes[2] as u64) << 16u64) | ((
        bytes[3] as u64) << 24u64) | ((bytes[4] as u64) << 32u64) | ((bytes[5] as u64) << 40u64)
            | ((bytes[6] as u64) << 48u64) | ((bytes[7] as u64) << 56u64)
    }

    fn from_usize(val: usize) -> (w: u64) {
        #[verifier::truncate]
        (val as u64)
    }
}

/// The value of a `u64` built from two `u32` halves, the low half first.
pub open spec fn join_u32(lo: u32, hi: u32) -> int {
    lo + hi * 0x1_0000_0000
}

/// The low 32 bits of a `u64`.
pub open spec fn low_half(w: u64) -> u32 {
    ((w as int) % 0x1_0000_0000) as u32
}

/// The high 32 bits of a `u64`.
pub open spec fn high_half(w: u64) -> u32 {
    ((w as int) / 0x1_0000_0000) as u32
}

/// Builds a `u64` from two `u32` halves, the low half first.
pub fn join_u32_le(lo: u32, hi: u32) -> (r: u64)
    ensures
        r == join_u32(lo, hi),
{
    let r = ((hi as u64) << 32u64) | (lo as u64);
    assert(((hi as u64) << 32u64) | (lo as u64) == (lo as u64) + (hi as u64) * 0x1_0000_0000u64)
        by (bit_vector);
    r
}

/// A `u64` built from two `u32` halves fits in a `u64`.
pub proof fn lemma_join_u32_bound(lo: u32, hi: u32)
    ensures
        0 <= join_u32(lo, hi) <= u64::MAX,
{
    assert(hi * 0x1_0000_0000 <= 0xffff_ffff * 0x1_0000_0000) by (nonlinear_arith)
        requires
            hi <= 0xffff_ffff,
    ;
}

/// A `u64` is made up of its low and high halves.
pub proof fn lemma_join_halves(w: u64)
    ensures
        join_u32(low_half(w), high_half(w)) == w,
{
    assert(w == (w % 0x1_0000_0000u64) + (w / 0x1_0000_0000u64) * 0x1_0000_0000u64) by (bit_vector);
}

/// The little-endian bytes of a `u64` built from two `u32` halves are the
/// bytes of the low half followed by those of the high half.
pub proof fn lemma_join_u32_le_bytes(lo: u32, hi: u32)
    ensures
        (join_u32(lo, hi) as u64).spec_to_le_bytes() == lo.spec_to_le_bytes()
            + hi.spec_to_le_bytes(),
{
    lemma_join_u32_bound(lo, hi);
    let w = join_u32(lo, hi) as u64;
    assert(w == (lo as u64) + (hi as u64) * 0x1_0000_0000u64);
    assert(w == (lo as u64) + (hi as u64) * 0x1_0000_0000u64 ==> u64_le_byte(w, 0) == u32_le_byte(lo, 0)
        && u64_le_byte(w, 1) == u32_le_byte(lo, 1) && u64_le_byte(w, 2) == u32_le_byte(lo, 2)
        && u64_le_byte(w, 3) == u32_le_byte(lo, 3) && u64_le_byte(w, 4) == u32_le_byte(hi, 0)
        && u64_le_byte(w, 5) == u32_le_byte(hi, 1) && u64_le_byte(w, 6) == u32_le_byte(hi, 2)
        && u64_le_byte(w, 7) == u32_le_byte(hi, 3)) by (bit_vector);
    assert(w.spec_to_le_bytes() =~= lo.spec_to_le_bytes() + hi.spec_to_le_bytes());
}

} // verus!
