use rand_core::block::{BlockRng, Generator};
use rand_core::utils::{fill_bytes_via_next_word, next_u64_via_u32, next_word_via_fill, read_words, Word};
use rand_core::word::join_u32_le;
use rand_core::RngCore;

#[derive(Debug, Clone)]
struct Counter {
    counter: u32,
}

impl Generator for Counter {
    type Output = [u32; 4];

    fn generate(&mut self, output: &mut Self::Output) {
        for item in output {
            *item = self.counter;
            self.counter = self.counter.wrapping_add(0x11111111);
        }
    }
}

#[test]
fn test_read() {
    let bytes = [1, 2, 3, 4, 5, 6, 7, 8, 9, 10, 11, 12, 13, 14, 15, 16];

    let buf: [u32; 4] = read_words(&bytes);
    assert_eq!(buf[0], 0x04030201);
    assert_eq!(buf[3], 0x100F0E0D);

    let buf: [u32; 3] = read_words(&bytes[1..13]); // unaligned
    assert_eq!(buf[0], 0x05040302);
    assert_eq!(buf[2], 0x0D0C0B0A);

    let buf: [u64; 2] = read_words(&bytes);
    assert_eq!(buf[0], 0x0807060504030201);
    assert_eq!(buf[1], 0x100F0E0D0C0B0A09);

    let buf: [u64; 1] = read_words(&bytes[7..15]); // unaligned
    assert_eq!(buf[0], 0x0F0E0D0C0B0A0908);
}

#[test]
fn read_words_inverts_le_encoding() {
    let words: [u32; 3] = [0xdeadbeef, 0x01234567, 0x89abcdef];
    let mut bytes = [0u8; 12];
    for (i, w) in words.iter().enumerate() {
        bytes[4 * i..4 * i + 4].copy_from_slice(&w.to_le_bytes());
    }
    let back: [u32; 3] = read_words(&bytes);
    assert_eq!(back, words);
    let empty: [u64; 0] = read_words(&[]);
    assert_eq!(empty.len(), 0);
}

#[test]
fn next_u64_via_u32_low_half_first() {
    let mut rng = BlockRng::new(Counter { counter: 5 });
    let v = next_u64_via_u32(&mut rng);
    assert_eq!(v, (0x11111116u64 << 32) | 5);
    assert_eq!(rng.index(), 2);
}

#[test]
fn next_u64_via_u32_matches_block_next_u64() {
    let mut rng1 = BlockRng::new(Counter { counter: 5 });
    let mut rng2 = rng1.clone();
    rng1.next_u32();
    rng2.next_u32();
    for _ in 0..5 {
        assert_eq!(next_u64_via_u32(&mut rng1), rng2.next_u64());
    }
}

#[test]
fn fill_bytes_via_next_word_u32() {
    let mut n: u32 = 0x01020304;
    let mut dst = [0u8; 10];
    fill_bytes_via_next_word(&mut dst, || {
        n = n.wrapping_add(0x10101010);
        n
    });
    assert_eq!(dst, [0x14, 0x13, 0x12, 0x11, 0x24, 0x23, 0x22, 0x21, 0x34, 0x33]);
    assert_eq!(n, 0x31323334);
}

#[test]
fn fill_bytes_via_next_word_u64_exact() {
    let mut calls = 0u64;
    let mut dst = [0u8; 16];
    fill_bytes_via_next_word(&mut dst, || {
        calls += 1;
        calls * 0x0101010101010101
    });
    assert_eq!(calls, 2);
    assert_eq!(dst[..8], [1u8; 8]);
    assert_eq!(dst[8..], [2u8; 8]);
}

#[test]
fn fill_bytes_via_next_word_empty() {
    let mut calls = 0u32;
    let mut dst = [0u8; 0];
    fill_bytes_via_next_word(&mut dst, || {
        calls += 1;
        calls
    });
    assert_eq!(calls, 0);
}

#[test]
fn next_word_via_fill_u32_and_u64() {
    let mut rng = BlockRng::new(Counter { counter: 0x0a0b0c0d });
    let w: u32 = next_word_via_fill(&mut rng);
    assert_eq!(w, 0x0a0b0c0d);
    let w: u64 = next_word_via_fill(&mut rng);
    assert_eq!(w, (0x2c2d2e2fu64 << 32) | 0x1b1c1d1e);
    assert_eq!(rng.index(), 3);
}

#[test]
fn word_le_bytes_roundtrip() {
    let x: u32 = 0x89abcdef;
    let bytes: Vec<u8> = (0..4).map(|i| x.le_byte(i)).collect();
    assert_eq!(bytes, x.to_le_bytes());
    assert_eq!(<u32 as Word>::from_le_bytes(&bytes), x);
    let y: u64 = 0x0123456789abcdef;
    let bytes: Vec<u8> = (0..8).map(|i| y.le_byte(i)).collect();
    assert_eq!(bytes, y.to_le_bytes());
    assert_eq!(<u64 as Word>::from_le_bytes(&bytes), y);
    assert_eq!(<u32 as Word>::from_usize(7), 7);
    assert_eq!(<u64 as Word>::from_usize(usize::MAX), usize::MAX as u64);
}

#[test]
fn join_u32_le_low_half_first() {
    assert_eq!(join_u32_le(0x89abcdef, 0x01234567), 0x0123456789abcdef);
    assert_eq!(join_u32_le(0, 1), 1 << 32);
    let mut bytes = [0u8; 8];
    bytes[..4].copy_from_slice(&0xdeadbeefu32.to_le_bytes());
    bytes[4..].copy_from_slice(&0xcafef00du32.to_le_bytes());
    assert_eq!(join_u32_le(0xdeadbeef, 0xcafef00d).to_le_bytes(), bytes);
}
