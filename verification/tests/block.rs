use rand_core::block::{BlockRng, BlockRng64, Generator};
use rand_core::{RngCore, SeedableRng};

#[derive(Debug, Clone)]
struct DummyRng {
    counter: u32,
}

impl Generator for DummyRng {
    type Output = [u32; 16];

    fn generate(&mut self, output: &mut Self::Output) {
        for item in output {
            *item = self.counter;
            self.counter = self.counter.wrapping_add(3511615421);
        }
    }
}

impl SeedableRng for DummyRng {
    type Seed = [u8; 4];

    fn from_seed(seed: Self::Seed) -> Self {
        DummyRng {
            counter: u32::from_le_bytes(seed),
        }
    }

    fn seed_from_u64(state: u64) -> Self {
        Self::from_seed((state as u32).to_le_bytes())
    }

    fn from_rng<R: RngCore + ?Sized>(rng: &mut R) -> Self {
        let mut seed = [0u8; 4];
        rng.fill_bytes(&mut seed);
        Self::from_seed(seed)
    }
}

#[derive(Debug, Clone)]
struct DummyRng64 {
    counter: u64,
}

impl Generator for DummyRng64 {
    type Output = [u64; 8];

    fn generate(&mut self, output: &mut Self::Output) {
        for item in output {
            *item = self.counter;
            self.counter = self.counter.wrapping_add(2781463553396133981);
        }
    }
}

impl SeedableRng for DummyRng64 {
    type Seed = [u8; 8];

    fn from_seed(seed: Self::Seed) -> Self {
        DummyRng64 {
            counter: u64::from_le_bytes(seed),
        }
    }

    fn seed_from_u64(state: u64) -> Self {
        Self::from_seed(state.to_le_bytes())
    }

    fn from_rng<R: RngCore + ?Sized>(rng: &mut R) -> Self {
        let mut seed = [0u8; 8];
        rng.fill_bytes(&mut seed);
        Self::from_seed(seed)
    }
}

/// The `i`-th value that `DummyRng` seeded with `[1, 2, 3, 4]` generates.
fn dummy_u32(i: u32) -> u32 {
    0x04030201u32.wrapping_add(3511615421u32.wrapping_mul(i))
}

/// The `i`-th value that `DummyRng64` seeded with `[1, ..., 8]` generates.
fn dummy_u64(i: u64) -> u64 {
    0x0807060504030201u64.wrapping_add(2781463553396133981u64.wrapping_mul(i))
}

#[test]
fn blockrng_next_u32_vs_next_u64() {
    let mut rng1 = BlockRng::<DummyRng>::from_seed([1, 2, 3, 4]);
    let mut rng2 = rng1.clone();
    let mut rng3 = rng1.clone();

    let mut a = [0; 16];
    a[..4].copy_from_slice(&rng1.next_u32().to_le_bytes());
    a[4..12].copy_from_slice(&rng1.next_u64().to_le_bytes());
    a[12..].copy_from_slice(&rng1.next_u32().to_le_bytes());

    let mut b = [0; 16];
    b[..4].copy_from_slice(&rng2.next_u32().to_le_bytes());
    b[4..8].copy_from_slice(&rng2.next_u32().to_le_bytes());
    b[8..].copy_from_slice(&rng2.next_u64().to_le_bytes());
    assert_eq!(a, b);

    let mut c = [0; 16];
    c[..8].copy_from_slice(&rng3.next_u64().to_le_bytes());
    c[8..12].copy_from_slice(&rng3.next_u32().to_le_bytes());
    c[12..].copy_from_slice(&rng3.next_u32().to_le_bytes());
    assert_eq!(a, c);
}

#[test]
fn blockrng64_next_u32_vs_next_u64() {
    let mut rng1 = BlockRng64::<DummyRng64>::from_seed([1, 2, 3, 4, 5, 6, 7, 8]);
    let mut rng2 = rng1.clone();
    let mut rng3 = rng1.clone();

    let mut a = [0; 16];
    a[..4].copy_from_slice(&rng1.next_u32().to_le_bytes());
    a[4..12].copy_from_slice(&rng1.next_u64().to_le_bytes());
    a[12..].copy_from_slice(&rng1.next_u32().to_le_bytes());

    let mut b = [0; 16];
    b[..4].copy_from_slice(&rng2.next_u32().to_le_bytes());
    b[4..8].copy_from_slice(&rng2.next_u32().to_le_bytes());
    b[8..].copy_from_slice(&rng2.next_u64().to_le_bytes());
    assert_ne!(a, b);
    assert_eq!(&a[..4], &b[..4]);
    assert_eq!(&a[4..12], &b[8..]);

    let mut c = [0; 16];
    c[..8].copy_from_slice(&rng3.next_u64().to_le_bytes());
    c[8..12].copy_from_slice(&rng3.next_u32().to_le_bytes());
    c[12..].copy_from_slice(&rng3.next_u32().to_le_bytes());
    assert_eq!(b, c);
}

#[test]
fn blockrng64_generate_and_set() {
    let mut rng = BlockRng64::<DummyRng64>::from_seed([1, 2, 3, 4, 5, 6, 7, 8]);
    assert_eq!(rng.index(), 8);

    rng.generate_and_set(5);
    assert_eq!(rng.index(), 5);
}

#[test]
fn blockrng_next_u64() {
    let mut rng = BlockRng::<DummyRng>::from_seed([1, 2, 3, 4]);
    let result_size = 16;
    for _i in 0..result_size / 2 - 1 {
        rng.next_u64();
    }
    rng.next_u32();

    let _ = rng.next_u64();
    assert_eq!(rng.index(), 1);
}

#[test]
fn blockrng_new_starts_used_up() {
    let rng = BlockRng::new(DummyRng { counter: 7 });
    assert_eq!(rng.index(), 16);
    assert_eq!(rng.core.counter, 7);
    let rng64 = BlockRng64::new(DummyRng64 { counter: 7 });
    assert_eq!(rng64.index(), 8);
}

#[test]
fn blockrng_next_u32_takes_words_in_order() {
    let mut rng = BlockRng::<DummyRng>::from_seed([1, 2, 3, 4]);
    for i in 0..40 {
        assert_eq!(rng.next_u32(), dummy_u32(i));
    }
    assert_eq!(rng.index(), 8);
}

#[test]
fn blockrng_next_u64_joins_low_half_first() {
    let mut rng = BlockRng::<DummyRng>::from_seed([1, 2, 3, 4]);
    let v = rng.next_u64();
    assert_eq!(v, ((dummy_u32(1) as u64) << 32) | dummy_u32(0) as u64);
    assert_eq!(rng.index(), 2);
}

#[test]
fn blockrng_next_u64_across_blocks() {
    let mut rng = BlockRng::<DummyRng>::from_seed([1, 2, 3, 4]);
    rng.generate_and_set(15);
    let v = rng.next_u64();
    assert_eq!(v, ((dummy_u32(16) as u64) << 32) | dummy_u32(15) as u64);
    assert_eq!(rng.index(), 1);
}

#[test]
fn blockrng_generate_and_set_then_read() {
    let mut rng = BlockRng::<DummyRng>::from_seed([1, 2, 3, 4]);
    rng.generate_and_set(5);
    assert_eq!(rng.index(), 5);
    assert_eq!(rng.next_u32(), dummy_u32(5));
}

#[test]
fn blockrng_reset_forces_new_block() {
    let mut rng = BlockRng::<DummyRng>::from_seed([1, 2, 3, 4]);
    assert_eq!(rng.next_u32(), dummy_u32(0));
    rng.reset();
    assert_eq!(rng.index(), 16);
    assert_eq!(rng.next_u32(), dummy_u32(16));
    assert_eq!(rng.index(), 1);
}

#[test]
fn blockrng_fill_bytes_discards_partial_word() {
    let mut rng = BlockRng::<DummyRng>::from_seed([1, 2, 3, 4]);
    let mut dest = [0u8; 7];
    rng.fill_bytes(&mut dest);
    let mut expected = [0u8; 8];
    expected[..4].copy_from_slice(&dummy_u32(0).to_le_bytes());
    expected[4..].copy_from_slice(&dummy_u32(1).to_le_bytes());
    assert_eq!(dest, expected[..7]);
    assert_eq!(rng.index(), 2);
    assert_eq!(rng.next_u32(), dummy_u32(2));
}

#[test]
fn blockrng_fill_bytes_over_several_blocks() {
    let mut rng = BlockRng::<DummyRng>::from_seed([1, 2, 3, 4]);
    rng.next_u32();
    let mut dest = [0u8; 150];
    rng.fill_bytes(&mut dest);
    for (k, chunk) in dest.chunks(4).enumerate() {
        let bytes = dummy_u32(k as u32 + 1).to_le_bytes();
        assert_eq!(chunk, &bytes[..chunk.len()]);
    }
    // 1 + 38 words taken: the third block holds 7 of them.
    assert_eq!(rng.index(), 7);
}

#[test]
fn blockrng_fill_bytes_empty() {
    let mut rng = BlockRng::<DummyRng>::from_seed([1, 2, 3, 4]);
    let mut dest = [0u8; 0];
    rng.fill_bytes(&mut dest);
    assert_eq!(rng.index(), 16);
    assert_eq!(rng.core.counter, 0x04030201);
}

#[test]
fn blockrng64_next_u32_reads_halves() {
    let mut rng = BlockRng64::<DummyRng64>::from_seed([1, 2, 3, 4, 5, 6, 7, 8]);
    let w = dummy_u64(0);
    assert_eq!(rng.next_u32(), w as u32);
    assert_eq!(rng.index(), 1);
    assert_eq!(rng.next_u32(), (w >> 32) as u32);
    assert_eq!(rng.index(), 1);
    assert_eq!(rng.next_u32(), dummy_u64(1) as u32);
    // next_u64 drops the pending high half
    assert_eq!(rng.next_u64(), dummy_u64(2));
    assert_eq!(rng.index(), 3);
}

#[test]
fn blockrng64_two_next_u32_make_next_u64() {
    let mut rng1 = BlockRng64::<DummyRng64>::from_seed([1, 2, 3, 4, 5, 6, 7, 8]);
    let mut rng2 = rng1.clone();
    for _ in 0..11 {
        let lo = rng1.next_u32() as u64;
        let hi = rng1.next_u32() as u64;
        assert_eq!((hi << 32) | lo, rng2.next_u64());
        assert_eq!(rng1.index(), rng2.index());
    }
}

#[test]
fn blockrng64_fill_bytes_drops_half_word() {
    let mut rng = BlockRng64::<DummyRng64>::from_seed([1, 2, 3, 4, 5, 6, 7, 8]);
    rng.next_u32();
    let mut dest = [0u8; 12];
    rng.fill_bytes(&mut dest);
    assert_eq!(dest[..8], dummy_u64(1).to_le_bytes());
    assert_eq!(dest[8..], dummy_u64(2).to_le_bytes()[..4]);
    assert_eq!(rng.index(), 3);
    assert_eq!(rng.next_u32(), dummy_u64(3) as u32);
}

#[test]
fn blockrng64_reset_and_generate() {
    let mut rng = BlockRng64::<DummyRng64>::from_seed([1, 2, 3, 4, 5, 6, 7, 8]);
    rng.next_u32();
    rng.reset();
    assert_eq!(rng.index(), 8);
    assert_eq!(rng.next_u64(), dummy_u64(8));
    rng.next_u32();
    rng.generate_and_set(2);
    assert_eq!(rng.next_u32(), dummy_u64(18) as u32);
}

#[derive(Debug, Clone)]
struct TwoWords {
    counter: u32,
}

impl Generator for TwoWords {
    type Output = [u32; 2];

    fn generate(&mut self, output: &mut Self::Output) {
        for item in output {
            *item = self.counter;
            self.counter = self.counter.wrapping_add(1);
        }
    }
}

#[test]
fn blockrng_next_u64_two_word_block() {
    let mut rng = BlockRng::new(TwoWords { counter: 10 });
    assert_eq!(rng.next_u64(), (11u64 << 32) | 10);
    assert_eq!(rng.index(), 2);
    assert_eq!(rng.next_u64(), (13u64 << 32) | 12);
    assert_eq!(rng.next_u32(), 14);
    assert_eq!(rng.next_u64(), (16u64 << 32) | 15);
    assert_eq!(rng.index(), 1);
}

#[test]
fn blockrng_fill_bytes_matches_next_u32_run() {
    let mut rng1 = BlockRng::<DummyRng>::from_seed([1, 2, 3, 4]);
    let mut rng2 = rng1.clone();
    rng1.next_u32();
    rng2.next_u32();
    let mut dest = [0u8; 80];
    rng1.fill_bytes(&mut dest);
    let mut expected = Vec::new();
    for _ in 0..20 {
        expected.extend_from_slice(&rng2.next_u32().to_le_bytes());
    }
    assert_eq!(dest[..], expected[..]);
    assert_eq!(rng1.index(), rng2.index());
    assert_eq!(rng1.next_u32(), rng2.next_u32());
}

#[test]
fn blockrng64_fill_bytes_matches_next_u64_run() {
    let mut rng1 = BlockRng64::<DummyRng64>::from_seed([1, 2, 3, 4, 5, 6, 7, 8]);
    let mut rng2 = rng1.clone();
    let mut dest = [0u8; 96];
    rng1.fill_bytes(&mut dest);
    let mut expected = Vec::new();
    for _ in 0..12 {
        expected.extend_from_slice(&rng2.next_u64().to_le_bytes());
    }
    assert_eq!(dest[..], expected[..]);
    assert_eq!(rng1.index(), rng2.index());
}

#[test]
fn blockrng_seed_from_u64_and_from_rng() {
    let mut a = BlockRng::<DummyRng>::seed_from_u64(0x04030201);
    let mut b = BlockRng::<DummyRng>::from_seed([1, 2, 3, 4]);
    assert_eq!(a.index(), 16);
    assert_eq!(a.next_u32(), b.next_u32());
    let mut source = BlockRng::<DummyRng>::from_seed([1, 2, 3, 4]);
    let mut c = BlockRng::<DummyRng>::from_rng(&mut source);
    assert_eq!(c.next_u32(), dummy_u32(0));
    let mut d = BlockRng64::<DummyRng64>::seed_from_u64(0x0807060504030201);
    assert_eq!(d.index(), 8);
    assert_eq!(d.next_u64(), dummy_u64(0));
    let mut source64 = BlockRng64::<DummyRng64>::from_seed([1, 2, 3, 4, 5, 6, 7, 8]);
    let mut e = BlockRng64::<DummyRng64>::from_rng(&mut source64);
    assert_eq!(e.next_u64(), dummy_u64(0));
}

#[test]
fn blockrng_fill_bytes_from_fresh_rng() {
    let mut rng = BlockRng::<DummyRng>::from_seed([1, 2, 3, 4]);
    let mut dest = [0u8; 6];
    rng.fill_bytes(&mut dest);
    assert_eq!(dest, [0x01, 0x02, 0x03, 0x04, 0xBE, 0x01]);
    assert_eq!(rng.index(), 2);
    assert_eq!(rng.next_u32(), 0xA6A1017B);
}

#[test]
fn next_word_via_fill_on_fresh_blockrng() {
    let mut rng = BlockRng::<DummyRng>::from_seed([1, 2, 3, 4]);
    let a: u32 = rand_core::utils::next_word_via_fill(&mut rng);
    assert_eq!(a, 0x04030201);
    let b: u64 = rand_core::utils::next_word_via_fill(&mut rng);
    assert_eq!(b, 0xA6A1017B_D55201BE);
    assert_eq!(rng.index(), 3);
}

#[test]
fn blockrng64_clone_keeps_pending_half() {
    let mut rng = BlockRng64::<DummyRng64>::from_seed([1, 2, 3, 4, 5, 6, 7, 8]);
    rng.next_u32();
    let mut copy = rng.clone();
    assert_eq!(copy.index(), rng.index());
    assert_eq!(copy.next_u32(), (dummy_u64(0) >> 32) as u32);
    assert_eq!(rng.next_u32(), (dummy_u64(0) >> 32) as u32);
}
