# rand_core (block generators and little-endian helpers)

A Verus library for block-buffered random number generation.

- `src/block.rs`: the `Generator` trait, and `BlockRng` / `BlockRng64`, which
  hand out the words of generated `u32` / `u64` blocks in order and generate a
  new block when the current one is used up. Each `RngCore` method is specified
  by an outcome predicate over the buffer, the index and the fresh blocks, each
  fresh block tied to one call of `Generator::generate` by `Generator::generated`.
- `src/run.rs`: a block buffer with its generator: one-word reads, fills,
  and the laws that every fill is a run of reads and every run of reads a fill,
  and that runs agree when the generator depends on its state alone.
- `src/stream.rs`: the model of the order in which words are handed out
  (`take_words`) and its laws.
- `src/le.rs`: the little-endian layout of word sequences and `fill_via_chunks`.
- `src/word.rs`: the `Word` trait for `u32` and `u64`, with its byte encoding.
- `src/utils.rs`: helpers for implementing `RngCore` (`next_u64_via_u32`,
  `fill_bytes_via_next_word`, `next_word_via_fill`) and `read_words`.
- `src/lib.rs`: the `RngCore`, `CryptoRng` and `SeedableRng` traits.
