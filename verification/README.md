# capnp (segment pooling and word encoding)

A Verus library with two parts:

- `src/simd.rs`: little-endian encoding and decoding of 32-bit words,
  segment-table and segment framing, byte validation and checksums, each
  stated over the byte model `le_bytes` / `encode_le` / `decode_le`, with the
  round-trip and checksum properties proved as proof functions.
- `src/memory/`: the segment pools. `model.rs` holds the mathematical model
  of each pool and of each operation, `pool.rs` the executable pools whose
  contracts are stated over that model, and `laws.rs` the properties that
  span operations (a released segment is what the next fitting request gets
  back, a grant is never smaller than the request, every request is counted
  once, cleanup keeps exactly the young segments and hands the old ones back,
  a pool of size classes never holds more than the configured maximum, and
  pools in the same state answer every sequence of operations alike).

The pools decide; they do not touch memory. `app/` holds the allocator that
carries out their decisions on the heap, reads the clock, and computes the
floating-point ratios of the counters.

CPU feature detection goes through the `raw-cpuid` crate: std's
`is_x86_feature_detected!` is a macro that expands to code without
specifications, which verified code cannot call, while `raw-cpuid` offers the
same reads as plain functions that the library calls through trusted
wrappers. `raw-cpuid` reports the CPU
identification bits only; unlike std's macro it does not check that the
operating system enabled the AVX registers, so on a system that disabled them
`avx2` can be reported although the registers are not usable.
