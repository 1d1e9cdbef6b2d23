//! Little-endian word encoding, segment-table framing and byte validation.
//!
//! Every function here states its result over the byte-level model below:
//! `le_bytes` is the four-byte little-endian image of a word, `encode_le`
//! the image of a sequence of words, and `decode_le` reads words back.

use vstd::prelude::*;

verus! {

/// Leaf 1 of the CPU identification, as read by `raw_cpuid`.
#[verifier::external_type_specification]
#[verifier::external_body]
pub struct ExFeatureInfo(raw_cpuid::FeatureInfo);

/// Leaf 7 of the CPU identification, as read by `raw_cpuid`.
#[verifier::external_type_specification]
#[verifier::external_body]
pub struct ExExtendedFeatures(raw_cpuid::ExtendedFeatures);

/// Reads leaf 1 of the running CPU's identification with
/// `raw_cpuid::CpuId::new().get_feature_info()`. Nothing is claimed of the
/// result: it depends on the machine.
#[verifier::external_body]
fn cpu_feature_info() -> Option<raw_cpuid::FeatureInfo> {
    raw_cpuid::CpuId::new().get_feature_info()
}

/// Reads leaf 7 of the running CPU's identification with
/// `raw_cpuid::CpuId::new().get_extended_feature_info()`. Nothing is claimed
/// of the result: it depends on the machine.
#[verifier::external_body]
fn cpu_extended_feature_info() -> Option<raw_cpuid::ExtendedFeatures> {
    raw_cpuid::CpuId::new().get_extended_feature_info()
}

/// `raw_cpuid::FeatureInfo::has_sse2`: the SSE2 bit of leaf 1. The value is
/// opaque to the library, so nothing is claimed of the result.
#[verifier::external_body]
fn leaf_has_sse2(info: &raw_cpuid::FeatureInfo) -> bool {
    info.has_sse2()
}

/// `raw_cpuid::ExtendedFeatures::has_avx2`: the AVX2 bit of leaf 7. The
/// value is opaque to the library, so nothing is claimed of the result.
#[verifier::external_body]
fn leaf_has_avx2(info: &raw_cpuid::ExtendedFeatures) -> bool {
    info.has_avx2()
}

/// Vector instruction sets that the running CPU offers.
#[derive(Debug, Clone, Copy)]
pub struct SimdFeatures {
    pub avx2: bool,
    pub sse2: bool,
    pub neon: bool,
}

/// Asks the running CPU which vector instruction sets it offers. The CPU
/// identification read here is that of an x86 processor, so `neon`, an ARM
/// extension, is never reported; a feature whose identification leaf the CPU
/// lacks is reported absent. The bits are those of the CPU identification
/// alone: whether the operating system enabled the AVX registers is not
/// read.
pub fn detect_simd_features() -> (features: SimdFeatures)
    ensures
        !features.neon,
{
    let sse2 = match cpu_feature_info() {
        Some(info) => leaf_has_sse2(&info),
        None => false,
    };
    let avx2 = match cpu_extended_feature_info() {
        Some(info) => leaf_has_avx2(&info),
        None => false,
    };
    SimdFeatures { avx2, sse2, neon: false }
}

/// The four bytes of `v`, least significant first.
pub open spec fn le_bytes(v: u32) -> Seq<u8> {
    seq![v as u8, (v >> 8u32) as u8, (v >> 16u32) as u8, (v >> 24u32) as u8]
}

/// The word whose little-endian bytes are `b0, b1, b2, b3`.
pub open spec fn le_word(b0: u8, b1: u8, b2: u8, b3: u8) -> u32 {
    (b0 as u32) | ((b1 as u32) << 8u32) | ((b2 as u32) << 16u32) | ((b3 as u32) << 24u32)
}

/// The little-endian image of a sequence of words: four bytes per word.
pub open spec fn encode_le(values: Seq<u32>) -> Seq<u8> {
    Seq::new((4 * values.len()) as nat, |j: int| le_bytes(values[j / 4])[j % 4])
}

/// The words held by the whole four-byte groups of `bytes`.
pub open spec fn decode_le(bytes: Seq<u8>) -> Seq<u32> {
    Seq::new(
        bytes.len() / 4,
        |i: int| le_word(bytes[4 * i], bytes[4 * i + 1], bytes[4 * i + 2], bytes[4 * i + 3]),
    )
}

/// How many whole words fit when `n_values` words are written into, or read
/// out of, a buffer of `n_bytes` bytes.
pub open spec fn words_that_fit(n_bytes: int, n_values: int) -> int {
    if n_values < n_bytes / 4 {
        n_values
    } else {
        n_bytes / 4
    }
}

/// Writes the little-endian bytes of as many words of `values` as fit, whole,
/// into `output`; the bytes after them keep their values.
pub fn write_u32_le_scalar(output: &mut [u8], values: &[u32])
    ensures
        final(output)@.len() == old(output)@.len(),
        final(output)@ == encode_le(
            values@.take(words_that_fit(old(output)@.len() as int, values@.len() as int)),
        ) + old(output)@.skip(
            4 * words_that_fit(old(output)@.len() as int, values@.len() as int),
        ),
{
    let n: usize = if values.len() < output.len() / 4 {
        values.len()
    } else {
        output.len() / 4
    };
    let ghost start = output@;
    let ghost image = encode_le(values@.take(n as int));
    let mut i: usize = 0;
    while i < n
        invariant
            n == words_that_fit(start.len() as int, values@.len() as int),
            i <= n,
            4 * n <= output.len(),
            n <= values@.len(),
            output@.len() == start.len(),
            image == encode_le(values@.take(n as int)),
            forall|j: int| 0 <= j < 4 * i ==> output@[j] == image[j],
            forall|j: int| 4 * i <= j < output@.len() ==> output@[j] == start[j],
        decreases n - i,
    {
        let v = values[i];
        output[4 * i] = #[verifier::truncate] (v as u8);
        output[4 * i + 1] = #[verifier::truncate] ((v >> 8u32) as u8);
        output[4 * i + 2] = #[verifier::truncate] ((v >> 16u32) as u8);
        output[4 * i + 3] = #[verifier::truncate] ((v >> 24u32) as u8);
        proof {
            assert forall|j: int| 4 * i <= j < 4 * i + 4 implies output@[j] == image[j] by {
                assert(j / 4 == i as int);
                assert(values@.take(n as int)[j / 4] == v);
            }
        }
        i = i + 1;
    }
    proof {
        let expected = image + start.skip(4 * n as int);
        assert(output@ =~= expected);
    }
}


/// Writes the same bytes as [`write_u32_le_scalar`]: the little-endian
/// layout does not depend on the instructions that produce it.
pub fn write_u32_le_simd(output: &mut [u8], values: &[u32])
    ensures
        final(output)@.len() == old(output)@.len(),
        final(output)@ == encode_le(
            values@.take(words_that_fit(old(output)@.len() as int, values@.len() as int)),
        ) + old(output)@.skip(
            4 * words_that_fit(old(output)@.len() as int, values@.len() as int),
        ),
{
    write_u32_le_scalar(output, values);
}

/// Reads as many whole little-endian words out of `input` as `output` has
/// room for; the later entries of `output` keep their values.
pub fn read_u32_le_scalar(input: &[u8], output: &mut [u32])
    ensures
        final(output)@.len() == old(output)@.len(),
        final(output)@ == decode_le(input@).take(
            words_that_fit(input@.len() as int, old(output)@.len() as int),
        ) + old(output)@.skip(words_that_fit(input@.len() as int, old(output)@.len() as int)),
{
    let n: usize = if output.len() < input.len() / 4 {
        output.len()
    } else {
        input.len() / 4
    };
    let ghost start = output@;
    let ghost words = decode_le(input@);
    let mut i: usize = 0;
    while i < n
        invariant
            n == words_that_fit(input@.len() as int, start.len() as int),
            i <= n,
            4 * n <= input.len(),
            n <= output.len(),
            output@.len() == start.len(),
            words == decode_le(input@),
            forall|j: int| 0 <= j < i ==> output@[j] == words[j],
            forall|j: int| i <= j < output@.len() ==> output@[j] == start[j],
        decreases n - i,
    {
        let offset = 4 * i;
        let b0 = input[offset] as u32;
        let b1 = input[offset + 1] as u32;
        let b2 = input[offset + 2] as u32;
        let b3 = input[offset + 3] as u32;
        output[i] = b0 | (b1 << 8u32) | (b2 << 16u32) | (b3 << 24u32);
        i = i + 1;
    }
    proof {
        assert(output@ =~= words.take(n as int) + start.skip(n as int));
    }
}

/// Reads the same words as [`read_u32_le_scalar`]: the little-endian
/// layout does not depend on the instructions that read it.
pub fn read_u32_le_simd(input: &[u8], output: &mut [u32])
    ensures
        final(output)@.len() == old(output)@.len(),
        final(output)@ == decode_le(input@).take(
            words_that_fit(input@.len() as int, old(output)@.len() as int),
        ) + old(output)@.skip(words_that_fit(input@.len() as int, old(output)@.len() as int)),
{
    read_u32_le_scalar(input, output);
}

/// No byte of `data` is zero.
pub open spec fn has_no_null_bytes(data: Seq<u8>) -> bool {
    forall|i: int| 0 <= i < data.len() ==> data[i] != 0
}

/// Every byte of `data` lies in `min..=max`.
pub open spec fn all_bytes_in_range(data: Seq<u8>, min: u8, max: u8) -> bool {
    forall|i: int| 0 <= i < data.len() ==> min <= #[trigger] data[i] && data[i] <= max
}

/// Returns whether no byte of `data` is zero.
pub fn validate_no_null_bytes_simd(data: &[u8]) -> (ok: bool)
    ensures
        ok == has_no_null_bytes(data@),
{
    let len = data.len();
    let mut i: usize = 0;
    while i < len
        invariant
            len == data@.len(),
            i <= len,
            forall|j: int| 0 <= j < i ==> data@[j] != 0,
        decreases len - i,
    {
        if data[i] == 0 {
            return false;
        }
        i = i + 1;
    }
    true
}

/// Returns whether every byte of `data` lies in `min..=max`.
pub fn validate_range_simd(data: &[u8], min: u8, max: u8) -> (ok: bool)
    ensures
        ok == all_bytes_in_range(data@, min, max),
{
    let len = data.len();
    let mut i: usize = 0;
    while i < len
        invariant
            len == data@.len(),
            i <= len,
            forall|j: int| 0 <= j < i ==> min <= #[trigger] data@[j] && data@[j] <= max,
        decreases len - i,
    {
        if data[i] < min || data[i] > max {
            assert(!(min <= data@[i as int] && data@[i as int] <= max));
            return false;
        }
        i = i + 1;
    }
    true
}

/// The sum of the bytes of `data`, as a mathematical integer.
pub open spec fn byte_sum(data: Seq<u8>) -> nat
    decreases data.len(),
{
    if data.len() == 0 {
        0
    } else {
        byte_sum(data.drop_last()) + data.last() as nat
    }
}

/// The checksum of `data`: the sum of its bytes, modulo 2^32.
pub open spec fn checksum_of(data: Seq<u8>) -> u32 {
    (byte_sum(data) % 0x1_0000_0000) as u32
}

/// Returns the sum of the bytes of `data`, wrapping modulo 2^32.
pub fn calculate_checksum_simd(data: &[u8]) -> (checksum: u32)
    ensures
        checksum == checksum_of(data@),
{
    let mut checksum: u32 = 0;
    let len = data.len();
    let mut i: usize = 0;
    while i < len
        invariant
            len == data@.len(),
            i <= len,
            checksum == checksum_of(data@.take(i as int)),
        decreases len - i,
    {
        let b = data[i];
        proof {
            let prefix = data@.take(i as int);
            let next = data@.take(i + 1);
            assert(next.drop_last() =~= prefix);
            assert(byte_sum(next) == byte_sum(prefix) + b);
            vstd::arithmetic::div_mod::lemma_add_mod_noop(
                byte_sum(prefix) as int,
                b as int,
                0x1_0000_0000int,
            );
            vstd::arithmetic::div_mod::lemma_small_mod(b as nat, 0x1_0000_0000nat);
            vstd::arithmetic::div_mod::lemma_mod_twice(
                (checksum as int + b as int),
                0x1_0000_0000int,
            );
        }
        checksum = checksum.wrapping_add(b as u32);
        i = i + 1;
    }
    proof {
        assert(data@.take(len as int) =~= data@);
    }
    checksum
}


/// `c - 1`, or `0` when `c` is `0`.
pub open spec fn saturating_decrement(c: u32) -> u32 {
    if c == 0 {
        0
    } else {
        (c - 1) as u32
    }
}

/// The words of a segment table: the first segment count minus one
/// (saturating at zero), when there is a count, then every segment size.
pub open spec fn segment_table_words(counts: Seq<u32>, sizes: Seq<u32>) -> Seq<u32> {
    if counts.len() > 0 {
        seq![saturating_decrement(counts[0])] + sizes
    } else {
        sizes
    }
}

/// A segment table: its words, each as four little-endian bytes.
pub open spec fn segment_table(counts: Seq<u32>, sizes: Seq<u32>) -> Seq<u8> {
    encode_le(segment_table_words(counts, sizes))
}

/// How many bytes of the segment table for `counts` and `sizes` are
/// written into `out_len` bytes: the count word and the first size word are
/// written whole or not at all; once both are in, the remaining sizes follow
/// as far as the buffer goes, the last one possibly cut.
pub open spec fn segment_table_written(out_len: nat, counts: Seq<u32>, sizes: Seq<u32>) -> nat {
    let head: nat = if counts.len() > 0 { 4 } else { 0 };
    let first: nat = if sizes.len() > 0 { 4 } else { 0 };
    let table_len = segment_table(counts, sizes).len();
    if out_len < head {
        0
    } else if out_len < head + first {
        head
    } else if table_len <= out_len {
        table_len
    } else {
        out_len
    }
}

/// Byte `k` (least significant first) of `v`.
fn le_byte_at(v: u32, k: usize) -> (b: u8)
    requires
        k < 4,
    ensures
        b == le_bytes(v)[k as int],
{
    if k == 0 {
        #[verifier::truncate] (v as u8)
    } else if k == 1 {
        #[verifier::truncate] ((v >> 8u32) as u8)
    } else if k == 2 {
        #[verifier::truncate] ((v >> 16u32) as u8)
    } else {
        #[verifier::truncate] ((v >> 24u32) as u8)
    }
}

/// Writes a segment table into `output` as far as it has room, and returns
/// how many bytes it wrote: the first segment count minus one (saturating
/// at zero), then every segment size, each as a little-endian word. The
/// count and the first size are written whole or not at all; the remaining
/// sizes are written as far as the buffer goes. What is written is always
/// the start of the table; the bytes after it keep their values.
pub fn write_segment_table_simd(output: &mut [u8], segment_counts: &[u32], segment_sizes: &[u32]) -> (written: usize)
    ensures
        written == segment_table_written(old(output)@.len(), segment_counts@, segment_sizes@),
        final(output)@ == segment_table(segment_counts@, segment_sizes@).take(written as int)
            + old(output)@.skip(written as int),
{
    let ghost start = output@;
    let ghost words = segment_table_words(segment_counts@, segment_sizes@);
    let ghost table = segment_table(segment_counts@, segment_sizes@);
    let len = output.len();
    let has_count: bool = !segment_counts.is_empty();
    let head: usize = if has_count {
        1
    } else {
        0
    };
    let count_word: u32 = if has_count {
        segment_counts[0].saturating_sub(1)
    } else {
        0
    };
    let first: usize = if segment_sizes.is_empty() {
        0
    } else {
        1
    };
    let fit_words = len / 4;
    let written: usize = if fit_words < head {
        0
    } else if fit_words < head + first {
        4 * head
    } else if segment_sizes.len() <= fit_words - head {
        4 * (segment_sizes.len() + head)
    } else {
        len
    };
    assert(words.len() == segment_sizes@.len() + head);
    assert(table.len() == 4 * words.len());
    assert(written == segment_table_written(start.len(), segment_counts@, segment_sizes@));
    let mut j: usize = 0;
    while j < written
        invariant
            j <= written,
            written <= len,
            written <= table.len(),
            len == output@.len(),
            start.len() == len,
            head == (if segment_counts@.len() > 0 { 1int } else { 0int }),
            has_count == (segment_counts@.len() > 0),
            has_count ==> count_word == saturating_decrement(segment_counts@[0]),
            words == segment_table_words(segment_counts@, segment_sizes@),
            table == encode_le(words),
            words.len() == segment_sizes@.len() + head,
            forall|t: int| 0 <= t < j ==> output@[t] == table[t],
            forall|t: int| j <= t < len ==> output@[t] == start[t],
        decreases written - j,
    {
        let w = j / 4;
        let value: u32 = if w < head {
            count_word
        } else {
            segment_sizes[w - head]
        };
        assert(value == words[w as int]);
        let b = le_byte_at(value, j % 4);
        assert(table[j as int] == le_bytes(words[j as int / 4])[j as int % 4]);
        output[j] = b;
        j = j + 1;
    }
    assert(output@ =~= table.take(written as int) + start.skip(written as int));
    written
}

/// The bytes of all `segments`, one after the other.
pub open spec fn concat_segments(segments: Seq<&[u8]>) -> Seq<u8> {
    segments.map_values(|s: &[u8]| s@).flatten()
}

/// Copies the segments one after the other into `output`, as far as it has
/// room, and returns how many bytes it copied. The bytes after the copied
/// ones keep their values.
pub fn write_segments_simd(output: &mut [u8], segments: &[&[u8]]) -> (written: usize)
    ensures
        written == (if concat_segments(segments@).len() <= old(output)@.len() {
            concat_segments(segments@).len()
        } else {
            old(output)@.len()
        }),
        final(output)@ == concat_segments(segments@).take(written as int) + old(output)@.skip(
            written as int,
        ),
{
    let ghost start = output@;
    let len = output.len();
    let mut pos: usize = 0;
    let mut k: usize = 0;
    while k < segments.len()
        invariant
            k <= segments@.len(),
            len == output@.len(),
            start.len() == len,
            pos == (if concat_segments(segments@.take(k as int)).len() <= len {
                concat_segments(segments@.take(k as int)).len()
            } else {
                len as nat
            }),
            output@ == concat_segments(segments@.take(k as int)).take(pos as int) + start.skip(
                pos as int,
            ),
        decreases segments@.len() - k,
    {
        let segment: &[u8] = segments[k];
        let ghost before = concat_segments(segments@.take(k as int));
        proof {
            let mapped = segments@.take(k as int).map_values(|s: &[u8]| s@);
            assert(segments@.take(k + 1).map_values(|s: &[u8]| s@) =~= mapped.push(segment@));
            mapped.lemma_flatten_push(segment@);
        }
        let ghost after = concat_segments(segments@.take(k + 1));
        assert(after == before + segment@);
        let remaining = len - pos;
        let copy_len: usize = if segment.len() < remaining {
            segment.len()
        } else {
            remaining
        };
        let ghost base = output@;
        let mut j: usize = 0;
        while j < copy_len
            invariant
                j <= copy_len,
                copy_len <= segment@.len(),
                pos + copy_len <= len,
                len == output@.len(),
                base.len() == len,
                forall|t: int| 0 <= t < pos ==> output@[t] == base[t],
                forall|t: int| 0 <= t < j ==> output@[pos + t] == segment@[t],
                forall|t: int| pos + j <= t < len ==> output@[t] == base[t],
            decreases copy_len - j,
        {
            output[pos + j] = segment[j];
            j = j + 1;
        }
        proof {
            let target = after.take(pos + copy_len) + start.skip(pos + copy_len);
            if pos < len {
                assert(pos == before.len());
                assert forall|t: int| 0 <= t < output@.len() implies output@[t] == target[t] by {
                    if t < pos {
                        assert(output@[t] == base[t]);
                        assert(base[t] == before.take(pos as int)[t]);
                    } else if t < pos + copy_len {
                        assert(output@[t] == segment@[t - pos]);
                        assert(after[t] == segment@[t - before.len()]);
                    } else {
                        assert(output@[t] == base[t]);
                        assert(base[t] == start[t]);
                    }
                }
            } else {
                assert(copy_len == 0);
                assert(pos == len);
                assert(before.len() >= len);
                assert(output@ == base);
                assert forall|t: int| 0 <= t < output@.len() implies output@[t] == target[t] by {
                    assert(t < pos);
                    assert(base == before.take(pos as int) + start.skip(pos as int));
                    assert(base[t] == before.take(pos as int)[t]);
                    assert(after[t] == before[t]);
                    assert(target[t] == after.take(pos as int)[t]);
                }
            }
            assert(output@ =~= target);
        }
        pos = pos + copy_len;
        k = k + 1;
    }
    proof {
        assert(segments@.take(segments@.len() as int) =~= segments@);
    }
    pos
}


/// A word's four little-endian bytes read back as that word.
pub proof fn lemma_le_word_of_bytes(v: u32)
    ensures
        le_word(le_bytes(v)[0], le_bytes(v)[1], le_bytes(v)[2], le_bytes(v)[3]) == v,
{
    let b0 = v as u8;
    let b1 = (v >> 8u32) as u8;
    let b2 = (v >> 16u32) as u8;
    let b3 = (v >> 24u32) as u8;
    assert(((b0 as u32) | ((b1 as u32) << 8u32) | ((b2 as u32) << 16u32) | ((b3 as u32) << 24u32))
        == v) by (bit_vector)
        requires
            b0 == v as u8,
            b1 == (v >> 8u32) as u8,
            b2 == (v >> 16u32) as u8,
            b3 == (v >> 24u32) as u8,
    ;
}

/// Four bytes read as a word and written back give the same four bytes.
pub proof fn lemma_le_bytes_of_word(b0: u8, b1: u8, b2: u8, b3: u8)
    ensures
        le_bytes(le_word(b0, b1, b2, b3)) == seq![b0, b1, b2, b3],
{
    let w = le_word(b0, b1, b2, b3);
    assert(w as u8 == b0 && (w >> 8u32) as u8 == b1 && (w >> 16u32) as u8 == b2 && (w >> 24u32)
        as u8 == b3) by (bit_vector)
        requires
            w == (b0 as u32) | ((b1 as u32) << 8u32) | ((b2 as u32) << 16u32) | ((b3 as u32)
                << 24u32),
    ;
    assert(le_bytes(w) =~= seq![b0, b1, b2, b3]);
}

/// Decoding undoes encoding: the words written as little-endian bytes are
/// the words read back from them.
pub proof fn law_decode_encode(values: Seq<u32>)
    ensures
        decode_le(encode_le(values)) == values,
{
    let bytes = encode_le(values);
    assert forall|i: int| 0 <= i < values.len() implies decode_le(bytes)[i] == values[i] by {
        assert((4 * i) / 4 == i && (4 * i + 1) / 4 == i && (4 * i + 2) / 4 == i && (4 * i + 3) / 4
            == i);
        assert((4 * i) % 4 == 0 && (4 * i + 1) % 4 == 1 && (4 * i + 2) % 4 == 2 && (4 * i + 3) % 4
            == 3);
        lemma_le_word_of_bytes(values[i]);
    }
    assert(decode_le(bytes) =~= values);
}

/// Encoding undoes decoding on whole words: a buffer whose length is a
/// multiple of four is the encoding of the words read out of it.
pub proof fn law_encode_decode(bytes: Seq<u8>)
    requires
        bytes.len() % 4 == 0,
    ensures
        encode_le(decode_le(bytes)) == bytes,
{
    let words = decode_le(bytes);
    assert forall|j: int| 0 <= j < bytes.len() implies encode_le(words)[j] == bytes[j] by {
        let i = j / 4;
        lemma_le_bytes_of_word(bytes[4 * i], bytes[4 * i + 1], bytes[4 * i + 2], bytes[4 * i + 3]);
    }
    assert(encode_le(words) =~= bytes);
}

/// What [`write_u32_le_simd`] leaves in `buffer` when it writes `values`.
pub open spec fn after_write(buffer: Seq<u8>, values: Seq<u32>) -> Seq<u8> {
    let n = words_that_fit(buffer.len() as int, values.len() as int);
    encode_le(values.take(n)) + buffer.skip(4 * n)
}

/// What [`read_u32_le_simd`] leaves in `dest` when it reads `input`.
pub open spec fn after_read(input: Seq<u8>, dest: Seq<u32>) -> Seq<u32> {
    let n = words_that_fit(input.len() as int, dest.len() as int);
    decode_le(input).take(n) + dest.skip(n)
}

/// Reading back what was written: when the buffer has room for every word,
/// reading it into a destination of the same number of words gives back
/// exactly the words that were written, whatever the buffer and the
/// destination held before.
pub proof fn law_read_after_write(values: Seq<u32>, buffer: Seq<u8>, dest: Seq<u32>)
    requires
        4 * values.len() <= buffer.len(),
        dest.len() == values.len(),
    ensures
        after_read(after_write(buffer, values), dest) == values,
{
    let n = values.len() as int;
    assert(words_that_fit(buffer.len() as int, n) == n);
    assert(values.take(n) =~= values);
    let enc = encode_le(values);
    let written = enc + buffer.skip(4 * n);
    assert(after_write(buffer, values) == written);
    lemma_decode_prefix(enc, buffer.skip(4 * n));
    law_decode_encode(values);
    assert(words_that_fit(written.len() as int, n) == n);
    assert(dest.skip(n) =~= Seq::<u32>::empty());
    assert(after_read(written, dest) =~= values);
}

/// The words read from a whole-word prefix do not depend on what follows it.
pub proof fn lemma_decode_prefix(prefix: Seq<u8>, rest: Seq<u8>)
    requires
        prefix.len() % 4 == 0,
    ensures
        decode_le(prefix + rest).take((prefix.len() / 4) as int) == decode_le(prefix),
{
    let whole = prefix + rest;
    let n = (prefix.len() / 4) as int;
    assert forall|i: int| 0 <= i < n implies decode_le(whole)[i] == decode_le(prefix)[i] by {
        assert(4 * i + 3 < prefix.len());
        assert(whole[4 * i] == prefix[4 * i]);
        assert(whole[4 * i + 1] == prefix[4 * i + 1]);
        assert(whole[4 * i + 2] == prefix[4 * i + 2]);
        assert(whole[4 * i + 3] == prefix[4 * i + 3]);
    }
    assert(decode_le(whole).take(n) =~= decode_le(prefix));
}

/// A buffer has no null byte exactly when all its bytes lie in `1..=255`.
pub proof fn law_no_null_is_range_one_to_max(data: Seq<u8>)
    ensures
        has_no_null_bytes(data) == all_bytes_in_range(data, 1, 255),
{
    if has_no_null_bytes(data) {
        assert forall|i: int| 0 <= i < data.len() implies 1 <= #[trigger] data[i] && data[i]
            <= 255 by {}
    }
    if all_bytes_in_range(data, 1, 255) {
        assert forall|i: int| 0 <= i < data.len() implies data[i] != 0 by {
            assert(1 <= data[i]);
        }
    }
}

/// The byte sum of two buffers one after the other is the sum of theirs.
pub proof fn lemma_byte_sum_concat(a: Seq<u8>, b: Seq<u8>)
    ensures
        byte_sum(a + b) == byte_sum(a) + byte_sum(b),
    decreases b.len(),
{
    if b.len() == 0 {
        assert(a + b =~= a);
    } else {
        lemma_byte_sum_concat(a, b.drop_last());
        assert((a + b).drop_last() =~= a + b.drop_last());
    }
}

/// The checksum of two buffers one after the other is the wrapping sum of
/// their checksums, so a buffer can be checksummed piece by piece.
pub proof fn law_checksum_concat(a: Seq<u8>, b: Seq<u8>)
    ensures
        checksum_of(a + b) == (checksum_of(a) + checksum_of(b)) % 0x1_0000_0000,
{
    lemma_byte_sum_concat(a, b);
    vstd::arithmetic::div_mod::lemma_add_mod_noop(
        byte_sum(a) as int,
        byte_sum(b) as int,
        0x1_0000_0000int,
    );
}

/// The byte sum does not depend on the order of the bytes.
pub proof fn lemma_byte_sum_permutation(a: Seq<u8>, b: Seq<u8>)
    requires
        a.to_multiset() == b.to_multiset(),
    ensures
        byte_sum(a) == byte_sum(b),
    decreases a.len(),
{
    broadcast use vstd::seq_lib::group_to_multiset_ensures;

    assert(a.to_multiset().len() == a.len());
    assert(b.to_multiset().len() == b.len());
    if a.len() > 0 {
        // Take the last byte of `a` out of both sequences and recurse.
        let x = a.last();
        let rest_a = a.drop_last();
        assert(rest_a.push(x) =~= a);
        assert(b.to_multiset().count(x) > 0);
        let k = choose|k: int| 0 <= k < b.len() && b[k] == x;
        let rest_b = b.remove(k);
        assert(rest_b.to_multiset() =~= rest_a.to_multiset());
        lemma_byte_sum_permutation(rest_a, rest_b);
        // `b` is `rest_b` with `x` put back at `k`.
        let before = b.take(k);
        let after = b.skip(k + 1);
        assert(rest_b =~= before + after);
        assert(b =~= before + seq![x] + after);
        lemma_byte_sum_concat(before, after);
        lemma_byte_sum_concat(before + seq![x], after);
        lemma_byte_sum_concat(before, seq![x]);
        assert(seq![x].drop_last() =~= Seq::<u8>::empty());
        assert(byte_sum(seq![x]) == byte_sum(Seq::<u8>::empty()) + x as nat);
        assert(byte_sum(a) == byte_sum(rest_a) + x as nat);
    }
}

/// The checksum does not depend on the order of the bytes: a permutation of
/// a buffer has the same checksum.
pub proof fn law_checksum_permutation(a: Seq<u8>, b: Seq<u8>)
    requires
        a.to_multiset() == b.to_multiset(),
    ensures
        checksum_of(a) == checksum_of(b),
{
    lemma_byte_sum_permutation(a, b);
}

/// A segment table reads back as its words: the segment count minus one
/// followed by every segment size.
pub proof fn law_segment_table_reads_back(counts: Seq<u32>, sizes: Seq<u32>)
    ensures
        decode_le(segment_table(counts, sizes)) == segment_table_words(counts, sizes),
        counts.len() > 0 ==> decode_le(segment_table(counts, sizes)) == seq![
            saturating_decrement(counts[0]),
        ] + sizes,
{
    law_decode_encode(segment_table_words(counts, sizes));
}

/// A buffer has no null byte exactly when it does not contain zero: the
/// empty buffer has none, one byte is fine exactly when it is not zero, and
/// two buffers one after the other are fine exactly when both are.
pub proof fn law_no_null_bytes_characterized(data: Seq<u8>, a: Seq<u8>, b: Seq<u8>, x: u8)
    ensures
        has_no_null_bytes(data) <==> !data.contains(0u8),
        has_no_null_bytes(Seq::<u8>::empty()),
        has_no_null_bytes(seq![x]) <==> x != 0,
        has_no_null_bytes(a + b) <==> has_no_null_bytes(a) && has_no_null_bytes(b),
{
    if !has_no_null_bytes(data) {
        let i = choose|i: int| 0 <= i < data.len() && data[i] == 0;
        assert(data.contains(0u8));
    }
    if has_no_null_bytes(a) && has_no_null_bytes(b) {
        assert forall|i: int| 0 <= i < (a + b).len() implies (a + b)[i] != 0 by {
            if i >= a.len() {
                assert((a + b)[i] == b[i - a.len()]);
            }
        }
    }
    if has_no_null_bytes(a + b) {
        assert forall|i: int| 0 <= i < b.len() implies b[i] != 0 by {
            assert((a + b)[a.len() + i] == b[i]);
        }
        assert forall|i: int| 0 <= i < a.len() implies a[i] != 0 by {
            assert((a + b)[i] == a[i]);
        }
    }
    if !has_no_null_bytes(seq![x]) {
        assert(seq![x][0] == x);
    }
    if x != 0 {
        assert forall|i: int| 0 <= i < seq![x].len() implies seq![x][i] != 0 by {
            assert(i == 0);
        }
    }
    if data.contains(0u8) {
        let i = choose|i: int| 0 <= i < data.len() && data[i] == 0u8;
        assert(data[i] == 0);
    }
}

/// A buffer lies in `min..=max` exactly when every byte it contains does:
/// the empty buffer does, one byte does exactly when it lies between the
/// bounds, and two buffers one after the other do exactly when both do.
pub proof fn law_range_characterized(
    data: Seq<u8>,
    a: Seq<u8>,
    b: Seq<u8>,
    x: u8,
    min: u8,
    max: u8,
)
    ensures
        all_bytes_in_range(data, min, max) <==> (forall|y: u8|
            data.contains(y) ==> min <= y && y <= max),
        all_bytes_in_range(Seq::<u8>::empty(), min, max),
        all_bytes_in_range(seq![x], min, max) <==> min <= x && x <= max,
        all_bytes_in_range(a + b, min, max) <==> all_bytes_in_range(a, min, max)
            && all_bytes_in_range(b, min, max),
{
    if all_bytes_in_range(data, min, max) {
        assert forall|y: u8| data.contains(y) implies min <= y && y <= max by {
            let i = choose|i: int| 0 <= i < data.len() && data[i] == y;
            assert(min <= data[i]);
        }
    }
    if forall|y: u8| data.contains(y) ==> min <= y && y <= max {
        assert forall|i: int| 0 <= i < data.len() implies min <= #[trigger] data[i] && data[i]
            <= max by {
            assert(data.contains(data[i]));
        }
    }
    if all_bytes_in_range(a, min, max) && all_bytes_in_range(b, min, max) {
        assert forall|i: int| 0 <= i < (a + b).len() implies min <= #[trigger] (a + b)[i] && (a
            + b)[i] <= max by {
            if i >= a.len() {
                assert((a + b)[i] == b[i - a.len()]);
                assert(min <= b[i - a.len()]);
            } else {
                assert(min <= a[i]);
            }
        }
    }
    if all_bytes_in_range(a + b, min, max) {
        assert forall|i: int| 0 <= i < b.len() implies min <= #[trigger] b[i] && b[i] <= max by {
            assert((a + b)[a.len() + i] == b[i]);
            assert(min <= (a + b)[a.len() + i]);
        }
        assert forall|i: int| 0 <= i < a.len() implies min <= #[trigger] a[i] && a[i] <= max by {
            assert((a + b)[i] == a[i]);
            assert(min <= (a + b)[i]);
        }
    }
    if all_bytes_in_range(seq![x], min, max) {
        assert(min <= seq![x][0]);
    }
}

/// The total number of bytes in `segments`.
pub open spec fn total_segment_len(segments: Seq<&[u8]>) -> nat
    decreases segments.len(),
{
    if segments.len() == 0 {
        0
    } else {
        total_segment_len(segments.drop_last()) + segments.last()@.len()
    }
}

/// The concatenation of segments holds every byte of every segment, in
/// order: no segment gives nothing, and one more segment puts all its bytes
/// after those of the others, so the concatenation is as long as all the
/// segments together.
pub proof fn law_concat_segments_characterized(segments: Seq<&[u8]>, s: &[u8])
    ensures
        concat_segments(Seq::<&[u8]>::empty()) == Seq::<u8>::empty(),
        concat_segments(segments.push(s)) == concat_segments(segments) + s@,
        concat_segments(segments).len() == total_segment_len(segments),
    decreases segments.len(),
{
    let f = |t: &[u8]| t@;
    assert(Seq::<&[u8]>::empty().map_values(f) =~= Seq::<Seq<u8>>::empty());
    assert(segments.push(s).map_values(f) =~= segments.map_values(f).push(s@));
    segments.map_values(f).lemma_flatten_push(s@);
    if segments.len() > 0 {
        let rest = segments.drop_last();
        law_concat_segments_characterized(rest, segments.last());
        assert(rest.push(segments.last()) =~= segments);
    }
}

/// [`write_segments_simd`] writes as many bytes as the output and the
/// segments together allow: the smaller of the output's length and the
/// segments' total length.
pub proof fn law_segments_written_length(segments: Seq<&[u8]>, out_len: nat)
    ensures
        (if concat_segments(segments).len() <= out_len {
            concat_segments(segments).len()
        } else {
            out_len
        }) == (if total_segment_len(segments) <= out_len {
            total_segment_len(segments)
        } else {
            out_len
        }),
{
    law_concat_segments_characterized(segments, segments.last());
}

/// The checksum of nothing is zero and that of one byte is the byte; with
/// [`law_checksum_concat`] this fixes the checksum of every buffer.
pub proof fn law_checksum_characterized(x: u8)
    ensures
        checksum_of(Seq::<u8>::empty()) == 0,
        checksum_of(seq![x]) == x as u32,
{
    assert(seq![x].drop_last() =~= Seq::<u8>::empty());
    assert(byte_sum(Seq::<u8>::empty()) == 0);
    assert(seq![x].last() == x);
    assert(byte_sum(seq![x]) == byte_sum(seq![x].drop_last()) + x as nat);
    assert(byte_sum(seq![x]) == x as nat);
}

/// The little-endian bytes of a word are its base-256 digits, least
/// significant first.
pub proof fn law_le_bytes_are_digits(v: u32)
    ensures
        le_bytes(v) == seq![
            (v % 256) as u8,
            ((v / 256) % 256) as u8,
            ((v / 65536) % 256) as u8,
            (v / 16777216) as u8,
        ],
{
    assert(v as u8 == (v % 256) as u8 && (v >> 8u32) as u8 == ((v / 256) % 256) as u8 && (v
        >> 16u32) as u8 == ((v / 65536) % 256) as u8 && (v >> 24u32) as u8 == (v / 16777216)
        as u8) by (bit_vector);
    assert(le_bytes(v) =~= seq![
        (v % 256) as u8,
        ((v / 256) % 256) as u8,
        ((v / 65536) % 256) as u8,
        (v / 16777216) as u8,
    ]);
}

/// Encoding writes the words one after the other: no word gives no byte,
/// and one more word appends its four little-endian bytes.
pub proof fn law_encode_appends(values: Seq<u32>, v: u32)
    ensures
        encode_le(Seq::<u32>::empty()) == Seq::<u8>::empty(),
        encode_le(values.push(v)) == encode_le(values) + le_bytes(v),
{
    assert(encode_le(Seq::<u32>::empty()) =~= Seq::<u8>::empty());
    let n = values.len() as int;
    assert forall|j: int| 0 <= j < 4 * n + 4 implies encode_le(values.push(v))[j] == (encode_le(
        values,
    ) + le_bytes(v))[j] by {
        if j < 4 * n {
            assert(j / 4 < n);
        } else {
            assert(j / 4 == n);
        }
    }
    assert(encode_le(values.push(v)) =~= encode_le(values) + le_bytes(v));
}

/// The number of whole words that fit is the largest that fits: at most the
/// number of values, at most a quarter of the bytes, and one more would
/// exceed one of the two.
pub proof fn law_words_that_fit_is_largest(n_bytes: nat, n_values: nat)
    ensures
        0 <= words_that_fit(n_bytes as int, n_values as int) <= n_values,
        4 * words_that_fit(n_bytes as int, n_values as int) <= n_bytes,
        words_that_fit(n_bytes as int, n_values as int) == n_values || 4 * (words_that_fit(
            n_bytes as int,
            n_values as int,
        ) + 1) > n_bytes,
{
}

} // verus!
