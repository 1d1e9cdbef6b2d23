use capnp::simd::{
    calculate_checksum_simd, detect_simd_features, read_u32_le_scalar, read_u32_le_simd,
    validate_no_null_bytes_simd, validate_range_simd, write_segment_table_simd,
    write_segments_simd, write_u32_le_scalar, write_u32_le_simd,
};

#[test]
fn test_simd_detection() {
    let features = detect_simd_features();
    println!("SIMD Features: {:?}", features);
    // Just verify it doesn't panic
}

#[test]
fn test_write_u32_le_scalar() {
    let mut output = [0u8; 16];
    let values = [0x01020304, 0x05060708];

    write_u32_le_scalar(&mut output, &values);

    assert_eq!(output[0], 0x04);
    assert_eq!(output[1], 0x03);
    assert_eq!(output[2], 0x02);
    assert_eq!(output[3], 0x01);
    assert_eq!(output[4], 0x08);
    assert_eq!(output[5], 0x07);
    assert_eq!(output[6], 0x06);
    assert_eq!(output[7], 0x05);
}

#[test]
fn test_segment_table_writing() {
    let mut output = [0u8; 32];
    let segment_counts = [3];
    let segment_sizes = [100, 200, 300];

    let written = write_segment_table_simd(&mut output, &segment_counts, &segment_sizes);

    assert!(written > 0);
    assert_eq!(output[0], 2); // segment_count - 1
    assert_eq!(output[4], 100); // first segment size
}

#[test]
fn test_checksum_calculation() {
    let data = [0, 1, 2, 3, 4, 5, 6, 7, 8, 9, 10, 11, 12, 13, 14, 15];
    let checksum = calculate_checksum_simd(&data);

    // Simple checksum: sum of all bytes
    let expected: u32 = data.iter().map(|&x| x as u32).sum();
    assert_eq!(checksum, expected);
}

#[test]
fn test_read_u32_le_simd_function() {
    let input = [
        0x01, 0x00, 0x00, 0x00, // 1
        0x02, 0x00, 0x00, 0x00, // 2
        0x03, 0x00, 0x00, 0x00, // 3
        0x04, 0x00, 0x00, 0x00, // 4
        0x05, 0x00, 0x00, 0x00, // 5
        0x06, 0x00, 0x00, 0x00, // 6
        0x07, 0x00, 0x00, 0x00, // 7
        0x08, 0x00, 0x00, 0x00, // 8
    ];

    let mut output = [0u32; 8];

    read_u32_le_simd(&input, &mut output);

    assert_eq!(output[0], 1);
    assert_eq!(output[1], 2);
    assert_eq!(output[2], 3);
    assert_eq!(output[3], 4);
    assert_eq!(output[4], 5);
    assert_eq!(output[5], 6);
    assert_eq!(output[6], 7);
    assert_eq!(output[7], 8);

    println!("SIMD read_u32_le_simd function works correctly");
}

#[test]
fn test_data_validation_simd() {
    // Test data without null bytes
    let valid_data = b"Hello, World! This is a test string without null bytes.";
    assert!(validate_no_null_bytes_simd(valid_data));

    // Test data with null bytes
    let invalid_data = b"Hello\x00World";
    assert!(!validate_no_null_bytes_simd(invalid_data));

    // Test empty data
    let empty_data = b"";
    assert!(validate_no_null_bytes_simd(empty_data));

    // Test range validation - valid ASCII range
    let ascii_data = b"Hello123";
    assert!(validate_range_simd(ascii_data, 32, 126));

    // Test range validation - contains out-of-range bytes
    let mixed_data = b"Hello\x01\xFF";
    assert!(!validate_range_simd(mixed_data, 32, 126));

    // Test range validation - all valid
    let valid_range_data = [65u8; 32]; // All 'A' characters
    assert!(validate_range_simd(&valid_range_data, 65, 65));

    println!("SIMD data validation functions work correctly");
}

#[test]
fn test_simd_functions() {
    let features = detect_simd_features();
    println!("SIMD Features: {:?}", features);

    let values = [0x01020304u32, 0x05060708, 0x090A0B0C, 0x0D0E0F10];
    let mut output = [0u8; 16];

    write_u32_le_simd(&mut output, &values);

    assert_eq!(output[0], 0x04); // 0x01020304 little-endian
    assert_eq!(output[1], 0x03);
    assert_eq!(output[2], 0x02);
    assert_eq!(output[3], 0x01);

    assert_eq!(output[4], 0x08); // 0x05060708 little-endian
    assert_eq!(output[5], 0x07);
    assert_eq!(output[6], 0x06);
    assert_eq!(output[7], 0x05);

    println!("SIMD functions working correctly!");
}

#[test]
fn detection_never_reports_neon_on_x86() {
    assert!(!detect_simd_features().neon);
}

#[test]
fn write_stops_at_last_whole_word_and_keeps_the_rest() {
    let mut output = [0xAAu8; 7];
    write_u32_le_simd(&mut output, &[0x11223344, 0x55667788]);
    assert_eq!(output, [0x44, 0x33, 0x22, 0x11, 0xAA, 0xAA, 0xAA]);
}

#[test]
fn write_with_fewer_values_keeps_tail() {
    let mut output = [0xEEu8; 12];
    write_u32_le_scalar(&mut output, &[0xDEADBEEF]);
    assert_eq!(output, [0xEF, 0xBE, 0xAD, 0xDE, 0xEE, 0xEE, 0xEE, 0xEE, 0xEE, 0xEE, 0xEE, 0xEE]);
}

#[test]
fn read_stops_at_shorter_side() {
    let input = [1u8, 0, 0, 0, 2, 0, 0, 0, 3, 0];
    let mut output = [9u32; 4];
    read_u32_le_scalar(&input, &mut output);
    assert_eq!(output, [1, 2, 9, 9]);
    let mut short = [7u32; 1];
    read_u32_le_scalar(&input, &mut short);
    assert_eq!(short, [1]);
}

#[test]
fn read_after_write_gives_back_values() {
    let values = [0u32, 1, 0xFFFF_FFFF, 0x8000_0001, 0x1234_5678];
    let mut buffer = [0x55u8; 24];
    write_u32_le_simd(&mut buffer, &values);
    let mut back = [0u32; 5];
    read_u32_le_simd(&buffer, &mut back);
    assert_eq!(back, values);
}

#[test]
fn segment_table_full_layout_reads_back() {
    let mut output = [0xFFu8; 20];
    let written = write_segment_table_simd(&mut output, &[3], &[100, 200, 300]);
    assert_eq!(written, 16);
    let mut words = [0u32; 4];
    read_u32_le_simd(&output[..16], &mut words);
    assert_eq!(words, [2, 100, 200, 300]);
    assert_eq!(&output[16..], &[0xFF, 0xFF, 0xFF, 0xFF]);
}

#[test]
fn segment_table_zero_count_saturates() {
    let mut output = [0u8; 8];
    let written = write_segment_table_simd(&mut output, &[0], &[5]);
    assert_eq!(written, 8);
    assert_eq!(output, [0, 0, 0, 0, 5, 0, 0, 0]);
}

#[test]
fn segment_table_without_counts_starts_with_sizes() {
    let mut output = [0u8; 8];
    let written = write_segment_table_simd(&mut output, &[], &[7, 0x0102]);
    assert_eq!(written, 8);
    assert_eq!(output, [7, 0, 0, 0, 0x02, 0x01, 0, 0]);
}

#[test]
fn segment_table_cut_off_mid_word() {
    let mut output = [0xCCu8; 10];
    let written = write_segment_table_simd(&mut output, &[2], &[1, 0x04030201]);
    assert_eq!(written, 10);
    assert_eq!(output, [1, 0, 0, 0, 1, 0, 0, 0, 0x01, 0x02]);
}

#[test]
fn segment_table_too_small_buffer_writes_nothing() {
    let mut output = [9u8; 3];
    let written = write_segment_table_simd(&mut output, &[2], &[1]);
    assert_eq!(written, 0);
    assert_eq!(output, [9, 9, 9]);
}

#[test]
fn segment_table_is_always_a_prefix_of_the_table() {
    let mut output = [0xEEu8; 6];
    let written = write_segment_table_simd(&mut output, &[3], &[1, 2]);
    assert_eq!(written, 4);
    assert_eq!(output, [2, 0, 0, 0, 0xEE, 0xEE]);
}

#[test]
fn segment_table_first_size_is_written_whole_or_not_at_all() {
    let mut output = [0xEEu8; 5];
    let written = write_segment_table_simd(&mut output, &[3], &[100]);
    assert_eq!(written, 4);
    assert_eq!(output, [2, 0, 0, 0, 0xEE]);
}

#[test]
fn segments_are_concatenated_and_cut_to_output() {
    let a: &[u8] = &[1, 2, 3];
    let b: &[u8] = &[];
    let c: &[u8] = &[4, 5, 6, 7];
    let mut output = [0u8; 5];
    let written = write_segments_simd(&mut output, &[a, b, c]);
    assert_eq!(written, 5);
    assert_eq!(output, [1, 2, 3, 4, 5]);

    let mut roomy = [0u8; 9];
    let written = write_segments_simd(&mut roomy, &[a, c]);
    assert_eq!(written, 7);
    assert_eq!(roomy, [1, 2, 3, 4, 5, 6, 7, 0, 0]);
}

#[test]
fn checksum_wraps_modulo_two_to_the_32() {
    let data = vec![0xFFu8; 1000];
    assert_eq!(calculate_checksum_simd(&data), 255_000);
    assert_eq!(calculate_checksum_simd(&[]), 0);
}

#[test]
fn checksum_of_concatenation_is_sum_of_checksums() {
    let a = [10u8, 20, 30];
    let b = [200u8, 100];
    let mut ab = Vec::new();
    ab.extend_from_slice(&a);
    ab.extend_from_slice(&b);
    assert_eq!(
        calculate_checksum_simd(&ab),
        calculate_checksum_simd(&a).wrapping_add(calculate_checksum_simd(&b))
    );
}

#[test]
fn no_null_equals_range_one_to_255() {
    let samples: [&[u8]; 4] = [b"abc", b"a\x00c", b"", b"\xFF\x01"];
    for s in samples.iter() {
        assert_eq!(validate_no_null_bytes_simd(s), validate_range_simd(s, 1, 255));
    }
}

#[test]
fn range_bounds_are_inclusive() {
    assert!(validate_range_simd(&[10, 20], 10, 20));
    assert!(!validate_range_simd(&[9], 10, 20));
    assert!(!validate_range_simd(&[21], 10, 20));
    assert!(validate_range_simd(&[0x80, 0xFF], 0x80, 0xFF));
}
