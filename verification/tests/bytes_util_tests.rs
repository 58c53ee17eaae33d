use elix::bytes_util::{
    chunk_count, code_from_draws, decode_buffer_to_u32, decode_buffer_to_usize,
    decode_bytes_to_string, encode_string_as_bytes, encode_usize_as_vec, generate_code,
    pad_until_len,
};

#[test]
fn pad_until_len_appends_zeros() {
    let padded = pad_until_len(vec![1u8, 2, 3], 6);
    assert_eq!(padded, vec![1u8, 2, 3, 0, 0, 0]);
}

#[test]
fn pad_until_len_full_vector_is_unchanged() {
    let padded = pad_until_len(vec![7u8, 8], 2);
    assert_eq!(padded, vec![7u8, 8]);
}

#[test]
fn pad_until_len_empty_input() {
    assert_eq!(pad_until_len(Vec::new(), 4), vec![0u8; 4]);
    assert_eq!(pad_until_len(Vec::new(), 0), Vec::<u8>::new());
}

#[test]
fn encode_string_as_bytes_gives_utf8() {
    assert_eq!(encode_string_as_bytes(String::from("abc")), b"abc".to_vec());
    assert_eq!(
        encode_string_as_bytes(String::from("é€")),
        vec![0xC3u8, 0xA9, 0xE2, 0x82, 0xAC]
    );
    assert_eq!(encode_string_as_bytes(String::new()), Vec::<u8>::new());
}

#[test]
fn decode_bytes_to_string_trims_trailing_nul_only() {
    let buf = vec![0u8, 0, b'a', 0, b'b', 0, 0, 0];
    assert_eq!(decode_bytes_to_string(buf), "\0\0a\0b");
    assert_eq!(decode_bytes_to_string(vec![0u8, 65, 0]), "\0A");
}

#[test]
fn decode_bytes_to_string_all_zero_is_empty() {
    assert_eq!(decode_bytes_to_string(vec![0u8; 256]), "");
    assert_eq!(decode_bytes_to_string(Vec::new()), "");
}

#[test]
fn decode_bytes_to_string_keeps_multibyte_chars() {
    let mut buf = "héllo.txt".as_bytes().to_vec();
    buf.extend_from_slice(&[0u8; 5]);
    assert_eq!(decode_bytes_to_string(buf), "héllo.txt");
}

#[test]
fn padded_name_roundtrip() {
    // law_padded_name_roundtrip on a concrete file name
    let name = String::from("holiday_video.mp4");
    let frame = pad_until_len(encode_string_as_bytes(name.clone()), 256);
    assert_eq!(frame.len(), 256);
    assert_eq!(decode_bytes_to_string(frame), name);
}

#[test]
fn padded_name_roundtrip_exact_fit() {
    let name: String = "x".repeat(256);
    let frame = pad_until_len(encode_string_as_bytes(name.clone()), 256);
    assert_eq!(frame.len(), 256);
    assert_eq!(decode_bytes_to_string(frame), name);
}

#[test]
fn encode_usize_as_vec_little_endian() {
    assert_eq!(encode_usize_as_vec(0x0403_0201), vec![1u8, 2, 3, 4]);
    assert_eq!(encode_usize_as_vec(0), vec![0u8; 4]);
    assert_eq!(encode_usize_as_vec(1_000_000), vec![0x40u8, 0x42, 0x0F, 0x00]);
}

#[test]
fn encode_usize_as_vec_truncates_to_32_bits() {
    let big: u64 = 0x1_0000_0005;
    if let Ok(v) = usize::try_from(big) {
        assert_eq!(encode_usize_as_vec(v), vec![5u8, 0, 0, 0]);
    }
}

#[test]
fn decode_buffer_to_u32_little_endian() {
    assert_eq!(decode_buffer_to_u32(vec![1u8, 2, 3, 4]), 0x0403_0201);
    assert_eq!(decode_buffer_to_u32(vec![0xFFu8, 0xFF, 0xFF, 0xFF]), u32::MAX);
}

#[test]
fn decode_buffer_to_u32_reads_only_first_four_bytes() {
    assert_eq!(decode_buffer_to_u32(vec![9u8, 0, 0, 0, 7, 7]), 9);
}

#[test]
fn decode_buffer_to_usize_little_endian() {
    assert_eq!(decode_buffer_to_usize(vec![0x40u8, 0x42, 0x0F, 0x00]), 1_000_000);
}

#[test]
fn count_roundtrip() {
    // law_count_roundtrip / law_u32_le_roundtrip on concrete counts
    for n in [0usize, 1, 255, 256, 2253, 65_536, 4_294_967_295] {
        assert_eq!(decode_buffer_to_usize(encode_usize_as_vec(n)), n);
        assert_eq!(decode_buffer_to_u32(encode_usize_as_vec(n)) as usize, n);
    }
}

#[test]
fn generate_code_is_five_alphanumeric_chars() {
    for _ in 0..50 {
        let code = generate_code();
        assert_eq!(code.chars().count(), 5);
        assert!(code.chars().all(|c| c.is_ascii_alphanumeric()));
        assert_eq!(code.len(), 5);
    }
}

#[test]
fn generated_code_survives_the_code_frame() {
    // law_code_is_short_ascii together with law_padded_name_roundtrip
    let code = generate_code();
    let frame = pad_until_len(encode_string_as_bytes(code.clone()), 256);
    assert_eq!(decode_bytes_to_string(frame), code);
}

#[test]
fn code_from_draws_spells_the_draws() {
    assert_eq!(code_from_draws(b"aZ09q".to_vec()), "aZ09q");
    assert_eq!(code_from_draws(b"AAAAA".to_vec()), "AAAAA");
}

#[test]
fn distinct_draws_distinct_codes() {
    // law_distinct_draws_distinct_codes on two draws that differ in one place
    assert_ne!(code_from_draws(b"abcde".to_vec()), code_from_draws(b"abcdf".to_vec()));
}

#[test]
fn chunk_count_rounds_up() {
    assert_eq!(chunk_count(0, 262144), 0);
    assert_eq!(chunk_count(1, 262144), 1);
    assert_eq!(chunk_count(262144, 262144), 1);
    assert_eq!(chunk_count(262145, 262144), 2);
    assert_eq!(chunk_count(1_181_116_006, 262144), 4506);
}

#[test]
fn chunk_count_large_file_is_exact() {
    // a size that f32 cannot hold exactly
    assert_eq!(chunk_count(16_777_217 * 262144 + 1, 262144), 16_777_218);
}
