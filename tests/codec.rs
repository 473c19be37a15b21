use std::cmp::Ordering;
use videohash_indexer::distance::hamming_distance;
use videohash_indexer::ident::compare_ids;
use videohash_indexer::videohash::{binary_string_to_u64, format_code};
use videohash_indexer::{CodeError, VideoHash};

#[test]
fn test_binary_string_to_u64() {
    let all_ones = "1".repeat(64);
    assert_eq!(binary_string_to_u64(&all_ones).unwrap(), u64::MAX);

    let all_zeros = "0".repeat(64);
    assert_eq!(binary_string_to_u64(&all_zeros).unwrap(), 0);

    let mixed = "1010".repeat(16);
    let expected = 0xAAAAAAAAAAAAAAAAu64;
    assert_eq!(binary_string_to_u64(&mixed).unwrap(), expected);
}

#[test]
fn parse_reads_most_significant_bit_first() {
    let s = "1".to_string() + &"0".repeat(63);
    assert_eq!(binary_string_to_u64(&s).unwrap(), 1u64 << 63);
    let s = "0".repeat(63) + "1";
    assert_eq!(binary_string_to_u64(&s).unwrap(), 1);
}

#[test]
fn format_then_parse_round_trip() {
    for s in [
        "0".repeat(64),
        "1".repeat(64),
        "1010".repeat(16),
        "0".repeat(60) + "1111",
        "1".to_string() + &"0".repeat(62) + "1",
    ] {
        let code = binary_string_to_u64(&s).unwrap();
        assert_eq!(format_code(code), s);
    }
    assert_eq!(format_code(5), "0".repeat(61) + "101");
}

#[test]
fn off_by_one_lengths_are_bad_length() {
    assert_eq!(
        binary_string_to_u64(&"0".repeat(63)),
        Err(CodeError::BadLength { len: 63 })
    );
    assert_eq!(
        binary_string_to_u64(&"0".repeat(65)),
        Err(CodeError::BadLength { len: 65 })
    );
    assert_eq!(binary_string_to_u64(""), Err(CodeError::BadLength { len: 0 }));
}

#[test]
fn bad_symbol_reports_first_offending_byte() {
    let s = "2".to_string() + &"0".repeat(63);
    assert_eq!(binary_string_to_u64(&s), Err(CodeError::BadSymbol { index: 0 }));
    let s = "0".repeat(10) + "x" + &"y".repeat(53);
    assert_eq!(binary_string_to_u64(&s), Err(CodeError::BadSymbol { index: 10 }));
    let s = "+".to_string() + &"0".repeat(63);
    assert_eq!(binary_string_to_u64(&s), Err(CodeError::BadSymbol { index: 0 }));
}

#[test]
fn non_ascii_text_is_measured_in_bytes() {
    // 63 characters, 64 bytes: the length is right, the symbol is not.
    let s = "é".to_string() + &"0".repeat(62);
    assert_eq!(binary_string_to_u64(&s), Err(CodeError::BadSymbol { index: 0 }));
}

#[test]
fn video_hash_keeps_valid_text() {
    let text = "01".repeat(32);
    let h = VideoHash::from_binary_string(&text).unwrap();
    assert_eq!(h.hash, text);
    assert_eq!(h.code(), Ok(0x5555555555555555));
    assert!(matches!(
        VideoHash::from_binary_string(&"0".repeat(10)),
        Err(CodeError::BadLength { len: 10 })
    ));
}

#[test]
fn hamming_distance_counts_differing_bits() {
    assert_eq!(hamming_distance(0, 0), 0);
    assert_eq!(hamming_distance(0, u64::MAX), 64);
    assert_eq!(hamming_distance(0b1011, 0b0001), 2);
    assert_eq!(hamming_distance(0xF0, 0x0F), 8);
}

#[test]
fn identifiers_compare_bytewise() {
    assert_eq!(compare_ids("a", "b"), Ordering::Less);
    assert_eq!(compare_ids("b", "a"), Ordering::Greater);
    assert_eq!(compare_ids("ab", "ab"), Ordering::Equal);
    assert_eq!(compare_ids("ab", "abc"), Ordering::Less);
    assert_eq!(compare_ids("", "a"), Ordering::Less);
    assert_eq!(compare_ids("video-010", "video-002"), Ordering::Greater);
    assert_eq!(compare_ids("Z", "a"), Ordering::Less);
    assert_eq!(compare_ids("é", "z"), Ordering::Greater);
}
