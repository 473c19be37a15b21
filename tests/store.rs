use videohash_indexer::videohash::binary_string_to_u64;
use videohash_indexer::{CodeError, IndexError, VideoHash, VideoHashIndex};

fn vh(s: String) -> VideoHash {
    VideoHash { hash: s }
}

#[test]
fn test_add_and_find() -> Result<(), IndexError> {
    let mut index = VideoHashIndex::new();

    let hash1 = VideoHash {
        hash: "0".repeat(64),
    };
    let hash2 = VideoHash {
        hash: "1".repeat(64),
    };
    let hash3 = VideoHash {
        hash: "0".repeat(32) + &"1".repeat(32),
    };

    let video_id1 = "video-001".to_string();
    let video_id2 = "video-002".to_string();
    let video_id3 = "video-003".to_string();

    index.add(video_id1.clone(), &hash1)?;
    index.add(video_id2.clone(), &hash2)?;
    index.add(video_id3.clone(), &hash3)?;

    let result = index.find_nearest_neighbor(&hash1)?;
    assert!(result.is_some());
    let (found_id, distance) = result.unwrap();
    assert_eq!(found_id, video_id1);
    assert_eq!(distance, 0);

    let query = VideoHash {
        hash: "0".repeat(60) + &"1".repeat(4),
    };
    let result = index.find_nearest_neighbor(&query)?;
    assert!(result.is_some());
    let (found_id, distance) = result.unwrap();
    assert_eq!(found_id, video_id1);
    assert_eq!(distance, 4);

    Ok(())
}

#[test]
fn test_consistent_ordering() -> Result<(), IndexError> {
    let mut index = VideoHashIndex::new();

    let video_id1 = "video-001".to_string();
    let video_id2 = "video-002".to_string();
    let video_id3 = "video-003".to_string();

    let hash1 = VideoHash {
        hash: "0".repeat(64),
    };
    let hash2 = VideoHash {
        hash: "1".repeat(64),
    };
    let hash3 = VideoHash {
        hash: "0".repeat(32) + &"1".repeat(32),
    };

    index.add(video_id2.clone(), &hash2)?;
    index.add(video_id3.clone(), &hash3)?;
    index.add(video_id1.clone(), &hash1)?;

    let result = index.find_nearest_neighbor(&hash1)?;
    assert!(result.is_some());
    let (found_id, distance) = result.unwrap();
    assert_eq!(found_id, video_id1);
    assert_eq!(distance, 0);

    let result = index.find_nearest_neighbor(&hash1)?;
    assert!(result.is_some());
    let (found_id, distance) = result.unwrap();
    assert_eq!(found_id, video_id1);
    assert_eq!(distance, 0);

    Ok(())
}

#[test]
fn nearest_on_empty_store_is_none() {
    let mut index = VideoHashIndex::new();
    assert!(index.is_empty());
    assert!(index.needs_rebuild());
    assert_eq!(index.find_nearest(0), Ok(None));
    assert_eq!(index.find_within(0, 64), Ok(Vec::new()));
}

#[test]
fn nearest_ties_go_to_the_first_identifier() {
    let mut index = VideoHashIndex::new();
    index.insert_code("b".to_string(), 0b01);
    index.insert_code("c".to_string(), 0b10);
    index.insert_code("a".to_string(), 0b11);
    // "b" and "c" are one bit from zero, "a" two bits.
    assert_eq!(index.find_nearest(0), Ok(Some(("b".to_string(), 1))));
    index.insert_code("a".to_string(), 0b100);
    assert_eq!(index.find_nearest(0), Ok(Some(("a".to_string(), 1))));
}

#[test]
fn within_sorts_by_distance_then_identifier() {
    let mut index = VideoHashIndex::new();
    index.insert_code("z".to_string(), 0);
    index.insert_code("y".to_string(), 0b11);
    index.insert_code("x".to_string(), 0b1);
    index.insert_code("w".to_string(), 0b10);
    index.insert_code("far".to_string(), u64::MAX);
    let got = index.find_within(0, 2).unwrap();
    assert_eq!(
        got,
        vec![
            ("z".to_string(), 0),
            ("w".to_string(), 1),
            ("x".to_string(), 1),
            ("y".to_string(), 2),
        ]
    );
}

#[test]
fn within_radius_zero_is_exact_matches_only() {
    let mut index = VideoHashIndex::new();
    index.insert_code("a".to_string(), 7);
    index.insert_code("b".to_string(), 6);
    index.insert_code("c".to_string(), 7);
    assert_eq!(
        index.find_within(7, 0).unwrap(),
        vec![("a".to_string(), 0), ("c".to_string(), 0)]
    );
}

#[test]
fn within_radius_64_lists_every_identifier() {
    let mut index = VideoHashIndex::new();
    index.insert_code("a".to_string(), u64::MAX);
    index.insert_code("b".to_string(), 0);
    index.insert_code("c".to_string(), 0xFFFF);
    let got = index.find_within(0, 64).unwrap();
    assert_eq!(
        got,
        vec![
            ("b".to_string(), 0),
            ("c".to_string(), 16),
            ("a".to_string(), 64),
        ]
    );
    assert_eq!(index.find_within(0, 500).unwrap().len(), 3);
}

#[test]
fn removed_identifier_is_not_nearest() {
    let mut index = VideoHashIndex::new();
    index.insert_code("other".to_string(), u64::MAX);
    let c = binary_string_to_u64(&"01".repeat(32)).unwrap();
    index.add("v".to_string(), &vh("01".repeat(32))).unwrap();
    assert_eq!(index.find_nearest(c).unwrap().unwrap().0, "v");
    assert_eq!(index.remove("v"), Ok(true));
    let got = index.find_nearest(c).unwrap().unwrap();
    assert_ne!(got.0, "v");
    assert_eq!(got.0, "other");
}

#[test]
fn remove_reports_presence_once() {
    let mut index = VideoHashIndex::new();
    assert_eq!(index.remove("a"), Ok(false));
    index.insert_code("a".to_string(), 1);
    assert_eq!(index.remove("a"), Ok(true));
    assert_eq!(index.remove("a"), Ok(false));
    assert_eq!(index.len(), 0);
}

#[test]
fn add_overwrites_and_rejects_bad_text() {
    let mut index = VideoHashIndex::new();
    index.add("a".to_string(), &vh("0".repeat(64))).unwrap();
    index.add("a".to_string(), &vh("1".repeat(64))).unwrap();
    assert_eq!(index.len(), 1);
    assert_eq!(index.has_exact_match("a", &vh("1".repeat(64))), Ok(true));
    assert_eq!(index.has_exact_match("a", &vh("0".repeat(64))), Ok(false));
    assert_eq!(index.has_exact_match("b", &vh("1".repeat(64))), Ok(false));
    assert_eq!(
        index.add("b".to_string(), &vh("0".repeat(3))),
        Err(IndexError::InvalidHash(CodeError::BadLength { len: 3 }))
    );
    assert_eq!(
        index.find_within_distance(&vh("2".repeat(64)), 10),
        Err(IndexError::InvalidHash(CodeError::BadSymbol { index: 0 }))
    );
    assert_eq!(index.len(), 1);
}

#[test]
fn stores_with_equal_contents_answer_alike() {
    let mut a = VideoHashIndex::new();
    let mut b = VideoHashIndex::new();
    let rows = [("m", 3u64), ("k", 5), ("q", 3), ("a", 1 << 40), ("z", 0)];
    for (id, c) in rows.iter() {
        a.insert_code(id.to_string(), *c);
    }
    for (id, c) in rows.iter().rev() {
        b.insert_code(id.to_string(), *c);
    }
    for q in [0u64, 1, 3, 7, 1 << 40, u64::MAX] {
        assert_eq!(a.find_nearest(q), b.find_nearest(q));
        assert_eq!(a.find_within(q, 10), b.find_within(q, 10));
        assert_eq!(a.find_within(q, 64), b.find_within(q, 64));
    }
}

#[test]
fn bootstrap_keeps_the_newest_row_of_each_identifier() {
    let mut index = VideoHashIndex::new();
    index.insert_code("stale".to_string(), 9);
    // Appended oldest first: (a, 0), (b, all ones), (a, 1); read back newest first.
    let newest_first = vec![
        ("a".to_string(), 1u64),
        ("b".to_string(), u64::MAX),
        ("a".to_string(), 0u64),
    ];
    index.bootstrap(&newest_first);
    assert_eq!(index.len(), 2);
    assert_eq!(index.find_nearest(0), Ok(Some(("a".to_string(), 1))));
    assert_eq!(index.remove("stale"), Ok(false));
}

#[test]
fn bootstrap_round_trip_equals_last_write_wins() {
    let appends = vec![
        ("x".to_string(), 4u64),
        ("y".to_string(), 5u64),
        ("x".to_string(), 6u64),
        ("z".to_string(), 7u64),
        ("y".to_string(), 8u64),
    ];
    let mut fetched = appends.clone();
    fetched.reverse();
    let mut rebuilt = VideoHashIndex::new();
    rebuilt.bootstrap(&fetched);
    let mut expected = VideoHashIndex::new();
    for (id, c) in appends.iter() {
        expected.insert_code(id.clone(), *c);
    }
    assert_eq!(rebuilt.len(), 3);
    assert_eq!(rebuilt.find_within(0, 64), expected.find_within(0, 64));
    assert_eq!(rebuilt.find_within(0, 64).unwrap()[0], ("y".to_string(), 1));
}

#[test]
fn rebuild_from_rows_parses_or_refuses() {
    let mut index = VideoHashIndex::new();
    let rows = vec![
        ("a".to_string(), vh("0".repeat(63) + "1")),
        ("b".to_string(), vh("1".repeat(64))),
        ("a".to_string(), vh("0".repeat(64))),
    ];
    assert_eq!(index.rebuild_from_rows(&rows), Ok(2));
    assert_eq!(index.find_nearest(0), Ok(Some(("a".to_string(), 1))));
    let bad = vec![("c".to_string(), vh("0".repeat(5)))];
    assert_eq!(
        index.rebuild_from_rows(&bad),
        Err(IndexError::InvalidHash(CodeError::BadLength { len: 5 }))
    );
    assert_eq!(index.len(), 2);
}
