use videohash_indexer::query::{
    collect_page, lookup_or_insert, next_page_offset, retry_delay_ms, similarity_times_64,
    SearchError, APPEND_BATCH_ROWS, FETCH_PAGE_ROWS, HEALTH_ATTEMPTS, MATCH_RADIUS,
    WRITE_ATTEMPTS,
};
use videohash_indexer::videohash::format_code;
use videohash_indexer::{CodeError, SearchRequest, VideoHash, VideoHashIndex};

fn vh(s: String) -> VideoHash {
    VideoHash { hash: s }
}

fn similarity(d: u32) -> f64 {
    similarity_times_64(d) as f64 / 64.0
}

#[test]
fn test_search_add_new_hash() {
    let mut index = VideoHashIndex::new();
    let req = SearchRequest {
        video_id: "test-video-1".to_string(),
        hash: "0".repeat(64),
    };
    let out = lookup_or_insert(&mut index, req.video_id.clone(), &vh(req.hash.clone()), true).unwrap();
    assert_eq!(out.match_found, false);
    assert_eq!(out.hash_added, true);
}

#[test]
fn test_search_find_similar_hash() {
    let mut index = VideoHashIndex::new();
    index
        .add("test-video-1".to_string(), &vh("0".repeat(64)))
        .unwrap();
    let out = lookup_or_insert(
        &mut index,
        "test-video-2".to_string(),
        &vh("0".repeat(59) + "11111"),
        true,
    )
    .unwrap();
    assert_eq!(out.match_found, true);
    let (id, d) = out.best.unwrap();
    assert_eq!(id, "test-video-1");
    assert!(similarity(d) > 90.0);
}

#[test]
fn test_delete_hash() {
    let mut index = VideoHashIndex::new();
    index
        .add("test-video-1".to_string(), &vh("0".repeat(64)))
        .unwrap();
    assert_eq!(index.remove("test-video-1"), Ok(true));
    assert_eq!(index.len(), 0);
}

#[test]
fn scenario_insert_then_match() {
    let mut index = VideoHashIndex::new();
    let out = lookup_or_insert(&mut index, "v1".to_string(), &vh("0".repeat(64)), true).unwrap();
    assert!(!out.match_found);
    assert!(out.hash_added);
    assert!(out.backed_up);
    assert!(out.best.is_none());
    let out = lookup_or_insert(
        &mut index,
        "v2".to_string(),
        &vh("0".repeat(60) + &"1".repeat(4)),
        true,
    )
    .unwrap();
    assert!(out.match_found);
    assert!(!out.hash_added);
    let (id, d) = out.best.unwrap();
    assert_eq!(id, "v1");
    assert_eq!(similarity(d), 93.75);
    assert_eq!(index.len(), 1);
}

#[test]
fn scenario_delete_then_insert_again() {
    let mut index = VideoHashIndex::new();
    lookup_or_insert(&mut index, "v1".to_string(), &vh("0".repeat(64)), true).unwrap();
    let q = vh("0".repeat(60) + &"1".repeat(4));
    assert!(lookup_or_insert(&mut index, "v2".to_string(), &q, true).unwrap().match_found);
    assert_eq!(index.remove("v1"), Ok(true));
    let out = lookup_or_insert(&mut index, "v2".to_string(), &q, false).unwrap();
    assert!(!out.match_found);
    assert!(out.hash_added);
    assert!(!out.backed_up);
    assert_eq!(index.has_exact_match("v2", &q), Ok(true));
    assert_eq!(index.len(), 1);
}

#[test]
fn scenario_bad_symbol_is_a_bad_request() {
    let mut index = VideoHashIndex::new();
    let text = "2".to_string() + &"0".repeat(63);
    assert!(VideoHash::from_binary_string(&text).is_err());
    let r = lookup_or_insert(&mut index, "x".to_string(), &vh(text), true);
    assert!(matches!(
        r,
        Err(SearchError::BadRequest(CodeError::BadSymbol { index: 0 }))
    ));
    assert_eq!(index.len(), 0);
}

#[test]
fn scenario_eleven_bits_away_is_no_match() {
    let mut index = VideoHashIndex::new();
    for i in 0..5u32 {
        let code: u64 = 0x7FF << (11 * i);
        index.insert_code(format!("v{}", i + 1), code);
    }
    let out = lookup_or_insert(&mut index, "q".to_string(), &vh("0".repeat(64)), true).unwrap();
    assert!(!out.match_found);
    assert!(out.hash_added);
    // Ten bits away is still a match.
    let ten = format_code(0x3FF << 54);
    let out = lookup_or_insert(&mut index, "r".to_string(), &vh(ten), true).unwrap();
    assert!(out.match_found);
    assert_eq!(out.best.unwrap(), ("q".to_string(), 10));
    assert_eq!(MATCH_RADIUS, 10);
}

#[test]
fn scenario_exact_match_at_radius_zero() {
    let mut index = VideoHashIndex::new();
    let text = "1100".repeat(16);
    index.add("only".to_string(), &vh(text.clone())).unwrap();
    let got = index.find_within_distance(&vh(text), 0).unwrap();
    assert_eq!(got, vec![("only".to_string(), 0)]);
    assert_eq!(similarity(got[0].1), 100.0);
}

#[test]
fn scenario_bootstrap_newest_row_wins() {
    // Appended oldest first; the warehouse hands them back newest first.
    let appended = vec![
        (Some("a".to_string()), Some("0".repeat(64))),
        (Some("b".to_string()), Some("1".repeat(64))),
        (Some("a".to_string()), Some("0".repeat(63) + "1")),
    ];
    let mut page = appended.clone();
    page.reverse();
    let rows = collect_page(page);
    let mut index = VideoHashIndex::new();
    assert_eq!(index.rebuild_from_rows(&rows), Ok(2));
    let out = lookup_or_insert(&mut index, "probe".to_string(), &vh("0".repeat(64)), true).unwrap();
    assert!(out.match_found);
    assert_eq!(out.best.unwrap(), ("a".to_string(), 1));
}

#[test]
fn similarity_values() {
    assert_eq!(similarity_times_64(0), 6400);
    assert_eq!(similarity_times_64(4), 6000);
    assert_eq!(similarity_times_64(64), 0);
}

#[test]
fn retry_delays_double_until_attempts_run_out() {
    assert_eq!(WRITE_ATTEMPTS, 3);
    assert_eq!(HEALTH_ATTEMPTS, 1);
    assert_eq!(retry_delay_ms(1, WRITE_ATTEMPTS), Some(500));
    assert_eq!(retry_delay_ms(2, WRITE_ATTEMPTS), Some(1000));
    assert_eq!(retry_delay_ms(3, WRITE_ATTEMPTS), None);
    assert_eq!(retry_delay_ms(1, HEALTH_ATTEMPTS), None);
    assert_eq!(retry_delay_ms(5, 10), Some(8000));
}

#[test]
fn paging_stops_on_a_short_page() {
    assert_eq!(FETCH_PAGE_ROWS, 50000);
    assert_eq!(next_page_offset(0, 50000, FETCH_PAGE_ROWS), Some(50000));
    assert_eq!(next_page_offset(50000, 49999, FETCH_PAGE_ROWS), None);
    assert_eq!(next_page_offset(100, 0, FETCH_PAGE_ROWS), None);
    assert_eq!(APPEND_BATCH_ROWS, 500);
}

#[test]
fn collect_page_skips_unusable_rows() {
    let rows = vec![
        (Some("a".to_string()), Some("0".repeat(64))),
        (None, Some("1".repeat(64))),
        (Some("b".to_string()), None),
        (Some("c".to_string()), Some("0".repeat(63))),
        (Some("d".to_string()), Some("1".repeat(64))),
    ];
    let kept = collect_page(rows);
    assert_eq!(kept.len(), 2);
    assert_eq!(kept[0].0, "a");
    assert_eq!(kept[0].1.hash, "0".repeat(64));
    assert_eq!(kept[1].0, "d");
    assert_eq!(kept[1].1.hash, "1".repeat(64));
}
