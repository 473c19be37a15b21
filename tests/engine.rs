use videohash_indexer::engine::{Engine, EngineError};

#[test]
fn build_refuses_block_counts_that_do_not_divide_64() {
    assert!(matches!(Engine::build(vec![1, 2], 3), Err(EngineError::BadPartition)));
    assert!(matches!(Engine::build(vec![1, 2], 0), Err(EngineError::BadPartition)));
    assert!(matches!(Engine::build(vec![1, 2], 128), Err(EngineError::BadPartition)));
}

#[test]
fn build_with_one_block_fails_in_the_multi_index() {
    assert!(matches!(Engine::build(vec![1, 2], 1), Err(EngineError::BuildError)));
}

#[test]
fn empty_engine_answers_nothing() {
    let e = Engine::build(Vec::new(), 8).unwrap();
    assert_eq!(e.len(), 0);
    assert!(e.range(0, 64).is_empty());
    assert_eq!(e.nearest(0), None);
}

#[test]
fn range_lists_positions_within_radius_ascending() {
    let codes = vec![0b1111u64, 0, 0b1, u64::MAX, 0b11];
    let e = Engine::build(codes, 8).unwrap();
    assert_eq!(e.len(), 5);
    assert_eq!(e.range(0, 0), vec![1]);
    assert_eq!(e.range(0, 2), vec![1, 2, 4]);
    assert_eq!(e.range(0, 4), vec![0, 1, 2, 4]);
    assert_eq!(e.range(0, 63), vec![0, 1, 2, 4]);
    assert_eq!(e.range(0, 64), vec![0, 1, 2, 3, 4]);
    assert_eq!(e.range(0, 1000), vec![0, 1, 2, 3, 4]);
}

#[test]
fn nearest_breaks_ties_by_position() {
    let codes = vec![0b111u64, 0b1000, 0b0100, 0b1];
    let e = Engine::build(codes, 8).unwrap();
    // Positions 1, 2 and 3 are all one bit away from zero.
    assert_eq!(e.nearest(0), Some(1));
    assert_eq!(e.nearest(0b111), Some(0));
}

#[test]
fn nearest_when_every_code_is_the_complement() {
    let e = Engine::build(vec![u64::MAX, u64::MAX], 8).unwrap();
    assert_eq!(e.nearest(0), Some(0));
    let e = Engine::build(vec![u64::MAX, 0b1], 8).unwrap();
    assert_eq!(e.nearest(0), Some(1));
}

#[test]
fn other_block_counts_answer_alike() {
    for blocks in [4usize, 16, 32, 64] {
        let codes = vec![0b1111u64, 0, 0b1, u64::MAX, 0b11];
        let e = Engine::build(codes, blocks).unwrap();
        assert_eq!(e.range(0, 2), vec![1, 2, 4]);
        assert_eq!(e.nearest(u64::MAX), Some(3));
    }
}
