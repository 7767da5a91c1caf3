use stowr_core::delta::{apply_simple_delta, calculate_similarity, create_simple_delta};
use stowr_core::{DeltaAlgorithm, DeltaStorage, Score, StowrError};

fn value(s: Score) -> f64 {
    s.num as f64 / s.den as f64
}

fn storage() -> DeltaStorage {
    DeltaStorage::new(Score { num: 7, den: 10 }, DeltaAlgorithm::Simple)
}

#[test]
fn test_similarity_calculation() {
    let delta_storage = storage();

    let data1 = b"Hello World";
    let data2 = b"Hello World";
    let data3 = b"Hello Rust";

    let identical_similarity = value(delta_storage.calculate_similarity(data1, data2));
    assert!((identical_similarity - 1.0).abs() < 0.1, "Identical files should have similarity close to 1.0, got: {}", identical_similarity);

    let partial_similarity = value(delta_storage.calculate_similarity(data1, data3));
    assert!(partial_similarity >= 0.0 && partial_similarity <= 1.0, "Similarity should be between 0.0 and 1.0, got: {}", partial_similarity);

    let similar_data1 = b"Hello World Test";
    let similar_data2 = b"Hello World Best";
    let similar_similarity = value(delta_storage.calculate_similarity(similar_data1, similar_data2));
    assert!(similar_similarity > 0.0, "Similar texts should have similarity > 0.0, got: {}", similar_similarity);

    let diff_data1 = b"AAAAAAAAAA";
    let diff_data2 = b"BBBBBBBBBB";
    let diff_similarity = value(delta_storage.calculate_similarity(diff_data1, diff_data2));
    assert!(diff_similarity == 0.0, "Completely different data should have similarity 0.0, got: {}", diff_similarity);
}

#[test]
fn test_simple_delta() {
    let delta_storage = storage();

    let base_data = b"Hello World";
    let target_data = b"Hello Rust World";

    let delta = delta_storage.create_delta(base_data, target_data).unwrap();
    let reconstructed = delta_storage.apply_delta(base_data, &delta).unwrap();

    assert_eq!(reconstructed, target_data);
}

#[test]
fn test_file_type_inference() {
    assert_eq!(DeltaStorage::infer_file_type("test.txt"), "txt");
    assert_eq!(DeltaStorage::infer_file_type("image.png"), "png");
    assert_eq!(DeltaStorage::infer_file_type("noext"), "unknown");
}

#[test]
fn file_type_is_lowercased() {
    assert_eq!(DeltaStorage::infer_file_type("PHOTO.JPG"), "jpg");
}

#[test]
fn similarity_boundaries() {
    assert_eq!(value(calculate_similarity(b"", b"")), 1.0);
    assert_eq!(value(calculate_similarity(b"", b"x")), 0.0);
    assert_eq!(value(calculate_similarity(b"x", b"")), 0.0);
    assert_eq!(value(calculate_similarity(b"AAAA", b"BBBB")), 0.0);
}

#[test]
fn byte_similarity_exact_value() {
    // 6 of 16 positions agree ("Hello ").
    let s = calculate_similarity(b"Hello World", b"Hello Rust World");
    assert_eq!((s.num, s.den), (6, 16));
}

#[test]
fn window_similarity_identical_and_partial() {
    let a: Vec<u8> = (0u8..40).collect();
    let s = calculate_similarity(&a, &a);
    assert_eq!(s.num, s.den);
    // Windows of width 8; every window of a is found whole in b except those
    // that cross the changed byte, which still agree in 7 of 8 places.
    let mut b = a.clone();
    b[20] = 255;
    let s = calculate_similarity(&a, &b);
    assert_eq!(s.den, 8 * 33);
    assert_eq!(s.num, 8 * 25 + 7 * 8);
}

#[test]
fn delta_blob_layout() {
    let blob = create_simple_delta(b"abc", b"abd");
    assert_eq!(&blob[0..14], b"STOWR_DELTA_V1");
    assert_eq!(&blob[14..22], &3u64.to_le_bytes());
    assert_eq!(&blob[22..30], &3u64.to_le_bytes());
    assert_eq!(&blob[30..], &[1, 2, 0, 0, 0, 2, 1, 0, 0, 0, b'd']);
}

#[test]
fn delta_round_trip_cases() {
    let cases: Vec<(&[u8], &[u8])> = vec![
        (b"x", b""),
        (b"x", b"y"),
        (b"Hello", b"Hello, world"),
        (b"abcdef", b"abc"),
        (b"same", b"same"),
    ];
    for (base, target) in cases {
        let blob = create_simple_delta(base, target);
        assert_eq!(apply_simple_delta(base, &blob).unwrap(), target.to_vec());
    }
}

#[test]
fn truncated_blob_is_corrupt() {
    let blob = create_simple_delta(b"Hello World", b"Hello Rust World");
    let cut = &blob[..blob.len() - 1];
    assert_eq!(apply_simple_delta(b"Hello World", cut), Err(StowrError::DeltaCorrupt));
    let empty_target = create_simple_delta(b"abc", b"");
    assert_eq!(apply_simple_delta(b"abc", &empty_target[..29]), Err(StowrError::DeltaCorrupt));
}

#[test]
fn flipped_opcode_is_corrupt() {
    let mut blob = create_simple_delta(b"Hello World", b"Hello Rust World");
    blob[30] ^= 0xff;
    assert_eq!(apply_simple_delta(b"Hello World", &blob), Err(StowrError::DeltaCorrupt));
}

#[test]
fn wrong_base_length_or_magic_is_corrupt() {
    let blob = create_simple_delta(b"abc", b"abd");
    assert_eq!(apply_simple_delta(b"abcd", &blob), Err(StowrError::DeltaCorrupt));
    let mut bad = blob.clone();
    bad[0] = b'X';
    assert_eq!(apply_simple_delta(b"abc", &bad), Err(StowrError::DeltaCorrupt));
}

#[test]
fn other_delta_algorithms_refuse() {
    let d = DeltaStorage::new(Score { num: 7, den: 10 }, DeltaAlgorithm::XDelta);
    assert_eq!(d.create_delta(b"a", b"b"), Err(StowrError::NotImplemented));
    let d = DeltaStorage::new(Score { num: 7, den: 10 }, DeltaAlgorithm::BsDiff);
    assert_eq!(d.create_delta(b"a", b"b"), Err(StowrError::NotImplemented));
}

#[test]
fn base_pool_best_match_and_references() {
    let mut d = storage();
    d.add_base_file("b1".to_string(), b"Hello World".to_vec(), "txt".to_string());
    d.add_base_file("b2".to_string(), b"Zzzzz".to_vec(), "txt".to_string());
    let m = d.find_best_base(b"Hello World", "txt").unwrap();
    assert_eq!(m.base_storage_id, "b1");
    // 1 plus the type bonus of one tenth.
    assert_eq!((m.similarity_score.num, m.similarity_score.den), (10 * 11 + 11, 10 * 11));
    assert!(d.find_best_base(b"qqqqqqqqqqq", "bin").is_none());
    d.increment_reference("b1");
    assert!(!d.remove_base_file("b1"));
    assert!(d.decrement_reference("b1"));
    assert!(d.remove_base_file("b1"));
    assert!(d.get_base_file_data("b1").is_none());
    assert_eq!(d.get_base_file_data("b2").map(|v| v.clone()), Some(b"Zzzzz".to_vec()));
    let stats = d.get_stats();
    assert_eq!(stats.total_base_files, 1);
    assert_eq!(stats.total_delta_files, 0);
}

#[test]
fn copy_after_insert_reads_from_copy_cursor() {
    // The decoder's base cursor moves only on COPY, so a COPY that follows an INSERT
    // reads base bytes from where the last COPY ended.
    let blob = create_simple_delta(b"AXC", b"ABC");
    assert_eq!(apply_simple_delta(b"AXC", &blob).unwrap(), b"ABX".to_vec());
}

#[test]
fn zero_threshold_accepts_zero_score() {
    let mut d = DeltaStorage::new(Score { num: 0, den: 1 }, DeltaAlgorithm::Simple);
    d.add_base_file("b".to_string(), b"AAAA".to_vec(), "bin".to_string());
    let m = d.find_best_base(b"BBBB", "txt").unwrap();
    assert_eq!(m.base_storage_id, "b");
    assert_eq!(m.similarity_score.num, 0);
}
