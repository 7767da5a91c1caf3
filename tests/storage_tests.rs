use stowr_core::codec::{compress, decompress};
use stowr_core::{
    choose_index_mode, CompressionAlgorithm, Config, IndexMode, MemoryIndex, Score, StorageManager,
    StoredKind, StowrError,
};

fn manager(config: Config) -> StorageManager {
    StorageManager::new(config, MemoryIndex::new())
}

fn config(dedup: bool, delta: bool, alg: &str) -> Config {
    let mut c = Config::default();
    c.storage_path = "store".to_string();
    c.set("dedup.enable", if dedup { "true" } else { "false" }).unwrap();
    c.set("delta.enable", if delta { "true" } else { "false" }).unwrap();
    c.set("compression.algorithm", alg).unwrap();
    c
}

fn gz_objects(m: &StorageManager) -> usize {
    m.list_files()
        .iter()
        .map(|e| e.stored_path.clone())
        .filter(|p| p.ends_with(".gz") && m.object(p).is_some())
        .collect::<std::collections::BTreeSet<_>>()
        .len()
}

#[test]
fn test_lib_exports() {
    let _config = Config::default();
}

#[test]
fn store_then_extract_hello() {
    let mut m = manager(config(true, false, "gzip"));
    let out = m.store_file("example.txt", b"Hello, Stowr!".to_vec()).unwrap();
    assert_eq!(out.kind, StoredKind::Base);
    let files = m.list_files();
    assert_eq!(files.len(), 1);
    assert_eq!(files[0].file_size, 13);
    assert!(files[0].compressed_size < 50);
    let stored = out.new_object.unwrap();
    assert!(stored.starts_with("store/") && stored.ends_with(".gz"));
    let ex = m.owe_file("example.txt").unwrap();
    assert_eq!(ex.content, b"Hello, Stowr!".to_vec());
    assert_eq!(ex.removed_objects, vec![stored]);
    assert_eq!(m.list_files().len(), 0);
    assert_eq!(m.object_count(), 0);
}

#[test]
fn round_trip_all_codecs_and_modes() {
    let samples: Vec<Vec<u8>> = vec![
        Vec::new(),
        vec![7],
        b"The quick brown fox jumps over the lazy dog, again and again and again.".to_vec(),
    ];
    for alg in ["gzip", "zstd", "lz4"] {
        for dedup in [false, true] {
            for delta in [false, true] {
                let mut m = manager(config(dedup, delta, alg));
                for (i, p) in samples.iter().enumerate() {
                    let path = format!("f{}.bin", i);
                    m.store_file(&path, p.clone()).unwrap();
                }
                for (i, p) in samples.iter().enumerate() {
                    let path = format!("f{}.bin", i);
                    let ex = m.owe_file(&path).unwrap();
                    assert_eq!(&ex.content, p, "{} dedup={} delta={}", alg, dedup, delta);
                    assert_eq!(
                        stowr_core::ContentDeduplicator::calculate_hash(&ex.content),
                        stowr_core::ContentDeduplicator::calculate_hash(p)
                    );
                }
            }
        }
    }
}

#[test]
fn dedup_shares_one_object() {
    let mut m = manager(config(true, false, "gzip"));
    let pattern: Vec<u8> = (0..1024u32).map(|i| (i % 251) as u8).collect();
    let first = m.store_file("a.bin", pattern.clone()).unwrap();
    assert_eq!(first.kind, StoredKind::Base);
    let second = m.store_file("b.bin", pattern.clone()).unwrap();
    assert_eq!(second.kind, StoredKind::Reference);
    assert!(second.new_object.is_none());
    assert_eq!(m.object_count(), 1);
    assert_eq!(gz_objects(&m), 1);
    let b = m.list_files().into_iter().find(|e| e.original_path == "b.bin").unwrap();
    assert_eq!(b.compressed_size, 0);
    assert_eq!(b.get_actual_storage_size(), 0);

    let ex = m.owe_file("a.bin").unwrap();
    assert_eq!(ex.content, pattern);
    assert!(ex.removed_objects.is_empty());
    assert_eq!(m.object_count(), 1);

    let ex = m.owe_file("b.bin").unwrap();
    assert_eq!(ex.content, pattern);
    assert_eq!(ex.removed_objects.len(), 1);
    assert_eq!(m.object_count(), 0);
}

#[test]
fn dedup_counts_follow_index() {
    let mut m = manager(config(true, false, "gzip"));
    m.store_file("a", b"same".to_vec()).unwrap();
    m.store_file("b", b"same".to_vec()).unwrap();
    m.store_file("c", b"same".to_vec()).unwrap();
    let hash = stowr_core::ContentDeduplicator::calculate_hash(b"same");
    let info = m.deduplicator.get_reference_info(&hash).unwrap();
    assert_eq!(info.ref_count, 3);
    // A manager rebuilt over the same index counts the same.
    let mut index = MemoryIndex::new();
    for e in m.list_files() {
        index.add_file(e);
    }
    let rebuilt = StorageManager::new(config(true, false, "gzip"), index);
    assert_eq!(rebuilt.deduplicator.get_reference_info(&hash).unwrap().ref_count, 3);
}

#[test]
fn delta_store_and_extract() {
    let mut c = config(true, true, "gzip");
    c.set("delta.similarity_threshold", "0.3").unwrap();
    let mut m = manager(c);
    m.store_file("base.txt", b"Hello World".to_vec()).unwrap();
    let out = m.store_file("target.txt", b"Hello Rust World".to_vec()).unwrap();
    assert_eq!(out.kind, StoredKind::Delta);
    let t = m.list_files().into_iter().find(|e| e.original_path == "target.txt").unwrap();
    assert!(t.is_delta_file());
    assert_eq!(t.similarity_score, Some(Score { num: 6 * 10 + 16, den: 160 }));
    let ex = m.owe_file("target.txt").unwrap();
    assert_eq!(ex.content, b"Hello Rust World".to_vec());
    assert_eq!(ex.removed_objects.len(), 1);
    assert!(m.object(&m.list_files()[0].stored_path).is_some());
}

#[test]
fn delta_not_chosen_below_threshold() {
    // "Hello World" against "Hello Rust World" scores 6/16 plus the type bonus,
    // below the default threshold of 7/10.
    let mut m = manager(config(true, true, "gzip"));
    m.store_file("base.txt", b"Hello World".to_vec()).unwrap();
    let out = m.store_file("target.txt", b"Hello Rust World".to_vec()).unwrap();
    assert_eq!(out.kind, StoredKind::Base);
}

#[test]
fn corrupted_delta_blob_fails_extract() {
    let mut c = config(false, true, "gzip");
    c.set("delta.similarity_threshold", "0.3").unwrap();
    let mut m = manager(c);
    m.store_file("base.txt", b"Hello World".to_vec()).unwrap();
    let out = m.store_file("target.txt", b"Hello Rust World".to_vec()).unwrap();
    let blob_path = out.new_object.unwrap();
    let stored = m.object(&blob_path).unwrap().clone();
    let mut blob = decompress(CompressionAlgorithm::Gzip, &stored).unwrap();
    blob[30] ^= 0xff;
    let bad = compress(CompressionAlgorithm::Gzip, 6, &blob).unwrap();
    m.insert_object(blob_path.clone(), bad);
    assert_eq!(m.owe_file("target.txt").err(), Some(StowrError::DeltaCorrupt));

    let cut = compress(CompressionAlgorithm::Gzip, 6, &blob[..blob.len() - 1]).unwrap();
    m.insert_object(blob_path, cut);
    assert_eq!(m.owe_file("target.txt").err(), Some(StowrError::DeltaCorrupt));
    assert_eq!(m.list_files().len(), 2);
}

#[test]
fn many_entries_choose_sql_and_search() {
    let mut m = manager(config(false, false, "lz4"));
    for i in 0..1200 {
        let path = if i % 2 == 0 { format!("logs/f{}.log", i) } else { format!("data/f{}.txt", i) };
        m.store_file(&path, format!("{}", i).into_bytes()).unwrap();
    }
    assert_eq!(m.index.count(), 1200);
    assert_eq!(choose_index_mode(IndexMode::Auto, false, m.index.count()), IndexMode::Sqlite);
    assert_eq!(choose_index_mode(IndexMode::Auto, false, 999), IndexMode::Json);
    assert_eq!(choose_index_mode(IndexMode::Auto, true, 0), IndexMode::Sqlite);
    assert_eq!(choose_index_mode(IndexMode::Json, false, 5000), IndexMode::Json);
    let found = m.search_files("logs/*.log");
    assert_eq!(found.len(), 600);
    assert!(found.iter().all(|e| e.original_path.ends_with(".log")));
    let found = m.search_files("*.log");
    assert!(found.iter().all(|e| e.original_path.ends_with(".log")));
}

#[test]
fn search_falls_back_to_substring() {
    let mut m = manager(config(false, false, "gzip"));
    m.store_file("a[1.txt", b"x".to_vec()).unwrap();
    m.store_file("b.txt", b"y".to_vec()).unwrap();
    let found = m.search_files("a[1");
    assert_eq!(found.len(), 1);
    assert_eq!(found[0].original_path, "a[1.txt");
}

#[test]
fn rename_and_move_rules() {
    let mut m = manager(config(false, false, "gzip"));
    m.store_file("a.txt", b"a".to_vec()).unwrap();
    m.store_file("b.txt", b"b".to_vec()).unwrap();
    assert_eq!(m.rename_file("a.txt", "a.txt"), Err(StowrError::AlreadyExists));
    assert_eq!(m.rename_file("a.txt", "b.txt"), Err(StowrError::AlreadyExists));
    assert_eq!(m.rename_file("zz.txt", "c.txt"), Err(StowrError::NotFound));
    m.rename_file("a.txt", "c.txt").unwrap();
    assert!(m.index.get_file("a.txt").is_none());
    m.move_file("c.txt", "dir").unwrap();
    assert_eq!(m.owe_file("dir/c.txt").unwrap().content, b"a".to_vec());
    assert_eq!(m.owe_file("c.txt").err(), Some(StowrError::NotFound));
}

#[test]
fn delete_removes_object_and_store_twice_is_noop() {
    let mut m = manager(config(true, false, "zstd"));
    let first = m.store_file("a", b"abc".to_vec()).unwrap();
    let again = m.store_file("a", b"other".to_vec()).unwrap();
    assert_eq!(again.kind, StoredKind::AlreadyStored);
    let removed = m.delete_file("a").unwrap();
    assert_eq!(removed, vec![first.new_object.unwrap()]);
    assert_eq!(m.delete_file("a"), Err(StowrError::NotFound));
}

#[test]
fn glob_regex_and_list_selection() {
    let mut m = manager(config(false, false, "gzip"));
    assert_eq!(m.glob_to_regex("**/a*.t?t").unwrap(), "^.*[/\\\\]a[^/\\\\]*\\.t[^/\\\\]t$");
    m.store_file("docs/a1.txt", b"1".to_vec()).unwrap();
    m.store_file("docs/b1.txt", b"2".to_vec()).unwrap();
    m.store_file("notes.md", b"3".to_vec()).unwrap();
    let mut sel = m.select_stored_from_list("# comment\n  docs/*.txt \n!docs/b*\nnotes.md\nmissing.md\n").unwrap();
    sel.sort();
    assert_eq!(sel, vec!["docs/a1.txt".to_string(), "notes.md".to_string()]);
    let (inc, exc) = stowr_core::storage::parse_pattern_list("a\n\n#x\n!b\n  c  ");
    assert_eq!(inc, vec!["a".to_string(), "c".to_string()]);
    assert_eq!(exc, vec!["b".to_string()]);
}

#[test]
fn lines_split_like_str_lines() {
    let text = "a\r\nb\n\nc\r";
    let expected: Vec<String> = text.lines().map(|l| l.to_string()).collect();
    assert_eq!(stowr_core::storage::split_lines(text), expected);
    assert_eq!(stowr_core::storage::split_lines("x\n"), vec!["x".to_string()]);
    assert!(stowr_core::storage::split_lines("").is_empty());
}

#[test]
fn misaligned_delta_falls_back_to_base() {
    // ABCD -> XBCD scores 3/4, but the emitted blob would replay as XABC.
    let mut m = manager(config(false, true, "gzip"));
    m.store_file("base.bin", b"ABCD".to_vec()).unwrap();
    let out = m.store_file("target.bin", b"XBCD".to_vec()).unwrap();
    assert_eq!(out.kind, StoredKind::Base);
    assert_eq!(m.owe_file("target.bin").unwrap().content, b"XBCD".to_vec());
}

#[test]
fn store_with_taken_id_is_io_error() {
    let mut m = manager(config(false, false, "gzip"));
    m.store_file_with_id("a", b"1".to_vec(), "same-id".to_string()).unwrap();
    assert_eq!(m.store_file_with_id("b", b"2".to_vec(), "same-id".to_string()).err(), Some(StowrError::IoError));
    assert_eq!(m.list_files()[0].stored_path, "store/same-id.gz");
}

#[test]
fn unimplemented_delta_algorithm_is_reported() {
    let mut c = config(false, true, "gzip");
    c.set("delta.algorithm", "xdelta").unwrap();
    let mut m = manager(c);
    m.store_file("base.txt", b"Hello World".to_vec()).unwrap();
    assert_eq!(m.store_file("again.txt", b"Hello World".to_vec()).err(), Some(StowrError::NotImplemented));
    assert_eq!(m.list_files().len(), 1);
}

#[test]
fn delta_without_base_is_missing_base() {
    let mut c = config(false, true, "gzip");
    c.set("delta.similarity_threshold", "0.3").unwrap();
    let mut m = manager(c);
    m.store_file("base.txt", b"Hello World".to_vec()).unwrap();
    assert_eq!(m.store_file("target.txt", b"Hello Rust World".to_vec()).unwrap().kind, StoredKind::Delta);
    m.delete_file("base.txt").unwrap();
    assert_eq!(m.owe_file("target.txt").err(), Some(StowrError::MissingBase));
    assert_eq!(m.list_files().len(), 1);
}
