use kvs::KvStore;
use kvs::KvsEngine;
use kvs::KVStoreError;
use kvs::Segment;

#[test]
fn test_buf_writer_position_tracks_length() {
    let mut w = kvs::BufWriterWithPosition::new(vec![1u8, 2, 3]);
    assert_eq!(w.get_position(), 3);
    w.write_all(&vec![4u8, 5]);
    assert_eq!(w.get_position(), 5);
    assert_eq!(w.into_data(), vec![1u8, 2, 3, 4, 5]);
}

#[test]
fn test_set_get_remove() {
    let mut store = KvStore::open(Vec::new()).unwrap();
    store.set("a".to_owned(), "1".to_owned()).unwrap();
    assert_eq!(store.get("a".to_owned()).unwrap(), Some("1".to_owned()));
    store.remove("a".to_owned()).unwrap();
    assert_eq!(store.get("a".to_owned()).unwrap(), None);
}

#[test]
fn test_read_your_writes() {
    let mut store = KvStore::open(Vec::new()).unwrap();
    store.set("k".to_owned(), "v1".to_owned()).unwrap();
    store.set("other".to_owned(), "w".to_owned()).unwrap();
    store.set("k".to_owned(), "v2".to_owned()).unwrap();
    assert_eq!(store.get("k".to_owned()).unwrap(), Some("v2".to_owned()));
    assert_eq!(store.get("other".to_owned()).unwrap(), Some("w".to_owned()));
}

#[test]
fn test_remove_missing_key_fails() {
    let mut store = KvStore::open(Vec::new()).unwrap();
    match store.remove("missing".to_owned()) {
        Err(KVStoreError::KeyNotFound) => {}
        other => panic!("expected KeyNotFound, got {:?}", other.map(|_| ())),
    }
}

#[test]
fn test_tombstone_durability() {
    let mut store = KvStore::open(Vec::new()).unwrap();
    store.set("gone".to_owned(), "x".to_owned()).unwrap();
    store.set("kept".to_owned(), "y".to_owned()).unwrap();
    store.remove("gone".to_owned()).unwrap();
    assert_eq!(store.get("gone".to_owned()).unwrap(), None);

    // The tombstone survives a restart: reopening on the same
    // segments still reads the key as absent.
    let reopened = KvStore::open(store.segments()).unwrap();
    assert_eq!(reopened.get("gone".to_owned()).unwrap(), None);
    assert_eq!(reopened.get("kept".to_owned()).unwrap(), Some("y".to_owned()));
}

#[test]
fn test_recovery_equivalence() {
    let mut store = KvStore::open(Vec::new()).unwrap();
    store.set("a".to_owned(), "1".to_owned()).unwrap();
    store.set("b".to_owned(), "2".to_owned()).unwrap();
    store.set("a".to_owned(), "3".to_owned()).unwrap();
    store.remove("b".to_owned()).unwrap();

    let reopened = KvStore::open(store.segments()).unwrap();
    assert_eq!(reopened.get("a".to_owned()).unwrap(), Some("3".to_owned()));
    assert_eq!(reopened.get("b".to_owned()).unwrap(), None);
}

#[test]
fn test_recovery_thousand_keys() {
    let mut store = KvStore::open(Vec::new()).unwrap();
    for i in 0..1000 {
        store
            .set(format!("key{}", i), format!("val{}", i))
            .unwrap();
    }
    let reopened = KvStore::open(store.segments()).unwrap();
    for i in 0..1000 {
        assert_eq!(
            reopened.get(format!("key{}", i)).unwrap(),
            Some(format!("val{}", i))
        );
    }
}

#[test]
fn test_compaction_preserves_content() {
    let mut store = KvStore::open(Vec::new()).unwrap();
    for i in 0..100 {
        store.set(format!("k{}", i), format!("v{}", i)).unwrap();
    }
    store.remove("k7".to_owned()).unwrap();
    store.compact().unwrap();
    assert_eq!(store.useless_size(), 0);
    for i in 0..100 {
        let expected = if i == 7 { None } else { Some(format!("v{}", i)) };
        assert_eq!(store.get(format!("k{}", i)).unwrap(), expected);
    }
    // And the compacted segments still recover to the same mapping.
    let reopened = KvStore::open(store.segments()).unwrap();
    assert_eq!(reopened.get("k7".to_owned()).unwrap(), None);
    assert_eq!(reopened.get("k42".to_owned()).unwrap(), Some("v42".to_owned()));
}

#[test]
fn test_compaction_segment_cleanup() {
    let mut store = KvStore::open(Vec::new()).unwrap();
    for i in 0..50 {
        store.set(format!("k{}", i), "value".to_owned()).unwrap();
    }
    let before = store.current_number();
    store.compact().unwrap();
    assert_eq!(store.compaction_number(), before + 1);
    // No segment numbered below the published bound remains.
    for seg in store.segments() {
        assert!(seg.number >= store.compaction_number());
    }
}

#[test]
fn test_threshold_compaction_bounds_growth() {
    let mut store = KvStore::open(Vec::new()).unwrap();
    let big_value = "x".repeat(200);
    for i in 0..10000 {
        store.set("k".to_owned(), format!("{}{}", big_value, i)).unwrap();
    }
    assert!(store.compaction_number() > 0);
    assert_eq!(
        store.get("k".to_owned()).unwrap(),
        Some(format!("{}{}", big_value, 9999))
    );
    let total: usize = store.segments().iter().map(|s| s.data.len()).sum();
    // Dead bytes are collected at the 1 MiB threshold, so the live
    // directory stays within a few megabytes.
    assert!(total < 4 * 1024 * 1024);
}

#[test]
fn test_open_rejects_corrupt_segment() {
    let segment = Segment {
        number: 0,
        data: b"this is not a record".to_vec(),
    };
    match KvStore::open(vec![segment]) {
        Err(KVStoreError::Serde(_)) => {}
        other => panic!("expected a serde error, got {:?}", other.map(|_| ())),
    }
}

#[test]
fn test_open_sorts_segments_by_number() {
    // A directory listing can hand segments over in any order;
    // recovery replays them by ascending number, so the record in
    // segment 5 wins over the one in segment 2.
    let newer = Segment {
        number: 5,
        data: b"{\"SET\":[\"a\",\"new\"]}".to_vec(),
    };
    let older = Segment {
        number: 2,
        data: b"{\"SET\":[\"a\",\"old\"]}".to_vec(),
    };
    let store = KvStore::open(vec![newer, older]).unwrap();
    assert_eq!(store.get("a".to_owned()).unwrap(), Some("new".to_owned()));
    assert_eq!(store.current_number(), 5);
}

#[test]
fn test_open_replays_existing_segments() {
    let data = b"{\"SET\":[\"a\",\"1\"]}{\"SET\":[\"b\",\"2\"]}{\"RM\":\"a\"}".to_vec();
    let store = KvStore::open(vec![Segment { number: 3, data }]).unwrap();
    assert_eq!(store.get("a".to_owned()).unwrap(), None);
    assert_eq!(store.get("b".to_owned()).unwrap(), Some("2".to_owned()));
    assert_eq!(store.current_number(), 3);
}
