use kvs::sled_removed_to_result;
use kvs::sled_value_to_result;
use kvs::KvsEngine;
use kvs::KVStoreError;
use kvs::SledKvsEngine;

#[test]
fn test_sled_value_to_result() {
    assert_eq!(sled_value_to_result(None).unwrap(), None);
    assert_eq!(
        sled_value_to_result(Some(b"hello".to_vec())).unwrap(),
        Some("hello".to_owned())
    );
    match sled_value_to_result(Some(vec![0xff, 0xfe])) {
        Err(KVStoreError::Utf8Error) => {}
        _ => panic!("expected Utf8Error for bytes that are not UTF-8"),
    }
}

#[test]
fn test_sled_removed_to_result() {
    match sled_removed_to_result(None) {
        Err(KVStoreError::KeyNotFound) => {}
        _ => panic!("expected KeyNotFound for a key that was absent"),
    }
    assert!(sled_removed_to_result(Some(b"old".to_vec())).is_ok());
}

// The embedded store works on a real directory; these tests keep it
// under /tmp and write assertions that hold whether or not data from
// an earlier run is still there.

#[test]
fn test_sled_set_get_remove() {
    let mut store = SledKvsEngine::open("/tmp/kvs_sled_engine_test".to_owned()).unwrap();
    store.set("a".to_owned(), "1".to_owned()).unwrap();
    assert_eq!(store.get("a".to_owned()).unwrap(), Some("1".to_owned()));
    store.set("a".to_owned(), "2".to_owned()).unwrap();
    assert_eq!(store.get("a".to_owned()).unwrap(), Some("2".to_owned()));
    store.remove("a".to_owned()).unwrap();
    assert_eq!(store.get("a".to_owned()).unwrap(), None);
    match store.remove("a".to_owned()) {
        Err(KVStoreError::KeyNotFound) => {}
        _ => panic!("expected KeyNotFound for a key that is gone"),
    }
}
