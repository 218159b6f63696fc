use rust_state_machine::store::{KeyValueStore, MemStore};

#[test]
fn put_get_delete_roundtrip() {
    let mut store = MemStore::new();
    assert_eq!(store.get(&b"k1".to_vec()), None);
    store.put(&b"k1".to_vec(), &b"v1".to_vec()).unwrap();
    assert_eq!(store.get(&b"k1".to_vec()), Some(b"v1".to_vec()));
    store.put(&b"k1".to_vec(), &b"v2".to_vec()).unwrap();
    assert_eq!(store.get(&b"k1".to_vec()), Some(b"v2".to_vec()));
    store.delete(&b"k1".to_vec()).unwrap();
    assert_eq!(store.get(&b"k1".to_vec()), None);
}

#[test]
fn scan_prefix_filters_and_sorts_ascending() {
    let mut store = MemStore::new();
    // Inserted deliberately out of key order.
    store.put(&b"p:c".to_vec(), &vec![3]).unwrap();
    store.put(&b"p:a".to_vec(), &vec![1]).unwrap();
    store.put(&b"q:z".to_vec(), &vec![9]).unwrap();
    store.put(&b"p:b".to_vec(), &vec![2]).unwrap();
    store.put(&b"p".to_vec(), &vec![0]).unwrap();

    let hits = store.scan_prefix(&b"p:".to_vec());
    let keys: Vec<Vec<u8>> = hits.iter().map(|(k, _)| k.clone()).collect();
    assert_eq!(keys, vec![b"p:a".to_vec(), b"p:b".to_vec(), b"p:c".to_vec()]);
    let vals: Vec<Vec<u8>> = hits.iter().map(|(_, v)| v.clone()).collect();
    assert_eq!(vals, vec![vec![1], vec![2], vec![3]]);

    // A shorter key that is a proper prefix of the scan prefix is excluded,
    // and the whole store scans in ascending order under the empty prefix.
    let all = store.scan_prefix(&Vec::new());
    let all_keys: Vec<Vec<u8>> = all.iter().map(|(k, _)| k.clone()).collect();
    assert_eq!(
        all_keys,
        vec![b"p".to_vec(), b"p:a".to_vec(), b"p:b".to_vec(), b"p:c".to_vec(), b"q:z".to_vec()]
    );
}
