use near_collections::codec::StorageCodec;
use near_collections::store::KeyStore;
use near_collections::vector::Vector;

#[test]
fn vector_push_get_replace_swap_remove() {
    let mut store = KeyStore::new();
    let mut v: Vector<u64> = Vector::new(b"v".to_vec());
    v.push_raw(&mut store, b"x");
    v.push_raw(&mut store, b"y");
    v.push_raw(&mut store, b"z");
    assert_eq!(v.len(), 3);
    assert_eq!(v.get_raw(&store, 1), Some(b"y".to_vec()));
    assert_eq!(v.get_raw(&store, 3), None);
    assert_eq!(v.replace_raw(&mut store, 1, b"w"), b"y".to_vec());
    assert_eq!(v.swap_remove_raw(&mut store, 0), b"x".to_vec());
    assert_eq!(v.iter_raw(&store), vec![b"z".to_vec(), b"w".to_vec()]);
    assert_eq!(v.swap_remove_raw(&mut store, 1), b"w".to_vec());
    assert_eq!(v.iter_raw(&store), vec![b"z".to_vec()]);
    v.clear(&mut store);
    assert_eq!(v.len(), 0);
    let mut slot = b"v".to_vec();
    slot.extend_from_slice(&0u64.to_le_bytes());
    assert_eq!(store.read(&slot), None);
}

#[test]
fn store_read_write_remove() {
    let mut store = KeyStore::new();
    assert_eq!(store.read(b"k"), None);
    store.write(b"k", b"v1");
    store.write(b"k", b"v2");
    assert_eq!(store.read(b"k"), Some(b"v2".to_vec()));
    assert!(store.remove(b"k"));
    assert!(!store.remove(b"k"));
    assert_eq!(store.read(b"k"), None);
}

#[test]
fn u64_codec_is_little_endian() {
    assert_eq!(0x0102030405060708u64.encode(), Some(vec![8, 7, 6, 5, 4, 3, 2, 1]));
    assert_eq!(u64::decode(&[8, 7, 6, 5, 4, 3, 2, 1]), Some(0x0102030405060708));
    assert_eq!(u64::decode(&[1, 2, 3]), None);
    assert_eq!(u64::decode(&[0; 9]), None);
}
