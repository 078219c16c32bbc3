use near_collections::map::UnorderedMap;
use near_collections::store::KeyStore;
use std::collections::HashMap;

fn new_map(id: &[u8]) -> UnorderedMap<u64, u64> {
    UnorderedMap::new(id.to_vec())
}

/// A deterministic stream of pseudo-random numbers.
struct Lcg(u64);

impl Lcg {
    fn next(&mut self) -> u64 {
        self.0 = self.0.wrapping_mul(6364136223846793005).wrapping_add(1442695040888963407);
        self.0 >> 33
    }
}

#[test]
fn test_insert() {
    let mut store = KeyStore::new();
    let mut map = new_map(b"m");
    let mut rng = Lcg(0);
    let mut reference = HashMap::new();
    for _ in 0..500 {
        let key = rng.next() % 100;
        let value = rng.next();
        let prev = map.insert(&mut store, &key, &value).unwrap();
        assert_eq!(prev, reference.insert(key, value));
    }
    for (key, value) in reference.iter() {
        assert_eq!(map.get(&store, key).unwrap(), Some(*value));
    }
    assert_eq!(map.len(&store), reference.len() as u64);
}

#[test]
fn test_insert_remove() {
    let mut store = KeyStore::new();
    let mut map = new_map(b"m");
    let mut rng = Lcg(1);
    let mut keys = vec![];
    let mut reference = HashMap::new();
    for _ in 0..100 {
        let key = rng.next();
        let value = rng.next();
        keys.push(key);
        reference.insert(key, value);
        map.insert(&mut store, &key, &value).unwrap();
    }
    keys.reverse();
    for key in keys {
        let expected = reference.remove(&key);
        assert_eq!(map.remove(&mut store, &key).unwrap(), expected);
        for (k, v) in reference.iter() {
            assert_eq!(map.get(&store, k).unwrap(), Some(*v));
        }
    }
    assert_eq!(map.len(&store), 0);
}

#[test]
fn test_remove_last_reinsert() {
    let mut store = KeyStore::new();
    let mut map = new_map(b"m");
    let key1 = 1u64;
    let value1 = 2u64;
    map.insert(&mut store, &key1, &value1).unwrap();
    let key2 = 3u64;
    let value2 = 4u64;
    map.insert(&mut store, &key2, &value2).unwrap();

    let actual_value2 = map.remove(&mut store, &key2).unwrap().unwrap();
    assert_eq!(actual_value2, value2);

    let actual_insert_value2 = map.insert(&mut store, &key2, &value2).unwrap();
    assert_eq!(actual_insert_value2, None);
    assert_eq!(map.get(&store, &key2).unwrap(), Some(value2));
    assert_eq!(map.get(&store, &key1).unwrap(), Some(value1));
}

#[test]
fn test_insert_override_remove() {
    let mut store = KeyStore::new();
    let mut map = new_map(b"m");
    let mut rng = Lcg(2);
    let mut keys = vec![];
    let mut reference = HashMap::new();
    for _ in 0..100 {
        let key = rng.next();
        let value = rng.next();
        keys.push(key);
        reference.insert(key, value);
        map.insert(&mut store, &key, &value).unwrap();
    }
    keys.reverse();
    for key in keys.iter() {
        let value = rng.next();
        let expected = reference.insert(*key, value);
        assert_eq!(map.insert(&mut store, key, &value).unwrap(), expected);
    }
    for key in keys.iter().step_by(2) {
        let expected = reference.remove(key);
        assert_eq!(map.remove(&mut store, key).unwrap(), expected);
    }
    for (k, v) in reference.iter() {
        assert_eq!(map.get(&store, k).unwrap(), Some(*v));
    }
    assert_eq!(map.len(&store), reference.len() as u64);
}

#[test]
fn test_get_non_existent() {
    let mut store = KeyStore::new();
    let mut map = new_map(b"m");
    let mut rng = Lcg(3);
    let mut reference = HashMap::new();
    for _ in 0..500 {
        let key = rng.next() % 20000;
        let value = rng.next();
        reference.insert(key, value);
        map.insert(&mut store, &key, &value).unwrap();
    }
    for _ in 0..500 {
        let key = rng.next() % 20000;
        assert_eq!(map.get(&store, &key).unwrap(), reference.get(&key).cloned());
    }
}

#[test]
fn test_to_vec() {
    let mut store = KeyStore::new();
    let mut map = new_map(b"m");
    let mut rng = Lcg(4);
    let mut reference = HashMap::new();
    for _ in 0..200 {
        let key = rng.next();
        let value = rng.next();
        reference.insert(key, value);
        map.insert(&mut store, &key, &value).unwrap();
    }
    let actual: HashMap<u64, u64> = map.to_vec(&store).into_iter().collect();
    assert_eq!(actual, reference);
}

#[test]
fn test_clear() {
    let mut store = KeyStore::new();
    let mut map = new_map(b"m");
    let mut rng = Lcg(5);
    for _ in 0..10 {
        for _ in 0..=(rng.next() % 20 + 1) {
            let key = rng.next();
            let value = rng.next();
            map.insert(&mut store, &key, &value).unwrap();
        }
        assert!(!map.to_vec(&store).is_empty());
        map.clear(&mut store);
        assert!(map.to_vec(&store).is_empty());
        assert_eq!(map.len(&store), 0);
    }
}

#[test]
fn test_keys_values() {
    let mut store = KeyStore::new();
    let mut map = new_map(b"m");
    let mut rng = Lcg(6);
    let mut reference = HashMap::new();
    for _ in 0..200 {
        let key = rng.next();
        let value = rng.next();
        reference.insert(key, value);
        map.insert(&mut store, &key, &value).unwrap();
    }
    let keys = map.keys(&store);
    let values = map.values(&store);
    let actual: HashMap<u64, u64> = keys.into_iter().zip(values.into_iter()).collect();
    assert_eq!(actual, reference);
}

#[test]
fn test_iter() {
    let mut store = KeyStore::new();
    let mut map = new_map(b"m");
    let mut rng = Lcg(7);
    let mut reference = HashMap::new();
    for _ in 0..200 {
        let key = rng.next();
        let value = rng.next();
        reference.insert(key, value);
        map.insert(&mut store, &key, &value).unwrap();
    }
    let actual: HashMap<u64, u64> = map.iter(&store).into_iter().collect();
    assert_eq!(actual, reference);
}

#[test]
fn test_extend() {
    let mut store = KeyStore::new();
    let mut map = new_map(b"m");
    let mut rng = Lcg(8);
    let mut reference = HashMap::new();
    for _ in 0..100 {
        let key = rng.next();
        let value = rng.next();
        reference.insert(key, value);
        map.insert(&mut store, &key, &value).unwrap();
    }
    for _ in 0..10 {
        let mut tmp = vec![];
        for _ in 0..=(rng.next() % 20 + 1) {
            let key = rng.next();
            let value = rng.next();
            tmp.push((key, value));
        }
        reference.extend(tmp.iter().cloned());
        map.extend(&mut store, tmp).unwrap();
    }
    let actual: HashMap<u64, u64> = map.iter(&store).into_iter().collect();
    assert_eq!(actual, reference);
}

#[test]
fn lengths_stay_equal_through_inserts_and_removes() {
    let mut store = KeyStore::new();
    let mut map = new_map(b"m");
    for k in 0..20u64 {
        map.insert(&mut store, &k, &(k * 10)).unwrap();
        assert_eq!(map.keys_as_vector().len(), map.values_as_vector().len());
    }
    for k in (0..20u64).step_by(3) {
        map.remove(&mut store, &k).unwrap();
        assert_eq!(map.keys_as_vector().len(), map.values_as_vector().len());
    }
    assert_eq!(map.len(&store), 13);
}

#[test]
fn overwrite_returns_previous_and_keeps_length() {
    let mut store = KeyStore::new();
    let mut map = new_map(b"m");
    assert_eq!(map.insert(&mut store, &7, &1).unwrap(), None);
    assert_eq!(map.insert(&mut store, &7, &2).unwrap(), Some(1));
    assert_eq!(map.get(&store, &7).unwrap(), Some(2));
    assert_eq!(map.len(&store), 1);
}

#[test]
fn removing_only_entry_leaves_no_index() {
    let mut store = KeyStore::new();
    let mut map = new_map(b"m");
    map.insert(&mut store, &5, &50).unwrap();
    assert_eq!(map.remove(&mut store, &5).unwrap(), Some(50));
    assert_eq!(map.len(&store), 0);
    assert_eq!(map.get(&store, &5).unwrap(), None);
    let mut index_key = b"mi".to_vec();
    index_key.extend_from_slice(&5u64.to_le_bytes());
    assert_eq!(store.read(&index_key), None);
}

#[test]
fn remove_absent_key_changes_nothing() {
    let mut store = KeyStore::new();
    let mut map = new_map(b"m");
    map.insert(&mut store, &1, &10).unwrap();
    assert_eq!(map.remove(&mut store, &2).unwrap(), None);
    assert_eq!(map.to_vec(&store), vec![(1, 10)]);
}

#[test]
fn swap_remove_moves_last_entry_forward() {
    let mut store = KeyStore::new();
    let mut map = new_map(b"m");
    map.insert(&mut store, &1, &100).unwrap();
    map.insert(&mut store, &2, &200).unwrap();
    map.insert(&mut store, &3, &300).unwrap();
    map.remove(&mut store, &1).unwrap();
    assert_eq!(map.keys(&store), vec![3, 2]);
    assert_eq!(map.values(&store), vec![300, 200]);
}

#[test]
fn clear_on_empty_map_is_noop_and_clear_removes_index() {
    let mut store = KeyStore::new();
    let mut other = new_map(b"o");
    other.insert(&mut store, &9, &90).unwrap();
    let mut map = new_map(b"m");
    map.clear(&mut store);
    assert_eq!(map.len(&store), 0);
    for k in 0..5u64 {
        map.insert(&mut store, &k, &k).unwrap();
    }
    map.clear(&mut store);
    assert_eq!(map.len(&store), 0);
    for k in 0..5u64 {
        assert_eq!(map.get(&store, &k).unwrap(), None);
    }
    assert_eq!(other.get(&store, &9).unwrap(), Some(90));
}

#[test]
fn extend_with_repeated_key_keeps_last_value() {
    let mut store = KeyStore::new();
    let mut map = new_map(b"m");
    map.insert(&mut store, &1, &1).unwrap();
    map.extend(&mut store, vec![(4, 40), (4, 41)]).unwrap();
    assert_eq!(map.get(&store, &4).unwrap(), Some(41));
    assert_eq!(map.len(&store), 2);
}

#[test]
fn raw_scenario_to_vec_before_and_after_removal() {
    let mut store = KeyStore::new();
    let mut map: UnorderedMap<u64, u64> = UnorderedMap::new(b"s".to_vec());
    assert_eq!(map.insert_raw(&mut store, b"a", &[1]), None);
    assert_eq!(map.insert_raw(&mut store, b"b", &[2]), None);
    assert_eq!(map.insert_raw(&mut store, b"c", &[3]), None);
    let keys = map.keys_as_vector().iter_raw(&store);
    let values = map.values_as_vector().iter_raw(&store);
    assert_eq!(keys, vec![b"a".to_vec(), b"b".to_vec(), b"c".to_vec()]);
    assert_eq!(values, vec![vec![1u8], vec![2u8], vec![3u8]]);
    assert_eq!(map.remove_raw(&mut store, b"a"), Some(vec![1u8]));
    let keys = map.keys_as_vector().iter_raw(&store);
    let values = map.values_as_vector().iter_raw(&store);
    assert_eq!(keys, vec![b"c".to_vec(), b"b".to_vec()]);
    assert_eq!(values, vec![vec![3u8], vec![2u8]]);
    assert_eq!(map.get_raw(&store, b"c"), Some(vec![3u8]));
    assert_eq!(map.get_raw(&store, b"a"), None);
}

#[test]
fn store_layout_follows_namespaces() {
    let mut store = KeyStore::new();
    let mut map = new_map(b"id");
    map.insert(&mut store, &0x0102, &0x0304).unwrap();
    // Index entry: id ++ 'i' ++ encoded key, holding position 0.
    let mut index_key = b"idi".to_vec();
    index_key.extend_from_slice(&[2, 1, 0, 0, 0, 0, 0, 0]);
    assert_eq!(store.read(&index_key), Some(vec![0u8; 8]));
    // Keys slot: id ++ 'k' ++ position, holding the encoded key.
    let mut key_slot = b"idk".to_vec();
    key_slot.extend_from_slice(&[0u8; 8]);
    assert_eq!(store.read(&key_slot), Some(vec![2, 1, 0, 0, 0, 0, 0, 0]));
    // Values slot: id ++ 'v' ++ position, holding the encoded value.
    let mut value_slot = b"idv".to_vec();
    value_slot.extend_from_slice(&[0u8; 8]);
    assert_eq!(store.read(&value_slot), Some(vec![4, 3, 0, 0, 0, 0, 0, 0]));
}
