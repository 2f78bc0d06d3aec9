use atomized_map::{AtomizedHashMap, InsertReplaceResult};

#[test]
fn example_scenario() {
    let mut map: AtomizedHashMap<&str, i32> = AtomizedHashMap::new();
    assert_eq!(map.insert("a", 1), Ok(0));
    assert_eq!(map.atomize_key(&"a"), Some(0));
    assert_eq!(map.insert("a", 2), Err(0));
    assert_eq!(map.get(0), Some(&1));
    let replaced = map.insert_replace("a", 2);
    assert!(matches!(replaced, InsertReplaceResult::Replaced(0)));
    assert_eq!(map.get(0), Some(&2));
    assert_eq!(map.remove(&"a"), Some(2));
    assert_eq!(map.get(0), None);
    assert_eq!(map.atomize_key(&"a"), None);
    assert_eq!(map.insert("b", 5), Ok(0));
    assert_eq!(map.len(), 1);
}

#[test]
fn insert_round_trip() {
    let mut map: AtomizedHashMap<String, u32> = AtomizedHashMap::new();
    let atom = map.insert(String::from("key"), 41).unwrap();
    assert_eq!(map.atomize_key(&String::from("key")), Some(atom));
    assert_eq!(map.get(atom), Some(&41));
    assert_eq!(map.len(), 1);
}

#[test]
fn conflict_preserves_state() {
    let mut map: AtomizedHashMap<u64, u64> = AtomizedHashMap::new();
    let atom = map.insert(7, 100).unwrap();
    assert_eq!(map.insert(7, 200), Err(atom));
    assert_eq!(map.get(atom), Some(&100));
    assert_eq!(map.len(), 1);
}

#[test]
fn replace_overwrites() {
    let mut map: AtomizedHashMap<u64, u64> = AtomizedHashMap::new();
    let first = map.insert_replace(7, 100);
    let atom = match first {
        InsertReplaceResult::Inserted(atom) => atom,
        InsertReplaceResult::Replaced(_) => panic!("fresh key reported as replaced"),
    };
    let second = map.insert_replace(7, 200);
    match second {
        InsertReplaceResult::Inserted(_) => panic!("present key reported as inserted"),
        InsertReplaceResult::Replaced(replaced_atom) => assert_eq!(replaced_atom, atom),
    }
    assert_eq!(map.get(atom), Some(&200));
    assert_eq!(map.len(), 1);
}

#[test]
fn removal_invalidates_key_and_atom() {
    let mut map: AtomizedHashMap<u64, i32> = AtomizedHashMap::new();
    let atom = map.insert(3, -5).unwrap();
    assert_eq!(map.remove(&3), Some(-5));
    assert_eq!(map.atomize_key(&3), None);
    assert_eq!(map.get(atom), None);
    assert_eq!(map.len(), 0);
    assert!(map.is_empty());
}

#[test]
fn slot_reuse_never_grows_past_n() {
    let n: usize = 100;
    let mut map: AtomizedHashMap<u64, u64> = AtomizedHashMap::new();
    for i in 0..n {
        let atom = map.insert(i as u64, i as u64).unwrap();
        assert!(atom < n);
    }
    for i in 0..n {
        assert_eq!(map.remove(&(i as u64)), Some(i as u64));
    }
    assert!(map.is_empty());
    let mut seen: Vec<bool> = vec![false; n];
    for i in 0..n {
        let key: u64 = 1000 + i as u64;
        let atom = map.insert(key, key).unwrap();
        assert!(atom < n, "freed slots must be reused before growing");
        assert!(!seen[atom], "an atom was assigned twice");
        seen[atom] = true;
    }
    assert_eq!(map.len(), n);
}

#[test]
fn absence_is_safe_not_failing() {
    let mut map: AtomizedHashMap<u64, u64> = AtomizedHashMap::new();
    assert_eq!(map.atomize_key(&42), None);
    assert_eq!(map.remove(&42), None);
    assert_eq!(map.get(0), None);
    assert_eq!(map.get(usize::MAX), None);
    assert!(map.get_mut(3).is_none());
    let atom = map.insert(1, 1).unwrap();
    map.remove(&1);
    assert_eq!(map.get(atom), None);
    assert!(map.get_mut(atom).is_none());
    assert_eq!(map.remove(&1), None);
}

#[test]
fn len_counts_inserted_minus_removed() {
    let mut map: AtomizedHashMap<u64, u64> = AtomizedHashMap::new();
    assert_eq!(map.len(), 0);
    assert!(map.is_empty());
    map.insert(1, 1).unwrap();
    map.insert(2, 2).unwrap();
    map.insert(3, 3).unwrap();
    assert_eq!(map.len(), 3);
    assert!(map.insert(2, 20).is_err());
    assert_eq!(map.len(), 3);
    map.remove(&2);
    assert_eq!(map.len(), 2);
    map.remove(&2);
    assert_eq!(map.len(), 2);
    map.insert_replace(1, 10);
    assert_eq!(map.len(), 2);
    assert!(!map.is_empty());
}

#[test]
fn get_mut_overwrites_in_place() {
    let mut map: AtomizedHashMap<&str, i32> = AtomizedHashMap::new();
    let atom = map.insert("k", 1).unwrap();
    if let Some(value) = map.get_mut(atom) {
        *value = 99;
    } else {
        panic!("occupied atom not found");
    }
    assert_eq!(map.get(atom), Some(&99));
    assert_eq!(map.atomize_key(&"k"), Some(atom));
    assert_eq!(map.len(), 1);
}

#[test]
fn with_hasher_behaves_like_new() {
    let hasher = std::collections::hash_map::RandomState::new();
    let mut map: AtomizedHashMap<u64, u64, _> = AtomizedHashMap::with_hasher(hasher);
    assert!(map.is_empty());
    let atom = map.insert(5, 50).unwrap();
    assert_eq!(map.atomize_key(&5), Some(atom));
    assert_eq!(map.get(atom), Some(&50));
}

#[test]
fn default_is_empty() {
    let map: AtomizedHashMap<u64, u64> = AtomizedHashMap::default();
    assert!(map.is_empty());
    assert_eq!(map.len(), 0);
}

#[test]
fn insert_replace_result_atom() {
    assert_eq!(InsertReplaceResult::Inserted(4).atom(), 4);
    assert_eq!(InsertReplaceResult::Replaced(9).atom(), 9);
    let mut map: AtomizedHashMap<u64, u64> = AtomizedHashMap::new();
    let first = map.insert_replace(1, 1).atom();
    let second = map.insert_replace(1, 2).atom();
    assert_eq!(first, second);
}
