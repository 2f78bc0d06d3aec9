use atomized_map::slot_store::SlotStore;

#[test]
fn store_allocate_and_get() {
    let mut store: SlotStore<String> = SlotStore::new();
    assert!(store.is_empty());
    let a = store.allocate(String::from("x"));
    let b = store.allocate(String::from("y"));
    assert_ne!(a, b);
    assert_eq!(store.get(a), Some(&String::from("x")));
    assert_eq!(store.get(b), Some(&String::from("y")));
    assert_eq!(store.len(), 2);
}

#[test]
fn store_release_frees_and_reuses() {
    let mut store: SlotStore<u32> = SlotStore::new();
    let a = store.allocate(1);
    let b = store.allocate(2);
    assert_eq!(store.release(a), 1);
    assert_eq!(store.get(a), None);
    assert_eq!(store.len(), 1);
    let c = store.allocate(3);
    assert_eq!(c, a, "the single freed slot must be reused");
    assert_eq!(store.get(c), Some(&3));
    assert_eq!(store.get(b), Some(&2));
    assert_eq!(store.len(), 2);
}

#[test]
fn store_overwrite_in_place() {
    let mut store: SlotStore<u32> = SlotStore::new();
    let a = store.allocate(1);
    store.overwrite(a, 10);
    assert_eq!(store.get(a), Some(&10));
    assert_eq!(store.len(), 1);
}

#[test]
fn store_get_mut_edits_value() {
    let mut store: SlotStore<u32> = SlotStore::new();
    let a = store.allocate(1);
    if let Some(value) = store.get_mut(a) {
        *value = 7;
    } else {
        panic!("occupied slot not found");
    }
    assert_eq!(store.get(a), Some(&7));
    assert!(store.get_mut(a + 1).is_none());
}

#[test]
fn store_absent_atoms_are_safe() {
    let mut store: SlotStore<u32> = SlotStore::new();
    assert_eq!(store.get(0), None);
    assert_eq!(store.get(usize::MAX), None);
    assert!(store.get_mut(5).is_none());
    let a = store.allocate(1);
    store.release(a);
    assert_eq!(store.get(a), None);
}

#[test]
fn store_reuse_keeps_atoms_dense() {
    let n: usize = 50;
    let mut store: SlotStore<usize> = SlotStore::new();
    let mut atoms: Vec<usize> = Vec::new();
    for i in 0..n {
        let atom = store.allocate(i);
        assert!(atom < n);
        atoms.push(atom);
    }
    for &atom in &atoms {
        store.release(atom);
    }
    assert!(store.is_empty());
    let mut seen: Vec<bool> = vec![false; n];
    for i in 0..n {
        let atom = store.allocate(i);
        assert!(atom < n, "freed slots must be reused before growing");
        assert!(!seen[atom]);
        seen[atom] = true;
    }
    assert_eq!(store.len(), n);
}
