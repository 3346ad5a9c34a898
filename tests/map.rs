use lww_crdt::{Entry, LWWMap, CRDT};

#[test]
fn insert_update_remove_scenario() {
    let mut m: LWWMap<&str, i32> = LWWMap::new();
    assert_eq!(m.insert("a", 1), None);
    assert_eq!(m.insert("a", 2), Some(1));
    assert_eq!(m.remove(&"a"), Some(2));
    assert_eq!(m.get(&"a"), None);
    assert!(!m.contains_key(&"a"));
    let reg = m.register(&"a").unwrap();
    assert!(matches!(reg.value(), Entry::Tombstoned));
    assert_eq!(reg.seq(), 3);
}

#[test]
fn merge_brings_in_unknown_keys() {
    let mut m1: LWWMap<&str, i32> = LWWMap::new();
    m1.insert("x", 5);
    let mut m2: LWWMap<&str, i32> = LWWMap::new();
    m2.insert("y", 7);
    m1.merge(m2.take());
    assert_eq!(m1.get(&"x"), Some(&5));
    assert_eq!(m1.get(&"y"), Some(&7));
}

#[test]
fn remove_unknown_key_leaves_no_register() {
    let mut m: LWWMap<&str, i32> = LWWMap::new();
    assert_eq!(m.remove(&"never-seen"), None);
    assert!(m.register(&"never-seen").is_none());
    assert!(!m.contains_key(&"never-seen"));
}

#[test]
fn empty_map_reads_absent() {
    let m: LWWMap<u64, i32> = LWWMap::new();
    assert_eq!(m.get(&3), None);
    assert!(!m.contains_key(&3));
}

#[test]
fn remove_twice_returns_none_second_time() {
    let mut m: LWWMap<u64, i32> = LWWMap::new();
    m.insert(1, 10);
    assert_eq!(m.remove(&1), Some(10));
    assert_eq!(m.remove(&1), None);
    assert_eq!(m.register(&1).unwrap().seq(), 3);
}

#[test]
fn insert_after_remove_returns_none() {
    let mut m: LWWMap<u64, i32> = LWWMap::new();
    m.insert(1, 10);
    m.remove(&1);
    assert_eq!(m.insert(1, 11), None);
    assert_eq!(m.get(&1), Some(&11));
    assert!(m.contains_key(&1));
}

#[test]
fn merge_newer_tombstone_deletes() {
    let mut local: LWWMap<u64, i32> = LWWMap::new();
    local.insert(1, 10);
    let mut remote: LWWMap<u64, i32> = LWWMap::new();
    remote.insert(1, 20);
    remote.remove(&1);
    local.merge(remote.take());
    assert_eq!(local.get(&1), None);
    assert_eq!(local.register(&1).unwrap().seq(), 2);
}

#[test]
fn merge_older_entry_is_ignored() {
    let mut local: LWWMap<u64, i32> = LWWMap::new();
    local.insert(1, 10);
    local.insert(1, 11);
    let mut remote: LWWMap<u64, i32> = LWWMap::new();
    remote.insert(1, 99);
    local.merge(remote.take());
    assert_eq!(local.get(&1), Some(&11));
}

#[test]
fn merge_keeps_incoming_seq_for_new_key() {
    let mut local: LWWMap<u64, i32> = LWWMap::new();
    let mut remote: LWWMap<u64, i32> = LWWMap::new();
    remote.insert(4, 1);
    remote.insert(4, 2);
    remote.insert(4, 3);
    local.merge(remote.take());
    assert_eq!(local.register(&4).unwrap().seq(), 3);
    assert_eq!(local.get(&4), Some(&3));
}

#[test]
fn merge_same_state_twice_is_same_as_once() {
    let build = || {
        let mut r: LWWMap<u64, i32> = LWWMap::new();
        r.insert(1, 5);
        r.insert(1, 6);
        r.insert(2, 7);
        r.remove(&2);
        r
    };
    let mut once: LWWMap<u64, i32> = LWWMap::new();
    once.insert(1, 1);
    once.merge(build().take());
    let mut twice: LWWMap<u64, i32> = LWWMap::new();
    twice.insert(1, 1);
    twice.merge(build().take());
    twice.merge(build().take());
    for k in [1u64, 2, 3] {
        assert_eq!(once.get(&k), twice.get(&k));
        assert_eq!(
            once.register(&k).map(|r| r.seq()),
            twice.register(&k).map(|r| r.seq())
        );
    }
    assert_eq!(once.get(&1), Some(&6));
}

#[test]
fn from_iter_last_duplicate_wins() {
    let m = LWWMap::from_iter(vec![(1u64, "a"), (2, "b"), (1, "c")]);
    assert_eq!(m.get(&1), Some(&"c"));
    assert_eq!(m.get(&2), Some(&"b"));
    assert_eq!(m.register(&1).unwrap().seq(), 1);
    assert!(!m.contains_key(&3));
}

#[test]
fn from_iter_empty() {
    let m: LWWMap<u64, i32> = LWWMap::from_iter(Vec::new());
    assert!(m.register(&0).is_none());
}
