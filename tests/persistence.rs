use exchange_host::persistence::PersistenceStore;

#[test]
fn get_returns_the_last_value_set() {
    let mut p = PersistenceStore::new();
    assert_eq!(p.get(b"/k"), None);
    p.set(b"/k", b"1");
    p.set(b"/k", b"2");
    assert_eq!(p.get(b"/k"), Some(b"2".to_vec()));
    p.remove(b"/k");
    assert_eq!(p.get(b"/k"), None);
}

#[test]
fn prefix_scan_returns_exactly_the_matching_entries() {
    let mut p = PersistenceStore::new();
    p.set(b"/a/1", b"v1");
    p.set(b"/a/2", b"v2");
    p.set(b"/b/1", b"v3");
    let mut got = p.get_subset(b"/a/");
    got.sort();
    assert_eq!(
        got,
        vec![(b"/a/1".to_vec(), b"v1".to_vec()), (b"/a/2".to_vec(), b"v2".to_vec())]
    );
}

#[test]
fn prefix_scan_has_each_key_once() {
    let mut p = PersistenceStore::new();
    p.set(b"/a/1", b"old");
    p.set(b"/a/1", b"new");
    assert_eq!(p.get_subset(b"/a"), vec![(b"/a/1".to_vec(), b"new".to_vec())]);
    assert!(p.get_subset(b"/zzz").is_empty());
    assert_eq!(p.get_subset(b"").len(), 1);
}
