use algokit::union_find::UnionFind;

#[test]
fn test_new_union_find() {
    let uf = UnionFind::new(5);
    assert_eq!(uf.get_root_count(), 5);
}

#[test]
fn test_merge_and_same() {
    let mut uf = UnionFind::new(5);
    uf.merge(0, 1);
    uf.merge(1, 2);
    uf.merge(3, 4);
    assert!(uf.same(0, 2));
    assert!(!uf.same(0, 3));
}

#[test]
fn test_get_root_and_size() {
    let mut uf = UnionFind::new(5);
    uf.merge(0, 1);
    uf.merge(1, 2);
    uf.merge(3, 4);
    assert!(matches!(uf.get_root_and_size(0), (0, 3) | (1, 3) | (2, 3)));
    assert!(matches!(uf.get_root_and_size(3), (3, 2) | (4, 2)));
}

// Each merge of two distinct groups lowers the group count by exactly
// one; a repeated merge changes nothing.
#[test]
fn root_count_tracks_merges() {
    let mut uf = UnionFind::new(6);
    assert_eq!(uf.get_root_count(), 6);
    uf.merge(0, 1);
    assert_eq!(uf.get_root_count(), 5);
    uf.merge(0, 1);
    assert_eq!(uf.get_root_count(), 5);
    uf.merge(2, 3);
    uf.merge(0, 3);
    assert_eq!(uf.get_root_count(), 3);
    assert!(uf.same(1, 2));
    assert!(!uf.same(4, 5));
}
