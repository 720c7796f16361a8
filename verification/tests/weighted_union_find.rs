use algokit::weighted_union_find::WeightedUnionFind;

#[test]
fn weighted_union_find_test_new() {
    let uf = WeightedUnionFind::new(5);
    assert_eq!(uf.get_root_count(), 5);
}

#[test]
fn test_merge() {
    let mut uf = WeightedUnionFind::new(5);
    assert!(uf.merge(0, 1, 2));
    assert!(uf.merge(2, 3, 3));
    assert!(uf.merge(1, 3, 5));
    assert!(!uf.merge(1, 3, 3));
    assert_eq!(uf.get_root_count(), 2);
}

#[test]
fn test_same() {
    let mut uf = WeightedUnionFind::new(5);
    uf.merge(0, 1, 2);
    uf.merge(2, 3, 3);
    assert!(uf.same(0, 1));
    assert!(!uf.same(1, 4));
}

#[test]
fn test_get_root_size_weight() {
    let mut uf = WeightedUnionFind::new(5);
    uf.merge(0, 1, 2);
    uf.merge(2, 3, 3);
    let (root, size, weight) = uf.get_root_size_weight(3);
    assert_eq!(root, 2);
    assert_eq!(size, 2);
    assert_eq!(weight, 3);
}

// Weight differences recorded by merges are preserved through further
// merges: a merge that agrees with them succeeds, one that contradicts
// them is rejected.
#[test]
fn recorded_weights_stay_consistent() {
    let mut uf = WeightedUnionFind::new(4);
    assert!(uf.merge(0, 1, 10));
    assert!(uf.merge(1, 2, -4));
    // weight of 2 relative to 0 is 10 - 4 = 6
    assert!(uf.merge(0, 2, 6));
    assert!(!uf.merge(0, 2, 7));
    let (_, _, w0) = uf.get_root_size_weight(0);
    let (_, _, w2) = uf.get_root_size_weight(2);
    assert_eq!(w2 - w0, 6);
}
