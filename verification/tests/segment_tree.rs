use algokit::segment_tree::MaxCombiner;
use algokit::segment_tree::MinCombiner;
use algokit::segment_tree::RangeError;
use algokit::segment_tree::SegmentTree;

#[test]
fn segment_tree_test_new() {
    let st = SegmentTree::new(vec![1, 2, 3, 4, 5, 6], MaxCombiner);
    assert_eq!(
        st.levels(),
        &vec![vec![1, 2, 3, 4, 5, 6], vec![2, 4, 6], vec![4, 6], vec![6]]
    );
    let st = SegmentTree::new(vec![1, 2], MaxCombiner);
    assert_eq!(st.levels(), &vec![vec![1, 2], vec![2]]);

    let st = SegmentTree::new(vec![1, 2, 3, 4, 5, 6, 7, 8, 2], MaxCombiner);
    assert_eq!(
        st.levels(),
        &vec![
            vec![1, 2, 3, 4, 5, 6, 7, 8, 2],
            vec![2, 4, 6, 8, 2],
            vec![4, 8, 2],
            vec![8, 2],
            vec![8]
        ]
    );
}

#[test]
fn test_update() {
    let mut st = SegmentTree::new(vec![1, 2, 3, 4, 5, 6], MaxCombiner);
    st.update(0, 7);
    assert_eq!(
        st.levels(),
        &vec![vec![7, 2, 3, 4, 5, 6], vec![7, 4, 6], vec![7, 6], vec![7]]
    );
    st.update(0, 1);
    assert_eq!(
        st.levels(),
        &vec![vec![1, 2, 3, 4, 5, 6], vec![2, 4, 6], vec![4, 6], vec![6]]
    );
    st.update(3, 2);
    assert_eq!(
        st.levels(),
        &vec![vec![1, 2, 3, 2, 5, 6], vec![2, 3, 6], vec![3, 6], vec![6]]
    );
    let mut st = SegmentTree::new(vec![2, 1], MinCombiner);
    st.update(0, 1);
    assert_eq!(st.levels(), &vec![vec![1, 1], vec![1]]);
    st.update(1, 0);
    assert_eq!(st.levels(), &vec![vec![1, 0], vec![0]]);

    let mut st = SegmentTree::new(vec![1, 2, 3, 4, 5, 6, 7, 8, 2], MinCombiner);
    assert_eq!(
        st.levels(),
        &vec![
            vec![1, 2, 3, 4, 5, 6, 7, 8, 2],
            vec![1, 3, 5, 7, 2],
            vec![1, 5, 2],
            vec![1, 2],
            vec![1]
        ]
    );
    st.update(0, 2555);
    assert_eq!(
        st.levels(),
        &vec![
            vec![2555, 2, 3, 4, 5, 6, 7, 8, 2],
            vec![2, 3, 5, 7, 2],
            vec![2, 5, 2],
            vec![2, 2],
            vec![2]
        ]
    );
    st.update(8, 0);
    assert_eq!(
        st.levels(),
        &vec![
            vec![2555, 2, 3, 4, 5, 6, 7, 8, 0],
            vec![2, 3, 5, 7, 0],
            vec![2, 5, 0],
            vec![2, 0],
            vec![0]
        ]
    );
}

#[test]
fn test_query() {
    let st = SegmentTree::new(vec![1, 2, 3, 4, 5, 6], MaxCombiner);
    assert_eq!(st.query(0, 5), 6);
    assert_eq!(st.query(0, 0), 1);
    assert_eq!(st.query(0, 1), 2);
    assert_eq!(st.query(3, 5), 6);
    assert_eq!(st.query(0, 4), 5);
    let st = SegmentTree::new(vec![1, 2], MaxCombiner);
    assert_eq!(st.query(0, 0), 1);
    assert_eq!(st.query(1, 1), 2);

    let st = SegmentTree::new(vec![1, 2, 5, 1, 9, 6, 7, 8, 2], MaxCombiner);
    assert_eq!(st.query(0, 0), 1);
    assert_eq!(st.query(1, 1), 2);
    assert_eq!(st.query(0, 2), 5);
    assert_eq!(st.query(3, 5), 9);
    assert_eq!(st.query(4, 8), 9);
    assert_eq!(st.query(5, 8), 8);
}

#[test]
fn test_cell_range() {
    let st = SegmentTree::new(vec![1, 2, 3, 4, 5, 6, 7], MaxCombiner);
    assert_eq!(
        st.levels(),
        &vec![vec![1, 2, 3, 4, 5, 6, 7], vec![2, 4, 6, 7], vec![4, 7], vec![7]]
    );
    assert_eq!(st.cell_range(0, 5), (5, 5));
    assert_eq!(st.cell_range(0, 0), (0, 0));
    assert_eq!(st.cell_range(0, 1), (1, 1));
    assert_eq!(st.cell_range(1, 1), (2, 3));
    assert_eq!(st.cell_range(1, 3), (6, 6));
    assert_eq!(st.cell_range(2, 0), (0, 3));
    assert_eq!(st.cell_range(2, 1), (4, 6));
    assert_eq!(st.cell_range(3, 0), (0, 6));
}

// The full-range query right after construction equals the fold of the
// whole input.
#[test]
fn full_range_query_is_whole_fold() {
    let values = vec![4, 1, 7, 3, 9, 2, 8];
    let st = SegmentTree::new(values.clone(), MaxCombiner);
    let whole = values.iter().fold(i64::MIN, |acc, &v| if acc >= v { acc } else { v });
    assert_eq!(st.query(0, values.len() - 1), whole);
}

// Updating a position and then querying exactly that position returns the
// written value.
#[test]
fn update_then_point_query_returns_value() {
    let mut st = SegmentTree::new(vec![10, 20, 30, 40, 50], MinCombiner);
    for pos in 0..5 {
        st.update(pos, 7 + pos as i64);
        assert_eq!(st.query(pos, pos), 7 + pos as i64);
    }
}

// Updating twice with the same value leaves the whole observable state as
// after a single update.
#[test]
fn update_twice_same_value_is_idempotent() {
    let mut once = SegmentTree::new(vec![5, 3, 8, 1, 9, 2], MaxCombiner);
    once.update(2, 11);
    let mut twice = SegmentTree::new(vec![5, 3, 8, 1, 9, 2], MaxCombiner);
    twice.update(2, 11);
    twice.update(2, 11);
    assert_eq!(once.levels(), twice.levels());
    for l in 0..6 {
        for r in l..6 {
            assert_eq!(once.query(l, r), twice.query(l, r));
        }
    }
}

// Every sub-range query agrees with a naive linear fold over the raw
// input as an oracle.
#[test]
fn every_subrange_matches_naive_fold() {
    let values: Vec<i64> = vec![3, 9, 1, 4, 1, 5, 9, 2, 6];
    let st = SegmentTree::new(values.clone(), MinCombiner);
    for l in 0..values.len() {
        for r in l..values.len() {
            let naive = values[l..=r].iter().fold(i64::MAX, |acc, &v| if acc <= v { acc } else { v });
            assert_eq!(st.query(l, r), naive);
        }
    }
}

// A single-element input builds a single-level structure that answers its
// one query.
#[test]
fn single_element_structure() {
    let st = SegmentTree::new(vec![42], MaxCombiner);
    assert_eq!(st.levels(), &vec![vec![42]]);
    assert_eq!(st.query(0, 0), 42);
}

// An empty input builds no levels, and every operation on it is rejected
// rather than answered with a default.
#[test]
fn empty_structure_rejects_operations() {
    let mut st = SegmentTree::new(Vec::new(), MaxCombiner);
    assert_eq!(st.levels(), &Vec::<Vec<i64>>::new());
    assert_eq!(st.try_query(0, 0), Err(RangeError::EmptyStructure));
    assert_eq!(st.try_update(0, 1), Err(RangeError::EmptyStructure));
}

// Out-of-range positions and reversed bounds are rejected; valid calls
// through the checked variants behave like the plain ones.
#[test]
fn out_of_range_is_rejected() {
    let mut st = SegmentTree::new(vec![1, 2, 3], MaxCombiner);
    assert_eq!(st.try_update(3, 9), Err(RangeError::IndexOutOfRange));
    assert_eq!(st.try_query(1, 3), Err(RangeError::IndexOutOfRange));
    assert_eq!(st.try_query(2, 1), Err(RangeError::IndexOutOfRange));
    assert_eq!(st.try_update(1, 9), Ok(()));
    assert_eq!(st.try_query(0, 2), Ok(9));
}

// The concrete max scenario: queries before and after two updates.
#[test]
fn max_scenario_with_updates() {
    let mut st = SegmentTree::new(vec![1, 2, 3, 4, 5, 6], MaxCombiner);
    assert_eq!(st.query(0, 5), 6);
    assert_eq!(st.query(0, 4), 5);
    assert_eq!(st.query(3, 5), 6);
    st.update(0, 7);
    assert_eq!(st.query(0, 5), 7);
    st.update(0, 1);
    assert_eq!(st.query(0, 5), 6);
}

// The concrete min scenario over nine elements.
#[test]
fn min_scenario_with_updates() {
    let mut st = SegmentTree::new(vec![1, 2, 3, 4, 5, 6, 7, 8, 2], MinCombiner);
    assert_eq!(st.query(0, 8), 1);
    st.update(0, 2555);
    assert_eq!(st.query(0, 8), 2);
    st.update(8, 0);
    assert_eq!(st.query(0, 8), 0);
}
