use segment_tree::ops::add_u64;
use segment_tree::SegmentTree;

fn naive_sum(data: &[i64], l: usize, r: usize) -> i64 {
    data[l..=r].iter().sum()
}

#[test]
fn fresh_tree_answers_identity_everywhere() {
    let tree = SegmentTree::new(7, 0_i64, |a, b| *a + *b);
    for l in 0..7usize {
        for r in l..7usize {
            assert_eq!(tree.query(l, r), 0);
        }
    }
    let tree = SegmentTree::new(5, i64::MAX, |a, b| (*a).min(*b));
    assert_eq!(tree.query(0, 4), i64::MAX);
}

#[test]
fn from_data_point_queries_give_back_the_data() {
    let data = vec![4_i64, -2, 9, 0, 13, 7, -5];
    let tree = SegmentTree::from_data(&data, 0, |a, b| *a + *b);
    for (i, v) in data.iter().enumerate() {
        assert_eq!(tree.query(i, i), *v);
    }
}

#[test]
fn every_range_matches_a_plain_fold() {
    let data = vec![5_i64, -3, 8, 1, 0, 12, -7, 4, 9, 2, -1];
    let tree = SegmentTree::from_data(&data, 0, |a, b| *a + *b);
    for l in 0..data.len() {
        for r in l..data.len() {
            assert_eq!(tree.query(l, r), naive_sum(&data, l, r));
        }
    }
}

#[test]
fn update_reads_back_and_leaves_other_slots_alone() {
    let mut data = vec![1_i64, 2, 3, 4, 5, 6];
    let mut tree = SegmentTree::from_data(&data, 0, |a, b| *a + *b);
    tree.update(3, 40);
    data[3] = 40;
    assert_eq!(tree.query(3, 3), 40);
    assert_eq!(tree.query(0, 2), 6);
    assert_eq!(tree.query(4, 5), 11);
    for l in 0..data.len() {
        for r in l..data.len() {
            assert_eq!(tree.query(l, r), naive_sum(&data, l, r));
        }
    }
}

#[test]
fn range_splits_at_every_point() {
    let data = vec![7_i64, 3, 9, 1, 4, 6, 2];
    let tree = SegmentTree::from_data(&data, i64::MIN, |a, b| (*a).max(*b));
    for l in 0..data.len() {
        for r in (l + 1)..data.len() {
            for m in l..r {
                let whole = tree.query(l, r);
                let parts = tree.query(l, m).max(tree.query(m + 1, r));
                assert_eq!(whole, parts);
            }
        }
    }
}

#[test]
fn non_commutative_operation_keeps_order() {
    // Concatenation of digits: a * 10 + b on one-digit blocks, tracked as (value, 10^len).
    let data = vec![(1_u64, 10_u64), (2, 10), (3, 10), (4, 10), (5, 10)];
    let tree = SegmentTree::from_data(&data, (0_u64, 1_u64), |a, b| (a.0 * b.1 + b.0, a.1 * b.1));
    assert_eq!(tree.query(0, 4).0, 12345);
    assert_eq!(tree.query(1, 3).0, 234);
    assert_eq!(tree.query(3, 4).0, 45);
}

#[test]
fn len_and_is_empty() {
    let tree = SegmentTree::new(9, 0_i64, |a, b| *a + *b);
    assert_eq!(tree.len(), 9);
    assert!(!tree.is_empty());
    let data = vec![1_u64];
    let tree = SegmentTree::from_data(&data, 0, |a, b| *a + *b);
    assert_eq!(tree.len(), 1);
    assert!(!tree.is_empty());
}

#[test]
fn counting_tree_with_add_u64() {
    assert_eq!(add_u64(&2, &3), 5);
    assert_eq!(add_u64(&0, &u64::MAX), u64::MAX);
    let mut tree = SegmentTree::new(4, 0_u64, add_u64);
    tree.update(0, 3);
    tree.update(3, 4);
    assert_eq!(tree.query(0, 3), 7);
    assert_eq!(tree.query(1, 2), 0);
}
