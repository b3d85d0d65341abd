use algo_kit::segment_tree::{SegTree, SegTreeError};

#[test]
fn concrete_update_and_queries() {
    let mut t = SegTree::new(&vec![1, 3, 5, 7, 9, 11]);
    assert_eq!(t.len(), 6);
    assert_eq!(t.query(1, 3), Ok(15));
    assert_eq!(t.update(1, 10), Ok(()));
    assert_eq!(t.query(1, 3), Ok(22));
    assert_eq!(t.query(0, 5), Ok(43));
}

#[test]
fn single_element_sequence() {
    let mut t = SegTree::new(&vec![42]);
    assert_eq!(t.query(0, 0), Ok(42));
    assert_eq!(t.update(0, 7), Ok(()));
    assert_eq!(t.query(0, 0), Ok(7));
}

#[test]
fn zero_length_sequence_rejects_positions() {
    let mut t = SegTree::new(&vec![]);
    assert_eq!(t.len(), 0);
    assert_eq!(t.update(0, 5), Err(SegTreeError::IndexOutOfRange));
    assert_eq!(t.query(0, 0), Err(SegTreeError::IndexOutOfRange));
    assert_eq!(t.query(0, 3), Err(SegTreeError::IndexOutOfRange));
}

#[test]
fn full_query_is_sum_of_sequence() {
    let a: Vec<i64> = vec![4, -2, 17, 0, -9, 3, 8];
    let t = SegTree::new(&a);
    assert_eq!(t.query(0, 6), Ok(21));
}

#[test]
fn update_shows_at_its_position() {
    let mut t = SegTree::new(&vec![5, 6, 7, 8, 9]);
    assert_eq!(t.update(3, -100), Ok(()));
    assert_eq!(t.query(3, 3), Ok(-100));
}

#[test]
fn update_leaves_other_positions() {
    let a: Vec<i64> = vec![5, 6, 7, 8, 9];
    let mut t = SegTree::new(&a);
    assert_eq!(t.update(2, 70), Ok(()));
    for j in 0..5usize {
        if j != 2 {
            assert_eq!(t.query(j, j), Ok(a[j] as i128));
        }
    }
}

#[test]
fn query_splits_at_every_point() {
    let t = SegTree::new(&vec![3, 1, 4, 1, 5, 9, 2, 6, 5, 3]);
    for l in 0..10usize {
        for r in (l + 1)..10usize {
            let whole = t.query(l, r).unwrap();
            for m in l..r {
                assert_eq!(whole, t.query(l, m).unwrap() + t.query(m + 1, r).unwrap());
            }
        }
    }
}

#[test]
fn empty_range_is_zero() {
    let t = SegTree::new(&vec![1, 2, 3]);
    assert_eq!(t.query(2, 1), Ok(0));
    assert_eq!(t.query(3, 0), Ok(0));
    assert_eq!(t.query(usize::MAX, 0), Ok(0));
}

#[test]
fn position_at_length_is_out_of_range() {
    let mut t = SegTree::new(&vec![1, 2, 3]);
    assert_eq!(t.update(3, 1), Err(SegTreeError::IndexOutOfRange));
    assert_eq!(t.query(3, 3), Err(SegTreeError::IndexOutOfRange));
    assert_eq!(t.query(1, 3), Err(SegTreeError::IndexOutOfRange));
    assert_eq!(t.query(0, 2), Ok(6));
}

#[test]
fn sums_wider_than_i64() {
    let a: Vec<i64> = vec![i64::MAX, i64::MAX, i64::MAX, i64::MIN];
    let mut t = SegTree::new(&a);
    assert_eq!(t.query(0, 2), Ok(3 * (i64::MAX as i128)));
    assert_eq!(t.query(0, 3), Ok(2 * (i64::MAX as i128) - 1));
    assert_eq!(t.update(3, i64::MAX), Ok(()));
    assert_eq!(t.query(0, 3), Ok(4 * (i64::MAX as i128)));
}

#[test]
fn every_range_matches_direct_sum() {
    let mut a: Vec<i64> = vec![-5, 12, 0, 33, -7, 8, 1, 1, -20, 4, 6];
    let mut t = SegTree::new(&a);
    assert_eq!(t.update(4, 70), Ok(()));
    a[4] = 70;
    assert_eq!(t.update(10, -6), Ok(()));
    a[10] = -6;
    for l in 0..a.len() {
        for r in l..a.len() {
            let direct: i128 = a[l..=r].iter().map(|&x| x as i128).sum();
            assert_eq!(t.query(l, r), Ok(direct));
        }
    }
}
