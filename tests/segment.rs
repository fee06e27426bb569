use symbol_stats::segment::SegmentTree;
use symbol_stats::summary::NodeData;

#[test]
fn test_multiple_resize() {
    let mut tree = SegmentTree::new();
    for i in 0..5usize {
        let values = vec![1; 1000];
        tree.add_batch(&values);
        let result = tree.query_range(0, (i + 1) * 1000);
        assert_eq!(result.sum, ((i + 1) * 1000) as i128);
        assert_eq!(result.count as usize, (i + 1) * 1000);
    }
}

#[test]
fn test_mixed_values_with_resize() {
    let mut tree = SegmentTree::new();
    let values: Vec<i32> = (0..1000).collect();
    tree.add_batch(&values);
    let values: Vec<i32> = (1000..2000).collect();
    tree.add_batch(&values);

    let result = tree.query_range(0, 2000);
    assert_eq!(result.min, 0);
    assert_eq!(result.max, 1999);
    assert_eq!(result.sum, 1999 * 1000);
    assert_eq!(result.count, 2000);
}

#[test]
fn test_sequential_updates() {
    let mut tree = SegmentTree::new();
    tree.add_batch(&[1, 2, 3, 4, 5]);

    let result = tree.query_range(0, 5);
    assert_eq!(result.min, 1);
    assert_eq!(result.max, 5);
    assert_eq!(result.sum, 15);
    assert_eq!(result.sum_squares, 55);
    assert_eq!(result.count, 5);
    assert_eq!(result.last, 5);

    let result = tree.query_range(1, 4);
    assert_eq!(result.min, 2);
    assert_eq!(result.max, 4);
    assert_eq!(result.sum, 9);
    assert_eq!(result.count, 3);

    let result = tree.query_range(2, 3);
    assert_eq!(result.min, 3);
    assert_eq!(result.max, 3);
    assert_eq!(result.sum, 3);
    assert_eq!(result.count, 1);
}

#[test]
fn test_multiple_batches() {
    let mut tree = SegmentTree::new();
    tree.add_batch(&[1, 2, 3]);
    tree.add_batch(&[4, 5]);

    let result = tree.query_range(0, 5);
    assert_eq!(result.min, 1);
    assert_eq!(result.max, 5);
    assert_eq!(result.sum, 15);
    assert_eq!(result.sum_squares, 55);
    assert_eq!(result.count, 5);
    assert_eq!(result.last, 5);

    let result = tree.query_range(1, 4);
    assert_eq!(result.min, 2);
    assert_eq!(result.max, 4);
    assert_eq!(result.sum, 9);
    assert_eq!(result.count, 3);

    let result = tree.query_range(3, 4);
    assert_eq!(result.min, 4);
    assert_eq!(result.max, 4);
    assert_eq!(result.sum, 4);
    assert_eq!(result.count, 1);
}

#[test]
fn test_infinity_handling() {
    let mut tree = SegmentTree::new();

    // An empty range gives the identity record: extrema at the type's bounds.
    let result = tree.query_range(0, 1);
    assert_eq!(result.min, i32::MAX);
    assert_eq!(result.max, i32::MIN);
    assert_eq!(result.count, 0);

    tree.add_batch(&[1, 2, 3]);
    let empty_result = tree.query_range(5, 5);
    assert_eq!(empty_result.min, i32::MAX);
    assert_eq!(empty_result.max, i32::MIN);
    assert_eq!(empty_result.count, 0);
}

#[test]
fn test_large_batch_size() {
    let mut tree = SegmentTree::new();
    let values = vec![1; 9_000];
    tree.add_batch(&values);
    tree.add_batch(&values);

    let result = tree.query_range(0, 18_000);
    assert_eq!(result.min, 1);
    assert_eq!(result.max, 1);
    assert_eq!(result.sum, 18_000);
    assert_eq!(result.sum_squares, 18_000);
    assert_eq!(result.count, 18_000);
}

#[test]
fn extreme_values_do_not_overflow() {
    let mut tree = SegmentTree::new();
    tree.add_batch(&[i32::MIN, i32::MAX, -1_000_000_000, 1_000_000_000]);
    let r = tree.query_range(0, 4);
    assert_eq!(r.min, i32::MIN);
    assert_eq!(r.max, i32::MAX);
    assert_eq!(r.sum, -1);
    let m = i32::MIN as i128;
    let x = i32::MAX as i128;
    assert_eq!(r.sum_squares, m * m + x * x + 2 * 1_000_000_000i128 * 1_000_000_000);
    assert_eq!(r.last, 1_000_000_000);
}

#[test]
fn query_past_the_end_is_clamped() {
    let mut tree = SegmentTree::new();
    tree.add_batch(&[4, 8, 15]);
    let r = tree.query_range(1, 1_000_000);
    assert_eq!(r.count, 2);
    assert_eq!(r.sum, 23);
    assert_eq!(r.last, 15);
    assert_eq!(tree.len(), 3);
}

#[test]
fn last_is_most_recent_across_growth() {
    let mut tree = SegmentTree::new();
    let values: Vec<i32> = (0..1025).collect();
    tree.add_batch(&values);
    let r = tree.query_range(0, 1025);
    assert_eq!(r.last, 1024);
    assert_eq!(r.count, 1025);
    let r = tree.query_range(1023, 1025);
    assert_eq!(r.min, 1023);
    assert_eq!(r.last, 1024);
}

#[test]
fn suffix_windows_by_power_of_ten() {
    let mut tree = SegmentTree::new();
    let values: Vec<i32> = (1..=150).collect();
    tree.add_batch(&values);
    let r = tree.suffix_stats(0);
    assert_eq!((r.count, r.min, r.max, r.last), (1, 150, 150, 150));
    let r = tree.suffix_stats(1);
    assert_eq!((r.count, r.min, r.sum), (10, 141, (141..=150).sum::<i128>()));
    let r = tree.suffix_stats(2);
    assert_eq!((r.count, r.min), (100, 51));
    let r = tree.suffix_stats(3);
    assert_eq!((r.count, r.min, r.sum), (150, 1, 150 * 151 / 2));
    let r = tree.suffix_stats(u32::MAX);
    assert_eq!(r.count, 150);
}

#[test]
fn merge_keeps_last_of_the_right() {
    let a = NodeData::new(3);
    let b = NodeData::new(-2);
    let m = NodeData::merge(&a, &b);
    assert_eq!((m.min, m.max, m.sum, m.sum_squares, m.count, m.last), (-2, 3, 1, 13, 2, -2));
    let z = NodeData::zero();
    assert_eq!(NodeData::merge(&z, &a), a);
    assert_eq!(NodeData::merge(&a, &z), a);
}

#[test]
fn variance_parts_are_exact() {
    let mut tree = SegmentTree::new();
    tree.add_batch(&[1, 2, 3, 4, 5]);
    let r = tree.query_range(0, 5);
    // 5 * 55 - 15^2 = 50 over 25: a variance of 2.
    assert_eq!(r.variance_parts(), (50, 25));
}

#[test]
fn large_magnitudes_cancel() {
    let mut tree = SegmentTree::new();
    tree.add_batch(&[1, 1_000_000_000, -1, -1_000_000_000]);
    let r = tree.suffix_stats(1);
    assert_eq!(r.min, -1_000_000_000);
    assert_eq!(r.max, 1_000_000_000);
    assert_eq!(r.sum, 0);
    assert_eq!(r.count, 4);
    assert_eq!(r.last, -1_000_000_000);
}
