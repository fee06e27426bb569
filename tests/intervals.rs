use symbol_stats::datastore::{IntervalStatsStore, SymbolDataStore};
use symbol_stats::interval_stat_deque::{IntervalStatDeque, StatType};

#[test]
fn test_interval_max() {
    let k = 3;
    let mut swm = IntervalStatDeque::new(k, StatType::Max);
    let inputs = vec![5, 1, 3, 2, 6, 0, 2, 1, 1];
    let mut results = Vec::new();
    for &val in &inputs {
        swm.push(val);
        results.push(swm.stat());
    }
    let expected = vec![5, 5, 5, 3, 6, 6, 6, 2, 2];
    assert_eq!(results, expected, "MAXs do not match expected values");
}

#[test]
fn test_interval_min() {
    let k = 3;
    let mut swm = IntervalStatDeque::new(k, StatType::Min);
    let inputs = vec![5, 1, 3, 2, 6, 0, 2, 1, 1];
    let mut results = Vec::new();
    for &val in &inputs {
        swm.push(val);
        results.push(swm.stat());
    }
    let expected = vec![5, 1, 1, 1, 2, 0, 0, 0, 1];
    assert_eq!(results, expected, "MINs do not match expected values");
}

#[test]
fn deque_before_first_push_and_window_of_one() {
    let swm = IntervalStatDeque::new(4, StatType::Max);
    assert_eq!(swm.stat(), 0);
    let mut one = IntervalStatDeque::new(1, StatType::Min);
    for v in [3, -7, 2, 2] {
        one.push(v);
        assert_eq!(one.stat(), v);
    }
}

#[test]
fn stat_type_eval() {
    assert!(StatType::Min.eval(3, 2));
    assert!(!StatType::Min.eval(2, 2));
    assert!(StatType::Max.eval(2, 3));
    assert!(!StatType::Max.eval(3, 3));
}

#[test]
fn test_add_batch() {
    let k = 8_usize;
    let mut store = SymbolDataStore::new(k);

    store.add_batch(&vec![1; 10000]);
    assert_eq!(store.get_stats(4).unwrap().count, 10000);
    for interval in 1..=k {
        let count = 10000.min(10_usize.pow(interval as u32));
        let stats = store.get_stats(interval).unwrap();
        assert_eq!(stats.count, count);
        assert_eq!(stats.min, 1);
        assert_eq!(stats.max, 1);
        assert_eq!(stats.sum, count as i128);
        assert_eq!(stats.sum_squares, count as i128);
        assert_eq!(stats.last, 1);
    }

    store.add_batch(&vec![2; 10000]);

    let stats = store.get_stats(4).unwrap();
    assert_eq!(stats.count, 10000);
    assert_eq!(stats.min, 2);
    assert_eq!(stats.max, 2);
    assert_eq!(stats.sum, 20000);
    assert_eq!(stats.sum_squares, 40000);
    assert_eq!(stats.last, 2);

    let stats = store.get_stats(3).unwrap();
    assert_eq!(stats.count, 1000);
    assert_eq!(stats.min, 2);
    assert_eq!(stats.max, 2);
    assert_eq!(stats.sum, 2000);
    assert_eq!(stats.sum_squares, 4000);
    assert_eq!(stats.last, 2);

    let stats = store.get_stats(5).unwrap();
    assert_eq!(stats.count, 20000);
    assert_eq!(stats.min, 1);
    assert_eq!(stats.max, 2);
    assert_eq!(stats.sum, 30000);
    assert_eq!(stats.sum_squares, 50000);
    assert_eq!(stats.last, 2);
}

#[test]
fn test_capacity_not_growing() {
    let num_of_intervals = 4;
    let mut store = SymbolDataStore::new(num_of_intervals);
    let data = vec![1; 10_usize.pow(num_of_intervals as u32)];
    for _ in 0..1000 {
        store.add_batch(&data);
    }
    for k in 1..=num_of_intervals {
        assert_eq!(store.get_stats(k).unwrap().count, 10_usize.pow(k as u32));
    }
}

#[test]
fn data_store_rejects_unknown_intervals() {
    let store = SymbolDataStore::new(3);
    assert!(store.get_stats(0).is_none());
    assert!(store.get_stats(4).is_none());
    let s = store.get_stats(2).unwrap();
    assert_eq!((s.min, s.max, s.count, s.sum, s.last), (0, 0, 0, 0, 0));
}

#[test]
fn interval_store_slides() {
    let mut s = IntervalStatsStore::new(3);
    for v in [4, -1, 7, 2] {
        s.add(v);
    }
    let r = s.get_stats();
    assert_eq!((r.min, r.max, r.sum, r.sum_squares, r.count, r.last), (-1, 7, 8, 54, 3, 2));
}
