use symbol_stats::manager::{Symbol, SymbolManager};
use symbol_stats::summary::NodeData;
use symbol_stats::worker::{ManagerCommand, Reply, SymbolTask};

fn avg_var(s: &NodeData) -> (f64, f64) {
    let (num, den) = s.variance_parts();
    (s.sum as f64 / s.count as f64, num as f64 / den as f64)
}

#[test]
fn scenario_small_windows() {
    let mut task = SymbolTask::new();
    assert_eq!(task.add_batch(&[1, 2, 3, 4, 5]).status, "Batch added successfully");
    let s = task.get_stats(0).unwrap();
    assert_eq!((s.min, s.max, s.last), (5, 5, 5));
    assert_eq!(avg_var(&s), (5.0, 0.0));
    let s = task.get_stats(1).unwrap();
    assert_eq!((s.min, s.max, s.last), (1, 5, 5));
    assert_eq!(avg_var(&s), (3.0, 2.0));
}

#[test]
fn scenario_two_full_batches() {
    let mut task = SymbolTask::new();
    assert_eq!(task.add_batch(&vec![1; 10000]).status, "Batch added successfully");
    assert_eq!(task.add_batch(&vec![2; 10000]).status, "Batch added successfully");
    let s = task.get_stats(4).unwrap();
    assert_eq!((s.min, s.max, s.last, s.count), (2, 2, 2, 10000));
    assert_eq!(avg_var(&s), (2.0, 0.0));
    let s = task.get_stats(5).unwrap();
    assert_eq!((s.min, s.max, s.last, s.count), (1, 2, 2, 20000));
    assert_eq!(avg_var(&s), (1.5, 0.25));
    let s = task.get_stats(3).unwrap();
    assert_eq!((s.count, s.sum, s.sum_squares), (1000, 2000, 4000));
}

#[test]
fn scenario_empty_batch() {
    let mut task = SymbolTask::new();
    assert_eq!(task.add_batch(&[]).status, "Invalid batch size");
    assert!(task.get_stats(3).is_none());
}

#[test]
fn scenario_oversize_batch() {
    let mut task = SymbolTask::new();
    assert_eq!(task.add_batch(&vec![1; 10001]).status, "Invalid batch size");
    assert!(task.get_stats(5).is_none());
}

#[test]
fn invalid_batch_leaves_stream_unchanged() {
    let mut task = SymbolTask::new();
    task.add_batch(&[9, 9]);
    assert_eq!(task.add_batch(&vec![1; 10001]).status, "Invalid batch size");
    assert_eq!(task.add_batch(&[]).status, "Invalid batch size");
    let s = task.get_stats(5).unwrap();
    assert_eq!((s.count, s.sum, s.last), (2, 18, 9));
}

#[test]
fn batch_of_exactly_max_size_is_accepted() {
    let mut task = SymbolTask::new();
    assert_eq!(task.add_batch(&vec![3; 10000]).status, "Batch added successfully");
    assert_eq!(task.get_stats(4).unwrap().count, 10000);
}

#[test]
fn handle_dispatches_by_command() {
    let mut task = SymbolTask::new();
    match task.handle(ManagerCommand::AddBatch { values: vec![6, 7] }) {
        Reply::Status(r) => assert_eq!(r.status, "Batch added successfully"),
        Reply::Stats(_) => panic!("append answered with stats"),
    }
    match task.handle(ManagerCommand::GetStats { k: 2 }) {
        Reply::Stats(Some(s)) => assert_eq!((s.min, s.max, s.count, s.last), (6, 7, 2, 7)),
        _ => panic!("query answered without stats"),
    }
}

#[test]
fn batch_boundaries_do_not_matter() {
    let values: Vec<i32> = (0..3000).map(|x| (x * 7919) % 1000 - 500).collect();
    let mut one = SymbolTask::new();
    one.add_batch(&values);
    let mut many = SymbolTask::new();
    for chunk in values.chunks(333) {
        many.add_batch(chunk);
    }
    for k in 0..5 {
        assert_eq!(one.get_stats(k), many.get_stats(k));
    }
}

#[test]
fn scenario_interleaved_symbols() {
    let mut manager = SymbolManager::new();
    let mut workers: Vec<SymbolTask> = Vec::new();
    let a = Symbol("A".to_string());
    let b = Symbol("B".to_string());
    let mut send = |sym: &Symbol, cmd: ManagerCommand| -> Reply {
        let route = manager.route(sym);
        if route.is_new {
            workers.push(SymbolTask::new());
        }
        workers[route.worker].handle(cmd)
    };
    for i in 0..100 {
        send(&a, ManagerCommand::AddBatch { values: vec![1; 100] });
        if i % 2 == 0 {
            send(&b, ManagerCommand::AddBatch { values: vec![7; 200] });
        }
    }
    match send(&a, ManagerCommand::GetStats { k: 5 }) {
        Reply::Stats(Some(s)) => {
            assert_eq!((s.count, s.sum, s.min, s.max, s.last), (10000, 10000, 1, 1, 1))
        }
        _ => panic!("no stats for A"),
    }
    match send(&b, ManagerCommand::GetStats { k: 5 }) {
        Reply::Stats(Some(s)) => {
            assert_eq!((s.count, s.sum, s.min, s.max, s.last), (10000, 70000, 7, 7, 7))
        }
        _ => panic!("no stats for B"),
    }
}

#[test]
fn registry_is_case_sensitive_and_stable() {
    let mut m = SymbolManager::new();
    let r1 = m.route(&Symbol("abc".to_string()));
    let r2 = m.route(&Symbol("ABC".to_string()));
    let r3 = m.route(&Symbol("abc".to_string()));
    assert!(r1.is_new && r2.is_new && !r3.is_new);
    assert_eq!((r1.worker, r2.worker, r3.worker), (0, 1, 0));
    assert_eq!(m.len(), 2);
    assert_eq!(m.find(&Symbol("ABC".to_string())), Some(1));
    assert_eq!(m.find(&Symbol("x".to_string())), None);
}
