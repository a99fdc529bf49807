use algo3_backend::help_queue::{HelpQueue, QueueError, QueueState};
use std::collections::HashSet;
use std::sync::Arc;

#[test]
fn distinct_enqueues_count_up() {
    let mut q = QueueState::new();
    for g in 0..500u16 {
        assert_eq!(q.enqueue(g, 1000 + g as u64), Ok(()));
        assert_eq!(q.len(), g as usize + 1);
    }
    assert_eq!(q.len(), 500);
}

#[test]
fn every_group_number_fits() {
    let mut q = QueueState::new();
    for g in 0..=u16::MAX {
        assert_eq!(q.enqueue(g, g as u64), Ok(()));
    }
    assert_eq!(q.len(), 65536);
    assert_eq!(q.enqueue(7, 1), Err(QueueError::DuplicateRequest));
    assert_eq!(q.next("helper"), Ok((0, 0)));
    assert_eq!(q.dismiss(u16::MAX), Ok((u16::MAX, u16::MAX as u64)));
    assert_eq!(q.len(), 65534);
}

#[test]
fn duplicate_enqueue_is_refused_and_changes_nothing() {
    let mut q = QueueState::new();
    assert_eq!(q.enqueue(4, 40), Ok(()));
    assert_eq!(q.enqueue(5, 50), Ok(()));
    assert_eq!(q.enqueue(4, 41), Err(QueueError::DuplicateRequest));
    assert_eq!(q.len(), 2);
    assert_eq!(q.sorted(), vec![4, 5]);
    assert_eq!(q.next("helper"), Ok((4, 40)));
}

#[test]
fn next_on_empty_queue_fails() {
    let mut q = QueueState::new();
    assert_eq!(q.next("helper"), Err(QueueError::EmptyQueue));
    assert!(q.is_empty());
}

#[test]
fn fifo_by_arrival() {
    let mut q = QueueState::new();
    assert_eq!(q.enqueue(1, 100), Ok(()));
    assert_eq!(q.enqueue(2, 200), Ok(()));
    assert_eq!(q.next("helper"), Ok((1, 100)));
    assert_eq!(q.next("helper"), Ok((2, 200)));
    assert_eq!(q.next("helper"), Err(QueueError::EmptyQueue));
}

#[test]
fn fifo_ignores_group_number() {
    let mut q = QueueState::new();
    assert_eq!(q.enqueue(9, 900), Ok(()));
    assert_eq!(q.enqueue(2, 200), Ok(()));
    assert_eq!(q.enqueue(5, 500), Ok(()));
    assert_eq!(q.next("helper"), Ok((9, 900)));
    assert_eq!(q.next("helper"), Ok((2, 200)));
    assert_eq!(q.next("helper"), Ok((5, 500)));
}

#[test]
fn dismiss_removes_only_that_group() {
    let mut q = QueueState::new();
    for (g, c) in [(10, 1), (20, 2), (30, 3), (40, 4)] {
        assert_eq!(q.enqueue(g, c), Ok(()));
    }
    assert_eq!(q.dismiss(30), Ok((30, 3)));
    assert_eq!(q.len(), 3);
    assert_eq!(q.sorted(), vec![10, 20, 40]);
    assert_eq!(q.dismiss(30), Err(QueueError::NotFound));
    assert_eq!(q.len(), 3);
}

#[test]
fn dismiss_unknown_group_fails() {
    let mut q = QueueState::new();
    assert_eq!(q.enqueue(1, 1), Ok(()));
    assert_eq!(q.dismiss(2), Err(QueueError::NotFound));
    assert_eq!(q.sorted(), vec![1]);
}

#[test]
fn served_group_may_enqueue_again() {
    let mut q = QueueState::new();
    assert_eq!(q.enqueue(1, 100), Ok(()));
    assert_eq!(q.enqueue(2, 200), Ok(()));
    assert_eq!(q.next("helper"), Ok((1, 100)));
    assert_eq!(q.enqueue(1, 111), Ok(()));
    assert_eq!(q.sorted(), vec![2, 1]);
    assert_eq!(q.next("helper"), Ok((2, 200)));
    assert_eq!(q.next("helper"), Ok((1, 111)));
}

#[test]
fn late_arrival_waits_after_survivors() {
    let mut q = QueueState::new();
    assert_eq!(q.enqueue(1, 1), Ok(()));
    assert_eq!(q.enqueue(2, 2), Ok(()));
    assert_eq!(q.enqueue(3, 3), Ok(()));
    assert_eq!(q.dismiss(1), Ok((1, 1)));
    assert_eq!(q.dismiss(2), Ok((2, 2)));
    assert_eq!(q.enqueue(4, 4), Ok(()));
    assert_eq!(q.next("helper"), Ok((3, 3)));
    assert_eq!(q.next("helper"), Ok((4, 4)));
}

#[test]
fn clear_empties_the_queue() {
    let mut q = QueueState::new();
    assert_eq!(q.enqueue(1, 1), Ok(()));
    assert_eq!(q.enqueue(2, 2), Ok(()));
    q.clear();
    assert!(q.is_empty());
    assert_eq!(q.len(), 0);
    assert_eq!(q.next("helper"), Err(QueueError::EmptyQueue));
    q.clear();
    assert!(q.is_empty());
}

#[test]
fn sorted_is_arrival_order() {
    let mut q = QueueState::new();
    assert_eq!(q.enqueue(3, 30), Ok(()));
    assert_eq!(q.enqueue(1, 10), Ok(()));
    assert_eq!(q.enqueue(2, 20), Ok(()));
    assert_eq!(q.sorted(), vec![3, 1, 2]);
}

#[test]
fn sorted_is_a_snapshot() {
    let queue = HelpQueue::new().unwrap();
    queue.enqueue(3, 30).unwrap();
    queue.enqueue(1, 10).unwrap();
    let snapshot = queue.sorted().unwrap();
    queue.enqueue(2, 20).unwrap();
    queue.dismiss(3).unwrap();
    assert_eq!(snapshot, vec![3, 1]);
    assert_eq!(queue.sorted().unwrap(), vec![1, 2]);
}

#[test]
fn shared_queue_reports_each_error() {
    let queue = HelpQueue::new().unwrap();
    assert_eq!(queue.next("helper"), Err(QueueError::EmptyQueue));
    assert_eq!(queue.dismiss(8), Err(QueueError::NotFound));
    assert_eq!(queue.enqueue(8, 80), Ok(()));
    assert_eq!(queue.enqueue(8, 81), Err(QueueError::DuplicateRequest));
    assert_eq!(queue.dismiss(8), Ok((8, 80)));
}

#[test]
fn concurrent_enqueues_then_drain() {
    let queue = HelpQueue::new().unwrap();
    let runtime = tokio::runtime::Builder::new_multi_thread()
        .worker_threads(4)
        .build()
        .unwrap();
    let mut handles = Vec::new();
    for worker in 0..8u16 {
        let q = Arc::clone(&queue);
        handles.push(runtime.spawn_blocking(move || {
            for k in 0..100u16 {
                let g = worker * 100 + k;
                q.enqueue(g, g as u64 * 3).unwrap();
            }
        }));
    }
    for h in handles {
        runtime.block_on(h).unwrap();
    }
    assert_eq!(queue.len().unwrap(), 800);
    let mut seen = HashSet::new();
    while let Ok((g, c)) = queue.next("helper") {
        assert_eq!(c, g as u64 * 3);
        assert!(seen.insert(g));
    }
    assert_eq!(seen.len(), 800);
    assert!(seen.iter().all(|g| *g < 800));
    assert!(queue.is_empty().unwrap());
}
