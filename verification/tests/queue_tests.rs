use bptree::Queue;

#[test]
fn values_come_out_in_order() {
    let mut q = Queue::new();
    for v in 1..=5u64 {
        q.enqueue(v);
    }
    let listed: Vec<u64> = q.values().into_iter().copied().collect();
    assert_eq!(listed, vec![1, 2, 3, 4, 5]);
    for v in 1..=5u64 {
        assert_eq!(q.dequeue(), Some(v));
    }
    assert_eq!(q.dequeue(), None);
}

#[test]
fn dequeue_on_empty_queue() {
    let mut q: Queue<String> = Queue::new();
    assert_eq!(q.dequeue(), None);
    assert!(q.values().is_empty());
}

#[test]
fn enqueue_after_dequeue_keeps_fifo_order() {
    let mut q = Queue::new();
    q.enqueue("a");
    q.enqueue("b");
    assert_eq!(q.dequeue(), Some("a"));
    q.enqueue("c");
    assert_eq!(q.dequeue(), Some("b"));
    assert_eq!(q.dequeue(), Some("c"));
    assert_eq!(q.dequeue(), None);
    q.enqueue("d");
    assert_eq!(q.values(), vec![&"d"]);
}
