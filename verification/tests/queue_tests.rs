use tokhost::queue::BoundedQueue;

#[test]
fn drain_returns_fifo_order() {
    let mut q: BoundedQueue<u32> = BoundedQueue::new(8);
    assert!(q.try_push(1));
    assert!(q.try_push(2));
    assert!(q.try_push(3));
    assert_eq!(q.drain(), vec![1, 2, 3]);
    assert!(q.is_empty());
    assert_eq!(q.drain(), Vec::<u32>::new());
}

#[test]
fn pop_next_returns_oldest_first() {
    let mut q: BoundedQueue<&str> = BoundedQueue::new(4);
    assert!(q.try_push("a"));
    assert!(q.try_push("b"));
    assert_eq!(q.pop_next(), Some("a"));
    assert_eq!(q.pop_next(), Some("b"));
    assert_eq!(q.pop_next(), None);
}

#[test]
fn full_queue_rejects_push_and_keeps_items() {
    let mut q: BoundedQueue<u8> = BoundedQueue::new(2);
    assert!(q.try_push(10));
    assert!(q.try_push(20));
    assert!(q.is_full());
    assert!(!q.try_push(30));
    assert_eq!(q.len(), 2);
    assert_eq!(q.drain(), vec![10, 20]);
}
