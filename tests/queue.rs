use cookie_clicker::queue::MatchQueue;

fn contents(q: &MatchQueue) -> Vec<u64> {
    (0..q.len()).map(|i| q.get(i)).collect()
}

#[test]
fn empty_queue_takes_the_requester() {
    let mut q = MatchQueue::new();
    assert!(q.is_empty());
    assert_eq!(q.try_match(4), None);
    assert_eq!(contents(&q), vec![4]);
}

#[test]
fn requester_at_the_head_is_not_matched_with_itself() {
    let mut q = MatchQueue::new();
    q.try_match(4);
    assert_eq!(q.try_match(4), None);
    assert_eq!(contents(&q), vec![4]);
}

#[test]
fn head_is_matched_and_both_leave() {
    let mut q = MatchQueue::new();
    q.enqueue(1);
    q.enqueue(2);
    q.enqueue(3);
    assert_eq!(q.try_match(3), Some(1));
    assert_eq!(contents(&q), vec![2]);
    assert_eq!(q.try_match(9), Some(2));
    assert!(q.is_empty());
}

#[test]
fn enqueue_is_idempotent() {
    let mut q = MatchQueue::new();
    q.enqueue(5);
    q.enqueue(5);
    q.enqueue(6);
    assert_eq!(contents(&q), vec![5, 6]);
    assert!(q.contains(6));
    q.remove(5);
    assert_eq!(contents(&q), vec![6]);
    q.remove(42);
    assert_eq!(contents(&q), vec![6]);
}
