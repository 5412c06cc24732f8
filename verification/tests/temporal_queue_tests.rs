use mora::temporal_queue::TemporalQueue;

#[test]
fn default_temporal_queue_is_empty() {
    assert!(TemporalQueue::<i32>::default().is_empty())
}

#[test]
fn temporal_queue_should_enqueue_items_correctly() {
    let mut tq = TemporalQueue::<i32>::default();
    tq.enqueue(3, 3).unwrap();
    tq.enqueue(4, 4).unwrap();
    tq.enqueue(2, 2).unwrap();
    tq.enqueue(1, 1).unwrap();
    assert_eq!(tq.dequeue(4), vec![1, 2, 3, 4]);
}

#[test]
fn temporal_queue_dequeue_until_dequeues_until_given_timestamp() {
    let mut tq = TemporalQueue::<i32>::default();
    tq.enqueue(1, 1).unwrap();
    tq.enqueue(2, 2).unwrap();
    tq.enqueue(3, 3).unwrap();
    tq.enqueue(4, 4).unwrap();
    let result = tq.dequeue_until(2, true);
    assert_eq!(result, vec![(1, 1), (2, 2)]);
    assert_eq!(tq.len, 2);
}

#[test]
fn temporal_queue_dequeue_until_without_delete_is_a_pure_peek() {
    let mut tq = TemporalQueue::<i32>::default();
    tq.enqueue(1, 1).unwrap();
    tq.enqueue(2, 2).unwrap();
    let first = tq.dequeue_until(2, false);
    let second = tq.dequeue_until(2, false);
    assert_eq!(first, second);
    assert_eq!(tq.len, 2);
}

#[test]
fn temporal_queue_rejects_when_full() {
    let mut tq: TemporalQueue<i32> = TemporalQueue::new(1);
    tq.enqueue(1, 1).unwrap();
    let result = tq.enqueue(2, 2);
    assert!(matches!(result, Err(mora::MoraError::QueueFull)));
    assert_eq!(tq.len, 1);
}

#[test]
fn temporal_queue_peek_returns_earliest_without_removal() {
    let mut tq = TemporalQueue::<i32>::default();
    tq.enqueue(7, 70).unwrap();
    tq.enqueue(3, 30).unwrap();
    assert_eq!(tq.peek(), Some((3, 30)));
    assert_eq!(tq.len, 2);
    assert_eq!(TemporalQueue::<i32>::default().peek(), None);
}
