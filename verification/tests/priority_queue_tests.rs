use mora::priority_queue::{DumbPriorityQueue, NaivePriorityQueue, PriorityQueue};

#[test]
fn new_queue_is_empty() {
    let pq = DumbPriorityQueue::<u32>::default();
    assert!(pq.is_empty())
}

#[test]
fn new_queue_has_zero_elements() {
    let pq = DumbPriorityQueue::<u32>::default();
    assert_eq!(pq.len(), 0)
}

#[test]
fn enqueue_adds_element_to_queue() {
    let mut pq = DumbPriorityQueue::<u32>::default();
    pq.enqueue(1, 1);
    assert_eq!(pq.len(), 1);
    assert!(!pq.is_empty());
}

#[test]
fn take_elments_returns_elements_ordered_by_key() {
    let mut pq = DumbPriorityQueue::<u32>::default();
    pq.enqueue(4, 3);
    pq.enqueue(2, 2);
    pq.enqueue(1, 1);
    pq.enqueue(3, 3);
    let values: Vec<u32> = pq.dequeue(3);

    assert_eq!(values.len(), 3);
    assert_eq!(values, [1, 2, 3]);
    assert_eq!(pq.len(), 1)
}

#[test]
fn peek_returns_first_item() {
    let mut pq = NaivePriorityQueue::<u32>::default();
    pq.enqueue(4, 3);
    pq.enqueue(2, 2);
    pq.enqueue(1, 1);
    pq.enqueue(3, 3);
    let value = pq.peek();
    assert_eq!(value, Some((1, 1)));
}

#[test]
fn peek_on_empty_queue_return_none() {
    let pq = NaivePriorityQueue::<u32>::default();
    let value = pq.peek();
    assert_eq!(value, None);
}

#[test]
fn dumb_enqueue_replaces_value_for_taken_key() {
    let mut pq = DumbPriorityQueue::<u32>::default();
    assert_eq!(pq.enqueue(7, 1), None);
    assert_eq!(pq.enqueue(7, 2), Some(1));
    assert_eq!(pq.len(), 1);
    assert_eq!(pq.dequeue(1), [2]);
}

#[test]
fn naive_keeps_insertion_order_among_equal_keys() {
    let mut pq = NaivePriorityQueue::<u32>::default();
    pq.enqueue(5, 10);
    pq.enqueue(5, 20);
    pq.enqueue(5, 30);
    assert_eq!(pq.dequeue(3), [10, 20, 30]);
}
