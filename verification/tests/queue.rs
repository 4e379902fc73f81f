use rust_spp::{BlockingQueue, QueueState, TimestampedWorkItem, WorkItem};

fn value_of(item: TimestampedWorkItem<i32>) -> (Option<i32>, u64) {
    match item {
        TimestampedWorkItem(WorkItem::Value(v), order) => (Some(v), order),
        TimestampedWorkItem(_, order) => (None, order),
    }
}

#[test]
fn queue_is_first_in_first_out() {
    let queue = BlockingQueue::<i32>::new();
    assert_eq!(queue.enqueue(WorkItem::Value(7)), 0);
    assert_eq!(queue.enqueue(WorkItem::Value(8)), 1);
    assert_eq!(queue.enqueue(WorkItem::Value(9)), 2);
    assert_eq!(value_of(queue.wait_and_dequeue()), (Some(7), 0));
    assert_eq!(value_of(queue.wait_and_dequeue()), (Some(8), 1));
    assert_eq!(value_of(queue.wait_and_dequeue()), (Some(9), 2));
}

#[test]
fn queue_counts_every_kind_of_item() {
    let queue = BlockingQueue::<i32>::new();
    assert_eq!(queue.enqueue(WorkItem::Dropped), 0);
    assert_eq!(queue.enqueue(WorkItem::Stop), 1);
    assert_eq!(queue.enqueue(WorkItem::Value(1)), 2);
    assert!(matches!(queue.wait_and_dequeue(), TimestampedWorkItem(WorkItem::Dropped, 0)));
    assert!(matches!(queue.wait_and_dequeue(), TimestampedWorkItem(WorkItem::Stop, 1)));
    assert!(matches!(queue.wait_and_dequeue(), TimestampedWorkItem(WorkItem::Value(1), 2)));
}

#[test]
fn queue_keeps_the_order_of_a_timestamped_item() {
    let queue = BlockingQueue::<i32>::new();
    queue.enqueue_timestamped(TimestampedWorkItem(WorkItem::Value(5), 41));
    queue.enqueue_timestamped(TimestampedWorkItem(WorkItem::Value(6), 3));
    // The count of the queue itself has not moved.
    assert_eq!(queue.enqueue(WorkItem::Value(7)), 0);
    assert_eq!(value_of(queue.wait_and_dequeue()), (Some(5), 41));
    assert_eq!(value_of(queue.wait_and_dequeue()), (Some(6), 3));
    assert_eq!(value_of(queue.wait_and_dequeue()), (Some(7), 0));
}

#[test]
fn queue_state_gives_out_orders_from_zero() {
    let mut state = QueueState::<i32>::new();
    assert!(state.is_empty());
    assert_eq!(state.enqueue(WorkItem::Value(10)), 0);
    assert_eq!(state.enqueue(WorkItem::Value(20)), 1);
    assert!(!state.is_empty());
    state.enqueue_timestamped(TimestampedWorkItem(WorkItem::Value(30), 99));
    assert_eq!(state.enqueue(WorkItem::Value(40)), 2);
    assert_eq!(value_of(state.dequeue().unwrap()), (Some(10), 0));
    assert_eq!(value_of(state.dequeue().unwrap()), (Some(20), 1));
    assert_eq!(value_of(state.dequeue().unwrap()), (Some(30), 99));
    assert_eq!(value_of(state.dequeue().unwrap()), (Some(40), 2));
    assert!(state.is_empty());
}

#[test]
fn queue_state_has_nothing_to_give_when_empty() {
    let mut state = QueueState::<i32>::new();
    assert!(state.dequeue().is_none());
    state.enqueue(WorkItem::Value(1));
    assert!(state.dequeue().is_some());
    assert!(state.dequeue().is_none());
    // An empty queue goes on counting where it was.
    assert_eq!(state.enqueue(WorkItem::Value(2)), 1);
}
