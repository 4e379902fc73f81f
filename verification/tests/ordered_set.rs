use rust_spp::{BlockingOrderedSet, OrderedState, TimestampedWorkItem, WorkItem};

fn value_of(item: TimestampedWorkItem<&'static str>) -> (Option<&'static str>, u64) {
    match item {
        TimestampedWorkItem(WorkItem::Value(v), order) => (Some(v), order),
        TimestampedWorkItem(_, order) => (None, order),
    }
}

#[test]
fn ordered_set_hands_out_the_order_asked_for() {
    let store = BlockingOrderedSet::<&'static str>::new();
    store.enqueue(TimestampedWorkItem(WorkItem::Value("c"), 2));
    store.enqueue(TimestampedWorkItem(WorkItem::Value("a"), 0));
    store.enqueue(TimestampedWorkItem(WorkItem::Value("b"), 1));
    assert_eq!(value_of(store.wait_and_remove(0)), (Some("a"), 0));
    assert_eq!(value_of(store.wait_and_remove(1)), (Some("b"), 1));
    assert_eq!(value_of(store.wait_and_remove(2)), (Some("c"), 2));
}

#[test]
fn ordered_set_keeps_dropped_slots_and_the_stop_token() {
    let store = BlockingOrderedSet::<&'static str>::new();
    store.enqueue(TimestampedWorkItem(WorkItem::Stop, 2));
    store.enqueue(TimestampedWorkItem(WorkItem::Dropped, 1));
    store.enqueue(TimestampedWorkItem(WorkItem::Value("a"), 0));
    assert!(matches!(store.wait_and_remove(1), TimestampedWorkItem(WorkItem::Dropped, 1)));
    assert!(matches!(store.wait_and_remove(2), TimestampedWorkItem(WorkItem::Stop, 2)));
    assert!(matches!(store.wait_and_remove(0), TimestampedWorkItem(WorkItem::Value("a"), 0)));
}

#[test]
fn ordered_state_finds_only_what_was_stored() {
    let mut state = OrderedState::<&'static str>::new();
    assert!(!state.contains(3));
    assert!(state.remove(3).is_none());
    state.insert(TimestampedWorkItem(WorkItem::Value("x"), 3));
    assert!(state.contains(3));
    assert!(!state.contains(2));
    assert!(state.remove(2).is_none());
    assert_eq!(value_of(state.remove(3).unwrap()), (Some("x"), 3));
    assert!(!state.contains(3));
    assert!(state.remove(3).is_none());
}

#[test]
fn ordered_state_replaces_what_lies_under_the_same_order() {
    let mut state = OrderedState::<&'static str>::new();
    state.insert(TimestampedWorkItem(WorkItem::Value("old"), 7));
    state.insert(TimestampedWorkItem(WorkItem::Value("new"), 7));
    assert_eq!(value_of(state.remove(7).unwrap()), (Some("new"), 7));
    assert!(state.remove(7).is_none());
}

#[test]
fn ordered_state_holds_the_largest_order() {
    let mut state = OrderedState::<&'static str>::new();
    state.insert(TimestampedWorkItem(WorkItem::Value("last"), u64::MAX));
    assert!(state.contains(u64::MAX));
    assert_eq!(value_of(state.remove(u64::MAX).unwrap()), (Some("last"), u64::MAX));
}
