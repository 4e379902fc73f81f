use rust_spp::blocks::{is_last_replica, stage_output};
use rust_spp::{
    BlockMode, In, InOut, LoopStatus, MonitorLoop, OrderingMode, TimestampedWorkItem, WorkItem,
};
use std::sync::atomic::{AtomicUsize, Ordering};
use std::sync::Arc;

#[test]
fn a_parallel_block_has_the_replicas_it_names() {
    assert_eq!(BlockMode::Parallel(1).replicas(), 1);
    assert_eq!(BlockMode::Parallel(8).replicas(), 8);
    assert_eq!(BlockMode::Parallel(i32::MAX).replicas(), i32::MAX);
}

#[test]
fn a_sequential_block_has_one_replica() {
    assert_eq!(BlockMode::Sequential(OrderingMode::Ordered).replicas(), 1);
    assert_eq!(BlockMode::Sequential(OrderingMode::Unordered).replicas(), 1);
    assert_eq!(
        BlockMode::Parallel(1).replicas(),
        BlockMode::Sequential(OrderingMode::Unordered).replicas()
    );
}

#[test]
fn an_output_goes_on_as_a_value_under_the_same_order() {
    assert!(matches!(stage_output(Some(12), 5), TimestampedWorkItem(WorkItem::Value(12), 5)));
    assert!(matches!(
        stage_output(Some("x"), u64::MAX),
        TimestampedWorkItem(WorkItem::Value("x"), u64::MAX)
    ));
}

#[test]
fn no_output_goes_on_as_a_dropped_slot_under_the_same_order() {
    assert!(matches!(stage_output(None::<i32>, 5), TimestampedWorkItem(WorkItem::Dropped, 5)));
    assert!(matches!(stage_output(None::<i32>, 0), TimestampedWorkItem(WorkItem::Dropped, 0)));
}

#[test]
fn only_the_replica_that_finds_itself_alone_is_the_last() {
    assert!(is_last_replica(1));
    assert!(!is_last_replica(2));
    assert!(!is_last_replica(16));
    assert!(!is_last_replica(0));
    assert!(!is_last_replica(usize::MAX));
}

#[test]
fn a_monitor_loop_runs_its_function_once() {
    let runs = Arc::new(AtomicUsize::new(0));
    let seen = runs.clone();
    let monitor = MonitorLoop::new(move || {
        seen.fetch_add(1, Ordering::SeqCst);
    });
    assert_eq!(runs.load(Ordering::SeqCst), 0);
    monitor.run();
    assert_eq!(runs.load(Ordering::SeqCst), 1);
}

#[test]
fn a_function_is_a_stage() {
    let mut double = |x: i32| if x >= 0 { Some(x * 2) } else { None };
    assert_eq!(InOut::process(&mut double, 21), Some(42));
    assert_eq!(InOut::process(&mut double, -1), None);
}

#[test]
fn a_function_is_a_sink() {
    let mut total = 0;
    let mut add = |x: i32| {
        total += x;
        total
    };
    assert_eq!(In::process(&mut add, 5, 0), 5);
    assert_eq!(In::process(&mut add, 6, 9), 11);
}

#[test]
fn loop_statuses_differ() {
    assert_ne!(LoopStatus::Running, LoopStatus::Finished);
}
