use rust_spp::{BlockMode, InBlock, InOutBlock, ItemPostError, MonitorLoop, OrderingMode, Pipeline};
use std::sync::{Arc, Mutex};

fn run(monitor: MonitorLoop) {
    monitor.run()
}

fn keep(monitor: MonitorLoop) -> MonitorLoop {
    monitor
}

#[test]
fn a_new_handle_takes_items() {
    let sink = InBlock::new(BlockMode::Sequential(OrderingMode::Unordered), || |x: i32| x);
    let stage = InOutBlock::new(sink, BlockMode::Parallel(2), || |x: i32| Some(x));
    let pipeline: Pipeline<_, _, _, _, _, _, MonitorLoop> = Pipeline::new(stage, Vec::new());
    assert_eq!(pipeline.post(1), Ok(()));
    assert_eq!(pipeline.post(2), Ok(()));
}

#[test]
fn a_handle_without_its_head_block_answers_unknown_error() {
    let sink = InBlock::new(BlockMode::Sequential(OrderingMode::Unordered), || |x: i32| x);
    let stage = InOutBlock::new(sink, BlockMode::Parallel(2), || |x: i32| Some(x));
    let mut pipeline = Pipeline::new(stage, Vec::new());
    pipeline.release(run);
    assert_eq!(pipeline.post(1), Err(ItemPostError::UnknownError));
}

#[test]
fn the_end_counts_before_the_missing_head_block() {
    let sink = InBlock::new(BlockMode::Sequential(OrderingMode::Unordered), || |x: i32| x);
    let stage = InOutBlock::new(sink, BlockMode::Parallel(2), || |x: i32| Some(x));
    let mut pipeline = Pipeline::new(stage, Vec::new());
    pipeline.end_and_wait(run);
    pipeline.release(run);
    assert_eq!(pipeline.post(1), Err(ItemPostError::StreamEnded));
}

#[test]
fn a_handle_without_its_head_block_has_collected_nothing() {
    let sink = InBlock::new(BlockMode::Sequential(OrderingMode::Unordered), || |x: i32| x);
    let stage = InOutBlock::new(sink, BlockMode::Parallel(2), || |x: i32| Some(x));
    let mut pipeline = Pipeline::new(stage, Vec::new());
    pipeline.release(run);
    assert_eq!(pipeline.collect(run), Some(vec![]));
}

#[test]
fn start_hands_each_loop_over_once_and_in_order() {
    let sink = InBlock::new(BlockMode::Sequential(OrderingMode::Unordered), || |x: i32| x);
    let stage = InOutBlock::new(sink, BlockMode::Parallel(2), || |x: i32| Some(x));
    let trace = Arc::new(Mutex::new(Vec::new()));
    let mut monitors = Vec::new();
    for name in ["first", "second", "third"] {
        let trace = trace.clone();
        monitors.push(MonitorLoop::new(move || trace.lock().unwrap().push(name)));
    }
    let mut pipeline = Pipeline::new(stage, monitors);
    let mut started = 0;
    pipeline.start(|monitor: MonitorLoop| {
        started += 1;
        (started, monitor)
    });
    assert_eq!(started, 3);
    // No loop is left to start.
    pipeline.start(|monitor: MonitorLoop| {
        started += 1;
        (started, monitor)
    });
    assert_eq!(started, 3);
    let mut joined = Vec::new();
    pipeline.end_and_wait(|(number, monitor): (i32, MonitorLoop)| {
        joined.push(number);
        monitor.run();
    });
    assert_eq!(joined, vec![1, 2, 3]);
    assert_eq!(*trace.lock().unwrap(), vec!["first", "second", "third"]);
}

#[test]
fn a_handle_does_not_collect_while_a_worker_is_left() {
    let mut sink = InBlock::new(BlockMode::Sequential(OrderingMode::Ordered), || |x: i32| x);
    let sink_worker = sink.monitor_posts();
    let stage = InOutBlock::new(sink, BlockMode::Parallel(2), || |x: i32| Some(x + 1));
    let mut pipeline = Pipeline::new(stage, Vec::new());
    pipeline.start(keep);
    assert_eq!(pipeline.collect(run), None);
    drop(sink_worker);
}

#[test]
fn an_error_tells_its_kind() {
    assert_ne!(ItemPostError::StreamEnded, ItemPostError::UnknownError);
    assert_eq!(format!("{:?}", ItemPostError::StreamEnded), "StreamEnded");
    assert_eq!(format!("{:?}", ItemPostError::UnknownError), "UnknownError");
}
