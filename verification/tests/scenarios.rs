use rust_spp::{
    BlockMode, In, InBlock, InOut, InOutBlock, InOutWorker, InWorker, ItemPostError, LoopStatus,
    MonitorLoop, OrderingMode, Pipeline, PipelineBlock,
};
use std::sync::{Arc, Mutex};

fn sink_loop<T, C, H>(mut worker: InWorker<T, C, H>) -> MonitorLoop
where
    T: Send + 'static,
    C: Send + 'static,
    H: In<T, C> + Send + 'static,
{
    MonitorLoop::new(move || while worker.step() == LoopStatus::Running {})
}

fn stage_loop<T, U, C, S, N>(mut worker: InOutWorker<T, U, C, S, N>) -> MonitorLoop
where
    T: Send + 'static,
    U: Send + 'static,
    C: Send + 'static,
    S: InOut<T, U> + Send + 'static,
    N: PipelineBlock<U, C> + Send + Sync + 'static,
{
    MonitorLoop::new(move || while worker.step() == LoopStatus::Running {})
}

/// The loops of a pipeline in the order in which one thread can run them to
/// their ends: those of the head block first, so that each finds its whole
/// input, with the stop token behind it, when its turn comes.
fn head_first(mut monitors: Vec<MonitorLoop>) -> Vec<MonitorLoop> {
    monitors.reverse();
    monitors
}

/// Starting a loop here is keeping it for later.
fn keep(monitor: MonitorLoop) -> MonitorLoop {
    monitor
}

/// Joining a loop here is running it to its end.
fn run(monitor: MonitorLoop) {
    monitor.run()
}

/// A sink that writes down the order of each value it is handed.
struct Orders {
    seen: Arc<Mutex<Vec<u64>>>,
}

impl In<i32, i32> for Orders {
    fn process(&mut self, input: i32, order: u64) -> i32 {
        self.seen.lock().unwrap().push(order);
        input
    }
}

#[test]
fn doubling_twice_into_an_ordered_sink() {
    let mut monitors: Vec<MonitorLoop> = Vec::new();
    let mut sink = InBlock::new(BlockMode::Sequential(OrderingMode::Ordered), || |x: i32| x);
    monitors.push(sink_loop(sink.monitor_posts()));
    let mut second = InOutBlock::new(sink, BlockMode::Parallel(4), || |x: i32| Some(x * 2));
    monitors.extend(second.monitor_posts().into_iter().map(stage_loop));
    let mut first = InOutBlock::new(second, BlockMode::Parallel(4), || |x: i32| Some(x * 2));
    monitors.extend(first.monitor_posts().into_iter().map(stage_loop));
    assert_eq!(monitors.len(), 9);
    let mut pipeline = Pipeline::new(first, head_first(monitors));
    pipeline.start(keep);
    for i in 0..10 {
        assert_eq!(pipeline.post(i), Ok(()));
    }
    assert_eq!(pipeline.collect(run), Some(vec![0, 4, 8, 12, 16, 20, 24, 28, 32, 36]));
}

#[test]
fn filtering_leaves_dropped_slots_that_the_ordered_sink_passes_over() {
    let seen = Arc::new(Mutex::new(Vec::new()));
    let shared = seen.clone();
    let mut monitors: Vec<MonitorLoop> = Vec::new();
    let mut sink = InBlock::new(BlockMode::Sequential(OrderingMode::Ordered), move || Orders {
        seen: shared.clone(),
    });
    monitors.push(sink_loop(sink.monitor_posts()));
    let mut stage = InOutBlock::new(sink, BlockMode::Parallel(8), || {
        |x: i32| if x % 5 != 0 { Some(x) } else { None }
    });
    monitors.extend(stage.monitor_posts().into_iter().map(stage_loop));
    let mut pipeline = Pipeline::new(stage, head_first(monitors));
    pipeline.start(keep);
    for i in 0..10 {
        assert_eq!(pipeline.post(i), Ok(()));
    }
    assert_eq!(pipeline.collect(run), Some(vec![1, 2, 3, 4, 6, 7, 8, 9]));
    // Of the orders 0 to 9 the two that no value came under are 0 and 5.
    let orders = seen.lock().unwrap().clone();
    assert_eq!(orders, vec![1, 2, 3, 4, 6, 7, 8, 9]);
    let missing: Vec<u64> = (0..10).filter(|order| !orders.contains(order)).collect();
    assert_eq!(missing, vec![0, 5]);
}

#[test]
fn an_unordered_sink_collects_every_item_once() {
    let mut monitors: Vec<MonitorLoop> = Vec::new();
    let mut sink = InBlock::new(BlockMode::Sequential(OrderingMode::Unordered), || |x: i32| x);
    monitors.push(sink_loop(sink.monitor_posts()));
    let mut stage = InOutBlock::new(sink, BlockMode::Parallel(8), || |x: i32| Some(x));
    monitors.extend(stage.monitor_posts().into_iter().map(stage_loop));
    let mut pipeline = Pipeline::new(stage, head_first(monitors));
    pipeline.start(keep);
    for i in 0..1000 {
        assert_eq!(pipeline.post(i), Ok(()));
    }
    let mut collected = pipeline.collect(run).unwrap();
    assert_eq!(collected.len(), 1000);
    collected.sort();
    assert_eq!(collected, (0..1000).collect::<Vec<i32>>());
}

#[test]
fn a_released_handle_lets_every_worker_end() {
    let mut monitors: Vec<MonitorLoop> = Vec::new();
    let mut sink = InBlock::new(BlockMode::Sequential(OrderingMode::Ordered), || |x: i32| x);
    monitors.push(sink_loop(sink.monitor_posts()));
    let mut second = InOutBlock::new(sink, BlockMode::Parallel(4), || |x: i32| Some(x * 2));
    monitors.extend(second.monitor_posts().into_iter().map(stage_loop));
    let mut first = InOutBlock::new(second, BlockMode::Parallel(4), || |x: i32| Some(x * 2));
    monitors.extend(first.monitor_posts().into_iter().map(stage_loop));
    let mut pipeline = Pipeline::new(first, head_first(monitors));
    pipeline.start(keep);
    for i in 0..100 {
        assert_eq!(pipeline.post(i), Ok(()));
    }
    // The end is not signalled: the handle is given up.
    let mut ended = 0;
    pipeline.release(|monitor: MonitorLoop| {
        monitor.run();
        ended += 1;
    });
    assert_eq!(ended, 9);
}

#[test]
fn a_released_handle_that_took_nothing_lets_every_worker_end() {
    let mut monitors: Vec<MonitorLoop> = Vec::new();
    let mut sink = InBlock::new(BlockMode::Sequential(OrderingMode::Unordered), || |x: i32| x);
    monitors.push(sink_loop(sink.monitor_posts()));
    let mut second = InOutBlock::new(sink, BlockMode::Parallel(3), || |x: i32| Some(x));
    monitors.extend(second.monitor_posts().into_iter().map(stage_loop));
    let mut first = InOutBlock::new(second, BlockMode::Parallel(5), || |x: i32| Some(x));
    monitors.extend(first.monitor_posts().into_iter().map(stage_loop));
    let mut pipeline = Pipeline::new(first, head_first(monitors));
    pipeline.start(keep);
    let mut ended = 0;
    pipeline.release(|monitor: MonitorLoop| {
        monitor.run();
        ended += 1;
    });
    assert_eq!(ended, 9);
}

#[test]
fn no_worker_is_left_after_the_end() {
    let mut monitors: Vec<MonitorLoop> = Vec::new();
    let mut sink = InBlock::new(BlockMode::Sequential(OrderingMode::Unordered), || |x: i32| x);
    monitors.push(sink_loop(sink.monitor_posts()));
    let mut stage = InOutBlock::new(sink, BlockMode::Parallel(6), || |x: i32| Some(x));
    monitors.extend(stage.monitor_posts().into_iter().map(stage_loop));
    let mut pipeline = Pipeline::new(stage, head_first(monitors));
    pipeline.start(keep);
    for i in 0..50 {
        assert_eq!(pipeline.post(i), Ok(()));
    }
    let mut ended = 0;
    pipeline.end_and_wait(|monitor: MonitorLoop| {
        monitor.run();
        ended += 1;
    });
    assert_eq!(ended, 7);
    // Nothing is left to wait for.
    let mut again = 0;
    pipeline.end_and_wait(|monitor: MonitorLoop| {
        monitor.run();
        again += 1;
    });
    assert_eq!(again, 0);
}

#[test]
fn a_post_after_the_end_is_refused() {
    let mut monitors: Vec<MonitorLoop> = Vec::new();
    let mut sink = InBlock::new(BlockMode::Sequential(OrderingMode::Unordered), || |x: i32| x);
    monitors.push(sink_loop(sink.monitor_posts()));
    let mut stage = InOutBlock::new(sink, BlockMode::Parallel(2), || |x: i32| Some(x));
    monitors.extend(stage.monitor_posts().into_iter().map(stage_loop));
    let mut pipeline = Pipeline::new(stage, head_first(monitors));
    pipeline.start(keep);
    pipeline.end_and_wait(run);
    assert_eq!(pipeline.post(0), Err(ItemPostError::StreamEnded));
}

#[test]
fn a_post_after_the_end_is_not_queued() {
    let mut monitors: Vec<MonitorLoop> = Vec::new();
    let mut sink = InBlock::new(BlockMode::Sequential(OrderingMode::Unordered), || |x: i32| x);
    monitors.push(sink_loop(sink.monitor_posts()));
    let mut stage = InOutBlock::new(sink, BlockMode::Parallel(2), || |x: i32| Some(x));
    monitors.extend(stage.monitor_posts().into_iter().map(stage_loop));
    let mut pipeline = Pipeline::new(stage, head_first(monitors));
    pipeline.start(keep);
    assert_eq!(pipeline.post(1), Ok(()));
    assert_eq!(pipeline.post(2), Ok(()));
    pipeline.end_and_wait(run);
    assert_eq!(pipeline.post(3), Err(ItemPostError::StreamEnded));
    assert_eq!(pipeline.post(4), Err(ItemPostError::StreamEnded));
    assert_eq!(pipeline.collect(run), Some(vec![1, 2]));
}

#[test]
fn ending_twice_is_ending_once() {
    let mut monitors: Vec<MonitorLoop> = Vec::new();
    let mut sink = InBlock::new(BlockMode::Sequential(OrderingMode::Ordered), || |x: i32| x);
    monitors.push(sink_loop(sink.monitor_posts()));
    let mut stage = InOutBlock::new(sink, BlockMode::Parallel(2), || |x: i32| Some(x + 1));
    monitors.extend(stage.monitor_posts().into_iter().map(stage_loop));
    let mut pipeline = Pipeline::new(stage, head_first(monitors));
    pipeline.start(keep);
    assert_eq!(pipeline.post(1), Ok(()));
    assert_eq!(pipeline.post(2), Ok(()));
    pipeline.end_and_wait(run);
    pipeline.end_and_wait(run);
    assert_eq!(pipeline.post(3), Err(ItemPostError::StreamEnded));
    // Collecting signals the end a third time.
    assert_eq!(pipeline.collect(run), Some(vec![2, 3]));
}

#[test]
fn a_million_items_come_out_in_order() {
    let mut monitors: Vec<MonitorLoop> = Vec::new();
    let mut sink = InBlock::new(BlockMode::Sequential(OrderingMode::Ordered), || |x: u32| x);
    monitors.push(sink_loop(sink.monitor_posts()));
    let mut second = InOutBlock::new(sink, BlockMode::Parallel(16), || |x: u32| Some(x));
    monitors.extend(second.monitor_posts().into_iter().map(stage_loop));
    let mut first = InOutBlock::new(second, BlockMode::Parallel(16), || |x: u32| Some(x));
    monitors.extend(first.monitor_posts().into_iter().map(stage_loop));
    assert_eq!(monitors.len(), 33);
    let mut pipeline = Pipeline::new(first, head_first(monitors));
    pipeline.start(keep);
    for i in 0..1_000_000 {
        assert_eq!(pipeline.post(i), Ok(()));
    }
    let collected = pipeline.collect(run).unwrap();
    assert_eq!(collected.len(), 1_000_000);
    assert!(collected.iter().enumerate().all(|(at, item)| *item as usize == at));
}

#[test]
fn an_identity_stage_returns_what_was_posted() {
    let input = vec![5, 3, 5, -1, 0, 12, 7];
    let mut monitors: Vec<MonitorLoop> = Vec::new();
    let mut sink = InBlock::new(BlockMode::Sequential(OrderingMode::Ordered), || |x: i32| x);
    monitors.push(sink_loop(sink.monitor_posts()));
    let mut stage = InOutBlock::new(sink, BlockMode::Parallel(3), || |x: i32| Some(x));
    monitors.extend(stage.monitor_posts().into_iter().map(stage_loop));
    let mut pipeline = Pipeline::new(stage, head_first(monitors));
    pipeline.start(keep);
    for item in input.iter() {
        assert_eq!(pipeline.post(*item), Ok(()));
    }
    assert_eq!(pipeline.collect(run), Some(input));
}

#[test]
fn single_workers_do_not_reorder_for_an_unordered_sink() {
    let mut monitors: Vec<MonitorLoop> = Vec::new();
    let mut sink = InBlock::new(BlockMode::Sequential(OrderingMode::Unordered), || |x: i32| x);
    monitors.push(sink_loop(sink.monitor_posts()));
    let mut second =
        InOutBlock::new(sink, BlockMode::Sequential(OrderingMode::Unordered), || |x: i32| Some(x + 1));
    monitors.extend(second.monitor_posts().into_iter().map(stage_loop));
    let mut first = InOutBlock::new(second, BlockMode::Parallel(1), || {
        |x: i32| if x % 3 == 0 { None } else { Some(x * 10) }
    });
    monitors.extend(first.monitor_posts().into_iter().map(stage_loop));
    assert_eq!(monitors.len(), 3);
    let mut pipeline = Pipeline::new(first, head_first(monitors));
    pipeline.start(keep);
    for i in 0..10 {
        assert_eq!(pipeline.post(i), Ok(()));
    }
    assert_eq!(pipeline.collect(run), Some(vec![11, 21, 41, 51, 71, 81]));
}

#[test]
fn a_parallel_block_of_one_does_what_a_sequential_block_does() {
    let mut results = Vec::new();
    for mode in [BlockMode::Parallel(1), BlockMode::Sequential(OrderingMode::Unordered)] {
        let mut monitors: Vec<MonitorLoop> = Vec::new();
        let mut sink = InBlock::new(BlockMode::Sequential(OrderingMode::Unordered), || |x: i32| x);
        monitors.push(sink_loop(sink.monitor_posts()));
        let mut stage = InOutBlock::new(sink, mode, || |x: i32| if x > 2 { Some(x * x) } else { None });
        monitors.extend(stage.monitor_posts().into_iter().map(stage_loop));
        assert_eq!(monitors.len(), 2);
        let mut pipeline = Pipeline::new(stage, head_first(monitors));
        pipeline.start(keep);
        for i in 0..6 {
            assert_eq!(pipeline.post(i), Ok(()));
        }
        results.push(pipeline.collect(run));
    }
    assert_eq!(results[0], Some(vec![9, 16, 25]));
    assert_eq!(results[0], results[1]);
}
