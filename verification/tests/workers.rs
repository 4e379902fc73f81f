use rust_spp::blocks::{dropped_turn, sink_entry, stop_turn, value_turn};
use rust_spp::{
    BlockMode, In, InBlock, InOut, InOutBlock, InOutWorker, InWorker, LoopStatus, OrderingMode,
    PipelineBlock, SinkEntry, StageTurn, TimestampedWorkItem, WorkItem,
};
use std::sync::atomic::{AtomicUsize, Ordering};
use std::sync::{Arc, Mutex};

/// Lets a replica decide on its turn for `item` and take it.
fn turn<S, N>(worker: &mut InOutWorker<i32, i32, i32, S, N>, item: TimestampedWorkItem<i32>) -> LoopStatus
where
    S: InOut<i32, i32> + Send,
    N: PipelineBlock<i32, i32> + Send + Sync,
{
    let decided = worker.handle(item);
    worker.perform(decided)
}

/// Lets the worker of a sink handle `item` and keep what came back.
fn sink_turn<H>(worker: &mut InWorker<i32, i32, H>, item: TimestampedWorkItem<i32>) -> LoopStatus
where
    H: In<i32, i32>,
{
    let (status, kept) = worker.handle(item);
    worker.keep(kept);
    status
}

/// What a block was handed, in the order it came.
#[derive(Clone, Debug, PartialEq, Eq)]
enum Got {
    Value(i32, u64),
    Dropped(u64),
    Stop(u64),
    Untimed(i32),
}

/// A block that only writes down what it is handed.
#[derive(Clone)]
struct Recorder {
    got: Arc<Mutex<Vec<Got>>>,
}

impl Recorder {
    fn new() -> Recorder {
        Recorder { got: Arc::new(Mutex::new(Vec::new())) }
    }

    fn got(&self) -> Vec<Got> {
        self.got.lock().unwrap().clone()
    }
}

impl PipelineBlock<i32, i32> for Recorder {
    fn process(&self, input: WorkItem<i32>) {
        if let WorkItem::Value(v) = input {
            self.got.lock().unwrap().push(Got::Untimed(v));
        }
    }

    fn process_timestamped(&self, input: TimestampedWorkItem<i32>) {
        let entry = match input {
            TimestampedWorkItem(WorkItem::Value(v), order) => Got::Value(v, order),
            TimestampedWorkItem(WorkItem::Dropped, order) => Got::Dropped(order),
            TimestampedWorkItem(WorkItem::Stop, order) => Got::Stop(order),
        };
        self.got.lock().unwrap().push(entry);
    }

    fn collect(self) -> Option<Vec<i32>> {
        Some(Vec::new())
    }
}

/// A sink that writes down the order of each value it is handed.
struct Orders {
    seen: Arc<Mutex<Vec<u64>>>,
}

impl In<i32, i32> for Orders {
    fn process(&mut self, input: i32, order: u64) -> i32 {
        self.seen.lock().unwrap().push(order);
        input
    }
}

#[test]
fn a_replica_hands_on_outputs_under_the_order_of_the_input() {
    let next = Recorder::new();
    let mut block =
        InOutBlock::new(next.clone(), BlockMode::Parallel(1), || |x: i32| Some(x + 100));
    let mut workers = block.monitor_posts();
    assert_eq!(workers.len(), 1);
    let worker = &mut workers[0];
    assert_eq!(turn(worker, TimestampedWorkItem(WorkItem::Value(1), 7)), LoopStatus::Running);
    assert_eq!(turn(worker, TimestampedWorkItem(WorkItem::Value(2), 3)), LoopStatus::Running);
    assert_eq!(next.got(), vec![Got::Value(101, 7), Got::Value(102, 3)]);
}

#[test]
fn a_replica_hands_on_a_dropped_slot_where_the_stage_returns_nothing() {
    let next = Recorder::new();
    let mut block = InOutBlock::new(next.clone(), BlockMode::Sequential(OrderingMode::Unordered), || {
        |x: i32| if x % 2 == 0 { Some(x) } else { None }
    });
    let mut workers = block.monitor_posts();
    let worker = &mut workers[0];
    assert_eq!(turn(worker, TimestampedWorkItem(WorkItem::Value(4), 0)), LoopStatus::Running);
    assert_eq!(turn(worker, TimestampedWorkItem(WorkItem::Value(5), 1)), LoopStatus::Running);
    assert_eq!(turn(worker, TimestampedWorkItem(WorkItem::Dropped, 2)), LoopStatus::Running);
    assert_eq!(next.got(), vec![Got::Value(4, 0), Got::Dropped(1), Got::Dropped(2)]);
}

#[test]
fn only_the_last_replica_hands_the_stop_token_on() {
    let next = Recorder::new();
    let mut block = InOutBlock::new(next.clone(), BlockMode::Parallel(3), || |x: i32| Some(x));
    let mut workers = block.monitor_posts();
    assert_eq!(workers.len(), 3);
    assert_eq!(turn(&mut workers[0], TimestampedWorkItem(WorkItem::Stop, 9)), LoopStatus::Finished);
    assert_eq!(next.got(), vec![]);
    assert_eq!(turn(&mut workers[1], TimestampedWorkItem(WorkItem::Stop, 9)), LoopStatus::Finished);
    assert_eq!(next.got(), vec![]);
    assert_eq!(turn(&mut workers[2], TimestampedWorkItem(WorkItem::Stop, 9)), LoopStatus::Finished);
    assert_eq!(next.got(), vec![Got::Stop(9)]);
}

#[test]
fn every_replica_puts_the_stop_token_back() {
    let next = Recorder::new();
    let mut block = InOutBlock::new(next.clone(), BlockMode::Parallel(4), || |x: i32| Some(x));
    let mut workers = block.monitor_posts();
    block.process(WorkItem::Value(1));
    block.send_stop();
    // The first replica takes the value and the token; each of the others finds
    // the token that the one before it has put back.
    assert_eq!(workers[0].step(), LoopStatus::Running);
    for worker in workers.iter_mut() {
        assert_eq!(worker.step(), LoopStatus::Finished);
    }
    assert_eq!(next.got(), vec![Got::Value(1, 0), Got::Stop(1)]);
}

#[test]
fn a_block_gives_a_posted_item_the_next_order_of_its_queue() {
    let next = Recorder::new();
    let mut block = InOutBlock::new(next.clone(), BlockMode::Parallel(1), || |x: i32| Some(x));
    let mut workers = block.monitor_posts();
    block.process(WorkItem::Value(10));
    block.process(WorkItem::Value(11));
    block.process_timestamped(TimestampedWorkItem(WorkItem::Value(12), 40));
    block.process(WorkItem::Value(13));
    for _ in 0..4 {
        assert_eq!(workers[0].step(), LoopStatus::Running);
    }
    assert_eq!(
        next.got(),
        vec![Got::Value(10, 0), Got::Value(11, 1), Got::Value(12, 40), Got::Value(13, 2)]
    );
}

#[test]
fn an_ordered_sink_takes_the_orders_one_after_the_other() {
    let seen = Arc::new(Mutex::new(Vec::new()));
    let shared = seen.clone();
    let mut sink = InBlock::new(BlockMode::Sequential(OrderingMode::Ordered), move || Orders {
        seen: shared.clone(),
    });
    let mut worker = sink.monitor_posts();
    sink.process_timestamped(TimestampedWorkItem(WorkItem::Stop, 4));
    sink.process_timestamped(TimestampedWorkItem(WorkItem::Value(30), 3));
    sink.process_timestamped(TimestampedWorkItem(WorkItem::Value(10), 1));
    sink.process_timestamped(TimestampedWorkItem(WorkItem::Dropped, 2));
    sink.process_timestamped(TimestampedWorkItem(WorkItem::Value(0), 0));
    for _ in 0..4 {
        assert_eq!(worker.step(), LoopStatus::Running);
    }
    assert_eq!(worker.step(), LoopStatus::Finished);
    drop(worker);
    assert_eq!(*seen.lock().unwrap(), vec![0, 1, 3]);
    assert_eq!(sink.collect(), Some(vec![0, 10, 30]));
}

#[test]
fn an_unordered_sink_takes_the_items_as_they_arrive() {
    let seen = Arc::new(Mutex::new(Vec::new()));
    let shared = seen.clone();
    let mut sink = InBlock::new(BlockMode::Sequential(OrderingMode::Unordered), move || Orders {
        seen: shared.clone(),
    });
    let mut worker = sink.monitor_posts();
    sink.process_timestamped(TimestampedWorkItem(WorkItem::Value(30), 3));
    sink.process_timestamped(TimestampedWorkItem(WorkItem::Dropped, 2));
    sink.process_timestamped(TimestampedWorkItem(WorkItem::Value(10), 1));
    sink.process_timestamped(TimestampedWorkItem(WorkItem::Stop, 4));
    for _ in 0..3 {
        assert_eq!(worker.step(), LoopStatus::Running);
    }
    assert_eq!(worker.step(), LoopStatus::Finished);
    drop(worker);
    // The sink numbers the items as they arrive.
    assert_eq!(*seen.lock().unwrap(), vec![0, 2]);
    assert_eq!(sink.collect(), Some(vec![30, 10]));
}

#[test]
fn a_sink_that_is_posted_to_numbers_the_items_itself() {
    let mut sink = InBlock::new(BlockMode::Sequential(OrderingMode::Ordered), || |x: i32| x * 3);
    let mut worker = sink.monitor_posts();
    sink.process(WorkItem::Value(1));
    sink.process(WorkItem::Dropped);
    sink.process(WorkItem::Value(2));
    sink.process(WorkItem::Stop);
    for _ in 0..3 {
        assert_eq!(worker.step(), LoopStatus::Running);
    }
    assert_eq!(worker.step(), LoopStatus::Finished);
    drop(worker);
    assert_eq!(sink.collect(), Some(vec![3, 6]));
}

#[test]
fn a_sink_worker_handles_what_it_is_given() {
    let mut sink = InBlock::new(BlockMode::Sequential(OrderingMode::Ordered), || |x: i32| x + 1);
    let mut worker = sink.monitor_ordered();
    assert_eq!(sink_turn(&mut worker, TimestampedWorkItem(WorkItem::Value(1), 0)), LoopStatus::Running);
    assert_eq!(sink_turn(&mut worker, TimestampedWorkItem(WorkItem::Dropped, 1)), LoopStatus::Running);
    assert_eq!(sink_turn(&mut worker, TimestampedWorkItem(WorkItem::Value(5), 2)), LoopStatus::Running);
    assert_eq!(sink_turn(&mut worker, TimestampedWorkItem(WorkItem::Stop, 3)), LoopStatus::Finished);
    drop(worker);
    assert_eq!(sink.collect(), Some(vec![2, 6]));
}

#[test]
fn a_sink_does_not_give_up_what_a_worker_still_shares() {
    let mut sink = InBlock::new(BlockMode::Sequential(OrderingMode::Unordered), || |x: i32| x);
    let worker = sink.monitor_posts();
    assert_eq!(sink.collect(), None);
    drop(worker);
}

#[test]
fn a_block_does_not_give_up_what_a_replica_still_shares() {
    let sink = InBlock::new(BlockMode::Sequential(OrderingMode::Unordered), || |x: i32| x);
    let mut block = InOutBlock::new(sink, BlockMode::Parallel(2), || |x: i32| Some(x));
    let workers = block.monitor_posts();
    assert_eq!(block.collect(), None);
    drop(workers);
}

#[test]
fn a_block_without_workers_gives_up_an_empty_collection() {
    let sink = InBlock::new(BlockMode::Sequential(OrderingMode::Unordered), || |x: i32| x);
    let block = InOutBlock::new(sink, BlockMode::Parallel(2), || |x: i32| Some(x));
    assert_eq!(block.collect(), Some(vec![]));
}

#[test]
fn an_ordered_sink_puts_right_what_replicas_hand_on_out_of_order() {
    let mut sink = InBlock::new(BlockMode::Sequential(OrderingMode::Ordered), || |x: i32| x);
    let mut sink_worker = sink.monitor_posts();
    let mut block = InOutBlock::new(sink, BlockMode::Parallel(2), || |x: i32| Some(x * 10));
    let mut replicas = block.monitor_posts();
    // The second replica is faster with the later items.
    assert_eq!(turn(&mut replicas[1], TimestampedWorkItem(WorkItem::Value(3), 2)), LoopStatus::Running);
    assert_eq!(turn(&mut replicas[1], TimestampedWorkItem(WorkItem::Value(2), 1)), LoopStatus::Running);
    assert_eq!(turn(&mut replicas[0], TimestampedWorkItem(WorkItem::Value(1), 0)), LoopStatus::Running);
    assert_eq!(turn(&mut replicas[1], TimestampedWorkItem(WorkItem::Stop, 3)), LoopStatus::Finished);
    assert_eq!(turn(&mut replicas[0], TimestampedWorkItem(WorkItem::Stop, 3)), LoopStatus::Finished);
    for _ in 0..3 {
        assert_eq!(sink_worker.step(), LoopStatus::Running);
    }
    assert_eq!(sink_worker.step(), LoopStatus::Finished);
    drop(sink_worker);
    drop(replicas);
    assert_eq!(block.collect(), Some(vec![10, 20, 30]));
}

#[test]
fn an_unordered_sink_keeps_what_replicas_hand_on_as_it_comes() {
    let mut sink = InBlock::new(BlockMode::Sequential(OrderingMode::Unordered), || |x: i32| x);
    let mut sink_worker = sink.monitor_posts();
    let mut block = InOutBlock::new(sink, BlockMode::Parallel(2), || |x: i32| Some(x * 10));
    let mut replicas = block.monitor_posts();
    assert_eq!(turn(&mut replicas[1], TimestampedWorkItem(WorkItem::Value(3), 2)), LoopStatus::Running);
    assert_eq!(turn(&mut replicas[0], TimestampedWorkItem(WorkItem::Value(1), 0)), LoopStatus::Running);
    assert_eq!(turn(&mut replicas[1], TimestampedWorkItem(WorkItem::Value(2), 1)), LoopStatus::Running);
    assert_eq!(turn(&mut replicas[0], TimestampedWorkItem(WorkItem::Stop, 3)), LoopStatus::Finished);
    assert_eq!(turn(&mut replicas[1], TimestampedWorkItem(WorkItem::Stop, 3)), LoopStatus::Finished);
    for _ in 0..3 {
        assert_eq!(sink_worker.step(), LoopStatus::Running);
    }
    assert_eq!(sink_worker.step(), LoopStatus::Finished);
    drop(sink_worker);
    drop(replicas);
    assert_eq!(block.collect(), Some(vec![30, 10, 20]));
}


fn shape<T, U>(turn: &StageTurn<T, U>) -> (Option<(&WorkItem<U>, u64)>, Option<(&WorkItem<T>, u64)>, LoopStatus) {
    (
        turn.hand_on.as_ref().map(|item| (&item.0, item.1)),
        turn.put_back.as_ref().map(|item| (&item.0, item.1)),
        turn.status,
    )
}

#[test]
fn the_turn_on_a_value_hands_the_output_on_under_the_same_order() {
    let made = value_turn::<i32, i32>(Some(6), 4);
    assert!(matches!(shape(&made), (Some((WorkItem::Value(6), 4)), None, LoopStatus::Running)));
    let nothing = value_turn::<i32, i32>(None, 9);
    assert!(matches!(shape(&nothing), (Some((WorkItem::Dropped, 9)), None, LoopStatus::Running)));
}

#[test]
fn the_turn_on_a_dropped_slot_hands_it_on_as_it_is() {
    let passed = dropped_turn::<i32, i32>(7);
    assert!(matches!(shape(&passed), (Some((WorkItem::Dropped, 7)), None, LoopStatus::Running)));
}

#[test]
fn the_turn_on_the_stop_token_puts_it_back_and_only_the_last_hands_it_on() {
    let last = stop_turn::<i32, i32>(5, 1);
    assert!(matches!(
        shape(&last),
        (Some((WorkItem::Stop, 5)), Some((WorkItem::Stop, 5)), LoopStatus::Finished)
    ));
    let earlier = stop_turn::<i32, i32>(5, 2);
    assert!(matches!(shape(&earlier), (None, Some((WorkItem::Stop, 5)), LoopStatus::Finished)));
    let none_left = stop_turn::<i32, i32>(5, 0);
    assert!(matches!(shape(&none_left), (None, Some((WorkItem::Stop, 5)), LoopStatus::Finished)));
}

#[test]
fn a_replica_decides_on_the_turn_that_its_item_calls_for() {
    let next = Recorder::new();
    let mut block = InOutBlock::new(next.clone(), BlockMode::Parallel(2), || |x: i32| Some(x * 2));
    let mut workers = block.monitor_posts();
    let on_value = workers[0].handle(TimestampedWorkItem(WorkItem::Value(3), 8));
    assert!(matches!(shape(&on_value), (Some((WorkItem::Value(6), 8)), None, LoopStatus::Running)));
    let on_dropped = workers[0].handle(TimestampedWorkItem(WorkItem::Dropped, 9));
    assert!(matches!(shape(&on_dropped), (Some((WorkItem::Dropped, 9)), None, LoopStatus::Running)));
    let first = workers[0].handle(TimestampedWorkItem(WorkItem::Stop, 10));
    assert!(matches!(shape(&first), (None, Some((WorkItem::Stop, 10)), LoopStatus::Finished)));
    let second = workers[1].handle(TimestampedWorkItem(WorkItem::Stop, 10));
    assert!(matches!(
        shape(&second),
        (Some((WorkItem::Stop, 10)), Some((WorkItem::Stop, 10)), LoopStatus::Finished)
    ));
    // Deciding on a turn hands nothing on.
    assert_eq!(next.got(), vec![]);
}

#[test]
fn two_replicas_hand_one_value_and_one_stop_token_on() {
    let next = Recorder::new();
    let mut block = InOutBlock::new(next.clone(), BlockMode::Parallel(2), || |x: i32| Some(x * 2));
    block.process(WorkItem::Value(3));
    block.send_stop();
    let mut workers = block.monitor_posts();
    assert_eq!(workers.len(), 2);
    while workers[0].step() == LoopStatus::Running {}
    while workers[1].step() == LoopStatus::Running {}
    assert_eq!(next.got(), vec![Got::Value(6, 0), Got::Stop(1)]);
    // The token lies in the block's queue under its order: two more replicas
    // find it there, and the last of them hands it on once more.
    let mut spare = block.monitor_posts();
    assert_eq!(spare[0].step(), LoopStatus::Finished);
    assert_eq!(spare[1].step(), LoopStatus::Finished);
    assert_eq!(next.got(), vec![Got::Value(6, 0), Got::Stop(1), Got::Stop(1)]);
}

#[test]
fn a_stage_that_returns_nothing_keeps_the_slot_under_the_same_order() {
    let next = Recorder::new();
    let mut block = InOutBlock::new(next.clone(), BlockMode::Parallel(1), || {
        |x: i32| if x % 5 != 0 { Some(x) } else { None }
    });
    block.process(WorkItem::Value(0));
    block.process(WorkItem::Value(1));
    block.send_stop();
    let mut workers = block.monitor_posts();
    while workers[0].step() == LoopStatus::Running {}
    assert_eq!(next.got(), vec![Got::Dropped(0), Got::Value(1, 1), Got::Stop(2)]);
}

#[test]
fn the_stage_is_not_called_for_a_dropped_slot() {
    let next = Recorder::new();
    let calls = Arc::new(AtomicUsize::new(0));
    let counted = calls.clone();
    let mut block = InOutBlock::new(next.clone(), BlockMode::Parallel(1), move || {
        let counted = counted.clone();
        move |x: i32| {
            counted.fetch_add(1, Ordering::SeqCst);
            Some(x)
        }
    });
    block.process_timestamped(TimestampedWorkItem(WorkItem::Dropped, 7));
    block.process_timestamped(TimestampedWorkItem(WorkItem::Stop, 9));
    let mut workers = block.monitor_posts();
    while workers[0].step() == LoopStatus::Running {}
    assert_eq!(next.got(), vec![Got::Dropped(7), Got::Stop(9)]);
    assert_eq!(calls.load(Ordering::SeqCst), 0);
}

#[test]
fn the_stop_token_follows_what_was_posted_before_it() {
    let next = Recorder::new();
    let mut block = InOutBlock::new(next.clone(), BlockMode::Parallel(1), || |x: i32| Some(x));
    block.process(WorkItem::Value(1));
    block.process(WorkItem::Value(2));
    block.send_stop();
    // Sending the token calls nothing on the next block.
    assert_eq!(next.got(), vec![]);
    let mut workers = block.monitor_posts();
    while workers[0].step() == LoopStatus::Running {}
    assert_eq!(next.got(), vec![Got::Value(1, 0), Got::Value(2, 1), Got::Stop(2)]);
}

#[test]
fn an_ordered_sink_acts_on_the_stop_token_when_its_order_comes() {
    let mut sink = InBlock::new(BlockMode::Sequential(OrderingMode::Ordered), || |x: char| x);
    sink.process_timestamped(TimestampedWorkItem(WorkItem::Stop, 3));
    sink.process_timestamped(TimestampedWorkItem(WorkItem::Value('c'), 2));
    sink.process_timestamped(TimestampedWorkItem(WorkItem::Dropped, 1));
    sink.process_timestamped(TimestampedWorkItem(WorkItem::Value('a'), 0));
    let mut worker = sink.monitor_ordered();
    let mut turns = 0;
    while worker.step() == LoopStatus::Running {
        turns += 1;
    }
    assert_eq!(turns, 3);
    drop(worker);
    assert_eq!(sink.collect(), Some(vec!['a', 'c']));
}

#[test]
fn an_ordered_sink_that_finds_the_stop_token_first_collects_nothing() {
    let called = Arc::new(AtomicUsize::new(0));
    let counted = called.clone();
    let mut sink = InBlock::new(BlockMode::Sequential(OrderingMode::Ordered), move || {
        let counted = counted.clone();
        move |x: char| {
            counted.fetch_add(1, Ordering::SeqCst);
            x
        }
    });
    sink.process_timestamped(TimestampedWorkItem(WorkItem::Stop, 0));
    sink.process_timestamped(TimestampedWorkItem(WorkItem::Value('x'), 1));
    let mut worker = sink.monitor_ordered();
    assert_eq!(worker.step(), LoopStatus::Finished);
    drop(worker);
    assert_eq!(called.load(Ordering::SeqCst), 0);
    assert_eq!(sink.collect(), Some(Vec::<char>::new()));
}

#[test]
fn a_sink_worker_gives_back_what_the_sink_made_of_a_value() {
    let mut sink = InBlock::new(BlockMode::Sequential(OrderingMode::Unordered), || |x: i32| x + 1);
    let mut worker = sink.monitor_posts();
    assert_eq!(
        worker.handle(TimestampedWorkItem(WorkItem::Value(4), 0)),
        (LoopStatus::Running, Some(5))
    );
    assert_eq!(worker.handle(TimestampedWorkItem(WorkItem::Dropped, 1)), (LoopStatus::Running, None));
    assert_eq!(worker.handle(TimestampedWorkItem(WorkItem::Stop, 2)), (LoopStatus::Finished, None));
    // Nothing is kept before the worker is told to keep it.
    worker.keep(None);
    worker.keep(Some(8));
    drop(worker);
    assert_eq!(sink.collect(), Some(vec![8]));
}

#[test]
fn an_unordered_sink_queues_the_bare_item() {
    assert!(matches!(
        sink_entry(OrderingMode::Unordered, TimestampedWorkItem(WorkItem::Value(3), 9)),
        SinkEntry::Queue(WorkItem::Value(3))
    ));
    assert!(matches!(
        sink_entry(OrderingMode::Unordered, TimestampedWorkItem(WorkItem::<i32>::Stop, 9)),
        SinkEntry::Queue(WorkItem::Stop)
    ));
}

#[test]
fn an_ordered_sink_stores_an_item_under_its_own_order() {
    assert!(matches!(
        sink_entry(OrderingMode::Ordered, TimestampedWorkItem(WorkItem::Value(3), 9)),
        SinkEntry::Store(TimestampedWorkItem(WorkItem::Value(3), 9))
    ));
    assert!(matches!(
        sink_entry(OrderingMode::Ordered, TimestampedWorkItem(WorkItem::<i32>::Dropped, 0)),
        SinkEntry::Store(TimestampedWorkItem(WorkItem::Dropped, 0))
    ));
}
