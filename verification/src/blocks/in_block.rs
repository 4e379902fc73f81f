//! The sink: the block at the end of a pipeline, and its worker.
use crate::blocks::blocks::{BlockMode, LoopStatus, OrderingMode, PipelineBlock};
use crate::sync::{guarded, into_inner, lock, try_unwrap, Monitor};
use crate::work_storage::blocking_queue::next_order;
use crate::work_storage::{BlockingOrderedSet, BlockingQueue, TimestampedWorkItem, WorkItem};
use std::sync::atomic::{AtomicU64, Ordering};
use std::sync::Arc;
use vstd::prelude::*;

verus! {

/// A sink: it takes each value that reaches the end of the pipeline, with its
/// order, and may give something back to be collected.
pub trait In<TInput, TCollected = ()> {
    /// What has to hold of the sink for `process` to be called, and still holds
    /// after it. A sink that says nothing here can always be called.
    open spec fn sink_ready(&self) -> bool {
        true
    }

    /// Whether the sink can return `collected` for `input` of order `order`. A
    /// sink that says nothing here can return anything.
    open spec fn gives(&self, input: TInput, order: u64, collected: TCollected) -> bool {
        true
    }

    /// Takes `input`, the value of order `order`, and returns what is to be
    /// collected for it.
    fn process(&mut self, input: TInput, order: u64) -> (collected: TCollected)
        requires
            old(self).sink_ready(),
        ensures
            final(self).sink_ready(),
            old(self).gives(input, order, collected),
    ;
}

impl<TInput, TCollected, F> In<TInput, TCollected> for F where F: FnMut(TInput) -> TCollected {
    open spec fn sink_ready(&self) -> bool {
        forall|input: TInput| call_requires(*self, (input,))
    }

    open spec fn gives(&self, input: TInput, order: u64, collected: TCollected) -> bool {
        call_ensures(*self, (input,), collected)
    }

    /// Calls the function on `input` and returns what it gives; a function
    /// takes no order.
    fn process(&mut self, input: TInput, _order: u64) -> (collected: TCollected)
        ensures
            call_ensures(*old(self), (input,), collected),
    {
        (*self)(input)
    }
}

/// The order that a sink expects after it has taken `item` at `cursor`: the
/// next one after a value or the slot of a dropped item, the same after a stop.
pub open spec fn cursor_after<T>(item: WorkItem<T>, cursor: u64) -> u64 {
    if item is Stop {
        cursor
    } else {
        next_order(cursor)
    }
}

/// Where a sink puts an item that it is handed.
pub enum SinkEntry<T> {
    /// Into the queue, which gives it an order of its own.
    Queue(WorkItem<T>),
    /// Into the store, under the order it carries.
    Store(TimestampedWorkItem<T>),
}

/// Where a sink of the mode `ordering` puts `input`: an unordered sink queues
/// the bare item as it arrives, an ordered sink stores it under its order.
pub open spec fn spec_sink_entry<T>(
    ordering: OrderingMode,
    input: TimestampedWorkItem<T>,
) -> SinkEntry<T> {
    match ordering {
        OrderingMode::Unordered => SinkEntry::Queue(input.0),
        OrderingMode::Ordered => SinkEntry::Store(input),
    }
}

/// Where a sink of the mode `ordering` puts `input`.
#[verifier::when_used_as_spec(spec_sink_entry)]
pub fn sink_entry<T>(ordering: OrderingMode, input: TimestampedWorkItem<T>) -> (entry: SinkEntry<T>)
    ensures
        entry == spec_sink_entry(ordering, input),
{
    match ordering {
        OrderingMode::Unordered => {
            let TimestampedWorkItem(work_item, _) = input;
            SinkEntry::Queue(work_item)
        },
        OrderingMode::Ordered => SinkEntry::Store(input),
    }
}

/// The block at the end of a pipeline: one worker that hands each value to the
/// sink and keeps what the sink gives back.
#[verifier::reject_recursive_types(TInput)]
#[verifier::reject_recursive_types(TCollected)]
pub struct InBlock<TInput, TCollected, TFactory> {
    work_queue: Arc<BlockingQueue<TInput>>,
    ordered_work: Arc<BlockingOrderedSet<TInput>>,
    collected_items: Arc<Monitor<Vec<TCollected>>>,
    handler: TFactory,
    ordering: OrderingMode,
    counter: AtomicU64,
}

impl<TInput, TCollected, TFactory> InBlock<TInput, TCollected, TFactory> {
    /// The mode the block was made with.
    pub closed spec fn ordering(&self) -> OrderingMode {
        self.ordering
    }

    /// Puts an item into the queue or into the store, as `entry` says.
    fn enter(&self, entry: SinkEntry<TInput>) {
        match entry {
            SinkEntry::Queue(work_item) => {
                self.work_queue.enqueue(work_item);
            },
            SinkEntry::Store(item) => {
                self.ordered_work.enqueue(item);
            },
        }
    }
}

impl<TInput, TCollected, TFactory> PipelineBlock<TInput, TCollected> for InBlock<
    TInput,
    TCollected,
    TFactory,
> {
    /// Takes an item that has no order yet, and puts it where `sink_entry`
    /// says, under the next order of the sink's own count. An unordered sink has
    /// no use for that count: its queue counts.
    fn process(&self, input: WorkItem<TInput>) {
        let count: u64 = match self.ordering {
            OrderingMode::Unordered => 0,
            OrderingMode::Ordered => self.counter.fetch_add(1, Ordering::SeqCst),
        };
        self.enter(sink_entry(self.ordering, TimestampedWorkItem(input, count)));
    }

    /// Takes an item from the block before, and puts it where `sink_entry`
    /// says: an unordered sink queues it as it arrives, an ordered sink stores
    /// it under the order it carries.
    fn process_timestamped(&self, input: TimestampedWorkItem<TInput>) {
        self.enter(sink_entry(self.ordering, input));
    }

    /// Gives up what the sink has collected, in the order it was collected in.
    /// `None` while a worker shares it.
    fn collect(self) -> Option<Vec<TCollected>> {
        match try_unwrap(self.collected_items) {
            Ok(result) => Some(into_inner(result)),
            Err(_) => None,
        }
    }
}

/// The worker of a sink.
#[verifier::reject_recursive_types(TInput)]
#[verifier::reject_recursive_types(TCollected)]
pub struct InWorker<TInput, TCollected, THandler> {
    ordering: OrderingMode,
    queue: Arc<BlockingQueue<TInput>>,
    storage: Arc<BlockingOrderedSet<TInput>>,
    handler: THandler,
    collected: Arc<Monitor<Vec<TCollected>>>,
    next_item: u64,
}

impl<TInput, TCollected, THandler: In<TInput, TCollected>> InWorker<TInput, TCollected, THandler> {
    /// The mode of the sink that the worker serves.
    pub closed spec fn ordering(&self) -> OrderingMode {
        self.ordering
    }

    /// The order that an ordered sink takes next.
    pub closed spec fn next_item(&self) -> u64 {
        self.next_item
    }

    /// Whether the sink may be handed a value.
    pub closed spec fn ready(&self) -> bool {
        self.handler.sink_ready()
    }

    /// The sink that the worker hands the values to.
    pub closed spec fn sink(&self) -> THandler {
        self.handler
    }

    /// One turn of the loop: waits for the next item, in arrival order or under
    /// the expected order, handles it, and keeps what the sink gave back for a
    /// value. An ordered sink expects the next order afterwards, unless the item
    /// was the stop token.
    pub fn step(&mut self) -> (status: LoopStatus)
        requires
            old(self).ready(),
        ensures
            final(self).ready(),
            final(self).ordering() == old(self).ordering(),
            final(self).next_item() == match (old(self).ordering(), status) {
                (OrderingMode::Ordered, LoopStatus::Running) => next_order(old(self).next_item()),
                _ => old(self).next_item(),
            },
    {
        let item = match self.ordering {
            OrderingMode::Unordered => self.queue.wait_and_dequeue(),
            OrderingMode::Ordered => self.storage.wait_and_remove(self.next_item),
        };
        let (status, kept) = self.handle(item);
        self.keep(kept);
        status
    }

    /// What the worker does with an item it has taken: a value goes to the
    /// sink, with its order, and what the sink gives back is to be kept; the
    /// slot of a dropped item is passed over; the stop token ends the loop. An
    /// ordered sink is handed the order it expects, and then expects the next
    /// one.
    pub fn handle(&mut self, item: TimestampedWorkItem<TInput>) -> (turn: (
        LoopStatus,
        Option<TCollected>,
    ))
        requires
            old(self).ready(),
            old(self).ordering() == OrderingMode::Ordered ==> item.1 == old(self).next_item(),
        ensures
            turn.0 == LoopStatus::Finished <==> item.0 is Stop,
            match item.0 {
                WorkItem::Value(val) => turn.1 matches Some(collected) && old(self).sink().gives(
                    val,
                    item.1,
                    collected,
                ),
                _ => turn.1 is None && final(self).sink() == old(self).sink(),
            },
            final(self).ordering() == old(self).ordering(),
            final(self).next_item() == match old(self).ordering() {
                OrderingMode::Ordered => cursor_after(item.0, old(self).next_item()),
                OrderingMode::Unordered => old(self).next_item(),
            },
            final(self).ready(),
    {
        let TimestampedWorkItem(work, order) = item;
        match work {
            WorkItem::Value(val) => {
                let collected = self.handler.process(val, order);
                self.advance();
                (LoopStatus::Running, Some(collected))
            },
            WorkItem::Dropped => {
                self.advance();
                (LoopStatus::Running, None)
            },
            WorkItem::Stop => (LoopStatus::Finished, None),
        }
    }

    /// Appends what the sink gave back, if it gave anything, to what the sink
    /// has collected.
    pub fn keep(&self, kept: Option<TCollected>) {
        match kept {
            Some(collected) => {
                let mut held = lock(&self.collected);
                guarded(&mut held).push(collected);
            },
            None => {},
        }
    }

    /// Lets an ordered sink expect the next order.
    fn advance(&mut self)
        ensures
            final(self).ordering == old(self).ordering,
            final(self).handler == old(self).handler,
            final(self).queue == old(self).queue,
            final(self).storage == old(self).storage,
            final(self).collected == old(self).collected,
            final(self).next_item == match old(self).ordering {
                OrderingMode::Ordered => next_order(old(self).next_item),
                OrderingMode::Unordered => old(self).next_item,
            },
    {
        match self.ordering {
            OrderingMode::Ordered => {
                self.next_item = self.next_item.wrapping_add(1);
            },
            OrderingMode::Unordered => {},
        }
    }
}

impl<
    TInput,
    TCollected,
    THandler: In<TInput, TCollected>,
    TFactory: FnMut() -> THandler,
> InBlock<TInput, TCollected, TFactory> {
    /// Whether the factory may be called and makes sinks that may be handed values.
    pub closed spec fn ready(&self) -> bool {
        &&& call_requires(self.handler, ())
        &&& forall|sink: THandler| call_ensures(self.handler, (), sink) ==> sink.sink_ready()
    }

    /// The worker of this sink, which runs the loop that its mode calls for.
    pub fn monitor_posts(&mut self) -> (worker: InWorker<TInput, TCollected, THandler>)
        requires
            old(self).ready(),
        ensures
            final(self).ready(),
            final(self).ordering() == old(self).ordering(),
            worker.ready(),
            worker.ordering() == old(self).ordering(),
            worker.next_item() == 0,
    {
        match self.ordering {
            OrderingMode::Ordered => self.monitor_ordered(),
            OrderingMode::Unordered => self.monitor_unordered(),
        }
    }

    /// The worker of an unordered sink: it takes the items as they arrive.
    fn monitor_unordered(&mut self) -> (worker: InWorker<TInput, TCollected, THandler>)
        requires
            old(self).ready(),
        ensures
            final(self).ready(),
            final(self).ordering() == old(self).ordering(),
            worker.ready(),
            worker.ordering() == OrderingMode::Unordered,
            worker.next_item() == 0,
    {
        let handler = (self.handler)();
        InWorker {
            ordering: OrderingMode::Unordered,
            queue: self.work_queue.clone(),
            storage: self.ordered_work.clone(),
            handler,
            collected: self.collected_items.clone(),
            next_item: 0,
        }
    }

    /// The worker of an ordered sink: it takes the items in the order of
    /// submission, starting at order zero.
    pub fn monitor_ordered(&mut self) -> (worker: InWorker<TInput, TCollected, THandler>)
        requires
            old(self).ready(),
        ensures
            final(self).ready(),
            final(self).ordering() == old(self).ordering(),
            worker.ready(),
            worker.ordering() == OrderingMode::Ordered,
            worker.next_item() == 0,
    {
        let handler = (self.handler)();
        InWorker {
            ordering: OrderingMode::Ordered,
            queue: self.work_queue.clone(),
            storage: self.ordered_work.clone(),
            handler,
            collected: self.collected_items.clone(),
            next_item: 0,
        }
    }

    /// A sink block in the mode `behavior`, which has to be sequential: a sink
    /// has one worker.
    pub fn new(behavior: BlockMode, factory: TFactory) -> (block: InBlock<
        TInput,
        TCollected,
        TFactory,
    >)
        requires
            behavior is Sequential,
            call_requires(factory, ()),
            forall|sink: THandler| call_ensures(factory, (), sink) ==> sink.sink_ready(),
        ensures
            block.ready(),
            behavior == BlockMode::Sequential(block.ordering()),
    {
        match behavior {
            BlockMode::Parallel(_) => vstd::pervasive::unreached(),
            BlockMode::Sequential(ordering) => InBlock {
                work_queue: BlockingQueue::new(),
                handler: factory,
                ordering: ordering,
                ordered_work: BlockingOrderedSet::new(),
                counter: AtomicU64::new(0),
                collected_items: Arc::new(Monitor::new(Vec::new())),
            },
        }
    }
}

} // verus!
