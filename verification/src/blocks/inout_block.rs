//! The transforming block, its replicas, and what a replica does with each
//! kind of item.
use crate::blocks::blocks::{BlockMode, LoopStatus, PipelineBlock};
use crate::sync::{try_unwrap, Monitor};
use crate::work_storage::{BlockingQueue, TimestampedWorkItem, WorkItem};
use std::marker::PhantomData;
use std::sync::atomic::{AtomicUsize, Ordering};
use std::sync::Arc;
use vstd::prelude::*;

verus! {

/// A transforming stage: it turns an input into an output, or into nothing.
pub trait InOut<TInput, TOutput> {
    /// What has to hold of the stage for `process` to be called, and still
    /// holds after it. A stage that says nothing here can always be called.
    open spec fn stage_ready(&self) -> bool {
        true
    }

    /// Whether the stage can return `output` for `input`. A stage that says
    /// nothing here can return anything.
    open spec fn makes(&self, input: TInput, output: Option<TOutput>) -> bool {
        true
    }

    /// Turns `input` into an output, or into nothing where the item is to be
    /// dropped.
    fn process(&mut self, input: TInput) -> (output: Option<TOutput>)
        requires
            old(self).stage_ready(),
        ensures
            final(self).stage_ready(),
            old(self).makes(input, output),
    ;
}

impl<TInput, TOutput, F> InOut<TInput, TOutput> for F where F: FnMut(TInput) -> Option<TOutput> {
    open spec fn stage_ready(&self) -> bool {
        forall|input: TInput| call_requires(*self, (input,))
    }

    open spec fn makes(&self, input: TInput, output: Option<TOutput>) -> bool {
        call_ensures(*self, (input,), output)
    }

    /// Calls the function on `input` and returns what it gives.
    fn process(&mut self, input: TInput) -> (output: Option<TOutput>)
        ensures
            call_ensures(*old(self), (input,), output),
    {
        (*self)(input)
    }
}

/// What a stage hands on for an input of order `order`: the output as a value,
/// or the slot of a dropped item where there is no output.
pub open spec fn spec_stage_output<TOutput>(
    output: Option<TOutput>,
    order: u64,
) -> TimestampedWorkItem<TOutput> {
    match output {
        Some(val) => TimestampedWorkItem(WorkItem::Value(val), order),
        None => TimestampedWorkItem(WorkItem::Dropped, order),
    }
}

/// What a stage hands on for an input of order `order`.
#[verifier::when_used_as_spec(spec_stage_output)]
pub fn stage_output<TOutput>(output: Option<TOutput>, order: u64) -> (forwarded:
    TimestampedWorkItem<TOutput>)
    ensures
        forwarded == spec_stage_output(output, order),
{
    match output {
        Some(val) => TimestampedWorkItem(WorkItem::Value(val), order),
        None => TimestampedWorkItem(WorkItem::Dropped, order),
    }
}

/// Whether the replica that found `alive_before` replicas alive, itself among
/// them, is the last of its stage to see the stop token.
pub open spec fn spec_is_last_replica(alive_before: usize) -> bool {
    alive_before == 1
}

/// Whether the replica that found `alive_before` replicas alive is the last one.
#[verifier::when_used_as_spec(spec_is_last_replica)]
pub fn is_last_replica(alive_before: usize) -> (last: bool)
    ensures
        last == spec_is_last_replica(alive_before),
{
    alive_before == 1
}

/// The stop token under the order `order`.
pub open spec fn stop_token<T>(order: u64) -> TimestampedWorkItem<T> {
    TimestampedWorkItem(WorkItem::Stop, order)
}

/// What a replica does in one turn with the item it has taken: what it hands to
/// the next block, what it puts back into the queue of its own block, in this
/// sequence, and whether it goes on.
pub struct StageTurn<TInput, TOutput> {
    pub hand_on: Option<TimestampedWorkItem<TOutput>>,
    pub put_back: Option<TimestampedWorkItem<TInput>>,
    pub status: LoopStatus,
}

/// The turn on a value of order `order` for which the stage returned `output`:
/// the output, or the slot of a dropped item, goes on under the same order.
pub open spec fn spec_value_turn<TInput, TOutput>(
    output: Option<TOutput>,
    order: u64,
) -> StageTurn<TInput, TOutput> {
    StageTurn {
        hand_on: Some(spec_stage_output(output, order)),
        put_back: None,
        status: LoopStatus::Running,
    }
}

/// The turn on the slot of a dropped item of order `order`: it goes on as it is.
pub open spec fn spec_dropped_turn<TInput, TOutput>(order: u64) -> StageTurn<TInput, TOutput> {
    StageTurn {
        hand_on: Some(TimestampedWorkItem(WorkItem::Dropped, order)),
        put_back: None,
        status: LoopStatus::Running,
    }
}

/// The turn on the stop token of order `order` of a replica that found
/// `alive_before` replicas alive: the last one hands the token on, each puts it
/// back under the same order, and the replica ends.
pub open spec fn spec_stop_turn<TInput, TOutput>(order: u64, alive_before: usize) -> StageTurn<
    TInput,
    TOutput,
> {
    StageTurn {
        hand_on: if spec_is_last_replica(alive_before) {
            Some(stop_token(order))
        } else {
            None
        },
        put_back: Some(stop_token(order)),
        status: LoopStatus::Finished,
    }
}

/// The turn on a value of order `order` for which the stage returned `output`.
#[verifier::when_used_as_spec(spec_value_turn)]
pub fn value_turn<TInput, TOutput>(output: Option<TOutput>, order: u64) -> (turn: StageTurn<
    TInput,
    TOutput,
>)
    ensures
        turn == spec_value_turn::<TInput, TOutput>(output, order),
{
    StageTurn { hand_on: Some(stage_output(output, order)), put_back: None, status: LoopStatus::Running }
}

/// The turn on the slot of a dropped item of order `order`.
#[verifier::when_used_as_spec(spec_dropped_turn)]
pub fn dropped_turn<TInput, TOutput>(order: u64) -> (turn: StageTurn<TInput, TOutput>)
    ensures
        turn == spec_dropped_turn::<TInput, TOutput>(order),
{
    StageTurn {
        hand_on: Some(TimestampedWorkItem(WorkItem::Dropped, order)),
        put_back: None,
        status: LoopStatus::Running,
    }
}

/// The turn on the stop token of order `order` of a replica that found
/// `alive_before` replicas alive.
#[verifier::when_used_as_spec(spec_stop_turn)]
pub fn stop_turn<TInput, TOutput>(order: u64, alive_before: usize) -> (turn: StageTurn<
    TInput,
    TOutput,
>)
    ensures
        turn == spec_stop_turn::<TInput, TOutput>(order, alive_before),
{
    let hand_on = if is_last_replica(alive_before) {
        Some(TimestampedWorkItem(WorkItem::Stop, order))
    } else {
        None
    };
    StageTurn {
        hand_on,
        put_back: Some(TimestampedWorkItem(WorkItem::Stop, order)),
        status: LoopStatus::Finished,
    }
}

/// A transforming block of a pipeline: a queue of inputs, a number of replicas
/// that share it, and the block that takes their outputs.
#[verifier::reject_recursive_types(TInput)]
#[verifier::reject_recursive_types(TOutput)]
#[verifier::reject_recursive_types(TCollected)]
#[verifier::reject_recursive_types(TStage)]
pub struct InOutBlock<
    TInput,
    TOutput,
    TCollected,
    TStage: InOut<TInput, TOutput> + Send,
    TFactory: FnMut() -> TStage,
    TNextStep: PipelineBlock<TOutput, TCollected> + Send,
> {
    work_queue: Arc<BlockingQueue<TInput>>,
    next_step: Arc<TNextStep>,
    transformer_factory: TFactory,
    replicas: i32,
    // The block holds no output and no collected item: it can be shared among
    // threads wherever a lock around them could.
    _params: PhantomData<Monitor<(TOutput, TCollected)>>,
}

/// One replica of a transforming block.
#[verifier::reject_recursive_types(TInput)]
#[verifier::reject_recursive_types(TOutput)]
#[verifier::reject_recursive_types(TCollected)]
pub struct InOutWorker<
    TInput,
    TOutput,
    TCollected,
    TStage: InOut<TInput, TOutput> + Send,
    TNextStep: PipelineBlock<TOutput, TCollected> + Send,
> {
    queue: Arc<BlockingQueue<TInput>>,
    alive_threads: Arc<AtomicUsize>,
    next_step: Arc<TNextStep>,
    transformer: TStage,
    _params: PhantomData<(TOutput, TCollected)>,
}

impl<
    TInput,
    TOutput,
    TCollected,
    TStage: InOut<TInput, TOutput> + Send,
    TNextStep: PipelineBlock<TOutput, TCollected> + Send + Sync,
> InOutWorker<TInput, TOutput, TCollected, TStage, TNextStep> {
    /// Whether the stage may be handed a value.
    pub closed spec fn ready(&self) -> bool {
        self.transformer.stage_ready()
    }

    /// The stage of the replica.
    pub closed spec fn stage(&self) -> TStage {
        self.transformer
    }

    /// One turn of the loop: waits for the next item of the block's queue,
    /// decides on the turn, and takes it.
    pub fn step(&mut self) -> (status: LoopStatus)
        requires
            old(self).ready(),
        ensures
            final(self).ready(),
    {
        let dequeued = self.queue.wait_and_dequeue();
        let turn = self.handle(dequeued);
        self.perform(turn)
    }

    /// The turn of the replica on an item it has taken. A value goes through
    /// the stage, and the output, or the slot of a dropped item, goes on under
    /// the same order. The slot of a dropped item goes on as it is, and the
    /// stage is not called for it. On the stop token the replica counts itself
    /// out and leaves: the last one of the stage hands the token on, and each
    /// puts it back for the replicas still waiting.
    pub fn handle(&mut self, dequeued: TimestampedWorkItem<TInput>) -> (turn: StageTurn<
        TInput,
        TOutput,
    >)
        requires
            old(self).ready(),
        ensures
            final(self).ready(),
            match dequeued.0 {
                WorkItem::Value(val) => exists|output: Option<TOutput>| #[trigger]
                    old(self).stage().makes(val, output) && turn == spec_value_turn::<
                        TInput,
                        TOutput,
                    >(output, dequeued.1),
                WorkItem::Dropped => {
                    &&& turn == spec_dropped_turn::<TInput, TOutput>(dequeued.1)
                    &&& final(self).stage() == old(self).stage()
                },
                WorkItem::Stop => {
                    &&& exists|alive_before: usize|
                        turn == #[trigger] spec_stop_turn::<TInput, TOutput>(
                            dequeued.1,
                            alive_before,
                        )
                    &&& final(self).stage() == old(self).stage()
                },
            },
    {
        let TimestampedWorkItem(work, order) = dequeued;
        match work {
            WorkItem::Value(val) => {
                let output = self.transformer.process(val);
                assert(old(self).stage().makes(val, output));
                value_turn(output, order)
            },
            WorkItem::Dropped => dropped_turn(order),
            WorkItem::Stop => {
                let alive_before: usize = self.alive_threads.fetch_sub(1, Ordering::SeqCst);
                stop_turn(order, alive_before)
            },
        }
    }

    /// Takes a turn: hands on what is to be handed to the next block, then puts
    /// back what is to be put back into the queue of the replica's own block.
    pub fn perform(&self, turn: StageTurn<TInput, TOutput>) -> (status: LoopStatus)
        ensures
            status == turn.status,
    {
        let StageTurn { hand_on, put_back, status } = turn;
        match hand_on {
            Some(item) => self.next_step.process_timestamped(item),
            None => {},
        }
        match put_back {
            Some(item) => self.queue.enqueue_timestamped(item),
            None => {},
        }
        status
    }
}

impl<
    TInput,
    TOutput,
    TCollected,
    TStage: InOut<TInput, TOutput> + Send,
    TFactory: FnMut() -> TStage,
    TNextStep: PipelineBlock<TOutput, TCollected> + Send + Sync,
> InOutBlock<TInput, TOutput, TCollected, TStage, TFactory, TNextStep> {
    /// The number of replicas of the block.
    pub closed spec fn replicas(&self) -> i32 {
        self.replicas
    }

    /// Whether the block has a replica, and its factory may be called and makes
    /// stages that may be handed values.
    pub closed spec fn ready(&self) -> bool {
        &&& self.replicas >= 1
        &&& call_requires(self.transformer_factory, ())
        &&& forall|stage: TStage|
            call_ensures(self.transformer_factory, (), stage) ==> stage.stage_ready()
    }

    /// Queues the stop token at the tail of the block's input.
    pub fn send_stop(&self) {
        self.work_queue.enqueue(WorkItem::Stop);
    }
}

impl<
    TInput,
    TOutput,
    TCollected,
    TStage: InOut<TInput, TOutput> + Send,
    TFactory: FnMut() -> TStage,
    TNextStep: PipelineBlock<TOutput, TCollected> + Send + Sync,
> PipelineBlock<TInput, TCollected> for InOutBlock<
    TInput,
    TOutput,
    TCollected,
    TStage,
    TFactory,
    TNextStep,
> {
    /// Queues an item under the next order of the block's queue.
    fn process(&self, input: WorkItem<TInput>) {
        self.work_queue.enqueue(input);
    }

    /// Queues an item under the order it carries.
    fn process_timestamped(&self, input: TimestampedWorkItem<TInput>) {
        self.work_queue.enqueue_timestamped(input)
    }

    /// Gives up the next block and, through it, what the sink has collected.
    /// `None` while a replica shares the next block.
    fn collect(self) -> Option<Vec<TCollected>> {
        match try_unwrap(self.next_step) {
            Ok(result) => result.collect(),
            Err(_) => None,
        }
    }
}

impl<
    TInput,
    TOutput,
    TCollected,
    TStage: InOut<TInput, TOutput> + Send,
    TFactory: FnMut() -> TStage,
    TNextStep: PipelineBlock<TOutput, TCollected> + Send + Sync,
> InOutBlock<TInput, TOutput, TCollected, TStage, TFactory, TNextStep> {
    /// A block in front of `next_step`, with as many replicas as the mode
    /// `transformer` calls for: the given number for a parallel block, one for a
    /// sequential block.
    pub fn new(next_step: TNextStep, transformer: BlockMode, transformer_factory: TFactory) -> (block:
        InOutBlock<TInput, TOutput, TCollected, TStage, TFactory, TNextStep>)
        requires
            transformer.spec_replicas() >= 1,
            call_requires(transformer_factory, ()),
            forall|stage: TStage|
                call_ensures(transformer_factory, (), stage) ==> stage.stage_ready(),
        ensures
            block.ready(),
            block.replicas() == transformer.spec_replicas(),
    {
        match transformer {
            BlockMode::Parallel(replicas) => {
                InOutBlock::new_block(next_step, transformer_factory, replicas)
            },
            BlockMode::Sequential(_) => InOutBlock::new_block(next_step, transformer_factory, 1),
        }
    }

    /// A block in front of `next_step` with `replicas` replicas.
    pub fn new_block(next_step: TNextStep, transformer: TFactory, replicas: i32) -> (block:
        InOutBlock<TInput, TOutput, TCollected, TStage, TFactory, TNextStep>)
        requires
            replicas >= 1,
            call_requires(transformer, ()),
            forall|stage: TStage| call_ensures(transformer, (), stage) ==> stage.stage_ready(),
        ensures
            block.ready(),
            block.replicas() == replicas,
    {
        InOutBlock {
            work_queue: BlockingQueue::new(),
            next_step: Arc::new(next_step),
            transformer_factory: transformer,
            replicas,
            _params: PhantomData,
        }
    }

    /// The replicas of the block, one worker each. They share the queue, the
    /// next block, and the count of replicas that have not seen the stop token,
    /// which starts at their number.
    pub fn monitor_posts(&mut self) -> (monitors: Vec<
        InOutWorker<TInput, TOutput, TCollected, TStage, TNextStep>,
    >)
        requires
            old(self).ready(),
        ensures
            final(self).ready(),
            final(self).replicas() == old(self).replicas(),
            monitors@.len() == old(self).replicas(),
            forall|i: int| 0 <= i < monitors@.len() ==> (#[trigger] monitors@[i]).ready(),
    {
        let mut monitors: Vec<InOutWorker<TInput, TOutput, TCollected, TStage, TNextStep>> =
            Vec::new();
        let alive_threads = Arc::new(AtomicUsize::new(self.replicas as usize));
        let mut made: i32 = 0;
        while made < self.replicas
            invariant
                self.ready(),
                self.replicas() == old(self).replicas(),
                0 <= made <= self.replicas,
                monitors@.len() == made,
                forall|i: int| 0 <= i < monitors@.len() ==> (#[trigger] monitors@[i]).ready(),
            decreases self.replicas - made,
        {
            let transformer = (self.transformer_factory)();
            monitors.push(
                InOutWorker {
                    queue: self.work_queue.clone(),
                    alive_threads: alive_threads.clone(),
                    next_step: self.next_step.clone(),
                    transformer,
                    _params: PhantomData,
                },
            );
            made = made + 1;
        }
        monitors
    }
}

} // verus!
