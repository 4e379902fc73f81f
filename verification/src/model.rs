//! A running pipeline as a transition system.
//!
//! The workers of a pipeline share three kinds of state: the queues, the ordered
//! store of the sink, and the count of replicas that each stage keeps. Every
//! access to one of them is a single locked or atomic operation, so a run of the
//! pipeline is a sequence of such operations, taken by the handle and the
//! workers in any interleaving. A `Step` is one of them, and `next` applies it
//! with the functions that the contracts of the queue, the store and the
//! workers are stated in. What a worker computes between two operations is its
//! own: the output of a stage is a parameter of the step that hands it on.
//!
//! The payloads of all stages are taken from one type `V`.
use crate::blocks::{
    cursor_after, spec_dropped_turn, spec_sink_entry, spec_stop_turn, spec_value_turn, stop_token,
    OrderingMode, SinkEntry,
};
use crate::work_storage::{QueueView, TimestampedWorkItem, WorkItem};
use vstd::prelude::*;

verus! {

/// Where a replica of a stage stands in its loop.
pub enum Replica<V> {
    /// Waiting at the queue of its stage.
    Idle,
    /// Has taken an item and not yet acted on it.
    Holding(TimestampedWorkItem<V>),
    /// Has taken the stop token and counted itself out. While `hands_on` holds
    /// it still has to hand the token to the next block; then it puts it back.
    Leaving { token: TimestampedWorkItem<V>, hands_on: bool },
    /// Has put the token back and ended.
    Gone,
}

/// A transforming stage at one moment.
pub struct StageModel<V> {
    /// The queue that its replicas share.
    pub queue: QueueView<V>,
    /// The count of replicas that have not seen the stop token.
    pub alive: usize,
    /// Its replicas.
    pub replicas: Seq<Replica<V>>,
    /// How many times the stage has handed the stop token to the next block.
    pub stops_handed_on: nat,
}

/// The sink at one moment.
pub struct SinkModel<V> {
    pub ordering: OrderingMode,
    /// The queue of an unordered sink.
    pub queue: QueueView<V>,
    /// The store of an ordered sink.
    pub store: Map<u64, TimestampedWorkItem<V>>,
    /// The order that an ordered sink takes next.
    pub next_item: u64,
    /// Whether the worker of the sink has ended.
    pub gone: bool,
    /// The values and dropped slots that the worker has taken, first one first.
    pub seen: Seq<TimestampedWorkItem<V>>,
}

/// A pipeline at one moment.
pub struct PipelineModel<V> {
    /// The transforming stages, head first.
    pub stages: Seq<StageModel<V>>,
    pub sink: SinkModel<V>,
    /// The flag of the handle.
    pub signaled_end: bool,
    /// The items that the handle has taken, first one first.
    pub posted: Seq<V>,
    /// How many times the end was signalled.
    pub ends: nat,
    /// What the last stage has handed to the sink, first one first.
    pub delivered: Seq<TimestampedWorkItem<V>>,
}

/// One operation on the shared state.
pub enum Step<V> {
    /// The handle is asked to take `item`: `Pipeline::post`.
    Post { item: V },
    /// The handle signals the end, as `Pipeline::end_and_wait` does before it
    /// waits.
    End,
    /// A waiting replica takes the front item of its stage's queue: the
    /// `BlockingQueue::wait_and_dequeue` of `InOutWorker::step`.
    Take { stage: int, replica: int },
    /// A replica that holds a value or a dropped slot hands on what the turn
    /// that `InOutWorker::handle` decides on says, `value_turn` or
    /// `dropped_turn`; `output` is what the stage returned for a value.
    Emit { stage: int, replica: int, output: Option<V> },
    /// A replica that holds the stop token counts itself out, and its turn is
    /// the `stop_turn` with the count it found.
    CountOut { stage: int, replica: int },
    /// The last replica of a stage hands the stop token to the next block: the
    /// first half of taking a `stop_turn`.
    HandOn { stage: int, replica: int },
    /// A leaving replica puts the stop token back into its stage's queue: the
    /// second half of taking a `stop_turn`.
    PutBack { stage: int, replica: int },
    /// The worker of the sink takes its next item and handles it:
    /// `InWorker::step`.
    SinkTake,
}

impl<V> Replica<V> {
    /// Whether the replica has not yet counted itself out.
    pub open spec fn counts(self) -> bool {
        self is Idle || self is Holding
    }

    /// Whether the replica holds a value or a dropped slot.
    pub open spec fn holds_live(self) -> bool {
        self matches Replica::Holding(item) && item.is_live()
    }

    /// Whether the replica has taken the stop token.
    pub open spec fn stopped(self) -> bool {
        !(self is Idle) && !self.holds_live()
    }

    /// Whether the replica has the stop token in hand.
    pub open spec fn holds_stop(self) -> bool {
        self.stopped() && !(self is Gone)
    }
}

impl<V> StageModel<V> {
    /// A stage with `replicas` waiting replicas and an empty queue.
    pub open spec fn fresh(replicas: nat) -> StageModel<V> {
        StageModel {
            queue: QueueView::fresh(),
            alive: replicas as usize,
            replicas: Seq::new(replicas, |i: int| Replica::Idle),
            stops_handed_on: 0,
        }
    }

    /// The stage after the block before it has handed it `item`.
    pub open spec fn receive(self, item: TimestampedWorkItem<V>) -> StageModel<V> {
        StageModel { queue: self.queue.enqueue_timestamped(item), ..self }
    }

    /// The stage with replica `replica` standing at `at`.
    pub open spec fn with_replica(self, replica: int, at: Replica<V>) -> StageModel<V> {
        StageModel { replicas: self.replicas.update(replica, at), ..self }
    }

    /// Whether every replica has ended.
    pub open spec fn all_gone(self) -> bool {
        forall|r: int| 0 <= r < self.replicas.len() ==> #[trigger] self.replicas[r] is Gone
    }
}

impl<V> SinkModel<V> {
    /// A sink that has taken nothing.
    pub open spec fn fresh(ordering: OrderingMode) -> SinkModel<V> {
        SinkModel {
            ordering,
            queue: QueueView::fresh(),
            store: Map::empty(),
            next_item: 0,
            gone: false,
            seen: Seq::empty(),
        }
    }

    /// The sink after the last stage has handed it `item`, which goes where
    /// `sink_entry` says: an unordered sink queues it under an order of its
    /// own, an ordered sink stores it under the order it carries.
    pub open spec fn receive(self, item: TimestampedWorkItem<V>) -> SinkModel<V> {
        match spec_sink_entry(self.ordering, item) {
            SinkEntry::Queue(bare) => SinkModel { queue: self.queue.enqueue(bare), ..self },
            SinkEntry::Store(kept) => SinkModel { store: self.store.insert(kept.1, kept), ..self },
        }
    }

    /// Whether the worker can take an item.
    pub open spec fn can_take(self) -> bool {
        &&& !self.gone
        &&& match self.ordering {
            OrderingMode::Unordered => self.queue.items.len() > 0,
            OrderingMode::Ordered => self.store.contains_key(self.next_item),
        }
    }

    /// The item that the worker takes next.
    pub open spec fn front(self) -> TimestampedWorkItem<V> {
        match self.ordering {
            OrderingMode::Unordered => self.queue.items[0],
            OrderingMode::Ordered => self.store[self.next_item],
        }
    }

    /// The sink after its worker has taken its next item and handled it.
    pub open spec fn take(self) -> SinkModel<V> {
        let item = self.front();
        let left = match self.ordering {
            OrderingMode::Unordered => SinkModel { queue: self.queue.dequeue(), ..self },
            OrderingMode::Ordered => SinkModel {
                store: self.store.remove(self.next_item),
                next_item: cursor_after(item.0, self.next_item),
                ..self
            },
        };
        if item.0 is Stop {
            SinkModel { gone: true, ..left }
        } else {
            SinkModel { seen: left.seen.push(item), ..left }
        }
    }
}

impl<V> PipelineModel<V> {
    /// A pipeline that has not run: stage `i` has `shape[i]` replicas.
    pub open spec fn init(shape: Seq<nat>, ordering: OrderingMode) -> PipelineModel<V> {
        PipelineModel {
            stages: Seq::new(shape.len(), |i: int| StageModel::fresh(shape[i])),
            sink: SinkModel::fresh(ordering),
            signaled_end: false,
            posted: Seq::empty(),
            ends: 0,
            delivered: Seq::empty(),
        }
    }

    /// Whether `stage` and `replica` name a replica of the pipeline.
    pub open spec fn has_replica(self, stage: int, replica: int) -> bool {
        0 <= stage < self.stages.len() && 0 <= replica < self.stages[stage].replicas.len()
    }

    /// The pipeline with `stage` in the state `to`.
    pub open spec fn with_stage(self, stage: int, to: StageModel<V>) -> PipelineModel<V> {
        PipelineModel { stages: self.stages.update(stage, to), ..self }
    }

    /// The pipeline after `stage` has handed `item` to the block behind it: the
    /// next stage, or the sink behind the last one.
    pub open spec fn hand_down(self, stage: int, item: TimestampedWorkItem<V>) -> PipelineModel<
        V,
    > {
        if stage + 1 < self.stages.len() {
            self.with_stage(stage + 1, self.stages[stage + 1].receive(item))
        } else {
            PipelineModel {
                sink: self.sink.receive(item),
                delivered: self.delivered.push(item),
                ..self
            }
        }
    }

    /// Whether `step` can be taken.
    pub open spec fn enabled(self, step: Step<V>) -> bool {
        match step {
            Step::Post { item } => self.stages.len() > 0,
            Step::End => self.stages.len() > 0,
            Step::Take { stage, replica } => {
                &&& self.has_replica(stage, replica)
                &&& self.stages[stage].replicas[replica] is Idle
                &&& self.stages[stage].queue.items.len() > 0
            },
            Step::Emit { stage, replica, output } => {
                &&& self.has_replica(stage, replica)
                &&& self.stages[stage].replicas[replica].holds_live()
            },
            Step::CountOut { stage, replica } => {
                &&& self.has_replica(stage, replica)
                &&& self.stages[stage].replicas[replica] matches Replica::Holding(item)
                &&& item.0 is Stop
            },
            Step::HandOn { stage, replica } => {
                &&& self.has_replica(stage, replica)
                &&& self.stages[stage].replicas[replica] matches Replica::Leaving { hands_on, .. }
                &&& hands_on
            },
            Step::PutBack { stage, replica } => {
                &&& self.has_replica(stage, replica)
                &&& self.stages[stage].replicas[replica] matches Replica::Leaving { hands_on, .. }
                &&& !hands_on
            },
            Step::SinkTake => self.sink.can_take(),
        }
    }

    /// The pipeline after `step`.
    pub open spec fn next(self, step: Step<V>) -> PipelineModel<V> {
        match step {
            Step::Post { item } => {
                if self.signaled_end {
                    self
                } else {
                    let head = self.stages[0];
                    PipelineModel {
                        stages: self.stages.update(
                            0,
                            StageModel { queue: head.queue.enqueue(WorkItem::Value(item)), ..head },
                        ),
                        posted: self.posted.push(item),
                        ..self
                    }
                }
            },
            Step::End => {
                let head = self.stages[0];
                PipelineModel {
                    stages: self.stages.update(
                        0,
                        StageModel { queue: head.queue.enqueue(WorkItem::Stop), ..head },
                    ),
                    signaled_end: true,
                    ends: self.ends + 1,
                    ..self
                }
            },
            Step::Take { stage, replica } => {
                let at = self.stages[stage];
                self.with_stage(
                    stage,
                    StageModel { queue: at.queue.dequeue(), ..at }.with_replica(
                        replica,
                        Replica::Holding(at.queue.items[0]),
                    ),
                )
            },
            Step::Emit { stage, replica, output } => {
                let at = self.stages[stage];
                let held = at.replicas[replica]->Holding_0;
                let turn = match held.0 {
                    WorkItem::Value(_) => spec_value_turn::<V, V>(output, held.1),
                    _ => spec_dropped_turn::<V, V>(held.1),
                };
                let forwarded = turn.hand_on->Some_0;
                self.with_stage(stage, at.with_replica(replica, Replica::Idle)).hand_down(
                    stage,
                    forwarded,
                )
            },
            Step::CountOut { stage, replica } => {
                let at = self.stages[stage];
                let token = at.replicas[replica]->Holding_0;
                self.with_stage(
                    stage,
                    StageModel {
                        alive: if at.alive == 0 {
                            usize::MAX
                        } else {
                            (at.alive - 1) as usize
                        },
                        ..at
                    }.with_replica(
                        replica,
                        Replica::Leaving {
                            token,
                            hands_on: spec_stop_turn::<V, V>(token.1, at.alive).hand_on is Some,
                        },
                    ),
                )
            },
            Step::HandOn { stage, replica } => {
                let at = self.stages[stage];
                let token = at.replicas[replica]->Leaving_token;
                self.with_stage(
                    stage,
                    StageModel { stops_handed_on: at.stops_handed_on + 1, ..at }.with_replica(
                        replica,
                        Replica::Leaving { token, hands_on: false },
                    ),
                ).hand_down(stage, stop_token(token.1))
            },
            Step::PutBack { stage, replica } => {
                let at = self.stages[stage];
                let token = at.replicas[replica]->Leaving_token;
                self.with_stage(
                    stage,
                    at.receive(stop_token(token.1)).with_replica(
                        replica,
                        Replica::Gone,
                    ),
                )
            },
            Step::SinkTake => PipelineModel { sink: self.sink.take(), ..self },
        }
    }

    /// Whether the steps of `steps` can be taken one after the other.
    pub open spec fn admits(self, steps: Seq<Step<V>>) -> bool
        decreases steps.len(),
    {
        if steps.len() == 0 {
            true
        } else {
            self.admits(steps.drop_last()) && self.run(steps.drop_last()).enabled(steps.last())
        }
    }

    /// The pipeline after the steps of `steps`.
    pub open spec fn run(self, steps: Seq<Step<V>>) -> PipelineModel<V>
        decreases steps.len(),
    {
        if steps.len() == 0 {
            self
        } else {
            self.run(steps.drop_last()).next(steps.last())
        }
    }

    /// The number of replicas of each stage, and the mode of the sink: what the
    /// pipeline was built with.
    pub open spec fn shape(self) -> (Seq<nat>, OrderingMode) {
        (Seq::new(self.stages.len(), |i: int| self.stages[i].replicas.len()), self.sink.ordering)
    }

    /// Whether every worker has ended: what joining the threads waits for.
    pub open spec fn all_gone(self) -> bool {
        &&& self.sink.gone
        &&& forall|i: int| 0 <= i < self.stages.len() ==> (#[trigger] self.stages[i]).all_gone()
    }
}

/// Whether `shape` gives every stage of a pipeline at least one replica, and no
/// more than a block can have.
pub open spec fn well_shaped(shape: Seq<nat>) -> bool {
    &&& shape.len() > 0
    &&& forall|i: int| 0 <= i < shape.len() ==> 1 <= #[trigger] shape[i] <= i32::MAX
}

} // verus!
