//! Where each order is: in a pipeline with an ordered sink, every order that
//! was given out to a posted item is at one place, in a stage, in the store of
//! the sink, or taken by the worker of the sink.
use crate::blocks::OrderingMode;
use crate::counting::{
    lemma_total_at_least, lemma_total_drop_first, lemma_total_push, lemma_total_update,
    lemma_total_zero, total,
};
use crate::invariants::orders::{
    bounded, lemma_bounded_before, lemma_order_holds, lemma_range_of_replica, order_inv,
    sink_in_order,
};
use crate::invariants::protocol::lemma_shape_kept;
use crate::model::{well_shaped, PipelineModel, Replica, SinkModel, StageModel, Step};
use crate::work_storage::{QueueView, TimestampedWorkItem, WorkItem};
use vstd::prelude::*;

verus! {

/// One for a value or a dropped slot of order `k`.
pub open spec fn counted<V>(k: u64) -> spec_fn(TimestampedWorkItem<V>) -> nat {
    |item: TimestampedWorkItem<V>|
        if item.is_live() && item.1 == k {
            1nat
        } else {
            0nat
        }
}

/// One for a replica that holds a value or a dropped slot of order `k`.
pub open spec fn holding<V>(k: u64) -> spec_fn(Replica<V>) -> nat {
    |r: Replica<V>|
        if r matches Replica::Holding(item) && item.is_live() && item.1 == k {
            1nat
        } else {
            0nat
        }
}

/// How many values and dropped slots of order `k` a stage has.
pub open spec fn stage_count<V>(k: u64) -> spec_fn(StageModel<V>) -> nat {
    |stage: StageModel<V>|
        total(stage.queue.items, counted(k)) + total(stage.replicas, holding(k))
}

/// One if the store of the sink holds a value or a dropped slot under `k`.
pub open spec fn stored<V>(sink: SinkModel<V>, k: u64) -> nat {
    if sink.store.contains_key(k) && sink.store[k].is_live() {
        1
    } else {
        0
    }
}

/// One if the worker of an ordered sink has taken the order `k`.
pub open spec fn passed<V>(sink: SinkModel<V>, k: u64) -> nat {
    if k < sink.seen.len() {
        1
    } else {
        0
    }
}

/// Whether the order `k`, if it was given out to a posted item, is at one place
/// in a pipeline with an ordered sink: in a stage, in the store, or taken by
/// the worker of the sink.
pub open spec fn census<V>(s: PipelineModel<V>, k: u64) -> bool {
    total(s.stages, stage_count(k)) + stored(s.sink, k) + passed(s.sink, k) == if k
        < s.posted.len() {
        1nat
    } else {
        0nat
    }
}

/// How the count of one order in a stage changes with one replica.
pub proof fn lemma_count_move<V>(stage: StageModel<V>, k: u64, r: int, to: Replica<V>)
    requires
        0 <= r < stage.replicas.len(),
    ensures
        stage_count(k)(stage.with_replica(r, to)) + holding(k)(stage.replicas[r]) == stage_count(
            k,
        )(stage) + holding(k)(to),
{
    lemma_total_update(stage.replicas, r, to, holding(k));
}

/// How the count of one order in a stage changes when the front item leaves.
pub proof fn lemma_count_dequeue<V>(stage: StageModel<V>, k: u64)
    requires
        stage.queue.items.len() > 0,
    ensures
        stage_count(k)(StageModel { queue: stage.queue.dequeue(), ..stage }) + counted(k)(
            stage.queue.items[0],
        ) == stage_count(k)(stage),
{
    lemma_total_drop_first(stage.queue.items, counted(k));
}

/// How the count of one order in a stage changes when an item is appended.
pub proof fn lemma_count_push<V>(
    stage: StageModel<V>,
    k: u64,
    item: TimestampedWorkItem<V>,
    inserts: u64,
)
    ensures
        stage_count(k)(
            StageModel { queue: QueueView { items: stage.queue.items.push(item), inserts }, ..stage },
        ) == stage_count(k)(stage) + counted(k)(item),
{
    lemma_total_push(stage.queue.items, item, counted(k));
}

/// What follows for the count of one order when one stage changes.
pub proof fn lemma_census_replace<V>(
    s: PipelineModel<V>,
    k: u64,
    i: int,
    to: StageModel<V>,
)
    requires
        0 <= i < s.stages.len(),
    ensures
        total(s.with_stage(i, to).stages, stage_count(k)) + stage_count(k)(s.stages[i]) == total(
            s.stages,
            stage_count(k),
        ) + stage_count(k)(to),
        total(s.stages, stage_count(k)) >= stage_count(k)(s.stages[i]),
{
    lemma_total_update(s.stages, i, to, stage_count(k));
    lemma_total_at_least(s.stages, i, stage_count(k));
}

/// When the handle takes an item.
proof fn lemma_census_posted<V>(s: PipelineModel<V>, item: V, k: u64)
    requires
        census(s, k),
        order_inv(s),
        !s.signaled_end,
        bounded(s.next(Step::Post { item })),
    ensures
        census(s.next(Step::Post { item }), k),
{
    let head = s.stages[0];
    let stamped = TimestampedWorkItem(WorkItem::Value(item), head.queue.inserts);
    let to = StageModel { queue: head.queue.enqueue(WorkItem::Value(item)), ..head };
    lemma_count_push(head, k, stamped, crate::work_storage::next_order(head.queue.inserts));
    lemma_census_replace(s, k, 0, to);
}

/// When the handle signals the end.
proof fn lemma_census_ended<V>(s: PipelineModel<V>, k: u64)
    requires
        census(s, k),
        s.stages.len() > 0,
    ensures
        census(s.next(Step::End), k),
{
    let head = s.stages[0];
    let stamped = TimestampedWorkItem(WorkItem::<V>::Stop, head.queue.inserts);
    let to = StageModel { queue: head.queue.enqueue(WorkItem::Stop), ..head };
    lemma_count_push(head, k, stamped, crate::work_storage::next_order(head.queue.inserts));
    lemma_census_replace(s, k, 0, to);
}

/// When a waiting replica takes the front item of its queue.
proof fn lemma_census_take<V>(s: PipelineModel<V>, stage: int, replica: int, k: u64)
    requires
        census(s, k),
        s.enabled(Step::Take { stage, replica }),
    ensures
        census(s.next(Step::Take { stage, replica }), k),
{
    let at = s.stages[stage];
    let shorter = StageModel { queue: at.queue.dequeue(), ..at };
    let to = shorter.with_replica(replica, Replica::Holding(at.queue.items[0]));
    lemma_count_dequeue(at, k);
    lemma_count_move(shorter, k, replica, Replica::Holding(at.queue.items[0]));
    lemma_census_replace(s, k, stage, to);
}

/// When a replica hands on what it holds.
proof fn lemma_census_emit<V>(
    s: PipelineModel<V>,
    stage: int,
    replica: int,
    output: Option<V>,
    k: u64,
)
    requires
        census(s, k),
        order_inv(s),
        s.sink.ordering == OrderingMode::Ordered,
        s.enabled(Step::Emit { stage, replica, output }),
    ensures
        census(s.next(Step::Emit { stage, replica, output }), k),
{
    let n = s.stages.len() as int;
    let at = s.stages[stage];
    let to = at.with_replica(replica, Replica::Idle);
    let mid = s.with_stage(stage, to);
    let held = at.replicas[replica]->Holding_0;
    let forwarded = match held.0 {
        WorkItem::Value(_) => crate::blocks::spec_stage_output(output, held.1),
        _ => TimestampedWorkItem(WorkItem::Dropped, held.1),
    };
    lemma_count_move(at, k, replica, Replica::Idle);
    lemma_census_replace(s, k, stage, to);
    assert(counted(k)(forwarded) == holding(k)(at.replicas[replica]));
    if stage + 1 < n {
        let next = mid.stages[stage + 1];
        lemma_count_push(next, k, forwarded, next.queue.inserts);
        assert(next.receive(forwarded) == StageModel {
            queue: QueueView {
                items: next.queue.items.push(forwarded),
                inserts: next.queue.inserts,
            },
            ..next
        });
        lemma_census_replace(mid, k, stage + 1, next.receive(forwarded));
    } else {
        if k == held.1 {
            lemma_total_at_least(at.replicas, replica, holding(k));
        }
    }
}

/// When a replica that holds the stop token counts itself out.
proof fn lemma_census_count_out<V>(s: PipelineModel<V>, stage: int, replica: int, k: u64)
    requires
        census(s, k),
        s.enabled(Step::CountOut { stage, replica }),
    ensures
        census(s.next(Step::CountOut { stage, replica }), k),
{
    let at = s.stages[stage];
    let token = at.replicas[replica]->Holding_0;
    let alive: usize = if at.alive == 0 {
        usize::MAX
    } else {
        (at.alive - 1) as usize
    };
    let fewer = StageModel { alive, ..at };
    let leaving = Replica::Leaving { token, hands_on: crate::blocks::spec_is_last_replica(at.alive) };
    lemma_count_move(fewer, k, replica, leaving);
    assert(stage_count(k)(fewer) == stage_count(k)(at));
    lemma_census_replace(s, k, stage, fewer.with_replica(replica, leaving));
}

/// When the last replica of a stage hands the stop token on.
proof fn lemma_census_hand_on<V>(s: PipelineModel<V>, stage: int, replica: int, k: u64)
    requires
        census(s, k),
        order_inv(s),
        s.sink.ordering == OrderingMode::Ordered,
        s.enabled(Step::HandOn { stage, replica }),
    ensures
        census(s.next(Step::HandOn { stage, replica }), k),
{
    let n = s.stages.len() as int;
    let at = s.stages[stage];
    let token = at.replicas[replica]->Leaving_token;
    let stop = TimestampedWorkItem(WorkItem::<V>::Stop, token.1);
    let more = StageModel { stops_handed_on: at.stops_handed_on + 1, ..at };
    let leaving = Replica::Leaving { token, hands_on: false };
    let to = more.with_replica(replica, leaving);
    let mid = s.with_stage(stage, to);
    lemma_count_move(more, k, replica, leaving);
    assert(stage_count(k)(more) == stage_count(k)(at));
    lemma_census_replace(s, k, stage, to);
    if stage + 1 < n {
        let next = mid.stages[stage + 1];
        lemma_count_push(next, k, stop, next.queue.inserts);
        assert(next.receive(stop) == StageModel {
            queue: QueueView { items: next.queue.items.push(stop), inserts: next.queue.inserts },
            ..next
        });
        lemma_census_replace(mid, k, stage + 1, next.receive(stop));
    } else {
        lemma_range_of_replica(s.posted.len(), s.ends, at, replica);
        reveal(sink_in_order);
    }
}

/// When a leaving replica puts the stop token back.
proof fn lemma_census_put_back<V>(s: PipelineModel<V>, stage: int, replica: int, k: u64)
    requires
        census(s, k),
        s.enabled(Step::PutBack { stage, replica }),
    ensures
        census(s.next(Step::PutBack { stage, replica }), k),
{
    let at = s.stages[stage];
    let token = at.replicas[replica]->Leaving_token;
    let stop = TimestampedWorkItem(WorkItem::<V>::Stop, token.1);
    lemma_count_push(at, k, stop, at.queue.inserts);
    assert(at.receive(stop) == StageModel {
        queue: QueueView { items: at.queue.items.push(stop), inserts: at.queue.inserts },
        ..at
    });
    lemma_count_move(at.receive(stop), k, replica, Replica::Gone);
    lemma_census_replace(s, k, stage, at.receive(stop).with_replica(replica, Replica::Gone));
}

/// When the worker of the sink takes its next item.
proof fn lemma_census_sink_takes<V>(s: PipelineModel<V>, k: u64)
    requires
        census(s, k),
        order_inv(s),
        s.sink.ordering == OrderingMode::Ordered,
        s.sink.can_take(),
    ensures
        census(s.next(Step::SinkTake), k),
{
    reveal(sink_in_order);
    assert(s.sink.store.contains_key(s.sink.next_item));
}

/// Every step keeps each order at one place, in a pipeline with an ordered
/// sink, while the head queue has orders left.
pub proof fn lemma_census_step<V>(s: PipelineModel<V>, step: Step<V>, k: u64)
    requires
        census(s, k),
        order_inv(s),
        s.sink.ordering == OrderingMode::Ordered,
        s.enabled(step),
        bounded(s.next(step)),
    ensures
        census(s.next(step), k),
{
    match step {
        Step::Post { item } => {
            if !s.signaled_end {
                lemma_census_posted(s, item, k);
            }
        },
        Step::End => {
            lemma_census_ended(s, k);
        },
        Step::Take { stage, replica } => {
            lemma_census_take(s, stage, replica, k);
        },
        Step::Emit { stage, replica, output } => {
            lemma_census_emit(s, stage, replica, output, k);
        },
        Step::CountOut { stage, replica } => {
            lemma_census_count_out(s, stage, replica, k);
        },
        Step::HandOn { stage, replica } => {
            lemma_census_hand_on(s, stage, replica, k);
        },
        Step::PutBack { stage, replica } => {
            lemma_census_put_back(s, stage, replica, k);
        },
        Step::SinkTake => {
            lemma_census_sink_takes(s, k);
        },
    }
}

/// In a pipeline with an ordered sink that has run from its start, each order
/// that was given out to a posted item is at one place, while the head queue
/// has orders left.
pub proof fn lemma_census_holds<V>(shape: Seq<nat>, steps: Seq<Step<V>>, k: u64)
    requires
        well_shaped(shape),
        PipelineModel::<V>::init(shape, OrderingMode::Ordered).admits(steps),
        bounded(PipelineModel::<V>::init(shape, OrderingMode::Ordered).run(steps)),
    ensures
        census(PipelineModel::<V>::init(shape, OrderingMode::Ordered).run(steps), k),
    decreases steps.len(),
{
    let start = PipelineModel::<V>::init(shape, OrderingMode::Ordered);
    if steps.len() == 0 {
        lemma_total_zero(start.stages, stage_count(k));
        assert forall|i: int| 0 <= i < start.stages.len() implies stage_count(k)(
            #[trigger] start.stages[i],
        ) == 0 by {
            lemma_total_zero(start.stages[i].replicas, holding(k));
        }
    } else {
        let before = start.run(steps.drop_last());
        lemma_bounded_before(before, steps.last());
        lemma_shape_kept(shape, OrderingMode::Ordered, steps.drop_last());
        lemma_order_holds(shape, OrderingMode::Ordered, steps.drop_last());
        lemma_census_holds(shape, steps.drop_last(), k);
        lemma_census_step(before, steps.last(), k);
    }
}

} // verus!
