//! What is handed to the sink: every order that was given out to a posted item
//! is at one place, in a stage or among what the last stage has handed to the
//! sink, whatever the mode of the sink.
use crate::blocks::OrderingMode;
use crate::counting::{lemma_total_push, lemma_total_zero, total};
use crate::invariants::census::{
    counted, holding, lemma_census_replace, lemma_count_dequeue, lemma_count_move,
    lemma_count_push, stage_count,
};
use crate::invariants::orders::{bounded, lemma_bounded_before, lemma_order_holds, order_inv};
use crate::invariants::protocol::lemma_shape_kept;
use crate::model::{well_shaped, PipelineModel, Replica, StageModel, Step};
use crate::work_storage::{QueueView, TimestampedWorkItem, WorkItem};
use vstd::prelude::*;

verus! {

/// Whether the order `k`, if it was given out to a posted item, is at one place:
/// in a stage, or among what was handed to the sink.
pub open spec fn tally<V>(s: PipelineModel<V>, k: u64) -> bool {
    total(s.stages, stage_count(k)) + total(s.delivered, counted(k)) == if k < s.posted.len() {
        1nat
    } else {
        0nat
    }
}

/// When the handle takes an item.
proof fn lemma_tally_posted<V>(s: PipelineModel<V>, item: V, k: u64)
    requires
        tally(s, k),
        order_inv(s),
        !s.signaled_end,
        bounded(s.next(Step::Post { item })),
    ensures
        tally(s.next(Step::Post { item }), k),
{
    let head = s.stages[0];
    let stamped = TimestampedWorkItem(WorkItem::Value(item), head.queue.inserts);
    let to = StageModel { queue: head.queue.enqueue(WorkItem::Value(item)), ..head };
    lemma_count_push(head, k, stamped, crate::work_storage::next_order(head.queue.inserts));
    lemma_census_replace(s, k, 0, to);
}

/// When the handle signals the end.
proof fn lemma_tally_ended<V>(s: PipelineModel<V>, k: u64)
    requires
        tally(s, k),
        s.stages.len() > 0,
    ensures
        tally(s.next(Step::End), k),
{
    let head = s.stages[0];
    let stamped = TimestampedWorkItem(WorkItem::<V>::Stop, head.queue.inserts);
    let to = StageModel { queue: head.queue.enqueue(WorkItem::Stop), ..head };
    lemma_count_push(head, k, stamped, crate::work_storage::next_order(head.queue.inserts));
    lemma_census_replace(s, k, 0, to);
}

/// When a waiting replica takes the front item of its queue.
proof fn lemma_tally_take<V>(s: PipelineModel<V>, stage: int, replica: int, k: u64)
    requires
        tally(s, k),
        s.enabled(Step::Take { stage, replica }),
    ensures
        tally(s.next(Step::Take { stage, replica }), k),
{
    let at = s.stages[stage];
    let shorter = StageModel { queue: at.queue.dequeue(), ..at };
    let to = shorter.with_replica(replica, Replica::Holding(at.queue.items[0]));
    lemma_count_dequeue(at, k);
    lemma_count_move(shorter, k, replica, Replica::Holding(at.queue.items[0]));
    lemma_census_replace(s, k, stage, to);
}

/// When a replica hands on what it holds.
proof fn lemma_tally_emit<V>(
    s: PipelineModel<V>,
    stage: int,
    replica: int,
    output: Option<V>,
    k: u64,
)
    requires
        tally(s, k),
        order_inv(s),
        s.enabled(Step::Emit { stage, replica, output }),
    ensures
        tally(s.next(Step::Emit { stage, replica, output }), k),
{
    let n = s.stages.len() as int;
    let at = s.stages[stage];
    let to = at.with_replica(replica, Replica::Idle);
    let mid = s.with_stage(stage, to);
    let held = at.replicas[replica]->Holding_0;
    let forwarded = match held.0 {
        WorkItem::Value(_) => crate::blocks::spec_stage_output(output, held.1),
        _ => TimestampedWorkItem(WorkItem::Dropped, held.1),
    };
    lemma_count_move(at, k, replica, Replica::Idle);
    lemma_census_replace(s, k, stage, to);
    assert(counted(k)(forwarded) == holding(k)(at.replicas[replica]));
    if stage + 1 < n {
        let next = mid.stages[stage + 1];
        lemma_count_push(next, k, forwarded, next.queue.inserts);
        assert(next.receive(forwarded) == StageModel {
            queue: QueueView {
                items: next.queue.items.push(forwarded),
                inserts: next.queue.inserts,
            },
            ..next
        });
        lemma_census_replace(mid, k, stage + 1, next.receive(forwarded));
    } else {
        lemma_total_push(s.delivered, forwarded, counted(k));
    }
}

/// When a replica that holds the stop token counts itself out.
proof fn lemma_tally_count_out<V>(s: PipelineModel<V>, stage: int, replica: int, k: u64)
    requires
        tally(s, k),
        s.enabled(Step::CountOut { stage, replica }),
    ensures
        tally(s.next(Step::CountOut { stage, replica }), k),
{
    let at = s.stages[stage];
    let token = at.replicas[replica]->Holding_0;
    let alive: usize = if at.alive == 0 {
        usize::MAX
    } else {
        (at.alive - 1) as usize
    };
    let fewer = StageModel { alive, ..at };
    let leaving = Replica::Leaving { token, hands_on: crate::blocks::spec_is_last_replica(at.alive) };
    lemma_count_move(fewer, k, replica, leaving);
    assert(stage_count(k)(fewer) == stage_count(k)(at));
    lemma_census_replace(s, k, stage, fewer.with_replica(replica, leaving));
}

/// When the last replica of a stage hands the stop token on.
proof fn lemma_tally_hand_on<V>(s: PipelineModel<V>, stage: int, replica: int, k: u64)
    requires
        tally(s, k),
        order_inv(s),
        s.enabled(Step::HandOn { stage, replica }),
    ensures
        tally(s.next(Step::HandOn { stage, replica }), k),
{
    let n = s.stages.len() as int;
    let at = s.stages[stage];
    let token = at.replicas[replica]->Leaving_token;
    let stop = TimestampedWorkItem(WorkItem::<V>::Stop, token.1);
    let more = StageModel { stops_handed_on: at.stops_handed_on + 1, ..at };
    let leaving = Replica::Leaving { token, hands_on: false };
    let to = more.with_replica(replica, leaving);
    let mid = s.with_stage(stage, to);
    lemma_count_move(more, k, replica, leaving);
    assert(stage_count(k)(more) == stage_count(k)(at));
    lemma_census_replace(s, k, stage, to);
    if stage + 1 < n {
        let next = mid.stages[stage + 1];
        lemma_count_push(next, k, stop, next.queue.inserts);
        assert(next.receive(stop) == StageModel {
            queue: QueueView { items: next.queue.items.push(stop), inserts: next.queue.inserts },
            ..next
        });
        lemma_census_replace(mid, k, stage + 1, next.receive(stop));
    } else {
        lemma_total_push(s.delivered, stop, counted(k));
    }
}

/// When a leaving replica puts the stop token back.
proof fn lemma_tally_put_back<V>(s: PipelineModel<V>, stage: int, replica: int, k: u64)
    requires
        tally(s, k),
        s.enabled(Step::PutBack { stage, replica }),
    ensures
        tally(s.next(Step::PutBack { stage, replica }), k),
{
    let at = s.stages[stage];
    let token = at.replicas[replica]->Leaving_token;
    let stop = TimestampedWorkItem(WorkItem::<V>::Stop, token.1);
    lemma_count_push(at, k, stop, at.queue.inserts);
    assert(at.receive(stop) == StageModel {
        queue: QueueView { items: at.queue.items.push(stop), inserts: at.queue.inserts },
        ..at
    });
    lemma_count_move(at.receive(stop), k, replica, Replica::Gone);
    lemma_census_replace(s, k, stage, at.receive(stop).with_replica(replica, Replica::Gone));
}

/// When the worker of the sink takes its next item.
proof fn lemma_tally_sink_takes<V>(s: PipelineModel<V>, k: u64)
    requires
        tally(s, k),
        s.sink.can_take(),
    ensures
        tally(s.next(Step::SinkTake), k),
{
}

/// Every step keeps each order at one place, while the head queue has orders
/// left.
pub proof fn lemma_tally_step<V>(s: PipelineModel<V>, step: Step<V>, k: u64)
    requires
        tally(s, k),
        order_inv(s),
        s.enabled(step),
        bounded(s.next(step)),
    ensures
        tally(s.next(step), k),
{
    match step {
        Step::Post { item } => {
            if !s.signaled_end {
                lemma_tally_posted(s, item, k);
            }
        },
        Step::End => {
            lemma_tally_ended(s, k);
        },
        Step::Take { stage, replica } => {
            lemma_tally_take(s, stage, replica, k);
        },
        Step::Emit { stage, replica, output } => {
            lemma_tally_emit(s, stage, replica, output, k);
        },
        Step::CountOut { stage, replica } => {
            lemma_tally_count_out(s, stage, replica, k);
        },
        Step::HandOn { stage, replica } => {
            lemma_tally_hand_on(s, stage, replica, k);
        },
        Step::PutBack { stage, replica } => {
            lemma_tally_put_back(s, stage, replica, k);
        },
        Step::SinkTake => {
            lemma_tally_sink_takes(s, k);
        },
    }
}

/// In a pipeline that has run from its start, each order that was given out to
/// a posted item is at one place, while the head queue has orders left.
pub proof fn lemma_tally_holds<V>(
    shape: Seq<nat>,
    ordering: OrderingMode,
    steps: Seq<Step<V>>,
    k: u64,
)
    requires
        well_shaped(shape),
        PipelineModel::<V>::init(shape, ordering).admits(steps),
        bounded(PipelineModel::<V>::init(shape, ordering).run(steps)),
    ensures
        tally(PipelineModel::<V>::init(shape, ordering).run(steps), k),
    decreases steps.len(),
{
    let start = PipelineModel::<V>::init(shape, ordering);
    if steps.len() == 0 {
        lemma_total_zero(start.stages, stage_count(k));
        assert forall|i: int| 0 <= i < start.stages.len() implies stage_count(k)(
            #[trigger] start.stages[i],
        ) == 0 by {
            lemma_total_zero(start.stages[i].replicas, holding(k));
        }
    } else {
        let before = start.run(steps.drop_last());
        lemma_bounded_before(before, steps.last());
        lemma_shape_kept(shape, ordering, steps.drop_last());
        lemma_order_holds(shape, ordering, steps.drop_last());
        lemma_tally_holds(shape, ordering, steps.drop_last(), k);
        lemma_tally_step(before, steps.last(), k);
    }
}

} // verus!
