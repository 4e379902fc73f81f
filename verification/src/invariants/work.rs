//! The work that is left: how many steps the workers of a pipeline still have
//! to take until all of them have ended, once the end is signalled. Every step
//! of a worker lowers it by one, however the workers interleave.
use crate::blocks::OrderingMode;
use crate::counting::{
    lemma_total_at_least, lemma_total_drop_first, lemma_total_push, lemma_total_update,
    lemma_total_zero, total,
};
use crate::invariants::orders::{bounded, lemma_order_step, order_inv, sink_in_order};
use crate::invariants::protocol::{
    closed_at, lemma_protocol_step, lemma_stage_drained, lemma_stage_hand_on, live, protocol_inv,
    sink_inv, stage_inv,
};
use crate::model::{PipelineModel, Replica, StageModel, Step};
use crate::work_storage::{QueueView, TimestampedWorkItem, WorkItem};
use vstd::prelude::*;

verus! {

/// The steps that the replicas still take on a queued item, in a stage that is
/// the `distance`-th from the end: a value or a dropped slot is taken and
/// handed on once in each stage up to the last.
pub open spec fn item_work<V>(distance: nat) -> spec_fn(TimestampedWorkItem<V>) -> nat {
    |item: TimestampedWorkItem<V>|
        if item.is_live() {
            2 * distance
        } else {
            0nat
        }
}

/// The steps that a replica still takes on the stop token, and what is still
/// done with the item it holds: a waiting replica takes the token, counts
/// itself out and puts the token back.
pub open spec fn replica_work<V>(distance: nat) -> spec_fn(Replica<V>) -> nat {
    |replica: Replica<V>|
        match replica {
            Replica::Idle => 3nat,
            Replica::Holding(item) => if item.is_live() {
                2 + 2 * distance
            } else {
                2nat
            },
            Replica::Leaving { .. } => 1nat,
            Replica::Gone => 0nat,
        }
}

/// The steps that are left in a stage that is the `distance`-th from the end,
/// and on its items in the stages behind it: those on its queue, those of its
/// replicas, and the handing on of the stop token.
pub open spec fn stage_work<V>(stage: StageModel<V>, distance: nat) -> nat {
    total(stage.queue.items, item_work(distance)) + total(stage.replicas, replica_work(distance))
        + if stage.stops_handed_on == 0 {
        1nat
    } else {
        0nat
    }
}

/// The steps that are left in `stages`, the last of which stands before the sink.
pub open spec fn stages_work<V>(stages: Seq<StageModel<V>>) -> nat
    decreases stages.len(),
{
    if stages.len() == 0 {
        0
    } else {
        stages_work(stages.drop_first()) + stage_work(stages[0], stages.len())
    }
}

/// The steps that the worker of the sink still takes: one for each posted item
/// that it has not seen, and one for the stop token.
pub open spec fn sink_work<V>(s: PipelineModel<V>) -> nat {
    (s.posted.len() - s.sink.seen.len()) as nat + if s.sink.gone {
        0nat
    } else {
        1nat
    }
}

/// The steps that the workers still take until all of them have ended.
#[verifier::opaque]
pub open spec fn work_left<V>(s: PipelineModel<V>) -> nat {
    stages_work(s.stages) + sink_work(s)
}

/// Whether a worker takes `step`, not the handle.
pub open spec fn by_worker<V>(step: Step<V>) -> bool {
    !(step is Post) && !(step is End)
}

/// How the work in the stages changes when one stage changes.
proof fn lemma_stages_work_update<V>(stages: Seq<StageModel<V>>, i: int, to: StageModel<V>)
    requires
        0 <= i < stages.len(),
    ensures
        stages_work(stages.update(i, to)) + stage_work(stages[i], (stages.len() - i) as nat)
            == stages_work(stages) + stage_work(to, (stages.len() - i) as nat),
    decreases stages.len(),
{
    if i == 0 {
        assert(stages.update(i, to).drop_first() =~= stages.drop_first());
    } else {
        lemma_stages_work_update(stages.drop_first(), i - 1, to);
        assert(stages.update(i, to).drop_first() =~= stages.drop_first().update(i - 1, to));
    }
}

/// No work is left in stages in which no work is left.
proof fn lemma_stages_work_zero<V>(stages: Seq<StageModel<V>>)
    ensures
        stages_work(stages) == 0 <==> forall|i: int|
            0 <= i < stages.len() ==> stage_work(#[trigger] stages[i], (stages.len() - i) as nat)
                == 0,
    decreases stages.len(),
{
    if stages.len() > 0 {
        let rest = stages.drop_first();
        lemma_stages_work_zero(rest);
        if stages_work(stages) == 0 {
            assert forall|i: int| 0 <= i < stages.len() implies stage_work(
                #[trigger] stages[i],
                (stages.len() - i) as nat,
            ) == 0 by {
                if i > 0 {
                    assert(rest[i - 1] == stages[i]);
                }
            }
        } else {
            if forall|i: int|
                0 <= i < stages.len() ==> stage_work(
                    #[trigger] stages[i],
                    (stages.len() - i) as nat,
                ) == 0 {
                assert forall|i: int| 0 <= i < rest.len() implies stage_work(
                    #[trigger] rest[i],
                    (rest.len() - i) as nat,
                ) == 0 by {
                    assert(rest[i] == stages[i + 1]);
                }
                assert(stage_work(stages[0], stages.len()) == 0);
            }
        }
    }
}

/// How the work of a stage changes with one of its replicas.
proof fn lemma_work_move<V>(stage: StageModel<V>, distance: nat, r: int, to: Replica<V>)
    requires
        0 <= r < stage.replicas.len(),
    ensures
        stage_work(stage.with_replica(r, to), distance) + replica_work(distance)(stage.replicas[r])
            == stage_work(stage, distance) + replica_work(distance)(to),
{
    lemma_total_update(stage.replicas, r, to, replica_work(distance));
}

/// How the work of a stage changes when the front item of its queue leaves.
proof fn lemma_work_dequeue<V>(stage: StageModel<V>, distance: nat)
    requires
        stage.queue.items.len() > 0,
    ensures
        stage_work(StageModel { queue: stage.queue.dequeue(), ..stage }, distance) + item_work(
            distance,
        )(stage.queue.items[0]) == stage_work(stage, distance),
{
    lemma_total_drop_first(stage.queue.items, item_work(distance));
}

/// How the work of a stage changes when an item is appended to its queue.
proof fn lemma_work_push<V>(
    stage: StageModel<V>,
    distance: nat,
    item: TimestampedWorkItem<V>,
    inserts: u64,
)
    ensures
        stage_work(
            StageModel { queue: QueueView { items: stage.queue.items.push(item), inserts }, ..stage },
            distance,
        ) == stage_work(stage, distance) + item_work(distance)(item),
{
    lemma_total_push(stage.queue.items, item, item_work(distance));
}

/// What follows for the work when one stage changes and the sink has seen no more.
proof fn lemma_work_replace<V>(
    s: PipelineModel<V>,
    i: int,
    to: StageModel<V>,
    after: PipelineModel<V>,
    less: nat,
)
    requires
        0 <= i < s.stages.len(),
        after.stages == s.stages.update(i, to),
        after.posted == s.posted,
        after.sink.seen == s.sink.seen,
        after.sink.gone == s.sink.gone,
        stage_work(to, (s.stages.len() - i) as nat) + less == stage_work(
            s.stages[i],
            (s.stages.len() - i) as nat,
        ),
    ensures
        work_left(after) + less == work_left(s),
{
    reveal(work_left);
    lemma_stages_work_update(s.stages, i, to);
}

/// What follows for the work when a stage hands an item to the stage behind it.
proof fn lemma_work_move_on<V>(
    s: PipelineModel<V>,
    i: int,
    to: StageModel<V>,
    grown: StageModel<V>,
    after: PipelineModel<V>,
    less: nat,
    more: nat,
)
    requires
        0 <= i,
        i + 1 < s.stages.len(),
        after.stages == s.stages.update(i, to).update(i + 1, grown),
        after.posted == s.posted,
        after.sink.seen == s.sink.seen,
        after.sink.gone == s.sink.gone,
        stage_work(to, (s.stages.len() - i) as nat) + less == stage_work(
            s.stages[i],
            (s.stages.len() - i) as nat,
        ),
        stage_work(grown, (s.stages.len() - i - 1) as nat) == stage_work(
            s.stages[i + 1],
            (s.stages.len() - i - 1) as nat,
        ) + more,
    ensures
        work_left(after) + less == work_left(s) + more,
{
    reveal(work_left);
    let mid = s.stages.update(i, to);
    lemma_stages_work_update(s.stages, i, to);
    assert(mid[i + 1] == s.stages[i + 1]);
    lemma_stages_work_update(mid, i + 1, grown);
}

/// The work that is left in a stage whose replica takes the front item is one less.
proof fn lemma_work_take<V>(stage: StageModel<V>, distance: nat, r: int)
    requires
        0 <= r < stage.replicas.len(),
        stage.replicas[r] is Idle,
        stage.queue.items.len() > 0,
    ensures
        stage_work(
            StageModel { queue: stage.queue.dequeue(), ..stage }.with_replica(
                r,
                Replica::Holding(stage.queue.items[0]),
            ),
            distance,
        ) + 1 == stage_work(stage, distance),
{
    let shorter = StageModel { queue: stage.queue.dequeue(), ..stage };
    lemma_work_dequeue(stage, distance);
    lemma_work_move(shorter, distance, r, Replica::Holding(stage.queue.items[0]));
}

/// When a waiting replica takes the front item of its queue.
proof fn lemma_work_taken<V>(s: PipelineModel<V>, stage: int, replica: int)
    requires
        s.enabled(Step::Take { stage, replica }),
    ensures
        work_left(s.next(Step::Take { stage, replica })) + 1 == work_left(s),
{
    let after = s.next(Step::Take { stage, replica });
    let at = s.stages[stage];
    lemma_work_take(at, (s.stages.len() - stage) as nat, replica);
    lemma_work_replace(s, stage, after.stages[stage], after, 1);
}

/// When a replica hands on what it holds.
proof fn lemma_work_emitted<V>(s: PipelineModel<V>, stage: int, replica: int, output: Option<V>)
    requires
        s.enabled(Step::Emit { stage, replica, output }),
    ensures
        work_left(s.next(Step::Emit { stage, replica, output })) + 1 == work_left(s),
{
    let after = s.next(Step::Emit { stage, replica, output });
    let n = s.stages.len() as int;
    let distance = (n - stage) as nat;
    let at = s.stages[stage];
    let to = at.with_replica(replica, Replica::Idle);
    let held = at.replicas[replica]->Holding_0;
    let forwarded = match held.0 {
        WorkItem::Value(_) => crate::blocks::spec_stage_output(output, held.1),
        _ => TimestampedWorkItem(WorkItem::Dropped, held.1),
    };
    lemma_work_move(at, distance, replica, Replica::Idle);
    if stage + 1 < n {
        let next = s.stages[stage + 1];
        let grown = next.receive(forwarded);
        lemma_work_push(next, (distance - 1) as nat, forwarded, next.queue.inserts);
        assert(grown == StageModel {
            queue: QueueView {
                items: next.queue.items.push(forwarded),
                inserts: next.queue.inserts,
            },
            ..next
        });
        assert(after.stages == s.stages.update(stage, to).update(stage + 1, grown));
        lemma_work_move_on(
            s,
            stage,
            to,
            grown,
            after,
            (2 * distance - 1) as nat,
            (2 * (distance - 1)) as nat,
        );
    } else {
        assert(after.stages == s.stages.update(stage, to));
        lemma_work_replace(s, stage, to, after, 1);
    }
}

/// When a replica that holds the stop token counts itself out.
proof fn lemma_work_counted_out<V>(s: PipelineModel<V>, stage: int, replica: int)
    requires
        s.enabled(Step::CountOut { stage, replica }),
    ensures
        work_left(s.next(Step::CountOut { stage, replica })) + 1 == work_left(s),
{
    let after = s.next(Step::CountOut { stage, replica });
    let distance = (s.stages.len() - stage) as nat;
    let at = s.stages[stage];
    let token = at.replicas[replica]->Holding_0;
    let alive: usize = if at.alive == 0 {
        usize::MAX
    } else {
        (at.alive - 1) as usize
    };
    let fewer = StageModel { alive, ..at };
    let leaving = Replica::Leaving { token, hands_on: crate::blocks::spec_is_last_replica(at.alive) };
    lemma_work_move(fewer, distance, replica, leaving);
    assert(stage_work(fewer, distance) == stage_work(at, distance));
    lemma_work_replace(s, stage, fewer.with_replica(replica, leaving), after, 1);
}

/// When the last replica of a stage hands the stop token on.
proof fn lemma_work_handed_on<V>(s: PipelineModel<V>, stage: int, replica: int)
    requires
        protocol_inv(s),
        s.enabled(Step::HandOn { stage, replica }),
    ensures
        work_left(s.next(Step::HandOn { stage, replica })) + 1 == work_left(s),
{
    let after = s.next(Step::HandOn { stage, replica });
    let n = s.stages.len() as int;
    let distance = (n - stage) as nat;
    let at = s.stages[stage];
    let token = at.replicas[replica]->Leaving_token;
    let stop = TimestampedWorkItem(WorkItem::<V>::Stop, token.1);
    let more = StageModel { stops_handed_on: at.stops_handed_on + 1, ..at };
    let leaving = Replica::Leaving { token, hands_on: false };
    let to = more.with_replica(replica, leaving);
    assert(stage_inv(at, closed_at(s, stage)));
    lemma_stage_hand_on(at, closed_at(s, stage), replica);
    lemma_work_move(more, distance, replica, leaving);
    assert(stage_work(more, distance) + 1 == stage_work(at, distance));
    if stage + 1 < n {
        let next = s.stages[stage + 1];
        let grown = next.receive(stop);
        lemma_work_push(next, (distance - 1) as nat, stop, next.queue.inserts);
        assert(grown == StageModel {
            queue: QueueView { items: next.queue.items.push(stop), inserts: next.queue.inserts },
            ..next
        });
        assert(after.stages == s.stages.update(stage, to).update(stage + 1, grown));
        lemma_work_move_on(s, stage, to, grown, after, 1, 0);
    } else {
        assert(after.stages == s.stages.update(stage, to));
        lemma_work_replace(s, stage, to, after, 1);
    }
}

/// When a leaving replica puts the stop token back.
proof fn lemma_work_put_back<V>(s: PipelineModel<V>, stage: int, replica: int)
    requires
        s.enabled(Step::PutBack { stage, replica }),
    ensures
        work_left(s.next(Step::PutBack { stage, replica })) + 1 == work_left(s),
{
    let after = s.next(Step::PutBack { stage, replica });
    let distance = (s.stages.len() - stage) as nat;
    let at = s.stages[stage];
    let token = at.replicas[replica]->Leaving_token;
    let stop = TimestampedWorkItem(WorkItem::<V>::Stop, token.1);
    lemma_work_push(at, distance, stop, at.queue.inserts);
    assert(at.receive(stop) == StageModel {
        queue: QueueView { items: at.queue.items.push(stop), inserts: at.queue.inserts },
        ..at
    });
    lemma_work_move(at.receive(stop), distance, replica, Replica::Gone);
    lemma_work_replace(s, stage, at.receive(stop).with_replica(replica, Replica::Gone), after, 1);
}

/// When the worker of the sink takes its next item.
proof fn lemma_work_sink_took<V>(s: PipelineModel<V>)
    requires
        protocol_inv(s),
        s.sink.ordering == OrderingMode::Ordered ==> order_inv(s),
        s.sink.can_take(),
    ensures
        work_left(s.next(Step::SinkTake)) + 1 == work_left(s),
{
    reveal(work_left);
    let item = s.sink.front();
    if item.is_live() {
        match s.sink.ordering {
            OrderingMode::Unordered => {
                reveal(sink_inv);
                lemma_total_at_least(s.sink.queue.items, 0, live());
            },
            OrderingMode::Ordered => {
                reveal(sink_in_order);
                assert(s.sink.store.contains_key(s.sink.next_item));
            },
        }
        assert(s.sink.seen.len() < s.posted.len());
    }
}

/// Every step of a worker lowers the work that is left by one.
pub proof fn lemma_work_step<V>(s: PipelineModel<V>, step: Step<V>)
    requires
        protocol_inv(s),
        s.sink.ordering == OrderingMode::Ordered ==> order_inv(s),
        s.enabled(step),
        by_worker(step),
    ensures
        work_left(s.next(step)) + 1 == work_left(s),
{
    match step {
        Step::Take { stage, replica } => {
            lemma_work_taken(s, stage, replica);
        },
        Step::Emit { stage, replica, output } => {
            lemma_work_emitted(s, stage, replica, output);
        },
        Step::CountOut { stage, replica } => {
            lemma_work_counted_out(s, stage, replica);
        },
        Step::HandOn { stage, replica } => {
            lemma_work_handed_on(s, stage, replica);
        },
        Step::PutBack { stage, replica } => {
            lemma_work_put_back(s, stage, replica);
        },
        Step::SinkTake => {
            lemma_work_sink_took(s);
        },
        _ => {},
    }
}

/// No work is left exactly when every worker has ended, in a pipeline whose
/// sink has seen as many items as were posted once all workers have ended.
pub proof fn lemma_no_work_is_all_gone<V>(s: PipelineModel<V>)
    requires
        protocol_inv(s),
        s.all_gone() ==> s.sink.seen.len() == s.posted.len(),
    ensures
        work_left(s) == 0 <==> s.all_gone(),
{
    reveal(work_left);
    lemma_stages_work_zero(s.stages);
    if s.all_gone() {
        assert forall|i: int| 0 <= i < s.stages.len() implies stage_work(
            #[trigger] s.stages[i],
            (s.stages.len() - i) as nat,
        ) == 0 by {
            let stage = s.stages[i];
            let distance = (s.stages.len() - i) as nat;
            assert(stage_inv(stage, closed_at(s, i)));
            lemma_stage_drained(stage, closed_at(s, i));
            lemma_total_zero(stage.queue.items, live());
            lemma_total_zero(stage.queue.items, item_work(distance));
            lemma_total_zero(stage.replicas, replica_work(distance));
            lemma_total_zero(stage.replicas, crate::invariants::protocol::holding_live());
            assert forall|j: int| 0 <= j < stage.queue.items.len() implies item_work(distance)(
                #[trigger] stage.queue.items[j],
            ) == 0 by {
                assert(live()(stage.queue.items[j]) == 0);
            }
        }
    }
    if work_left(s) == 0 {
        assert forall|i: int| 0 <= i < s.stages.len() implies (#[trigger] s.stages[i]).all_gone() by {
            let stage = s.stages[i];
            let distance = (s.stages.len() - i) as nat;
            assert(stage_work(stage, distance) == 0);
            lemma_total_zero(stage.replicas, replica_work(distance));
            assert forall|r: int| 0 <= r < stage.replicas.len() implies #[trigger] stage.replicas[r] is Gone by {
                assert(replica_work(distance)(stage.replicas[r]) == 0);
            }
        }
    }
}

/// Whether every step of `steps` is taken by a worker.
pub open spec fn all_by_workers<V>(steps: Seq<Step<V>>) -> bool {
    forall|i: int| 0 <= i < steps.len() ==> by_worker(#[trigger] steps[i])
}

/// The work that is left after a run of steps of workers is less by their number.
pub proof fn lemma_work_run<V>(s: PipelineModel<V>, more: Seq<Step<V>>)
    requires
        protocol_inv(s),
        s.sink.ordering == OrderingMode::Ordered ==> order_inv(s) && bounded(s),
        s.admits(more),
        all_by_workers(more),
    ensures
        protocol_inv(s.run(more)),
        s.run(more).sink.ordering == s.sink.ordering,
        s.sink.ordering == OrderingMode::Ordered ==> order_inv(s.run(more)) && bounded(s.run(more)),
        s.run(more).posted == s.posted,
        s.run(more).ends == s.ends,
        work_left(s.run(more)) + more.len() == work_left(s),
    decreases more.len(),
{
    if more.len() > 0 {
        let before = s.run(more.drop_last());
        let step = more.last();
        assert(all_by_workers(more.drop_last())) by {
            assert forall|i: int| 0 <= i < more.drop_last().len() implies by_worker(
                #[trigger] more.drop_last()[i],
            ) by {
                assert(more.drop_last()[i] == more[i]);
            }
        }
        lemma_work_run(s, more.drop_last());
        assert(by_worker(step)) by {
            assert(step == more[more.len() - 1]);
        }
        let after = before.next(step);
        assert(after.posted == before.posted);
        assert(after.ends == before.ends);
        assert(after.sink.ordering == before.sink.ordering);
        lemma_protocol_step(before, step);
        if s.sink.ordering == OrderingMode::Ordered {
            lemma_order_step(before, step);
        }
        lemma_work_step(before, step);
    }
}

} // verus!
