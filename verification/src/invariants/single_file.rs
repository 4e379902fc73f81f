//! A pipeline whose stages have one replica each: the values and dropped slots
//! stand in it in one file, in the order they were posted, and reach the sink
//! in that order.
use crate::blocks::{spec_stage_output, OrderingMode};
use crate::counting::{
    lemma_total_drop_first, lemma_total_of_flags, lemma_total_push, lemma_total_update,
    lemma_total_zero, total,
};
use crate::model::{well_shaped, PipelineModel, Replica, StageModel, Step};
use crate::invariants::orders::{bounded, lemma_bounded_before, lemma_order_holds, order_inv};
use crate::invariants::protocol::{
    closed_at, has_stop, holding_live, lemma_protocol_holds, lemma_stage_emit,
    lemma_stage_hand_on, lemma_stage_take, live, protocol_inv, stage_inv, stage_load,
};
use crate::work_storage::{QueueView, TimestampedWorkItem, WorkItem};
use vstd::prelude::*;

verus! {

/// How many values and dropped slots have left stage `i`: those in the stages
/// behind it and those handed to the sink. For `i == -1`, all there are.
#[verifier::opaque]
pub open spec fn ahead<V>(s: PipelineModel<V>, i: int) -> nat {
    total(s.stages.skip(i + 1), stage_load()) + total(s.delivered, live())
}

/// Whether the values and dropped slots of a stage with one replica carry the
/// orders from `base` on, one after the other: first what the replica holds,
/// then the queue from its front.
#[verifier::opaque]
pub open spec fn lined_up<V>(stage: StageModel<V>, base: nat) -> bool {
    &&& stage.replicas.len() == 1
    &&& stage.replicas[0] matches Replica::Holding(held) ==> (held.is_live() ==> held.1 == base)
    &&& forall|j: int|
        0 <= j < stage.queue.items.len() && (#[trigger] stage.queue.items[j]).is_live()
            ==> stage.queue.items[j].1 == base + holding_live()(stage.replicas[0]) + j
}

/// What holds of a pipeline whose stages have one replica each, while the head
/// queue has orders left.
#[verifier::opaque]
pub open spec fn in_file<V>(s: PipelineModel<V>) -> bool {
    &&& forall|i: int| 0 <= i < s.stages.len() ==> lined_up(#[trigger] s.stages[i], ahead(s, i))
    &&& forall|d: int|
        0 <= d < s.delivered.len() && (#[trigger] s.delivered[d]).is_live() ==> s.delivered[d].1
            == d
    &&& total(s.delivered, live()) == s.delivered.len() || closed_at(s, s.stages.len() as int)
}

/// How a sum over the stages from one on changes when one stage changes.
proof fn lemma_ahead_replace<V>(
    s: PipelineModel<V>,
    k: int,
    to: StageModel<V>,
    after: PipelineModel<V>,
    i: int,
)
    requires
        0 <= k < s.stages.len(),
        -1 <= i < s.stages.len(),
        after.stages == s.stages.update(k, to),
        after.delivered == s.delivered,
    ensures
        k > i ==> ahead(after, i) + stage_load()(s.stages[k]) == ahead(s, i) + stage_load()(to),
        k <= i ==> ahead(after, i) == ahead(s, i),
{
    reveal(ahead);
    if k > i {
        assert(after.stages.skip(i + 1) =~= s.stages.skip(i + 1).update(k - (i + 1), to));
        lemma_total_update(s.stages.skip(i + 1), k - (i + 1), to, stage_load());
    } else {
        assert(after.stages.skip(i + 1) =~= s.stages.skip(i + 1));
    }
}

/// What has left a stage is what the next stage has and what has left that one.
proof fn lemma_ahead_next<V>(s: PipelineModel<V>, i: int)
    requires
        -1 <= i < s.stages.len(),
    ensures
        i + 1 < s.stages.len() ==> ahead(s, i) == stage_load()(s.stages[i + 1]) + ahead(s, i + 1),
        i + 1 == s.stages.len() ==> ahead(s, i) == total(s.delivered, live()),
        i == -1 ==> ahead(s, i) == total(s.stages, stage_load()) + total(s.delivered, live()),
{
    reveal(ahead);
    if i == -1 {
        assert(s.stages.skip(0) =~= s.stages);
    }
    if i + 1 < s.stages.len() {
        let rest = s.stages.skip(i + 1);
        lemma_total_drop_first(rest, stage_load());
        assert(rest.drop_first() =~= s.stages.skip(i + 2));
    } else {
        assert(s.stages.skip(i + 1) =~= Seq::<StageModel<V>>::empty());
    }
}

/// A queue without a stop token holds values and dropped slots only.
proof fn lemma_all_live<V>(items: Seq<TimestampedWorkItem<V>>)
    requires
        !has_stop(items),
    ensures
        total(items, live()) == items.len(),
{
    lemma_total_of_flags(items, live());
    assert forall|j: int| 0 <= j < items.len() implies live()(#[trigger] items[j]) == 1 by {
        if items[j].0 is Stop {
            assert(has_stop(items));
        }
    }
}

/// The replica takes the front item.
proof fn lemma_lined_take<V>(stage: StageModel<V>, closed: bool, base: nat)
    requires
        stage_inv(stage, closed),
        lined_up(stage, base),
        stage.replicas[0] is Idle,
        stage.queue.items.len() > 0,
    ensures
        lined_up(
            StageModel { queue: stage.queue.dequeue(), ..stage }.with_replica(
                0,
                Replica::Holding(stage.queue.items[0]),
            ),
            base,
        ),
{
    reveal(lined_up);
    reveal(stage_inv);
    let front = stage.queue.items[0];
    let to = StageModel { queue: stage.queue.dequeue(), ..stage }.with_replica(
        0,
        Replica::Holding(front),
    );
    assert forall|j: int|
        0 <= j < to.queue.items.len() && (#[trigger] to.queue.items[j]).is_live() implies to.queue.items[j].1
        == base + holding_live()(to.replicas[0]) + j by {
        assert(to.queue.items[j] == stage.queue.items[j + 1]);
        if front.0 is Stop {
            assert(stage.queue.items[j + 1].0 is Stop);
        }
    }
}

/// The replica hands on what it held, which carries the first order of the
/// stage, and waits again.
proof fn lemma_lined_emit<V>(stage: StageModel<V>, base: nat)
    requires
        lined_up(stage, base),
        stage.replicas[0].holds_live(),
    ensures
        lined_up(stage.with_replica(0, Replica::Idle), base + 1),
        stage.replicas[0]->Holding_0.1 == base,
{
    reveal(lined_up);
}

/// A stage stays lined up when a value or a dropped slot with the next order is
/// appended to its queue, which holds no stop token.
proof fn lemma_lined_push_live<V>(
    stage: StageModel<V>,
    base: nat,
    item: TimestampedWorkItem<V>,
    inserts: u64,
)
    requires
        lined_up(stage, base),
        !has_stop(stage.queue.items),
        item.1 == base + stage_load()(stage),
    ensures
        lined_up(
            StageModel { queue: QueueView { items: stage.queue.items.push(item), inserts }, ..stage },
            base,
        ),
{
    reveal(lined_up);
    lemma_all_live(stage.queue.items);
    lemma_total_push(Seq::<Replica<V>>::empty(), stage.replicas[0], holding_live());
    assert(stage.replicas =~= Seq::<Replica<V>>::empty().push(stage.replicas[0]));
    let to = StageModel {
        queue: QueueView { items: stage.queue.items.push(item), inserts },
        ..stage
    };
    assert forall|j: int|
        0 <= j < to.queue.items.len() && (#[trigger] to.queue.items[j]).is_live() implies to.queue.items[j].1
        == base + holding_live()(to.replicas[0]) + j by {
        if j < stage.queue.items.len() {
            assert(to.queue.items[j] == stage.queue.items[j]);
        }
    }
}

/// A stage stays lined up when a stop token is appended to its queue.
proof fn lemma_lined_push_stop<V>(
    stage: StageModel<V>,
    base: nat,
    item: TimestampedWorkItem<V>,
    inserts: u64,
)
    requires
        lined_up(stage, base),
        item.0 is Stop,
    ensures
        lined_up(
            StageModel { queue: QueueView { items: stage.queue.items.push(item), inserts }, ..stage },
            base,
        ),
{
    reveal(lined_up);
    let to = StageModel {
        queue: QueueView { items: stage.queue.items.push(item), inserts },
        ..stage
    };
    assert forall|j: int|
        0 <= j < to.queue.items.len() && (#[trigger] to.queue.items[j]).is_live() implies to.queue.items[j].1
        == base + holding_live()(to.replicas[0]) + j by {
        if j < stage.queue.items.len() {
            assert(to.queue.items[j] == stage.queue.items[j]);
        }
    }
}

/// A stage stays lined up when its replica, which holds no value and no dropped
/// slot, changes to another such state, and its counts change.
proof fn lemma_lined_leaving<V>(
    stage: StageModel<V>,
    base: nat,
    to: Replica<V>,
    alive: usize,
    stops_handed_on: nat,
)
    requires
        lined_up(stage, base),
        !stage.replicas[0].holds_live(),
        !to.holds_live(),
    ensures
        lined_up(StageModel { alive, stops_handed_on, ..stage }.with_replica(0, to), base),
{
    reveal(lined_up);
}

/// The values and dropped slots of a stage with one replica: one if the replica
/// holds one, and those of the queue.
proof fn lemma_load_of_one<V>(stage: StageModel<V>)
    requires
        stage.replicas.len() == 1,
    ensures
        stage_load()(stage) == total(stage.queue.items, live()) + holding_live()(stage.replicas[0]),
{
    lemma_total_push(Seq::<Replica<V>>::empty(), stage.replicas[0], holding_live());
    assert(stage.replicas =~= Seq::<Replica<V>>::empty().push(stage.replicas[0]));
}

/// How what has left a stage changes with what was handed to the sink.
proof fn lemma_ahead_delivered<V>(s: PipelineModel<V>, after: PipelineModel<V>, i: int)
    requires
        after.stages == s.stages,
    ensures
        ahead(after, i) + total(s.delivered, live()) == ahead(s, i) + total(after.delivered, live()),
{
    reveal(ahead);
}

/// What follows for the file when stage `k` changes but keeps its load, and is
/// lined up from where it was.
proof fn lemma_file_replace<V>(
    s: PipelineModel<V>,
    k: int,
    to: StageModel<V>,
    after: PipelineModel<V>,
)
    requires
        in_file(s),
        0 <= k < s.stages.len(),
        after.stages == s.stages.update(k, to),
        after.delivered == s.delivered,
        closed_at(s, s.stages.len() as int) ==> closed_at(after, s.stages.len() as int),
        stage_load()(to) == stage_load()(s.stages[k]),
        lined_up(to, ahead(s, k)),
    ensures
        in_file(after),
{
    reveal(in_file);
    assert forall|i: int| 0 <= i < after.stages.len() implies lined_up(
        #[trigger] after.stages[i],
        ahead(after, i),
    ) by {
        lemma_ahead_replace(s, k, to, after, i);
        if i != k {
            assert(after.stages[i] == s.stages[i]);
        }
    }
}

/// What follows for the file when stage `k` hands the item it is lined up from
/// to the stage behind it, which takes it at the end of its line.
proof fn lemma_file_move<V>(
    s: PipelineModel<V>,
    k: int,
    to: StageModel<V>,
    grown: StageModel<V>,
    after: PipelineModel<V>,
)
    requires
        in_file(s),
        0 <= k,
        k + 1 < s.stages.len(),
        after.stages == s.stages.update(k, to).update(k + 1, grown),
        after.delivered == s.delivered,
        closed_at(s, s.stages.len() as int) ==> closed_at(after, s.stages.len() as int),
        stage_load()(to) + 1 == stage_load()(s.stages[k]),
        stage_load()(grown) == stage_load()(s.stages[k + 1]) + 1,
        lined_up(to, ahead(s, k) + 1),
        lined_up(grown, ahead(s, k + 1)),
    ensures
        in_file(after),
{
    reveal(in_file);
    let mid = PipelineModel { stages: s.stages.update(k, to), ..s };
    assert(mid.stages[k + 1] == s.stages[k + 1]);
    assert forall|i: int| 0 <= i < after.stages.len() implies lined_up(
        #[trigger] after.stages[i],
        ahead(after, i),
    ) by {
        lemma_ahead_replace(s, k, to, mid, i);
        lemma_ahead_replace(mid, k + 1, grown, after, i);
        if i != k && i != k + 1 {
            assert(after.stages[i] == s.stages[i]);
        }
    }
}

/// What follows for the file when the last stage hands the item it is lined up
/// from to the sink, which has not been handed the stop token.
proof fn lemma_file_deliver<V>(
    s: PipelineModel<V>,
    to: StageModel<V>,
    item: TimestampedWorkItem<V>,
    after: PipelineModel<V>,
)
    requires
        in_file(s),
        s.stages.len() > 0,
        after.stages == s.stages.update(s.stages.len() - 1, to),
        after.delivered == s.delivered.push(item),
        !closed_at(s, s.stages.len() as int),
        item.is_live(),
        item.1 == ahead(s, s.stages.len() - 1),
        stage_load()(to) + 1 == stage_load()(s.stages[s.stages.len() - 1]),
        lined_up(to, ahead(s, s.stages.len() - 1) + 1),
    ensures
        in_file(after),
{
    reveal(in_file);
    let k = s.stages.len() - 1;
    let mid = PipelineModel { stages: s.stages.update(k, to), ..s };
    lemma_total_push(s.delivered, item, live());
    lemma_ahead_next(s, k);
    assert forall|i: int| 0 <= i < after.stages.len() implies lined_up(
        #[trigger] after.stages[i],
        ahead(after, i),
    ) by {
        lemma_ahead_replace(s, k, to, mid, i);
        lemma_ahead_delivered(mid, after, i);
        if i != k {
            assert(after.stages[i] == s.stages[i]);
        }
    }
    assert forall|d: int|
        0 <= d < after.delivered.len() && (#[trigger] after.delivered[d]).is_live() implies after.delivered[d].1
        == d by {
        if d < s.delivered.len() {
            assert(after.delivered[d] == s.delivered[d]);
        }
    }
}

/// What follows for the file when the sink is handed the stop token.
proof fn lemma_file_deliver_stop<V>(
    s: PipelineModel<V>,
    item: TimestampedWorkItem<V>,
    after: PipelineModel<V>,
)
    requires
        in_file(s),
        after.stages == s.stages,
        after.delivered == s.delivered.push(item),
        item.0 is Stop,
        closed_at(after, s.stages.len() as int),
    ensures
        in_file(after),
{
    reveal(in_file);
    lemma_total_push(s.delivered, item, live());
    assert forall|i: int| 0 <= i < after.stages.len() implies lined_up(
        #[trigger] after.stages[i],
        ahead(after, i),
    ) by {
        lemma_ahead_delivered(s, after, i);
    }
    assert forall|d: int|
        0 <= d < after.delivered.len() && (#[trigger] after.delivered[d]).is_live() implies after.delivered[d].1
        == d by {
        if d < s.delivered.len() {
            assert(after.delivered[d] == s.delivered[d]);
        }
    }
}

/// What is lined up in a pipeline in file: each stage from what has left it.
proof fn lemma_file_stage<V>(s: PipelineModel<V>, i: int)
    requires
        in_file(s),
        0 <= i < s.stages.len(),
    ensures
        lined_up(s.stages[i], ahead(s, i)),
        s.stages[i].replicas.len() == 1,
        !closed_at(s, s.stages.len() as int) ==> total(s.delivered, live()) == s.delivered.len(),
{
    reveal(in_file);
    reveal(lined_up);
}

/// When the handle takes an item.
proof fn lemma_file_post<V>(s: PipelineModel<V>, item: V)
    requires
        protocol_inv(s),
        order_inv(s),
        in_file(s),
        !s.signaled_end,
    ensures
        in_file(s.next(Step::Post { item })),
{
    let after = s.next(Step::Post { item });
    let head = s.stages[0];
    let stamped = TimestampedWorkItem(WorkItem::Value(item), head.queue.inserts);
    let to = StageModel { queue: head.queue.enqueue(WorkItem::Value(item)), ..head };
    assert(stage_inv(head, closed_at(s, 0)));
    assert(!has_stop(head.queue.items)) by {
        reveal(stage_inv);
    }
    lemma_file_stage(s, 0);
    lemma_ahead_next(s, -1);
    lemma_ahead_next(s, 0);
    lemma_lined_push_live(
        head,
        ahead(s, 0),
        stamped,
        crate::work_storage::next_order(head.queue.inserts),
    );
    lemma_total_push(head.queue.items, stamped, live());
    // One more item is posted: the file grows at its end, and nothing leaves a stage.
    let grown = PipelineModel { stages: s.stages.update(0, to), ..s };
    lemma_file_grows(s, to, grown);
    assert(in_file(after)) by {
        lemma_file_same(grown, after);
    }
}

/// What follows for the file when the head stage takes a posted item at the end
/// of its line, or the stop token.
proof fn lemma_file_grows<V>(s: PipelineModel<V>, to: StageModel<V>, after: PipelineModel<V>)
    requires
        in_file(s),
        s.stages.len() > 0,
        after.stages == s.stages.update(0, to),
        after.delivered == s.delivered,
        closed_at(s, s.stages.len() as int) ==> closed_at(after, s.stages.len() as int),
        lined_up(to, ahead(s, 0)),
    ensures
        in_file(after),
{
    reveal(in_file);
    assert forall|i: int| 0 <= i < after.stages.len() implies lined_up(
        #[trigger] after.stages[i],
        ahead(after, i),
    ) by {
        lemma_ahead_replace(s, 0, to, after, i);
        if i != 0 {
            assert(after.stages[i] == s.stages[i]);
        }
    }
}

/// The file is a matter of the stages and of what was handed to the sink.
proof fn lemma_file_same<V>(s: PipelineModel<V>, after: PipelineModel<V>)
    requires
        in_file(s),
        s.stages.len() > 0,
        after.stages == s.stages,
        after.delivered == s.delivered,
    ensures
        in_file(after),
{
    reveal(in_file);
    assert forall|i: int| 0 <= i < after.stages.len() implies lined_up(
        #[trigger] after.stages[i],
        ahead(after, i),
    ) by {
        lemma_ahead_delivered(s, after, i);
    }
}

/// When the handle signals the end.
proof fn lemma_file_end<V>(s: PipelineModel<V>)
    requires
        in_file(s),
        s.stages.len() > 0,
    ensures
        in_file(s.next(Step::End)),
{
    let after = s.next(Step::End);
    let head = s.stages[0];
    let stamped = TimestampedWorkItem(WorkItem::<V>::Stop, head.queue.inserts);
    let to = StageModel { queue: head.queue.enqueue(WorkItem::Stop), ..head };
    lemma_file_stage(s, 0);
    lemma_lined_push_stop(
        head,
        ahead(s, 0),
        stamped,
        crate::work_storage::next_order(head.queue.inserts),
    );
    let grown = PipelineModel { stages: s.stages.update(0, to), ..s };
    lemma_file_grows(s, to, grown);
    lemma_file_same(grown, after);
}

/// When a waiting replica takes the front item of its queue.
proof fn lemma_file_take<V>(s: PipelineModel<V>, stage: int)
    requires
        protocol_inv(s),
        in_file(s),
        s.enabled(Step::Take { stage, replica: 0 }),
    ensures
        in_file(s.next(Step::Take { stage, replica: 0 })),
{
    let after = s.next(Step::Take { stage, replica: 0 });
    let at = s.stages[stage];
    assert(stage_inv(at, closed_at(s, stage)));
    lemma_file_stage(s, stage);
    lemma_stage_take(at, closed_at(s, stage), 0);
    lemma_lined_take(at, closed_at(s, stage), ahead(s, stage));
    assert(closed_at(s, s.stages.len() as int) ==> closed_at(after, s.stages.len() as int));
    lemma_file_replace(s, stage, after.stages[stage], after);
}

/// What a replica that holds a value or a dropped slot hands on: it carries the
/// order that the replica held it under.
pub open spec fn handed_on<V>(
    held: TimestampedWorkItem<V>,
    output: Option<V>,
) -> TimestampedWorkItem<V> {
    match held.0 {
        WorkItem::Value(_) => spec_stage_output(output, held.1),
        _ => TimestampedWorkItem(WorkItem::Dropped, held.1),
    }
}

/// When a replica hands on what it holds.
proof fn lemma_file_emit<V>(s: PipelineModel<V>, stage: int, output: Option<V>)
    requires
        protocol_inv(s),
        in_file(s),
        s.enabled(Step::Emit { stage, replica: 0, output }),
    ensures
        in_file(s.next(Step::Emit { stage, replica: 0, output })),
{
    let after = s.next(Step::Emit { stage, replica: 0, output });
    let n = s.stages.len() as int;
    let at = s.stages[stage];
    let to = at.with_replica(0, Replica::Idle);
    let forwarded = handed_on(at.replicas[0]->Holding_0, output);
    assert(stage_inv(at, closed_at(s, stage)));
    lemma_file_stage(s, stage);
    lemma_stage_emit(at, closed_at(s, stage), 0);
    lemma_lined_emit(at, ahead(s, stage));
    assert(!closed_at(s, stage + 1));
    if stage + 1 < n {
        let next = s.stages[stage + 1];
        let grown = next.receive(forwarded);
        assert(stage_inv(next, closed_at(s, stage + 1)));
        assert(!has_stop(next.queue.items)) by {
            reveal(stage_inv);
        }
        lemma_file_stage(s, stage + 1);
        lemma_ahead_next(s, stage);
        lemma_lined_push_live(next, ahead(s, stage + 1), forwarded, next.queue.inserts);
        assert(grown == StageModel {
            queue: QueueView {
                items: next.queue.items.push(forwarded),
                inserts: next.queue.inserts,
            },
            ..next
        });
        lemma_total_push(next.queue.items, forwarded, live());
        assert(after.stages == s.stages.update(stage, to).update(stage + 1, grown));
        assert(closed_at(s, n) ==> closed_at(after, n)) by {
            assert(after.stages[n - 1].alive == s.stages[n - 1].alive);
        }
        lemma_file_move(s, stage, to, grown, after);
    } else {
        assert(after.stages == s.stages.update(stage, to));
        lemma_file_deliver(s, to, forwarded, after);
    }
}

/// When a replica that holds the stop token counts itself out.
proof fn lemma_file_count_out<V>(s: PipelineModel<V>, stage: int)
    requires
        protocol_inv(s),
        in_file(s),
        s.enabled(Step::CountOut { stage, replica: 0 }),
    ensures
        in_file(s.next(Step::CountOut { stage, replica: 0 })),
{
    let after = s.next(Step::CountOut { stage, replica: 0 });
    let n = s.stages.len() as int;
    let at = s.stages[stage];
    let token = at.replicas[0]->Holding_0;
    let alive: usize = if at.alive == 0 {
        usize::MAX
    } else {
        (at.alive - 1) as usize
    };
    let leaving = Replica::Leaving { token, hands_on: crate::blocks::spec_is_last_replica(at.alive) };
    let to = StageModel { alive, stops_handed_on: at.stops_handed_on, ..at }.with_replica(0, leaving);
    lemma_file_stage(s, stage);
    lemma_lined_leaving(at, ahead(s, stage), leaving, alive, at.stops_handed_on);
    assert(after.stages[stage] == to);
    lemma_load_of_one(at);
    lemma_load_of_one(to);
    assert(stage_inv(at, closed_at(s, stage)));
    crate::invariants::protocol::lemma_stage_count_out(at, closed_at(s, stage), 0);
    assert(closed_at(s, n) ==> closed_at(after, n));
    lemma_file_replace(s, stage, to, after);
}

/// When the last replica of a stage hands the stop token on.
proof fn lemma_file_hand_on<V>(s: PipelineModel<V>, stage: int)
    requires
        protocol_inv(s),
        in_file(s),
        s.enabled(Step::HandOn { stage, replica: 0 }),
    ensures
        in_file(s.next(Step::HandOn { stage, replica: 0 })),
{
    let after = s.next(Step::HandOn { stage, replica: 0 });
    let n = s.stages.len() as int;
    let at = s.stages[stage];
    let token = at.replicas[0]->Leaving_token;
    let leaving = Replica::Leaving { token, hands_on: false };
    let stop = TimestampedWorkItem(WorkItem::<V>::Stop, token.1);
    let to = StageModel { alive: at.alive, stops_handed_on: at.stops_handed_on + 1, ..at }.with_replica(
        0,
        leaving,
    );
    let mid = s.with_stage(stage, to);
    lemma_file_stage(s, stage);
    lemma_lined_leaving(at, ahead(s, stage), leaving, at.alive, at.stops_handed_on + 1);
    lemma_load_of_one(at);
    lemma_load_of_one(to);
    assert(stage_inv(at, closed_at(s, stage)));
    lemma_stage_hand_on(at, closed_at(s, stage), 0);
    assert(mid.stages[stage] == to);
    assert(closed_at(mid, stage + 1));
    assert(closed_at(s, n) ==> closed_at(mid, n));
    lemma_file_replace(s, stage, to, mid);
    assert(after == mid.hand_down(stage, stop));
    if stage + 1 < n {
        let next = mid.stages[stage + 1];
        let grown = next.receive(stop);
        lemma_file_stage(mid, stage + 1);
        lemma_lined_push_stop(next, ahead(mid, stage + 1), stop, next.queue.inserts);
        assert(grown == StageModel {
            queue: QueueView { items: next.queue.items.push(stop), inserts: next.queue.inserts },
            ..next
        });
        lemma_total_push(next.queue.items, stop, live());
        assert(closed_at(mid, n) ==> closed_at(after, n)) by {
            assert(after.stages[n - 1].alive == mid.stages[n - 1].alive);
        }
        lemma_file_replace(mid, stage + 1, grown, after);
    } else {
        assert(after.stages[n - 1] == mid.stages[n - 1]);
        lemma_file_deliver_stop(mid, stop, after);
    }
}

/// When a leaving replica puts the stop token back.
proof fn lemma_file_put_back<V>(s: PipelineModel<V>, stage: int)
    requires
        in_file(s),
        s.enabled(Step::PutBack { stage, replica: 0 }),
    ensures
        in_file(s.next(Step::PutBack { stage, replica: 0 })),
{
    let after = s.next(Step::PutBack { stage, replica: 0 });
    let n = s.stages.len() as int;
    let at = s.stages[stage];
    let token = at.replicas[0]->Leaving_token;
    let stop = TimestampedWorkItem(WorkItem::<V>::Stop, token.1);
    let to = at.receive(stop).with_replica(0, Replica::Gone);
    lemma_file_stage(s, stage);
    lemma_lined_push_stop(at, ahead(s, stage), stop, at.queue.inserts);
    assert(at.receive(stop) == StageModel {
        queue: QueueView { items: at.queue.items.push(stop), inserts: at.queue.inserts },
        ..at
    });
    lemma_lined_leaving(
        at.receive(stop),
        ahead(s, stage),
        Replica::Gone,
        at.alive,
        at.stops_handed_on,
    );
    assert(to == StageModel {
        alive: at.alive,
        stops_handed_on: at.stops_handed_on,
        ..at.receive(stop)
    }.with_replica(0, Replica::Gone));
    lemma_total_push(at.queue.items, stop, live());
    lemma_load_of_one(at);
    lemma_load_of_one(to);
    assert(closed_at(s, n) ==> closed_at(after, n));
    lemma_file_replace(s, stage, to, after);
}

/// Every step keeps the file of a pipeline whose stages have one replica each.
pub proof fn lemma_file_step<V>(s: PipelineModel<V>, step: Step<V>)
    requires
        protocol_inv(s),
        order_inv(s),
        in_file(s),
        s.enabled(step),
    ensures
        in_file(s.next(step)),
{
    let after = s.next(step);
    match step {
        Step::Post { item } => {
            if !s.signaled_end {
                lemma_file_post(s, item);
            }
        },
        Step::End => {
            lemma_file_end(s);
        },
        Step::Take { stage, replica } => {
            lemma_file_stage(s, stage);
            lemma_file_take(s, stage);
        },
        Step::Emit { stage, replica, output } => {
            lemma_file_stage(s, stage);
            lemma_file_emit(s, stage, output);
        },
        Step::CountOut { stage, replica } => {
            lemma_file_stage(s, stage);
            lemma_file_count_out(s, stage);
        },
        Step::HandOn { stage, replica } => {
            lemma_file_stage(s, stage);
            lemma_file_hand_on(s, stage);
        },
        Step::PutBack { stage, replica } => {
            lemma_file_stage(s, stage);
            lemma_file_put_back(s, stage);
        },
        Step::SinkTake => {
            assert(s.stages.len() > 0);
            lemma_file_same(s, after);
        },
    }
}

/// Whether `shape` gives every stage one replica.
pub open spec fn one_each(shape: Seq<nat>) -> bool {
    forall|i: int| 0 <= i < shape.len() ==> #[trigger] shape[i] == 1
}

/// Every pipeline with one replica for each stage that has run from its start
/// stands in one file, while the head queue has orders left.
pub proof fn lemma_file_holds<V>(shape: Seq<nat>, ordering: OrderingMode, steps: Seq<Step<V>>)
    requires
        well_shaped(shape),
        one_each(shape),
        PipelineModel::<V>::init(shape, ordering).admits(steps),
        bounded(PipelineModel::<V>::init(shape, ordering).run(steps)),
    ensures
        in_file(PipelineModel::<V>::init(shape, ordering).run(steps)),
    decreases steps.len(),
{
    let start = PipelineModel::<V>::init(shape, ordering);
    if steps.len() == 0 {
        reveal(in_file);
        reveal(lined_up);
        lemma_total_zero(start.delivered, live());
        assert forall|i: int| 0 <= i < start.stages.len() implies lined_up(
            #[trigger] start.stages[i],
            ahead(start, i),
        ) by {
            assert(start.stages[i].replicas.len() == 1);
        }
    } else {
        let before = start.run(steps.drop_last());
        lemma_bounded_before(before, steps.last());
        lemma_protocol_holds(shape, ordering, steps.drop_last());
        lemma_order_holds(shape, ordering, steps.drop_last());
        lemma_file_holds(shape, ordering, steps.drop_last());
        lemma_file_step(before, steps.last());
    }
}

/// In a pipeline in file, the value or dropped slot that was handed to the sink
/// in place `d` carries the order `d`.
pub proof fn lemma_file_delivers_in_order<V>(s: PipelineModel<V>)
    requires
        in_file(s),
    ensures
        forall|d: int|
            0 <= d < s.delivered.len() && (#[trigger] s.delivered[d]).is_live() ==> s.delivered[d].1
                == d,
{
    reveal(in_file);
}

} // verus!
