//! What holds of every pipeline that has run from its start: the count of
//! replicas is exact, the stop token is handed on once, nothing follows it,
//! and no item is lost on the way to the sink.
use crate::blocks::OrderingMode;
use crate::counting::{
    lemma_total_drop_first, lemma_total_of_flags, lemma_total_push, lemma_total_update,
    lemma_total_zero, total,
};
use crate::model::{well_shaped, PipelineModel, Replica, SinkModel, StageModel, Step};
use crate::work_storage::{TimestampedWorkItem, WorkItem};
use vstd::prelude::*;

verus! {

/// One for a replica that has not counted itself out.
pub open spec fn counting<V>() -> spec_fn(Replica<V>) -> nat {
    |r: Replica<V>|
        if r.counts() {
            1nat
        } else {
            0nat
        }
}

/// One for a replica that still has to hand the stop token on.
pub open spec fn handing_on<V>() -> spec_fn(Replica<V>) -> nat {
    |r: Replica<V>|
        if r matches Replica::Leaving { hands_on, .. } && hands_on {
            1nat
        } else {
            0nat
        }
}

/// One for a replica that holds a value or a dropped slot.
pub open spec fn holding_live<V>() -> spec_fn(Replica<V>) -> nat {
    |r: Replica<V>|
        if r.holds_live() {
            1nat
        } else {
            0nat
        }
}

/// One for a value or a dropped slot.
pub open spec fn live<V>() -> spec_fn(TimestampedWorkItem<V>) -> nat {
    |item: TimestampedWorkItem<V>|
        if item.is_live() {
            1nat
        } else {
            0nat
        }
}

/// The values and dropped slots that a stage has: in its queue and with its replicas.
pub open spec fn stage_load<V>() -> spec_fn(StageModel<V>) -> nat {
    |stage: StageModel<V>|
        total(stage.queue.items, live()) + total(stage.replicas, holding_live())
}

/// Whether nothing but stop tokens follows a stop token in `items`.
pub open spec fn stops_last<V>(items: Seq<TimestampedWorkItem<V>>) -> bool {
    forall|a: int, b: int|
        0 <= a < b < items.len() && (#[trigger] items[a]).0 is Stop ==> (#[trigger] items[b]).0 is Stop
}

/// Whether `items` holds a stop token.
pub open spec fn has_stop<V>(items: Seq<TimestampedWorkItem<V>>) -> bool {
    exists|a: int| 0 <= a < items.len() && (#[trigger] items[a]).0 is Stop
}

/// Whether a replica of `stage` has taken the stop token.
pub open spec fn touched<V>(stage: StageModel<V>) -> bool {
    exists|r: int| 0 <= r < stage.replicas.len() && (#[trigger] stage.replicas[r]).stopped()
}

/// What holds of a stage; `closed` says that the block before it hands on no
/// value and no dropped slot any more.
#[verifier::opaque]
pub open spec fn stage_inv<V>(stage: StageModel<V>, closed: bool) -> bool {
    &&& 1 <= stage.replicas.len() <= i32::MAX
    &&& stage.alive == total(stage.replicas, counting())
    &&& stage.stops_handed_on + total(stage.replicas, handing_on()) == if stage.alive == 0 {
        1nat
    } else {
        0nat
    }
    &&& stops_last(stage.queue.items)
    &&& has_stop(stage.queue.items) || touched(stage) ==> closed
    &&& touched(stage) ==> total(stage.queue.items, live()) == 0
}

/// What holds of the sink; `closed` as for a stage, `delivered` what the last
/// stage has handed to the sink.
#[verifier::opaque]
pub open spec fn sink_inv<V>(
    sink: SinkModel<V>,
    closed: bool,
    delivered: Seq<TimestampedWorkItem<V>>,
) -> bool {
    &&& forall|j: int| 0 <= j < sink.seen.len() ==> (#[trigger] sink.seen[j]).is_live()
    &&& sink.ordering == OrderingMode::Unordered ==> {
        &&& stops_last(sink.queue.items)
        &&& has_stop(sink.queue.items) || sink.gone ==> closed
        &&& sink.gone ==> total(sink.queue.items, live()) == 0
        &&& total(sink.queue.items, live()) + sink.seen.len() == total(delivered, live())
    }
}

/// Whether the block before block `i` hands on no value and no dropped slot any
/// more: the handle after the end was signalled, a stage when all its replicas
/// have counted themselves out. Block `stages.len()` is the sink.
pub open spec fn closed_at<V>(s: PipelineModel<V>, i: int) -> bool {
    if i == 0 {
        s.signaled_end
    } else {
        s.stages[i - 1].alive == 0
    }
}

/// What holds of the stages of a pipeline.
pub open spec fn stages_inv<V>(s: PipelineModel<V>) -> bool {
    &&& s.stages.len() > 0
    &&& forall|i: int|
        0 <= i < s.stages.len() ==> stage_inv(#[trigger] s.stages[i], closed_at(s, i))
}

/// What holds of a pipeline that has run from its start.
pub open spec fn protocol_inv<V>(s: PipelineModel<V>) -> bool {
    &&& stages_inv(s)
    &&& sink_inv(s.sink, closed_at(s, s.stages.len() as int), s.delivered)
    &&& total(s.stages, stage_load()) + total(s.delivered, live()) == s.posted.len()
}

/// A queue of stop tokens holds no value and no dropped slot.
proof fn lemma_all_stops_no_live<V>(items: Seq<TimestampedWorkItem<V>>)
    requires
        forall|a: int| 0 <= a < items.len() ==> (#[trigger] items[a]).0 is Stop,
    ensures
        total(items, live()) == 0,
{
    lemma_total_zero(items, live());
}

/// A queue without a value and without a dropped slot holds stop tokens only.
proof fn lemma_no_live_all_stops<V>(items: Seq<TimestampedWorkItem<V>>)
    requires
        total(items, live()) == 0,
    ensures
        forall|a: int| 0 <= a < items.len() ==> (#[trigger] items[a]).0 is Stop,
{
    lemma_total_zero(items, live());
    assert forall|a: int| 0 <= a < items.len() implies (#[trigger] items[a]).0 is Stop by {
        assert(live()(items[a]) == 0);
    }
}

/// A queue keeps its shape when an item is appended that may stand there.
proof fn lemma_push_keeps_shape<V>(
    items: Seq<TimestampedWorkItem<V>>,
    item: TimestampedWorkItem<V>,
)
    requires
        stops_last(items),
        item.is_live() ==> !has_stop(items),
    ensures
        stops_last(items.push(item)),
        has_stop(items.push(item)) <==> has_stop(items) || item.0 is Stop,
        total(items.push(item), live()) == total(items, live()) + live()(item),
{
    lemma_total_push(items, item, live());
    let pushed = items.push(item);
    assert forall|a: int, b: int|
        0 <= a < b < pushed.len() && (#[trigger] pushed[a]).0 is Stop implies (
    #[trigger] pushed[b]).0 is Stop by {
        assert(pushed[a] == items[a]);
        if b < items.len() {
            assert(pushed[b] == items[b]);
        }
    }
    if has_stop(pushed) {
        let a = choose|a: int| 0 <= a < pushed.len() && (#[trigger] pushed[a]).0 is Stop;
        if a < items.len() {
            assert(items[a] == pushed[a]);
        }
    }
    if has_stop(items) {
        let a = choose|a: int| 0 <= a < items.len() && (#[trigger] items[a]).0 is Stop;
        assert(pushed[a] == items[a]);
    }
    if item.0 is Stop {
        assert(pushed[items.len() as int] == item);
    }
}

/// A queue keeps its shape when its front item leaves; behind a stop token
/// there was no value and no dropped slot.
proof fn lemma_drop_first_keeps_shape<V>(items: Seq<TimestampedWorkItem<V>>)
    requires
        stops_last(items),
        items.len() > 0,
    ensures
        stops_last(items.drop_first()),
        has_stop(items.drop_first()) ==> has_stop(items),
        total(items.drop_first(), live()) + live()(items[0]) == total(items, live()),
        items[0].0 is Stop ==> total(items.drop_first(), live()) == 0,
{
    lemma_total_drop_first(items, live());
    let rest = items.drop_first();
    assert forall|a: int, b: int|
        0 <= a < b < rest.len() && (#[trigger] rest[a]).0 is Stop implies (#[trigger] rest[b]).0 is Stop by {
        assert(rest[a] == items[a + 1]);
        assert(rest[b] == items[b + 1]);
    }
    if has_stop(rest) {
        let a = choose|a: int| 0 <= a < rest.len() && (#[trigger] rest[a]).0 is Stop;
        assert(items[a + 1] == rest[a]);
    }
    if items[0].0 is Stop {
        assert forall|a: int| 0 <= a < rest.len() implies (#[trigger] rest[a]).0 is Stop by {
            assert(rest[a] == items[a + 1]);
        }
        lemma_all_stops_no_live(rest);
    }
}

/// A replica that has not counted itself out keeps the count of its stage above zero.
proof fn lemma_counting_replica<V>(stage: StageModel<V>, r: int)
    requires
        0 <= r < stage.replicas.len(),
        stage.replicas[r].counts(),
    ensures
        total(stage.replicas, counting()) >= 1,
{
    lemma_total_zero(stage.replicas, counting());
    if total(stage.replicas, counting()) == 0 {
        assert(counting()(stage.replicas[r]) == 0);
    }
}

/// What a stage knows of the block before it is never taken back.
proof fn lemma_stage_inv_closes<V>(stage: StageModel<V>, before: bool, after: bool)
    requires
        stage_inv(stage, before),
        before ==> after,
    ensures
        stage_inv(stage, after),
{
    reveal(stage_inv);
}

/// How the state of one replica changes what holds of its stage.
proof fn lemma_move_replica<V>(stage: StageModel<V>, r: int, to: Replica<V>)
    requires
        0 <= r < stage.replicas.len(),
    ensures
        total(stage.with_replica(r, to).replicas, counting()) + counting()(stage.replicas[r])
            == total(stage.replicas, counting()) + counting()(to),
        total(stage.with_replica(r, to).replicas, handing_on()) + handing_on()(
            stage.replicas[r],
        ) == total(stage.replicas, handing_on()) + handing_on()(to),
        total(stage.with_replica(r, to).replicas, holding_live()) + holding_live()(
            stage.replicas[r],
        ) == total(stage.replicas, holding_live()) + holding_live()(to),
        touched(stage.with_replica(r, to)) ==> touched(stage) || to.stopped(),
        touched(stage) ==> touched(stage.with_replica(r, to)) || stage.replicas[r].stopped(),
        to.stopped() ==> touched(stage.with_replica(r, to)),
{
    lemma_total_update(stage.replicas, r, to, counting());
    lemma_total_update(stage.replicas, r, to, handing_on());
    lemma_total_update(stage.replicas, r, to, holding_live());
    let moved = stage.with_replica(r, to);
    if touched(moved) {
        let x = choose|x: int| 0 <= x < moved.replicas.len() && (#[trigger] moved.replicas[x]).stopped();
        if x != r {
            assert(stage.replicas[x] == moved.replicas[x]);
        }
    }
    if touched(stage) {
        let x = choose|x: int| 0 <= x < stage.replicas.len() && (#[trigger] stage.replicas[x]).stopped();
        if x != r {
            assert(moved.replicas[x] == stage.replicas[x]);
        }
    }
    if to.stopped() {
        assert(moved.replicas[r] == to);
    }
}

/// What the sink knows of the last stage is never taken back.
proof fn lemma_sink_inv_closes<V>(
    sink: SinkModel<V>,
    before: bool,
    after: bool,
    delivered: Seq<TimestampedWorkItem<V>>,
)
    requires
        sink_inv(sink, before, delivered),
        before ==> after,
    ensures
        sink_inv(sink, after, delivered),
{
    reveal(sink_inv);
}

/// What follows for the stages when one of them changes.
proof fn lemma_replace_stage<V>(
    s: PipelineModel<V>,
    i: int,
    to: StageModel<V>,
    after: PipelineModel<V>,
)
    requires
        stages_inv(s),
        0 <= i < s.stages.len(),
        after.stages == s.stages.update(i, to),
        s.signaled_end ==> after.signaled_end,
        s.stages[i].alive == 0 ==> to.alive == 0,
        stage_inv(to, closed_at(after, i)),
        sink_inv(s.sink, closed_at(s, s.stages.len() as int), s.delivered),
        after.sink == s.sink,
        after.delivered == s.delivered,
    ensures
        stages_inv(after),
        sink_inv(after.sink, closed_at(after, after.stages.len() as int), after.delivered),
        total(after.stages, stage_load()) + stage_load()(s.stages[i]) == total(
            s.stages,
            stage_load(),
        ) + stage_load()(to),
        forall|j: int| 0 <= j <= s.stages.len() && closed_at(s, j) ==> closed_at(after, j),
{
    lemma_total_update(s.stages, i, to, stage_load());
    lemma_sink_inv_closes(
        s.sink,
        closed_at(s, s.stages.len() as int),
        closed_at(after, s.stages.len() as int),
        s.delivered,
    );
    assert forall|j: int| 0 <= j <= s.stages.len() && closed_at(s, j) implies closed_at(
        after,
        j,
    ) by {
        if j > 0 && j - 1 != i {
            assert(after.stages[j - 1] == s.stages[j - 1]);
        }
    }
    assert forall|j: int| 0 <= j < after.stages.len() implies stage_inv(
        #[trigger] after.stages[j],
        closed_at(after, j),
    ) by {
        if j != i {
            assert(after.stages[j] == s.stages[j]);
            lemma_stage_inv_closes(s.stages[j], closed_at(s, j), closed_at(after, j));
        }
    }
}

/// What follows for a stage when the block before it hands it `item`.
proof fn lemma_stage_receives<V>(stage: StageModel<V>, closed: bool, item: TimestampedWorkItem<V>)
    requires
        stage_inv(stage, closed),
        item.is_live() ==> !closed,
        item.0 is Stop ==> closed,
    ensures
        stage_inv(stage.receive(item), closed),
        stage_load()(stage.receive(item)) == stage_load()(stage) + live()(item),
        stage.receive(item).alive == stage.alive,
{
    reveal(stage_inv);
    let to = stage.receive(item);
    lemma_push_keeps_shape(stage.queue.items, item);
    assert(to.replicas == stage.replicas);
    assert(touched(to) == touched(stage));
}

/// What follows for the sink when the last stage hands it `item`.
proof fn lemma_sink_receives<V>(
    sink: SinkModel<V>,
    closed: bool,
    delivered: Seq<TimestampedWorkItem<V>>,
    item: TimestampedWorkItem<V>,
)
    requires
        sink_inv(sink, closed, delivered),
        item.is_live() ==> !closed,
        item.0 is Stop ==> closed,
    ensures
        sink_inv(sink.receive(item), closed, delivered.push(item)),
        total(delivered.push(item), live()) == total(delivered, live()) + live()(item),
{
    reveal(sink_inv);
    lemma_total_push(delivered, item, live());
    if sink.ordering == OrderingMode::Unordered {
        let stamped = TimestampedWorkItem(item.0, sink.queue.inserts);
        lemma_push_keeps_shape(sink.queue.items, stamped);
        assert(sink.receive(item).queue.items == sink.queue.items.push(stamped));
        assert(live()(stamped) == live()(item));
    }
}

/// What follows for a pipeline when block `i + 1` is handed `item` by stage `i`,
/// which `item` may come from.
proof fn lemma_hand_down<V>(s: PipelineModel<V>, i: int, item: TimestampedWorkItem<V>)
    requires
        stages_inv(s),
        sink_inv(s.sink, closed_at(s, s.stages.len() as int), s.delivered),
        0 <= i < s.stages.len(),
        item.is_live() ==> !closed_at(s, i + 1),
        item.0 is Stop ==> closed_at(s, i + 1),
    ensures
        stages_inv(s.hand_down(i, item)),
        sink_inv(
            s.hand_down(i, item).sink,
            closed_at(s.hand_down(i, item), s.stages.len() as int),
            s.hand_down(i, item).delivered,
        ),
        total(s.hand_down(i, item).stages, stage_load()) + total(
            s.hand_down(i, item).delivered,
            live(),
        ) == total(s.stages, stage_load()) + total(s.delivered, live()) + live()(item),
        s.hand_down(i, item).stages.len() == s.stages.len(),
        s.hand_down(i, item).posted == s.posted,
        s.hand_down(i, item).signaled_end == s.signaled_end,
{
    let after = s.hand_down(i, item);
    let n = s.stages.len() as int;
    if i + 1 < s.stages.len() {
        let at = s.stages[i + 1];
        let to = at.receive(item);
        lemma_stage_receives(at, closed_at(s, i + 1), item);
        assert(after.stages[i] == s.stages[i]);
        assert(closed_at(after, i + 1) == closed_at(s, i + 1));
        lemma_replace_stage(s, i + 1, to, after);
    } else {
        lemma_sink_receives(s.sink, closed_at(s, n), s.delivered, item);
        assert(after.stages == s.stages);
        assert(closed_at(after, n) == closed_at(s, n));
        assert forall|j: int| 0 <= j < after.stages.len() implies stage_inv(
            #[trigger] after.stages[j],
            closed_at(after, j),
        ) by {
            assert(closed_at(after, j) == closed_at(s, j));
        }
    }
}

/// A waiting replica takes the front item.
pub proof fn lemma_stage_take<V>(stage: StageModel<V>, closed: bool, r: int)
    requires
        stage_inv(stage, closed),
        0 <= r < stage.replicas.len(),
        stage.replicas[r] is Idle,
        stage.queue.items.len() > 0,
    ensures
        ({
            let to = StageModel { queue: stage.queue.dequeue(), ..stage }.with_replica(
                r,
                Replica::Holding(stage.queue.items[0]),
            );
            &&& stage_inv(to, closed)
            &&& stage_load()(to) == stage_load()(stage)
            &&& to.alive == stage.alive
        }),
{
    reveal(stage_inv);
    let front = stage.queue.items[0];
    let shorter = StageModel { queue: stage.queue.dequeue(), ..stage };
    let to = shorter.with_replica(r, Replica::Holding(front));
    lemma_drop_first_keeps_shape(stage.queue.items);
    lemma_move_replica(shorter, r, Replica::Holding(front));
    assert(shorter.replicas == stage.replicas);
    assert(touched(shorter) == touched(stage));
    if touched(stage) {
        lemma_no_live_all_stops(stage.queue.items);
    }
    if front.0 is Stop {
        assert(has_stop(stage.queue.items));
    }
}

/// A replica hands on what it held and waits again.
pub proof fn lemma_stage_emit<V>(stage: StageModel<V>, closed: bool, r: int)
    requires
        stage_inv(stage, closed),
        0 <= r < stage.replicas.len(),
        stage.replicas[r].holds_live(),
    ensures
        stage_inv(stage.with_replica(r, Replica::Idle), closed),
        stage_load()(stage.with_replica(r, Replica::Idle)) + 1 == stage_load()(stage),
        stage.with_replica(r, Replica::Idle).alive == stage.alive,
        stage.alive != 0,
{
    reveal(stage_inv);
    lemma_move_replica(stage, r, Replica::Idle);
    lemma_counting_replica(stage, r);
}

/// A replica that holds the stop token counts itself out.
pub proof fn lemma_stage_count_out<V>(stage: StageModel<V>, closed: bool, r: int)
    requires
        stage_inv(stage, closed),
        0 <= r < stage.replicas.len(),
        stage.replicas[r] matches Replica::Holding(item) && item.0 is Stop,
    ensures
        ({
            let token = stage.replicas[r]->Holding_0;
            let to = StageModel {
                alive: if stage.alive == 0 {
                    usize::MAX
                } else {
                    (stage.alive - 1) as usize
                },
                ..stage
            }.with_replica(
                r,
                Replica::Leaving { token, hands_on: crate::blocks::spec_is_last_replica(stage.alive) },
            );
            &&& stage_inv(to, closed)
            &&& stage_load()(to) == stage_load()(stage)
            &&& to.alive + 1 == stage.alive
        }),
{
    reveal(stage_inv);
    let token = stage.replicas[r]->Holding_0;
    let fewer = StageModel {
        alive: if stage.alive == 0 {
            usize::MAX
        } else {
            (stage.alive - 1) as usize
        },
        ..stage
    };
    let at = Replica::Leaving { token, hands_on: crate::blocks::spec_is_last_replica(stage.alive) };
    lemma_counting_replica(stage, r);
    lemma_move_replica(fewer, r, at);
    assert(fewer.replicas == stage.replicas);
    assert(touched(fewer) == touched(stage));
    assert(stage.replicas[r].stopped());
    assert(touched(stage));
}

/// The last replica hands the stop token on.
pub proof fn lemma_stage_hand_on<V>(stage: StageModel<V>, closed: bool, r: int)
    requires
        stage_inv(stage, closed),
        0 <= r < stage.replicas.len(),
        stage.replicas[r] matches Replica::Leaving { hands_on, .. } && hands_on,
    ensures
        ({
            let token = stage.replicas[r]->Leaving_token;
            let to = StageModel {
                stops_handed_on: stage.stops_handed_on + 1,
                ..stage
            }.with_replica(r, Replica::Leaving { token, hands_on: false });
            &&& stage_inv(to, closed)
            &&& stage_load()(to) == stage_load()(stage)
            &&& to.alive == stage.alive
            &&& stage.alive == 0
            &&& stage.stops_handed_on == 0
        }),
{
    reveal(stage_inv);
    let token = stage.replicas[r]->Leaving_token;
    let more = StageModel { stops_handed_on: stage.stops_handed_on + 1, ..stage };
    lemma_move_replica(more, r, Replica::Leaving { token, hands_on: false });
    assert(more.replicas == stage.replicas);
    assert(touched(more) == touched(stage));
    assert(stage.replicas[r].stopped());
    assert(touched(stage));
    lemma_total_zero(stage.replicas, handing_on());
    if total(stage.replicas, handing_on()) == 0 {
        assert(handing_on()(stage.replicas[r]) == 0);
    }
    lemma_total_of_flags(stage.replicas, handing_on());
    lemma_total_of_flags(more.replicas, handing_on());
}

/// A leaving replica puts the stop token back and ends.
pub proof fn lemma_stage_put_back<V>(stage: StageModel<V>, closed: bool, r: int)
    requires
        stage_inv(stage, closed),
        0 <= r < stage.replicas.len(),
        stage.replicas[r] matches Replica::Leaving { hands_on, .. } && !hands_on,
    ensures
        ({
            let token = stage.replicas[r]->Leaving_token;
            let to = stage.receive(TimestampedWorkItem(WorkItem::Stop, token.1)).with_replica(
                r,
                Replica::Gone,
            );
            &&& stage_inv(to, closed)
            &&& stage_load()(to) == stage_load()(stage)
            &&& to.alive == stage.alive
        }),
{
    reveal(stage_inv);
    let token = stage.replicas[r]->Leaving_token;
    let stop = TimestampedWorkItem(WorkItem::<V>::Stop, token.1);
    assert(stage.replicas[r].stopped());
    assert(touched(stage));
    lemma_stage_receives(stage, closed, stop);
    lemma_move_replica(stage.receive(stop), r, Replica::Gone);
}

/// The head stage is handed an item by the handle, under the next order of its queue.
pub proof fn lemma_stage_posted<V>(stage: StageModel<V>, closed: bool, item: WorkItem<V>)
    requires
        stage_inv(stage, closed),
        item.is_live() ==> !closed,
    ensures
        ({
            let to = StageModel { queue: stage.queue.enqueue(item), ..stage };
            &&& stage_inv(to, closed || item is Stop)
            &&& stage_load()(to) == stage_load()(stage) + live()(
                TimestampedWorkItem(item, stage.queue.inserts),
            )
            &&& to.alive == stage.alive
        }),
{
    reveal(stage_inv);
    let stamped = TimestampedWorkItem(item, stage.queue.inserts);
    let to = StageModel { queue: stage.queue.enqueue(item), ..stage };
    lemma_stage_inv_closes(stage, closed, closed || item is Stop);
    lemma_stage_receives(stage, closed || item is Stop, stamped);
    assert(to.queue.items == stage.receive(stamped).queue.items);
    assert(to.replicas == stage.replicas);
    assert(touched(to) == touched(stage));
    assert(touched(to) == touched(stage.receive(stamped)));
}

/// The worker of the sink takes its next item.
proof fn lemma_sink_takes<V>(
    sink: SinkModel<V>,
    closed: bool,
    delivered: Seq<TimestampedWorkItem<V>>,
)
    requires
        sink_inv(sink, closed, delivered),
        sink.can_take(),
    ensures
        sink_inv(sink.take(), closed, delivered),
{
    reveal(sink_inv);
    let after = sink.take();
    let item = sink.front();
    assert forall|j: int| 0 <= j < after.seen.len() implies (#[trigger] after.seen[j]).is_live() by {
        if j < sink.seen.len() {
            assert(after.seen[j] == sink.seen[j]);
        }
    }
    if sink.ordering == OrderingMode::Unordered {
        lemma_drop_first_keeps_shape(sink.queue.items);
        if item.0 is Stop {
            assert(has_stop(sink.queue.items));
        }
    }
}

/// When the handle takes an item.
proof fn lemma_protocol_post<V>(s: PipelineModel<V>, item: V)
    requires
        protocol_inv(s),
        s.enabled(Step::Post { item }),
    ensures
        protocol_inv(s.next(Step::Post { item })),
{
    let after = s.next(Step::Post { item });
    if !s.signaled_end {
        let head = s.stages[0];
        let to = StageModel { queue: head.queue.enqueue(WorkItem::Value(item)), ..head };
        lemma_stage_posted(head, closed_at(s, 0), WorkItem::Value(item));
        lemma_replace_stage(s, 0, to, after);
    }
}

/// When the handle signals the end.
proof fn lemma_protocol_end<V>(s: PipelineModel<V>)
    requires
        protocol_inv(s),
        s.enabled(Step::End),
    ensures
        protocol_inv(s.next(Step::End)),
{
    let after = s.next(Step::End);
    let head = s.stages[0];
    let to = StageModel { queue: head.queue.enqueue(WorkItem::Stop), ..head };
    lemma_stage_posted(head, closed_at(s, 0), WorkItem::Stop);
    lemma_replace_stage(s, 0, to, after);
}

/// When a waiting replica takes the front item of its queue.
proof fn lemma_protocol_take<V>(s: PipelineModel<V>, stage: int, replica: int)
    requires
        protocol_inv(s),
        s.enabled(Step::Take { stage, replica }),
    ensures
        protocol_inv(s.next(Step::Take { stage, replica })),
{
    let after = s.next(Step::Take { stage, replica });
    let at = s.stages[stage];
    let to = StageModel { queue: at.queue.dequeue(), ..at }.with_replica(
        replica,
        Replica::Holding(at.queue.items[0]),
    );
    lemma_stage_take(at, closed_at(s, stage), replica);
    lemma_replace_stage(s, stage, to, after);
}

/// When a replica hands on what it holds.
proof fn lemma_protocol_emit<V>(s: PipelineModel<V>, stage: int, replica: int, output: Option<V>)
    requires
        protocol_inv(s),
        s.enabled(Step::Emit { stage, replica, output }),
    ensures
        protocol_inv(s.next(Step::Emit { stage, replica, output })),
{
    let at = s.stages[stage];
    let to = at.with_replica(replica, Replica::Idle);
    let mid = s.with_stage(stage, to);
    let held = at.replicas[replica]->Holding_0;
    let forwarded = match held.0 {
        WorkItem::Value(_) => crate::blocks::spec_stage_output(output, held.1),
        _ => TimestampedWorkItem(WorkItem::Dropped, held.1),
    };
    lemma_stage_emit(at, closed_at(s, stage), replica);
    lemma_replace_stage(s, stage, to, mid);
    assert(mid.stages[stage] == to);
    lemma_hand_down(mid, stage, forwarded);
}

/// When a replica that holds the stop token counts itself out.
proof fn lemma_protocol_count_out<V>(s: PipelineModel<V>, stage: int, replica: int)
    requires
        protocol_inv(s),
        s.enabled(Step::CountOut { stage, replica }),
    ensures
        protocol_inv(s.next(Step::CountOut { stage, replica })),
{
    let after = s.next(Step::CountOut { stage, replica });
    let at = s.stages[stage];
    let token = at.replicas[replica]->Holding_0;
    let to = StageModel {
        alive: if at.alive == 0 {
            usize::MAX
        } else {
            (at.alive - 1) as usize
        },
        ..at
    }.with_replica(
        replica,
        Replica::Leaving { token, hands_on: crate::blocks::spec_is_last_replica(at.alive) },
    );
    lemma_stage_count_out(at, closed_at(s, stage), replica);
    lemma_replace_stage(s, stage, to, after);
}

/// When the last replica of a stage hands the stop token on.
proof fn lemma_protocol_hand_on<V>(s: PipelineModel<V>, stage: int, replica: int)
    requires
        protocol_inv(s),
        s.enabled(Step::HandOn { stage, replica }),
    ensures
        protocol_inv(s.next(Step::HandOn { stage, replica })),
{
    let at = s.stages[stage];
    let token = at.replicas[replica]->Leaving_token;
    let to = StageModel { stops_handed_on: at.stops_handed_on + 1, ..at }.with_replica(
        replica,
        Replica::Leaving { token, hands_on: false },
    );
    let mid = s.with_stage(stage, to);
    lemma_stage_hand_on(at, closed_at(s, stage), replica);
    lemma_replace_stage(s, stage, to, mid);
    assert(mid.stages[stage] == to);
    lemma_hand_down(mid, stage, TimestampedWorkItem(WorkItem::Stop, token.1));
}

/// When a leaving replica puts the stop token back.
proof fn lemma_protocol_put_back<V>(s: PipelineModel<V>, stage: int, replica: int)
    requires
        protocol_inv(s),
        s.enabled(Step::PutBack { stage, replica }),
    ensures
        protocol_inv(s.next(Step::PutBack { stage, replica })),
{
    let after = s.next(Step::PutBack { stage, replica });
    let at = s.stages[stage];
    let token = at.replicas[replica]->Leaving_token;
    let to = at.receive(TimestampedWorkItem(WorkItem::Stop, token.1)).with_replica(
        replica,
        Replica::Gone,
    );
    lemma_stage_put_back(at, closed_at(s, stage), replica);
    lemma_replace_stage(s, stage, to, after);
}

/// When a waiting replica takes the front item of its queue.
proof fn lemma_protocol_sink_take<V>(s: PipelineModel<V>)
    requires
        protocol_inv(s),
        s.enabled(Step::SinkTake),
    ensures
        protocol_inv(s.next(Step::SinkTake)),
{
    let after = s.next(Step::SinkTake);
    let n = s.stages.len() as int;
    lemma_sink_takes(s.sink, closed_at(s, n), s.delivered);
    assert(closed_at(after, n) == closed_at(s, n));
    assert forall|j: int| 0 <= j < after.stages.len() implies stage_inv(
        #[trigger] after.stages[j],
        closed_at(after, j),
    ) by {
        assert(closed_at(after, j) == closed_at(s, j));
    }
}

/// Every step keeps what holds of a pipeline.
pub proof fn lemma_protocol_step<V>(s: PipelineModel<V>, step: Step<V>)
    requires
        protocol_inv(s),
        s.enabled(step),
    ensures
        protocol_inv(s.next(step)),
{
    match step {
        Step::Post { item } => {
            lemma_protocol_post(s, item);
        },
        Step::End => {
            lemma_protocol_end(s);
        },
        Step::Take { stage, replica } => {
            lemma_protocol_take(s, stage, replica);
        },
        Step::Emit { stage, replica, output } => {
            lemma_protocol_emit(s, stage, replica, output);
        },
        Step::CountOut { stage, replica } => {
            lemma_protocol_count_out(s, stage, replica);
        },
        Step::HandOn { stage, replica } => {
            lemma_protocol_hand_on(s, stage, replica);
        },
        Step::PutBack { stage, replica } => {
            lemma_protocol_put_back(s, stage, replica);
        },
        Step::SinkTake => {
            lemma_protocol_sink_take(s);
        },
    }
}

/// A pipeline that has not run has what holds of every pipeline.
pub proof fn lemma_protocol_init<V>(shape: Seq<nat>, ordering: OrderingMode)
    requires
        well_shaped(shape),
    ensures
        protocol_inv(PipelineModel::<V>::init(shape, ordering)),
{
    reveal(stage_inv);
    reveal(sink_inv);
    let s = PipelineModel::<V>::init(shape, ordering);
    assert forall|i: int| 0 <= i < s.stages.len() implies stage_inv(
        #[trigger] s.stages[i],
        closed_at(s, i),
    ) by {
        let stage = s.stages[i];
        assert(stage == StageModel::<V>::fresh(shape[i]));
        lemma_total_of_flags(stage.replicas, counting());
        lemma_total_zero(stage.replicas, handing_on());
        assert(!touched(stage));
        assert(!has_stop(stage.queue.items));
    }
    lemma_total_zero(s.stages, stage_load());
    assert forall|i: int| 0 <= i < s.stages.len() implies stage_load()(#[trigger] s.stages[i])
        == 0 by {
        let stage = s.stages[i];
        lemma_total_zero(stage.replicas, holding_live());
    }
    assert(!has_stop(s.sink.queue.items));
}

/// Every pipeline that has run from its start has what holds of every pipeline.
pub proof fn lemma_protocol_holds<V>(shape: Seq<nat>, ordering: OrderingMode, steps: Seq<Step<V>>)
    requires
        well_shaped(shape),
        PipelineModel::<V>::init(shape, ordering).admits(steps),
    ensures
        protocol_inv(PipelineModel::<V>::init(shape, ordering).run(steps)),
    decreases steps.len(),
{
    if steps.len() == 0 {
        lemma_protocol_init::<V>(shape, ordering);
    } else {
        lemma_protocol_holds(shape, ordering, steps.drop_last());
        lemma_protocol_step(
            PipelineModel::<V>::init(shape, ordering).run(steps.drop_last()),
            steps.last(),
        );
    }
}

/// No step changes what a pipeline was built with.
pub proof fn lemma_shape_step<V>(s: PipelineModel<V>, step: Step<V>)
    requires
        s.enabled(step),
    ensures
        s.next(step).shape() == s.shape(),
{
    let after = s.next(step);
    assert(after.stages.len() == s.stages.len());
    assert forall|i: int| 0 <= i < s.stages.len() implies (#[trigger] after.stages[i]).replicas.len()
        == s.stages[i].replicas.len() by {}
    assert(after.shape().0 =~= s.shape().0);
}

/// A pipeline that has run still has the shape it was built with.
pub proof fn lemma_shape_kept<V>(shape: Seq<nat>, ordering: OrderingMode, steps: Seq<Step<V>>)
    requires
        PipelineModel::<V>::init(shape, ordering).admits(steps),
    ensures
        PipelineModel::<V>::init(shape, ordering).run(steps).shape() == (shape, ordering),
    decreases steps.len(),
{
    let start = PipelineModel::<V>::init(shape, ordering);
    if steps.len() == 0 {
        assert(start.shape().0 =~= shape);
    } else {
        lemma_shape_kept(shape, ordering, steps.drop_last());
        lemma_shape_step(start.run(steps.drop_last()), steps.last());
    }
}

/// Where all replicas of a stage have ended, the stage has handed the stop token
/// on once and has no value and no dropped slot left.
pub proof fn lemma_stage_drained<V>(stage: StageModel<V>, closed: bool)
    requires
        stage_inv(stage, closed),
        stage.all_gone(),
    ensures
        stage.stops_handed_on == 1,
        stage.alive == 0,
        stage_load()(stage) == 0,
{
    reveal(stage_inv);
    lemma_total_zero(stage.replicas, counting());
    lemma_total_zero(stage.replicas, handing_on());
    lemma_total_zero(stage.replicas, holding_live());
    assert(stage.replicas[0].stopped());
    assert(touched(stage));
}

/// Where every worker has ended, the sink has seen as many values and dropped
/// slots as the handle took items. For an unordered sink.
pub proof fn lemma_all_seen<V>(s: PipelineModel<V>)
    requires
        protocol_inv(s),
        s.all_gone(),
        s.sink.ordering == OrderingMode::Unordered,
    ensures
        s.sink.seen.len() == s.posted.len(),
{
    reveal(sink_inv);
    assert forall|i: int| 0 <= i < s.stages.len() implies stage_load()(#[trigger] s.stages[i])
        == 0 by {
        lemma_stage_drained(s.stages[i], closed_at(s, i));
    }
    lemma_total_zero(s.stages, stage_load());
}

} // verus!
