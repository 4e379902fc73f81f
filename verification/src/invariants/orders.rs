//! What holds of the orders in a pipeline while the head queue has not given
//! out its last order: values and dropped slots carry the orders below the
//! number of items taken, stop tokens the orders from there on, and an ordered
//! sink takes the orders one after the other from zero.
use crate::blocks::OrderingMode;
use crate::model::{well_shaped, PipelineModel, Replica, SinkModel, StageModel, Step};
use crate::work_storage::{TimestampedWorkItem, WorkItem};
use vstd::prelude::*;

verus! {

/// Whether the head queue has not yet given out its last order.
pub open spec fn bounded<V>(s: PipelineModel<V>) -> bool {
    s.posted.len() + s.ends <= u64::MAX
}

/// Whether `item` carries an order that it can have when `taken` items were
/// taken and the end was signalled `ends` times: a value or a dropped slot one
/// of the first `taken` orders, a stop token one of the `ends` orders after them.
pub open spec fn in_range<V>(taken: nat, ends: nat, item: TimestampedWorkItem<V>) -> bool {
    if item.is_live() {
        item.1 < taken
    } else {
        taken <= item.1 < taken + ends
    }
}

/// Whether what a replica holds carries an order that it can have.
pub open spec fn replica_in_range<V>(taken: nat, ends: nat, replica: Replica<V>) -> bool {
    match replica {
        Replica::Holding(item) => in_range(taken, ends, item),
        Replica::Leaving { token, .. } => token.0 is Stop && in_range(taken, ends, token),
        _ => true,
    }
}

/// Whether everything in a stage carries an order that it can have.
#[verifier::opaque]
pub open spec fn stage_in_range<V>(taken: nat, ends: nat, stage: StageModel<V>) -> bool {
    &&& forall|j: int|
        0 <= j < stage.queue.items.len() ==> in_range(taken, ends, #[trigger] stage.queue.items[j])
    &&& forall|r: int|
        0 <= r < stage.replicas.len() ==> replica_in_range(
            taken,
            ends,
            #[trigger] stage.replicas[r],
        )
}

/// What holds of an ordered sink: each stored item lies under the order it
/// carries, and the worker has taken the orders from zero up to the one it
/// waits for, which it passes only for a value or a dropped slot.
#[verifier::opaque]
pub open spec fn sink_in_order<V>(taken: nat, ends: nat, sink: SinkModel<V>) -> bool {
    sink.ordering == OrderingMode::Ordered ==> {
        &&& forall|k: u64| #[trigger]
            sink.store.contains_key(k) ==> sink.store[k].1 == k && in_range(
                taken,
                ends,
                sink.store[k],
            )
        &&& sink.seen.len() == sink.next_item
        &&& forall|j: int|
            0 <= j < sink.seen.len() ==> (#[trigger] sink.seen[j]).1 == j && sink.seen[j].is_live()
        &&& sink.next_item <= taken
        &&& sink.gone ==> ends > 0 && sink.next_item == taken
    }
}

/// What holds of the orders in a pipeline that has run from its start.
pub open spec fn order_inv<V>(s: PipelineModel<V>) -> bool {
    &&& s.stages.len() > 0
    &&& s.stages[0].queue.inserts == s.posted.len() + s.ends
    &&& s.signaled_end <==> s.ends > 0
    &&& forall|i: int|
        0 <= i < s.stages.len() ==> stage_in_range(s.posted.len(), s.ends, #[trigger] s.stages[i])
    &&& sink_in_order(s.posted.len(), s.ends, s.sink)
}

/// While the end is not signalled, one more item taken leaves every order in range.
proof fn lemma_stage_one_more<V>(taken: nat, stage: StageModel<V>)
    requires
        stage_in_range(taken, 0, stage),
    ensures
        stage_in_range(taken + 1, 0, stage),
{
    reveal(stage_in_range);
    assert forall|r: int| 0 <= r < stage.replicas.len() implies replica_in_range(
        taken + 1,
        0,
        #[trigger] stage.replicas[r],
    ) by {
        assert(replica_in_range(taken, 0, stage.replicas[r]));
    }
}

/// While the end is not signalled, one more item taken leaves an ordered sink in order.
proof fn lemma_sink_one_more<V>(taken: nat, sink: SinkModel<V>)
    requires
        sink_in_order(taken, 0, sink),
    ensures
        sink_in_order(taken + 1, 0, sink),
{
    reveal(sink_in_order);
}

/// The end being signalled once more leaves every order in range.
proof fn lemma_stage_ended<V>(taken: nat, ends: nat, stage: StageModel<V>)
    requires
        stage_in_range(taken, ends, stage),
    ensures
        stage_in_range(taken, ends + 1, stage),
{
    reveal(stage_in_range);
    assert forall|r: int| 0 <= r < stage.replicas.len() implies replica_in_range(
        taken,
        ends + 1,
        #[trigger] stage.replicas[r],
    ) by {
        assert(replica_in_range(taken, ends, stage.replicas[r]));
    }
}

/// The end being signalled once more leaves an ordered sink in order.
proof fn lemma_sink_ended<V>(taken: nat, ends: nat, sink: SinkModel<V>)
    requires
        sink_in_order(taken, ends, sink),
    ensures
        sink_in_order(taken, ends + 1, sink),
{
    reveal(sink_in_order);
}

/// A stage stays in range when an item in range is appended to its queue.
proof fn lemma_range_push<V>(
    taken: nat,
    ends: nat,
    stage: StageModel<V>,
    item: TimestampedWorkItem<V>,
    inserts: u64,
)
    requires
        stage_in_range(taken, ends, stage),
        in_range(taken, ends, item),
    ensures
        stage_in_range(
            taken,
            ends,
            StageModel {
                queue: crate::work_storage::QueueView {
                    items: stage.queue.items.push(item),
                    inserts,
                },
                ..stage
            },
        ),
{
    reveal(stage_in_range);
    let to = StageModel {
        queue: crate::work_storage::QueueView { items: stage.queue.items.push(item), inserts },
        ..stage
    };
    assert forall|j: int| 0 <= j < to.queue.items.len() implies in_range(
        taken,
        ends,
        #[trigger] to.queue.items[j],
    ) by {
        if j < stage.queue.items.len() {
            assert(to.queue.items[j] == stage.queue.items[j]);
        }
    }
}

/// A stage stays in range when one of its replicas changes to a state in range.
proof fn lemma_range_move<V>(
    taken: nat,
    ends: nat,
    stage: StageModel<V>,
    r: int,
    to: Replica<V>,
)
    requires
        stage_in_range(taken, ends, stage),
        0 <= r < stage.replicas.len(),
        replica_in_range(taken, ends, to),
    ensures
        stage_in_range(taken, ends, stage.with_replica(r, to)),
{
    reveal(stage_in_range);
    let moved = stage.with_replica(r, to);
    assert forall|x: int| 0 <= x < moved.replicas.len() implies replica_in_range(
        taken,
        ends,
        #[trigger] moved.replicas[x],
    ) by {
        if x != r {
            assert(moved.replicas[x] == stage.replicas[x]);
        }
    }
}

/// A stage stays in range when the front item of its queue leaves, and that
/// item was in range.
proof fn lemma_range_dequeue<V>(taken: nat, ends: nat, stage: StageModel<V>)
    requires
        stage_in_range(taken, ends, stage),
        stage.queue.items.len() > 0,
    ensures
        stage_in_range(taken, ends, StageModel { queue: stage.queue.dequeue(), ..stage }),
        in_range(taken, ends, stage.queue.items[0]),
{
    reveal(stage_in_range);
    let to = StageModel { queue: stage.queue.dequeue(), ..stage };
    assert forall|j: int| 0 <= j < to.queue.items.len() implies in_range(
        taken,
        ends,
        #[trigger] to.queue.items[j],
    ) by {
        assert(to.queue.items[j] == stage.queue.items[j + 1]);
    }
}

/// What a replica holds is in range.
pub proof fn lemma_range_of_replica<V>(taken: nat, ends: nat, stage: StageModel<V>, r: int)
    requires
        stage_in_range(taken, ends, stage),
        0 <= r < stage.replicas.len(),
    ensures
        replica_in_range(taken, ends, stage.replicas[r]),
{
    reveal(stage_in_range);
}

/// An ordered sink stays in order when it is handed an item in range.
proof fn lemma_sink_in_order_receives<V>(
    taken: nat,
    ends: nat,
    sink: SinkModel<V>,
    item: TimestampedWorkItem<V>,
)
    requires
        sink_in_order(taken, ends, sink),
        in_range(taken, ends, item),
    ensures
        sink_in_order(taken, ends, sink.receive(item)),
{
    reveal(sink_in_order);
}

/// An ordered sink stays in order when its worker takes the item it waits for.
proof fn lemma_sink_in_order_takes<V>(taken: nat, ends: nat, sink: SinkModel<V>)
    requires
        sink_in_order(taken, ends, sink),
        sink.can_take(),
        taken <= u64::MAX,
    ensures
        sink_in_order(taken, ends, sink.take()),
{
    reveal(sink_in_order);
    let after = sink.take();
    if sink.ordering == OrderingMode::Ordered {
        let item = sink.store[sink.next_item];
        assert(sink.store.contains_key(sink.next_item));
        assert(item.1 == sink.next_item);
        assert forall|j: int| 0 <= j < after.seen.len() implies (#[trigger] after.seen[j]).1 == j
            && after.seen[j].is_live() by {
            if j < sink.seen.len() {
                assert(after.seen[j] == sink.seen[j]);
            }
        }
    }
}

/// What follows for the orders when one stage changes and stays in range.
proof fn lemma_order_replace<V>(
    s: PipelineModel<V>,
    i: int,
    to: StageModel<V>,
    after: PipelineModel<V>,
)
    requires
        order_inv(s),
        0 <= i < s.stages.len(),
        after == s.with_stage(i, to),
        stage_in_range(s.posted.len(), s.ends, to),
        to.queue.inserts == s.stages[i].queue.inserts,
    ensures
        order_inv(after),
{
    assert forall|j: int| 0 <= j < after.stages.len() implies stage_in_range(
        after.posted.len(),
        after.ends,
        #[trigger] after.stages[j],
    ) by {
        if j != i {
            assert(after.stages[j] == s.stages[j]);
        }
    }
}

/// What follows for the orders when a stage hands an item in range to the
/// block behind it.
proof fn lemma_order_hand_down<V>(s: PipelineModel<V>, i: int, item: TimestampedWorkItem<V>)
    requires
        order_inv(s),
        0 <= i < s.stages.len(),
        in_range(s.posted.len(), s.ends, item),
    ensures
        order_inv(s.hand_down(i, item)),
{
    let after = s.hand_down(i, item);
    if i + 1 < s.stages.len() {
        let at = s.stages[i + 1];
        lemma_range_push(s.posted.len(), s.ends, at, item, at.queue.inserts);
        assert(at.receive(item) == StageModel {
            queue: crate::work_storage::QueueView {
                items: at.queue.items.push(item),
                inserts: at.queue.inserts,
            },
            ..at
        });
        lemma_order_replace(s, i + 1, at.receive(item), after);
    } else {
        lemma_sink_in_order_receives(s.posted.len(), s.ends, s.sink, item);
        assert forall|j: int| 0 <= j < after.stages.len() implies stage_in_range(
            after.posted.len(),
            after.ends,
            #[trigger] after.stages[j],
        ) by {
            assert(after.stages[j] == s.stages[j]);
        }
    }
}

/// The head queue has not given out its last order before a step if it has not after it.
pub proof fn lemma_bounded_before<V>(s: PipelineModel<V>, step: Step<V>)
    requires
        s.enabled(step),
        bounded(s.next(step)),
    ensures
        bounded(s),
{
    let after = s.next(step);
    assert(after.posted.len() >= s.posted.len());
    assert(after.ends >= s.ends);
}

/// When the handle takes an item.
proof fn lemma_order_post<V>(s: PipelineModel<V>, item: V)
    requires
        order_inv(s),
        s.enabled(Step::Post { item }),
        bounded(s.next(Step::Post { item })),
    ensures
        order_inv(s.next(Step::Post { item })),
{
    let after = s.next(Step::Post { item });
    let taken = s.posted.len();
    let ends = s.ends;
    if !s.signaled_end {
        let head = s.stages[0];
        let stamped = TimestampedWorkItem(WorkItem::Value(item), head.queue.inserts);
        lemma_sink_one_more(taken, s.sink);
        assert forall|j: int| 0 <= j < after.stages.len() implies stage_in_range(
            after.posted.len(),
            after.ends,
            #[trigger] after.stages[j],
        ) by {
            lemma_stage_one_more(taken, s.stages[j]);
            if j == 0 {
                lemma_range_push(
                    taken + 1,
                    0,
                    head,
                    stamped,
                    crate::work_storage::next_order(head.queue.inserts),
                );
            } else {
                assert(after.stages[j] == s.stages[j]);
            }
        }
    }
}

/// When the handle signals the end.
proof fn lemma_order_end<V>(s: PipelineModel<V>)
    requires
        order_inv(s),
        s.enabled(Step::End),
        bounded(s.next(Step::End)),
    ensures
        order_inv(s.next(Step::End)),
{
    let after = s.next(Step::End);
    let taken = s.posted.len();
    let ends = s.ends;
    let head = s.stages[0];
    let stamped = TimestampedWorkItem(WorkItem::<V>::Stop, head.queue.inserts);
    lemma_sink_ended(taken, ends, s.sink);
    assert forall|j: int| 0 <= j < after.stages.len() implies stage_in_range(
        after.posted.len(),
        after.ends,
        #[trigger] after.stages[j],
    ) by {
        lemma_stage_ended(taken, ends, s.stages[j]);
        if j == 0 {
            lemma_range_push(
                taken,
                ends + 1,
                head,
                stamped,
                crate::work_storage::next_order(head.queue.inserts),
            );
        } else {
            assert(after.stages[j] == s.stages[j]);
        }
    }
}

/// When a waiting replica takes the front item of its queue.
proof fn lemma_order_take<V>(s: PipelineModel<V>, stage: int, replica: int)
    requires
        order_inv(s),
        s.enabled(Step::Take { stage, replica }),
        bounded(s.next(Step::Take { stage, replica })),
    ensures
        order_inv(s.next(Step::Take { stage, replica })),
{
    let after = s.next(Step::Take { stage, replica });
    let taken = s.posted.len();
    let ends = s.ends;
    let at = s.stages[stage];
    let shorter = StageModel { queue: at.queue.dequeue(), ..at };
    lemma_range_dequeue(taken, ends, at);
    lemma_range_move(taken, ends, shorter, replica, Replica::Holding(at.queue.items[0]));
    lemma_order_replace(
        s,
        stage,
        shorter.with_replica(replica, Replica::Holding(at.queue.items[0])),
        after,
    );
}

/// When a replica hands on what it holds.
proof fn lemma_order_emit<V>(s: PipelineModel<V>, stage: int, replica: int, output: Option<V>)
    requires
        order_inv(s),
        s.enabled(Step::Emit { stage, replica, output }),
        bounded(s.next(Step::Emit { stage, replica, output })),
    ensures
        order_inv(s.next(Step::Emit { stage, replica, output })),
{
    let taken = s.posted.len();
    let ends = s.ends;
    let at = s.stages[stage];
    let to = at.with_replica(replica, Replica::Idle);
    let mid = s.with_stage(stage, to);
    let held = at.replicas[replica]->Holding_0;
    let forwarded = match held.0 {
        WorkItem::Value(_) => crate::blocks::spec_stage_output(output, held.1),
        _ => TimestampedWorkItem(WorkItem::Dropped, held.1),
    };
    lemma_range_of_replica(taken, ends, at, replica);
    lemma_range_move(taken, ends, at, replica, Replica::Idle);
    lemma_order_replace(s, stage, to, mid);
    lemma_order_hand_down(mid, stage, forwarded);
}

/// When a replica that holds the stop token counts itself out.
proof fn lemma_order_count_out<V>(s: PipelineModel<V>, stage: int, replica: int)
    requires
        order_inv(s),
        s.enabled(Step::CountOut { stage, replica }),
        bounded(s.next(Step::CountOut { stage, replica })),
    ensures
        order_inv(s.next(Step::CountOut { stage, replica })),
{
    let after = s.next(Step::CountOut { stage, replica });
    let taken = s.posted.len();
    let ends = s.ends;
    let at = s.stages[stage];
    let token = at.replicas[replica]->Holding_0;
    let fewer = StageModel {
        alive: if at.alive == 0 {
            usize::MAX
        } else {
            (at.alive - 1) as usize
        },
        ..at
    };
    let leaving = Replica::Leaving {
        token,
        hands_on: crate::blocks::spec_is_last_replica(at.alive),
    };
    lemma_range_of_replica(taken, ends, at, replica);
    assert(stage_in_range(taken, ends, fewer)) by {
        reveal(stage_in_range);
    }
    lemma_range_move(taken, ends, fewer, replica, leaving);
    lemma_order_replace(s, stage, fewer.with_replica(replica, leaving), after);
}

/// When the last replica of a stage hands the stop token on.
proof fn lemma_order_hand_on<V>(s: PipelineModel<V>, stage: int, replica: int)
    requires
        order_inv(s),
        s.enabled(Step::HandOn { stage, replica }),
        bounded(s.next(Step::HandOn { stage, replica })),
    ensures
        order_inv(s.next(Step::HandOn { stage, replica })),
{
    let taken = s.posted.len();
    let ends = s.ends;
    let at = s.stages[stage];
    let token = at.replicas[replica]->Leaving_token;
    let more = StageModel { stops_handed_on: at.stops_handed_on + 1, ..at };
    let leaving = Replica::Leaving { token, hands_on: false };
    let mid = s.with_stage(stage, more.with_replica(replica, leaving));
    lemma_range_of_replica(taken, ends, at, replica);
    assert(stage_in_range(taken, ends, more)) by {
        reveal(stage_in_range);
    }
    lemma_range_move(taken, ends, more, replica, leaving);
    lemma_order_replace(s, stage, more.with_replica(replica, leaving), mid);
    lemma_order_hand_down(mid, stage, TimestampedWorkItem(WorkItem::Stop, token.1));
}

/// When a leaving replica puts the stop token back.
proof fn lemma_order_put_back<V>(s: PipelineModel<V>, stage: int, replica: int)
    requires
        order_inv(s),
        s.enabled(Step::PutBack { stage, replica }),
        bounded(s.next(Step::PutBack { stage, replica })),
    ensures
        order_inv(s.next(Step::PutBack { stage, replica })),
{
    let after = s.next(Step::PutBack { stage, replica });
    let taken = s.posted.len();
    let ends = s.ends;
    let at = s.stages[stage];
    let token = at.replicas[replica]->Leaving_token;
    let stop = TimestampedWorkItem(WorkItem::<V>::Stop, token.1);
    lemma_range_of_replica(taken, ends, at, replica);
    lemma_range_push(taken, ends, at, stop, at.queue.inserts);
    assert(at.receive(stop) == StageModel {
        queue: crate::work_storage::QueueView {
            items: at.queue.items.push(stop),
            inserts: at.queue.inserts,
        },
        ..at
    });
    lemma_range_move(taken, ends, at.receive(stop), replica, Replica::Gone);
    lemma_order_replace(s, stage, at.receive(stop).with_replica(replica, Replica::Gone), after);
}

/// When a waiting replica takes the front item of its queue.
proof fn lemma_order_sink_take<V>(s: PipelineModel<V>)
    requires
        order_inv(s),
        s.enabled(Step::SinkTake),
        bounded(s.next(Step::SinkTake)),
    ensures
        order_inv(s.next(Step::SinkTake)),
{
    let after = s.next(Step::SinkTake);
    let taken = s.posted.len();
    let ends = s.ends;
    lemma_sink_in_order_takes(taken, ends, s.sink);
    assert forall|j: int| 0 <= j < after.stages.len() implies stage_in_range(
        after.posted.len(),
        after.ends,
        #[trigger] after.stages[j],
    ) by {
        assert(after.stages[j] == s.stages[j]);
    }
}

/// Every step keeps what holds of the orders, while the head queue has orders left.
pub proof fn lemma_order_step<V>(s: PipelineModel<V>, step: Step<V>)
    requires
        order_inv(s),
        s.enabled(step),
        bounded(s.next(step)),
    ensures
        order_inv(s.next(step)),
{
    match step {
        Step::Post { item } => {
            lemma_order_post(s, item);
        },
        Step::End => {
            lemma_order_end(s);
        },
        Step::Take { stage, replica } => {
            lemma_order_take(s, stage, replica);
        },
        Step::Emit { stage, replica, output } => {
            lemma_order_emit(s, stage, replica, output);
        },
        Step::CountOut { stage, replica } => {
            lemma_order_count_out(s, stage, replica);
        },
        Step::HandOn { stage, replica } => {
            lemma_order_hand_on(s, stage, replica);
        },
        Step::PutBack { stage, replica } => {
            lemma_order_put_back(s, stage, replica);
        },
        Step::SinkTake => {
            lemma_order_sink_take(s);
        },
    }
}

/// A pipeline that has not run has what holds of the orders.
pub proof fn lemma_order_init<V>(shape: Seq<nat>, ordering: OrderingMode)
    requires
        well_shaped(shape),
    ensures
        order_inv(PipelineModel::<V>::init(shape, ordering)),
{
    reveal(stage_in_range);
    reveal(sink_in_order);
}

/// Every pipeline that has run from its start has what holds of the orders,
/// while the head queue has orders left.
pub proof fn lemma_order_holds<V>(shape: Seq<nat>, ordering: OrderingMode, steps: Seq<Step<V>>)
    requires
        well_shaped(shape),
        PipelineModel::<V>::init(shape, ordering).admits(steps),
        bounded(PipelineModel::<V>::init(shape, ordering).run(steps)),
    ensures
        order_inv(PipelineModel::<V>::init(shape, ordering).run(steps)),
    decreases steps.len(),
{
    if steps.len() == 0 {
        lemma_order_init::<V>(shape, ordering);
    } else {
        let before = PipelineModel::<V>::init(shape, ordering).run(steps.drop_last());
        lemma_bounded_before(before, steps.last());
        lemma_order_holds(shape, ordering, steps.drop_last());
        lemma_order_step(before, steps.last());
    }
}

} // verus!
