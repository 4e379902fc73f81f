//! The stop token is never lost: once it has been handed to a block, it is in
//! the queue of the block or in the hand of one of its workers, until the last
//! of them has ended.
use crate::blocks::OrderingMode;
use crate::invariants::orders::{
    bounded, lemma_bounded_before, lemma_order_holds, lemma_range_of_replica, order_inv,
    sink_in_order,
};
use crate::invariants::protocol::{has_stop, lemma_shape_kept};
use crate::model::{well_shaped, PipelineModel, Replica, SinkModel, StageModel, Step};
use crate::work_storage::{QueueView, TimestampedWorkItem, WorkItem};
use vstd::prelude::*;

verus! {

/// Whether the stop token has been handed to block `i`: by the handle to the
/// head block, by a stage to the block behind it. Block `stages.len()` is the
/// sink.
pub open spec fn arrived<V>(s: PipelineModel<V>, i: int) -> bool {
    if i == 0 {
        s.signaled_end
    } else {
        s.stages[i - 1].stops_handed_on >= 1
    }
}

/// Whether a replica of `stage` has the stop token in hand.
pub open spec fn in_hand<V>(stage: StageModel<V>) -> bool {
    exists|r: int| 0 <= r < stage.replicas.len() && (#[trigger] stage.replicas[r]).holds_stop()
}

/// What holds of a stage that the stop token `arrived` at or not: once it has
/// arrived, it is in the queue or in the hand of a replica.
#[verifier::opaque]
pub open spec fn stage_token<V>(stage: StageModel<V>, arrived: bool) -> bool {
    arrived ==> has_stop(stage.queue.items) || in_hand(stage)
}

/// Whether the store of an ordered sink holds a stop token.
pub open spec fn stored_stop<V>(sink: SinkModel<V>) -> bool {
    exists|k: u64| #[trigger] sink.store.contains_key(k) && sink.store[k].0 is Stop
}

/// What holds of a sink that the stop token `arrived` at or not: once it has
/// arrived, it waits for the worker until the worker ends on it.
#[verifier::opaque]
pub open spec fn sink_token<V>(sink: SinkModel<V>, arrived: bool) -> bool {
    arrived && !sink.gone ==> match sink.ordering {
        OrderingMode::Unordered => has_stop(sink.queue.items),
        OrderingMode::Ordered => stored_stop(sink),
    }
}

/// The stop token is never lost.
pub open spec fn token_inv<V>(s: PipelineModel<V>) -> bool {
    &&& forall|i: int|
        0 <= i < s.stages.len() ==> stage_token(#[trigger] s.stages[i], arrived(s, i))
    &&& sink_token(s.sink, arrived(s, s.stages.len() as int))
}

/// A stage keeps the stop token when an item is appended to its queue; if the
/// item is the token, it has it from then on.
proof fn lemma_token_push<V>(
    stage: StageModel<V>,
    arrived: bool,
    item: TimestampedWorkItem<V>,
    inserts: u64,
)
    requires
        stage_token(stage, arrived),
    ensures
        stage_token(
            StageModel { queue: QueueView { items: stage.queue.items.push(item), inserts }, ..stage },
            arrived || item.0 is Stop,
        ),
{
    reveal(stage_token);
    let to = StageModel {
        queue: QueueView { items: stage.queue.items.push(item), inserts },
        ..stage
    };
    if item.0 is Stop {
        assert(to.queue.items[stage.queue.items.len() as int] == item);
    }
    if has_stop(stage.queue.items) {
        let a = choose|a: int|
            0 <= a < stage.queue.items.len() && (#[trigger] stage.queue.items[a]).0 is Stop;
        assert(to.queue.items[a] == stage.queue.items[a]);
    }
    if in_hand(stage) {
        let r = choose|r: int|
            0 <= r < stage.replicas.len() && (#[trigger] stage.replicas[r]).holds_stop();
        assert(to.replicas[r].holds_stop());
    }
}

/// A stage keeps the stop token when a replica changes its state but not
/// whether it has the token in hand, and the counts of the stage change.
proof fn lemma_token_move<V>(
    stage: StageModel<V>,
    arrived: bool,
    r: int,
    to: Replica<V>,
    alive: usize,
    stops_handed_on: nat,
)
    requires
        stage_token(stage, arrived),
        0 <= r < stage.replicas.len(),
        stage.replicas[r].holds_stop() ==> to.holds_stop(),
    ensures
        stage_token(StageModel { alive, stops_handed_on, ..stage }.with_replica(r, to), arrived),
{
    reveal(stage_token);
    let moved = StageModel { alive, stops_handed_on, ..stage }.with_replica(r, to);
    if has_stop(stage.queue.items) {
        assert(has_stop(moved.queue.items));
    } else if in_hand(stage) {
        let x = choose|x: int|
            0 <= x < stage.replicas.len() && (#[trigger] stage.replicas[x]).holds_stop();
        if x == r {
            assert(moved.replicas[r] == to);
        } else {
            assert(moved.replicas[x] == stage.replicas[x]);
        }
        assert(moved.replicas[x].holds_stop());
    }
}

/// A stage keeps the stop token when a waiting replica takes the front item.
proof fn lemma_token_take<V>(stage: StageModel<V>, arrived: bool, r: int)
    requires
        stage_token(stage, arrived),
        0 <= r < stage.replicas.len(),
        stage.replicas[r] is Idle,
        stage.queue.items.len() > 0,
    ensures
        stage_token(
            StageModel { queue: stage.queue.dequeue(), ..stage }.with_replica(
                r,
                Replica::Holding(stage.queue.items[0]),
            ),
            arrived,
        ),
{
    reveal(stage_token);
    let front = stage.queue.items[0];
    let to = StageModel { queue: stage.queue.dequeue(), ..stage }.with_replica(
        r,
        Replica::Holding(front),
    );
    if has_stop(stage.queue.items) {
        let a = choose|a: int|
            0 <= a < stage.queue.items.len() && (#[trigger] stage.queue.items[a]).0 is Stop;
        if a == 0 {
            assert(to.replicas[r].holds_stop());
        } else {
            assert(to.queue.items[a - 1] == stage.queue.items[a]);
        }
    } else if in_hand(stage) {
        let x = choose|x: int|
            0 <= x < stage.replicas.len() && (#[trigger] stage.replicas[x]).holds_stop();
        assert(to.replicas[x] == stage.replicas[x]);
    }
}

/// A stage keeps the stop token when a leaving replica puts it back.
proof fn lemma_token_put_back<V>(stage: StageModel<V>, arrived: bool, r: int)
    requires
        0 <= r < stage.replicas.len(),
        stage.replicas[r] is Leaving,
    ensures
        stage_token(
            stage.receive(
                TimestampedWorkItem(WorkItem::Stop, stage.replicas[r]->Leaving_token.1),
            ).with_replica(r, Replica::Gone),
            arrived,
        ),
{
    reveal(stage_token);
    let stop = TimestampedWorkItem(WorkItem::<V>::Stop, stage.replicas[r]->Leaving_token.1);
    let to = stage.receive(stop).with_replica(r, Replica::Gone);
    assert(to.queue.items[stage.queue.items.len() as int] == stop);
}

/// What a stage knows of the token is not taken back.
proof fn lemma_token_weaken<V>(stage: StageModel<V>, before: bool, after: bool)
    requires
        stage_token(stage, before),
        after ==> before,
    ensures
        stage_token(stage, after),
{
    reveal(stage_token);
}

/// A sink keeps the stop token when it is handed an item that is not stored in
/// place of the token; if the item is the token, the sink has it from then on.
proof fn lemma_sink_token_receives<V>(
    sink: SinkModel<V>,
    arrived: bool,
    item: TimestampedWorkItem<V>,
)
    requires
        sink_token(sink, arrived),
        sink.ordering == OrderingMode::Ordered && sink.store.contains_key(item.1)
            && sink.store[item.1].0 is Stop ==> item.0 is Stop,
    ensures
        sink_token(sink.receive(item), arrived || item.0 is Stop),
{
    reveal(sink_token);
    let after = sink.receive(item);
    if !sink.gone {
        match sink.ordering {
            OrderingMode::Unordered => {
                let stamped = TimestampedWorkItem(item.0, sink.queue.inserts);
                if item.0 is Stop {
                    assert(after.queue.items[sink.queue.items.len() as int] == stamped);
                }
                if has_stop(sink.queue.items) {
                    let a = choose|a: int|
                        0 <= a < sink.queue.items.len() && (#[trigger] sink.queue.items[a]).0 is Stop;
                    assert(after.queue.items[a] == sink.queue.items[a]);
                }
            },
            OrderingMode::Ordered => {
                if item.0 is Stop {
                    assert(after.store.contains_key(item.1));
                } else if stored_stop(sink) {
                    let k = choose|k: u64| #[trigger]
                        sink.store.contains_key(k) && sink.store[k].0 is Stop;
                    assert(k != item.1);
                    assert(after.store.contains_key(k));
                }
            },
        }
    }
}

/// A sink keeps the stop token when its worker takes an item.
proof fn lemma_sink_token_takes<V>(sink: SinkModel<V>, arrived: bool)
    requires
        sink_token(sink, arrived),
        sink.can_take(),
    ensures
        sink_token(sink.take(), arrived),
{
    reveal(sink_token);
    let after = sink.take();
    if arrived && !after.gone {
        match sink.ordering {
            OrderingMode::Unordered => {
                let a = choose|a: int|
                    0 <= a < sink.queue.items.len() && (#[trigger] sink.queue.items[a]).0 is Stop;
                assert(a != 0);
                assert(after.queue.items[a - 1] == sink.queue.items[a]);
            },
            OrderingMode::Ordered => {
                let k = choose|k: u64| #[trigger]
                    sink.store.contains_key(k) && sink.store[k].0 is Stop;
                assert(k != sink.next_item);
                assert(after.store.contains_key(k));
            },
        }
    }
}

/// In an ordered sink no value and no dropped slot in a stage carries the
/// order under which the stop token is stored.
proof fn lemma_live_is_not_stored_as_stop<V>(
    s: PipelineModel<V>,
    stage: int,
    replica: int,
)
    requires
        order_inv(s),
        s.sink.ordering == OrderingMode::Ordered,
        s.has_replica(stage, replica),
        s.stages[stage].replicas[replica].holds_live(),
    ensures
        ({
            let held = s.stages[stage].replicas[replica]->Holding_0;
            !(s.sink.store.contains_key(held.1) && s.sink.store[held.1].0 is Stop)
        }),
{
    reveal(sink_in_order);
    lemma_range_of_replica(s.posted.len(), s.ends, s.stages[stage], replica);
}

/// What follows for the token when at most the stages `a` and `b` and the sink
/// change, and each of them keeps the token.
proof fn lemma_token_frame<V>(s: PipelineModel<V>, after: PipelineModel<V>, a: int, b: int)
    requires
        token_inv(s),
        after.stages.len() == s.stages.len(),
        forall|j: int|
            0 <= j < s.stages.len() && j != a && j != b ==> #[trigger] after.stages[j]
                == s.stages[j],
        forall|j: int|
            0 <= j < s.stages.len() && j != a && j != b ==> (arrived(after, j) ==> arrived(s, j)),
        0 <= a < s.stages.len() ==> stage_token(after.stages[a], arrived(after, a)),
        0 <= b < s.stages.len() ==> stage_token(after.stages[b], arrived(after, b)),
        sink_token(after.sink, arrived(after, s.stages.len() as int)),
    ensures
        token_inv(after),
{
    assert forall|i: int| 0 <= i < after.stages.len() implies stage_token(
        #[trigger] after.stages[i],
        arrived(after, i),
    ) by {
        if i != a && i != b {
            assert(after.stages[i] == s.stages[i]);
            lemma_token_weaken(s.stages[i], arrived(s, i), arrived(after, i));
        }
    }
}

/// What the sink knows of the token is not taken back.
proof fn lemma_sink_token_weaken<V>(sink: SinkModel<V>, before: bool, after: bool)
    requires
        sink_token(sink, before),
        after ==> before,
    ensures
        sink_token(sink, after),
{
    reveal(sink_token);
}

/// When the handle takes an item.
proof fn lemma_token_posted<V>(s: PipelineModel<V>, item: WorkItem<V>, after: PipelineModel<V>)
    requires
        token_inv(s),
        s.stages.len() > 0,
        after.stages == s.stages.update(
            0,
            StageModel { queue: s.stages[0].queue.enqueue(item), ..s.stages[0] },
        ),
        after.sink == s.sink,
        after.signaled_end == (s.signaled_end || item is Stop),
    ensures
        token_inv(after),
{
    let n = s.stages.len() as int;
    let head = s.stages[0];
    let stamped = TimestampedWorkItem(item, head.queue.inserts);
    lemma_token_push(
        head,
        arrived(s, 0),
        stamped,
        crate::work_storage::next_order(head.queue.inserts),
    );
    assert(after.stages[n - 1].stops_handed_on == s.stages[n - 1].stops_handed_on);
    lemma_sink_token_weaken(s.sink, arrived(s, n), arrived(after, n));
    assert forall|j: int| 0 <= j < s.stages.len() && j != 0 && arrived(after, j) implies arrived(
        s,
        j,
    ) by {
        assert(after.stages[j - 1].stops_handed_on == s.stages[j - 1].stops_handed_on);
    }
    lemma_token_frame(s, after, 0, 0);
}

/// What follows for the token when one stage changes, hands nothing on, and keeps the token.
proof fn lemma_token_one_stage<V>(
    s: PipelineModel<V>,
    stage: int,
    to: StageModel<V>,
    after: PipelineModel<V>,
)
    requires
        token_inv(s),
        0 <= stage < s.stages.len(),
        after == s.with_stage(stage, to),
        to.stops_handed_on == s.stages[stage].stops_handed_on,
        stage_token(to, arrived(s, stage)),
    ensures
        token_inv(after),
{
    let n = s.stages.len() as int;
    assert(after.stages[n - 1].stops_handed_on == s.stages[n - 1].stops_handed_on);
    lemma_sink_token_weaken(s.sink, arrived(s, n), arrived(after, n));
    assert forall|j: int| 0 <= j < s.stages.len() && arrived(after, j) implies arrived(s, j) by {
        if j > 0 {
            assert(after.stages[j - 1].stops_handed_on == s.stages[j - 1].stops_handed_on);
        }
    }
    lemma_token_frame(s, after, stage, stage);
}

/// What follows for the token when a stage changes and hands an item to the block behind it.
proof fn lemma_token_handed_down<V>(
    s: PipelineModel<V>,
    stage: int,
    to: StageModel<V>,
    item: TimestampedWorkItem<V>,
)
    requires
        token_inv(s),
        0 <= stage < s.stages.len(),
        stage_token(to, arrived(s, stage)),
        to.stops_handed_on >= s.stages[stage].stops_handed_on,
        to.stops_handed_on > s.stages[stage].stops_handed_on ==> item.0 is Stop,
        s.sink.ordering == OrderingMode::Ordered && s.sink.store.contains_key(item.1)
            && s.sink.store[item.1].0 is Stop ==> item.0 is Stop,
    ensures
        token_inv(s.with_stage(stage, to).hand_down(stage, item)),
{
    let n = s.stages.len() as int;
    let mid = s.with_stage(stage, to);
    let after = mid.hand_down(stage, item);
    assert(arrived(after, stage) == arrived(s, stage)) by {
        if stage > 0 {
            assert(after.stages[stage - 1] == s.stages[stage - 1]);
        }
    }
    assert(after.stages[stage] == to);
    if stage + 1 < n {
        let next = s.stages[stage + 1];
        lemma_token_push(next, arrived(s, stage + 1), item, next.queue.inserts);
        assert(next.receive(item) == StageModel {
            queue: QueueView { items: next.queue.items.push(item), inserts: next.queue.inserts },
            ..next
        });
        assert(after.stages[stage + 1] == next.receive(item));
        assert(arrived(after, stage + 1) ==> arrived(s, stage + 1) || item.0 is Stop);
        lemma_token_weaken(
            next.receive(item),
            arrived(s, stage + 1) || item.0 is Stop,
            arrived(after, stage + 1),
        );
        assert(after.stages[n - 1].stops_handed_on == s.stages[n - 1].stops_handed_on || n - 1
            == stage + 1);
        assert(after.stages[n - 1].stops_handed_on == s.stages[n - 1].stops_handed_on);
        lemma_sink_token_weaken(s.sink, arrived(s, n), arrived(after, n));
    } else {
        lemma_sink_token_receives(s.sink, arrived(s, n), item);
        assert(arrived(after, n) ==> arrived(s, n) || item.0 is Stop);
        lemma_sink_token_weaken(
            s.sink.receive(item),
            arrived(s, n) || item.0 is Stop,
            arrived(after, n),
        );
    }
    assert forall|j: int|
        0 <= j < s.stages.len() && j != stage && j != stage + 1 && arrived(
            after,
            j,
        ) implies arrived(s, j) by {
        if j > 0 {
            assert(after.stages[j - 1].stops_handed_on == s.stages[j - 1].stops_handed_on);
        }
    }
    lemma_token_frame(s, after, stage, stage + 1);
}

/// Every step keeps the stop token.
pub proof fn lemma_token_step<V>(s: PipelineModel<V>, step: Step<V>)
    requires
        token_inv(s),
        s.sink.ordering == OrderingMode::Ordered ==> order_inv(s),
        s.enabled(step),
    ensures
        token_inv(s.next(step)),
{
    let after = s.next(step);
    let n = s.stages.len() as int;
    match step {
        Step::Post { item } => {
            if !s.signaled_end {
                lemma_token_posted(s, WorkItem::Value(item), after);
            }
        },
        Step::End => {
            lemma_token_posted(s, WorkItem::Stop, after);
        },
        Step::Take { stage, replica } => {
            let at = s.stages[stage];
            lemma_token_take(at, arrived(s, stage), replica);
            lemma_token_one_stage(s, stage, after.stages[stage], after);
        },
        Step::Emit { stage, replica, output } => {
            let at = s.stages[stage];
            let held = at.replicas[replica]->Holding_0;
            let forwarded = match held.0 {
                WorkItem::Value(_) => crate::blocks::spec_stage_output(output, held.1),
                _ => TimestampedWorkItem(WorkItem::Dropped, held.1),
            };
            lemma_token_move(
                at,
                arrived(s, stage),
                replica,
                Replica::Idle,
                at.alive,
                at.stops_handed_on,
            );
            assert(StageModel { alive: at.alive, stops_handed_on: at.stops_handed_on, ..at }
                == at);
            if s.sink.ordering == OrderingMode::Ordered {
                lemma_live_is_not_stored_as_stop(s, stage, replica);
            }
            lemma_token_handed_down(s, stage, at.with_replica(replica, Replica::Idle), forwarded);
        },
        Step::CountOut { stage, replica } => {
            let at = s.stages[stage];
            let token = at.replicas[replica]->Holding_0;
            let alive: usize = if at.alive == 0 {
                usize::MAX
            } else {
                (at.alive - 1) as usize
            };
            let leaving = Replica::Leaving {
                token,
                hands_on: crate::blocks::spec_is_last_replica(at.alive),
            };
            lemma_token_move(at, arrived(s, stage), replica, leaving, alive, at.stops_handed_on);
            assert(StageModel { alive, stops_handed_on: at.stops_handed_on, ..at } == StageModel {
                alive,
                ..at
            });
            lemma_token_one_stage(s, stage, after.stages[stage], after);
        },
        Step::HandOn { stage, replica } => {
            let at = s.stages[stage];
            let token = at.replicas[replica]->Leaving_token;
            let stop = TimestampedWorkItem(WorkItem::<V>::Stop, token.1);
            let leaving = Replica::Leaving { token, hands_on: false };
            lemma_token_move(
                at,
                arrived(s, stage),
                replica,
                leaving,
                at.alive,
                at.stops_handed_on + 1,
            );
            let to = StageModel { stops_handed_on: at.stops_handed_on + 1, ..at }.with_replica(
                replica,
                leaving,
            );
            assert(to == StageModel {
                alive: at.alive,
                stops_handed_on: at.stops_handed_on + 1,
                ..at
            }.with_replica(replica, leaving));
            lemma_token_handed_down(s, stage, to, stop);
        },
        Step::PutBack { stage, replica } => {
            let at = s.stages[stage];
            lemma_token_put_back(at, arrived(s, stage), replica);
            lemma_token_one_stage(s, stage, after.stages[stage], after);
        },
        Step::SinkTake => {
            lemma_sink_token_takes(s.sink, arrived(s, n));
            assert(arrived(after, n) == arrived(s, n));
            assert forall|j: int| 0 <= j < s.stages.len() && arrived(after, j) implies arrived(
                s,
                j,
            ) by {}
            lemma_token_frame(s, after, -1, -1);
        },
    }
}

/// A pipeline that has run from its start has not lost the stop token. For an
/// ordered sink, while the head queue has orders left.
pub proof fn lemma_token_holds<V>(shape: Seq<nat>, ordering: OrderingMode, steps: Seq<Step<V>>)
    requires
        well_shaped(shape),
        PipelineModel::<V>::init(shape, ordering).admits(steps),
        ordering == OrderingMode::Ordered ==> bounded(
            PipelineModel::<V>::init(shape, ordering).run(steps),
        ),
    ensures
        token_inv(PipelineModel::<V>::init(shape, ordering).run(steps)),
    decreases steps.len(),
{
    let start = PipelineModel::<V>::init(shape, ordering);
    if steps.len() == 0 {
        reveal(stage_token);
        reveal(sink_token);
    } else {
        let before = start.run(steps.drop_last());
        lemma_shape_kept(shape, ordering, steps.drop_last());
        if ordering == OrderingMode::Ordered {
            lemma_bounded_before(before, steps.last());
            lemma_order_holds(shape, ordering, steps.drop_last());
        }
        lemma_token_holds(shape, ordering, steps.drop_last());
        lemma_token_step(before, steps.last());
    }
}

} // verus!
