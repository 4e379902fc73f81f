//! What an item carries on its way: where every stage returns for a value what
//! a given function makes of it, an item that has passed a number of stages
//! carries what these functions, one after the other, make of the posted item
//! of the same order.
use crate::blocks::{spec_stage_output, OrderingMode};
use crate::model::{well_shaped, PipelineModel, Replica, SinkModel, StageModel, Step};
use crate::invariants::orders::{bounded, lemma_bounded_before, lemma_order_holds, order_inv};
use crate::work_storage::{TimestampedWorkItem, WorkItem};
use vstd::prelude::*;

verus! {

/// What the first `passed` functions of `transforms`, one after the other, make
/// of `item`: a value, or the slot of a dropped item from the first one on that
/// returns nothing.
pub open spec fn through<V>(
    transforms: Seq<spec_fn(V) -> Option<V>>,
    passed: nat,
    item: V,
) -> WorkItem<V>
    decreases passed,
{
    if passed == 0 {
        WorkItem::Value(item)
    } else {
        match through(transforms, (passed - 1) as nat, item) {
            WorkItem::Value(val) => spec_stage_output((transforms[passed - 1])(val), 0).0,
            _ => WorkItem::Dropped,
        }
    }
}

/// Whether `step`, where a replica hands on the output of its stage for a
/// value, hands on what the function of that stage makes of the value.
pub open spec fn obeys<V>(
    s: PipelineModel<V>,
    step: Step<V>,
    transforms: Seq<spec_fn(V) -> Option<V>>,
) -> bool {
    step matches Step::Emit { stage, replica, output } ==> (s.stages[stage].replicas[replica]
        matches Replica::Holding(held) ==> (held.0 matches WorkItem::Value(val) ==> output == (
    transforms[stage])(val)))
}

/// Whether the steps of `steps` can be taken one after the other, each stage
/// returning what its function in `transforms` makes of a value.
pub open spec fn admits_obeying<V>(
    s: PipelineModel<V>,
    steps: Seq<Step<V>>,
    transforms: Seq<spec_fn(V) -> Option<V>>,
) -> bool
    decreases steps.len(),
{
    if steps.len() == 0 {
        true
    } else {
        &&& admits_obeying(s, steps.drop_last(), transforms)
        &&& s.run(steps.drop_last()).enabled(steps.last())
        &&& obeys(s.run(steps.drop_last()), steps.last(), transforms)
    }
}

/// Whether `item`, if it is a value or a dropped slot, carries what the first
/// `passed` functions make of the posted item of its order.
pub open spec fn carries<V>(
    transforms: Seq<spec_fn(V) -> Option<V>>,
    passed: nat,
    posted: Seq<V>,
    item: TimestampedWorkItem<V>,
) -> bool {
    item.is_live() ==> item.1 < posted.len() && item.0 == through(
        transforms,
        passed,
        posted[item.1 as int],
    )
}

/// Whether everything in `stage`, which stands behind `passed` stages, carries
/// what it should.
#[verifier::opaque]
pub open spec fn stage_carries<V>(
    transforms: Seq<spec_fn(V) -> Option<V>>,
    passed: nat,
    posted: Seq<V>,
    stage: StageModel<V>,
) -> bool {
    &&& forall|j: int|
        0 <= j < stage.queue.items.len() ==> carries(
            transforms,
            passed,
            posted,
            #[trigger] stage.queue.items[j],
        )
    &&& forall|r: int|
        0 <= r < stage.replicas.len() ==> ((#[trigger] stage.replicas[r]) matches Replica::Holding(
            item,
        ) ==> carries(transforms, passed, posted, item))
}

/// Whether everything handed to the sink, which stands behind `passed` stages,
/// carries what it should: what was handed over, and for an ordered sink what
/// is stored and what the worker has taken.
#[verifier::opaque]
pub open spec fn sink_carries<V>(
    transforms: Seq<spec_fn(V) -> Option<V>>,
    passed: nat,
    posted: Seq<V>,
    sink: SinkModel<V>,
    delivered: Seq<TimestampedWorkItem<V>>,
) -> bool {
    &&& forall|d: int|
        0 <= d < delivered.len() ==> carries(transforms, passed, posted, #[trigger] delivered[d])
    &&& sink.ordering == OrderingMode::Ordered ==> {
        &&& forall|k: u64| #[trigger]
            sink.store.contains_key(k) ==> carries(transforms, passed, posted, sink.store[k])
        &&& forall|j: int|
            0 <= j < sink.seen.len() ==> carries(transforms, passed, posted, #[trigger] sink.seen[j])
    }
}

/// What holds of the payloads in a pipeline that has run from its start with
/// stages that return what `transforms` says.
pub open spec fn payload_inv<V>(
    s: PipelineModel<V>,
    transforms: Seq<spec_fn(V) -> Option<V>>,
) -> bool {
    &&& forall|i: int|
        0 <= i < s.stages.len() ==> stage_carries(
            transforms,
            i as nat,
            s.posted,
            #[trigger] s.stages[i],
        )
    &&& sink_carries(transforms, s.stages.len(), s.posted, s.sink, s.delivered)
}

/// One more posted item leaves what an item carries as it is.
proof fn lemma_carries_one_more<V>(
    transforms: Seq<spec_fn(V) -> Option<V>>,
    passed: nat,
    posted: Seq<V>,
    item: TimestampedWorkItem<V>,
    new: V,
)
    requires
        carries(transforms, passed, posted, item),
    ensures
        carries(transforms, passed, posted.push(new), item),
{
    if item.is_live() {
        assert(posted.push(new)[item.1 as int] == posted[item.1 as int]);
    }
}

/// One more posted item leaves what a stage carries as it is.
proof fn lemma_stage_carries_one_more<V>(
    transforms: Seq<spec_fn(V) -> Option<V>>,
    passed: nat,
    posted: Seq<V>,
    stage: StageModel<V>,
    new: V,
)
    requires
        stage_carries(transforms, passed, posted, stage),
    ensures
        stage_carries(transforms, passed, posted.push(new), stage),
{
    reveal(stage_carries);
    assert forall|j: int| 0 <= j < stage.queue.items.len() implies carries(
        transforms,
        passed,
        posted.push(new),
        #[trigger] stage.queue.items[j],
    ) by {
        lemma_carries_one_more(transforms, passed, posted, stage.queue.items[j], new);
    }
    assert forall|r: int| 0 <= r < stage.replicas.len() implies ((
    #[trigger] stage.replicas[r]) matches Replica::Holding(item) ==> carries(
        transforms,
        passed,
        posted.push(new),
        item,
    )) by {
        if stage.replicas[r] is Holding {
            lemma_carries_one_more(
                transforms,
                passed,
                posted,
                stage.replicas[r]->Holding_0,
                new,
            );
        }
    }
}

/// One more posted item leaves what the sink carries as it is.
proof fn lemma_sink_carries_one_more<V>(
    transforms: Seq<spec_fn(V) -> Option<V>>,
    passed: nat,
    posted: Seq<V>,
    sink: SinkModel<V>,
    delivered: Seq<TimestampedWorkItem<V>>,
    new: V,
)
    requires
        sink_carries(transforms, passed, posted, sink, delivered),
    ensures
        sink_carries(transforms, passed, posted.push(new), sink, delivered),
{
    reveal(sink_carries);
    assert forall|d: int| 0 <= d < delivered.len() implies carries(
        transforms,
        passed,
        posted.push(new),
        #[trigger] delivered[d],
    ) by {
        lemma_carries_one_more(transforms, passed, posted, delivered[d], new);
    }
    if sink.ordering == OrderingMode::Ordered {
        assert forall|k: u64| #[trigger] sink.store.contains_key(k) implies carries(
            transforms,
            passed,
            posted.push(new),
            sink.store[k],
        ) by {
            lemma_carries_one_more(transforms, passed, posted, sink.store[k], new);
        }
        assert forall|j: int| 0 <= j < sink.seen.len() implies carries(
            transforms,
            passed,
            posted.push(new),
            #[trigger] sink.seen[j],
        ) by {
            lemma_carries_one_more(transforms, passed, posted, sink.seen[j], new);
        }
    }
}

/// A stage goes on carrying what it should when an item that does is appended
/// to its queue.
proof fn lemma_carries_push<V>(
    transforms: Seq<spec_fn(V) -> Option<V>>,
    passed: nat,
    posted: Seq<V>,
    stage: StageModel<V>,
    item: TimestampedWorkItem<V>,
    inserts: u64,
)
    requires
        stage_carries(transforms, passed, posted, stage),
        carries(transforms, passed, posted, item),
    ensures
        stage_carries(
            transforms,
            passed,
            posted,
            StageModel {
                queue: crate::work_storage::QueueView {
                    items: stage.queue.items.push(item),
                    inserts,
                },
                ..stage
            },
        ),
{
    reveal(stage_carries);
    let to = StageModel {
        queue: crate::work_storage::QueueView { items: stage.queue.items.push(item), inserts },
        ..stage
    };
    assert forall|j: int| 0 <= j < to.queue.items.len() implies carries(
        transforms,
        passed,
        posted,
        #[trigger] to.queue.items[j],
    ) by {
        if j < stage.queue.items.len() {
            assert(to.queue.items[j] == stage.queue.items[j]);
        }
    }
}

/// A stage goes on carrying what it should when one of its replicas changes
/// to a state that holds nothing or an item that does.
proof fn lemma_carries_move<V>(
    transforms: Seq<spec_fn(V) -> Option<V>>,
    passed: nat,
    posted: Seq<V>,
    stage: StageModel<V>,
    r: int,
    to: Replica<V>,
)
    requires
        stage_carries(transforms, passed, posted, stage),
        0 <= r < stage.replicas.len(),
        to matches Replica::Holding(item) ==> carries(transforms, passed, posted, item),
    ensures
        stage_carries(transforms, passed, posted, stage.with_replica(r, to)),
        stage.replicas[r] matches Replica::Holding(item) ==> carries(
            transforms,
            passed,
            posted,
            item,
        ),
{
    reveal(stage_carries);
    let moved = stage.with_replica(r, to);
    assert forall|x: int| 0 <= x < moved.replicas.len() implies ((
    #[trigger] moved.replicas[x]) matches Replica::Holding(item) ==> carries(
        transforms,
        passed,
        posted,
        item,
    )) by {
        if x != r {
            assert(moved.replicas[x] == stage.replicas[x]);
        }
    }
}

/// A stage goes on carrying what it should when the front item of its queue
/// leaves, and that item did so.
proof fn lemma_carries_dequeue<V>(
    transforms: Seq<spec_fn(V) -> Option<V>>,
    passed: nat,
    posted: Seq<V>,
    stage: StageModel<V>,
)
    requires
        stage_carries(transforms, passed, posted, stage),
        stage.queue.items.len() > 0,
    ensures
        stage_carries(
            transforms,
            passed,
            posted,
            StageModel { queue: stage.queue.dequeue(), ..stage },
        ),
        carries(transforms, passed, posted, stage.queue.items[0]),
{
    reveal(stage_carries);
    let to = StageModel { queue: stage.queue.dequeue(), ..stage };
    assert forall|j: int| 0 <= j < to.queue.items.len() implies carries(
        transforms,
        passed,
        posted,
        #[trigger] to.queue.items[j],
    ) by {
        assert(to.queue.items[j] == stage.queue.items[j + 1]);
    }
}

/// A stage goes on carrying what it should when only its counts change.
proof fn lemma_carries_counts<V>(
    transforms: Seq<spec_fn(V) -> Option<V>>,
    passed: nat,
    posted: Seq<V>,
    stage: StageModel<V>,
    alive: usize,
    stops_handed_on: nat,
)
    requires
        stage_carries(transforms, passed, posted, stage),
    ensures
        stage_carries(
            transforms,
            passed,
            posted,
            StageModel { alive, stops_handed_on, ..stage },
        ),
{
    reveal(stage_carries);
}

/// The sink goes on carrying what it should when it is handed an item that does.
proof fn lemma_sink_carries_receives<V>(
    transforms: Seq<spec_fn(V) -> Option<V>>,
    passed: nat,
    posted: Seq<V>,
    sink: SinkModel<V>,
    delivered: Seq<TimestampedWorkItem<V>>,
    item: TimestampedWorkItem<V>,
)
    requires
        sink_carries(transforms, passed, posted, sink, delivered),
        carries(transforms, passed, posted, item),
    ensures
        sink_carries(transforms, passed, posted, sink.receive(item), delivered.push(item)),
{
    reveal(sink_carries);
    let pushed = delivered.push(item);
    assert forall|d: int| 0 <= d < pushed.len() implies carries(
        transforms,
        passed,
        posted,
        #[trigger] pushed[d],
    ) by {
        if d < delivered.len() {
            assert(pushed[d] == delivered[d]);
        }
    }
}

/// The sink goes on carrying what it should when its worker takes an item.
proof fn lemma_sink_carries_takes<V>(
    transforms: Seq<spec_fn(V) -> Option<V>>,
    passed: nat,
    posted: Seq<V>,
    sink: SinkModel<V>,
    delivered: Seq<TimestampedWorkItem<V>>,
)
    requires
        sink_carries(transforms, passed, posted, sink, delivered),
        sink.can_take(),
    ensures
        sink_carries(transforms, passed, posted, sink.take(), delivered),
{
    reveal(sink_carries);
    let after = sink.take();
    if sink.ordering == OrderingMode::Ordered {
        assert(sink.store.contains_key(sink.next_item));
        assert forall|j: int| 0 <= j < after.seen.len() implies carries(
            transforms,
            passed,
            posted,
            #[trigger] after.seen[j],
        ) by {
            if j < sink.seen.len() {
                assert(after.seen[j] == sink.seen[j]);
            }
        }
    }
}

/// What follows for the payloads when one stage changes and goes on carrying
/// what it should.
proof fn lemma_payload_replace<V>(
    s: PipelineModel<V>,
    transforms: Seq<spec_fn(V) -> Option<V>>,
    i: int,
    to: StageModel<V>,
    after: PipelineModel<V>,
)
    requires
        payload_inv(s, transforms),
        0 <= i < s.stages.len(),
        after == s.with_stage(i, to),
        stage_carries(transforms, i as nat, s.posted, to),
    ensures
        payload_inv(after, transforms),
{
    assert forall|j: int| 0 <= j < after.stages.len() implies stage_carries(
        transforms,
        j as nat,
        after.posted,
        #[trigger] after.stages[j],
    ) by {
        if j != i {
            assert(after.stages[j] == s.stages[j]);
        }
    }
}

/// What follows for the payloads when stage `i` hands an item to the block
/// behind it that carries what `i + 1` functions make of a posted item.
proof fn lemma_payload_hand_down<V>(
    s: PipelineModel<V>,
    transforms: Seq<spec_fn(V) -> Option<V>>,
    i: int,
    item: TimestampedWorkItem<V>,
)
    requires
        payload_inv(s, transforms),
        0 <= i < s.stages.len(),
        carries(transforms, (i + 1) as nat, s.posted, item),
    ensures
        payload_inv(s.hand_down(i, item), transforms),
{
    let after = s.hand_down(i, item);
    if i + 1 < s.stages.len() {
        let at = s.stages[i + 1];
        lemma_carries_push(transforms, (i + 1) as nat, s.posted, at, item, at.queue.inserts);
        assert(at.receive(item) == StageModel {
            queue: crate::work_storage::QueueView {
                items: at.queue.items.push(item),
                inserts: at.queue.inserts,
            },
            ..at
        });
        lemma_payload_replace(s, transforms, i + 1, at.receive(item), after);
    } else {
        lemma_sink_carries_receives(
            transforms,
            s.stages.len(),
            s.posted,
            s.sink,
            s.delivered,
            item,
        );
        assert forall|j: int| 0 <= j < after.stages.len() implies stage_carries(
            transforms,
            j as nat,
            after.posted,
            #[trigger] after.stages[j],
        ) by {
            assert(after.stages[j] == s.stages[j]);
        }
    }
}

/// When the handle takes an item.
proof fn lemma_payload_post<V>(
    s: PipelineModel<V>,
    transforms: Seq<spec_fn(V) -> Option<V>>, item: V,
)
    requires
        payload_inv(s, transforms),
        order_inv(s),
        s.enabled(Step::Post { item }),
        obeys(s, Step::Post { item }, transforms),
        bounded(s.next(Step::Post { item })),
    ensures
        payload_inv(s.next(Step::Post { item }), transforms),
{
    let after = s.next(Step::Post { item });
    let n = s.stages.len();
    if !s.signaled_end {
        let head = s.stages[0];
        let stamped = TimestampedWorkItem(WorkItem::Value(item), head.queue.inserts);
        lemma_sink_carries_one_more(transforms, n, s.posted, s.sink, s.delivered, item);
        assert(carries(transforms, 0, s.posted.push(item), stamped)) by {
            assert(s.posted.push(item)[s.posted.len() as int] == item);
        }
        assert forall|j: int| 0 <= j < after.stages.len() implies stage_carries(
            transforms,
            j as nat,
            after.posted,
            #[trigger] after.stages[j],
        ) by {
            lemma_stage_carries_one_more(transforms, j as nat, s.posted, s.stages[j], item);
            if j == 0 {
                lemma_carries_push(
                    transforms,
                    0,
                    s.posted.push(item),
                    head,
                    stamped,
                    crate::work_storage::next_order(head.queue.inserts),
                );
            } else {
                assert(after.stages[j] == s.stages[j]);
            }
        }
    }
}

/// When the handle signals the end.
proof fn lemma_payload_end<V>(s: PipelineModel<V>, transforms: Seq<spec_fn(V) -> Option<V>>)
    requires
        payload_inv(s, transforms),
        order_inv(s),
        s.enabled(Step::End),
        obeys(s, Step::End, transforms),
        bounded(s.next(Step::End)),
    ensures
        payload_inv(s.next(Step::End), transforms),
{
    let after = s.next(Step::End);
    let head = s.stages[0];
    let stamped = TimestampedWorkItem(WorkItem::<V>::Stop, head.queue.inserts);
    lemma_carries_push(
        transforms,
        0,
        s.posted,
        head,
        stamped,
        crate::work_storage::next_order(head.queue.inserts),
    );
    assert forall|j: int| 0 <= j < after.stages.len() implies stage_carries(
        transforms,
        j as nat,
        after.posted,
        #[trigger] after.stages[j],
    ) by {
        if j != 0 {
            assert(after.stages[j] == s.stages[j]);
        }
    }
}

/// When a waiting replica takes the front item of its queue.
proof fn lemma_payload_take<V>(
    s: PipelineModel<V>,
    transforms: Seq<spec_fn(V) -> Option<V>>, stage: int, replica: int,
)
    requires
        payload_inv(s, transforms),
        order_inv(s),
        s.enabled(Step::Take { stage, replica }),
        obeys(s, Step::Take { stage, replica }, transforms),
        bounded(s.next(Step::Take { stage, replica })),
    ensures
        payload_inv(s.next(Step::Take { stage, replica }), transforms),
{
    let after = s.next(Step::Take { stage, replica });
    let at = s.stages[stage];
    let shorter = StageModel { queue: at.queue.dequeue(), ..at };
    lemma_carries_dequeue(transforms, stage as nat, s.posted, at);
    lemma_carries_move(
        transforms,
        stage as nat,
        s.posted,
        shorter,
        replica,
        Replica::Holding(at.queue.items[0]),
    );
    lemma_payload_replace(
        s,
        transforms,
        stage,
        shorter.with_replica(replica, Replica::Holding(at.queue.items[0])),
        after,
    );
}

/// When a replica hands on what it holds.
proof fn lemma_payload_emit<V>(
    s: PipelineModel<V>,
    transforms: Seq<spec_fn(V) -> Option<V>>, stage: int, replica: int, output: Option<V>,
)
    requires
        payload_inv(s, transforms),
        order_inv(s),
        s.enabled(Step::Emit { stage, replica, output }),
        obeys(s, Step::Emit { stage, replica, output }, transforms),
        bounded(s.next(Step::Emit { stage, replica, output })),
    ensures
        payload_inv(s.next(Step::Emit { stage, replica, output }), transforms),
{
    let at = s.stages[stage];
    let to = at.with_replica(replica, Replica::Idle);
    let mid = s.with_stage(stage, to);
    let held = at.replicas[replica]->Holding_0;
    let forwarded = match held.0 {
        WorkItem::Value(_) => spec_stage_output(output, held.1),
        _ => TimestampedWorkItem(WorkItem::Dropped, held.1),
    };
    lemma_carries_move(transforms, stage as nat, s.posted, at, replica, Replica::Idle);
    assert(carries(transforms, stage as nat, s.posted, held));
    assert(carries(transforms, (stage + 1) as nat, s.posted, forwarded));
    lemma_payload_replace(s, transforms, stage, to, mid);
    lemma_payload_hand_down(mid, transforms, stage, forwarded);
}

/// When a replica that holds the stop token counts itself out.
proof fn lemma_payload_count_out<V>(
    s: PipelineModel<V>,
    transforms: Seq<spec_fn(V) -> Option<V>>, stage: int, replica: int,
)
    requires
        payload_inv(s, transforms),
        order_inv(s),
        s.enabled(Step::CountOut { stage, replica }),
        obeys(s, Step::CountOut { stage, replica }, transforms),
        bounded(s.next(Step::CountOut { stage, replica })),
    ensures
        payload_inv(s.next(Step::CountOut { stage, replica }), transforms),
{
    let after = s.next(Step::CountOut { stage, replica });
    let at = s.stages[stage];
    let token = at.replicas[replica]->Holding_0;
    let alive: usize = if at.alive == 0 {
        usize::MAX
    } else {
        (at.alive - 1) as usize
    };
    let fewer = StageModel { alive, ..at };
    let leaving = Replica::Leaving {
        token,
        hands_on: crate::blocks::spec_is_last_replica(at.alive),
    };
    lemma_carries_counts(transforms, stage as nat, s.posted, at, alive, at.stops_handed_on);
    lemma_carries_move(transforms, stage as nat, s.posted, fewer, replica, leaving);
    lemma_payload_replace(s, transforms, stage, fewer.with_replica(replica, leaving), after);
}

/// When the last replica of a stage hands the stop token on.
proof fn lemma_payload_hand_on<V>(
    s: PipelineModel<V>,
    transforms: Seq<spec_fn(V) -> Option<V>>, stage: int, replica: int,
)
    requires
        payload_inv(s, transforms),
        order_inv(s),
        s.enabled(Step::HandOn { stage, replica }),
        obeys(s, Step::HandOn { stage, replica }, transforms),
        bounded(s.next(Step::HandOn { stage, replica })),
    ensures
        payload_inv(s.next(Step::HandOn { stage, replica }), transforms),
{
    let at = s.stages[stage];
    let token = at.replicas[replica]->Leaving_token;
    let more = StageModel { stops_handed_on: at.stops_handed_on + 1, ..at };
    let leaving = Replica::Leaving { token, hands_on: false };
    let mid = s.with_stage(stage, more.with_replica(replica, leaving));
    lemma_carries_counts(
        transforms,
        stage as nat,
        s.posted,
        at,
        at.alive,
        at.stops_handed_on + 1,
    );
    lemma_carries_move(transforms, stage as nat, s.posted, more, replica, leaving);
    lemma_payload_replace(s, transforms, stage, more.with_replica(replica, leaving), mid);
    lemma_payload_hand_down(
        mid,
        transforms,
        stage,
        TimestampedWorkItem(WorkItem::Stop, token.1),
    );
}

/// When a leaving replica puts the stop token back.
proof fn lemma_payload_put_back<V>(
    s: PipelineModel<V>,
    transforms: Seq<spec_fn(V) -> Option<V>>, stage: int, replica: int,
)
    requires
        payload_inv(s, transforms),
        order_inv(s),
        s.enabled(Step::PutBack { stage, replica }),
        obeys(s, Step::PutBack { stage, replica }, transforms),
        bounded(s.next(Step::PutBack { stage, replica })),
    ensures
        payload_inv(s.next(Step::PutBack { stage, replica }), transforms),
{
    let after = s.next(Step::PutBack { stage, replica });
    let at = s.stages[stage];
    let token = at.replicas[replica]->Leaving_token;
    let stop = TimestampedWorkItem(WorkItem::<V>::Stop, token.1);
    lemma_carries_push(transforms, stage as nat, s.posted, at, stop, at.queue.inserts);
    assert(at.receive(stop) == StageModel {
        queue: crate::work_storage::QueueView {
            items: at.queue.items.push(stop),
            inserts: at.queue.inserts,
        },
        ..at
    });
    lemma_carries_move(
        transforms,
        stage as nat,
        s.posted,
        at.receive(stop),
        replica,
        Replica::Gone,
    );
    lemma_payload_replace(
        s,
        transforms,
        stage,
        at.receive(stop).with_replica(replica, Replica::Gone),
        after,
    );
}

/// When a waiting replica takes the front item of its queue.
proof fn lemma_payload_sink_take<V>(s: PipelineModel<V>, transforms: Seq<spec_fn(V) -> Option<V>>)
    requires
        payload_inv(s, transforms),
        order_inv(s),
        s.enabled(Step::SinkTake),
        obeys(s, Step::SinkTake, transforms),
        bounded(s.next(Step::SinkTake)),
    ensures
        payload_inv(s.next(Step::SinkTake), transforms),
{
    let after = s.next(Step::SinkTake);
    let n = s.stages.len();
    lemma_sink_carries_takes(transforms, n, s.posted, s.sink, s.delivered);
    assert forall|j: int| 0 <= j < after.stages.len() implies stage_carries(
        transforms,
        j as nat,
        after.posted,
        #[trigger] after.stages[j],
    ) by {
        assert(after.stages[j] == s.stages[j]);
    }
}

/// Every step of stages that return what `transforms` says keeps what holds of
/// the payloads.
pub proof fn lemma_payload_step<V>(
    s: PipelineModel<V>,
    step: Step<V>,
    transforms: Seq<spec_fn(V) -> Option<V>>,
)
    requires
        payload_inv(s, transforms),
        order_inv(s),
        s.enabled(step),
        obeys(s, step, transforms),
        bounded(s.next(step)),
    ensures
        payload_inv(s.next(step), transforms),
{
    match step {
        Step::Post { item } => {
            lemma_payload_post(s, transforms, item);
        },
        Step::End => {
            lemma_payload_end(s, transforms);
        },
        Step::Take { stage, replica } => {
            lemma_payload_take(s, transforms, stage, replica);
        },
        Step::Emit { stage, replica, output } => {
            lemma_payload_emit(s, transforms, stage, replica, output);
        },
        Step::CountOut { stage, replica } => {
            lemma_payload_count_out(s, transforms, stage, replica);
        },
        Step::HandOn { stage, replica } => {
            lemma_payload_hand_on(s, transforms, stage, replica);
        },
        Step::PutBack { stage, replica } => {
            lemma_payload_put_back(s, transforms, stage, replica);
        },
        Step::SinkTake => {
            lemma_payload_sink_take(s, transforms);
        },
    }
}

/// Steps that can be taken with stages that return what `transforms` says can
/// be taken.
pub proof fn lemma_obeying_admits<V>(
    s: PipelineModel<V>,
    steps: Seq<Step<V>>,
    transforms: Seq<spec_fn(V) -> Option<V>>,
)
    requires
        admits_obeying(s, steps, transforms),
    ensures
        s.admits(steps),
    decreases steps.len(),
{
    if steps.len() > 0 {
        lemma_obeying_admits(s, steps.drop_last(), transforms);
    }
}

/// Every pipeline that has run from its start with stages that return what
/// `transforms` says has what holds of the payloads, while the head queue has
/// orders left.
pub proof fn lemma_payload_holds<V>(
    shape: Seq<nat>,
    ordering: OrderingMode,
    steps: Seq<Step<V>>,
    transforms: Seq<spec_fn(V) -> Option<V>>,
)
    requires
        well_shaped(shape),
        admits_obeying(PipelineModel::<V>::init(shape, ordering), steps, transforms),
        bounded(PipelineModel::<V>::init(shape, ordering).run(steps)),
    ensures
        payload_inv(PipelineModel::<V>::init(shape, ordering).run(steps), transforms),
    decreases steps.len(),
{
    let start = PipelineModel::<V>::init(shape, ordering);
    if steps.len() == 0 {
        reveal(stage_carries);
        reveal(sink_carries);
    } else {
        let before = start.run(steps.drop_last());
        lemma_bounded_before(before, steps.last());
        lemma_obeying_admits(start, steps.drop_last(), transforms);
        lemma_order_holds(shape, ordering, steps.drop_last());
        lemma_payload_holds(shape, ordering, steps.drop_last(), transforms);
        lemma_payload_step(before, steps.last(), transforms);
    }
}

} // verus!
