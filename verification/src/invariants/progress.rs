//! Once the end is signalled, no worker is left waiting for good: while a
//! worker has not ended, some worker can take a step.
use crate::blocks::OrderingMode;
use crate::counting::lemma_total_zero;
use crate::invariants::census::{census, counted, holding, lemma_census_holds, stage_count};
use crate::invariants::orders::{bounded, in_range, lemma_order_holds, order_inv, sink_in_order};
use crate::invariants::protocol::{
    closed_at, has_stop, holding_live, lemma_protocol_holds, lemma_shape_kept,
    lemma_stage_drained, live, protocol_inv, stage_inv,
};
use crate::invariants::token::{arrived, lemma_token_holds, sink_token, stage_token, token_inv};
use crate::model::{well_shaped, PipelineModel, Replica, StageModel, Step};
use vstd::prelude::*;

verus! {

/// Whether some worker can take a step.
pub open spec fn worker_can_step<V>(s: PipelineModel<V>) -> bool {
    exists|step: Step<V>| #[trigger] s.enabled(step) && !(step is Post) && !(step is End)
}

/// A replica that has not ended and does not wait at its queue can take a step.
proof fn lemma_busy_replica_can_step<V>(s: PipelineModel<V>, i: int, r: int)
    requires
        s.has_replica(i, r),
        !(s.stages[i].replicas[r] is Gone),
        !(s.stages[i].replicas[r] is Idle),
    ensures
        worker_can_step(s),
{
    match s.stages[i].replicas[r] {
        Replica::Holding(item) => {
            if item.is_live() {
                assert(s.enabled(Step::Emit { stage: i, replica: r, output: None }));
            } else {
                assert(s.enabled(Step::CountOut { stage: i, replica: r }));
            }
        },
        Replica::Leaving { token, hands_on } => {
            if hands_on {
                assert(s.enabled(Step::HandOn { stage: i, replica: r }));
            } else {
                assert(s.enabled(Step::PutBack { stage: i, replica: r }));
            }
        },
        _ => {},
    }
}

/// In a stage that the stop token has arrived at, and where a replica has not
/// ended, a replica can take a step.
proof fn lemma_stage_can_step<V>(s: PipelineModel<V>, i: int)
    requires
        0 <= i < s.stages.len(),
        stage_token(s.stages[i], true),
        !s.stages[i].all_gone(),
    ensures
        worker_can_step(s),
{
    reveal(stage_token);
    let stage = s.stages[i];
    let r = choose|r: int| 0 <= r < stage.replicas.len() && !(#[trigger] stage.replicas[r] is Gone);
    if stage.replicas[r] is Idle {
        if stage.queue.items.len() > 0 {
            assert(s.enabled(Step::Take { stage: i, replica: r }));
        } else {
            assert(!has_stop(stage.queue.items));
            let x = choose|x: int|
                0 <= x < stage.replicas.len() && (#[trigger] stage.replicas[x]).holds_stop();
            lemma_busy_replica_can_step(s, i, x);
        }
    } else {
        lemma_busy_replica_can_step(s, i, r);
    }
}

/// A stage whose replicas have all ended has no value and no dropped slot of
/// any order.
pub proof fn lemma_drained_has_no_order<V>(stage: StageModel<V>, closed: bool, k: u64)
    requires
        stage_inv(stage, closed),
        stage.all_gone(),
    ensures
        stage_count(k)(stage) == 0,
{
    lemma_stage_drained(stage, closed);
    lemma_total_zero(stage.queue.items, live());
    lemma_total_zero(stage.replicas, holding_live());
    lemma_total_zero(stage.queue.items, counted(k));
    lemma_total_zero(stage.replicas, holding(k));
    assert forall|j: int| 0 <= j < stage.queue.items.len() implies counted(k)(
        #[trigger] stage.queue.items[j],
    ) == 0 by {
        assert(live()(stage.queue.items[j]) == 0);
    }
    assert forall|r: int| 0 <= r < stage.replicas.len() implies holding(k)(
        #[trigger] stage.replicas[r],
    ) == 0 by {
        assert(holding_live()(stage.replicas[r]) == 0);
    }
}

/// When every replica of every stage has ended and the end was signalled once,
/// the store of an ordered sink holds the order that the worker of the sink
/// waits for.
proof fn lemma_ordered_sink_is_served<V>(s: PipelineModel<V>)
    requires
        protocol_inv(s),
        order_inv(s),
        forall|k: u64| census(s, k),
        sink_token(s.sink, true),
        s.sink.ordering == OrderingMode::Ordered,
        !s.sink.gone,
        s.ends == 1,
        forall|i: int| 0 <= i < s.stages.len() ==> (#[trigger] s.stages[i]).all_gone(),
    ensures
        s.sink.store.contains_key(s.sink.next_item),
{
    reveal(sink_in_order);
    reveal(sink_token);
    let k = s.sink.next_item;
    if k < s.posted.len() {
        assert(census(s, k));
        lemma_total_zero(s.stages, stage_count(k));
        assert forall|i: int| 0 <= i < s.stages.len() implies stage_count(k)(
            #[trigger] s.stages[i],
        ) == 0 by {
            lemma_drained_has_no_order(s.stages[i], closed_at(s, i), k);
        }
    } else {
        let at = choose|at: u64| #[trigger] s.sink.store.contains_key(at) && s.sink.store[at].0 is Stop;
        assert(in_range(s.posted.len(), s.ends, s.sink.store[at]));
    }
}

/// What is known of a pipeline with an ordered sink in which the end was
/// signalled once: the orders are in range, and each is at one place.
#[verifier::opaque]
pub open spec fn ordered_once<V>(s: PipelineModel<V>) -> bool {
    s.sink.ordering == OrderingMode::Ordered ==> order_inv(s) && s.ends == 1 && forall|k: u64|
        census(s, k)
}

/// The worker of a sink that the stop token has arrived at, behind stages whose
/// replicas have all ended, can take its next item.
proof fn lemma_sink_can_step<V>(s: PipelineModel<V>)
    requires
        protocol_inv(s),
        sink_token(s.sink, true),
        ordered_once(s),
        !s.sink.gone,
        forall|i: int| 0 <= i < s.stages.len() ==> (#[trigger] s.stages[i]).all_gone(),
    ensures
        s.enabled(Step::SinkTake),
{
    reveal(ordered_once);
    match s.sink.ordering {
        OrderingMode::Unordered => {
            reveal(sink_token);
            assert(s.sink.queue.items.len() > 0);
        },
        OrderingMode::Ordered => {
            lemma_ordered_sink_is_served(s);
        },
    }
}

/// A stage whose replicas have all ended has handed the stop token on.
proof fn lemma_gone_stage_has_handed_on<V>(s: PipelineModel<V>, i: int)
    requires
        protocol_inv(s),
        0 <= i < s.stages.len(),
        s.stages[i].all_gone(),
    ensures
        s.stages[i].stops_handed_on == 1,
{
    assert(stage_inv(s.stages[i], closed_at(s, i)));
    lemma_stage_drained(s.stages[i], closed_at(s, i));
}

/// Whether each stage whose replicas have all ended has handed the stop token on.
pub open spec fn gone_stages_have_handed_on<V>(s: PipelineModel<V>) -> bool {
    forall|i: int|
        0 <= i < s.stages.len() && (#[trigger] s.stages[i]).all_gone() ==> s.stages[i].stops_handed_on
            >= 1
}

/// Whether every replica of every stage has ended.
pub open spec fn stages_gone<V>(s: PipelineModel<V>) -> bool {
    forall|i: int| 0 <= i < s.stages.len() ==> (#[trigger] s.stages[i]).all_gone()
}

/// Where the stop token has arrived at block `i` and all replicas before it
/// have ended, a worker from block `i` on can take a step, unless all have ended.
proof fn lemma_progress_from<V>(s: PipelineModel<V>, i: int)
    requires
        gone_stages_have_handed_on(s),
        token_inv(s),
        stages_gone(s) && !s.sink.gone ==> s.enabled(Step::SinkTake),
        !(stages_gone(s) && s.sink.gone),
        0 <= i <= s.stages.len(),
        forall|j: int| 0 <= j < i ==> (#[trigger] s.stages[j]).all_gone(),
        arrived(s, i),
    ensures
        worker_can_step(s),
    decreases s.stages.len() - i,
{
    if i < s.stages.len() {
        if s.stages[i].all_gone() {
            lemma_progress_from(s, i + 1);
        } else {
            assert(stage_token(s.stages[i], arrived(s, i)));
            lemma_stage_can_step(s, i);
        }
    } else {
        assert(stages_gone(s));
        assert(s.enabled(Step::SinkTake));
    }
}

/// In a pipeline that has run from its start and signalled the end, while a
/// worker has not ended, some worker can take a step. For an ordered sink,
/// while the head queue has orders left and the end was signalled once.
pub proof fn lemma_progress<V>(shape: Seq<nat>, ordering: OrderingMode, steps: Seq<Step<V>>)
    requires
        well_shaped(shape),
        PipelineModel::<V>::init(shape, ordering).admits(steps),
        PipelineModel::<V>::init(shape, ordering).run(steps).signaled_end,
        !PipelineModel::<V>::init(shape, ordering).run(steps).all_gone(),
        ordering == OrderingMode::Ordered ==> bounded(
            PipelineModel::<V>::init(shape, ordering).run(steps),
        ) && PipelineModel::<V>::init(shape, ordering).run(steps).ends == 1,
    ensures
        worker_can_step(PipelineModel::<V>::init(shape, ordering).run(steps)),
{
    let end = PipelineModel::<V>::init(shape, ordering).run(steps);
    lemma_protocol_holds(shape, ordering, steps);
    lemma_token_holds(shape, ordering, steps);
    lemma_shape_kept(shape, ordering, steps);
    if ordering == OrderingMode::Ordered {
        lemma_order_holds(shape, ordering, steps);
        assert forall|k: u64| census(end, k) by {
            lemma_census_holds(shape, steps, k);
        }
    }
    assert(ordered_once(end)) by {
        reveal(ordered_once);
    }
    assert forall|i: int| 0 <= i < end.stages.len() && (#[trigger] end.stages[i]).all_gone() implies end.stages[i].stops_handed_on
        >= 1 by {
        lemma_gone_stage_has_handed_on(end, i);
    }
    if stages_gone(end) && !end.sink.gone {
        assert(arrived(end, end.stages.len() as int)) by {
            lemma_gone_stage_has_handed_on(end, end.stages.len() - 1);
        }
        assert(sink_token(end.sink, arrived(end, end.stages.len() as int)));
        lemma_sink_can_step(end);
    }
    lemma_progress_from(end, 0);
}

} // verus!
