//! What the library promises of every run of a pipeline, whatever the number of
//! stages and replicas and however the workers interleave.
use crate::invariants::arrival::lemma_arrival_holds;
use crate::blocks::{BlockMode, OrderingMode};
use crate::counting::{lemma_total_zero, total};
use crate::invariants::fidelity::{
    admits_obeying, carries, lemma_obeying_admits, lemma_payload_holds, sink_carries, through,
};
use crate::model::{well_shaped, PipelineModel, Step};
use crate::invariants::orders::{bounded, lemma_order_holds, sink_in_order};
use crate::invariants::census::{counted, stage_count};
use crate::invariants::delivery::{lemma_tally_holds, tally};
use crate::invariants::progress::{lemma_drained_has_no_order, lemma_progress, worker_can_step};
use crate::invariants::work::{all_by_workers, lemma_no_work_is_all_gone, lemma_work_run, work_left};
use crate::invariants::protocol::{
    closed_at, lemma_all_seen, lemma_protocol_holds, lemma_shape_kept, lemma_stage_drained,
    sink_inv, stage_inv,
};
use crate::invariants::single_file::{lemma_file_delivers_in_order, lemma_file_holds, one_each};
use crate::spp::{post_outcome, ItemPostError};
use crate::work_storage::{TimestampedWorkItem, WorkItem};
use vstd::prelude::*;

verus! {

/// One for a value.
pub open spec fn value<V>() -> spec_fn(TimestampedWorkItem<V>) -> nat {
    |item: TimestampedWorkItem<V>|
        if item.0 is Value {
            1nat
        } else {
            0nat
        }
}

/// One for the slot of a dropped item.
pub open spec fn dropped<V>() -> spec_fn(TimestampedWorkItem<V>) -> nat {
    |item: TimestampedWorkItem<V>|
        if item.0 is Dropped {
            1nat
        } else {
            0nat
        }
}

/// What a sink has seen are values and slots of dropped items.
proof fn lemma_values_and_dropped<V>(seen: Seq<TimestampedWorkItem<V>>)
    requires
        forall|j: int| 0 <= j < seen.len() ==> (#[trigger] seen[j]).is_live(),
    ensures
        total(seen, value()) + total(seen, dropped()) == seen.len(),
    decreases seen.len(),
{
    if seen.len() > 0 {
        let rest = seen.drop_last();
        assert forall|j: int| 0 <= j < rest.len() implies (#[trigger] rest[j]).is_live() by {
            assert(rest[j] == seen[j]);
        }
        lemma_values_and_dropped(rest);
        assert(seen.last() == seen[seen.len() - 1]);
        assert(seen.last().is_live());
    }
}

/// When all workers have ended, the values that the sink has seen and the slots
/// of dropped items that it has seen are together as many as the items that the
/// handle took. For an ordered sink this is stated while the head queue has not
/// given out its last order.
pub proof fn law_every_item_is_accounted_for<V>(
    shape: Seq<nat>,
    ordering: OrderingMode,
    steps: Seq<Step<V>>,
)
    requires
        well_shaped(shape),
        PipelineModel::<V>::init(shape, ordering).admits(steps),
        PipelineModel::<V>::init(shape, ordering).run(steps).all_gone(),
        ordering == OrderingMode::Ordered ==> bounded(
            PipelineModel::<V>::init(shape, ordering).run(steps),
        ),
    ensures
        ({
            let end = PipelineModel::<V>::init(shape, ordering).run(steps);
            total(end.sink.seen, value()) + total(end.sink.seen, dropped()) == end.posted.len()
        }),
{
    let end = PipelineModel::<V>::init(shape, ordering).run(steps);
    lemma_protocol_holds(shape, ordering, steps);
    lemma_shape_kept(shape, ordering, steps);
    assert(forall|j: int| 0 <= j < end.sink.seen.len() ==> (#[trigger] end.sink.seen[j]).is_live())
        by {
        reveal(sink_inv);
    }
    lemma_values_and_dropped(end.sink.seen);
    if ordering == OrderingMode::Ordered {
        lemma_order_holds(shape, ordering, steps);
        reveal(sink_in_order);
    } else {
        lemma_all_seen(end);
    }
}

/// An ordered sink takes the orders one after the other from zero, whatever the
/// number of replicas before it, and has taken one for each item of the handle
/// when all workers have ended. Stated while the head queue has not given out
/// its last order.
pub proof fn law_ordered_sink_sees_the_orders_in_sequence<V>(shape: Seq<nat>, steps: Seq<Step<V>>)
    requires
        well_shaped(shape),
        PipelineModel::<V>::init(shape, OrderingMode::Ordered).admits(steps),
        bounded(PipelineModel::<V>::init(shape, OrderingMode::Ordered).run(steps)),
    ensures
        ({
            let end = PipelineModel::<V>::init(shape, OrderingMode::Ordered).run(steps);
            &&& forall|j: int| 0 <= j < end.sink.seen.len() ==> (#[trigger] end.sink.seen[j]).1 == j
            &&& end.sink.seen.len() <= end.posted.len()
            &&& end.all_gone() ==> end.sink.seen.len() == end.posted.len()
        }),
{
    lemma_order_holds(shape, OrderingMode::Ordered, steps);
    lemma_shape_kept(shape, OrderingMode::Ordered, steps);
    reveal(sink_in_order);
}

/// A stage hands the stop token to the block behind it at most once, whatever
/// the number of its replicas, and exactly once by the time all its replicas
/// have ended.
pub proof fn law_stop_is_handed_on_once<V>(
    shape: Seq<nat>,
    ordering: OrderingMode,
    steps: Seq<Step<V>>,
    stage: int,
)
    requires
        well_shaped(shape),
        PipelineModel::<V>::init(shape, ordering).admits(steps),
        0 <= stage < shape.len(),
    ensures
        ({
            let at = PipelineModel::<V>::init(shape, ordering).run(steps).stages[stage];
            &&& at.stops_handed_on <= 1
            &&& at.all_gone() ==> at.stops_handed_on == 1
        }),
{
    let end = PipelineModel::<V>::init(shape, ordering).run(steps);
    lemma_protocol_holds(shape, ordering, steps);
    lemma_shape_kept(shape, ordering, steps);
    assert(end.shape().0.len() == shape.len());
    let at = end.stages[stage];
    assert(stage_inv(at, closed_at(end, stage)));
    assert(at.stops_handed_on <= 1) by {
        reveal(stage_inv);
    }
    if at.all_gone() {
        lemma_stage_drained(at, closed_at(end, stage));
    }
}

/// After the end was signalled the handle answers every item with
/// `StreamEnded` and nothing is queued; and no step takes the signal back.
pub proof fn law_post_after_end_is_refused<V>(s: PipelineModel<V>, item: V, has_head: bool)
    requires
        s.signaled_end,
    ensures
        post_outcome(true, has_head) == Err::<(), ItemPostError>(ItemPostError::StreamEnded),
        s.next(Step::Post { item }) == s,
        forall|step: Step<V>| s.enabled(step) ==> (#[trigger] s.next(step)).signaled_end,
{
}

/// Signalling the end once more, when all workers have ended, changes nothing
/// that the sink has taken or that a worker could act on: every worker has
/// still ended, and only the handle can take a step.
pub proof fn law_end_again_changes_nothing<V>(s: PipelineModel<V>)
    requires
        s.stages.len() > 0,
        s.all_gone(),
    ensures
        s.next(Step::End).all_gone(),
        s.next(Step::End).sink == s.sink,
        s.next(Step::End).posted == s.posted,
        s.next(Step::End).delivered == s.delivered,
        forall|step: Step<V>|
            #[trigger] s.next(Step::End).enabled(step) ==> step is Post || step is End,
{
    let after = s.next(Step::End);
    assert forall|i: int| 0 <= i < after.stages.len() implies (#[trigger] after.stages[i]).all_gone() by {
        assert(s.stages[i].all_gone());
        assert(after.stages[i].replicas == s.stages[i].replicas);
    }
    assert forall|step: Step<V>| #[trigger] after.enabled(step) implies step is Post || step is End by {
        match step {
            Step::Take { stage, replica } => {
                assert(after.stages[stage].all_gone());
            },
            Step::Emit { stage, replica, output } => {
                assert(after.stages[stage].all_gone());
            },
            Step::CountOut { stage, replica } => {
                assert(after.stages[stage].all_gone());
            },
            Step::HandOn { stage, replica } => {
                assert(after.stages[stage].all_gone());
            },
            Step::PutBack { stage, replica } => {
                assert(after.stages[stage].all_gone());
            },
            _ => {},
        }
    }
}

/// A parallel block with one replica is a sequential block: both modes call for
/// one replica, so the blocks made with them are the same.
pub proof fn law_parallel_of_one_is_sequential(ordering: OrderingMode)
    ensures
        BlockMode::Parallel(1).spec_replicas() == BlockMode::Sequential(ordering).spec_replicas(),
{
}

/// What a sink has collected whose worker has taken `seen` and whose handler
/// returns `handler(value, order)`: one entry for each value, in the order taken.
pub open spec fn collected_by<V, C>(
    seen: Seq<TimestampedWorkItem<V>>,
    handler: spec_fn(V, u64) -> C,
) -> Seq<C>
    decreases seen.len(),
{
    if seen.len() == 0 {
        Seq::empty()
    } else {
        let before = collected_by(seen.drop_last(), handler);
        match seen.last().0 {
            WorkItem::Value(val) => before.push(handler(val, seen.last().1)),
            _ => before,
        }
    }
}

/// An ordered sink sees, in the order of submission, what the stages one after
/// the other make of each posted item: the value, or the slot of a dropped item.
/// Stated for stages that return what `transforms` says, while the head queue
/// has not given out its last order.
pub proof fn law_ordered_sink_sees_what_the_stages_make<V>(
    shape: Seq<nat>,
    steps: Seq<Step<V>>,
    transforms: Seq<spec_fn(V) -> Option<V>>,
)
    requires
        well_shaped(shape),
        transforms.len() == shape.len(),
        admits_obeying(PipelineModel::<V>::init(shape, OrderingMode::Ordered), steps, transforms),
        bounded(PipelineModel::<V>::init(shape, OrderingMode::Ordered).run(steps)),
    ensures
        ({
            let end = PipelineModel::<V>::init(shape, OrderingMode::Ordered).run(steps);
            &&& end.sink.seen.len() <= end.posted.len()
            &&& forall|j: int|
                0 <= j < end.sink.seen.len() ==> #[trigger] end.sink.seen[j] == TimestampedWorkItem(
                    through(transforms, shape.len(), end.posted[j]),
                    j as u64,
                )
            &&& end.all_gone() ==> end.sink.seen.len() == end.posted.len()
        }),
{
    let start = PipelineModel::<V>::init(shape, OrderingMode::Ordered);
    let end = start.run(steps);
    lemma_obeying_admits(start, steps, transforms);
    lemma_order_holds(shape, OrderingMode::Ordered, steps);
    lemma_payload_holds(shape, OrderingMode::Ordered, steps, transforms);
    lemma_shape_kept(shape, OrderingMode::Ordered, steps);
    assert(end.shape().0.len() == shape.len());
    reveal(sink_in_order);
    reveal(sink_carries);
    assert forall|j: int| 0 <= j < end.sink.seen.len() implies #[trigger] end.sink.seen[j]
        == TimestampedWorkItem(through(transforms, shape.len(), end.posted[j]), j as u64) by {
        assert(carries(transforms, shape.len(), end.posted, end.sink.seen[j]));
    }
}

/// Stages that return what they are given make of an item the item.
proof fn lemma_through_identities<V>(
    transforms: Seq<spec_fn(V) -> Option<V>>,
    passed: nat,
    item: V,
)
    requires
        passed <= transforms.len(),
        forall|i: int, val: V|
            0 <= i < transforms.len() ==> #[trigger] (transforms[i])(val) == Some(val),
    ensures
        through(transforms, passed, item) == WorkItem::Value(item),
    decreases passed,
{
    if passed > 0 {
        lemma_through_identities(transforms, (passed - 1) as nat, item);
    }
}

/// A sink that has seen the first posted items as values, and collects each as it is, has collected them.
proof fn lemma_collected_values<V>(seen: Seq<TimestampedWorkItem<V>>, posted: Seq<V>)
    requires
        seen.len() <= posted.len(),
        forall|j: int| 0 <= j < seen.len() ==> (#[trigger] seen[j]).0 == WorkItem::Value(posted[j]),
    ensures
        collected_by(seen, |val: V, order: u64| val) == posted.take(seen.len() as int),
    decreases seen.len(),
{
    let handler = |val: V, order: u64| val;
    if seen.len() == 0 {
        assert(posted.take(0) =~= Seq::<V>::empty());
    } else {
        let rest = seen.drop_last();
        assert forall|j: int| 0 <= j < rest.len() implies (#[trigger] rest[j]).0
            == WorkItem::Value(posted[j]) by {
            assert(rest[j] == seen[j]);
        }
        lemma_collected_values(rest, posted);
        assert(seen.last() == seen[seen.len() - 1]);
        assert(collected_by(seen, handler) =~= posted.take(seen.len() as int));
    }
}

/// A pipeline whose stages all return the value they are given, with an ordered
/// sink that collects each value as it is, has collected the posted items, in
/// the order they were posted, when all workers have ended. Stated while the
/// head queue has not given out its last order.
pub proof fn law_identity_pipeline_returns_its_input<V>(
    shape: Seq<nat>,
    steps: Seq<Step<V>>,
    transforms: Seq<spec_fn(V) -> Option<V>>,
)
    requires
        well_shaped(shape),
        transforms.len() == shape.len(),
        forall|i: int, val: V|
            0 <= i < transforms.len() ==> #[trigger] (transforms[i])(val) == Some(val),
        admits_obeying(PipelineModel::<V>::init(shape, OrderingMode::Ordered), steps, transforms),
        bounded(PipelineModel::<V>::init(shape, OrderingMode::Ordered).run(steps)),
        PipelineModel::<V>::init(shape, OrderingMode::Ordered).run(steps).all_gone(),
    ensures
        ({
            let end = PipelineModel::<V>::init(shape, OrderingMode::Ordered).run(steps);
            collected_by(end.sink.seen, |val: V, order: u64| val) == end.posted
        }),
{
    let end = PipelineModel::<V>::init(shape, OrderingMode::Ordered).run(steps);
    law_ordered_sink_sees_what_the_stages_make(shape, steps, transforms);
    assert forall|j: int| 0 <= j < end.sink.seen.len() implies (#[trigger] end.sink.seen[j]).0
        == WorkItem::Value(end.posted[j]) by {
        lemma_through_identities(transforms, shape.len(), end.posted[j]);
    }
    lemma_collected_values(end.sink.seen, end.posted);
    assert(end.posted.take(end.posted.len() as int) =~= end.posted);
}

/// An unordered sink takes what it is handed in the order it arrives, whatever
/// the number of replicas before it.
pub proof fn law_unordered_sink_sees_the_items_as_they_arrive<V>(
    shape: Seq<nat>,
    steps: Seq<Step<V>>,
)
    requires
        well_shaped(shape),
        PipelineModel::<V>::init(shape, OrderingMode::Unordered).admits(steps),
    ensures
        ({
            let end = PipelineModel::<V>::init(shape, OrderingMode::Unordered).run(steps);
            &&& end.sink.seen.len() <= end.delivered.len()
            &&& forall|j: int|
                0 <= j < end.sink.seen.len() ==> (#[trigger] end.sink.seen[j]).0
                    == end.delivered[j].0
        }),
{
    lemma_arrival_holds(shape, OrderingMode::Unordered, steps);
    lemma_shape_kept(shape, OrderingMode::Unordered, steps);
}

/// Where every stage has one replica, the items reach the sink in the order
/// they were posted: the value or dropped slot that arrives in place `d`
/// carries the order `d`. Stated while the head queue has not given out its
/// last order.
pub proof fn law_single_replicas_do_not_reorder<V>(
    shape: Seq<nat>,
    ordering: OrderingMode,
    steps: Seq<Step<V>>,
)
    requires
        well_shaped(shape),
        one_each(shape),
        PipelineModel::<V>::init(shape, ordering).admits(steps),
        bounded(PipelineModel::<V>::init(shape, ordering).run(steps)),
    ensures
        ({
            let end = PipelineModel::<V>::init(shape, ordering).run(steps);
            forall|d: int|
                0 <= d < end.delivered.len() && (#[trigger] end.delivered[d]).is_live()
                    ==> end.delivered[d].1 == d
        }),
{
    lemma_file_holds(shape, ordering, steps);
    lemma_file_delivers_in_order(PipelineModel::<V>::init(shape, ordering).run(steps));
}

/// Where every stage has one replica, an unordered sink sees what an ordered
/// sink sees: in the order of submission, what the stages one after the other
/// make of each posted item, and all of it when all workers have ended. Stated
/// for stages that return what `transforms` says, while the head queue has not
/// given out its last order.
pub proof fn law_single_replicas_feed_an_unordered_sink_in_order<V>(
    shape: Seq<nat>,
    steps: Seq<Step<V>>,
    transforms: Seq<spec_fn(V) -> Option<V>>,
)
    requires
        well_shaped(shape),
        one_each(shape),
        transforms.len() == shape.len(),
        admits_obeying(PipelineModel::<V>::init(shape, OrderingMode::Unordered), steps, transforms),
        bounded(PipelineModel::<V>::init(shape, OrderingMode::Unordered).run(steps)),
    ensures
        ({
            let end = PipelineModel::<V>::init(shape, OrderingMode::Unordered).run(steps);
            &&& end.sink.seen.len() <= end.posted.len()
            &&& forall|j: int|
                0 <= j < end.sink.seen.len() ==> (#[trigger] end.sink.seen[j]).0 == through(
                    transforms,
                    shape.len(),
                    end.posted[j],
                )
            &&& end.all_gone() ==> end.sink.seen.len() == end.posted.len()
        }),
{
    let start = PipelineModel::<V>::init(shape, OrderingMode::Unordered);
    let end = start.run(steps);
    lemma_obeying_admits(start, steps, transforms);
    lemma_protocol_holds(shape, OrderingMode::Unordered, steps);
    lemma_payload_holds(shape, OrderingMode::Unordered, steps, transforms);
    lemma_arrival_holds(shape, OrderingMode::Unordered, steps);
    lemma_file_holds(shape, OrderingMode::Unordered, steps);
    lemma_file_delivers_in_order(end);
    lemma_shape_kept(shape, OrderingMode::Unordered, steps);
    assert(end.shape().0.len() == shape.len());
    reveal(sink_inv);
    reveal(sink_carries);
    assert forall|j: int| 0 <= j < end.sink.seen.len() implies (#[trigger] end.sink.seen[j]).0
        == through(transforms, shape.len(), end.posted[j]) && j < end.posted.len() by {
        assert(end.sink.seen[j].is_live());
        assert(end.delivered[j].is_live());
        assert(carries(transforms, shape.len(), end.posted, end.delivered[j]));
    }
    if end.sink.seen.len() > 0 {
        assert(end.sink.seen[end.sink.seen.len() - 1].is_live());
    }
    if end.all_gone() {
        lemma_all_seen(end);
    }
}

/// Once the end is signalled, no worker is left waiting for good: while a
/// worker has not ended, some worker can take a step, so that every worker can
/// be waited for. This holds also where nothing was posted. For an ordered sink
/// it is stated while the head queue has not given out its last order and the
/// end was signalled once.
pub proof fn law_no_worker_is_left_waiting<V>(
    shape: Seq<nat>,
    ordering: OrderingMode,
    steps: Seq<Step<V>>,
)
    requires
        well_shaped(shape),
        PipelineModel::<V>::init(shape, ordering).admits(steps),
        PipelineModel::<V>::init(shape, ordering).run(steps).signaled_end,
        !PipelineModel::<V>::init(shape, ordering).run(steps).all_gone(),
        ordering == OrderingMode::Ordered ==> bounded(
            PipelineModel::<V>::init(shape, ordering).run(steps),
        ) && PipelineModel::<V>::init(shape, ordering).run(steps).ends == 1,
    ensures
        worker_can_step(PipelineModel::<V>::init(shape, ordering).run(steps)),
{
    lemma_progress(shape, ordering, steps);
}

/// The workers of a pipeline end after a number of steps that is fixed when the
/// end is signalled, however they interleave: every step of a worker lowers the
/// work that is left by one, and no work is left exactly when all workers have
/// ended. For an ordered sink this is stated while the head queue has not given
/// out its last order.
pub proof fn law_workers_end_when_the_work_is_done<V>(
    shape: Seq<nat>,
    ordering: OrderingMode,
    steps: Seq<Step<V>>,
    more: Seq<Step<V>>,
)
    requires
        well_shaped(shape),
        PipelineModel::<V>::init(shape, ordering).admits(steps),
        PipelineModel::<V>::init(shape, ordering).run(steps).admits(more),
        all_by_workers(more),
        ordering == OrderingMode::Ordered ==> bounded(
            PipelineModel::<V>::init(shape, ordering).run(steps),
        ),
    ensures
        ({
            let from = PipelineModel::<V>::init(shape, ordering).run(steps);
            let end = from.run(more);
            &&& work_left(end) + more.len() == work_left(from)
            &&& work_left(end) == 0 <==> end.all_gone()
        }),
{
    let from = PipelineModel::<V>::init(shape, ordering).run(steps);
    let end = from.run(more);
    lemma_protocol_holds(shape, ordering, steps);
    lemma_shape_kept(shape, ordering, steps);
    if ordering == OrderingMode::Ordered {
        lemma_order_holds(shape, ordering, steps);
    }
    lemma_work_run(from, more);
    if end.all_gone() {
        if ordering == OrderingMode::Ordered {
            reveal(sink_in_order);
        } else {
            lemma_all_seen(end);
        }
    }
    lemma_no_work_is_all_gone(end);
}

/// No stage loses, repeats or renumbers an order: at every moment each order
/// that was given out to a posted item is carried by exactly one value or
/// dropped slot, which is in a stage or was handed to the sink, and no other
/// order is carried by any. Stated while the head queue has not given out its
/// last order.
pub proof fn law_every_order_is_at_one_place<V>(
    shape: Seq<nat>,
    ordering: OrderingMode,
    steps: Seq<Step<V>>,
    k: u64,
)
    requires
        well_shaped(shape),
        PipelineModel::<V>::init(shape, ordering).admits(steps),
        bounded(PipelineModel::<V>::init(shape, ordering).run(steps)),
    ensures
        ({
            let end = PipelineModel::<V>::init(shape, ordering).run(steps);
            total(end.stages, stage_count(k)) + total(end.delivered, counted(k)) == if k
                < end.posted.len() {
                1nat
            } else {
                0nat
            }
        }),
{
    lemma_tally_holds(shape, ordering, steps, k);
}

/// When all workers have ended, every posted item has reached the sink exactly
/// once, whatever the mode of the sink and the number of replicas: for each
/// order given out, one value or dropped slot handed to the sink carries it,
/// and what it carries is what the stages one after the other make of the
/// posted item of that order. An unordered sink has then seen all of it, in the
/// order of arrival: what it has seen is what an ordered sink sees, in another
/// sequence. Stated for stages that return what `transforms` says, while the
/// head queue has not given out its last order.
pub proof fn law_every_item_reaches_the_sink_once<V>(
    shape: Seq<nat>,
    ordering: OrderingMode,
    steps: Seq<Step<V>>,
    transforms: Seq<spec_fn(V) -> Option<V>>,
)
    requires
        well_shaped(shape),
        transforms.len() == shape.len(),
        admits_obeying(PipelineModel::<V>::init(shape, ordering), steps, transforms),
        bounded(PipelineModel::<V>::init(shape, ordering).run(steps)),
        PipelineModel::<V>::init(shape, ordering).run(steps).all_gone(),
    ensures
        ({
            let end = PipelineModel::<V>::init(shape, ordering).run(steps);
            &&& forall|k: u64|
                #[trigger] total(end.delivered, counted(k)) == if k < end.posted.len() {
                    1nat
                } else {
                    0nat
                }
            &&& forall|d: int|
                0 <= d < end.delivered.len() && (#[trigger] end.delivered[d]).is_live()
                    ==> end.delivered[d].1 < end.posted.len() && end.delivered[d].0 == through(
                    transforms,
                    shape.len(),
                    end.posted[end.delivered[d].1 as int],
                )
            &&& ordering == OrderingMode::Unordered ==> {
                &&& end.sink.seen.len() == end.posted.len()
                &&& forall|j: int|
                    0 <= j < end.sink.seen.len() ==> (#[trigger] end.sink.seen[j]).0
                        == end.delivered[j].0
            }
        }),
{
    let start = PipelineModel::<V>::init(shape, ordering);
    let end = start.run(steps);
    lemma_obeying_admits(start, steps, transforms);
    lemma_protocol_holds(shape, ordering, steps);
    lemma_payload_holds(shape, ordering, steps, transforms);
    lemma_arrival_holds(shape, ordering, steps);
    lemma_shape_kept(shape, ordering, steps);
    assert(end.shape().0.len() == shape.len());
    assert forall|k: u64|
        #[trigger] total(end.delivered, counted(k)) == if k < end.posted.len() {
            1nat
        } else {
            0nat
        } by {
        lemma_tally_holds(shape, ordering, steps, k);
        assert(tally(end, k));
        lemma_total_zero(end.stages, stage_count(k));
        assert forall|i: int| 0 <= i < end.stages.len() implies stage_count(k)(
            #[trigger] end.stages[i],
        ) == 0 by {
            assert(stage_inv(end.stages[i], closed_at(end, i)));
            lemma_drained_has_no_order(end.stages[i], closed_at(end, i), k);
        }
    }
    assert forall|d: int|
        0 <= d < end.delivered.len() && (#[trigger] end.delivered[d]).is_live() implies end.delivered[d].1
        < end.posted.len() && end.delivered[d].0 == through(
        transforms,
        shape.len(),
        end.posted[end.delivered[d].1 as int],
    ) by {
        reveal(sink_carries);
        assert(carries(transforms, shape.len(), end.posted, end.delivered[d]));
    }
    if ordering == OrderingMode::Unordered {
        lemma_all_seen(end);
    }
}

} // verus!
