//! The order in which an unordered sink takes its items: the order in which
//! they are handed to it.
use crate::blocks::OrderingMode;
use crate::model::{PipelineModel, Replica, SinkModel, Step};
use crate::work_storage::TimestampedWorkItem;
use vstd::prelude::*;

verus! {

/// How many items the worker of a sink has taken: the values and dropped slots
/// it has seen, and the stop token if it has ended.
pub open spec fn taken_by<V>(sink: SinkModel<V>) -> nat {
    if sink.gone {
        sink.seen.len() + 1
    } else {
        sink.seen.len()
    }
}

/// What holds of an unordered sink: what its worker has seen, the stop token
/// it has ended on, and what waits in its queue are, in this sequence, what the
/// sink was handed.
pub open spec fn as_arrived<V>(
    sink: SinkModel<V>,
    delivered: Seq<TimestampedWorkItem<V>>,
) -> bool {
    sink.ordering == OrderingMode::Unordered ==> {
        &&& taken_by(sink) + sink.queue.items.len() == delivered.len()
        &&& forall|j: int|
            0 <= j < sink.seen.len() ==> (#[trigger] sink.seen[j]).0 == delivered[j].0
        &&& sink.gone ==> delivered[sink.seen.len() as int].0 is Stop
        &&& forall|j: int|
            0 <= j < sink.queue.items.len() ==> (#[trigger] sink.queue.items[j]).0
                == delivered[taken_by(sink) + j].0
    }
}

/// Every step keeps the sequence in which an unordered sink takes its items.
pub proof fn lemma_arrival_step<V>(s: PipelineModel<V>, step: Step<V>)
    requires
        as_arrived(s.sink, s.delivered),
        s.enabled(step),
    ensures
        as_arrived(s.next(step).sink, s.next(step).delivered),
{
    let after = s.next(step);
    if s.sink.ordering == OrderingMode::Unordered {
        match step {
            Step::Emit { stage, replica, output } => {
                if stage + 1 >= s.stages.len() {
                    let mid = s.with_stage(stage, s.stages[stage].with_replica(replica, Replica::Idle));
                    assert(mid.sink == s.sink);
                    assert(mid.delivered == s.delivered);
                    assert forall|j: int| 0 <= j < after.sink.queue.items.len() implies (
                    #[trigger] after.sink.queue.items[j]).0 == after.delivered[taken_by(after.sink)
                        + j].0 by {
                        if j < s.sink.queue.items.len() {
                            assert(after.sink.queue.items[j] == s.sink.queue.items[j]);
                        }
                    }
                }
            },
            Step::HandOn { stage, replica } => {
                if stage + 1 >= s.stages.len() {
                    assert forall|j: int| 0 <= j < after.sink.queue.items.len() implies (
                    #[trigger] after.sink.queue.items[j]).0 == after.delivered[taken_by(after.sink)
                        + j].0 by {
                        if j < s.sink.queue.items.len() {
                            assert(after.sink.queue.items[j] == s.sink.queue.items[j]);
                        }
                    }
                }
            },
            Step::SinkTake => {
                assert(s.sink.queue.items[0].0 == s.delivered[taken_by(s.sink) + 0int].0);
                assert forall|j: int| 0 <= j < after.sink.queue.items.len() implies (
                #[trigger] after.sink.queue.items[j]).0 == after.delivered[taken_by(after.sink)
                    + j].0 by {
                    assert(after.sink.queue.items[j] == s.sink.queue.items[j + 1]);
                }
                assert forall|j: int| 0 <= j < after.sink.seen.len() implies (
                #[trigger] after.sink.seen[j]).0 == after.delivered[j].0 by {
                    if j < s.sink.seen.len() {
                        assert(after.sink.seen[j] == s.sink.seen[j]);
                    }
                }
            },
            _ => {},
        }
    }
}

/// An unordered sink of a pipeline that has run from its start has taken its
/// items in the sequence it was handed them.
pub proof fn lemma_arrival_holds<V>(shape: Seq<nat>, ordering: OrderingMode, steps: Seq<Step<V>>)
    requires
        PipelineModel::<V>::init(shape, ordering).admits(steps),
    ensures
        as_arrived(
            PipelineModel::<V>::init(shape, ordering).run(steps).sink,
            PipelineModel::<V>::init(shape, ordering).run(steps).delivered,
        ),
    decreases steps.len(),
{
    if steps.len() > 0 {
        lemma_arrival_holds(shape, ordering, steps.drop_last());
        lemma_arrival_step(
            PipelineModel::<V>::init(shape, ordering).run(steps.drop_last()),
            steps.last(),
        );
    }
}

} // verus!
