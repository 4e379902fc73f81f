//! The items that travel through a pipeline.
use vstd::prelude::*;

verus! {

/// What travels between two stages.
pub enum WorkItem<T> {
    /// A payload.
    Value(T),
    /// Keeps the slot of an item that a stage gave no output for.
    Dropped,
    /// Ends the loop of the worker that takes it.
    Stop,
}

/// A work item together with the order it was given at the head of the pipeline.
pub struct TimestampedWorkItem<T>(pub WorkItem<T>, pub u64);

impl<T> WorkItem<T> {
    /// Whether the item stands for a posted input: a value, or the slot of a dropped one.
    pub open spec fn is_live(self) -> bool {
        !(self is Stop)
    }
}

impl<T> TimestampedWorkItem<T> {
    /// The order the item carries.
    pub open spec fn order(self) -> u64 {
        self.1
    }

    /// Whether the item stands for a posted input.
    pub open spec fn is_live(self) -> bool {
        self.0.is_live()
    }
}

} // verus!
