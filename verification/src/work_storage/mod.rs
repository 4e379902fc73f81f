//! The items of a pipeline and where they wait between two stages.
pub mod blocking_ordered_set;
pub mod blocking_queue;
pub mod work_item;

pub use blocking_ordered_set::{BlockingOrderedSet, OrderedState};
pub use blocking_queue::{next_order, BlockingQueue, QueueState, QueueView};
pub use work_item::{TimestampedWorkItem, WorkItem};
