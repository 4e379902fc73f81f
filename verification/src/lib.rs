//! A staged parallel pipeline: a chain of stages, each with its own workers,
//! joined by thread-safe queues, with a sink that can restore submission order.
//!
//! A pipeline is built sink first: an [`InBlock`] at the end, and an
//! [`InOutBlock`] around it for each transforming stage. Each block hands out
//! its workers, one turn of whose loop is `step`. The [`Pipeline`] handle takes
//! the items, starts the loops through a function that puts each on a thread,
//! signals the end with a stop token that follows the items through every
//! stage, and waits for the workers through a function that joins a thread.
//!
//! - [`work_storage`]: the items, the queue and the ordered store, each as a
//!   state with exact contracts and as that state behind a lock.
//! - [`blocks`]: the stages, their workers, and the loops.
//! - [`spp`]: the handle.
//! - [`sync`]: the lock and the condition variable, taken on trust.
//! - [`model`]: a running pipeline as a transition system over the states of
//!   the queues, the store and the workers.
//! - [`invariants`]: what holds of every state the pipeline can reach.
//! - [`laws`]: what follows for every run.
pub mod blocks;
pub mod counting;
pub mod invariants;
pub mod laws;
pub mod model;
pub mod spp;
pub mod sync;
pub mod work_storage;

pub use blocks::{
    BlockMode, In, InBlock, InOut, InOutBlock, InOutWorker, InWorker, LoopBody, LoopStatus,
    MonitorLoop, OrderingMode, PipelineBlock, SinkEntry, StageTurn,
};
pub use spp::{post_outcome, ItemPostError, Pipeline};
pub use work_storage::{
    next_order, BlockingOrderedSet, BlockingQueue, OrderedState, QueueState, QueueView,
    TimestampedWorkItem, WorkItem,
};
