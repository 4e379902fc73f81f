//! What all blocks share: the face they show to each other, the modes they are
//! made in, and the loop of a worker.
use crate::work_storage::{TimestampedWorkItem, WorkItem};
use vstd::prelude::*;

verus! {

/// What every block of a pipeline offers to the block before it and to the handle.
pub trait PipelineBlock<TInput, TCollected> {
    /// Takes an item that has no order yet; the block gives it one.
    fn process(&self, input: WorkItem<TInput>);

    /// Takes an item under the order it carries.
    fn process_timestamped(&self, input: TimestampedWorkItem<TInput>);

    /// Gives up what the sink at the end of the chain has collected. `None` where a
    /// worker still shares one of the blocks on the way.
    fn collect(self) -> Option<Vec<TCollected>>;
}

/// Whether a sink hands its items on as they arrive or in the order of submission.
#[derive(Clone, Copy, PartialEq, Eq, Debug, Structural)]
pub enum OrderingMode {
    Unordered,
    Ordered,
}

/// How a block runs: on one worker, or on a number of replicas.
#[derive(Clone, Copy, PartialEq, Eq, Debug, Structural)]
pub enum BlockMode {
    Sequential(OrderingMode),
    Parallel(i32),
}

/// What a worker does after one turn of its loop.
#[derive(Clone, Copy, PartialEq, Eq, Debug, Structural)]
pub enum LoopStatus {
    /// The worker takes the next item.
    Running,
    /// The worker has seen the stop token and ends.
    Finished,
}

impl BlockMode {
    /// The number of replicas that a transforming block in this mode has.
    pub open spec fn spec_replicas(self) -> i32 {
        match self {
            BlockMode::Parallel(replicas) => replicas,
            BlockMode::Sequential(_) => 1,
        }
    }

    /// The number of replicas that a transforming block in this mode has.
    #[verifier::when_used_as_spec(spec_replicas)]
    pub fn replicas(self) -> (replicas: i32)
        ensures
            replicas == self.spec_replicas(),
    {
        match self {
            BlockMode::Parallel(replicas) => replicas,
            BlockMode::Sequential(_) => 1,
        }
    }
}

/// The body of a worker: something that can be run once, on another thread.
pub trait LoopBody: Send {
    /// Whether the body may be run.
    spec fn ready(&self) -> bool;

    /// What holds when the body has run.
    spec fn done(&self) -> bool;

    /// Runs the body.
    fn call(self: Box<Self>)
        requires
            self.ready(),
        ensures
            self.done(),
    ;
}

impl<F: FnOnce() -> () + Send> LoopBody for F {
    open spec fn ready(&self) -> bool {
        call_requires(*self, ())
    }

    open spec fn done(&self) -> bool {
        call_ensures(*self, (), ())
    }

    fn call(self: Box<Self>) {
        (*self)()
    }
}

/// The loop of one worker, not yet running.
pub struct MonitorLoop {
    loop_function: Box<dyn LoopBody>,
}

impl MonitorLoop {
    /// Whether the loop may be run.
    pub closed spec fn ready(&self) -> bool {
        self.loop_function.ready()
    }

    /// What holds when the loop has run: what its function promises.
    pub closed spec fn done(&self) -> bool {
        self.loop_function.done()
    }

    /// Wraps `function` as the loop of a worker.
    pub fn new<F>(function: F) -> (monitor: MonitorLoop) where
        F: FnOnce() -> (),
        F: Send + 'static,

        requires
            call_requires(function, ()),
        ensures
            monitor.ready(),
            monitor.done() == call_ensures(function, (), ()),
    {
        MonitorLoop { loop_function: Box::new(function) }
    }

    /// Runs the loop to its end on the calling thread.
    pub fn run(self)
        requires
            self.ready(),
        ensures
            self.done(),
    {
        self.loop_function.call()
    }
}

} // verus!
