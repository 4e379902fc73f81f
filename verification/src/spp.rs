//! The handle of a pipeline: what the one who builds a pipeline posts items to,
//! ends it with, and collects from.
use crate::blocks::{InOut, InOutBlock, MonitorLoop, PipelineBlock};
use crate::work_storage::WorkItem;
use std::marker::PhantomData;
use vstd::prelude::*;

verus! {

/// Why an item was not taken.
#[derive(Debug, Clone, Copy, PartialEq, Eq, Structural)]
pub enum ItemPostError {
    /// The end of the stream had been signalled before.
    StreamEnded,
    /// The pipeline has no head block any more.
    UnknownError,
}

/// What `post` answers on a pipeline whose end was signalled or not, and which
/// still has its head block or not.
pub open spec fn post_outcome(signaled_end: bool, has_head: bool) -> Result<(), ItemPostError> {
    if signaled_end {
        Err(ItemPostError::StreamEnded)
    } else if has_head {
        Ok(())
    } else {
        Err(ItemPostError::UnknownError)
    }
}

/// The handle of a pipeline: it owns the head block, the loops of the workers
/// until they are started and the handles of their threads from then on, takes
/// the items, and signals the end. `THandle` is what starting a thread returns
/// and joining it takes.
#[verifier::reject_recursive_types(TInput)]
#[verifier::reject_recursive_types(TOutput)]
#[verifier::reject_recursive_types(TCollected)]
#[verifier::reject_recursive_types(TStage)]
pub struct Pipeline<
    TInput,
    TOutput,
    TCollected,
    TStage: InOut<TInput, TOutput> + Send,
    TFactory: FnMut() -> TStage,
    TNextStep: PipelineBlock<TOutput, TCollected> + Send + Sync,
    THandle,
> {
    signaled_end: bool,
    initial_block: Option<InOutBlock<TInput, TOutput, TCollected, TStage, TFactory, TNextStep>>,
    monitors: Vec<MonitorLoop>,
    threads: Vec<THandle>,
    _params: PhantomData<(TOutput, TCollected)>,
}

impl<
    TInput,
    TOutput,
    TCollected,
    TStage: InOut<TInput, TOutput> + Send,
    TFactory: FnMut() -> TStage,
    TNextStep: PipelineBlock<TOutput, TCollected> + Send + Sync,
    THandle,
> Pipeline<TInput, TOutput, TCollected, TStage, TFactory, TNextStep, THandle> {
    /// Whether the end of the stream has been signalled.
    pub closed spec fn signaled_end(&self) -> bool {
        self.signaled_end
    }

    /// Whether the pipeline still owns its head block.
    pub closed spec fn has_head(&self) -> bool {
        self.initial_block is Some
    }

    /// The loops that wait to be started.
    pub closed spec fn pending(&self) -> Seq<MonitorLoop> {
        self.monitors@
    }

    /// The handles of the threads that were started and not yet joined.
    pub closed spec fn threads(&self) -> Seq<THandle> {
        self.threads@
    }

    /// A pipeline that enters at `initial_block`, with the loops of all its
    /// workers. It takes items at once; the loops run when they are started.
    pub fn new(
        initial_block: InOutBlock<TInput, TOutput, TCollected, TStage, TFactory, TNextStep>,
        monitors: Vec<MonitorLoop>,
    ) -> (pipeline: Pipeline<TInput, TOutput, TCollected, TStage, TFactory, TNextStep, THandle>)
        ensures
            !pipeline.signaled_end(),
            pipeline.has_head(),
            pipeline.pending() == monitors@,
            pipeline.threads().len() == 0,
    {
        Pipeline {
            initial_block: Some(initial_block),
            monitors: monitors,
            threads: Vec::new(),
            signaled_end: false,
            _params: PhantomData,
        }
    }

    /// Signals the end of the stream: no item is taken from now on, and one stop
    /// token goes to the head block, behind what was posted before.
    fn end(&mut self)
        ensures
            final(self).signaled_end(),
            final(self).has_head() == old(self).has_head(),
            final(self).pending() == old(self).pending(),
            final(self).threads() == old(self).threads(),
    {
        self.signaled_end = true;
        match &self.initial_block {
            Some(block) => block.send_stop(),
            None => {},
        }
    }

    /// Hands every thread that was started to `join`, in the order they were
    /// started in, and keeps none.
    fn join_all<J: FnMut(THandle)>(&mut self, join: J)
        requires
            forall|handle: THandle| call_requires(join, (handle,)),
        ensures
            final(self).threads().len() == 0,
            forall|i: int|
                0 <= i < old(self).threads().len() ==> call_ensures(
                    join,
                    (#[trigger] old(self).threads()[i],),
                    (),
                ),
            final(self).signaled_end() == old(self).signaled_end(),
            final(self).has_head() == old(self).has_head(),
            final(self).pending() == old(self).pending(),
    {
        let ghost given = join;
        let mut join = join;
        let mut all_threads: Vec<THandle> = Vec::new();
        std::mem::swap(&mut self.threads, &mut all_threads);
        let ghost started = all_threads@;
        for thread in it: all_threads
            invariant
                join == given,
                forall|handle: THandle| call_requires(join, (handle,)),
                it.seq() == started,
                forall|i: int|
                    0 <= i < it.index() ==> call_ensures(join, (#[trigger] started[i],), ()),
                self.threads@.len() == 0,
                self.signaled_end == old(self).signaled_end,
                self.initial_block == old(self).initial_block,
                self.monitors == old(self).monitors,
        {
            join(thread);
        }
    }

    /// Signals the end of the stream and waits for every worker: each thread
    /// that was started is handed to `join`, in the order they were started in.
    /// No thread is left when this returns: each has been joined.
    pub fn end_and_wait<J: FnMut(THandle)>(&mut self, join: J)
        requires
            forall|handle: THandle| call_requires(join, (handle,)),
        ensures
            final(self).signaled_end(),
            final(self).threads().len() == 0,
            forall|i: int|
                0 <= i < old(self).threads().len() ==> call_ensures(
                    join,
                    (#[trigger] old(self).threads()[i],),
                    (),
                ),
            final(self).has_head() == old(self).has_head(),
            final(self).pending() == old(self).pending(),
    {
        self.end();
        self.join_all(join);
    }

    /// Hands `item` to the head block as a value, unless the end of the stream
    /// was signalled or the head block is gone.
    pub fn post(&self, item: TInput) -> (posted: Result<(), ItemPostError>)
        ensures
            posted == post_outcome(self.signaled_end(), self.has_head()),
    {
        if self.signaled_end {
            return Err(ItemPostError::StreamEnded);
        }
        match &self.initial_block {
            Some(block) => {
                block.process(WorkItem::Value(item));
                Ok(())
            },
            None => Err(ItemPostError::UnknownError),
        }
    }

    /// Ends the pipeline, waits for every worker, and gives up what the sink
    /// has collected. `None` where a worker still shares a block though its
    /// thread was joined. A pipeline without a head has collected nothing.
    pub fn collect<J: FnMut(THandle)>(self, join: J) -> (collected: Option<Vec<TCollected>>)
        requires
            forall|handle: THandle| call_requires(join, (handle,)),
        ensures
            !self.has_head() ==> (collected matches Some(items) && items@.len() == 0),
            forall|i: int|
                0 <= i < self.threads().len() ==> call_ensures(
                    join,
                    (#[trigger] self.threads()[i],),
                    (),
                ),
    {
        let mut pipeline = self;
        pipeline.end_and_wait(join);
        match pipeline.initial_block {
            Some(block) => block.collect(),
            None => Some(Vec::new()),
        }
    }

    /// Starts the workers: each loop that waits is handed to `spawn`, in the
    /// order they were given in, and what `spawn` returns for it is kept as the
    /// handle of its thread, behind those that are there. No loop is left waiting.
    pub fn start<S: FnMut(MonitorLoop) -> THandle>(&mut self, spawn: S)
        requires
            forall|monitor: MonitorLoop| call_requires(spawn, (monitor,)),
        ensures
            final(self).pending().len() == 0,
            final(self).threads().len() == old(self).threads().len() + old(self).pending().len(),
            forall|i: int|
                0 <= i < old(self).threads().len() ==> final(self).threads()[i] == old(
                    self,
                ).threads()[i],
            forall|i: int|
                0 <= i < old(self).pending().len() ==> call_ensures(
                    spawn,
                    (old(self).pending()[i],),
                    #[trigger] final(self).threads()[old(self).threads().len() + i],
                ),
            final(self).signaled_end() == old(self).signaled_end(),
            final(self).has_head() == old(self).has_head(),
    {
        let ghost given = spawn;
        let mut spawn = spawn;
        let mut monitors: Vec<MonitorLoop> = Vec::new();
        std::mem::swap(&mut self.monitors, &mut monitors);
        let ghost pending = monitors@;
        let ghost before = self.threads@;
        for monitor in it: monitors
            invariant
                spawn == given,
                forall|monitor: MonitorLoop| call_requires(spawn, (monitor,)),
                it.seq() == pending,
                self.signaled_end == old(self).signaled_end,
                self.initial_block == old(self).initial_block,
                self.monitors@.len() == 0,
                self.threads@.len() == before.len() + it.index(),
                forall|i: int| 0 <= i < before.len() ==> self.threads@[i] == before[i],
                forall|i: int|
                    0 <= i < it.index() ==> call_ensures(
                        spawn,
                        (pending[i],),
                        #[trigger] self.threads@[before.len() + i],
                    ),
        {
            let handle = spawn(monitor);
            self.threads.push(handle);
        }
    }

    /// Lets go of the head block and waits for every worker, as a handle does
    /// that is given up: where the end of the stream was not signalled, the stop
    /// token goes to the head block first, so that the workers end.
    pub fn release<J: FnMut(THandle)>(&mut self, join: J)
        requires
            forall|handle: THandle| call_requires(join, (handle,)),
        ensures
            !final(self).has_head(),
            final(self).threads().len() == 0,
            forall|i: int|
                0 <= i < old(self).threads().len() ==> call_ensures(
                    join,
                    (#[trigger] old(self).threads()[i],),
                    (),
                ),
            final(self).signaled_end() == old(self).signaled_end(),
            final(self).pending() == old(self).pending(),
    {
        let mut block = None;
        std::mem::swap(&mut self.initial_block, &mut block);
        if !self.signaled_end {
            match &block {
                Some(head) => head.send_stop(),
                None => {},
            }
        }
        assert(self.threads() == old(self).threads());
        self.join_all(join);
    }
}

} // verus!
