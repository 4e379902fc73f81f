//! The queue between two blocks: first in, first out, with a count of its own
//! that gives each new item its order.
use crate::sync::{guarded, lock, notify_one, wait_until_open, Gate, Monitor};
use crate::work_storage::work_item::{TimestampedWorkItem, WorkItem};
use std::collections::VecDeque;
use std::sync::Arc;
use vstd::prelude::*;

verus! {

/// What a queue holds at one moment, as a value: the items in the order they
/// will leave, and the order that the queue gives out next.
pub struct QueueView<T> {
    pub items: Seq<TimestampedWorkItem<T>>,
    pub inserts: u64,
}

/// The order after `order`; the count starts again at zero after the last one.
pub open spec fn next_order(order: u64) -> u64 {
    if order == u64::MAX {
        0
    } else {
        (order + 1) as u64
    }
}

impl<T> QueueView<T> {
    /// The empty queue that has given out no order.
    pub open spec fn fresh() -> QueueView<T> {
        QueueView { items: Seq::empty(), inserts: 0 }
    }

    /// The queue after `item` was appended under the next order of the queue.
    pub open spec fn enqueue(self, item: WorkItem<T>) -> QueueView<T> {
        QueueView {
            items: self.items.push(TimestampedWorkItem(item, self.inserts)),
            inserts: next_order(self.inserts),
        }
    }

    /// The queue after `item` was appended with the order it carries.
    pub open spec fn enqueue_timestamped(self, item: TimestampedWorkItem<T>) -> QueueView<T> {
        QueueView { items: self.items.push(item), inserts: self.inserts }
    }

    /// The queue after its front item has left.
    pub open spec fn dequeue(self) -> QueueView<T>
        recommends
            self.items.len() > 0,
    {
        QueueView { items: self.items.drop_first(), inserts: self.inserts }
    }
}

/// What a queue holds at one moment.
pub struct QueueState<T> {
    items: VecDeque<TimestampedWorkItem<T>>,
    number_of_inserts: u64,
}

impl<T> View for QueueState<T> {
    type V = QueueView<T>;

    closed spec fn view(&self) -> QueueView<T> {
        QueueView { items: self.items@, inserts: self.number_of_inserts }
    }
}

impl<T> QueueState<T> {
    /// An empty queue that has given out no order.
    pub fn new() -> (state: QueueState<T>)
        ensures
            state@ == QueueView::<T>::fresh(),
    {
        QueueState { items: VecDeque::new(), number_of_inserts: 0 }
    }

    /// Appends `item` under the next order of this queue and returns that order.
    pub fn enqueue(&mut self, item: WorkItem<T>) -> (order: u64)
        ensures
            order == old(self)@.inserts,
            final(self)@ == old(self)@.enqueue(item),
    {
        let current: u64 = self.number_of_inserts;
        self.items.push_back(TimestampedWorkItem(item, current));
        self.number_of_inserts = current.wrapping_add(1);
        current
    }

    /// Appends `item` with the order it already carries.
    pub fn enqueue_timestamped(&mut self, item: TimestampedWorkItem<T>)
        ensures
            final(self)@ == old(self)@.enqueue_timestamped(item),
    {
        self.items.push_back(item);
    }

    /// Whether nothing is queued.
    pub fn is_empty(&self) -> (empty: bool)
        ensures
            empty == (self@.items.len() == 0),
    {
        self.items.len() == 0
    }

    /// Removes and returns the front item, if there is one.
    pub fn dequeue(&mut self) -> (front: Option<TimestampedWorkItem<T>>)
        ensures
            match front {
                Some(item) => {
                    &&& old(self)@.items.len() > 0
                    &&& item == old(self)@.items[0]
                    &&& final(self)@ == old(self)@.dequeue()
                },
                None => {
                    &&& old(self)@.items.len() == 0
                    &&& final(self)@ == old(self)@
                },
            },
    {
        self.items.pop_front()
    }
}

impl<T> Gate for QueueState<T> {
    type Key = ();

    open spec fn open_for(&self, key: ()) -> bool {
        self@.items.len() > 0
    }

    fn is_closed_for(&self, key: &()) -> (closed: bool) {
        self.is_empty()
    }
}

/// A thread-safe queue of work items: any number of producers and consumers,
/// first in, first out, without a bound.
#[verifier::reject_recursive_types(T)]
pub struct BlockingQueue<T> {
    queue: Monitor<QueueState<T>>,
}

impl<T> BlockingQueue<T> {
    /// A new, empty queue, ready to be shared.
    pub fn new() -> Arc<BlockingQueue<T>> {
        Arc::new(BlockingQueue { queue: Monitor::new(QueueState::new()) })
    }

    /// Appends `item` under the next order of this queue, wakes one waiter, and
    /// returns the order.
    pub fn enqueue(&self, item: WorkItem<T>) -> u64 {
        let mut held = lock(&self.queue);
        let order: u64 = guarded(&mut held).enqueue(item);
        notify_one(&self.queue);
        order
    }

    /// Appends `item` with the order it already carries and wakes one waiter.
    pub fn enqueue_timestamped(&self, item: TimestampedWorkItem<T>) {
        let mut held = lock(&self.queue);
        guarded(&mut held).enqueue_timestamped(item);
        notify_one(&self.queue);
    }

    /// Blocks until the queue holds an item, then takes the front one.
    pub fn wait_and_dequeue(&self) -> TimestampedWorkItem<T> {
        let mut held = lock(&self.queue);
        wait_until_open(&mut held, &()).dequeue().unwrap()
    }
}

} // verus!
