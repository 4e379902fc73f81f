//! The store before an ordered sink: items lie under their orders until the
//! sink asks for them.
use crate::sync::{guarded, lock, notify_all, wait_until_open, Gate, Monitor};
use crate::work_storage::work_item::TimestampedWorkItem;
use std::collections::BTreeMap;
use std::sync::Arc;
use vstd::prelude::*;

verus! {

/// What an ordered store holds at one moment: each item under the order it carries.
pub struct OrderedState<T> {
    storage: BTreeMap<u64, TimestampedWorkItem<T>>,
}

impl<T> View for OrderedState<T> {
    type V = Map<u64, TimestampedWorkItem<T>>;

    /// The stored items, each under its order.
    closed spec fn view(&self) -> Map<u64, TimestampedWorkItem<T>> {
        self.storage@
    }
}

impl<T> OrderedState<T> {
    #[verifier::type_invariant]
    spec fn keyed_by_order(self) -> bool {
        forall|key: u64| #[trigger] self.storage@.contains_key(key) ==> self.storage@[key].1 == key
    }

    /// An empty store.
    pub fn new() -> (state: OrderedState<T>)
        ensures
            state@ == Map::<u64, TimestampedWorkItem<T>>::empty(),
    {
        OrderedState { storage: BTreeMap::new() }
    }

    /// Stores `item` under the order it carries, in place of what was there.
    pub fn insert(&mut self, item: TimestampedWorkItem<T>)
        ensures
            final(self)@ == old(self)@.insert(item.1, item),
    {
        proof {
            use_type_invariant(&*self);
        }
        let mut current = OrderedState::new();
        std::mem::swap(self, &mut current);
        let OrderedState { mut storage } = current;
        let TimestampedWorkItem(work, order) = item;
        storage.insert(order, TimestampedWorkItem(work, order));
        *self = OrderedState { storage };
    }

    /// Whether an item is stored under `order`.
    pub fn contains(&self, order: u64) -> (present: bool)
        ensures
            present == self@.contains_key(order),
    {
        self.storage.contains_key(&order)
    }

    /// Takes out the item stored under `order`, if there is one.
    pub fn remove(&mut self, order: u64) -> (taken: Option<TimestampedWorkItem<T>>)
        ensures
            match taken {
                Some(item) => {
                    &&& old(self)@.contains_key(order)
                    &&& item == old(self)@[order]
                    &&& item.1 == order
                },
                None => !old(self)@.contains_key(order),
            },
            final(self)@ == old(self)@.remove(order),
    {
        proof {
            use_type_invariant(&*self);
        }
        let mut current = OrderedState::new();
        std::mem::swap(self, &mut current);
        let OrderedState { mut storage } = current;
        let taken = storage.remove(&order);
        *self = OrderedState { storage };
        taken
    }
}

impl<T> Gate for OrderedState<T> {
    type Key = u64;

    open spec fn open_for(&self, key: u64) -> bool {
        self@.contains_key(key)
    }

    fn is_closed_for(&self, key: &u64) -> (closed: bool) {
        !self.contains(*key)
    }
}

/// A thread-safe store of work items by order: producers insert in any order,
/// and the consumer waits for the order it needs next.
#[verifier::reject_recursive_types(T)]
pub struct BlockingOrderedSet<T> {
    storage: Monitor<OrderedState<T>>,
}

impl<T> BlockingOrderedSet<T> {
    /// A new, empty store, ready to be shared.
    pub fn new() -> Arc<BlockingOrderedSet<T>> {
        Arc::new(BlockingOrderedSet { storage: Monitor::new(OrderedState::new()) })
    }

    /// Stores `item` under the order it carries and wakes every waiter.
    pub fn enqueue(&self, item: TimestampedWorkItem<T>) {
        let mut held = lock(&self.storage);
        guarded(&mut held).insert(item);
        notify_all(&self.storage);
    }

    /// Blocks until an item is stored under `item`, then takes it out.
    pub fn wait_and_remove(&self, item: u64) -> (removed: TimestampedWorkItem<T>)
        ensures
            removed.1 == item,
    {
        let mut held = lock(&self.storage);
        wait_until_open(&mut held, &item).remove(item).unwrap()
    }
}

} // verus!
