//! The lock and the condition variable under the work stores.
//!
//! A monitor is a state behind a `parking_lot` mutex together with the
//! condition variable on which threads wait for the state to change. The types
//! of the crate are carried through opaquely, and each function marked as
//! taken on trust makes one call into the crate.
use vstd::prelude::*;

verus! {

/// `lock_api::Mutex`, of which `parking_lot::Mutex` is the instance with
/// `parking_lot::RawMutex`. Nothing is known of a value of it.
#[verifier::external_type_specification]
#[verifier::external_body]
#[verifier::reject_recursive_types(R)]
#[verifier::reject_recursive_types(T)]
pub struct ExMutex<R, T: ?Sized>(parking_lot::lock_api::Mutex<R, T>);

/// `parking_lot::RawMutex`, the lock inside a `parking_lot::Mutex`. Nothing is
/// known of a value of it.
#[verifier::external_type_specification]
#[verifier::external_body]
pub struct ExRawMutex(parking_lot::RawMutex);

/// `parking_lot::Condvar`. Nothing is known of a value of it.
#[verifier::external_type_specification]
#[verifier::external_body]
pub struct ExCondvar(parking_lot::Condvar);

/// A state that a waiter can be held back on until it has what the waiter asks for.
pub trait Gate {
    /// What a waiter asks for.
    type Key;

    /// Whether the state has what `key` asks for.
    spec fn open_for(&self, key: Self::Key) -> bool;

    /// Whether the state lacks what `key` asks for.
    fn is_closed_for(&self, key: &Self::Key) -> (closed: bool)
        ensures
            closed == !self.open_for(*key),
    ;
}

/// A state of type `S` behind a lock, and the condition variable that goes
/// with it. The condition variable is never used with another lock.
#[verifier::reject_recursive_types(S)]
pub struct Monitor<S> {
    state: parking_lot::Mutex<S>,
    changed: parking_lot::Condvar,
}

/// The held lock of a monitor: the `parking_lot::MutexGuard` of its mutex,
/// which frees the lock when it goes out of scope, and the condition variable
/// of the same monitor. It is made by `lock` alone, so a thread that waits
/// through it waits with the mutex that every other waiter of the condition
/// variable waits with.
#[verifier::external_body]
#[verifier::reject_recursive_types(S)]
pub struct Locked<'a, S> {
    guard: parking_lot::MutexGuard<'a, S>,
    changed: &'a parking_lot::Condvar,
}

impl<S> Monitor<S> {
    /// A monitor around `state`, unlocked and with no waiter.
    pub fn new(state: S) -> Monitor<S> {
        Monitor { state: new_mutex(state), changed: new_condvar() }
    }
}

/// `parking_lot::Mutex::new`: a new, unlocked mutex around `value`.
#[verifier::external_body]
fn new_mutex<S>(value: S) -> parking_lot::Mutex<S> {
    parking_lot::Mutex::new(value)
}

/// `parking_lot::Condvar::new`: a new condition variable with no waiter.
#[verifier::external_body]
fn new_condvar() -> parking_lot::Condvar {
    parking_lot::Condvar::new()
}

/// `parking_lot::Mutex::into_inner`: takes the mutex of the monitor apart and
/// returns the state it protected. Nothing is claimed of the state: other
/// threads may have changed it.
#[verifier::external_body]
pub(crate) fn into_inner<S>(monitor: Monitor<S>) -> S {
    monitor.state.into_inner()
}

/// `std::sync::Arc::try_unwrap`: the value itself where `shared` is the only
/// pointer to it, else `shared` back.
#[verifier::external_body]
pub(crate) fn try_unwrap<V>(shared: std::sync::Arc<V>) -> (alone: Result<V, std::sync::Arc<V>>)
    ensures
        match alone {
            Ok(value) => value == *shared,
            Err(still_shared) => still_shared == shared,
        },
{
    std::sync::Arc::try_unwrap(shared)
}

/// `parking_lot::Mutex::lock`: blocks until the mutex of the monitor is free
/// and holds it. Nothing is claimed of the state behind it: other threads may
/// have changed it.
#[verifier::external_body]
pub(crate) fn lock<'a, S>(monitor: &'a Monitor<S>) -> Locked<'a, S> {
    Locked { guard: monitor.state.lock(), changed: &monitor.changed }
}

/// `DerefMut` of `parking_lot::MutexGuard`: the state that the held lock protects.
#[verifier::external_body]
pub(crate) fn guarded<'a, 'b, S>(held: &'a mut Locked<'b, S>) -> &'a mut S {
    &mut *held.guard
}

/// `parking_lot::Condvar::wait_while`: while the protected state is closed for
/// `key`, gives the lock up and sleeps until the next notification; the state is
/// tested with the lock held, first before any sleep. Returns, with the lock
/// held again, the state that the last test found open.
#[verifier::external_body]
pub(crate) fn wait_until_open<'a, 'b, S: Gate>(held: &'a mut Locked<'b, S>, key: &S::Key) -> (state:
    &'a mut S)
    ensures
        state.open_for(*key),
{
    held.changed.wait_while(&mut held.guard, |state: &mut S| state.is_closed_for(key));
    &mut *held.guard
}

/// `parking_lot::Condvar::notify_one`: wakes one thread that waits on the
/// monitor, if there is any.
#[verifier::external_body]
pub(crate) fn notify_one<S>(monitor: &Monitor<S>) {
    monitor.changed.notify_one();
}

/// `parking_lot::Condvar::notify_all`: wakes every thread that waits on the monitor.
#[verifier::external_body]
pub(crate) fn notify_all<S>(monitor: &Monitor<S>) {
    monitor.changed.notify_all();
}

} // verus!
