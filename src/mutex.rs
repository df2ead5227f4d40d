//! A spin lock guarding one value.
use vstd::prelude::*;
use vstd::rwlock::RwLock;
use std::sync::atomic::{AtomicBool, Ordering};

verus! {

/// A mutual exclusion primitive guarding a value of type `T`.
///
/// The lock is a flag that `try_lock` sets when it is clear; the value sits
/// in a cell that only the holder of the flag opens.
#[verifier::reject_recursive_types(T)]
pub struct Mutex<T> {
    /// The guarded value.
    data: RwLock<T, spec_fn(T) -> bool>,
    /// Whether the lock is held.
    lock: AtomicBool,
}

/// Holds the lock of a `Mutex`; releases it when dropped.
#[verifier::reject_recursive_types(T)]
pub struct MutexGuard<'a, T> {
    mutex: &'a Mutex<T>,
}

impl<T> Mutex<T> {
    /// The value cell accepts every value.
    pub closed spec fn wf(&self) -> bool {
        self.data.pred() == (|v: T| true)
    }

    /// A mutex, unlocked, guarding `data`.
    pub fn new(data: T) -> (r: Self)
        ensures
            r.wf(),
    {
        let data = RwLock::new(data, Ghost(|v: T| true));
        let lock = AtomicBool::new(false);
        Mutex { data, lock }
    }

    /// Takes the lock if it is free; `None` while a guard holds it.
    pub fn try_lock(&self) -> (r: Option<MutexGuard<'_, T>>)
        ensures
            r matches Some(g) ==> g.mutex() == self,
    {
        match self.lock.compare_exchange(false, true, Ordering::Acquire, Ordering::Relaxed) {
            Ok(_) => Some(MutexGuard { mutex: self }),
            Err(_) => None,
        }
    }
}

impl<'a, T> MutexGuard<'a, T> {
    /// The mutex whose lock this guard holds.
    pub closed spec fn mutex(&self) -> &'a Mutex<T> {
        self.mutex
    }

    /// Puts `value` in the mutex and returns the value it held.
    pub fn replace(&mut self, value: T) -> (r: T)
        requires
            old(self).mutex().wf(),
        ensures
            final(self).mutex() == old(self).mutex(),
    {
        let (held, handle) = self.mutex.data.acquire_write();
        handle.release_write(value);
        held
    }
}

/// Relies on `AtomicBool::store`: it panics only for the orderings
/// `Acquire` and `AcqRel`, so a `Release` store returns normally, and it
/// touches nothing but the flag.
#[verifier::external_body]
fn release_flag(flag: &AtomicBool)
    opens_invariants none
    no_unwind
{
    flag.store(false, Ordering::Release)
}

impl<'a, T> Drop for MutexGuard<'a, T> {
    fn drop(&mut self)
        opens_invariants none
        no_unwind
    {
        release_flag(&self.mutex.lock);
    }
}

} // verus!
