//! A spinlock that can save the interrupt state while it is held.

use vstd::prelude::*;
use vstd::rwlock::{RwLock, RwLockPredicate, WriteHandle};

verus! {

/// No restriction on the protected value.
pub struct Any;

impl<T> RwLockPredicate<T> for Any {
    open spec fn inv(self, v: T) -> bool {
        true
    }
}

/// A spinlock.
///
/// Unfair (no ticket), suitable for the short critical sections of the frame
/// allocator. The value that it protects satisfies `P` whenever the lock is
/// free.
pub struct SpinLock<T, P: RwLockPredicate<T>> {
    inner: RwLock<T, P>,
}

/// Holds the lock, and the value that it protects.
///
/// The lock is released by [`SpinLockGuard::unlock`].
pub struct SpinLockGuard<'a, T, P: RwLockPredicate<T>> {
    value: T,
    handle: WriteHandle<'a, T, P>,
    irq: Option<u64>,
}

impl<T> SpinLock<T, Any> {
    /// A free lock around `value`.
    ///
    /// Every holder may leave any value in it, so nothing is known of the value
    /// that the next one finds. [`SpinLock::guarding`] makes a lock whose value
    /// keeps a rule.
    pub fn new(value: T) -> (r: SpinLock<T, Any>)
        ensures
            forall|v: T| #[trigger] r.allows(v),
    {
        SpinLock { inner: RwLock::new(value, Ghost(Any)) }
    }
}

impl<T, P: RwLockPredicate<T>> SpinLock<T, P> {
    /// What the protected value satisfies whenever the lock is free.
    pub closed spec fn rule(self) -> P {
        self.inner.pred()
    }

    /// True if the lock may protect `value`.
    pub open spec fn allows(self, value: T) -> bool {
        self.rule().inv(value)
    }

    /// A free lock around `value`, which satisfies `rule`.
    pub fn guarding(value: T, Ghost(rule): Ghost<P>) -> (r: SpinLock<T, P>)
        requires
            rule.inv(value),
        ensures
            r.rule() == rule,
    {
        SpinLock { inner: RwLock::new(value, Ghost(rule)) }
    }

    /// Acquire without touching interrupt state.
    ///
    /// Only for callers that already guarantee that this CPU cannot re-enter
    /// the critical section from an interrupt handler.
    pub fn lock(&self) -> (r: SpinLockGuard<'_, T, P>)
        ensures
            r.holds(*self),
            r.saved_irq() is None,
            self.allows(r.value()),
    {
        let (value, handle) = self.inner.acquire_write();
        SpinLockGuard { value, handle, irq: None }
    }

    /// Acquire with local interrupts disabled: `saved` is the interrupt state
    /// from before they were, which the guard hands back when it is unlocked.
    /// They are disabled before the lock is waited for, so that an interrupt
    /// on this CPU cannot re-enter the same lock.
    pub fn lock_irqsave(&self, saved: u64) -> (r: SpinLockGuard<'_, T, P>)
        ensures
            r.holds(*self),
            r.saved_irq() == Some(saved),
            self.allows(r.value()),
    {
        let (value, handle) = self.inner.acquire_write();
        SpinLockGuard { value, handle, irq: Some(saved) }
    }
}

impl<'a, T, P: RwLockPredicate<T>> SpinLockGuard<'a, T, P> {
    /// True if the guard holds `lock`.
    pub closed spec fn holds(self, lock: SpinLock<T, P>) -> bool {
        self.handle.rwlock() == lock.inner
    }

    /// The protected value.
    pub closed spec fn value(self) -> T {
        self.value
    }

    /// The interrupt state to restore when the lock is released.
    pub closed spec fn saved_irq(self) -> Option<u64> {
        self.irq
    }

    /// True if the guard's lock may protect `value`.
    pub closed spec fn allows(self, value: T) -> bool {
        self.handle.rwlock().inv(value)
    }

    /// A guard may release what the lock that it holds may protect.
    pub proof fn law_guard_follows_its_lock(self, lock: SpinLock<T, P>, value: T)
        requires
            self.holds(lock),
        ensures
            self.allows(value) == lock.allows(value),
    {
    }

    /// The protected value.
    pub fn get(&self) -> (r: &T)
        ensures
            *r == self.value(),
    {
        &self.value
    }

    /// The protected value, to be changed.
    pub fn get_mut(&mut self) -> (r: &mut T)
        ensures
            *r == old(self).value(),
            final(self).value() == *final(r),
            final(self).saved_irq() == old(self).saved_irq(),
            forall|v: T| #[trigger] final(self).allows(v) == old(self).allows(v),
    {
        &mut self.value
    }

    /// Release the lock, and return the interrupt state to restore.
    pub fn unlock(self) -> (r: Option<u64>)
        requires
            self.allows(self.value()),
        ensures
            r == self.saved_irq(),
    {
        let irq = self.irq;
        self.handle.release_write(self.value);
        irq
    }
}

} // verus!
