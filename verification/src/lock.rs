//! Locks, as far as the reference counts use them.
//!
//! A processor that takes a lock waits until it is free, so the lock is free when it gets it. A
//! processor must not take a lock that it holds.

use vstd::prelude::*;

verus! {

/// A spinlock.
#[allow(non_camel_case_types)]
pub struct spinlock_t {
    /// Whether this processor holds it.
    pub locked: bool,
}

/// A spinlock that is never preempted.
#[allow(non_camel_case_types)]
pub struct raw_spinlock_t {
    /// Whether this processor holds it.
    pub locked: bool,
}

/// A mutex.
#[allow(non_camel_case_types)]
pub struct mutex {
    /// Whether its taker holds it.
    pub locked: bool,
}

/// A lock that one can hold.
pub trait HeldLock {
    /// Whether the lock is held.
    spec fn is_held(&self) -> bool;
}

impl HeldLock for spinlock_t {
    open spec fn is_held(&self) -> bool {
        self.locked
    }
}

impl HeldLock for raw_spinlock_t {
    open spec fn is_held(&self) -> bool {
        self.locked
    }
}

impl HeldLock for mutex {
    open spec fn is_held(&self) -> bool {
        self.locked
    }
}

/// The interrupts of this processor.
pub struct Interrupts {
    pub enabled: bool,
}

/// Takes a spinlock.
pub fn spin_lock(lock: &mut spinlock_t)
    requires
        !old(lock).locked,
    ensures
        final(lock).locked,
{
    lock.locked = true;
}

/// Gives a spinlock back.
pub fn spin_unlock(lock: &mut spinlock_t)
    requires
        old(lock).locked,
    ensures
        !final(lock).locked,
{
    lock.locked = false;
}

/// Disables interrupts, saves whether they were enabled, and takes a spinlock.
pub fn spin_lock_irqsave(lock: &mut spinlock_t, irq: &mut Interrupts, flags: &mut bool)
    requires
        !old(lock).locked,
    ensures
        final(lock).locked,
        !final(irq).enabled,
        *final(flags) == old(irq).enabled,
{
    *flags = irq.enabled;
    irq.enabled = false;
    lock.locked = true;
}

/// Gives a spinlock back, and restores interrupts.
pub fn spin_unlock_irqrestore(lock: &mut spinlock_t, irq: &mut Interrupts, flags: bool)
    requires
        old(lock).locked,
    ensures
        !final(lock).locked,
        final(irq).enabled == flags,
{
    lock.locked = false;
    irq.enabled = flags;
}

/// Takes a raw spinlock.
pub fn raw_spin_lock(lock: &mut raw_spinlock_t)
    requires
        !old(lock).locked,
    ensures
        final(lock).locked,
{
    lock.locked = true;
}

/// Gives a raw spinlock back.
pub fn raw_spin_unlock(lock: &mut raw_spinlock_t)
    requires
        old(lock).locked,
    ensures
        !final(lock).locked,
{
    lock.locked = false;
}

/// Disables interrupts, saves whether they were enabled, and takes a raw spinlock.
pub fn raw_spin_lock_irqsave(lock: &mut raw_spinlock_t, irq: &mut Interrupts, flags: &mut bool)
    requires
        !old(lock).locked,
    ensures
        final(lock).locked,
        !final(irq).enabled,
        *final(flags) == old(irq).enabled,
{
    *flags = irq.enabled;
    irq.enabled = false;
    lock.locked = true;
}

/// Gives a raw spinlock back, and restores interrupts.
pub fn raw_spin_unlock_irqrestore(lock: &mut raw_spinlock_t, irq: &mut Interrupts, flags: bool)
    requires
        old(lock).locked,
    ensures
        !final(lock).locked,
        final(irq).enabled == flags,
{
    lock.locked = false;
    irq.enabled = flags;
}

/// Takes a mutex.
pub fn mutex_lock(lock: &mut mutex)
    requires
        !old(lock).locked,
    ensures
        final(lock).locked,
{
    lock.locked = true;
}

/// Gives a mutex back.
pub fn mutex_unlock(lock: &mut mutex)
    requires
        old(lock).locked,
    ensures
        !final(lock).locked,
{
    lock.locked = false;
}

} // verus!
