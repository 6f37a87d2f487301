//! Decrements a reference count, and returns locked if it has reached zero.
//!
//! The decrement to zero is made with the lock held. To decrement first and to take the lock then
//! would let another processor find the object in between.

use vstd::prelude::*;

use crate::atomic::AtomicWord;
#[allow(unused_imports)]
use crate::atomic::{fresh, Step, WordState};
use crate::lock::{
    HeldLock, raw_spin_lock, raw_spin_lock_irqsave, raw_spin_unlock, raw_spin_unlock_irqrestore,
    raw_spinlock_t, spin_lock, spin_lock_irqsave, spin_unlock, spin_unlock_irqrestore, spinlock_t,
    Interrupts,
};
use crate::refcount::atomic_t;

verus! {

/// What adding `a` unless the value is `u` comes to, from the state `w` on: the state, and the value
/// before.
pub open spec fn added_unless(w: WordState, a: i32, u: i32) -> (WordState, i32)
    decreases w.others.len(),
{
    if w.v == u {
        (w, u)
    } else if w.now() == w.v {
        (w.then_is(w.v.wrapping_add(a)), w.v)
    } else if w.others.len() > 0 {
        added_unless(w.turned(), a, u)
    } else {
        (w, u)
    }
}

/// Adds `a` unless the value is `u`, and gives the value before.
pub fn fetch_add_unless(v: &mut AtomicWord, a: i32, u: i32) -> (prior: i32)
    ensures
        (final(v)@, prior) == added_unless(old(v)@, a, u),
{
    let mut c: i32 = v.read();
    loop
        invariant
            c == v@.v,
            added_unless(v@, a, u) == added_unless(old(v)@, a, u),
        decreases v@.others.len(),
    {
        if c == u {
            return c;
        }
        let new: i32 = c.wrapping_add(a);
        if v.try_exchange(&mut c, new) {
            return c;
        }
    }
}

/// Adds `a` unless the value is `u`, and says whether it did.
pub fn add_unless(v: &mut AtomicWord, a: i32, u: i32) -> (done: bool)
    ensures
        final(v)@ == added_unless(old(v)@, a, u).0,
        done == (added_unless(old(v)@, a, u).1 != u),
{
    fetch_add_unless(v, a, u) != u
}

/// Decrements, and says whether the result is zero.
pub fn dec_and_test(v: &mut AtomicWord) -> (zero: bool)
    ensures
        zero == (old(v)@.now() == 1),
        final(v)@ == old(v)@.then_is(old(v)@.now().wrapping_sub(1)),
{
    v.fetch_sub(1) == 1
}

/// Decrements with a lock held, and says whether the result is zero.
pub fn dec_and_test_held<L: HeldLock>(v: &mut AtomicWord, lock: &L) -> (zero: bool)
    requires
        lock.is_held(),
    ensures
        zero == (old(v)@.now() == 1),
        final(v)@ == old(v)@.then_held(old(v)@.now().wrapping_sub(1)),
{
    v.fetch_sub_held(1, lock) == 1
}

/// What decrementing comes to for a caller that takes a lock where zero is reached: the state, and
/// whether it is. The lock is held for the decrement that may reach zero.
pub open spec fn dec_locked(w: WordState) -> (WordState, bool) {
    let (state, prior) = added_unless(w, -1i32, 1);
    if prior != 1 {
        (state, false)
    } else {
        (state.then_held(state.now().wrapping_sub(1)), state.now() == 1)
    }
}

/// Whoever gets the lock has decremented the count to zero.
pub proof fn law_locked_means_zero(w: WordState)
    ensures
        dec_locked(w).1 ==> dec_locked(w).0.v == 0,
{
}

proof fn lemma_added_unless(w: WordState, i: int)
    requires
        w.steps.len() <= i < added_unless(w, -1i32, 1).0.steps.len(),
    ensures
        added_unless(w, -1i32, 1).0.steps[i].v != 0,
    decreases w.others.len(),
{
    if w.v != 1 && w.now() != w.v && w.others.len() > 0 {
        lemma_added_unless(w.turned(), i);
    }
}

proof fn lemma_added_unless_steps(w: WordState, a: i32, u: i32)
    ensures
        w.steps.len() <= added_unless(w, a, u).0.steps.len(),
    decreases w.others.len(),
{
    if w.v != u && w.now() != w.v && w.others.len() > 0 {
        lemma_added_unless_steps(w.turned(), a, u);
    }
}

/// The count never becomes zero without the lock, so that nobody who holds the lock finds an object
/// whose count another processor has taken to zero.
pub proof fn law_zero_needs_the_lock(w: WordState, i: int)
    requires
        w.steps.len() <= i < dec_locked(w).0.steps.len(),
        dec_locked(w).0.steps[i].v == 0,
    ensures
        dec_locked(w).0.steps[i].held,
{
    lemma_added_unless_steps(w, -1i32, 1);
    if i < added_unless(w, -1i32, 1).0.steps.len() {
        lemma_added_unless(w, i);
    }
}

/// Without other processors the count is one less, and the lock is taken exactly if it is zero.
pub proof fn law_undisturbed(v: i32)
    ensures
        ({
            let w = fresh(v, Seq::empty());
            &&& dec_locked(w).0.v == v.wrapping_sub(1)
            &&& dec_locked(w).1 == (v == 1)
        }),
{
    reveal_with_fuel(added_unless, 2);
}

/// Decrements a count, and takes the lock if it has reached zero.
pub fn atomic_dec_and_lock(atomic: &mut atomic_t, lock: &mut spinlock_t) -> (zero: i32)
    requires
        !old(lock).locked,
    ensures
        final(atomic).counter@ == dec_locked(old(atomic).counter@).0,
        zero == (if dec_locked(old(atomic).counter@).1 {
            1int
        } else {
            0
        }),
        final(lock).locked == (zero == 1),
        zero == 1 ==> final(atomic).counter@.last_step() == (Step { v: 0, held: true }),
{
    // Not to zero, so without the lock.
    if add_unless(&mut atomic.counter, -1, 1) {
        return 0;
    }
    spin_lock(lock);
    if dec_and_test_held(&mut atomic.counter, &*lock) {
        return 1;
    }
    spin_unlock(lock);
    0
}

/// Decrements a count, and takes the lock, with interrupts disabled, if it has reached zero.
pub fn _atomic_dec_and_lock_irqsave(
    atomic: &mut atomic_t,
    lock: &mut spinlock_t,
    irq: &mut Interrupts,
    flags: &mut bool,
) -> (zero: i32)
    requires
        !old(lock).locked,
    ensures
        final(atomic).counter@ == dec_locked(old(atomic).counter@).0,
        zero == (if dec_locked(old(atomic).counter@).1 {
            1int
        } else {
            0
        }),
        final(lock).locked == (zero == 1),
        zero == 1 ==> final(atomic).counter@.last_step() == (Step { v: 0, held: true }),
        zero == 1 ==> !final(irq).enabled && *final(flags) == old(irq).enabled,
        zero == 0 ==> final(irq).enabled == old(irq).enabled,
{
    if add_unless(&mut atomic.counter, -1, 1) {
        return 0;
    }
    spin_lock_irqsave(lock, irq, flags);
    if dec_and_test_held(&mut atomic.counter, &*lock) {
        return 1;
    }
    spin_unlock_irqrestore(lock, irq, *flags);
    0
}

/// Decrements a count, and takes the raw lock if it has reached zero.
pub fn atomic_dec_and_raw_lock(atomic: &mut atomic_t, lock: &mut raw_spinlock_t) -> (zero: i32)
    requires
        !old(lock).locked,
    ensures
        final(atomic).counter@ == dec_locked(old(atomic).counter@).0,
        zero == (if dec_locked(old(atomic).counter@).1 {
            1int
        } else {
            0
        }),
        final(lock).locked == (zero == 1),
        zero == 1 ==> final(atomic).counter@.last_step() == (Step { v: 0, held: true }),
{
    if add_unless(&mut atomic.counter, -1, 1) {
        return 0;
    }
    raw_spin_lock(lock);
    if dec_and_test_held(&mut atomic.counter, &*lock) {
        return 1;
    }
    raw_spin_unlock(lock);
    0
}

/// Decrements a count, and takes the raw lock, with interrupts disabled, if it has reached zero.
pub fn _atomic_dec_and_raw_lock_irqsave(
    atomic: &mut atomic_t,
    lock: &mut raw_spinlock_t,
    irq: &mut Interrupts,
    flags: &mut bool,
) -> (zero: i32)
    requires
        !old(lock).locked,
    ensures
        final(atomic).counter@ == dec_locked(old(atomic).counter@).0,
        zero == (if dec_locked(old(atomic).counter@).1 {
            1int
        } else {
            0
        }),
        final(lock).locked == (zero == 1),
        zero == 1 ==> final(atomic).counter@.last_step() == (Step { v: 0, held: true }),
        zero == 1 ==> !final(irq).enabled && *final(flags) == old(irq).enabled,
        zero == 0 ==> final(irq).enabled == old(irq).enabled,
{
    if add_unless(&mut atomic.counter, -1, 1) {
        return 0;
    }
    raw_spin_lock_irqsave(lock, irq, flags);
    if dec_and_test_held(&mut atomic.counter, &*lock) {
        return 1;
    }
    raw_spin_unlock_irqrestore(lock, irq, *flags);
    0
}

/// An addition unless the value is `u`: undisturbed it adds, with wrap-around, and gives the value
/// before; at `u` nothing changes. A value that has changed is looked at again.
pub proof fn law_add_unless(w: WordState, a: i32, u: i32)
    ensures
        w.v == u ==> added_unless(w, a, u) == (w, u),
        w.v != u && w.now() == w.v ==> {
            let (state, prior) = added_unless(w, a, u);
            &&& prior == w.v
            &&& state.v == w.v.wrapping_add(a)
            &&& state.others == w.turned().others
        },
        w.v != u && w.now() != w.v ==> added_unless(w, a, u) == added_unless(w.turned(), a, u),
{
}

/// Where another processor writes the count while the lock is waited for, one is taken from what it
/// wrote, and zero is reported exactly if that was one.
pub proof fn law_disturbed(w: WordState, other: i32)
    requires
        w.v == 1,
        w.others.len() > 0,
        w.others[0] == Some(other),
    ensures
        dec_locked(w).0.v == other.wrapping_sub(1),
        dec_locked(w).1 == (other == 1),
        dec_locked(w).0.last_step().held,
{
}

/// Without other processors a decrement takes one away, and holds the lock exactly if zero is reached,
/// with each of the locks alike.
pub proof fn law_decrements_and_locks(
    a: &mut atomic_t,
    l: &mut spinlock_t,
    za: i32,
    b: &mut atomic_t,
    raw: &mut raw_spinlock_t,
    zb: i32,
)
    requires
        old(a).counter@ == old(b).counter@,
        old(a).counter@.others.len() == 0,
        old(a).counter@.v > i32::MIN,
        call_ensures(atomic_dec_and_lock, (a, l), za),
        call_ensures(atomic_dec_and_raw_lock, (b, raw), zb),
    ensures
        za == (if old(a).counter@.v == 1 {
            1int
        } else {
            0
        }),
        zb == za,
        final(l).locked == (za == 1),
        final(raw).locked == (za == 1),
        final(a).counter@.v == old(a).counter@.v - 1,
        final(b).counter@.v == old(a).counter@.v - 1,
{
}

} // verus!
