//! Reference counts that saturate instead of wrapping around.
//!
//! A count that would overflow, or that is used after it has reached zero, is set to
//! `REFCOUNT_SATURATED` and stays there: its object is leaked, but not freed while it is in use. The
//! functions give back the warning that goes with it.

use vstd::prelude::*;

use crate::atomic::AtomicWord;
#[allow(unused_imports)]
use crate::atomic::{fresh, Step, WordState};
use crate::lock::{
    HeldLock, mutex, mutex_lock, mutex_unlock, spin_lock, spin_lock_irqsave, spin_unlock,
    spin_unlock_irqrestore, spinlock_t, Interrupts,
};

verus! {

/// A counter.
#[allow(non_camel_case_types)]
pub struct atomic_t {
    pub counter: AtomicWord,
}

impl atomic_t {
    /// A counter with the value `i`.
    pub fn new(i: i32) -> (a: Self)
        ensures
            a.counter@ == fresh(i, Seq::empty()),
    {
        atomic_t { counter: AtomicWord::new(i) }
    }

    /// A counter that other processors write.
    pub fn contended(i: i32, others: Vec<Option<i32>>) -> (a: Self)
        ensures
            a.counter@ == fresh(i, others@),
    {
        atomic_t { counter: AtomicWord::contended(i, others) }
    }
}

/// A reference count.
#[allow(non_camel_case_types)]
pub struct refcount_t {
    pub refs: atomic_t,
}

impl View for refcount_t {
    type V = WordState;

    open spec fn view(&self) -> WordState {
        self.refs.counter@
    }
}

/// What a count saturates for.
#[allow(non_camel_case_types)]
pub type refcount_saturation_type = u32;

pub const REFCOUNT_ADD_NOT_ZERO_OVF: u32 = 0;

pub const REFCOUNT_ADD_OVF: u32 = 1;

pub const REFCOUNT_ADD_UAF: u32 = 2;

pub const REFCOUNT_SUB_UAF: u32 = 3;

pub const REFCOUNT_DEC_LEAK: u32 = 4;

/// The value of a count that has saturated: far from zero on both sides.
pub const REFCOUNT_SATURATED: i32 = -0x4000_0000;

/// The warning about a count.
#[derive(PartialEq, Eq, Structural, Clone, Copy, Debug)]
pub enum RefcountWarning {
    /// Saturated; leaking memory.
    AddNotZeroOvf,
    /// Saturated; leaking memory.
    AddOvf,
    /// Addition on 0; use-after-free.
    AddUaf,
    /// Underflow; use-after-free.
    SubUaf,
    /// Decrement hit 0; leaking memory.
    DecLeak,
    /// Unknown saturation event.
    Unknown,
    /// Underflow; use-after-free.
    DecNotOneUnderflow,
}

/// The warning that goes with an event.
pub open spec fn warning_of(t: u32) -> RefcountWarning {
    if t == REFCOUNT_ADD_NOT_ZERO_OVF {
        RefcountWarning::AddNotZeroOvf
    } else if t == REFCOUNT_ADD_OVF {
        RefcountWarning::AddOvf
    } else if t == REFCOUNT_ADD_UAF {
        RefcountWarning::AddUaf
    } else if t == REFCOUNT_SUB_UAF {
        RefcountWarning::SubUaf
    } else if t == REFCOUNT_DEC_LEAK {
        RefcountWarning::DecLeak
    } else {
        RefcountWarning::Unknown
    }
}

/// Saturates a count, and gives the warning about the event `t`.
pub fn refcount_warn_saturate(r: &mut refcount_t, t: u32) -> (warning: RefcountWarning)
    ensures
        final(r)@ == old(r)@.is_set(REFCOUNT_SATURATED),
        warning == warning_of(t),
{
    r.refs.counter.set(REFCOUNT_SATURATED);
    if t == REFCOUNT_ADD_NOT_ZERO_OVF {
        RefcountWarning::AddNotZeroOvf
    } else if t == REFCOUNT_ADD_OVF {
        RefcountWarning::AddOvf
    } else if t == REFCOUNT_ADD_UAF {
        RefcountWarning::AddUaf
    } else if t == REFCOUNT_SUB_UAF {
        RefcountWarning::SubUaf
    } else if t == REFCOUNT_DEC_LEAK {
        RefcountWarning::DecLeak
    } else {
        RefcountWarning::Unknown
    }
}

/// The value and the warning that adding `i` to `v` gives.
pub open spec fn added(v: i32, i: i32) -> (i32, Option<RefcountWarning>) {
    if v == 0 {
        (REFCOUNT_SATURATED, Some(RefcountWarning::AddUaf))
    } else if v < 0 || v.wrapping_add(i) < 0 {
        (REFCOUNT_SATURATED, Some(RefcountWarning::AddOvf))
    } else {
        (v.wrapping_add(i), None)
    }
}

/// What adding `i` comes to, from the state `w` on: the state, and the warning. A count that saturates
/// has been added to before.
pub open spec fn after_add(w: WordState, i: i32) -> (WordState, Option<RefcountWarning>) {
    let (v, warning) = added(w.now(), i);
    let sum = w.then_is(w.now().wrapping_add(i));
    if warning is Some {
        (sum.is_set(v), warning)
    } else {
        (sum, warning)
    }
}

/// What adding `i` unless the count is zero comes to, from the state `w` on: the state, the value that
/// was added to, and the warning.
pub open spec fn added_not_zero(w: WordState, i: i32) -> (WordState, i32, Option<RefcountWarning>)
    decreases w.others.len(),
{
    if w.v == 0 {
        (w, 0, None)
    } else if w.now() == w.v {
        if w.v < 0 || w.v.wrapping_add(i) < 0 {
            (
                w.then_is(w.v.wrapping_add(i)).is_set(REFCOUNT_SATURATED),
                w.v,
                Some(RefcountWarning::AddNotZeroOvf),
            )
        } else {
            (w.then_is(w.v.wrapping_add(i)), w.v, None)
        }
    } else if w.others.len() > 0 {
        added_not_zero(w.turned(), i)
    } else {
        (w, 0, None)
    }
}

/// The value and the warning that subtracting `i` from `v` gives, and whether the count has reached
/// zero.
pub open spec fn subtracted(v: i32, i: i32) -> (i32, bool, Option<RefcountWarning>) {
    if v > 0 && v == i {
        (0, true, None)
    } else if v <= 0 || v.wrapping_sub(i) < 0 {
        (REFCOUNT_SATURATED, false, Some(RefcountWarning::SubUaf))
    } else {
        (v.wrapping_sub(i), false, None)
    }
}

/// What subtracting `i` comes to, from the state `w` on, where `held` says whether a lock is held: the
/// state, whether the count has reached zero, and the warning.
pub open spec fn after_sub(w: WordState, i: i32, held: bool) -> (
    WordState,
    bool,
    Option<RefcountWarning>,
) {
    let (v, zero, warning) = subtracted(w.now(), i);
    let difference = w.turned().stepped(w.now().wrapping_sub(i), held);
    if warning is Some {
        (difference.is_set(v), zero, warning)
    } else {
        (difference, zero, warning)
    }
}

impl refcount_t {
    /// A count of `n`.
    pub fn new(n: i32) -> (r: Self)
        ensures
            r@ == fresh(n, Seq::empty()),
    {
        refcount_t { refs: atomic_t::new(n) }
    }

    /// A count that other processors write.
    pub fn contended(n: i32, others: Vec<Option<i32>>) -> (r: Self)
        ensures
            r@ == fresh(n, others@),
    {
        refcount_t { refs: atomic_t::contended(n, others) }
    }

    /// Sets the count.
    pub fn set(&mut self, n: i32)
        ensures
            final(self)@ == old(self)@.is_set(n),
    {
        self.refs.counter.set(n);
    }

    /// Reads the count.
    pub fn read(&self) -> (n: u32)
        ensures
            n == (self@.v as int) % 0x1_0000_0000,
    {
        unsigned(self.refs.counter.read())
    }

    /// Increments the count.
    pub fn inc(&mut self) -> (warning: Option<RefcountWarning>)
        ensures
            (final(self)@, warning) == after_add(old(self)@, 1),
    {
        let prior: i32 = self.refs.counter.fetch_add(1);
        if prior == 0 {
            Some(refcount_warn_saturate(self, REFCOUNT_ADD_UAF))
        } else if prior < 0 || prior.wrapping_add(1) < 0 {
            Some(refcount_warn_saturate(self, REFCOUNT_ADD_OVF))
        } else {
            None
        }
    }

    /// Increments the count unless it is 0, and says whether it did.
    pub fn inc_not_zero(&mut self) -> (r: (bool, Option<RefcountWarning>))
        ensures
            ({
                let (state, prior, w) = added_not_zero(old(self)@, 1);
                &&& final(self)@ == state
                &&& r.0 == (prior != 0)
                &&& r.1 == w
            }),
    {
        let mut prior: i32 = self.refs.counter.read();
        loop
            invariant_except_break
                prior == self@.v,
                added_not_zero(self@, 1) == added_not_zero(old(self)@, 1),
            ensures
                ({
                    let (state, p, w) = added_not_zero(old(self)@, 1);
                    &&& prior == p
                    &&& (w is Some) == (prior < 0 || prior.wrapping_add(1) < 0)
                    &&& w is Some ==> w == Some(RefcountWarning::AddNotZeroOvf) && state
                        == self@.is_set(REFCOUNT_SATURATED)
                    &&& w is None ==> state == self@
                }),
            decreases self@.others.len(),
        {
            if prior == 0 {
                break;
            }
            let new: i32 = prior.wrapping_add(1);
            if self.refs.counter.try_exchange(&mut prior, new) {
                break;
            }
        }
        if prior < 0 || prior.wrapping_add(1) < 0 {
            let warning: RefcountWarning = refcount_warn_saturate(self, REFCOUNT_ADD_NOT_ZERO_OVF);
            return (prior != 0, Some(warning));
        }
        (prior != 0, None)
    }

    /// Decrements the count, and says whether it is 0 then.
    pub fn dec_and_test(&mut self) -> (r: (bool, Option<RefcountWarning>))
        ensures
            (final(self)@, r.0, r.1) == after_sub(old(self)@, 1, false),
    {
        let prior: i32 = self.refs.counter.fetch_sub(1);
        self.decremented(prior)
    }

    /// Decrements the count with a lock held, and says whether it is 0 then.
    pub fn dec_and_test_held<L: HeldLock>(&mut self, lock: &L) -> (r: (
        bool,
        Option<RefcountWarning>,
    ))
        requires
            lock.is_held(),
        ensures
            (final(self)@, r.0, r.1) == after_sub(old(self)@, 1, true),
    {
        let prior: i32 = self.refs.counter.fetch_sub_held(1, lock);
        self.decremented(prior)
    }

    /// Tells whether a count that was `prior` before a decrement is 0 now, and saturates a count that
    /// must not have been decremented.
    fn decremented(&mut self, prior: i32) -> (r: (bool, Option<RefcountWarning>))
        ensures
            ({
                let (v, zero, w) = subtracted(prior, 1);
                &&& r == (zero, w)
                &&& final(self)@ == if w is Some {
                    old(self)@.is_set(v)
                } else {
                    old(self)@
                }
            }),
    {
        if prior > 0 && prior == 1 {
            return (true, None);
        }
        if prior <= 0 || prior.wrapping_sub(1) < 0 {
            let warning: RefcountWarning = refcount_warn_saturate(self, REFCOUNT_SUB_UAF);
            return (false, Some(warning));
        }
        (false, None)
    }
}

/// The value with wrap-around into the unsigned range.
fn unsigned(v: i32) -> (u: u32)
    ensures
        u == (v as int) % 0x1_0000_0000,
{
    if v >= 0 {
        v as u32
    } else {
        (v as i64 + 0x1_0000_0000) as u32
    }
}

/// Decrements a count if it is 1, and says whether it did.
pub fn refcount_dec_if_one(r: &mut refcount_t) -> (done: bool)
    ensures
        done == (old(r)@.now() == 1),
        final(r)@ == if done {
            old(r)@.then_is(0)
        } else {
            old(r)@.turned()
        },
{
    let mut val: i32 = 1;
    r.refs.counter.try_exchange(&mut val, 0)
}

/// What decrementing a count unless it is 1 comes to, from the state `w` on: the state, whether it
/// was not 1, and the warning.
pub open spec fn decremented_not_one(w: WordState) -> (WordState, bool, Option<RefcountWarning>)
    decreases w.others.len(),
{
    if w.v == REFCOUNT_SATURATED {
        (w, true, None)
    } else if w.v == 1 {
        (w, false, None)
    } else if w.v == 0 {
        (w, true, Some(RefcountWarning::DecNotOneUnderflow))
    } else if w.now() == w.v {
        (w.then_is(w.v.wrapping_sub(1)), true, None)
    } else if w.others.len() > 0 {
        decremented_not_one(w.turned())
    } else {
        (w, true, None)
    }
}

/// Decrements a count unless it is 1, and says whether it was not.
pub fn refcount_dec_not_one(r: &mut refcount_t) -> (out: (bool, Option<RefcountWarning>))
    ensures
        ({
            let (state, done, w) = decremented_not_one(old(r)@);
            &&& final(r)@ == state
            &&& out == (done, w)
        }),
{
    let mut val: i32 = r.refs.counter.read();
    loop
        invariant
            val == r@.v,
            decremented_not_one(r@) == decremented_not_one(old(r)@),
        decreases r@.others.len(),
    {
        if val == REFCOUNT_SATURATED {
            return (true, None);
        }
        if val == 1 {
            return (false, None);
        }
        if val == 0 {
            // The count would wrap around.
            return (true, Some(RefcountWarning::DecNotOneUnderflow));
        }
        let new: i32 = val.wrapping_sub(1);
        if r.refs.counter.try_exchange(&mut val, new) {
            return (true, None);
        }
    }
}

/// What decrementing a count comes to for a caller that takes a lock where the count reaches zero:
/// the state, whether it has reached zero, and the warning. The lock is held for the decrement that may
/// reach zero.
pub open spec fn decremented_and_locked(w: WordState) -> (
    WordState,
    bool,
    Option<RefcountWarning>,
) {
    let (state, done, warning) = decremented_not_one(w);
    if done {
        (state, false, warning)
    } else {
        after_sub(state, 1, true)
    }
}

/// Decrements a count, and returns holding the mutex if the count has reached zero.
pub fn refcount_dec_and_mutex_lock(r: &mut refcount_t, lock: &mut mutex) -> (out: (
    bool,
    Option<RefcountWarning>,
))
    requires
        !old(lock).locked,
    ensures
        ({
            let (state, zero, w) = decremented_and_locked(old(r)@);
            &&& final(r)@ == state
            &&& out == (zero, w)
        }),
        final(lock).locked == out.0,
        out.0 ==> final(r)@.last_step() == (Step { v: 0, held: true }),
{
    let (done, warning): (bool, Option<RefcountWarning>) = refcount_dec_not_one(r);
    if done {
        return (false, warning);
    }
    mutex_lock(lock);
    let (zero, warning): (bool, Option<RefcountWarning>) = r.dec_and_test_held(&*lock);
    if !zero {
        mutex_unlock(lock);
        return (false, warning);
    }
    (true, warning)
}

/// Decrements a count, and returns holding the spinlock if the count has reached zero.
pub fn refcount_dec_and_lock(r: &mut refcount_t, lock: &mut spinlock_t) -> (out: (
    bool,
    Option<RefcountWarning>,
))
    requires
        !old(lock).locked,
    ensures
        ({
            let (state, zero, w) = decremented_and_locked(old(r)@);
            &&& final(r)@ == state
            &&& out == (zero, w)
        }),
        final(lock).locked == out.0,
        out.0 ==> final(r)@.last_step() == (Step { v: 0, held: true }),
{
    let (done, warning): (bool, Option<RefcountWarning>) = refcount_dec_not_one(r);
    if done {
        return (false, warning);
    }
    spin_lock(lock);
    let (zero, warning): (bool, Option<RefcountWarning>) = r.dec_and_test_held(&*lock);
    if !zero {
        spin_unlock(lock);
        return (false, warning);
    }
    (true, warning)
}

/// Decrements a count, and returns holding the spinlock, with interrupts disabled, if the count has
/// reached zero.
pub fn refcount_dec_and_lock_irqsave(
    r: &mut refcount_t,
    lock: &mut spinlock_t,
    irq: &mut Interrupts,
    flags: &mut bool,
) -> (out: (bool, Option<RefcountWarning>))
    requires
        !old(lock).locked,
    ensures
        ({
            let (state, zero, w) = decremented_and_locked(old(r)@);
            &&& final(r)@ == state
            &&& out == (zero, w)
        }),
        final(lock).locked == out.0,
        out.0 ==> final(r)@.last_step() == (Step { v: 0, held: true }),
        out.0 ==> !final(irq).enabled && *final(flags) == old(irq).enabled,
        !out.0 ==> final(irq).enabled == old(irq).enabled,
{
    let (done, warning): (bool, Option<RefcountWarning>) = refcount_dec_not_one(r);
    if done {
        return (false, warning);
    }
    spin_lock_irqsave(lock, irq, flags);
    let (zero, warning): (bool, Option<RefcountWarning>) = r.dec_and_test_held(&*lock);
    if !zero {
        spin_unlock_irqrestore(lock, irq, *flags);
        return (false, warning);
    }
    (true, warning)
}

/// A count that has saturated stays saturated, and never reaches zero.
pub proof fn law_saturated_stays(others: Seq<Option<i32>>)
    ensures
        added(REFCOUNT_SATURATED, 1).0 == REFCOUNT_SATURATED,
        subtracted(REFCOUNT_SATURATED, 1).0 == REFCOUNT_SATURATED,
        !subtracted(REFCOUNT_SATURATED, 1).1,
        ({
            let w = fresh(REFCOUNT_SATURATED, others);
            decremented_not_one(w) == (w, true, None::<RefcountWarning>)
        }),
{
}

/// A reference that is taken and put again leaves a count as it was.
pub proof fn law_put_undoes_get(v: i32)
    requires
        0 < v < 0x7fff_ffff,
    ensures
        added(v, 1) == ((v + 1) as i32, None::<RefcountWarning>),
        subtracted(added(v, 1).0, 1) == (v, false, None::<RefcountWarning>),
{
}

/// A count never wraps around: an increment makes it larger by one or saturates it, and a decrement
/// makes it smaller by one or saturates it.
pub proof fn law_no_wrap_around(v: i32)
    ensures
        added(v, 1).0 == v + 1 || added(v, 1).0 == REFCOUNT_SATURATED,
        subtracted(v, 1).0 == v - 1 || subtracted(v, 1).0 == REFCOUNT_SATURATED,
        added(v, 1).1 is Some <==> added(v, 1).0 == REFCOUNT_SATURATED,
{
}

/// A count of zero is not taken up again, whatever the other processors do later.
pub proof fn law_zero_is_not_taken_up(others: Seq<Option<i32>>)
    ensures
        ({
            let w = fresh(0, others);
            added_not_zero(w, 1) == (w, 0i32, None::<RefcountWarning>)
        }),
{
}

/// The lock is taken only for a count that has reached zero: whoever gets it has put the last
/// reference.
pub proof fn law_locked_means_zero(w: WordState)
    ensures
        decremented_and_locked(w).1 ==> decremented_and_locked(w).0.v == 0
            && decremented_and_locked(w).2 is None,
{
}

proof fn lemma_not_one_steps(w: WordState)
    ensures
        w.steps.len() <= decremented_not_one(w).0.steps.len(),
    decreases w.others.len(),
{
    if w.v != 1 && w.v != 0 && w.v != REFCOUNT_SATURATED && w.now() != w.v && w.others.len() > 0 {
        lemma_not_one_steps(w.turned());
    }
}

proof fn lemma_not_one(w: WordState, i: int)
    requires
        w.steps.len() <= i < decremented_not_one(w).0.steps.len(),
    ensures
        decremented_not_one(w).0.steps[i].v != 0,
    decreases w.others.len(),
{
    if w.v != 1 && w.v != 0 && w.v != REFCOUNT_SATURATED && w.now() != w.v && w.others.len() > 0 {
        lemma_not_one(w.turned(), i);
    }
}

/// The count never becomes zero without the lock, so that nobody who holds the lock finds an object
/// whose last reference another processor has put.
pub proof fn law_zero_needs_the_lock(w: WordState, i: int)
    requires
        w.steps.len() <= i < decremented_and_locked(w).0.steps.len(),
        decremented_and_locked(w).0.steps[i].v == 0,
    ensures
        decremented_and_locked(w).0.steps[i].held,
{
    lemma_not_one_steps(w);
    if i < decremented_not_one(w).0.steps.len() {
        lemma_not_one(w, i);
    }
}

/// An increment of a positive count adds one, as long as the result fits; at the largest count and on a
/// count that has saturated it saturates with one warning, and on zero with another.
pub proof fn law_increment(v: i32)
    ensures
        0 < v < 0x7fff_ffff ==> added(v, 1) == ((v + 1) as i32, None::<RefcountWarning>),
        v == 0x7fff_ffff || v < 0 ==> added(v, 1) == (
            -0x4000_0000i32,
            Some(RefcountWarning::AddOvf),
        ),
        v == 0 ==> added(v, 1) == (-0x4000_0000i32, Some(RefcountWarning::AddUaf)),
{
}

/// A decrement of a count of more than one takes one away, and one of the count one reaches zero; on any
/// other count it saturates with a warning, and does not report zero.
pub proof fn law_decrement(v: i32)
    ensures
        v > 1 ==> subtracted(v, 1) == ((v - 1) as i32, false, None::<RefcountWarning>),
        v == 1 ==> subtracted(v, 1) == (0i32, true, None::<RefcountWarning>),
        v <= 0 ==> subtracted(v, 1) == (
            -0x4000_0000i32,
            false,
            Some(RefcountWarning::SubUaf),
        ),
{
}

/// The operations act on the value that the count has after the turn of the other processors.
pub proof fn law_operations_act_on_the_latest_value(w: WordState, held: bool)
    ensures
        after_add(w, 1).0.v == added(w.now(), 1).0,
        after_add(w, 1).1 == added(w.now(), 1).1,
        after_sub(w, 1, held).0.v == subtracted(w.now(), 1).0,
        after_sub(w, 1, held).1 == subtracted(w.now(), 1).1,
        after_sub(w, 1, held).2 == subtracted(w.now(), 1).2,
        after_add(w, 1).0.others == w.turned().others,
        after_sub(w, 1, held).0.others == w.turned().others,
{
}

/// An increment unless the count is zero: undisturbed it is an increment, but of another warning, and
/// gives the value before. A count that has changed is looked at again.
pub proof fn law_increment_not_zero(w: WordState)
    ensures
        w.v != 0 && w.now() == w.v ==> {
            let (state, prior, warning) = added_not_zero(w, 1);
            &&& prior == w.v
            &&& 0 < w.v < 0x7fff_ffff ==> state.v == w.v + 1 && warning is None
            &&& w.v == 0x7fff_ffff || w.v < 0 ==> state.v == -0x4000_0000 && warning == Some(
                RefcountWarning::AddNotZeroOvf,
            )
            &&& state.others == w.turned().others
        },
        w.v != 0 && w.now() != w.v ==> added_not_zero(w, 1) == added_not_zero(w.turned(), 1),
        w.v == 0 ==> added_not_zero(w, 1) == (w, 0i32, None::<RefcountWarning>),
{
}

/// A decrement unless the count is one: it says `true` unless it finds a one, which it leaves alone, as
/// it does a count that has saturated, and zero, which is an underflow. A count that has changed is
/// looked at again.
pub proof fn law_decrement_not_one(w: WordState)
    ensures
        w.v == 1 ==> decremented_not_one(w) == (w, false, None::<RefcountWarning>),
        w.v == -0x4000_0000 ==> decremented_not_one(w) == (w, true, None::<RefcountWarning>),
        w.v == 0 ==> decremented_not_one(w) == (
            w,
            true,
            Some(RefcountWarning::DecNotOneUnderflow),
        ),
        w.v != 1 && w.v != 0 && w.v != -0x4000_0000 && w.now() == w.v ==> {
            let (state, done, warning) = decremented_not_one(w);
            &&& w.v > 1 ==> state.v == w.v - 1
            &&& state.others == w.turned().others
            &&& done && warning is None
        },
        w.v != 1 && w.v != 0 && w.v != -0x4000_0000 && w.now() != w.v ==> decremented_not_one(w)
            == decremented_not_one(w.turned()),
{
}

/// A decrement that takes a lock at zero: without other processors it takes one away, and reports zero
/// exactly for the last reference. Where another reference is taken while it waits for the lock, it
/// takes one away and does not report zero.
pub proof fn law_decrement_and_lock(w: WordState, v: i32, other: i32)
    requires
        w.v == v,
        v >= 1,
    ensures
        w.others.len() == 0 ==> {
            let (state, zero, warning) = decremented_and_locked(w);
            state.v == v - 1 && zero == (v == 1) && warning is None
        },
        v == 1 && other > 1 && w.others.len() > 0 && w.others[0] == Some(other) ==> {
            let (state, zero, warning) = decremented_and_locked(w);
            state.v == other - 1 && !zero && warning is None
        },
{
}

/// The warning of each event, by its number.
pub proof fn law_warnings(t: u32)
    ensures
        warning_of(0) == RefcountWarning::AddNotZeroOvf,
        warning_of(1) == RefcountWarning::AddOvf,
        warning_of(2) == RefcountWarning::AddUaf,
        warning_of(3) == RefcountWarning::SubUaf,
        warning_of(4) == RefcountWarning::DecLeak,
        t > 4 ==> warning_of(t) == RefcountWarning::Unknown,
{
}

/// A reference that is taken and put again leaves the count as it was, without a warning; the last
/// reference that is put says so.
pub proof fn law_inc_then_dec(
    inc: &mut refcount_t,
    warning: Option<RefcountWarning>,
    dec: &mut refcount_t,
    r: (bool, Option<RefcountWarning>),
    last: &mut refcount_t,
    q: (bool, Option<RefcountWarning>),
)
    requires
        0 < old(inc)@.v < 0x7fff_ffff,
        old(inc)@.others.len() == 0,
        call_ensures(refcount_t::inc, (inc,), warning),
        *old(dec) == *final(inc),
        call_ensures(refcount_t::dec_and_test, (dec,), r),
        *old(last) == *final(dec),
        call_ensures(refcount_t::dec_and_test, (last,), q),
    ensures
        warning is None,
        final(inc)@.v == old(inc)@.v + 1,
        r == (false, None::<RefcountWarning>),
        final(dec)@.v == old(inc)@.v,
        q == (old(inc)@.v == 1, None::<RefcountWarning>),
        final(last)@.v == old(inc)@.v - 1,
{
}

/// A count is not taken up from zero, with or without a test for it: without one it saturates, with a
/// warning.
pub proof fn law_zero_is_dead(
    inc: &mut refcount_t,
    warning: Option<RefcountWarning>,
    inc_not_zero: &mut refcount_t,
    r: (bool, Option<RefcountWarning>),
)
    requires
        old(inc)@.v == 0,
        old(inc)@.others.len() == 0,
        call_ensures(refcount_t::inc, (inc,), warning),
        old(inc_not_zero)@.v == 0,
        call_ensures(refcount_t::inc_not_zero, (inc_not_zero,), r),
    ensures
        warning == Some(RefcountWarning::AddUaf),
        final(inc)@.v == -0x4000_0000,
        r == (false, None::<RefcountWarning>),
        final(inc_not_zero)@ == old(inc_not_zero)@,
{
}

/// The lock is held exactly if the last reference was put, with each of the locks alike.
pub proof fn law_last_reference_is_put_with_the_lock(
    a: &mut refcount_t,
    m: &mut mutex,
    ra: (bool, Option<RefcountWarning>),
    b: &mut refcount_t,
    l: &mut spinlock_t,
    rb: (bool, Option<RefcountWarning>),
)
    requires
        old(a)@ == old(b)@,
        old(a)@.v >= 1,
        old(a)@.others.len() == 0,
        call_ensures(refcount_dec_and_mutex_lock, (a, m), ra),
        call_ensures(refcount_dec_and_lock, (b, l), rb),
    ensures
        ra == rb,
        ra.0 == (old(a)@.v == 1),
        ra.1 is None,
        final(m).locked == ra.0,
        final(l).locked == ra.0,
        final(a)@.v == old(a)@.v - 1,
        final(b)@.v == old(a)@.v - 1,
{
    law_decrement_and_lock(old(a)@, old(a)@.v, 0);
}

/// Decrementing only if the count is one, and unless it is one, complement each other.
pub proof fn law_if_one_and_not_one(
    a: &mut refcount_t,
    done: bool,
    b: &mut refcount_t,
    r: (bool, Option<RefcountWarning>),
)
    requires
        old(a)@ == old(b)@,
        old(a)@.v >= 1,
        old(a)@.others.len() == 0,
        call_ensures(refcount_dec_if_one, (a,), done),
        call_ensures(refcount_dec_not_one, (b,), r),
    ensures
        done == (old(a)@.v == 1),
        r == (!done, None::<RefcountWarning>),
        final(a)@.v == if done {
            0
        } else {
            old(a)@.v as int
        },
        final(b)@.v == if done {
            1
        } else {
            old(a)@.v - 1
        },
{
}

/// What is set is read; a count that is saturated for an event is far below zero, and the warning is that
/// of the event.
pub proof fn law_set_then_read(
    set: &mut refcount_t,
    n: i32,
    r: &refcount_t,
    read: u32,
    sat: &mut refcount_t,
    t: u32,
    warning: RefcountWarning,
)
    requires
        n >= 0,
        call_ensures(refcount_t::set, (set, n), ()),
        *r == *final(set),
        call_ensures(refcount_t::read, (r,), read),
        call_ensures(refcount_warn_saturate, (sat, t), warning),
    ensures
        read == n,
        final(sat)@.v == -0x4000_0000,
        warning == warning_of(t),
{
}

} // verus!
