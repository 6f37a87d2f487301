//! Objects with a reference count.
//!
//! A [`KRef`] is one counted reference to an object that holds a [`Kref`]. Objects are numbered, and a
//! reference holds the number of its object. Others may hold references too, so that a reference says
//! nothing about how many there are. When the last one is put, the object is released.

use vstd::prelude::*;

#[allow(unused_imports)]
use crate::atomic::{fresh, WordState};
use crate::llist::{HasLlistNode, ListItem};
use crate::lock::{mutex, mutex_unlock, spin_unlock, spinlock_t, HeldLock};
#[allow(unused_imports)]
use crate::refcount::{added_not_zero, after_add, after_sub, decremented_and_locked, subtracted};
use crate::refcount::{
    refcount_dec_and_lock, refcount_dec_and_mutex_lock, refcount_t, RefcountWarning,
};

verus! {

/// The count of an object.
pub struct Kref {
    refcount: refcount_t,
}

impl View for Kref {
    type V = WordState;

    closed spec fn view(&self) -> WordState {
        self.refcount@
    }
}

impl Kref {
    /// The count of a new object: one reference.
    pub fn new() -> (k: Self)
        ensures
            k@ == fresh(1, Seq::empty()),
    {
        Kref { refcount: refcount_t::new(1) }
    }

    /// A count that other processors change.
    pub fn contended(n: i32, others: Vec<Option<i32>>) -> (k: Self)
        ensures
            k@ == fresh(n, others@),
    {
        Kref { refcount: refcount_t::contended(n, others) }
    }

    /// Reads the count.
    pub fn read(&self) -> (n: u32)
        ensures
            n == (self@.v as int) % 0x1_0000_0000,
    {
        self.refcount.read()
    }
}

/// An object that holds the count of the references to it.
pub trait KrefCounted: Sized {
    type Rest;

    /// The number of the object.
    spec fn number(&self) -> usize;

    /// The count.
    spec fn counted(&self) -> Kref;

    /// Whether the object has been released.
    spec fn is_released(&self) -> bool;

    /// Whether the object has been released beside the lock under which it was unlinked, after the lock
    /// had been given back.
    spec fn is_released_unlocked(&self) -> bool;

    /// The rest of the object: all but its number, its count and whether it has been released.
    spec fn rest(&self) -> Self::Rest;

    /// Gives the number of the object.
    fn index(&self) -> (n: usize)
        ensures
            n == self.number(),
    ;

    /// Gives the count.
    fn kref(&self) -> (k: &Kref)
        ensures
            *k == self.counted(),
    ;

    /// Gives the count, to change it.
    fn kref_mut(&mut self) -> (k: &mut Kref)
        ensures
            *k == old(self).counted(),
            final(self).counted() == *final(k),
            final(self).number() == old(self).number(),
            final(self).is_released() == old(self).is_released(),
            final(self).is_released_unlocked() == old(self).is_released_unlocked(),
            final(self).rest() == old(self).rest(),
    ;

    /// Releases the object after its last reference has been put. The lock under which it was
    /// unlinked, if there is one, has been given back.
    fn release<L: HeldLock>(&mut self, lock: Option<&L>)
        requires
            !old(self).is_released(),
            lock matches Some(l) ==> !l.is_held(),
        ensures
            final(self).is_released(),
            final(self).is_released_unlocked() == (lock is Some),
            final(self).counted() == old(self).counted(),
            final(self).number() == old(self).number(),
            final(self).rest() == old(self).rest(),
    ;
}

/// An object with a number, a count and a value.
pub struct Object<T> {
    kref: Kref,
    number: usize,
    released: bool,
    unlocked: Ghost<bool>,
    value: T,
}

impl<T> Object<T> {
    /// The value.
    pub closed spec fn value(&self) -> T {
        self.value
    }

    /// A new object, with one reference.
    pub fn new(number: usize, value: T) -> (o: Self)
        ensures
            o.number() == number,
            o.value() == value,
            o.counted()@ == fresh(1, Seq::empty()),
            !o.is_released(),
            !o.is_released_unlocked(),
    {
        Object { kref: Kref::new(), number, released: false, unlocked: Ghost(false), value }
    }

    /// An object with the given count.
    pub fn with_kref(number: usize, value: T, kref: Kref) -> (o: Self)
        ensures
            o.number() == number,
            o.value() == value,
            o.counted() == kref,
            !o.is_released(),
            !o.is_released_unlocked(),
    {
        Object { kref, number, released: false, unlocked: Ghost(false), value }
    }

    /// Gives the value.
    pub fn get(&self) -> (value: &T)
        ensures
            *value == self.value(),
    {
        &self.value
    }

    /// Tells whether the object has been released.
    pub fn released(&self) -> (released: bool)
        ensures
            released == self.is_released(),
    {
        self.released
    }
}

impl<T> KrefCounted for Object<T> {
    type Rest = T;

    closed spec fn number(&self) -> usize {
        self.number
    }

    closed spec fn counted(&self) -> Kref {
        self.kref
    }

    closed spec fn is_released(&self) -> bool {
        self.released
    }

    closed spec fn is_released_unlocked(&self) -> bool {
        self.unlocked@
    }

    open spec fn rest(&self) -> T {
        self.value()
    }

    fn index(&self) -> (n: usize) {
        self.number
    }

    fn kref(&self) -> (k: &Kref) {
        &self.kref
    }

    fn kref_mut(&mut self) -> (k: &mut Kref) {
        &mut self.kref
    }

    fn release<L: HeldLock>(&mut self, lock: Option<&L>) {
        self.released = true;
        self.unlocked = Ghost(lock is Some);
    }
}

impl<T> HasLlistNode for Object<T> {
    open spec fn entry(&self) -> usize {
        self.number()
    }

    fn llist_entry(&self) -> (n: usize) {
        self.number
    }
}

/// One counted reference to an object.
pub struct KRef<T: KrefCounted> {
    ptr: usize,
    _ref: core::marker::PhantomData<T>,
}

impl<T: KrefCounted> KRef<T> {
    /// The number of the object.
    pub closed spec fn number(self) -> usize {
        self.ptr
    }

    /// Takes a reference. A count of zero saturates, with a warning.
    pub fn get(obj: &mut T) -> (r: (Self, Option<RefcountWarning>))
        ensures
            r.0.number() == old(obj).number(),
            (final(obj).counted()@, r.1) == after_add(old(obj).counted()@, 1),
            final(obj).number() == old(obj).number(),
            final(obj).is_released() == old(obj).is_released(),
            final(obj).rest() == old(obj).rest(),
    {
        let ptr: usize = obj.index();
        let warning: Option<RefcountWarning> = obj.kref_mut().refcount.inc();
        (KRef { ptr, _ref: core::marker::PhantomData }, warning)
    }

    /// Takes a reference unless the count is zero: `None` then, since the object is being released.
    pub fn get_unless_zero(obj: &mut T) -> (r: (Option<Self>, Option<RefcountWarning>))
        ensures
            ({
                let (state, prior, w) = added_not_zero(old(obj).counted()@, 1);
                &&& final(obj).counted()@ == state
                &&& r.0 is Some <==> prior != 0
                &&& r.1 == w
            }),
            r.0 matches Some(k) ==> k.number() == old(obj).number(),
            final(obj).number() == old(obj).number(),
            final(obj).is_released() == old(obj).is_released(),
            final(obj).rest() == old(obj).rest(),
    {
        let ptr: usize = obj.index();
        let (taken, warning): (bool, Option<RefcountWarning>) =
            obj.kref_mut().refcount.inc_not_zero();
        if !taken {
            return (None, warning);
        }
        (Some(KRef { ptr, _ref: core::marker::PhantomData }), warning)
    }

    /// Takes over a counted reference to the object with the number `ptr`.
    pub fn from_raw(ptr: usize) -> (k: Self)
        ensures
            k.number() == ptr,
    {
        KRef { ptr, _ref: core::marker::PhantomData }
    }

    /// Gives up the reference without putting it.
    pub fn into_raw(this: Self) -> (ptr: usize)
        ensures
            ptr == this.number(),
    {
        this.ptr
    }

    /// Takes another reference.
    pub fn clone(&self, obj: &mut T) -> (r: (Self, Option<RefcountWarning>))
        requires
            self.number() == old(obj).number(),
        ensures
            r.0.number() == self.number(),
            (final(obj).counted()@, r.1) == after_add(old(obj).counted()@, 1),
            final(obj).number() == old(obj).number(),
            final(obj).is_released() == old(obj).is_released(),
            final(obj).rest() == old(obj).rest(),
    {
        Self::get(obj)
    }

    /// Reads the count of the object.
    pub fn read(this: &Self, obj: &T) -> (n: u32)
        requires
            this.number() == obj.number(),
        ensures
            n == (obj.counted()@.v as int) % 0x1_0000_0000,
    {
        obj.kref().read()
    }

    /// Puts the reference, releases the object if it was the last, and says whether it was.
    pub fn put(this: Self, obj: &mut T) -> (r: (bool, Option<RefcountWarning>))
        requires
            this.number() == old(obj).number(),
            !old(obj).is_released(),
        ensures
            (final(obj).counted()@, r.0, r.1) == after_sub(old(obj).counted()@, 1, false),
            final(obj).is_released() == r.0,
            final(obj).number() == old(obj).number(),
            final(obj).rest() == old(obj).rest(),
    {
        let r: (bool, Option<RefcountWarning>) = obj.kref_mut().refcount.dec_and_test();
        if r.0 {
            obj.release(None::<&mutex>);
        }
        r
    }

    /// Puts the reference. If it was the last, `unlink` removes the object with the mutex held, and
    /// the object is released after the mutex has been given back.
    ///
    /// So a lookup that takes references unless the count is zero, with the mutex held, never finds a
    /// released object.
    pub fn put_mutex<F: FnOnce(&T, &mutex)>(
        this: Self,
        obj: &mut T,
        lock: &mut mutex,
        unlink: F,
    ) -> (r: (bool, Option<RefcountWarning>))
        requires
            this.number() == old(obj).number(),
            !old(obj).is_released(),
            !old(lock).locked,
            forall|o: &T, l: &mutex| l.locked ==> #[trigger] call_requires(unlink, (o, l)),
        ensures
            ({
                let (state, zero, w) = decremented_and_locked(old(obj).counted()@);
                &&& final(obj).counted()@ == state
                &&& r == (zero, w)
            }),
            r.0 ==> exists|o: &T, l: &mutex|
                l.locked && o.number() == old(obj).number() && o.counted() == final(obj).counted()
                    && !o.is_released() && o.rest() == old(obj).rest() && #[trigger] call_ensures(
                    unlink,
                    (o, l),
                    (),
                ),
            final(obj).is_released() == r.0,
            r.0 ==> final(obj).is_released_unlocked(),
            final(obj).number() == old(obj).number(),
            final(obj).rest() == old(obj).rest(),
            !final(lock).locked,
    {
        let r: (bool, Option<RefcountWarning>) = refcount_dec_and_mutex_lock(
            &mut obj.kref_mut().refcount,
            lock,
        );
        if !r.0 {
            return r;
        }
        unlink(&*obj, &*lock);
        mutex_unlock(lock);
        obj.release(Some(&*lock));
        r
    }

    /// Puts the reference. If it was the last, `unlink` removes the object with the spinlock held, and
    /// the object is released after the spinlock has been given back.
    pub fn put_lock<F: FnOnce(&T, &spinlock_t)>(
        this: Self,
        obj: &mut T,
        lock: &mut spinlock_t,
        unlink: F,
    ) -> (r: (bool, Option<RefcountWarning>))
        requires
            this.number() == old(obj).number(),
            !old(obj).is_released(),
            !old(lock).locked,
            forall|o: &T, l: &spinlock_t| l.locked ==> #[trigger] call_requires(unlink, (o, l)),
        ensures
            ({
                let (state, zero, w) = decremented_and_locked(old(obj).counted()@);
                &&& final(obj).counted()@ == state
                &&& r == (zero, w)
            }),
            r.0 ==> exists|o: &T, l: &spinlock_t|
                l.locked && o.number() == old(obj).number() && o.counted() == final(obj).counted()
                    && !o.is_released() && o.rest() == old(obj).rest() && #[trigger] call_ensures(
                    unlink,
                    (o, l),
                    (),
                ),
            final(obj).is_released() == r.0,
            r.0 ==> final(obj).is_released_unlocked(),
            final(obj).number() == old(obj).number(),
            final(obj).rest() == old(obj).rest(),
            !final(lock).locked,
    {
        let r: (bool, Option<RefcountWarning>) = refcount_dec_and_lock(
            &mut obj.kref_mut().refcount,
            lock,
        );
        if !r.0 {
            return r;
        }
        unlink(&*obj, &*lock);
        spin_unlock(lock);
        obj.release(Some(&*lock));
        r
    }
}

impl<T: KrefCounted + HasLlistNode> ListItem for KRef<T> {
    type Target = T;

    open spec fn raw(self) -> usize {
        self.number()
    }

    fn into_raw(self) -> (n: usize) {
        self.ptr
    }

    fn from_raw(n: usize) -> (item: Self) {
        KRef { ptr: n, _ref: core::marker::PhantomData }
    }
}

/// The count of an object after its references have been put `n` times.
pub open spec fn after_puts(count: i32, n: nat) -> i32
    decreases n,
{
    if n == 0 {
        count
    } else {
        subtracted(after_puts(count, (n - 1) as nat), 1).0
    }
}

/// An object with `count` references is released by the last of `count` puts, and by none before.
pub proof fn law_last_put_releases(count: i32, n: nat)
    requires
        0 < count,
        n < count,
    ensures
        after_puts(count, n) == count - n,
        subtracted(after_puts(count, n), 1).1 == (n + 1 == count),
    decreases n,
{
    if n > 0 {
        law_last_put_releases(count, (n - 1) as nat);
    }
}

/// An object that is being released is not taken up again by a lookup.
pub proof fn law_released_is_not_found(others: Seq<Option<i32>>)
    ensures
        added_not_zero(fresh(0, others), 1).1 == 0,
{
}

/// An object is released exactly when its last reference is put; a reference that is taken in between puts
/// that off.
pub proof fn law_get_then_put<T: KrefCounted>(
    get: &mut T,
    taken: (KRef<T>, Option<RefcountWarning>),
    put: &mut T,
    r: (bool, Option<RefcountWarning>),
    last: &mut T,
    held: KRef<T>,
    q: (bool, Option<RefcountWarning>),
)
    requires
        old(get).counted()@.v == 1,
        old(get).counted()@.others.len() == 0,
        !old(get).is_released(),
        call_ensures(KRef::<T>::get, (get,), taken),
        *old(put) == *final(get),
        call_ensures(KRef::<T>::put, (taken.0, put), r),
        *old(last) == *final(put),
        held.number() == old(last).number(),
        call_ensures(KRef::<T>::put, (held, last), q),
    ensures
        taken.0.number() == old(get).number(),
        taken.1 is None,
        r == (false, None::<RefcountWarning>),
        !final(put).is_released(),
        q == (true, None::<RefcountWarning>),
        final(last).is_released(),
        final(last).counted()@.v == 0,
        final(last).rest() == old(get).rest(),
{
}

/// An object without references is not taken up by a lookup; one with references is, and has one more
/// then.
pub proof fn law_lookup<T: KrefCounted>(obj: &mut T, r: (Option<KRef<T>>, Option<RefcountWarning>))
    requires
        0 <= old(obj).counted()@.v < 0x7fff_ffff,
        old(obj).counted()@.others.len() == 0,
        call_ensures(KRef::<T>::get_unless_zero, (obj,), r),
    ensures
        r.0 is Some <==> old(obj).counted()@.v > 0,
        r.0 is Some ==> r.0->0.number() == old(obj).number(),
        r.1 is None,
        final(obj).counted()@.v == if old(obj).counted()@.v > 0 {
            old(obj).counted()@.v + 1
        } else {
            0
        },
{
}

} // verus!
