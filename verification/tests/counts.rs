use klib::atomic::AtomicWord;
use klib::dec_and_lock::{
    _atomic_dec_and_lock_irqsave, _atomic_dec_and_raw_lock_irqsave, add_unless, atomic_dec_and_lock,
    atomic_dec_and_raw_lock, dec_and_test, fetch_add_unless,
};
use klib::errseq::{
    errseq_check, errseq_check_and_advance, errseq_check_and_advance_in_place, errseq_sample,
    errseq_set, ErrseqAtomic, ERRSEQ_CTR_INC, ERRSEQ_SEEN, MAX_ERRNO,
};
use klib::kref::{KRef, Kref, Object};
use klib::lock::{
    mutex, mutex_lock, mutex_unlock, raw_spin_lock, raw_spin_lock_irqsave, raw_spin_unlock,
    raw_spin_unlock_irqrestore, raw_spinlock_t, spin_lock, spin_lock_irqsave, spin_unlock,
    spin_unlock_irqrestore, spinlock_t, Interrupts,
};
use klib::lockref::{
    lockref, lockref_get, lockref_get_not_dead, lockref_get_not_zero, lockref_mark_dead,
    lockref_put_or_lock, lockref_put_return, LockCount, LOCKREF_DEAD_VAL,
};
use klib::rcuref::{
    rcuref_get_slowpath, rcuref_put_slowpath, rcuref_t, RCUREF_DEAD, RCUREF_MAXREF, RCUREF_NOREF,
    RCUREF_RELEASED, RCUREF_SATURATED,
};
use klib::refcount::{
    atomic_t, refcount_dec_and_lock, refcount_dec_and_lock_irqsave, refcount_dec_and_mutex_lock,
    refcount_dec_if_one, refcount_dec_not_one, refcount_t, refcount_warn_saturate, RefcountWarning,
    REFCOUNT_SATURATED,
};

#[test]
fn counter_with_other_writers() {
    let mut w = AtomicWord::contended(5, vec![None, Some(9), None]);
    assert_eq!(w.fetch_add(2), 5);
    assert_eq!(w.fetch_sub(1), 9);
    let mut expected = 7;
    assert!(!w.try_exchange(&mut expected, 1));
    assert_eq!(expected, 8);
    assert!(w.try_exchange(&mut expected, 1));
    assert_eq!(w.read(), 1);
    w.set(i32::MAX);
    assert_eq!(w.fetch_add(1), i32::MAX);
    assert_eq!(w.read(), i32::MIN);
}

#[test]
fn locks_and_interrupts() {
    let mut irq = Interrupts { enabled: true };
    let mut flags = false;
    let mut lock = spinlock_t { locked: false };
    spin_lock(&mut lock);
    assert!(lock.locked);
    spin_unlock(&mut lock);
    spin_lock_irqsave(&mut lock, &mut irq, &mut flags);
    assert!(lock.locked && !irq.enabled && flags);
    spin_unlock_irqrestore(&mut lock, &mut irq, flags);
    assert!(!lock.locked && irq.enabled);
    let mut raw = raw_spinlock_t { locked: false };
    raw_spin_lock(&mut raw);
    raw_spin_unlock(&mut raw);
    raw_spin_lock_irqsave(&mut raw, &mut irq, &mut flags);
    assert!(raw.locked && !irq.enabled);
    raw_spin_unlock_irqrestore(&mut raw, &mut irq, flags);
    let mut m = mutex { locked: false };
    mutex_lock(&mut m);
    assert!(m.locked);
    mutex_unlock(&mut m);
    assert!(!m.locked);
}

#[test]
fn addition_unless_a_value() {
    let mut w = AtomicWord::new(3);
    assert_eq!(fetch_add_unless(&mut w, 2, 1), 3);
    assert_eq!(w.read(), 5);
    assert!(!add_unless(&mut w, 2, 5));
    assert!(add_unless(&mut w, -4, 1));
    assert_eq!(w.read(), 1);
    assert!(dec_and_test(&mut w));
    assert!(!dec_and_test(&mut w));
    // The other processors come in between.
    let mut w = AtomicWord::contended(3, vec![Some(1)]);
    assert!(!add_unless(&mut w, -1, 1));
    assert_eq!(w.read(), 1);
}

#[test]
fn lock_comes_with_the_last_count() {
    let mut lock = spinlock_t { locked: false };
    let mut a = atomic_t::new(2);
    assert_eq!(atomic_dec_and_lock(&mut a, &mut lock), 0);
    assert!(!lock.locked);
    assert_eq!(atomic_dec_and_lock(&mut a, &mut lock), 1);
    assert!(lock.locked);
    assert_eq!(a.counter.read(), 0);
    // Another reference is taken while this processor waits for the lock.
    let mut lock = spinlock_t { locked: false };
    let mut a = atomic_t::contended(1, vec![Some(2)]);
    assert_eq!(atomic_dec_and_lock(&mut a, &mut lock), 0);
    assert!(!lock.locked);
    assert_eq!(a.counter.read(), 1);
}

#[test]
fn interrupts_are_off_with_the_last_count() {
    let mut irq = Interrupts { enabled: true };
    let mut flags = false;
    let mut lock = spinlock_t { locked: false };
    let mut a = atomic_t::new(2);
    assert_eq!(_atomic_dec_and_lock_irqsave(&mut a, &mut lock, &mut irq, &mut flags), 0);
    assert!(!lock.locked && irq.enabled);
    assert_eq!(_atomic_dec_and_lock_irqsave(&mut a, &mut lock, &mut irq, &mut flags), 1);
    assert!(lock.locked && !irq.enabled && flags);
    let mut irq = Interrupts { enabled: true };
    let mut raw = raw_spinlock_t { locked: false };
    let mut a = atomic_t::new(1);
    assert_eq!(_atomic_dec_and_raw_lock_irqsave(&mut a, &mut raw, &mut irq, &mut flags), 1);
    assert!(raw.locked && !irq.enabled && flags);
    let mut raw = raw_spinlock_t { locked: false };
    let mut a = atomic_t::new(2);
    assert_eq!(atomic_dec_and_raw_lock(&mut a, &mut raw), 0);
    assert_eq!(atomic_dec_and_raw_lock(&mut a, &mut raw), 1);
    assert!(raw.locked);
}

#[test]
fn references_are_counted() {
    let mut r = refcount_t::new(1);
    assert_eq!(r.inc(), None);
    assert_eq!(r.inc_not_zero(), (true, None));
    assert_eq!(r.read(), 3);
    assert_eq!(r.dec_and_test(), (false, None));
    assert_eq!(r.dec_and_test(), (false, None));
    assert_eq!(r.dec_and_test(), (true, None));
    assert_eq!(r.inc_not_zero(), (false, None));
    assert_eq!(r.read(), 0);
}

#[test]
fn misuse_saturates_with_a_warning() {
    let mut r = refcount_t::new(0);
    assert_eq!(r.inc(), Some(RefcountWarning::AddUaf));
    assert_eq!(r.read(), REFCOUNT_SATURATED as u32);
    assert_eq!(r.inc(), Some(RefcountWarning::AddOvf));
    assert_eq!(r.inc_not_zero(), (true, Some(RefcountWarning::AddNotZeroOvf)));
    assert_eq!(r.dec_and_test(), (false, Some(RefcountWarning::SubUaf)));
    assert_eq!(r.read(), REFCOUNT_SATURATED as u32);
    r.set(i32::MAX);
    assert_eq!(r.inc(), Some(RefcountWarning::AddOvf));
    r.set(0);
    assert_eq!(r.dec_and_test(), (false, Some(RefcountWarning::SubUaf)));
    r.set(5);
    assert_eq!(refcount_warn_saturate(&mut r, 4), RefcountWarning::DecLeak);
    assert_eq!(refcount_warn_saturate(&mut r, 17), RefcountWarning::Unknown);
    assert_eq!(r.read(), REFCOUNT_SATURATED as u32);
}

#[test]
fn decrement_if_or_unless_one() {
    let mut r = refcount_t::new(2);
    assert!(!refcount_dec_if_one(&mut r));
    assert_eq!(refcount_dec_not_one(&mut r), (true, None));
    assert_eq!(refcount_dec_not_one(&mut r), (false, None));
    assert!(refcount_dec_if_one(&mut r));
    assert_eq!(refcount_dec_not_one(&mut r), (true, Some(RefcountWarning::DecNotOneUnderflow)));
    assert_eq!(r.read(), 0);
    r.set(REFCOUNT_SATURATED);
    assert_eq!(refcount_dec_not_one(&mut r), (true, None));
    assert_eq!(r.read(), REFCOUNT_SATURATED as u32);
}

#[test]
fn last_reference_is_dropped_with_a_lock() {
    let mut m = mutex { locked: false };
    let mut r = refcount_t::new(2);
    assert_eq!(refcount_dec_and_mutex_lock(&mut r, &mut m), (false, None));
    assert!(!m.locked);
    assert_eq!(refcount_dec_and_mutex_lock(&mut r, &mut m), (true, None));
    assert!(m.locked);
    let mut lock = spinlock_t { locked: false };
    let mut r = refcount_t::contended(1, vec![Some(3)]);
    assert_eq!(refcount_dec_and_lock(&mut r, &mut lock), (false, None));
    assert!(!lock.locked);
    assert_eq!(r.read(), 2);
    let mut irq = Interrupts { enabled: true };
    let mut flags = false;
    let mut r = refcount_t::new(1);
    assert_eq!(
        refcount_dec_and_lock_irqsave(&mut r, &mut lock, &mut irq, &mut flags),
        (true, None)
    );
    assert!(lock.locked && !irq.enabled && flags);
}

fn rcuref(count: u32) -> rcuref_t {
    rcuref_t { refcnt: atomic_t::new(count as i32) }
}

fn count(r: &rcuref_t) -> u32 {
    r.refcnt.counter.read() as u32
}

#[test]
fn slow_path_of_taking_a_reference() {
    let mut r = rcuref(RCUREF_RELEASED);
    assert_eq!(rcuref_get_slowpath(&mut r), (false, false));
    assert_eq!(count(&r), RCUREF_DEAD);
    let mut r = rcuref(RCUREF_MAXREF + 1);
    assert_eq!(rcuref_get_slowpath(&mut r), (true, true));
    assert_eq!(count(&r), RCUREF_SATURATED);
    let mut r = rcuref(7);
    assert_eq!(rcuref_get_slowpath(&mut r), (true, false));
    assert_eq!(count(&r), 7);
}

#[test]
fn slow_path_of_putting_a_reference() {
    let mut r = rcuref(RCUREF_NOREF);
    assert_eq!(rcuref_put_slowpath(&mut r, RCUREF_NOREF), (true, false));
    assert_eq!(count(&r), RCUREF_DEAD);
    // Another processor has taken a reference again.
    let mut r = rcuref(0);
    assert_eq!(rcuref_put_slowpath(&mut r, RCUREF_NOREF), (false, false));
    assert_eq!(count(&r), 0);
    let mut r = rcuref(RCUREF_DEAD - 1);
    assert_eq!(rcuref_put_slowpath(&mut r, RCUREF_DEAD - 1), (false, true));
    assert_eq!(count(&r), RCUREF_DEAD);
    let mut r = rcuref(RCUREF_SATURATED - 1);
    assert_eq!(rcuref_put_slowpath(&mut r, RCUREF_SATURATED - 1), (false, false));
    assert_eq!(count(&r), RCUREF_SATURATED);
}

#[test]
fn object_is_released_with_its_last_reference() {
    let mut obj = Object::new(3, "value");
    let first = KRef::<Object<&str>>::from_raw(3);
    let (second, warning) = first.clone(&mut obj);
    assert_eq!(warning, None);
    assert_eq!(KRef::read(&first, &obj), 2);
    assert_eq!(KRef::put(second, &mut obj), (false, None));
    assert!(!obj.released());
    assert_eq!(KRef::put(first, &mut obj), (true, None));
    assert!(obj.released());
    assert_eq!(*obj.get(), "value");
    // A lookup finds it no more.
    let (found, warning) = KRef::get_unless_zero(&mut obj);
    assert!(found.is_none());
    assert_eq!(warning, None);
    assert_eq!(KRef::get(&mut obj).1, Some(RefcountWarning::AddUaf));
}

#[test]
fn object_is_unlinked_with_the_lock_held() {
    let mut obj = Object::new(3, 7);
    let mut m = mutex { locked: false };
    let mut lock = spinlock_t { locked: false };
    let k = KRef::get_unless_zero(&mut obj).0.unwrap();
    let mut unlinked = 0;
    assert_eq!(KRef::put_mutex(k, &mut obj, &mut m, |o, l| {
        assert!(l.locked);
        unlinked += *o.get();
    }), (false, None));
    assert_eq!(unlinked, 0);
    let k = KRef::from_raw(3);
    assert_eq!(KRef::put_mutex(k, &mut obj, &mut m, |o, l| {
        assert!(l.locked);
        unlinked += *o.get();
    }), (true, None));
    assert_eq!(unlinked, 7);
    assert!(obj.released() && !m.locked);
    let mut obj = Object::with_kref(4, 8, Kref::contended(1, vec![]));
    let k = KRef::from_raw(4);
    assert_eq!(KRef::into_raw(KRef::<Object<i32>>::from_raw(4)), 4);
    assert_eq!(KRef::put_lock(k, &mut obj, &mut lock, |o, l| {
        assert!(l.locked);
        unlinked += *o.get();
    }), (true, None));
    assert_eq!(unlinked, 15);
    assert!(obj.released() && !lock.locked);
    assert_eq!(Kref::new().read(), 1);
}

fn state(l: &lockref) -> (bool, i32) {
    let word = l.read();
    (word.locked, word.count)
}

#[test]
fn count_beside_a_lock() {
    for lockless in [true, false] {
        let mut l = lockref::contended(LockCount { locked: false, count: 1 }, vec![], lockless);
        lockref_get(&mut l);
        assert!(lockref_get_not_zero(&mut l));
        assert!(lockref_get_not_dead(&mut l));
        assert_eq!(state(&l), (false, 4));
        assert!(lockref_put_or_lock(&mut l));
        assert_eq!(lockref_put_return(&mut l), if lockless { 2 } else { -1 });
        while lockref_put_or_lock(&mut l) {}
        assert_eq!(state(&l), (true, 1));
        lockref_mark_dead(&mut l);
        l.spin_unlock();
        assert_eq!(state(&l), (false, LOCKREF_DEAD_VAL));
        assert!(!lockref_get_not_zero(&mut l));
        assert!(!lockref_get_not_dead(&mut l));
        assert_eq!(lockref_put_return(&mut l), -1);
    }
}

#[test]
fn zero_is_neither_taken_nor_put() {
    let mut l = lockref::new(0);
    assert!(!lockref_get_not_zero(&mut l));
    assert_eq!(lockref_put_return(&mut l), -1);
    assert!(lockref_get_not_dead(&mut l));
    assert_eq!(lockref_put_return(&mut l), 0);
    l.spin_lock();
    assert_eq!(state(&l), (true, 0));
}

#[test]
fn lock_is_waited_for() {
    let held = LockCount { locked: true, count: 5 };
    let freed = LockCount { locked: false, count: 6 };
    let mut l = lockref::contended(held, vec![None, Some(freed)], true);
    lockref_get(&mut l);
    assert_eq!(state(&l), (false, 7));
    // The other processors are always faster, until this one takes the lock.
    let others = (0..150).map(|i| Some(LockCount { locked: false, count: 10 + i })).collect();
    let mut l = lockref::contended(LockCount { locked: false, count: 9 }, others, true);
    assert!(lockref_get_not_zero(&mut l));
    assert_eq!(state(&l), (false, 110));
}

#[test]
fn errors_are_reported_once() {
    let mut e = ErrseqAtomic::new(0);
    let mut since = errseq_sample(&e);
    assert_eq!(since, 0);
    assert_eq!(errseq_check(&e, since), 0);
    assert_eq!(errseq_set(&mut e, -5), (0, false));
    assert_eq!(e.read_once(), 5);
    // Nobody has seen it, so another one needs no count.
    assert_eq!(errseq_set(&mut e, -28), (5, false));
    assert_eq!(e.read_once(), 28);
    assert_eq!(errseq_check(&e, since), -28);
    assert_eq!(errseq_check_and_advance(&mut e, &mut since), -28);
    assert_eq!(e.read_once(), 28 + ERRSEQ_SEEN);
    assert_eq!(errseq_check_and_advance(&mut e, &mut since), 0);
    assert_eq!(errseq_sample(&e), since);
    assert_eq!(errseq_set(&mut e, -28).1, false);
    assert_eq!(e.read_once(), 28 + ERRSEQ_CTR_INC);
    assert_eq!(errseq_check(&e, since), -28);
    // A sample of an error that nobody has seen tells of it later.
    assert_eq!(errseq_sample(&e), 0);
}

#[test]
fn errors_that_do_not_fit_are_refused() {
    let mut e = ErrseqAtomic::new(7);
    for err in [0, 5, -MAX_ERRNO - 1] {
        assert_eq!(errseq_set(&mut e, err), (7, true));
    }
    assert_eq!(e.read_once(), 7);
    assert_eq!(errseq_set(&mut e, -MAX_ERRNO), (7, false));
    assert_eq!(e.read_once(), MAX_ERRNO as u32);
}

#[test]
fn errors_from_other_processors() {
    let mut e = ErrseqAtomic::contended(0, vec![Some(9)]);
    assert_eq!(errseq_set(&mut e, -5), (9, false));
    assert_eq!(e.read_once(), 5);
    let mut e = ErrseqAtomic::contended(5, vec![Some(9)]);
    let mut since = 0;
    assert_eq!(errseq_check_and_advance(&mut e, &mut since), -5);
    assert_eq!((since, e.read_once()), (5 + ERRSEQ_SEEN, 9));
    let mut e = ErrseqAtomic::contended(5, vec![Some(9)]);
    assert_eq!(e.compare_exchange(5, 6), 9);
    assert_eq!(e.compare_exchange(9, 6), 9);
    assert_eq!(e.read_once(), 6);
    assert_eq!(errseq_check_and_advance_in_place(&mut e), 0);
    let mut e = ErrseqAtomic::contended(5, vec![Some(9)]);
    assert_eq!(errseq_check_and_advance_in_place(&mut e), -5);
    assert_eq!(e.read_once(), 5 + ERRSEQ_SEEN);
}
