//! Reference counts for objects that are seen after their last reference is gone.
//!
//! A count is alive from `RCUREF_ONEREF` up to `RCUREF_MAXREF`. Taking and putting a reference add and
//! subtract one whatever the count is, and look at the result: outside of the valid zone they come to
//! the functions here, which put the count back into the middle of the saturation zone or of the dead
//! zone. Both zones have room for many processors that do so at the same time.

use vstd::prelude::*;

#[allow(unused_imports)]
use crate::atomic::WordState;
use crate::refcount::atomic_t;

verus! {

/// A reference count.
#[allow(non_camel_case_types)]
pub struct rcuref_t {
    pub refcnt: atomic_t,
}

/// The count of one reference.
pub const RCUREF_ONEREF: u32 = 0x0000_0000;

/// The last valid count.
pub const RCUREF_MAXREF: u32 = 0x7fff_ffff;

/// The middle of the saturation zone.
pub const RCUREF_SATURATED: u32 = 0xa000_0000;

/// The beginning of the dead zone.
pub const RCUREF_RELEASED: u32 = 0xc000_0000;

/// The middle of the dead zone.
pub const RCUREF_DEAD: u32 = 0xe000_0000;

/// The count after the last reference has been put.
pub const RCUREF_NOREF: u32 = 0xffff_ffff;

impl View for rcuref_t {
    type V = WordState;

    open spec fn view(&self) -> WordState {
        self.refcnt.counter@
    }
}

/// The count that a counter value stands for.
pub open spec fn count_of(v: i32) -> int {
    v as int % 0x1_0000_0000
}

/// The counter value of a count.
pub open spec fn value_of(count: int) -> i32 {
    (if count < 0x8000_0000 {
        count
    } else {
        count - 0x1_0000_0000
    }) as i32
}

/// The count that a counter value stands for.
fn count(v: i32) -> (c: u32)
    ensures
        c == count_of(v),
{
    if v >= 0 {
        v as u32
    } else {
        (v as i64 + 0x1_0000_0000) as u32
    }
}

/// The counter value of a count.
fn value(c: u32) -> (v: i32)
    ensures
        v == value_of(c as int),
        count_of(v) == c,
{
    if c <= RCUREF_MAXREF {
        c as i32
    } else {
        (c as i64 - 0x1_0000_0000) as i32
    }
}

/// The count after an attempt to take a reference that has led to the count `c`, and whether it was
/// taken.
pub open spec fn got(c: int) -> (int, bool) {
    if c >= RCUREF_RELEASED {
        (RCUREF_DEAD as int, false)
    } else if c > RCUREF_MAXREF {
        (RCUREF_SATURATED as int, true)
    } else {
        (c, true)
    }
}

/// Takes a reference where the count is outside of the valid zone: false if the object is dead. The
/// second result says whether a warning about saturation is due.
///
/// A saturated count counts as taken, and its object is never given up.
pub fn rcuref_get_slowpath(r: &mut rcuref_t) -> (out: (bool, bool))
    ensures
        ({
            let c = count_of(old(r)@.v);
            &&& final(r)@ == if c > RCUREF_MAXREF {
                old(r)@.is_set(value_of(got(c).0))
            } else {
                old(r)@
            }
            &&& out.0 == got(c).1
            &&& out.1 == (RCUREF_MAXREF < c < RCUREF_RELEASED)
        }),
{
    let cnt: u32 = count(r.refcnt.counter.read());
    if cnt >= RCUREF_RELEASED {
        // Stay in the middle of the dead zone.
        r.refcnt.counter.set(value(RCUREF_DEAD));
        return (false, false);
    }
    if cnt > RCUREF_MAXREF {
        // Stay in the middle of the saturation zone.
        r.refcnt.counter.set(value(RCUREF_SATURATED));
        return (true, true);
    }
    (true, false)
}

/// Puts a reference where the count has come to `cnt`, outside of the valid zone: true if it was the
/// last reference and no other can be taken. The second result says whether a warning about a put
/// without a reference is due.
pub fn rcuref_put_slowpath(r: &mut rcuref_t, cnt: u32) -> (out: (bool, bool))
    ensures
        ({
            let w = old(r)@;
            &&& out.0 == (cnt == RCUREF_NOREF && count_of(w.now()) == RCUREF_NOREF)
            &&& out.1 == (RCUREF_RELEASED <= cnt < RCUREF_NOREF)
            &&& final(r)@ == if cnt == RCUREF_NOREF {
                if out.0 {
                    w.then_is(value_of(RCUREF_DEAD as int))
                } else {
                    w.turned()
                }
            } else if cnt >= RCUREF_RELEASED {
                w.is_set(value_of(RCUREF_DEAD as int))
            } else if cnt > RCUREF_MAXREF {
                w.is_set(value_of(RCUREF_SATURATED as int))
            } else {
                w
            }
        }),
{
    if cnt == RCUREF_NOREF {
        // Another processor may have taken a reference again, or even put it and marked the object
        // as dead.
        let mut expected: i32 = value(cnt);
        if !r.refcnt.counter.try_exchange(&mut expected, value(RCUREF_DEAD)) {
            return (false, false);
        }
        return (true, false);
    }
    if cnt >= RCUREF_RELEASED {
        r.refcnt.counter.set(value(RCUREF_DEAD));
        return (false, true);
    }
    if cnt > RCUREF_MAXREF {
        r.refcnt.counter.set(value(RCUREF_SATURATED));
    }
    (false, false)
}

/// The count after one more.
pub open spec fn one_more(c: int) -> int {
    (c + 1) % 0x1_0000_0000
}

/// The count after one less.
pub open spec fn one_less(c: int) -> int {
    (c - 1) % 0x1_0000_0000
}

/// A dead object is not taken up again: as long as fewer processors than the zone has room for try at
/// the same time, each attempt fails, and leaves the object dead.
pub proof fn law_dead_stays_dead(n: int)
    requires
        0 <= n < 0x1000_0000,
    ensures
        got(one_more(RCUREF_DEAD + n)) == (RCUREF_DEAD as int, false),
        RCUREF_RELEASED <= one_less(RCUREF_DEAD - n) < RCUREF_NOREF,
{
}

/// A saturated count stays saturated, whether references are taken or put.
pub proof fn law_saturated_stays_saturated(n: int)
    requires
        0 <= n < 0x1000_0000,
    ensures
        got(one_more(RCUREF_SATURATED + n)) == (RCUREF_SATURATED as int, true),
        RCUREF_MAXREF < one_less(RCUREF_SATURATED - n) < RCUREF_RELEASED,
{
}

/// Taking a reference undoes putting one, even the only one, which leads to `RCUREF_NOREF`.
pub proof fn law_get_undoes_put(c: int)
    requires
        0 <= c <= RCUREF_MAXREF,
    ensures
        one_less(c) == RCUREF_NOREF <==> c == RCUREF_ONEREF,
        got(one_more(one_less(c))) == (c, true),
{
}

/// A count that goes beyond the last valid one saturates.
pub proof fn law_overflow_saturates(c: int)
    requires
        RCUREF_MAXREF <= c < RCUREF_RELEASED - 1,
    ensures
        got(one_more(c)) == (RCUREF_SATURATED as int, true),
{
}

/// The zones of counts: up to the last valid count a reference is taken as it is; from there up to the
/// dead zone it is taken and the count saturates; in the dead zone it is refused, and the object stays
/// dead.
pub proof fn law_zones(c: int)
    requires
        0 <= c < 0x1_0000_0000,
    ensures
        c <= 0x7fff_ffff ==> got(c) == (c, true),
        0x8000_0000 <= c < 0xc000_0000 ==> got(c) == (0xa000_0000int, true),
        0xc000_0000 <= c ==> got(c) == (0xe000_0000int, false),
{
}

/// A count and its counter value stand for each other: the counts beyond the last valid one are the
/// negative values.
pub proof fn law_values_of_counts(c: int, v: i32)
    requires
        0 <= c < 0x1_0000_0000,
    ensures
        count_of(value_of(c)) == c,
        value_of(count_of(v)) == v,
        v >= 0 ==> count_of(v) == v,
        v < 0 ==> count_of(v) == 0x1_0000_0000 + v,
{
}

/// One more and one less undo each other, and wrap around between the last count and zero.
pub proof fn law_one_more_and_one_less(c: int)
    requires
        0 <= c < 0x1_0000_0000,
    ensures
        c < 0xffff_ffff ==> one_more(c) == c + 1,
        one_more(0xffff_ffff) == 0,
        one_less(one_more(c)) == c,
{
}

/// Putting a reference outside of the valid zone: the last reference makes the object dead, unless
/// another processor has taken one meanwhile; a put on a dead object leaves it dead, with a warning, and
/// a saturated count stays saturated.
pub proof fn law_put_outside_the_valid_zone(r: &mut rcuref_t, cnt: u32, out: (bool, bool))
    requires
        call_ensures(rcuref_put_slowpath, (r, cnt), out),
    ensures
        cnt == 0xffff_ffff && count_of(old(r)@.now()) == 0xffff_ffff ==> out == (true, false)
            && count_of(final(r)@.v) == 0xe000_0000,
        cnt == 0xffff_ffff && count_of(old(r)@.now()) != 0xffff_ffff ==> out == (false, false)
            && final(r)@.v == old(r)@.now(),
        0xc000_0000 <= cnt < 0xffff_ffff ==> out == (false, true) && count_of(final(r)@.v)
            == 0xe000_0000,
        0x8000_0000 <= cnt < 0xc000_0000 ==> out == (false, false) && count_of(final(r)@.v)
            == 0xa000_0000,
        cnt < 0x8000_0000 ==> out == (false, false) && final(r)@ == old(r)@,
{
}

/// Taking a reference outside of the valid zone: it is refused on a dead object, which stays dead, and
/// granted on a saturated count, with a warning.
pub proof fn law_get_outside_the_valid_zone(r: &mut rcuref_t, out: (bool, bool))
    requires
        call_ensures(rcuref_get_slowpath, (r,), out),
    ensures
        0xc000_0000 <= count_of(old(r)@.v) ==> out == (false, false) && count_of(final(r)@.v)
            == 0xe000_0000,
        0x8000_0000 <= count_of(old(r)@.v) < 0xc000_0000 ==> out == (true, true) && count_of(
            final(r)@.v,
        ) == 0xa000_0000,
        count_of(old(r)@.v) < 0x8000_0000 ==> out == (true, false) && final(r)@ == old(r)@,
{
}

} // verus!
