//! Windowed minimum and maximum tracking.
//!
//! A tracker keeps the best, the second best and the third best measurement of a time window, in
//! constant space and with constant time per update. The three are separated in time, so that the
//! second best can take over when the best leaves the window. A new best measurement makes the
//! earlier ones worthless, so the tracker starts afresh with it; the same holds of the second and the
//! third best.
//!
//! The clock wraps around.

use vstd::prelude::*;

verus! {

/// A measurement.
#[allow(non_camel_case_types)]
#[derive(Clone, Copy)]
pub struct minmax_sample {
    /// When it was taken.
    pub t: u32,
    /// What was measured.
    pub v: u32,
}

/// A tracker: the best three measurements.
#[allow(non_camel_case_types)]
#[derive(Clone, Copy)]
pub struct minmax {
    pub s: [minmax_sample; 3],
}

/// How old a measurement is at time `t`.
pub open spec fn age(t: u32, sample: minmax_sample) -> int {
    (t - sample.t) % 0x1_0000_0000
}

/// Whether the value `a` is at least as good as `b`: as large if the tracker keeps the maximum, as
/// small if it keeps the minimum.
pub open spec fn as_good(max: bool, a: u32, b: u32) -> bool {
    if max {
        a >= b
    } else {
        a <= b
    }
}

/// The three choices after the measurement `val` has replaced those that are no better.
pub open spec fn with_sample(max: bool, s: Seq<minmax_sample>, val: minmax_sample) -> Seq<
    minmax_sample,
> {
    if as_good(max, val.v, s[1].v) {
        seq![s[0], val, val]
    } else if as_good(max, val.v, s[2].v) {
        seq![s[0], s[1], val]
    } else {
        s
    }
}

/// The three choices after the time has moved on to `val`: a best one that has left the window gives
/// way to the next, and a choice that has not been replaced for a quarter or for half of the window
/// is taken from the present.
pub open spec fn subwin(s: Seq<minmax_sample>, win: u32, val: minmax_sample) -> Seq<minmax_sample> {
    let dt = age(val.t, s[0]);
    if dt > win {
        if age(val.t, s[1]) > win {
            seq![s[2], val, val]
        } else {
            seq![s[1], s[2], val]
        }
    } else if s[1].t == s[0].t && dt > win / 4 {
        seq![s[0], val, val]
    } else if s[2].t == s[1].t && dt > win / 2 {
        seq![s[0], s[1], val]
    } else {
        s
    }
}

/// The three choices after a measurement.
pub open spec fn updated(max: bool, s: Seq<minmax_sample>, win: u32, val: minmax_sample) -> Seq<
    minmax_sample,
> {
    if as_good(max, val.v, s[0].v) || age(val.t, s[2]) > win {
        seq![val, val, val]
    } else {
        subwin(with_sample(max, s, val), win, val)
    }
}

/// Whether the choices are in order: from the best to the third best.
pub open spec fn ranked(max: bool, s: Seq<minmax_sample>) -> bool {
    as_good(max, s[0].v, s[1].v) && as_good(max, s[1].v, s[2].v)
}

/// Whether the choices were taken one after another, as seen at time `t`.
pub open spec fn in_turn(t: u32, s: Seq<minmax_sample>) -> bool {
    age(t, s[0]) >= age(t, s[1]) >= age(t, s[2])
}

/// An update keeps the choices in order, and each no earlier than the one before it.
pub proof fn law_choices_stay_in_order(
    max: bool,
    s: Seq<minmax_sample>,
    win: u32,
    val: minmax_sample,
)
    requires
        s.len() == 3,
        ranked(max, s),
        in_turn(val.t, s),
    ensures
        ranked(max, updated(max, s, win, val)),
        in_turn(val.t, updated(max, s, win, val)),
{
}

/// After an update the best choice is in the window, and it is at least as good as the measurement.
pub proof fn law_best_choice_is_in_the_window(
    max: bool,
    s: Seq<minmax_sample>,
    win: u32,
    val: minmax_sample,
)
    requires
        s.len() == 3,
        ranked(max, s),
    ensures
        age(val.t, updated(max, s, win, val)[0]) <= win,
        as_good(max, updated(max, s, win, val)[0].v, val.v),
{
}

/// A best choice that is still in the window gives way only to a measurement that is as good.
pub proof fn law_best_choice_stays(
    max: bool,
    s: Seq<minmax_sample>,
    win: u32,
    val: minmax_sample,
)
    requires
        s.len() == 3,
        in_turn(val.t, s),
        age(val.t, s[0]) <= win,
    ensures
        updated(max, s, win, val)[0] == if as_good(max, val.v, s[0].v) {
            val
        } else {
            s[0]
        },
{
}

/// Starts afresh with a measurement.
fn minmax_reset(m: &mut minmax, t: u32, meas: u32) -> (r: u32)
    ensures
        ({
            let val = minmax_sample { t, v: meas };
            final(m).s@ == seq![val, val, val]
        }),
        r == meas,
{
    let val = minmax_sample { t, v: meas };
    m.s = [val, val, val];
    assert(m.s@ =~= seq![val, val, val]);
    m.s[0].v
}

/// As time advances, updates the first, second and third choice.
fn minmax_subwin_update(m: &mut minmax, win: u32, val: &minmax_sample) -> (r: u32)
    ensures
        final(m).s@ == subwin(old(m).s@, win, *val),
        r == final(m).s@[0].v,
{
    let s0: minmax_sample = m.s[0];
    let s1: minmax_sample = m.s[1];
    let s2: minmax_sample = m.s[2];
    let dt: u32 = val.t.wrapping_sub(s0.t);
    if dt > win {
        // The window has passed without a new value: the second choice becomes the first and the
        // third the second, twice if the second has left the window too.
        if val.t.wrapping_sub(s1.t) > win {
            m.s = [s2, *val, *val];
        } else {
            m.s = [s1, s2, *val];
        }
    } else if s1.t == s0.t && dt > win / 4 {
        // A quarter of the window has passed without a new value.
        m.s = [s0, *val, *val];
    } else if s2.t == s1.t && dt > win / 2 {
        // Half of the window has passed without a new value.
        m.s = [s0, s1, *val];
    }
    assert(m.s@ =~= subwin(old(m).s@, win, *val));
    m.s[0].v
}

/// Takes a measurement into a tracker that keeps the maximum, and gives the maximum.
pub fn minmax_running_max(m: &mut minmax, win: u32, t: u32, meas: u32) -> (r: u32)
    ensures
        final(m).s@ == updated(true, old(m).s@, win, (minmax_sample { t, v: meas })),
        r == final(m).s@[0].v,
{
    let val = minmax_sample { t, v: meas };
    if val.v >= m.s[0].v || val.t.wrapping_sub(m.s[2].t) > win {
        return minmax_reset(m, t, meas);
    }
    let s0: minmax_sample = m.s[0];
    let s1: minmax_sample = m.s[1];
    if val.v >= m.s[1].v {
        m.s = [s0, val, val];
    } else if val.v >= m.s[2].v {
        m.s = [s0, s1, val];
    }
    assert(m.s@ =~= with_sample(true, old(m).s@, val));
    minmax_subwin_update(m, win, &val)
}

/// Takes a measurement into a tracker that keeps the minimum, and gives the minimum.
pub fn minmax_running_min(m: &mut minmax, win: u32, t: u32, meas: u32) -> (r: u32)
    ensures
        final(m).s@ == updated(false, old(m).s@, win, (minmax_sample { t, v: meas })),
        r == final(m).s@[0].v,
{
    let val = minmax_sample { t, v: meas };
    if val.v <= m.s[0].v || val.t.wrapping_sub(m.s[2].t) > win {
        return minmax_reset(m, t, meas);
    }
    let s0: minmax_sample = m.s[0];
    let s1: minmax_sample = m.s[1];
    if val.v <= m.s[1].v {
        m.s = [s0, val, val];
    } else if val.v <= m.s[2].v {
        m.s = [s0, s1, val];
    }
    assert(m.s@ =~= with_sample(false, old(m).s@, val));
    minmax_subwin_update(m, win, &val)
}

/// A tracker of the maximum takes the larger value for the better one, a tracker of the minimum the
/// smaller, and equal values are as good as each other.
pub proof fn law_better_values(a: u32, b: u32)
    ensures
        as_good(true, a, b) <==> a >= b,
        as_good(false, a, b) <==> a <= b,
{
}

/// The age of a measurement is how far the clock, which wraps around, has moved on since.
pub proof fn law_age(t: u32, sample: minmax_sample)
    ensures
        0 <= age(t, sample) <= u32::MAX,
        t >= sample.t ==> age(t, sample) == t - sample.t,
        t < sample.t ==> age(t, sample) == t - sample.t + u32::MAX + 1,
{
}

/// A measurement that is as good as the best makes the earlier ones worthless, and so does one that
/// comes when nothing is left in the window: the tracker starts afresh with it.
pub proof fn law_new_best_starts_afresh(
    max: bool,
    s: Seq<minmax_sample>,
    win: u32,
    val: minmax_sample,
)
    requires
        s.len() == 3,
        (max && val.v >= s[0].v) || (!max && val.v <= s[0].v) || age(val.t, s[2]) > win,
    ensures
        updated(max, s, win, val) == seq![val, val, val],
{
}

/// While the best choice is in the window, the second choice is given up only for a measurement that
/// is as good, or, where it was taken at the time of the best one, once a quarter of the window has
/// passed; and in these cases it is.
pub proof fn law_second_choice_stays(
    max: bool,
    s: Seq<minmax_sample>,
    win: u32,
    val: minmax_sample,
)
    requires
        s.len() == 3,
        in_turn(val.t, s),
        age(val.t, s[0]) <= win,
        !as_good(max, val.v, s[0].v),
    ensures
        ({
            let u = updated(max, s, win, val);
            let replaced = as_good(max, val.v, s[1].v) || s[1].t == s[0].t && age(val.t, s[0]) > win
                / 4;
            &&& replaced ==> u[1] == val && u[2] == val
            &&& !replaced ==> u[1] == s[1]
        }),
{
}

/// While the best choice is in the window and the second one stays, the third choice is given up only
/// for a measurement that is as good, or, where it was taken at the time of the second one, once half
/// of the window has passed; and in these cases it is.
pub proof fn law_third_choice_stays(
    max: bool,
    s: Seq<minmax_sample>,
    win: u32,
    val: minmax_sample,
)
    requires
        s.len() == 3,
        in_turn(val.t, s),
        age(val.t, s[0]) <= win,
        !as_good(max, val.v, s[0].v),
        !as_good(max, val.v, s[1].v),
        s[1].t != s[0].t || age(val.t, s[0]) <= win / 4,
    ensures
        ({
            let u = updated(max, s, win, val);
            let replaced = as_good(max, val.v, s[2].v) || s[2].t == s[1].t && age(val.t, s[0]) > win
                / 2;
            u[2] == if replaced {
                val
            } else {
                s[2]
            }
        }),
{
}

/// When the best choice leaves the window, the second takes over, if it is still in the window and
/// better than the measurement. The third becomes the second, unless the measurement is as good.
pub proof fn law_second_choice_takes_over(
    max: bool,
    s: Seq<minmax_sample>,
    win: u32,
    val: minmax_sample,
)
    requires
        s.len() == 3,
        ranked(max, s),
        in_turn(val.t, s),
        age(val.t, s[0]) > win,
        age(val.t, s[1]) <= win,
        !as_good(max, val.v, s[1].v),
    ensures
        ({
            let u = updated(max, s, win, val);
            &&& u[0] == s[1]
            &&& u[1] == if as_good(max, val.v, s[2].v) {
                val
            } else {
                s[2]
            }
            &&& u[2] == val
        }),
{
}

/// When the best and the second choice leave the window, the third takes over, if it is still in the
/// window and better than the measurement.
pub proof fn law_third_choice_takes_over(
    max: bool,
    s: Seq<minmax_sample>,
    win: u32,
    val: minmax_sample,
)
    requires
        s.len() == 3,
        ranked(max, s),
        in_turn(val.t, s),
        age(val.t, s[1]) > win,
        age(val.t, s[2]) <= win,
        !as_good(max, val.v, s[2].v),
    ensures
        updated(max, s, win, val) == seq![s[2], val, val],
{
}

/// When the best choice leaves the window, a measurement that is as good as what would take over is
/// the new best one, and the only one.
pub proof fn law_measurement_takes_over(
    max: bool,
    s: Seq<minmax_sample>,
    win: u32,
    val: minmax_sample,
)
    requires
        s.len() == 3,
        ranked(max, s),
        in_turn(val.t, s),
        age(val.t, s[0]) > win,
        as_good(max, val.v, s[1].v) || age(val.t, s[1]) > win && as_good(max, val.v, s[2].v),
    ensures
        updated(max, s, win, val) == seq![val, val, val],
{
}

/// Every choice is a measurement: the latest one, or one that was a choice before.
pub proof fn law_choices_are_measurements(
    max: bool,
    s: Seq<minmax_sample>,
    win: u32,
    val: minmax_sample,
    i: int,
)
    requires
        s.len() == 3,
        0 <= i < 3,
    ensures
        updated(max, s, win, val).len() == 3,
        updated(max, s, win, val)[i] == val || s.contains(updated(max, s, win, val)[i]),
{
    assert(s.contains(s[0]) && s.contains(s[1]) && s.contains(s[2]));
}

/// Whether the measurement `a` makes up for `c`: it is as good, and no older.
pub open spec fn outdoes(max: bool, t: u32, a: minmax_sample, c: minmax_sample) -> bool {
    &&& age(t, a) <= age(t, c)
    &&& max ==> a.v >= c.v
    &&& !max ==> a.v <= c.v
}

/// Whether the first or the second choice makes up for the measurement `c`.
pub open spec fn makes_up(max: bool, s: Seq<minmax_sample>, t: u32, c: minmax_sample) -> bool {
    outdoes(max, t, s[0], c) || outdoes(max, t, s[1], c)
}

/// What the first two choices make up for, they still make up for after an update, as long as it is in
/// the window: neither is given up but for one that is as good and no older.
pub proof fn law_choices_are_kept_or_outdone(
    max: bool,
    s: Seq<minmax_sample>,
    win: u32,
    val: minmax_sample,
    c: minmax_sample,
)
    requires
        s.len() == 3,
        ranked(max, s),
        in_turn(val.t, s),
        makes_up(max, s, val.t, c),
        age(val.t, c) <= win,
    ensures
        makes_up(max, updated(max, s, win, val), val.t, c),
        as_good(max, updated(max, s, win, val)[0].v, c.v),
{
    law_choices_stay_in_order(max, s, win, val);
}

/// The choices after the measurements `vals`, one after another.
pub open spec fn run(max: bool, s: Seq<minmax_sample>, win: u32, vals: Seq<minmax_sample>) -> Seq<
    minmax_sample,
>
    decreases vals.len(),
{
    if vals.len() == 0 {
        s
    } else {
        updated(max, run(max, s, win, vals.drop_last()), win, vals.last())
    }
}

/// Whether the clock, which stands at `t` first, moves by less than what a word can hold beyond the
/// window from each of the measurements `vals` to the next, so that ages in the window can be told.
pub open spec fn steady(t: u32, win: u32, vals: Seq<minmax_sample>) -> bool {
    forall|k: int|
        0 <= k < vals.len() ==> win + (#[trigger] vals[k].t - (if k == 0 {
            t
        } else {
            vals[k - 1].t
        })) % 0x1_0000_0000 < 0x1_0000_0000
}

/// The result of a run of measurements is at least as good as the first and the second choice at its
/// beginning, if they have been in the window all the time: a second choice that is still in the window
/// when the first one leaves it has not given way to a worse one.
pub proof fn law_run_is_as_good_as_earlier_choices(
    max: bool,
    s: Seq<minmax_sample>,
    t: u32,
    win: u32,
    vals: Seq<minmax_sample>,
    i: int,
)
    requires
        s.len() == 3,
        ranked(max, s),
        in_turn(t, s),
        age(t, s[0]) <= win,
        steady(t, win, vals),
        0 <= i < 2,
        forall|k: int| 0 <= k < vals.len() ==> age(#[trigger] vals[k].t, s[i]) <= win,
    ensures
        max ==> run(max, s, win, vals)[0].v >= s[i].v,
        !max ==> run(max, s, win, vals)[0].v <= s[i].v,
{
    lemma_run(max, s, t, win, vals, i);
}

proof fn lemma_run(
    max: bool,
    s: Seq<minmax_sample>,
    t: u32,
    win: u32,
    vals: Seq<minmax_sample>,
    i: int,
)
    requires
        s.len() == 3,
        ranked(max, s),
        in_turn(t, s),
        age(t, s[0]) <= win,
        steady(t, win, vals),
        0 <= i < 2,
        forall|k: int| 0 <= k < vals.len() ==> age(#[trigger] vals[k].t, s[i]) <= win,
    ensures
        ({
            let u = run(max, s, win, vals);
            let now = if vals.len() == 0 {
                t
            } else {
                vals.last().t
            };
            &&& u.len() == 3
            &&& ranked(max, u)
            &&& in_turn(now, u)
            &&& age(now, u[0]) <= win
            &&& makes_up(max, u, now, s[i])
            &&& as_good(max, u[0].v, s[i].v)
        }),
    decreases vals.len(),
{
    if vals.len() == 0 {
        assert(i == 0 || i == 1);
    } else {
        let n = vals.len() as int;
        let init = vals.drop_last();
        assert forall|k: int| 0 <= k < init.len() implies age(#[trigger] init[k].t, s[i]) <= win by {
            assert(init[k] == vals[k]);
        }
        assert(steady(t, win, init)) by {
            assert forall|k: int| 0 <= k < init.len() implies win + (#[trigger] init[k].t - (if k == 0 {
                t
            } else {
                init[k - 1].t
            })) % 0x1_0000_0000 < 0x1_0000_0000 by {
                assert(init[k] == vals[k]);
                assert(k > 0 ==> init[k - 1] == vals[k - 1]);
            }
        }
        lemma_run(max, s, t, win, init, i);
        let u = run(max, s, win, init);
        let now = if init.len() == 0 {
            t
        } else {
            init.last().t
        };
        let val = vals.last();
        assert(val == vals[n - 1]);
        assert(now == if n == 1 {
            t
        } else {
            vals[n - 2].t
        });
        assert(age(val.t, s[i]) <= win);
        assert(age(now, s[i]) <= win) by {
            if init.len() > 0 {
                assert(age(init[init.len() - 1].t, s[i]) <= win);
            }
        }
        lemma_step(max, u, now, win, val, s[i]);
        assert(run(max, s, win, vals) == updated(max, u, win, val));
    }
}

proof fn lemma_step(
    max: bool,
    u: Seq<minmax_sample>,
    now: u32,
    win: u32,
    val: minmax_sample,
    c: minmax_sample,
)
    requires
        u.len() == 3,
        ranked(max, u),
        in_turn(now, u),
        age(now, u[0]) <= win,
        makes_up(max, u, now, c),
        win + (val.t - now) % 0x1_0000_0000 < 0x1_0000_0000,
        age(now, c) <= win,
        age(val.t, c) <= win,
    ensures
        ({
            let w = updated(max, u, win, val);
            &&& w.len() == 3
            &&& ranked(max, w)
            &&& in_turn(val.t, w)
            &&& age(val.t, w[0]) <= win
            &&& makes_up(max, w, val.t, c)
            &&& as_good(max, w[0].v, c.v)
        }),
{
    lemma_later(now, val.t, win, u[0]);
    lemma_later(now, val.t, win, u[1]);
    lemma_later(now, val.t, win, u[2]);
    lemma_later(now, val.t, win, c);
    law_choices_are_kept_or_outdone(max, u, win, val, c);
    law_choices_stay_in_order(max, u, win, val);
    law_best_choice_is_in_the_window(max, u, win, val);
}

/// A measurement ages as the clock moves on.
proof fn lemma_later(t: u32, later: u32, win: u32, sample: minmax_sample)
    requires
        age(t, sample) <= win,
        win + (later - t) % 0x1_0000_0000 < 0x1_0000_0000,
    ensures
        age(later, sample) == age(t, sample) + (later - t) % 0x1_0000_0000,
{
}

/// A measurement that is taken into a tracker gives the best choice, which is at least as good as the
/// measurement and in the window; while the second choice is in the window, the result is at least as
/// good as it, too.
pub proof fn law_running_max(m: &mut minmax, win: u32, t: u32, meas: u32, r: u32)
    requires
        call_ensures(minmax_running_max, (m, win, t, meas), r),
        old(m).s@[0].v >= old(m).s@[1].v,
        old(m).s@[1].v >= old(m).s@[2].v,
        in_turn(t, old(m).s@),
    ensures
        r == final(m).s@[0].v,
        r >= meas,
        (t - final(m).s@[0].t) % 0x1_0000_0000 <= win,
        final(m).s@[0].v >= final(m).s@[1].v,
        final(m).s@[1].v >= final(m).s@[2].v,
        (t - old(m).s@[0].t) % 0x1_0000_0000 <= win && meas < old(m).s@[0].v ==> r == old(m).s@[0].v,
        meas >= old(m).s@[0].v ==> r == meas,
        (t - old(m).s@[0].t) % 0x1_0000_0000 > win && (t - old(m).s@[1].t) % 0x1_0000_0000 <= win && meas
            < old(m).s@[1].v ==> r == old(m).s@[1].v,
        (t - old(m).s@[1].t) % 0x1_0000_0000 > win && (t - old(m).s@[2].t) % 0x1_0000_0000 <= win && meas
            < old(m).s@[2].v ==> r == old(m).s@[2].v,
        (t - old(m).s@[2].t) % 0x1_0000_0000 > win ==> r == meas,
{
    let val = minmax_sample { t, v: meas };
    let s = old(m).s@;
    law_choices_stay_in_order(true, s, win, val);
    law_best_choice_is_in_the_window(true, s, win, val);
}

/// The same goes for a tracker that keeps the minimum.
pub proof fn law_running_min(m: &mut minmax, win: u32, t: u32, meas: u32, r: u32)
    requires
        call_ensures(minmax_running_min, (m, win, t, meas), r),
        old(m).s@[0].v <= old(m).s@[1].v,
        old(m).s@[1].v <= old(m).s@[2].v,
        in_turn(t, old(m).s@),
    ensures
        r == final(m).s@[0].v,
        r <= meas,
        (t - final(m).s@[0].t) % 0x1_0000_0000 <= win,
        final(m).s@[0].v <= final(m).s@[1].v,
        final(m).s@[1].v <= final(m).s@[2].v,
        (t - old(m).s@[0].t) % 0x1_0000_0000 <= win && meas > old(m).s@[0].v ==> r == old(m).s@[0].v,
        meas <= old(m).s@[0].v ==> r == meas,
        (t - old(m).s@[0].t) % 0x1_0000_0000 > win && (t - old(m).s@[1].t) % 0x1_0000_0000 <= win && meas
            > old(m).s@[1].v ==> r == old(m).s@[1].v,
        (t - old(m).s@[1].t) % 0x1_0000_0000 > win && (t - old(m).s@[2].t) % 0x1_0000_0000 <= win && meas
            > old(m).s@[2].v ==> r == old(m).s@[2].v,
        (t - old(m).s@[2].t) % 0x1_0000_0000 > win ==> r == meas,
{
    let val = minmax_sample { t, v: meas };
    let s = old(m).s@;
    law_choices_stay_in_order(false, s, win, val);
    law_best_choice_is_in_the_window(false, s, win, val);
}

/// A tracker of the maximum and one of the minimum mirror each other: with every value taken from the
/// largest word, each does what the other does.
pub proof fn law_minimum_mirrors_maximum(a: &mut minmax, b: &mut minmax, win: u32, t: u32, meas: u32, r: u32, q: u32, i: int)
    requires
        call_ensures(minmax_running_max, (a, win, t, meas), r),
        call_ensures(minmax_running_min, (b, win, t, (u32::MAX - meas) as u32), q),
        forall|k: int|
            0 <= k < 3 ==> (#[trigger] old(b).s@[k]).t == old(a).s@[k].t && old(b).s@[k].v == u32::MAX
                - old(a).s@[k].v,
        0 <= i < 3,
    ensures
        q == u32::MAX - r,
        final(b).s@[i].t == final(a).s@[i].t,
        final(b).s@[i].v == u32::MAX - final(a).s@[i].v,
{
    assert(old(b).s@[0].t == old(a).s@[0].t && old(b).s@[1].t == old(a).s@[1].t && old(b).s@[2].t
        == old(a).s@[2].t);
    assert(old(b).s@[0].v == u32::MAX - old(a).s@[0].v && old(b).s@[1].v == u32::MAX - old(a).s@[1].v
        && old(b).s@[2].v == u32::MAX - old(a).s@[2].v);
}

} // verus!
