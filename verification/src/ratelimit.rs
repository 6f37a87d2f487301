//! Rate limiting: not more than `burst` callbacks in every `interval`.

use vstd::prelude::*;

verus! {

/// Set in the flags if the number of suppressed callbacks is reported on release only.
pub const RATELIMIT_MSG_ON_RELEASE: u32 = 1;

/// Set in the flags once a window has begun.
pub const RATELIMIT_INITIALIZED: u32 = 2;

/// What a rate limit knows of its window, at some moment.
pub ghost struct Window {
    pub flags: u32,
    pub begin: usize,
    pub n_left: i32,
    pub missed: i32,
}

/// How the lock of a rate limit is used.
pub ghost enum LockUse {
    /// It is taken, and the window is found as it is.
    Taken { window: Window },
    /// It is given back, and the window is left as it is.
    GivenBack { window: Window },
}

/// The lock of a rate limit, and how it has been used.
#[derive(Clone, Copy)]
pub struct RateLock {
    held: bool,
    uses: Ghost<Seq<LockUse>>,
}

impl RateLock {
    /// Whether the lock is held.
    pub closed spec fn is_held(self) -> bool {
        self.held
    }

    /// How the lock has been used.
    pub closed spec fn uses(self) -> Seq<LockUse> {
        self.uses@
    }

    /// The lock after it has been taken, where the window was `found`, and given back, where it was
    /// `left`.
    pub closed spec fn cycled(self, found: Window, left: Window) -> RateLock {
        RateLock {
            held: false,
            uses: Ghost(
                self.uses@.push(LockUse::Taken { window: found }).push(
                    LockUse::GivenBack { window: left },
                ),
            ),
        }
    }

    /// A free lock.
    pub fn new() -> (lock: Self)
        ensures
            !lock.is_held(),
            lock.uses() == Seq::<LockUse>::empty(),
    {
        RateLock { held: false, uses: Ghost(Seq::empty()) }
    }
}

/// What a rate limit knows. A zero interval never limits; otherwise a burst that is not positive
/// always limits.
#[allow(non_camel_case_types)]
#[derive(Clone, Copy)]
pub struct ratelimit_state {
    /// The length of a window, in ticks.
    pub interval: i32,
    /// How many callbacks a window has room for.
    pub burst: i32,
    /// How many callbacks are left in the window.
    pub rs_n_left: i32,
    /// How many callbacks have been suppressed.
    pub missed: i32,
    /// [`RATELIMIT_MSG_ON_RELEASE`] and [`RATELIMIT_INITIALIZED`].
    pub flags: u32,
    /// When the window began.
    pub begin: usize,
    /// The lock, which a call holds while it begins a window.
    pub lock: RateLock,
}

impl ratelimit_state {
    /// The window.
    pub open spec fn window(self) -> Window {
        Window {
            flags: self.flags,
            begin: self.begin,
            n_left: self.rs_n_left,
            missed: self.missed,
        }
    }

    /// Takes the lock if it is `free`, and says whether it did.
    fn trylock(&mut self, free: bool) -> (taken: bool)
        requires
            !old(self).lock.is_held(),
        ensures
            taken == free,
            !taken ==> *final(self) == *old(self),
            *final(self) == (ratelimit_state { lock: final(self).lock, ..*old(self) }),
            final(self).lock.is_held() == taken,
            taken ==> final(self).lock.uses() == old(self).lock.uses().push(
                (LockUse::Taken { window: old(self).window() }),
            ),
    {
        if free {
            let ghost found = self.window();
            self.lock.held = true;
            self.lock.uses = Ghost(self.lock.uses@.push(LockUse::Taken { window: found }));
        }
        free
    }

    /// Gives the lock back.
    fn unlock(&mut self)
        requires
            old(self).lock.is_held(),
        ensures
            *final(self) == (ratelimit_state { lock: final(self).lock, ..*old(self) }),
            !final(self).lock.is_held(),
            final(self).lock.uses() == old(self).lock.uses().push(
                (LockUse::GivenBack { window: old(self).window() }),
            ),
    {
        let ghost left = self.window();
        self.lock.held = false;
        self.lock.uses = Ghost(self.lock.uses@.push(LockUse::GivenBack { window: left }));
    }
}

/// What a call meets: whether it got the lock, and what it read while other callers went on.
#[derive(Clone, Copy)]
pub struct Surroundings {
    /// Whether the lock was free.
    pub locked: bool,
    /// The tick counter where a first window begins.
    pub first_tick: usize,
    /// The tick counter where the end of the window is tested.
    pub test_tick: usize,
    /// The tick counter where the next window begins.
    pub next_tick: usize,
    /// The burst as it was read under the lock: it can be changed at any time.
    pub burst: i32,
    /// How many callbacks parallel calls took between the test whether one is left and the attempt
    /// to take one.
    pub taken: i32,
}

/// What a call reports.
#[derive(Clone, Copy)]
pub struct Limited {
    /// 1 to go ahead, 0 if the callback is suppressed.
    pub ret: i32,
    /// The negative interval or burst that a warning is about.
    pub warning: Option<(i32, i32)>,
    /// How many suppressed callbacks a message tells of.
    pub suppressed: Option<i32>,
}

/// Whether a window has begun.
pub open spec fn initialized(rs: ratelimit_state) -> bool {
    rs.flags & RATELIMIT_INITIALIZED != 0
}

/// Whether the tick `now` is after `a`, where ticks wrap around.
pub open spec fn is_after(now: usize, a: usize) -> bool {
    a.wrapping_sub(now) > usize::MAX / 2
}

/// The end of the window.
pub open spec fn window_end(rs: ratelimit_state) -> usize {
    rs.begin.wrapping_add(rs.interval as usize)
}

/// The state with a suppressed callback counted, unless it goes ahead.
pub open spec fn counted(rs: ratelimit_state, ret: i32) -> ratelimit_state {
    ratelimit_state {
        missed: if ret == 0 {
            rs.missed.wrapping_add(1)
        } else {
            rs.missed
        },
        ..rs
    }
}

/// Whether a callback can be taken.
pub open spec fn can_take(rs: ratelimit_state, taken: i32) -> bool {
    rs.rs_n_left > 0 && rs.rs_n_left.wrapping_sub(taken).wrapping_sub(1) >= 0
}

/// The state after the attempt to take a callback.
pub open spec fn after_take(rs: ratelimit_state, taken: i32) -> ratelimit_state {
    ratelimit_state {
        rs_n_left: if rs.rs_n_left > 0 {
            rs.rs_n_left.wrapping_sub(taken).wrapping_sub(1)
        } else {
            rs.rs_n_left
        },
        ..rs
    }
}

/// The state once a first window has begun.
pub open spec fn begun(rs: ratelimit_state, s: Surroundings) -> ratelimit_state {
    if initialized(rs) {
        rs
    } else {
        ratelimit_state {
            begin: s.first_tick,
            flags: rs.flags | RATELIMIT_INITIALIZED,
            rs_n_left: s.burst,
            ..rs
        }
    }
}

/// Whether the window has passed.
pub open spec fn passed(rs: ratelimit_state, s: Surroundings) -> bool {
    is_after(s.test_tick, window_end(rs))
}

/// Whether the window that passes is reported: its suppressed callbacks are not counted any longer.
pub open spec fn reported(rs: ratelimit_state, s: Surroundings) -> bool {
    passed(rs, s) && rs.flags & RATELIMIT_MSG_ON_RELEASE == 0
}

/// The state in the window of the call.
pub open spec fn renewed(rs: ratelimit_state, s: Surroundings) -> ratelimit_state {
    if passed(rs, s) {
        ratelimit_state {
            rs_n_left: s.burst,
            begin: s.next_tick,
            missed: if reported(rs, s) {
                0
            } else {
                rs.missed
            },
            ..rs
        }
    } else {
        rs
    }
}

/// Whether the limit is off: nothing or everything is limited.
pub open spec fn off(rs: ratelimit_state) -> bool {
    rs.interval <= 0 || rs.burst <= 0
}

/// What a call returns.
pub open spec fn go_ahead(rs: ratelimit_state, s: Surroundings) -> i32 {
    let yes = if off(rs) {
        rs.interval == 0 || rs.burst > 0
    } else if !s.locked {
        initialized(rs) && can_take(rs, s.taken)
    } else {
        can_take(renewed(begun(rs, s), s), s.taken)
    };
    if yes {
        1
    } else {
        0
    }
}

/// Whether a call takes the lock: it gives it back before it returns.
pub open spec fn takes_lock(rs: ratelimit_state, s: Surroundings) -> bool {
    s.locked && (off(rs) ==> initialized(rs) && !(rs.interval == 0 && rs.burst == 0))
}

/// The state once a call has done its work, before a suppressed callback is counted.
pub open spec fn worked(rs: ratelimit_state, s: Surroundings) -> ratelimit_state {
    if off(rs) {
        if takes_lock(rs, s) {
            ratelimit_state { flags: rs.flags & !RATELIMIT_INITIALIZED, ..rs }
        } else {
            rs
        }
    } else if !s.locked {
        if initialized(rs) {
            after_take(rs, s.taken)
        } else {
            rs
        }
    } else {
        after_take(renewed(begun(rs, s), s), s.taken)
    }
}

/// The state after a call. Where it takes the lock, it does its work before it gives the lock back.
pub open spec fn limited_state(rs: ratelimit_state, s: Surroundings) -> ratelimit_state {
    let after = counted(worked(rs, s), go_ahead(rs, s));
    if takes_lock(rs, s) {
        ratelimit_state {
            lock: rs.lock.cycled(rs.window(), worked(rs, s).window()),
            ..after
        }
    } else {
        after
    }
}

/// Whether the tick `now` is after `a`.
fn time_is_before(a: usize, now: usize) -> (r: bool)
    ensures
        r == is_after(now, a),
{
    a.wrapping_sub(now) > usize::MAX / 2
}

/// The end of a call that does not hold the lock any longer.
fn nolock_ret(rs: &mut ratelimit_state, ret: i32)
    ensures
        *final(rs) == counted(*old(rs), ret),
{
    if ret == 0 {
        rs.missed = rs.missed.wrapping_add(1);
    }
}

/// The end of a call that holds the lock.
fn unlock_ret(rs: &mut ratelimit_state, ret: i32)
    requires
        old(rs).lock.is_held(),
    ensures
        *final(rs) == (ratelimit_state { lock: final(rs).lock, ..counted(*old(rs), ret) }),
        !final(rs).lock.is_held(),
        final(rs).lock.uses() == old(rs).lock.uses().push(
            (LockUse::GivenBack { window: old(rs).window() }),
        ),
{
    rs.unlock();
    nolock_ret(rs, ret);
}

/// Takes a callback if one is left. The burst might be taken by a parallel call.
fn take(rs: &mut ratelimit_state, taken: i32) -> (ret: i32)
    ensures
        ret == (if can_take(*old(rs), taken) {
            1i32
        } else {
            0i32
        }),
        *final(rs) == after_take(*old(rs), taken),
{
    if rs.rs_n_left > 0 {
        rs.rs_n_left = rs.rs_n_left.wrapping_sub(taken).wrapping_sub(1);
        if rs.rs_n_left >= 0 {
            1
        } else {
            0
        }
    } else {
        0
    }
}

/// Enforces a rate limit: not more than `burst` callbacks in every `interval`.
///
/// Returns 0 when the callback will be suppressed, 1 when to go ahead and do it.
pub fn ___ratelimit(rs: &mut ratelimit_state, s: Surroundings) -> (r: Limited)
    requires
        !old(rs).lock.is_held(),
    ensures
        !final(rs).lock.is_held(),
        final(rs).lock.uses() == if takes_lock(*old(rs), s) {
            old(rs).lock.uses() + seq![
                LockUse::Taken { window: old(rs).window() },
                LockUse::GivenBack { window: worked(*old(rs), s).window() },
            ]
        } else {
            old(rs).lock.uses()
        },
        r.ret == go_ahead(*old(rs), s),
        *final(rs) == limited_state(*old(rs), s),
        r.warning == (if off(*old(rs)) && (old(rs).interval < 0 || old(rs).burst < 0) {
            Some((old(rs).interval, old(rs).burst))
        } else {
            None
        }),
        r.suppressed == (if !off(*old(rs)) && s.locked && reported(begun(*old(rs), s), s)
            && old(rs).missed != 0 {
            Some(old(rs).missed)
        } else {
            None
        }),
{
    let interval = rs.interval;
    let burst = rs.burst;
    // A zero interval says never limit, otherwise, a burst that is not positive says always limit.
    if interval <= 0 || burst <= 0 {
        let warning = if interval < 0 || burst < 0 {
            Some((interval, burst))
        } else {
            None
        };
        let ret: i32 = if interval == 0 || burst > 0 {
            1
        } else {
            0
        };
        if rs.flags & RATELIMIT_INITIALIZED == 0 || (interval == 0 && burst == 0) {
            nolock_ret(rs, ret);
            return Limited { ret, warning, suppressed: None };
        }
        if !rs.trylock(s.locked) {
            nolock_ret(rs, ret);
            return Limited { ret, warning, suppressed: None };
        }
        // Force re-initialization once re-enabled.
        rs.flags = rs.flags & !RATELIMIT_INITIALIZED;
        unlock_ret(rs, ret);
        return Limited { ret, warning, suppressed: None };
    }
    // Where the lock is contended, just check whether the current burst is used up.
    if !rs.trylock(s.locked) {
        let ret: i32 = if rs.flags & RATELIMIT_INITIALIZED != 0 {
            take(rs, s.taken)
        } else {
            0
        };
        nolock_ret(rs, ret);
        return Limited { ret, warning: None, suppressed: None };
    }
    proof {
        let f = rs.flags;
        assert((f | 2u32) & 2u32 != 0) by (bit_vector);
        assert((f | 2u32) & 1u32 == f & 1u32) by (bit_vector);
    }
    if rs.flags & RATELIMIT_INITIALIZED == 0 {
        rs.begin = s.first_tick;
        rs.flags = rs.flags | RATELIMIT_INITIALIZED;
        rs.rs_n_left = s.burst;
    }
    let end = rs.begin.wrapping_add(interval as usize);
    let mut suppressed: Option<i32> = None;
    if time_is_before(end, s.test_tick) {
        rs.rs_n_left = s.burst;
        rs.begin = s.next_tick;
        if rs.flags & RATELIMIT_MSG_ON_RELEASE == 0 {
            let m = rs.missed;
            rs.missed = 0;
            if m != 0 {
                suppressed = Some(m);
            }
        }
    }
    let ret = take(rs, s.taken);
    unlock_ret(rs, ret);
    Limited { ret, warning: None, suppressed }
}

/// The state that a call finds once it has the window to take its callback from, if it tries to.
pub open spec fn window_of(rs: ratelimit_state, s: Surroundings) -> Option<ratelimit_state> {
    if off(rs) || !s.locked && !initialized(rs) {
        None
    } else if !s.locked {
        Some(rs)
    } else {
        Some(renewed(begun(rs, s), s))
    }
}

/// How many callbacks go ahead in a call: its own, and those that parallel calls took meanwhile.
pub open spec fn granted_in(rs: ratelimit_state, s: Surroundings) -> int {
    let n: int = match window_of(rs, s) {
        Some(w) => w.rs_n_left as int,
        None => 0,
    };
    let parallel = if n <= 0 {
        0
    } else if s.taken < n {
        s.taken as int
    } else {
        n
    };
    go_ahead(rs, s) + parallel
}

/// How many callbacks go ahead in a sequence of calls.
pub open spec fn granted(rs: ratelimit_state, calls: Seq<Surroundings>) -> int
    decreases calls.len(),
{
    if calls.len() == 0 {
        0
    } else {
        granted_in(rs, calls[0]) + granted(limited_state(rs, calls[0]), calls.skip(1))
    }
}

/// Whether so many parallel calls can have taken a callback: less than a machine integer counts.
pub open spec fn can_be_taken(n_left: i32, taken: i32) -> bool {
    taken >= 0 && n_left - taken - 1 >= i32::MIN
}

/// Whether a sequence of calls stays in one window.
pub open spec fn in_window(rs: ratelimit_state, calls: Seq<Surroundings>) -> bool
    decreases calls.len(),
{
    calls.len() == 0 || {
        &&& calls[0].locked ==> initialized(rs) && !passed(rs, calls[0])
        &&& can_be_taken(rs.rs_n_left, calls[0].taken)
        &&& in_window(limited_state(rs, calls[0]), calls.skip(1))
    }
}

/// In one window no more callbacks go ahead than the window has left, however many calls there are,
/// and whether or not they get the lock.
pub proof fn law_window_grants_what_is_left(rs: ratelimit_state, calls: Seq<Surroundings>)
    requires
        !off(rs),
        in_window(rs, calls),
    ensures
        granted(rs, calls) <= (if rs.rs_n_left > 0 {
            rs.rs_n_left as int
        } else {
            0
        }),
    decreases calls.len(),
{
    if calls.len() > 0 {
        let next = limited_state(rs, calls[0]);
        assert(next.interval == rs.interval && next.burst == rs.burst);
        law_window_grants_what_is_left(next, calls.skip(1));
    }
}

/// Not more than `burst` callbacks go ahead in a window: in the call that begins it and in those
/// that follow in it.
pub proof fn law_window_grants_no_more_than_burst(
    rs: ratelimit_state,
    first: Surroundings,
    calls: Seq<Surroundings>,
)
    requires
        !off(rs),
        first.locked,
        first.burst >= 0,
        can_be_taken(first.burst, first.taken),
        !initialized(rs) || passed(rs, first),
        in_window(limited_state(rs, first), calls),
    ensures
        granted_in(rs, first) + granted(limited_state(rs, first), calls) <= first.burst,
{
    let f = rs.flags;
    assert((f | 2u32) & 2u32 != 0) by (bit_vector);
    let next = limited_state(rs, first);
    assert(renewed(begun(rs, first), first).rs_n_left == first.burst);
    law_window_grants_what_is_left(next, calls);
}

/// The state after the first `k` of a sequence of calls.
pub open spec fn after_calls(rs: ratelimit_state, calls: Seq<Surroundings>, k: int) -> ratelimit_state
    decreases k,
{
    if k <= 0 {
        rs
    } else {
        limited_state(after_calls(rs, calls, k - 1), calls[k - 1])
    }
}

/// In one window, where no other call takes a callback meanwhile, the first calls go ahead, as many as
/// the window has left, and no other; and the window stays.
pub proof fn law_first_calls_go_ahead(rs: ratelimit_state, calls: Seq<Surroundings>, k: int)
    requires
        !off(rs),
        initialized(rs),
        in_window(rs, calls),
        forall|i: int| 0 <= i < calls.len() ==> (#[trigger] calls[i]).taken == 0,
        0 <= k < calls.len(),
    ensures
        go_ahead(after_calls(rs, calls, k), calls[k]) == (if k < rs.rs_n_left {
            1i32
        } else {
            0i32
        }),
        limited_state(after_calls(rs, calls, k), calls[k]).begin == rs.begin,
        limited_state(after_calls(rs, calls, k), calls[k]).rs_n_left == (if k < rs.rs_n_left {
            rs.rs_n_left - k - 1
        } else if rs.rs_n_left > 0 {
            0
        } else {
            rs.rs_n_left as int
        }),
    decreases calls.len(),
{
    if k > 0 {
        let next = limited_state(rs, calls[0]);
        let rest = calls.skip(1);
        assert forall|i: int| 0 <= i < rest.len() implies (#[trigger] rest[i]).taken == 0 by {
            assert(rest[i] == calls[i + 1]);
        }
        law_first_calls_go_ahead(next, rest, k - 1);
        lemma_after_calls(rs, calls, k);
        assert(rest[k - 1] == calls[k]);
    }
}

proof fn lemma_after_calls(rs: ratelimit_state, calls: Seq<Surroundings>, k: int)
    requires
        0 < k <= calls.len(),
    ensures
        after_calls(rs, calls, k) == after_calls(
            limited_state(rs, calls[0]),
            calls.skip(1),
            k - 1,
        ),
    decreases k,
{
    reveal_with_fuel(after_calls, 2);
    if k > 1 {
        lemma_after_calls(rs, calls, k - 1);
        assert(calls.skip(1)[k - 2] == calls[k - 1]);
    }
}

/// A window begins and ends with the lock held only: a call that does not take the lock leaves when it
/// began, and one that does leaves it as it is when the lock is given back.
pub proof fn law_window_changes_under_the_lock(rs: ratelimit_state, s: Surroundings)
    ensures
        ({
            let next = limited_state(rs, s);
            let given_back = next.lock.uses().last();
            &&& !takes_lock(rs, s) ==> next.begin == rs.begin && next.flags == rs.flags
                && next.lock == rs.lock
            &&& takes_lock(rs, s) ==> {
                &&& given_back is GivenBack
                &&& given_back->GivenBack_window.begin == next.begin
                &&& given_back->GivenBack_window.flags == next.flags
                &&& given_back->GivenBack_window.n_left == next.rs_n_left
            }
        }),
{
}

/// Every call that does not go ahead is counted as missed, until a message tells of it.
pub proof fn law_suppressed_calls_are_counted(rs: ratelimit_state, s: Surroundings)
    requires
        go_ahead(rs, s) == 0,
        off(rs) || !s.locked || !reported(begun(rs, s), s),
    ensures
        limited_state(rs, s).missed == rs.missed.wrapping_add(1),
{
}

/// A zero interval never limits. Otherwise a burst that is not positive always limits, and a negative
/// interval does not limit where the burst is positive.
pub proof fn law_limits_that_are_off(rs: ratelimit_state, s: Surroundings)
    ensures
        rs.interval == 0 ==> go_ahead(rs, s) == 1,
        rs.interval != 0 && rs.burst <= 0 ==> go_ahead(rs, s) == 0,
        rs.interval < 0 && rs.burst > 0 ==> go_ahead(rs, s) == 1,
        off(rs) <==> rs.interval <= 0 || rs.burst <= 0,
        go_ahead(rs, s) == 0 || go_ahead(rs, s) == 1,
{
}

/// Where a limit is off, its window ends, if the call gets the lock and the limit is not zero in both
/// values: once it is on again, a new one begins. Nothing else changes but the count of missed calls.
pub proof fn law_window_ends_where_the_limit_is_off(rs: ratelimit_state, s: Surroundings)
    requires
        rs.interval <= 0 || rs.burst <= 0,
    ensures
        ({
            let next = limited_state(rs, s);
            &&& s.locked && (rs.interval != 0 || rs.burst != 0) ==> !initialized(next)
            &&& !s.locked || rs.interval == 0 && rs.burst == 0 ==> next.flags == rs.flags
            &&& next.flags & 1 == rs.flags & 1
            &&& (next.begin, next.rs_n_left) == (rs.begin, rs.rs_n_left)
            &&& (next.interval, next.burst) == (rs.interval, rs.burst)
            &&& next.missed == if go_ahead(rs, s) == 0 {
                rs.missed.wrapping_add(1)
            } else {
                rs.missed
            }
        }),
{
    let f = rs.flags;
    assert((f & !2u32) & 2u32 == 0) by (bit_vector);
    assert((f & !2u32) & 1u32 == f & 1u32) by (bit_vector);
}

/// The flags that are looked at: the lowest bit keeps the count of missed calls for a later message, the
/// next one says that a window has begun.
pub proof fn law_flags(rs: ratelimit_state, s: Surroundings)
    ensures
        initialized(rs) <==> rs.flags / 2 % 2 == 1,
        reported(rs, s) <==> passed(rs, s) && rs.flags % 2 == 0,
{
    let f = rs.flags;
    assert((f & 2u32 != 0) == (f / 2 % 2 == 1)) by (bit_vector);
    assert((f & 1u32 == 0) == (f % 2 == 0)) by (bit_vector);
}

/// A window has passed once more ticks than its interval have gone by, also where the tick counter
/// wraps around.
pub proof fn law_window_passes(rs: ratelimit_state, s: Surroundings, ticks: usize)
    requires
        rs.interval > 0,
        ticks <= usize::MAX / 2,
        s.test_tick == rs.begin.wrapping_add(ticks),
    ensures
        passed(rs, s) <==> ticks > rs.interval,
{
}

/// A call that begins a window, because there is none or because it has passed, finds the whole burst:
/// it goes ahead if no other takes it away, and one callback less is left.
pub proof fn law_new_window(rs: ratelimit_state, s: Surroundings)
    requires
        rs.interval > 0,
        rs.burst > 0,
        s.locked,
        s.burst > 0,
        0 <= s.taken < s.burst,
        !initialized(rs) || passed(rs, s),
    ensures
        ({
            let next = limited_state(rs, s);
            &&& go_ahead(rs, s) == 1
            &&& next.rs_n_left == s.burst - s.taken - 1
            &&& initialized(next)
            &&& initialized(rs) ==> next.begin == s.next_tick
            &&& !initialized(rs) && s.test_tick == s.first_tick ==> next.begin == s.first_tick
            &&& (next.interval, next.burst) == (rs.interval, rs.burst)
            &&& next.flags % 2 == rs.flags % 2
        }),
{
    let f = rs.flags;
    assert((f | 2u32) & 2u32 != 0) by (bit_vector);
    assert((f | 2u32) % 2 == f % 2) by (bit_vector);
    if !initialized(rs) && s.test_tick == s.first_tick {
        law_window_passes(begun(rs, s), s, 0);
    }
}

/// In a window that has not passed, a call goes ahead exactly if a callback is left that no other takes
/// away, and leaves one less; when the window began stays.
pub proof fn law_call_in_a_window(rs: ratelimit_state, s: Surroundings)
    requires
        rs.interval > 0,
        rs.burst > 0,
        initialized(rs),
        !s.locked || !passed(rs, s),
        can_be_taken(rs.rs_n_left, s.taken),
    ensures
        ({
            let next = limited_state(rs, s);
            &&& go_ahead(rs, s) == 1 <==> rs.rs_n_left > s.taken
            &&& rs.rs_n_left > 0 ==> next.rs_n_left == rs.rs_n_left - s.taken - 1
            &&& rs.rs_n_left <= 0 ==> next.rs_n_left == rs.rs_n_left
            &&& (next.begin, next.flags) == (rs.begin, rs.flags)
            &&& next.missed == if rs.rs_n_left > s.taken {
                rs.missed
            } else {
                rs.missed.wrapping_add(1)
            }
        }),
{
}

/// A call that does not get the lock while no window has begun is suppressed.
pub proof fn law_no_window_without_the_lock(rs: ratelimit_state, s: Surroundings)
    requires
        rs.interval > 0,
        rs.burst > 0,
        !initialized(rs),
        !s.locked,
    ensures
        go_ahead(rs, s) == 0,
        limited_state(rs, s) == (ratelimit_state { missed: rs.missed.wrapping_add(1), ..rs }),
{
}

/// When a window has passed, the count of missed calls begins anew, unless a message on release is to
/// tell of it.
pub proof fn law_missed_calls_are_reported(rs: ratelimit_state, s: Surroundings)
    requires
        rs.interval > 0,
        rs.burst > 0,
        initialized(rs),
        s.locked,
        passed(rs, s),
    ensures
        ({
            let next = limited_state(rs, s);
            let own: i32 = if go_ahead(rs, s) == 0 {
                1
            } else {
                0
            };
            &&& rs.flags % 2 == 0 ==> next.missed == own
            &&& rs.flags % 2 == 1 ==> next.missed == rs.missed.wrapping_add(own)
        }),
{
    law_flags(rs, s);
}

/// A call that begins a window goes ahead, and so do the next ones in it, up to the burst; the one behind
/// them is suppressed, and counted.
pub proof fn law_burst(
    a: &mut ratelimit_state,
    s: Surroundings,
    first: Limited,
    b: &mut ratelimit_state,
    t: Surroundings,
    second: Limited,
)
    requires
        old(a).interval > 0,
        old(a).burst == 1,
        old(a).missed == 0,
        !initialized(*old(a)),
        s.locked && t.locked,
        s.burst == 1 && s.taken == 0 && t.taken == 0,
        s.first_tick == s.test_tick,
        t.test_tick == s.first_tick,
        call_ensures(___ratelimit, (a, s), first),
        *old(b) == *final(a),
        call_ensures(___ratelimit, (b, t), second),
    ensures
        first.ret == 1,
        first.suppressed is None && first.warning is None,
        second.ret == 0,
        final(b).missed == 1,
        final(b).begin == s.first_tick,
{
    law_window_passes(begun(*old(a), s), s, 0);
    lemma_new_window(*old(a), s);
    law_window_passes(*old(b), t, 0);
}

/// A call that finds no window, and at whose end none has passed, begins one.
proof fn lemma_new_window(rs: ratelimit_state, s: Surroundings)
    requires
        rs.interval > 0,
        rs.burst > 0,
        s.locked,
        s.burst > 0,
        s.taken == 0,
        !initialized(rs),
        s.first_tick == s.test_tick,
    ensures
        initialized(limited_state(rs, s)),
        limited_state(rs, s).begin == s.first_tick,
        limited_state(rs, s).rs_n_left == s.burst - 1,
{
    law_new_window(rs, s);
}

/// A limit whose interval is zero lets every call go ahead; a burst of zero lets none.
pub proof fn law_limits_of_zero(rs: &mut ratelimit_state, s: Surroundings, r: Limited)
    requires
        call_ensures(___ratelimit, (rs, s), r),
    ensures
        old(rs).interval == 0 ==> r.ret == 1,
        old(rs).interval > 0 && old(rs).burst == 0 ==> r.ret == 0 && r.warning is None,
        old(rs).interval < 0 || old(rs).burst < 0 ==> r.warning == Some(
            (old(rs).interval, old(rs).burst),
        ),
        old(rs).interval > 0 && old(rs).burst > 0 ==> r.warning is None,
        old(rs).interval <= 0 || old(rs).burst <= 0 ==> r.suppressed is None,
        r.suppressed is Some ==> r.suppressed->0 == old(rs).missed && old(rs).missed != 0,
{
}

/// When a call finds that the window has passed, a message tells of the calls that were suppressed in it,
/// if there were any, unless that is left to the release.
pub proof fn law_message(rs: &mut ratelimit_state, s: Surroundings, r: Limited)
    requires
        old(rs).interval > 0,
        old(rs).burst > 0,
        initialized(*old(rs)),
        call_ensures(___ratelimit, (rs, s), r),
    ensures
        s.locked && passed(*old(rs), s) && old(rs).flags % 2 == 0 && old(rs).missed != 0 ==> r.suppressed
            == Some(old(rs).missed),
        !s.locked || !passed(*old(rs), s) || old(rs).flags % 2 == 1 || old(rs).missed == 0
            ==> r.suppressed is None,
{
    law_flags(*old(rs), s);
}

} // verus!
