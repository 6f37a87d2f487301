use klib::ratelimit::{
    ___ratelimit, ratelimit_state, RateLock, Surroundings, RATELIMIT_INITIALIZED, RATELIMIT_MSG_ON_RELEASE,
};
use klib::win_minmax::{minmax, minmax_running_max, minmax_running_min, minmax_sample};

fn limit(interval: i32, burst: i32, flags: u32) -> ratelimit_state {
    ratelimit_state { interval, burst, rs_n_left: 0, missed: 0, flags, begin: 0, lock: RateLock::new() }
}

/// A call that gets the lock at this tick.
fn at(tick: usize, burst: i32) -> Surroundings {
    Surroundings {
        locked: true,
        first_tick: tick,
        test_tick: tick,
        next_tick: tick,
        burst,
        taken: 0,
    }
}

#[test]
fn window_has_room_for_a_burst() {
    let mut rs = limit(100, 3, 0);
    let rets: Vec<i32> = (0..5).map(|i| ___ratelimit(&mut rs, at(1000 + i, 3)).ret).collect();
    assert_eq!(rets, [1, 1, 1, 0, 0]);
    assert_eq!((rs.missed, rs.begin), (2, 1000));
    // The next window begins when the first has ended, and tells of what was missed.
    assert_eq!(___ratelimit(&mut rs, at(1100, 3)).ret, 0);
    let r = ___ratelimit(&mut rs, at(1101, 3));
    assert_eq!((r.ret, r.suppressed, r.warning), (1, Some(3), None));
    assert_eq!((rs.missed, rs.begin, rs.rs_n_left), (0, 1101, 2));
}

#[test]
fn message_can_wait_for_the_release() {
    let mut rs = limit(100, 1, RATELIMIT_MSG_ON_RELEASE);
    assert_eq!(___ratelimit(&mut rs, at(1000, 1)).ret, 1);
    assert_eq!(___ratelimit(&mut rs, at(1000, 1)).ret, 0);
    let r = ___ratelimit(&mut rs, at(1101, 1));
    assert_eq!((r.ret, r.suppressed), (1, None));
    assert_eq!(rs.missed, 1);
}

#[test]
fn limits_that_are_off() {
    // A zero interval never limits.
    let mut rs = limit(0, 0, 0);
    let r = ___ratelimit(&mut rs, at(5, 0));
    assert_eq!((r.ret, r.warning), (1, None));
    // A burst that is not positive always does.
    let mut rs = limit(100, 0, 0);
    let r = ___ratelimit(&mut rs, at(5, 0));
    assert_eq!((r.ret, r.warning), (0, None));
    assert_eq!(rs.missed, 1);
    let mut rs = limit(-1, 5, RATELIMIT_INITIALIZED);
    let r = ___ratelimit(&mut rs, at(5, 5));
    assert_eq!((r.ret, r.warning), (1, Some((-1, 5))));
    assert_eq!(rs.flags, 0);
}

#[test]
fn without_the_lock_the_current_window_counts() {
    let mut rs = limit(100, 2, 0);
    let busy = Surroundings { locked: false, ..at(1000, 2) };
    assert_eq!(___ratelimit(&mut rs, busy).ret, 0);
    assert_eq!(___ratelimit(&mut rs, at(1000, 2)).ret, 1);
    assert_eq!(___ratelimit(&mut rs, busy).ret, 1);
    assert_eq!(___ratelimit(&mut rs, busy).ret, 0);
    assert_eq!(rs.missed, 2);
    // Others take what was left.
    let mut rs = limit(100, 2, 0);
    assert_eq!(___ratelimit(&mut rs, at(1000, 2)).ret, 1);
    assert_eq!(___ratelimit(&mut rs, Surroundings { taken: 1, ..busy }).ret, 0);
}

fn tracker(t: u32, v: u32) -> minmax {
    minmax { s: [minmax_sample { t, v }; 3] }
}

fn samples(m: &minmax) -> [(u32, u32); 3] {
    [(m.s[0].t, m.s[0].v), (m.s[1].t, m.s[1].v), (m.s[2].t, m.s[2].v)]
}

#[test]
fn new_maximum_forgets_the_rest() {
    let mut m = tracker(0, 10);
    assert_eq!(minmax_running_max(&mut m, 100, 5, 10), 10);
    assert_eq!(samples(&m), [(5, 10); 3]);
    assert_eq!(minmax_running_max(&mut m, 100, 6, 50), 50);
    assert_eq!(samples(&m), [(6, 50); 3]);
}

#[test]
fn maximum_leaves_the_window() {
    let mut m = tracker(0, 100);
    // A second choice from the second quarter, and a third one from the last half.
    assert_eq!(minmax_running_max(&mut m, 100, 30, 80), 100);
    assert_eq!(samples(&m), [(0, 100), (30, 80), (30, 80)]);
    assert_eq!(minmax_running_max(&mut m, 100, 60, 70), 100);
    assert_eq!(samples(&m), [(0, 100), (30, 80), (60, 70)]);
    assert_eq!(minmax_running_max(&mut m, 100, 101, 60), 80);
    assert_eq!(samples(&m), [(30, 80), (60, 70), (101, 60)]);
    assert_eq!(minmax_running_max(&mut m, 100, 161, 50), 60);
    // Nothing is left in the window.
    assert_eq!(minmax_running_max(&mut m, 100, 1000, 1), 1);
    assert_eq!(samples(&m), [(1000, 1); 3]);
}

#[test]
fn clock_goes_round() {
    let mut m = tracker(u32::MAX - 10, 100);
    assert_eq!(minmax_running_max(&mut m, 100, 20, 80), 100);
    assert_eq!(minmax_running_max(&mut m, 100, 95, 70), 80);
}

#[test]
fn minimum_is_tracked_the_same_way() {
    let mut m = tracker(0, 10);
    assert_eq!(minmax_running_min(&mut m, 100, 30, 20), 10);
    assert_eq!(minmax_running_min(&mut m, 100, 60, 30), 10);
    assert_eq!(samples(&m), [(0, 10), (30, 20), (60, 30)]);
    assert_eq!(minmax_running_min(&mut m, 100, 61, 15), 10);
    assert_eq!(samples(&m), [(0, 10), (61, 15), (61, 15)]);
    assert_eq!(minmax_running_min(&mut m, 100, 101, 40), 15);
    assert_eq!(minmax_running_min(&mut m, 100, 102, 5), 5);
    assert_eq!(samples(&m), [(102, 5); 3]);
}
