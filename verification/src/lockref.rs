//! Reference counts that a lock goes with.
//!
//! Where the machine can change the lock and the count in one access, the count is changed without
//! the lock, as long as the lock is free: a processor tries that a hundred times, and takes the lock
//! then. A count below zero is that of a dead object.

use vstd::prelude::*;

verus! {

/// The count of a dead object.
pub const LOCKREF_DEAD_VAL: i32 = -128;

/// How often the count is tried to be changed without the lock.
pub const RETRIES: u32 = 100;

/// The lock and the count, as one word.
#[derive(Clone, Copy)]
pub struct LockCount {
    pub locked: bool,
    pub count: i32,
}

/// The state of a lock and a count: what they are, and what the other processors will make of them,
/// one entry for each of their turns.
#[verifier::ext_equal]
pub ghost struct LockrefState {
    pub w: LockCount,
    pub others: Seq<Option<LockCount>>,
    /// Whether the machine can change the lock and the count in one access.
    pub lockless: bool,
}

impl LockrefState {
    /// The word after the next turn of the other processors.
    pub open spec fn now(self) -> LockCount {
        if self.others.len() > 0 && self.others[0] is Some {
            self.others[0]->0
        } else {
            self.w
        }
    }

    /// The state with the word `w`, after the next turn of the other processors.
    pub open spec fn then_is(self, w: LockCount) -> LockrefState {
        LockrefState {
            w,
            others: if self.others.len() > 0 {
                self.others.drop_first()
            } else {
                self.others
            },
            lockless: self.lockless,
        }
    }

    /// The state with the count `count`.
    pub open spec fn counts(self, count: i32) -> LockrefState {
        LockrefState { w: LockCount { count, ..self.w }, ..self }
    }

    /// The state with the lock held or free.
    pub open spec fn lock_is(self, locked: bool) -> LockrefState {
        LockrefState { w: LockCount { locked, ..self.w }, ..self }
    }

    /// The state in which a processor that waits for the lock gets it, with the lock held.
    pub open spec fn acquired(self) -> LockrefState
        decreases self.others.len(),
    {
        if !self.w.locked || self.others.len() == 0 {
            self.lock_is(true)
        } else {
            self.then_is(self.now()).acquired()
        }
    }

    /// Whether the other processors will leave the lock free at some time.
    pub open spec fn gets_free(self) -> bool
        decreases self.others.len(),
    {
        if !self.w.locked {
            true
        } else if self.others.len() == 0 {
            false
        } else {
            self.then_is(self.now()).gets_free()
        }
    }

    /// Whether the lock gets free whenever this processor waits for it.
    pub open spec fn fair(self) -> bool
        decreases self.others.len(),
    {
        self.gets_free() && (self.others.len() > 0 ==> self.then_is(self.now()).fair())
    }
}

/// A lock and a reference count.
#[allow(non_camel_case_types)]
pub struct lockref {
    word: LockCount,
    others: Vec<Option<LockCount>>,
    next: usize,
    lockless: bool,
}

impl View for lockref {
    type V = LockrefState;

    closed spec fn view(&self) -> LockrefState {
        LockrefState {
            w: self.word,
            others: self.others@.skip(self.next as int),
            lockless: self.lockless,
        }
    }
}

/// The state with a free lock and a count that no other processor changes.
pub open spec fn alone(count: i32, lockless: bool) -> LockrefState {
    LockrefState { w: LockCount { locked: false, count }, others: Seq::empty(), lockless }
}

/// How changing the count without the lock ends.
#[derive(Clone, Copy)]
pub enum FastResult {
    /// The count is changed, to this.
    Updated(i32),
    /// The count must not be changed.
    Rejected,
    /// The lock is held, or the other processors were faster each time, or the machine cannot do it.
    Contended,
}

/// Which counts may be changed.
#[derive(Clone, Copy)]
pub enum Allowed {
    /// All.
    Any,
    /// Those above a bound.
    Above(i32),
}

/// Whether a count may be changed.
pub open spec fn allows(allowed: Allowed, count: i32) -> bool {
    match allowed {
        Allowed::Any => true,
        Allowed::Above(bound) => count > bound,
    }
}

/// How changing the count by `delta` without the lock ends, with `retry` tries left, from the state
/// `s` on: the state, and the result.
pub open spec fn fast(s: LockrefState, delta: i32, allowed: Allowed, retry: int) -> (
    LockrefState,
    FastResult,
)
    decreases retry,
{
    let next = s.w.count.wrapping_add(delta);
    if !s.lockless || s.w.locked {
        (s, FastResult::Contended)
    } else if !allows(allowed, s.w.count) {
        (s, FastResult::Rejected)
    } else if s.now() == s.w {
        (s.then_is(LockCount { locked: false, count: next }), FastResult::Updated(next))
    } else if retry <= 1 {
        (s.then_is(s.now()), FastResult::Contended)
    } else {
        fast(s.then_is(s.now()), delta, allowed, retry - 1)
    }
}

impl lockref {
    #[verifier::type_invariant]
    spec fn inv(self) -> bool {
        self.next <= self.others@.len()
    }

    /// A free lock and a count that no other processor changes, on a machine that can change them in
    /// one access.
    pub fn new(count: i32) -> (l: Self)
        ensures
            l@ == alone(count, true),
    {
        let l = lockref {
            word: LockCount { locked: false, count },
            others: Vec::new(),
            next: 0,
            lockless: true,
        };
        assert(l@.others =~= Seq::<Option<LockCount>>::empty());
        l
    }

    /// A lock and a count that other processors change; `lockless` says whether the machine can
    /// change them in one access.
    pub fn contended(word: LockCount, others: Vec<Option<LockCount>>, lockless: bool) -> (l: Self)
        ensures
            l@ == (LockrefState { w: word, others: others@, lockless }),
    {
        let l = lockref { word, others, next: 0, lockless };
        assert(l@.others =~= others@);
        l
    }

    /// Reads the lock and the count.
    pub fn read(&self) -> (word: LockCount)
        ensures
            word == self@.w,
    {
        self.word
    }

    /// Gives the other processors their turn.
    fn turn(&mut self)
        ensures
            final(self)@ == old(self)@.then_is(old(self)@.now()),
    {
        proof {
            use_type_invariant(&*self);
        }
        let ghost before = self@.others;
        if self.next < self.others.len() {
            let other: Option<LockCount> = self.others[self.next];
            if let Some(w) = other {
                self.word = w;
            }
            self.next = self.next + 1;
            proof {
                assert(before[0] == other);
                assert(self@.others =~= before.drop_first());
            }
        }
    }

    /// Writes the lock and the count.
    fn write(&mut self, word: LockCount)
        ensures
            final(self)@ == (LockrefState { w: word, ..old(self)@ }),
    {
        proof {
            use_type_invariant(&*self);
        }
        self.word = word;
    }

    /// Takes the lock.
    pub fn spin_lock(&mut self)
        requires
            old(self)@.gets_free(),
        ensures
            final(self)@ == old(self)@.acquired(),
            final(self)@.w.locked,
    {
        while self.word.locked
            invariant
                self@.gets_free(),
                self@.acquired() == old(self)@.acquired(),
            decreases self@.others.len(),
        {
            self.turn();
        }
        let count: i32 = self.word.count;
        self.write(LockCount { locked: true, count });
    }

    /// Gives the lock back.
    pub fn spin_unlock(&mut self)
        requires
            old(self)@.w.locked,
        ensures
            final(self)@ == old(self)@.lock_is(false),
    {
        let count: i32 = self.word.count;
        self.write(LockCount { locked: false, count });
    }

    /// Writes the count. The lock is held.
    fn write_count(&mut self, count: i32)
        ensures
            final(self)@ == old(self)@.counts(count),
    {
        let locked: bool = self.word.locked;
        self.write(LockCount { locked, count });
    }
}

/// Changes the count by `delta` without the lock.
fn fast_update(value: &mut lockref, delta: i32, allowed: Allowed) -> (r: FastResult)
    ensures
        (final(value)@, r) == fast(old(value)@, delta, allowed, RETRIES as int),
{
    if !value.lockless {
        return FastResult::Contended;
    }
    let mut prior: LockCount = value.read();
    let mut retry: u32 = RETRIES;
    loop
        invariant
            1 <= retry <= 100,
            value@.lockless,
            prior == value@.w,
            fast(value@, delta, allowed, retry as int) == fast(
                old(value)@,
                delta,
                allowed,
                RETRIES as int,
            ),
        decreases retry,
    {
        if prior.locked {
            return FastResult::Contended;
        }
        let free: bool = match allowed {
            Allowed::Any => true,
            Allowed::Above(bound) => prior.count > bound,
        };
        if !free {
            return FastResult::Rejected;
        }
        let next: i32 = prior.count.wrapping_add(delta);
        value.turn();
        let cur: LockCount = value.read();
        if cur.locked == prior.locked && cur.count == prior.count {
            value.write(LockCount { locked: false, count: next });
            return FastResult::Updated(next);
        }
        prior = cur;
        retry = retry - 1;
        if retry == 0 {
            return FastResult::Contended;
        }
    }
}

/// The state after a change that is made with the lock held, and then the lock given back: the count
/// `delta` more, if it may be changed.
pub open spec fn slow(s: LockrefState, delta: i32, allowed: Allowed) -> LockrefState {
    let a = s.acquired();
    if allows(allowed, a.w.count) {
        a.counts(a.w.count.wrapping_add(delta)).lock_is(false)
    } else {
        a.lock_is(false)
    }
}

/// What taking a reference comes to, if the count may be changed: the state, and whether it was.
pub open spec fn taken(s: LockrefState, allowed: Allowed) -> (LockrefState, bool) {
    let (f, r) = fast(s, 1, allowed, RETRIES as int);
    match r {
        FastResult::Updated(_) => (f, true),
        FastResult::Rejected => (f, false),
        FastResult::Contended => (slow(f, 1, allowed), allows(allowed, f.acquired().w.count)),
    }
}

/// The lock gets free for a processor that was not fast enough.
proof fn lemma_fair(s: LockrefState, delta: i32, allowed: Allowed, retry: int)
    requires
        s.fair(),
    ensures
        fast(s, delta, allowed, retry).0.gets_free(),
    decreases retry,
{
    if s.lockless && !s.w.locked && allows(allowed, s.w.count) && s.now() != s.w {
        assert(s.others.len() > 0);
        if retry > 1 {
            lemma_fair(s.then_is(s.now()), delta, allowed, retry - 1);
        }
    }
}

/// Takes a reference. The caller holds one.
pub fn lockref_get(value: &mut lockref)
    requires
        old(value)@.fair(),
    ensures
        final(value)@ == taken(old(value)@, Allowed::Any).0,
        taken(old(value)@, Allowed::Any).1,
{
    proof {
        lemma_fair(value@, 1, Allowed::Any, RETRIES as int);
        lemma_any(value@, 1, RETRIES as int);
    }
    if let FastResult::Updated(_) = fast_update(value, 1, Allowed::Any) {
        return ;
    }
    value.spin_lock();
    let count: i32 = value.read().count;
    value.write_count(count.wrapping_add(1));
    value.spin_unlock();
}

/// A change that is always allowed is not rejected.
proof fn lemma_any(s: LockrefState, delta: i32, retry: int)
    ensures
        !(fast(s, delta, Allowed::Any, retry).1 is Rejected),
    decreases retry,
{
    if retry > 1 {
        lemma_any(s.then_is(s.now()), delta, retry - 1);
    }
}

/// Takes a reference where the count may be changed, and says whether it did.
fn get_allowed(value: &mut lockref, bound: i32) -> (done: bool)
    requires
        old(value)@.fair(),
    ensures
        (final(value)@, done) == taken(old(value)@, Allowed::Above(bound)),
{
    proof {
        lemma_fair(value@, 1, Allowed::Above(bound), RETRIES as int);
    }
    match fast_update(value, 1, Allowed::Above(bound)) {
        FastResult::Updated(_) => {
            return true;
        },
        FastResult::Rejected => {
            return false;
        },
        FastResult::Contended => {},
    }
    value.spin_lock();
    let mut retval: bool = false;
    let count: i32 = value.read().count;
    if count > bound {
        value.write_count(count.wrapping_add(1));
        retval = true;
    }
    value.spin_unlock();
    retval
}

/// Takes a reference unless the count is zero or the object dead, and says whether it did.
pub fn lockref_get_not_zero(value: &mut lockref) -> (done: bool)
    requires
        old(value)@.fair(),
    ensures
        (final(value)@, done) == taken(old(value)@, Allowed::Above(0)),
{
    get_allowed(value, 0)
}

/// Takes a reference unless the object is dead, and says whether it did.
pub fn lockref_get_not_dead(value: &mut lockref) -> (done: bool)
    requires
        old(value)@.fair(),
    ensures
        (final(value)@, done) == taken(old(value)@, Allowed::Above(-1i32)),
{
    get_allowed(value, -1)
}

/// Puts a reference if that can be done without the lock: the new count, or -1.
pub fn lockref_put_return(value: &mut lockref) -> (count: i32)
    ensures
        final(value)@ == fast(old(value)@, -1i32, Allowed::Above(0), RETRIES as int).0,
        count == (match fast(old(value)@, -1i32, Allowed::Above(0), RETRIES as int).1 {
            FastResult::Updated(count) => count as int,
            _ => -1,
        }),
{
    if let FastResult::Updated(count) = fast_update(value, -1i32, Allowed::Above(0)) {
        return count;
    }
    -1
}

/// What putting a reference unless it is the last comes to: the state, and whether it was put. It
/// was not put where the lock is held.
pub open spec fn put(s: LockrefState) -> (LockrefState, bool) {
    let (f, r) = fast(s, -1i32, Allowed::Above(1), RETRIES as int);
    if r is Updated {
        (f, true)
    } else if f.acquired().w.count <= 1 {
        (f.acquired(), false)
    } else {
        (slow(f, -1i32, Allowed::Above(1)), true)
    }
}

/// Puts a reference unless the count is at most one; returns with the lock held then.
pub fn lockref_put_or_lock(value: &mut lockref) -> (done: bool)
    requires
        old(value)@.fair(),
    ensures
        (final(value)@, done) == put(old(value)@),
        !done ==> final(value)@.w.locked,
{
    proof {
        lemma_fair(value@, -1i32, Allowed::Above(1), RETRIES as int);
    }
    if let FastResult::Updated(_) = fast_update(value, -1i32, Allowed::Above(1)) {
        return true;
    }
    value.spin_lock();
    let count: i32 = value.read().count;
    if count <= 1 {
        return false;
    }
    value.write_count(count.wrapping_sub(1));
    value.spin_unlock();
    true
}

/// Marks an object as dead. The caller holds the lock.
pub fn lockref_mark_dead(value: &mut lockref)
    requires
        old(value)@.w.locked,
    ensures
        final(value)@ == old(value)@.counts(LOCKREF_DEAD_VAL),
{
    value.write_count(LOCKREF_DEAD_VAL);
}

/// Whether the count is below zero, and the other processors leave it there.
pub open spec fn stays_dead(s: LockrefState) -> bool {
    &&& s.w.count < 0
    &&& forall|i: int|
        0 <= i < s.others.len() ==> (#[trigger] s.others[i] matches Some(w) ==> w.count < 0)
}

proof fn lemma_acquired_dead(s: LockrefState)
    requires
        stays_dead(s),
    ensures
        stays_dead(s.acquired()),
    decreases s.others.len(),
{
    if s.w.locked && s.others.len() > 0 {
        let t = s.then_is(s.now());
        assert forall|i: int| 0 <= i < t.others.len() implies (#[trigger] t.others[i] matches Some(w)
            ==> w.count < 0) by {
            assert(t.others[i] == s.others[i + 1]);
        }
        lemma_acquired_dead(t);
    }
}

/// No reference is taken on an object that is dead and that the other processors leave dead.
pub proof fn law_dead_is_not_taken(s: LockrefState, bound: i32)
    requires
        bound >= -1,
        stays_dead(s),
    ensures
        !taken(s, Allowed::Above(bound)).1,
        stays_dead(taken(s, Allowed::Above(bound)).0),
{
    lemma_acquired_dead(s);
}

/// Without other processors a reference that is taken and put again leaves the count as it was, and
/// the lock free, whether or not the machine can do it in one access.
pub proof fn law_put_undoes_get(count: i32, lockless: bool)
    requires
        0 < count < 0x7fff_ffff,
    ensures
        taken(alone(count, lockless), Allowed::Above(0)).1,
        put(taken(alone(count, lockless), Allowed::Above(0)).0) == (alone(count, lockless), true),
{
    let s = alone(count, lockless);
    let t = taken(s, Allowed::Above(0)).0;
    assert(t.w == (LockCount { locked: false, count: (count + 1) as i32 }));
    assert(t.others == s.others);
}

proof fn lemma_fast_put(s: LockrefState, retry: int)
    ensures
        fast(s, -1i32, Allowed::Above(1), retry).1 matches FastResult::Updated(n) ==> n >= 1 && fast(
            s,
            -1i32,
            Allowed::Above(1),
            retry,
        ).0.w == (LockCount { locked: false, count: n }),
    decreases retry,
{
    if retry > 1 {
        lemma_fast_put(s.then_is(s.now()), retry - 1);
    }
}

/// The last reference is put only by a processor that gets the lock: putting one leaves at least one,
/// and where none was put, the lock is held and at most one is left.
pub proof fn law_last_put_is_locked(s: LockrefState)
    ensures
        put(s).1 ==> put(s).0.w.count >= 1 && !put(s).0.w.locked,
        !put(s).1 ==> put(s).0.w.count <= 1 && put(s).0.w.locked,
{
    lemma_fast_put(s, RETRIES as int);
    let f = fast(s, -1i32, Allowed::Above(1), RETRIES as int).0;
    lemma_acquired_locked(f);
}

proof fn lemma_acquired_locked(s: LockrefState)
    ensures
        s.acquired().w.locked,
    decreases s.others.len(),
{
    if s.w.locked && s.others.len() > 0 {
        lemma_acquired_locked(s.then_is(s.now()));
    }
}

/// Taking a reference without other processors: one more where the count may be changed, and the lock
/// left free, whether or not the machine can do it in one access.
pub proof fn law_undisturbed_get(count: i32, lockless: bool, bound: i32)
    ensures
        taken(alone(count, lockless), Allowed::Any).0 == alone(count.wrapping_add(1), lockless),
        taken(alone(count, lockless), Allowed::Any).1,
        taken(alone(count, lockless), Allowed::Above(bound)) == if count > bound {
            (alone(count.wrapping_add(1), lockless), true)
        } else {
            (alone(count, lockless), false)
        },
{
    let s = alone(count, lockless);
    assert(s.others =~= Seq::<Option<LockCount>>::empty());
}

/// Putting a reference without other processors: one of several is put and the lock left free; where
/// there is at most one, the count stays and the lock is held.
pub proof fn law_undisturbed_put(count: i32, lockless: bool)
    ensures
        count > 1 ==> put(alone(count, lockless)) == (alone((count - 1) as i32, lockless), true),
        count <= 1 ==> put(alone(count, lockless)) == (
            alone(count, lockless).lock_is(true),
            false,
        ),
{
}

/// Putting a reference without the lock takes one away from a positive count, if the lock is free and
/// the machine can do it; otherwise nothing changes.
pub proof fn law_undisturbed_put_return(s: LockrefState)
    requires
        s.now() == s.w,
    ensures
        ({
            let (state, r) = fast(s, -1i32, Allowed::Above(0), RETRIES as int);
            &&& s.lockless && !s.w.locked && s.w.count > 0 ==> r == FastResult::Updated(
                (s.w.count - 1) as i32,
            ) && state.w == (LockCount { locked: false, count: (s.w.count - 1) as i32 })
            &&& s.lockless && !s.w.locked && s.w.count <= 0 ==> r is Rejected && state == s
            &&& !s.lockless || s.w.locked ==> r is Contended && state == s
        }),
{
}

/// A change that another processor was faster than is tried again from what it left, up to a hundred
/// times; then the lock is needed.
pub proof fn law_lost_races_are_tried_again(s: LockrefState, delta: i32, allowed: Allowed, retry: int)
    requires
        s.lockless,
        !s.w.locked,
        allows(allowed, s.w.count),
        s.now() != s.w,
    ensures
        retry > 1 ==> fast(s, delta, allowed, retry) == fast(
            s.then_is(s.now()),
            delta,
            allowed,
            retry - 1,
        ),
        retry == 1 ==> fast(s, delta, allowed, retry) == (
            s.then_is(s.now()),
            FastResult::Contended,
        ),
        RETRIES == 100,
{
}

/// A count is changed only where it is above the bound, if there is one; zero and dead counts are below
/// the bounds 0 and -1, and a dead count is -128.
pub proof fn law_bounds(count: i32, bound: i32, s: LockrefState)
    ensures
        allows(Allowed::Any, count),
        allows(Allowed::Above(bound), count) <==> count > bound,
        s.counts(LOCKREF_DEAD_VAL).w.count == -128,
        s.counts(count).w.locked == s.w.locked && s.counts(count).others == s.others,
        s.lock_is(true).w.locked && !s.lock_is(false).w.locked,
        s.lock_is(true).w.count == s.w.count && s.lock_is(false).w.count == s.w.count,
{
}

/// Waiting for the lock: a free lock is taken at once, and a lock that is held is waited for through the
/// turns of the other processors. What a change under the lock leaves is a free lock.
pub proof fn law_waiting_for_the_lock(s: LockrefState, delta: i32, allowed: Allowed)
    ensures
        !s.w.locked ==> s.acquired() == s.lock_is(true),
        s.w.locked && s.others.len() > 0 ==> s.acquired() == s.then_is(s.now()).acquired(),
        s.acquired().w.locked,
        !slow(s, delta, allowed).w.locked,
        allows(allowed, s.acquired().w.count) ==> slow(s, delta, allowed).w.count
            == s.acquired().w.count.wrapping_add(delta),
        !allows(allowed, s.acquired().w.count) ==> slow(s, delta, allowed).w.count
            == s.acquired().w.count,
{
    lemma_acquired_locked(s);
}

/// A turn of the other processors leaves what they wrote, if they wrote something.
pub proof fn law_turn(s: LockrefState)
    ensures
        s.others.len() > 0 && s.others[0] is Some ==> s.now() == s.others[0]->0,
        s.others.len() == 0 || s.others[0] is None ==> s.now() == s.w,
        s.others.len() > 0 ==> s.then_is(s.now()).others == s.others.skip(1),
        s.then_is(s.now()).w == s.now(),
{
    if s.others.len() > 0 {
        assert(s.others.skip(1) =~= s.others.drop_first());
    }
}

/// Taking a reference goes without the lock where it can, and otherwise with the lock, from what the
/// attempt left.
pub proof fn law_contended_get(s: LockrefState, allowed: Allowed)
    requires
        fast(s, 1, allowed, RETRIES as int).1 is Contended,
    ensures
        ({
            let f = fast(s, 1, allowed, RETRIES as int).0;
            &&& taken(s, allowed).1 == allows(allowed, f.acquired().w.count)
            &&& taken(s, allowed).1 ==> taken(s, allowed).0.w.count
                == f.acquired().w.count.wrapping_add(1)
            &&& !taken(s, allowed).1 ==> taken(s, allowed).0.w.count == f.acquired().w.count
            &&& !taken(s, allowed).0.w.locked
        }),
{
}

/// A reference that is taken and put again leaves the count as it was; putting the last one takes the lock
/// in its place.
pub proof fn law_get_then_put(
    get: &mut lockref,
    put_one: &mut lockref,
    done: bool,
    put_last: &mut lockref,
    done_too: bool,
    lockless: bool,
)
    requires
        old(get)@ == alone(1, lockless),
        call_ensures(lockref_get, (get,), ()),
        *old(put_one) == *final(get),
        call_ensures(lockref_put_or_lock, (put_one,), done),
        *old(put_last) == *final(put_one),
        call_ensures(lockref_put_or_lock, (put_last,), done_too),
    ensures
        final(get)@.w == (LockCount { locked: false, count: 2 }),
        done,
        final(put_one)@.w == (LockCount { locked: false, count: 1 }),
        !done_too,
        final(put_last)@.w == (LockCount { locked: true, count: 1 }),
{
    law_undisturbed_get(1, lockless, 0);
    law_undisturbed_put(2, lockless);
    law_undisturbed_put(1, lockless);
}

/// A reference is taken on a count of zero only where that is not asked to be refused, and never on a dead
/// object.
pub proof fn law_zero_and_dead_counts(
    a: &mut lockref,
    not_zero: bool,
    b: &mut lockref,
    not_dead: bool,
    count: i32,
    lockless: bool,
)
    requires
        count < i32::MAX,
        old(a)@ == alone(count, lockless),
        old(b)@ == alone(count, lockless),
        call_ensures(lockref_get_not_zero, (a,), not_zero),
        call_ensures(lockref_get_not_dead, (b,), not_dead),
    ensures
        not_zero == (count > 0),
        not_dead == (count >= 0),
        final(a)@.w == (LockCount {
            locked: false,
            count: if count > 0 {
                (count + 1) as i32
            } else {
                count
            },
        }),
        final(b)@.w == (LockCount {
            locked: false,
            count: if count >= 0 {
                (count + 1) as i32
            } else {
                count
            },
        }),
{
    law_undisturbed_get(count, lockless, 0);
    law_undisturbed_get(count, lockless, -1i32);
}

/// Putting a reference without the lock gives the new count, or -1 where the count is not positive or the
/// lock is in the way; marking an object as dead refuses every later reference.
pub proof fn law_put_return(
    value: &mut lockref,
    count: i32,
    dead: &mut lockref,
    later: &mut lockref,
    done: bool,
)
    requires
        old(value)@.others.len() == 0,
        old(value)@.lockless,
        call_ensures(lockref_put_return, (value,), count),
        old(dead)@.others.len() == 0,
        old(dead)@.w.locked,
        call_ensures(lockref_mark_dead, (dead,), ()),
        old(later)@ == final(dead)@.lock_is(false),
        call_ensures(lockref_get_not_dead, (later,), done),
    ensures
        !old(value)@.w.locked && old(value)@.w.count > 0 ==> count == old(value)@.w.count - 1
            && final(value)@.w == (LockCount { locked: false, count }),
        old(value)@.w.locked || old(value)@.w.count <= 0 ==> count == -1 && final(value)@ == old(value)@,
        final(dead)@.w == (LockCount { locked: true, count: -128i32 }),
        !done,
        final(later)@.w == (LockCount { locked: false, count: -128i32 }),
{
    law_undisturbed_put_return(old(value)@);
    let s = old(later)@;
    assert(s.others =~= Seq::<Option<LockCount>>::empty());
    assert(s == alone(-128i32, s.lockless));
    law_undisturbed_get(-128i32, s.lockless, -1i32);
}

} // verus!
