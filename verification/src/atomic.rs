//! A counter that other processors write as well.
//!
//! The other processors get a turn before every access that changes the counter. What they write in
//! their turns is fixed when the counter is made, so that a function on the counter can be looked at
//! for every way in which the other processors interfere with it. What this processor writes is
//! recorded, together with whether it held a lock.

use vstd::prelude::*;

use crate::lock::HeldLock;

verus! {

/// A change of a counter by this processor: the new value, and whether a lock was held.
pub ghost struct Step {
    pub v: i32,
    pub held: bool,
}

/// The state of a counter: its value, what the other processors will write, one entry for each of
/// their turns, and what this processor has written.
#[verifier::ext_equal]
pub ghost struct WordState {
    pub v: i32,
    pub others: Seq<Option<i32>>,
    pub steps: Seq<Step>,
}

/// The state of a counter that this processor has not written.
pub open spec fn fresh(v: i32, others: Seq<Option<i32>>) -> WordState {
    WordState { v, others, steps: Seq::empty() }
}

impl WordState {
    /// The value after the next turn of the other processors.
    pub open spec fn now(self) -> i32 {
        if self.others.len() > 0 && self.others[0] is Some {
            self.others[0]->0
        } else {
            self.v
        }
    }

    /// The state after the next turn of the other processors.
    pub open spec fn turned(self) -> WordState {
        WordState {
            v: self.now(),
            others: if self.others.len() > 0 {
                self.others.drop_first()
            } else {
                self.others
            },
            steps: self.steps,
        }
    }

    /// The state after this processor has written `v`; `held` says whether it held a lock.
    pub open spec fn stepped(self, v: i32, held: bool) -> WordState {
        WordState { v, steps: self.steps.push(Step { v, held }), ..self }
    }

    /// The state after this processor has written `v`, after the next turn of the other processors.
    pub open spec fn then_is(self, v: i32) -> WordState {
        self.turned().stepped(v, false)
    }

    /// The state after this processor has written `v` with a lock held, after the next turn of the
    /// other processors.
    pub open spec fn then_held(self, v: i32) -> WordState {
        self.turned().stepped(v, true)
    }

    /// The state after this processor has written `v` without looking at the value before.
    pub open spec fn is_set(self, v: i32) -> WordState {
        self.stepped(v, false)
    }

    /// What this processor wrote last.
    pub open spec fn last_step(self) -> Step {
        self.steps.last()
    }
}

/// A counter that other processors write as well.
pub struct AtomicWord {
    value: i32,
    others: Vec<Option<i32>>,
    next: usize,
    steps: Ghost<Seq<Step>>,
}

impl View for AtomicWord {
    type V = WordState;

    closed spec fn view(&self) -> WordState {
        WordState {
            v: self.value,
            others: self.others@.skip(self.next as int),
            steps: self.steps@,
        }
    }
}

impl AtomicWord {
    #[verifier::type_invariant]
    spec fn inv(self) -> bool {
        self.next <= self.others@.len()
    }

    /// A counter that no other processor writes.
    pub fn new(value: i32) -> (w: Self)
        ensures
            w@ == fresh(value, Seq::empty()),
    {
        let w = AtomicWord { value, others: Vec::new(), next: 0, steps: Ghost(Seq::empty()) };
        assert(w@.others =~= Seq::<Option<i32>>::empty());
        w
    }

    /// A counter that other processors write.
    pub fn contended(value: i32, others: Vec<Option<i32>>) -> (w: Self)
        ensures
            w@ == fresh(value, others@),
    {
        let w = AtomicWord { value, others, next: 0, steps: Ghost(Seq::empty()) };
        assert(w@.others =~= others@);
        w
    }

    /// Reads the counter.
    pub fn read(&self) -> (value: i32)
        ensures
            value == self@.v,
    {
        self.value
    }

    /// Sets the counter.
    pub fn set(&mut self, i: i32)
        ensures
            final(self)@ == old(self)@.is_set(i),
    {
        self.step(i, Ghost(false));
    }

    /// Writes the counter, and records whether a lock was held.
    fn step(&mut self, i: i32, Ghost(held): Ghost<bool>)
        ensures
            final(self)@ == old(self)@.stepped(i, held),
    {
        proof {
            use_type_invariant(&*self);
        }
        self.value = i;
        self.steps = Ghost(self.steps@.push(Step { v: i, held }));
    }

    /// Gives the other processors their turn.
    fn turn(&mut self)
        ensures
            final(self)@ == old(self)@.turned(),
    {
        proof {
            use_type_invariant(&*self);
        }
        let ghost before = self@.others;
        if self.next < self.others.len() {
            let other: Option<i32> = self.others[self.next];
            if let Some(v) = other {
                self.value = v;
            }
            self.next = self.next + 1;
            proof {
                assert(before[0] == other);
                assert(self@.others =~= before.drop_first());
            }
        }
    }

    /// Adds `i`, with wrap-around, and gives the value before.
    pub fn fetch_add(&mut self, i: i32) -> (prior: i32)
        ensures
            prior == old(self)@.now(),
            final(self)@ == old(self)@.then_is(prior.wrapping_add(i)),
    {
        self.turn();
        let prior: i32 = self.value;
        self.set(prior.wrapping_add(i));
        prior
    }

    /// Subtracts `i`, with wrap-around, and gives the value before.
    pub fn fetch_sub(&mut self, i: i32) -> (prior: i32)
        ensures
            prior == old(self)@.now(),
            final(self)@ == old(self)@.then_is(prior.wrapping_sub(i)),
    {
        self.turn();
        let prior: i32 = self.value;
        self.set(prior.wrapping_sub(i));
        prior
    }

    /// Subtracts `i`, with wrap-around, with a lock held, and gives the value before.
    pub fn fetch_sub_held<L: HeldLock>(&mut self, i: i32, lock: &L) -> (prior: i32)
        requires
            lock.is_held(),
        ensures
            prior == old(self)@.now(),
            final(self)@ == old(self)@.then_held(prior.wrapping_sub(i)),
    {
        self.turn();
        let prior: i32 = self.value;
        self.step(prior.wrapping_sub(i), Ghost(true));
        prior
    }

    /// Replaces the value `expected` by `new`, and says whether it did. Where it did not, `expected`
    /// gets the value.
    pub fn try_exchange(&mut self, expected: &mut i32, new: i32) -> (done: bool)
        ensures
            done == (old(self)@.now() == *old(expected)),
            *final(expected) == old(self)@.now(),
            final(self)@ == if done {
                old(self)@.then_is(new)
            } else {
                old(self)@.turned()
            },
    {
        self.turn();
        let cur: i32 = self.value;
        if cur == *expected {
            self.set(new);
            true
        } else {
            *expected = cur;
            false
        }
    }
}

impl WordState {
    /// A turn of the other processors takes one entry of what they will write; an entry without a value
    /// leaves the counter alone. What this processor has written is not touched.
    pub proof fn law_turn(self)
        ensures
            self.others.len() > 0 && self.others[0] is Some ==> self.turned().v == self.others[0]->0,
            self.others.len() == 0 || self.others[0] is None ==> self.turned().v == self.v,
            self.others.len() > 0 ==> self.turned().others == self.others.skip(1),
            self.others.len() == 0 ==> self.turned().others.len() == 0,
            self.turned().v == self.now(),
            self.turned().steps == self.steps,
    {
        if self.others.len() > 0 {
            assert(self.others.skip(1) =~= self.others.drop_first());
        }
    }

    /// What this processor writes is the value of the counter, and is recorded behind what it wrote
    /// before; what the other processors will do stays.
    pub proof fn law_write(self, v: i32, held: bool)
        ensures
            self.stepped(v, held).v == v,
            self.stepped(v, held).others == self.others,
            self.stepped(v, held).steps == self.steps + seq![Step { v, held }],
            self.is_set(v) == self.stepped(v, false),
            self.then_is(v) == self.turned().stepped(v, false),
            self.then_held(v) == self.turned().stepped(v, true),
    {
        assert(self.steps.push(Step { v, held }) =~= self.steps + seq![Step { v, held }]);
    }
}

/// Without other processors an addition and a subtraction give the value before, and undo each other; an
/// exchange replaces the value that it expects, and no other.
pub proof fn law_undisturbed_accesses(
    a: &mut AtomicWord,
    i: i32,
    prior: i32,
    b: &mut AtomicWord,
    sum: i32,
    x: &mut AtomicWord,
    expected: &mut i32,
    new: i32,
    done: bool,
)
    requires
        old(a)@.others.len() == 0,
        i32::MIN <= old(a)@.v + i <= i32::MAX,
        call_ensures(AtomicWord::fetch_add, (a, i), prior),
        *old(b) == *final(a),
        call_ensures(AtomicWord::fetch_sub, (b, i), sum),
        old(x)@.others.len() == 0,
        call_ensures(AtomicWord::try_exchange, (x, expected, new), done),
    ensures
        prior == old(a)@.v,
        final(a)@.v == old(a)@.v + i,
        sum == old(a)@.v + i,
        final(b)@.v == old(a)@.v,
        done == (old(x)@.v == *old(expected)),
        final(x)@.v == if done {
            new
        } else {
            old(x)@.v
        },
        *final(expected) == old(x)@.v,
{
}

} // verus!
