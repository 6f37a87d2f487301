//! Recorded errors that any number of subscribers can be told of.
//!
//! An error sequence is one 32-bit word: the error code in the lowest twelve bits, a flag that says
//! whether the value has been seen, and a counter above it. A subscriber samples the word, and later
//! compares it with its sample to tell whether an error has been recorded since. The counter only
//! moves when the last error has been seen, so that unseen errors do not use it up. A word of all
//! zeroes says that there has never been an error.
//!
//! Other processors may write the word between any two accesses of a function.

use vstd::prelude::*;

verus! {

/// The value of an error sequence.
#[allow(non_camel_case_types)]
pub type errseq_t = u32;

/// The largest error code.
pub const MAX_ERRNO: i32 = 4095;

/// The flag for a value that has been seen.
pub const ERRSEQ_SEEN: u32 = 0x1000;

/// The step of the counter.
pub const ERRSEQ_CTR_INC: u32 = 0x2000;

/// An error sequence that other processors write as well.
pub struct ErrseqAtomic {
    value: u32,
    others: Vec<Option<u32>>,
    next: usize,
}

/// The value of a word after the next access of the other processors, if they write it then.
pub open spec fn after_others(value: u32, others: Seq<Option<u32>>) -> u32 {
    if others.len() > 0 && others[0] is Some {
        others[0]->0
    } else {
        value
    }
}

/// What the other processors do later.
pub open spec fn later(others: Seq<Option<u32>>) -> Seq<Option<u32>> {
    if others.len() > 0 {
        others.drop_first()
    } else {
        others
    }
}

impl ErrseqAtomic {
    /// The value of the word.
    pub closed spec fn value(self) -> u32 {
        self.value
    }

    /// What the other processors will write, one entry for each of their turns.
    pub closed spec fn others(self) -> Seq<Option<u32>> {
        self.others@.skip(self.next as int)
    }

    /// Whether the turns of the other processors are in order.
    #[verifier::type_invariant]
    spec fn inv(self) -> bool {
        self.next <= self.others@.len()
    }

    /// A word that no other processor writes.
    pub fn new(value: u32) -> (w: Self)
        ensures
            w.value() == value,
            w.others() == Seq::<Option<u32>>::empty(),
    {
        let w = ErrseqAtomic { value, others: Vec::new(), next: 0 };
        assert(w.others() =~= Seq::<Option<u32>>::empty());
        w
    }

    /// A word that other processors write.
    pub fn contended(value: u32, others: Vec<Option<u32>>) -> (w: Self)
        ensures
            w.value() == value,
            w.others() == others@,
    {
        let w = ErrseqAtomic { value, others, next: 0 };
        assert(w.others() =~= others@);
        w
    }

    /// Reads the word.
    pub fn read_once(&self) -> (value: u32)
        ensures
            value == self.value(),
    {
        self.value
    }

    /// Gives the other processors their turn.
    fn turn(&mut self)
        ensures
            final(self).value() == after_others(old(self).value(), old(self).others()),
            final(self).others() == later(old(self).others()),
    {
        proof {
            use_type_invariant(&*self);
        }
        let ghost before = self.others();
        if self.next < self.others.len() {
            let other: Option<u32> = self.others[self.next];
            if let Some(v) = other {
                self.value = v;
            }
            self.next = self.next + 1;
            proof {
                assert(before[0] == other);
                assert(self.others() =~= before.drop_first());
            }
        }
    }

    /// Replaces the value `expected` by `new`, and gives the value that was there.
    pub fn compare_exchange(&mut self, expected: u32, new: u32) -> (cur: u32)
        ensures
            cur == after_others(old(self).value(), old(self).others()),
            final(self).others() == later(old(self).others()),
            final(self).value() == if cur == expected {
                new
            } else {
                cur
            },
    {
        self.turn();
        proof {
            use_type_invariant(&*self);
        }
        let cur: u32 = self.value;
        if cur == expected {
            self.value = new;
        }
        cur
    }

    /// Writes the word.
    fn write(&mut self, value: u32)
        ensures
            final(self).value() == value,
            final(self).others() == old(self).others(),
    {
        proof {
            use_type_invariant(&*self);
        }
        self.value = value;
    }
}

/// Whether a value has been seen.
pub open spec fn is_seen(value: u32) -> bool {
    value / 0x1000 % 2 == 1
}

/// The error code of a value, negated.
pub open spec fn error_of(value: u32) -> int {
    -(value % 0x1000)
}

/// A value with the flag set.
pub open spec fn with_seen(value: u32) -> u32 {
    if is_seen(value) {
        value
    } else {
        (value + 0x1000) as u32
    }
}

/// Whether `err` is no error code.
pub open spec fn is_bad(err: i32) -> bool {
    !(-MAX_ERRNO <= err < 0)
}

/// The value that recording the error `err` makes of `old`: the new error, not seen yet, with the
/// counter moved on if the old one has been seen.
pub open spec fn recorded(old: u32, err: i32) -> u32 {
    let counter = old / 0x2000 + if is_seen(old) {
        1int
    } else {
        0
    };
    (counter % 0x8_0000 * 0x2000 - err) as u32
}

/// What recording an error comes to, from the value `old` on: the value of the word, what is given
/// back, and what the other processors have not done yet.
pub open spec fn set_outcome(old: u32, others: Seq<Option<u32>>, err: i32) -> (
    u32,
    u32,
    Seq<Option<u32>>,
)
    decreases others.len(),
{
    let new = recorded(old, err);
    let cur = after_others(old, others);
    if new == old {
        (old, old, others)
    } else if cur == old {
        (new, old, later(others))
    } else if cur == new {
        (new, new, later(others))
    } else if others.len() > 0 {
        set_outcome(cur, later(others), err)
    } else {
        (old, old, others)
    }
}

/// Computes what recording an error makes of a value.
fn record(old: u32, err: i32) -> (new: u32)
    requires
        !is_bad(err),
    ensures
        new == recorded(old, err),
{
    let code: u32 = (-err) as u32;
    let new: u32 = old / 0x2000 * 0x2000 + code;
    if old / ERRSEQ_SEEN % 2 == 1 {
        new.wrapping_add(ERRSEQ_CTR_INC)
    } else {
        new
    }
}

/// Records the error `err`, and gives the previous value, and whether the error was refused with a
/// warning.
///
/// An error that does not fit is not recorded.
pub fn errseq_set(eseq: &mut ErrseqAtomic, err: i32) -> (r: (errseq_t, bool))
    ensures
        r.1 == is_bad(err),
        is_bad(err) ==> r.0 == old(eseq).value() && final(eseq).value() == old(eseq).value()
            && final(eseq).others() == old(eseq).others(),
        !is_bad(err) ==> (final(eseq).value(), r.0, final(eseq).others()) == set_outcome(
            old(eseq).value(),
            old(eseq).others(),
            err,
        ),
{
    let mut prior: u32 = eseq.read_once();
    if err >= 0 || err < -MAX_ERRNO {
        return (prior, true);
    }
    loop
        invariant
            !is_bad(err),
            prior == eseq.value(),
            set_outcome(prior, eseq.others(), err) == set_outcome(
                old(eseq).value(),
                old(eseq).others(),
                err,
            ),
        decreases eseq.others().len(),
    {
        let new: u32 = record(prior, err);
        if new == prior {
            return (new, false);
        }
        let cur: u32 = eseq.compare_exchange(prior, new);
        if cur == prior || cur == new {
            return (cur, false);
        }
        prior = cur;
    }
}

/// The value to compare with later: an error that nobody has seen yet will be seen.
pub open spec fn sampled(value: u32) -> u32 {
    if is_seen(value) {
        value
    } else {
        0
    }
}

/// What has happened since the sample `since`: the latest error, or 0.
pub open spec fn checked(value: u32, since: u32) -> int {
    if value == since {
        0
    } else {
        error_of(value)
    }
}

/// Grabs a value to compare with later.
pub fn errseq_sample(eseq: &ErrseqAtomic) -> (value: errseq_t)
    ensures
        value == sampled(eseq.value()),
{
    let cur: u32 = eseq.read_once();
    if cur / ERRSEQ_SEEN % 2 == 0 {
        0
    } else {
        cur
    }
}

/// Tells whether an error has occurred since a sample: the latest error, or 0.
pub fn errseq_check(eseq: &ErrseqAtomic, since: errseq_t) -> (err: i32)
    ensures
        err == checked(eseq.value(), since),
{
    let cur: u32 = eseq.read_once();
    if cur == since {
        0
    } else {
        -((cur % ERRSEQ_SEEN) as i32)
    }
}

/// Tells whether an error has occurred since a sample, marks it as seen, and advances the sample.
///
/// Whether the mark is stored does not matter: another processor has then written the word, and the
/// sample tells this value from that one.
pub fn errseq_check_and_advance(eseq: &mut ErrseqAtomic, since: &mut errseq_t) -> (err: i32)
    ensures
        ({
            let value = old(eseq).value();
            let others = old(eseq).others();
            let cur = after_others(value, others);
            let marks = value != *old(since) && !is_seen(value);
            &&& err == checked(value, *old(since))
            &&& *final(since) == if value == *old(since) {
                *old(since)
            } else {
                with_seen(value)
            }
            &&& final(eseq).others() == if marks {
                later(others)
            } else {
                others
            }
            &&& final(eseq).value() == if !marks {
                value
            } else if cur == value {
                with_seen(value)
            } else {
                cur
            }
        }),
{
    let cur: u32 = eseq.read_once();
    if cur == *since {
        return 0;
    }
    let new: u32 = if cur / ERRSEQ_SEEN % 2 == 1 {
        cur
    } else {
        cur + ERRSEQ_SEEN
    };
    if new != cur {
        let _ = eseq.compare_exchange(cur, new);
    }
    *since = new;
    -((new % ERRSEQ_SEEN) as i32)
}

/// Tells whether an error has occurred where the sample is kept in the word itself: the word is read
/// twice, and an error shows only if another processor writes it in between.
pub fn errseq_check_and_advance_in_place(eseq: &mut ErrseqAtomic) -> (err: i32)
    ensures
        ({
            let value = old(eseq).value();
            let since = after_others(value, old(eseq).others());
            &&& err == checked(value, since)
            &&& value == since ==> final(eseq).value() == value
            &&& value != since ==> final(eseq).value() == with_seen(value)
            &&& final(eseq).others() == if value != since && !is_seen(value) {
                later(later(old(eseq).others()))
            } else {
                later(old(eseq).others())
            }
        }),
{
    let cur: u32 = eseq.read_once();
    eseq.turn();
    let since: u32 = eseq.read_once();
    if cur == since {
        return 0;
    }
    let new: u32 = if cur / ERRSEQ_SEEN % 2 == 1 {
        cur
    } else {
        cur + ERRSEQ_SEEN
    };
    if new != cur {
        let _ = eseq.compare_exchange(cur, new);
    }
    eseq.write(new);
    -((new % ERRSEQ_SEEN) as i32)
}

/// A recorded error is the one that is reported, whatever was recorded before, and it counts as not
/// seen.
pub proof fn law_latest_error_is_reported(value: u32, err: i32)
    requires
        !is_bad(err),
    ensures
        error_of(recorded(value, err)) == err,
        !is_seen(recorded(value, err)),
{
}

/// A subscriber that has seen the latest value is told of the next error, even of the same one.
pub proof fn law_error_after_sample_is_seen(value: u32, err: i32)
    requires
        !is_bad(err),
        is_seen(value),
    ensures
        checked(recorded(value, err), value) == err,
{
}

/// A new subscriber is told of an error that nobody has seen.
pub proof fn law_unseen_error_is_told(value: u32, err: i32)
    requires
        !is_bad(err),
    ensures
        sampled(recorded(value, err)) == 0,
        checked(recorded(value, err), sampled(recorded(value, err))) == err,
{
}

/// A new subscriber is not told of an error that has been seen.
pub proof fn law_seen_error_is_not_told(value: u32)
    requires
        is_seen(value),
    ensures
        checked(value, sampled(value)) == 0,
{
}

/// A subscriber is told of an error once.
pub proof fn law_error_is_told_once(value: u32)
    ensures
        checked(with_seen(value), with_seen(value)) == 0,
        is_seen(with_seen(value)),
        error_of(with_seen(value)) == error_of(value),
{
}

/// The counter moves only if the last error has been seen.
pub proof fn law_counter_is_spared(value: u32, err: i32)
    requires
        !is_bad(err),
        !is_seen(value),
    ensures
        recorded(value, err) / 0x2000 == value / 0x2000,
{
}

/// Recording an error ends with that error in the word, or with a value that another processor has
/// made of it: it is never lost to a race.
pub proof fn law_set_records(old: u32, others: Seq<Option<u32>>, err: i32)
    requires
        !is_bad(err),
    ensures
        error_of(set_outcome(old, others, err).0) == err,
    decreases others.len(),
{
    if others.len() > 0 {
        law_set_records(after_others(old, others), later(others), err);
    }
}

/// Only the codes from -1 down to -4095 are errors.
pub proof fn law_error_codes(err: i32)
    ensures
        is_bad(err) <==> err >= 0 || err < -4095,
{
}

/// A check tells a subscriber the code of the value, whoever has seen it before, exactly if the value
/// is not the one that the subscriber has sampled.
pub proof fn law_check_tells_of_every_change(value: u32, since: u32)
    ensures
        value != since ==> checked(value, since) == -(value as int % 0x1000),
        checked(value, value) == 0,
{
}

/// Every subscriber is told of an error that is recorded after it took its sample, whether or not
/// another subscriber has seen the error by then.
pub proof fn law_every_subscriber_is_told(value: u32, err: i32)
    requires
        -4095 <= err < 0,
    ensures
        ({
            let word = recorded(value, err);
            let since = sampled(value);
            checked(word, since) == err && checked(with_seen(word), since) == err
        }),
{
}

/// Two subscribers with the same sample are both told of the error, the second after the first has
/// marked it as seen; a subscriber that has advanced its sample is told of nothing more.
pub proof fn law_second_subscriber_is_told_too(value: u32, since: u32)
    requires
        value != since,
        with_seen(value) != since,
    ensures
        checked(with_seen(value), since) == checked(value, since),
        checked(with_seen(value), with_seen(value)) == 0,
{
}

/// A recorded value has the code of the error and no mark; its counter is that of the value before,
/// one step further exactly if that value was marked, and wraps around.
pub proof fn law_recorded_value(value: u32, err: i32)
    requires
        -4095 <= err < 0,
    ensures
        recorded(value, err) as int % 0x1000 == -err,
        recorded(value, err) as int / 0x1000 % 2 == 0,
        value as int / 0x1000 % 2 == 0 ==> recorded(value, err) as int / 0x2000 == value as int
            / 0x2000,
        value as int / 0x1000 % 2 == 1 ==> recorded(value, err) as int / 0x2000 == (value as int
            / 0x2000 + 1) % 0x8_0000,
{
}

/// Marking a value as seen keeps its code and its counter, and marks it.
pub proof fn law_seen_value(value: u32)
    ensures
        with_seen(value) as int / 0x1000 % 2 == 1,
        with_seen(value) as int % 0x1000 == value as int % 0x1000,
        with_seen(value) as int / 0x2000 == value as int / 0x2000,
        with_seen(with_seen(value)) == with_seen(value),
        is_seen(value) <==> value as int / 0x1000 % 2 == 1,
{
}

/// A sample of a marked value is the value; of a value that nobody has seen it is 0, so that the
/// subscriber will be told of it if it holds an error.
pub proof fn law_sample(value: u32)
    ensures
        value as int / 0x1000 % 2 == 1 ==> sampled(value) == value,
        value as int / 0x1000 % 2 == 0 ==> sampled(value) == 0 && checked(value, sampled(value)) == -(
        value as int % 0x1000),
{
}

/// Where no other processor gets in between, recording an error stores it and gives the value that was
/// there; where it is already there, nothing is stored.
pub proof fn law_undisturbed_record(value: u32, others: Seq<Option<u32>>, err: i32)
    requires
        -4095 <= err < 0,
        others.len() == 0 || others[0] is None,
    ensures
        set_outcome(value, others, err).0 == recorded(value, err),
        set_outcome(value, others, err).1 == value,
        recorded(value, err) == value ==> set_outcome(value, others, err).2 == others,
        recorded(value, err) != value && others.len() > 0 ==> set_outcome(value, others, err).2
            == others.skip(1),
{
    if others.len() > 0 {
        assert(others.drop_first() =~= others.skip(1));
    }
}

/// Where another processor writes the word first, the error is recorded over what it wrote, unless that
/// is what was to be stored.
pub proof fn law_disturbed_record(value: u32, others: Seq<Option<u32>>, err: i32, other: u32)
    requires
        -4095 <= err < 0,
        others.len() > 0,
        others[0] == Some(other),
        recorded(value, err) != value,
        other != value,
    ensures
        other == recorded(value, err) ==> set_outcome(value, others, err) == (other, other, others.skip(
            1,
        )),
        other != recorded(value, err) ==> set_outcome(value, others, err) == set_outcome(
            other,
            others.skip(1),
            err,
        ),
{
    assert(others.drop_first() =~= others.skip(1));
}

/// Two subscribers that have taken their samples before an error is recorded are both told of it, one
/// after the other, and neither a second time.
pub proof fn law_subscribers_are_told_once_each(
    sampled_word: &ErrseqAtomic,
    since: u32,
    set: &mut ErrseqAtomic,
    err: i32,
    previous: (u32, bool),
    first: &mut ErrseqAtomic,
    a: &mut u32,
    told_a: i32,
    second: &mut ErrseqAtomic,
    b: &mut u32,
    told_b: i32,
    later: &ErrseqAtomic,
    again: i32,
)
    requires
        -4095 <= err < 0,
        call_ensures(errseq_sample, (sampled_word,), since),
        old(set).value() == sampled_word.value(),
        old(set).others().len() == 0,
        call_ensures(errseq_set, (set, err), previous),
        old(first).value() == final(set).value(),
        old(first).others().len() == 0,
        *old(a) == since,
        call_ensures(errseq_check_and_advance, (first, a), told_a),
        old(second).value() == final(first).value(),
        old(second).others().len() == 0,
        *old(b) == since,
        call_ensures(errseq_check_and_advance, (second, b), told_b),
        later.value() == final(second).value(),
        call_ensures(errseq_check, (later, *final(a)), again),
    ensures
        previous == (sampled_word.value(), false),
        told_a == err,
        told_b == err,
        again == 0,
        *final(a) == *final(b),
{
    let value = sampled_word.value();
    law_every_subscriber_is_told(value, err);
    law_undisturbed_record(value, old(set).others(), err);
}

/// An error that cannot be recorded is refused, and the word stays as it is.
pub proof fn law_bad_errors_are_refused(word: &mut ErrseqAtomic, err: i32, r: (u32, bool))
    requires
        err >= 0 || err < -4095,
        call_ensures(errseq_set, (word, err), r),
    ensures
        r == (old(word).value(), true),
        final(word).value() == old(word).value(),
{
}

/// A check tells nothing exactly if the word is what was sampled, or holds no error; it tells the code
/// of the word otherwise. A check that advances tells the same, marks the word as seen, and advances the
/// sample to what it has marked.
pub proof fn law_checks_agree(
    word: &ErrseqAtomic,
    since: u32,
    told: i32,
    advanced: &mut ErrseqAtomic,
    sample: &mut u32,
    told_too: i32,
)
    requires
        call_ensures(errseq_check, (word, since), told),
        old(advanced).value() == word.value(),
        old(advanced).others().len() == 0,
        *old(sample) == since,
        call_ensures(errseq_check_and_advance, (advanced, sample), told_too),
    ensures
        told == if word.value() == since {
            0
        } else {
            -(word.value() as int % 0x1000)
        },
        told_too == told,
        *final(sample) == final(advanced).value(),
        word.value() != since ==> final(advanced).value() as int / 0x1000 % 2 == 1
            && final(advanced).value() as int % 0x1000 == word.value() as int % 0x1000
            && final(advanced).value() as int / 0x2000 == word.value() as int / 0x2000,
        word.value() == since ==> final(advanced).value() == since,
{
}

/// A sample that is kept in the word itself tells of an error only if another processor writes the word
/// between the two times that it is read; the word is then marked as seen.
pub proof fn law_sample_in_the_word(word: &mut ErrseqAtomic, told: i32, other: u32)
    requires
        call_ensures(errseq_check_and_advance_in_place, (word,), told),
    ensures
        old(word).others().len() == 0 || old(word).others()[0] is None ==> told == 0
            && final(word).value() == old(word).value(),
        old(word).others().len() > 0 && old(word).others()[0] == Some(other) && other
            != old(word).value() ==> told == -(old(word).value() as int % 0x1000)
            && final(word).value() as int / 0x1000 % 2 == 1 && final(word).value() as int % 0x1000
            == old(word).value() as int % 0x1000 && final(word).value() as int / 0x2000
            == old(word).value() as int / 0x2000,
{
}

} // verus!
