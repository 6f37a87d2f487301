//! Pointers that are read without a lock while they are replaced.
//!
//! A reader follows a pointer inside a read-side critical section. A writer that replaces the pointer
//! gets the old object back as a [`Retired`] one: readers may still use it, so it is given up only
//! after a grace period, when every critical section that was in progress has ended.
//!
//! Objects are numbered, and a pointer is the number of an object. Critical sections are numbered in
//! the order in which they begin.

use vstd::prelude::*;

use crate::kref::{KRef, KrefCounted, Object};
use crate::opaque::Opaque;

verus! {

/// The pointer that points to nothing.
pub const NIL: usize = usize::MAX;

/// What an object is queued by until it can be given up.
pub struct RcuHead {
    next: Opaque<usize>,
    func: Opaque<usize>,
}

impl RcuHead {
    /// Whether the object is queued.
    pub closed spec fn is_queued(self) -> bool {
        self.next.held() is Some || self.func.held() is Some
    }

    /// A head that is not queued.
    pub fn new() -> (h: Self)
        ensures
            !h.is_queued(),
    {
        RcuHead { next: Opaque::uninit(), func: Opaque::uninit() }
    }
}

/// An object that has a head to be queued by.
pub trait HasRcuHead {
    /// The number of the object.
    spec fn head_number(&self) -> usize;

    /// Gives the number of the object.
    fn rcu_head_of(&self) -> (n: usize)
        ensures
            n == self.head_number(),
    ;
}

impl<T> HasRcuHead for Object<T> {
    open spec fn head_number(&self) -> usize {
        self.number()
    }

    fn rcu_head_of(&self) -> (n: usize) {
        self.index()
    }
}

/// An object that waits to be given up.
#[derive(Clone, Copy)]
pub struct Waiting {
    /// The object.
    pub object: usize,
    /// It waits for the critical sections with lower numbers.
    pub before: usize,
}

/// Whether all critical sections with numbers below `before` have ended.
pub open spec fn elapsed(sections: Seq<bool>, before: int) -> bool {
    forall|i: int| 0 <= i < before && i < sections.len() ==> !#[trigger] sections[i]
}

/// What only the kernel is.
pub trait Sealed {

}

/// What grace periods are made of.
pub trait RcuDomain: Sealed {
    /// The critical sections: whether each is in progress.
    spec fn sections(&self) -> Seq<bool>;

    /// The objects that wait to be given up, in order.
    spec fn queue(&self) -> Seq<Waiting>;

    /// The critical sections that end while this processor waits, in order.
    spec fn leaving(&self) -> Seq<usize>;

    /// Begins a critical section, and gives its number.
    fn read_lock(&mut self) -> (section: usize)
        requires
            old(self).sections().len() < usize::MAX,
        ensures
            section == old(self).sections().len(),
            final(self).sections() == old(self).sections().push(true),
            final(self).queue() == old(self).queue(),
            final(self).leaving() == old(self).leaving(),
    ;

    /// Ends a critical section.
    fn read_unlock(&mut self, section: usize)
        requires
            section < old(self).sections().len(),
            old(self).sections()[section as int],
        ensures
            final(self).sections() == old(self).sections().update(section as int, false),
            final(self).queue() == old(self).queue(),
            final(self).leaving() == old(self).leaving(),
    ;

    /// Waits until every critical section that is in progress has ended.
    fn synchronize(&mut self)
        requires
            ends(old(self).sections(), old(self).leaving()),
        ensures
            final(self).sections().len() == old(self).sections().len(),
            elapsed(final(self).sections(), old(self).sections().len() as int),
            (final(self).sections(), final(self).leaving()) == waited(
                old(self).sections(),
                old(self).leaving(),
            ),
            final(self).queue() == old(self).queue(),
    ;

    /// Queues an object to be given up after a grace period.
    fn call_rcu(&mut self, object: usize)
        requires
            forall|i: int|
                0 <= i < old(self).queue().len() ==> (#[trigger] old(self).queue()[i]).object
                    != object,
        ensures
            final(self).queue() == old(self).queue().push(
                (Waiting { object, before: old(self).sections().len() as usize }),
            ),
            final(self).sections() == old(self).sections(),
            final(self).leaving() == old(self).leaving(),
    ;

    /// Gives the first object that waits, if its grace period is over.
    fn reclaim(&mut self) -> (object: Option<usize>)
        ensures
            final(self).sections() == old(self).sections(),
            final(self).leaving() == old(self).leaving(),
            object is Some <==> old(self).queue().len() > 0 && elapsed(
                old(self).sections(),
                old(self).queue()[0].before as int,
            ),
            object matches Some(o) ==> o == old(self).queue()[0].object && final(self).queue() == old(self).queue().drop_first(),
            object is None ==> final(self).queue() == old(self).queue(),
    ;
}

/// The critical sections, and those that will end, after all that are in progress have ended.
pub open spec fn waited(sections: Seq<bool>, leaving: Seq<usize>) -> (Seq<bool>, Seq<usize>)
    decreases leaving.len(),
{
    if elapsed(sections, sections.len() as int) || leaving.len() == 0 {
        (sections, leaving)
    } else {
        waited(sections.update(leaving[0] as int, false), leaving.drop_first())
    }
}

/// Whether all critical sections that are in progress will end.
pub open spec fn ends(sections: Seq<bool>, leaving: Seq<usize>) -> bool
    decreases leaving.len(),
{
    if elapsed(sections, sections.len() as int) {
        true
    } else if leaving.len() == 0 {
        false
    } else {
        leaving[0] < sections.len() && ends(
            sections.update(leaving[0] as int, false),
            leaving.drop_first(),
        )
    }
}

/// The grace periods of the kernel.
pub struct Kernel {
    sections: Vec<bool>,
    queue: Vec<Waiting>,
    leaving: Vec<usize>,
}

impl Kernel {
    /// No critical section, and no object that waits. `leaving` are the critical sections that end
    /// while this processor waits.
    pub fn new(leaving: Vec<usize>) -> (k: Self)
        ensures
            k.sections() == Seq::<bool>::empty(),
            k.queue() == Seq::<Waiting>::empty(),
            k.leaving() == leaving@,
    {
        Kernel { sections: Vec::new(), queue: Vec::new(), leaving }
    }

    /// Tells whether all critical sections with numbers below `before` have ended.
    fn is_elapsed(&self, before: usize) -> (r: bool)
        ensures
            r == elapsed(self.sections(), before as int),
    {
        let mut i: usize = 0;
        while i < self.sections.len() && i < before
            invariant
                i <= self.sections@.len(),
                i <= before,
                forall|j: int| 0 <= j < i ==> !#[trigger] self.sections@[j],
            decreases self.sections@.len() - i,
        {
            if self.sections[i] {
                return false;
            }
            i = i + 1;
        }
        true
    }
}

impl Sealed for Kernel {

}

impl RcuDomain for Kernel {
    closed spec fn sections(&self) -> Seq<bool> {
        self.sections@
    }

    closed spec fn queue(&self) -> Seq<Waiting> {
        self.queue@
    }

    closed spec fn leaving(&self) -> Seq<usize> {
        self.leaving@
    }

    fn read_lock(&mut self) -> (section: usize) {
        let section: usize = self.sections.len();
        self.sections.push(true);
        section
    }

    fn read_unlock(&mut self, section: usize) {
        self.sections.set(section, false);
    }

    fn synchronize(&mut self) {
        let count: usize = self.sections.len();
        while !self.is_elapsed(count)
            invariant
                self.sections@.len() == count,
                ends(self.sections(), self.leaving()),
                waited(self.sections(), self.leaving()) == waited(
                    old(self).sections(),
                    old(self).leaving(),
                ),
                self.queue() == old(self).queue(),
            decreases self.leaving().len(),
        {
            let ghost before = self.leaving();
            assert(before.len() > 0);
            let section: usize = self.leaving.remove(0);
            self.sections.set(section, false);
            assert(self.leaving() =~= before.drop_first());
        }
    }

    fn call_rcu(&mut self, object: usize) {
        let before: usize = self.sections.len();
        self.queue.push(Waiting { object, before });
    }

    fn reclaim(&mut self) -> (object: Option<usize>) {
        if self.queue.len() == 0 {
            return None;
        }
        let first: Waiting = self.queue[0];
        if !self.is_elapsed(first.before) {
            return None;
        }
        let _ = self.queue.remove(0);
        assert(self.queue() =~= old(self).queue().drop_first());
        Some(first.object)
    }
}

/// A read-side critical section that is in progress.
pub struct RcuGuard {
    section: usize,
}

impl RcuGuard {
    /// The number of the critical section.
    pub closed spec fn section(self) -> usize {
        self.section
    }

    /// Whether the critical section is in progress.
    pub open spec fn holds<D: RcuDomain>(self, d: D) -> bool {
        self.section() < d.sections().len() && d.sections()[self.section() as int]
    }

    /// Begins a critical section.
    pub fn enter<D: RcuDomain>(d: &mut D) -> (g: Self)
        requires
            old(d).sections().len() < usize::MAX,
        ensures
            g.section() == old(d).sections().len(),
            g.holds(*final(d)),
            final(d).sections() == old(d).sections().push(true),
            final(d).queue() == old(d).queue(),
            final(d).leaving() == old(d).leaving(),
    {
        RcuGuard { section: d.read_lock() }
    }

    /// Ends the critical section.
    pub fn leave<D: RcuDomain>(self, d: &mut D)
        requires
            self.holds(*old(d)),
        ensures
            final(d).sections() == old(d).sections().update(self.section() as int, false),
            final(d).queue() == old(d).queue(),
            final(d).leaving() == old(d).leaving(),
    {
        d.read_unlock(self.section);
    }
}

/// Begins a read-side critical section of the kernel.
pub fn rcu_read_lock(k: &mut Kernel) -> (g: RcuGuard)
    requires
        old(k).sections().len() < usize::MAX,
    ensures
        g.section() == old(k).sections().len(),
        g.holds(*final(k)),
        final(k).sections() == old(k).sections().push(true),
        final(k).queue() == old(k).queue(),
        final(k).leaving() == old(k).leaving(),
{
    RcuGuard::enter(k)
}

/// An owner of the object of a pointer.
pub trait RcuOwner: Sized {
    /// The object.
    type Target: HasRcuHead;

    /// The number of the object.
    spec fn rraw(self) -> usize;

    /// Gives up the object.
    fn into_raw(self) -> (n: usize)
        ensures
            n == self.rraw(),
    ;

    /// Takes back the object with the number `n`.
    fn from_raw(n: usize) -> (owner: Self)
        ensures
            owner.rraw() == n,
    ;
}

impl<T: KrefCounted + HasRcuHead> RcuOwner for KRef<T> {
    type Target = T;

    open spec fn rraw(self) -> usize {
        self.number()
    }

    fn into_raw(self) -> (n: usize) {
        KRef::into_raw(self)
    }

    fn from_raw(n: usize) -> (owner: Self) {
        KRef::from_raw(n)
    }
}

/// An object that is not published any more, and that readers may still use.
pub struct Retired<P: RcuOwner> {
    ptr: usize,
    _owner: core::marker::PhantomData<P>,
}

impl<P: RcuOwner> Retired<P> {
    /// The number of the object.
    pub closed spec fn object(self) -> usize {
        self.ptr
    }

    /// Waits for a grace period, and gives the owner back: no reader is left that could use the
    /// object. The caller is in no critical section.
    pub fn synchronize<D: RcuDomain>(self, d: &mut D) -> (owner: P)
        requires
            ends(old(d).sections(), old(d).leaving()),
        ensures
            owner.rraw() == self.object(),
            elapsed(final(d).sections(), old(d).sections().len() as int),
            final(d).sections().len() == old(d).sections().len(),
            (final(d).sections(), final(d).leaving()) == waited(
                old(d).sections(),
                old(d).leaving(),
            ),
            final(d).queue() == old(d).queue(),
    {
        d.synchronize();
        P::from_raw(self.ptr)
    }

    /// Queues the owner to be dropped after a grace period, without waiting.
    pub fn defer<D: RcuDomain>(self, d: &mut D)
        requires
            forall|i: int|
                0 <= i < old(d).queue().len() ==> (#[trigger] old(d).queue()[i]).object
                    != self.object(),
        ensures
            final(d).queue() == old(d).queue().push(
                (Waiting { object: self.object(), before: old(d).sections().len() as usize }),
            ),
            final(d).sections() == old(d).sections(),
            final(d).leaving() == old(d).leaving(),
    {
        d.call_rcu(self.ptr);
    }
}

/// Takes back the owner whose grace period is over, if there is one.
pub fn reclaim<P: RcuOwner, D: RcuDomain>(d: &mut D) -> (owner: Option<P>)
    ensures
        owner is Some <==> old(d).queue().len() > 0 && elapsed(
            old(d).sections(),
            old(d).queue()[0].before as int,
        ),
        owner matches Some(o) ==> o.rraw() == old(d).queue()[0].object && final(d).queue() == old(d).queue().drop_first(),
        owner is None ==> final(d).queue() == old(d).queue(),
        final(d).sections() == old(d).sections(),
        final(d).leaving() == old(d).leaving(),
{
    match d.reclaim() {
        None => None,
        Some(object) => Some(P::from_raw(object)),
    }
}

/// A pointer that readers follow, and that others replace.
pub struct RcuReadPtr<T> {
    ptr: usize,
    _lends: core::marker::PhantomData<T>,
}

impl<T> RcuReadPtr<T> {
    /// The number of the object that is published.
    pub closed spec fn published(self) -> Option<usize> {
        if self.ptr == NIL {
            None
        } else {
            Some(self.ptr)
        }
    }

    /// A pointer that others own.
    pub fn from_raw(ptr: usize) -> (r: Self)
        ensures
            r.published() == if ptr == NIL {
                None
            } else {
                Some(ptr)
            },
    {
        RcuReadPtr { ptr, _lends: core::marker::PhantomData }
    }

    /// The number of the object, for as long as the critical section lasts.
    pub fn read<D: RcuDomain>(&self, d: &D, guard: &RcuGuard) -> (n: Option<usize>)
        requires
            guard.holds(*d),
        ensures
            n == self.published(),
    {
        if self.ptr == NIL {
            None
        } else {
            Some(self.ptr)
        }
    }

    /// Whether something is published.
    pub fn is_some(&self) -> (r: bool)
        ensures
            r == (self.published() is Some),
    {
        self.ptr != NIL
    }
}

/// A pointer that readers follow, and that owns its object.
pub struct RcuPtr<P: RcuOwner> {
    word: RcuReadPtr<P::Target>,
    _owner: core::marker::PhantomData<P>,
}

impl<P: RcuOwner> RcuPtr<P> {
    /// The number of the object that is published.
    pub closed spec fn published(self) -> Option<usize> {
        self.word.published()
    }

    /// A pointer that points to nothing.
    pub fn empty() -> (p: Self)
        ensures
            p.published() is None,
    {
        RcuPtr { word: RcuReadPtr::from_raw(NIL), _owner: core::marker::PhantomData }
    }

    /// A pointer that owns `owner`.
    pub fn new(owner: P) -> (p: Self)
        requires
            owner.rraw() != NIL,
        ensures
            p.published() == Some(owner.rraw()),
    {
        RcuPtr { word: RcuReadPtr::from_raw(owner.into_raw()), _owner: core::marker::PhantomData }
    }

    /// A pointer that is updated here and holds one owner of the object with the number `ptr`.
    pub fn from_raw(ptr: usize) -> (p: Self)
        ensures
            p.published() == if ptr == NIL {
                None
            } else {
                Some(ptr)
            },
    {
        RcuPtr { word: RcuReadPtr::from_raw(ptr), _owner: core::marker::PhantomData }
    }

    /// The number of the object, for as long as the critical section lasts.
    pub fn read<D: RcuDomain>(&self, d: &D, guard: &RcuGuard) -> (n: Option<usize>)
        requires
            guard.holds(*d),
        ensures
            n == self.published(),
    {
        self.word.read(d, guard)
    }

    /// Whether something is published.
    pub fn is_some(&self) -> (r: bool)
        ensures
            r == (self.published() is Some),
    {
        self.word.is_some()
    }

    /// Publishes `new`, and gives the owner that it replaces, retired.
    pub fn replace(&mut self, new: Option<P>) -> (prior: Option<Retired<P>>)
        requires
            new matches Some(owner) ==> owner.rraw() != NIL,
        ensures
            final(self).published() == (match new {
                Some(owner) => Some(owner.rraw()),
                None => None,
            }),
            prior is Some <==> old(self).published() is Some,
            prior matches Some(r) ==> Some(r.object()) == old(self).published(),
    {
        let prior: usize = self.word.ptr;
        let ptr: usize = match new {
            Some(owner) => owner.into_raw(),
            None => NIL,
        };
        self.word = RcuReadPtr::from_raw(ptr);
        if prior == NIL {
            None
        } else {
            Some(Retired { ptr: prior, _owner: core::marker::PhantomData })
        }
    }

    /// Publishes `owner`, and gives the owner that it replaces, retired.
    pub fn assign(&mut self, owner: P) -> (prior: Option<Retired<P>>)
        requires
            owner.rraw() != NIL,
        ensures
            final(self).published() == Some(owner.rraw()),
            prior is Some <==> old(self).published() is Some,
            prior matches Some(r) ==> Some(r.object()) == old(self).published(),
    {
        self.replace(Some(owner))
    }

    /// Publishes nothing, and gives the owner that was published, retired.
    pub fn take(&mut self) -> (prior: Option<Retired<P>>)
        ensures
            final(self).published() is None,
            prior is Some <==> old(self).published() is Some,
            prior matches Some(r) ==> Some(r.object()) == old(self).published(),
    {
        self.replace(None)
    }

    /// The number of the object, for an updater that keeps the others out.
    pub fn read_protected(&self) -> (n: Option<usize>)
        ensures
            n == self.published(),
    {
        if self.word.ptr == NIL {
            None
        } else {
            Some(self.word.ptr)
        }
    }
}

/// An object is not given up while a reader may use it: where a critical section that had begun before
/// the object was queued is still in progress, the object stays queued, whatever ends or begins in the
/// meantime.
pub proof fn law_readers_keep_objects(
    sections: Seq<bool>,
    now: Seq<bool>,
    waiting: Waiting,
    reader: int,
)
    requires
        0 <= reader < sections.len(),
        sections[reader],
        sections.len() <= usize::MAX,
        waiting.before == sections.len(),
        now.len() >= sections.len(),
        now[reader],
    ensures
        !elapsed(now, waiting.before as int),
{
}

/// An object is given up once all critical sections that had begun before it was queued have ended:
/// later ones do not hold it back.
pub proof fn law_later_readers_do_not_matter(now: Seq<bool>, later: Seq<bool>, before: int)
    requires
        0 <= before <= now.len(),
        elapsed(now, before),
    ensures
        elapsed(now + later, before),
{
    assert forall|i: int| 0 <= i < before && i < (now + later).len() implies !#[trigger] (now + later)[i] by {
        assert(!now[i]);
    }
}

/// A critical section that has ended does not begin again: a grace period that is over stays over.
pub proof fn law_elapsed_stays(now: Seq<bool>, section: int, before: int)
    requires
        elapsed(now, before),
        0 <= section < now.len(),
    ensures
        elapsed(now.update(section, false), before),
        before <= now.len() ==> elapsed(now.push(true), before),
{
}

/// A grace period is over exactly when no critical section that began before it is in progress.
pub proof fn law_grace_period(sections: Seq<bool>, before: int)
    requires
        0 <= before <= sections.len(),
    ensures
        elapsed(sections, before) <==> !sections.take(before).contains(true),
{
    if !elapsed(sections, before) {
        let i = choose|i: int| 0 <= i < before && i < sections.len() && #[trigger] sections[i];
        assert(sections.take(before)[i]);
    } else if sections.take(before).contains(true) {
        let i = choose|i: int| 0 <= i < before && sections.take(before)[i];
        assert(sections[i]);
    }
}

/// Waiting ends critical sections only as they leave, and only as many of those as it takes until none
/// is in progress; none begins meanwhile.
pub proof fn law_waiting(sections: Seq<bool>, leaving: Seq<usize>)
    requires
        ends(sections, leaving),
    ensures
        ({
            let (s, l) = waited(sections, leaving);
            let n = leaving.len() - l.len();
            &&& s.len() == sections.len()
            &&& !s.contains(true)
            &&& 0 <= n
            &&& l == leaving.skip(n)
            &&& forall|i: int|
                0 <= i < s.len() && #[trigger] sections[i] ==> leaving.take(n).contains(i as usize)
            &&& !sections.contains(true) ==> s == sections && n == 0
        }),
    decreases leaving.len(),
{
    let (s, l) = waited(sections, leaving);
    if elapsed(sections, sections.len() as int) {
        assert(leaving.skip(0) =~= leaving);
        assert(!sections.contains(true));
    } else {
        let x = leaving[0];
        let next = sections.update(x as int, false);
        let rest = leaving.drop_first();
        law_waiting(next, rest);
        let n = leaving.len() - l.len();
        assert(rest.skip(n - 1) =~= leaving.skip(n));
        assert forall|i: int| 0 <= i < s.len() && #[trigger] sections[i] implies leaving.take(n).contains(
            i as usize,
        ) by {
            if i == x {
                assert(leaving.take(n)[0] == x);
            } else {
                assert(next[i]);
                let part = rest.take(n - 1);
                let j = choose|j: int| 0 <= j < part.len() && part[j] == i as usize;
                assert(leaving.take(n)[j + 1] == i as usize);
            }
        }
        let i = choose|i: int|
            0 <= i < sections.len() as int && i < sections.len() && #[trigger] sections[i];
        assert(sections.contains(true));
    }
}

/// What is published is what readers get; what it replaces is given back, retired, and not published any
/// more.
pub proof fn law_publish_then_read<P: RcuOwner, D: RcuDomain>(
    p: &mut RcuPtr<P>,
    owner: P,
    prior: Option<Retired<P>>,
    q: &RcuPtr<P>,
    d: &D,
    guard: &RcuGuard,
    n: Option<usize>,
)
    requires
        owner.rraw() != NIL,
        call_ensures(RcuPtr::<P>::assign, (p, owner), prior),
        *q == *final(p),
        guard.holds(*d),
        call_ensures(RcuPtr::<P>::read::<D>, (q, d, guard), n),
    ensures
        n == Some(owner.rraw()),
        old(p).published() is None ==> prior is None,
        old(p).published() is Some ==> prior is Some && prior->0.object() == old(p).published()->0,
{
}

/// An object that is retired while a reader is in a critical section is not given up before the reader has
/// left it, and is given up then, if it is the first in the queue.
pub proof fn law_retired_object_waits_for_readers<P: RcuOwner, D: RcuDomain>(
    enter: &mut D,
    guard: RcuGuard,
    defer: &mut D,
    retired: Retired<P>,
    early: &mut D,
    owner: Option<P>,
    leave: &mut D,
    late: &mut D,
    later: Option<P>,
)
    requires
        old(enter).queue().len() == 0,
        old(enter).sections().len() < usize::MAX,
        !old(enter).sections().contains(true),
        call_ensures(RcuGuard::enter::<D>, (enter,), guard),
        *old(defer) == *final(enter),
        call_ensures(Retired::<P>::defer::<D>, (retired, defer), ()),
        *old(early) == *final(defer),
        call_ensures(reclaim::<P, D>, (early,), owner),
        *old(leave) == *final(early),
        call_ensures(RcuGuard::leave::<D>, (guard, leave), ()),
        *old(late) == *final(leave),
        call_ensures(reclaim::<P, D>, (late,), later),
    ensures
        owner is None,
        later is Some,
        later->0.rraw() == retired.object(),
        final(late).queue().len() == 0,
{
    let s = old(enter).sections();
    let t = s.push(true);
    let n = s.len() as int;
    assert(final(defer).sections() == t);
    assert(t[n]);
    assert(!elapsed(t, n + 1));
    let u = t.update(n, false);
    assert(final(leave).sections() == u);
    assert forall|i: int| 0 <= i < n + 1 && i < u.len() implies !#[trigger] u[i] by {
        if i < n {
            assert(u[i] == s[i]);
            if s[i] {
                assert(s.contains(true));
            }
        }
    }
    assert(elapsed(u, n + 1));
}

/// What is taken from a pointer is what was published, and nothing is published then.
pub proof fn law_take<P: RcuOwner>(p: &mut RcuPtr<P>, prior: Option<Retired<P>>, q: &RcuPtr<P>, n: Option<usize>, some: bool)
    requires
        call_ensures(RcuPtr::<P>::take, (p,), prior),
        *q == *final(p),
        call_ensures(RcuPtr::<P>::read_protected, (q,), n),
        call_ensures(RcuPtr::<P>::is_some, (q,), some),
    ensures
        n is None,
        !some,
        prior is Some <==> old(p).published() is Some,
        prior is Some ==> Some(prior->0.object()) == old(p).published(),
{
}

} // verus!
