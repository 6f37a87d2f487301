//! Light-weight queues.
//!
//! Entries are put into the queue without blocking: they are added to a list. They are taken out
//! under a lock, from a second chain that holds them in the opposite order; when it runs out, the whole
//! list is taken over and reversed.

use vstd::prelude::*;

use crate::llist::{llist_del_all, llist_node, reverse_chain, Other, SharedList, NIL};
#[allow(unused_imports)]
use crate::llist::{
    is_chain, law_chain_is_walked, lemma_chain_frame, lemma_chain_push, lemma_chain_rest, linked,
    walk, ListState,
};

verus! {

/// A queue.
#[allow(non_camel_case_types)]
pub struct lwq {
    locked: bool,
    ready: usize,
    new: SharedList,
    order: Ghost<Seq<usize>>,
    steps: Ghost<Seq<QueueStep>>,
}

/// A step with which entries are taken out.
pub ghost enum QueueStep {
    /// The lock is taken.
    Lock,
    /// The first entry that is ready is read.
    Read,
    /// Entries are taken over, or the first entry that is ready is stored. The queue looks empty to
    /// the other processors then, or not.
    Store { empty: bool },
    /// The lock is given back.
    Unlock,
}

/// The entries of a queue: those that are ready to be taken out, from the oldest on, and the list of
/// those behind them; and the steps with which entries have been taken out.
#[verifier::ext_equal]
pub ghost struct QueueState {
    pub ready: Seq<usize>,
    pub new: ListState,
    pub steps: Seq<QueueStep>,
}

impl QueueState {
    /// The entries, from the oldest to the newest.
    pub open spec fn queue(self) -> Seq<usize> {
        self.ready + self.new.order.reverse()
    }

    /// Whether the other processors only put entries into the queue that are not in it, each once.
    pub open spec fn proper(self) -> bool {
        &&& self.new.only_adds()
        &&& forall|i: int|
            0 <= i < self.new.others.len() ==> (#[trigger] self.new.others[i] matches Other::Add(n)
                ==> n < self.new.count && !self.new.order.contains(n) && !self.ready.contains(n))
        &&& forall|i: int, j: int|
            0 <= i < j < self.new.others.len() ==> ((#[trigger] self.new.others[i] matches Other::Add(
                n,
            )) ==> #[trigger] self.new.others[j] != Other::Add(self.new.others[i]->Add_0))
    }

    /// The state after the next turn of the other processors.
    pub open spec fn turned(self) -> QueueState {
        QueueState { new: self.new.turned(), ..self }
    }
}

impl View for lwq {
    type V = QueueState;

    closed spec fn view(&self) -> QueueState {
        QueueState { ready: self.order@, new: self.new@, steps: self.steps@ }
    }
}

/// Whether no entry is in both chains.
pub open spec fn apart(a: Seq<usize>, b: Seq<usize>) -> bool {
    forall|i: int, j: int|
        0 <= i < a.len() && 0 <= j < b.len() ==> #[trigger] a[i] != #[trigger] b[j]
}

impl lwq {
    /// The invariant of a queue.
    pub closed spec fn wf(self) -> bool {
        &&& !self.locked
        &&& self.new.wf()
        &&& is_chain(self.new.nodes@, self.ready, self.order@)
        &&& apart(self.order@, self.new@.order)
    }

    /// What a well-formed queue promises: no entry is in it twice.
    pub proof fn lemma_wf(self)
        requires
            self.wf(),
        ensures
            self@.queue().no_duplicates(),
    {
        let (ready, new) = (self@.ready, self@.new.order);
        let q = self@.queue();
        assert forall|i: int, j: int| 0 <= i < q.len() && 0 <= j < q.len() && i != j implies q[i]
            != q[j] by {
            if i >= ready.len() {
                assert(q[i] == new[new.len() - 1 - (i - ready.len())]);
            }
            if j >= ready.len() {
                assert(q[j] == new[new.len() - 1 - (j - ready.len())]);
            }
        }
    }

    /// The links of the entries.
    pub closed spec fn nodes(self) -> Seq<llist_node> {
        self.new.nodes@
    }

    /// An empty queue, with `count` entries that are not in it.
    pub fn new(count: usize, others: Vec<Other>) -> (q: Self)
        requires
            count < NIL,
        ensures
            q.wf(),
            q@.ready == Seq::<usize>::empty(),
            q@.new.order == Seq::<usize>::empty(),
            q@.new.others == others@,
            q@.new.count == count,
            q@.steps == Seq::<QueueStep>::empty(),
    {
        lwq {
            locked: false,
            ready: NIL,
            new: SharedList::new(count, others),
            order: Ghost(Seq::empty()),
            steps: Ghost(Seq::empty()),
        }
    }

    /// Whether the queue looks empty to a processor that does not hold the lock.
    spec fn looks_empty(self) -> bool {
        self.ready == NIL && self.new.head.first == NIL
    }

    /// Takes the lock.
    fn lock(&mut self)
        requires
            !old(self).locked,
        ensures
            final(self).locked,
            final(self).ready == old(self).ready,
            final(self).new == old(self).new,
            final(self).order == old(self).order,
            final(self).steps@ == old(self).steps@.push(QueueStep::Lock),
    {
        self.locked = true;
        self.steps = Ghost(self.steps@.push(QueueStep::Lock));
    }

    /// Gives the lock back.
    fn unlock(&mut self)
        requires
            old(self).locked,
        ensures
            !final(self).locked,
            final(self).ready == old(self).ready,
            final(self).new == old(self).new,
            final(self).order == old(self).order,
            final(self).steps@ == old(self).steps@.push(QueueStep::Unlock),
    {
        self.locked = false;
        self.steps = Ghost(self.steps@.push(QueueStep::Unlock));
    }

    /// Reads the first entry that is ready, with the lock held.
    fn get_ready(&mut self) -> (n: usize)
        requires
            old(self).locked,
        ensures
            n == old(self).ready,
            final(self).ready == old(self).ready,
            final(self).locked == old(self).locked,
            final(self).new == old(self).new,
            final(self).order == old(self).order,
            final(self).steps@ == old(self).steps@.push(QueueStep::Read),
    {
        self.steps = Ghost(self.steps@.push(QueueStep::Read));
        self.ready
    }

    /// Stores the first entry that is ready, with the lock held.
    fn set_ready(&mut self, n: usize)
        requires
            old(self).locked,
        ensures
            final(self).ready == n,
            final(self).locked == old(self).locked,
            final(self).new == old(self).new,
            final(self).order == old(self).order,
            final(self).steps@ == old(self).steps@.push(
                (QueueStep::Store { empty: final(self).looks_empty() }),
            ),
    {
        self.ready = n;
        proof {
            self.steps@ = self.steps@.push(QueueStep::Store { empty: self.looks_empty() });
        }
    }

    /// Takes all entries of the list, with the lock held, after a turn of the other processors.
    fn take_new(&mut self) -> (first: usize)
        requires
            old(self).locked,
            old(self).new.wf(),
            old(self).new@.proper(Set::empty()),
        ensures
            final(self).ready == old(self).ready,
            final(self).locked == old(self).locked,
            final(self).order == old(self).order,
            final(self).new.wf(),
            final(self).new@ == old(self).new@.then_is(Seq::empty()),
            is_chain(final(self).new.nodes@, first, old(self).new@.now()),
            final(self).steps@ == old(self).steps@.push(
                (QueueStep::Store { empty: final(self).looks_empty() }),
            ),
    {
        let first: usize = llist_del_all(&mut self.new);
        proof {
            self.steps@ = self.steps@.push(QueueStep::Store { empty: self.looks_empty() });
        }
        first
    }

    /// Takes all entries of the list, with the lock held.
    fn take_all(&mut self) -> (first: usize)
        requires
            old(self).locked,
            old(self).new.wf(),
        ensures
            final(self).ready == old(self).ready,
            final(self).locked == old(self).locked,
            final(self).order == old(self).order,
            final(self).new.wf(),
            final(self).new.nodes@ == old(self).new.nodes@,
            final(self).new@ == (ListState { order: Seq::empty(), ..old(self).new@ }),
            first == old(self).new.head.first,
            final(self).steps@ == old(self).steps@.push(
                (QueueStep::Store { empty: final(self).looks_empty() }),
            ),
            final(self).new.head.first == NIL,
    {
        let first: usize = self.new.head.first;
        self.new.head.first = NIL;
        proof {
            self.new.order@ = Seq::empty();
            self.steps@ = self.steps@.push(QueueStep::Store { empty: self.looks_empty() });
        }
        first
    }

    /// Whether the queue is empty.
    pub fn is_empty(&self) -> (empty: bool)
        requires
            self.wf(),
        ensures
            empty == (self@.queue().len() == 0),
    {
        proof {
            if self.order@.len() > 0 {
                assert(linked(self.new.nodes@, self.order@, 0));
            }
            if self.new@.order.len() > 0 {
                assert(linked(self.new.nodes@, self.new@.order, 0));
            }
        }
        self.ready == NIL && self.new.head.first == NIL
    }

    /// Puts the entry `n` into the queue, and says whether the list was empty.
    pub fn enqueue(&mut self, n: usize) -> (was_empty: bool)
        requires
            old(self).wf(),
            n < old(self)@.new.count,
            !old(self)@.queue().contains(n),
        ensures
            final(self).wf(),
            final(self)@ == (QueueState {
                new: ListState { order: seq![n] + old(self)@.new.order, ..old(self)@.new },
                ..old(self)@
            }),
            final(self)@.queue() == old(self)@.queue().push(n),
            was_empty == (old(self)@.new.order.len() == 0),
    {
        let ghost s = self@;
        let ghost nodes = self.new.nodes@;
        proof {
            lemma_in_queue(s);
            if s.new.order.len() > 0 {
                assert(linked(nodes, s.new.order, 0));
            }
        }
        let first: usize = self.new.head.first;
        self.new.nodes.set(n, llist_node { next: first });
        self.new.head.first = n;
        proof {
            lemma_chain_push(nodes, self.new.nodes@, first, s.new.order, n);
            self.new.order@ = seq![n] + s.new.order;
            assert forall|i: int| 0 <= i < s.ready.len() implies #[trigger] self.new.nodes@[s.ready[i]
                as int] == nodes[s.ready[i] as int] by {
                assert(s.ready.contains(s.ready[i]));
                assert(linked(nodes, s.ready, i));
            }
            lemma_chain_frame(nodes, self.new.nodes@, self.ready, s.ready);
            assert forall|i: int, j: int|
                0 <= i < s.ready.len() && 0 <= j < self.new@.order.len() implies
                #[trigger] s.ready[i] != #[trigger] self.new@.order[j] by {
                assert(s.ready.contains(s.ready[i]));
                if j > 0 {
                    assert(self.new@.order[j] == s.new.order[j - 1]);
                }
            }
            assert(self@.queue() =~= s.queue().push(n));
        }
        first == NIL
    }

    /// Takes over what the other processors do while this one waits.
    fn wait(&mut self)
        requires
            old(self).locked,
            old(self).new.wf(),
            is_chain(old(self).new.nodes@, old(self).ready, old(self).order@),
            apart(old(self).order@, old(self).new@.order),
            old(self)@.proper(),
        ensures
            final(self).locked,
            final(self).ready == old(self).ready,
            final(self).new.wf(),
            is_chain(final(self).new.nodes@, final(self).ready, final(self).order@),
            apart(final(self).order@, final(self).new@.order),
            final(self)@ == old(self)@.turned(),
            final(self)@.proper(),
    {
        let ghost s = self@;
        let ghost nodes = self.new.nodes@;
        proof {
            lemma_proper(s);
        }
        self.new.turn(Ghost(s.ready.to_set()));
        proof {
            assert forall|i: int| 0 <= i < s.ready.len() implies #[trigger] self.new.nodes@[s.ready[i]
                as int] == nodes[s.ready[i] as int] by {
                assert(s.ready.contains(s.ready[i]));
                assert(linked(nodes, s.ready, i));
                assert(s.ready.to_set().contains(s.ready[i]));
            }
            lemma_chain_frame(nodes, self.new.nodes@, self.ready, s.ready);
            lemma_turned_proper(s);
        }
    }
}

/// What is in one of the chains is in the queue.
proof fn lemma_in_queue(s: QueueState)
    ensures
        forall|n: usize| s.ready.contains(n) ==> s.queue().contains(n),
        forall|n: usize| s.new.order.contains(n) ==> s.queue().contains(n),
{
    assert forall|n: usize| s.ready.contains(n) implies s.queue().contains(n) by {
        let i = s.ready.index_of(n);
        assert(s.queue()[i] == n);
    }
    assert forall|n: usize| s.new.order.contains(n) implies s.queue().contains(n) by {
        let i = s.new.order.index_of(n);
        let k = s.ready.len() + (s.new.order.len() - 1 - i);
        assert(s.queue()[k] == n);
    }
}

/// Processors that put entries into the queue once each do so in their next turn, and later.
proof fn lemma_turned_proper(s: QueueState)
    requires
        s.proper(),
        apart(s.ready, s.new.order),
    ensures
        s.turned().proper(),
        apart(s.ready, s.turned().new.order),
        s.turned().new.order.len() >= s.new.order.len(),
{
    let t = s.turned();
    if s.new.others.len() > 0 {
        let o = s.new.others;
        assert(!(o[0] is DelAll));
        assert forall|i: int| 0 <= i < t.new.others.len() implies #[trigger] t.new.others[i] == o[i + 1] by {}
        assert forall|i: int| 0 <= i < t.new.others.len() implies (
        #[trigger] t.new.others[i] matches Other::Add(n) ==> n < t.new.count
            && !t.new.order.contains(n) && !t.ready.contains(n)) by {
            assert(t.new.others[i] == o[i + 1]);
            if let Other::Add(n) = o[i + 1] {
                if t.new.order.contains(n) {
                    let k = t.new.order.index_of(n);
                    if let Other::Add(m) = o[0] {
                        if k > 0 {
                            assert(s.new.order[k - 1] == n);
                            assert(s.new.order.contains(n));
                        } else {
                            assert(m == n);
                            assert(o[i + 1] != Other::Add(o[0]->Add_0));
                        }
                    }
                }
            }
        }
        assert forall|i: int, j: int| 0 <= i < t.ready.len() && 0 <= j < t.new.order.len() implies
            #[trigger] t.ready[i] != #[trigger] t.new.order[j] by {
            if let Other::Add(m) = o[0] {
                if j > 0 {
                    assert(t.new.order[j] == s.new.order[j - 1]);
                } else {
                    assert(s.ready.contains(s.ready[i]));
                }
            }
        }
    }
}

/// Processors that put entries into the queue once each add them to the list as they should.
proof fn lemma_proper(s: QueueState)
    requires
        s.proper(),
        apart(s.ready, s.new.order),
    ensures
        s.new.proper(s.ready.to_set()),
    decreases s.new.others.len(),
{
    if s.new.others.len() > 0 {
        lemma_turned_proper(s);
        lemma_proper(s.turned());
        assert(s.new.others[0] matches Other::Add(n) ==> n < s.new.count && !s.new.order.contains(n));
    }
}

/// The state after an entry has been taken out: it comes from those that are ready, or, if there are
/// none, those that have been put in get ready.
pub open spec fn dequeued(s: QueueState) -> QueueState {
    let t = s.turned();
    if s.ready.len() > 0 {
        let r = QueueState { ready: s.ready.drop_first(), ..t };
        QueueState {
            steps: s.steps + seq![
                QueueStep::Lock,
                QueueStep::Read,
                QueueStep::Store { empty: r.queue().len() == 0 },
                QueueStep::Unlock,
            ],
            ..r
        }
    } else {
        let ready = t.new.now().reverse().drop_first();
        // The list is marked as ready, and taken over: the queue does not look empty in between.
        QueueState {
            ready,
            new: t.new.then_is(Seq::empty()),
            steps: s.steps + seq![
                QueueStep::Lock,
                QueueStep::Read,
                QueueStep::Store { empty: false },
                QueueStep::Store { empty: false },
                QueueStep::Store { empty: ready.len() == 0 },
                QueueStep::Unlock,
            ],
        }
    }
}

/// The state after all entries have been taken out.
pub open spec fn all_dequeued(s: QueueState) -> QueueState {
    let t = s.turned().turned();
    QueueState {
        ready: Seq::empty(),
        new: ListState { order: Seq::empty(), ..t.new },
        steps: s.steps + seq![
            QueueStep::Lock,
            QueueStep::Read,
            QueueStep::Store { empty: t.new.order.len() == 0 },
            QueueStep::Store { empty: true },
            QueueStep::Unlock,
        ],
    }
}

/// Whether the lock is held where the step `i` is made: it has been taken, and not given back since.
pub open spec fn is_held_at(steps: Seq<QueueStep>, i: int) -> bool {
    exists|j: int|
        0 <= j < i && #[trigger] steps[j] == QueueStep::Lock && forall|k: int|
            j < k < i ==> #[trigger] steps[k] != QueueStep::Unlock
}

/// Whether the steps behind the first `n` read and store the first ready entry, and take over the list,
/// with the lock held only, and end with the lock given back.
pub open spec fn is_locked_from(steps: Seq<QueueStep>, n: int) -> bool {
    &&& forall|i: int|
        n <= i < steps.len() && (#[trigger] steps[i] is Read || steps[i] is Store) ==> is_held_at(
            steps,
            i,
        )
    &&& steps.last() == QueueStep::Unlock
}

/// Entries are taken out with the lock held.
pub proof fn law_taken_out_under_the_lock(s: QueueState)
    requires
        s.queue().len() > 0,
    ensures
        is_locked_from(dequeued(s).steps, s.steps.len() as int),
        is_locked_from(all_dequeued(s).steps, s.steps.len() as int),
{
    let n = s.steps.len() as int;
    let d = dequeued(s).steps;
    assert(d[n] == QueueStep::Lock);
    let a = all_dequeued(s).steps;
    assert(a[n] == QueueStep::Lock);
}

/// The entries that are in the queue by the time one is taken out.
pub open spec fn awaited(s: QueueState) -> Seq<usize> {
    if s.ready.len() > 0 {
        s.turned().queue()
    } else {
        s.turned().turned().queue()
    }
}

/// Entries come out of a queue in the order in which they were put in: the one that comes out is the
/// oldest, and the others stay in order.
pub proof fn law_first_in_first_out(s: QueueState)
    requires
        s.proper(),
        apart(s.ready, s.new.order),
        s.queue().len() > 0,
    ensures
        awaited(s).len() > 0,
        awaited(s)[0] == s.queue()[0],
        dequeued(s).queue() == awaited(s).drop_first(),
        s.queue().is_prefix_of(awaited(s)),
{
    let t = s.turned();
    lemma_turned_proper(s);
    lemma_turned_proper(t);
    lemma_grows(s);
    lemma_grows(t);
    if s.ready.len() > 0 {
        assert(dequeued(s).queue() =~= awaited(s).drop_first());
    } else {
        assert(dequeued(s).queue() =~= awaited(s).drop_first());
    }
    assert(s.queue().is_prefix_of(awaited(s)));
}

/// A queue looks empty while an entry is taken out only if none is left: only after the last store.
pub proof fn law_never_looks_empty(s: QueueState)
    requires
        s.queue().len() > 0,
    ensures
        ({
            let d = dequeued(s);
            let last = d.steps.len() - 2;
            &&& s.steps.is_prefix_of(d.steps)
            &&& s.steps.len() < last
            &&& forall|i: int|
                s.steps.len() <= i < last ==> #[trigger] d.steps[i] != (QueueStep::Store {
                    empty: true,
                })
            &&& d.steps[last] == (QueueStep::Store { empty: d.queue().len() == 0 })
        }),
{
    let d = dequeued(s);
    assert(s.steps =~= d.steps.subrange(0, s.steps.len() as int));
}

/// A turn of the other processors puts entries behind those in the queue.
proof fn lemma_grows(s: QueueState)
    requires
        s.proper(),
    ensures
        s.queue().is_prefix_of(s.turned().queue()),
{
    let a = s.queue();
    let b = s.turned().queue();
    if s.new.others.len() > 0 {
        assert(!(s.new.others[0] is DelAll));
        if let Other::Add(n) = s.new.others[0] {
            assert(b =~= a.push(n));
        }
    }
    assert(a =~= b.subrange(0, a.len() as int));
}

/// Takes out the oldest entry, or gives `NIL` if the queue is empty.
pub fn __lwq_dequeue(q: &mut lwq) -> (this: usize)
    requires
        old(q).wf(),
        old(q)@.proper(),
    ensures
        final(q).wf(),
        final(q)@.proper(),
        old(q)@.queue().len() == 0 ==> this == NIL && final(q)@ == old(q)@,
        old(q)@.queue().len() > 0 ==> this == old(q)@.queue()[0] && final(q)@ == dequeued(old(q)@),
{
    if q.is_empty() {
        return NIL;
    }
    let ghost s = q@;
    q.lock();
    q.wait();
    let ghost t = q@;
    let ghost nodes = q.new.nodes@;
    proof {
        lemma_turned_proper(s);
        law_first_in_first_out(s);
        if s.ready.len() > 0 {
            lemma_chain_rest(nodes, q.ready, s.ready);
        }
        if t.new.order.len() > 0 {
            assert(linked(nodes, t.new.order, 0));
        }
    }
    let mut this: usize = q.get_ready();
    if this == NIL && q.new.head.first != NIL {
        // The queue must not look empty in between.
        q.set_ready(1);
        proof {
            lemma_proper(t);
            assert(t.ready.to_set() =~= Set::<usize>::empty());
            lemma_turned_proper(t);
        }
        let first: usize = q.take_new();
        let ghost order = t.new.now();
        this = reverse_chain(&mut q.new.nodes, first, Ghost(order));
        proof {
            assert(order.reverse().len() > 0);
            assert(linked(q.new.nodes@, order.reverse(), 0));
        }
        if this == NIL {
            q.set_ready(NIL);
        }
        proof {
            q.order@ = order.reverse();
            lemma_chain_rest(q.new.nodes@, this, order.reverse());
            assert(s.queue()[0] == order.reverse()[0]) by {
                assert(awaited(s) =~= order.reverse());
            }
        }
    }
    if this != NIL {
        let next: usize = q.new.nodes[this].next;
        q.set_ready(next);
        proof {
            q.order@ = q.order@.drop_first();
            if q.order@.len() > 0 {
                assert(linked(q.new.nodes@, q.order@, 0));
            }
            if q.new@.order.len() > 0 {
                assert(linked(q.new.nodes@, q.new@.order, 0));
            }
        }
    }
    q.unlock();
    proof {
        assert(q@ == dequeued(s));
        lemma_dequeued_proper(s);
        if s.ready.len() > 0 {
            assert forall|i: int, j: int|
                0 <= i < q@.ready.len() && 0 <= j < q@.new.order.len() implies
                #[trigger] q@.ready[i] != #[trigger] q@.new.order[j] by {
                assert(q@.ready[i] == s.ready[i + 1]);
            }
        }
    }
    this
}

/// What is left of the turns of the other processors is as it should be.
proof fn lemma_dequeued_proper(s: QueueState)
    requires
        s.proper(),
        apart(s.ready, s.new.order),
        s.queue().len() > 0,
    ensures
        dequeued(s).proper(),
{
    let t = s.turned();
    let u = t.turned();
    let r = dequeued(s);
    lemma_turned_proper(s);
    lemma_turned_proper(t);
    if s.ready.len() > 0 {
        assert forall|i: int| 0 <= i < r.new.others.len() implies (
        #[trigger] r.new.others[i] matches Other::Add(n) ==> n < r.new.count
            && !r.new.order.contains(n) && !r.ready.contains(n)) by {
            assert(t.new.others[i] == r.new.others[i]);
            if let Other::Add(n) = r.new.others[i] {
                if r.ready.contains(n) {
                    let k = r.ready.index_of(n);
                    assert(s.ready[k + 1] == n);
                    assert(s.ready.contains(n));
                }
            }
        }
    } else {
        let order = t.new.now();
        assert forall|i: int| 0 <= i < r.new.others.len() implies (
        #[trigger] r.new.others[i] matches Other::Add(n) ==> n < r.new.count
            && !r.new.order.contains(n) && !r.ready.contains(n)) by {
            assert(u.new.others[i] == r.new.others[i]);
            if let Other::Add(n) = r.new.others[i] {
                if r.ready.contains(n) {
                    let k = r.ready.index_of(n);
                    assert(order.reverse()[k + 1] == n);
                    assert(order[order.len() - 2 - k] == n);
                    assert(u.new.order.contains(n));
                }
            }
        }
        assert(u.new.others == r.new.others);
        assert forall|i: int| 0 <= i < r.new.others.len() implies !(
        #[trigger] r.new.others[i] is DelAll) by {
            assert(u.new.others[i] == r.new.others[i]);
        }
    }
}

/// Takes out all entries, as a chain from the oldest to the newest, and gives the first of them.
pub fn lwq_dequeue_all(q: &mut lwq) -> (first: usize)
    requires
        old(q).wf(),
        old(q)@.proper(),
    ensures
        final(q).wf(),
        final(q)@.proper(),
        final(q)@.new.count == old(q)@.new.count,
        old(q)@.queue().len() == 0 ==> first == NIL && final(q)@ == old(q)@,
        old(q)@.queue().len() > 0 ==> {
            &&& final(q)@ == all_dequeued(old(q)@)
            &&& final(q)@.queue().len() == 0
            &&& is_chain(final(q).nodes(), first, old(q)@.turned().turned().queue())
        },
{
    if q.is_empty() {
        return NIL;
    }
    let ghost s = q@;
    q.lock();
    q.wait();
    let ghost t = q@;
    let r: usize = q.get_ready();
    proof {
        lemma_turned_proper(s);
        lemma_turned_proper(t);
    }
    // The list is taken after the last turn of the other processors.
    q.wait();
    let ghost u = q@;
    let ghost before = q.new.nodes@;
    proof {
        if u.new.order.len() > 0 {
            assert(linked(before, u.new.order, 0));
        }
    }
    q.set_ready(NIL);
    let new: usize = q.take_all();
    proof {
        q.order@ = Seq::empty();
    }
    q.unlock();
    let ghost order = u.new.order;
    let new: usize = reverse_chain(&mut q.new.nodes, new, Ghost(order));
    proof {
        assert forall|i: int| 0 <= i < u.ready.len() implies #[trigger] q.new.nodes@[u.ready[i] as int]
            == before[u.ready[i] as int] by {
            assert(linked(before, u.ready, i));
            if order.contains(u.ready[i]) {
                assert(u.ready[i] != order[order.index_of(u.ready[i])]);
            }
        }
        lemma_chain_frame(before, q.new.nodes@, r, u.ready);
        if u.ready.len() > 0 {
            assert(linked(before, u.ready, 0));
        }
    }
    if r == NIL {
        assert(u.queue() =~= order.reverse());
        return new;
    }
    let mut last: usize = r;
    let ghost mut k: int = 0;
    proof {
        assert(linked(q.new.nodes@, u.ready, 0));
    }
    let _count: usize = q.new.nodes.len();
    loop
        invariant
            0 <= k < u.ready.len(),
            is_chain(q.new.nodes@, r, u.ready),
            last == u.ready[k],
        ensures
            k == u.ready.len() - 1,
        decreases u.ready.len() - k,
    {
        proof {
            assert(linked(q.new.nodes@, u.ready, k));
            if k + 1 < u.ready.len() {
                assert(linked(q.new.nodes@, u.ready, k + 1));
            }
        }
        let next: usize = q.new.nodes[last].next;
        if next == NIL {
            break;
        }
        last = next;
        proof {
            k = k + 1;
        }
    }
    let ghost joined = q.new.nodes@;
    proof {
        assert(linked(joined, u.ready, k));
    }
    q.new.nodes.set(last, llist_node { next: new });
    proof {
        lemma_join(joined, q.new.nodes@, r, u.ready, new, order.reverse());
    }
    r
}

/// Two chains make one if the last entry of the first leads to the second.
proof fn lemma_join(
    nodes: Seq<llist_node>,
    nodes2: Seq<llist_node>,
    first: usize,
    a: Seq<usize>,
    second: usize,
    b: Seq<usize>,
)
    requires
        is_chain(nodes, first, a),
        is_chain(nodes, second, b),
        a.len() > 0,
        forall|i: int, j: int|
            0 <= i < a.len() && 0 <= j < b.len() ==> #[trigger] a[i] != #[trigger] b[j],
        nodes2 == nodes.update(a.last() as int, llist_node { next: second }),
    ensures
        is_chain(nodes2, first, a + b),
{
    let c = a + b;
    assert(linked(nodes, a, a.len() - 1));
    assert forall|i: int| 0 <= i < c.len() implies #[trigger] linked(nodes2, c, i) by {
        if i < a.len() {
            assert(linked(nodes, a, i));
            assert(i < a.len() - 1 ==> a[i] != a.last());
        } else {
            assert(linked(nodes, b, i - a.len()));
            assert(a[a.len() - 1] != b[i - a.len()]);
        }
    }
    assert forall|i: int, j: int| 0 <= i < j < c.len() implies c[i] != c[j] by {
        if j < a.len() {
        } else if i >= a.len() {
            assert(b[i - a.len()] != b[j - a.len()]);
        } else {
            assert(a[i] != b[j - a.len()]);
        }
    }
}

/// Entries that are put into an empty queue come out in the order in which they were put in.
pub proof fn law_queue_order(
    put_a: &mut lwq,
    a: usize,
    put_b: &mut lwq,
    b: usize,
    take_a: &mut lwq,
    first: usize,
    take_b: &mut lwq,
    second: usize,
    was_empty: bool,
    was_empty_too: bool,
)
    requires
        old(put_a).wf(),
        old(put_a)@.queue().len() == 0,
        old(put_a)@.new.others.len() == 0,
        a != b,
        call_ensures(lwq::enqueue, (put_a, a), was_empty),
        *old(put_b) == *final(put_a),
        call_ensures(lwq::enqueue, (put_b, b), was_empty_too),
        *old(take_a) == *final(put_b),
        call_ensures(__lwq_dequeue, (take_a,), first),
        *old(take_b) == *final(take_a),
        call_ensures(__lwq_dequeue, (take_b,), second),
    ensures
        was_empty,
        !was_empty_too,
        first == a,
        second == b,
        final(take_b)@.queue().len() == 0,
{
    let s0 = old(put_a)@;
    assert(s0.queue() =~= Seq::<usize>::empty());
    assert(s0.ready.len() == 0 && s0.new.order.len() == 0);
    let s2 = final(put_b)@;
    assert(s2.queue() =~= seq![a, b]);
    assert(s2.new.order =~= seq![b, a]);
    let s3 = final(take_a)@;
    assert(s3 == dequeued(s2));
    assert(s2.turned().new.now() == s2.new.order);
    assert(s3.ready =~= seq![b]) by {
        let r = s2.new.order.reverse();
        assert(r =~= seq![a, b]);
        assert(r.drop_first() =~= seq![b]);
    }
    assert(s3.new.order.len() == 0);
    assert(s3.queue() =~= seq![b]);
    let s4 = final(take_b)@;
    assert(s4 == dequeued(s3));
    assert(s4.ready =~= Seq::<usize>::empty());
    assert(s4.queue() =~= Seq::<usize>::empty());
}

/// All entries are taken out as a chain in the order in which they were put in, and the queue is empty
/// then.
pub proof fn law_all_in_order(q: &mut lwq, first: usize, k: nat)
    requires
        old(q).wf(),
        old(q)@.new.others.len() == 0,
        call_ensures(lwq_dequeue_all, (q,), first),
        k < old(q)@.queue().len(),
    ensures
        walk(final(q).nodes(), first, k) == old(q)@.queue()[k as int],
        walk(final(q).nodes(), first, old(q)@.queue().len()) == NIL,
        final(q)@.queue().len() == 0,
{
    let s = old(q)@;
    assert(s.turned().turned().queue() =~= s.queue());
    law_chain_is_walked(final(q).nodes(), first, s.queue(), k);
    law_chain_is_walked(final(q).nodes(), first, s.queue(), s.queue().len());
}

} // verus!
