//! Singly linked lists that processors add to without a lock.
//!
//! A list is a head and the entries it leads to, from the newest to the oldest. Entries are numbered,
//! and a link is the number of an entry. Any number of processors may add entries and take the whole
//! list; only one may take single entries. The other processors get a turn before every access that
//! changes the head.

use vstd::prelude::*;

verus! {

/// The end of a chain.
pub const NIL: usize = usize::MAX;

/// An entry of a list.
#[allow(non_camel_case_types)]
#[derive(Clone, Copy)]
pub struct llist_node {
    pub next: usize,
}

impl llist_node {
    /// An entry that is on no list yet.
    pub fn new() -> (n: Self)
        ensures
            n.next == NIL,
    {
        llist_node { next: NIL }
    }
}

/// The head of a list.
#[allow(non_camel_case_types)]
#[derive(Clone, Copy)]
pub struct llist_head {
    pub first: usize,
}

/// What another processor does in its turn.
#[derive(Clone, Copy)]
pub enum Other {
    /// Nothing.
    Nothing,
    /// It adds an entry.
    Add(usize),
    /// It takes the whole list.
    DelAll,
}

/// The link to the entry at position `i` of a chain.
pub open spec fn link(order: Seq<usize>, i: int) -> usize {
    if i < order.len() {
        order[i]
    } else {
        NIL
    }
}

/// Whether the entry at position `i` of a chain leads to the next.
pub open spec fn linked(nodes: Seq<llist_node>, order: Seq<usize>, i: int) -> bool {
    order[i] < nodes.len() && nodes[order[i] as int].next == link(order, i + 1)
}

/// Whether the entries of `order` are a chain that begins at `first`.
pub open spec fn is_chain(nodes: Seq<llist_node>, first: usize, order: Seq<usize>) -> bool {
    &&& nodes.len() <= NIL
    &&& order.no_duplicates()
    &&& first == link(order, 0)
    &&& forall|i: int| 0 <= i < order.len() ==> #[trigger] linked(nodes, order, i)
}

/// A chain stays where its entries do not change.
pub proof fn lemma_chain_frame(
    nodes: Seq<llist_node>,
    nodes2: Seq<llist_node>,
    first: usize,
    order: Seq<usize>,
)
    requires
        is_chain(nodes, first, order),
        nodes.len() <= nodes2.len() <= NIL,
        forall|i: int|
            0 <= i < order.len() ==> #[trigger] nodes2[order[i] as int] == nodes[order[i] as int],
    ensures
        is_chain(nodes2, first, order),
{
    assert forall|i: int| 0 <= i < order.len() implies #[trigger] linked(nodes2, order, i) by {
        assert(linked(nodes, order, i));
        assert(nodes2[order[i] as int] == nodes[order[i] as int]);
    }
}

/// An entry before a chain makes a longer one.
pub proof fn lemma_chain_push(
    nodes: Seq<llist_node>,
    nodes2: Seq<llist_node>,
    first: usize,
    order: Seq<usize>,
    n: usize,
)
    requires
        is_chain(nodes, first, order),
        n < nodes.len(),
        !order.contains(n),
        nodes2 == nodes.update(n as int, llist_node { next: first }),
    ensures
        is_chain(nodes2, n, seq![n] + order),
{
    let order2 = seq![n] + order;
    assert forall|i: int, j: int| 0 <= i < j < order2.len() implies order2[i] != order2[j] by {
        if i == 0 {
            assert(order2[j] == order[j - 1]);
            assert(order.contains(order[j - 1]));
        } else {
            assert(order2[i] == order[i - 1] && order2[j] == order[j - 1]);
        }
    }
    assert forall|i: int| 0 <= i < order2.len() implies #[trigger] linked(nodes2, order2, i) by {
        if i > 0 {
            assert(linked(nodes, order, i - 1));
            assert(order.contains(order[i - 1]));
        }
    }
}

/// The rest of a chain is a chain.
pub proof fn lemma_chain_rest(nodes: Seq<llist_node>, first: usize, order: Seq<usize>)
    requires
        is_chain(nodes, first, order),
        order.len() > 0,
    ensures
        is_chain(nodes, nodes[first as int].next, order.drop_first()),
        !order.drop_first().contains(first),
        first < nodes.len(),
{
    let rest = order.drop_first();
    assert(linked(nodes, order, 0));
    assert forall|i: int| 0 <= i < rest.len() implies #[trigger] linked(nodes, rest, i) by {
        assert(linked(nodes, order, i + 1));
    }
    assert forall|i: int, j: int| 0 <= i < j < rest.len() implies rest[i] != rest[j] by {
        assert(rest[i] == order[i + 1] && rest[j] == order[j + 1]);
    }
    if rest.contains(first) {
        let i = rest.index_of(first);
        assert(order[i + 1] == order[0]);
    }
}

/// The entries of a list, and what the other processors will do.
#[verifier::ext_equal]
pub ghost struct ListState {
    /// The entries, from the newest to the oldest.
    pub order: Seq<usize>,
    /// What the other processors will do, one entry for each of their turns.
    pub others: Seq<Other>,
    /// How many entries there are, on the list or not.
    pub count: int,
}

impl ListState {
    /// The entries after the next turn of the other processors.
    pub open spec fn now(self) -> Seq<usize> {
        if self.others.len() == 0 {
            self.order
        } else {
            match self.others[0] {
                Other::Nothing => self.order,
                Other::Add(n) => seq![n] + self.order,
                Other::DelAll => Seq::empty(),
            }
        }
    }

    /// The state with the entries `order`, after the next turn of the other processors.
    pub open spec fn then_is(self, order: Seq<usize>) -> ListState {
        ListState {
            order,
            others: if self.others.len() > 0 {
                self.others.drop_first()
            } else {
                self.others
            },
            ..self
        }
    }

    /// The state after the next turn of the other processors.
    pub open spec fn turned(self) -> ListState {
        self.then_is(self.now())
    }

    /// Whether the other processors only add entries that are not on the list, and none of `mine`.
    pub open spec fn proper(self, mine: Set<usize>) -> bool
        decreases self.others.len(),
    {
        self.others.len() > 0 ==> {
            &&& (self.others[0] matches Other::Add(n) ==> n < self.count && !self.order.contains(n)
                && !mine.contains(n))
            &&& self.turned().proper(mine)
        }
    }

    /// Whether the other processors only add entries.
    pub open spec fn only_adds(self) -> bool {
        forall|i: int| 0 <= i < self.others.len() ==> !(#[trigger] self.others[i] is DelAll)
    }
}

/// A list that other processors use as well.
pub struct SharedList {
    pub nodes: Vec<llist_node>,
    pub head: llist_head,
    /// What the other processors do, one entry for each of their turns.
    pub others: Vec<Other>,
    /// The next turn of the other processors.
    pub next: usize,
    pub order: Ghost<Seq<usize>>,
}

impl View for SharedList {
    type V = ListState;

    open spec fn view(&self) -> ListState {
        ListState {
            order: self.order@,
            others: self.others@.skip(self.next as int),
            count: self.nodes@.len() as int,
        }
    }
}

impl SharedList {
    /// Whether the head leads to the entries of the list.
    pub open spec fn wf(self) -> bool {
        &&& is_chain(self.nodes@, self.head.first, self.order@)
        &&& self.next <= self.others@.len()
    }

    /// An empty list, with `count` entries that are not on it.
    pub fn new(count: usize, others: Vec<Other>) -> (l: Self)
        requires
            count < NIL,
        ensures
            l.wf(),
            l@.order == Seq::<usize>::empty(),
            l@.others == others@,
            l@.count == count,
            l.others@ == others@,
            l.next == 0,
    {
        let mut nodes: Vec<llist_node> = Vec::new();
        let mut i: usize = 0;
        while i < count
            invariant
                i <= count < NIL,
                nodes@.len() == i,
            decreases count - i,
        {
            nodes.push(llist_node::new());
            i = i + 1;
        }
        let l = SharedList {
            nodes,
            head: llist_head { first: NIL },
            others,
            next: 0,
            order: Ghost(Seq::empty()),
        };
        assert(l@.others =~= others@);
        l
    }

    /// Gives the other processors their turn.
    pub(crate) fn turn(&mut self, Ghost(mine): Ghost<Set<usize>>)
        requires
            old(self).wf(),
            old(self)@.proper(mine),
        ensures
            final(self).wf(),
            final(self)@ == old(self)@.turned(),
            final(self)@.proper(mine),
            final(self).nodes@.len() == old(self).nodes@.len(),
            forall|n: usize|
                mine.contains(n) && n < old(self).nodes@.len() ==> #[trigger] final(self).nodes@[n as int] == old(self).nodes@[n as int],
            forall|n: usize|
                old(self)@.order.contains(n) ==> #[trigger] final(self).nodes@[n as int] == old(self).nodes@[n as int],
            final(self).head.first == old(self).head.first ==> final(self)@.order == old(self)@.order,
    {
        let ghost before = self@;
        let ghost nodes = self.nodes@;
        proof {
            assert forall|n: usize| before.order.contains(n) implies n < nodes.len() by {
                assert(linked(nodes, before.order, before.order.index_of(n)));
            }
        }
        if self.next < self.others.len() {
            let other: Other = self.others[self.next];
            self.next = self.next + 1;
            proof {
                assert(before.others[0] == other);
                assert(self@.others =~= before.others.drop_first());
            }
            match other {
                Other::Nothing => {},
                Other::Add(n) => {
                    let first: usize = self.head.first;
                    self.nodes.set(n, llist_node { next: first });
                    self.head.first = n;
                    proof {
                        lemma_chain_push(nodes, self.nodes@, first, before.order, n);
                        self.order@ = seq![n] + before.order;
                        if first == n {
                            assert(before.order.contains(n));
                        }
                    }
                },
                Other::DelAll => {
                    self.head.first = NIL;
                    proof {
                        self.order@ = Seq::empty();
                        if before.order.len() > 0 {
                            assert(linked(nodes, before.order, 0));
                        } else {
                            assert(before.order =~= Seq::<usize>::empty());
                        }
                    }
                },
            }
        }
    }
}

/// The entries after the other processors have had their turns while this one tries to change the
/// head: it succeeds where they have left the head alone.
pub open spec fn settled(s: ListState) -> ListState
    decreases s.others.len(),
{
    if s.others.len() == 0 || s.now() == s.order {
        s.turned()
    } else {
        settled(s.turned())
    }
}

/// Adds the entry `n`, and says whether the list was empty.
pub fn llist_add(list: &mut SharedList, n: usize) -> (was_empty: bool)
    requires
        old(list).wf(),
        n < old(list)@.count,
        !old(list)@.order.contains(n),
        old(list)@.proper(Set::empty().insert(n)),
    ensures
        final(list).wf(),
        ({
            let s = settled(old(list)@);
            &&& final(list)@ == (ListState { order: seq![n] + s.order, ..s })
            &&& was_empty == (s.order.len() == 0)
        }),
{
    let mut first: usize = list.head.first;
    loop
        invariant
            list.wf(),
            first == list.head.first,
            n < list@.count,
            !list@.order.contains(n),
            list@.proper(Set::empty().insert(n)),
            settled(list@) == settled(old(list)@),
        decreases list@.others.len(),
    {
        let ghost s = list@;
        let ghost nodes = list.nodes@;
        list.nodes.set(n, llist_node { next: first });
        proof {
            assert forall|i: int| 0 <= i < s.order.len() implies #[trigger] list.nodes@[s.order[i]
                as int] == nodes[s.order[i] as int] by {
                assert(s.order.contains(s.order[i]));
                assert(linked(nodes, s.order, i));
            }
            lemma_chain_frame(nodes, list.nodes@, list.head.first, s.order);
            assert(list@ == s);
        }
        list.turn(Ghost(Set::empty().insert(n)));
        proof {
            lemma_turned_free(s, Set::empty().insert(n), n);
        }
        if list.head.first == first {
            let ghost t = list@;
            let ghost nodes2 = list.nodes@;
            list.head.first = n;
            proof {
                assert(s.now() == s.order);
                assert(nodes2[n as int].next == first);
                assert(nodes2 =~= nodes2.update(n as int, llist_node { next: first }));
                lemma_chain_push(nodes2, nodes2, first, t.order, n);
                list.order@ = seq![n] + t.order;
                if t.order.len() > 0 {
                    assert(linked(nodes2, t.order, 0));
                }
                assert(settled(s) == t);
                assert(list@ == (ListState { order: seq![n] + t.order, ..t }));
            }
            return first == NIL;
        }
        first = list.head.first;
    }
}

/// An entry of one's own does not get on the list in the turn of the other processors.
proof fn lemma_turned_free(s: ListState, mine: Set<usize>, n: usize)
    requires
        s.proper(mine),
        mine.contains(n),
        !s.order.contains(n),
    ensures
        !s.turned().order.contains(n),
{
    if s.others.len() > 0 {
        if let Other::Add(m) = s.others[0] {
            let o = seq![m] + s.order;
            if o.contains(n) {
                let i = o.index_of(n);
                if i > 0 {
                    assert(s.order[i - 1] == n);
                    assert(s.order.contains(n));
                }
            }
        }
    }
}

/// Takes the whole list, and gives its first entry.
pub fn llist_del_all(list: &mut SharedList) -> (first: usize)
    requires
        old(list).wf(),
        old(list)@.proper(Set::empty()),
    ensures
        final(list).wf(),
        final(list)@ == old(list)@.then_is(Seq::empty()),
        is_chain(final(list).nodes@, first, old(list)@.now()),
{
    list.turn(Ghost(Set::empty()));
    let first: usize = list.head.first;
    list.head.first = NIL;
    proof {
        list.order@ = Seq::empty();
    }
    first
}

/// Takes the first entry, which is the newest, or gives `NIL` if there is none. No other processor
/// takes entries.
pub fn llist_del_first(list: &mut SharedList) -> (entry: usize)
    requires
        old(list).wf(),
        old(list)@.proper(Set::empty()),
        old(list)@.only_adds(),
    ensures
        final(list).wf(),
        old(list)@.order.len() == 0 ==> entry == NIL && final(list)@ == old(list)@,
        old(list)@.order.len() > 0 ==> {
            let s = settled(old(list)@);
            &&& s.order.len() > 0
            &&& entry == s.order[0]
            &&& final(list)@ == (ListState { order: s.order.drop_first(), ..s })
        },
{
    let mut entry: usize = list.head.first;
    if entry == NIL {
        proof {
            if list@.order.len() > 0 {
                assert(linked(list.nodes@, list@.order, 0));
            }
        }
        return NIL;
    }
    loop
        invariant
            list.wf(),
            entry == list.head.first,
            entry != NIL,
            list@.proper(Set::empty()),
            list@.only_adds(),
            settled(list@) == settled(old(list)@),
            old(list)@.order.len() > 0,
        decreases list@.others.len(),
    {
        let ghost s = list@;
        proof {
            lemma_chain_rest(list.nodes@, list.head.first, s.order);
        }
        let new_first: usize = list.nodes[entry].next;
        list.turn(Ghost(Set::empty()));
        proof {
            assert(s.order.contains(entry));
            assert(s.others.len() > 0 ==> !(s.others[0] is DelAll));
        }
        if list.head.first == entry {
            let ghost t = list@;
            list.head.first = new_first;
            proof {
                assert(s.now() == s.order);
                lemma_chain_rest(list.nodes@, entry, t.order);
                list.order@ = t.order.drop_first();
            }
            return entry;
        }
        entry = list.head.first;
        proof {
            lemma_adds_later(s);
            assert(linked(list.nodes@, list@.order, 0));
        }
    }
}

/// Processors that only add entries do so later as well.
proof fn lemma_adds_later(s: ListState)
    requires
        s.only_adds(),
    ensures
        s.turned().only_adds(),
{
    if s.others.len() > 0 {
        assert forall|i: int| 0 <= i < s.turned().others.len() implies !(
        #[trigger] s.turned().others[i] is DelAll) by {
            assert(s.turned().others[i] == s.others[i + 1]);
        }
    }
}

/// What taking the entry `this`, if it is the first, comes to: the state, and whether it was taken.
pub open spec fn first_taken(s: ListState, this: usize) -> (ListState, bool)
    decreases s.others.len(),
{
    if s.order.len() == 0 || s.order[0] != this {
        (s, false)
    } else if s.others.len() == 0 || s.now() == s.order {
        (s.then_is(s.order.drop_first()), true)
    } else {
        first_taken(s.turned(), this)
    }
}

/// Takes the entry `this` if it is the first, and says whether it was.
pub fn llist_del_first_this(list: &mut SharedList, this: usize) -> (done: bool)
    requires
        old(list).wf(),
        old(list)@.proper(Set::empty()),
        this < old(list)@.count,
    ensures
        final(list).wf(),
        (final(list)@, done) == first_taken(old(list)@, this),
{
    let mut entry: usize = list.head.first;
    loop
        invariant
            list.wf(),
            entry == list.head.first,
            list@.proper(Set::empty()),
            this < list@.count,
            first_taken(list@, this) == first_taken(old(list)@, this),
        decreases list@.others.len(),
    {
        let ghost s = list@;
        if entry != this {
            return false;
        }
        proof {
            lemma_chain_rest(list.nodes@, list.head.first, s.order);
        }
        let new_first: usize = list.nodes[entry].next;
        list.turn(Ghost(Set::empty()));
        proof {
            assert(s.order.contains(entry));
        }
        if list.head.first == entry {
            let ghost t = list@;
            list.head.first = new_first;
            proof {
                assert(s.now() == s.order);
                lemma_chain_rest(list.nodes@, entry, t.order);
                list.order@ = t.order.drop_first();
            }
            return true;
        }
        entry = list.head.first;
    }
}

/// Reverses the order of a chain, and gives its new first entry.
pub fn llist_reverse_order(nodes: &mut Vec<llist_node>, head: usize) -> (new_head: usize)
    requires
        exists|order: Seq<usize>| is_chain(old(nodes)@, head, order),
    ensures
        forall|order: Seq<usize>|
            is_chain(old(nodes)@, head, order) ==> is_chain(
                final(nodes)@,
                new_head,
                order.reverse(),
            ),
        final(nodes)@.len() == old(nodes)@.len(),
{
    let ghost order = choose|order: Seq<usize>| is_chain(nodes@, head, order);
    let new_head: usize = reverse_chain(nodes, head, Ghost(order));
    proof {
        assert forall|other: Seq<usize>| is_chain(old(nodes)@, head, other) implies is_chain(
            nodes@,
            new_head,
            other.reverse(),
        ) by {
            lemma_chain_unique(old(nodes)@, head, order, other);
        }
    }
    new_head
}

/// A chain has one order.
pub proof fn lemma_chain_unique(nodes: Seq<llist_node>, first: usize, a: Seq<usize>, b: Seq<usize>)
    requires
        is_chain(nodes, first, a),
        is_chain(nodes, first, b),
    ensures
        a == b,
    decreases a.len(),
{
    if a.len() > 0 {
        assert(linked(nodes, a, 0));
        assert(b.len() > 0);
        lemma_chain_rest(nodes, first, a);
        lemma_chain_rest(nodes, first, b);
        lemma_chain_unique(nodes, nodes[first as int].next, a.drop_first(), b.drop_first());
        assert(a =~= seq![a[0]] + a.drop_first());
        assert(b =~= seq![b[0]] + b.drop_first());
    } else if b.len() > 0 {
        assert(linked(nodes, b, 0));
    } else {
        assert(a =~= b);
    }
}

/// Reverses a chain, and gives its new first entry.
pub(crate) fn reverse_chain(nodes: &mut Vec<llist_node>, head: usize, Ghost(order): Ghost<
    Seq<usize>,
>) -> (new_head: usize)
    requires
        is_chain(old(nodes)@, head, order),
    ensures
        is_chain(final(nodes)@, new_head, order.reverse()),
        final(nodes)@.len() == old(nodes)@.len(),
        forall|n: usize|
            n < old(nodes)@.len() && !order.contains(n) ==> #[trigger] final(nodes)@[n as int]
                == old(nodes)@[n as int],
{
    let mut head: usize = head;
    let mut new_head: usize = NIL;
    let ghost mut rest: Seq<usize> = order;
    let ghost mut done: Seq<usize> = Seq::empty();
    while head != NIL
        invariant
            is_chain(nodes@, head, rest),
            is_chain(nodes@, new_head, done),
            forall|i: int, j: int|
                0 <= i < rest.len() && 0 <= j < done.len() ==> #[trigger] rest[i]
                    != #[trigger] done[j],
            rest.len() + done.len() == order.len(),
            rest == order.skip(done.len() as int),
            done == order.take(done.len() as int).reverse(),
            nodes@.len() == old(nodes)@.len(),
            forall|n: usize|
                n < old(nodes)@.len() && !order.contains(n) ==> #[trigger] nodes@[n as int] == old(nodes)@[n as int],
        decreases rest.len(),
    {
        let ghost before = nodes@;
        let ghost k = done.len() as int;
        let tmp: usize = head;
        proof {
            lemma_chain_rest(nodes@, head, rest);
            assert(rest[0] == head);
            assert(order[k] == head);
            assert(order.contains(head));
            assert(!done.contains(head)) by {
                if done.contains(head) {
                    let j = done.index_of(head);
                    assert(rest[0] != done[j]);
                }
            }
        }
        head = nodes[tmp].next;
        nodes.set(tmp, llist_node { next: new_head });
        proof {
            let rest2 = rest.drop_first();
            let done2 = seq![tmp] + done;
            assert forall|i: int| 0 <= i < rest2.len() implies #[trigger] nodes@[rest2[i] as int]
                == before[rest2[i] as int] by {
                assert(rest2.contains(rest2[i]));
                assert(linked(before, rest2, i));
            }
            lemma_chain_frame(before, nodes@, head, rest2);
            lemma_chain_push(before, nodes@, new_head, done, tmp);
            assert(rest2 =~= order.skip(k + 1));
            assert(done2 =~= order.take(k + 1).reverse());
            assert forall|i: int, j: int|
                0 <= i < rest2.len() && 0 <= j < done2.len() implies #[trigger] rest2[i]
                != #[trigger] done2[j] by {
                assert(rest2[i] == rest[i + 1]);
                if j == 0 {
                    assert(rest.drop_first().contains(rest2[i]));
                } else {
                    assert(done2[j] == done[j - 1]);
                }
            }
            rest = rest2;
            done = done2;
        }
        new_head = tmp;
    }
    proof {
        if rest.len() > 0 {
            assert(linked(nodes@, rest, 0));
        }
        assert(order.take(order.len() as int) =~= order);
        assert(done =~= order.reverse());
    }
    new_head
}

/// An object that has an entry for lists.
pub trait HasLlistNode {
    /// The number of its entry.
    spec fn entry(&self) -> usize;

    /// Gives the number of its entry.
    fn llist_entry(&self) -> (n: usize)
        ensures
            n == self.entry(),
    ;
}

/// An owner of an object, which a list can hold.
pub trait ListItem: Sized {
    /// The object.
    type Target: HasLlistNode;

    /// The number of the entry of the object.
    spec fn raw(self) -> usize;

    /// Gives up the object.
    fn into_raw(self) -> (n: usize)
        ensures
            n == self.raw(),
    ;

    /// Takes back the object with the entry `n`.
    fn from_raw(n: usize) -> (item: Self)
        ensures
            item.raw() == n,
    ;
}

/// A list of items.
pub struct LList<P: ListItem> {
    list: SharedList,
    era: Ghost<int>,
    _items: core::marker::PhantomData<P>,
}

impl<P: ListItem> View for LList<P> {
    type V = Seq<usize>;

    /// The entries of the items, from the newest to the oldest.
    closed spec fn view(&self) -> Seq<usize> {
        self.list@.order
    }
}

impl<P: ListItem> LList<P> {
    /// The invariant of a list.
    pub closed spec fn wf(self) -> bool {
        &&& self.list.wf()
        &&& self.list.next == self.list.others@.len()
    }

    /// Which list this is, and how often it has been split. Nothing is said of it for a new list, so
    /// that nobody can take the parts of one list for those of another.
    pub closed spec fn era(self) -> int {
        self.era@
    }

    /// What a well-formed list promises: no entry is on it twice.
    pub proof fn lemma_wf(self)
        requires
            self.wf(),
        ensures
            self@.no_duplicates(),
    {
    }

    /// An empty list.
    pub fn new() -> (l: Self)
        ensures
            l.wf(),
            l@ == Seq::<usize>::empty(),
    {
        LList {
            list: SharedList::new(0, Vec::new()),
            era: Ghost(0),
            _items: core::marker::PhantomData,
        }
    }

    /// Adds an item, and says whether the list was empty.
    pub fn add(&mut self, item: P) -> (was_empty: bool)
        requires
            old(self).wf(),
            item.raw() < NIL - 1,
            !old(self)@.contains(item.raw()),
        ensures
            final(self).wf(),
            final(self)@ == seq![item.raw()] + old(self)@,
            final(self).era() == old(self).era(),
            was_empty == (old(self)@.len() == 0),
    {
        let n: usize = item.into_raw();
        while self.list.nodes.len() <= n
            invariant
                self.wf(),
                n < NIL - 1,
                self@ == old(self)@,
                self.era() == old(self).era(),
            decreases n + 1 - self.list.nodes@.len(),
        {
            let ghost nodes = self.list.nodes@;
            self.list.nodes.push(llist_node::new());
            proof {
                assert forall|i: int| 0 <= i < self.list@.order.len() implies
                    #[trigger] self.list.nodes@[self.list@.order[i] as int]
                    == nodes[self.list@.order[i] as int] by {
                    assert(linked(nodes, self.list@.order, i));
                }
                lemma_chain_frame(nodes, self.list.nodes@, self.list.head.first, self.list@.order);
            }
        }
        llist_add(&mut self.list, n)
    }

    /// Takes all items.
    pub fn del_all(&mut self) -> (items: Drain<P>)
        requires
            old(self).wf(),
        ensures
            final(self).wf(),
            final(self)@ == Seq::<usize>::empty(),
            final(self).era() == old(self).era(),
            items.wf(),
            items@ == old(self)@,
    {
        let ghost order = self.list@.order;
        let next: usize = llist_del_all(&mut self.list);
        let mut nodes: Vec<llist_node> = Vec::new();
        std::mem::swap(&mut nodes, &mut self.list.nodes);
        Drain { nodes, next, order: Ghost(order), _items: core::marker::PhantomData }
    }

    /// Empties the list, and gives its items from the newest to the oldest, for the caller to drop.
    pub fn clear(&mut self) -> (items: Vec<P>)
        requires
            old(self).wf(),
        ensures
            final(self).wf(),
            final(self)@ == Seq::<usize>::empty(),
            final(self).era() == old(self).era(),
            items@.len() == old(self)@.len(),
            forall|i: int| 0 <= i < items@.len() ==> (#[trigger] items@[i]).raw() == old(self)@[i],
    {
        self.del_all().clear()
    }

    /// Whether the list is empty.
    pub fn is_empty(&self) -> (empty: bool)
        requires
            self.wf(),
        ensures
            empty == (self@.len() == 0),
    {
        proof {
            if self.list@.order.len() > 0 {
                assert(linked(self.list.nodes@, self.list@.order, 0));
            }
        }
        self.list.head.first == NIL
    }

    /// Splits the list into those who add items and the one who takes them. Both belong to this list,
    /// and they belong to it until it is split again: the parts of an earlier split are then of no use.
    pub fn split(&mut self) -> (parts: (Producer<P>, Consumer<P>))
        requires
            old(self).wf(),
        ensures
            final(self).wf(),
            final(self)@ == old(self)@,
            final(self).era() == old(self).era() + 1,
            parts.0.is_of(*final(self)),
            parts.1.is_of(*final(self)),
    {
        self.era = Ghost(self.era@ + 1);
        let era: Ghost<int> = self.era;
        (
            Producer { era, _items: core::marker::PhantomData },
            Consumer { era, _items: core::marker::PhantomData },
        )
    }
}

/// Adds items to a list that has a consumer.
pub struct Producer<P: ListItem> {
    era: Ghost<int>,
    _items: core::marker::PhantomData<P>,
}

impl<P: ListItem> Producer<P> {
    /// The era of the list in which the producer came out of it.
    pub closed spec fn era(self) -> int {
        self.era@
    }

    /// Whether the producer came out of the last split of `list`.
    pub open spec fn is_of(self, list: LList<P>) -> bool {
        self.era() == list.era()
    }

    /// Adds an item, and says whether the list was empty.
    pub fn add(&self, list: &mut LList<P>, item: P) -> (was_empty: bool)
        requires
            self.is_of(*old(list)),
            old(list).wf(),
            item.raw() < NIL - 1,
            !old(list)@.contains(item.raw()),
        ensures
            self.is_of(*final(list)),
            final(list).wf(),
            final(list)@ == seq![item.raw()] + old(list)@,
            final(list).era() == old(list).era(),
            was_empty == (old(list)@.len() == 0),
    {
        list.add(item)
    }
}

/// The only one who takes items from a list.
pub struct Consumer<P: ListItem> {
    era: Ghost<int>,
    _items: core::marker::PhantomData<P>,
}

impl<P: ListItem> Consumer<P> {
    /// The era of the list in which the consumer came out of it.
    pub closed spec fn era(self) -> int {
        self.era@
    }

    /// Whether the consumer came out of the last split of `list`.
    pub open spec fn is_of(self, list: LList<P>) -> bool {
        self.era() == list.era()
    }

    /// Takes the newest item.
    pub fn del_first(&mut self, list: &mut LList<P>) -> (item: Option<P>)
        requires
            old(self).is_of(*old(list)),
            old(list).wf(),
        ensures
            *final(self) == *old(self),
            final(list).era() == old(list).era(),
            final(list).wf(),
            old(list)@.len() == 0 ==> item is None && final(list)@ == old(list)@,
            old(list)@.len() > 0 ==> {
                &&& item matches Some(item) && item.raw() == old(list)@[0]
                &&& final(list)@ == old(list)@.drop_first()
            },
    {
        let n: usize = llist_del_first(&mut list.list);
        if n == NIL {
            proof {
                let s = old(list).list@;
                assert(s.others.len() == 0);
                assert(settled(s) == s.turned());
                if s.order.len() > 0 {
                    assert(linked(old(list).list.nodes@, s.order, 0));
                }
                assert(list.list@.others.len() == list.list.others@.len() - list.list.next);
            }
            return None;
        }
        assert(list.list@.others.len() == list.list.others@.len() - list.list.next);
        Some(P::from_raw(n))
    }

    /// Takes all items.
    pub fn del_all(&mut self, list: &mut LList<P>) -> (items: Drain<P>)
        requires
            old(self).is_of(*old(list)),
            old(list).wf(),
        ensures
            *final(self) == *old(self),
            final(list).era() == old(list).era(),
            final(list).wf(),
            final(list)@ == Seq::<usize>::empty(),
            items.wf(),
            items@ == old(list)@,
    {
        list.del_all()
    }
}

/// Items that have been taken from a list, as a chain.
pub struct Drain<P: ListItem> {
    nodes: Vec<llist_node>,
    next: usize,
    order: Ghost<Seq<usize>>,
    _items: core::marker::PhantomData<P>,
}

impl<P: ListItem> View for Drain<P> {
    type V = Seq<usize>;

    /// The entries of the items, in the order in which they come out.
    closed spec fn view(&self) -> Seq<usize> {
        self.order@
    }
}

impl<P: ListItem> Drain<P> {
    /// The invariant of the items.
    pub closed spec fn wf(self) -> bool {
        is_chain(self.nodes@, self.next, self.order@)
    }

    /// The same items, from the oldest to the newest.
    pub fn reversed(self) -> (items: Self)
        requires
            self.wf(),
        ensures
            items.wf(),
            items@ == self@.reverse(),
    {
        let mut nodes: Vec<llist_node> = self.nodes;
        let next: usize = reverse_chain(&mut nodes, self.next, Ghost(self.order@));
        Drain {
            nodes,
            next,
            order: Ghost(self.order@.reverse()),
            _items: core::marker::PhantomData,
        }
    }

    /// Gives the next item.
    pub fn next(&mut self) -> (item: Option<P>)
        requires
            old(self).wf(),
        ensures
            final(self).wf(),
            old(self)@.len() == 0 ==> item is None && final(self)@ == old(self)@,
            old(self)@.len() > 0 ==> {
                &&& item matches Some(item) && item.raw() == old(self)@[0]
                &&& final(self)@ == old(self)@.drop_first()
            },
    {
        let n: usize = self.next;
        if n == NIL {
            proof {
                if self@.len() > 0 {
                    assert(linked(self.nodes@, self@, 0));
                }
            }
            return None;
        }
        proof {
            lemma_chain_rest(self.nodes@, n, self@);
            self.order@ = self.order@.drop_first();
        }
        self.next = self.nodes[n].next;
        Some(P::from_raw(n))
    }

    /// Gives all items that are left, for the caller to drop.
    pub fn clear(self) -> (items: Vec<P>)
        requires
            self.wf(),
        ensures
            items@.len() == self@.len(),
            forall|i: int| 0 <= i < items@.len() ==> (#[trigger] items@[i]).raw() == self@[i],
    {
        let ghost order = self@;
        let mut rest: Self = self;
        let mut items: Vec<P> = Vec::new();
        loop
            invariant_except_break
                items@.len() + rest@.len() == order.len(),
                rest@ == order.skip(items@.len() as int),
            invariant
                rest.wf(),
                items@.len() <= order.len(),
                forall|i: int| 0 <= i < items@.len() ==> (#[trigger] items@[i]).raw() == order[i],
            ensures
                items@.len() == order.len(),
            decreases order.len() - items@.len(),
        {
            match rest.next() {
                Some(item) => {
                    items.push(item);
                },
                None => {
                    break;
                },
            }
        }
        items
    }
}

/// Items come out of a list in the opposite order of that in which they were added, and in the same
/// order if they are reversed.
pub proof fn law_newest_comes_first(list: Seq<usize>, a: usize, b: usize)
    ensures
        ({
            let added = seq![b] + (seq![a] + list);
            &&& added[0] == b
            &&& added[1] == a
            &&& added.reverse() == list.reverse().push(a).push(b)
        }),
{
    let added = seq![b] + (seq![a] + list);
    assert(added.reverse() =~= list.reverse().push(a).push(b));
}

/// An entry that is added gets on the list whatever the other processors add in the meantime, as the
/// newest, and nothing that was there is lost.
pub proof fn law_adding_loses_nothing(s: ListState)
    requires
        s.only_adds(),
    ensures
        settled(s).order.len() >= s.order.len(),
        settled(s).order.skip(settled(s).order.len() - s.order.len()) == s.order,
    decreases s.others.len(),
{
    if s.others.len() == 0 || s.now() == s.order {
        assert(s.order.skip(0) =~= s.order);
    } else {
        assert(s.others.len() > 0 ==> !(s.others[0] is DelAll));
        lemma_adds_later(s);
        law_adding_loses_nothing(s.turned());
        let f = settled(s.turned()).order;
        let t = s.turned().order;
        assert(t.len() == s.order.len() + 1);
        assert(f.skip(f.len() - s.order.len()) =~= f.skip(f.len() - t.len()).skip(1));
        assert(t.skip(1) =~= s.order);
    }
}

/// Where `k` steps along the links lead from `first` on.
pub open spec fn walk(nodes: Seq<llist_node>, first: usize, k: nat) -> usize
    decreases k,
{
    if k == 0 || first >= nodes.len() {
        first
    } else {
        walk(nodes, nodes[first as int].next, (k - 1) as nat)
    }
}

/// The links of a chain lead through its entries in turn, and end behind the last.
pub proof fn law_chain_is_walked(nodes: Seq<llist_node>, first: usize, order: Seq<usize>, k: nat)
    requires
        is_chain(nodes, first, order),
        k <= order.len(),
    ensures
        k < order.len() ==> walk(nodes, first, k) == order[k as int],
        k == order.len() ==> walk(nodes, first, k) == NIL,
    decreases order.len(),
{
    if order.len() > 0 && k > 0 {
        assert(linked(nodes, order, 0));
        lemma_chain_rest(nodes, first, order);
        let rest = order.drop_first();
        law_chain_is_walked(nodes, nodes[order[0] as int].next, rest, (k - 1) as nat);
    }
}

/// A turn of the other processors: they add an entry as the newest, or take all, or do nothing.
pub proof fn law_turn(s: ListState, n: usize)
    ensures
        s.others.len() == 0 ==> s.turned() == s,
        s.others.len() > 0 ==> s.turned().others == s.others.skip(1) && s.turned().count == s.count,
        s.others.len() > 0 && s.others[0] == Other::Add(n) ==> s.turned().order == seq![n] + s.order,
        s.others.len() > 0 && s.others[0] == Other::DelAll ==> s.turned().order.len() == 0,
        s.others.len() > 0 && s.others[0] == Other::Nothing ==> s.turned().order == s.order,
{
    if s.others.len() > 0 {
        assert(s.others.skip(1) =~= s.others.drop_first());
    }
}

/// A processor that finds the list as it left it in its attempt succeeds; where another processor has
/// changed the list in its turn, the attempt is made again on what that one left.
pub proof fn law_attempts(s: ListState, this: usize)
    ensures
        s.now() == s.order ==> settled(s) == s.turned(),
        s.now() != s.order ==> settled(s) == settled(s.turned()),
        s.order.len() > 0 && s.order[0] == this && s.now() == s.order ==> first_taken(s, this) == (
            s.then_is(s.order.skip(1)),
            true,
        ),
        s.order.len() > 0 && s.order[0] == this && s.now() != s.order ==> first_taken(s, this)
            == first_taken(s.turned(), this),
        s.order.len() == 0 || s.order[0] != this ==> first_taken(s, this) == (s, false),
{
    if s.order.len() > 0 {
        assert(s.order.skip(1) =~= s.order.drop_first());
    }
}

/// An entry before which another processor has put one is not the first any more, and is not taken as
/// such.
pub proof fn law_overtaken_entry_is_not_taken(s: ListState, this: usize, n: usize)
    requires
        s.others.len() > 0,
        s.others[0] == Other::Add(n),
        n != this,
        s.order.len() > 0,
        s.order[0] == this,
    ensures
        first_taken(s, this) == (s.turned(), false),
        first_taken(s, this).0.order == seq![n] + s.order,
{
    assert(s.now().len() != s.order.len());
    let t = s.turned();
    assert(t.order[0] == n);
    assert(first_taken(t, this) == (t, false));
    assert(first_taken(s, this) == first_taken(t, this));
}

/// Where no other processor gets in between, an entry that is added is the one that is taken next, and the
/// list is then as it was.
pub proof fn law_add_then_del_first(
    add: &mut SharedList,
    n: usize,
    was_empty: bool,
    del: &mut SharedList,
    entry: usize,
)
    requires
        old(add).wf(),
        old(add)@.others.len() == 0,
        n < old(add)@.count,
        !old(add)@.order.contains(n),
        call_ensures(llist_add, (add, n), was_empty),
        *old(del) == *final(add),
        call_ensures(llist_del_first, (del,), entry),
    ensures
        was_empty == (old(add)@.order.len() == 0),
        final(add)@.order == seq![n] + old(add)@.order,
        entry == n,
        final(del)@.order == old(add)@.order,
{
    let s = old(add)@;
    let t = seq![n] + s.order;
    assert(t.drop_first() =~= s.order);
}

/// Taking the whole list gives a chain of its entries from the newest to the oldest, and leaves none.
pub proof fn law_del_all(list: &mut SharedList, first: usize, k: nat)
    requires
        old(list).wf(),
        old(list)@.others.len() == 0,
        call_ensures(llist_del_all, (list,), first),
        k < old(list)@.order.len(),
    ensures
        final(list)@.order.len() == 0,
        walk(final(list).nodes@, first, k) == old(list)@.order[k as int],
        walk(final(list).nodes@, first, old(list)@.order.len()) == NIL,
{
    law_chain_is_walked(final(list).nodes@, first, old(list)@.order, k);
    law_chain_is_walked(final(list).nodes@, first, old(list)@.order, old(list)@.order.len());
}

/// The items of a list come out from the newest to the oldest, and the other way round if they are
/// reversed.
pub proof fn law_items_come_out<P: ListItem>(
    add_a: &mut LList<P>,
    a: P,
    was_empty: bool,
    add_b: &mut LList<P>,
    b: P,
    was_empty_too: bool,
    take: &mut LList<P>,
    items: Drain<P>,
    next: &mut Drain<P>,
    item: Option<P>,
    reversed: Drain<P>,
    next_too: &mut Drain<P>,
    item_too: Option<P>,
)
    requires
        old(add_a).wf(),
        old(add_a)@.len() == 0,
        a.raw() != b.raw(),
        call_ensures(LList::<P>::add, (add_a, a), was_empty),
        *old(add_b) == *final(add_a),
        call_ensures(LList::<P>::add, (add_b, b), was_empty_too),
        *old(take) == *final(add_b),
        call_ensures(LList::<P>::del_all, (take,), items),
        *old(next) == items,
        call_ensures(Drain::<P>::next, (next,), item),
        call_ensures(Drain::<P>::reversed, (items,), reversed),
        *old(next_too) == reversed,
        call_ensures(Drain::<P>::next, (next_too,), item_too),
    ensures
        was_empty && !was_empty_too,
        final(take)@.len() == 0,
        item is Some && item->0.raw() == b.raw(),
        item_too is Some && item_too->0.raw() == a.raw(),
        final(next)@.len() == 1,
        final(next_too)@.len() == 1,
{
    assert(items@ =~= seq![b.raw(), a.raw()]);
    assert(reversed@ =~= seq![a.raw(), b.raw()]);
}

} // verus!
