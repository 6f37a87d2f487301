//! Doubly linked lists with a head of one link, as hash tables are built of.
//!
//! An entry has a link to the next one, and it knows what links to it: the head of its list, or the
//! entry before it. So an entry can be removed without its list at hand. Entries and heads are
//! numbered, and live in one table; an [`HList`] is a head of it. An entry that is on a list is refused
//! by every other.

use vstd::prelude::*;

use crate::kref::{KRef, KrefCounted, Object};

verus! {

/// The end of a list.
pub const NIL: usize = usize::MAX;

/// The link of an entry that has been removed for good.
pub const LIST_POISON1: usize = usize::MAX - 1;

/// What links to an entry.
#[derive(PartialEq, Eq, Structural, Clone, Copy, Debug)]
pub enum Pprev {
    /// Nothing: the entry is on no list.
    Unhashed,
    /// Nothing: the entry has been removed for good.
    Poison,
    /// Nothing yet: a list has claimed the entry.
    Claimed,
    /// The head of a list.
    Head(usize),
    /// The entry before it.
    Next(usize),
}

/// An entry.
#[allow(non_camel_case_types)]
#[derive(Clone, Copy)]
pub struct hlist_node {
    pub next: usize,
    pub pprev: Pprev,
}

impl hlist_node {
    /// An entry that is on no list.
    pub fn new() -> (n: Self)
        ensures
            n.next == NIL,
            n.pprev == Pprev::Unhashed,
    {
        hlist_node { next: NIL, pprev: Pprev::Unhashed }
    }

    /// Whether the entry is on no list. An entry that has been removed for good does not say so.
    pub fn is_unhashed(&self) -> (r: bool)
        ensures
            r == (self.pprev == Pprev::Unhashed),
    {
        matches!(self.pprev, Pprev::Unhashed)
    }
}

/// The head of a list.
#[allow(non_camel_case_types)]
#[derive(Clone, Copy)]
pub struct hlist_head {
    pub first: usize,
}

impl hlist_head {
    /// The head of an empty list.
    pub fn new() -> (h: Self)
        ensures
            h.first == NIL,
    {
        hlist_head { first: NIL }
    }

    /// Whether the list is empty.
    pub fn is_empty(&self) -> (r: bool)
        ensures
            r == (self.first == NIL),
    {
        self.first == NIL
    }
}

/// The link to the entry at position `i` of a list.
pub open spec fn link(order: Seq<usize>, i: int) -> usize {
    if 0 <= i < order.len() {
        order[i]
    } else {
        NIL
    }
}

/// What links to the entry at position `i` of the list `l`.
pub open spec fn back(l: int, order: Seq<usize>, i: int) -> Pprev {
    if i == 0 {
        Pprev::Head(l as usize)
    } else {
        Pprev::Next(order[i - 1])
    }
}

/// Whether the entry at position `i` of the list `l` is linked in both directions.
pub open spec fn linked(nodes: Seq<hlist_node>, l: int, order: Seq<usize>, i: int) -> bool {
    &&& order[i] < nodes.len()
    &&& nodes[order[i] as int].next == link(order, i + 1)
    &&& nodes[order[i] as int].pprev == back(l, order, i)
}

/// Whether the entries of `order` are the list `l`, which begins at `first`.
pub open spec fn is_list(nodes: Seq<hlist_node>, l: int, first: usize, order: Seq<usize>) -> bool {
    &&& order.no_duplicates()
    &&& first == link(order, 0)
    &&& forall|i: int| 0 <= i < order.len() ==> #[trigger] linked(nodes, l, order, i)
}

/// Whether an entry says that it is on a list.
pub open spec fn hashed(pprev: Pprev) -> bool {
    pprev is Head || pprev is Next
}

/// The entries and the heads of lists.
pub struct HlistTable {
    pub nodes: Vec<hlist_node>,
    pub heads: Vec<hlist_head>,
    pub orders: Ghost<Seq<Seq<usize>>>,
    pub owner: Ghost<Seq<int>>,
}

impl HlistTable {
    /// The entries of the list `l`, from the first to the last.
    pub open spec fn order(self, l: int) -> Seq<usize> {
        self.orders@[l]
    }

    /// Whether an entry is on a list.
    pub open spec fn is_on(self, n: usize) -> bool {
        self.owner@[n as int] >= 0
    }

    pub open spec fn list_ok(self, l: int) -> bool {
        is_list(self.nodes@, l, self.heads@[l].first, self.orders@[l])
    }

    pub open spec fn node_ok(self, n: int) -> bool {
        &&& -1 <= self.owner@[n] < self.heads@.len()
        &&& hashed(self.nodes@[n].pprev) == (self.owner@[n] >= 0)
        &&& !(self.nodes@[n].pprev is Claimed)
    }

    /// Whether an entry is on the list that owns it and on no other.
    pub open spec fn owner_ok(self, l: int, n: usize) -> bool {
        self.orders@[l].contains(n) <==> n < self.nodes@.len() && self.owner@[n as int] == l
    }

    /// The invariant of a table: every list is linked, and every entry is on one list, or on none and
    /// says so.
    pub open spec fn wf(self) -> bool {
        &&& self.nodes@.len() < LIST_POISON1
        &&& self.heads@.len() <= usize::MAX
        &&& self.orders@.len() == self.heads@.len()
        &&& self.owner@.len() == self.nodes@.len()
        &&& forall|l: int| 0 <= l < self.heads@.len() ==> #[trigger] self.list_ok(l)
        &&& forall|n: int| 0 <= n < self.nodes@.len() ==> #[trigger] self.node_ok(n)
        &&& forall|l: int, n: usize| 0 <= l < self.heads@.len() ==> #[trigger] self.owner_ok(l, n)
    }

    /// Whether every entry but `n` that is on no list of this table is in `t` as it is here.
    pub open spec fn keeps_loose(self, t: HlistTable, n: int) -> bool {
        forall|k: int|
            0 <= k < self.nodes@.len() && k != n && self.owner@[k] < 0 ==> #[trigger] t.nodes@[k]
                == self.nodes@[k]
    }

    /// A table of `count` entries and no list.
    pub fn new(count: usize) -> (t: Self)
        requires
            count < LIST_POISON1,
        ensures
            t.wf(),
            t.nodes@.len() == count,
            t.heads@.len() == 0,
            t.owner@.len() == count,
            forall|n: int| 0 <= n < count ==> #[trigger] t.owner@[n] == -1,
            forall|n: int|
                0 <= n < count ==> #[trigger] t.nodes@[n] == (hlist_node {
                    next: NIL,
                    pprev: Pprev::Unhashed,
                }),
    {
        let mut nodes: Vec<hlist_node> = Vec::new();
        let mut i: usize = 0;
        while i < count
            invariant
                i <= count,
                nodes@.len() == i,
                forall|n: int|
                    0 <= n < i ==> #[trigger] nodes@[n] == (hlist_node {
                        next: NIL,
                        pprev: Pprev::Unhashed,
                    }),
            decreases count - i,
        {
            nodes.push(hlist_node::new());
            i = i + 1;
        }
        let heads: Vec<hlist_head> = Vec::new();
        let _empty: usize = heads.len();
        HlistTable {
            nodes,
            heads,
            orders: Ghost(Seq::empty()),
            owner: Ghost(Seq::new(count as nat, |n: int| -1int)),
        }
    }

    /// What the table says of an entry of a list.
    pub proof fn lemma_entry(self, l: int, i: int)
        requires
            self.wf(),
            0 <= l < self.heads@.len(),
            0 <= i < self.orders@[l].len(),
        ensures
            linked(self.nodes@, l, self.orders@[l], i),
            self.owner@[self.orders@[l][i] as int] == l,
            self.orders@[l].contains(self.orders@[l][i]),
    {
        assert(self.list_ok(l));
        assert(linked(self.nodes@, l, self.orders@[l], i));
        assert(self.orders@[l].contains(self.orders@[l][i]));
        assert(self.owner_ok(l, self.orders@[l][i]));
    }

    /// A list whose entries and head do not change stays.
    pub proof fn lemma_other(self, t: HlistTable, l: int, k: int)
        requires
            self.wf(),
            0 <= l < self.heads@.len(),
            0 <= k < self.heads@.len(),
            k != l,
            t.nodes@.len() == self.nodes@.len(),
            t.heads@.len() == self.heads@.len(),
            t.orders@[k] == self.orders@[k],
            t.heads@[k] == self.heads@[k],
            forall|n: int|
                0 <= n < self.nodes@.len() && self.owner@[n] == k ==> #[trigger] t.nodes@[n]
                    == self.nodes@[n],
        ensures
            t.list_ok(k),
    {
        assert(self.list_ok(k));
        let order = self.orders@[k];
        assert forall|i: int| 0 <= i < order.len() implies #[trigger] linked(t.nodes@, k, order, i) by {
            self.lemma_entry(k, i);
            assert(t.nodes@[order[i] as int] == self.nodes@[order[i] as int]);
        }
    }

    /// What links to the entry at position `i`, or would link to it, gets a new link.
    fn set_link(&mut self, pprev: Pprev, n: usize)
        requires
            pprev matches Pprev::Head(h) ==> h < old(self).heads@.len(),
            pprev matches Pprev::Next(p) ==> p < old(self).nodes@.len(),
        ensures
            final(self).orders == old(self).orders,
            final(self).owner == old(self).owner,
            pprev matches Pprev::Head(h) ==> final(self).nodes@ == old(self).nodes@
                && final(self).heads@ == old(self).heads@.update(
                h as int,
                hlist_head { first: n },
            ),
            pprev matches Pprev::Next(p) ==> final(self).heads@ == old(self).heads@
                && final(self).nodes@ == old(self).nodes@.update(
                p as int,
                hlist_node { next: n, ..old(self).nodes@[p as int] },
            ),
            !hashed(pprev) ==> final(self).heads@ == old(self).heads@ && final(self).nodes@ == old(self).nodes@,
    {
        match pprev {
            Pprev::Head(h) => {
                self.heads.set(h, hlist_head { first: n });
            },
            Pprev::Next(p) => {
                let mut node: hlist_node = self.nodes[p];
                node.next = n;
                self.nodes.set(p, node);
            },
            _ => {},
        }
    }

    /// Stores what links to an entry.
    fn set_pprev(&mut self, n: usize, pprev: Pprev)
        requires
            n < old(self).nodes@.len(),
        ensures
            final(self).orders == old(self).orders,
            final(self).owner == old(self).owner,
            final(self).heads@ == old(self).heads@,
            final(self).nodes@ == old(self).nodes@.update(
                n as int,
                hlist_node { pprev, ..old(self).nodes@[n as int] },
            ),
    {
        let mut node: hlist_node = self.nodes[n];
        node.pprev = pprev;
        self.nodes.set(n, node);
    }

    /// Unlinks an entry, and leaves its own fields as they were.
    fn hlist_del_raw(&mut self, n: usize, Ghost(l): Ghost<int>, Ghost(i): Ghost<int>)
        requires
            old(self).wf(),
            0 <= l < old(self).heads@.len(),
            0 <= i < old(self).order(l).len(),
            n == old(self).order(l)[i],
        ensures
            final(self).orders@ == old(self).orders@.update(l, old(self).order(l).remove(i)),
            final(self).owner@ == old(self).owner@.update(n as int, -1),
            final(self).nodes@.len() == old(self).nodes@.len(),
            final(self).heads@.len() == old(self).heads@.len(),
            final(self).nodes@[n as int] == old(self).nodes@[n as int],
            forall|k: int| 0 <= k < final(self).heads@.len() ==> #[trigger] final(self).list_ok(k),
            forall|k: int|
                0 <= k < final(self).nodes@.len() && k != n ==> #[trigger] final(self).node_ok(k),
            forall|k: int, m: usize|
                0 <= k < final(self).heads@.len() ==> #[trigger] final(self).owner_ok(k, m),
            forall|k: int|
                0 <= k < final(self).nodes@.len() && old(self).owner@[k] != l
                    ==> #[trigger] final(self).nodes@[k] == old(self).nodes@[k],
    {
        let ghost t = *self;
        let ghost order = t.orders@[l];
        proof {
            self.lemma_entry(l, i);
            if i > 0 {
                self.lemma_entry(l, i - 1);
            }
            if i + 1 < order.len() {
                self.lemma_entry(l, i + 1);
            }
            assert(self.list_ok(l));
        }
        let next: usize = self.nodes[n].next;
        let pprev: Pprev = self.nodes[n].pprev;
        self.set_link(pprev, next);
        if next != NIL {
            self.set_pprev(next, pprev);
        }
        proof {
            let order2 = order.remove(i);
            self.orders@ = self.orders@.update(l, order2);
            self.owner@ = self.owner@.update(n as int, -1);
            assert forall|k: int| 0 <= k < self.heads@.len() implies #[trigger] self.list_ok(k) by {
                if k == l {
                    assert forall|j: int|
                        0 <= j < order.len() && j != i - 1 && j != i && j != i + 1 implies
                        #[trigger] self.nodes@[order[j] as int] == t.nodes@[order[j] as int] by {
                        t.lemma_entry(l, j);
                    }
                    lemma_removed(t.nodes@, self.nodes@, l, order, i);
                } else {
                    assert forall|m: int|
                        0 <= m < t.nodes@.len() && t.owner@[m] == k implies #[trigger] self.nodes@[m]
                        == t.nodes@[m] by {}
                    t.lemma_other(*self, l, k);
                }
            }
            assert forall|k: int| 0 <= k < self.nodes@.len() && k != n implies
                #[trigger] self.node_ok(k) by {
                assert(t.node_ok(k));
            }
            assert forall|k: int, m: usize| 0 <= k < self.heads@.len() implies
                #[trigger] self.owner_ok(k, m) by {
                assert(t.owner_ok(k, m));
                if k == l {
                    lemma_remove_contains(order, i, m);
                }
            }
        }
    }
}

/// What is left of a sequence without one of its elements.
proof fn lemma_remove_contains(order: Seq<usize>, i: int, m: usize)
    requires
        order.no_duplicates(),
        0 <= i < order.len(),
    ensures
        order.remove(i).contains(m) <==> order.contains(m) && m != order[i],
{
    let r = order.remove(i);
    if r.contains(m) {
        let k = r.index_of(m);
        if k < i {
            assert(order[k] == m);
        } else {
            assert(order[k + 1] == m);
        }
    }
    if order.contains(m) && m != order[i] {
        let k = order.index_of(m);
        if k < i {
            assert(r[k] == m);
        } else {
            assert(r[k - 1] == m);
        }
    }
}

/// A list without one of its entries, whose neighbours have been linked to each other.
proof fn lemma_removed(
    nodes: Seq<hlist_node>,
    nodes2: Seq<hlist_node>,
    l: int,
    order: Seq<usize>,
    i: int,
)
    requires
        is_list(nodes, l, link(order, 0), order),
        nodes2.len() == nodes.len(),
        0 <= i < order.len(),
        i > 0 ==> nodes2[order[i - 1] as int] == (hlist_node {
            next: link(order, i + 1),
            ..nodes[order[i - 1] as int]
        }),
        i + 1 < order.len() ==> nodes2[order[i + 1] as int] == (hlist_node {
            pprev: back(l, order, i),
            ..nodes[order[i + 1] as int]
        }),
        forall|k: int|
            0 <= k < order.len() && k != i - 1 && k != i && k != i + 1
                ==> #[trigger] nodes2[order[k] as int] == nodes[order[k] as int],
    ensures
        is_list(nodes2, l, link(order.remove(i), 0), order.remove(i)),
{
    let r = order.remove(i);
    assert forall|k: int| 0 <= k < r.len() implies #[trigger] linked(nodes2, l, r, k) by {
        if k < i {
            assert(linked(nodes, l, order, k));
            assert(r[k] == order[k]);
            if k < i - 1 {
                assert(nodes2[order[k] as int] == nodes[order[k] as int]);
            }
        } else {
            assert(linked(nodes, l, order, k + 1));
            assert(r[k] == order[k + 1]);
            if k > i {
                assert(nodes2[order[k + 1] as int] == nodes[order[k + 1] as int]);
            }
        }
    }
    assert forall|a: int, b: int| 0 <= a < b < r.len() implies r[a] != r[b] by {
        let a2 = if a < i {
            a
        } else {
            a + 1
        };
        let b2 = if b < i {
            b
        } else {
            b + 1
        };
        assert(r[a] == order[a2] && r[b] == order[b2]);
    }
}

/// A list with one more entry, which has been linked to its neighbours.
proof fn lemma_inserted(
    nodes: Seq<hlist_node>,
    nodes2: Seq<hlist_node>,
    l: int,
    order: Seq<usize>,
    i: int,
    n: usize,
)
    requires
        is_list(nodes, l, link(order, 0), order),
        nodes2.len() == nodes.len(),
        0 <= i <= order.len(),
        n < nodes.len(),
        !order.contains(n),
        nodes2[n as int] == (hlist_node { next: link(order, i), pprev: back(l, order, i) }),
        i > 0 ==> nodes2[order[i - 1] as int] == (hlist_node {
            next: n,
            ..nodes[order[i - 1] as int]
        }),
        i < order.len() ==> nodes2[order[i] as int] == (hlist_node {
            pprev: Pprev::Next(n),
            ..nodes[order[i] as int]
        }),
        forall|k: int|
            0 <= k < order.len() && k != i - 1 && k != i ==> #[trigger] nodes2[order[k] as int]
                == nodes[order[k] as int],
    ensures
        is_list(nodes2, l, link(order.insert(i, n), 0), order.insert(i, n)),
        forall|m: usize| order.insert(i, n).contains(m) <==> order.contains(m) || m == n,
{
    let r = order.insert(i, n);
    assert forall|k: int| 0 <= k < r.len() implies #[trigger] linked(nodes2, l, r, k) by {
        if k < i {
            assert(linked(nodes, l, order, k));
            assert(r[k] == order[k]);
            if k < i - 1 {
                assert(nodes2[order[k] as int] == nodes[order[k] as int]);
            }
        } else if k > i {
            assert(linked(nodes, l, order, k - 1));
            assert(r[k] == order[k - 1]);
            if k - 1 > i {
                assert(nodes2[order[k - 1] as int] == nodes[order[k - 1] as int]);
            }
        } else {
            assert(r[k] == n);
        }
    }
    assert forall|m: usize| r.contains(m) <==> order.contains(m) || m == n by {
        if r.contains(m) {
            let k = r.index_of(m);
            if k < i {
                assert(order[k] == m);
            } else if k > i {
                assert(order[k - 1] == m);
            }
        }
        if order.contains(m) {
            let k = order.index_of(m);
            if k < i {
                assert(r[k] == m);
            } else {
                assert(r[k + 1] == m);
            }
        }
        assert(r[i] == n);
    }
    assert forall|a: int, b: int| 0 <= a < b < r.len() implies r[a] != r[b] by {
        if a == i {
            assert(r[b] == order[b - 1]);
            assert(order.contains(order[b - 1]));
        } else if b == i {
            assert(r[a] == order[a]);
            assert(order.contains(order[a]));
        } else {
            let a2 = if a < i {
                a
            } else {
                a - 1
            };
            let b2 = if b < i {
                b
            } else {
                b - 1
            };
            assert(r[a] == order[a2] && r[b] == order[b2]);
        }
    }
}

/// Claims an entry for a list: an entry that is on no list gets marked, so that nothing else claims
/// it. `other` is what another processor stores in the meantime, with a list of its own.
pub fn claim_link(pprev: &mut Pprev, other: Option<Pprev>) -> (claimed: bool)
    ensures
        ({
            let free = *old(pprev) == Pprev::Unhashed || *old(pprev) == Pprev::Poison;
            let now = if free && other is Some {
                other->0
            } else {
                *old(pprev)
            };
            &&& claimed == (free && now == *old(pprev))
            &&& *final(pprev) == if claimed {
                Pprev::Claimed
            } else {
                now
            }
        }),
{
    let current: Pprev = *pprev;
    if current != Pprev::Unhashed && current != Pprev::Poison {
        return false;
    }
    if let Some(o) = other {
        *pprev = o;
    }
    if *pprev == current {
        *pprev = Pprev::Claimed;
        true
    } else {
        false
    }
}

impl HlistTable {
    /// The invariant of a table, but for an entry that has been claimed.
    pub open spec fn wf_but(self, c: usize) -> bool {
        &&& self.nodes@.len() < LIST_POISON1
        &&& self.heads@.len() <= usize::MAX
        &&& self.orders@.len() == self.heads@.len()
        &&& self.owner@.len() == self.nodes@.len()
        &&& c < self.nodes@.len()
        &&& self.owner@[c as int] == -1
        &&& forall|l: int| 0 <= l < self.heads@.len() ==> #[trigger] self.list_ok(l)
        &&& forall|n: int| 0 <= n < self.nodes@.len() && n != c ==> #[trigger] self.node_ok(n)
        &&& forall|l: int, n: usize| 0 <= l < self.heads@.len() ==> #[trigger] self.owner_ok(l, n)
    }

    proof fn lemma_entry_but(self, c: usize, l: int, i: int)
        requires
            self.wf_but(c),
            0 <= l < self.heads@.len(),
            0 <= i < self.orders@[l].len(),
        ensures
            linked(self.nodes@, l, self.orders@[l], i),
            self.owner@[self.orders@[l][i] as int] == l,
            self.orders@[l][i] != c,
    {
        assert(self.list_ok(l));
        assert(linked(self.nodes@, l, self.orders@[l], i));
        assert(self.orders@[l].contains(self.orders@[l][i]));
        assert(self.owner_ok(l, self.orders@[l][i]));
    }

    /// A table with one more entry in a list.
    proof fn lemma_insert(self, t: HlistTable, l: int, i: int, n: usize)
        requires
            self.wf_but(n),
            0 <= l < self.heads@.len(),
            0 <= i <= self.orders@[l].len(),
            t.nodes@.len() == self.nodes@.len(),
            t.heads@ == if i == 0 {
                self.heads@.update(l, hlist_head { first: n })
            } else {
                self.heads@
            },
            t.orders@ == self.orders@.update(l, self.orders@[l].insert(i, n)),
            t.owner@ == self.owner@.update(n as int, l),
            t.nodes@[n as int] == (hlist_node {
                next: link(self.orders@[l], i),
                pprev: back(l, self.orders@[l], i),
            }),
            i > 0 ==> t.nodes@[self.orders@[l][i - 1] as int] == (hlist_node {
                next: n,
                ..self.nodes@[self.orders@[l][i - 1] as int]
            }),
            i < self.orders@[l].len() ==> t.nodes@[self.orders@[l][i] as int] == (hlist_node {
                pprev: Pprev::Next(n),
                ..self.nodes@[self.orders@[l][i] as int]
            }),
            forall|k: int|
                0 <= k < self.nodes@.len() && k != n && !(i > 0 && k == self.orders@[l][i - 1])
                    && !(i < self.orders@[l].len() && k == self.orders@[l][i])
                    ==> #[trigger] t.nodes@[k] == self.nodes@[k],
        ensures
            t.wf(),
    {
        let order = self.orders@[l];
        assert(!order.contains(n)) by {
            assert(self.owner_ok(l, n));
        }
        if i > 0 {
            self.lemma_entry_but(n, l, i - 1);
        }
        if i < order.len() {
            self.lemma_entry_but(n, l, i);
        }
        assert(self.list_ok(l));
        assert forall|j: int| 0 <= j < order.len() && j != i - 1 && j != i implies
            #[trigger] t.nodes@[order[j] as int] == self.nodes@[order[j] as int] by {
            self.lemma_entry_but(n, l, j);
        }
        lemma_inserted(self.nodes@, t.nodes@, l, order, i, n);
        assert forall|k: int| 0 <= k < t.heads@.len() implies #[trigger] t.list_ok(k) by {
            if k != l {
                assert(self.list_ok(k));
                let o = self.orders@[k];
                assert forall|j: int| 0 <= j < o.len() implies #[trigger] linked(t.nodes@, k, o, j) by {
                    self.lemma_entry_but(n, k, j);
                    assert(t.nodes@[o[j] as int] == self.nodes@[o[j] as int]);
                }
            }
        }
        assert forall|k: int| 0 <= k < t.nodes@.len() implies #[trigger] t.node_ok(k) by {
            if k != n {
                assert(self.node_ok(k));
            }
        }
        assert forall|k: int, m: usize| 0 <= k < t.heads@.len() implies #[trigger] t.owner_ok(k, m) by {
            assert(self.owner_ok(k, m));
        }
    }

    /// Puts an entry first on a list.
    fn hlist_add_head_raw(&mut self, n: usize, h: usize)
        requires
            old(self).wf_but(n),
            h < old(self).heads@.len(),
        ensures
            final(self).wf(),
            final(self).orders@ == old(self).orders@.update(
                h as int,
                old(self).order(h as int).insert(0, n),
            ),
            final(self).owner@ == old(self).owner@.update(n as int, h as int),
            final(self).nodes@.len() == old(self).nodes@.len(),
            final(self).heads@.len() == old(self).heads@.len(),
            old(self).keeps_loose(*final(self), n as int),
    {
        let ghost t = *self;
        let ghost order = t.order(h as int);
        proof {
            assert(t.list_ok(h as int));
            if order.len() > 0 {
                t.lemma_entry_but(n, h as int, 0);
            }
        }
        let first: usize = self.heads[h].first;
        let mut node: hlist_node = self.nodes[n];
        node.next = first;
        self.nodes.set(n, node);
        if first != NIL {
            self.set_pprev(first, Pprev::Next(n));
        }
        self.heads.set(h, hlist_head { first: n });
        self.set_pprev(n, Pprev::Head(h));
        proof {
            self.orders@ = t.orders@.update(h as int, order.insert(0, n));
            self.owner@ = t.owner@.update(n as int, h as int);
            t.lemma_insert(*self, h as int, 0, n);
        }
    }

    /// Puts an entry before another.
    fn hlist_add_before_raw(&mut self, n: usize, next: usize, Ghost(l): Ghost<int>, Ghost(i): Ghost<
        int,
    >)
        requires
            old(self).wf_but(n),
            0 <= l < old(self).heads@.len(),
            0 <= i < old(self).order(l).len(),
            next == old(self).order(l)[i],
        ensures
            final(self).wf(),
            final(self).orders@ == old(self).orders@.update(l, old(self).order(l).insert(i, n)),
            final(self).owner@ == old(self).owner@.update(n as int, l),
            final(self).nodes@.len() == old(self).nodes@.len(),
            final(self).heads@.len() == old(self).heads@.len(),
            old(self).keeps_loose(*final(self), n as int),
    {
        let ghost t = *self;
        let ghost order = t.order(l);
        proof {
            assert(t.list_ok(l));
            t.lemma_entry_but(n, l, i);
            if i > 0 {
                t.lemma_entry_but(n, l, i - 1);
            }
        }
        let pprev: Pprev = self.nodes[next].pprev;
        self.nodes.set(n, hlist_node { next, pprev });
        self.set_pprev(next, Pprev::Next(n));
        self.set_link(pprev, n);
        proof {
            self.orders@ = t.orders@.update(l, order.insert(i, n));
            self.owner@ = t.owner@.update(n as int, l);
            t.lemma_insert(*self, l, i, n);
        }
    }

    /// Puts an entry behind another.
    fn hlist_add_behind_raw(&mut self, n: usize, prev: usize, Ghost(l): Ghost<int>, Ghost(i): Ghost<
        int,
    >)
        requires
            old(self).wf_but(n),
            0 <= l < old(self).heads@.len(),
            0 <= i < old(self).order(l).len(),
            prev == old(self).order(l)[i],
        ensures
            final(self).wf(),
            final(self).orders@ == old(self).orders@.update(l, old(self).order(l).insert(i + 1, n)),
            final(self).owner@ == old(self).owner@.update(n as int, l),
            final(self).nodes@.len() == old(self).nodes@.len(),
            final(self).heads@.len() == old(self).heads@.len(),
            old(self).keeps_loose(*final(self), n as int),
    {
        let ghost t = *self;
        let ghost order = t.order(l);
        proof {
            assert(t.list_ok(l));
            t.lemma_entry_but(n, l, i);
            if i + 1 < order.len() {
                t.lemma_entry_but(n, l, i + 1);
            }
        }
        let after: usize = self.nodes[prev].next;
        self.nodes.set(n, hlist_node { next: after, pprev: Pprev::Next(prev) });
        self.set_link(Pprev::Next(prev), n);
        if after != NIL {
            self.set_pprev(after, Pprev::Next(n));
        }
        proof {
            self.orders@ = t.orders@.update(l, order.insert(i + 1, n));
            self.owner@ = t.owner@.update(n as int, l);
            t.lemma_insert(*self, l, i + 1, n);
        }
    }

    /// Removes an entry, and leaves it as one that is on no list.
    fn hlist_del_init_raw(&mut self, n: usize, Ghost(l): Ghost<int>, Ghost(i): Ghost<int>)
        requires
            old(self).wf(),
            0 <= l < old(self).heads@.len(),
            0 <= i < old(self).order(l).len(),
            n == old(self).order(l)[i],
        ensures
            final(self).wf(),
            final(self).orders@ == old(self).orders@.update(l, old(self).order(l).remove(i)),
            final(self).owner@ == old(self).owner@.update(n as int, -1),
            final(self).nodes@.len() == old(self).nodes@.len(),
            final(self).heads@.len() == old(self).heads@.len(),
            old(self).keeps_loose(*final(self), n as int),
            final(self).nodes@[n as int] == (hlist_node { next: NIL, pprev: Pprev::Unhashed }),
    {
        proof {
            self.lemma_entry(l, i);
        }
        if !self.nodes[n].is_unhashed() {
            self.hlist_del_raw(n, Ghost(l), Ghost(i));
            let ghost t = *self;
            self.nodes.set(n, hlist_node::new());
            proof {
                t.lemma_loose(*self, n);
            }
        }
    }

    /// Removes an entry, and leaves it as one that has been removed for good.
    fn hlist_del_poison_raw(&mut self, n: usize, Ghost(l): Ghost<int>, Ghost(i): Ghost<int>)
        requires
            old(self).wf(),
            0 <= l < old(self).heads@.len(),
            0 <= i < old(self).order(l).len(),
            n == old(self).order(l)[i],
        ensures
            final(self).wf(),
            final(self).orders@ == old(self).orders@.update(l, old(self).order(l).remove(i)),
            final(self).owner@ == old(self).owner@.update(n as int, -1),
            final(self).nodes@.len() == old(self).nodes@.len(),
            final(self).heads@.len() == old(self).heads@.len(),
            old(self).keeps_loose(*final(self), n as int),
            final(self).nodes@[n as int] == (hlist_node {
                next: LIST_POISON1,
                pprev: Pprev::Poison,
            }),
    {
        proof {
            self.lemma_entry(l, i);
        }
        self.hlist_del_raw(n, Ghost(l), Ghost(i));
        let ghost t = *self;
        self.nodes.set(n, hlist_node { next: LIST_POISON1, pprev: Pprev::Poison });
        proof {
            t.lemma_loose(*self, n);
        }
    }

    /// An entry that is on no list can hold anything that says so.
    proof fn lemma_loose(self, t: HlistTable, n: usize)
        requires
            self.nodes@.len() < LIST_POISON1,
            self.heads@.len() <= usize::MAX,
            self.orders@.len() == self.heads@.len(),
            self.owner@.len() == self.nodes@.len(),
            n < self.nodes@.len(),
            self.owner@[n as int] == -1,
            forall|l: int| 0 <= l < self.heads@.len() ==> #[trigger] self.list_ok(l),
            forall|k: int| 0 <= k < self.nodes@.len() && k != n ==> #[trigger] self.node_ok(k),
            forall|l: int, m: usize| 0 <= l < self.heads@.len() ==> #[trigger] self.owner_ok(l, m),
            t.heads@ == self.heads@,
            t.orders == self.orders,
            t.owner == self.owner,
            t.nodes@ == self.nodes@.update(n as int, t.nodes@[n as int]),
        ensures
            t.wf_but(n),
            !hashed(t.nodes@[n as int].pprev) && !(t.nodes@[n as int].pprev is Claimed) ==> t.wf(),
    {
        assert(self.wf_but(n));
        assert forall|l: int| 0 <= l < t.heads@.len() implies #[trigger] t.list_ok(l) by {
            assert(self.list_ok(l));
            let order = self.orders@[l];
            assert forall|i: int| 0 <= i < order.len() implies #[trigger] linked(
                t.nodes@,
                l,
                order,
                i,
            ) by {
                self.lemma_entry_but(n, l, i);
            }
        }
        assert forall|k: int| 0 <= k < t.nodes@.len() && k != n implies #[trigger] t.node_ok(k) by {
            assert(self.node_ok(k));
        }
        assert forall|l: int, m: usize| 0 <= l < t.heads@.len() implies #[trigger] t.owner_ok(l, m) by {
            assert(self.owner_ok(l, m));
        }
    }

    /// Takes an entry for a list, if it is on none.
    fn claim(&mut self, n: usize) -> (claimed: bool)
        requires
            old(self).wf(),
            n < old(self).nodes@.len(),
        ensures
            claimed == !old(self).is_on(n),
            !claimed ==> *final(self) == *old(self),
            claimed ==> final(self).wf_but(n),
            final(self).orders == old(self).orders,
            final(self).owner == old(self).owner,
            final(self).nodes@.len() == old(self).nodes@.len(),
            final(self).heads@ == old(self).heads@,
            old(self).keeps_loose(*final(self), n as int),
    {
        let ghost t = *self;
        proof {
            assert(t.node_ok(n as int));
        }
        let mut pprev: Pprev = self.nodes[n].pprev;
        if claim_link(&mut pprev, None) {
            self.set_pprev(n, pprev);
            proof {
                t.lemma_loose(*self, n);
            }
            true
        } else {
            false
        }
    }
}

/// Says that the field of a type at `OFFSET` is the entry of some list.
pub trait FieldUsed<const OFFSET: usize> {

}

/// An object that has an entry for the lists of `Tag`.
pub trait HasHlistNode<Tag> {
    /// The number of its entry.
    spec fn hentry(&self) -> usize;

    /// Gives the number of its entry.
    fn hlist_entry(&self) -> (n: usize)
        ensures
            n == self.hentry(),
    ;
}

/// An owner of an object, which a list can hold.
pub trait HlistItem<Tag>: Sized {
    /// The object.
    type Target: HasHlistNode<Tag>;

    /// The number of the entry of the object.
    spec fn hraw(self) -> usize;

    /// Gives up the object.
    fn into_raw(self) -> (n: usize)
        ensures
            n == self.hraw(),
    ;

    /// Takes back the object with the entry `n`.
    fn from_raw(n: usize) -> (item: Self)
        ensures
            item.hraw() == n,
    ;
}

impl<T, Tag> HasHlistNode<Tag> for Object<T> {
    open spec fn hentry(&self) -> usize {
        self.number()
    }

    fn hlist_entry(&self) -> (n: usize) {
        self.index()
    }
}

impl<T: KrefCounted + HasHlistNode<Tag>, Tag> HlistItem<Tag> for KRef<T> {
    type Target = T;

    open spec fn hraw(self) -> usize {
        self.number()
    }

    fn into_raw(self) -> (n: usize) {
        KRef::into_raw(self)
    }

    fn from_raw(n: usize) -> (item: Self) {
        KRef::from_raw(n)
    }
}

/// A list of items: a head of a table.
pub struct HList<P: HlistItem<Tag>, Tag> {
    head: usize,
    _items: core::marker::PhantomData<(P, Tag)>,
}

impl<P: HlistItem<Tag>, Tag> HList<P, Tag> {
    /// The number of the head.
    pub closed spec fn list(self) -> int {
        self.head as int
    }

    /// Whether the head is one of the table.
    pub open spec fn is_of(self, t: HlistTable) -> bool {
        t.wf() && 0 <= self.list() < t.heads@.len()
    }

    /// The entries of the list, from the first to the last.
    pub open spec fn entries(self, t: HlistTable) -> Seq<usize> {
        t.order(self.list())
    }

    /// An empty list.
    pub fn new(t: &mut HlistTable) -> (l: Self)
        requires
            old(t).wf(),
            old(t).heads@.len() < usize::MAX,
        ensures
            l.is_of(*final(t)),
            l.list() == old(t).heads@.len(),
            final(t).orders@ == old(t).orders@.push(Seq::empty()),
            final(t).owner@ == old(t).owner@,
            final(t).nodes@ == old(t).nodes@,
    {
        let ghost before = *t;
        let head: usize = t.heads.len();
        t.heads.push(hlist_head::new());
        proof {
            t.orders@ = t.orders@.push(Seq::empty());
            assert forall|l: int| 0 <= l < t.heads@.len() implies #[trigger] t.list_ok(l) by {
                if l < head {
                    assert(before.list_ok(l));
                }
            }
            assert forall|n: int| 0 <= n < t.nodes@.len() implies #[trigger] t.node_ok(n) by {
                assert(before.node_ok(n));
            }
            assert forall|l: int, n: usize| 0 <= l < t.heads@.len() implies #[trigger] t.owner_ok(
                l,
                n,
            ) by {
                if l < head {
                    assert(before.owner_ok(l, n));
                } else if n < t.nodes@.len() {
                    assert(before.node_ok(n as int));
                }
            }
        }
        HList { head, _items: core::marker::PhantomData }
    }

    /// The list of the head with the number `head`.
    pub fn from_raw(head: usize) -> (l: Self)
        ensures
            l.list() == head,
    {
        HList { head, _items: core::marker::PhantomData }
    }

    /// The list at position `i` of the lists of a hash table.
    pub fn get_mut(lists: &mut [Self], i: usize) -> (l: Option<Self>)
        ensures
            l is Some <==> i < old(lists)@.len(),
            l matches Some(l) ==> l.list() == old(lists)@[i as int].list(),
            final(lists)@ == old(lists)@,
    {
        if i < lists.len() {
            Some(HList { head: lists[i].head, _items: core::marker::PhantomData })
        } else {
            None
        }
    }

    /// Whether the list is empty.
    pub fn is_empty(&self, t: &HlistTable) -> (r: bool)
        requires
            self.is_of(*t),
        ensures
            r == (self.entries(*t).len() == 0),
    {
        proof {
            assert(t.list_ok(self.list()));
            if self.entries(*t).len() > 0 {
                t.lemma_entry(self.list(), 0);
            }
        }
        t.heads[self.head].is_empty()
    }

    /// Puts an item first. Gives it back if it is on a list already.
    pub fn push_front(&self, t: &mut HlistTable, item: P) -> (r: Result<(), P>)
        requires
            self.is_of(*old(t)),
            item.hraw() < old(t).nodes@.len(),
        ensures
            self.is_of(*final(t)),
            r is Err <==> old(t).is_on(item.hraw()),
            r matches Err(back) ==> back.hraw() == item.hraw() && *final(t) == *old(t),
            r is Ok ==> {
                &&& final(t).orders@ == old(t).orders@.update(
                    self.list(),
                    self.entries(*old(t)).insert(0, item.hraw()),
                )
                &&& final(t).owner@ == old(t).owner@.update(item.hraw() as int, self.list())
            },
            final(t).nodes@.len() == old(t).nodes@.len(),
            final(t).heads@.len() == old(t).heads@.len(),
            old(t).keeps_loose(*final(t), item.hraw() as int),
    {
        let n: usize = item.into_raw();
        if !t.claim(n) {
            return Err(P::from_raw(n));
        }
        t.hlist_add_head_raw(n, self.head);
        Ok(())
    }

    /// Removes the first item, and gives it back.
    pub fn pop_front(&self, t: &mut HlistTable) -> (item: Option<P>)
        requires
            self.is_of(*old(t)),
        ensures
            self.is_of(*final(t)),
            self.entries(*old(t)).len() == 0 ==> item is None && *final(t) == *old(t),
            self.entries(*old(t)).len() > 0 ==> {
                let n = self.entries(*old(t))[0];
                &&& item matches Some(item) && item.hraw() == n
                &&& final(t).orders@ == old(t).orders@.update(
                    self.list(),
                    self.entries(*old(t)).remove(0),
                )
                &&& final(t).owner@ == old(t).owner@.update(n as int, -1)
                &&& final(t).nodes@[n as int] == (hlist_node { next: NIL, pprev: Pprev::Unhashed })
            },
            final(t).nodes@.len() == old(t).nodes@.len(),
            final(t).heads@.len() == old(t).heads@.len(),
            old(t).keeps_loose(*final(t), -1),
    {
        proof {
            assert(t.list_ok(self.list()));
            if self.entries(*t).len() > 0 {
                t.lemma_entry(self.list(), 0);
            }
        }
        let first: usize = t.heads[self.head].first;
        if first == NIL {
            return None;
        }
        t.hlist_del_init_raw(first, Ghost(self.list()), Ghost(0));
        Some(P::from_raw(first))
    }

    /// Empties the list, and gives its items from the first to the last, for the caller to drop.
    pub fn clear(&self, t: &mut HlistTable) -> (items: Vec<P>)
        requires
            self.is_of(*old(t)),
        ensures
            self.is_of(*final(t)),
            items@.len() == self.entries(*old(t)).len(),
            forall|i: int|
                0 <= i < items@.len() ==> (#[trigger] items@[i]).hraw() == self.entries(*old(t))[i],
            final(t).orders@ == old(t).orders@.update(self.list(), Seq::empty()),
            final(t).owner@ == old(t).owner@.map_values(
                |l: int|
                    if l == self.list() {
                        -1
                    } else {
                        l
                    },
            ),
            forall|n: int|
                0 <= n < old(t).nodes@.len() && old(t).owner@[n] == self.list()
                    ==> #[trigger] final(t).nodes@[n] == (hlist_node {
                    next: NIL,
                    pprev: Pprev::Unhashed,
                }),
            final(t).nodes@.len() == old(t).nodes@.len(),
            final(t).heads@.len() == old(t).heads@.len(),
            old(t).keeps_loose(*final(t), -1),
    {
        let ghost before = *t;
        let ghost l = self.list();
        let ghost order = before.order(l);
        let mut items: Vec<P> = Vec::new();
        assert(before.orders@ =~= before.orders@.update(l, order));
        assert(order.skip(0) =~= order);
        loop
            invariant_except_break
                items@.len() + t.order(l).len() == order.len(),
            invariant
                self.is_of(before),
                self.is_of(*t),
                l == self.list(),
                order == before.order(l),
                t.nodes@.len() == before.nodes@.len(),
                t.heads@.len() == before.heads@.len(),
                items@.len() <= order.len(),
                forall|i: int| 0 <= i < items@.len() ==> (#[trigger] items@[i]).hraw() == order[i],
                t.order(l) == order.skip(items@.len() as int),
                t.orders@ == before.orders@.update(l, t.order(l)),
                t.owner@.len() == before.owner@.len(),
                forall|n: int|
                    0 <= n < before.owner@.len() ==> #[trigger] t.owner@[n] == (if order.take(
                        items@.len() as int,
                    ).contains(n as usize) {
                        -1
                    } else {
                        before.owner@[n]
                    }),
                forall|n: int|
                    0 <= n < before.nodes@.len() && order.take(items@.len() as int).contains(
                        n as usize,
                    ) ==> #[trigger] t.nodes@[n] == (hlist_node {
                        next: NIL,
                        pprev: Pprev::Unhashed,
                    }),
                before.keeps_loose(*t, -1),
            ensures
                items@.len() == order.len(),
            decreases order.len() - items@.len(),
        {
            let ghost k = items@.len() as int;
            let ghost was = *t;
            let popped: Option<P> = self.pop_front(t);
            match popped {
                Some(item) => {
                    proof {
                        before.lemma_entry(l, k);
                        was.lemma_entry(l, 0);
                        assert(order[k] == was.order(l)[0]);
                        assert(was.order(l).remove(0) =~= order.skip(k + 1));
                        assert(t.orders@ =~= before.orders@.update(l, order.skip(k + 1)));
                        let (a, b) = (order.take(k), order.take(k + 1));
                        assert(b =~= a.push(order[k]));
                        assert(b[k] == order[k]);
                        assert forall|n: usize| #[trigger] b.contains(n) == (a.contains(n) || n
                            == order[k]) by {
                            if a.contains(n) {
                                assert(b[a.index_of(n)] == n);
                            }
                        }
                        assert forall|n: int|
                            0 <= n < before.nodes@.len() && n != -1 && before.owner@[n] < 0 implies
                            #[trigger] t.nodes@[n] == before.nodes@[n] by {
                            assert(was.nodes@[n] == before.nodes@[n]);
                            assert(was.owner@[n] < 0);
                        }
                        assert forall|n: int|
                            0 <= n < before.nodes@.len() && b.contains(n as usize) implies
                            #[trigger] t.nodes@[n] == (hlist_node {
                            next: NIL,
                            pprev: Pprev::Unhashed,
                        }) by {
                            if n != order[k] {
                                assert(was.nodes@[n] == (hlist_node {
                                    next: NIL,
                                    pprev: Pprev::Unhashed,
                                }));
                                assert(was.owner@[n] == -1);
                            }
                        }
                    }
                    items.push(item);
                },
                None => {
                    break;
                },
            }
        }
        proof {
            assert(order.take(items@.len() as int) =~= order);
            assert(t.order(l) =~= Seq::empty());
            let cleared = before.owner@.map_values(
                |l: int|
                    if l == self.list() {
                        -1
                    } else {
                        l
                    },
            );
            assert forall|n: int| 0 <= n < before.owner@.len() implies #[trigger] t.owner@[n] == (
            if before.owner@[n] == l {
                -1
            } else {
                before.owner@[n]
            }) by {
                assert(before.owner_ok(l, n as usize));
            }
            assert(t.owner@ =~= cleared);
            assert forall|n: int|
                0 <= n < before.nodes@.len() && before.owner@[n] == l implies #[trigger] t.nodes@[n]
                == (hlist_node { next: NIL, pprev: Pprev::Unhashed }) by {
                assert(before.owner_ok(l, n as usize));
            }
        }
        items
    }

    /// Moves all items of another list to this one, which must be empty, and says whether it was.
    #[verifier::rlimit(30)]
    pub fn take_from(&self, t: &mut HlistTable, other: &Self) -> (done: bool)
        requires
            self.is_of(*old(t)),
            other.is_of(*old(t)),
            self.list() != other.list(),
        ensures
            self.is_of(*final(t)),
            done == (self.entries(*old(t)).len() == 0),
            !done ==> *final(t) == *old(t),
            done ==> final(t).orders@ == old(t).orders@.update(
                self.list(),
                other.entries(*old(t)),
            ).update(other.list(), Seq::empty()),
            done ==> final(t).owner@ == old(t).owner@.map_values(
                |l: int|
                    if l == other.list() {
                        self.list()
                    } else {
                        l
                    },
            ),
            final(t).nodes@.len() == old(t).nodes@.len(),
            final(t).heads@.len() == old(t).heads@.len(),
            old(t).keeps_loose(*final(t), -1),
    {
        let ghost before = *t;
        let ghost a = self.list();
        let ghost b = other.list();
        let ghost order = before.orders@[b];
        if !self.is_empty(t) {
            return false;
        }
        proof {
            assert(before.list_ok(a));
            assert(before.list_ok(b));
            if order.len() > 0 {
                before.lemma_entry(b, 0);
            }
        }
        let first: usize = t.heads[other.head].first;
        t.heads.set(self.head, hlist_head { first });
        if first != NIL {
            t.set_pprev(first, Pprev::Head(self.head));
        }
        t.heads.set(other.head, hlist_head { first: NIL });
        proof {
            t.orders@ = before.orders@.update(a, order).update(b, Seq::empty());
            t.owner@ = before.owner@.map_values(
                |l: int|
                    if l == b {
                        a
                    } else {
                        l
                    },
            );
            assert forall|l: int| 0 <= l < t.heads@.len() implies #[trigger] t.list_ok(l) by {
                if l == a {
                    assert forall|i: int| 0 <= i < order.len() implies #[trigger] linked(
                        t.nodes@,
                        a,
                        order,
                        i,
                    ) by {
                        before.lemma_entry(b, i);
                        if i > 0 {
                            assert(order[i] != order[0]);
                        }
                    }
                } else if l != b {
                    assert(before.list_ok(l));
                    let o = before.orders@[l];
                    assert forall|i: int| 0 <= i < o.len() implies #[trigger] linked(
                        t.nodes@,
                        l,
                        o,
                        i,
                    ) by {
                        before.lemma_entry(l, i);
                    }
                }
            }
            assert forall|n: int| 0 <= n < t.nodes@.len() implies #[trigger] t.node_ok(n) by {
                assert(before.node_ok(n));
            }
            assert forall|l: int, n: usize| 0 <= l < t.heads@.len() implies #[trigger] t.owner_ok(
                l,
                n,
            ) by {
                assert(before.owner_ok(l, n));
                assert(before.owner_ok(a, n));
                assert(before.owner_ok(b, n));
            }
        }
        true
    }

    /// The items of the list, from the first to the last.
    pub fn iter(&self, t: &HlistTable) -> (it: Iter)
        requires
            self.is_of(*t),
        ensures
            it.rest(*t) == self.entries(*t),
            it.is_of(*t),
    {
        proof {
            assert(t.list_ok(self.list()));
            assert(self.entries(*t).skip(0) =~= self.entries(*t));
        }
        Iter { next: t.heads[self.head].first, list: Ghost(self.list()), pos: Ghost(0) }
    }

    /// A cursor at the first item.
    pub fn cursor_front_mut(&self, t: &HlistTable) -> (c: CursorMut<P, Tag>)
        requires
            self.is_of(*t),
        ensures
            c.is_of(*t),
            c.list() == self.list(),
            c.pos() == 0,
    {
        proof {
            assert(t.list_ok(self.list()));
        }
        CursorMut {
            list: self.head,
            cur: t.heads[self.head].first,
            pos: Ghost(0),
            _items: core::marker::PhantomData,
        }
    }
}

/// The entries of a list, from the first to the last.
pub struct Iter {
    next: usize,
    list: Ghost<int>,
    pos: Ghost<int>,
}

impl Iter {
    /// The entries that are still to come.
    pub closed spec fn rest(self, t: HlistTable) -> Seq<usize> {
        t.order(self.list@).skip(self.pos@)
    }

    /// Whether the entries are those of a list of the table.
    pub closed spec fn is_of(self, t: HlistTable) -> bool {
        &&& t.wf()
        &&& 0 <= self.list@ < t.heads@.len()
        &&& 0 <= self.pos@ <= t.order(self.list@).len()
        &&& self.next == link(t.order(self.list@), self.pos@)
    }

    /// Gives the next entry.
    pub fn next(&mut self, t: &HlistTable) -> (n: Option<usize>)
        requires
            old(self).is_of(*t),
        ensures
            final(self).is_of(*t),
            old(self).rest(*t).len() == 0 ==> n is None && final(self).rest(*t) == old(self).rest(
                *t,
            ),
            old(self).rest(*t).len() > 0 ==> n == Some(old(self).rest(*t)[0]) && final(self).rest(*t)
                == old(self).rest(*t).drop_first(),
    {
        let n: usize = self.next;
        proof {
            if self.pos@ < t.order(self.list@).len() {
                t.lemma_entry(self.list@, self.pos@);
            }
        }
        if n == NIL {
            return None;
        }
        self.next = t.nodes[n].next;
        proof {
            self.pos@ = self.pos@ + 1;
            assert(self.rest(*t) =~= old(self).rest(*t).drop_first());
        }
        Some(n)
    }
}

/// A position in a list: at an item, or past the end.
pub struct CursorMut<P: HlistItem<Tag>, Tag> {
    list: usize,
    cur: usize,
    pos: Ghost<int>,
    _items: core::marker::PhantomData<(P, Tag)>,
}

impl<P: HlistItem<Tag>, Tag> CursorMut<P, Tag> {
    /// The number of the head of the list.
    pub closed spec fn list(self) -> int {
        self.list as int
    }

    /// The position of the cursor.
    pub closed spec fn pos(self) -> int {
        self.pos@
    }

    /// The entries of the list.
    pub open spec fn entries(self, t: HlistTable) -> Seq<usize> {
        t.order(self.list())
    }

    /// Whether the cursor is at a position of a list of the table.
    pub closed spec fn is_of(self, t: HlistTable) -> bool {
        &&& t.wf()
        &&& self.list < t.heads@.len()
        &&& 0 <= self.pos@ <= t.order(self.list as int).len()
        &&& self.cur == link(t.order(self.list as int), self.pos@)
    }

    /// The entry at the cursor, or `None` past the end.
    pub fn current(&self, t: &HlistTable) -> (n: Option<usize>)
        requires
            self.is_of(*t),
        ensures
            n is Some <==> 0 <= self.pos() < self.entries(*t).len(),
            n matches Some(n) ==> n == self.entries(*t)[self.pos()],
    {
        proof {
            if self.pos@ < self.entries(*t).len() {
                t.lemma_entry(self.list(), self.pos@);
            }
        }
        if self.cur == NIL {
            None
        } else {
            Some(self.cur)
        }
    }

    /// Moves to the next item, or past the end.
    pub fn move_next(&mut self, t: &HlistTable)
        requires
            old(self).is_of(*t),
        ensures
            final(self).is_of(*t),
            final(self).list() == old(self).list(),
            final(self).pos() == if old(self).pos() < old(self).entries(*t).len() {
                old(self).pos() + 1
            } else {
                old(self).pos()
            },
    {
        proof {
            if self.pos@ < self.entries(*t).len() {
                t.lemma_entry(self.list(), self.pos@);
            }
        }
        if self.cur != NIL {
            self.cur = t.nodes[self.cur].next;
            proof {
                self.pos@ = self.pos@ + 1;
            }
        }
    }

    /// Removes the item at the cursor, gives it back, and moves to the next.
    pub fn remove_current(&mut self, t: &mut HlistTable) -> (item: Option<P>)
        requires
            old(self).is_of(*old(t)),
        ensures
            final(self).is_of(*final(t)),
            final(t).wf(),
            final(self).list() == old(self).list(),
            final(self).pos() == old(self).pos(),
            ({
                let order = old(self).entries(*old(t));
                let i = old(self).pos();
                if i < order.len() {
                    &&& item matches Some(item) && item.hraw() == order[i]
                    &&& final(t).orders@ == old(t).orders@.update(old(self).list(), order.remove(i))
                    &&& final(t).owner@ == old(t).owner@.update(order[i] as int, -1)
                    &&& final(t).nodes@[order[i] as int] == (hlist_node {
                        next: NIL,
                        pprev: Pprev::Unhashed,
                    })
                } else {
                    item is None && *final(t) == *old(t)
                }
            }),
            final(t).nodes@.len() == old(t).nodes@.len(),
            final(t).heads@.len() == old(t).heads@.len(),
            old(t).keeps_loose(*final(t), -1),
    {
        proof {
            if self.pos@ < self.entries(*t).len() {
                t.lemma_entry(self.list(), self.pos@);
            }
        }
        let n: usize = self.cur;
        if n == NIL {
            return None;
        }
        self.cur = t.nodes[n].next;
        t.hlist_del_init_raw(n, Ghost(self.list()), Ghost(self.pos@));
        Some(P::from_raw(n))
    }

    /// Removes the item at the cursor for good, gives it back, and moves to the next.
    pub fn remove_current_poisoned(&mut self, t: &mut HlistTable) -> (item: Option<P>)
        requires
            old(self).is_of(*old(t)),
        ensures
            final(self).is_of(*final(t)),
            final(t).wf(),
            final(self).list() == old(self).list(),
            final(self).pos() == old(self).pos(),
            ({
                let order = old(self).entries(*old(t));
                let i = old(self).pos();
                if i < order.len() {
                    &&& item matches Some(item) && item.hraw() == order[i]
                    &&& final(t).orders@ == old(t).orders@.update(old(self).list(), order.remove(i))
                    &&& final(t).owner@ == old(t).owner@.update(order[i] as int, -1)
                    &&& final(t).nodes@[order[i] as int] == (hlist_node {
                        next: LIST_POISON1,
                        pprev: Pprev::Poison,
                    })
                } else {
                    item is None && *final(t) == *old(t)
                }
            }),
            final(t).nodes@.len() == old(t).nodes@.len(),
            final(t).heads@.len() == old(t).heads@.len(),
            old(t).keeps_loose(*final(t), -1),
    {
        proof {
            if self.pos@ < self.entries(*t).len() {
                t.lemma_entry(self.list(), self.pos@);
            }
        }
        let n: usize = self.cur;
        if n == NIL {
            return None;
        }
        self.cur = t.nodes[n].next;
        t.hlist_del_poison_raw(n, Ghost(self.list()), Ghost(self.pos@));
        Some(P::from_raw(n))
    }

    /// Puts an item before that at the cursor, which stays there. Gives it back if the cursor is past
    /// the end, or if the item is on a list already.
    pub fn insert_before(&mut self, t: &mut HlistTable, item: P) -> (r: Result<(), P>)
        requires
            old(self).is_of(*old(t)),
            item.hraw() < old(t).nodes@.len(),
        ensures
            final(self).is_of(*final(t)),
            final(t).wf(),
            final(self).list() == old(self).list(),
            ({
                let order = old(self).entries(*old(t));
                let i = old(self).pos();
                &&& r is Err <==> i >= order.len() || old(t).is_on(item.hraw())
                &&& r matches Err(back) ==> back.hraw() == item.hraw() && *final(t) == *old(t)
                    && final(self).pos() == i
                &&& r is Ok ==> {
                    &&& final(t).orders@ == old(t).orders@.update(
                        old(self).list(),
                        order.insert(i, item.hraw()),
                    )
                    &&& final(t).owner@ == old(t).owner@.update(
                        item.hraw() as int,
                        old(self).list(),
                    )
                    &&& final(self).pos() == i + 1
                }
            }),
            final(t).nodes@.len() == old(t).nodes@.len(),
            final(t).heads@.len() == old(t).heads@.len(),
            old(t).keeps_loose(*final(t), item.hraw() as int),
    {
        proof {
            if self.pos@ < self.entries(*t).len() {
                t.lemma_entry(self.list(), self.pos@);
            }
        }
        if self.cur == NIL {
            return Err(item);
        }
        let n: usize = item.into_raw();
        if !t.claim(n) {
            return Err(P::from_raw(n));
        }
        t.hlist_add_before_raw(n, self.cur, Ghost(self.list()), Ghost(self.pos@));
        proof {
            self.pos@ = self.pos@ + 1;
        }
        Ok(())
    }

    /// Puts an item behind that at the cursor. Gives it back if the cursor is past the end, or if the
    /// item is on a list already.
    pub fn insert_after(&mut self, t: &mut HlistTable, item: P) -> (r: Result<(), P>)
        requires
            old(self).is_of(*old(t)),
            item.hraw() < old(t).nodes@.len(),
        ensures
            final(self).is_of(*final(t)),
            final(t).wf(),
            final(self).list() == old(self).list(),
            final(self).pos() == old(self).pos(),
            ({
                let order = old(self).entries(*old(t));
                let i = old(self).pos();
                &&& r is Err <==> i >= order.len() || old(t).is_on(item.hraw())
                &&& r matches Err(back) ==> back.hraw() == item.hraw() && *final(t) == *old(t)
                &&& r is Ok ==> {
                    &&& final(t).orders@ == old(t).orders@.update(
                        old(self).list(),
                        order.insert(i + 1, item.hraw()),
                    )
                    &&& final(t).owner@ == old(t).owner@.update(
                        item.hraw() as int,
                        old(self).list(),
                    )
                }
            }),
            final(t).nodes@.len() == old(t).nodes@.len(),
            final(t).heads@.len() == old(t).heads@.len(),
            old(t).keeps_loose(*final(t), item.hraw() as int),
    {
        proof {
            if self.pos@ < self.entries(*t).len() {
                t.lemma_entry(self.list(), self.pos@);
            }
        }
        if self.cur == NIL {
            return Err(item);
        }
        let n: usize = item.into_raw();
        if !t.claim(n) {
            return Err(P::from_raw(n));
        }
        t.hlist_add_behind_raw(n, self.cur, Ghost(self.list()), Ghost(self.pos@));
        Ok(())
    }
}

/// An entry is on one list at most.
pub proof fn law_entry_is_on_one_list(t: HlistTable, a: int, b: int, n: usize)
    requires
        t.wf(),
        0 <= a < t.heads@.len(),
        0 <= b < t.heads@.len(),
        t.order(a).contains(n),
        t.order(b).contains(n),
    ensures
        a == b,
        t.is_on(n),
{
    assert(t.owner_ok(a, n));
    assert(t.owner_ok(b, n));
}

/// An entry that is put into a list and removed again leaves the list as it was.
pub proof fn law_remove_undoes_insert(order: Seq<usize>, i: int, n: usize)
    requires
        0 <= i <= order.len(),
    ensures
        order.insert(i, n).remove(i) == order,
{
    assert(order.insert(i, n).remove(i) =~= order);
}

/// The links of a well-formed table lead through every list: its head to its first entry, every entry to
/// the next, and back to what links to it; the last one to nothing.
pub proof fn law_lists_are_linked(t: HlistTable, l: int, i: int)
    requires
        t.wf(),
        0 <= l < t.heads@.len(),
        0 <= i < t.order(l).len(),
    ensures
        t.heads@[l].first == t.order(l)[0],
        i + 1 < t.order(l).len() ==> t.nodes@[t.order(l)[i] as int].next == t.order(l)[i + 1],
        i + 1 == t.order(l).len() ==> t.nodes@[t.order(l)[i] as int].next == NIL,
        i == 0 ==> t.nodes@[t.order(l)[i] as int].pprev == Pprev::Head(l as usize),
        i > 0 ==> t.nodes@[t.order(l)[i] as int].pprev == Pprev::Next(t.order(l)[i - 1]),
{
    assert(t.list_ok(l));
    assert(linked(t.nodes@, l, t.order(l), i));
    assert(linked(t.nodes@, l, t.order(l), 0));
}

/// The head of an empty list leads to nothing, and no entry is on a list twice.
pub proof fn law_lists(t: HlistTable, l: int)
    requires
        t.wf(),
        0 <= l < t.heads@.len(),
    ensures
        t.heads@[l].first == NIL <==> t.order(l).len() == 0,
        t.order(l).no_duplicates(),
{
    assert(t.list_ok(l));
    if t.order(l).len() > 0 {
        assert(linked(t.nodes@, l, t.order(l), 0));
    }
}

/// An entry counts as being on a list exactly if some list holds it; otherwise it says that it is on
/// none, or that it has been removed for good.
pub proof fn law_entries_know_whether_they_are_on_a_list(t: HlistTable, n: usize)
    requires
        t.wf(),
        n < t.nodes@.len(),
    ensures
        t.is_on(n) <==> exists|l: int| 0 <= l < t.heads@.len() && #[trigger] t.order(l).contains(n),
        !t.is_on(n) <==> t.nodes@[n as int].pprev == Pprev::Unhashed || t.nodes@[n as int].pprev
            == Pprev::Poison,
{
    assert(t.node_ok(n as int));
    if t.is_on(n) {
        let l = t.owner@[n as int];
        assert(t.owner_ok(l, n));
        assert(t.order(l).contains(n));
    }
    if exists|l: int| 0 <= l < t.heads@.len() && #[trigger] t.order(l).contains(n) {
        let l = choose|l: int| 0 <= l < t.heads@.len() && #[trigger] t.order(l).contains(n);
        assert(t.owner_ok(l, n));
    }
}

/// An item that is put first on a list is the one that is removed next, and the list is then as it was; an
/// item that is on a list already is given back.
pub proof fn law_push_then_pop<P: HlistItem<Tag>, Tag>(
    list: &HList<P, Tag>,
    push: &mut HlistTable,
    item: P,
    r: Result<(), P>,
    pop: &mut HlistTable,
    got: Option<P>,
)
    requires
        list.is_of(*old(push)),
        item.hraw() < old(push).nodes@.len(),
        call_ensures(HList::<P, Tag>::push_front, (list, push, item), r),
        *old(pop) == *final(push),
        call_ensures(HList::<P, Tag>::pop_front, (list, pop), got),
    ensures
        r is Err <==> old(push).is_on(item.hraw()),
        r is Ok ==> final(push).is_on(item.hraw()),
        r is Ok ==> got is Some && got->0.hraw() == item.hraw(),
        r is Ok ==> list.entries(*final(pop)) == list.entries(*old(push)),
        r is Ok ==> !final(pop).is_on(item.hraw()),
        r is Err ==> (got is Some <==> list.entries(*old(push)).len() > 0),
        r is Err && got is Some ==> got->0.hraw() == list.entries(*old(push))[0],
{
    let before = list.entries(*old(push));
    if r is Ok {
        let after = before.insert(0, item.hraw());
        assert(list.entries(*final(push)) =~= after);
        assert(after.remove(0) =~= before);
    }
}

/// An item that is put behind the one at a cursor is the next one, and the cursor stays where it is; an
/// item that is put before it is passed by the cursor already. An item that is removed is the one at the
/// cursor, which is at the next one then.
pub proof fn law_cursor<P: HlistItem<Tag>, Tag>(
    t0: HlistTable,
    at: &CursorMut<P, Tag>,
    table: &HlistTable,
    current: Option<usize>,
    c_after: &mut CursorMut<P, Tag>,
    t_after: &mut HlistTable,
    a: P,
    r_after: Result<(), P>,
    c_before: &mut CursorMut<P, Tag>,
    t_before: &mut HlistTable,
    b: P,
    r_before: Result<(), P>,
    c_remove: &mut CursorMut<P, Tag>,
    t_remove: &mut HlistTable,
    removed: Option<P>,
)
    requires
        at.is_of(t0),
        *table == t0,
        call_ensures(CursorMut::<P, Tag>::current, (at, table), current),
        *old(c_after) == *at,
        *old(t_after) == t0,
        a.hraw() < t0.nodes@.len(),
        call_ensures(CursorMut::<P, Tag>::insert_after, (c_after, t_after, a), r_after),
        *old(c_before) == *at,
        *old(t_before) == t0,
        b.hraw() < t0.nodes@.len(),
        call_ensures(CursorMut::<P, Tag>::insert_before, (c_before, t_before, b), r_before),
        *old(c_remove) == *at,
        *old(t_remove) == t0,
        call_ensures(CursorMut::<P, Tag>::remove_current, (c_remove, t_remove), removed),
        0 <= at.pos() <= at.entries(t0).len(),
        0 <= at.list() < t0.orders@.len(),
    ensures
        r_after is Err <==> current is None || t0.is_on(a.hraw()),
        r_before is Err <==> current is None || t0.is_on(b.hraw()),
        ({
            let e = at.entries(t0);
            let i = at.pos();
            &&& current is Some ==> current->0 == e[i]
            &&& r_after is Ok ==> {
                let f = final(c_after).entries(*final(t_after));
                &&& final(c_after).pos() == i
                &&& f == e.take(i + 1) + seq![a.hraw()] + e.skip(i + 1)
            }
            &&& r_before is Ok ==> {
                let f = final(c_before).entries(*final(t_before));
                &&& f[final(c_before).pos()] == current->0
                &&& f == e.take(i) + seq![b.hraw()] + e.skip(i)
            }
            &&& current is Some ==> {
                let f = final(c_remove).entries(*final(t_remove));
                &&& removed is Some && removed->0.hraw() == current->0
                &&& final(c_remove).pos() == i
                &&& f == e.take(i) + e.skip(i + 1)
                &&& !final(t_remove).is_on(current->0)
            }
        }),
{
    let e = at.entries(t0);
    let i = at.pos();
    if r_after is Ok {
        assert(e.insert(i + 1, a.hraw()) =~= e.take(i + 1) + seq![a.hraw()] + e.skip(i + 1));
    }
    if r_before is Ok {
        assert(e.insert(i, b.hraw()) =~= e.take(i) + seq![b.hraw()] + e.skip(i));
    }
    if current is Some {
        assert(e.remove(i) =~= e.take(i) + e.skip(i + 1));
        assert(t0.list_ok(at.list()));
        assert(linked(t0.nodes@, at.list(), e, i));
    }
}

} // verus!
