//! Circular doubly linked lists.
//!
//! The links of all nodes lie in one sequence, and a node is named by its index in it.

use vstd::prelude::*;

verus! {

/// The two links of a node: the indices of its neighbours.
#[allow(non_camel_case_types)]
#[derive(Clone, Copy)]
pub struct list_head {
    /// The node behind this one.
    pub next: usize,
    /// The node before this one.
    pub prev: usize,
}

/// The entry of `s` behind index `i`, the first one behind the last.
pub open spec fn succ(s: Seq<usize>, i: int) -> usize {
    if i + 1 == s.len() {
        s[0]
    } else {
        s[i + 1]
    }
}

/// The entry of `s` before index `i`, the last one before the first.
pub open spec fn pred(s: Seq<usize>, i: int) -> usize {
    if i == 0 {
        s[s.len() - 1]
    } else {
        s[i - 1]
    }
}

/// Whether the links of entry `i` of `s` lead to its neighbours in `s`.
pub open spec fn linked(l: Seq<list_head>, s: Seq<usize>, i: int) -> bool {
    &&& s[i] < l.len()
    &&& l[s[i] as int].next == succ(s, i)
    &&& l[s[i] as int].prev == pred(s, i)
}

/// Whether the links of `l` make a circle of the nodes `s`, in that order.
pub open spec fn ring(l: Seq<list_head>, s: Seq<usize>) -> bool {
    &&& s.len() > 0
    &&& s.no_duplicates()
    &&& forall|i: int| 0 <= i < s.len() ==> #[trigger] linked(l, s, i)
}

/// Whether `node` is on no list: its links lead to itself.
pub open spec fn alone(l: Seq<list_head>, node: usize) -> bool {
    node < l.len() && l[node as int].next == node && l[node as int].prev == node
}

/// The links after `new` has been put between `before` and `after`.
pub open spec fn spliced(l: Seq<list_head>, before: usize, new: usize, after: usize) -> Seq<list_head> {
    Seq::new(
        l.len(),
        |k: int|
            list_head {
                next: if k == new {
                    after
                } else if k == before {
                    new
                } else {
                    l[k].next
                },
                prev: if k == new {
                    before
                } else if k == after {
                    new
                } else {
                    l[k].prev
                },
            },
    )
}

/// The links after `node` has been taken out and linked to itself.
pub open spec fn unlinked(l: Seq<list_head>, node: usize) -> Seq<list_head> {
    let before = l[node as int].prev;
    let after = l[node as int].next;
    Seq::new(
        l.len(),
        |k: int|
            list_head {
                next: if k == node {
                    node
                } else if k == before {
                    after
                } else {
                    l[k].next
                },
                prev: if k == node {
                    node
                } else if k == after {
                    before
                } else {
                    l[k].prev
                },
            },
    )
}

/// A new node is put behind entry `i - 1` of a ring.
pub proof fn lemma_splice(l: Seq<list_head>, s: Seq<usize>, i: int, new: usize)
    requires
        ring(l, s),
        1 <= i <= s.len(),
        new < l.len(),
        !s.contains(new),
    ensures
        ring(spliced(l, s[i - 1], new, succ(s, i - 1)), s.insert(i, new)),
        forall|k: int|
            0 <= k < l.len() && k != new && !(exists|j: int| 0 <= j < s.len() && s[j] == k)
                ==> #[trigger] spliced(l, s[i - 1], new, succ(s, i - 1))[k] == l[k],
{
    let before = s[i - 1];
    let after = succ(s, i - 1);
    let l2 = spliced(l, before, new, after);
    let t = s.insert(i, new);
    assert forall|j: int| 0 <= j < t.len() implies t[j] == (if j < i {
        s[j]
    } else if j == i {
        new
    } else {
        s[j - 1]
    }) by {}
    assert(t.no_duplicates()) by {
        assert forall|a: int, b: int| 0 <= a < t.len() && 0 <= b < t.len() && a != b implies t[a]
            != t[b] by {
            assert(a != i ==> s.contains(t[a]));
            assert(b != i ==> s.contains(t[b]));
        }
    }
    assert forall|j: int| 0 <= j < t.len() implies #[trigger] linked(l2, t, j) by {
        assert(linked(l, s, i - 1));
        if j < i {
            assert(linked(l, s, j));
            assert(s.contains(s[j]));
        } else if j > i {
            assert(linked(l, s, j - 1));
            assert(s.contains(s[j - 1]));
        }
    }
    assert forall|k: int|
        0 <= k < l.len() && k != new && !(exists|j: int| 0 <= j < s.len() && s[j] == k) implies
        #[trigger] l2[k] == l[k] by {
        assert(s[i - 1] == before);
        assert(after == s[0] || after == s[i]);
    }
}

/// Entry `i` is taken out of a ring of two or more.
pub proof fn lemma_unlink(l: Seq<list_head>, s: Seq<usize>, i: int)
    requires
        ring(l, s),
        0 <= i < s.len(),
        s.len() > 1,
    ensures
        ring(unlinked(l, s[i]), s.remove(i)),
        alone(unlinked(l, s[i]), s[i]),
        forall|k: int|
            0 <= k < l.len() && !(exists|j: int| 0 <= j < s.len() && s[j] == k)
                ==> #[trigger] unlinked(l, s[i])[k] == l[k],
{
    assert(linked(l, s, i));
    let l2 = unlinked(l, s[i]);
    let t = s.remove(i);
    assert forall|j: int| 0 <= j < t.len() implies t[j] == (if j < i {
        s[j]
    } else {
        s[j + 1]
    }) by {}
    assert(t.no_duplicates());
    assert forall|j: int| 0 <= j < t.len() implies #[trigger] linked(l2, t, j) by {
        if j < i {
            assert(linked(l, s, j));
        } else {
            assert(linked(l, s, j + 1));
        }
    }
    assert forall|k: int|
        0 <= k < l.len() && !(exists|j: int| 0 <= j < s.len() && s[j] == k) implies #[trigger] l2[k]
        == l[k] by {
        let p = pred(s, i);
        let n = succ(s, i);
        assert(p == s[s.len() - 1] || p == s[i - 1]);
        assert(n == s[0] || n == s[i + 1]);
    }
}

/// The only entry of a ring is alone.
pub proof fn lemma_single(l: Seq<list_head>, node: usize)
    requires
        node < l.len(),
    ensures
        ring(l, seq![node]) == alone(l, node),
{
    let s = seq![node];
    if ring(l, s) {
        assert(linked(l, s, 0));
    }
    if alone(l, node) {
        assert(linked(l, s, 0));
    }
}

/// A ring can be read from its last entry on.
pub proof fn lemma_rotate(l: Seq<list_head>, s: Seq<usize>)
    requires
        ring(l, s),
    ensures
        ring(l, s.drop_last().insert(0, s.last())),
{
    let t = s.drop_last().insert(0, s.last());
    assert forall|j: int| 0 <= j < t.len() implies t[j] == (if j == 0 {
        s[s.len() - 1]
    } else {
        s[j - 1]
    }) by {}
    assert(t.no_duplicates());
    assert forall|j: int| 0 <= j < t.len() implies #[trigger] linked(l, t, j) by {
        if j == 0 {
            assert(linked(l, s, s.len() - 1));
        } else {
            assert(linked(l, s, j - 1));
        }
    }
}

/// Where `k` steps along the links forwards lead from `node` on.
pub open spec fn forwards(l: Seq<list_head>, node: usize, k: nat) -> usize
    decreases k,
{
    if k == 0 {
        node
    } else {
        l[forwards(l, node, (k - 1) as nat) as int].next
    }
}

/// Where `k` steps along the links backwards lead from `node` on.
pub open spec fn backwards(l: Seq<list_head>, node: usize, k: nat) -> usize
    decreases k,
{
    if k == 0 {
        node
    } else {
        l[backwards(l, node, (k - 1) as nat) as int].prev
    }
}

/// The links of a circle lead through its nodes in turn, in both directions, and back to the first.
pub proof fn law_ring_is_walked(l: Seq<list_head>, s: Seq<usize>, k: nat)
    requires
        ring(l, s),
        k <= s.len(),
    ensures
        k < s.len() ==> forwards(l, s[0], k) == s[k as int],
        k == s.len() ==> forwards(l, s[0], k) == s[0],
        k > 0 ==> backwards(l, s[0], k) == s[s.len() - k],
        backwards(l, s[0], 0) == s[0],
    decreases k,
{
    if k > 0 {
        law_ring_is_walked(l, s, (k - 1) as nat);
        assert(linked(l, s, k - 1));
        if k > 1 {
            assert(linked(l, s, s.len() - (k - 1)));
        } else {
            assert(linked(l, s, 0));
        }
    }
}

/// A node that is put between two neighbours is linked to both, and they to it; one that is taken out
/// is linked to itself, and its neighbours to each other. No other link changes.
pub proof fn law_links(l: Seq<list_head>, before: usize, node: usize, after: usize, k: int)
    requires
        before < l.len(),
        node < l.len(),
        after < l.len(),
        node != before,
        node != after,
        0 <= k < l.len(),
    ensures
        ({
            let m = spliced(l, before, node, after);
            &&& m.len() == l.len()
            &&& m[node as int] == (list_head { next: after, prev: before })
            &&& m[before as int].next == node
            &&& m[after as int].prev == node
            &&& k != node && k != before ==> m[k].next == l[k].next
            &&& k != node && k != after ==> m[k].prev == l[k].prev
        }),
        l[node as int].prev == before && l[node as int].next == after ==> {
            let m = unlinked(l, node);
            &&& m.len() == l.len()
            &&& m[node as int] == (list_head { next: node, prev: node })
            &&& m[before as int].next == after
            &&& m[after as int].prev == before
            &&& k != node && k != before ==> m[k].next == l[k].next
            &&& k != node && k != after ==> m[k].prev == l[k].prev
        },
{
}

} // verus!
