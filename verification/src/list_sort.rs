//! Sorting of a circular doubly linked list with a comparison of the caller's.
//!
//! The sort is a stable bottom-up merge sort. On the way the nodes lie in singly linked lists, each
//! ended by [`NIL`], and the sublists that await merging are chained by the `prev` links of their
//! first nodes.

use vstd::prelude::*;

use crate::list::list_head;
#[allow(unused_imports)]
use crate::list::{linked, ring};

verus! {

/// The index of no node.
pub const NIL: usize = usize::MAX;

/// The caller's comparison of two nodes.
pub trait NodeOrder {
    /// Positive if `a` should sort behind `b`; otherwise `a` sorts before `b`, or the two keep their
    /// order.
    spec fn order(&self, a: usize, b: usize) -> i32;

    /// Whether a node can be compared.
    spec fn accepts(&self, a: usize) -> bool;

    /// Compares two different nodes.
    fn compare(&self, a: usize, b: usize) -> (r: i32)
        requires
            self.accepts(a),
            self.accepts(b),
            a != b,
        ensures
            r == self.order(a, b),
    ;
}

/// Nodes compared by keys: the key of a node stands at its index.
pub struct Keys {
    /// The keys.
    pub keys: Vec<i32>,
}

impl NodeOrder for Keys {
    open spec fn order(&self, a: usize, b: usize) -> i32 {
        if self.keys@[a as int] < self.keys@[b as int] {
            -1i32
        } else if self.keys@[a as int] == self.keys@[b as int] {
            0
        } else {
            1
        }
    }

    open spec fn accepts(&self, a: usize) -> bool {
        a < self.keys@.len()
    }

    fn compare(&self, a: usize, b: usize) -> (r: i32) {
        if self.keys[a] < self.keys[b] {
            -1
        } else if self.keys[a] == self.keys[b] {
            0
        } else {
            1
        }
    }
}

/// Whether all nodes of `s` can be compared.
pub open spec fn accepts_all<O: NodeOrder>(o: &O, s: Seq<usize>) -> bool {
    forall|i: int| 0 <= i < s.len() ==> o.accepts(#[trigger] s[i])
}

/// Whether `a` need not sort behind `b`.
pub open spec fn le<O: NodeOrder>(o: &O, a: usize, b: usize) -> bool {
    o.order(a, b) <= 0
}

/// Whether the comparison is antisymmetric and transitive on the nodes of `s`.
pub open spec fn lawful_on<O: NodeOrder>(o: &O, s: Seq<usize>) -> bool {
    &&& forall|a: usize, b: usize|
        s.contains(a) && s.contains(b) ==> #[trigger] le(o, a, b) || le(o, b, a)
    &&& forall|a: usize, b: usize, c: usize|
        #![trigger le(o, a, b), le(o, b, c)]
        s.contains(a) && s.contains(b) && s.contains(c) && le(o, a, b) && le(o, b, c) ==> le(o, a, c)
}

/// Keys compare lawfully, whatever they are.
pub proof fn law_keys_are_lawful(keys: Keys, s: Seq<usize>)
    ensures
        lawful_on(&keys, s),
{
}

/// Whether `a` comes before `b` in a stable sort of `base`: by the comparison, or by their places
/// in `base` where the comparison does not tell.
pub open spec fn before<O: NodeOrder>(o: &O, base: Seq<usize>, a: usize, b: usize) -> bool {
    if le(o, a, b) && le(o, b, a) {
        base.index_of(a) < base.index_of(b)
    } else {
        le(o, a, b)
    }
}

/// Whether `s` is in the order of a stable sort of `base`.
pub open spec fn stable_sorted<O: NodeOrder>(o: &O, base: Seq<usize>, s: Seq<usize>) -> bool {
    forall|i: int, j: int|
        0 <= i < j < s.len() ==> before(o, base, #[trigger] s[i], #[trigger] s[j])
}

/// The merge of two lists, the first of which goes first where the comparison does not tell.
pub open spec fn merged<O: NodeOrder>(o: &O, a: Seq<usize>, b: Seq<usize>) -> Seq<usize>
    decreases a.len() + b.len(),
{
    if a.len() == 0 {
        b
    } else if b.len() == 0 {
        a
    } else if le(o, a[0], b[0]) {
        seq![a[0]] + merged(o, a.skip(1), b)
    } else {
        seq![b[0]] + merged(o, a, b.skip(1))
    }
}

/// Whether the links forwards lead through `s` and end there.
spec fn chain(l: Seq<list_head>, s: Seq<usize>) -> bool {
    &&& s.no_duplicates()
    &&& forall|i: int| 0 <= i < s.len() ==> #[trigger] chained(l, s, i)
}

spec fn chained(l: Seq<list_head>, s: Seq<usize>, i: int) -> bool {
    &&& s[i] < l.len()
    &&& s[i] != NIL
    &&& l[s[i] as int].next == (if i + 1 < s.len() {
        s[i + 1]
    } else {
        NIL
    })
}

spec fn disjoint(a: Seq<usize>, b: Seq<usize>) -> bool {
    forall|i: int, j: int|
        0 <= i < a.len() && 0 <= j < b.len() ==> #[trigger] a[i] != #[trigger] b[j]
}

proof fn lemma_merged<O: NodeOrder>(o: &O, a: Seq<usize>, b: Seq<usize>)
    ensures
        merged(o, a, b).len() == a.len() + b.len(),
        merged(o, a, b).to_multiset() == a.to_multiset().add(b.to_multiset()),
    decreases a.len() + b.len(),
{
    let m = merged(o, a, b);
    if a.len() == 0 {
        a.to_multiset_ensures();
        assert(a =~= Seq::empty());
        assert(a.to_multiset() =~= vstd::multiset::Multiset::empty());
        assert(a.to_multiset().add(b.to_multiset()) =~= b.to_multiset());
    } else if b.len() == 0 {
        assert(b =~= Seq::empty());
        b.to_multiset_ensures();
        assert(b.to_multiset() =~= vstd::multiset::Multiset::empty());
        assert(a.to_multiset().add(b.to_multiset()) =~= a.to_multiset());
    } else if le(o, a[0], b[0]) {
        lemma_merged(o, a.skip(1), b);
        lemma_first_multiset(a);
        lemma_first_multiset(m);
        assert(m.skip(1) =~= merged(o, a.skip(1), b));
        assert(m.to_multiset() =~= a.to_multiset().add(b.to_multiset()));
    } else {
        lemma_merged(o, a, b.skip(1));
        lemma_first_multiset(b);
        lemma_first_multiset(m);
        assert(m.skip(1) =~= merged(o, a, b.skip(1)));
        assert(m.to_multiset() =~= a.to_multiset().add(b.to_multiset()));
    }
}

proof fn lemma_first_multiset(a: Seq<usize>)
    requires
        a.len() > 0,
    ensures
        a.to_multiset() == a.skip(1).to_multiset().insert(a[0]),
{
    a.to_multiset_ensures();
    assert(a.remove(0) =~= a.skip(1));
    assert(a.to_multiset().count(a[0]) > 0);
    assert(a.skip(1).to_multiset() =~= a.to_multiset().remove(a[0]));
    assert(a.to_multiset() =~= a.skip(1).to_multiset().insert(a[0]));
}

/// The members of a merge.
proof fn lemma_merged_contains<O: NodeOrder>(o: &O, a: Seq<usize>, b: Seq<usize>, x: usize)
    ensures
        merged(o, a, b).contains(x) == (a.contains(x) || b.contains(x)),
{
    lemma_merged(o, a, b);
    let m = merged(o, a, b);
    m.to_multiset_ensures();
    a.to_multiset_ensures();
    b.to_multiset_ensures();
    assert(m.contains(x) <==> m.to_multiset().count(x) > 0);
    assert(a.contains(x) <==> a.to_multiset().count(x) > 0);
    assert(b.contains(x) <==> b.to_multiset().count(x) > 0);
}

/// Merging sorted lists whose nodes come one list after the other in `base` gives a sorted list.
proof fn lemma_merged_sorted<O: NodeOrder>(o: &O, base: Seq<usize>, a: Seq<usize>, b: Seq<usize>)
    requires
        lawful_on(o, base),
        stable_sorted(o, base, a),
        stable_sorted(o, base, b),
        forall|i: int| 0 <= i < a.len() ==> base.contains(#[trigger] a[i]),
        forall|j: int| 0 <= j < b.len() ==> base.contains(#[trigger] b[j]),
        forall|i: int, j: int|
            0 <= i < a.len() && 0 <= j < b.len() ==> base.index_of(#[trigger] a[i]) < base.index_of(
                #[trigger] b[j],
            ),
    ensures
        stable_sorted(o, base, merged(o, a, b)),
    decreases a.len() + b.len(),
{
    let m = merged(o, a, b);
    if a.len() == 0 || b.len() == 0 {
    } else {
        assert(base.contains(a[0]) && base.contains(b[0]));
        let (x, rest) = if le(o, a[0], b[0]) {
            assert forall|i: int, j: int|
                0 <= i < a.skip(1).len() && 0 <= j < b.len() implies base.index_of(
                #[trigger] a.skip(1)[i],
            ) < base.index_of(#[trigger] b[j]) by {
                assert(a.skip(1)[i] == a[i + 1]);
            }
            lemma_merged_sorted(o, base, a.skip(1), b);
            (a[0], merged(o, a.skip(1), b))
        } else {
            assert forall|i: int, j: int|
                0 <= i < a.len() && 0 <= j < b.skip(1).len() implies base.index_of(#[trigger] a[i])
                < base.index_of(#[trigger] b.skip(1)[j]) by {
                assert(b.skip(1)[j] == b[j + 1]);
            }
            lemma_merged_sorted(o, base, a, b.skip(1));
            (b[0], merged(o, a, b.skip(1)))
        };
        assert(m =~= seq![x] + rest);
        assert forall|y: usize| #[trigger] rest.contains(y) implies before(o, base, x, y) by {
            if le(o, a[0], b[0]) {
                lemma_merged_contains(o, a.skip(1), b, y);
                if a.skip(1).contains(y) {
                    let i = choose|i: int| 0 <= i < a.skip(1).len() && a.skip(1)[i] == y;
                    assert(a[i + 1] == y);
                } else {
                    let j = choose|j: int| 0 <= j < b.len() && b[j] == y;
                    assert(base.contains(b[j]));
                    assert(base.index_of(a[0]) < base.index_of(b[j]));
                    if j > 0 {
                        assert(before(o, base, b[0], b[j]));
                        assert(le(o, b[0], y));
                    }
                    assert(le(o, x, y));
                }
            } else {
                lemma_merged_contains(o, a, b.skip(1), y);
                assert(le(o, b[0], a[0]));
                if a.contains(y) {
                    let i = choose|i: int| 0 <= i < a.len() && a[i] == y;
                    assert(base.contains(a[i]));
                    if i > 0 {
                        assert(before(o, base, a[0], a[i]));
                        assert(le(o, a[0], y));
                    }
                    assert(le(o, x, y));
                    if le(o, y, x) {
                        assert(le(o, a[0], y));
                        assert(le(o, a[0], b[0]));
                    }
                } else {
                    let j = choose|j: int| 0 <= j < b.skip(1).len() && b.skip(1)[j] == y;
                    assert(b[j + 1] == y);
                }
            }
        }
        assert forall|i: int, j: int| 0 <= i < j < m.len() implies before(
            o,
            base,
            #[trigger] m[i],
            #[trigger] m[j],
        ) by {
            if i == 0 {
                assert(rest[j - 1] == m[j]);
                assert(rest.contains(m[j]));
            } else {
                assert(m[i] == rest[i - 1] && m[j] == rest[j - 1]);
            }
        }
    }
}

/// Whether entry `i` of `out` leads to the next one.
spec fn leads(l: Seq<list_head>, out: Seq<usize>, i: int) -> bool {
    out[i] < l.len() && l[out[i] as int].next == out[i + 1]
}

/// The state of a merge: `out` has been put out, `a` and `b` are left.
spec fn merging(l: Seq<list_head>, out: Seq<usize>, a: Seq<usize>, b: Seq<usize>) -> bool {
    &&& chain(l, a)
    &&& chain(l, b)
    &&& a.len() > 0
    &&& b.len() > 0
    &&& out.no_duplicates()
    &&& disjoint(out, a)
    &&& disjoint(out, b)
    &&& disjoint(a, b)
    &&& forall|i: int| 0 <= i < out.len() - 1 ==> #[trigger] leads(l, out, i)
    &&& out.len() > 0 ==> out.last() < l.len() && out.last() != NIL
}

/// `l` with another link forwards at `k`.
spec fn with_next(l: Seq<list_head>, k: usize, v: usize) -> Seq<list_head> {
    l.update(k as int, list_head { next: v, prev: l[k as int].prev })
}

fn set_next(links: &mut Vec<list_head>, k: usize, v: usize)
    requires
        k < old(links)@.len(),
    ensures
        final(links)@ == with_next(old(links)@, k, v),
{
    let prev = links[k].prev;
    links.set(k, list_head { next: v, prev });
}

fn set_prev(links: &mut Vec<list_head>, k: usize, v: usize)
    requires
        k < old(links)@.len(),
    ensures
        final(links)@ == old(links)@.update(
            k as int,
            list_head { next: old(links)@[k as int].next, prev: v },
        ),
{
    let next = links[k].next;
    links.set(k, list_head { next, prev: v });
}

/// A link outside a chain can change.
proof fn lemma_chain_frame(l: Seq<list_head>, l2: Seq<list_head>, s: Seq<usize>)
    requires
        chain(l, s),
        l2.len() == l.len(),
        forall|i: int| 0 <= i < s.len() ==> l2[#[trigger] s[i] as int].next == l[s[i] as int].next,
    ensures
        chain(l2, s),
{
    assert forall|i: int| 0 <= i < s.len() implies #[trigger] chained(l2, s, i) by {
        assert(chained(l, s, i));
        assert(l2[s[i] as int].next == l[s[i] as int].next);
    }
}

proof fn lemma_chain_rest(l: Seq<list_head>, s: Seq<usize>)
    requires
        chain(l, s),
        s.len() > 0,
    ensures
        chain(l, s.skip(1)),
        s[0] < l.len(),
        s[0] != NIL,
        l[s[0] as int].next == (if s.len() > 1 {
            s[1]
        } else {
            NIL
        }),
        s.len() > 1 ==> s[1] != NIL,
{
    assert(chained(l, s, 0));
    if s.len() > 1 {
        assert(chained(l, s, 1));
    }
    assert forall|i: int| 0 <= i < s.skip(1).len() implies #[trigger] chained(l, s.skip(1), i) by {
        assert(chained(l, s, i + 1));
    }
}

/// The first node of `a` is put out, and `l2` differs from `l` in that the last one before it leads
/// to it.
proof fn lemma_take(l: Seq<list_head>, l2: Seq<list_head>, out: Seq<usize>, a: Seq<usize>, b: Seq<usize>)
    requires
        merging(l, out, a, b),
        l2 == (if out.len() > 0 {
            with_next(l, out.last(), a[0])
        } else {
            l
        }),
    ensures
        chain(l2, a),
        chain(l2, b),
        chain(l2, a.skip(1)),
        a[0] < l2.len(),
        a[0] != NIL,
        l2[a[0] as int].next == (if a.len() > 1 {
            a[1]
        } else {
            NIL
        }),
        a.len() > 1 ==> a[1] != NIL,
        a.len() > 1 ==> merging(l2, out.push(a[0]), a.skip(1), b),
        out.push(a[0]).no_duplicates(),
        disjoint(out.push(a[0]), b),
        forall|i: int| 0 <= i < out.push(a[0]).len() - 1 ==> #[trigger] leads(l2, out.push(a[0]), i),
{
    if out.len() > 0 {
        let t = out.len() - 1;
        assert forall|i: int| 0 <= i < a.len() implies l2[#[trigger] a[i] as int].next
            == l[a[i] as int].next by {
            assert(chained(l, a, i));
            assert(out[t] != a[i]);
        }
        assert forall|i: int| 0 <= i < b.len() implies l2[#[trigger] b[i] as int].next
            == l[b[i] as int].next by {
            assert(chained(l, b, i));
            assert(out[t] != b[i]);
        }
        lemma_chain_frame(l, l2, a);
        lemma_chain_frame(l, l2, b);
    }
    lemma_chain_rest(l2, a);
    let o2 = out.push(a[0]);
    assert(o2.no_duplicates()) by {
        assert forall|i: int, j: int| 0 <= i < o2.len() && 0 <= j < o2.len() && i != j implies o2[i]
            != o2[j] by {
            if i == out.len() {
                assert(out[j] != a[0]);
            } else if j == out.len() {
                assert(out[i] != a[0]);
            }
        }
    }
    assert forall|i: int| 0 <= i < o2.len() - 1 implies #[trigger] leads(l2, o2, i) by {
        if i < out.len() - 1 {
            assert(leads(l, out, i));
            assert(out[i] != out[out.len() - 1]);
        }
    }
    assert(disjoint(o2, b)) by {
        assert forall|i: int, j: int| 0 <= i < o2.len() && 0 <= j < b.len() implies #[trigger] o2[i]
            != #[trigger] b[j] by {
            assert(a[0] != b[j]);
            assert(i < out.len() ==> out[i] != b[j]);
        }
    }
    if a.len() > 1 {
        let r = a.skip(1);
        assert forall|i: int, j: int| 0 <= i < o2.len() && 0 <= j < r.len() implies #[trigger] o2[i]
            != #[trigger] r[j] by {
            assert(r[j] == a[j + 1]);
            assert(i < out.len() ==> out[i] != a[j + 1]);
        }
        assert forall|i: int, j: int| 0 <= i < r.len() && 0 <= j < b.len() implies #[trigger] r[i]
            != #[trigger] b[j] by {
            assert(r[i] == a[i + 1]);
        }
    }
}

/// The rest `b` is appended to what has been put out.
proof fn lemma_append(l: Seq<list_head>, out: Seq<usize>, b: Seq<usize>)
    requires
        chain(l, b),
        b.len() > 0,
        out.len() > 0,
        out.no_duplicates(),
        out.last() < l.len(),
        out.last() != NIL,
        forall|i: int| 0 <= i < out.len() ==> #[trigger] out[i] != NIL,
        disjoint(out, b),
        forall|i: int| 0 <= i < out.len() - 1 ==> #[trigger] leads(l, out, i),
    ensures
        chain(with_next(l, out.last(), b[0]), out + b),
{
    let t = out.len() - 1;
    let l2 = with_next(l, out.last(), b[0]);
    let s = out + b;
    assert forall|i: int, j: int| 0 <= i < s.len() && 0 <= j < s.len() && i != j implies s[i] != s[j] by {
        if i < out.len() && j >= out.len() {
            assert(out[i] != b[j - out.len()]);
        } else if j < out.len() && i >= out.len() {
            assert(out[j] != b[i - out.len()]);
        }
    }
    assert forall|i: int| 0 <= i < s.len() implies #[trigger] chained(l2, s, i) by {
        if i < t {
            assert(leads(l, out, i));
            assert(out[i] != out[t]);
        } else if i > t {
            assert(chained(l, b, i - out.len()));
            assert(out[t] != b[i - out.len()]);
        }
    }
}

/// Merges two lists, neither of which is empty; the nodes of the list at `a` go first where the
/// comparison does not tell. Links backwards stay as they are.
fn merge<O: NodeOrder>(
    order: &O,
    links: &mut Vec<list_head>,
    a: usize,
    b: usize,
    Ghost(sa): Ghost<Seq<usize>>,
    Ghost(sb): Ghost<Seq<usize>>,
) -> (head: usize)
    requires
        merging(old(links)@, Seq::empty(), sa, sb),
        accepts_all(order, sa),
        accepts_all(order, sb),
        a == sa[0],
        b == sb[0],
    ensures
        chain(final(links)@, merged(order, sa, sb)),
        head == merged(order, sa, sb)[0],
        final(links)@.len() == old(links)@.len(),
        forall|k: int|
            0 <= k < old(links)@.len() ==> (#[trigger] final(links)@[k]).prev == old(links)@[k].prev,
        forall|k: usize|
            k < old(links)@.len() && !sa.contains(k) && !sb.contains(k) ==> (
            #[trigger] final(links)@[k as int]) == old(links)@[k as int],
{
    let ghost l0 = links@;
    let ghost goal = merged(order, sa, sb);
    let ghost mut out: Seq<usize> = Seq::empty();
    let ghost mut ra = sa;
    let ghost mut rb = sb;
    let mut head: usize = NIL;
    let mut tail: usize = NIL;
    let mut a: usize = a;
    let mut b: usize = b;
    assert(out + goal =~= goal);
    loop
        invariant_except_break
            merging(links@, out, ra, rb),
            a == ra[0],
            b == rb[0],
            tail == (if out.len() > 0 {
                out.last()
            } else {
                NIL
            }),
            head == (if out.len() > 0 {
                out[0]
            } else {
                NIL
            }),
            goal == out + merged(order, ra, rb),
            forall|i: int| 0 <= i < out.len() ==> sa.contains(#[trigger] out[i]) || sb.contains(out[i]),
            forall|i: int| 0 <= i < out.len() ==> #[trigger] out[i] != NIL,
            forall|i: int| 0 <= i < ra.len() ==> sa.contains(#[trigger] ra[i]),
            forall|i: int| 0 <= i < rb.len() ==> sb.contains(#[trigger] rb[i]),
        invariant
            accepts_all(order, sa),
            accepts_all(order, sb),
            l0 == old(links)@,
            links@.len() == l0.len(),
            forall|k: int| 0 <= k < l0.len() ==> (#[trigger] links@[k]).prev == l0[k].prev,
            forall|k: usize|
                k < l0.len() && !sa.contains(k) && !sb.contains(k) ==> (#[trigger] links@[k as int])
                    == l0[k as int],
        ensures
            chain(links@, goal),
            goal.len() > 0,
            head == goal[0],
        decreases ra.len() + rb.len(),
    {
        let ghost l = links@;
        proof {
            lemma_chain_rest(l, ra);
            lemma_chain_rest(l, rb);
            if out.len() > 0 {
                assert(sa.contains(out[out.len() - 1]) || sb.contains(out[out.len() - 1]));
            }
            assert(sa.contains(ra[0]));
            assert(sb.contains(rb[0]));
        }
        // If equal, take from `a`: this makes the sort stable.
        if order.compare(a, b) <= 0 {
            if tail == NIL {
                head = a;
            } else {
                set_next(links, tail, a);
            }
            tail = a;
            proof {
                lemma_take(l, links@, out, ra, rb);
                assert(merged(order, ra, rb) == seq![ra[0]] + merged(order, ra.skip(1), rb));
                assert(out + (seq![a] + merged(order, ra.skip(1), rb)) =~= out.push(a) + merged(
                    order,
                    ra.skip(1),
                    rb,
                ));
                assert(ra.len() > 1 ==> ra.skip(1)[0] == ra[1]);
            }
            let next = links[a].next;
            proof {
                out = out.push(a);
                ra = ra.skip(1);
                assert forall|i: int| 0 <= i < ra.len() implies sa.contains(#[trigger] ra[i]) by {}
            }
            a = next;
            if a == NIL {
                proof {
                    lemma_append(links@, out, rb);
                    assert(merged(order, ra, rb) =~= rb);
                }
                set_next(links, tail, b);
                break;
            }
        } else {
            if tail == NIL {
                head = b;
            } else {
                set_next(links, tail, b);
            }
            tail = b;
            proof {
                assert(merging(l, out, rb, ra));
                lemma_take(l, links@, out, rb, ra);
                assert(merged(order, ra, rb) == seq![rb[0]] + merged(order, ra, rb.skip(1)));
                assert(out + (seq![b] + merged(order, ra, rb.skip(1))) =~= out.push(b) + merged(
                    order,
                    ra,
                    rb.skip(1),
                ));
                assert(rb.len() > 1 ==> rb.skip(1)[0] == rb[1]);
            }
            let next = links[b].next;
            proof {
                out = out.push(b);
                rb = rb.skip(1);
            }
            b = next;
            if b == NIL {
                proof {
                    lemma_append(links@, out, ra);
                    assert(merged(order, ra, rb) =~= ra);
                }
                set_next(links, tail, a);
                break;
            }
        }
    }
    head
}

/// Whether entry `i` of `out` leads back to the one before.
spec fn backs(l: Seq<list_head>, out: Seq<usize>, i: int) -> bool {
    out[i] < l.len() && l[out[i] as int].prev == out[i - 1]
}

/// Whether the entries of `out` behind the first lead back.
spec fn backed(l: Seq<list_head>, out: Seq<usize>) -> bool {
    forall|i: int| 0 < i < out.len() ==> #[trigger] backs(l, out, i)
}

spec fn with_prev(l: Seq<list_head>, k: usize, v: usize) -> Seq<list_head> {
    l.update(k as int, list_head { next: l[k as int].next, prev: v })
}

/// Only links forwards matter to a merge.
proof fn lemma_merging_frame(l: Seq<list_head>, k: usize, v: usize, out: Seq<usize>, a: Seq<usize>, b: Seq<usize>)
    requires
        merging(l, out, a, b),
        k < l.len(),
    ensures
        merging(with_prev(l, k, v), out, a, b),
{
    let l2 = with_prev(l, k, v);
    assert forall|i: int| 0 <= i < a.len() implies l2[#[trigger] a[i] as int].next
        == l[a[i] as int].next by {
        assert(chained(l, a, i));
    }
    assert forall|i: int| 0 <= i < b.len() implies l2[#[trigger] b[i] as int].next
        == l[b[i] as int].next by {
        assert(chained(l, b, i));
    }
    lemma_chain_frame(l, l2, a);
    lemma_chain_frame(l, l2, b);
    assert forall|i: int| 0 <= i < out.len() - 1 implies #[trigger] leads(l2, out, i) by {
        assert(leads(l, out, i));
    }
}

/// A node is put behind the last entry of `out`, which leads back.
proof fn lemma_backed(l: Seq<list_head>, out: Seq<usize>, x: usize)
    requires
        backed(l, out),
        out.len() > 0,
        out.last() < l.len(),
        x < l.len(),
        forall|i: int| 0 <= i < out.len() ==> out[i] != x,
    ensures
        backed(with_prev(with_next(l, out.last(), x), x, out.last()), out.push(x)),
        backed(with_prev(l, x, out.last()), out.push(x)),
{
    let o2 = out.push(x);
    let l2 = with_prev(with_next(l, out.last(), x), x, out.last());
    let l3 = with_prev(l, x, out.last());
    assert forall|i: int| 0 < i < o2.len() implies #[trigger] backs(l2, o2, i) by {
        if i < out.len() {
            assert(backs(l, out, i));
        }
    }
    assert forall|i: int| 0 < i < o2.len() implies #[trigger] backs(l3, o2, i) by {
        if i < out.len() {
            assert(backs(l, out, i));
        }
    }
}

/// Merges two lists, neither of which is empty, behind `head`, and makes a circular doubly linked
/// list of them.
fn merge_final<O: NodeOrder>(
    order: &O,
    links: &mut Vec<list_head>,
    head: usize,
    a: usize,
    b: usize,
    Ghost(sa): Ghost<Seq<usize>>,
    Ghost(sb): Ghost<Seq<usize>>,
)
    requires
        merging(old(links)@, seq![head], sa, sb),
        accepts_all(order, sa),
        accepts_all(order, sb),
        a == sa[0],
        b == sb[0],
    ensures
        ring(final(links)@, seq![head] + merged(order, sa, sb)),
        final(links)@.len() == old(links)@.len(),
        forall|k: usize|
            k < old(links)@.len() && k != head && !sa.contains(k) && !sb.contains(k) ==> (
            #[trigger] final(links)@[k as int]) == old(links)@[k as int],
{
    let ghost l0 = links@;
    let ghost goal = seq![head] + merged(order, sa, sb);
    let ghost mut out: Seq<usize> = seq![head];
    let ghost mut ra = sa;
    let ghost mut rb = sb;
    let mut tail: usize = head;
    let mut a: usize = a;
    let mut b: usize = b;
    loop
        invariant_except_break
            merging(links@, out, ra, rb),
            a == ra[0],
            b == rb[0],
            goal == out + merged(order, ra, rb),
            forall|i: int| 0 <= i < ra.len() ==> sa.contains(#[trigger] ra[i]),
        invariant
            accepts_all(order, sa),
            accepts_all(order, sb),
            l0 == old(links)@,
            links@.len() == l0.len(),
            out.len() > 0,
            out[0] == head,
            tail == out.last(),
            forall|i: int|
                0 < i < out.len() ==> sa.contains(#[trigger] out[i]) || sb.contains(out[i]),
            forall|i: int| 0 <= i < rb.len() ==> sa.contains(#[trigger] rb[i]) || sb.contains(rb[i]),
            forall|k: usize|
                k < l0.len() && k != head && !sa.contains(k) && !sb.contains(k) ==> (
                #[trigger] links@[k as int]) == l0[k as int],
            backed(links@, out),
        ensures
            chain(links@, rb),
            rb.len() > 0,
            b == rb[0],
            goal == out + rb,
            out.no_duplicates(),
            disjoint(out, rb),
            out.last() < links@.len(),
            forall|i: int| 0 <= i < out.len() - 1 ==> #[trigger] leads(links@, out, i),
        decreases ra.len() + rb.len(),
    {
        let ghost l = links@;
        proof {
            lemma_chain_rest(l, ra);
            lemma_chain_rest(l, rb);
            assert(sa.contains(ra[0]));
            assert(sa.contains(rb[0]) || sb.contains(rb[0]));
            assert(out.len() > 1 ==> (sa.contains(out[out.len() - 1]) || sb.contains(
                out[out.len() - 1],
            )));
        }
        // If equal, take from `a`: this makes the sort stable.
        if order.compare(a, b) <= 0 {
            set_next(links, tail, a);
            proof {
                lemma_take(l, links@, out, ra, rb);
                assert forall|i: int| 0 <= i < out.len() implies out[i] != a by {
                    assert(out[i] != ra[0]);
                }
                lemma_backed(l, out, a);
                if ra.len() > 1 {
                    lemma_merging_frame(links@, a, tail, out.push(a), ra.skip(1), rb);
                } else {
                    lemma_prev_frame(links@, a, tail, out.push(a), rb);
                }
            }
            set_prev(links, a, tail);
            tail = a;
            proof {
                assert(merged(order, ra, rb) == seq![ra[0]] + merged(order, ra.skip(1), rb));
                assert(out + (seq![a] + merged(order, ra.skip(1), rb)) =~= out.push(a) + merged(
                    order,
                    ra.skip(1),
                    rb,
                ));
                assert(ra.len() > 1 ==> ra.skip(1)[0] == ra[1]);
            }
            let next = links[a].next;
            proof {
                out = out.push(a);
                ra = ra.skip(1);
                assert(ra.len() == 0 ==> merged(order, ra, rb) =~= rb);
            }
            a = next;
            if a == NIL {
                break;
            }
        } else {
            set_next(links, tail, b);
            proof {
                assert(merging(l, out, rb, ra));
                lemma_take(l, links@, out, rb, ra);
                assert forall|i: int| 0 <= i < out.len() implies out[i] != b by {
                    assert(out[i] != rb[0]);
                }
                lemma_backed(l, out, b);
                if rb.len() > 1 {
                    assert(merging(links@, out.push(b), ra, rb.skip(1)));
                    lemma_merging_frame(links@, b, tail, out.push(b), ra, rb.skip(1));
                } else {
                    lemma_prev_frame(links@, b, tail, out.push(b), ra);
                }
            }
            set_prev(links, b, tail);
            tail = b;
            proof {
                assert(merged(order, ra, rb) == seq![rb[0]] + merged(order, ra, rb.skip(1)));
                assert(out + (seq![b] + merged(order, ra, rb.skip(1))) =~= out.push(b) + merged(
                    order,
                    ra,
                    rb.skip(1),
                ));
                assert(rb.len() > 1 ==> rb.skip(1)[0] == rb[1]);
            }
            let next = links[b].next;
            proof {
                out = out.push(b);
                rb = rb.skip(1);
                assert(rb.len() == 0 ==> merged(order, ra, rb) =~= ra);
            }
            b = next;
            if b == NIL {
                b = a;
                proof {
                    rb = ra;
                }
                break;
            }
        }
    }
    // Finish linking the remainder on to the tail.
    proof {
        lemma_chain_rest(links@, rb);
        lemma_link_rest(links@, out, rb);
    }
    let ghost l = links@;
    set_next(links, tail, b);
    proof {
        assert(out.len() > 1 ==> (sa.contains(out[out.len() - 1]) || sb.contains(
            out[out.len() - 1],
        )));
        assert forall|i: int| 0 < i < out.len() implies #[trigger] backs(links@, out, i) by {
            assert(backs(l, out, i));
        }
    }
    loop
        invariant_except_break
            rb.len() > 0,
        invariant
            l0 == old(links)@,
            links@.len() == l0.len(),
            out.len() > 0,
            out[0] == head,
            tail == out.last(),
            b == (if rb.len() > 0 {
                rb[0]
            } else {
                NIL
            }),
            rb.len() > 0 ==> b != NIL,
            chain(links@, rb),
            goal == out + rb,
            goal.no_duplicates(),
            forall|i: int| 0 <= i < goal.len() - 1 ==> #[trigger] leads(links@, goal, i),
            forall|i: int|
                0 < i < goal.len() ==> sa.contains(#[trigger] goal[i]) || sb.contains(goal[i]),
            forall|i: int| 0 <= i < goal.len() ==> #[trigger] goal[i] < links@.len(),
            forall|k: usize|
                k < l0.len() && k != head && !sa.contains(k) && !sb.contains(k) ==> (
                #[trigger] links@[k as int]) == l0[k as int],
            backed(links@, out),
        ensures
            rb.len() == 0,
        decreases rb.len(),
    {
        let ghost l = links@;
        proof {
            lemma_chain_rest(l, rb);
            assert(goal[out.len() as int] == b);
            assert forall|i: int| 0 <= i < out.len() implies out[i] != b by {
                assert(goal[i] == out[i]);
            }
            assert(goal[out.len() - 1] == tail);
            lemma_backed(l, out, b);
        }
        set_prev(links, b, tail);
        tail = b;
        let next = links[b].next;
        proof {
            assert forall|i: int| 0 <= i < rb.skip(1).len() implies links@[#[trigger] rb.skip(1)[i] as int].next
                == l[rb.skip(1)[i] as int].next by {
                assert(chained(l, rb.skip(1), i));
            }
            lemma_chain_frame(l, links@, rb.skip(1));
            assert forall|i: int| 0 <= i < goal.len() - 1 implies #[trigger] leads(links@, goal, i) by {
                assert(leads(l, goal, i));
            }
            if rb.len() > 1 {
                assert(rb.skip(1)[0] == rb[1]);
            }
            assert(out + rb =~= out.push(b) + rb.skip(1));
            out = out.push(b);
            rb = rb.skip(1);
        }
        b = next;
        if b == NIL {
            break;
        }
    }
    // The final links make the list circular.
    let ghost l = links@;
    proof {
        assert(goal =~= out);
        assert(goal[0] == head);
        assert(goal[goal.len() - 1] == tail);
    }
    set_next(links, tail, head);
    set_prev(links, head, tail);
    proof {
        assert forall|i: int| 0 <= i < goal.len() implies #[trigger] linked(links@, goal, i) by {
            if i < goal.len() - 1 {
                assert(leads(l, goal, i));
            }
            if i > 0 {
                assert(backs(l, goal, i));
            }
        }
    }
}

/// Only links forwards matter to what has been put out and to the rest.
proof fn lemma_prev_frame(l: Seq<list_head>, k: usize, v: usize, out: Seq<usize>, b: Seq<usize>)
    requires
        chain(l, b),
        k < l.len(),
        forall|i: int| 0 <= i < out.len() - 1 ==> #[trigger] leads(l, out, i),
    ensures
        chain(with_prev(l, k, v), b),
        forall|i: int| 0 <= i < out.len() - 1 ==> #[trigger] leads(with_prev(l, k, v), out, i),
{
    let l2 = with_prev(l, k, v);
    assert forall|i: int| 0 <= i < b.len() implies l2[#[trigger] b[i] as int].next
        == l[b[i] as int].next by {
        assert(chained(l, b, i));
    }
    lemma_chain_frame(l, l2, b);
    assert forall|i: int| 0 <= i < out.len() - 1 implies #[trigger] leads(l2, out, i) by {
        assert(leads(l, out, i));
    }
}

/// The rest is linked on to what has been put out.
proof fn lemma_link_rest(l: Seq<list_head>, out: Seq<usize>, b: Seq<usize>)
    requires
        chain(l, b),
        b.len() > 0,
        out.len() > 0,
        out.no_duplicates(),
        out.last() < l.len(),
        disjoint(out, b),
        forall|i: int| 0 <= i < out.len() - 1 ==> #[trigger] leads(l, out, i),
    ensures
        ({
            let l2 = with_next(l, out.last(), b[0]);
            let s = out + b;
            &&& s.no_duplicates()
            &&& chain(l2, b)
            &&& forall|i: int| 0 <= i < s.len() - 1 ==> #[trigger] leads(l2, s, i)
            &&& forall|i: int| 0 <= i < s.len() ==> #[trigger] s[i] < l2.len()
        }),
{
    let t = out.len() - 1;
    let l2 = with_next(l, out.last(), b[0]);
    let s = out + b;
    assert forall|i: int, j: int| 0 <= i < s.len() && 0 <= j < s.len() && i != j implies s[i] != s[j] by {
        if i < out.len() && j >= out.len() {
            assert(out[i] != b[j - out.len()]);
        } else if j < out.len() && i >= out.len() {
            assert(out[j] != b[i - out.len()]);
        }
    }
    assert forall|i: int| 0 <= i < b.len() implies l2[#[trigger] b[i] as int].next
        == l[b[i] as int].next by {
        assert(chained(l, b, i));
        assert(out[t] != b[i]);
    }
    lemma_chain_frame(l, l2, b);
    assert forall|i: int| 0 <= i < s.len() - 1 implies #[trigger] leads(l2, s, i) by {
        if i < t {
            assert(leads(l, out, i));
            assert(out[i] != out[t]);
        } else if i > t {
            assert(chained(l2, b, i - out.len()));
        }
    }
    assert forall|i: int| 0 <= i < s.len() implies #[trigger] s[i] < l2.len() by {
        if i < t {
            assert(leads(l, out, i));
        } else if i > t {
            assert(chained(l, b, i - out.len()));
        }
    }
}

/// How many binary digits `c` has.
pub open spec fn digits(c: nat) -> nat
    decreases c,
{
    if c == 0 {
        0
    } else {
        1 + digits(c / 2)
    }
}

/// Binary digit `i` of `c`.
pub open spec fn digit(c: nat, i: nat) -> nat
    decreases i,
{
    if i == 0 {
        c % 2
    } else {
        digit(c / 2, (i - 1) as nat)
    }
}

/// How many ones `c` ends with in binary.
pub open spec fn ones(c: nat) -> nat
    decreases c,
{
    if c % 2 == 1 {
        1 + ones(c / 2)
    } else {
        0
    }
}

/// `c` without the ones that it ends with in binary.
pub open spec fn stripped(c: nat) -> nat
    decreases c,
{
    if c % 2 == 1 {
        stripped(c / 2)
    } else {
        c
    }
}

/// 2 to the power of `i`.
pub open spec fn power(i: nat) -> nat
    decreases i,
{
    if i == 0 {
        1
    } else {
        2 * power((i - 1) as nat)
    }
}

/// The length of pending sublist `i`, the newest of which is 0, once `c` nodes have come in.
pub open spec fn sublist_len(c: nat, i: nat) -> nat {
    if i == 0 {
        1
    } else {
        power((i - 1) as nat) * (1 + digit(c, (i - 1) as nat))
    }
}

/// What the next node does to the digits of the count.
proof fn lemma_next_count(c: nat)
    ensures
        stripped(c) == 0 ==> digits(c + 1) == digits(c) + 1 && digits(c) == ones(c),
        stripped(c) != 0 ==> digits(c + 1) == digits(c) && digits(c) >= ones(c) + 2,
        stripped(c) % 2 == 0,
        digits(c) == ones(c) + digits(stripped(c)),
    decreases c,
{
    if c % 2 == 1 {
        lemma_next_count(c / 2);
        assert((c + 1) / 2 == c / 2 + 1);
    } else if c > 0 {
        assert((c + 1) / 2 == c / 2);
        assert(c / 2 > 0);
        assert(digits(c / 2) == 1 + digits(c / 2 / 2));
    } else {
        assert(digits(1) == 1 + digits(0));
    }
}

proof fn lemma_next_digit(c: nat, i: nat)
    ensures
        digit(c + 1, i) == (if i < ones(c) {
            0
        } else if i == ones(c) {
            1
        } else {
            digit(c, i)
        }),
        i < ones(c) ==> digit(c, i) == 1,
        i == ones(c) ==> digit(c, i) == 0,
        digit(c, i) <= 1,
    decreases i,
{
    if c % 2 == 1 {
        assert((c + 1) / 2 == c / 2 + 1);
        if i > 0 {
            lemma_next_digit(c / 2, (i - 1) as nat);
        }
    } else {
        assert((c + 1) / 2 == c / 2);
        if i > 0 {
            lemma_next_digit(c / 2, (i - 1) as nat);
        }
    }
}

/// Merging the two sublists that the count selects, and adding a sublist of one node, leaves sublists
/// of the lengths that the next count asks for.
proof fn lemma_next_lens(c: nat, i: nat)
    ensures
        sublist_len(c + 1, 0) == 1,
        1 <= i <= ones(c) ==> sublist_len(c + 1, i) == sublist_len(c, (i - 1) as nat),
        i == ones(c) + 1 ==> sublist_len(c + 1, i) == 2 * sublist_len(c, ones(c)),
        sublist_len(c, ones(c)) == sublist_len(c, ones(c) + 1),
        i > ones(c) + 1 ==> sublist_len(c + 1, i) == sublist_len(c, i),
        sublist_len(c, i) > 0,
{
    let k = ones(c);
    lemma_power(i);
    if i > 0 {
        lemma_next_digit(c, (i - 1) as nat);
        lemma_power((i - 1) as nat);
    }
    lemma_next_digit(c, k);
    if i > 1 {
        lemma_next_digit(c, (i - 2) as nat);
        assert(power((i - 2) as nat) * (1 + 1) == power((i - 1) as nat)) by (nonlinear_arith)
            requires
                power((i - 1) as nat) == 2 * power((i - 2) as nat),
        ;
    }
    assert(power(k) * (1 + 0) == power(k)) by (nonlinear_arith);
    if k > 0 {
        lemma_next_digit(c, (k - 1) as nat);
        assert(power((k - 1) as nat) * (1 + 1) == power(k)) by (nonlinear_arith)
            requires
                power(k) == 2 * power((k - 1) as nat),
        ;
    }
    assert(power(k) * (1 + 1) == 2 * power(k)) by (nonlinear_arith);
    if i > 0 {
        let d = digit(c, (i - 1) as nat);
        assert(power((i - 1) as nat) * (1 + d) > 0) by (nonlinear_arith)
            requires
                power((i - 1) as nat) > 0,
                d >= 0,
        ;
        assert(power((i - 1) as nat) * (1 + 0) == power((i - 1) as nat)) by (nonlinear_arith);
    }
}

proof fn lemma_power(i: nat)
    ensures
        power(i) > 0,
    decreases i,
{
    if i > 0 {
        lemma_power((i - 1) as nat);
    }
}

/// The length of the `i` newest pending sublists together, once `c` nodes have come in.
pub open spec fn newest_len(c: nat, i: nat) -> nat
    decreases i,
{
    if i == 0 {
        0
    } else {
        newest_len(c, (i - 1) as nat) + sublist_len(c, (i - 1) as nat)
    }
}

/// The merges are balanced. The two sublists that are merged while nodes come in have the same
/// length. Where sublists are merged after the last node has come in, neither side is longer than
/// twice the other.
pub proof fn law_merges_are_balanced(c: nat, i: nat)
    ensures
        sublist_len(c, ones(c)) == sublist_len(c, ones(c) + 1),
        i > 0 ==> sublist_len(c, i) <= 2 * newest_len(c, i) && newest_len(c, i) <= 2 * sublist_len(
            c,
            i,
        ),
{
    lemma_next_lens(c, 0);
    if i > 0 {
        lemma_newest_len(c, i);
        lemma_next_digit(c, (i - 1) as nat);
        let d = digit(c, (i - 1) as nat);
        let p = power((i - 1) as nat);
        assert(p <= p * (1 + d) <= 2 * p) by (nonlinear_arith)
            requires
                0 <= d <= 1,
                p >= 0,
        ;
        assert(power(i) == 2 * p);
    }
}

proof fn lemma_newest_len(c: nat, i: nat)
    requires
        i > 0,
    ensures
        power((i - 1) as nat) <= newest_len(c, i) < power(i),
    decreases i,
{
    if i == 1 {
        assert(newest_len(c, 0) == 0);
        assert(power(0) == 1);
        assert(power(1) == 2 * power(0));
    } else {
        lemma_newest_len(c, (i - 1) as nat);
        lemma_next_digit(c, (i - 2) as nat);
        let d = digit(c, (i - 2) as nat);
        let p = power((i - 2) as nat);
        assert(p <= p * (1 + d) <= 2 * p) by (nonlinear_arith)
            requires
                0 <= d <= 1,
                p >= 0,
        ;
        assert(power((i - 1) as nat) == 2 * p);
        assert(power(i) == 2 * power((i - 1) as nat));
    }
}

/// The nodes of the circular list at `head`.
pub open spec fn nodes_of(l: Seq<list_head>, head: usize) -> Seq<usize> {
    choose|s: Seq<usize>| ring(l, seq![head] + s)
}

/// Whether there is a circular list at `head`.
pub open spec fn is_list(l: Seq<list_head>, head: usize) -> bool {
    exists|s: Seq<usize>| ring(l, seq![head] + s)
}

/// The first node of the pending sublist behind sublist `i`.
spec fn next_sublist(pend: Seq<Seq<usize>>, i: int) -> usize {
    if 0 <= i < pend.len() {
        pend[i][0]
    } else {
        NIL
    }
}

/// Whether pending sublist `i` is a sorted list of the nodes of `base` from `cut[i + 1]` up to
/// `cut[i]`.
spec fn sublist<O: NodeOrder>(
    l: Seq<list_head>,
    o: &O,
    base: Seq<usize>,
    pend: Seq<Seq<usize>>,
    cut: Seq<int>,
    i: int,
) -> bool {
    &&& 0 <= cut[i + 1] < cut[i] <= base.len()
    &&& pend[i].len() == cut[i] - cut[i + 1]
    &&& chain(l, pend[i])
    &&& pend[i].to_multiset() == base.subrange(cut[i + 1], cut[i]).to_multiset()
    &&& lawful_on(o, base) ==> stable_sorted(o, base, pend[i])
    &&& l[pend[i][0] as int].prev == next_sublist(pend, i + 1)
}

/// The state of the sort: the first `c` nodes of `base` are in the pending sublists.
spec fn sorting<O: NodeOrder>(
    l: Seq<list_head>,
    o: &O,
    base: Seq<usize>,
    pend: Seq<Seq<usize>>,
    cut: Seq<int>,
    c: int,
) -> bool {
    &&& 0 <= c <= base.len()
    &&& base.no_duplicates()
    &&& cut.len() == pend.len() + 1
    &&& cut[0] == c
    &&& cut[pend.len() as int] == 0
    &&& forall|i: int| 0 <= i < pend.len() ==> #[trigger] sublist(l, o, base, pend, cut, i)
}

/// A member of a list that has the nodes of `base` from `lo` up to `hi`.
proof fn lemma_member(base: Seq<usize>, t: Seq<usize>, lo: int, hi: int, x: usize)
    requires
        base.no_duplicates(),
        0 <= lo <= hi <= base.len(),
        t.to_multiset() == base.subrange(lo, hi).to_multiset(),
        t.contains(x),
    ensures
        lo <= base.index_of(x) < hi,
        base[base.index_of(x)] == x,
{
    let b = base.subrange(lo, hi);
    t.to_multiset_ensures();
    b.to_multiset_ensures();
    assert(t.to_multiset().count(x) > 0);
    assert(b.contains(x));
    let p = choose|p: int| 0 <= p < b.len() && b[p] == x;
    assert(base[lo + p] == x);
    assert(base.contains(x));
}

/// The nodes of a list that has nodes of `base` can be compared as those of `base` can.
proof fn lemma_accepts<O: NodeOrder>(o: &O, base: Seq<usize>, t: Seq<usize>, lo: int, hi: int)
    requires
        base.no_duplicates(),
        0 <= lo <= hi <= base.len(),
        t.to_multiset() == base.subrange(lo, hi).to_multiset(),
        accepts_all(o, base),
    ensures
        accepts_all(o, t),
{
    assert forall|i: int| 0 <= i < t.len() implies o.accepts(#[trigger] t[i]) by {
        assert(t.contains(t[i]));
        lemma_member(base, t, lo, hi, t[i]);
        assert(o.accepts(base[base.index_of(t[i])]));
    }
}

proof fn lemma_ranges_disjoint(base: Seq<usize>, s: Seq<usize>, a: int, b: int, t: Seq<usize>, c: int, d: int)
    requires
        base.no_duplicates(),
        0 <= a <= b <= base.len(),
        0 <= c <= d <= base.len(),
        b <= c || d <= a,
        s.to_multiset() == base.subrange(a, b).to_multiset(),
        t.to_multiset() == base.subrange(c, d).to_multiset(),
    ensures
        disjoint(s, t),
{
    assert forall|i: int, j: int| 0 <= i < s.len() && 0 <= j < t.len() implies #[trigger] s[i]
        != #[trigger] t[j] by {
        assert(s.contains(s[i]));
        assert(t.contains(t[j]));
        lemma_member(base, s, a, b, s[i]);
        lemma_member(base, t, c, d, t[j]);
    }
}

/// The cuts descend.
proof fn lemma_cuts<O: NodeOrder>(
    l: Seq<list_head>,
    o: &O,
    base: Seq<usize>,
    pend: Seq<Seq<usize>>,
    cut: Seq<int>,
    c: int,
    i: int,
    j: int,
)
    requires
        sorting(l, o, base, pend, cut, c),
        0 <= i <= j <= pend.len(),
    ensures
        0 <= cut[j] <= cut[i] <= c,
        i < j ==> cut[j] < cut[i],
    decreases j - i + i,
{
    if i < j {
        lemma_cuts(l, o, base, pend, cut, c, i, j - 1);
        assert(sublist(l, o, base, pend, cut, j - 1));
    } else if i > 0 {
        lemma_cuts(l, o, base, pend, cut, c, i - 1, i - 1);
        assert(sublist(l, o, base, pend, cut, i - 1));
    }
}

/// The merge of a list of the nodes from `lo` up to `mid` with one of the nodes from `mid` up to
/// `hi`.
proof fn lemma_merge_two<O: NodeOrder>(
    l: Seq<list_head>,
    o: &O,
    base: Seq<usize>,
    older: Seq<usize>,
    newer: Seq<usize>,
    lo: int,
    mid: int,
    hi: int,
)
    requires
        base.no_duplicates(),
        0 <= lo < mid < hi <= base.len(),
        chain(l, older),
        chain(l, newer),
        older.len() == mid - lo,
        newer.len() == hi - mid,
        older.to_multiset() == base.subrange(lo, mid).to_multiset(),
        newer.to_multiset() == base.subrange(mid, hi).to_multiset(),
        lawful_on(o, base) ==> stable_sorted(o, base, older) && stable_sorted(o, base, newer),
    ensures
        ({
            let m = merged(o, older, newer);
            &&& merging(l, Seq::empty(), older, newer)
            &&& m.len() == hi - lo
            &&& m.to_multiset() == base.subrange(lo, hi).to_multiset()
            &&& lawful_on(o, base) ==> stable_sorted(o, base, m)
        }),
{
    let m = merged(o, older, newer);
    lemma_ranges_disjoint(base, older, lo, mid, newer, mid, hi);
    lemma_merged(o, older, newer);
    assert(base.subrange(lo, hi) =~= base.subrange(lo, mid) + base.subrange(mid, hi));
    vstd::seq_lib::lemma_multiset_commutative(base.subrange(lo, mid), base.subrange(mid, hi));
    if lawful_on(o, base) {
        assert forall|i: int| 0 <= i < older.len() implies base.contains(#[trigger] older[i]) by {
            assert(older.contains(older[i]));
            lemma_member(base, older, lo, mid, older[i]);
        }
        assert forall|j: int| 0 <= j < newer.len() implies base.contains(#[trigger] newer[j]) by {
            assert(newer.contains(newer[j]));
            lemma_member(base, newer, mid, hi, newer[j]);
        }
        assert forall|i: int, j: int|
            0 <= i < older.len() && 0 <= j < newer.len() implies base.index_of(#[trigger] older[i])
            < base.index_of(#[trigger] newer[j]) by {
            assert(older.contains(older[i]));
            assert(newer.contains(newer[j]));
            lemma_member(base, older, lo, mid, older[i]);
            lemma_member(base, newer, mid, hi, newer[j]);
        }
        lemma_merged_sorted(o, base, older, newer);
    }
}

/// The pending sublists after `k` and `k + 1` have become `m`.
spec fn pend_after(pend: Seq<Seq<usize>>, k: int, m: Seq<usize>) -> Seq<Seq<usize>> {
    pend.update(k, m).remove(k + 1)
}

/// Whether only links of the first `c` nodes of `base` differ.
spec fn untouched(l: Seq<list_head>, l2: Seq<list_head>, base: Seq<usize>, c: int) -> bool {
    &&& l2.len() == l.len()
    &&& forall|x: usize|
        x < l.len() && !#[trigger] base.take(c).contains(x) ==> l2[x as int] == l[x as int]
}

proof fn lemma_merge_pending<O: NodeOrder>(
    l: Seq<list_head>,
    l2: Seq<list_head>,
    o: &O,
    base: Seq<usize>,
    pend: Seq<Seq<usize>>,
    cut: Seq<int>,
    c: int,
    k: int,
)
    requires
        sorting(l, o, base, pend, cut, c),
        0 <= k,
        k + 1 < pend.len(),
        l2.len() == l.len(),
        ({
            let m = merged(o, pend[k + 1], pend[k]);
            &&& chain(l2, m)
            &&& l2[m[0] as int].prev == next_sublist(pend, k + 2)
            &&& k > 0 ==> l2[pend[k - 1][0] as int].prev == m[0]
            &&& forall|x: usize|
                x < l.len() && !pend[k].contains(x) && !pend[k + 1].contains(x) ==> (
                #[trigger] l2[x as int]).next == l[x as int].next && (k > 0 && x == pend[k - 1][0]
                    || l2[x as int].prev == l[x as int].prev)
        }),
    ensures
        ({
            let m = merged(o, pend[k + 1], pend[k]);
            &&& sorting(l2, o, base, pend_after(pend, k, m), cut.remove(k + 1), c)
            &&& untouched(l, l2, base, c)
        }),
{
    let m = merged(o, pend[k + 1], pend[k]);
    let pend2 = pend_after(pend, k, m);
    let cut2 = cut.remove(k + 1);
    assert(sublist(l, o, base, pend, cut, k));
    assert(sublist(l, o, base, pend, cut, k + 1));
    lemma_merge_two(l, o, base, pend[k + 1], pend[k], cut[k + 2], cut[k + 1], cut[k]);
    assert forall|i: int| 0 <= i < pend2.len() implies #[trigger] sublist(l2, o, base, pend2, cut2, i) by {
        if i != k {
            let j = if i < k {
                i
            } else {
                i + 1
            };
            assert(pend2[i] == pend[j]);
            assert(sublist(l, o, base, pend, cut, j));
            if j < k {
                lemma_cuts(l, o, base, pend, cut, c, j + 1, k);
            } else {
                lemma_cuts(l, o, base, pend, cut, c, k + 2, j);
            }
            lemma_ranges_disjoint(base, pend[j], cut[j + 1], cut[j], pend[k], cut[k + 1], cut[k]);
            lemma_ranges_disjoint(
                base,
                pend[j],
                cut[j + 1],
                cut[j],
                pend[k + 1],
                cut[k + 2],
                cut[k + 1],
            );
            assert forall|q: int| 0 <= q < pend[j].len() implies l2[#[trigger] pend[j][q] as int].next
                == l[pend[j][q] as int].next by {
                assert(chained(l, pend[j], q));
                assert(!pend[k].contains(pend[j][q]));
                assert(!pend[k + 1].contains(pend[j][q]));
            }
            lemma_chain_frame(l, l2, pend[j]);
            assert(chained(l, pend[j], 0));
            assert(!pend[k].contains(pend[j][0]));
            assert(!pend[k + 1].contains(pend[j][0]));
            if k > 0 && j != k - 1 {
                assert(sublist(l, o, base, pend, cut, k - 1));
                if j < k - 1 {
                    lemma_cuts(l, o, base, pend, cut, c, j + 1, k - 1);
                } else {
                    lemma_cuts(l, o, base, pend, cut, c, k, j);
                }
                lemma_ranges_disjoint(
                    base,
                    pend[j],
                    cut[j + 1],
                    cut[j],
                    pend[k - 1],
                    cut[k],
                    cut[k - 1],
                );
                assert(pend[j][0] != pend[k - 1][0]);
            }
            assert(pend2.len() == pend.len() - 1);
            if i + 1 < pend2.len() {
                assert(pend2[i + 1] == (if i + 1 < k {
                    pend[i + 1]
                } else if i + 1 == k {
                    m
                } else {
                    pend[i + 2]
                }));
            }
        } else {
            assert(pend2[k] == m);
            if k + 1 < pend2.len() {
                assert(pend2[k + 1] == pend[k + 2]);
            }
        }
    }
    assert(cut2[0] == c);
    assert(cut2[pend2.len() as int] == cut[pend.len() as int]);
    assert forall|x: usize| x < l.len() && !#[trigger] base.take(c).contains(x) implies l2[x as int]
        == l[x as int] by {
        lemma_cuts(l, o, base, pend, cut, c, 0, k);
        lemma_outside(l, o, base, pend, cut, c, k, x);
        lemma_outside(l, o, base, pend, cut, c, k + 1, x);
        if k > 0 {
            lemma_outside(l, o, base, pend, cut, c, k - 1, x);
            assert(sublist(l, o, base, pend, cut, k - 1));
            assert(pend[k - 1].contains(pend[k - 1][0]));
        }
        assert(l2[x as int].next == l[x as int].next);
    }
}

/// A node that has not come in is on no pending sublist.
proof fn lemma_outside<O: NodeOrder>(
    l: Seq<list_head>,
    o: &O,
    base: Seq<usize>,
    pend: Seq<Seq<usize>>,
    cut: Seq<int>,
    c: int,
    i: int,
    x: usize,
)
    requires
        sorting(l, o, base, pend, cut, c),
        0 <= i < pend.len(),
        !base.take(c).contains(x),
    ensures
        !pend[i].contains(x),
{
    if pend[i].contains(x) {
        assert(sublist(l, o, base, pend, cut, i));
        lemma_member(base, pend[i], cut[i + 1], cut[i], x);
        lemma_cuts(l, o, base, pend, cut, c, i, i);
        assert(base.take(c)[base.index_of(x)] == x);
    }
}

/// Merges pending sublist `k`, which begins at `cur`, with the one behind it, and puts the result in
/// their place. `above` is the first node of the sublist before, if there is one.
fn merge_pending<O: NodeOrder>(
    order: &O,
    links: &mut Vec<list_head>,
    pending: &mut usize,
    above: usize,
    cur: usize,
    Ghost(base): Ghost<Seq<usize>>,
    Ghost(pend): Ghost<Seq<Seq<usize>>>,
    Ghost(cut): Ghost<Seq<int>>,
    Ghost(c): Ghost<int>,
    Ghost(k): Ghost<int>,
)
    requires
        sorting(old(links)@, order, base, pend, cut, c),
        accepts_all(order, base),
        0 <= k,
        k + 1 < pend.len(),
        above == next_sublist(pend, k - 1),
        cur == pend[k][0],
        *old(pending) == pend[0][0],
    ensures
        ({
            let m = merged(order, pend[k + 1], pend[k]);
            let pend2 = pend_after(pend, k, m);
            &&& sorting(final(links)@, order, base, pend2, cut.remove(k + 1), c)
            &&& untouched(old(links)@, final(links)@, base, c)
            &&& *final(pending) == pend2[0][0]
            &&& m.len() == pend[k].len() + pend[k + 1].len()
        }),
{
    let ghost l = links@;
    let ghost m = merged(order, pend[k + 1], pend[k]);
    proof {
        assert(sublist(l, order, base, pend, cut, k));
        assert(sublist(l, order, base, pend, cut, k + 1));
        lemma_chain_rest(l, pend[k]);
        lemma_chain_rest(l, pend[k + 1]);
        lemma_merge_two(l, order, base, pend[k + 1], pend[k], cut[k + 2], cut[k + 1], cut[k]);
        lemma_accepts(order, base, pend[k + 1], cut[k + 2], cut[k + 1]);
        lemma_accepts(order, base, pend[k], cut[k + 1], cut[k]);
        if k > 0 {
            assert(sublist(l, order, base, pend, cut, k - 1));
            lemma_chain_rest(l, pend[k - 1]);
            lemma_ranges_disjoint(
                base,
                pend[k - 1],
                cut[k],
                cut[k - 1],
                pend[k],
                cut[k + 1],
                cut[k],
            );
            lemma_ranges_disjoint(
                base,
                pend[k - 1],
                cut[k],
                cut[k - 1],
                pend[k + 1],
                cut[k + 2],
                cut[k + 1],
            );
        }
    }
    let b = links[cur].prev;
    let below = links[b].prev;
    let a = merge(order, links, b, cur, Ghost(pend[k + 1]), Ghost(pend[k]));
    let ghost l1 = links@;
    proof {
        assert(chained(l1, m, 0));
        assert(m.contains(m[0]));
        lemma_merged_contains(order, pend[k + 1], pend[k], m[0]);
        if k > 0 {
            assert(pend[k - 1][0] != m[0]) by {
                if pend[k].contains(m[0]) {
                    let q = pend[k].index_of(m[0]);
                    assert(pend[k - 1][0] != pend[k][q]);
                } else {
                    let q = pend[k + 1].index_of(m[0]);
                    assert(pend[k - 1][0] != pend[k + 1][q]);
                }
            }
        }
    }
    set_prev(links, a, below);
    if above == NIL {
        *pending = a;
    } else {
        set_prev(links, above, a);
    }
    proof {
        assert forall|i: int| 0 <= i < m.len() implies links@[#[trigger] m[i] as int].next
            == l1[m[i] as int].next by {
            assert(chained(l1, m, i));
        }
        lemma_chain_frame(l1, links@, m);
        assert forall|x: usize| x < l.len() && !pend[k].contains(x) && !pend[k + 1].contains(x) implies (
        #[trigger] links@[x as int]).next == l[x as int].next && (k > 0 && x == pend[k - 1][0]
            || links@[x as int].prev == l[x as int].prev) by {
            assert(l1[x as int] == l[x as int]);
            assert(x != m[0]);
        }
        lemma_merge_pending(l, links@, order, base, pend, cut, c, k);
        let pend2 = pend_after(pend, k, m);
        assert(pend2[0] == (if k == 0 {
            m
        } else {
            pend[0]
        }));
    }
}

/// Whether the pending sublists have the lengths that the count asks for.
spec fn sized(pend: Seq<Seq<usize>>, c: nat) -> bool {
    &&& pend.len() == digits(c)
    &&& forall|i: int| 0 <= i < pend.len() ==> (#[trigger] pend[i]).len() == sublist_len(c, i as nat)
}

/// A node comes in as a sublist of its own.
proof fn lemma_push_pending<O: NodeOrder>(
    l: Seq<list_head>,
    o: &O,
    base: Seq<usize>,
    pend: Seq<Seq<usize>>,
    cut: Seq<int>,
    c: int,
)
    requires
        sorting(l, o, base, pend, cut, c),
        c < base.len(),
        chain(l, base.skip(c)),
    ensures
        ({
            let x = base[c];
            let l2 = l.update(x as int, list_head { next: NIL, prev: next_sublist(pend, 0) });
            let pend2 = pend.insert(0, seq![x]);
            &&& sorting(l2, o, base, pend2, cut.insert(0, c + 1), c + 1)
            &&& chain(l2, base.skip(c + 1))
            &&& untouched(l, l2, base, c + 1)
            &&& x < l.len()
            &&& x != NIL
        }),
{
    let x = base[c];
    let l2 = l.update(x as int, list_head { next: NIL, prev: next_sublist(pend, 0) });
    let pend2 = pend.insert(0, seq![x]);
    let cut2 = cut.insert(0, c + 1);
    assert(chained(l, base.skip(c), 0));
    assert(base.skip(c)[0] == x);
    assert(!base.take(c).contains(x)) by {
        if base.take(c).contains(x) {
            let q = base.take(c).index_of(x);
            assert(base[q] == x);
        }
    }
    assert forall|i: int| 0 <= i < pend2.len() implies #[trigger] sublist(l2, o, base, pend2, cut2, i) by {
        if i == 0 {
            assert(base.subrange(c, c + 1) =~= seq![x]);
            assert(chain(l2, pend2[0])) by {
                assert(chained(l2, pend2[0], 0));
            }
            assert(pend.len() > 0 ==> pend2[1] == pend[0]);
        } else {
            assert(sublist(l, o, base, pend, cut, i - 1));
            lemma_outside(l, o, base, pend, cut, c, i - 1, x);
            assert(pend2[i] == pend[i - 1]);
            assert forall|q: int| 0 <= q < pend[i - 1].len() implies l2[#[trigger] pend[i
                - 1][q] as int].next == l[pend[i - 1][q] as int].next by {
                assert(chained(l, pend[i - 1], q));
                assert(pend[i - 1].contains(pend[i - 1][q]));
            }
            lemma_chain_frame(l, l2, pend[i - 1]);
            assert(chained(l, pend[i - 1], 0));
            assert(pend[i - 1].contains(pend[i - 1][0]));
            assert(i < pend.len() ==> pend2[i + 1] == pend[i]);
        }
    }
    let r = base.skip(c);
    lemma_chain_rest(l, r);
    assert(r.skip(1) =~= base.skip(c + 1));
    assert forall|q: int| 0 <= q < r.skip(1).len() implies l2[#[trigger] r.skip(1)[q] as int].next
        == l[r.skip(1)[q] as int].next by {
        assert(chained(l, r.skip(1), q));
        assert(r.skip(1)[q] == base[c + 1 + q]);
    }
    lemma_chain_frame(l, l2, r.skip(1));
    assert(base.take(c + 1)[c] == x);
}

proof fn lemma_sized_push(pend: Seq<Seq<usize>>, c: nat, x: usize)
    requires
        sized(pend, c),
        stripped(c) == 0,
    ensures
        sized(pend.insert(0, seq![x]), c + 1),
{
    lemma_next_count(c);
    let p2 = pend.insert(0, seq![x]);
    assert forall|i: int| 0 <= i < p2.len() implies (#[trigger] p2[i]).len() == sublist_len(
        c + 1,
        i as nat,
    ) by {
        lemma_next_lens(c, i as nat);
        if i > 0 {
            assert(p2[i] == pend[i - 1]);
        }
    }
}

proof fn lemma_sized_merge(pend: Seq<Seq<usize>>, c: nat, m: Seq<usize>, x: usize)
    requires
        sized(pend, c),
        stripped(c) != 0,
        m.len() == pend[ones(c) as int].len() + pend[ones(c) as int + 1].len(),
    ensures
        sized(pend_after(pend, ones(c) as int, m).insert(0, seq![x]), c + 1),
{
    lemma_next_count(c);
    let k = ones(c) as int;
    let p1 = pend_after(pend, k, m);
    let p2 = p1.insert(0, seq![x]);
    assert forall|i: int| 0 <= i < p2.len() implies (#[trigger] p2[i]).len() == sublist_len(
        c + 1,
        i as nat,
    ) by {
        lemma_next_lens(c, i as nat);
        if i > 0 {
            assert(p2[i] == p1[i - 1]);
            if i - 1 < k {
                assert(p1[i - 1] == pend[i - 1]);
            } else if i - 1 == k {
                assert(p1[i - 1] == m);
                assert(pend[k].len() == sublist_len(c, k as nat));
                assert(pend[k + 1].len() == sublist_len(c, (k + 1) as nat));
            } else {
                assert(p1[i - 1] == pend[i]);
            }
        }
    }
}

/// A circular list has one sequence of nodes.
pub proof fn lemma_nodes_unique(l: Seq<list_head>, s: Seq<usize>, t: Seq<usize>)
    requires
        ring(l, s),
        ring(l, t),
        s[0] == t[0],
    ensures
        s == t,
{
    lemma_nodes_prefix(l, s, t, s.len() as int);
    lemma_nodes_prefix(l, t, s, t.len() as int);
    assert(s =~= t);
}

proof fn lemma_nodes_prefix(l: Seq<list_head>, s: Seq<usize>, t: Seq<usize>, n: int)
    requires
        ring(l, s),
        ring(l, t),
        s[0] == t[0],
        1 <= n <= s.len(),
    ensures
        n <= t.len(),
        forall|i: int| 0 <= i < n ==> s[i] == t[i],
    decreases n,
{
    if n > 1 {
        lemma_nodes_prefix(l, s, t, n - 1);
        assert(linked(l, s, n - 2));
        assert(linked(l, t, n - 2));
        assert(s[n - 1] != s[0]);
    }
}

/// Fetches the nodes of the input one by one into pending sublists, merging those that the count
/// selects.
fn collect<O: NodeOrder>(
    order: &O,
    links: &mut Vec<list_head>,
    first: usize,
    Ghost(base): Ghost<Seq<usize>>,
) -> (r: (usize, Ghost<Seq<Seq<usize>>>, Ghost<Seq<int>>))
    requires
        base.len() > 0,
        base.len() <= usize::MAX,
        base.no_duplicates(),
        chain(old(links)@, base),
        accepts_all(order, base),
        first == base[0],
    ensures
        sorting(final(links)@, order, base, r.1@, r.2@, base.len() as int),
        sized(r.1@, base.len()),
        r.0 == next_sublist(r.1@, 0),
        untouched(old(links)@, final(links)@, base, base.len() as int),
{
    let ghost l0 = links@;
    let mut list: usize = first;
    let mut pending: usize = NIL;
    let mut count: usize = 0;
    let ghost mut pend: Seq<Seq<usize>> = Seq::empty();
    let ghost mut cut: Seq<int> = seq![0];
    proof {
        assert(base.skip(0) =~= base);
        assert(digits(0) == 0);
        assert(chained(l0, base, 0));
    }
    loop
        invariant_except_break
            list != NIL,
            count < base.len(),
            list == base[count as int],
        invariant
            l0 == old(links)@,
            base.len() <= usize::MAX,
            count <= base.len(),
            sorting(links@, order, base, pend, cut, count as int),
            sized(pend, count as nat),
            pending == next_sublist(pend, 0),
            chain(links@, base.skip(count as int)),
            untouched(l0, links@, base, count as int),
            base.no_duplicates(),
            accepts_all(order, base),
        ensures
            count == base.len(),
        decreases base.len() - count,
    {
        let ghost c = count as int;
        let mut bits: usize = count;
        let mut above: usize = NIL;
        let mut cur: usize = pending;
        let ghost mut k: int = 0;
        proof {
            lemma_next_count(count as nat);
        }
        // Find the least significant clear bit of the count.
        while bits & 1 != 0
            invariant
                sorting(links@, order, base, pend, cut, c),
                pend.len() == digits(c as nat),
                0 <= k <= pend.len(),
                k + digits(bits as nat) == digits(c as nat),
                k + ones(bits as nat) == ones(c as nat),
                stripped(bits as nat) == stripped(c as nat),
                cur == next_sublist(pend, k),
                above == next_sublist(pend, k - 1),
            decreases bits,
        {
            assert(bits & 1 != 0 ==> bits % 2 == 1) by (bit_vector);
            assert(bits >> 1 == bits / 2) by (bit_vector);
            proof {
                assert(k < pend.len());
                assert(sublist(links@, order, base, pend, cut, k));
                lemma_chain_rest(links@, pend[k]);
            }
            above = cur;
            cur = links[cur].prev;
            bits = bits >> 1;
            proof {
                k = k + 1;
            }
        }
        assert(bits & 1 == 0 ==> bits % 2 == 0) by (bit_vector);
        let ghost l1 = links@;
        let ghost x = base[c];
        // Do the indicated merge.
        if bits != 0 {
            merge_pending(
                order,
                links,
                &mut pending,
                above,
                cur,
                Ghost(base),
                Ghost(pend),
                Ghost(cut),
                Ghost(c),
                Ghost(k),
            );
            proof {
                let m = merged(order, pend[k + 1], pend[k]);
                lemma_sized_merge(pend, c as nat, m, x);
                pend = pend_after(pend, k, m);
                cut = cut.remove(k + 1);
                let r = base.skip(c);
                assert forall|q: int| 0 <= q < r.len() implies links@[#[trigger] r[q] as int].next
                    == l1[r[q] as int].next by {
                    assert(chained(l1, r, q));
                    assert(r[q] == base[c + q]);
                    if base.take(c).contains(r[q]) {
                        let z = base.take(c).index_of(r[q]);
                        assert(base[z] == base[c + q]);
                    }
                }
                lemma_chain_frame(l1, links@, r);
            }
        } else {
            proof {
                lemma_sized_push(pend, c as nat, x);
            }
        }
        // Move one element from the input to the pending sublists.
        let ghost l2 = links@;
        proof {
            lemma_push_pending(l2, order, base, pend, cut, c);
            assert(chained(l2, base.skip(c), 0));
            if c + 1 < base.len() {
                assert(chained(l2, base.skip(c), 1));
            }
        }
        set_prev(links, list, pending);
        pending = list;
        list = links[list].next;
        set_next(links, pending, NIL);
        proof {
            assert(links@ =~= l2.update(
                x as int,
                list_head { next: NIL, prev: next_sublist(pend, 0) },
            ));
            assert(base.skip(c)[0] == x);
            pend = pend.insert(0, seq![x]);
            cut = cut.insert(0, c + 1);
            assert forall|y: usize| y < l0.len() && !#[trigger] base.take(c + 1).contains(y) implies links@[y as int]
                == l0[y as int] by {
                if base.take(c).contains(y) {
                    let z = base.take(c).index_of(y);
                    assert(base.take(c + 1)[z] == y);
                }
                assert(l1[y as int] == l0[y as int]);
                assert(l2[y as int] == l1[y as int]);
            }
        }
        count = count + 1;
        if list == NIL {
            break;
        }
    }
    (pending, Ghost(pend), Ghost(cut))
}

/// Sorts a circular doubly linked list.
///
/// The comparison must be antisymmetric and transitive on the nodes of the list. It is called with two
/// of them only, and not at all for a list of fewer than two. The sort is stable.
pub fn list_sort<O: NodeOrder>(order: &O, links: &mut Vec<list_head>, head: usize)
    requires
        is_list(old(links)@, head),
        nodes_of(old(links)@, head).len() >= 2 ==> accepts_all(order, nodes_of(old(links)@, head)),
    ensures
        is_list(final(links)@, head),
        nodes_of(final(links)@, head).to_multiset() == nodes_of(old(links)@, head).to_multiset(),
        lawful_on(order, nodes_of(old(links)@, head)) ==> stable_sorted(
            order,
            nodes_of(old(links)@, head),
            nodes_of(final(links)@, head),
        ),
        final(links)@.len() == old(links)@.len(),
        forall|x: usize|
            x < old(links)@.len() && x != head && !nodes_of(old(links)@, head).contains(x) ==> (
            #[trigger] final(links)@[x as int]) == old(links)@[x as int],
{
    let ghost l0 = links@;
    let ghost base = nodes_of(l0, head);
    let ghost c = seq![head] + base;
    let ghost n = base.len() as int;
    proof {
        assert(ring(l0, c));
        assert(linked(l0, c, 0));
        assert(linked(l0, c, n));
        assert forall|i: int, j: int| 0 <= i < n && 0 <= j < n && i != j implies base[i] != base[j] by {
            assert(c[i + 1] == base[i] && c[j + 1] == base[j]);
        }
    }
    let _total: usize = links.len();
    let first = links[head].next;
    let last = links[head].prev;
    if first == last {
        // Zero or one elements.
        proof {
            assert(n <= 1) by {
                if n > 1 {
                    assert(c[1] != c[n]);
                }
            }
        }
        return;
    }
    proof {
        assert(n >= 2);
        assert(c[n] == base[n - 1]);
    }
    // Make it a singly linked list that ends.
    set_next(links, last, NIL);
    let ghost l1 = links@;
    proof {
        assert forall|i: int| 0 <= i < n implies #[trigger] chained(l1, base, i) by {
            assert(linked(l0, c, i + 1));
            assert(c[i + 1] == base[i]);
            if i + 1 < n {
                assert(c[i + 2] == base[i + 1]);
                assert(base[i] != base[n - 1]);
            }
        }
        lemma_len_bound(l1, base);
    }
    let (pending0, Ghost(pend), Ghost(cut)) = collect(order, links, first, Ghost(base));
    // End of input; merge together all the pending lists.
    let ghost m = pend.len() as int;
    let ghost l2 = links@;
    proof {
        lemma_next_count(n as nat);
        assert(digits(n as nat) == 1 + digits((n / 2) as nat));
        assert(digits((n / 2) as nat) == 1 + digits((n / 2 / 2) as nat));
        assert(m >= 2);
        assert(sublist(l2, order, base, pend, cut, 0));
        assert(sublist(l2, order, base, pend, cut, 1));
        lemma_chain_rest(l2, pend[0]);
        lemma_chain_rest(l2, pend[1]);
        assert forall|j: int| 1 <= j < m implies #[trigger] chain(l2, pend[j]) by {
            assert(sublist(l2, order, base, pend, cut, j));
        }
    }
    let mut list: usize = pending0;
    let mut pending: usize = links[pending0].prev;
    let ghost mut acc = pend[0];
    let ghost mut i: int = 1;
    loop
        invariant
            m == pend.len(),
            n == base.len(),
            1 <= i < m,
            base.no_duplicates(),
            accepts_all(order, base),
            pending == pend[i][0],
            list == acc[0],
            sorting(l2, order, base, pend, cut, n),
            links@.len() == l2.len(),
            forall|k: int| 0 <= k < l2.len() ==> (#[trigger] links@[k]).prev == l2[k].prev,
            forall|j: int| i <= j < m ==> #[trigger] chain(links@, pend[j]),
            chain(links@, acc),
            acc.len() == n - cut[i],
            0 < cut[i] < n,
            acc.to_multiset() == base.subrange(cut[i], n).to_multiset(),
            lawful_on(order, base) ==> stable_sorted(order, base, acc),
            untouched(l2, links@, base, n),
        ensures
            i == m - 1,
        decreases m - i,
    {
        let ghost l = links@;
        proof {
            assert(sublist(l2, order, base, pend, cut, i));
            assert(chain(l, pend[i]));
            lemma_chain_rest(l, pend[i]);
        }
        let next = links[pending].prev;
        if next == NIL {
            proof {
                if i + 1 < m {
                    assert(sublist(l2, order, base, pend, cut, i + 1));
                    lemma_chain_rest(l2, pend[i + 1]);
                }
            }
            break;
        }
        proof {
            assert(i + 1 < m);
            assert(sublist(l2, order, base, pend, cut, i + 1));
            lemma_merge_two(l, order, base, pend[i], acc, cut[i + 1], cut[i], n);
            lemma_accepts(order, base, pend[i], cut[i + 1], cut[i]);
            lemma_accepts(order, base, acc, cut[i], n);
            lemma_chain_rest(l, acc);
        }
        list = merge(order, links, pending, list, Ghost(pend[i]), Ghost(acc));
        pending = next;
        proof {
            assert forall|j: int| i + 1 <= j < m implies #[trigger] chain(links@, pend[j]) by {
                assert(chain(l, pend[j]));
                assert(sublist(l2, order, base, pend, cut, j));
                lemma_cuts(l2, order, base, pend, cut, n, i + 1, j);
                lemma_ranges_disjoint(base, pend[j], cut[j + 1], cut[j], pend[i], cut[i + 1], cut[i]);
                lemma_ranges_disjoint(base, pend[j], cut[j + 1], cut[j], acc, cut[i], n);
                assert forall|q: int| 0 <= q < pend[j].len() implies links@[#[trigger] pend[j][q] as int].next
                    == l[pend[j][q] as int].next by {
                    assert(chained(l, pend[j], q));
                    assert(!pend[i].contains(pend[j][q]));
                    assert(!acc.contains(pend[j][q]));
                    assert(links@[pend[j][q] as int] == l[pend[j][q] as int]);
                }
                lemma_chain_frame(l, links@, pend[j]);
            }
            assert forall|x: usize| x < l2.len() && !#[trigger] base.take(n).contains(x) implies links@[x as int]
                == l2[x as int] by {
                lemma_outside(l2, order, base, pend, cut, n, i, x);
                if acc.contains(x) {
                    lemma_member(base, acc, cut[i], n, x);
                    assert(base.take(n)[base.index_of(x)] == x);
                }
                assert(l[x as int] == l2[x as int]);
            }
            acc = merged(order, pend[i], acc);
            i = i + 1;
        }
    }
    // The final merge, which also restores the links backwards.
    let ghost l3 = links@;
    let ghost result = merged(order, pend[i], acc);
    proof {
        assert(sublist(l2, order, base, pend, cut, i));
        assert(chain(l3, pend[i]));
        lemma_merge_two(l3, order, base, pend[i], acc, 0, cut[i], n);
        lemma_accepts(order, base, pend[i], 0, cut[i]);
        lemma_accepts(order, base, acc, cut[i], n);
        assert(base.subrange(0, n) =~= base);
        let h = seq![head];
        assert forall|p: int, q: int| 0 <= p < h.len() && 0 <= q < pend[i].len() implies #[trigger] h[p]
            != #[trigger] pend[i][q] by {
            assert(pend[i].contains(pend[i][q]));
            lemma_member(base, pend[i], 0, cut[i], pend[i][q]);
            assert(c[base.index_of(pend[i][q]) + 1] != c[0]);
        }
        assert forall|p: int, q: int| 0 <= p < h.len() && 0 <= q < acc.len() implies #[trigger] h[p]
            != #[trigger] acc[q] by {
            assert(acc.contains(acc[q]));
            lemma_member(base, acc, cut[i], n, acc[q]);
            assert(c[base.index_of(acc[q]) + 1] != c[0]);
        }
        assert(head != NIL);
        assert(merging(l3, h, pend[i], acc));
    }
    merge_final(order, links, head, pending, list, Ghost(pend[i]), Ghost(acc));
    proof {
        assert(ring(links@, seq![head] + result));
        let got = nodes_of(links@, head);
        assert(ring(links@, seq![head] + got));
        lemma_nodes_unique(links@, seq![head] + result, seq![head] + got);
        assert(got =~= result) by {
            assert((seq![head] + result).skip(1) =~= result);
            assert((seq![head] + got).skip(1) =~= got);
        }
        assert forall|x: usize| x < l0.len() && x != head && !base.contains(x) implies (
        #[trigger] links@[x as int]) == l0[x as int] by {
            if pend[i].contains(x) {
                lemma_member(base, pend[i], 0, cut[i], x);
            }
            if acc.contains(x) {
                lemma_member(base, acc, cut[i], n, x);
            }
            assert(!base.take(n).contains(x));
            assert(l3[x as int] == l2[x as int]);
            assert(l2[x as int] == l1[x as int]);
            assert(base.contains(base[n - 1]));
        }
    }
}

/// A list has no more nodes than there are links.
proof fn lemma_len_bound(l: Seq<list_head>, s: Seq<usize>)
    requires
        chain(l, s),
    ensures
        s.len() <= l.len(),
{
    let ids = s.map_values(|x: usize| x as int);
    assert forall|i: int, j: int| 0 <= i < ids.len() && 0 <= j < ids.len() && i != j implies ids[i]
        != ids[j] by {}
    ids.unique_seq_to_set();
    let all = vstd::set_lib::set_int_range(0, l.len() as int);
    vstd::set_lib::lemma_int_range(0, l.len() as int);
    assert(ids.to_set().subset_of(all)) by {
        assert forall|x: int| ids.to_set().contains(x) implies all.contains(x) by {
            let i = choose|i: int| 0 <= i < ids.len() && ids[i] == x;
            assert(chained(l, s, i));
        }
    }
    vstd::set_lib::lemma_len_subset(ids.to_set(), all);
}

/// A stable sort of a list is unique: two sorted arrangements of its nodes are the same.
pub proof fn law_stable_sort_is_unique<O: NodeOrder>(o: &O, base: Seq<usize>, s: Seq<usize>, t: Seq<usize>)
    requires
        base.no_duplicates(),
        s.to_multiset() == base.to_multiset(),
        t.to_multiset() == base.to_multiset(),
        stable_sorted(o, base, s),
        stable_sorted(o, base, t),
    ensures
        s == t,
{
    s.to_multiset_ensures();
    t.to_multiset_ensures();
    lemma_unique(o, base, s, t);
}

proof fn lemma_unique<O: NodeOrder>(o: &O, base: Seq<usize>, s: Seq<usize>, t: Seq<usize>)
    requires
        s.to_multiset() == t.to_multiset(),
        stable_sorted(o, base, s),
        stable_sorted(o, base, t),
    ensures
        s == t,
    decreases s.len(),
{
    s.to_multiset_ensures();
    t.to_multiset_ensures();
    assert(s.len() == t.len());
    if s.len() > 0 {
        assert(s.contains(s[0]));
        assert(t.contains(t[0]));
        assert(t.to_multiset().count(s[0]) > 0);
        assert(s.to_multiset().count(t[0]) > 0);
        assert(t.contains(s[0]));
        assert(s.contains(t[0]));
        let i = s.index_of(t[0]);
        let j = t.index_of(s[0]);
        if i > 0 && j > 0 {
            assert(before(o, base, s[0], s[i]));
            assert(before(o, base, t[0], t[j]));
            assert(false);
        }
        assert(s[0] == t[0]);
        lemma_first_multiset(s);
        lemma_first_multiset(t);
        assert(s.skip(1).to_multiset() =~= s.to_multiset().remove(s[0]));
        assert(t.skip(1).to_multiset() =~= t.to_multiset().remove(t[0]));
        assert forall|a: int, b: int| 0 <= a < b < s.skip(1).len() implies before(
            o,
            base,
            #[trigger] s.skip(1)[a],
            #[trigger] s.skip(1)[b],
        ) by {
            assert(before(o, base, s[a + 1], s[b + 1]));
        }
        assert forall|a: int, b: int| 0 <= a < b < t.skip(1).len() implies before(
            o,
            base,
            #[trigger] t.skip(1)[a],
            #[trigger] t.skip(1)[b],
        ) by {
            assert(before(o, base, t[a + 1], t[b + 1]));
        }
        lemma_unique(o, base, s.skip(1), t.skip(1));
        assert(s =~= seq![s[0]] + s.skip(1));
        assert(t =~= seq![t[0]] + t.skip(1));
    } else {
        assert(s =~= t);
    }
}

/// A list that has been sorted is in order by the comparison, and where the comparison does not tell,
/// the nodes stand as they stood before.
pub proof fn law_sorted_and_stable<O: NodeOrder>(o: &O, base: Seq<usize>, s: Seq<usize>, i: int, j: int)
    requires
        stable_sorted(o, base, s),
        0 <= i < j < s.len(),
    ensures
        o.order(s[i], s[j]) <= 0,
        o.order(s[j], s[i]) <= 0 ==> base.index_of(s[i]) < base.index_of(s[j]),
{
    assert(before(o, base, s[i], s[j]));
}

/// Nodes with keys are sorted by ascending keys, and nodes with equal keys stay as they were.
pub proof fn law_sorted_by_keys(keys: Keys, base: Seq<usize>, s: Seq<usize>, i: int, j: int)
    requires
        stable_sorted(&keys, base, s),
        0 <= i < j < s.len(),
    ensures
        keys.keys@[s[i] as int] <= keys.keys@[s[j] as int],
        keys.keys@[s[i] as int] == keys.keys@[s[j] as int] ==> base.index_of(s[i]) < base.index_of(
            s[j],
        ),
{
    law_sorted_and_stable(&keys, base, s, i, j);
}

/// Any comparison that tells of each two nodes which one need not sort behind the other, and does so
/// transitively, will do.
pub proof fn law_lawful_comparison<O: NodeOrder>(o: &O, s: Seq<usize>)
    requires
        forall|a: usize, b: usize| #[trigger] o.order(a, b) <= 0 || o.order(b, a) <= 0,
        forall|a: usize, b: usize, c: usize|
            #![trigger o.order(a, b), o.order(b, c)]
            o.order(a, b) <= 0 && o.order(b, c) <= 0 ==> o.order(a, c) <= 0,
    ensures
        lawful_on(o, s),
{
    assert forall|a: usize, b: usize| s.contains(a) && s.contains(b) implies #[trigger] le(o, a, b)
        || le(o, b, a) by {
        assert(o.order(a, b) <= 0 || o.order(b, a) <= 0);
    }
    assert forall|a: usize, b: usize, c: usize|
        #![trigger le(o, a, b), le(o, b, c)]
        s.contains(a) && s.contains(b) && s.contains(c) && le(o, a, b) && le(o, b, c) implies le(
        o,
        a,
        c,
    ) by {
        assert(o.order(a, b) <= 0 && o.order(b, c) <= 0);
    }
}

/// The nodes of a circular list are those that its links lead to from its head on, in turn.
pub proof fn law_nodes_of_a_list(l: Seq<list_head>, head: usize, s: Seq<usize>)
    requires
        ring(l, seq![head] + s),
    ensures
        is_list(l, head),
        nodes_of(l, head) == s,
        s.len() > 0 ==> l[head as int].next == s[0] && l[head as int].prev == s.last(),
        s.len() == 0 ==> l[head as int].next == head && l[head as int].prev == head,
{
    let all = seq![head] + s;
    let got = nodes_of(l, head);
    assert(ring(l, seq![head] + got));
    lemma_nodes_unique(l, all, seq![head] + got);
    assert(all.skip(1) =~= s);
    assert((seq![head] + got).skip(1) =~= got);
    assert(linked(l, all, 0));
}

/// A merge keeps the order of both lists, and a node of the second list goes before one of the first
/// only where the comparison says so.
pub proof fn law_merge_step<O: NodeOrder>(o: &O, a: Seq<usize>, b: Seq<usize>)
    requires
        a.len() > 0,
        b.len() > 0,
    ensures
        merged(o, a, b).len() > 0,
        o.order(a[0], b[0]) > 0 ==> merged(o, a, b) == seq![b[0]] + merged(o, a, b.skip(1)),
        o.order(a[0], b[0]) <= 0 ==> merged(o, a, b) == seq![a[0]] + merged(o, a.skip(1), b),
{
}

/// Sorting a list by keys puts its nodes in ascending order of their keys, and leaves nodes with equal
/// keys in the order in which they were; no node is lost, and none is new.
pub proof fn law_list_is_sorted(keys: &Keys, links: &mut Vec<list_head>, head: usize, i: int, j: int)
    requires
        is_list(old(links)@, head),
        call_ensures(list_sort::<Keys>, (keys, links, head), ()),
        0 <= i < j < nodes_of(final(links)@, head).len(),
    ensures
        ({
            let before = nodes_of(old(links)@, head);
            let after = nodes_of(final(links)@, head);
            &&& after.to_multiset() == before.to_multiset()
            &&& keys.keys@[after[i] as int] <= keys.keys@[after[j] as int]
            &&& keys.keys@[after[i] as int] == keys.keys@[after[j] as int] ==> before.index_of(
                after[i],
            ) < before.index_of(after[j])
        }),
{
    let before = nodes_of(old(links)@, head);
    let after = nodes_of(final(links)@, head);
    law_keys_are_lawful(*keys, before);
    law_sorted_by_keys(*keys, before, after, i, j);
}

} // verus!
