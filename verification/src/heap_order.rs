//! The theory of the binary heap that the array sort keeps: what it means for part of an array to
//! be a heap, and what sifting one element down does to it.

use vstd::prelude::*;

verus! {

/// A three-way comparison: negative, zero or positive.
pub type Order<A> = spec_fn(A, A) -> int;

/// The laws that a comparison of the elements of `s` has to obey for sorting to have a meaning:
/// comparing the other way round gives the opposite sign, and "not greater" is transitive.
#[verifier::opaque]
pub open spec fn lawful_on<A>(f: Order<A>, s: Seq<A>) -> bool {
    &&& forall|i: int, j: int|
        #![trigger f(s[i], s[j])]
        0 <= i < s.len() && 0 <= j < s.len() ==> (f(s[i], s[j]) < 0 <==> f(s[j], s[i]) > 0)
    &&& forall|i: int, j: int, k: int|
        #![trigger f(s[i], s[j]), f(s[j], s[k])]
        0 <= i < s.len() && 0 <= j < s.len() && 0 <= k < s.len() && f(s[i], s[j]) <= 0 && f(
            s[j],
            s[k],
        ) <= 0 ==> f(s[i], s[k]) <= 0
}

/// An element of a permutation stands in what was permuted.
pub proof fn lemma_permuted<A>(s: Seq<A>, t: Seq<A>, i: int) -> (k: int)
    requires
        s.to_multiset() == t.to_multiset(),
        0 <= i < t.len(),
    ensures
        0 <= k < s.len(),
        s[k] == t[i],
{
    broadcast use vstd::seq_lib::group_to_multiset_ensures;

    s.to_multiset_ensures();
    t.to_multiset_ensures();
    assert(t.contains(t[i]));
    assert(t.to_multiset().count(t[i]) > 0);
    assert(s.contains(t[i]));
    choose|k: int| 0 <= k < s.len() && s[k] == t[i]
}

/// The laws hold of a permutation of the elements, too.
pub proof fn lemma_lawful_permuted<A>(f: Order<A>, s: Seq<A>, t: Seq<A>)
    requires
        s.to_multiset() == t.to_multiset(),
        lawful_on(f, s),
    ensures
        lawful_on(f, t),
{
    reveal(lawful_on);
    assert forall|i: int, j: int|
        #![trigger f(t[i], t[j])]
        0 <= i < t.len() && 0 <= j < t.len() implies (f(t[i], t[j]) < 0 <==> f(t[j], t[i]) > 0) by {
        let a = lemma_permuted(s, t, i);
        let b = lemma_permuted(s, t, j);
        assert(f(s[a], s[b]) < 0 <==> f(s[b], s[a]) > 0);
    }
    assert forall|i: int, j: int, k: int|
        #![trigger f(t[i], t[j]), f(t[j], t[k])]
        0 <= i < t.len() && 0 <= j < t.len() && 0 <= k < t.len() && f(t[i], t[j]) <= 0 && f(
            t[j],
            t[k],
        ) <= 0 implies f(t[i], t[k]) <= 0 by {
        let a = lemma_permuted(s, t, i);
        let b = lemma_permuted(s, t, j);
        let c = lemma_permuted(s, t, k);
        assert(f(s[a], s[b]) <= 0 && f(s[b], s[c]) <= 0);
    }
}

/// `s` with the elements at `i` and `j` exchanged.
pub open spec fn swapped<A>(s: Seq<A>, i: int, j: int) -> Seq<A> {
    s.update(i, s[j]).update(j, s[i])
}

pub open spec fn parent_of(c: int) -> int {
    (c - 1) / 2
}

/// Whether no child among the first `n` elements is greater than its parent, for the parents from
/// `lo` on other than `hole`.
pub open spec fn heap_but<A>(f: Order<A>, s: Seq<A>, n: int, lo: int, hole: int) -> bool {
    forall|c: int|
        1 <= c < n && parent_of(c) >= lo && parent_of(c) != hole ==> f(#[trigger] s[c], s[parent_of(c)])
            <= 0
}

/// Whether no child among the first `n` elements is greater than its parent, for the parents from
/// `lo` on.
pub open spec fn heap<A>(f: Order<A>, s: Seq<A>, n: int, lo: int) -> bool {
    heap_but(f, s, n, lo, -1)
}

/// Whether the first `n` elements are not greater than `x`.
pub open spec fn bounded<A>(f: Order<A>, s: Seq<A>, n: int, x: A) -> bool {
    forall|k: int| 0 <= k < n ==> f(#[trigger] s[k], x) <= 0
}

/// Whether the elements from `n` on are in order, and not less than any before them.
pub open spec fn tail_sorted<A>(f: Order<A>, s: Seq<A>, n: int) -> bool {
    forall|i: int, j: int| 0 <= i < j < s.len() && n <= j ==> f(#[trigger] s[i], #[trigger] s[j]) <= 0
}

/// The child of `p` that the way down takes: the greater one, the second if they are equal.
pub open spec fn big_child<A>(f: Order<A>, s: Seq<A>, n: int, p: int) -> int {
    if 2 * p + 2 < n && f(s[2 * p + 1], s[2 * p + 2]) <= 0 {
        2 * p + 2
    } else {
        2 * p + 1
    }
}

/// Whether `b` lies on the way down from `a`.
pub open spec fn on_path<A>(f: Order<A>, s: Seq<A>, n: int, a: int, b: int) -> bool
    decreases b,
{
    ||| b == a
    ||| {
        &&& 0 <= a < b < n
        &&& big_child(f, s, n, parent_of(b)) == b
        &&& on_path(f, s, n, a, parent_of(b))
    }
}

/// Whether `k` is `c` or one of its ancestors.
pub open spec fn above(k: int, c: int) -> bool
    decreases c,
{
    ||| k == c
    ||| 0 <= k < c && above(k, parent_of(c))
}

/// What is found at `k` while the elements on the way from `b` down to `c` move up by one.
pub open spec fn shifted_at<A>(f: Order<A>, s: Seq<A>, n: int, b: int, c: int, k: int) -> A {
    if k == c {
        s[b]
    } else if b <= k && above(k, c) {
        s[big_child(f, s, n, k)]
    } else {
        s[k]
    }
}

pub proof fn lemma_above_trans(k: int, c: int)
    requires
        above(k, c),
        0 < k,
    ensures
        above(parent_of(k), c),
        k <= c,
    decreases c,
{
    if k != c {
        lemma_above_trans(k, parent_of(c));
    } else {
        assert(above(parent_of(c), parent_of(c)));
    }
}

/// On the way from `a` down to `c`, the next step below an ancestor of `c` is an ancestor too.
pub proof fn lemma_path_step<A>(f: Order<A>, s: Seq<A>, n: int, a: int, c: int, k: int)
    requires
        0 <= a,
        on_path(f, s, n, a, c),
        above(k, c),
        a <= k < c,
    ensures
        above(big_child(f, s, n, k), c),
        k < big_child(f, s, n, k) < n,
        parent_of(big_child(f, s, n, k)) == k,
        on_path(f, s, n, a, k),
    decreases c,
{
    if parent_of(c) == k {
        assert(above(c, c));
    } else {
        lemma_above_le(k, parent_of(c));
        lemma_path_step(f, s, n, a, parent_of(c), k);
        let m = big_child(f, s, n, k);
        assert(m <= parent_of(c)) by {
            lemma_above_le(m, parent_of(c));
        }
        assert(above(m, c));
    }
}

pub proof fn lemma_above_le(k: int, c: int)
    requires
        above(k, c),
    ensures
        k <= c,
    decreases c,
{
    if k != c {
        lemma_above_le(k, parent_of(c));
    }
}

pub proof fn lemma_path_le<A>(f: Order<A>, s: Seq<A>, n: int, a: int, b: int)
    requires
        on_path(f, s, n, a, b),
    ensures
        a <= b,
        above(a, b),
    decreases b,
{
    if a != b {
        lemma_path_le(f, s, n, a, parent_of(b));
    }
}

/// Moving the elements on the way from `a` to `c` up by one, and the one at `a` to `c`, closes the
/// hole at `a`.
pub proof fn lemma_sift<A>(f: Order<A>, s: Seq<A>, r: Seq<A>, n: int, lo: int, a: int, c: int)
    requires
        lawful_on(f, s),
        0 <= lo <= a,
        a == 0 || parent_of(a) < lo,
        n <= s.len(),
        r.len() == s.len(),
        heap_but(f, s, n, lo, a),
        on_path(f, s, n, a, c),
        c == a || f(s[a], s[c]) < 0,
        2 * c + 1 < n ==> f(s[a], s[big_child(f, s, n, c)]) >= 0,
        forall|k: int| 0 <= k < s.len() ==> r[k] == shifted_at(f, s, n, a, c, k),
    ensures
        heap(f, r, n, lo),
{
    reveal(lawful_on);
    lemma_path_le(f, s, n, a, c);
    assert forall|ch: int| 1 <= ch < n && parent_of(ch) >= lo implies f(
        #[trigger] r[ch],
        r[parent_of(ch)],
    ) <= 0 by {
        let p = parent_of(ch);
        assert(r[ch] == shifted_at(f, s, n, a, c, ch));
        assert(r[p] == shifted_at(f, s, n, a, c, p));
        if above(ch, c) && a <= ch {
            assert(ch > a);
            lemma_above_trans(ch, c);
            lemma_ancestor_of_path(f, s, n, a, c, ch);
            assert(a <= p);
            lemma_path_step(f, s, n, a, c, p);
            assert(big_child(f, s, n, p) == ch);
            if ch != c {
                lemma_path_step(f, s, n, a, c, ch);
                let g = big_child(f, s, n, ch);
                assert(f(s[g], s[parent_of(g)]) <= 0);
            }
        } else {
            assert(r[ch] == s[ch]);
            if p == c {
                let g = big_child(f, s, n, c);
                assert(ch == 2 * c + 1 || ch == 2 * c + 2);
                assert(f(s[g], s[a]) <= 0) by {
                    assert(!(f(s[a], s[g]) < 0));
                }
                if ch != g {
                    assert(f(s[ch], s[g]) <= 0) by {
                        if f(s[2 * c + 1], s[2 * c + 2]) > 0 {
                            assert(f(s[2 * c + 2], s[2 * c + 1]) < 0);
                        }
                    }
                }
                assert(f(s[ch], s[a]) <= 0);
            } else if a <= p && above(p, c) {
                lemma_above_le(p, c);
                lemma_path_step(f, s, n, a, c, p);
                let g = big_child(f, s, n, p);
                assert(ch == 2 * p + 1 || ch == 2 * p + 2);
                assert(ch != g);
                if f(s[2 * p + 1], s[2 * p + 2]) > 0 {
                    assert(f(s[2 * p + 2], s[2 * p + 1]) < 0);
                }
                assert(f(s[ch], s[g]) <= 0);
            } else {
                assert(p != a) by {
                    assert(above(a, c));
                }
            }
        }
    }
}

proof fn lemma_ancestor_of_path<A>(f: Order<A>, s: Seq<A>, n: int, a: int, c: int, k: int)
    requires
        0 <= a,
        on_path(f, s, n, a, c),
        above(k, c),
        a < k,
    ensures
        a <= parent_of(k),
        big_child(f, s, n, parent_of(k)) == k,
    decreases c,
{
    if k == c {
        lemma_path_le(f, s, n, a, parent_of(c));
    } else {
        lemma_above_le(k, parent_of(c));
        lemma_ancestor_of_path(f, s, n, a, parent_of(c), k);
    }
}

/// In a heap no element is greater than the root.
pub proof fn lemma_root_is_greatest<A>(f: Order<A>, s: Seq<A>, n: int, k: int)
    requires
        lawful_on(f, s),
        heap(f, s, n, 0),
        0 <= k < n <= s.len(),
    ensures
        f(s[k], s[0]) <= 0,
    decreases k,
{
    reveal(lawful_on);
    if k > 0 {
        lemma_root_is_greatest(f, s, n, parent_of(k));
        assert(f(s[k], s[parent_of(k)]) <= 0);
    } else {
        assert(f(s[0], s[0]) < 0 <==> f(s[0], s[0]) > 0);
    }
}

/// In a heap no element but the root is greater than both children of the root.
pub proof fn lemma_children_are_next<A>(f: Order<A>, s: Seq<A>, n: int, k: int)
    requires
        lawful_on(f, s),
        heap(f, s, n, 0),
        1 <= k < n <= s.len(),
        3 <= n,
    ensures
        f(s[k], s[1]) <= 0 || f(s[k], s[2]) <= 0,
    decreases k,
{
    reveal(lawful_on);
    if k > 2 {
        lemma_children_are_next(f, s, n, parent_of(k));
        assert(f(s[k], s[parent_of(k)]) <= 0);
    } else {
        assert(f(s[k], s[k]) < 0 <==> f(s[k], s[k]) > 0);
    }
}

/// Exchanging two elements keeps the multiset of elements.
pub proof fn lemma_swapped_multiset<A>(s: Seq<A>, i: int, j: int)
    requires
        0 <= i < s.len(),
        0 <= j < s.len(),
    ensures
        swapped(s, i, j).to_multiset() == s.to_multiset(),
        swapped(s, i, j).len() == s.len(),
{
    broadcast use vstd::seq_lib::group_to_multiset_ensures;

    let t = s.update(i, s[j]);
    assert(t.to_multiset() =~= s.to_multiset().remove(s[i]).insert(s[j])) by {
        vstd::seq_lib::to_multiset_update(s, i, s[j]);
    }
    assert(swapped(s, i, j).to_multiset() =~= t.to_multiset().remove(t[j]).insert(s[i])) by {
        vstd::seq_lib::to_multiset_update(t, j, s[i]);
    }
    assert(t[j] == s[j]);
    assert(s.contains(s[i]));
    assert(swapped(s, i, j).to_multiset() =~= s.to_multiset());
}

/// The leaf at the end of the way down from `p`.
pub open spec fn leaf_below<A>(f: Order<A>, s: Seq<A>, n: int, p: int) -> int
    decreases n - p,
{
    if 0 <= p && 2 * p + 1 < n {
        leaf_below(f, s, n, big_child(f, s, n, p))
    } else {
        p
    }
}

/// Where the element at `a` belongs on the way back up from `b`: at the first one that is greater.
pub open spec fn place_from<A>(f: Order<A>, s: Seq<A>, a: int, b: int) -> int
    decreases b,
{
    if 0 <= a < b && f(s[a], s[b]) >= 0 {
        place_from(f, s, a, parent_of(b))
    } else {
        b
    }
}

/// `s` with the element at `a` sifted down into the heap of the first `n` elements: it goes to its
/// place on the way down, and those above that place move up by one.
#[verifier::opaque]
pub open spec fn sifted<A>(f: Order<A>, s: Seq<A>, n: int, a: int) -> Seq<A> {
    let c = place_from(f, s, a, leaf_below(f, s, n, a));
    Seq::new(s.len(), |k: int| shifted_at(f, s, n, a, c, k))
}

/// `s` with the elements before `a` sifted down, from the last to the first.
#[verifier::opaque]
pub open spec fn heaped<A>(f: Order<A>, s: Seq<A>, n: int, a: int) -> Seq<A>
    decreases a,
{
    if a <= 0 {
        s
    } else {
        heaped(f, sifted(f, s, n, a - 1), n, a - 1)
    }
}

/// Which child of the root is taken with it: the greater one, the second if they are equal.
pub open spec fn taken_child<A>(f: Order<A>, s: Seq<A>) -> int {
    if f(s[1], s[2]) <= 0 {
        2
    } else {
        1
    }
}

/// A heap of `n` elements with its root and the greater child of it moved to its end.
pub open spec fn two_taken<A>(f: Order<A>, s: Seq<A>, n: int) -> Seq<A> {
    swapped(swapped(s, 0, n - 1), taken_child(f, s), n - 2)
}

/// A heap of two or three elements in order.
pub open spec fn last_sorted<A>(f: Order<A>, s: Seq<A>, n: int) -> Seq<A> {
    let r = swapped(s, 0, n - 1);
    if n == 3 && f(r[0], r[1]) > 0 {
        swapped(r, 0, 1)
    } else {
        r
    }
}

/// `s` with its heap of `n` elements emptied from the greatest on, two at a time.
#[verifier::opaque]
pub open spec fn emptied<A>(f: Order<A>, s: Seq<A>, n: int) -> Seq<A>
    decreases n,
{
    if n <= 3 {
        last_sorted(f, s, n)
    } else {
        emptied(
            f,
            heaped(f, sifted(f, two_taken(f, s, n), n - 2, taken_child(f, s)), n - 2, 1),
            n - 2,
        )
    }
}

/// What the heap sort makes of `s`. Of equal elements, the steps of the sort decide which comes first.
#[verifier::opaque]
pub open spec fn heap_sorted<A>(f: Order<A>, s: Seq<A>) -> Seq<A> {
    let n = s.len() as int;
    emptied(f, heaped(f, s, n, n / 2), n)
}

/// The first step of sifting elements down one after the other.
pub proof fn lemma_heaped<A>(f: Order<A>, s: Seq<A>, n: int, a: int)
    ensures
        a <= 0 ==> heaped(f, s, n, a) == s,
        a > 0 ==> heaped(f, s, n, a) == heaped(f, sifted(f, s, n, a - 1), n, a - 1),
{
    reveal_with_fuel(heaped, 1);
}

/// The first step of emptying a heap.
pub proof fn lemma_emptied<A>(f: Order<A>, s: Seq<A>, n: int)
    ensures
        n <= 3 ==> emptied(f, s, n) == last_sorted(f, s, n),
        n > 3 ==> emptied(f, s, n) == emptied(
            f,
            heaped(f, sifted(f, two_taken(f, s, n), n - 2, taken_child(f, s)), n - 2, 1),
            n - 2,
        ),
{
    reveal_with_fuel(emptied, 1);
}

/// An element that is as great as all others stays where it is sifted down from.
pub proof fn law_greatest_stays<A>(f: Order<A>, s: Seq<A>, n: int, a: int)
    requires
        0 <= a < n <= s.len(),
        forall|k: int| 0 <= k < n ==> f(s[a], #[trigger] s[k]) >= 0,
    ensures
        sifted(f, s, n, a) == s,
{
    reveal(sifted);
    lemma_leaf_in_range(f, s, n, a);
    lemma_place_is_own(f, s, n, a, leaf_below(f, s, n, a));
    assert(sifted(f, s, n, a) =~= s);
}

proof fn lemma_leaf_in_range<A>(f: Order<A>, s: Seq<A>, n: int, p: int)
    requires
        0 <= p < n,
    ensures
        p <= leaf_below(f, s, n, p) < n,
        above(p, leaf_below(f, s, n, p)),
    decreases n - p,
{
    if 2 * p + 1 < n {
        let c = big_child(f, s, n, p);
        lemma_leaf_in_range(f, s, n, c);
        lemma_way_up(p, c, leaf_below(f, s, n, c));
    }
}

proof fn lemma_way_up(p: int, c: int, k: int)
    requires
        0 <= p < c,
        parent_of(c) == p,
        above(c, k),
    ensures
        above(p, k),
    decreases k,
{
    if c != k {
        lemma_way_up(p, c, parent_of(k));
    } else {
        assert(above(p, p));
    }
}

proof fn lemma_place_is_own<A>(f: Order<A>, s: Seq<A>, n: int, a: int, b: int)
    requires
        0 <= a <= b < n <= s.len(),
        above(a, b),
        forall|k: int| 0 <= k < n ==> f(s[a], #[trigger] s[k]) >= 0,
    ensures
        place_from(f, s, a, b) == a,
    decreases b,
{
    if a < b {
        assert(f(s[a], s[b]) >= 0);
        assert(above(a, parent_of(b)));
        lemma_place_is_own(f, s, n, a, parent_of(b));
    }
}

/// The way down takes the greater child, and the second where both are as great, if there are two.
pub proof fn law_way_down<A>(f: Order<A>, s: Seq<A>, n: int, p: int)
    requires
        0 <= p,
        2 * p + 1 < n,
    ensures
        2 * p + 2 == n ==> big_child(f, s, n, p) == 2 * p + 1,
        2 * p + 2 < n && f(s[2 * p + 1], s[2 * p + 2]) > 0 ==> big_child(f, s, n, p) == 2 * p + 1,
        2 * p + 2 < n && f(s[2 * p + 1], s[2 * p + 2]) <= 0 ==> big_child(f, s, n, p) == 2 * p + 2,
{
}

/// Three elements, the first of which is less than the others: the greater of the two comes up, and the
/// third one where they are as great.
pub proof fn law_sift_of_three<A>(f: Order<A>, s: Seq<A>)
    requires
        s.len() == 3,
        f(s[0], s[1]) < 0,
        f(s[0], s[2]) < 0,
    ensures
        f(s[1], s[2]) <= 0 ==> sifted(f, s, 3, 0) == seq![s[2], s[1], s[0]],
        f(s[1], s[2]) > 0 ==> sifted(f, s, 3, 0) == seq![s[1], s[0], s[2]],
{
    reveal(sifted);
    reveal_with_fuel(leaf_below, 3);
    reveal_with_fuel(place_from, 3);
    reveal_with_fuel(above, 3);
    if f(s[1], s[2]) <= 0 {
        assert(sifted(f, s, 3, 0) =~= seq![s[2], s[1], s[0]]);
    } else {
        assert(sifted(f, s, 3, 0) =~= seq![s[1], s[0], s[2]]);
    }
}

/// Two elements end up in order, and change places where they are as great.
pub proof fn law_two_elements<A>(f: Order<A>, s: Seq<A>)
    requires
        s.len() == 2,
        f(s[0], s[1]) < 0 <==> f(s[1], s[0]) > 0,
        f(s[1], s[0]) < 0 <==> f(s[0], s[1]) > 0,
    ensures
        f(s[0], s[1]) < 0 ==> heap_sorted(f, s) == s,
        f(s[0], s[1]) >= 0 ==> heap_sorted(f, s) == seq![s[1], s[0]],
{
    reveal(heap_sorted);
    reveal(heaped);
    reveal_with_fuel(heaped, 3);
    reveal(emptied);
    reveal(sifted);
    reveal_with_fuel(leaf_below, 3);
    reveal_with_fuel(place_from, 3);
    reveal_with_fuel(above, 3);
    let h = heaped(f, s, 2, 1);
    assert(h == sifted(f, s, 2, 0));
    if f(s[0], s[1]) < 0 {
        assert(h =~= seq![s[1], s[0]]);
        assert(heap_sorted(f, s) =~= s);
    } else {
        assert(h =~= s);
        assert(heap_sorted(f, s) =~= seq![s[1], s[0]]);
    }
}

/// The two that are taken off a heap go to its end: the root last, and before it the greater of its
/// children, the second where both are as great.
pub proof fn law_two_taken<A>(f: Order<A>, s: Seq<A>, n: int)
    requires
        3 < n <= s.len(),
    ensures
        two_taken(f, s, n)[n - 1] == s[0],
        n > 4 && f(s[1], s[2]) <= 0 ==> two_taken(f, s, n)[n - 2] == s[2],
        n > 4 && f(s[1], s[2]) > 0 ==> two_taken(f, s, n)[n - 2] == s[1],
        forall|k: int| n <= k < s.len() ==> #[trigger] two_taken(f, s, n)[k] == s[k],
{
}

/// Two or three elements that are left: the first and the last change places, and of three the first two
/// then, if they are not in order.
pub proof fn law_last_elements<A>(f: Order<A>, s: Seq<A>)
    requires
        s.len() >= 3,
    ensures
        last_sorted(f, s, 2) == s.update(0, s[1]).update(1, s[0]),
        f(s[2], s[1]) > 0 ==> last_sorted(f, s, 3) == s.update(0, s[1]).update(1, s[2]).update(2, s[0]),
        f(s[2], s[1]) <= 0 ==> last_sorted(f, s, 3) == s.update(0, s[2]).update(2, s[0]),
{
    assert(last_sorted(f, s, 2) =~= s.update(0, s[1]).update(1, s[0]));
    if f(s[2], s[1]) > 0 {
        assert(last_sorted(f, s, 3) =~= s.update(0, s[1]).update(1, s[2]).update(2, s[0]));
    } else {
        assert(last_sorted(f, s, 3) =~= s.update(0, s[2]).update(2, s[0]));
    }
}

/// The heap is built from the last parent to the first, and emptied two elements at a time.
pub proof fn law_steps_of_the_sort<A>(f: Order<A>, s: Seq<A>, n: int, a: int)
    requires
        n > 3,
        a > 0,
    ensures
        heap_sorted(f, s) == emptied(f, heaped(f, s, s.len() as int, s.len() as int / 2), s.len() as int),
        heaped(f, s, n, 0) == s,
        heaped(f, s, n, a) == heaped(f, sifted(f, s, n, a - 1), n, a - 1),
        ({
            let child: int = if f(s[1], s[2]) <= 0 {
                2
            } else {
                1
            };
            let t = sifted(f, two_taken(f, s, n), n - 2, child);
            emptied(f, s, n) == emptied(f, sifted(f, t, n - 2, 0), n - 2)
        }),
{
    reveal(heap_sorted);
    reveal(emptied);
    reveal_with_fuel(heaped, 3);
}

} // verus!
