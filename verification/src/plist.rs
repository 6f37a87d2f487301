//! Lists sorted by descending priority, that is by ascending `prio`.
//!
//! A node is on two lists at once: every node is on the `node_list` of its head, sorted by
//! priority, and the first node of each priority is also on the `prio_list`, which links one node
//! per priority.

use vstd::prelude::*;

use crate::list::list_head;
#[allow(unused_imports)]
use crate::list::{
    alone, lemma_rotate, lemma_single, lemma_splice, lemma_unlink, linked, ring, spliced, succ,
    unlinked,
};

#[allow(unused_imports)]
use crate::plist_laws::lemma_ring_closed;

verus! {

/// A node: its priority and its links on the two lists.
#[allow(non_camel_case_types)]
#[derive(Clone, Copy)]
pub struct plist_node {
    prio: i32,
    prio_list: list_head,
    node_list: list_head,
}

/// A sorted list and the nodes that can be on it. A node is named by its index; the head of the
/// list has the index behind the last node.
#[allow(non_camel_case_types)]
pub struct plist_head {
    node_list: list_head,
    nodes: Vec<plist_node>,
    order: Ghost<Seq<usize>>,
    starts: Ghost<Seq<int>>,
}

/// How many entries of the ascending sequence `ps` are at most `p`.
pub open spec fn sorted_position(ps: Seq<i32>, p: i32) -> int
    decreases ps.len(),
{
    if ps.len() == 0 {
        0
    } else if ps.last() <= p {
        ps.len() as int
    } else {
        sorted_position(ps.drop_last(), p)
    }
}

/// The priorities of the nodes of `order`.
pub open spec fn prios_of(order: Seq<usize>, prios: Seq<i32>) -> Seq<i32> {
    Seq::new(order.len(), |i: int| prios[order[i] as int])
}

/// `order` with `node` behind the nodes of lower and equal `prio`.
pub open spec fn added(order: Seq<usize>, prios: Seq<i32>, node: usize) -> Seq<usize> {
    order.insert(sorted_position(prios_of(order, prios), prios[node as int]), node)
}

/// `order` without `node`.
pub open spec fn deleted(order: Seq<usize>, node: usize) -> Seq<usize> {
    if order.contains(node) {
        order.remove(order.index_of(node))
    } else {
        order
    }
}

/// Whether the nodes of `order` have ascending priorities.
pub open spec fn sorted(order: Seq<usize>, prios: Seq<i32>) -> bool {
    forall|i: int, j: int|
        0 <= i <= j < order.len() ==> prios[#[trigger] order[i] as int]
            <= prios[#[trigger] order[j] as int]
}

/// The first node of each priority in `order`.
pub open spec fn first_of_each(order: Seq<usize>, prios: Seq<i32>) -> Seq<usize>
    decreases order.len(),
{
    if order.len() == 0 {
        Seq::empty()
    } else {
        let firsts = first_of_each(order.drop_last(), prios);
        if order.len() == 1 || prios[order[order.len() - 2] as int] != prios[order.last() as int] {
            firsts.push(order.last())
        } else {
            firsts
        }
    }
}

/// The priority at index `i` of `order`.
spec fn pr(order: Seq<usize>, prios: Seq<i32>, i: int) -> i32 {
    prios[order[i] as int]
}

/// Where group `k` ends.
spec fn end(order: Seq<usize>, starts: Seq<int>, k: int) -> int {
    if k + 1 < starts.len() {
        starts[k + 1]
    } else {
        order.len() as int
    }
}

/// Whether index `i` lies in group `k`.
spec fn in_group(order: Seq<usize>, starts: Seq<int>, k: int, i: int) -> bool {
    starts[k] <= i < end(order, starts, k)
}

/// Whether `starts` cuts `order` into groups of one priority each, with ascending priorities.
#[verifier::opaque]
spec fn grouped(order: Seq<usize>, starts: Seq<int>, prios: Seq<i32>) -> bool {
    &&& order.len() > 0 ==> starts.len() > 0
    &&& starts.len() > 0 ==> starts[0] == 0
    &&& forall|k: int| 0 <= k < starts.len() ==> 0 <= #[trigger] starts[k] < order.len()
    &&& forall|a: int, b: int| 0 <= a < b < starts.len() ==> #[trigger] starts[a] < #[trigger] starts[b]
    &&& forall|k: int, i: int|
        0 <= k < starts.len() && #[trigger] in_group(order, starts, k, i) ==> pr(order, prios, i)
            == pr(order, prios, starts[k])
    &&& forall|a: int, b: int|
        #![trigger starts[a], starts[b]]
        0 <= a < b < starts.len() ==> pr(order, prios, starts[a]) < pr(order, prios, starts[b])
}

/// The first node of each group.
spec fn heads(order: Seq<usize>, starts: Seq<int>) -> Seq<usize> {
    Seq::new(starts.len(), |k: int| order[starts[k]])
}

/// The group that index `i` lies in, among the first `m`.
spec fn group_of(starts: Seq<int>, m: int, i: int) -> int
    decreases m,
{
    if m <= 1 || starts[m - 1] <= i {
        m - 1
    } else {
        group_of(starts, m - 1, i)
    }
}

proof fn lemma_group_of(order: Seq<usize>, starts: Seq<int>, prios: Seq<i32>, m: int, i: int)
    requires
        grouped(order, starts, prios),
        1 <= m <= starts.len(),
        0 <= i < (if m < starts.len() {
            starts[m]
        } else {
            order.len() as int
        }),
    ensures
        ({
            let k = group_of(starts, m, i);
            &&& 0 <= k < m
            &&& in_group(order, starts, k, i)
            &&& pr(order, prios, i) == pr(order, prios, starts[k])
        }),
    decreases m,
{
    reveal(grouped);
    if m > 1 && starts[m - 1] > i {
        lemma_group_of(order, starts, prios, m - 1, i);
    }
}

/// Where the groups begin.
proof fn lemma_starts(order: Seq<usize>, starts: Seq<int>, prios: Seq<i32>)
    requires
        grouped(order, starts, prios),
    ensures
        order.len() > 0 ==> starts.len() > 0,
        starts.len() > 0 ==> starts[0] == 0,
        forall|k: int| 0 <= k < starts.len() ==> 0 <= #[trigger] starts[k] < order.len(),
        forall|k: int|
            0 <= k < starts.len() ==> starts[k] < #[trigger] end(order, starts, k) <= order.len(),
{
    reveal(grouped);
}

proof fn lemma_grouped_sorted(order: Seq<usize>, starts: Seq<int>, prios: Seq<i32>)
    requires
        grouped(order, starts, prios),
    ensures
        sorted(order, prios),
{
    reveal(grouped);
    assert forall|i: int, j: int| 0 <= i <= j < order.len() implies prios[#[trigger] order[i] as int]
        <= prios[#[trigger] order[j] as int] by {
        let m = starts.len() as int;
        lemma_group_of(order, starts, prios, m, i);
        lemma_group_of(order, starts, prios, m, j);
        let a = group_of(starts, m, i);
        let b = group_of(starts, m, j);
        assert(pr(order, prios, i) == pr(order, prios, starts[a]));
        assert(pr(order, prios, j) == pr(order, prios, starts[b]));
        if a > b {
            assert(starts[b + 1] <= starts[a]);
        }
    }
}

/// The first nodes of the groups are the first nodes of each priority, up to index `n`.
proof fn lemma_firsts(order: Seq<usize>, starts: Seq<int>, prios: Seq<i32>, n: int)
    requires
        grouped(order, starts, prios),
        0 < n <= order.len(),
    ensures
        first_of_each(order.take(n), prios) == heads(order, starts).take(
            group_of(starts, starts.len() as int, n - 1) + 1,
        ),
        0 <= group_of(starts, starts.len() as int, n - 1) < starts.len(),
    decreases n,
{
    reveal(grouped);
    let m = starts.len() as int;
    let o = order.take(n);
    let h = heads(order, starts);
    let g = group_of(starts, m, n - 1);
    lemma_group_of(order, starts, prios, m, n - 1);
    if n == 1 {
        reveal_with_fuel(first_of_each, 2);
        if g > 0 {
            assert(starts[0] < starts[g]);
        }
        assert(first_of_each(o, prios) =~= h.take(1));
    } else {
        lemma_firsts(order, starts, prios, n - 1);
        lemma_group_of(order, starts, prios, m, n - 2);
        let p = group_of(starts, m, n - 2);
        assert(o.drop_last() =~= order.take(n - 1));
        assert(o[o.len() - 2] == order[n - 2] && o.last() == order[n - 1]);
        assert(pr(order, prios, n - 1) == pr(order, prios, starts[g]));
        assert(pr(order, prios, n - 2) == pr(order, prios, starts[p]));
        if p < g {
            assert(starts[p + 1] <= starts[g]);
            assert(starts[g] == n - 1);
            if p + 1 < g {
                assert(starts[p + 1] < starts[g]);
            }
            assert(h.take(g + 1) =~= h.take(p + 1).push(order[n - 1]));
        } else if g < p {
            assert(starts[g + 1] <= starts[p]);
        }
    }
}

/// The position of a new entry: everything before it is at most `p`, everything behind above `p`.
proof fn lemma_sorted_position(ps: Seq<i32>, p: i32, pos: int)
    requires
        0 <= pos <= ps.len(),
        forall|i: int| 0 <= i < pos ==> ps[i] <= p,
        forall|i: int| pos <= i < ps.len() ==> ps[i] > p,
    ensures
        sorted_position(ps, p) == pos,
    decreases ps.len(),
{
    if ps.len() > 0 && ps.last() > p {
        lemma_sorted_position(ps.drop_last(), p, pos);
    }
}

/// `starts` after an entry has come in before group `h`.
spec fn shifted_up(starts: Seq<int>, h: int) -> Seq<int> {
    Seq::new(
        starts.len(),
        |j: int|
            if j >= h {
                starts[j] + 1
            } else {
                starts[j]
            },
    )
}

/// `starts` after the entry at `i` has gone.
spec fn shifted_down(starts: Seq<int>, i: int) -> Seq<int> {
    Seq::new(
        starts.len(),
        |j: int|
            if starts[j] > i {
                starts[j] - 1
            } else {
                starts[j]
            },
    )
}

/// A node joins the end of the group before `h`.
proof fn lemma_join_group(order: Seq<usize>, starts: Seq<int>, prios: Seq<i32>, h: int, node: usize)
    requires
        grouped(order, starts, prios),
        1 <= h <= starts.len(),
        prios[node as int] == pr(order, prios, starts[h - 1]),
    ensures
        ({
            let pos = end(order, starts, h - 1);
            let order2 = order.insert(pos, node);
            &&& 0 <= pos <= order.len()
            &&& grouped(order2, shifted_up(starts, h), prios)
            &&& heads(order2, shifted_up(starts, h)) == heads(order, starts)
            &&& order2 == added(order, prios, node)
            &&& sorted_position(prios_of(order, prios), prios[node as int]) == pos
        }),
{
    reveal(grouped);
    let pos = end(order, starts, h - 1);
    let order2 = order.insert(pos, node);
    let starts2 = shifted_up(starts, h);
    assert forall|k: int, i: int|
        0 <= k < starts2.len() && #[trigger] in_group(order2, starts2, k, i) implies pr(
        order2,
        prios,
        i,
    ) == pr(order2, prios, starts2[k]) by {
        assert(starts[k] <= starts[h - 1] || k >= h);
        if k >= h {
            assert(order2[i] == order[i - 1]);
            assert(order2[starts2[k]] == order[starts[k]]);
            assert(in_group(order, starts, k, i - 1));
        } else {
            assert(k + 1 < starts.len() ==> starts2[k + 1] == (if k + 1 >= h {
                starts[k + 1] + 1
            } else {
                starts[k + 1]
            }));
            assert(k < h - 1 ==> starts[k + 1] <= starts[h - 1]);
            assert(order2[starts2[k]] == order[starts[k]]);
            if i != pos {
                assert(i < pos);
                assert(order2[i] == order[i]);
                assert(in_group(order, starts, k, i));
            }
        }
    }
    assert forall|k: int| 0 <= k < starts2.len() implies order2[#[trigger] starts2[k]] == order[starts[k]] by {
        if k < h {
            assert(k == h - 1 || starts[k] < starts[h - 1]);
        } else {
            assert(k == h || starts[h] < starts[k]);
        }
    }
    assert(heads(order2, starts2) =~= heads(order, starts));
    lemma_grouped_sorted(order, starts, prios);
    lemma_position(order, starts, prios, h, node);
}

/// The end of the group before `h` is where a node comes in whose priority is not below that group's
/// and below that of group `h`.
proof fn lemma_position(order: Seq<usize>, starts: Seq<int>, prios: Seq<i32>, h: int, node: usize)
    requires
        grouped(order, starts, prios),
        0 <= h <= starts.len(),
        h > 0 ==> prios[node as int] >= pr(order, prios, starts[h - 1]),
        h < starts.len() ==> prios[node as int] < pr(order, prios, starts[h]),
    ensures
        sorted_position(prios_of(order, prios), prios[node as int]) == (if h < starts.len() {
            starts[h]
        } else {
            order.len() as int
        }),
{
    reveal(grouped);
    let ps = prios_of(order, prios);
    let pos = if h < starts.len() {
        starts[h]
    } else {
        order.len() as int
    };
    lemma_grouped_sorted(order, starts, prios);
    assert forall|i: int| 0 <= i < pos implies ps[i] <= prios[node as int] by {
        let m = starts.len() as int;
        lemma_group_of(order, starts, prios, m, i);
        let k = group_of(starts, m, i);
        if k >= h {
            assert(starts[h] <= starts[k]);
        }
        assert(pr(order, prios, i) == pr(order, prios, starts[k]));
        assert(k == h - 1 || starts[k] < starts[h - 1]);
    }
    assert forall|i: int| pos <= i < ps.len() implies ps[i] > prios[node as int] by {
        assert(prios[order[pos] as int] <= prios[order[i] as int]);
    }
    lemma_sorted_position(ps, prios[node as int], pos);
}

/// A node makes a group of its own before group `h`.
proof fn lemma_new_group(order: Seq<usize>, starts: Seq<int>, prios: Seq<i32>, h: int, node: usize)
    requires
        grouped(order, starts, prios),
        0 <= h <= starts.len(),
        h > 0 ==> prios[node as int] > pr(order, prios, starts[h - 1]),
        h < starts.len() ==> prios[node as int] < pr(order, prios, starts[h]),
    ensures
        ({
            let pos = if h < starts.len() {
                starts[h]
            } else {
                order.len() as int
            };
            let order2 = order.insert(pos, node);
            let starts2 = shifted_up(starts, h).insert(h, pos);
            &&& 0 <= pos <= order.len()
            &&& grouped(order2, starts2, prios)
            &&& heads(order2, starts2) == heads(order, starts).insert(h, node)
            &&& order2 == added(order, prios, node)
        }),
{
    reveal(grouped);
    let pos = if h < starts.len() {
        starts[h]
    } else {
        order.len() as int
    };
    let order2 = order.insert(pos, node);
    let starts2 = shifted_up(starts, h).insert(h, pos);
    assert forall|k: int| 0 <= k < starts2.len() implies #[trigger] starts2[k] == (if k < h {
        starts[k]
    } else if k == h {
        pos
    } else {
        starts[k - 1] + 1
    }) by {}
    assert forall|k: int| 0 <= k < starts.len() implies (k < h ==> #[trigger] starts[k] < pos) && (k
        >= h ==> starts[k] >= pos) by {}
    assert forall|k: int| 0 <= k < starts2.len() implies order2[#[trigger] starts2[k]] == (if k < h {
        order[starts[k]]
    } else if k == h {
        node
    } else {
        order[starts[k - 1]]
    }) by {}
    assert(heads(order2, starts2) =~= heads(order, starts).insert(h, node));
    assert forall|a: int, b: int| 0 <= a < b < starts2.len() implies #[trigger] starts2[a]
        < #[trigger] starts2[b] by {}
    assert forall|a: int, b: int|
        #![trigger starts2[a], starts2[b]]
        0 <= a < b < starts2.len() implies pr(order2, prios, starts2[a]) < pr(
        order2,
        prios,
        starts2[b],
    ) by {
        if a == h {
            assert(b - 1 == h || starts[h] < starts[b - 1]);
        } else if b == h {
            assert(a == h - 1 || starts[a] < starts[h - 1]);
        } else {
            let a1 = if a < h {
                a
            } else {
                a - 1
            };
            let b1 = if b < h {
                b
            } else {
                b - 1
            };
            assert(starts[a1] < starts[b1]);
        }
    }
    assert forall|k: int, i: int|
        0 <= k < starts2.len() && #[trigger] in_group(order2, starts2, k, i) implies pr(
        order2,
        prios,
        i,
    ) == pr(order2, prios, starts2[k]) by {
        if k + 1 < starts2.len() {
            assert(starts2[k + 1] == (if k + 1 < h {
                starts[k + 1]
            } else if k + 1 == h {
                pos
            } else {
                starts[k] + 1
            }));
        }
        if k < h {
            assert(order2[i] == order[i]);
            assert(in_group(order, starts, k, i));
            assert(pr(order, prios, i) == pr(order, prios, starts[k]));
        } else if k > h {
            assert(order2[i] == order[i - 1]);
            assert(in_group(order, starts, k - 1, i - 1));
            assert(pr(order, prios, i - 1) == pr(order, prios, starts[k - 1]));
        }
    }
    lemma_position(order, starts, prios, h, node);
}

/// The entry at `i` leaves group `k`, which has others.
proof fn lemma_leave_group(order: Seq<usize>, starts: Seq<int>, prios: Seq<i32>, k: int, i: int)
    requires
        grouped(order, starts, prios),
        0 <= k < starts.len(),
        in_group(order, starts, k, i),
        end(order, starts, k) - starts[k] >= 2,
    ensures
        ({
            let order2 = order.remove(i);
            let starts2 = shifted_down(starts, i);
            &&& grouped(order2, starts2, prios)
            &&& heads(order2, starts2) == (if i == starts[k] {
                heads(order, starts).update(k, order[i + 1])
            } else {
                heads(order, starts)
            })
        }),
{
    reveal(grouped);
    let order2 = order.remove(i);
    let starts2 = shifted_down(starts, i);
    let e = end(order, starts, k);
    assert forall|j: int| 0 <= j < starts.len() implies (j <= k ==> #[trigger] starts[j] <= starts[k])
        && (j > k ==> starts[j] >= e) by {
        assert(j > k + 1 ==> starts[k + 1] < starts[j]);
    }
    assert forall|j: int| 0 <= j < starts2.len() implies #[trigger] starts2[j] == (if j > k {
        starts[j] - 1
    } else {
        starts[j]
    }) by {
        assert(starts[j] <= starts[k] || starts[j] >= e);
    }
    assert forall|j: int| 0 <= j < starts2.len() implies order2[#[trigger] starts2[j]] == (if j == k && i
        == starts[k] {
        order[i + 1]
    } else {
        order[starts[j]]
    }) by {
        assert(j > k ==> starts[j] >= e);
        assert(j < k ==> starts[j] < starts[k]);
    }
    assert(in_group(order, starts, k, starts[k] + 1));
    assert(heads(order2, starts2) =~= (if i == starts[k] {
        heads(order, starts).update(k, order[i + 1])
    } else {
        heads(order, starts)
    }));
    assert forall|j: int| 0 <= j < starts2.len() implies 0 <= #[trigger] starts2[j] < order2.len() by {
        assert(j < k ==> starts[j] < starts[k]);
        assert(starts[j] < order.len());
    }
    assert forall|a: int, b: int| 0 <= a < b < starts2.len() implies #[trigger] starts2[a]
        < #[trigger] starts2[b] by {
        assert(starts[a] < starts[b]);
        if a <= k < b {
            assert(starts[a] <= starts[k]);
            assert(starts[b] >= e);
        }
    }
    assert forall|a: int, b: int|
        #![trigger starts2[a], starts2[b]]
        0 <= a < b < starts2.len() implies pr(order2, prios, starts2[a]) < pr(
        order2,
        prios,
        starts2[b],
    ) by {
        assert(starts[a] < starts[b]);
    }
    assert forall|m: int, x: int|
        0 <= m < starts2.len() && #[trigger] in_group(order2, starts2, m, x) implies pr(
        order2,
        prios,
        x,
    ) == pr(order2, prios, starts2[m]) by {
        assert(m + 1 < starts2.len() ==> starts2[m + 1] == (if m + 1 > k {
            starts[m + 1] - 1
        } else {
            starts[m + 1]
        }));
        assert(m < k ==> starts[m] < starts[k] && starts[m + 1] <= starts[k]);
        let y = if x < i {
            x
        } else {
            x + 1
        };
        assert(order2[x] == order[y]);
        assert(in_group(order, starts, m, y));
    }
}

/// Group `k`, which has one entry, goes.
proof fn lemma_drop_group(order: Seq<usize>, starts: Seq<int>, prios: Seq<i32>, k: int)
    requires
        grouped(order, starts, prios),
        0 <= k < starts.len(),
        end(order, starts, k) - starts[k] == 1,
    ensures
        ({
            let i = starts[k];
            let order2 = order.remove(i);
            let starts2 = shifted_down(starts, i).remove(k);
            &&& grouped(order2, starts2, prios)
            &&& heads(order2, starts2) == heads(order, starts).remove(k)
        }),
{
    reveal(grouped);
    let i = starts[k];
    let order2 = order.remove(i);
    let starts2 = shifted_down(starts, i).remove(k);
    assert forall|j: int| 0 <= j < starts2.len() implies #[trigger] starts2[j] == (if j < k {
        starts[j]
    } else {
        starts[j + 1] - 1
    }) by {
        assert(j < k ==> starts[j] < starts[k]);
        assert(j >= k ==> starts[k] < starts[j + 1]);
    }
    assert forall|j: int| 0 <= j < starts2.len() implies order2[#[trigger] starts2[j]] == (if j < k {
        order[starts[j]]
    } else {
        order[starts[j + 1]]
    }) by {
        assert(j < k ==> starts[j] < starts[k]);
        assert(j >= k ==> starts[k] < starts[j + 1]);
    }
    assert(heads(order2, starts2) =~= heads(order, starts).remove(k));
    assert forall|j: int| 0 <= j < starts2.len() implies 0 <= #[trigger] starts2[j] < order2.len() by {
        assert(j < k ==> starts[j] < starts[k]);
        assert(j >= k ==> starts[k] < starts[j + 1]);
    }
    assert forall|a: int, b: int| 0 <= a < b < starts2.len() implies #[trigger] starts2[a]
        < #[trigger] starts2[b] by {
        let a1 = if a < k {
            a
        } else {
            a + 1
        };
        let b1 = if b < k {
            b
        } else {
            b + 1
        };
        assert(starts[a1] < starts[b1]);
        if a < k <= b {
            assert(starts[a] < starts[k]);
            assert(starts[k] < starts[b + 1]);
        }
    }
    assert forall|a: int, b: int|
        #![trigger starts2[a], starts2[b]]
        0 <= a < b < starts2.len() implies pr(order2, prios, starts2[a]) < pr(
        order2,
        prios,
        starts2[b],
    ) by {
        let a1 = if a < k {
            a
        } else {
            a + 1
        };
        let b1 = if b < k {
            b
        } else {
            b + 1
        };
        assert(starts[a1] < starts[b1]);
    }
    assert forall|m: int, x: int|
        0 <= m < starts2.len() && #[trigger] in_group(order2, starts2, m, x) implies pr(
        order2,
        prios,
        x,
    ) == pr(order2, prios, starts2[m]) by {
        assert(m + 1 < starts2.len() ==> starts2[m + 1] == (if m + 1 < k {
            starts[m + 1]
        } else {
            starts[m + 2] - 1
        }));
        if m < k {
            assert(m + 1 < k ==> starts[m + 1] < starts[k]);
            assert(starts[k] == i);
            assert(order2[x] == order[x]);
            assert(in_group(order, starts, m, x));
        } else {
            assert(starts[k] < starts[m + 1]);
            assert(order2[x] == order[x + 1]);
            assert(in_group(order, starts, m + 1, x + 1));
        }
    }
    if order2.len() > 0 && k == 0 {
        assert(starts.len() > 1);
        assert(starts2[0] == starts[1] - 1);
    }
}

impl plist_head {
    /// How many nodes there are, on the list or not.
    pub closed spec fn count(self) -> int {
        self.nodes@.len() as int
    }

    /// The nodes on the list, in order.
    pub closed spec fn order(self) -> Seq<usize> {
        self.order@
    }

    /// The priorities of all nodes.
    pub closed spec fn prios(self) -> Seq<i32> {
        Seq::new(self.nodes@.len(), |i: int| self.nodes@[i].prio)
    }

    /// The links of the list of all nodes: those of the nodes, and those of the head behind them.
    pub closed spec fn node_links(self) -> Seq<list_head> {
        Seq::new(
            (self.nodes@.len() + 1) as nat,
            |i: int|
                if i < self.nodes@.len() {
                    self.nodes@[i].node_list
                } else {
                    self.node_list
                },
        )
    }

    /// The links of the list of the first nodes.
    pub closed spec fn prio_links(self) -> Seq<list_head> {
        Seq::new(self.nodes@.len(), |i: int| self.nodes@[i].prio_list)
    }

    /// The head and the nodes on the list.
    spec fn circle(self) -> Seq<usize> {
        self.order@.insert(0, self.nodes@.len() as usize)
    }

    spec fn heads(self) -> Seq<usize> {
        heads(self.order@, self.starts@)
    }

    /// Whether the links of both lists are as the order of the nodes asks, and the order is sorted.
    pub closed spec fn wf(self) -> bool {
        &&& self.nodes@.len() < usize::MAX
        &&& ring(self.node_links(), self.circle())
        &&& forall|i: int| 0 <= i < self.order@.len() ==> #[trigger] self.order@[i] < self.nodes@.len()
        &&& grouped(self.order@, self.starts@, self.prios())
        &&& self.starts@.len() > 0 ==> ring(self.prio_links(), self.heads())
        &&& forall|x: usize|
            x < self.nodes@.len() && !#[trigger] self.heads().contains(x) ==> alone(
                self.prio_links(),
                x,
            )
        &&& forall|x: usize|
            x < self.nodes@.len() && !#[trigger] self.order@.contains(x) ==> alone(
                self.node_links(),
                x,
            )
    }

    /// What a well-formed list promises: its nodes exist, occur once, and are sorted.
    pub proof fn lemma_wf(self)
        requires
            self.wf(),
        ensures
            self.order().no_duplicates(),
            forall|i: int| 0 <= i < self.order().len() ==> #[trigger] self.order()[i] < self.count(),
            sorted(self.order(), self.prios()),
            self.prios().len() == self.count(),
    {
        let c = self.circle();
        assert forall|i: int, j: int|
            0 <= i < self.order@.len() && 0 <= j < self.order@.len() && i != j implies self.order@[i]
            != self.order@[j] by {
            assert(c[i + 1] == self.order@[i] && c[j + 1] == self.order@[j]);
        }
        lemma_grouped_sorted(self.order@, self.starts@, self.prios());
    }

    /// What the links of a well-formed list are: all nodes on it are linked behind the head, in order,
    /// the first node of each priority is linked to those of the next and the previous priority, and
    /// every other link leads to its own node.
    pub proof fn lemma_links(self)
        requires
            self.wf(),
        ensures
            ring(self.node_links(), self.order().insert(0, self.count() as usize)),
            self.order().len() > 0 ==> ring(
                self.prio_links(),
                first_of_each(self.order(), self.prios()),
            ),
            forall|x: usize|
                x < self.count() && !#[trigger] self.order().contains(x) ==> alone(
                    self.node_links(),
                    x,
                ),
            forall|x: usize|
                x < self.count() && !#[trigger] first_of_each(
                    self.order(),
                    self.prios(),
                ).contains(x) ==> alone(self.prio_links(), x),
    {
        let order = self.order@;
        let starts = self.starts@;
        let n = order.len() as int;
        reveal(grouped);
        if n > 0 {
            lemma_firsts(order, starts, self.prios(), n);
            lemma_group_of(order, starts, self.prios(), starts.len() as int, n - 1);
            let g = group_of(starts, starts.len() as int, n - 1);
            if g + 1 < starts.len() {
                assert(starts[g + 1] < n);
            }
            assert(order.take(n) =~= order);
            assert(self.heads().take(g + 1) =~= self.heads());
        } else {
            if starts.len() > 0 {
                assert(starts[0] < n);
            }
            assert(self.heads() =~= first_of_each(order, self.prios()));
        }
    }

    /// Makes a list with `count` nodes of priority 0, none of which is on it.
    pub fn new(count: usize) -> (head: plist_head)
        requires
            count < usize::MAX,
        ensures
            head.wf(),
            head.count() == count,
            head.order() == Seq::<usize>::empty(),
            head.prios() == Seq::new(count as nat, |i: int| 0i32),
    {
        let mut nodes: Vec<plist_node> = Vec::new();
        let mut i: usize = 0;
        while i < count
            invariant
                i <= count,
                nodes@.len() == i,
                forall|k: int|
                    0 <= k < i ==> (#[trigger] nodes@[k]).prio == 0 && nodes@[k].prio_list.next == k
                        && nodes@[k].prio_list.prev == k && nodes@[k].node_list.next == k
                        && nodes@[k].node_list.prev == k,
            decreases count - i,
        {
            let l = list_head { next: i, prev: i };
            nodes.push(plist_node { prio: 0, prio_list: l, node_list: l });
            i = i + 1;
        }
        let head = plist_head {
            node_list: list_head { next: count, prev: count },
            nodes,
            order: Ghost(Seq::empty()),
            starts: Ghost(Seq::empty()),
        };
        proof {
            reveal(grouped);
            assert(head.circle() =~= seq![count]);
            lemma_single(head.node_links(), count);
            assert(head.prios() =~= Seq::new(count as nat, |i: int| 0i32));
        }
        head
    }

    /// The priority of a node.
    pub fn prio(&self, node: usize) -> (prio: i32)
        requires
            node < self.count(),
        ensures
            prio == self.prios()[node as int],
    {
        self.nodes[node].prio
    }

    /// Sets the priority of a node that is not on the list.
    pub fn set_prio(&mut self, node: usize, prio: i32)
        requires
            old(self).wf(),
            node < old(self).count(),
            !old(self).order().contains(node),
        ensures
            final(self).wf(),
            final(self).count() == old(self).count(),
            final(self).order() == old(self).order(),
            final(self).prios() == old(self).prios().update(node as int, prio),
    {
        let mut n = self.nodes[node];
        n.prio = prio;
        self.nodes.set(node, n);
        proof {
            assert(self.node_links() =~= old(self).node_links());
            assert(self.prio_links() =~= old(self).prio_links());
            assert(self.prios() =~= old(self).prios().update(node as int, prio));
            reveal(grouped);
            let o = self.order@;
            assert forall|i: int| 0 <= i < o.len() implies #[trigger] pr(o, self.prios(), i) == pr(
                o,
                old(self).prios(),
                i,
            ) by {
                assert(o.contains(o[i]));
            }
            assert forall|k: int, i: int|
                0 <= k < self.starts@.len() && #[trigger] in_group(o, self.starts@, k, i) implies pr(
                o,
                self.prios(),
                i,
            ) == pr(o, self.prios(), self.starts@[k]) by {
                assert(k + 1 < self.starts@.len() ==> self.starts@[k + 1] < o.len());
            }
            assert(grouped(o, self.starts@, self.prios()));
            assert(self.heads() == old(self).heads());
            assert(self.circle() == old(self).circle());
        }
    }

    fn node_next(&self, i: usize) -> (r: usize)
        requires
            i <= self.nodes@.len(),
        ensures
            r == self.node_links()[i as int].next,
    {
        if i < self.nodes.len() {
            self.nodes[i].node_list.next
        } else {
            self.node_list.next
        }
    }

    fn node_prev(&self, i: usize) -> (r: usize)
        requires
            i <= self.nodes@.len(),
        ensures
            r == self.node_links()[i as int].prev,
    {
        if i < self.nodes.len() {
            self.nodes[i].node_list.prev
        } else {
            self.node_list.prev
        }
    }

    /// What the operations on one of the two lists leave as it is.
    spec fn same_but_nodes(self, other: plist_head) -> bool {
        &&& self.nodes@.len() == other.nodes@.len()
        &&& self.prio_links() == other.prio_links()
        &&& self.prios() == other.prios()
        &&& self.order == other.order
        &&& self.starts == other.starts
    }

    spec fn same_but_prios(self, other: plist_head) -> bool {
        &&& self.nodes@.len() == other.nodes@.len()
        &&& self.node_links() == other.node_links()
        &&& self.prios() == other.prios()
        &&& self.order == other.order
        &&& self.starts == other.starts
    }

    fn set_node_links(&mut self, i: usize, l: list_head)
        requires
            i <= old(self).nodes@.len(),
        ensures
            final(self).same_but_nodes(*old(self)),
            final(self).node_links() == old(self).node_links().update(i as int, l),
    {
        if i < self.nodes.len() {
            let mut n = self.nodes[i];
            n.node_list = l;
            self.nodes.set(i, n);
        } else {
            self.node_list = l;
        }
        assert(self.node_links() =~= old(self).node_links().update(i as int, l));
        assert(self.prio_links() =~= old(self).prio_links());
        assert(self.prios() =~= old(self).prios());
    }

    fn set_prio_links(&mut self, i: usize, l: list_head)
        requires
            i < old(self).nodes@.len(),
        ensures
            final(self).same_but_prios(*old(self)),
            final(self).prio_links() == old(self).prio_links().update(i as int, l),
    {
        let mut n = self.nodes[i];
        n.prio_list = l;
        self.nodes.set(i, n);
        assert(self.node_links() =~= old(self).node_links());
        assert(self.prio_links() =~= old(self).prio_links().update(i as int, l));
        assert(self.prios() =~= old(self).prios());
    }

    /// Puts a node before `at` on the list of all nodes.
    fn node_list_add_tail(&mut self, new: usize, at: usize)
        requires
            new < old(self).nodes@.len(),
            at <= old(self).nodes@.len(),
            old(self).node_links()[at as int].prev <= old(self).nodes@.len(),
            new != at,
            new != old(self).node_links()[at as int].prev,
        ensures
            final(self).same_but_nodes(*old(self)),
            final(self).node_links() == spliced(
                old(self).node_links(),
                old(self).node_links()[at as int].prev,
                new,
                at,
            ),
    {
        let before = self.node_prev(at);
        let at_next = self.node_next(at);
        self.set_node_links(at, list_head { next: at_next, prev: new });
        self.set_node_links(new, list_head { next: at, prev: before });
        let before_prev = self.node_prev(before);
        self.set_node_links(before, list_head { next: new, prev: before_prev });
        assert(self.node_links() =~= spliced(old(self).node_links(), before, new, at));
    }

    /// Takes a node off the list of all nodes.
    fn node_list_del_init(&mut self, node: usize)
        requires
            node < old(self).nodes@.len(),
            old(self).node_links()[node as int].prev <= old(self).nodes@.len(),
            old(self).node_links()[node as int].next <= old(self).nodes@.len(),
            old(self).node_links()[old(self).node_links()[node as int].prev as int].next == node,
            old(self).node_links()[old(self).node_links()[node as int].next as int].prev == node,
        ensures
            final(self).same_but_nodes(*old(self)),
            final(self).node_links() == unlinked(old(self).node_links(), node),
    {
        let before = self.node_prev(node);
        let after = self.node_next(node);
        let after_next = self.node_next(after);
        self.set_node_links(after, list_head { next: after_next, prev: before });
        let before_prev = self.node_prev(before);
        self.set_node_links(before, list_head { next: after, prev: before_prev });
        self.set_node_links(node, list_head { next: node, prev: node });
        assert(self.node_links() =~= unlinked(old(self).node_links(), node));
    }

    fn prio_next(&self, i: usize) -> (r: usize)
        requires
            i < self.nodes@.len(),
        ensures
            r == self.prio_links()[i as int].next,
    {
        self.nodes[i].prio_list.next
    }

    fn prio_prev(&self, i: usize) -> (r: usize)
        requires
            i < self.nodes@.len(),
        ensures
            r == self.prio_links()[i as int].prev,
    {
        self.nodes[i].prio_list.prev
    }

    /// Puts a node before `at` on the list of the first nodes of each priority.
    fn prio_list_add_tail(&mut self, new: usize, at: usize)
        requires
            new < old(self).nodes@.len(),
            at < old(self).nodes@.len(),
            old(self).prio_links()[at as int].prev < old(self).nodes@.len(),
            new != at,
            new != old(self).prio_links()[at as int].prev,
        ensures
            final(self).same_but_prios(*old(self)),
            final(self).prio_links() == spliced(
                old(self).prio_links(),
                old(self).prio_links()[at as int].prev,
                new,
                at,
            ),
    {
        let before = self.prio_prev(at);
        let at_next = self.prio_next(at);
        self.set_prio_links(at, list_head { next: at_next, prev: new });
        self.set_prio_links(new, list_head { next: at, prev: before });
        let before_prev = self.prio_prev(before);
        self.set_prio_links(before, list_head { next: new, prev: before_prev });
        assert(self.prio_links() =~= spliced(old(self).prio_links(), before, new, at));
    }

    /// Puts a node behind `at` on the list of the first nodes of each priority.
    fn prio_list_add(&mut self, new: usize, at: usize)
        requires
            new < old(self).nodes@.len(),
            at < old(self).nodes@.len(),
            old(self).prio_links()[at as int].next < old(self).nodes@.len(),
            new != at,
            new != old(self).prio_links()[at as int].next,
        ensures
            final(self).same_but_prios(*old(self)),
            final(self).prio_links() == spliced(
                old(self).prio_links(),
                at,
                new,
                old(self).prio_links()[at as int].next,
            ),
    {
        let after = self.prio_next(at);
        let after_next = self.prio_next(after);
        self.set_prio_links(after, list_head { next: after_next, prev: new });
        self.set_prio_links(new, list_head { next: after, prev: at });
        let at_prev = self.prio_prev(at);
        self.set_prio_links(at, list_head { next: new, prev: at_prev });
        assert(self.prio_links() =~= spliced(old(self).prio_links(), at, new, after));
    }

    /// Takes a node off the list of the first nodes of each priority.
    fn prio_list_del_init(&mut self, node: usize)
        requires
            node < old(self).nodes@.len(),
            old(self).prio_links()[node as int].prev < old(self).nodes@.len(),
            old(self).prio_links()[node as int].next < old(self).nodes@.len(),
            old(self).prio_links()[old(self).prio_links()[node as int].prev as int].next == node,
            old(self).prio_links()[old(self).prio_links()[node as int].next as int].prev == node,
        ensures
            final(self).same_but_prios(*old(self)),
            final(self).prio_links() == unlinked(old(self).prio_links(), node),
    {
        let before = self.prio_prev(node);
        let after = self.prio_next(node);
        let after_next = self.prio_next(after);
        self.set_prio_links(after, list_head { next: after_next, prev: before });
        let before_prev = self.prio_prev(before);
        self.set_prio_links(before, list_head { next: after, prev: before_prev });
        self.set_prio_links(node, list_head { next: node, prev: node });
        assert(self.prio_links() =~= unlinked(old(self).prio_links(), node));
    }
}

/// A node comes in at `pos` of the nodes of a circle, whose head is `n`.
proof fn lemma_circle_insert(l: Seq<list_head>, n: usize, order: Seq<usize>, pos: int, node: usize)
    requires
        ring(l, order.insert(0, n)),
        0 <= pos <= order.len(),
        node < l.len(),
        node != n,
        !order.contains(node),
        l.len() == n + 1,
    ensures
        ({
            let c = order.insert(0, n);
            let l2 = spliced(l, c[pos], node, succ(c, pos));
            &&& ring(l2, order.insert(pos, node).insert(0, n))
            &&& linked(l, c, pos)
            &&& c[pos] != node && succ(c, pos) != node
            &&& succ(c, pos) < l.len()
            &&& l[succ(c, pos) as int].prev == c[pos]
            &&& succ(c, pos) == (if pos < order.len() {
                order[pos]
            } else {
                n
            })
            &&& forall|x: usize|
                x < n && !order.insert(pos, node).contains(x) && alone(l, x) ==> #[trigger] alone(
                    l2,
                    x,
                )
        }),
{
    let c = order.insert(0, n);
    let order2 = order.insert(pos, node);
    assert forall|i: int| 0 <= i < c.len() implies c[i] == (if i == 0 {
        n
    } else {
        order[i - 1]
    }) by {}
    if c.contains(node) {
        let i = choose|i: int| 0 <= i < c.len() && c[i] == node;
        assert(order.contains(order[i - 1]));
    }
    lemma_splice(l, c, pos + 1, node);
    assert(c.insert(pos + 1, node) =~= order2.insert(0, n));
    assert(linked(l, c, pos));
    assert(linked(l, c, 0));
    if pos < order.len() {
        assert(linked(l, c, pos + 1));
    }
    let l2 = spliced(l, c[pos], node, succ(c, pos));
    assert(order2[pos] == node);
    assert forall|x: usize| x < n && !order2.contains(x) && alone(l, x) implies #[trigger] alone(l2, x) by {
        if exists|j: int| 0 <= j < c.len() && c[j] == x {
            let j = choose|j: int| 0 <= j < c.len() && c[j] == x;
            assert(order[j - 1] == x);
            let i = if j - 1 < pos {
                j - 1
            } else {
                j
            };
            assert(order2[i] == x);
        }
        assert(l2[x as int] == l[x as int]);
    }
}

/// A node comes in at `h` of a ring, before the entry `at`.
proof fn lemma_ring_insert(l: Seq<list_head>, s: Seq<usize>, h: int, at: usize, node: usize)
    requires
        ring(l, s),
        0 <= h <= s.len(),
        node < l.len(),
        !s.contains(node),
        at == (if h < s.len() {
            s[h]
        } else {
            s[0]
        }),
    ensures
        ({
            let l2 = spliced(l, l[at as int].prev, node, at);
            &&& at < l.len() && l[at as int].prev < l.len()
            &&& at != node && l[at as int].prev != node
            &&& ring(l2, s.insert(h, node))
            &&& forall|x: usize|
                x < l.len() && !s.insert(h, node).contains(x) && alone(l, x) ==> #[trigger] alone(
                    l2,
                    x,
                )
        }),
{
    let m = s.len() as int;
    let i: int = if h == 0 {
        m
    } else {
        h
    };
    assert(linked(l, s, i - 1));
    assert(linked(l, s, 0));
    if h < m {
        assert(linked(l, s, h));
    }
    assert(s.contains(s[i - 1]));
    assert(s.contains(at));
    lemma_splice(l, s, i, node);
    let l2 = spliced(l, s[i - 1], node, succ(s, i - 1));
    let t = s.insert(h, node);
    if h == 0 {
        lemma_rotate(l2, s.insert(m, node));
        assert(s.insert(m, node).drop_last() =~= s);
        assert(s.insert(m, node).drop_last().insert(0, s.insert(m, node).last()) =~= t);
    }
    assert(t[h] == node);
    assert forall|x: usize| x < l.len() && !t.contains(x) && alone(l, x) implies #[trigger] alone(
        l2,
        x,
    ) by {
        if exists|j: int| 0 <= j < s.len() && s[j] == x {
            let j = choose|j: int| 0 <= j < s.len() && s[j] == x;
            assert(t[if j < h {
                j
            } else {
                j + 1
            }] == x);
        }
        assert(l2[x as int] == l[x as int]);
    }
}

/// Adds a node to a list, behind the nodes of the same priority.
pub fn plist_add(node: usize, head: &mut plist_head)
    requires
        old(head).wf(),
        node < old(head).count(),
        !old(head).order().contains(node),
    ensures
        final(head).wf(),
        final(head).count() == old(head).count(),
        final(head).prios() == old(head).prios(),
        final(head).order() == added(old(head).order(), old(head).prios(), node),
{
    let sentinel = head.nodes.len();
    let mut node_next: usize = sentinel;
    let mut joined = false;
    let ghost mut h: int = 0;
    let ghost mut starts2: Seq<int> = Seq::empty();
    let ghost order = head.order@;
    let ghost starts = head.starts@;
    let ghost prios = head.prios();
    let ghost hs = head.heads();
    let ghost c = head.circle();
    let ghost l0 = head.node_links();
    let ghost k0 = head.prio_links();
    proof {
        lemma_starts(order, starts, prios);
        assert(linked(l0, c, 0));
        if order.len() > 0 {
            assert(starts[0] == 0);
            assert(linked(k0, hs, 0));
            assert(linked(l0, c, 1));
        }
        if hs.contains(node) {
            let k = choose|k: int| 0 <= k < hs.len() && hs[k] == node;
            assert(order[starts[k]] == node);
        }
    }
    let first = head.node_next(sentinel);
    if first != sentinel {
        let mut prev: Option<usize> = None;
        let mut iter: usize = first;
        let last = head.prio_prev(first);
        let mut reverse_iter: usize = last;
        let ghost m = hs.len() as int;
        let ghost mut t: int = 0;
        assert(order.len() > 0);
        loop
            invariant_except_break
                0 <= t < m,
                iter == hs[t],
                reverse_iter == hs[m - 1 - t],
                prev == (if t == 0 {
                    None::<usize>
                } else {
                    Some(hs[t - 1])
                }),
                node_next == sentinel,
                forall|j: int| 0 <= j < t ==> prios[#[trigger] hs[j] as int] <= prios[node as int],
                forall|j: int|
                    m - 1 - t < j < m ==> prios[#[trigger] hs[j] as int] > prios[node as int],
            invariant
                *head == *old(head),
                head.wf(),
                k0 == head.prio_links(),
                prios == head.prios(),
                hs == head.heads(),
                m == hs.len(),
                m == head.starts@.len(),
                m >= 1,
                node < head.nodes@.len(),
                sentinel == head.nodes@.len(),
                last == hs[m - 1],
                first == hs[0],
            ensures
                0 <= t <= m,
                prev == (if t == 0 {
                    None::<usize>
                } else {
                    Some(hs[t - 1])
                }),
                iter == (if t < m {
                    hs[t]
                } else {
                    hs[0]
                }),
                node_next == (if t < m {
                    hs[t]
                } else {
                    sentinel
                }),
                t > 0 ==> prios[hs[t - 1] as int] <= prios[node as int],
                t < m ==> prios[hs[t] as int] > prios[node as int],
            decreases m - t,
        {
            proof {
                assert(linked(k0, hs, t));
                assert(linked(k0, hs, m - 1 - t));
            }
            if head.prio(node) < head.prio(iter) {
                node_next = iter;
                break;
            } else if head.prio(node) >= head.prio(reverse_iter) {
                prev = Some(reverse_iter);
                iter = head.prio_next(reverse_iter);
                proof {
                    t = m - t;
                    assert(hs[m - 1] == hs[t - 1] ==> t == m);
                }
                if reverse_iter != last {
                    node_next = iter;
                }
                break;
            }
            prev = Some(iter);
            iter = head.prio_next(iter);
            reverse_iter = head.prio_prev(reverse_iter);
            proof {
                if t == m - 1 {
                    assert(hs[0] == reverse_iter || t >= 1);
                    assert(false);
                }
                t = t + 1;
            }
            if iter == first {
                assert(false);
                break;
            }
        }
        proof {
            h = t;
        }
        joined = match prev {
            None => false,
            Some(p) => head.prio(p) == head.prio(node),
        };
        if !joined {
            proof {
                lemma_ring_insert(k0, hs, h, iter, node);
            }
            head.prio_list_add_tail(node, iter);
        }
    }
    let ghost pos = if h < starts.len() {
        starts[h]
    } else {
        order.len() as int
    };
    proof {
        if joined {
            lemma_join_group(order, starts, prios, h, node);
            starts2 = shifted_up(starts, h);
        } else {
            lemma_new_group(order, starts, prios, h, node);
            starts2 = shifted_up(starts, h).insert(h, pos);
        }
        lemma_circle_insert(l0, sentinel, order, pos, node);
    }
    head.node_list_add_tail(node, node_next);
    head.order = Ghost(added(order, prios, node));
    head.starts = Ghost(starts2);
    proof {
        lemma_order_ids(order, sentinel, pos, node);
        assert(head.node_links() == spliced(l0, c[pos], node, succ(c, pos)));
        assert(head.heads() == heads(head.order@, starts2));
        if order.len() == 0 {
            assert(head.heads() =~= seq![node]);
            lemma_single(k0, node);
        }
        assert forall|x: usize| x < head.nodes@.len() && !#[trigger] head.heads().contains(x) implies alone(
            head.prio_links(),
            x,
        ) by {
            if hs.contains(x) {
                lemma_insert_contains(hs, h, node, x);
            }
            assert(alone(k0, x));
        }
        assert forall|x: usize| x < head.nodes@.len() && !#[trigger] head.order@.contains(x) implies alone(
            head.node_links(),
            x,
        ) by {
            if order.contains(x) {
                lemma_insert_contains(order, pos, node, x);
            }
            assert(alone(l0, x));
        }
    }
}

/// The entry at `i` of a ring of two or more goes.
proof fn lemma_ring_remove(l: Seq<list_head>, s: Seq<usize>, i: int)
    requires
        ring(l, s),
        0 <= i < s.len(),
        s.len() > 1,
    ensures
        ({
            let node = s[i];
            let l2 = unlinked(l, node);
            &&& node < l.len()
            &&& l[node as int].prev < l.len() && l[node as int].next < l.len()
            &&& l[l[node as int].prev as int].next == node
            &&& l[l[node as int].next as int].prev == node
            &&& l[node as int].next != node
            &&& ring(l2, s.remove(i))
            &&& alone(l2, node)
            &&& forall|x: usize| !s.contains(x) && alone(l, x) ==> #[trigger] alone(l2, x)
        }),
{
    assert(linked(l, s, i));
    assert(linked(l, s, 0));
    assert(linked(l, s, s.len() - 1));
    if i > 0 {
        assert(linked(l, s, i - 1));
    }
    if i + 1 < s.len() {
        assert(linked(l, s, i + 1));
    }
    lemma_unlink(l, s, i);
    let l2 = unlinked(l, s[i]);
    assert forall|x: usize| !s.contains(x) && alone(l, x) implies #[trigger] alone(l2, x) by {
        assert(l2[x as int] == l[x as int]);
    }
}

/// The first nodes of the groups that two neighbours of the order belong to.
proof fn lemma_heads(order: Seq<usize>, starts: Seq<int>, prios: Seq<i32>, k: int, i: int)
    requires
        grouped(order, starts, prios),
        order.no_duplicates(),
        0 <= k < starts.len(),
        in_group(order, starts, k, i),
    ensures
        heads(order, starts).contains(order[i]) == (i == starts[k]),
{
    reveal(grouped);
    let hs = heads(order, starts);
    if i == starts[k] {
        assert(hs[k] == order[i]);
    }
    if hs.contains(order[i]) {
        let j = choose|j: int| 0 <= j < hs.len() && hs[j] == order[i];
        assert(starts[j] == i);
        if j < k {
            assert(starts[j] < starts[k]);
        }
        if j > k {
            assert(starts[k + 1] <= starts[j]);
        }
    }
}

/// The links of the first nodes after the node at `i` of the order, in group `k`, has gone.
spec fn prio_links_after(
    l: Seq<list_head>,
    order: Seq<usize>,
    starts: Seq<int>,
    k: int,
    i: int,
) -> Seq<list_head> {
    let node = order[i];
    if starts.len() == 1 || i != starts[k] {
        l
    } else if end(order, starts, k) - starts[k] >= 2 {
        unlinked(spliced(l, node, order[i + 1], l[node as int].next), node)
    } else {
        unlinked(l, node)
    }
}

/// `starts` after the entry at `i` of the order, in group `k`, has gone.
spec fn starts_after(order: Seq<usize>, starts: Seq<int>, k: int, i: int) -> Seq<int> {
    if end(order, starts, k) - starts[k] >= 2 {
        shifted_down(starts, i)
    } else {
        shifted_down(starts, i).remove(k)
    }
}

proof fn lemma_prio_links_after(
    l: Seq<list_head>,
    order: Seq<usize>,
    starts: Seq<int>,
    prios: Seq<i32>,
    k: int,
    i: int,
)
    requires
        grouped(order, starts, prios),
        order.no_duplicates(),
        0 <= k < starts.len(),
        in_group(order, starts, k, i),
        ring(l, heads(order, starts)),
        forall|j: int| 0 <= j < order.len() ==> #[trigger] order[j] < l.len(),
        forall|x: usize|
            x < l.len() && !#[trigger] heads(order, starts).contains(x) ==> alone(l, x),
    ensures
        ({
            let order2 = order.remove(i);
            let starts2 = starts_after(order, starts, k, i);
            let l2 = prio_links_after(l, order, starts, k, i);
            &&& grouped(order2, starts2, prios)
            &&& starts2.len() > 0 ==> ring(l2, heads(order2, starts2))
            &&& forall|x: usize|
                x < l.len() && !#[trigger] heads(order2, starts2).contains(x) ==> alone(l2, x)
        }),
{
    let node = order[i];
    let hs = heads(order, starts);
    let m = starts.len() as int;
    let order2 = order.remove(i);
    let starts2 = starts_after(order, starts, k, i);
    let hs2 = heads(order2, starts2);
    let l2 = prio_links_after(l, order, starts, k, i);
    lemma_starts(order, starts, prios);
    lemma_heads(order, starts, prios, k, i);
    assert(linked(l, hs, k));
    assert(hs[k] == order[starts[k]]);
    if end(order, starts, k) - starts[k] >= 2 {
        lemma_leave_group(order, starts, prios, k, i);
        if i == starts[k] {
            let next = order[i + 1];
            assert(in_group(order, starts, k, i + 1));
            lemma_heads(order, starts, prios, k, i + 1);
            assert(!hs.contains(next));
            assert(alone(l, next));
            if m == 1 {
                assert(hs2 =~= seq![next]);
                lemma_single(l, next);
                assert(hs =~= seq![node]);
                lemma_single(l, node);
                assert forall|x: usize| x < l.len() && !#[trigger] hs2.contains(x) implies alone(l2, x) by {
                    if x != node && hs.contains(x) {
                        assert(hs[0] == x);
                    }
                }
            } else {
                lemma_splice(l, hs, k + 1, next);
                let s1 = hs.insert(k + 1, next);
                let l1 = spliced(l, node, next, l[node as int].next);
                assert(s1[k] == node);
                lemma_ring_remove(l1, s1, k);
                assert(s1.remove(k) =~= hs2);
                assert forall|x: usize| x < l.len() && !#[trigger] hs2.contains(x) implies alone(l2, x) by {
                    if x != node {
                        assert(hs2[k] == next);
                        if exists|j: int| 0 <= j < hs.len() && hs[j] == x {
                            let j = choose|j: int| 0 <= j < hs.len() && hs[j] == x;
                            assert(hs2[j] == x);
                        }
                        assert(!hs.contains(x));
                        assert(alone(l, x));
                        assert(l1[x as int] == l[x as int]);
                        assert(alone(l1, x));
                        lemma_insert_contains(hs, k + 1, next, x);
                        assert(!s1.contains(x));
                    }
                }
            }
        }
    } else {
        assert(i == starts[k]);
        lemma_drop_group(order, starts, prios, k);
        if m == 1 {
            assert(hs =~= seq![node]);
            lemma_single(l, node);
            assert forall|x: usize| x < l.len() && !#[trigger] hs2.contains(x) implies alone(l2, x) by {
                if x != node && hs.contains(x) {
                    assert(hs[0] == x);
                }
            }
        } else {
            lemma_ring_remove(l, hs, k);
            assert forall|x: usize| x < l.len() && !#[trigger] hs2.contains(x) implies alone(l2, x) by {
                if x != node && hs.contains(x) {
                    let j = choose|j: int| 0 <= j < hs.len() && hs[j] == x;
                    assert(hs2[if j < k {
                        j
                    } else {
                        j - 1
                    }] == x);
                }
            }
        }
    }
}

/// Removes a node from a list; a node that is on no list stays as it is.
#[verifier::rlimit(60)]
pub fn plist_del(node: usize, head: &mut plist_head)
    requires
        old(head).wf(),
        node < old(head).count(),
    ensures
        final(head).wf(),
        final(head).count() == old(head).count(),
        final(head).prios() == old(head).prios(),
        final(head).order() == deleted(old(head).order(), node),
{
    let sentinel = head.nodes.len();
    let ghost order = head.order@;
    let ghost starts = head.starts@;
    let ghost prios = head.prios();
    let ghost hs = head.heads();
    let ghost c = head.circle();
    let ghost l0 = head.node_links();
    let ghost k0 = head.prio_links();
    let ghost on = order.contains(node);
    let ghost i = order.index_of(node);
    let ghost k = group_of(starts, starts.len() as int, i);
    proof {
        head.lemma_wf();
        lemma_starts(order, starts, prios);
        if on {
            lemma_group_of(order, starts, prios, starts.len() as int, i);
            lemma_heads(order, starts, prios, k, i);
            lemma_prio_links_after(k0, order, starts, prios, k, i);
            lemma_ring_remove(l0, c, i + 1);
            assert(linked(k0, hs, k));
            assert(linked(l0, c, i + 1));
            if starts.len() > 1 && i == starts[k] {
                lemma_ring_remove(k0, hs, k);
            }
            if starts.len() == 1 {
                assert(hs =~= seq![hs[0]]);
                assert(k == 0);
            }
        } else {
            if hs.contains(node) {
                let j = choose|j: int| 0 <= j < hs.len() && hs[j] == node;
                assert(order[starts[j]] == node);
            }
            assert(alone(k0, node));
            assert(alone(l0, node));
        }
    }
    if head.prio_next(node) != node {
        assert(on && i == starts[k] && starts.len() > 1);
        let next = head.node_next(node);
        if next != sentinel {
            assert(next == order[i + 1]);
            proof {
                if end(order, starts, k) - starts[k] >= 2 {
                    assert(in_group(order, starts, k, i + 1));
                    lemma_heads(order, starts, prios, k, i + 1);
                    lemma_splice(k0, hs, k + 1, next);
                    let s1 = hs.insert(k + 1, next);
                    assert(s1[k] == node);
                    lemma_ring_remove(spliced(k0, node, next, k0[node as int].next), s1, k);
                } else {
                    assert(starts[k + 1] < end(order, starts, k + 1));
                    assert(in_group(order, starts, k + 1, i + 1));
                    lemma_heads(order, starts, prios, k + 1, i + 1);
                    lemma_ring_remove(k0, hs, k + 1);
                    assert(hs[k + 1] == next);
                }
            }
            if head.prio_next(next) == next {
                head.prio_list_add(next, node);
            }
        }
        head.prio_list_del_init(node);
    }
    head.node_list_del_init(node);
    proof {
        if on {
            head.order@ = order.remove(i);
            head.starts@ = starts_after(order, starts, k, i);
            let order2 = order.remove(i);
            assert(head.prio_links() == prio_links_after(k0, order, starts, k, i));
            assert(c.remove(i + 1) =~= order2.insert(0, sentinel));
            assert forall|x: usize| x < head.nodes@.len() && !#[trigger] head.order@.contains(x) implies alone(
                head.node_links(),
                x,
            ) by {
                if x != node {
                    if order.contains(x) {
                        let j = choose|j: int| 0 <= j < order.len() && order[j] == x;
                        assert(order2[if j < i {
                            j
                        } else {
                            j - 1
                        }] == x);
                    }
                    assert(alone(l0, x));
                    if c.contains(x) {
                        let j = choose|j: int| 0 <= j < c.len() && c[j] == x;
                        assert(order[j - 1] == x);
                    }
                }
            }
        } else {
            assert(head.node_links() =~= l0);
            assert(head.prio_links() =~= k0);
            assert(head.heads() == hs);
            assert(head.circle() == c);
        }
    }
}

/// Moves a node behind the other nodes of its priority: an optimized [`plist_del()`] followed by
/// [`plist_add()`].
#[verifier::rlimit(60)]
pub fn plist_requeue(node: usize, head: &mut plist_head)
    requires
        old(head).wf(),
        old(head).order().contains(node),
    ensures
        final(head).wf(),
        final(head).count() == old(head).count(),
        final(head).prios() == old(head).prios(),
        final(head).order() == added(
            deleted(old(head).order(), node),
            old(head).prios(),
            node,
        ),
{
    let sentinel = head.nodes.len();
    let ghost order = head.order@;
    let ghost prios = head.prios();
    let ghost c = head.circle();
    let ghost i = order.index_of(node);
    let ghost order1 = order.remove(i);
    proof {
        head.lemma_wf();
        assert(linked(head.node_links(), c, 0));
        assert(linked(head.node_links(), c, i + 1));
        assert(c[order.len() as int] == order.last());
        assert forall|a: int, b: int| 0 <= a <= b < order1.len() implies prios[#[trigger] order1[a] as int]
            <= prios[#[trigger] order1[b] as int] by {
            let a1 = if a < i {
                a
            } else {
                a + 1
            };
            let b1 = if b < i {
                b
            } else {
                b + 1
            };
            assert(prios[order[a1] as int] <= prios[order[b1] as int]);
        }
    }
    if node == head.node_prev(sentinel) {
        proof {
            assert(i == order.len() - 1);
            assert forall|a: int| 0 <= a < order1.len() implies prios_of(order1, prios)[a]
                <= prios[node as int] by {
                assert(prios[order[a] as int] <= prios[order[i] as int]);
            }
            lemma_sorted_position(prios_of(order1, prios), prios[node as int], i);
            assert(order1.insert(i, node) =~= order);
        }
        return;
    }
    let mut iter = head.node_next(node);
    assert(iter == order[i + 1]);
    if head.prio(node) != head.prio(iter) {
        proof {
            assert forall|a: int| 0 <= a < order1.len() implies (a < i ==> prios_of(order1, prios)[a]
                <= prios[node as int]) && (a >= i ==> prios_of(order1, prios)[a]
                > prios[node as int]) by {
                assert(a < i ==> prios[order[a] as int] <= prios[order[i] as int]);
                assert(prios[order[i] as int] <= prios[order[i + 1] as int]);
                assert(a >= i ==> prios[order[i + 1] as int] <= prios[order[a + 1] as int]);
            }
            lemma_sorted_position(prios_of(order1, prios), prios[node as int], i);
            assert(order1.insert(i, node) =~= order);
        }
        return;
    }
    plist_del(node, head);
    let ghost starts1 = head.starts@;
    let ghost m = starts1.len() as int;
    let ghost hs = head.heads();
    let ghost c1 = head.circle();
    let ghost l1 = head.node_links();
    let ghost k = group_of(starts1, m, i);
    let ghost pos = end(order1, starts1, k);
    let mut node_next: usize = sentinel;
    proof {
        assert(iter == order1[i]);
        head.lemma_wf();
        lemma_starts(order1, starts1, prios);
        if order1.contains(node) {
            let a = choose|a: int| 0 <= a < order1.len() && order1[a] == node;
            assert(order[if a < i {
                a
            } else {
                a + 1
            }] == node);
        }
        lemma_group_of(order1, starts1, prios, m, i);
        lemma_heads(order1, starts1, prios, k, i);
        lemma_join_group(order1, starts1, prios, k + 1, node);
        lemma_circle_insert(l1, sentinel, order1, pos, node);
        assert(linked(head.prio_links(), hs, k));
        assert(linked(l1, c1, 0));
        assert(hs[0] == order1[0]);
        if hs.contains(iter) {
            assert(iter == hs[k]);
            if m == 1 {
                assert(hs =~= seq![iter]);
            } else {
                lemma_ring_remove(head.prio_links(), hs, k);
            }
        }
    }
    // The node that took the place of the first of its priority has the next priority at hand.
    if head.prio_next(iter) != iter {
        let next = head.prio_next(iter);
        if next != head.node_next(sentinel) {
            node_next = next;
        }
    } else {
        assert(linked(l1, c1, i + 1));
        iter = head.node_next(iter);
        let ghost mut j: int = i + 1;
        while iter != sentinel
            invariant_except_break
                node_next == sentinel,
            invariant
                head.wf(),
                head.order@ == order1,
                head.prios() == prios,
                sentinel == head.nodes@.len(),
                node < head.nodes@.len(),
                l1 == head.node_links(),
                c1 == head.circle(),
                sorted(order1, prios),
                0 <= i < j <= order1.len(),
                prios[order1[i] as int] == prios[node as int],
                iter == (if j < order1.len() {
                    order1[j]
                } else {
                    sentinel
                }),
                forall|a: int| i <= a < j ==> prios[#[trigger] order1[a] as int] == prios[node as int],
            ensures
                node_next == (if j < order1.len() {
                    order1[j]
                } else {
                    sentinel
                }),
                j < order1.len() ==> prios[order1[j] as int] != prios[node as int],
            decreases order1.len() - j,
        {
            assert(linked(l1, c1, j + 1));
            assert(c1[j + 1] == order1[j]);
            if head.prio(node) != head.prio(iter) {
                node_next = iter;
                break;
            }
            iter = head.node_next(iter);
            proof {
                j = j + 1;
            }
        }
        proof {
            let ps = prios_of(order1, prios);
            assert forall|a: int| 0 <= a < ps.len() implies (a < j ==> ps[a] <= prios[node as int]) && (a
                >= j ==> ps[a] > prios[node as int]) by {
                assert(a < i ==> prios[order1[a] as int] <= prios[order1[i] as int]);
                assert(a >= j ==> prios[order1[j] as int] <= prios[order1[a] as int]);
                assert(j < ps.len() ==> prios[order1[i] as int] <= prios[order1[j] as int]);
            }
            lemma_sorted_position(ps, prios[node as int], j);
        }
    }
    head.node_list_add_tail(node, node_next);
    proof {
        head.order@ = added(order1, prios, node);
        head.starts@ = shifted_up(starts1, k + 1);
        lemma_order_ids(order1, sentinel, pos, node);
        assert(head.node_links() == spliced(l1, c1[pos], node, succ(c1, pos)));
        assert(head.heads() == hs);
        assert forall|x: usize| x < head.nodes@.len() && !#[trigger] head.order@.contains(x) implies alone(
            head.node_links(),
            x,
        ) by {
            if order1.contains(x) {
                lemma_insert_contains(order1, pos, node, x);
            }
            assert(alone(l1, x));
        }
    }
}

proof fn lemma_order_ids(order: Seq<usize>, n: usize, pos: int, node: usize)
    requires
        forall|i: int| 0 <= i < order.len() ==> #[trigger] order[i] < n,
        0 <= pos <= order.len(),
        node < n,
    ensures
        forall|i: int|
            0 <= i < order.insert(pos, node).len() ==> #[trigger] order.insert(pos, node)[i] < n,
{
}

proof fn lemma_insert_contains(s: Seq<usize>, pos: int, node: usize, x: usize)
    requires
        0 <= pos <= s.len(),
    ensures
        s.insert(pos, node).contains(x) == (x == node || s.contains(x)),
{
    let t = s.insert(pos, node);
    assert(t[pos] == node);
    if s.contains(x) {
        let i = choose|i: int| 0 <= i < s.len() && s[i] == x;
        assert(t[if i < pos {
            i
        } else {
            i + 1
        }] == x);
    }
    if t.contains(x) && x != node {
        let i = choose|i: int| 0 <= i < t.len() && t[i] == x;
        assert(s[if i < pos {
            i
        } else {
            i - 1
        }] == x);
    }
}

/// Requeueing a node leaves the list as deleting it and adding it again does.
pub proof fn law_requeue_is_del_then_add(order: Seq<usize>, prios: Seq<i32>, node: usize)
    requires
        order.no_duplicates(),
        order.contains(node),
        sorted(order, prios),
    ensures
        ({
            let rest = deleted(order, node);
            let moved = added(rest, prios, node);
            &&& !rest.contains(node)
            &&& moved.to_multiset() == order.to_multiset()
            &&& sorted(moved, prios)
            &&& moved.no_duplicates()
            &&& deleted(moved, node) == rest
        }),
{
    let rest = deleted(order, node);
    lemma_deleted_sorted(order, prios, node);
    law_add_is_last_of_its_priority(rest, prios, node);
    lemma_added_back(rest, prios, node);
    lemma_removed_multiset(order, order.index_of(node));
}

/// Deleting undoes adding.
#[verifier::spinoff_prover]
proof fn lemma_added_back(rest: Seq<usize>, prios: Seq<i32>, node: usize)
    requires
        !rest.contains(node),
        added(rest, prios, node).no_duplicates(),
        0 <= sorted_position(prios_of(rest, prios), prios[node as int]) <= rest.len(),
    ensures
        deleted(added(rest, prios, node), node) == rest,
        added(rest, prios, node).to_multiset() == rest.to_multiset().insert(node),
{
    let pos = sorted_position(prios_of(rest, prios), prios[node as int]);
    let all = added(rest, prios, node);
    assert(all[pos] == node);
    assert(all.contains(node));
    assert(all.index_of(node) == pos);
    assert(all.remove(pos) =~= rest);
    lemma_removed_multiset(all, pos);
}

/// A sequence has the entries of what is left without one of them, and that one.
proof fn lemma_removed_multiset(s: Seq<usize>, i: int)
    requires
        0 <= i < s.len(),
    ensures
        s.to_multiset() == s.remove(i).to_multiset().insert(s[i]),
{
    s.to_multiset_ensures();
    assert(s.to_multiset().count(s[i]) > 0) by {
        assert(s.contains(s[i]));
    }
    assert(s.remove(i).to_multiset() =~= s.to_multiset().remove(s[i]));
    assert(s.to_multiset() =~= s.to_multiset().remove(s[i]).insert(s[i]));
}

/// An added node comes behind the nodes whose priority is the same or comes before, and in front of
/// the others, and the list stays sorted.
pub proof fn law_add_is_last_of_its_priority(order: Seq<usize>, prios: Seq<i32>, node: usize)
    requires
        order.no_duplicates(),
        !order.contains(node),
        sorted(order, prios),
    ensures
        ({
            let pos = sorted_position(prios_of(order, prios), prios[node as int]);
            &&& 0 <= pos <= order.len()
            &&& forall|i: int| 0 <= i < pos ==> prios[#[trigger] order[i] as int] <= prios[node as int]
            &&& forall|i: int|
                pos <= i < order.len() ==> prios[#[trigger] order[i] as int] > prios[node as int]
        }),
        sorted(added(order, prios, node), prios),
        added(order, prios, node).no_duplicates(),
{
    let ps = prios_of(order, prios);
    let p = prios[node as int];
    let pos = sorted_position(ps, p);
    assert forall|i: int, j: int| 0 <= i <= j < ps.len() implies ps[i] <= ps[j] by {
        assert(prios[order[i] as int] <= prios[order[j] as int]);
    }
    lemma_position_splits(ps, p);
    assert forall|i: int| 0 <= i < order.len() implies prios[#[trigger] order[i] as int] == ps[i] by {}
    let t = added(order, prios, node);
    assert forall|i: int| 0 <= i < t.len() implies t[i] == (if i < pos {
        order[i]
    } else if i == pos {
        node
    } else {
        order[i - 1]
    }) by {}
    assert forall|a: int, b: int| 0 <= a < t.len() && 0 <= b < t.len() && a != b implies t[a]
        != t[b] by {
        assert(a != pos ==> order.contains(t[a]));
        assert(b != pos ==> order.contains(t[b]));
    }
}

proof fn lemma_position_splits(ps: Seq<i32>, p: i32)
    requires
        forall|i: int, j: int| 0 <= i <= j < ps.len() ==> ps[i] <= ps[j],
    ensures
        0 <= sorted_position(ps, p) <= ps.len(),
        forall|i: int| 0 <= i < sorted_position(ps, p) ==> ps[i] <= p,
        forall|i: int| sorted_position(ps, p) <= i < ps.len() ==> ps[i] > p,
    decreases ps.len(),
{
    if ps.len() > 0 && ps.last() > p {
        lemma_position_splits(ps.drop_last(), p);
        assert forall|i: int| sorted_position(ps, p) <= i < ps.len() implies ps[i] > p by {
            assert(i < ps.len() - 1 ==> ps.drop_last()[i] == ps[i]);
        }
        assert forall|i: int| 0 <= i < sorted_position(ps, p) implies ps[i] <= p by {
            assert(ps.drop_last()[i] == ps[i]);
        }
    }
}

/// Which of the two lists a link belongs to.
#[derive(Clone, Copy, PartialEq, Eq, Structural)]
enum Links {
    Prio,
    Node,
}

/// A pair of neighbours on a list whose links do not lead to each other, and the links around it.
pub struct PlistBreak {
    /// The node at which the walk began, and its links.
    pub t: (usize, usize, usize),
    /// The former neighbour, and its links.
    pub p: (usize, usize, usize),
    /// The latter neighbour, and its links.
    pub n: (usize, usize, usize),
}

/// The reports on the links to the first `k` entries behind `s[0]`, where the links forwards make a
/// circle of `s`.
pub open spec fn breaks(l: Seq<list_head>, s: Seq<usize>, k: int) -> Seq<PlistBreak>
    decreases k,
{
    if k <= 0 {
        Seq::empty()
    } else {
        let p = s[k - 1];
        let n = succ(s, k - 1);
        let rest = breaks(l, s, k - 1);
        if l[n as int].prev == p {
            rest
        } else {
            rest.push(
                PlistBreak {
                    t: (s[0], l[s[0] as int].next, l[s[0] as int].prev),
                    p: (p, l[p as int].next, l[p as int].prev),
                    n: (n, l[n as int].next, l[n as int].prev),
                },
            )
        }
    }
}

/// Whether the links forwards make a circle of `s`.
spec fn ring_forwards(l: Seq<list_head>, s: Seq<usize>) -> bool {
    &&& s.len() > 0
    &&& s.no_duplicates()
    &&& forall|i: int|
        0 <= i < s.len() ==> (#[trigger] s[i]) < l.len() && l[s[i] as int].next == succ(s, i)
}

proof fn lemma_no_breaks(l: Seq<list_head>, s: Seq<usize>, k: int)
    requires
        ring(l, s),
        0 <= k <= s.len(),
    ensures
        ring_forwards(l, s),
        breaks(l, s, k) == Seq::<PlistBreak>::empty(),
    decreases k,
{
    assert forall|i: int| 0 <= i < s.len() implies (#[trigger] s[i]) < l.len() && l[s[i] as int].next
        == succ(s, i) by {
        assert(linked(l, s, i));
    }
    if k > 0 {
        lemma_no_breaks(l, s, k - 1);
        assert(linked(l, s, 0));
        if k < s.len() {
            assert(linked(l, s, k));
        }
    }
}

impl plist_head {
    spec fn links(self, on: Links) -> Seq<list_head> {
        match on {
            Links::Prio => self.prio_links(),
            Links::Node => self.node_links(),
        }
    }

    fn list_next(&self, on: Links, i: usize) -> (r: usize)
        requires
            i < self.links(on).len(),
        ensures
            r == self.links(on)[i as int].next,
    {
        match on {
            Links::Prio => self.prio_next(i),
            Links::Node => self.node_next(i),
        }
    }

    fn list_prev(&self, on: Links, i: usize) -> (r: usize)
        requires
            i < self.links(on).len(),
        ensures
            r == self.links(on)[i as int].prev,
    {
        match on {
            Links::Prio => self.prio_prev(i),
            Links::Node => self.node_prev(i),
        }
    }

    /// Reports the links around `p` and `n`, which should be neighbours, if they are not.
    fn plist_check_prev_next(&self, on: Links, t: usize, p: usize, n: usize) -> (r: Option<PlistBreak>)
        requires
            t < self.links(on).len(),
            p < self.links(on).len(),
            n < self.links(on).len(),
        ensures
            ({
                let l = self.links(on);
                r == (if l[n as int].prev != p || l[p as int].next != n {
                    Some(
                        PlistBreak {
                            t: (t, l[t as int].next, l[t as int].prev),
                            p: (p, l[p as int].next, l[p as int].prev),
                            n: (n, l[n as int].next, l[n as int].prev),
                        },
                    )
                } else {
                    None
                })
            }),
    {
        if self.list_prev(on, n) != p || self.list_next(on, p) != n {
            Some(
                PlistBreak {
                    t: (t, self.list_next(on, t), self.list_prev(on, t)),
                    p: (p, self.list_next(on, p), self.list_prev(on, p)),
                    n: (n, self.list_next(on, n), self.list_prev(on, n)),
                },
            )
        } else {
            None
        }
    }

    /// Walks a list from `top` on and reports each link backwards that is wrong. `s` names the nodes
    /// in the order in which the links forwards lead to them.
    fn plist_check_list(&self, on: Links, top: usize, Ghost(s): Ghost<Seq<usize>>) -> (r: Vec<PlistBreak>)
        requires
            ring_forwards(self.links(on), s),
            s[0] == top,
        ensures
            r@ == breaks(self.links(on), s, s.len() as int),
    {
        let ghost l = self.links(on);
        let mut found: Vec<PlistBreak> = Vec::new();
        let mut prev: usize = top;
        assert(l[s[0] as int].next == succ(s, 0));
        let mut next: usize = self.list_next(on, top);
        assert(s.len() == 1 || s[1] < l.len());
        if let Some(b) = self.plist_check_prev_next(on, top, prev, next) {
            found.push(b);
        }
        let ghost mut k: int = 1;
        proof {
            assert(breaks(l, s, 0) =~= Seq::empty());
            assert(found@ =~= breaks(l, s, 1));
        }
        while next != top
            invariant
                l == self.links(on),
                ring_forwards(l, s),
                s[0] == top,
                1 <= k <= s.len(),
                next == succ(s, k - 1),
                found@ == breaks(l, s, k),
            ensures
                k == s.len(),
            decreases s.len() - k,
        {
            proof {
                assert(k < s.len());
                assert(s[k] == next);
                assert(l[s[k] as int].next == succ(s, k));
                assert(s[0] < l.len());
                assert(k + 1 < s.len() ==> s[k + 1] < l.len());
            }
            prev = next;
            next = self.list_next(on, prev);
            if let Some(b) = self.plist_check_prev_next(on, top, prev, next) {
                found.push(b);
            }
            proof {
                k = k + 1;
            }
        }
        found
    }
}

impl plist_head {
    /// Whether the links forwards of both lists lead where they should. The links backwards may be
    /// wrong.
    pub closed spec fn walkable(self) -> bool {
        &&& ring_forwards(self.node_links(), self.circle())
        &&& self.nodes@.len() <= usize::MAX
        &&& self.order@.len() > 0 ==> self.starts@.len() > 0 && self.starts@[0] == 0
        &&& self.order@.len() > 0 ==> ring_forwards(self.prio_links(), self.heads())
    }

    /// The wrong links backwards among the first nodes of each priority, as they are reported.
    pub closed spec fn prio_breaks(self) -> Seq<PlistBreak> {
        if self.order@.len() > 0 {
            breaks(self.prio_links(), self.heads(), self.heads().len() as int)
        } else {
            Seq::empty()
        }
    }

    /// The wrong links backwards among all nodes, as they are reported.
    pub closed spec fn node_breaks(self) -> Seq<PlistBreak> {
        breaks(self.node_links(), self.circle(), self.circle().len() as int)
    }

    /// A well-formed list can be walked, and no link of it is wrong.
    pub proof fn law_no_link_is_wrong(self)
        requires
            self.wf(),
        ensures
            self.walkable(),
            self.prio_breaks().len() == 0,
            self.node_breaks().len() == 0,
    {
        let c = self.circle();
        let hs = self.heads();
        lemma_starts(self.order@, self.starts@, self.prios());
        lemma_no_breaks(self.node_links(), c, c.len() as int);
        if hs.len() > 0 {
            lemma_no_breaks(self.prio_links(), hs, hs.len() as int);
        }
    }
}

/// Walks both lists of a head and reports the links that are wrong: those of the first nodes of each
/// priority, and those of all nodes. A list that is well-formed has none.
pub fn plist_check_head(head: &plist_head) -> (r: (Vec<PlistBreak>, Vec<PlistBreak>))
    requires
        head.wf() || head.walkable(),
    ensures
        r.0@ == head.prio_breaks(),
        r.1@ == head.node_breaks(),
        head.wf() ==> r.0@.len() == 0 && r.1@.len() == 0,
{
    let sentinel = head.nodes.len();
    let ghost c = head.circle();
    let ghost hs = head.heads();
    proof {
        if head.wf() {
            head.law_no_link_is_wrong();
        }
        assert(c[0] == sentinel);
        assert(c.len() > 1 ==> c[1] == head.order@[0]);
        assert(head.node_links()[c[0] as int].next == succ(c, 0));
    }
    let mut first_nodes: Vec<PlistBreak> = Vec::new();
    let first = head.node_next(sentinel);
    if first != sentinel {
        assert(c[1] == first && first == hs[0]);
        first_nodes = head.plist_check_list(Links::Prio, first, Ghost(hs));
    }
    let all_nodes = head.plist_check_list(Links::Node, sentinel, Ghost(c));
    (first_nodes, all_nodes)
}

/// How many nodes the exercise of the list uses.
pub const NODES: usize = 241;

/// Stops where the condition holds, which it never does.
fn bug_on(condition: bool)
    requires
        !condition,
{
}

/// Checks the links of a list from its first node on, and that it holds `nr_expect` nodes.
pub fn plist_test_check(head: &plist_head, nr_expect: i32) -> (ok: bool)
    requires
        head.wf(),
        nr_expect > i32::MIN,
    ensures
        ok == (nr_expect == head.order().len()),
{
    let sentinel = head.nodes.len();
    let ghost order = head.order@;
    let ghost starts = head.starts@;
    let ghost prios = head.prios();
    let ghost hs = head.heads();
    let ghost c = head.circle();
    let ghost m = hs.len() as int;
    proof {
        lemma_starts(order, starts, prios);
        assert(linked(head.node_links(), c, 0));
        if order.len() > 0 {
            assert(in_group(order, starts, 0, 0));
        }
    }
    let first = head.node_next(sentinel);
    if first == sentinel {
        return nr_expect == 0;
    }
    assert(c[1] == first && first == hs[0]);
    let mut prio_pos: usize = first;
    let mut node_pos: usize = first;
    let mut left: i32 = nr_expect;
    let ghost mut x: int = 0;
    let ghost mut k: int = 0;
    while node_pos != sentinel
        invariant_except_break
            left == nr_expect - x,
        invariant
            head.wf(),
            sentinel == head.nodes@.len(),
            order == head.order@,
            starts == head.starts@,
            prios == head.prios(),
            hs == head.heads(),
            c == head.circle(),
            m == hs.len(),
            first == order[0],
            order.len() > 0,
            0 <= x <= order.len(),
            node_pos == (if x < order.len() {
                order[x]
            } else {
                sentinel
            }),
            0 <= k < m,
            in_group(order, starts, k, if x == 0 {
                0
            } else {
                x - 1
            }),
            prio_pos == hs[k],
            nr_expect > i32::MIN,
            nr_expect < 0 ==> x == 0,
            x <= nr_expect + 1 || nr_expect < 0,
        ensures
            left == nr_expect - x && x == order.len() || left < 0 && nr_expect < order.len(),
        decreases order.len() - x,
    {
        let expect = left;
        left = left - 1;
        if expect < 0 {
            break;
        }
        proof {
            head.lemma_wf();
            assert(linked(head.node_links(), c, x + 1));
            assert(c[x + 1] == order[x]);
            lemma_next_group(order, starts, prios, k, x);
            assert(linked(head.prio_links(), hs, k));
        }
        if node_pos != first {
            assert(x != 0);
            if head.prio(node_pos) == head.prio(prio_pos) {
                proof {
                    lemma_heads(order, starts, prios, k, x);
                    assert(alone(head.prio_links(), node_pos));
                }
                if head.prio_next(node_pos) != node_pos {
                    return false;
                }
            } else {
                if head.prio(prio_pos) > head.prio(node_pos) {
                    return false;
                }
                assert(hs[k + 1] == order[x]);
                if head.prio_next(prio_pos) != node_pos {
                    return false;
                }
                prio_pos = node_pos;
                proof {
                    k = k + 1;
                }
            }
        } else {
            assert(x == 0);
        }
        node_pos = head.node_next(node_pos);
        proof {
            x = x + 1;
        }
    }
    if left != 0 {
        return false;
    }
    proof {
        assert(linked(head.prio_links(), hs, k));
        assert(k == m - 1) by {
            assert(in_group(order, starts, k, order.len() - 1));
        }
    }
    if head.prio_next(prio_pos) != first {
        return false;
    }
    true
}

/// What the priority of the entry at `x` says of its group, where the entry before it lies in group
/// `k`.
proof fn lemma_next_group(order: Seq<usize>, starts: Seq<int>, prios: Seq<i32>, k: int, x: int)
    requires
        grouped(order, starts, prios),
        0 <= k < starts.len(),
        0 <= x < order.len(),
        in_group(order, starts, k, if x == 0 {
            0
        } else {
            x - 1
        }),
    ensures
        pr(order, prios, starts[k]) <= pr(order, prios, x),
        pr(order, prios, starts[k]) == pr(order, prios, x) ==> in_group(order, starts, k, x),
        x > 0 && in_group(order, starts, k, x) ==> x != starts[k],
        pr(order, prios, starts[k]) != pr(order, prios, x) ==> k + 1 < starts.len() && starts[k + 1]
            == x && in_group(order, starts, k + 1, x),
{
    reveal(grouped);
    if in_group(order, starts, k, x) {
        assert(pr(order, prios, x) == pr(order, prios, starts[k]));
    } else {
        assert(k + 1 < starts.len());
        assert(starts[k + 1] == x);
        if k + 2 < starts.len() {
            assert(starts[k + 1] < starts[k + 2]);
        }
    }
}

/// Requeues a node and checks that it is the last of its priority.
fn plist_test_requeue(node: usize, head: &mut plist_head)
    requires
        old(head).wf(),
        old(head).order().contains(node),
    ensures
        final(head).wf(),
        final(head).count() == old(head).count(),
        final(head).prios() == old(head).prios(),
        final(head).order() == added(
            deleted(old(head).order(), node),
            old(head).prios(),
            node,
        ),
{
    let sentinel = head.nodes.len();
    proof {
        head.lemma_wf();
        law_requeue_is_del_then_add(head.order(), head.prios(), node);
        head.order().to_multiset_ensures();
    }
    plist_requeue(node, head);
    proof {
        let o = old(head).order();
        let rest = deleted(o, node);
        let prios = head.prios();
        law_requeue_is_del_then_add(o, prios, node);
        lemma_deleted_sorted(o, prios, node);
        law_add_is_last_of_its_priority(rest, prios, node);
        let pos = sorted_position(prios_of(rest, prios), prios[node as int]);
        let c = head.circle();
        assert(head.order@[pos] == node);
        assert(c[pos + 1] == node);
        assert(linked(head.node_links(), c, 0));
        assert(linked(head.node_links(), c, pos + 1));
        assert(c.last() == head.order@.last());
        if pos + 1 < head.order@.len() {
            assert(head.order@[pos + 1] == rest[pos]);
            assert(c[pos + 2] == rest[pos]);
        }
        head.lemma_wf();
    }
    if node != head.node_prev(sentinel) {
        bug_on(head.prio(node) == head.prio(head.node_next(node)));
    }
}

proof fn lemma_deleted_sorted(order: Seq<usize>, prios: Seq<i32>, node: usize)
    requires
        order.no_duplicates(),
        order.contains(node),
        sorted(order, prios),
    ensures
        sorted(deleted(order, node), prios),
        deleted(order, node).no_duplicates(),
        deleted(order, node).len() == order.len() - 1,
        !deleted(order, node).contains(node),
{
    let i = order.index_of(node);
    let rest = deleted(order, node);
    assert forall|a: int, b: int| 0 <= a <= b < rest.len() implies prios[#[trigger] rest[a] as int]
        <= prios[#[trigger] rest[b] as int] by {
        let a1 = if a < i {
            a
        } else {
            a + 1
        };
        let b1 = if b < i {
            b
        } else {
            b + 1
        };
        assert(prios[order[a1] as int] <= prios[order[b1] as int]);
    }
    if rest.contains(node) {
        let a = choose|a: int| 0 <= a < rest.len() && rest[a] == node;
        assert(order[if a < i {
            a
        } else {
            a + 1
        }] == node);
    }
}

/// Whether no node is on the list.
pub fn plist_head_empty(head: &plist_head) -> (empty: bool)
    requires
        head.wf(),
    ensures
        empty == (head.order().len() == 0),
{
    let sentinel = head.nodes.len();
    proof {
        assert(linked(head.node_links(), head.circle(), 0));
    }
    head.node_next(sentinel) == sentinel
}

/// Whether a node is not on the list.
pub fn plist_node_empty(node: usize, head: &plist_head) -> (empty: bool)
    requires
        head.wf(),
        node < head.count(),
    ensures
        empty == !head.order().contains(node),
{
    proof {
        let c = head.circle();
        if head.order@.contains(node) {
            let i = head.order@.index_of(node);
            assert(c[i + 1] == node);
            assert(linked(head.node_links(), c, i + 1));
        } else {
            assert(alone(head.node_links(), node));
        }
    }
    head.node_next(node) == node
}

/// The first node of a list that is not empty.
pub fn plist_first(head: &plist_head) -> (node: usize)
    requires
        head.wf(),
        head.order().len() > 0,
    ensures
        node == head.order()[0],
{
    proof {
        assert(linked(head.node_links(), head.circle(), 0));
    }
    head.node_next(head.nodes.len())
}

/// The last node of a list that is not empty.
pub fn plist_last(head: &plist_head) -> (node: usize)
    requires
        head.wf(),
        head.order().len() > 0,
    ensures
        node == head.order().last(),
{
    proof {
        assert(linked(head.node_links(), head.circle(), 0));
    }
    head.node_prev(head.nodes.len())
}

/// The node behind `node` on the list, if there is one.
pub fn plist_next(node: usize, head: &plist_head) -> (next: Option<usize>)
    requires
        head.wf(),
        head.order().contains(node),
    ensures
        ({
            let i = head.order().index_of(node);
            next == (if i + 1 < head.order().len() {
                Some(head.order()[i + 1])
            } else {
                None
            })
        }),
{
    proof {
        let i = head.order@.index_of(node);
        assert(head.circle()[i + 1] == node);
        assert(linked(head.node_links(), head.circle(), i + 1));
        head.lemma_wf();
    }
    let next = head.node_next(node);
    if next == head.nodes.len() {
        None
    } else {
        Some(next)
    }
}

/// A change of the list in its exercise.
#[derive(Clone, Copy, PartialEq, Eq, Structural, Debug)]
pub enum PlistOp {
    /// A node gets a priority, and is added.
    Add { node: usize, prio: i32 },
    /// A node is removed.
    Del { node: usize },
    /// A node is requeued.
    Requeue { node: usize },
}

/// A change of the list in its exercise, and the check that follows it.
#[derive(Clone, Copy, PartialEq, Eq, Structural, Debug)]
pub struct PlistRecord {
    pub op: PlistOp,
    /// How many nodes the list should hold.
    pub nr_expect: i32,
    /// Whether the check found nothing wrong.
    pub ok: bool,
}

/// The state of the exercise: the last random number, the nodes on the list, the priorities, and the
/// changes so far.
#[verifier::ext_equal]
pub ghost struct TestState {
    pub r: u32,
    pub order: Seq<usize>,
    pub prios: Seq<i32>,
    pub log: Seq<PlistRecord>,
}

impl TestState {
    /// The state in which the exercise begins.
    pub open spec fn start(seed: u32) -> TestState {
        TestState {
            r: seed,
            order: Seq::empty(),
            prios: Seq::new(NODES as nat, |i: int| 0i32),
            log: Seq::empty(),
        }
    }

    /// The state after the change `op`, with the nodes `order` on the list then. The check finds
    /// nothing wrong.
    pub open spec fn changed(self, op: PlistOp, order: Seq<usize>) -> TestState {
        TestState {
            order,
            log: self.log.push(PlistRecord { op, nr_expect: order.len() as i32, ok: true }),
            ..self
        }
    }

    pub open spec fn deleted(self, node: usize) -> TestState {
        self.changed(PlistOp::Del { node }, deleted(self.order, node))
    }

    pub open spec fn requeued(self, node: usize) -> TestState {
        self.changed(
            PlistOp::Requeue { node },
            added(deleted(self.order, node), self.prios, node),
        )
    }

    /// The state with the priority `prio` of `node`, and the node added.
    pub open spec fn entered(self, node: usize, prio: i32) -> TestState {
        let s = TestState { prios: self.prios.update(node as int, prio), ..self };
        s.changed(PlistOp::Add { node, prio }, added(s.order, s.prios, node))
    }

    /// The state after one round: a random node is removed if it is on the list; otherwise it is added
    /// with a random priority, and requeued.
    pub open spec fn round(self) -> TestState {
        let r1 = next_random(self.r);
        let node = (r1 as int % NODES as int) as usize;
        let r2 = next_random(r1);
        if self.order.contains(node) {
            TestState { r: r1, ..self }.deleted(node)
        } else {
            TestState { r: r2, ..self }.entered(node, (r2 % 99) as i32).requeued(node)
        }
    }

    /// The state after `n` rounds.
    pub open spec fn rounds(self, n: nat) -> TestState
        decreases n,
    {
        if n == 0 {
            self
        } else {
            self.rounds((n - 1) as nat).round()
        }
    }

    /// The state after those of the first `n` nodes that are on the list have been removed.
    pub open spec fn emptied(self, n: nat) -> TestState
        decreases n,
    {
        if n == 0 {
            self
        } else {
            let s = self.emptied((n - 1) as nat);
            if s.order.contains((n - 1) as usize) {
                s.deleted((n - 1) as usize)
            } else {
                s
            }
        }
    }
}

/// The random number behind `r`.
pub open spec fn next_random(r: u32) -> u32 {
    r.wrapping_mul(193939) % 47629
}

/// The changes that the exercise makes with random numbers from `seed` on, and what the checks say.
pub open spec fn test_log(seed: u32) -> Seq<PlistRecord> {
    TestState::start(seed).rounds(1000).emptied(NODES as nat).log
}

/// What the exercise of the list ends with.
pub struct PlistTest {
    /// The changes that its first part made, with the checks.
    pub log: Vec<PlistRecord>,
    /// The list that its last part filled.
    pub head: plist_head,
    /// The time that filling it took.
    pub elapsed: i64,
}

/// The sum of the differences of the first `k` pairs of clock readings.
pub open spec fn elapsed_time(times: Seq<i64>, k: int) -> int
    decreases k,
{
    if k <= 0 {
        0
    } else {
        elapsed_time(times, k - 1) + times[2 * k - 1] - times[2 * k - 2]
    }
}

/// Whether clock readings never go back and are not negative.
pub open spec fn monotonic(times: Seq<i64>) -> bool {
    &&& forall|i: int| 0 <= i < times.len() ==> 0 <= #[trigger] times[i]
    &&& forall|i: int, j: int| 0 <= i <= j < times.len() ==> #[trigger] times[i] <= #[trigger] times[j]
}

proof fn lemma_elapsed_time(times: Seq<i64>, k: int)
    requires
        monotonic(times),
        1 <= k,
        2 * k <= times.len(),
    ensures
        0 <= elapsed_time(times, k) <= times[2 * k - 1] - times[0],
    decreases k,
{
    assert(times[2 * k - 2] <= times[2 * k - 1]);
    if k > 1 {
        lemma_elapsed_time(times, k - 1);
        assert(times[2 * k - 3] <= times[2 * k - 2]);
    } else {
        assert(elapsed_time(times, 0) == 0);
    }
}

/// The list in its exercise.
struct Exercise {
    head: plist_head,
    r: u32,
    nr_expect: i32,
    log: Vec<PlistRecord>,
}

impl Exercise {
    spec fn state(self) -> TestState {
        TestState {
            r: self.r,
            order: self.head.order(),
            prios: self.head.prios(),
            log: self.log@,
        }
    }

    spec fn wf(self) -> bool {
        &&& self.head.wf()
        &&& self.head.count() == NODES
        &&& self.nr_expect == self.head.order().len()
    }

    /// Checks the list after the change `op`, and records both.
    fn check(&mut self, op: PlistOp)
        requires
            old(self).wf(),
        ensures
            final(self).wf(),
            final(self).state() == old(self).state().changed(op, old(self).state().order),
            final(self).nr_expect == old(self).nr_expect,
    {
        let ok: bool = plist_test_check(&self.head, self.nr_expect);
        bug_on(!ok);
        let record: PlistRecord = PlistRecord { op, nr_expect: self.nr_expect, ok };
        self.log.push(record);
    }

    /// Removes a node that is on the list.
    fn del(&mut self, node: usize)
        requires
            old(self).wf(),
            node < NODES,
            old(self).state().order.contains(node),
        ensures
            final(self).wf(),
            final(self).state() == old(self).state().deleted(node),
            final(self).nr_expect == old(self).nr_expect - 1,
            !final(self).state().order.contains(node),
    {
        proof {
            self.head.lemma_wf();
            lemma_deleted_sorted(self.head.order(), self.head.prios(), node);
        }
        plist_del(node, &mut self.head);
        self.nr_expect = self.nr_expect - 1;
        self.check(PlistOp::Del { node });
    }

    /// Adds a node that is not on the list, with the priority `prio`.
    fn add(&mut self, node: usize, prio: i32)
        requires
            old(self).wf(),
            node < NODES,
            !old(self).state().order.contains(node),
            old(self).nr_expect < i32::MAX,
        ensures
            final(self).wf(),
            final(self).state() == old(self).state().entered(node, prio),
            final(self).nr_expect == old(self).nr_expect + 1,
            final(self).state().order.contains(node),
    {
        self.head.set_prio(node, prio);
        proof {
            self.head.lemma_wf();
            law_add_is_last_of_its_priority(self.head.order(), self.head.prios(), node);
        }
        let ghost pos = sorted_position(
            prios_of(self.head.order(), self.head.prios()),
            self.head.prios()[node as int],
        );
        plist_add(node, &mut self.head);
        assert(self.head.order()[pos] == node);
        self.nr_expect = self.nr_expect + 1;
        self.check(PlistOp::Add { node, prio });
    }

    /// Requeues a node that is on the list.
    fn requeue(&mut self, node: usize)
        requires
            old(self).wf(),
            node < NODES,
            old(self).state().order.contains(node),
        ensures
            final(self).wf(),
            final(self).state() == old(self).state().requeued(node),
            final(self).nr_expect == old(self).nr_expect,
    {
        proof {
            self.head.lemma_wf();
            law_requeue_is_del_then_add(self.head.order(), self.head.prios(), node);
            self.head.order().to_multiset_ensures();
            added(
                deleted(self.head.order(), node),
                self.head.prios(),
                node,
            ).to_multiset_ensures();
        }
        plist_test_requeue(node, &mut self.head);
        self.check(PlistOp::Requeue { node });
    }

    /// Adds and requeues a random node, or removes it.
    fn round(&mut self)
        requires
            old(self).wf(),
            old(self).nr_expect < i32::MAX,
        ensures
            final(self).wf(),
            final(self).state() == old(self).state().round(),
            final(self).nr_expect <= old(self).nr_expect + 1,
    {
        let ghost s = self.state();
        self.r = self.r.wrapping_mul(193939) % 47629;
        let i: usize = self.r as usize % NODES;
        assert(i == (next_random(s.r) as int % NODES as int) as usize);
        if plist_node_empty(i, &self.head) {
            self.r = self.r.wrapping_mul(193939) % 47629;
            let prio: i32 = (self.r % 99) as i32;
            self.add(i, prio);
        } else {
            self.del(i);
        }
        if !plist_node_empty(i, &self.head) {
            self.requeue(i);
        }
    }
}

/// Adds, deletes and requeues nodes at random, and gives the changes with the checks.
fn plist_test_random(seed: u32) -> (log: Vec<PlistRecord>)
    ensures
        log@ == test_log(seed),
{
    let mut x = Exercise {
        head: plist_head::new(NODES),
        r: seed,
        nr_expect: 0,
        log: Vec::new(),
    };
    assert(x.state() =~= TestState::start(seed));
    let mut round: u32 = 0;
    while round < 1000
        invariant
            x.wf(),
            x.nr_expect <= round <= 1000,
            x.state() == TestState::start(seed).rounds(round as nat),
        decreases 1000 - round,
    {
        x.round();
        round += 1;
    }
    let ghost s = x.state();
    let mut i: usize = 0;
    while i < NODES
        invariant
            x.wf(),
            i <= NODES,
            x.state() == s.emptied(i as nat),
        decreases NODES - i,
    {
        if !plist_node_empty(i, &x.head) {
            x.del(i);
        }
        i += 1;
    }
    x.log
}

/// Exercises the list with nodes of random priorities, and then fills it with nodes of ascending
/// priorities.
///
/// `clock` seeds the random numbers, and `times` are the clock readings before and after each
/// addition of the last part. What the first part does follows from the seed, and no check on the way
/// fails.
pub fn plist_test_run(clock: u32, times: &[i64]) -> (r: PlistTest)
    requires
        times@.len() >= 2 * NODES,
        monotonic(times@),
    ensures
        r.log@ == test_log(clock),
        r.head.wf(),
        r.head.count() == NODES,
        r.head.order() == Seq::new(NODES as nat, |i: int| i as usize),
        forall|i: int| 0 <= i < NODES ==> #[trigger] r.head.prios()[i] == i,
        r.elapsed == elapsed_time(times@, NODES as int),
{
    let log: Vec<PlistRecord> = plist_test_random(clock);
    let mut head = plist_head::new(NODES);
    let mut i: usize = 0;
    while i < NODES
        invariant
            head.wf(),
            head.count() == NODES,
            head.order() == Seq::<usize>::empty(),
            head.prios().len() == NODES,
            i <= NODES,
            forall|k: int| 0 <= k < i ==> #[trigger] head.prios()[k] == k,
        decreases NODES - i,
    {
        head.set_prio(i, i as i32);
        i += 1;
    }
    let mut elapsed: i64 = 0;
    i = 0;
    while i < NODES
        invariant
            head.wf(),
            head.count() == NODES,
            i <= NODES,
            head.prios().len() == NODES,
            forall|k: int| 0 <= k < NODES ==> #[trigger] head.prios()[k] == k,
            head.order() == Seq::new(i as nat, |k: int| k as usize),
            elapsed == elapsed_time(times@, i as int),
            times@.len() >= 2 * NODES,
            monotonic(times@),
        decreases NODES - i,
    {
        if plist_node_empty(i, &head) {
            let start = times[2 * i];
            let ghost o = head.order();
            let ghost ps = prios_of(o, head.prios());
            plist_add(i, &mut head);
            let end = times[2 * i + 1];
            proof {
                lemma_elapsed_time(times@, i + 1);
                assert(start <= end);
                assert(0 <= times@[0]);
                assert forall|k: int| 0 <= k < ps.len() implies ps[k] <= i by {
                    assert(o[k] == k);
                }
                lemma_sorted_position(ps, i as i32, i as int);
                assert(head.order() =~= Seq::new((i + 1) as nat, |k: int| k as usize));
            }
            elapsed = elapsed + (end - start);
        } else {
            proof {
                let k = head.order().index_of(i);
                assert(head.order()[k] == k);
                assert(false);
            }
        }
        i += 1;
    }
    PlistTest { log, head, elapsed }
}

impl plist_head {
    /// A list that can be walked and of whose nodes no link is reported is a circle in both directions: the
    /// head, and behind it all nodes on it.
    #[verifier::spinoff_prover]
    pub proof fn law_unreported_links_are_right(self)
        requires
            self.walkable(),
            self.node_breaks().len() == 0,
        ensures
            exists|s: Seq<usize>|
                s.len() == self.order().len() + 1 && s[0] == self.count() && #[trigger] ring(
                    self.node_links(),
                    s,
                ),
    {
        lemma_ring_closed(self.node_links(), self.circle());
    }
}

} // verus!
