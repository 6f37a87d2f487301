//! What the operations on lists sorted by priority do to the order of the nodes.

use vstd::prelude::*;

#[allow(unused_imports)]
use crate::list::{linked, list_head, ring, succ};
#[allow(unused_imports)]
use crate::plist::{
    added, breaks, deleted, elapsed_time, first_of_each, law_add_is_last_of_its_priority,
    law_requeue_is_del_then_add, next_random, plist_add, plist_del, plist_first, plist_head,
    plist_head_empty, plist_last, plist_next, plist_requeue, prios_of, sorted, sorted_position, test_log, PlistBreak, PlistOp, PlistRecord,
    TestState, NODES,
};

verus! {

/// The nodes of a list to which one is added keep their order, and the new one stands behind all nodes
/// of a lower or the same `prio`, and before all of a higher one.
pub proof fn law_added_node_waits_its_turn(order: Seq<usize>, prios: Seq<i32>, node: usize, i: int)
    requires
        order.no_duplicates(),
        !order.contains(node),
        sorted(order, prios),
        0 <= i <= order.len(),
    ensures
        ({
            let t = added(order, prios, node);
            let pos = t.index_of(node);
            &&& t.len() == order.len() + 1
            &&& 0 <= pos < t.len()
            &&& t[pos] == node
            &&& t.remove(pos) == order
            &&& i < pos ==> prios[t[i] as int] <= prios[node as int]
            &&& i > pos ==> prios[t[i] as int] > prios[node as int]
        }),
{
    law_add_is_last_of_its_priority(order, prios, node);
    let pos = sorted_position(prios_of(order, prios), prios[node as int]);
    let t = added(order, prios, node);
    assert(t[pos] == node);
    assert(t.contains(node));
    assert(t.index_of(node) == pos);
    assert(t.remove(pos) =~= order);
    if i < pos {
        assert(t[i] == order[i]);
    } else if i > pos {
        assert(t[i] == order[i - 1]);
    }
}

/// Deleting a node leaves all others, in their order.
pub proof fn law_deleted_node_is_gone(order: Seq<usize>, node: usize)
    requires
        order.no_duplicates(),
    ensures
        deleted(order, node) == order.filter(|x: usize| x != node),
        !deleted(order, node).contains(node),
    decreases order.len(),
{
    reveal(Seq::filter);
    let f = |x: usize| x != node;
    if order.len() > 0 {
        let init = order.drop_last();
        let last = order.last();
        law_deleted_node_is_gone(init, node);
        if last == node {
            assert(order[order.len() - 1] == node);
            assert(order.contains(node));
            assert(order.index_of(node) == order.len() - 1);
            assert(order.remove(order.len() - 1) =~= init);
            if init.contains(node) {
                let k = init.index_of(node);
                assert(order[k] == node);
            }
            assert(deleted(init, node) == init);
        } else if init.contains(node) {
            let k = init.index_of(node);
            assert(order[k] == node);
            assert(order.contains(node));
            assert(order.index_of(node) == k);
            assert(order.remove(k) =~= init.remove(k).push(last));
        } else {
            assert(!order.contains(node)) by {
                if order.contains(node) {
                    let k = order.index_of(node);
                    assert(init[k] == node);
                }
            }
            assert(order =~= init.push(last));
        }
    } else {
        assert(deleted(order, node) =~= order.filter(f));
    }
    let d = deleted(order, node);
    if d.contains(node) {
        let k = d.index_of(node);
        if order.contains(node) {
            let i = order.index_of(node);
            assert(d[k] == order[if k < i {
                k
            } else {
                k + 1
            }]);
        }
    }
}

/// The first nodes of each priority are those with no node of the same priority just before them.
pub proof fn law_first_nodes(order: Seq<usize>, prios: Seq<i32>, x: usize)
    ensures
        first_of_each(order, prios).contains(x) <==> exists|i: int|
            0 <= i < order.len() && #[trigger] order[i] == x && (i == 0 || prios[order[i - 1] as int]
                != prios[x as int]),
    decreases order.len(),
{
    if order.len() > 0 {
        let init = order.drop_last();
        let firsts = first_of_each(init, prios);
        let n = order.len() - 1;
        law_first_nodes(init, prios, x);
        let all = first_of_each(order, prios);
        let is_first = n == 0 || prios[order[n - 1] as int] != prios[order[n] as int];
        if all.contains(x) {
            let k = all.index_of(x);
            if k < firsts.len() {
                assert(firsts[k] == x);
                let i = choose|i: int|
                    0 <= i < init.len() && #[trigger] init[i] == x && (i == 0
                        || prios[init[i - 1] as int] != prios[x as int]);
                assert(order[i] == x);
                assert(i > 0 ==> init[i - 1] == order[i - 1]);
            } else {
                assert(order[n] == x);
            }
        }
        if exists|i: int|
            0 <= i < order.len() && #[trigger] order[i] == x && (i == 0 || prios[order[i - 1] as int]
                != prios[x as int]) {
            let i = choose|i: int|
                0 <= i < order.len() && #[trigger] order[i] == x && (i == 0
                    || prios[order[i - 1] as int] != prios[x as int]);
            if i < n {
                assert(init[i] == x);
                assert(i > 0 ==> init[i - 1] == order[i - 1]);
                let k = firsts.index_of(x);
                assert(all[k] == x);
            } else {
                assert(is_first);
                assert(all.last() == x);
            }
        }
    }
}

/// A wrong link backwards is reported with the links around it, and nothing else is reported.
pub proof fn law_wrong_links_are_reported(l: Seq<list_head>, s: Seq<usize>, k: int, i: int)
    requires
        0 <= i < k <= s.len(),
    ensures
        ({
            let n = s[(i + 1) % (s.len() as int)];
            let report = PlistBreak {
                t: (s[0], l[s[0] as int].next, l[s[0] as int].prev),
                p: (s[i], l[s[i] as int].next, l[s[i] as int].prev),
                n: (n, l[n as int].next, l[n as int].prev),
            };
            &&& l[n as int].prev != s[i] ==> breaks(l, s, k).contains(report)
            &&& breaks(l, s, k).len() == 0 ==> l[n as int].prev == s[i]
            &&& breaks(l, s, k).len() <= k
        }),
    decreases k,
{
    if i + 1 < s.len() {
        vstd::arithmetic::div_mod::lemma_small_mod((i + 1) as nat, s.len());
    } else {
        vstd::arithmetic::div_mod::lemma_mod_self_0(s.len() as int);
    }
    let n = s[(i + 1) % (s.len() as int)];
    assert(n == succ(s, i));
    let report = PlistBreak {
        t: (s[0], l[s[0] as int].next, l[s[0] as int].prev),
        p: (s[i], l[s[i] as int].next, l[s[i] as int].prev),
        n: (n, l[n as int].next, l[n as int].prev),
    };
    let all = breaks(l, s, k);
    let rest = breaks(l, s, k - 1);
    if k > 1 {
        law_wrong_links_are_reported(l, s, k - 1, if i < k - 1 {
            i
        } else {
            0
        });
    }
    if l[n as int].prev != s[i] {
        if i < k - 1 {
            let j = rest.index_of(report);
            assert(all[j] == report);
        } else {
            assert(all == rest.push(report));
            assert(all[rest.len() as int] == report);
        }
    }
}

/// The random numbers of the exercise.
pub proof fn law_random_numbers(r: u32)
    ensures
        next_random(r) == (r * 193939) % 0x1_0000_0000 % 47629,
{
}

/// A round of the exercise removes a random node that is on the list; another one gets a random
/// priority, and is added and requeued. Every change is recorded, and the check after it finds nothing
/// wrong.
pub proof fn law_round(s: TestState)
    ensures
        ({
            let r1 = next_random(s.r);
            let r2 = next_random(r1);
            let node = (r1 % 241) as usize;
            let prios = s.prios.update(node as int, (r2 % 99) as i32);
            let order = added(s.order, prios, node);
            let again = added(deleted(order, node), prios, node);
            &&& s.order.contains(node) ==> s.round() == (TestState {
                r: r1,
                order: deleted(s.order, node),
                prios: s.prios,
                log: s.log.push(
                    PlistRecord {
                        op: PlistOp::Del { node },
                        nr_expect: deleted(s.order, node).len() as i32,
                        ok: true,
                    },
                ),
            })
            &&& !s.order.contains(node) ==> s.round() == (TestState {
                r: r2,
                order: again,
                prios,
                log: s.log.push(
                    PlistRecord {
                        op: PlistOp::Add { node, prio: (r2 % 99) as i32 },
                        nr_expect: order.len() as i32,
                        ok: true,
                    },
                ).push(
                    PlistRecord {
                        op: PlistOp::Requeue { node },
                        nr_expect: again.len() as i32,
                        ok: true,
                    },
                ),
            })
        }),
{
}

/// The exercise records at least one change for each of its thousand rounds, and no check fails.
pub proof fn law_exercise(seed: u32, i: int)
    ensures
        test_log(seed).len() >= 1000,
        0 <= i < test_log(seed).len() ==> test_log(seed)[i].ok,
{
    let start = TestState::start(seed);
    assert forall|k: int| 0 <= k < start.log.len() implies (#[trigger] start.log[k]).ok by {}
    lemma_rounds_recorded(start, 1000);
    let s = start.rounds(1000);
    lemma_emptied_recorded(s, NODES as nat);
}

proof fn lemma_rounds_recorded(s: TestState, n: nat)
    requires
        forall|k: int| 0 <= k < s.log.len() ==> (#[trigger] s.log[k]).ok,
    ensures
        s.rounds(n).log.len() >= s.log.len() + n,
        forall|k: int| 0 <= k < s.rounds(n).log.len() ==> (#[trigger] s.rounds(n).log[k]).ok,
    decreases n,
{
    if n > 0 {
        lemma_rounds_recorded(s, (n - 1) as nat);
        let t = s.rounds((n - 1) as nat);
        law_round(t);
        assert forall|k: int| 0 <= k < t.round().log.len() implies (#[trigger] t.round().log[k]).ok by {
            if k < t.log.len() {
                assert(t.log[k].ok);
            }
        }
    }
}

proof fn lemma_emptied_recorded(s: TestState, n: nat)
    requires
        forall|k: int| 0 <= k < s.log.len() ==> (#[trigger] s.log[k]).ok,
    ensures
        s.emptied(n).log.len() >= s.log.len(),
        forall|k: int| 0 <= k < s.emptied(n).log.len() ==> (#[trigger] s.emptied(n).log[k]).ok,
    decreases n,
{
    if n > 0 {
        lemma_emptied_recorded(s, (n - 1) as nat);
    }
}

/// The time that an addition takes is the difference of the clock readings around it.
pub proof fn law_elapsed_time(times: Seq<i64>, k: int)
    requires
        0 <= k,
    ensures
        elapsed_time(times, 0) == 0,
        elapsed_time(times, k + 1) - elapsed_time(times, k) == times[2 * k + 1] - times[2 * k],
{
}

/// A node that is added to a list comes first exactly if its `prio` is lower than that of every node on
/// it; otherwise the first node stays. Removing it leaves the list as it was.
pub proof fn law_add_then_first(
    node: usize,
    add: &mut plist_head,
    head: &plist_head,
    first: usize,
    del: &mut plist_head,
)
    requires
        old(add).wf(),
        node < old(add).count(),
        !old(add).order().contains(node),
        call_ensures(plist_add, (node, add), ()),
        *head == *final(add),
        call_ensures(plist_first, (head,), first),
        *old(del) == *final(add),
        call_ensures(plist_del, (node, del), ()),
    ensures
        final(add).prios() == old(add).prios(),
        final(add).order().len() == old(add).order().len() + 1,
        old(add).order().len() == 0 ==> first == node,
        old(add).order().len() > 0 ==> first == if old(add).prios()[node as int]
            < old(add).prios()[old(add).order()[0] as int] {
            node
        } else {
            old(add).order()[0]
        },
        final(del).order() == old(add).order(),
{
    old(add).lemma_wf();
    let order = old(add).order();
    let prios = old(add).prios();
    law_added_node_waits_its_turn(order, prios, node, 0);
    law_add_is_last_of_its_priority(order, prios, node);
    let t = added(order, prios, node);
    let pos = t.index_of(node);
    assert(t.contains(node));
    if order.len() > 0 {
        if pos > 0 {
            assert(t.remove(pos)[0] == t[0]);
        } else {
            law_added_node_waits_its_turn(order, prios, node, 1);
            assert(t.remove(pos)[0] == t[1]);
        }
    }
    assert(deleted(t, node) == t.remove(pos));
}

/// A node that is requeued comes behind all others of its `prio`, and no node of another `prio` moves past
/// another.
pub proof fn law_requeue(node: usize, head: &mut plist_head, i: int)
    requires
        old(head).wf(),
        old(head).order().contains(node),
        call_ensures(plist_requeue, (node, head), ()),
        0 <= i < final(head).order().len(),
    ensures
        ({
            let t = final(head).order();
            let pos = t.index_of(node);
            &&& t.len() == old(head).order().len()
            &&& 0 <= pos < t.len()
            &&& t[pos] == node
            &&& t.remove(pos) == old(head).order().filter(|x: usize| x != node)
            &&& i < pos ==> old(head).prios()[t[i] as int] <= old(head).prios()[node as int]
            &&& i > pos ==> old(head).prios()[t[i] as int] > old(head).prios()[node as int]
        }),
        final(head).prios() == old(head).prios(),
{
    old(head).lemma_wf();
    let order = old(head).order();
    let prios = old(head).prios();
    let rest = deleted(order, node);
    law_requeue_is_del_then_add(order, prios, node);
    law_deleted_node_is_gone(order, node);
    let k = order.index_of(node);
    assert(rest == order.remove(k));
    assert(rest.no_duplicates());
    assert(sorted(rest, prios)) by {
        assert forall|a: int, b: int| 0 <= a <= b < rest.len() implies prios[#[trigger] rest[a] as int]
            <= prios[#[trigger] rest[b] as int] by {
            let a2 = if a < k {
                a
            } else {
                a + 1
            };
            let b2 = if b < k {
                b
            } else {
                b + 1
            };
            assert(rest[a] == order[a2] && rest[b] == order[b2]);
            assert(prios[order[a2] as int] <= prios[order[b2] as int]);
        }
    }
    law_added_node_waits_its_turn(rest, prios, node, i);
}

/// The first node leads through all others, up to the last, which has none behind it; and none has a
/// lower `prio` than the first, or a higher one than the last.
pub proof fn law_walk(head: &plist_head, first: usize, last: usize, i: int, next: Option<usize>, empty: bool)
    requires
        head.wf(),
        0 <= i < head.order().len(),
        call_ensures(plist_first, (head,), first),
        call_ensures(plist_last, (head,), last),
        call_ensures(plist_next, (head.order()[i], head), next),
        call_ensures(plist_head_empty, (head,), empty),
    ensures
        !empty,
        first == head.order()[0],
        last == head.order()[head.order().len() - 1],
        i + 1 < head.order().len() ==> next == Some(head.order()[i + 1]),
        i + 1 == head.order().len() ==> next is None,
        head.prios()[first as int] <= head.prios()[head.order()[i] as int]
            <= head.prios()[last as int],
{
    head.lemma_wf();
    let o = head.order();
    assert(o.contains(o[i]));
    assert(o.index_of(o[i]) == i);
}

/// Links that make a circle forwards, and of which none is reported, make one in both directions.
pub proof fn lemma_ring_closed(l: Seq<list_head>, s: Seq<usize>)
    requires
        s.len() > 0,
        s.no_duplicates(),
        forall|i: int|
            0 <= i < s.len() ==> (#[trigger] s[i]) < l.len() && l[s[i] as int].next == succ(s, i),
        breaks(l, s, s.len() as int).len() == 0,
    ensures
        ring(l, s),
{
    let n = s.len() as int;
    assert forall|i: int| 0 <= i < n implies #[trigger] linked(l, s, i) by {
        let j = if i == 0 {
            n - 1
        } else {
            i - 1
        };
        law_wrong_links_are_reported(l, s, n, j);
        if i == 0 {
            vstd::arithmetic::div_mod::lemma_mod_self_0(n);
        } else {
            vstd::arithmetic::div_mod::lemma_small_mod(i as nat, n as nat);
        }
        assert(s[i] < l.len() && l[s[i] as int].next == succ(s, i));
    }
}

} // verus!
