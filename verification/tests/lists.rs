use klib::hlist::{
    claim_link, hlist_head, hlist_node, HList, HlistTable, Pprev, LIST_POISON1, NIL as LIST_NIL,
};
use klib::kref::{KRef, Object};
use klib::llist::{
    llist_add, llist_del_all, llist_del_first, llist_del_first_this, llist_node, llist_reverse_order,
    LList, Other, SharedList, NIL,
};
use klib::lwq::{__lwq_dequeue, lwq, lwq_dequeue_all};
use klib::opaque::Opaque;
use klib::rcu_ptr::{
    rcu_read_lock, reclaim, Kernel, RcuGuard, RcuPtr, RcuReadPtr, Retired,
};

type Obj = Object<u8>;

/// A reference to the object with this number.
fn item(n: usize) -> KRef<Obj> {
    KRef::from_raw(n)
}

fn number(k: KRef<Obj>) -> usize {
    KRef::into_raw(k)
}

fn chain(nodes: &[llist_node], mut at: usize) -> Vec<usize> {
    let mut order = Vec::new();
    while at != NIL {
        order.push(at);
        at = nodes[at].next;
    }
    order
}

#[test]
fn newest_entry_comes_first() {
    let mut l = SharedList::new(5, vec![]);
    assert!(llist_add(&mut l, 3));
    assert!(!llist_add(&mut l, 1));
    assert!(!llist_add(&mut l, 4));
    assert_eq!(llist_del_first(&mut l), 4);
    assert!(!llist_del_first_this(&mut l, 3));
    assert!(llist_del_first_this(&mut l, 1));
    assert_eq!(llist_del_all(&mut l), 3);
    assert_eq!(llist_del_all(&mut l), NIL);
    assert_eq!(llist_del_first(&mut l), NIL);
}

#[test]
fn whole_list_is_taken_and_reversed() {
    let mut l = SharedList::new(5, vec![]);
    for n in [3, 1, 4] {
        llist_add(&mut l, n);
    }
    let first = llist_del_all(&mut l);
    assert_eq!(chain(&l.nodes, first), [4, 1, 3]);
    let first = llist_reverse_order(&mut l.nodes, first);
    assert_eq!(chain(&l.nodes, first), [3, 1, 4]);
    assert_eq!(llist_reverse_order(&mut l.nodes, NIL), NIL);
}

#[test]
fn other_processors_add_and_take() {
    // One adds before the first attempt, which fails, and one empties the list before the next call.
    let mut l = SharedList::new(5, vec![Other::Add(2), Other::Nothing, Other::DelAll]);
    assert!(!llist_add(&mut l, 0));
    assert!(!llist_del_first_this(&mut l, 2));
    let first = llist_del_all(&mut l);
    assert_eq!(first, NIL);
}

#[test]
fn items_come_out_newest_first() {
    let mut l: LList<KRef<Obj>> = LList::new();
    assert!(l.is_empty());
    assert!(l.add(item(3)));
    let (producer, mut consumer) = l.split();
    assert!(!producer.add(&mut l, item(5)));
    assert!(!producer.add(&mut l, item(7)));
    assert_eq!(consumer.del_first(&mut l).map(number), Some(7));
    let mut items = consumer.del_all(&mut l);
    assert_eq!(items.next().map(number), Some(5));
    assert_eq!(items.next().map(number), Some(3));
    assert!(items.next().is_none());
    assert!(consumer.del_first(&mut l).is_none());
    for n in 0..3 {
        l.add(item(n));
    }
    let mut items = l.del_all().reversed();
    for n in 0..3 {
        assert_eq!(items.next().map(number), Some(n));
    }
    assert!(l.is_empty());
}

#[test]
fn queue_is_first_in_first_out() {
    let mut q = lwq::new(10, vec![]);
    assert!(q.is_empty());
    assert!(q.enqueue(4));
    assert!(!q.enqueue(2));
    assert_eq!(__lwq_dequeue(&mut q), 4);
    q.enqueue(9);
    assert_eq!(__lwq_dequeue(&mut q), 2);
    assert_eq!(__lwq_dequeue(&mut q), 9);
    assert_eq!(__lwq_dequeue(&mut q), NIL);
    assert!(q.is_empty());
    for n in [7, 8] {
        q.enqueue(n);
    }
    assert_eq!(lwq_dequeue_all(&mut q), 7);
    assert!(q.is_empty());
    assert_eq!(lwq_dequeue_all(&mut q), NIL);
    // The entries can be used again.
    assert!(q.enqueue(8));
    assert!(!q.enqueue(7));
    assert_eq!(__lwq_dequeue(&mut q), 8);
    assert_eq!(__lwq_dequeue(&mut q), 7);
    assert!(q.is_empty());
}

#[test]
fn entries_are_claimed_once() {
    let mut pprev = Pprev::Unhashed;
    assert!(claim_link(&mut pprev, None));
    assert_eq!(pprev, Pprev::Claimed);
    assert!(!claim_link(&mut pprev, None));
    let mut pprev = Pprev::Unhashed;
    assert!(!claim_link(&mut pprev, Some(Pprev::Head(0))));
    assert_eq!(pprev, Pprev::Head(0));
    // An entry that was left poisoned is free, too.
    let mut pprev = Pprev::Poison;
    assert!(claim_link(&mut pprev, None));
    assert_eq!(pprev, Pprev::Claimed);
    assert!(hlist_node::new().is_unhashed());
    assert!(hlist_head::new().is_empty());
}

fn entries(l: &HList<KRef<Obj>, ()>, t: &HlistTable) -> Vec<usize> {
    let mut order = Vec::new();
    let mut it = l.iter(t);
    while let Some(n) = it.next(t) {
        order.push(n);
    }
    order
}

#[test]
fn entries_are_pushed_and_popped() {
    let mut t = HlistTable::new(6);
    let l: HList<KRef<Obj>, ()> = HList::new(&mut t);
    assert!(l.is_empty(&t));
    for n in [4, 2, 5] {
        assert!(l.push_front(&mut t, item(n)).is_ok());
    }
    assert_eq!(entries(&l, &t), [5, 2, 4]);
    // An entry that is on a list is given back.
    assert_eq!(l.push_front(&mut t, item(2)).map_err(number), Err(2));
    assert_eq!(l.pop_front(&mut t).map(number), Some(5));
    assert_eq!(entries(&l, &t), [2, 4]);
    assert!(t.nodes[5].is_unhashed());
    assert!(l.push_front(&mut t, item(5)).is_ok());
    while l.pop_front(&mut t).is_some() {}
    assert!(l.is_empty(&t));
}

#[test]
fn list_is_taken_over() {
    let mut t = HlistTable::new(6);
    let a: HList<KRef<Obj>, ()> = HList::new(&mut t);
    let b: HList<KRef<Obj>, ()> = HList::new(&mut t);
    for n in [1, 2] {
        assert!(a.push_front(&mut t, item(n)).is_ok());
    }
    assert!(b.take_from(&mut t, &a));
    assert_eq!((entries(&a, &t), entries(&b, &t)), (vec![], vec![2, 1]));
    assert!(a.push_front(&mut t, item(3)).is_ok());
    assert!(!b.take_from(&mut t, &a));
    assert_eq!(entries(&a, &t), [3]);
    let mut lists = [a, b];
    let l = HList::get_mut(&mut lists, 1).unwrap();
    assert_eq!(entries(&l, &t), [2, 1]);
    assert!(HList::get_mut(&mut lists, 2).is_none());
}

#[test]
fn cursor_changes_the_list() {
    let mut t = HlistTable::new(8);
    let l: HList<KRef<Obj>, ()> = HList::new(&mut t);
    for n in [3, 2, 1] {
        assert!(l.push_front(&mut t, item(n)).is_ok());
    }
    let mut c = l.cursor_front_mut(&t);
    assert_eq!(c.current(&t), Some(1));
    assert!(c.insert_before(&mut t, item(4)).is_ok());
    assert!(c.insert_after(&mut t, item(5)).is_ok());
    assert_eq!(entries(&l, &t), [4, 1, 5, 2, 3]);
    assert_eq!(c.insert_after(&mut t, item(3)).map_err(number), Err(3));
    c.move_next(&t);
    assert_eq!(c.current(&t), Some(5));
    assert_eq!(c.remove_current(&mut t).map(number), Some(5));
    assert_eq!(t.nodes[5].pprev, Pprev::Unhashed);
    assert_eq!(t.nodes[5].next, LIST_NIL);
    assert_eq!(c.current(&t), Some(2));
    assert_eq!(c.remove_current_poisoned(&mut t).map(number), Some(2));
    assert_eq!(t.nodes[2].pprev, Pprev::Poison);
    assert_eq!(t.nodes[2].next, LIST_POISON1);
    assert_eq!(c.current(&t), Some(3));
    c.move_next(&t);
    assert_eq!(c.current(&t), None);
    assert!(c.remove_current(&mut t).is_none());
    assert_eq!(entries(&l, &t), [4, 1, 3]);
    // Entries on no list are left alone.
    assert_eq!(l.pop_front(&mut t).map(number), Some(4));
    assert_eq!((t.nodes[4].pprev, t.nodes[4].next), (Pprev::Unhashed, LIST_NIL));
    assert_eq!((t.nodes[2].pprev, t.nodes[2].next), (Pprev::Poison, LIST_POISON1));
    assert_eq!((t.nodes[6].pprev, t.nodes[6].next), (Pprev::Unhashed, LIST_NIL));
}

#[test]
fn readers_keep_an_object() {
    let mut k = Kernel::new(vec![0]);
    let mut p: RcuPtr<KRef<Obj>> = RcuPtr::new(item(3));
    assert!(p.is_some());
    let guard = rcu_read_lock(&mut k);
    assert_eq!(p.read(&k, &guard), Some(3));
    let prior: Retired<KRef<Obj>> = p.assign(item(4)).unwrap();
    assert_eq!(p.read(&k, &guard), Some(4));
    prior.defer(&mut k);
    // The reader is still there.
    assert!(reclaim::<KRef<Obj>, Kernel>(&mut k).is_none());
    guard.leave(&mut k);
    let later = RcuGuard::enter(&mut k);
    assert_eq!(reclaim::<KRef<Obj>, Kernel>(&mut k).map(number), Some(3));
    assert!(reclaim::<KRef<Obj>, Kernel>(&mut k).is_none());
    assert_eq!(p.read(&k, &later), Some(4));
}

#[test]
fn owner_waits_for_readers() {
    let mut k = Kernel::new(vec![0]);
    let mut p: RcuPtr<KRef<Obj>> = RcuPtr::empty();
    assert!(!p.is_some());
    assert!(p.take().is_none());
    assert!(p.assign(item(3)).is_none());
    let _guard = rcu_read_lock(&mut k);
    let prior = p.take().unwrap();
    assert_eq!(number(prior.synchronize(&mut k)), 3);
    assert_eq!(p.read_protected(), None);
    assert!(p.replace(Some(item(5))).is_none());
    assert_eq!(p.read_protected(), Some(5));
    assert!(p.replace(None).is_some());
    let r: RcuReadPtr<Obj> = RcuReadPtr::from_raw(6);
    let guard = RcuGuard::enter(&mut k);
    assert!(r.is_some());
    assert_eq!(r.read(&k, &guard), Some(6));
    assert_eq!(RcuPtr::<KRef<Obj>>::from_raw(6).read_protected(), Some(6));
}

#[test]
fn opaque_storage() {
    let mut o: Opaque<u32> = Opaque::uninit();
    assert_eq!(*o.get(), None);
    *o.get() = Some(5);
    assert_eq!(*o.get(), Some(5));
    assert_eq!(*Opaque::new(7).get(), Some(7));
}

#[test]
fn lists_are_emptied() {
    let mut l: LList<KRef<Obj>> = LList::new();
    for n in [3, 1, 2] {
        l.add(item(n));
    }
    let items: Vec<usize> = l.clear().into_iter().map(number).collect();
    assert_eq!(items, [2, 1, 3]);
    assert!(l.is_empty() && l.clear().is_empty());
    l.add(item(1));
    l.add(item(4));
    let mut rest = l.del_all().reversed();
    assert_eq!(rest.next().map(number), Some(1));
    assert_eq!(rest.clear().into_iter().map(number).collect::<Vec<usize>>(), [4]);
    let mut t = HlistTable::new(8);
    let l: HList<KRef<Obj>, ()> = HList::new(&mut t);
    let other: HList<KRef<Obj>, ()> = HList::new(&mut t);
    for n in [3, 2, 1] {
        assert!(l.push_front(&mut t, item(n)).is_ok());
    }
    assert!(other.push_front(&mut t, item(5)).is_ok());
    let items: Vec<usize> = l.clear(&mut t).into_iter().map(number).collect();
    assert_eq!(items, [1, 2, 3]);
    assert!(l.is_empty(&t));
    assert_eq!(entries(&other, &t), [5]);
    for n in 1..4 {
        assert_eq!((t.nodes[n].pprev, t.nodes[n].next), (Pprev::Unhashed, LIST_NIL));
    }
    assert!(l.clear(&mut t).is_empty());
}
