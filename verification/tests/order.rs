use klib::list::list_head;
use klib::list_sort::{list_sort, Keys, NodeOrder};
use klib::plist::{
    plist_add, plist_check_head, plist_del, plist_first, plist_head, plist_head_empty, plist_last,
    plist_next, plist_node_empty, plist_requeue, plist_test_check, plist_test_run, PlistOp, NODES,
};
use klib::sort::{
    sort, sort_nonatomic, sort_r, sort_r_nonatomic, ByteOrder, ElementOrder, ElementSwap, NoResched,
    Resched, Swap,
};
use klib::timerqueue::{
    timerqueue_add, timerqueue_del, timerqueue_head, timerqueue_iterate_next, timerqueue_linked_add,
    timerqueue_linked_head,
};
use std::cell::Cell;

/// A circular list of the nodes 1 to `n` behind the head 0.
fn circle(n: usize) -> Vec<list_head> {
    (0..=n).map(|i| list_head { next: (i + 1) % (n + 1), prev: (i + n) % (n + 1) }).collect()
}

fn walk(links: &[list_head]) -> Vec<usize> {
    let mut order = Vec::new();
    let mut at = links[0].next;
    while at != 0 {
        assert_eq!(links[links[at].prev].next, at);
        order.push(at);
        at = links[at].next;
    }
    order
}

#[test]
fn list_is_sorted_stably() {
    let keys = Keys { keys: vec![0, 3, 1, 2, 1, 3, 0] };
    let mut links = circle(6);
    list_sort(&keys, &mut links, 0);
    assert_eq!(walk(&links), [6, 2, 4, 3, 1, 5]);
}

#[test]
fn short_lists_stay() {
    for n in 0..2 {
        let mut links = circle(n);
        list_sort(&Keys { keys: vec![0; n + 1] }, &mut links, 0);
        assert_eq!(walk(&links).len(), n);
    }
}

/// Orders nodes by their keys, and counts the comparisons.
struct Counted(Vec<u32>, Cell<usize>);

impl NodeOrder for Counted {
    fn accepts(&self, a: usize) -> bool {
        0 < a && a < self.0.len()
    }

    fn order(&self, a: usize, b: usize) -> i32 {
        (self.0[a] > self.0[b]) as i32
    }

    fn compare(&self, a: usize, b: usize) -> i32 {
        assert!(a != b && self.accepts(a) && self.accepts(b));
        self.1.set(self.1.get() + 1);
        self.order(a, b)
    }
}

#[test]
fn long_list_is_sorted_with_few_comparisons() {
    let n = 1000;
    let keys: Vec<u32> = (0..=n as u32).map(|i| i * 7919 % 257).collect();
    let order = Counted(keys.clone(), Cell::new(0));
    let mut links = circle(n);
    list_sort(&order, &mut links, 0);
    let sorted = walk(&links);
    assert_eq!(sorted.len(), n);
    for w in sorted.windows(2) {
        assert!((keys[w[0]], w[0]) < (keys[w[1]], w[1]));
    }
    assert!(order.1.get() < 10 * n);
}

/// Exchanges two elements, and counts how often.
struct CountedSwap(usize);

impl ElementSwap for CountedSwap {
    type State = usize;

    fn state(&self) -> usize {
        self.0
    }

    fn after(s: usize, _x: usize, _y: usize, _size: usize) -> usize {
        s + 1
    }

    fn swap(&mut self, base: &mut [u8], x: usize, y: usize, size: usize) {
        assert!(base.len() >= 2 * size && x % size == 0 && y % size == 0);
        self.0 += 1;
        for i in 0..size {
            base.swap(x + i, y + i);
        }
    }
}

/// Counts how often it is called.
struct CountedResched(usize);

impl Resched for CountedResched {
    type State = usize;

    fn state(&self) -> usize {
        self.0
    }

    fn after(s: usize) -> usize {
        s + 1
    }

    fn resched(&mut self) {
        self.0 += 1;
    }
}

/// An exchange that notes what it exchanged.
struct NotedSwap(Vec<(usize, usize)>);

impl ElementSwap for NotedSwap {
    type State = ();

    fn state(&self) {}

    fn after(_s: (), _x: usize, _y: usize, _size: usize) {}

    fn swap(&mut self, base: &mut [u8], x: usize, y: usize, _size: usize) {
        self.0.push((x, y));
        base.swap(x, y);
    }
}

/// The exchanges decide which of two equal elements comes first.
#[test]
fn exchanges_of_the_array_sort() {
    let mut base = [5, 1, 4, 1, 5, 9, 2, 6];
    let mut swap = NotedSwap(vec![]);
    sort(&mut base, 8, 1, &ByteOrder, Some(&mut swap));
    assert_eq!(base, [1, 1, 2, 4, 5, 5, 6, 9]);
    let expected = [
        (3, 7), (2, 5), (1, 3), (0, 2), (0, 7), (1, 6), (1, 4),
        (2, 5), (0, 5), (0, 5), (1, 4), (0, 2), (0, 3), (1, 2),
        (0, 1)
    ];
    assert_eq!(swap.0, expected);
}

#[test]
fn bytes_are_compared_from_the_first() {
    assert!(ByteOrder.compare(&[1, 9], &[2, 0]) < 0);
    assert!(ByteOrder.compare(&[2, 1], &[2, 0]) > 0);
    assert_eq!(ByteOrder.compare(&[2, 1], &[2, 1]), 0);
    assert!(ByteOrder.compare(&[2], &[2, 0]) < 0);
    assert!(ByteOrder.compare(&[2, 0], &[2]) > 0);
}

fn numbers(n: usize) -> Vec<u32> {
    (0..n as u32).map(|i| i * 7919 % 1009).collect()
}

fn packed(v: &[u32]) -> Vec<u8> {
    v.iter().flat_map(|x| x.to_be_bytes()).collect()
}

#[test]
fn array_is_sorted() {
    for n in [0, 1, 2, 3, 10, 500] {
        let mut expected = numbers(n);
        let mut base = packed(&expected);
        expected.sort();
        sort(&mut base, n, 4, &ByteOrder, None::<&mut Swap>);
        assert_eq!(base, packed(&expected));
    }
}

#[test]
fn array_is_sorted_in_every_way() {
    let n = 300;
    let mut expected = numbers(n);
    let unsorted = packed(&expected);
    expected.sort();
    let mut base = unsorted.clone();
    sort_r(&mut base, n, 4, &ByteOrder, Some(&mut Swap::Bytes));
    assert_eq!(base, packed(&expected));
    let mut base = unsorted.clone();
    sort_r(&mut base, n, 4, &ByteOrder, Some(&mut Swap::Words32));
    assert_eq!(base, packed(&expected));
    let mut base = unsorted.clone();
    let mut swap = CountedSwap(0);
    sort_nonatomic(&mut base, n, 4, &ByteOrder, Some(&mut swap), &mut NoResched);
    assert_eq!(base, packed(&expected));
    assert!(swap.0 > 0);
    // Nothing is done to fewer than two elements.
    let mut swap = CountedSwap(0);
    sort_r(&mut [7, 3], 1, 2, &ByteOrder, Some(&mut swap));
    sort_r(&mut [], 5, 0, &ByteOrder, Some(&mut swap));
    assert_eq!(swap.0, 0);
    let mut base = unsorted;
    let mut calls = CountedResched(0);
    sort_r_nonatomic(&mut base, n, 4, &ByteOrder, None::<&mut Swap>, &mut calls);
    assert_eq!(base, packed(&expected));
    assert_eq!(calls.0, n / 2 + (n - 2) / 2 * 2);
    // Two elements are sifted once, eight four times and then six times, and one not at all.
    for (num, expected) in [(0, 0), (1, 0), (2, 1), (3, 1), (4, 4), (8, 10)] {
        let mut base: Vec<u8> = (0..num as u8).rev().collect();
        let mut calls = CountedResched(0);
        sort_nonatomic(&mut base, num, 1, &ByteOrder, None::<&mut Swap>, &mut calls);
        assert_eq!(calls.0, expected);
    }
}

#[test]
fn elements_of_any_size_are_exchanged() {
    for size in [1, 3, 8, 12, 16] {
        let mut rows: Vec<Vec<u8>> =
            (0..50u8).map(|i| (0..size as u8).map(|j| i.wrapping_mul(77) ^ j).collect()).collect();
        let mut base = rows.concat();
        rows.sort();
        sort(&mut base, 50, size, &ByteOrder, None::<&mut Swap>);
        assert_eq!(base, rows.concat());
    }
}

fn nodes(head: &plist_head) -> Vec<usize> {
    let mut order = Vec::new();
    if !plist_head_empty(head) {
        let mut at = plist_first(head);
        order.push(at);
        while let Some(next) = plist_next(at, head) {
            at = next;
            order.push(at);
        }
        assert_eq!(at, plist_last(head));
    }
    order
}

/// A list of nodes with these priorities.
fn plist(prios: &[i32]) -> plist_head {
    let mut head = plist_head::new(prios.len());
    for (i, &prio) in prios.iter().enumerate() {
        head.set_prio(i, prio);
        assert!(plist_node_empty(i, &head));
        plist_add(i, &mut head);
    }
    head
}

#[test]
fn nodes_are_ordered_by_priority_then_age() {
    let head = plist(&[5, 3, 5, 1, 3]);
    assert_eq!(nodes(&head), [3, 1, 4, 0, 2]);
    assert_eq!(head.prio(4), 3);
    assert!(!plist_node_empty(0, &head));
    let (prios, all) = plist_check_head(&head);
    assert!(prios.is_empty() && all.is_empty());
    assert!(plist_test_check(&head, 5));
    assert!(!plist_test_check(&head, 4));
}

#[test]
fn nodes_are_removed() {
    let mut head = plist(&[5, 3, 5, 1, 3]);
    plist_del(1, &mut head);
    assert_eq!(nodes(&head), [3, 4, 0, 2]);
    assert!(plist_node_empty(1, &head));
    // A node that is not on the list is left alone.
    plist_del(1, &mut head);
    assert_eq!(nodes(&head), [3, 4, 0, 2]);
    for node in [3, 4, 0, 2] {
        plist_del(node, &mut head);
    }
    assert!(plist_head_empty(&head));
}

#[test]
fn requeued_node_is_last_of_its_priority() {
    let mut head = plist(&[3, 3, 3, 5]);
    plist_requeue(0, &mut head);
    assert_eq!(nodes(&head), [1, 2, 0, 3]);
    plist_requeue(0, &mut head);
    assert_eq!(nodes(&head), [1, 2, 0, 3]);
    plist_requeue(3, &mut head);
    assert_eq!(nodes(&head), [1, 2, 0, 3]);
    plist_requeue(1, &mut head);
    assert_eq!(nodes(&head), [2, 0, 1, 3]);
}

#[test]
fn requeued_node_of_the_last_priority_stays_behind() {
    let mut head = plist(&[1, 2, 2]);
    plist_requeue(1, &mut head);
    assert_eq!(nodes(&head), [0, 2, 1]);
}

#[test]
fn exercise_of_the_list() {
    let times: Vec<i64> = (0..2 * NODES as i64).map(|i| i * i).collect();
    let test = plist_test_run(12345, &times);
    assert!(test.log.iter().all(|r| r.ok));
    // The first random number is 12345 * 193939 % 47629 with wrap-around at 32 bits.
    let r1 = 12345u32.wrapping_mul(193939) % 47629;
    let r2 = r1.wrapping_mul(193939) % 47629;
    let (node, prio) = (r1 as usize % NODES, (r2 % 99) as i32);
    assert_eq!(test.log[0].op, PlistOp::Add { node, prio });
    assert_eq!(test.log[1].op, PlistOp::Requeue { node });
    assert_eq!((test.log[0].nr_expect, test.log[1].nr_expect), (1, 1));
    assert_eq!(test.log.last().map(|r| r.nr_expect), Some(0));
    let other = plist_test_run(54321, &times);
    assert_ne!(other.log, test.log);
    assert_eq!(nodes(&test.head), (0..NODES).collect::<Vec<_>>());
    let expected: i64 = (0..NODES).map(|i| times[2 * i + 1] - times[2 * i]).sum();
    assert_eq!(test.elapsed, expected);
}

fn timers(head: &timerqueue_head) -> Vec<usize> {
    let mut order = Vec::new();
    let mut at = head.first();
    while let Some(node) = at {
        order.push(node);
        at = timerqueue_iterate_next(head, Some(node));
    }
    order
}

#[test]
fn timers_are_ordered_by_expiry() {
    let mut head = timerqueue_head::new(&[50, 20, 70, 20, 10]);
    assert_eq!(head.first(), None);
    let leftmost: Vec<bool> = (0..5).map(|i| timerqueue_add(&mut head, i)).collect();
    assert_eq!(leftmost, [true, true, false, false, true]);
    assert_eq!(timers(&head), [4, 1, 3, 0, 2]);
    assert!(head.is_queued(3));
    assert_eq!(timerqueue_iterate_next(&head, None), None);
}

#[test]
fn timers_are_removed() {
    let mut head = timerqueue_head::new(&[50, 20, 70, 20, 10]);
    for i in 0..5 {
        timerqueue_add(&mut head, i);
    }
    assert!(timerqueue_del(&mut head, 0));
    assert_eq!(timers(&head), [4, 1, 3, 2]);
    assert!(!head.is_queued(0));
    assert!(timerqueue_del(&mut head, 4));
    assert_eq!(head.first(), Some(1));
    assert!(timerqueue_add(&mut head, 4));
    assert!(timerqueue_del(&mut head, 4));
    assert!(timerqueue_del(&mut head, 1));
    assert!(timerqueue_del(&mut head, 2));
    assert!(!timerqueue_del(&mut head, 3));
    assert_eq!(timers(&head), []);
}

#[test]
fn timers_get_another_expiry() {
    let mut head = timerqueue_head::new(&[50, 20, 70]);
    for i in 0..3 {
        timerqueue_add(&mut head, i);
    }
    timerqueue_del(&mut head, 2);
    head.set_expires(2, 10);
    assert_eq!(timers(&head), [1, 0]);
    assert!(timerqueue_add(&mut head, 2));
    assert_eq!(timers(&head), [2, 1, 0]);
    let mut head = timerqueue_linked_head::new(&[50, 20]);
    head.set_expires(1, 60);
    assert!(timerqueue_linked_add(&mut head, 0));
    assert!(!timerqueue_linked_add(&mut head, 1));
    assert_eq!((head.first(), head.next(0), head.prev(1)), (Some(0), Some(1), Some(0)));
}

#[test]
fn many_timers_come_and_go() {
    let n = 200;
    let expires: Vec<i64> = (0..n as i64).map(|i| i * 7919 % 101 - 50).collect();
    let mut head = timerqueue_head::new(&expires);
    let mut expected: Vec<usize> = Vec::new();
    for i in 0..n {
        timerqueue_add(&mut head, i);
        let at = expected.partition_point(|&k| expires[k] <= expires[i]);
        expected.insert(at, i);
        if i % 3 == 2 {
            let gone = expected.remove(i * 31 % expected.len());
            timerqueue_del(&mut head, gone);
        }
        assert_eq!(timers(&head), expected);
    }
}

#[test]
fn linked_timers_know_their_neighbours() {
    let mut head = timerqueue_linked_head::new(&[50, 20, 70, 20]);
    assert_eq!(head.first(), None);
    let leftmost: Vec<bool> = (0..4).map(|i| timerqueue_linked_add(&mut head, i)).collect();
    assert_eq!(leftmost, [true, true, false, false]);
    assert_eq!(head.first(), Some(1));
    assert_eq!((head.prev(1), head.next(1)), (None, Some(3)));
    assert_eq!((head.prev(3), head.next(3)), (Some(1), Some(0)));
    assert_eq!((head.prev(0), head.next(0)), (Some(3), Some(2)));
    assert_eq!((head.prev(2), head.next(2)), (Some(0), None));
}
