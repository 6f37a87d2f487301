//! A fast, small, non-recursive O(n log n) sort.
//!
//! The array is a run of bytes that holds `num` elements of `size` bytes each. It is sorted in
//! place by a heapsort that extracts the two largest elements at a time and sifts bottom-up. The
//! sort is not stable.

use vstd::prelude::*;

#[allow(unused_imports)]
use crate::heap_order::{
    big_child, bounded, emptied, heap, heap_but, heap_sorted, heaped, last_sorted, lawful_on, leaf_below,
    lemma_children_are_next, lemma_emptied, lemma_heaped, lemma_lawful_permuted, lemma_path_le,
    lemma_permuted, lemma_root_is_greatest, lemma_sift, lemma_swapped_multiset, on_path, parent_of,
    place_from, shifted_at, sifted, swapped, tail_sorted, taken_child, two_taken, Order,
};

verus! {

/// How the caller compares two elements.
pub trait ElementOrder {
    /// The comparison: negative, zero or positive.
    spec fn order(&self, a: Seq<u8>, b: Seq<u8>) -> int;

    /// Whether an element can be compared.
    spec fn accepts(&self, a: Seq<u8>) -> bool;

    /// Compares two elements.
    fn compare(&self, a: &[u8], b: &[u8]) -> (r: i32)
        requires
            self.accepts(a@),
            self.accepts(b@),
        ensures
            r == self.order(a@, b@),
    ;
}

/// The order of `a` and `b` by their first different bytes; where there are none, the shorter comes
/// first.
pub open spec fn byte_order(a: Seq<u8>, b: Seq<u8>) -> int
    decreases a.len(),
{
    if a.len() == 0 {
        if b.len() == 0 {
            0
        } else {
            -1
        }
    } else if b.len() == 0 {
        1
    } else if a[0] < b[0] {
        -1
    } else if a[0] > b[0] {
        1
    } else {
        byte_order(a.drop_first(), b.drop_first())
    }
}

/// Elements compared by their bytes.
pub struct ByteOrder;

impl ElementOrder for ByteOrder {
    open spec fn order(&self, a: Seq<u8>, b: Seq<u8>) -> int {
        byte_order(a, b)
    }

    open spec fn accepts(&self, a: Seq<u8>) -> bool {
        true
    }

    fn compare(&self, a: &[u8], b: &[u8]) -> (r: i32) {
        let mut i: usize = 0;
        proof {
            assert(a@.skip(0) =~= a@);
            assert(b@.skip(0) =~= b@);
        }
        while i < a.len() && i < b.len()
            invariant
                i <= a@.len(),
                i <= b@.len(),
                byte_order(a@, b@) == byte_order(a@.skip(i as int), b@.skip(i as int)),
            decreases a@.len() - i,
        {
            if a[i] < b[i] {
                return -1;
            }
            if a[i] > b[i] {
                return 1;
            }
            proof {
                assert(a@.skip(i as int).drop_first() =~= a@.skip(i + 1));
                assert(b@.skip(i as int).drop_first() =~= b@.skip(i + 1));
            }
            i += 1;
        }
        if i < b.len() {
            -1
        } else if i < a.len() {
            1
        } else {
            0
        }
    }
}

/// The order of elements by their bytes obeys the laws of a comparison, and only equal elements tie.
pub proof fn law_byte_order(a: Seq<u8>, b: Seq<u8>, c: Seq<u8>)
    ensures
        byte_order(a, b) < 0 <==> byte_order(b, a) > 0,
        byte_order(a, b) <= 0 && byte_order(b, c) <= 0 ==> byte_order(a, c) <= 0,
        byte_order(a, b) == 0 <==> a == b,
    decreases a.len(),
{
    if a.len() > 0 && b.len() > 0 {
        if c.len() > 0 {
            law_byte_order(a.drop_first(), b.drop_first(), c.drop_first());
        } else {
            law_byte_order(a.drop_first(), b.drop_first(), c);
        }
        assert(a =~= seq![a[0]] + a.drop_first());
        assert(b =~= seq![b[0]] + b.drop_first());
    } else {
        assert(a.len() == 0 && b.len() == 0 ==> a =~= b);
    }
}

/// `b` with the `n` bytes at `x` and the `n` bytes at `y` exchanged.
pub open spec fn exchanged(b: Seq<u8>, x: int, y: int, n: int) -> Seq<u8> {
    Seq::new(
        b.len(),
        |k: int|
            if x <= k < x + n {
                b[k - x + y]
            } else if y <= k < y + n {
                b[k - y + x]
            } else {
                b[k]
            },
    )
}

/// How two elements are exchanged, for a caller that has to do more than move bytes.
pub trait ElementSwap {
    /// What an exchange changes besides the array.
    type State;

    /// What the exchanges so far have come to.
    spec fn state(&self) -> Self::State;

    /// What the state `s` becomes with the exchange of the elements of `size` bytes at `x` and at `y`.
    spec fn after(s: Self::State, x: usize, y: usize, size: usize) -> Self::State;

    /// Exchanges the elements of `size` bytes at `x` and at `y`, in an array of two or more.
    fn swap(&mut self, base: &mut [u8], x: usize, y: usize, size: usize)
        requires
            size > 0,
            2 * size <= old(base)@.len(),
            old(base)@.len() as int % size as int == 0,
            x as int % size as int == 0,
            y as int % size as int == 0,
            x + size <= old(base)@.len(),
            y + size <= old(base)@.len(),
        ensures
            final(base)@ == exchanged(old(base)@, x as int, y as int, size as int),
            final(self).state() == Self::after(old(self).state(), x, y, size),
    ;
}

/// What a caller that may sleep does now and then, so that others can go on.
pub trait Resched {
    /// What a call changes.
    type State;

    /// What the calls so far have come to.
    spec fn state(&self) -> Self::State;

    /// What the state `s` becomes with a call.
    spec fn after(s: Self::State) -> Self::State;

    /// Lets others go on.
    fn resched(&mut self)
        ensures
            final(self).state() == Self::after(old(self).state()),
    ;
}

/// What a caller that must not sleep does: nothing.
pub struct NoResched;

impl Resched for NoResched {
    type State = ();

    open spec fn state(&self) -> () {
        ()
    }

    open spec fn after(s: ()) -> () {
        ()
    }

    fn resched(&mut self) {
    }
}

/// What the state `s` becomes with `n` calls.
pub open spec fn rescheduled<R: Resched>(s: R::State, n: nat) -> R::State
    decreases n,
{
    if n == 0 {
        s
    } else {
        R::after(rescheduled::<R>(s, (n - 1) as nat))
    }
}

/// How many times an element is sifted down while `num` elements of `size` bytes are sorted: once for
/// each parent while the heap is built, and twice for each pair that is taken off.
pub open spec fn sifts(num: int, size: int) -> nat {
    if num < 2 || size == 0 {
        0
    } else {
        (num / 2 + (num - 2) / 2 * 2) as nat
    }
}

/// Whether elements of `size` bytes can be exchanged in words of `align` bytes.
fn is_aligned(size: usize, align: usize) -> (r: bool)
    requires
        align > 0,
    ensures
        r == (size as int % align as int == 0),
{
    size % align == 0
}

/// Exchanges `len` bytes at `x` and at `y`.
fn swap_chunk(base: &mut [u8], x: usize, y: usize, len: usize)
    requires
        x + len <= old(base)@.len(),
        y + len <= old(base)@.len(),
        x == y || x + len <= y || y + len <= x,
    ensures
        final(base)@ == exchanged(old(base)@, x as int, y as int, len as int),
{
    let ghost b0 = base@;
    let _total: usize = base.len();
    let mut k: usize = 0;
    while k < len
        invariant
            k <= len,
            x + len <= b0.len(),
            y + len <= b0.len(),
            x == y || x + len <= y || y + len <= x,
            b0.len() <= usize::MAX,
            base@ == exchanged(b0, x as int, y as int, k as int),
        decreases len - k,
    {
        let t = base[x + k];
        base[x + k] = base[y + k];
        base[y + k] = t;
        k = k + 1;
        assert(base@ =~= exchanged(b0, x as int, y as int, k as int));
    }
}

/// Exchanges `n` bytes in words of `word` bytes, from the last to the first.
fn swap_words(base: &mut [u8], x: usize, y: usize, n: usize, word: usize)
    requires
        x + n <= old(base)@.len(),
        y + n <= old(base)@.len(),
        x == y || x + n <= y || y + n <= x,
        n > 0,
        word > 0,
        n as int % word as int == 0,
    ensures
        final(base)@ == exchanged(old(base)@, x as int, y as int, n as int),
{
    let ghost b0 = base@;
    let _total: usize = base.len();
    let ghost mut q: int = n as int / word as int;
    let mut left: usize = n;
    proof {
        vstd::arithmetic::div_mod::lemma_fundamental_div_mod(n as int, word as int);
    }
    while left > 0
        invariant
            left <= n,
            left == q * word,
            word > 0,
            q >= 0,
            x + n <= b0.len(),
            y + n <= b0.len(),
            x == y || x + n <= y || y + n <= x,
            b0.len() <= usize::MAX,
            base@ == exchanged(b0, x + left, y + left, n - left),
        decreases left,
    {
        assert(q >= 1 && left >= word && left - word == (q - 1) * word) by (nonlinear_arith)
            requires
                left == q * word,
                left > 0,
                word > 0,
                q >= 0,
        ;
        left = left - word;
        proof {
            q = q - 1;
        }
        swap_chunk(base, x + left, y + left, word);
        assert(base@ =~= exchanged(b0, x + left, y + left, n - left));
    }
}

/// Exchanges two elements in 32-bit words. `n` must be a multiple of 4.
fn swap_words_32(base: &mut [u8], x: usize, y: usize, n: usize)
    requires
        x + n <= old(base)@.len(),
        y + n <= old(base)@.len(),
        x == y || x + n <= y || y + n <= x,
        n > 0,
        n as int % 4 == 0,
    ensures
        final(base)@ == exchanged(old(base)@, x as int, y as int, n as int),
{
    swap_words(base, x, y, n, 4)
}

/// Exchanges two elements in 64-bit words. `n` must be a multiple of 8.
fn swap_words_64(base: &mut [u8], x: usize, y: usize, n: usize)
    requires
        x + n <= old(base)@.len(),
        y + n <= old(base)@.len(),
        x == y || x + n <= y || y + n <= x,
        n > 0,
        n as int % 8 == 0,
    ensures
        final(base)@ == exchanged(old(base)@, x as int, y as int, n as int),
{
    swap_words(base, x, y, n, 8)
}

/// Exchanges two elements a byte at a time.
fn swap_bytes(base: &mut [u8], x: usize, y: usize, n: usize)
    requires
        x + n <= old(base)@.len(),
        y + n <= old(base)@.len(),
        x == y || x + n <= y || y + n <= x,
        n > 0,
    ensures
        final(base)@ == exchanged(old(base)@, x as int, y as int, n as int),
{
    swap_words(base, x, y, n, 1)
}

/// The built-in ways to exchange two elements: the widest words that divide their size.
#[derive(Clone, Copy)]
pub enum Swap {
    Words64,
    Words32,
    Bytes,
}

impl ElementSwap for Swap {
    type State = ();

    open spec fn state(&self) -> () {
        ()
    }

    open spec fn after(s: (), x: usize, y: usize, size: usize) -> () {
        ()
    }

    fn swap(&mut self, base: &mut [u8], x: usize, y: usize, size: usize) {
        proof {
            lemma_apart(x as int, y as int, size as int);
        }
        match *self {
            Swap::Words64 => {
                if is_aligned(size, 8) {
                    swap_words_64(base, x, y, size)
                } else {
                    swap_bytes(base, x, y, size)
                }
            },
            Swap::Words32 => {
                if is_aligned(size, 4) {
                    swap_words_32(base, x, y, size)
                } else {
                    swap_bytes(base, x, y, size)
                }
            },
            Swap::Bytes => swap_bytes(base, x, y, size),
        }
    }
}

/// Different multiples of `size` are at least `size` apart.
proof fn lemma_apart(x: int, y: int, size: int)
    requires
        size > 0,
        x % size == 0,
        y % size == 0,
    ensures
        x == y || x + size <= y || y + size <= x,
{
    vstd::arithmetic::div_mod::lemma_fundamental_div_mod(x, size);
    vstd::arithmetic::div_mod::lemma_fundamental_div_mod(y, size);
    let (i, j) = (x / size, y / size);
    assert(x == i * size && y == j * size) by (nonlinear_arith)
        requires
            x == size * i,
            y == size * j,
    ;
    if i < j {
        lemma_offset(i, j, size);
    } else if j < i {
        lemma_offset(j, i, size);
    }
}

/// The elements of an array: `num` runs of `size` bytes.
pub open spec fn elements(b: Seq<u8>, num: nat, size: nat) -> Seq<Seq<u8>> {
    Seq::new(num, |k: int| b.subrange(k * size, (k + 1) * size))
}

proof fn lemma_offset(i: int, j: int, size: int)
    requires
        i < j,
        size >= 0,
    ensures
        (i + 1) * size <= j * size,
        (i + 1) * size == i * size + size,
{
    assert((i + 1) * size <= j * size && (i + 1) * size == i * size + size) by (nonlinear_arith)
        requires
            i < j,
            size >= 0,
    ;
}

/// The element at `i` lies inside the array.
proof fn lemma_inside(i: int, num: int, size: int)
    requires
        0 <= i < num,
        size >= 0,
    ensures
        0 <= i * size <= i * size + size <= num * size,
        (i + 1) * size == i * size + size,
{
    lemma_offset(i, num, size);
    assert(0 <= i * size) by (nonlinear_arith)
        requires
            0 <= i,
            size >= 0,
    ;
}

/// Exchanging the bytes of two elements exchanges the elements.
proof fn lemma_exchanged(b: Seq<u8>, num: nat, size: nat, i: int, j: int)
    requires
        b.len() == num * size,
        0 <= i < num,
        0 <= j < num,
    ensures
        elements(exchanged(b, i * size, j * size, size as int), num, size) == swapped(
            elements(b, num, size),
            i,
            j,
        ),
{
    let r = exchanged(b, i * size, j * size, size as int);
    let e = elements(b, num, size);
    lemma_inside(i, num as int, size as int);
    lemma_inside(j, num as int, size as int);
    if i < j {
        lemma_offset(i, j, size as int);
    }
    if j < i {
        lemma_offset(j, i, size as int);
    }
    assert forall|k: int| 0 <= k < num implies elements(r, num, size)[k] == swapped(e, i, j)[k] by {
        lemma_inside(k, num as int, size as int);
        if k < i {
            lemma_offset(k, i, size as int);
        }
        if i < k {
            lemma_offset(i, k, size as int);
        }
        if k < j {
            lemma_offset(k, j, size as int);
        }
        if j < k {
            lemma_offset(j, k, size as int);
        }
        let lhs = r.subrange(k * size, (k + 1) * size);
        if k == j {
            assert(lhs =~= b.subrange(i * size, (i + 1) * size));
        } else if k == i {
            assert(lhs =~= b.subrange(j * size, (j + 1) * size));
        } else {
            assert(lhs =~= b.subrange(k * size, (k + 1) * size));
        }
    }
    assert(elements(r, num, size) =~= swapped(e, i, j));
}

/// The comparison of the elements.
pub open spec fn order_of<O: ElementOrder>(o: &O) -> Order<Seq<u8>> {
    |a: Seq<u8>, b: Seq<u8>| o.order(a, b)
}

/// Whether all elements of `e` can be compared.
pub open spec fn accepts_all<O: ElementOrder>(o: &O, e: Seq<Seq<u8>>) -> bool {
    forall|i: int| 0 <= i < e.len() ==> o.accepts(#[trigger] e[i])
}

/// A permutation of elements that can be compared can be compared.
proof fn lemma_accepts_permuted<O: ElementOrder>(o: &O, s: Seq<Seq<u8>>, t: Seq<Seq<u8>>)
    requires
        s.to_multiset() == t.to_multiset(),
        accepts_all(o, s),
    ensures
        accepts_all(o, t),
{
    assert forall|i: int| 0 <= i < t.len() implies o.accepts(#[trigger] t[i]) by {
        let k = lemma_permuted(s, t, i);
        assert(o.accepts(s[k]));
    }
}

/// The elements after the exchanges `p`, one after the other.
pub open spec fn exchanged_all(e: Seq<Seq<u8>>, p: Seq<(int, int)>) -> Seq<Seq<u8>>
    decreases p.len(),
{
    if p.len() == 0 {
        e
    } else {
        swapped(exchanged_all(e, p.drop_last()), p.last().0, p.last().1)
    }
}

/// The state of a swap after the exchanges `p`, one after the other.
pub open spec fn steps_of<W: ElementSwap>(s: W::State, p: Seq<(int, int)>, size: int) -> W::State
    decreases p.len(),
{
    if p.len() == 0 {
        s
    } else {
        W::after(
            steps_of::<W>(s, p.drop_last(), size),
            (p.last().0 * size) as usize,
            (p.last().1 * size) as usize,
            size as usize,
        )
    }
}

/// Whether the exchanges `p` are of two of `num` elements each.
pub open spec fn in_range(p: Seq<(int, int)>, num: int) -> bool {
    forall|k: int| 0 <= k < p.len() ==> 0 <= (#[trigger] p[k]).0 < num && 0 <= p[k].1 < num
}

/// Whether exchanges alone, each of them made by the swap, lead from the elements `e0` and the state
/// `s0` to `e1` and `s1`.
#[verifier::opaque]
pub open spec fn moved<W: ElementSwap>(
    e0: Seq<Seq<u8>>,
    s0: W::State,
    e1: Seq<Seq<u8>>,
    s1: W::State,
    num: int,
    size: int,
) -> bool {
    exists|p: Seq<(int, int)>|
        #[trigger] in_range(p, num) && e1 == exchanged_all(e0, p) && s1 == steps_of::<W>(s0, p, size)
}

proof fn lemma_moved_not<W: ElementSwap>(e: Seq<Seq<u8>>, s: W::State, num: int, size: int)
    ensures
        moved::<W>(e, s, e, s, num, size),
{
    reveal(moved);
    assert(in_range(Seq::empty(), num));
}

proof fn lemma_moved_on<W: ElementSwap>(
    e0: Seq<Seq<u8>>,
    s0: W::State,
    e: Seq<Seq<u8>>,
    s: W::State,
    num: int,
    size: int,
    i: int,
    j: int,
)
    requires
        moved::<W>(e0, s0, e, s, num, size),
        0 <= i < num,
        0 <= j < num,
    ensures
        moved::<W>(
            e0,
            s0,
            swapped(e, i, j),
            W::after(s, (i * size) as usize, (j * size) as usize, size as usize),
            num,
            size,
        ),
{
    reveal(moved);
    let p = choose|p: Seq<(int, int)>|
        #[trigger] in_range(p, num) && e == exchanged_all(e0, p) && s == steps_of::<W>(s0, p, size);
    let q = p.push((i, j));
    assert(q.drop_last() =~= p);
    assert(in_range(q, num));
}

proof fn lemma_moved_both<W: ElementSwap>(
    e0: Seq<Seq<u8>>,
    s0: W::State,
    e1: Seq<Seq<u8>>,
    s1: W::State,
    e2: Seq<Seq<u8>>,
    s2: W::State,
    num: int,
    size: int,
)
    requires
        moved::<W>(e0, s0, e1, s1, num, size),
        moved::<W>(e1, s1, e2, s2, num, size),
    ensures
        moved::<W>(e0, s0, e2, s2, num, size),
{
    reveal(moved);
    let p = choose|p: Seq<(int, int)>|
        #[trigger] in_range(p, num) && e2 == exchanged_all(e1, p) && s2 == steps_of::<W>(
            s1,
            p,
            size,
        );
    lemma_moved_run::<W>(e0, s0, e1, s1, num, size, p);
}

proof fn lemma_moved_run<W: ElementSwap>(
    e0: Seq<Seq<u8>>,
    s0: W::State,
    e1: Seq<Seq<u8>>,
    s1: W::State,
    num: int,
    size: int,
    p: Seq<(int, int)>,
)
    requires
        moved::<W>(e0, s0, e1, s1, num, size),
        in_range(p, num),
    ensures
        moved::<W>(e0, s0, exchanged_all(e1, p), steps_of::<W>(s1, p, size), num, size),
    decreases p.len(),
{
    if p.len() > 0 {
        let q = p.drop_last();
        assert(in_range(q, num)) by {
            assert forall|k: int| 0 <= k < q.len() implies 0 <= (#[trigger] q[k]).0 < num && 0
                <= q[k].1 < num by {
                assert(p[k] == q[k]);
            }
        }
        lemma_moved_run::<W>(e0, s0, e1, s1, num, size, q);
        assert(p[p.len() - 1] == p.last());
        lemma_moved_on::<W>(
            e0,
            s0,
            exchanged_all(e1, q),
            steps_of::<W>(s1, q, size),
            num,
            size,
            p.last().0,
            p.last().1,
        );
    }
}

/// The lowest bit that is set in `size`, as a mask.
spec fn is_low_bit(lsbit: usize, size: usize) -> bool {
    lsbit == size & !((size - 1) as usize)
}

proof fn lemma_low_bit_step(x: usize, size: usize, lsbit: usize)
    by (bit_vector)
    requires
        size != 0,
        lsbit == size & !((size - 1) as usize),
        x & ((lsbit - 1) as usize) == 0,
        x & lsbit == 0 || x & lsbit == lsbit,
    ensures
        ((x + size) as usize) & ((lsbit - 1) as usize) == 0,
        x & lsbit == 0 ==> ((x + size) as usize) & lsbit == lsbit,
        x & lsbit == lsbit ==> ((x + size) as usize) & lsbit == 0,
        lsbit != 0,
{
}

/// A multiple of `size` has the low bit of `size` set exactly if it is an odd multiple.
proof fn lemma_low_bit(k: int, x: usize, size: usize, lsbit: usize)
    requires
        k >= 0,
        size > 0,
        x == k * size,
        is_low_bit(lsbit, size),
    ensures
        x & ((lsbit - 1) as usize) == 0,
        k % 2 == 0 ==> x & lsbit == 0,
        k % 2 == 1 ==> x & lsbit == lsbit,
        lsbit != 0,
    decreases k,
{
    if k == 0 {
        assert(x == 0) by (nonlinear_arith)
            requires
                x == k * size,
                k == 0,
        ;
        assert(0usize & ((lsbit - 1) as usize) == 0 && 0usize & lsbit == 0 && (size != 0 && lsbit
            == size & !((size - 1) as usize) ==> lsbit != 0)) by (bit_vector);
    } else {
        assert(x == (k - 1) * size + size && (k - 1) * size >= 0) by (nonlinear_arith)
            requires
                x == k * size,
                k >= 1,
                size > 0,
        ;
        let y = (x - size) as usize;
        lemma_low_bit(k - 1, y, size, lsbit);
        lemma_low_bit_step(y, size, lsbit);
        assert(((y + size) as usize) == x);
    }
}

/// Finds the offset of the parent of the element at the offset `i`, which is not zero.
///
/// In terms of indexes the parent of `j` is `(j - 1) / 2`. To stay with offsets, only one bit of
/// the quotient by `size` is needed: the lowest bit of `size` is clear in an even multiple of it,
/// and set in an odd one.
fn parent(i: usize, lsbit: usize, size: usize, Ghost(k): Ghost<int>) -> (r: usize)
    requires
        size > 0,
        k >= 1,
        i == k * size,
        is_low_bit(lsbit, size),
    ensures
        r == parent_of(k) * size,
{
    assert((k - 1) * size == k * size - size && (k - 1) * size >= 0) by (nonlinear_arith)
        requires
            k >= 1,
            size > 0,
    ;
    let below: usize = i - size;
    proof {
        lemma_low_bit(k - 1, below, size, lsbit);
        assert(parent_of(k) * size >= 0) by (nonlinear_arith)
            requires
                parent_of(k) >= 0,
                size > 0,
        ;
        if (k - 1) % 2 == 0 {
            assert(below == 2 * (parent_of(k) * size)) by (nonlinear_arith)
                requires
                    below == (k - 1) * size,
                    k - 1 == 2 * parent_of(k),
            ;
        } else {
            assert(below == 2 * (parent_of(k) * size) + size) by (nonlinear_arith)
                requires
                    below == (k - 1) * size,
                    k - 1 == 2 * parent_of(k) + 1,
            ;
        }
    }
    if below & lsbit != 0 {
        (below - size) / 2
    } else {
        below / 2
    }
}

/// Exchanges two elements.
fn do_swap<W: ElementSwap>(
    base: &mut [u8],
    x: usize,
    y: usize,
    num: usize,
    size: usize,
    swap: &mut W,
    Ghost(i): Ghost<int>,
    Ghost(j): Ghost<int>,
)
    requires
        old(base)@.len() == num * size,
        size > 0,
        num >= 2,
        0 <= i < num,
        0 <= j < num,
        x == i * size,
        y == j * size,
    ensures
        final(base)@.len() == num * size,
        elements(final(base)@, num as nat, size as nat) == swapped(
            elements(old(base)@, num as nat, size as nat),
            i,
            j,
        ),
        final(swap).state() == W::after(old(swap).state(), x, y, size),
{
    proof {
        lemma_inside(i, num as int, size as int);
        lemma_inside(j, num as int, size as int);
        lemma_exchanged(base@, num as nat, size as nat, i, j);
        vstd::arithmetic::div_mod::lemma_mod_multiples_basic(i, size as int);
        vstd::arithmetic::div_mod::lemma_mod_multiples_basic(j, size as int);
        vstd::arithmetic::div_mod::lemma_mod_multiples_basic(num as int, size as int);
        assert(2 * size <= num * size) by (nonlinear_arith)
            requires
                num >= 2,
                size > 0,
        ;
    }
    swap.swap(base, x, y, size);
}

/// Compares the elements at the offsets `x` and `y`.
fn do_compare<O: ElementOrder>(
    base: &[u8],
    x: usize,
    y: usize,
    num: usize,
    size: usize,
    order: &O,
    Ghost(i): Ghost<int>,
    Ghost(j): Ghost<int>,
) -> (r: i32)
    requires
        base@.len() == num * size,
        size > 0,
        0 <= i < num,
        0 <= j < num,
        x == i * size,
        y == j * size,
        order.accepts(elements(base@, num as nat, size as nat)[i]),
        order.accepts(elements(base@, num as nat, size as nat)[j]),
    ensures
        r == order_of(order)(
            elements(base@, num as nat, size as nat)[i],
            elements(base@, num as nat, size as nat)[j],
        ),
{
    let _total: usize = base.len();
    proof {
        lemma_inside(i, num as int, size as int);
        lemma_inside(j, num as int, size as int);
    }
    order.compare(&base[x..x + size], &base[y..y + size])
}

/// Sifts the element at the offset `a` down into the heap of the elements below the offset `n`.
///
/// This is the bottom-up variant: it finds the way down to the leaves with one comparison per
/// level, then goes back up to where the element belongs. Because elements tend to sift down close
/// to the leaves, this takes fewer comparisons than two per level on the way down.
fn sift<O: ElementOrder, W: ElementSwap>(
    base: &mut [u8],
    num: usize,
    size: usize,
    a: usize,
    n: usize,
    lsbit: usize,
    order: &O,
    swap: &mut W,
    Ghost(ai): Ghost<int>,
    Ghost(ni): Ghost<int>,
    Ghost(lo): Ghost<int>,
)
    requires
        old(base)@.len() == num * size,
        size > 0,
        num >= 2,
        accepts_all(order, elements(old(base)@, num as nat, size as nat)),
        0 <= lo <= ai < num,
        0 <= ni <= num,
        a == ai * size,
        n == ni * size,
        is_low_bit(lsbit, size),
        ai == 0 || parent_of(ai) < lo,
        lawful_on(order_of(order), elements(old(base)@, num as nat, size as nat)) ==> heap_but(
            order_of(order),
            elements(old(base)@, num as nat, size as nat),
            ni,
            lo,
            ai,
        ),
    ensures
        final(base)@.len() == num * size,
        elements(final(base)@, num as nat, size as nat) == sifted(
            order_of(order),
            elements(old(base)@, num as nat, size as nat),
            ni,
            ai,
        ),
        moved::<W>(
            elements(old(base)@, num as nat, size as nat),
            old(swap).state(),
            elements(final(base)@, num as nat, size as nat),
            final(swap).state(),
            num as int,
            size as int,
        ),
        elements(final(base)@, num as nat, size as nat).to_multiset() == elements(
            old(base)@,
            num as nat,
            size as nat,
        ).to_multiset(),
        forall|k: int|
            ni <= k < num ==> elements(final(base)@, num as nat, size as nat)[k] == elements(
                old(base)@,
                num as nat,
                size as nat,
            )[k],
        forall|x: Seq<u8>|
            bounded(order_of(order), elements(old(base)@, num as nat, size as nat), ni, x)
                ==> bounded(
                order_of(order),
                elements(final(base)@, num as nat, size as nat),
                ni,
                x,
            ),
        lawful_on(order_of(order), elements(old(base)@, num as nat, size as nat)) ==> heap(
            order_of(order),
            elements(final(base)@, num as nat, size as nat),
            ni,
            lo,
        ),
{
    let ghost f = order_of(order);
    let ghost e0 = elements(base@, num as nat, size as nat);
    let ghost s0 = swap.state();
    let ghost mut bi: int = ai;
    let mut b: usize = a;
    let _total: usize = base.len();
    proof {
        lemma_inside(ai, num as int, size as int);
        assert(ni * size <= num * size) by (nonlinear_arith)
            requires
                ni <= num,
                size > 0,
        ;
    }
    // `next` is where the element behind `b` begins; the children of `b` begin at `b + next` and at
    // twice `next`.
    let mut next: usize = b + size;
    proof {
        lemma_children(bi, size as int);
    }
    while next <= n && next < n - next
        invariant
            base@.len() == num * size,
            e0 == elements(base@, num as nat, size as nat),
            f == order_of(order),
            accepts_all(order, e0),
            num * size <= usize::MAX,
            size > 0,
            0 <= ai <= bi < num,
            0 <= ni <= num,
            ni * size <= num * size,
            n == ni * size,
            b == bi * size,
            next == b + size,
            next <= num * size,
            (2 * bi + 1) * size == b + next,
            (2 * bi + 2) * size == next + next,
            on_path(f, e0, ni, ai, bi),
            leaf_below(f, e0, ni, bi) == leaf_below(f, e0, ni, ai),
        decreases ni - bi,
    {
        assert(2 * bi + 2 < ni) by {
            lemma_less(2 * bi + 2, ni, size as int);
        }
        let c: usize = b + next;
        let d: usize = next + next;
        let greater = do_compare(
            base,
            c,
            d,
            num,
            size,
            order,
            Ghost(2 * bi + 1),
            Ghost(2 * bi + 2),
        );
        proof {
            let next = big_child(f, e0, ni, bi);
            assert(parent_of(next) == bi);
            assert(on_path(f, e0, ni, ai, next));
            bi = next;
            lemma_inside(bi, num as int, size as int);
            lemma_children(bi, size as int);
        }
        b = if greater > 0 {
            c
        } else {
            d
        };
        next = b + size;
    }
    // The last leaf may have no sibling.
    if next <= n && next == n - next {
        b = b + next;
        proof {
            assert(2 * bi + 2 == ni) by {
                lemma_equal(2 * bi + 2, ni, size as int);
            }
            assert(big_child(f, e0, ni, bi) == 2 * bi + 1);
            assert(parent_of(2 * bi + 1) == bi);
            assert(on_path(f, e0, ni, ai, 2 * bi + 1));
            assert(leaf_below(f, e0, ni, 2 * bi + 1) == 2 * bi + 1);
            assert(leaf_below(f, e0, ni, bi) == leaf_below(f, e0, ni, 2 * bi + 1));
            bi = 2 * bi + 1;
        }
    } else {
        assert(2 * bi + 2 > ni) by {
            lemma_more(2 * bi + 2, ni, size as int);
        }
    }
    assert(2 * bi + 1 >= ni);
    assert(leaf_below(f, e0, ni, ai) == bi);
    // Go back up to where the element belongs.
    while b != a && do_compare(base, a, b, num, size, order, Ghost(ai), Ghost(bi)) >= 0
        invariant
            base@.len() == num * size,
            e0 == elements(base@, num as nat, size as nat),
            f == order_of(order),
            accepts_all(order, e0),
            size > 0,
            0 <= ai <= bi < num,
            0 <= ni <= num,
            a == ai * size,
            b == bi * size,
            is_low_bit(lsbit, size),
            on_path(f, e0, ni, ai, bi),
            place_from(f, e0, ai, bi) == place_from(f, e0, ai, leaf_below(f, e0, ni, ai)),
            2 * bi + 1 < ni ==> f(e0[ai], e0[big_child(f, e0, ni, bi)]) >= 0,
        ensures
            place_from(f, e0, ai, bi) == place_from(f, e0, ai, leaf_below(f, e0, ni, ai)),
            on_path(f, e0, ni, ai, bi),
            0 <= ai <= bi < num,
            b == bi * size,
            2 * bi + 1 < ni ==> f(e0[ai], e0[big_child(f, e0, ni, bi)]) >= 0,
            b == a || f(e0[ai], e0[bi]) < 0,
        decreases bi,
    {
        proof {
            assert(bi != ai);
            lemma_path_le(f, e0, ni, ai, parent_of(bi));
        }
        b = parent(b, lsbit, size, Ghost(bi));
        proof {
            bi = parent_of(bi);
        }
    }
    let ghost ci = bi;
    let at = b;
    proof {
        if b == a {
            lemma_equal(bi, ai, size as int);
        }
        assert(ci == place_from(f, e0, ai, leaf_below(f, e0, ni, ai)));
    }
    proof {
        lemma_moved_not::<W>(e0, s0, num as int, size as int);
    }
    // Shift it into place.
    while b != a
        invariant
            base@.len() == num * size,
            f == order_of(order),
            size > 0,
            num >= 2,
            moved::<W>(
                e0,
                s0,
                elements(base@, num as nat, size as nat),
                swap.state(),
                num as int,
                size as int,
            ),
            0 <= ai <= bi <= ci < num,
            0 <= ni <= num,
            ci < ni || ci == ai,
            e0.len() == num,
            a == ai * size,
            b == bi * size,
            at == ci * size,
            is_low_bit(lsbit, size),
            on_path(f, e0, ni, ai, ci),
            on_path(f, e0, ni, ai, bi),
            crate::heap_order::above(bi, ci),
            elements(base@, num as nat, size as nat).to_multiset() == e0.to_multiset(),
            forall|k: int|
                0 <= k < num ==> #[trigger] elements(base@, num as nat, size as nat)[k] == shifted_at(
                    f,
                    e0,
                    ni,
                    bi,
                    ci,
                    k,
                ),
            forall|k: int| ni <= k < num ==> elements(base@, num as nat, size as nat)[k] == e0[k],
            forall|x: Seq<u8>|
                bounded(f, e0, ni, x) ==> bounded(
                    f,
                    elements(base@, num as nat, size as nat),
                    ni,
                    x,
                ),
        decreases bi,
    {
        let ghost e = elements(base@, num as nat, size as nat);
        let ghost s = swap.state();
        let ghost below = bi;
        proof {
            assert(bi != ai);
            lemma_path_le(f, e0, ni, ai, parent_of(bi));
        }
        b = parent(b, lsbit, size, Ghost(bi));
        proof {
            bi = parent_of(bi);
        }
        do_swap(base, b, at, num, size, swap, Ghost(bi), Ghost(ci));
        proof {
            lemma_moved_on::<W>(e0, s0, e, s, num as int, size as int, bi, ci);
            lemma_swapped_multiset(e, bi, ci);
            let r = elements(base@, num as nat, size as nat);
            crate::heap_order::lemma_above_trans(below, ci);
            assert forall|k: int| 0 <= k < num implies #[trigger] r[k] == shifted_at(
                f,
                e0,
                ni,
                bi,
                ci,
                k,
            ) by {
                assert(e[k] == shifted_at(f, e0, ni, below, ci, k));
                assert(e[bi] == shifted_at(f, e0, ni, below, ci, bi));
                assert(e[ci] == e0[below]);
                if k != ci && k != bi && bi <= k && crate::heap_order::above(k, ci) && k < below {
                    lemma_nothing_between(k, below, ci);
                }
            }
            assert forall|x: Seq<u8>| bounded(f, e0, ni, x) implies bounded(f, r, ni, x) by {
                assert(bounded(f, e, ni, x));
                assert(f(e[bi], x) <= 0);
                assert(f(e[ci], x) <= 0);
            }
        }
    }
    proof {
        let r = elements(base@, num as nat, size as nat);
        lemma_equal(bi, ai, size as int);
        assert(r =~= sifted(f, e0, ni, ai)) by {
            reveal(sifted);
        }
        if lawful_on(f, e0) {
            lemma_sift(f, e0, r, ni, lo, ai, ci);
        }
    }
}

/// No ancestor of `c` lies strictly between another one and its parent.
proof fn lemma_nothing_between(k: int, below: int, c: int)
    requires
        crate::heap_order::above(k, c),
        crate::heap_order::above(below, c),
        0 < below,
        parent_of(below) <= k < below,
    ensures
        k == parent_of(below),
    decreases c,
{
    if below == c {
        crate::heap_order::lemma_above_le(k, parent_of(c));
    } else {
        crate::heap_order::lemma_above_le(below, parent_of(c));
        lemma_nothing_between(k, below, parent_of(c));
    }
}

proof fn lemma_children(b: int, size: int)
    ensures
        (2 * b + 1) * size == 2 * (b * size) + size,
        (2 * b + 2) * size == 2 * (b * size) + size + size,
{
    assert((2 * b + 1) * size == 2 * (b * size) + size) by (nonlinear_arith);
    assert((2 * b + 2) * size == 2 * (b * size) + size + size) by (nonlinear_arith);
}

proof fn lemma_less(i: int, j: int, size: int)
    requires
        i * size < j * size,
        size > 0,
    ensures
        i < j,
{
    assert(i < j) by (nonlinear_arith)
        requires
            i * size < j * size,
            size > 0,
    ;
}

proof fn lemma_more(i: int, j: int, size: int)
    requires
        i * size > j * size,
        size > 0,
    ensures
        i > j,
{
    lemma_less(j, i, size);
}

proof fn lemma_equal(i: int, j: int, size: int)
    requires
        i * size == j * size,
        size > 0,
    ensures
        i == j,
{
    assert(i == j) by (nonlinear_arith)
        requires
            i * size == j * size,
            size > 0,
    ;
}

/// Whether the elements are in order.
pub open spec fn is_sorted(f: Order<Seq<u8>>, e: Seq<Seq<u8>>) -> bool {
    forall|i: int, j: int| 0 <= i < j < e.len() ==> f(#[trigger] e[i], #[trigger] e[j]) <= 0
}

/// What sorting does: it permutes the elements, and puts them in order if the comparison obeys its
/// laws.
pub open spec fn sorted_from<O: ElementOrder>(
    b0: Seq<u8>,
    b1: Seq<u8>,
    num: nat,
    size: nat,
    order: &O,
) -> bool {
    &&& b1.len() == b0.len()
    &&& elements(b1, num, size).to_multiset() == elements(b0, num, size).to_multiset()
    &&& lawful_on(order_of(order), elements(b0, num, size)) ==> is_sorted(order_of(order), elements(b1, num, size))
}

/// The built-in way to exchange elements of `size` bytes.
fn default_swap(size: usize) -> (r: Swap)
    ensures
        r == (if size as int % 8 == 0 {
            Swap::Words64
        } else if size as int % 4 == 0 {
            Swap::Words32
        } else {
            Swap::Bytes
        }),
{
    if is_aligned(size, 8) {
        Swap::Words64
    } else if is_aligned(size, 4) {
        Swap::Words32
    } else {
        Swap::Bytes
    }
}

/// What exchanging the root of a heap of `n` elements with the last of them leaves.
proof fn lemma_extract_root(f: Order<Seq<u8>>, e: Seq<Seq<u8>>, n: int)
    requires
        lawful_on(f, e),
        2 <= n <= e.len(),
        heap(f, e, n, 0),
        tail_sorted(f, e, n),
    ensures
        tail_sorted(f, swapped(e, 0, n - 1), n - 1),
        heap_but(f, swapped(e, 0, n - 1), n - 1, 0, 0),
{
    let r = swapped(e, 0, n - 1);
    assert forall|i: int, j: int| 0 <= i < j < r.len() && n - 1 <= j implies f(
        #[trigger] r[i],
        #[trigger] r[j],
    ) <= 0 by {
        if j == n - 1 {
            if i == 0 {
                lemma_root_is_greatest(f, e, n, n - 1);
            } else {
                lemma_root_is_greatest(f, e, n, i);
            }
        } else if i == 0 {
            assert(f(e[n - 1], e[j]) <= 0);
        } else if i == n - 1 {
            assert(f(e[0], e[j]) <= 0);
        } else {
            assert(f(e[i], e[j]) <= 0);
        }
    }
    assert forall|c: int| 1 <= c < n - 1 && parent_of(c) >= 0 && parent_of(c) != 0 implies f(
        #[trigger] r[c],
        r[parent_of(c)],
    ) <= 0 by {
        assert(f(e[c], e[parent_of(c)]) <= 0);
    }
}

/// What exchanging the greater child of the root, at `a`, with the last of `n - 1` elements leaves,
/// after the root went.
#[verifier::spinoff_prover]
proof fn lemma_extract_child(f: Order<Seq<u8>>, e: Seq<Seq<u8>>, n: int, a: int)
    requires
        lawful_on(f, e),
        4 <= n <= e.len(),
        heap(f, e, n, 0),
        tail_sorted(f, e, n),
        a == (if f(e[1], e[2]) <= 0 {
            2int
        } else {
            1
        }),
    ensures
        tail_sorted(f, swapped(swapped(e, 0, n - 1), a, n - 2), n - 2),
        heap_but(f, swapped(swapped(e, 0, n - 1), a, n - 2), n - 2, 1, a),
{
    let r = swapped(e, 0, n - 1);
    let t = swapped(r, a, n - 2);
    lemma_extract_root(f, e, n);
    assert forall|k: int| 1 <= k < n implies f(#[trigger] e[k], e[a]) <= 0 by {
        reveal(lawful_on);
        lemma_children_are_next(f, e, n, k);
        if f(e[1], e[2]) > 0 {
            assert(f(e[2], e[1]) < 0);
        }
    }
    assert(r[a] == e[a]);
    assert forall|k: int| 0 <= k < n - 1 implies f(#[trigger] r[k], r[a]) <= 0 by {
        if k == 0 {
            assert(f(e[n - 1], e[a]) <= 0);
        } else {
            assert(f(e[k], e[a]) <= 0);
        }
    }
    assert forall|i: int, j: int| 0 <= i < j < t.len() && n - 2 <= j implies f(
        #[trigger] t[i],
        #[trigger] t[j],
    ) <= 0 by {
        if j == n - 2 {
            assert(t[j] == r[a]);
            if i == a {
                assert(t[i] == r[n - 2]);
            }
        } else {
            let k = if i == a {
                n - 2
            } else if i == n - 2 {
                a
            } else {
                i
            };
            assert(t[i] == r[k]);
            assert(f(r[k], r[j]) <= 0);
        }
    }
    assert forall|c: int| 1 <= c < n - 2 && parent_of(c) >= 1 && parent_of(c) != a implies f(
        #[trigger] t[c],
        t[parent_of(c)],
    ) <= 0 by {
        assert(c != a);
        assert(t[c] == r[c]);
        assert(t[parent_of(c)] == r[parent_of(c)]);
        assert(f(r[c], r[parent_of(c)]) <= 0);
    }
}

/// A tail that is in order stays so while the elements before it are permuted.
proof fn lemma_tail_kept(f: Order<Seq<u8>>, e: Seq<Seq<u8>>, r: Seq<Seq<u8>>, n: int)
    requires
        0 <= n <= e.len(),
        r.len() == e.len(),
        tail_sorted(f, e, n),
        forall|k: int| n <= k < e.len() ==> r[k] == e[k],
        forall|x: Seq<u8>| bounded(f, e, n, x) ==> bounded(f, r, n, x),
    ensures
        tail_sorted(f, r, n),
{
    assert forall|i: int, j: int| 0 <= i < j < r.len() && n <= j implies f(
        #[trigger] r[i],
        #[trigger] r[j],
    ) <= 0 by {
        assert(bounded(f, e, n, e[j]));
        assert(bounded(f, r, n, e[j]));
        if i >= n {
            assert(f(e[i], e[j]) <= 0);
        }
    }
}

/// Moves the two largest elements of the heap below the offset `n` to its end. Returns whether the
/// second child of the root was the second largest.
fn extract_two<O: ElementOrder, W: ElementSwap>(
    base: &mut [u8],
    num: usize,
    size: usize,
    n: usize,
    order: &O,
    swap: &mut W,
    Ghost(ni): Ghost<int>,
) -> (second: bool)
    requires
        old(base)@.len() == num * size,
        size > 0,
        accepts_all(order, elements(old(base)@, num as nat, size as nat)),
        3 < ni <= num,
        n == ni * size,
    ensures
        final(base)@.len() == num * size,
        second == (taken_child(order_of(order), elements(old(base)@, num as nat, size as nat)) == 2),
        elements(final(base)@, num as nat, size as nat) == two_taken(
            order_of(order),
            elements(old(base)@, num as nat, size as nat),
            ni,
        ),
        moved::<W>(
            elements(old(base)@, num as nat, size as nat),
            old(swap).state(),
            elements(final(base)@, num as nat, size as nat),
            final(swap).state(),
            num as int,
            size as int,
        ),
        elements(final(base)@, num as nat, size as nat).to_multiset() == elements(
            old(base)@,
            num as nat,
            size as nat,
        ).to_multiset(),
        lawful_on(order_of(order), elements(old(base)@, num as nat, size as nat)) && heap(
            order_of(order),
            elements(old(base)@, num as nat, size as nat),
            ni,
            0,
        ) && tail_sorted(order_of(order), elements(old(base)@, num as nat, size as nat), ni) ==> {
            &&& tail_sorted(
                order_of(order),
                elements(final(base)@, num as nat, size as nat),
                ni - 2,
            )
            &&& heap_but(
                order_of(order),
                elements(final(base)@, num as nat, size as nat),
                ni - 2,
                1,
                if second {
                    2
                } else {
                    1
                },
            )
        },
{
    let ghost f = order_of(order);
    let ghost (nn, ns) = (num as nat, size as nat);
    let ghost e = elements(base@, nn, ns);
    let ghost s = swap.state();
    let _total: usize = base.len();
    proof {
        lemma_moved_not::<W>(e, s, num as int, size as int);
        lemma_inside(ni - 1, num as int, size as int);
        lemma_inside(ni - 2, num as int, size as int);
        lemma_inside(2, num as int, size as int);
        assert(0 * size == 0 && 1 * size == size && 2 * size == size + size);
    }
    do_swap(base, 0, n - size, num, size, swap, Ghost(0), Ghost(ni - 1));
    let ghost r = elements(base@, nn, ns);
    let ghost s1 = swap.state();
    proof {
        lemma_moved_on::<W>(e, s, e, s, num as int, size as int, 0, ni - 1);
        assert(r[1] == e[1] && r[2] == e[2]);
    }
    let second: bool = do_compare(base, size, 2 * size, num, size, order, Ghost(1), Ghost(2)) <= 0;
    let a: usize = if second {
        2 * size
    } else {
        size
    };
    let ghost ai: int = if second {
        2
    } else {
        1
    };
    do_swap(base, a, n - 2 * size, num, size, swap, Ghost(ai), Ghost(ni - 2));
    proof {
        lemma_swapped_multiset(e, 0, ni - 1);
        lemma_swapped_multiset(r, ai, ni - 2);
        lemma_moved_on::<W>(e, s, r, s1, num as int, size as int, ai, ni - 2);
        if lawful_on(f, e) && heap(f, e, ni, 0) && tail_sorted(f, e, ni) {
            lemma_extract_child(f, e, ni, ai);
        }
    }
    second
}

/// Puts the last two or three elements of a complete heap in order.
fn sort_last<O: ElementOrder, W: ElementSwap>(
    base: &mut [u8],
    num: usize,
    size: usize,
    n: usize,
    order: &O,
    swap: &mut W,
    Ghost(ni): Ghost<int>,
)
    requires
        old(base)@.len() == num * size,
        size > 0,
        accepts_all(order, elements(old(base)@, num as nat, size as nat)),
        2 <= ni <= num,
        ni <= 3,
        n == ni * size,
        lawful_on(order_of(order), elements(old(base)@, num as nat, size as nat)) ==> heap(
            order_of(order),
            elements(old(base)@, num as nat, size as nat),
            ni,
            0,
        ),
        lawful_on(order_of(order), elements(old(base)@, num as nat, size as nat)) ==> tail_sorted(
            order_of(order),
            elements(old(base)@, num as nat, size as nat),
            ni,
        ),
    ensures
        elements(final(base)@, num as nat, size as nat) == last_sorted(
            order_of(order),
            elements(old(base)@, num as nat, size as nat),
            ni,
        ),
        sorted_from(old(base)@, final(base)@, num as nat, size as nat, order),
        moved::<W>(
            elements(old(base)@, num as nat, size as nat),
            old(swap).state(),
            elements(final(base)@, num as nat, size as nat),
            final(swap).state(),
            num as int,
            size as int,
        ),
{
    let ghost f = order_of(order);
    let ghost (nn, ns) = (num as nat, size as nat);
    let ghost e = elements(base@, nn, ns);
    let ghost s = swap.state();
    let _total: usize = base.len();
    proof {
        lemma_moved_not::<W>(e, s, num as int, size as int);
        lemma_inside(ni - 1, num as int, size as int);
        assert(0 * size == 0 && 1 * size == size && 2 * size == size + size);
        lemma_inside(1, num as int, size as int);
    }
    let last: usize = n - size;
    do_swap(base, 0, last, num, size, swap, Ghost(0), Ghost(ni - 1));
    let ghost r = elements(base@, nn, ns);
    let ghost s1 = swap.state();
    proof {
        lemma_moved_on::<W>(e, s, e, s, num as int, size as int, 0, ni - 1);
        lemma_swapped_multiset(e, 0, ni - 1);
        lemma_accepts_permuted(order, e, r);
        if lawful_on(f, e) {
            lemma_extract_root(f, e, ni);
            lemma_lawful_permuted(f, e, r);
        }
        if last == 2 * size {
            lemma_equal(ni - 1, 2, size as int);
        } else {
            assert(ni - 1 != 2);
        }
    }
    if last == 2 * size && do_compare(base, 0, size, num, size, order, Ghost(0), Ghost(1)) > 0 {
        do_swap(base, 0, size, num, size, swap, Ghost(0), Ghost(1));
        proof {
            lemma_swapped_multiset(r, 0, 1);
            lemma_moved_on::<W>(e, s, r, s1, num as int, size as int, 0, 1);
            let t = elements(base@, nn, ns);
            if lawful_on(f, e) {
                reveal(lawful_on);
                assert forall|i: int, j: int| 0 <= i < j < t.len() implies f(
                    #[trigger] t[i],
                    #[trigger] t[j],
                ) <= 0 by {
                    if j == 1 {
                        assert(f(r[0], r[1]) > 0);
                        assert(f(r[1], r[0]) < 0);
                    } else {
                        let k = if i == 0 {
                            1
                        } else if i == 1 {
                            0
                        } else {
                            i
                        };
                        assert(f(r[k], r[j]) <= 0);
                    }
                }
            }
        }
    }
}

/// Sorts the `num` elements of `size` bytes in `base` with the exchange `swap`, calling `resched`
/// after each sift.
#[verifier::spinoff_prover]
#[verifier::rlimit(60)]
fn sort_with<O: ElementOrder, W: ElementSwap, R: Resched>(
    base: &mut [u8],
    num: usize,
    size: usize,
    order: &O,
    swap: &mut W,
    resched: &mut R,
)
    requires
        num >= 2,
        size > 0,
        old(base)@.len() == num * size,
        accepts_all(order, elements(old(base)@, num as nat, size as nat)),
    ensures
        final(resched).state() == rescheduled::<R>(
            old(resched).state(),
            sifts(num as int, size as int),
        ),
        elements(final(base)@, num as nat, size as nat) == heap_sorted(
            order_of(order),
            elements(old(base)@, num as nat, size as nat),
        ),
        sorted_from(old(base)@, final(base)@, num as nat, size as nat, order),
        moved::<W>(
            elements(old(base)@, num as nat, size as nat),
            old(swap).state(),
            elements(final(base)@, num as nat, size as nat),
            final(swap).state(),
            num as int,
            size as int,
        ),
{
    let ghost b0 = base@;
    let ghost f = order_of(order);
    let ghost (nn, ns) = (num as nat, size as nat);
    let ghost e0 = elements(b0, nn, ns);
    let ghost s0 = swap.state();
    let ghost r0 = resched.state();
    let ghost mut calls: nat = 0;
    let _total: usize = base.len();
    proof {
        lemma_moved_not::<W>(e0, s0, num as int, size as int);
    }
    let ghost mut ni: int = num as int;
    let ghost mut ai: int = num as int / 2;
    proof {
        lemma_inside(ai, num as int, size as int);
        lemma_inside(num - 1, num as int, size as int);
        assert(num * size >= 2 * size) by (nonlinear_arith)
            requires
                num >= 2,
                size > 0,
        ;
    }
    let mut n: usize = num * size;
    let mut a: usize = (num / 2) * size;
    let lsbit: usize = size & !(size - 1);
    let mut twice: bool = false;
    // The elements from `a` up to `n` form a heap, and those from `n` on are sorted. `lo` is the
    // first parent whose children are in order; once the heap is built it is at most 1, and `a` is
    // `lo` or, after the second child of the root was taken, twice that.
    let ghost mut lo: int = ai;
    assert(emptied(f, heaped(f, e0, ni, lo), ni) == heap_sorted(f, e0)) by {
        reveal(heap_sorted);
    }
    assert forall|c: int| 1 <= c < ni && parent_of(c) >= lo implies f(
        #[trigger] elements(b0, nn, ns)[c],
        elements(b0, nn, ns)[parent_of(c)],
    ) <= 0 by {}
    loop
        invariant
            base@.len() == num * size,
            nn == num,
            ns == size,
            f == order_of(order),
            e0 == elements(b0, nn, ns),
            e0.len() == num,
            num * size <= usize::MAX,
            size > 0,
            num >= 2,
            accepts_all(order, elements(base@, nn, ns)),
            moved::<W>(e0, s0, elements(base@, nn, ns), swap.state(), num as int, size as int),
            emptied(f, heaped(f, elements(base@, nn, ns), ni, lo), ni) == heap_sorted(f, e0),
            2 <= ni <= num,
            0 <= lo,
            ai == (if twice {
                2 * lo
            } else {
                lo
            }),
            twice ==> lo <= 1,
            ai < num,
            ni < num ==> lo <= 1,
            a == ai * size,
            n == ni * size,
            2 * size <= n <= num * size,
            2 * size <= num * size,
            is_low_bit(lsbit, size),
            resched.state() == rescheduled::<R>(r0, calls),
            calls + lo + (ni - 2) / 2 * 2 == sifts(num as int, size as int),
            elements(base@, nn, ns).to_multiset() == e0.to_multiset(),
            lawful_on(f, e0) ==> heap(f, elements(base@, nn, ns), ni, lo),
            lawful_on(f, e0) ==> tail_sorted(f, elements(base@, nn, ns), ni),
        ensures
            lo == 0,
            2 <= ni <= 3,
        decreases ni, ai,
    {
        let ghost e = elements(base@, nn, ns);
        let ghost s = swap.state();
        let ghost hole: int;
        let ghost from: int;
        if a != 0 {
            // Building the heap, or mending its root: sift down the element before.
            proof {
                assert(ai > 0) by {
                    if ai == 0 {
                        assert(ai * size == 0) by (nonlinear_arith)
                            requires
                                ai == 0,
                        ;
                    }
                }
                if twice {
                    assert(ai * size == 2 * size) by (nonlinear_arith)
                        requires
                            ai == 2,
                    ;
                } else {
                    lemma_offset(ai - 1, ai, size as int);
                }
            }
            a = if twice {
                0
            } else {
                a - size
            };
            proof {
                lo = lo - 1;
                ai = lo;
                hole = lo;
                from = lo;
                if twice {
                    assert(ai * size == 0) by (nonlinear_arith)
                        requires
                            ai == 0,
                    ;
                }
                twice_is_spent(f, e, ni, lo);
                lemma_heaped(f, e, ni, lo + 1);
            }
            twice = false;
        } else if n - size > 2 * size {
            // Sorting: extract the two largest elements.
            proof {
                assert(ai == 0) by {
                    lemma_zero(ai, size as int);
                }
                assert(ni > 3) by {
                    lemma_less(3, ni, size as int);
                }
                lemma_inside(ni - 1, num as int, size as int);
                lemma_inside(ni - 2, num as int, size as int);
                assert(0 * size == 0 && 1 * size == size && 2 * size == size + size);
            }
            twice = extract_two(base, num, size, n, order, swap, Ghost(ni));
            proof {
                let r = elements(base@, nn, ns);
                lemma_accepts_permuted(order, e, r);
                lemma_moved_both::<W>(e0, s0, e, s, r, swap.state(), num as int, size as int);
                lemma_heaped(f, e, ni, 0);
                lemma_emptied(f, e, ni);
                if lawful_on(f, e0) {
                    lemma_lawful_permuted(f, e0, e);
                }
            }
            a = if twice {
                2 * size
            } else {
                size
            };
            n = n - 2 * size;
            proof {
                ai = if twice {
                    2
                } else {
                    1
                };
                lo = 1;
                hole = ai;
                from = 1;
                ni = ni - 2;
            }
        } else {
            proof {
                assert(ai == 0) by {
                    lemma_zero(ai, size as int);
                }
                assert(ni <= 3) by {
                    if ni > 3 {
                        lemma_offset(3, ni, size as int);
                        assert(4 * size > 3 * size);
                    }
                }
            }
            break ;
        }
        let ghost before = elements(base@, nn, ns);
        let ghost s1 = swap.state();
        assert(2 * size <= n <= num * size) by {
            assert(2 * size <= ni * size <= num * size) by (nonlinear_arith)
                requires
                    2 <= ni <= num,
                    size > 0,
            ;
        }
        proof {
            if lawful_on(f, before) {
                lemma_lawful_permuted(f, before, e0);
            }
            if lawful_on(f, e0) {
                lemma_lawful_permuted(f, e0, before);
            }
        }
        sift(
            base,
            num,
            size,
            a,
            n,
            lsbit,
            order,
            swap,
            Ghost(hole),
            Ghost(ni),
            Ghost(from),
        );
        proof {
            let r = elements(base@, nn, ns);
            lemma_accepts_permuted(order, before, r);
            lemma_moved_both::<W>(e0, s0, before, s1, r, swap.state(), num as int, size as int);
            if lawful_on(f, e0) {
                lemma_tail_kept(f, before, r, ni);
            }
        }
        resched.resched();
        proof {
            calls = calls + 1;
        }
    }
    let ghost e = elements(base@, nn, ns);
    let ghost s = swap.state();
    proof {
        if lawful_on(f, e) {
            lemma_lawful_permuted(f, e, e0);
        }
        if lawful_on(f, e0) {
            lemma_lawful_permuted(f, e0, e);
        }
    }
    proof {
        lemma_heaped(f, e, ni, 0);
        lemma_emptied(f, e, ni);
    }
    sort_last(base, num, size, n, order, swap, Ghost(ni));
    proof {
        lemma_moved_both::<W>(
            e0,
            s0,
            e,
            s,
            elements(base@, nn, ns),
            swap.state(),
            num as int,
            size as int,
        );
    }
}

/// Whether the exchanges that led from the array `b0` to `b1` were all made by the caller's swap, and
/// nothing else was done to the array or to the swap.
pub open spec fn swaps_made<S: ElementSwap>(
    b0: Seq<u8>,
    s0: S,
    b1: Seq<u8>,
    s1: S,
    num: int,
    size: int,
) -> bool {
    if num < 2 || size == 0 {
        s1 == s0
    } else {
        moved::<S>(
            elements(b0, num as nat, size as nat),
            s0.state(),
            elements(b1, num as nat, size as nat),
            s1.state(),
            num,
            size,
        )
    }
}

/// Whether `b` holds `num` elements of `size` bytes, and they can be compared where there are two or
/// more.
pub open spec fn sortable<O: ElementOrder>(b: Seq<u8>, num: nat, size: nat, order: &O) -> bool {
    &&& b.len() == num * size
    &&& num >= 2 && size > 0 ==> accepts_all(order, elements(b, num, size))
}

/// What the sorts make of the array `b0`: they put it in order by the exact steps of the heap sort,
/// and leave it alone where there are fewer than two elements, or none with a size.
pub open spec fn heap_sorted_from<O: ElementOrder>(
    b0: Seq<u8>,
    b1: Seq<u8>,
    num: nat,
    size: nat,
    order: &O,
) -> bool {
    &&& sorted_from(b0, b1, num, size, order)
    &&& num < 2 || size == 0 ==> b1 == b0
    &&& num >= 2 && size > 0 ==> elements(b1, num, size) == heap_sorted(
        order_of(order),
        elements(b0, num, size),
    )
}

/// Sorts the `num` elements of `size` bytes in `base`, calling `resched` after each sift.
fn sort_r_impl<O: ElementOrder, S: ElementSwap, R: Resched>(
    base: &mut [u8],
    num: usize,
    size: usize,
    order: &O,
    swap_func: Option<&mut S>,
    resched: &mut R,
)
    requires
        sortable(old(base)@, num as nat, size as nat, order),
    ensures
        heap_sorted_from(old(base)@, final(base)@, num as nat, size as nat, order),
        swap_func matches Some(s) ==> swaps_made(
            old(base)@,
            *s,
            final(base)@,
            *final(s),
            num as int,
            size as int,
        ),
        final(resched).state() == rescheduled::<R>(
            old(resched).state(),
            sifts(num as int, size as int),
        ),
{
    let ghost b0 = base@;
    let ghost f = order_of(order);
    let ghost (nn, ns) = (num as nat, size as nat);
    if num < 2 || size == 0 {
        proof {
            reveal(lawful_on);
            if size == 0 {
                let e = elements(b0, nn, ns);
                assert forall|i: int, j: int| 0 <= i < j < e.len() && lawful_on(f, e) implies f(
                    #[trigger] e[i],
                    #[trigger] e[j],
                ) <= 0 by {
                    assert(e[i] =~= Seq::<u8>::empty());
                    assert(e[j] =~= Seq::<u8>::empty());
                    assert(f(e[i], e[j]) < 0 <==> f(e[j], e[i]) > 0);
                }
            }
        }
        return;
    }
    match swap_func {
        Some(s) => sort_with(base, num, size, order, s, resched),
        None => {
            let mut builtin: Swap = default_swap(size);
            sort_with(base, num, size, order, &mut builtin, resched)
        },
    }
}

/// A heap from `lo + 1` on is a heap from `lo` on with a hole at `lo`.
proof fn twice_is_spent(f: Order<Seq<u8>>, e: Seq<Seq<u8>>, n: int, lo: int)
    ensures
        heap(f, e, n, lo + 1) ==> heap_but(f, e, n, lo, lo),
{
}

proof fn lemma_zero(i: int, size: int)
    requires
        i * size == 0,
        size > 0,
    ensures
        i == 0,
{
    lemma_equal(i, 0, size);
}

/// Sorts an array of elements.
///
/// `base` holds `num` elements of `size` bytes. `swap_func` is for a caller that has to do more than
/// move bytes; the built-in exchange is faster. The order may carry data of its own.
pub fn sort_r<O: ElementOrder, S: ElementSwap>(
    base: &mut [u8],
    num: usize,
    size: usize,
    order: &O,
    swap_func: Option<&mut S>,
)
    requires
        sortable(old(base)@, num as nat, size as nat, order),
    ensures
        heap_sorted_from(old(base)@, final(base)@, num as nat, size as nat, order),
        swap_func matches Some(s) ==> swaps_made(
            old(base)@,
            *s,
            final(base)@,
            *final(s),
            num as int,
            size as int,
        ),
{
    sort_r_impl(base, num, size, order, swap_func, &mut NoResched)
}

/// Sorts an array of elements, calling `resched` after each sift: for larger arrays, where the caller
/// may sleep.
pub fn sort_r_nonatomic<O: ElementOrder, S: ElementSwap, R: Resched>(
    base: &mut [u8],
    num: usize,
    size: usize,
    order: &O,
    swap_func: Option<&mut S>,
    resched: &mut R,
)
    requires
        sortable(old(base)@, num as nat, size as nat, order),
    ensures
        heap_sorted_from(old(base)@, final(base)@, num as nat, size as nat, order),
        swap_func matches Some(s) ==> swaps_made(
            old(base)@,
            *s,
            final(base)@,
            *final(s),
            num as int,
            size as int,
        ),
        final(resched).state() == rescheduled::<R>(
            old(resched).state(),
            sifts(num as int, size as int),
        ),
{
    sort_r_impl(base, num, size, order, swap_func, resched)
}

/// Sorts an array of elements by an order that carries no data of its own.
pub fn sort<O: ElementOrder, S: ElementSwap>(
    base: &mut [u8],
    num: usize,
    size: usize,
    order: &O,
    swap_func: Option<&mut S>,
)
    requires
        sortable(old(base)@, num as nat, size as nat, order),
    ensures
        heap_sorted_from(old(base)@, final(base)@, num as nat, size as nat, order),
        swap_func matches Some(s) ==> swaps_made(
            old(base)@,
            *s,
            final(base)@,
            *final(s),
            num as int,
            size as int,
        ),
{
    sort_r_impl(base, num, size, order, swap_func, &mut NoResched)
}

/// Sorts an array of elements by an order that carries no data of its own, calling `resched` after
/// each sift.
pub fn sort_nonatomic<O: ElementOrder, S: ElementSwap, R: Resched>(
    base: &mut [u8],
    num: usize,
    size: usize,
    order: &O,
    swap_func: Option<&mut S>,
    resched: &mut R,
)
    requires
        sortable(old(base)@, num as nat, size as nat, order),
    ensures
        heap_sorted_from(old(base)@, final(base)@, num as nat, size as nat, order),
        swap_func matches Some(s) ==> swaps_made(
            old(base)@,
            *s,
            final(base)@,
            *final(s),
            num as int,
            size as int,
        ),
        final(resched).state() == rescheduled::<R>(
            old(resched).state(),
            sifts(num as int, size as int),
        ),
{
    sort_r_impl(base, num, size, order, swap_func, resched)
}

/// Elements compare lawfully by their bytes, whatever they are.
pub proof fn law_bytes_are_lawful(e: Seq<Seq<u8>>)
    ensures
        lawful_on(order_of(&ByteOrder), e),
{
    reveal(lawful_on);
    let f = order_of(&ByteOrder);
    assert forall|i: int, j: int|
        #![trigger f(e[i], e[j])]
        0 <= i < e.len() && 0 <= j < e.len() implies (f(e[i], e[j]) < 0 <==> f(e[j], e[i]) > 0) by {
        law_byte_order(e[i], e[j], e[i]);
    }
    assert forall|i: int, j: int, k: int|
        #![trigger f(e[i], e[j]), f(e[j], e[k])]
        0 <= i < e.len() && 0 <= j < e.len() && 0 <= k < e.len() && f(e[i], e[j]) <= 0 && f(
            e[j],
            e[k],
        ) <= 0 implies f(e[i], e[k]) <= 0 by {
        law_byte_order(e[i], e[j], e[k]);
    }
}

/// Two arrays with the same elements, sorted by an order under which only equal elements tie, come
/// out the same.
pub proof fn law_sorted_array_is_unique(f: Order<Seq<u8>>, x: Seq<Seq<u8>>, y: Seq<Seq<u8>>)
    requires
        lawful_on(f, x),
        forall|i: int, j: int|
            0 <= i < x.len() && 0 <= j < x.len() && #[trigger] f(x[i], x[j]) == 0 ==> x[i] == x[j],
        x.to_multiset() == y.to_multiset(),
        is_sorted(f, x),
        is_sorted(f, y),
    ensures
        x == y,
    decreases x.len(),
{
    reveal(lawful_on);
    broadcast use vstd::seq_lib::group_to_multiset_ensures;

    x.to_multiset_ensures();
    y.to_multiset_ensures();
    assert(x.len() == y.len());
    if x.len() > 0 {
        let (n, a, b) = (x.len() as int, x.last(), y.last());
        assert(x.to_multiset().contains(a)) by {
            assert(x[n - 1] == a);
        }
        assert(y.contains(a));
        assert(y.to_multiset().contains(b)) by {
            assert(y[n - 1] == b);
        }
        assert(x.contains(b));
        let i = choose|i: int| 0 <= i < y.len() && y[i] == a;
        let j = choose|j: int| 0 <= j < x.len() && x[j] == b;
        assert(f(a, a) < 0 <==> f(a, a) > 0);
        assert(f(a, b) <= 0) by {
            if i < n - 1 {
                assert(f(y[i], y[n - 1]) <= 0);
            }
        }
        assert(f(b, a) <= 0) by {
            if j < n - 1 {
                assert(f(x[j], x[n - 1]) <= 0);
            }
        }
        assert(f(a, b) < 0 <==> f(b, a) > 0);
        assert(a == b);
        assert(x.drop_last().to_multiset() =~= x.to_multiset().remove(a)) by {
            assert(x.drop_last() =~= x.remove(n - 1));
        }
        assert(y.drop_last().to_multiset() =~= y.to_multiset().remove(b)) by {
            assert(y.drop_last() =~= y.remove(n - 1));
        }
        law_sorted_array_is_unique(f, x.drop_last(), y.drop_last());
        assert(x =~= x.drop_last().push(a));
        assert(y =~= y.drop_last().push(b));
    } else {
        assert(x =~= y);
    }
}

/// Elements are compared by their first different bytes, as numbers; a beginning of another element
/// comes before it.
pub proof fn law_first_difference_decides(p: Seq<u8>, a: Seq<u8>, b: Seq<u8>)
    ensures
        byte_order(p + a, p + b) == byte_order(a, b),
        a.len() > 0 && b.len() > 0 && a[0] < b[0] ==> byte_order(a, b) == -1,
        a.len() > 0 && b.len() > 0 && a[0] > b[0] ==> byte_order(a, b) == 1,
        a.len() == 0 && b.len() > 0 ==> byte_order(a, b) == -1,
        a.len() > 0 && b.len() == 0 ==> byte_order(a, b) == 1,
        a.len() == 0 && b.len() == 0 ==> byte_order(a, b) == 0,
    decreases p.len(),
{
    if p.len() == 0 {
        assert(p + a =~= a);
        assert(p + b =~= b);
    } else {
        let q = p.drop_first();
        assert((p + a).drop_first() =~= q + a);
        assert((p + b).drop_first() =~= q + b);
        assert((p + a)[0] == (p + b)[0]);
        law_first_difference_decides(q, a, b);
    }
}

/// Exchanging two runs of bytes puts each in the place of the other and leaves the rest; done twice it
/// changes nothing.
pub proof fn law_exchange(b: Seq<u8>, x: int, y: int, n: int, k: int)
    requires
        0 <= x,
        0 <= y,
        0 <= n,
        x + n <= b.len(),
        y + n <= b.len(),
        x == y || x + n <= y || y + n <= x,
        0 <= k < b.len(),
    ensures
        exchanged(b, x, y, n).len() == b.len(),
        exchanged(b, x, y, n).subrange(x, x + n) == b.subrange(y, y + n),
        exchanged(b, x, y, n).subrange(y, y + n) == b.subrange(x, x + n),
        !(x <= k < x + n) && !(y <= k < y + n) ==> exchanged(b, x, y, n)[k] == b[k],
        exchanged(exchanged(b, x, y, n), x, y, n) == b,
{
    assert(exchanged(b, x, y, n).subrange(x, x + n) =~= b.subrange(y, y + n));
    assert(exchanged(b, x, y, n).subrange(y, y + n) =~= b.subrange(x, x + n));
    assert(exchanged(exchanged(b, x, y, n), x, y, n) =~= b);
}

/// What the sorts do with a comparison that obeys its laws on all elements: the elements come out in
/// order, and each as often as it was there.
pub proof fn law_sorted<O: ElementOrder>(
    b0: Seq<u8>,
    b1: Seq<u8>,
    num: nat,
    size: nat,
    order: &O,
    i: int,
    j: int,
)
    requires
        heap_sorted_from(b0, b1, num, size, order),
        b0.len() == num * size,
        forall|a: Seq<u8>, b: Seq<u8>|
            #[trigger] order.order(a, b) < 0 <==> order.order(b, a) > 0,
        forall|a: Seq<u8>, b: Seq<u8>, c: Seq<u8>|
            #![trigger order.order(a, b), order.order(b, c)]
            order.order(a, b) <= 0 && order.order(b, c) <= 0 ==> order.order(a, c) <= 0,
        0 <= i < j < num,
    ensures
        order.order(
            b1.subrange(i * size, (i + 1) * size),
            b1.subrange(j * size, (j + 1) * size),
        ) <= 0,
        b1.len() == b0.len(),
        Seq::new(num, |k: int| b1.subrange(k * size, (k + 1) * size)).to_multiset() == Seq::new(
            num,
            |k: int| b0.subrange(k * size, (k + 1) * size),
        ).to_multiset(),
{
    let f = order_of(order);
    let e0 = elements(b0, num, size);
    let e1 = elements(b1, num, size);
    assert(lawful_on(f, e0)) by {
        reveal(lawful_on);
        assert forall|a: int, b: int|
            #![trigger f(e0[a], e0[b])]
            0 <= a < e0.len() && 0 <= b < e0.len() implies (f(e0[a], e0[b]) < 0 <==> f(e0[b], e0[a])
            > 0) by {
            assert(order.order(e0[a], e0[b]) < 0 <==> order.order(e0[b], e0[a]) > 0);
        }
        assert forall|a: int, b: int, c: int|
            #![trigger f(e0[a], e0[b]), f(e0[b], e0[c])]
            0 <= a < e0.len() && 0 <= b < e0.len() && 0 <= c < e0.len() && f(e0[a], e0[b]) <= 0 && f(
                e0[b],
                e0[c],
            ) <= 0 implies f(e0[a], e0[c]) <= 0 by {
            assert(order.order(e0[a], e0[b]) <= 0 && order.order(e0[b], e0[c]) <= 0);
        }
    }
    assert(f(e1[i], e1[j]) <= 0);
    assert(e1 =~= Seq::new(num, |k: int| b1.subrange(k * size, (k + 1) * size)));
    assert(e0 =~= Seq::new(num, |k: int| b0.subrange(k * size, (k + 1) * size)));
}

/// How often an element is sifted down: not at all for fewer than two, once for two or three, and three
/// times more for each two more.
pub proof fn law_sifts(num: int, size: int)
    requires
        0 <= num,
        0 < size,
    ensures
        num < 2 ==> sifts(num, size) == 0,
        num == 2 || num == 3 ==> sifts(num, size) == 1,
        num >= 2 ==> sifts(num + 2, size) == sifts(num, size) + 3,
        sifts(num, 0) == 0,
{
}

/// Sorting elements by their bytes puts them in ascending order, and each is there as often as before.
pub proof fn law_sorted_by_bytes<S: ElementSwap>(
    base: &mut [u8],
    num: usize,
    size: usize,
    order: &ByteOrder,
    swap_func: Option<&mut S>,
    i: int,
    j: int,
)
    requires
        old(base)@.len() == num * size,
        call_ensures(sort::<ByteOrder, S>, (base, num, size, order, swap_func), ()),
        0 <= i < j < num,
    ensures
        ({
            let before = elements(old(base)@, num as nat, size as nat);
            let after = elements(final(base)@, num as nat, size as nat);
            &&& after.to_multiset() == before.to_multiset()
            &&& byte_order(after[i], after[j]) <= 0
            &&& after[i] == final(base)@.subrange(i * size, (i + 1) * size)
        }),
{
    assert forall|a: Seq<u8>, b: Seq<u8>| #[trigger] order.order(a, b) < 0 <==> order.order(b, a)
        > 0 by {
        law_byte_order(a, b, a);
    }
    assert forall|a: Seq<u8>, b: Seq<u8>, c: Seq<u8>|
        #![trigger order.order(a, b), order.order(b, c)]
        order.order(a, b) <= 0 && order.order(b, c) <= 0 implies order.order(a, c) <= 0 by {
        law_byte_order(a, b, c);
    }
    law_sorted(old(base)@, final(base)@, num as nat, size as nat, order, i, j);
}

/// The caller's swap is called for every exchange, in turn, with the offsets of the two elements, and
/// nothing else moves an element; it is not called where there is nothing to sort.
pub proof fn law_swaps<S: ElementSwap>(b0: Seq<u8>, s0: S, b1: Seq<u8>, s1: S, num: int, size: int)
    requires
        swaps_made(b0, s0, b1, s1, num, size),
    ensures
        num < 2 || size == 0 ==> s1 == s0,
        num >= 2 && size != 0 ==> exists|p: Seq<(int, int)>|
            {
                &&& forall|k: int|
                    0 <= k < p.len() ==> 0 <= (#[trigger] p[k]).0 < num && 0 <= p[k].1 < num
                &&& elements(b1, num as nat, size as nat) == #[trigger] exchanged_all(
                    elements(b0, num as nat, size as nat),
                    p,
                )
                &&& s1.state() == steps_of::<S>(s0.state(), p, size)
            },
{
    if num >= 2 && size != 0 {
        reveal(moved);
        let e0 = elements(b0, num as nat, size as nat);
        let e1 = elements(b1, num as nat, size as nat);
        let p = choose|p: Seq<(int, int)>|
            #[trigger] in_range(p, num) && e1 == exchanged_all(e0, p) && s1.state() == steps_of::<S>(
                s0.state(),
                p,
                size,
            );
        assert(in_range(p, num));
        assert(e1 == exchanged_all(e0, p));
    }
}

/// One more exchange exchanges two elements, and is one more call of the swap; one more sift is one more
/// call for those who wait.
pub proof fn law_one_more_step<S: ElementSwap, R: Resched>(
    e: Seq<Seq<u8>>,
    s: S::State,
    p: Seq<(int, int)>,
    i: int,
    j: int,
    size: int,
    r: R::State,
    n: nat,
)
    requires
        0 <= i < e.len(),
        0 <= j < e.len(),
    ensures
        exchanged_all(e, Seq::empty()) == e,
        exchanged_all(e, p.push((i, j))) == exchanged_all(e, p).update(i, exchanged_all(e, p)[j]).update(
            j,
            exchanged_all(e, p)[i],
        ),
        steps_of::<S>(s, Seq::empty(), size) == s,
        steps_of::<S>(s, p.push((i, j)), size) == S::after(
            steps_of::<S>(s, p, size),
            (i * size) as usize,
            (j * size) as usize,
            size as usize,
        ),
        rescheduled::<R>(r, 0) == r,
        rescheduled::<R>(r, n + 1) == R::after(rescheduled::<R>(r, n)),
{
    assert(p.push((i, j)).drop_last() =~= p);
}

} // verus!
