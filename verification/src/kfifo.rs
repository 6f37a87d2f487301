//! A generic FIFO of fixed-size elements, or of records of bytes, in a ring buffer whose size is a
//! power of two.
//!
//! The two indices run freely and are masked where the buffer is accessed.

use vstd::prelude::*;

verus! {

/// Invalid argument.
pub const EINVAL: i32 = 22;

/// Out of memory.
pub const ENOMEM: i32 = 12;

/// Bad address.
pub const EFAULT: i32 = 14;

/// A FIFO: `mask + 1` elements of `esize` bytes each.
#[allow(non_camel_case_types)]
pub struct __kfifo {
    in_: u32,
    out: u32,
    mask: u32,
    esize: u32,
    data: Vec<u8>,
}

/// Whether `n` is a power of two.
pub open spec fn is_power(n: int) -> bool
    decreases n,
{
    n == 1 || n > 1 && n % 2 == 0 && is_power(n / 2)
}

/// The smallest power of two that is not below `n`.
pub open spec fn rounded_up(n: int) -> int
    decreases n,
{
    if n <= 1 {
        1
    } else {
        2 * rounded_up((n + 1) / 2)
    }
}

/// The largest power of two that is not above `n`; 0 for 0.
pub open spec fn rounded_down(n: int) -> int
    decreases n,
{
    if n <= 0 {
        0
    } else if n == 1 {
        1
    } else {
        2 * rounded_down(n / 2)
    }
}

/// `x` reduced to the range below `total`, for `x` below twice `total`.
pub open spec fn wrap(x: int, total: int) -> int {
    if x < total {
        x
    } else {
        x - total
    }
}

/// The `n` bytes from `start` on in the ring of the first `total` bytes of `data`.
pub open spec fn ring_bytes(data: Seq<u8>, total: int, start: int, n: int) -> Seq<u8> {
    Seq::new(n as nat, |j: int| data[wrap(start + j, total)])
}

/// The bytes after `src` has been written from `start` on into the ring.
pub open spec fn ring_written(data: Seq<u8>, total: int, start: int, src: Seq<u8>) -> Seq<u8> {
    Seq::new(
        data.len(),
        |p: int|
            {
                let j = if p >= start {
                    p - start
                } else {
                    p - start + total
                };
                if p < total && j < src.len() {
                    src[j]
                } else {
                    data[p]
                }
            },
    )
}

proof fn lemma_power_bits(n: u32)
    ensures
        is_power(n as int) == (n > 0 && n & ((n - 1) as u32) == 0),
    decreases n,
{
    if n > 1 {
        let h = n / 2;
        lemma_power_bits(h);
        assert(n > 1 && n % 2 == 1 ==> n & ((n - 1) as u32) != 0) by (bit_vector);
        assert(n > 1 && n % 2 == 0 && h == n / 2 ==> ((n & ((n - 1) as u32) == 0) <==> (h & ((h
            - 1) as u32) == 0))) by (bit_vector);
    } else if n == 1 {
        assert(1u32 & 0u32 == 0) by (bit_vector);
    }
}

/// What a position is once the indices are masked.
proof fn lemma_masked(out: u32, mask: u32, k: u32)
    requires
        is_power(mask + 1),
        mask < 0x8000_0000,
        k <= mask + 1,
    ensures
        (out & mask) <= mask,
        out.wrapping_add(k) & mask == wrap((out & mask) + k, mask + 1),
{
    let size = (mask + 1) as u32;
    lemma_power_bits(size);
    let sum = out.wrapping_add(k);
    assert(sum == (out + k) as u32) by {
        assert(out + k < 0x1_0000_0000 ==> (out + k) as u32 == out + k);
        let x = (out + k) as u64;
        assert(x >= 0x1_0000_0000 && x < 0x2_0000_0000 ==> (x as u32) == x - 0x1_0000_0000)
            by (bit_vector);
    }
    assert((out & mask) <= mask) by (bit_vector);
    assert(size & mask == 0 && size == mask + 1 && mask < 0x8000_0000 && k <= mask + 1 ==> ((out
        + k) as u32) & mask == (if (out & mask) + k < mask + 1 {
        (out & mask) + k
    } else {
        (out & mask) + k - (mask + 1)
    })) by (bit_vector);
}

/// Bytes written behind the first `m` of a ring extend what is read.
proof fn lemma_ring_append(data: Seq<u8>, total: int, start: int, m: int, src: Seq<u8>)
    requires
        0 <= start,
        start < total || total == 0 && start == 0,
        total <= data.len(),
        0 <= m,
        m + src.len() <= total,
    ensures
        ({
            let at = wrap(start + m, total);
            let data2 = ring_written(data, total, at, src);
            &&& 0 <= at
            &&& at < total || total == 0
            &&& ring_bytes(data2, total, start, m + src.len()) == ring_bytes(data, total, start, m)
                + src
        }),
{
    let at = wrap(start + m, total);
    let data2 = ring_written(data, total, at, src);
    assert(ring_bytes(data2, total, start, m + src.len()) =~= ring_bytes(data, total, start, m)
        + src);
}

/// A shorter or later part of a ring.
proof fn lemma_ring_part(data: Seq<u8>, total: int, start: int, n: int, a: int, b: int)
    requires
        0 <= start,
        start < total || total == 0 && start == 0,
        0 <= a <= b <= n <= total,
    ensures
        ring_bytes(data, total, start, n).subrange(a, b) == ring_bytes(
            data,
            total,
            wrap(start + a, total),
            b - a,
        ),
{
    assert(ring_bytes(data, total, start, n).subrange(a, b) =~= ring_bytes(
        data,
        total,
        wrap(start + a, total),
        b - a,
    ));
}

impl __kfifo {
    /// How many elements there is room for.
    pub closed spec fn size(self) -> int {
        self.mask + 1
    }

    /// The size of an element, in bytes.
    pub closed spec fn element(self) -> int {
        self.esize as int
    }

    /// The size of the ring, in bytes.
    pub open spec fn total(self) -> int {
        self.size() * self.element()
    }

    /// The bytes of the buffer.
    pub closed spec fn bytes(self) -> Seq<u8> {
        self.data@
    }

    /// Where the first element lies, in bytes.
    pub closed spec fn start(self) -> int {
        (self.out & self.mask) * self.esize
    }

    /// How many elements the FIFO holds.
    pub closed spec fn count(self) -> int {
        self.in_.wrapping_sub(self.out) as int
    }

    /// The bytes of the elements that the FIFO holds, the oldest first.
    pub open spec fn contents(self) -> Seq<u8> {
        ring_bytes(self.bytes(), self.total(), self.start(), self.count() * self.element())
    }

    /// Whether the FIFO has been set up: its size is a power of two, the buffer covers it, and it
    /// holds no more than it has room for.
    pub closed spec fn wf(self) -> bool {
        &&& is_power(self.mask + 1)
        &&& self.total() <= u32::MAX
        &&& self.mask < 0x8000_0000
        &&& self.total() <= self.data@.len()
        &&& self.count() <= self.size()
    }

    /// The part of a FIFO that its operations leave as it is.
    pub open spec fn same_shape(self, other: __kfifo) -> bool {
        &&& self.size() == other.size()
        &&& self.element() == other.element()
        &&& self.bytes().len() == other.bytes().len()
    }

    pub proof fn lemma_wf(self)
        requires
            self.wf(),
        ensures
            0 <= self.start(),
            self.start() < self.total() || self.total() == 0 && self.start() == 0,
            0 <= self.count() <= self.size(),
            0 <= self.count() * self.element() <= self.total() <= self.bytes().len(),
            self.total() <= u32::MAX,
            self.contents().len() == self.count() * self.element(),
            0 < self.size() <= 0x8000_0000,
            0 <= self.element() <= u32::MAX,
    {
        let o = self.out;
        let m = self.mask;
        assert((o & m) <= m) by (bit_vector);
        let x = (self.out & self.mask) as int;
        let e = self.esize as int;
        let c = self.count();
        let s = self.size();
        assert(x * e <= s * e && (e > 0 ==> x * e < s * e) && (e == 0 ==> x * e == 0 && s * e == 0)
            && 0 <= x * e) by (nonlinear_arith)
            requires
                0 <= x < s,
                0 <= e,
        ;
        assert(0 <= c * e <= s * e) by (nonlinear_arith)
            requires
                0 <= c <= s,
                0 <= e,
        ;
    }

    /// Where the element `k` places behind the first lies.
    proof fn lemma_position(self, k: u32)
        requires
            self.wf(),
            k <= self.size(),
        ensures
            (self.out.wrapping_add(k) & self.mask) * self.esize == wrap(
                self.start() + k * self.esize,
                self.total(),
            ),
            (self.out.wrapping_add(k) & self.mask) <= self.mask,
            0 <= k * self.esize <= self.total(),
    {
        lemma_masked(self.out, self.mask, k);
        let p = self.out.wrapping_add(k);
        let m = self.mask;
        assert((p & m) <= m) by (bit_vector);
        let x = (self.out & self.mask) as int;
        let e = self.esize as int;
        let s = self.size();
        let kk = k as int;
        if x + kk < s {
            assert((x + kk) * e == x * e + kk * e && (e > 0 ==> x * e + kk * e < s * e) && (e == 0
                ==> x * e + kk * e == 0 && s * e == 0)) by (nonlinear_arith)
                requires
                    0 <= x,
                    0 <= kk,
                    x + kk < s,
                    0 <= e,
            ;
        } else {
            assert((x + kk - s) * e == x * e + kk * e - s * e && x * e + kk * e >= s * e)
                by (nonlinear_arith)
                requires
                    0 <= x,
                    0 <= kk,
                    x + kk >= s,
                    0 <= e,
            ;
        }
        assert(0 <= kk * e <= s * e) by (nonlinear_arith)
            requires
                0 <= kk <= s,
                0 <= e,
        ;
    }

    /// How many elements the FIFO has room for.
    fn unused(&self) -> (n: u32)
        requires
            self.wf(),
        ensures
            n == self.size() - self.count(),
    {
        self.mask.wrapping_add(1).wrapping_sub(self.in_.wrapping_sub(self.out))
    }

    /// How many elements the FIFO holds.
    pub fn len(&self) -> (n: u32)
        ensures
            n == self.count(),
    {
        self.in_.wrapping_sub(self.out)
    }
}

/// Copies `n` bytes of `src` to `at` of `dst`.
fn copy_bytes(dst: &mut Vec<u8>, at: usize, src: &[u8], from: usize, n: usize)
    requires
        at + n <= old(dst)@.len(),
        from + n <= src@.len(),
    ensures
        final(dst)@.len() == old(dst)@.len(),
        forall|p: int|
            0 <= p < old(dst)@.len() ==> #[trigger] final(dst)@[p] == (if at <= p < at + n {
                src@[from + p - at]
            } else {
                old(dst)@[p]
            }),
{
    let ghost d0 = dst@;
    let _total: usize = dst.len();
    let _all: usize = src.len();
    let mut k: usize = 0;
    while k < n
        invariant
            k <= n,
            at + n <= d0.len(),
            from + n <= src@.len(),
            src@.len() <= usize::MAX,
            d0.len() <= usize::MAX,
            dst@.len() == d0.len(),
            forall|p: int|
                0 <= p < d0.len() ==> #[trigger] dst@[p] == (if at <= p < at + k {
                    src@[from + p - at]
                } else {
                    d0[p]
                }),
        decreases n - k,
    {
        dst.set(at + k, src[from + k]);
        k = k + 1;
    }
}

/// Copies `n` bytes of `src` to `at` of `dst`.
fn copy_bytes_out(dst: &mut [u8], at: usize, src: &Vec<u8>, from: usize, n: usize)
    requires
        at + n <= old(dst)@.len(),
        from + n <= src@.len(),
    ensures
        final(dst)@.len() == old(dst)@.len(),
        forall|p: int|
            0 <= p < old(dst)@.len() ==> #[trigger] final(dst)@[p] == (if at <= p < at + n {
                src@[from + p - at]
            } else {
                old(dst)@[p]
            }),
{
    let ghost d0 = dst@;
    let _total: usize = dst.len();
    let _all: usize = src.len();
    let mut k: usize = 0;
    while k < n
        invariant
            k <= n,
            at + n <= d0.len(),
            from + n <= src@.len(),
            src@.len() <= usize::MAX,
            d0.len() <= usize::MAX,
            dst@.len() == d0.len(),
            forall|p: int|
                0 <= p < d0.len() ==> #[trigger] dst@[p] == (if at <= p < at + k {
                    src@[from + p - at]
                } else {
                    d0[p]
                }),
        decreases n - k,
    {
        dst[at + k] = src[from + k];
        k = k + 1;
    }
}

/// Where a run of elements lies in the buffer, in bytes: `first` of its `len` bytes lie at `off`, the
/// others at the beginning.
struct Span {
    off: u32,
    len: u32,
    first: u32,
}

impl __kfifo {
    /// Finds where `len` elements from index `off` on lie.
    fn span(&self, len: u32, off: u32) -> (r: Span)
        requires
            self.wf(),
            len <= self.size(),
        ensures
            r.off == (off & self.mask) * self.esize,
            r.len == len * self.esize,
            r.off <= self.total(),
            r.off < self.total() || self.total() == 0,
            r.len <= self.total(),
            r.first == (if r.len <= self.total() - r.off {
                r.len as int
            } else {
                self.total() - r.off
            }),
    {
        let mask = self.mask;
        let esize = self.esize;
        let masked = off & mask;
        proof {
            self.lemma_wf();
            assert((off & mask) <= mask) by (bit_vector);
            let x = masked as int;
            let e = esize as int;
            let s = self.size();
            let n = len as int;
            assert(0 <= x * e <= s * e && (e > 0 ==> x * e < s * e) && (e == 0 ==> s * e == 0 && x
                * e == 0)) by (nonlinear_arith)
                requires
                    0 <= x < s,
                    0 <= e,
            ;
            assert(0 <= n * e <= s * e) by (nonlinear_arith)
                requires
                    0 <= n <= s,
                    0 <= e,
            ;
        }
        let size = (mask + 1) * esize;
        let at = masked * esize;
        let bytes = len * esize;
        let room = size - at;
        Span {
            off: at,
            len: bytes,
            first: if bytes <= room {
                bytes
            } else {
                room
            },
        }
    }
}

/// Copies `len` elements of `src` into the FIFO at index `off`.
fn kfifo_copy_in(fifo: &mut __kfifo, src: &[u8], len: u32, off: u32)
    requires
        old(fifo).wf(),
        len <= old(fifo).size(),
        len * old(fifo).element() <= src@.len(),
    ensures
        final(fifo).wf(),
        final(fifo).in_ == old(fifo).in_,
        final(fifo).out == old(fifo).out,
        final(fifo).mask == old(fifo).mask,
        final(fifo).esize == old(fifo).esize,
        final(fifo).data@ == ring_written(
            old(fifo).data@,
            old(fifo).total(),
            (off & old(fifo).mask) * old(fifo).esize,
            src@.take(len * old(fifo).element()),
        ),
{
    let s = fifo.span(len, off);
    let ghost d0 = fifo.data@;
    let ghost total = fifo.total();
    let ghost t = src@.take(len * fifo.element());
    copy_bytes(&mut fifo.data, s.off as usize, src, 0, s.first as usize);
    let ghost d1 = fifo.data@;
    copy_bytes(&mut fifo.data, 0, src, s.first as usize, (s.len - s.first) as usize);
    proof {
        assert(fifo.data@ =~= ring_written(d0, total, s.off as int, t));
    }
}

/// Copies `len` elements of the FIFO from index `off` on to `dst`.
fn kfifo_copy_out(fifo: &__kfifo, dst: &mut [u8], len: u32, off: u32)
    requires
        fifo.wf(),
        len <= fifo.size(),
        len * fifo.element() <= old(dst)@.len(),
    ensures
        final(dst)@ == ring_bytes(
            fifo.data@,
            fifo.total(),
            (off & fifo.mask) * fifo.esize,
            len * fifo.element(),
        ) + old(dst)@.skip(len * fifo.element()),
{
    let s = fifo.span(len, off);
    let ghost d0 = dst@;
    let ghost n = len * fifo.element();
    copy_bytes_out(dst, 0, &fifo.data, s.off as usize, s.first as usize);
    copy_bytes_out(dst, s.first as usize, &fifo.data, 0, (s.len - s.first) as usize);
    proof {
        assert(dst@ =~= ring_bytes(fifo.data@, fifo.total(), s.off as int, n) + d0.skip(n));
    }
}

proof fn lemma_rounded_up(n: int, r: int)
    requires
        is_power(r),
        n <= r,
        r == 1 || r < 2 * n,
    ensures
        r == rounded_up(n),
    decreases n,
{
    if n > 1 {
        lemma_rounded_up((n + 1) / 2, r / 2);
    }
}

proof fn lemma_rounded_down(n: int, r: int)
    requires
        is_power(r),
        r <= n,
        n < 2 * r,
    ensures
        r == rounded_down(n),
    decreases n,
{
    if n > 1 {
        lemma_rounded_down(n / 2, r / 2);
    }
}

/// Rounding up to a power of two gives the smallest one that is not below, and rounding down the
/// largest one that is not above.
pub proof fn law_rounding(n: int)
    ensures
        is_power(rounded_up(n)),
        n <= rounded_up(n),
        rounded_up(n) == 1 || rounded_up(n) < 2 * n,
        n >= 1 ==> is_power(rounded_down(n)) && rounded_down(n) <= n < 2 * rounded_down(n),
    decreases n,
{
    if n > 1 {
        law_rounding((n + 1) / 2);
        law_rounding(n / 2);
    }
}

/// Rounds up to a power of two.
fn roundup_pow_of_two(n: u32) -> (r: u64)
    ensures
        r == rounded_up(n as int),
{
    let mut r: u64 = 1;
    while r < n as u64
        invariant
            is_power(r as int),
            r == 1 || r < 2 * n,
            r >= 1,
        decreases 2 * n - r,
    {
        r = r * 2;
    }
    proof {
        lemma_rounded_up(n as int, r as int);
    }
    r
}

/// Rounds down to a power of two.
fn rounddown_pow_of_two(n: u32) -> (r: u32)
    ensures
        r == rounded_down(n as int),
{
    if n == 0 {
        return 0;
    }
    let mut r: u32 = 1;
    while r <= n / 2
        invariant
            is_power(r as int),
            1 <= r <= n,
        decreases n - r,
    {
        r = r * 2;
    }
    proof {
        lemma_rounded_down(n as int, r as int);
    }
    r
}

/// Whether `n` is a power of two.
fn is_power_of_2(n: u32) -> (r: bool)
    ensures
        r == is_power(n as int),
{
    proof {
        lemma_power_bits(n);
        assert(n > 0 ==> ((((n - 1) as u32) < (n ^ ((n - 1) as u32))) <==> (n & ((n - 1) as u32)
            == 0))) by (bit_vector);
        assert(0xffff_ffffu32 ^ 0u32 == 0xffff_ffffu32) by (bit_vector);
        assert(0u32 ^ 0xffff_ffffu32 == 0xffff_ffffu32) by (bit_vector);
    }
    n.wrapping_sub(1) < (n ^ n.wrapping_sub(1))
}

/// Sets up a FIFO with room for `size` elements, rounded up to a power of two, of `esize` bytes
/// each. `buffer` is what the allocator gave for it.
///
/// Returns 0, `-EINVAL` for a size below 2, and `-ENOMEM` where there was no memory.
pub fn __kfifo_alloc_node(fifo: &mut __kfifo, size: u32, esize: usize, buffer: Option<Vec<u8>>) -> (r: i32)
    requires
        buffer matches Some(b) ==> size >= 2 ==> {
            &&& b@.len() == rounded_up(size as int) * esize
            &&& b@.len() <= u32::MAX
            &&& rounded_up(size as int) <= 0x8000_0000
            &&& esize <= u32::MAX
        },
    ensures
        r == (if size < 2 {
            -EINVAL
        } else if buffer is None {
            -ENOMEM
        } else {
            0
        }),
        r == 0 ==> {
            &&& final(fifo).wf()
            &&& final(fifo).size() == rounded_up(size as int)
            &&& final(fifo).element() == esize
            &&& final(fifo).bytes() == buffer->0@
        },
        r != 0 ==> final(fifo).size() == 1 && final(fifo).bytes().len() == 0,
        final(fifo).count() == 0,
        final(fifo).contents() == Seq::<u8>::empty(),
{
    let rounded = roundup_pow_of_two(size);
    proof {
        law_rounding(size as int);
        assert(rounded_up(1) == 1);
        assert(size >= 2 ==> rounded >= 2);
        assert(size <= 1 ==> rounded == 1);
    }
    fifo.in_ = 0;
    fifo.out = 0;
    fifo.esize = esize as u32;
    if rounded < 2 {
        fifo.data = Vec::new();
        fifo.mask = 0;
        proof {
            lemma_empty(*fifo);
        }
        return -EINVAL;
    }
    match buffer {
        None => {
            fifo.data = Vec::new();
            fifo.mask = 0;
            proof {
            lemma_empty(*fifo);
        }
            -ENOMEM
        },
        Some(b) => {
            fifo.data = b;
            fifo.mask = (rounded - 1) as u32;
            proof {
            lemma_empty(*fifo);
        }
            0
        },
    }
}

/// Frees a FIFO: it has no buffer any longer.
pub fn __kfifo_free(fifo: &mut __kfifo)
    ensures
        final(fifo).count() == 0,
        final(fifo).size() == 1,
        final(fifo).element() == 0,
        final(fifo).bytes() == Seq::<u8>::empty(),
{
    fifo.data = Vec::new();
    fifo.in_ = 0;
    fifo.out = 0;
    fifo.esize = 0;
    fifo.mask = 0;
}

/// A FIFO without a buffer.
pub fn kfifo_new() -> (fifo: __kfifo)
    ensures
        fifo.count() == 0,
        fifo.size() == 1,
        fifo.element() == 0,
        fifo.bytes() == Seq::<u8>::empty(),
{
    __kfifo { in_: 0, out: 0, mask: 0, esize: 0, data: Vec::new() }
}

/// Sets up a FIFO in a buffer of `size` bytes, for elements of `esize` bytes each; their number is
/// rounded down to a power of two.
///
/// Returns 0, and `-EINVAL` if there is no room for two elements.
pub fn __kfifo_init(fifo: &mut __kfifo, buffer: Vec<u8>, size: u32, esize: usize) -> (r: i32)
    requires
        buffer@.len() >= size,
    ensures
        ({
            let n = if esize == 0 {
                0
            } else {
                rounded_down(size as int / esize as int)
            };
            &&& r == (if n < 2 {
                -EINVAL
            } else {
                0
            })
            &&& r == 0 ==> {
                &&& final(fifo).wf()
                &&& final(fifo).size() == n
                &&& final(fifo).element() == esize
            }
            &&& r != 0 ==> final(fifo).size() == 1
        }),
        final(fifo).bytes() == buffer@,
        final(fifo).count() == 0,
        final(fifo).contents() == Seq::<u8>::empty(),
{
    let mut n: u32 = 0;
    if esize != 0 {
        let q = size as usize / esize;
        assert(q <= size) by (nonlinear_arith)
            requires
                q == size as usize / esize,
                esize > 0,
        ;
        n = q as u32;
    }
    if !is_power_of_2(n) {
        n = rounddown_pow_of_two(n);
    } else {
        proof {
            lemma_rounded_down(n as int, n as int);
        }
    }
    fifo.in_ = 0;
    fifo.out = 0;
    fifo.esize = esize as u32;
    fifo.data = buffer;
    if n < 2 {
        fifo.mask = 0;
        proof {
            lemma_empty(*fifo);
        }
        return -EINVAL;
    }
    proof {
        let q = size as int / esize as int;
        let e = esize as int;
        law_rounding(q);
        let m = n as int;
        assert(m * e <= size && e <= size) by (nonlinear_arith)
            requires
                2 <= m <= q,
                q == size as int / e,
                e > 0,
        ;
        assert(is_power(m) && m < 0x1_0000_0000 ==> m <= 0x8000_0000) by {
            let k = n;
            lemma_power_bits(k);
            assert(k > 0x8000_0000u32 ==> k & ((k - 1) as u32) != 0) by (bit_vector);
        }
    }
    fifo.mask = n - 1;
    proof {
            lemma_empty(*fifo);
        }
    0
}

/// Puts up to `len` elements into the FIFO, as many as there is room for. Returns how many.
pub fn __kfifo_in(fifo: &mut __kfifo, buf: &[u8], len: u32) -> (r: u32)
    requires
        old(fifo).wf(),
        len * old(fifo).element() <= buf@.len(),
    ensures
        final(fifo).wf(),
        final(fifo).same_shape(*old(fifo)),
        r == (if len <= old(fifo).size() - old(fifo).count() {
            len as int
        } else {
            old(fifo).size() - old(fifo).count()
        }),
        final(fifo).count() == old(fifo).count() + r,
        final(fifo).contents() == old(fifo).contents() + buf@.take(r * old(fifo).element()),
{
    let room = fifo.unused();
    let n = if len > room {
        room
    } else {
        len
    };
    proof {
        fifo.lemma_wf();
        lemma_scaled(n as int, len as int, fifo.element());
    }
    let in_ = fifo.in_;
    kfifo_copy_in(fifo, buf, n, in_);
    fifo.in_ = in_.wrapping_add(n);
    proof {
        let e = fifo.element();
        lemma_scaled(old(fifo).count() + n, fifo.size(), e);
        let c = old(fifo).count();
        assert((c + n) * e == c * e + n * e) by (nonlinear_arith);
        lemma_put(*old(fifo), *fifo, 0, n, buf@.take(n * e));
        assert(buf@.take(n * e).take(n * e) =~= buf@.take(n * e));
    }
    n
}

proof fn lemma_empty(fifo: __kfifo)
    requires
        fifo.in_ == fifo.out,
    ensures
        fifo.count() == 0,
        fifo.contents() == Seq::<u8>::empty(),
{
    let e = fifo.element();
    assert(0 * e == 0) by (nonlinear_arith);
    assert(fifo.contents() =~= Seq::<u8>::empty());
}

proof fn lemma_scaled(a: int, b: int, e: int)
    requires
        0 <= a <= b,
        0 <= e,
    ensures
        0 <= a * e <= b * e,
        (b - a) * e == b * e - a * e,
{
    assert(0 <= a * e <= b * e && (b - a) * e == b * e - a * e) by (nonlinear_arith)
        requires
            0 <= a <= b,
            0 <= e,
    ;
}

/// Elements have been written behind the last one, after a gap of `gap` elements, and the index has
/// moved past them.
proof fn lemma_put(before: __kfifo, after: __kfifo, gap: u32, n: u32, src: Seq<u8>)
    requires
        before.wf(),
        before.count() + gap + n <= before.size(),
        n * before.element() <= src.len(),
        (before.count() + gap) * before.element() + src.len() <= before.total(),
        after.out == before.out,
        after.mask == before.mask,
        after.esize == before.esize,
        after.in_ == before.in_.wrapping_add((gap + n) as u32),
        after.data@ == ring_written(
            before.data@,
            before.total(),
            (before.in_.wrapping_add(gap) & before.mask) * before.esize,
            src,
        ),
    ensures
        after.wf(),
        after.count() == before.count() + gap + n,
        after.contents() == ring_bytes(
            before.data@,
            before.total(),
            before.start(),
            (before.count() + gap) * before.element(),
        ) + src.take(n * before.element()),
{
    before.lemma_wf();
    let c = before.count();
    let k = (c + gap) as u32;
    assert(before.out.wrapping_add(k) == before.in_.wrapping_add(gap));
    before.lemma_position(k);
    let e = before.element();
    lemma_scaled(c + gap, c + gap + n, e);
    lemma_scaled(c + gap + n, before.size(), e);
    assert((c + gap + n) * e == (c + gap) * e + n * e) by (nonlinear_arith);
    lemma_ring_append(before.data@, before.total(), before.start(), (c + gap) * e, src);
    let m = (c + gap) * e;
    lemma_ring_part(after.data@, before.total(), before.start(), m + src.len(), 0, m + n * e);
    assert(after.contents() =~= ring_bytes(before.data@, before.total(), before.start(), m)
        + src.take(n * e));
}

/// The first `n` elements have been released.
proof fn lemma_taken(before: __kfifo, after: __kfifo, n: u32)
    requires
        before.wf(),
        n <= before.count(),
        after.in_ == before.in_,
        after.out == before.out.wrapping_add(n),
        after.mask == before.mask,
        after.esize == before.esize,
        after.data@ == before.data@,
    ensures
        after.wf(),
        after.count() == before.count() - n,
        after.contents() == before.contents().skip(n * before.element()),
        0 <= n * before.element() <= before.contents().len(),
{
    before.lemma_wf();
    before.lemma_position(n);
    let e = before.element();
    let c = before.count();
    lemma_scaled(n as int, c, e);
    lemma_ring_part(before.data@, before.total(), before.start(), c * e, n * e, c * e);
    assert(before.contents().skip(n * e) =~= before.contents().subrange(n * e, c * e));
}

/// Copies up to `len` of the oldest elements out, and leaves them in the FIFO. Returns how many.
pub fn __kfifo_out_peek(fifo: &__kfifo, buf: &mut [u8], len: u32) -> (r: u32)
    requires
        fifo.wf(),
        len * fifo.element() <= old(buf)@.len(),
    ensures
        r == (if len <= fifo.count() {
            len as int
        } else {
            fifo.count()
        }),
        final(buf)@ == fifo.contents().take(r * fifo.element()) + old(buf)@.skip(
            r * fifo.element(),
        ),
{
    let l = fifo.len();
    let n = if len > l {
        l
    } else {
        len
    };
    proof {
        fifo.lemma_wf();
        let e = fifo.element();
        lemma_scaled(n as int, len as int, e);
        lemma_scaled(n as int, fifo.count(), e);
        lemma_ring_part(
            fifo.data@,
            fifo.total(),
            fifo.start(),
            fifo.count() * e,
            0,
            n * e,
        );
        assert(fifo.contents().subrange(0, n * e) =~= fifo.contents().take(n * e));
    }
    kfifo_copy_out(fifo, buf, n, fifo.out);
    n
}

/// Finds the elements that lie in one piece at the beginning of the FIFO: at most `n`. Returns how
/// many there are, and the index of the first in `tail`.
pub fn __kfifo_out_linear(fifo: &__kfifo, tail: Option<&mut u32>, n: u32) -> (r: u32)
    requires
        fifo.wf(),
    ensures
        ({
            let first = fifo.size() - fifo.offset();
            let m = if n <= fifo.count() {
                n as int
            } else {
                fifo.count()
            };
            r == (if m <= first {
                m
            } else {
                first
            })
        }),
        tail matches Some(t) ==> *final(t) == fifo.offset(),
        fifo.bytes().subrange(
            fifo.offset() * fifo.element(),
            fifo.offset() * fifo.element() + r * fifo.element(),
        ) == fifo.contents().take(r * fifo.element()),
{
    let mask = fifo.mask;
    let out = fifo.out;
    let off = out & mask;
    proof {
        assert((out & mask) <= mask) by (bit_vector);
        fifo.lemma_wf();
    }
    if let Some(t) = tail {
        *t = off;
    }
    let size = mask + 1;
    let mut r: u32 = n;
    if r > fifo.len() {
        r = fifo.len();
    }
    if r > size - off {
        r = size - off;
    }
    proof {
        let e = fifo.element();
        lemma_scaled(r as int, fifo.count(), e);
        lemma_scaled(off + r, fifo.size(), e);
        assert((off + r) * e == off * e + r * e) by (nonlinear_arith);
        let whole = fifo.contents();
        let at = off * e;
        assert(fifo.data@.subrange(at, at + r * e) =~= whole.take(r * e));
    }
    r
}

impl __kfifo {
    /// The index of the first element in the buffer.
    pub closed spec fn offset(self) -> int {
        (self.out & self.mask) as int
    }
}

/// Takes up to `len` of the oldest elements out of the FIFO. Returns how many.
pub fn __kfifo_out(fifo: &mut __kfifo, buf: &mut [u8], len: u32) -> (r: u32)
    requires
        old(fifo).wf(),
        len * old(fifo).element() <= old(buf)@.len(),
    ensures
        final(fifo).wf(),
        final(fifo).same_shape(*old(fifo)),
        r == (if len <= old(fifo).count() {
            len as int
        } else {
            old(fifo).count()
        }),
        final(fifo).count() == old(fifo).count() - r,
        final(buf)@ == old(fifo).contents().take(r * old(fifo).element()) + old(buf)@.skip(
            r * old(fifo).element(),
        ),
        final(fifo).contents() == old(fifo).contents().skip(r * old(fifo).element()),
{
    let n = __kfifo_out_peek(fifo, buf, len);
    fifo.out = fifo.out.wrapping_add(n);
    proof {
        lemma_taken(*old(fifo), *fifo, n);
    }
    n
}

/// How many elements of `e` bytes `n` bytes touch.
pub open spec fn div_rounded_up(n: int, e: int) -> int {
    if e == 0 {
        0
    } else {
        (n + e - 1) / e
    }
}

/// How many elements of `e` bytes `n` bytes touch.
fn div_round_up(n: usize, e: usize) -> (r: usize)
    ensures
        r == div_rounded_up(n as int, e as int),
        r <= n,
{
    if e == 0 {
        return 0;
    }
    let q = n / e;
    proof {
        let nn = n as int;
        let ee = e as int;
        let qq = nn / ee;
        let rr = nn % ee;
        vstd::arithmetic::div_mod::lemma_fundamental_div_mod(nn, ee);
        assert(qq <= nn && (rr != 0 ==> qq < nn)) by (nonlinear_arith)
            requires
                nn == ee * qq + rr,
                0 <= rr < ee,
                qq >= 0,
                ee >= 1,
        ;
        assert(qq >= 0) by (nonlinear_arith)
            requires
                qq == nn / ee,
                nn >= 0,
                ee >= 1,
        ;
        if rr == 0 {
            assert(nn + ee - 1 == qq * ee + (ee - 1)) by (nonlinear_arith)
                requires
                    nn == ee * qq + rr,
                    rr == 0,
            ;
            vstd::arithmetic::div_mod::lemma_fundamental_div_mod_converse(
                nn + ee - 1,
                ee,
                qq,
                ee - 1,
            );
        } else {
            assert(nn + ee - 1 == (qq + 1) * ee + (rr - 1)) by (nonlinear_arith)
                requires
                    nn == ee * qq + rr,
            ;
            vstd::arithmetic::div_mod::lemma_fundamental_div_mod_converse(
                nn + ee - 1,
                ee,
                qq + 1,
                rr - 1,
            );
        }
    }
    if n % e == 0 {
        q
    } else {
        q + 1
    }
}

/// How many of `n` elements of `e` bytes cannot be copied whole where `there` bytes can be accessed.
pub open spec fn not_copied(n: int, e: int, there: int) -> int {
    if n * e <= there {
        0
    } else {
        div_rounded_up(n * e - there, e)
    }
}

proof fn lemma_not_copied(n: int, e: int, there: int)
    requires
        0 <= n,
        0 <= e,
        0 <= there,
    ensures
        0 <= not_copied(n, e, there) <= n,
        0 <= (n - not_copied(n, e, there)) * e <= there,
        0 <= (n - not_copied(n, e, there)) * e <= n * e,
        n * e > there ==> not_copied(n, e, there) > 0,
        n * e - not_copied(n, e, there) * e == (n - not_copied(n, e, there)) * e,
{
    let r = not_copied(n, e, there);
    assert(0 <= n * e) by (nonlinear_arith)
        requires
            0 <= n,
            0 <= e,
    ;
    if n * e > there {
        assert(e > 0) by (nonlinear_arith)
            requires
                n * e > 0,
                e >= 0,
        ;
        let m = n * e - there;
        vstd::arithmetic::div_mod::lemma_fundamental_div_mod(m + e - 1, e);
        let q = (m + e - 1) / e;
        let t = (m + e - 1) % e;
        assert(q * e >= m && q <= n && q > 0) by (nonlinear_arith)
            requires
                m + e - 1 == e * q + t,
                0 <= t < e,
                m > 0,
                m <= n * e,
                e > 0,
        ;
        assert((n - q) * e == n * e - q * e) by (nonlinear_arith);
        assert(0 <= (n - q) * e <= n * e) by (nonlinear_arith)
            requires
                0 <= q <= n,
                0 <= e,
        ;
    } else {
        assert(0 * e == 0) by (nonlinear_arith);
    }
}

/// Copies `n` bytes of user memory from `skip` on to `at` of `dst`, as far as they can be read.
/// Returns how many could not.
fn copy_from_user(dst: &mut Vec<u8>, at: usize, from: &[u8], skip: usize, n: usize) -> (missed: usize)
    requires
        at + n <= old(dst)@.len(),
        skip <= from@.len(),
    ensures
        missed == (if n <= from@.len() - skip {
            0
        } else {
            n - (from@.len() - skip)
        }),
        final(dst)@.len() == old(dst)@.len(),
        forall|p: int|
            0 <= p < old(dst)@.len() ==> #[trigger] final(dst)@[p] == (if at <= p < at + n
                - missed {
                from@[skip + p - at]
            } else {
                old(dst)@[p]
            }),
{
    let there = from.len() - skip;
    let k = if n <= there {
        n
    } else {
        there
    };
    copy_bytes(dst, at, from, skip, k);
    n - k
}

/// Copies `n` bytes from `at` of `src` on to user memory at `skip`, as far as it can be written.
/// Returns how many could not.
fn copy_to_user(to: &mut [u8], skip: usize, src: &Vec<u8>, at: usize, n: usize) -> (missed: usize)
    requires
        at + n <= src@.len(),
        skip <= old(to)@.len(),
    ensures
        missed == (if n <= old(to)@.len() - skip {
            0
        } else {
            n - (old(to)@.len() - skip)
        }),
        final(to)@.len() == old(to)@.len(),
        forall|p: int|
            0 <= p < old(to)@.len() ==> #[trigger] final(to)@[p] == (if skip <= p < skip + n
                - missed {
                src@[at + p - skip]
            } else {
                old(to)@[p]
            }),
{
    let there = to.len() - skip;
    let k = if n <= there {
        n
    } else {
        there
    };
    copy_bytes_out(to, skip, src, at, k);
    n - k
}

/// Copies `len` elements of user memory, of which `from` can be read, into the FIFO at index `off`.
/// Returns the number of elements that are not copied.
fn kfifo_copy_from_user(fifo: &mut __kfifo, from: &[u8], len: u32, off: u32, copied: &mut u32) -> (ret: usize)
    requires
        old(fifo).wf(),
        len <= old(fifo).size(),
    ensures
        final(fifo).wf(),
        final(fifo).in_ == old(fifo).in_,
        final(fifo).out == old(fifo).out,
        final(fifo).mask == old(fifo).mask,
        final(fifo).esize == old(fifo).esize,
        ret == not_copied(len as int, old(fifo).element(), from@.len() as int),
        *final(copied) == (len - ret) * old(fifo).element(),
        final(fifo).data@ == ring_written(
            old(fifo).data@,
            old(fifo).total(),
            (off & old(fifo).mask) * old(fifo).esize,
            from@.take(
                if len * old(fifo).element() <= from@.len() {
                    len * old(fifo).element()
                } else {
                    from@.len() as int
                },
            ),
        ),
{
    let s = fifo.span(len, off);
    let esize = fifo.esize;
    let ghost d0 = fifo.data@;
    let ghost total = fifo.total();
    let ghost e = fifo.element();
    let ghost there = from@.len() as int;
    let first = s.first as usize;
    let rest = (s.len - s.first) as usize;
    let mut ret = copy_from_user(&mut fifo.data, s.off as usize, from, 0, first);
    if ret != 0 {
        assert(len * e - there == ret + rest);
        ret = div_round_up(ret + rest, esize as usize);
    } else {
        ret = copy_from_user(&mut fifo.data, 0, from, first, rest);
        if ret != 0 {
            assert(len * e - there == ret);
            ret = div_round_up(ret, esize as usize);
        }
    }
    proof {
        lemma_not_copied(len as int, e, there);
        let src = from@.take(
            if len * e <= there {
                len * e
            } else {
                there
            },
        );
        assert(fifo.data@ =~= ring_written(d0, total, s.off as int, src));
        lemma_scaled(ret as int, len as int, e);
    }
    *copied = s.len - (ret as u32) * esize;
    ret
}

/// Copies `len` elements of the FIFO from index `off` on to user memory, of which `to` can be
/// written. Returns the number of elements that are not copied.
fn kfifo_copy_to_user(fifo: &__kfifo, to: &mut [u8], len: u32, off: u32, copied: &mut u32) -> (ret: usize)
    requires
        fifo.wf(),
        len <= fifo.size(),
    ensures
        ret == not_copied(len as int, fifo.element(), old(to)@.len() as int),
        *final(copied) == (len - ret) * fifo.element(),
        ({
            let n = if len * fifo.element() <= old(to)@.len() {
                len * fifo.element()
            } else {
                old(to)@.len() as int
            };
            final(to)@ == ring_bytes(
                fifo.data@,
                fifo.total(),
                (off & fifo.mask) * fifo.esize,
                n,
            ) + old(to)@.skip(n)
        }),
{
    let s = fifo.span(len, off);
    let esize = fifo.esize;
    let ghost t0 = to@;
    let ghost e = fifo.element();
    let ghost there = to@.len() as int;
    let first = s.first as usize;
    let rest = (s.len - s.first) as usize;
    let mut ret = copy_to_user(to, 0, &fifo.data, s.off as usize, first);
    if ret != 0 {
        assert(len * e - there == ret + rest);
        ret = div_round_up(ret + rest, esize as usize);
    } else {
        ret = copy_to_user(to, first, &fifo.data, 0, rest);
        if ret != 0 {
            assert(len * e - there == ret);
            ret = div_round_up(ret, esize as usize);
        }
    }
    proof {
        lemma_not_copied(len as int, e, there);
        let n = if len * e <= there {
            len * e
        } else {
            there
        };
        assert(to@ =~= ring_bytes(fifo.data@, fifo.total(), s.off as int, n) + t0.skip(n));
        lemma_scaled(ret as int, len as int, e);
    }
    *copied = s.len - (ret as u32) * esize;
    ret
}

/// How many elements `len` bytes hold, but at most `limit`.
pub open spec fn elements(len: int, e: int, limit: int) -> int {
    let n = if e == 0 {
        0
    } else {
        len / e
    };
    if n <= limit {
        n
    } else {
        limit
    }
}

/// How many elements `len` bytes hold, but at most `limit`.
fn whole_elements(len: usize, esize: u32, limit: u32) -> (n: u32)
    ensures
        n == elements(len as int, esize as int, limit as int),
        n <= limit,
{
    let mut n: usize = len;
    if esize != 1 {
        n = if esize == 0 {
            0
        } else {
            len / esize as usize
        };
    }
    if n > limit as usize {
        limit
    } else {
        n as u32
    }
}

/// Puts `len` bytes of user memory, of which `from` can be read, into the FIFO, as far as they are
/// whole elements and there is room.
///
/// Returns 0, or `-EFAULT` where not all of it could be read; the elements that could be are in the
/// FIFO all the same. `copied` gets their size in bytes.
pub fn __kfifo_from_user(fifo: &mut __kfifo, from: &[u8], len: usize, copied: &mut u32) -> (err: i32)
    requires
        old(fifo).wf(),
    ensures
        final(fifo).wf(),
        final(fifo).same_shape(*old(fifo)),
        ({
            let e = old(fifo).element();
            let n = elements(len as int, e, old(fifo).size() - old(fifo).count());
            let k = n - not_copied(n, e, from@.len() as int);
            &&& err == (if n * e > from@.len() {
                -EFAULT
            } else {
                0
            })
            &&& *final(copied) == k * e
            &&& final(fifo).count() == old(fifo).count() + k
            &&& final(fifo).contents() == old(fifo).contents() + from@.take(k * e)
        }),
{
    let room = fifo.unused();
    let n = whole_elements(len, fifo.esize, room);
    let in_ = fifo.in_;
    proof {
        fifo.lemma_wf();
    }
    let ret = kfifo_copy_from_user(fifo, from, n, in_, copied);
    proof {
        lemma_not_copied(n as int, fifo.element(), from@.len() as int);
    }
    let k = n - ret as u32;
    fifo.in_ = in_.wrapping_add(k);
    proof {
        let e = fifo.element();
        let there = from@.len() as int;
        let c = old(fifo).count();
        let m = if n * e <= there {
            n * e
        } else {
            there
        };
        lemma_scaled(c + n, fifo.size(), e);
        assert((c + n) * e == c * e + n * e) by (nonlinear_arith);
        lemma_put(*old(fifo), *fifo, 0, k, from@.take(m));
        assert(from@.take(m).take(k * e) =~= from@.take(k * e));
    }
    if ret != 0 {
        -EFAULT
    } else {
        0
    }
}

/// Takes the oldest elements out of the FIFO, as many as `len` bytes hold, and puts them into user
/// memory, of which `to` can be written.
///
/// Returns 0, or `-EFAULT` where not all of it could be written; the elements that could not be stay
/// in the FIFO. `copied` gets the size of the others in bytes.
pub fn __kfifo_to_user(fifo: &mut __kfifo, to: &mut [u8], len: usize, copied: &mut u32) -> (err: i32)
    requires
        old(fifo).wf(),
    ensures
        final(fifo).wf(),
        final(fifo).same_shape(*old(fifo)),
        ({
            let e = old(fifo).element();
            let there = old(to)@.len() as int;
            let n = elements(len as int, e, old(fifo).count());
            let k = n - not_copied(n, e, there);
            let m = if n * e <= there {
                n * e
            } else {
                there
            };
            &&& err == (if n * e > there {
                -EFAULT
            } else {
                0
            })
            &&& *final(copied) == k * e
            &&& final(fifo).count() == old(fifo).count() - k
            &&& final(fifo).contents() == old(fifo).contents().skip(k * e)
            &&& final(to)@ == old(fifo).contents().take(m) + old(to)@.skip(m)
        }),
{
    let l = fifo.len();
    let n = whole_elements(len, fifo.esize, l);
    let ghost t0 = to@;
    proof {
        fifo.lemma_wf();
        let e = fifo.element();
        lemma_scaled(n as int, fifo.count(), e);
        let there = to@.len() as int;
        let m = if n * e <= there {
            n * e
        } else {
            there
        };
        lemma_ring_part(fifo.data@, fifo.total(), fifo.start(), fifo.count() * e, 0, m);
        assert(fifo.contents().subrange(0, m) =~= fifo.contents().take(m));
    }
    let ret = kfifo_copy_to_user(fifo, to, n, fifo.out, copied);
    proof {
        lemma_not_copied(n as int, fifo.element(), t0.len() as int);
    }
    let k = n - ret as u32;
    fifo.out = fifo.out.wrapping_add(k);
    proof {
        lemma_taken(*old(fifo), *fifo, k);
    }
    if ret != 0 {
        -EFAULT
    } else {
        0
    }
}

/// The bus address that says that nothing is mapped.
pub const DMA_MAPPING_ERROR: u64 = 0xffff_ffff_ffff_ffff;

/// An entry of a scatterlist: a piece of the buffer, and its bus address where it is mapped.
#[derive(Clone, Copy)]
pub struct SgEntry {
    /// Where the piece lies in the buffer.
    pub offset: u32,
    /// The length of the piece.
    pub len: u32,
    /// The bus address of the piece.
    pub dma: Option<u64>,
}

/// The entry for `len` bytes at `offset`, in a buffer that is mapped at `dma`.
pub open spec fn sg_entry(offset: int, len: int, dma: u64) -> SgEntry {
    SgEntry {
        offset: offset as u32,
        len: len as u32,
        dma: if dma == DMA_MAPPING_ERROR {
            None
        } else {
            Some((dma + offset) as u64)
        },
    }
}

/// The entries, at most `nents`, for `n` bytes from `at` on in a ring.
pub open spec fn sg_entries(total: int, at: int, n: int, nents: int, dma: u64) -> Seq<SgEntry> {
    let first = if n <= total - at {
        n
    } else {
        total - at
    };
    let a = if nents != 0 && first != 0 {
        seq![sg_entry(at, first, dma)]
    } else {
        Seq::empty()
    };
    if nents != a.len() && n - first != 0 {
        a.push(sg_entry(0, n - first, dma))
    } else {
        a
    }
}

/// The bytes that entries of a scatterlist cover.
pub open spec fn sg_bytes(data: Seq<u8>, sg: Seq<SgEntry>) -> Seq<u8>
    decreases sg.len(),
{
    if sg.len() == 0 {
        Seq::empty()
    } else {
        sg_bytes(data, sg.drop_last()) + data.subrange(
            sg.last().offset as int,
            sg.last().offset + sg.last().len,
        )
    }
}

/// Two entries suffice to cover any run of bytes of the ring.
pub proof fn law_two_entries_cover(data: Seq<u8>, total: int, at: int, n: int, nents: int, dma: u64)
    requires
        0 <= at,
        at < total || total == 0 && at == 0,
        total <= data.len(),
        total <= u32::MAX,
        0 <= n <= total,
        nents >= 2,
    ensures
        sg_bytes(data, sg_entries(total, at, n, nents, dma)) == ring_bytes(data, total, at, n),
        sg_entries(total, at, n, nents, dma).len() <= 2,
{
    let sg = sg_entries(total, at, n, nents, dma);
    reveal_with_fuel(sg_bytes, 3);
    let e = Seq::<SgEntry>::empty();
    assert(sg_bytes(data, e) =~= Seq::empty());
    if sg.len() == 1 {
        assert(sg.drop_last() =~= e);
    } else if sg.len() == 2 {
        assert(sg.drop_last().drop_last() =~= e);
    }
    assert(sg_bytes(data, sg) =~= ring_bytes(data, total, at, n));
}

/// Sets up an entry of the scatterlist, if there is one left and something to cover.
fn setup_sgl_buf(sg: &mut Vec<SgEntry>, data_offset: u32, nents: i32, len: u32, dma: u64) -> (n: u32)
    requires
        dma == DMA_MAPPING_ERROR || dma + data_offset <= u64::MAX,
    ensures
        n == (if nents == 0 || len == 0 {
            0int
        } else {
            1
        }),
        final(sg)@ == (if nents == 0 || len == 0 {
            old(sg)@
        } else {
            old(sg)@.push(sg_entry(data_offset as int, len as int, dma))
        }),
{
    if nents == 0 || len == 0 {
        return 0;
    }
    sg.push(
        SgEntry {
            offset: data_offset,
            len,
            dma: if dma != DMA_MAPPING_ERROR {
                Some(dma + data_offset as u64)
            } else {
                None
            },
        },
    );
    1
}

/// Sets up the entries for `len` elements from index `off` on.
fn setup_sgl(fifo: &__kfifo, nents: i32, len: u32, off: u32, dma: u64) -> (sg: Vec<SgEntry>)
    requires
        fifo.wf(),
        len <= fifo.size(),
        nents >= 0,
        dma == DMA_MAPPING_ERROR || dma + fifo.total() <= u64::MAX,
    ensures
        sg@ == sg_entries(
            fifo.total(),
            (off & fifo.mask) * fifo.esize,
            len * fifo.element(),
            nents as int,
            dma,
        ),
{
    let s = fifo.span(len, off);
    let mut sg: Vec<SgEntry> = Vec::new();
    let n = setup_sgl_buf(&mut sg, s.off, nents, s.first, dma);
    let _ = setup_sgl_buf(&mut sg, 0, nents - n as i32, s.len - s.first, dma);
    assert(sg@ =~= sg_entries(
        fifo.total(),
        s.off as int,
        len * fifo.element(),
        nents as int,
        dma,
    ));
    sg
}

impl __kfifo {
    /// Where the element behind the last one goes, after a gap of `gap` elements, in bytes.
    pub open spec fn end(self, gap: int) -> int {
        wrap(self.start() + (self.count() + gap) * self.element(), self.total())
    }
}

/// Sets up a scatterlist, of at most `nents` entries, for up to `len` elements that are to be put
/// into the FIFO.
pub fn __kfifo_dma_in_prepare(fifo: &__kfifo, nents: i32, len: u32, dma: u64) -> (sg: Vec<SgEntry>)
    requires
        fifo.wf(),
        nents >= 0,
        dma == DMA_MAPPING_ERROR || dma + fifo.total() <= u64::MAX,
    ensures
        ({
            let room = fifo.size() - fifo.count();
            let n = if len <= room {
                len as int
            } else {
                room
            };
            sg@ == sg_entries(fifo.total(), fifo.end(0), n * fifo.element(), nents as int, dma)
        }),
{
    let l = fifo.unused();
    let n = if len > l {
        l
    } else {
        len
    };
    proof {
        fifo.lemma_wf();
        let c = fifo.count() as u32;
        assert(fifo.out.wrapping_add(c) == fifo.in_);
        fifo.lemma_position(c);
    }
    setup_sgl(fifo, nents, n, fifo.in_, dma)
}

/// Sets up a scatterlist, of at most `nents` entries, for up to `len` of the oldest elements.
pub fn __kfifo_dma_out_prepare(fifo: &__kfifo, nents: i32, len: u32, dma: u64) -> (sg: Vec<SgEntry>)
    requires
        fifo.wf(),
        nents >= 0,
        dma == DMA_MAPPING_ERROR || dma + fifo.total() <= u64::MAX,
    ensures
        ({
            let n = if len <= fifo.count() {
                len as int
            } else {
                fifo.count()
            };
            &&& sg@ == sg_entries(
                fifo.total(),
                fifo.start(),
                n * fifo.element(),
                nents as int,
                dma,
            )
            &&& nents >= 2 ==> sg_bytes(fifo.bytes(), sg@) == fifo.contents().take(
                n * fifo.element(),
            )
        }),
{
    let l = fifo.len();
    let n = if len > l {
        l
    } else {
        len
    };
    proof {
        fifo.lemma_wf();
        let e = fifo.element();
        lemma_scaled(n as int, fifo.count(), e);
        lemma_ring_part(fifo.data@, fifo.total(), fifo.start(), fifo.count() * e, 0, n * e);
        assert(fifo.contents().subrange(0, n * e) =~= fifo.contents().take(n * e));
        if nents >= 2 {
            law_two_entries_cover(
                fifo.data@,
                fifo.total(),
                fifo.start(),
                n * e,
                nents as int,
                dma,
            );
        }
    }
    setup_sgl(fifo, nents, n, fifo.out, dma)
}

/// The largest length that `recsize` bytes can hold, and that a length can have.
pub open spec fn max_record(recsize: int) -> int {
    if recsize <= 0 {
        0
    } else if recsize == 1 {
        0xff
    } else if recsize == 2 {
        0xffff
    } else if recsize == 3 {
        0xff_ffff
    } else {
        0xffff_ffff
    }
}

/// Limits a record length to what `recsize` bytes can hold.
pub fn __kfifo_max_r(len: u32, recsize: usize) -> (r: u32)
    ensures
        r == (if len > max_record(recsize as int) {
            max_record(recsize as int)
        } else {
            len as int
        }),
{
    // A length has four bytes, so more of them limit nothing.
    let bytes: u32 = if recsize > 4 {
        4
    } else {
        recsize as u32
    };
    let shift: u32 = bytes * 8;
    assert((shift == 0 || shift == 8 || shift == 16 || shift == 24 || shift == 32) ==> (1u64 << shift)
        >= 1 && (((1u64 << shift) - 1) as u32) == (if shift == 0 {
        0u32
    } else if shift == 8 {
        0xff
    } else if shift == 16 {
        0xffff
    } else if shift == 24 {
        0xff_ffff
    } else {
        0xffff_ffff
    })) by (bit_vector);
    let max = ((1u64 << shift) - 1) as u32;
    if len > max {
        max
    } else {
        len
    }
}

/// The bytes that say that a record has `len` bytes.
pub open spec fn header(len: int, recsize: int) -> Seq<u8> {
    if recsize > 1 {
        seq![(len % 256) as u8, (len / 256 % 256) as u8]
    } else {
        seq![(len % 256) as u8]
    }
}

/// The length of the record that the bytes `s` begin with.
pub open spec fn record_len(s: Seq<u8>, recsize: int) -> int {
    if recsize > 1 {
        s[0] + s[1] * 256
    } else {
        s[0] as int
    }
}

/// Whether the bytes `s` are nothing, or begin with a whole record.
pub open spec fn holds_record(s: Seq<u8>, recsize: int) -> bool {
    s.len() == 0 || recsize <= s.len() && recsize + record_len(s, recsize) <= s.len()
}

/// Whether records are bytes behind a length of `recsize` bytes.
pub open spec fn is_record_fifo(fifo: __kfifo, recsize: int) -> bool {
    &&& fifo.wf()
    &&& fifo.element() == 1
    &&& recsize == 1 || recsize == 2
}

/// The length of the next record.
fn kfifo_peek_n(fifo: &__kfifo, recsize: usize) -> (n: u32)
    requires
        is_record_fifo(*fifo, recsize as int),
    ensures
        n == record_len(ring_bytes(fifo.bytes(), fifo.total(), fifo.start(), 2), recsize as int),
        recsize <= fifo.count() ==> n == record_len(fifo.contents(), recsize as int),
        n <= 0xffff,
        recsize == 1 ==> n <= 0xff,
{
    let mask = fifo.mask;
    let out = fifo.out;
    proof {
        fifo.lemma_wf();
        fifo.lemma_position(0);
        fifo.lemma_position(1);
    }
    let mut l: u32 = fifo.data[(out & mask) as usize] as u32;
    if recsize > 1 {
        let h: u32 = fifo.data[(out.wrapping_add(1) & mask) as usize] as u32;
        assert(l < 256 && h < 256 ==> (l | (h << 8)) == l + h * 256) by (bit_vector);
        l = l | (h << 8);
    }
    l
}

/// Writes the length of the record that is being added.
fn kfifo_poke_n(fifo: &mut __kfifo, n: u32, recsize: usize)
    requires
        is_record_fifo(*old(fifo), recsize as int),
        old(fifo).count() + recsize <= old(fifo).size(),
    ensures
        final(fifo).wf(),
        final(fifo).in_ == old(fifo).in_,
        final(fifo).out == old(fifo).out,
        final(fifo).mask == old(fifo).mask,
        final(fifo).esize == old(fifo).esize,
        final(fifo).data@ == ring_written(
            old(fifo).data@,
            old(fifo).total(),
            (old(fifo).in_ & old(fifo).mask) * old(fifo).esize,
            header(n as int, recsize as int),
        ),
{
    let mask = fifo.mask;
    let in_ = fifo.in_;
    let ghost d0 = fifo.data@;
    let ghost total = fifo.total();
    proof {
        fifo.lemma_wf();
        let c = fifo.count() as u32;
        assert(fifo.out.wrapping_add(c) == in_);
        fifo.lemma_position(c);
        fifo.lemma_position((c + 1) as u32);
        assert(fifo.out.wrapping_add((c + 1) as u32) == in_.wrapping_add(1));
        assert((n as u8) == n % 256 && ((n >> 8) as u8) == n / 256 % 256) by (bit_vector);
    }
    fifo.data.set((in_ & mask) as usize, n as u8);
    if recsize > 1 {
        fifo.data.set((in_.wrapping_add(1) & mask) as usize, (n >> 8) as u8);
    }
    proof {
        assert(fifo.data@ =~= ring_written(
            d0,
            total,
            (in_ & mask) as int,
            header(n as int, recsize as int),
        ));
    }
}

/// The length of the next record. Of an empty FIFO, what lies where it would be.
pub fn __kfifo_len_r(fifo: &__kfifo, recsize: usize) -> (n: u32)
    requires
        is_record_fifo(*fifo, recsize as int),
    ensures
        n == record_len(ring_bytes(fifo.bytes(), fifo.total(), fifo.start(), 2), recsize as int),
        recsize <= fifo.count() ==> n == record_len(fifo.contents(), recsize as int),
{
    kfifo_peek_n(fifo, recsize)
}

/// A record has been written behind the last one.
proof fn lemma_put_record(before: __kfifo, poked: __kfifo, after: __kfifo, recsize: u32, n: u32, src: Seq<u8>)
    requires
        before.wf(),
        before.element() == 1,
        recsize == 1 || recsize == 2,
        before.count() + recsize + n <= before.size(),
        src.len() == n,
        poked.in_ == before.in_,
        poked.out == before.out,
        poked.mask == before.mask,
        poked.esize == before.esize,
        poked.data@ == ring_written(
            before.data@,
            before.total(),
            (before.in_ & before.mask) * before.esize,
            header(n as int, recsize as int),
        ),
        after.out == before.out,
        after.mask == before.mask,
        after.esize == before.esize,
        after.in_ == before.in_.wrapping_add((n + recsize) as u32),
        after.data@ == ring_written(
            poked.data@,
            before.total(),
            (before.in_.wrapping_add(recsize) & before.mask) * before.esize,
            src,
        ),
    ensures
        after.wf(),
        after.count() == before.count() + recsize + n,
        after.contents() == before.contents() + header(n as int, recsize as int) + src,
{
    let h = header(n as int, recsize as int);
    let mid = __kfifo {
        in_: before.in_.wrapping_add(recsize),
        out: poked.out,
        mask: poked.mask,
        esize: poked.esize,
        data: poked.data,
    };
    before.lemma_wf();
    lemma_put(before, mid, 0, recsize, h);
    assert(h.take(recsize as int) =~= h);
    mid.lemma_wf();
    lemma_put(mid, after, 0, n, src);
    assert(src.take(n as int) =~= src);
}

/// Puts a record of `len` bytes into the FIFO. Returns its length, or 0 if there is no room.
pub fn __kfifo_in_r(fifo: &mut __kfifo, buf: &[u8], len: u32, recsize: usize) -> (r: u32)
    requires
        is_record_fifo(*old(fifo), recsize as int),
        len <= buf@.len(),
        len + recsize <= u32::MAX,
    ensures
        final(fifo).wf(),
        final(fifo).same_shape(*old(fifo)),
        ({
            let fits = old(fifo).count() + recsize + len <= old(fifo).size();
            &&& r == (if fits {
                len
            } else {
                0
            })
            &&& final(fifo).contents() == (if fits {
                old(fifo).contents() + header(len as int, recsize as int) + buf@.take(len as int)
            } else {
                old(fifo).contents()
            })
        }),
{
    let room = fifo.unused();
    let rs = recsize as u32;
    if len + rs > room {
        return 0;
    }
    kfifo_poke_n(fifo, len, recsize);
    let ghost poked = *fifo;
    let in_ = fifo.in_;
    kfifo_copy_in(fifo, buf, len, in_.wrapping_add(rs));
    fifo.in_ = in_.wrapping_add(len + rs);
    proof {
        lemma_put_record(*old(fifo), poked, *fifo, rs, len, buf@.take(len as int));
    }
    len
}

/// Copies the beginning of the record at the front out, and finds its length `n`.
fn kfifo_out_copy_r(fifo: &__kfifo, buf: &mut [u8], len: u32, recsize: usize, n: &mut u32) -> (r: u32)
    requires
        is_record_fifo(*fifo, recsize as int),
        fifo.count() > 0,
        holds_record(fifo.contents(), recsize as int),
        len <= old(buf)@.len(),
    ensures
        *final(n) == record_len(fifo.contents(), recsize as int),
        r == (if len > *final(n) {
            *final(n)
        } else {
            len
        }),
        final(buf)@ == fifo.contents().subrange(recsize as int, recsize + r) + old(buf)@.skip(
            r as int,
        ),
        recsize + *final(n) <= fifo.count(),
{
    proof {
        fifo.lemma_wf();
    }
    *n = kfifo_peek_n(fifo, recsize);
    let k = if len > *n {
        *n
    } else {
        len
    };
    let rs = recsize as u32;
    proof {
        fifo.lemma_position(rs);
        lemma_ring_part(
            fifo.data@,
            fifo.total(),
            fifo.start(),
            fifo.count(),
            recsize as int,
            recsize + k,
        );
    }
    kfifo_copy_out(fifo, buf, k, fifo.out.wrapping_add(rs));
    k
}

/// Copies up to `len` bytes of the record at the front out, and leaves it in the FIFO.
pub fn __kfifo_out_peek_r(fifo: &__kfifo, buf: &mut [u8], len: u32, recsize: usize) -> (r: u32)
    requires
        is_record_fifo(*fifo, recsize as int),
        holds_record(fifo.contents(), recsize as int),
        len <= old(buf)@.len(),
    ensures
        fifo.contents().len() == 0 ==> r == 0 && final(buf)@ == old(buf)@,
        fifo.contents().len() > 0 ==> {
            let n = record_len(fifo.contents(), recsize as int);
            &&& r == (if len > n {
                n
            } else {
                len as int
            })
            &&& final(buf)@ == fifo.contents().subrange(recsize as int, recsize + r) + old(
                buf,
            )@.skip(r as int)
        },
{
    proof {
        fifo.lemma_wf();
    }
    if fifo.in_ == fifo.out {
        return 0;
    }
    let mut n: u32 = 0;
    kfifo_out_copy_r(fifo, buf, len, recsize, &mut n)
}

/// Finds the bytes of the record at the front: at most `n`. Returns how many there are, and the
/// free-running index of the first in `tail`.
pub fn __kfifo_out_linear_r(fifo: &__kfifo, tail: Option<&mut u32>, n: u32, recsize: usize) -> (r: u32)
    requires
        is_record_fifo(*fifo, recsize as int),
        holds_record(fifo.contents(), recsize as int),
    ensures
        fifo.contents().len() == 0 ==> r == 0,
        fifo.contents().len() > 0 ==> {
            let m = record_len(fifo.contents(), recsize as int);
            r == (if n > m {
                m
            } else {
                n as int
            })
        },
        tail matches Some(t) ==> *final(t) == (if fifo.contents().len() == 0 {
            *t
        } else {
            fifo.out_index().wrapping_add(recsize as u32)
        }),
{
    proof {
        fifo.lemma_wf();
    }
    if fifo.in_ == fifo.out {
        return 0;
    }
    if let Some(t) = tail {
        *t = fifo.out.wrapping_add(recsize as u32);
    }
    let m = kfifo_peek_n(fifo, recsize);
    if n > m {
        m
    } else {
        n
    }
}

impl __kfifo {
    /// The free-running index of the first element.
    pub closed spec fn out_index(self) -> u32 {
        self.out
    }
}

/// Takes the record at the front out of the FIFO, and copies up to `len` bytes of it.
pub fn __kfifo_out_r(fifo: &mut __kfifo, buf: &mut [u8], len: u32, recsize: usize) -> (r: u32)
    requires
        is_record_fifo(*old(fifo), recsize as int),
        holds_record(old(fifo).contents(), recsize as int),
        len <= old(buf)@.len(),
    ensures
        final(fifo).wf(),
        final(fifo).same_shape(*old(fifo)),
        old(fifo).contents().len() == 0 ==> r == 0 && final(buf)@ == old(buf)@
            && final(fifo).contents() == old(fifo).contents(),
        old(fifo).contents().len() > 0 ==> {
            let n = record_len(old(fifo).contents(), recsize as int);
            &&& r == (if len > n {
                n
            } else {
                len as int
            })
            &&& final(buf)@ == old(fifo).contents().subrange(recsize as int, recsize + r) + old(
                buf,
            )@.skip(r as int)
            &&& final(fifo).contents() == old(fifo).contents().skip(recsize + n)
        },
{
    proof {
        fifo.lemma_wf();
    }
    if fifo.in_ == fifo.out {
        return 0;
    }
    let mut n: u32 = 0;
    let r = kfifo_out_copy_r(fifo, buf, len, recsize, &mut n);
    fifo.out = fifo.out.wrapping_add(n + recsize as u32);
    proof {
        lemma_taken(*old(fifo), *fifo, (n + recsize as u32) as u32);
    }
    r
}

/// Drops the record at the front.
pub fn __kfifo_skip_r(fifo: &mut __kfifo, recsize: usize)
    requires
        is_record_fifo(*old(fifo), recsize as int),
        old(fifo).contents().len() > 0,
        holds_record(old(fifo).contents(), recsize as int),
    ensures
        final(fifo).wf(),
        final(fifo).same_shape(*old(fifo)),
        final(fifo).contents() == old(fifo).contents().skip(
            recsize + record_len(old(fifo).contents(), recsize as int),
        ),
{
    proof {
        fifo.lemma_wf();
    }
    let n = kfifo_peek_n(fifo, recsize);
    fifo.out = fifo.out.wrapping_add(n + recsize as u32);
    proof {
        lemma_taken(*old(fifo), *fifo, (n + recsize as u32) as u32);
    }
}

/// Puts a record of `len` bytes of user memory, of which `from` can be read, into the FIFO.
///
/// The length is limited to what `recsize` bytes can hold. Returns 0, or `-EFAULT` where not all of it
/// could be read; the FIFO then stays as it is. `copied` gets the length of the record, or 0.
pub fn __kfifo_from_user_r(
    fifo: &mut __kfifo,
    from: &[u8],
    len: usize,
    copied: &mut u32,
    recsize: usize,
) -> (err: i32)
    requires
        is_record_fifo(*old(fifo), recsize as int),
    ensures
        final(fifo).wf(),
        final(fifo).same_shape(*old(fifo)),
        ({
            let n = if len as u32 > max_record(recsize as int) {
                max_record(recsize as int)
            } else {
                (len as u32) as int
            };
            let fits = old(fifo).count() + recsize + n <= old(fifo).size();
            let readable = n <= from@.len();
            &&& err == (if fits && !readable {
                -EFAULT
            } else {
                0
            })
            &&& *final(copied) == (if fits && readable {
                n
            } else {
                0
            })
            &&& final(fifo).contents() == (if fits && readable {
                old(fifo).contents() + header(n, recsize as int) + from@.take(n)
            } else {
                old(fifo).contents()
            })
        }),
{
    let n = __kfifo_max_r(len as u32, recsize);
    let rs = recsize as u32;
    proof {
        fifo.lemma_wf();
    }
    if n + rs > fifo.unused() {
        *copied = 0;
        return 0;
    }
    kfifo_poke_n(fifo, n, recsize);
    let ghost poked = *fifo;
    let in_ = fifo.in_;
    let ret = kfifo_copy_from_user(fifo, from, n, in_.wrapping_add(rs), copied);
    proof {
        lemma_not_copied(n as int, 1, from@.len() as int);
    }
    if ret != 0 {
        *copied = 0;
        proof {
            assert(from@.take(from@.len() as int) =~= from@);
            lemma_unpublished(*old(fifo), poked, *fifo, rs, from@);
        }
        return -EFAULT;
    }
    fifo.in_ = in_.wrapping_add(n + rs);
    proof {
        lemma_put_record(*old(fifo), poked, *fifo, rs, n, from@.take(n as int));
    }
    0
}

/// What has been written behind the last element does not count before the index has moved.
proof fn lemma_unpublished(before: __kfifo, poked: __kfifo, after: __kfifo, recsize: u32, src: Seq<u8>)
    requires
        before.wf(),
        before.element() == 1,
        recsize == 1 || recsize == 2,
        before.count() + recsize + src.len() <= before.size(),
        poked.data@.len() == before.data@.len(),
        exists|h: Seq<u8>|
            h.len() == recsize && poked.data@ == #[trigger] ring_written(
                before.data@,
                before.total(),
                (before.in_ & before.mask) * before.esize,
                h,
            ),
        after.in_ == before.in_,
        after.out == before.out,
        after.mask == before.mask,
        after.esize == before.esize,
        after.data@ == ring_written(
            poked.data@,
            before.total(),
            (before.in_.wrapping_add(recsize) & before.mask) * before.esize,
            src,
        ),
    ensures
        after.contents() == before.contents(),
        after.wf(),
{
    before.lemma_wf();
    let c = before.count() as u32;
    let total = before.total();
    assert(before.out.wrapping_add(c) == before.in_);
    before.lemma_position(c);
    let k = (c + recsize) as u32;
    assert(before.out.wrapping_add(k) == before.in_.wrapping_add(recsize));
    before.lemma_position(k);
    let h = choose|h: Seq<u8>|
        h.len() == recsize && poked.data@ == #[trigger] ring_written(
            before.data@,
            before.total(),
            (before.in_ & before.mask) * before.esize,
            h,
        );
    lemma_ring_append(before.data@, total, before.start(), c as int, h);
    lemma_ring_append(poked.data@, total, before.start(), k as int, src);
    let r1 = ring_bytes(poked.data@, total, before.start(), k as int);
    let r2 = ring_bytes(after.data@, total, before.start(), k + src.len());
    assert(r1 == before.contents() + h);
    assert(r2 == r1 + src);
    lemma_ring_part(after.data@, total, before.start(), k + src.len(), 0, c as int);
    assert(after.contents() =~= r2.subrange(0, c as int));
    assert(after.contents() =~= before.contents());
}

/// Takes the record at the front out of the FIFO, and puts up to `len` bytes of it into user memory,
/// of which `to` can be written.
///
/// Returns 0, or `-EFAULT` where not all of it could be written; the record then stays in the FIFO.
/// `copied` gets the number of bytes, or 0.
pub fn __kfifo_to_user_r(
    fifo: &mut __kfifo,
    to: &mut [u8],
    len: usize,
    copied: &mut u32,
    recsize: usize,
) -> (err: i32)
    requires
        is_record_fifo(*old(fifo), recsize as int),
        holds_record(old(fifo).contents(), recsize as int),
    ensures
        final(fifo).wf(),
        final(fifo).same_shape(*old(fifo)),
        old(fifo).contents().len() == 0 ==> err == 0 && *final(copied) == 0 && final(to)@ == old(
            to,
        )@ && final(fifo).contents() == old(fifo).contents(),
        old(fifo).contents().len() > 0 ==> {
            let n = record_len(old(fifo).contents(), recsize as int);
            let k = if len > n {
                n
            } else {
                len as int
            };
            let there = old(to)@.len() as int;
            let m = if k <= there {
                k
            } else {
                there
            };
            &&& err == (if k > there {
                -EFAULT
            } else {
                0
            })
            &&& *final(copied) == (if k > there {
                0
            } else {
                k
            })
            &&& final(to)@ == old(fifo).contents().subrange(recsize as int, recsize + m) + old(
                to,
            )@.skip(m)
            &&& final(fifo).contents() == (if k > there {
                old(fifo).contents()
            } else {
                old(fifo).contents().skip(recsize + n)
            })
        },
{
    proof {
        fifo.lemma_wf();
    }
    if fifo.in_ == fifo.out {
        *copied = 0;
        return 0;
    }
    let rs = recsize as u32;
    let n = kfifo_peek_n(fifo, recsize);
    let k: u32 = if len > n as usize {
        n
    } else {
        len as u32
    };
    proof {
        fifo.lemma_position(rs);
        let there = to@.len() as int;
        let m = if k <= there {
            k as int
        } else {
            there
        };
        lemma_ring_part(
            fifo.data@,
            fifo.total(),
            fifo.start(),
            fifo.count(),
            recsize as int,
            recsize + m,
        );
        lemma_not_copied(k as int, 1, there);
    }
    let ret = kfifo_copy_to_user(fifo, to, k, fifo.out.wrapping_add(rs), copied);
    if ret != 0 {
        *copied = 0;
        return -EFAULT;
    }
    fifo.out = fifo.out.wrapping_add(n + rs);
    proof {
        lemma_taken(*old(fifo), *fifo, (n + rs) as u32);
    }
    0
}

/// Sets up a scatterlist, of at most `nents` entries, for a record of `len` bytes that is to be put
/// into the FIFO; none if there is no room.
pub fn __kfifo_dma_in_prepare_r(fifo: &__kfifo, nents: i32, len: u32, recsize: usize, dma: u64) -> (sg: Vec<
    SgEntry,
>)
    requires
        is_record_fifo(*fifo, recsize as int),
        nents > 0,
        dma == DMA_MAPPING_ERROR || dma + fifo.total() <= u64::MAX,
    ensures
        ({
            let n = if len > max_record(recsize as int) {
                max_record(recsize as int)
            } else {
                len as int
            };
            sg@ == (if fifo.count() + recsize + n <= fifo.size() {
                sg_entries(fifo.total(), fifo.end(recsize as int), n, nents as int, dma)
            } else {
                Seq::empty()
            })
        }),
{
    let n = __kfifo_max_r(len, recsize);
    let rs = recsize as u32;
    proof {
        fifo.lemma_wf();
    }
    if n + rs > fifo.unused() {
        return Vec::new();
    }
    proof {
        let k = (fifo.count() + recsize) as u32;
        assert(fifo.out.wrapping_add(k) == fifo.in_.wrapping_add(rs));
        fifo.lemma_position(k);
    }
    setup_sgl(fifo, nents, n, fifo.in_.wrapping_add(rs), dma)
}

/// Publishes a record of `len` bytes that has been put into the buffer behind the last one.
pub fn __kfifo_dma_in_finish_r(fifo: &mut __kfifo, len: u32, recsize: usize)
    requires
        is_record_fifo(*old(fifo), recsize as int),
        old(fifo).count() + recsize + (if len > max_record(recsize as int) {
            max_record(recsize as int)
        } else {
            len as int
        }) <= old(fifo).size(),
    ensures
        final(fifo).wf(),
        final(fifo).same_shape(*old(fifo)),
        ({
            let n = if len > max_record(recsize as int) {
                max_record(recsize as int)
            } else {
                len as int
            };
            final(fifo).contents() == old(fifo).contents() + header(n, recsize as int)
                + ring_bytes(
                old(fifo).bytes(),
                old(fifo).total(),
                old(fifo).end(recsize as int),
                n,
            )
        }),
{
    let n = __kfifo_max_r(len, recsize);
    let rs = recsize as u32;
    proof {
        fifo.lemma_wf();
    }
    kfifo_poke_n(fifo, n, recsize);
    let ghost poked = *fifo;
    fifo.in_ = fifo.in_.wrapping_add(n + rs);
    proof {
        let before = *old(fifo);
        let total = before.total();
        let c = before.count();
        let k = (c + recsize) as u32;
        assert(before.out.wrapping_add(k) == before.in_.wrapping_add(rs));
        before.lemma_position(k);
        let c32 = c as u32;
        assert(before.out.wrapping_add(c32) == before.in_);
        before.lemma_position(c32);
        let at = before.end(recsize as int);
        let src = ring_bytes(before.data@, total, at, n as int);
        assert(poked.data@ =~= ring_written(poked.data@, total, at, src));
        lemma_put_record(before, poked, *fifo, rs, n, src);
    }
}

/// Sets up a scatterlist, of at most `nents` entries, for `len` bytes of the record at the front;
/// none if the FIFO does not hold so much.
pub fn __kfifo_dma_out_prepare_r(fifo: &__kfifo, nents: i32, len: u32, recsize: usize, dma: u64) -> (sg: Vec<
    SgEntry,
>)
    requires
        is_record_fifo(*fifo, recsize as int),
        nents > 0,
        dma == DMA_MAPPING_ERROR || dma + fifo.total() <= u64::MAX,
    ensures
        ({
            let n = if len > max_record(recsize as int) {
                max_record(recsize as int)
            } else {
                len as int
            };
            &&& sg@ == (if recsize + n <= fifo.count() {
                sg_entries(
                    fifo.total(),
                    wrap(fifo.start() + recsize, fifo.total()),
                    n,
                    nents as int,
                    dma,
                )
            } else {
                Seq::empty()
            })
            &&& nents >= 2 && recsize + n <= fifo.count() ==> sg_bytes(fifo.bytes(), sg@)
                == fifo.contents().subrange(recsize as int, recsize + n)
        }),
{
    let n = __kfifo_max_r(len, recsize);
    let rs = recsize as u32;
    proof {
        fifo.lemma_wf();
    }
    if n + rs > fifo.len() {
        return Vec::new();
    }
    proof {
        fifo.lemma_position(rs);
        let at = wrap(fifo.start() + recsize, fifo.total());
        lemma_ring_part(
            fifo.data@,
            fifo.total(),
            fifo.start(),
            fifo.count(),
            recsize as int,
            recsize + n,
        );
        if nents >= 2 {
            law_two_entries_cover(fifo.data@, fifo.total(), at, n as int, nents as int, dma);
        }
    }
    setup_sgl(fifo, nents, n, fifo.out.wrapping_add(rs), dma)
}

/// What is put in comes out again, in order: where a FIFO holds `queued` and `bytes` are put in,
/// taking out as much as `queued` and then `bytes` gives them back and leaves nothing.
pub proof fn law_first_in_first_out(queued: Seq<u8>, bytes: Seq<u8>)
    ensures
        ({
            let all = queued + bytes;
            &&& all.take(queued.len() as int) == queued
            &&& all.skip(queued.len() as int).take(bytes.len() as int) == bytes
            &&& all.skip(queued.len() as int).skip(bytes.len() as int) == Seq::<u8>::empty()
        }),
{
    let all = queued + bytes;
    assert(all.take(queued.len() as int) =~= queued);
    assert(all.skip(queued.len() as int) =~= bytes);
    assert(bytes.take(bytes.len() as int) =~= bytes);
    assert(bytes.skip(bytes.len() as int) =~= Seq::<u8>::empty());
}

/// A record that was put in is found again with its length and its bytes, and what follows it is left
/// when it has been taken out.
pub proof fn law_record_comes_back(bytes: Seq<u8>, rest: Seq<u8>, recsize: int)
    requires
        recsize == 1 || recsize == 2,
        bytes.len() <= max_record(recsize),
    ensures
        ({
            let n = bytes.len() as int;
            let all = header(n, recsize) + bytes + rest;
            &&& holds_record(all, recsize)
            &&& record_len(all, recsize) == n
            &&& all.subrange(recsize, recsize + n) == bytes
            &&& all.skip(recsize + n) == rest
        }),
{
    let n = bytes.len() as int;
    let all = header(n, recsize) + bytes + rest;
    assert(all.subrange(recsize, recsize + n) =~= bytes);
    assert(all.skip(recsize + n) =~= rest);
}

/// What lies in a ring: the byte behind the last one of the buffer is the first one.
pub proof fn law_ring(data: Seq<u8>, total: int, start: int, n: int, j: int)
    requires
        0 <= start < total,
        0 <= j < n <= total,
    ensures
        ring_bytes(data, total, start, n).len() == n,
        ring_bytes(data, total, start, n)[j] == data[(start + j) % total],
{
    if start + j < total {
        vstd::arithmetic::div_mod::lemma_small_mod((start + j) as nat, total as nat);
    } else {
        vstd::arithmetic::div_mod::lemma_fundamental_div_mod_converse(
            start + j,
            total,
            1,
            start + j - total,
        );
    }
}

/// What is written into a ring is read from it, and no byte that lies elsewhere changes.
pub proof fn law_written_bytes_are_read(data: Seq<u8>, total: int, start: int, src: Seq<u8>, j: int)
    requires
        0 <= start < total <= data.len(),
        src.len() <= j < total || src.len() <= total && j == src.len(),
    ensures
        ({
            let w = ring_written(data, total, start, src);
            &&& w.len() == data.len()
            &&& ring_bytes(w, total, start, src.len() as int) == src
            &&& j < total ==> w[wrap(start + j, total)] == data[wrap(start + j, total)]
            &&& w.skip(total) == data.skip(total)
        }),
{
    let w = ring_written(data, total, start, src);
    assert(ring_bytes(w, total, start, src.len() as int) =~= src);
    assert(w.skip(total) =~= data.skip(total));
}

/// How many bytes, as whole elements, are copied: all that can be accessed, and none more.
pub proof fn law_whole_elements_are_copied(n: int, e: int, there: int)
    requires
        0 <= n,
        0 < e,
        0 <= there,
    ensures
        n * e <= there ==> not_copied(n, e, there) == 0,
        n * e > there ==> {
            let k = n - not_copied(n, e, there);
            0 <= k < n && k * e <= there < (k + 1) * e
        },
        not_copied(n, 0, there) == 0,
{
    assert(n * 0 == 0);
    if n * e > there {
        let m = n * e - there;
        law_rounded_up_quotient(m, e);
        let q = div_rounded_up(m, e);
        let k = n - q;
        assert(k * e == n * e - q * e) by (nonlinear_arith)
            requires
                k == n - q,
        ;
        assert((k + 1) * e == n * e - (q - 1) * e) by (nonlinear_arith)
            requires
                k == n - q,
        ;
        assert(k >= 0) by (nonlinear_arith)
            requires
                (q - 1) * e < m,
                m == n * e - there,
                there >= 0,
                e > 0,
                k == n - q,
        ;
        assert(q >= 1) by (nonlinear_arith)
            requires
                q * e >= m,
                m > 0,
                e > 0,
        ;
    }
}

/// A quotient that is rounded up is the smallest number of elements that cover the bytes.
pub proof fn law_rounded_up_quotient(n: int, e: int)
    requires
        0 < e,
        0 <= n,
    ensures
        div_rounded_up(n, e) * e >= n,
        (div_rounded_up(n, e) - 1) * e < n,
        div_rounded_up(n, 0) == 0,
{
    let q = div_rounded_up(n, e);
    vstd::arithmetic::div_mod::lemma_fundamental_div_mod(n + e - 1, e);
    let r = (n + e - 1) % e;
    assert(q * e >= n && (q - 1) * e < n) by (nonlinear_arith)
        requires
            n + e - 1 == e * q + r,
            0 <= r < e,
    ;
}

/// How many elements some bytes hold: as many as fit whole, but no more than the limit.
pub proof fn law_elements(len: int, e: int, limit: int)
    requires
        0 <= len,
        0 < e,
        0 <= limit,
    ensures
        0 <= elements(len, e, limit) <= limit,
        elements(len, e, limit) * e <= len,
        elements(len, e, limit) < limit ==> (elements(len, e, limit) + 1) * e > len,
        elements(len, 0, limit) == 0,
{
    let q = len / e;
    vstd::arithmetic::div_mod::lemma_fundamental_div_mod(len, e);
    let r = len % e;
    let k = elements(len, e, limit);
    assert(q >= 0 && q * e <= len && (q + 1) * e > len) by (nonlinear_arith)
        requires
            len == e * q + r,
            0 <= r < e,
            len >= 0,
    ;
    assert(k * e <= q * e) by (nonlinear_arith)
        requires
            k <= q,
            e > 0,
    ;
}

/// A power of two is a number that halving brings to one.
pub proof fn law_powers(k: nat, n: int)
    ensures
        is_power(vstd::arithmetic::power2::pow2(k) as int),
        n > 1 && is_power(n) ==> n % 2 == 0 && is_power(n / 2),
        !is_power(0),
        n > 1 && n % 2 == 1 ==> !is_power(n),
    decreases k,
{
    if k == 0 {
        vstd::arithmetic::power2::lemma2_to64();
    } else {
        law_powers((k - 1) as nat, n);
        vstd::arithmetic::power2::lemma_pow2_unfold(k);
        vstd::arithmetic::power2::lemma_pow2_pos((k - 1) as nat);
    }
}

/// The longest record is the largest number that its length bytes can hold.
pub proof fn law_longest_record(recsize: int)
    requires
        0 <= recsize <= 4,
    ensures
        max_record(recsize) + 1 == vstd::arithmetic::power::pow(256, recsize as nat),
{
    vstd::arithmetic::power::lemma_pow0(256);
    vstd::arithmetic::power::lemma_pow1(256);
    vstd::arithmetic::power::lemma_pow_adds(256, 1, 1);
    vstd::arithmetic::power::lemma_pow_adds(256, 2, 1);
    vstd::arithmetic::power::lemma_pow_adds(256, 3, 1);
}

/// The length of a record stands before it with its lowest byte first, and a length is read from the
/// same bytes.
pub proof fn law_header(len: int, s: Seq<u8>)
    requires
        0 <= len,
    ensures
        header(len, 1).len() == 1,
        header(len, 1)[0] == len % 256,
        header(len, 2).len() == 2,
        header(len, 2)[0] == len % 256,
        len < 0x1_0000 ==> header(len, 2)[1] == len / 256,
        s.len() >= 1 ==> record_len(s, 1) == s[0],
        s.len() >= 2 ==> record_len(s, 2) == s[0] + 256 * s[1],
{
}

/// With no entry nothing is covered, and with one the bytes up to the end of the buffer.
pub proof fn law_few_entries_cover(data: Seq<u8>, total: int, at: int, n: int, dma: u64)
    requires
        0 <= at < total <= data.len(),
        total <= u32::MAX,
        0 <= n <= total,
    ensures
        sg_entries(total, at, n, 0, dma).len() == 0,
        sg_bytes(data, sg_entries(total, at, n, 1, dma)) == ring_bytes(
            data,
            total,
            at,
            if n <= total - at {
                n
            } else {
                total - at
            },
        ),
{
    let first = if n <= total - at {
        n
    } else {
        total - at
    };
    let sg = sg_entries(total, at, n, 1, dma);
    if first > 0 {
        assert(sg =~= seq![sg_entry(at, first, dma)]);
        assert(sg.drop_last() =~= Seq::<SgEntry>::empty());
        assert(sg_bytes(data, sg.drop_last()) =~= Seq::<u8>::empty());
        assert(sg_bytes(data, sg) =~= ring_bytes(data, total, at, first));
    } else {
        assert(sg =~= Seq::<SgEntry>::empty());
        assert(sg_bytes(data, sg) =~= ring_bytes(data, total, at, first));
    }
}

/// A piece of a buffer that is mapped has the bus address of the buffer and as many bytes more as it
/// lies behind its beginning; where nothing is mapped it has none.
pub proof fn law_bus_addresses(total: int, at: int, n: int, nents: int, dma: u64, i: int)
    requires
        0 <= at < total <= u32::MAX,
        0 <= n <= total,
        0 <= i < sg_entries(total, at, n, nents, dma).len(),
        dma == 0xffff_ffff_ffff_ffff || dma + total <= u64::MAX,
    ensures
        ({
            let e = sg_entries(total, at, n, nents, dma)[i];
            &&& dma == 0xffff_ffff_ffff_ffff ==> e.dma is None
            &&& dma != 0xffff_ffff_ffff_ffff ==> e.dma is Some && e.dma->0 == dma + e.offset
            &&& e.len > 0
            &&& e.offset + e.len <= total
        }),
{
}

impl __kfifo {
    /// A FIFO holds the bytes of its buffer from the first element on, as many as its elements have.
    pub proof fn law_contents(self, j: int)
        requires
            self.wf(),
            0 <= j < self.count() * self.element(),
        ensures
            self.contents().len() == self.count() * self.element(),
            0 <= self.start() < self.total(),
            self.contents()[j] == self.bytes()[(self.start() + j) % self.total()],
            0 <= self.count() <= self.size(),
    {
        self.lemma_wf();
        law_ring(self.bytes(), self.total(), self.start(), self.count() * self.element(), j);
    }
}

/// Elements that are put into an empty FIFO come out again in order, as many as were put in, and leave it
/// empty.
pub proof fn law_in_then_out(
    put: &mut __kfifo,
    buf: &[u8],
    len: u32,
    r: u32,
    take: &mut __kfifo,
    out: &mut [u8],
    q: u32,
)
    requires
        old(put).wf(),
        old(put).count() == 0,
        len * old(put).element() <= buf@.len(),
        call_ensures(__kfifo_in, (put, buf, len), r),
        *old(take) == *final(put),
        call_ensures(__kfifo_out, (take, out, len), q),
    ensures
        r == if len <= old(put).size() {
            len as int
        } else {
            old(put).size()
        },
        q == r,
        final(out)@.take(r * old(put).element()) == buf@.take(r * old(put).element()),
        final(take).count() == 0,
        final(take).size() == old(put).size(),
{
    old(put).lemma_wf();
    final(put).lemma_wf();
    let e = old(put).element();
    let k = r * e;
    assert(k <= len * e) by (nonlinear_arith)
        requires
            k == r * e,
            r <= len,
            0 <= e,
    ;
    assert(0 <= k) by (nonlinear_arith)
        requires
            k == r * e,
            0 <= r,
            0 <= e,
    ;
    assert(old(put).contents().len() == 0) by {
        assert(0 * e == 0);
    }
    assert(final(put).contents() =~= buf@.take(k));
    assert(final(put).contents().take(k) =~= buf@.take(k));
    assert(final(out)@.take(k) =~= buf@.take(k));
}

/// A record that is put into an empty FIFO comes out whole, or as much of it as is asked for, and leaves
/// the FIFO empty. Where it does not fit with its length, nothing is put in.
pub proof fn law_record_in_then_out(
    put: &mut __kfifo,
    buf: &[u8],
    len: u32,
    recsize: usize,
    r: u32,
    take: &mut __kfifo,
    out: &mut [u8],
    want: u32,
    q: u32,
)
    requires
        is_record_fifo(*old(put), recsize as int),
        old(put).count() == 0,
        len <= buf@.len(),
        recsize == 1 ==> len <= 0xff,
        recsize == 2 ==> len <= 0xffff,
        want <= old(out)@.len(),
        call_ensures(__kfifo_in_r, (put, buf, len, recsize), r),
        *old(take) == *final(put),
        call_ensures(__kfifo_out_r, (take, out, want, recsize), q),
    ensures
        r == if recsize + len <= old(put).size() {
            len as int
        } else {
            0
        },
        recsize + len <= old(put).size() ==> {
            &&& q == if want <= len {
                want
            } else {
                len
            }
            &&& final(out)@.take(q as int) == buf@.take(q as int)
        },
        recsize + len > old(put).size() ==> q == 0 && final(out)@ == old(out)@,
        final(take).contents().len() == 0,
{
    old(put).lemma_wf();
    let all = buf@.take(len as int);
    let none = Seq::<u8>::empty();
    assert(old(put).contents() =~= none);
    if recsize + len <= old(put).size() {
        law_record_comes_back(all, none, recsize as int);
        let h = header(len as int, recsize as int);
        assert(final(put).contents() =~= h + all + none);
        assert(final(put).contents().subrange(recsize as int, recsize + q) =~= buf@.take(q as int));
        assert(final(out)@.take(q as int) =~= buf@.take(q as int));
    }
}

/// A FIFO that is set up has room for the smallest power of two that the size asked for fits in, and holds
/// nothing.
pub proof fn law_set_up(fifo: &mut __kfifo, size: u32, esize: usize, buffer: Option<Vec<u8>>, r: i32)
    requires
        call_ensures(__kfifo_alloc_node, (fifo, size, esize, buffer), r),
    ensures
        size < 2 ==> r == -22,
        size >= 2 && buffer is None ==> r == -12,
        size >= 2 && buffer is Some ==> r == 0,
        r == 0 ==> size <= final(fifo).size() < 2 * size && is_power(final(fifo).size()),
        r == 0 ==> final(fifo).element() == esize,
        final(fifo).count() == 0,
{
    law_rounding(size as int);
}

impl __kfifo {
    /// Elements are put in behind the last one, and behind the end of the buffer at its beginning.
    pub proof fn law_end(self, gap: int)
        requires
            self.wf(),
            self.element() > 0,
            0 <= gap,
            self.count() + gap <= self.size(),
        ensures
            self.end(gap) == (self.start() + (self.count() + gap) * self.element()) % self.total(),
    {
        self.lemma_wf();
        let e = self.element();
        let k = self.count() + gap;
        let s = self.size();
        assert(0 <= k * e <= s * e && s * e > 0) by (nonlinear_arith)
            requires
                0 <= k <= s,
                0 < e,
                0 < s,
        ;
        let x = self.start() + k * e;
        if x < self.total() {
            vstd::arithmetic::div_mod::lemma_small_mod(x as nat, self.total() as nat);
        } else {
            vstd::arithmetic::div_mod::lemma_fundamental_div_mod_converse(
                x,
                self.total(),
                1,
                x - self.total(),
            );
        }
    }
}

/// Bytes of user memory, all of which can be read, are put in as whole elements, as many as there is room
/// for, behind what the FIFO holds.
pub proof fn law_from_user(fifo: &mut __kfifo, from: &[u8], len: usize, copied: &mut u32, err: i32)
    requires
        old(fifo).wf(),
        old(fifo).element() > 0,
        len <= from@.len(),
        call_ensures(__kfifo_from_user, (fifo, from, len, copied), err),
    ensures
        err == 0,
        *final(copied) <= len,
        *final(copied) as int % old(fifo).element() == 0,
        *final(copied) + old(fifo).element() > len || final(fifo).count() == final(fifo).size(),
        final(fifo).contents() == old(fifo).contents() + from@.take(*final(copied) as int),
        final(fifo).count() * old(fifo).element() == old(fifo).count() * old(fifo).element()
            + *final(copied),
{
    let e = old(fifo).element();
    let room = old(fifo).size() - old(fifo).count();
    old(fifo).lemma_wf();
    law_elements(len as int, e, room);
    let n = elements(len as int, e, room);
    law_whole_elements_are_copied(n, e, from@.len() as int);
    vstd::arithmetic::div_mod::lemma_mod_multiples_basic(n, e);
    assert((n + 1) * e == n * e + e) by (nonlinear_arith);
    let c = old(fifo).count();
    assert((c + n) * e == c * e + n * e) by (nonlinear_arith);
}

/// The oldest elements are taken out to user memory, all of which can be written, as many as the bytes
/// hold whole.
pub proof fn law_to_user(fifo: &mut __kfifo, to: &mut [u8], len: usize, copied: &mut u32, err: i32)
    requires
        old(fifo).wf(),
        old(fifo).element() > 0,
        len <= old(to)@.len(),
        call_ensures(__kfifo_to_user, (fifo, to, len, copied), err),
    ensures
        err == 0,
        *final(copied) <= len,
        *final(copied) as int % old(fifo).element() == 0,
        *final(copied) + old(fifo).element() > len || final(fifo).count() == 0,
        old(fifo).contents() == final(to)@.take(*final(copied) as int) + final(fifo).contents(),
        final(to)@.skip(*final(copied) as int) == old(to)@.skip(*final(copied) as int),
{
    let e = old(fifo).element();
    let c = old(fifo).count();
    old(fifo).lemma_wf();
    law_elements(len as int, e, c);
    let n = elements(len as int, e, c);
    law_whole_elements_are_copied(n, e, old(to)@.len() as int);
    vstd::arithmetic::div_mod::lemma_mod_multiples_basic(n, e);
    assert((n + 1) * e == n * e + e) by (nonlinear_arith);
    assert(0 <= n * e <= c * e) by (nonlinear_arith)
        requires
            0 <= n <= c,
            0 < e,
    ;
    let all = old(fifo).contents();
    assert(final(to)@.take(n * e) =~= all.take(n * e));
    assert(all =~= all.take(n * e) + all.skip(n * e));
    assert(final(to)@.skip(n * e) =~= old(to)@.skip(n * e));
}

/// A length is limited to what its bytes can hold.
pub proof fn law_max_r(len: u32, recsize: usize, r: u32)
    requires
        recsize <= 4,
        call_ensures(__kfifo_max_r, (len, recsize), r),
    ensures
        r <= len,
        r < vstd::arithmetic::power::pow(256, recsize as nat),
        len < vstd::arithmetic::power::pow(256, recsize as nat) ==> r == len,
        len >= vstd::arithmetic::power::pow(256, recsize as nat) ==> r + 1
            == vstd::arithmetic::power::pow(256, recsize as nat),
{
    law_longest_record(recsize as int);
}

/// Looking at the oldest elements gives what taking them out gives.
pub proof fn law_peek_gives_what_out_gives(
    fifo: &__kfifo,
    a: &mut [u8],
    len: u32,
    r: u32,
    taken: &mut __kfifo,
    b: &mut [u8],
    q: u32,
)
    requires
        fifo.wf(),
        len * fifo.element() <= old(a)@.len(),
        old(a)@ == old(b)@,
        *old(taken) == *fifo,
        call_ensures(__kfifo_out_peek, (fifo, a, len), r),
        call_ensures(__kfifo_out, (taken, b, len), q),
    ensures
        r == q,
        final(a)@ == final(b)@,
        final(taken).count() == fifo.count() - r,
{
}

/// The next record has the length that is told, looking at it gives what taking it out gives, and dropping
/// it leaves what taking it out leaves.
pub proof fn law_next_record(
    fifo: &__kfifo,
    recsize: usize,
    len: u32,
    n: u32,
    a: &mut [u8],
    r: u32,
    taken: &mut __kfifo,
    b: &mut [u8],
    q: u32,
    dropped: &mut __kfifo,
)
    requires
        is_record_fifo(*fifo, recsize as int),
        fifo.contents().len() > 0,
        holds_record(fifo.contents(), recsize as int),
        old(a)@ == old(b)@,
        len <= old(a)@.len(),
        *old(taken) == *fifo,
        *old(dropped) == *fifo,
        call_ensures(__kfifo_len_r, (fifo, recsize), n),
        call_ensures(__kfifo_out_peek_r, (fifo, a, len, recsize), r),
        call_ensures(__kfifo_out_r, (taken, b, len, recsize), q),
        call_ensures(__kfifo_skip_r, (dropped, recsize), ()),
    ensures
        r == q,
        r == if len <= n {
            len
        } else {
            n
        },
        final(a)@ == final(b)@,
        final(taken).contents() == final(dropped).contents(),
        final(taken).contents().len() + recsize + n == fifo.contents().len(),
{
    fifo.lemma_wf();
}

} // verus!
