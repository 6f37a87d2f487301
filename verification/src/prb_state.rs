//! The states of the printk ring buffer.
//!
//! Sequence numbers and positions do not wrap around here. A record is looked up by its sequence
//! number, whether or not its descriptor has been recycled.

use vstd::prelude::*;

#[allow(unused_imports)]
use crate::prb_model::{id_of, ids, lemma_distinct, lemma_offset, ring_size, words};
#[allow(unused_imports)]
use crate::printk_ringbuffer::PrintkInfo;

verus! {

/// A record is being written.
pub const RESERVED: i32 = 0;

/// A record has been written, and can be reopened while it is the newest.
pub const COMMITTED: i32 = 1;

/// A record is readable for good.
pub const FINALIZED: i32 = 2;

/// The descriptor of a record can be recycled: its text is gone.
pub const REUSABLE: i32 = 3;

/// A record is not there, or not there yet.
pub const EINVAL: i32 = -22;

/// A record has been lost.
pub const ENOENT: i32 = -2;

/// A block of the data ring: the positions from `b` up to `e`.
pub ghost struct Blk {
    pub b: int,
    pub e: int,
}

/// Where the text of a record is.
pub ghost enum Place {
    /// It has not been decided yet.
    Unset,
    /// There was no room for it.
    Failed,
    /// It is empty.
    Empty,
    /// In a block.
    At { blk: Blk },
}

/// A record.
pub ghost struct Rec {
    pub st: i32,
    pub place: Place,
    pub info: PrintkInfo,
}

/// Where the text of a block begins: behind the ID, which is at the beginning of the block, or at the
/// beginning of the ring if the block does not fit before its end.
pub open spec fn text_start(blk: Blk, d: int) -> int {
    if blk.b / d == (blk.e - 1) / d {
        blk.b + 8
    } else {
        (blk.e - 1) / d * d + 8
    }
}

/// Whether a block has a possible position. A block goes round the end of the ring only if it does not
/// fit before it.
pub open spec fn blk_ok(blk: Blk, d: int) -> bool {
    &&& blk.b % 8 == 0
    &&& blk.e % 8 == 0
    &&& blk.b < blk.e <= blk.b + d
    &&& blk.b / d == (blk.e - 1) / d || blk.b / d + 1 == (blk.e - 1) / d
    &&& text_start(blk, d) + 8 <= blk.e <= text_start(blk, d) - 8 + d / 2
    &&& blk.b / d != (blk.e - 1) / d ==> text_start(blk, d) - 8 - blk.b < blk.e - (text_start(blk, d)
        - 8)
}

/// The end of a block that begins at `b` and takes `size` bytes: if they do not fit before the end of
/// the ring, they are taken from its beginning.
pub open spec fn block_end(b: int, size: int, d: int) -> int {
    if b / d == (b + size - 1) / d {
        b + size
    } else {
        (b + size) / d * d + size
    }
}

/// The size of a block for a text of `size` bytes: the ID, and the text up to a whole number of words.
pub open spec fn blk_size(size: int) -> int {
    8 + (size + 7) / 8 * 8
}

/// Whether a text of `size` bytes can be stored in a ring: its block takes at most half of it.
pub open spec fn fits_in(d: int, size: int) -> bool {
    size == 0 || blk_size(size) <= d / 2
}

/// The bytes of a word, from the lowest on.
pub open spec fn word_byte(x: u64, k: int) -> u8 {
    if k == 0 {
        (x % 0x100) as u8
    } else if k == 1 {
        (x / 0x100 % 0x100) as u8
    } else if k == 2 {
        (x / 0x1_0000 % 0x100) as u8
    } else if k == 3 {
        (x / 0x100_0000 % 0x100) as u8
    } else if k == 4 {
        (x / 0x1_0000_0000 % 0x100) as u8
    } else if k == 5 {
        (x / 0x100_0000_0000 % 0x100) as u8
    } else if k == 6 {
        (x / 0x1_0000_0000_0000 % 0x100) as u8
    } else {
        (x / 0x100_0000_0000_0000) as u8
    }
}

/// Whether the word `x` is stored at position `p` of the ring.
pub open spec fn stored(data: Seq<u8>, d: int, p: int, x: u64) -> bool {
    forall|k: int| 0 <= k < 8 ==> #[trigger] data[(p + k) % d] == word_byte(x, k)
}

/// Whether the ID of a record is at the beginning of its block, and before its text.
pub open spec fn marks(data: Seq<u8>, d: int, blk: Blk, id: u64) -> bool {
    stored(data, d, blk.b, id) && stored(data, d, text_start(blk, d) - 8, id)
}

/// A state of the ring buffer.
#[verifier::ext_equal]
pub ghost struct Prb {
    /// The number of descriptors.
    pub n: int,
    /// The size of the data ring.
    pub d: int,
    pub data: Seq<u8>,
    /// The records, by sequence number.
    pub recs: Map<int, Rec>,
    /// The sequence number of the newest record.
    pub h: int,
    /// The sequence number of the oldest record.
    pub t: int,
    /// The end of the newest block.
    pub dh: int,
    /// The beginning of the oldest block.
    pub dt: int,
    /// The last record that was seen to be readable, or 0.
    pub lf: int,
    /// How many records were refused for want of a descriptor.
    pub fail: int,
    /// Whether readers pass over records that are being written.
    pub panic: bool,
}

impl Prb {
    pub open spec fn st(self, s: int) -> i32 {
        self.recs[s].st
    }

    pub open spec fn place(self, s: int) -> Place {
        self.recs[s].place
    }

    pub open spec fn info(self, s: int) -> PrintkInfo {
        self.recs[s].info
    }

    /// Whether a record has a descriptor.
    pub open spec fn in_window(self, s: int) -> bool {
        -1 <= s && self.h - self.n < s <= self.h
    }

    /// Whether a record has a block.
    pub open spec fn has(self, s: int) -> bool {
        self.place(s) is At
    }

    pub open spec fn blk(self, s: int) -> Blk {
        self.place(s)->blk
    }

    /// Whether the block of a record has not been given up.
    pub open spec fn live(self, s: int) -> bool {
        self.has(s) && self.blk(s).b >= self.dt
    }

    /// Whether the live blocks of the records from `s` on follow one another from `p` on, up to the
    /// newest.
    pub open spec fn contig(self, s: int, p: int) -> bool
        decreases self.h - s + 1,
    {
        if s > self.h {
            p == self.dh
        } else if self.live(s) {
            self.blk(s).b == p && self.contig(s + 1, self.blk(s).e)
        } else {
            self.contig(s + 1, p)
        }
    }

    /// Where the block of the newest record begins, or would begin.
    pub open spec fn top(self) -> int {
        if self.has(self.h) {
            self.blk(self.h).b
        } else {
            self.dh
        }
    }

    pub open spec fn shape_ok(self) -> bool {
        &&& ring_size(self.n)
        &&& ring_size(self.d)
        &&& self.d % 8 == 0
        &&& self.data.len() == self.d
        &&& -1 <= self.t <= self.h
        &&& self.h - self.t < self.n
        &&& self.h < words() - 1
        &&& forall|s: int| self.recs.contains_key(s)
        &&& 0 <= self.lf
        &&& self.lf > 0 ==> self.lf <= self.h && (self.in_window(self.lf) ==> self.st(self.lf)
            >= FINALIZED)
    }

    /// What holds of the state of a record.
    pub open spec fn st_ok(self, s: int) -> bool {
        &&& RESERVED <= self.st(s) <= REUSABLE
        &&& s < self.t ==> self.st(s) == REUSABLE
        &&& s == self.t ==> self.st(s) >= FINALIZED
        &&& self.st(s) == COMMITTED ==> s == self.h || (s == self.h - 1 && self.place(
            self.h,
        ) is Unset)
        &&& s == -1 ==> self.st(s) == REUSABLE && self.place(s) == Place::Failed
        &&& self.place(s) is Unset ==> s == self.h && self.st(s) == RESERVED
        &&& self.info(s).seq == (if s == -1 {
            0
        } else {
            s
        }) || self.place(s) is Unset
    }

    /// What holds of the block of a record.
    pub open spec fn blk_wf(self, s: int) -> bool {
        self.has(s) ==> {
            &&& blk_ok(self.blk(s), self.d)
            &&& !self.live(s) ==> self.blk(s).e <= self.dt && self.st(s) == REUSABLE
            &&& self.live(s) ==> s >= self.t && marks(self.data, self.d, self.blk(s), id_of(
                self.n,
                s,
            ))
            &&& s == self.h ==> self.blk(s).e == self.dh
            &&& s < self.h ==> self.top() - self.blk(s).e <= (self.h - s - 1) * self.d
        }
    }

    pub open spec fn wf(self) -> bool {
        &&& self.shape_ok()
        &&& forall|s: int| self.in_window(s) ==> #[trigger] self.st_ok(s)
        &&& forall|s: int| self.in_window(s) ==> #[trigger] self.blk_wf(s)
        &&& self.contig(self.t, self.dt)
        &&& self.dt <= self.dh <= self.dt + self.d
        &&& self.dt % 8 == 0
        &&& self.dh % 8 == 0
    }

    pub open spec fn with_st(self, s: int, v: i32) -> Prb {
        Prb { recs: self.recs.insert(s, Rec { st: v, ..self.recs[s] }), ..self }
    }

    pub open spec fn with_place(self, s: int, v: Place) -> Prb {
        Prb { recs: self.recs.insert(s, Rec { place: v, ..self.recs[s] }), ..self }
    }

    pub open spec fn with_info(self, s: int, v: PrintkInfo) -> Prb {
        Prb { recs: self.recs.insert(s, Rec { info: v, ..self.recs[s] }), ..self }
    }

    /// Where the blocks from `s` on lie.
    pub proof fn lemma_bounds(self, s: int, p: int, q: int)
        requires
            self.wf(),
            self.t <= s,
            self.contig(s, p),
        ensures
            p <= self.dh,
            s <= q <= self.h && self.live(q) ==> p <= self.blk(q).b && self.blk(q).e <= self.dh,
        decreases self.h - s + 1,
    {
        if s <= self.h {
            assert(self.blk_wf(s));
            if self.live(s) {
                self.lemma_bounds(s + 1, self.blk(s).e, q);
            } else {
                self.lemma_bounds(s + 1, p, q);
            }
        }
    }

    /// The blocks follow one another.
    pub proof fn lemma_order(self, s: int, p: int, q1: int, q2: int)
        requires
            self.wf(),
            self.t <= s <= q1 < q2 <= self.h,
            self.contig(s, p),
            self.live(q1),
            self.live(q2),
        ensures
            self.blk(q1).e <= self.blk(q2).b,
        decreases self.h - s,
    {
        assert(self.blk_wf(s));
        if s == q1 {
            self.lemma_bounds(s + 1, self.blk(s).e, q2);
        } else if self.live(s) {
            self.lemma_order(s + 1, self.blk(s).e, q1, q2);
        } else {
            self.lemma_order(s + 1, p, q1, q2);
        }
    }

    /// Blocks are found alike in states with the same live blocks.
    pub proof fn lemma_contig_same(self, r: Prb, s: int, p: int)
        requires
            self.contig(s, p),
            r.h == self.h,
            r.dh == self.dh,
            forall|k: int|
                s <= k <= self.h ==> #[trigger] r.live(k) == self.live(k) && (self.live(k)
                    ==> r.blk(k) == self.blk(k)),
        ensures
            r.contig(s, p),
        decreases self.h - s + 1,
    {
        if s <= self.h {
            assert(r.live(s) == self.live(s));
            if self.live(s) {
                self.lemma_contig_same(r, s + 1, self.blk(s).e);
            } else {
                self.lemma_contig_same(r, s + 1, p);
            }
        }
    }

    /// The state of a record can change.
    pub proof fn lemma_with_st(self, s: int, v: i32)
        requires
            self.wf(),
            self.in_window(s),
            RESERVED <= v <= REUSABLE,
            s < self.t ==> v == REUSABLE,
            s == self.t ==> v >= FINALIZED,
            v == COMMITTED ==> s == self.h || (s == self.h - 1 && self.place(self.h) is Unset),
            s == -1 ==> v == REUSABLE,
            self.place(s) is Unset ==> v == RESERVED,
            self.has(s) && !self.live(s) ==> v == REUSABLE,
            s == self.lf && self.lf > 0 ==> v >= FINALIZED,
        ensures
            self.with_st(s, v).wf(),
    {
        let r = self.with_st(s, v);
        assert forall|k: int| r.in_window(k) implies #[trigger] r.st_ok(k) by {
            assert(self.st_ok(k));
        }
        assert forall|k: int| r.in_window(k) implies #[trigger] r.blk_wf(k) by {
            assert(self.blk_wf(k));
        }
        self.lemma_contig_same(r, self.t, self.dt);
    }

    /// The metadata of a record can change.
    pub proof fn lemma_with_info(self, s: int, v: PrintkInfo)
        requires
            self.wf(),
            self.in_window(s),
            s >= 0,
            v.seq == s,
        ensures
            self.with_info(s, v).wf(),
    {
        let r = self.with_info(s, v);
        assert forall|k: int| r.in_window(k) implies #[trigger] r.st_ok(k) by {
            assert(self.st_ok(k));
        }
        assert forall|k: int| r.in_window(k) implies #[trigger] r.blk_wf(k) by {
            assert(self.blk_wf(k));
        }
        self.lemma_contig_same(r, self.t, self.dt);
    }

    /// The first record from `s` on with a live block.
    pub open spec fn next_live(self, s: int) -> int
        decreases self.h - s + 1,
    {
        if s > self.h || self.live(s) {
            s
        } else {
            self.next_live(s + 1)
        }
    }

    pub proof fn lemma_next_live(self, s: int, p: int)
        requires
            self.contig(s, p),
            s <= self.h + 1,
        ensures
            ({
                let q = self.next_live(s);
                &&& s <= q <= self.h + 1
                &&& q <= self.h ==> self.live(q) && self.blk(q).b == p && self.contig(
                    q + 1,
                    self.blk(q).e,
                )
                &&& q > self.h ==> p == self.dh
                &&& forall|k: int| s <= k < q ==> !#[trigger] self.live(k)
            }),
        decreases self.h - s + 1,
    {
        if s <= self.h && !self.live(s) {
            self.lemma_next_live(s + 1, p);
        }
    }

    /// The block of a record that is not needed any more can be given up.
    pub proof fn lemma_free(self, q: int)
        requires
            self.wf(),
            self.t <= q <= self.h,
            self.live(q),
            self.blk(q).b == self.dt,
            self.st(q) == REUSABLE,
        ensures
            (Prb { dt: self.blk(q).e, ..self }).wf(),
    {
        let p = self.blk(q).e;
        let r = Prb { dt: p, ..self };
        self.lemma_next_live(self.t, self.dt);
        let f = self.next_live(self.t);
        assert(self.blk_wf(q) && self.blk_wf(f));
        assert(self.live(f));
        if f < q {
            self.lemma_order(self.t, self.dt, f, q);
        }
        assert(f == q);
        assert forall|k: int| r.in_window(k) implies #[trigger] r.st_ok(k) by {
            assert(self.st_ok(k));
        }
        assert forall|k: int| self.t <= k <= self.h implies #[trigger] r.live(k) == (self.live(k)
            && k != q) by {
            assert(self.blk_wf(k));
            if self.live(k) && k > q {
                self.lemma_order(self.t, self.dt, q, k);
            }
        }
        assert forall|k: int| r.in_window(k) implies #[trigger] r.blk_wf(k) by {
            assert(self.blk_wf(k));
            if k >= self.t {
                assert(r.live(k) == (self.live(k) && k != q));
            }
        }
        self.lemma_bounds(self.t, self.dt, q);
        self.lemma_contig_same(r, q + 1, p);
        r.lemma_skip(self.t, q + 1, p);
    }

    /// Records without live blocks can be passed over.
    pub proof fn lemma_skip(self, s: int, q: int, p: int)
        requires
            s <= q <= self.h + 1,
            forall|k: int| s <= k < q ==> !#[trigger] self.live(k),
            self.contig(q, p),
        ensures
            self.contig(s, p),
        decreases q - s,
    {
        if s < q {
            assert(!self.live(s));
            self.lemma_skip(s + 1, q, p);
        }
    }
}

impl Prb {
    /// The first record from `s` on with a live block that begins at `target` or later, or that cannot
    /// be given up.
    pub open spec fn stop_from(self, s: int, target: int) -> int
        decreases self.h - s + 1,
    {
        if s > self.h {
            s
        } else if self.live(s) && (self.blk(s).b >= target || self.st(s) < FINALIZED) {
            s
        } else {
            self.stop_from(s + 1, target)
        }
    }

    /// The state with the records with live blocks before `q` made reusable.
    pub open spec fn marked(self, q: int) -> Prb {
        Prb {
            recs: Map::new(
                |s: int| true,
                |s: int|
                    if self.t <= s < q && self.live(s) {
                        Rec { st: REUSABLE, ..self.recs[s] }
                    } else {
                        self.recs[s]
                    },
            ),
            ..self
        }
    }

    /// Whether the data ring can be freed up to `target`.
    pub open spec fn can_push(self, target: int) -> bool {
        let q = self.stop_from(self.t, target);
        q > self.h || self.blk(q).b >= target
    }

    /// The state after an attempt to free the data ring up to `target`: records make room up to the
    /// first one that is still being written.
    pub open spec fn pushed(self, target: int) -> Prb {
        let q = self.stop_from(self.t, target);
        Prb {
            dt: if !self.can_push(target) {
                self.dt
            } else if q > self.h {
                self.dh
            } else {
                self.blk(q).b
            },
            ..self.marked(q)
        }
    }

    /// One more record makes room.
    pub proof fn lemma_mark(self, q: int, p: int, target: int)
        requires
            self.wf(),
            self.t <= q <= self.h + 1,
            self.contig(q, p),
            self.marked(q).wf(),
            (Prb { dt: p, ..self.marked(q) }).wf(),
            forall|k: int| self.t <= k < q && #[trigger] self.live(k) ==> self.blk(k).e <= p,
            self.dt <= p < target <= self.dh,
            self.stop_from(self.t, target) == self.stop_from(q, target),
        ensures
            ({
                let f = self.next_live(q);
                &&& q <= f <= self.h
                &&& self.live(f)
                &&& self.blk(f).b == p
                &&& self.marked(q).recs[f] == self.recs[f]
                &&& self.st(f) < FINALIZED ==> self.stop_from(self.t, target) == f
                    && self.marked(f) == self.marked(q)
                &&& self.st(f) >= FINALIZED ==> {
                    &&& self.marked(f + 1) == self.marked(q).with_st(f, REUSABLE)
                    &&& self.marked(f + 1).wf()
                    &&& (Prb { dt: self.blk(f).e, ..self.marked(f + 1) }).wf()
                    &&& self.contig(f + 1, self.blk(f).e)
                    &&& forall|k: int|
                        self.t <= k < f + 1 && #[trigger] self.live(k) ==> self.blk(k).e
                            <= self.blk(f).e
                    &&& self.stop_from(self.t, target) == self.stop_from(f + 1, target)
                }
            }),
    {
        self.lemma_next_live(q, p);
        let f = self.next_live(q);
        assert(f <= self.h);
        self.lemma_stop_skip(q, f, target);
        let m = self.marked(q);
        assert(self.marked(f) == m) by {
            assert forall|k: int| q <= k < f implies !#[trigger] self.live(k) by {}
            assert(self.marked(f).recs =~= m.recs);
        }
        if self.st(f) >= FINALIZED {
            assert(self.marked(f + 1).recs =~= m.with_st(f, REUSABLE).recs);
            assert(self.marked(f + 1) == m.with_st(f, REUSABLE));
            assert(self.blk_wf(f));
            m.lemma_with_st(f, REUSABLE);
            let g = Prb { dt: p, ..m };
            assert(g.live(f));
            g.lemma_with_st(f, REUSABLE);
            let g2 = g.with_st(f, REUSABLE);
            g2.lemma_free(f);
            assert(Prb { dt: self.blk(f).e, ..g2 } == Prb {
                dt: self.blk(f).e,
                ..self.marked(f + 1)
            });
        }
    }

    /// Records without live blocks stop nothing.
    pub proof fn lemma_stop_skip(self, s: int, q: int, target: int)
        requires
            s <= q <= self.h + 1,
            forall|k: int| s <= k < q ==> !#[trigger] self.live(k),
        ensures
            self.stop_from(s, target) == self.stop_from(q, target),
        decreases q - s,
    {
        if s < q {
            assert(!self.live(s));
            self.lemma_stop_skip(s + 1, q, target);
        }
    }

    /// Where freeing ends.
    pub proof fn lemma_mark_end(self, q: int, p: int, target: int)
        requires
            self.wf(),
            self.t <= q <= self.h + 1,
            self.contig(q, p),
            p >= target,
            self.stop_from(self.t, target) == self.stop_from(q, target),
        ensures
            self.can_push(target),
            self.pushed(target) == (Prb { dt: p, ..self.marked(q) }),
    {
        self.lemma_next_live(q, p);
        let f = self.next_live(q);
        self.lemma_stop_skip(q, f, target);
        assert(self.stop_from(f, target) == f);
        assert forall|k: int| q <= k < f implies !#[trigger] self.live(k) by {}
        assert(self.marked(f).recs =~= self.marked(q).recs);
    }

    /// Freeing keeps what the state of the ring buffer has to meet.
    pub proof fn lemma_pushed(self, target: int)
        requires
            self.wf(),
            target <= self.dh,
        ensures
            self.pushed(target).wf(),
            self.marked(self.stop_from(self.t, target)).wf(),
            self.can_push(target) ==> self.pushed(target).dt >= target,
    {
        assert(self.marked(self.t).recs =~= self.recs);
        assert(self.marked(self.t) == self);
        assert(Prb { dt: self.dt, ..self.marked(self.t) } == self);
        self.lemma_pushed_from(self.t, self.dt, target);
    }

    proof fn lemma_pushed_from(self, q: int, p: int, target: int)
        requires
            self.wf(),
            self.t <= q <= self.h + 1,
            self.contig(q, p),
            self.marked(q).wf(),
            (Prb { dt: p, ..self.marked(q) }).wf(),
            forall|k: int| self.t <= k < q && #[trigger] self.live(k) ==> self.blk(k).e <= p,
            self.dt <= p,
            target <= self.dh,
            self.stop_from(self.t, target) == self.stop_from(q, target),
        ensures
            self.pushed(target).wf(),
            self.marked(self.stop_from(self.t, target)).wf(),
            self.can_push(target) ==> self.pushed(target).dt >= target,
        decreases self.h - q + 1,
    {
        if p >= target {
            self.lemma_mark_end(q, p, target);
            self.lemma_next_live(q, p);
            let f = self.next_live(q);
            self.lemma_stop_skip(q, f, target);
            assert forall|k: int| q <= k < f implies !#[trigger] self.live(k) by {}
            assert(self.marked(f).recs =~= self.marked(q).recs);
        } else {
            self.lemma_mark(q, p, target);
            let f = self.next_live(q);
            if self.st(f) >= FINALIZED {
                assert(self.blk_wf(f));
                self.lemma_pushed_from(f + 1, self.blk(f).e, target);
            } else {
                assert(self.pushed(target) == self.marked(q));
            }
        }
    }

    /// The state with the oldest record given up.
    pub open spec fn tail_freed(self) -> Prb {
        Prb {
            dt: if self.live(self.t) {
                self.blk(self.t).e
            } else {
                self.dt
            },
            ..self.with_st(self.t, REUSABLE)
        }
    }

    /// Giving the oldest record up is freeing its block.
    pub proof fn lemma_tail_freed(self)
        requires
            self.wf(),
        ensures
            self.tail_freed().wf(),
            self.with_st(self.t, REUSABLE).wf(),
            self.has(self.t) ==> {
                let r = self.with_st(self.t, REUSABLE);
                let e = self.blk(self.t).e;
                &&& r.can_push(e)
                &&& r.pushed(e) == self.tail_freed()
                &&& e <= self.dh
                &&& self.dt - e <= 0x4000_0000_0000_0000
                &&& e - self.dt <= self.d
            },
    {
        let t = self.t;
        assert(self.st_ok(t) && self.blk_wf(t));
        self.lemma_with_st(t, REUSABLE);
        let r = self.with_st(t, REUSABLE);
        if self.has(t) {
            let e = self.blk(t).e;
            self.lemma_bounds(t, self.dt, t);
            if r.live(t) {
                assert(r.blk(t).b == r.dt);
                r.lemma_next_live(t + 1, e);
                let f = r.next_live(t + 1);
                r.lemma_stop_skip(t + 1, f, e);
                assert(r.stop_from(t, e) == r.stop_from(t + 1, e));
                assert(r.stop_from(f, e) == f);
                assert forall|k: int| t < k < f implies !#[trigger] r.live(k) by {}
                assert(r.marked(f).recs =~= r.recs);
                r.lemma_free(t);
            } else {
                r.lemma_next_live(t, r.dt);
                let f = r.next_live(t);
                r.lemma_stop_skip(t, f, e);
                assert(r.stop_from(f, e) == f);
                assert forall|k: int| t <= k < f implies !#[trigger] r.live(k) by {}
                assert(r.marked(f).recs =~= r.recs);
                self.lemma_near(t);
            }
        }
    }

    /// The blocks of records with descriptors are near one another.
    pub proof fn lemma_near(self, s: int)
        requires
            self.wf(),
            self.in_window(s),
            self.has(s),
        ensures
            self.dh - self.blk(s).e <= 0x4000_0000_0000_0000,
    {
        assert(self.blk_wf(s));
        let k = self.h - s;
        let d = self.d;
        if k > 0 {
            if self.has(self.h) {
                assert(self.blk_wf(self.h));
            }
            assert(self.dh - self.blk(s).e <= (k - 1) * d + d);
            assert((k - 1) * d + d <= 0x4000_0000_0000_0000) by (nonlinear_arith)
                requires
                    1 <= k <= 0x8000_0000,
                    0 <= d <= 0x8000_0000,
            ;
        }
    }

    /// The tail can be pushed past a record that has been given up.
    pub proof fn lemma_next_tail(self)
        requires
            self.wf(),
            self.t < self.h,
            self.st(self.t) == REUSABLE,
            !self.live(self.t),
            self.st(self.t + 1) >= FINALIZED,
        ensures
            (Prb { t: self.t + 1, ..self }).wf(),
    {
        let r = Prb { t: self.t + 1, ..self };
        assert forall|k: int| r.in_window(k) implies #[trigger] r.st_ok(k) by {
            assert(self.st_ok(k));
        }
        assert forall|k: int| r.in_window(k) implies #[trigger] r.blk_wf(k) by {
            assert(self.blk_wf(k));
        }
        self.lemma_contig_same(r, self.t + 1, self.dt);
    }

    /// The state with one more record, which is being written.
    pub open spec fn with_new(self, info: PrintkInfo) -> Prb {
        Prb {
            h: self.h + 1,
            recs: self.recs.insert(
                self.h + 1,
                Rec { st: RESERVED, place: Place::Unset, info },
            ),
            ..self
        }
    }

    pub proof fn lemma_with_new(self, info: PrintkInfo)
        requires
            self.wf(),
            self.h + 1 - self.t < self.n,
            self.h + 2 < words(),
            !(self.place(self.h) is Unset),
        ensures
            self.with_new(info).wf(),
    {
        let r = self.with_new(info);
        assert forall|k: int| r.in_window(k) implies #[trigger] r.st_ok(k) by {
            if k <= self.h {
                assert(self.st_ok(k));
            }
        }
        if self.has(self.h) {
            assert(self.blk_wf(self.h));
        }
        assert forall|k: int| r.in_window(k) implies #[trigger] r.blk_wf(k) by {
            if k <= self.h {
                assert(self.blk_wf(k));
                let j = self.h - k;
                let d = self.d;
                assert((j - 1) * d + d == j * d) by (nonlinear_arith);
            }
        }
        self.lemma_contig_extend(r, self.t, self.dt);
    }

    proof fn lemma_contig_extend(self, r: Prb, s: int, p: int)
        requires
            self.contig(s, p),
            s <= self.h + 1,
            r.h == self.h + 1,
            r.dh == self.dh,
            !r.live(r.h),
            forall|k: int|
                s <= k <= self.h ==> #[trigger] r.live(k) == self.live(k) && (self.live(k)
                    ==> r.blk(k) == self.blk(k)),
        ensures
            r.contig(s, p),
        decreases self.h - s + 1,
    {
        if s <= self.h {
            assert(r.live(s) == self.live(s));
            if self.live(s) {
                self.lemma_contig_extend(r, s + 1, self.blk(s).e);
            } else {
                self.lemma_contig_extend(r, s + 1, p);
            }
        } else {
            reveal_with_fuel(Prb::contig, 2);
        }
    }

    /// The state with no block for the newest record.
    pub proof fn lemma_with_dataless(self, v: Place)
        requires
            self.wf(),
            self.h >= 0,
            !self.has(self.h),
            v is Failed || v is Empty,
            self.info(self.h).seq == self.h,
            self.in_window(self.h - 1) ==> self.st(self.h - 1) != COMMITTED,
        ensures
            self.with_place(self.h, v).wf(),
    {
        let r = self.with_place(self.h, v);
        assert forall|k: int| r.in_window(k) implies #[trigger] r.st_ok(k) by {
            assert(self.st_ok(k));
        }
        assert forall|k: int| r.in_window(k) implies #[trigger] r.blk_wf(k) by {
            assert(self.blk_wf(k));
        }
        self.lemma_contig_same(r, self.t, self.dt);
    }

    /// The state with a block for the newest record, after the data ring has become `data`.
    pub open spec fn with_block(self, blk: Blk, data: Seq<u8>) -> Prb {
        Prb { dh: blk.e, data, ..self.with_place(self.h, Place::At { blk }) }
    }

    pub proof fn lemma_with_block(self, blk: Blk, data: Seq<u8>)
        requires
            self.wf(),
            self.h >= 0,
            self.st(self.h) == RESERVED,
            self.info(self.h).seq == self.h,
            self.in_window(self.h - 1) ==> self.st(self.h - 1) != COMMITTED,
            blk.b == self.top(),
            blk_ok(blk, self.d),
            self.dh <= blk.e <= self.dt + self.d,
            data.len() == self.d,
            forall|p: int|
                self.dt <= p < self.dh ==> #[trigger] data[p % self.d] == self.data[p % self.d],
            marks(data, self.d, blk, id_of(self.n, self.h)),
        ensures
            self.with_block(blk, data).wf(),
    {
        let h = self.h;
        let r = self.with_block(blk, data);
        assert(self.st_ok(h) && self.blk_wf(h));
        assert(self.t < h);
        assert forall|k: int| r.in_window(k) implies #[trigger] r.st_ok(k) by {
            assert(self.st_ok(k));
        }
        assert forall|k: int| r.in_window(k) implies #[trigger] r.blk_wf(k) by {
            assert(self.blk_wf(k));
            if k < h && self.live(k) {
                self.lemma_bounds(self.t, self.dt, k);
                lemma_marks_kept(self.data, data, self.d, self.blk(k), id_of(self.n, k), self.dt, self.dh);
            }
        }
        assert(blk.b >= self.dt);
        self.lemma_contig_last(r, self.t, self.dt);
    }

    /// A block for the newest record follows the others.
    proof fn lemma_contig_last(self, r: Prb, s: int, p: int)
        requires
            self.contig(s, p),
            s <= self.h,
            r.h == self.h,
            r.dh == r.blk(r.h).e,
            r.live(r.h),
            r.blk(r.h).b == (if self.live(self.h) {
                self.blk(self.h).b
            } else {
                self.dh
            }),
            forall|k: int|
                s <= k < self.h ==> #[trigger] r.live(k) == self.live(k) && (self.live(k)
                    ==> r.blk(k) == self.blk(k)),
        ensures
            r.contig(s, p),
        decreases self.h - s,
    {
        if s < self.h {
            assert(r.live(s) == self.live(s));
            assert forall|k: int| s + 1 <= k < self.h implies #[trigger] r.live(k) == self.live(k)
                && (self.live(k) ==> r.blk(k) == self.blk(k)) by {}
            if self.live(s) {
                self.lemma_contig_last(r, s + 1, self.blk(s).e);
            } else {
                self.lemma_contig_last(r, s + 1, p);
            }
        } else {
            reveal_with_fuel(Prb::contig, 2);
        }
    }
}

/// The IDs of a block stay where the data of its positions does.
pub proof fn lemma_marks_kept(
    data: Seq<u8>,
    data2: Seq<u8>,
    d: int,
    blk: Blk,
    id: u64,
    lo: int,
    hi: int,
)
    requires
        d > 0,
        blk_ok(blk, d),
        marks(data, d, blk, id),
        lo <= blk.b,
        blk.e <= hi,
        forall|p: int| lo <= p < hi ==> #[trigger] data2[p % d] == data[p % d],
    ensures
        marks(data2, d, blk, id),
{
    lemma_text_start(blk, d);
    assert forall|k: int| 0 <= k < 8 implies #[trigger] data2[(blk.b + k) % d] == word_byte(id, k) by {
        let p = blk.b + k;
        assert(data2[p % d] == data[p % d]);
    }
    assert forall|k: int| 0 <= k < 8 implies #[trigger] data2[(text_start(blk, d) - 8 + k) % d]
        == word_byte(id, k) by {
        let p = text_start(blk, d) - 8 + k;
        assert(data2[p % d] == data[p % d]);
    }
}

/// Where the text of a block begins.
pub proof fn lemma_text_start(blk: Blk, d: int)
    requires
        d > 0,
        blk_ok(blk, d),
    ensures
        blk.b + 8 <= text_start(blk, d),
        text_start(blk, d) + 8 <= blk.e,
{
    vstd::arithmetic::div_mod::lemma_fundamental_div_mod(blk.b, d);
    let q = blk.b / d;
    if q != (blk.e - 1) / d {
        assert((q + 1) * d == d * q + d) by (nonlinear_arith);
    }
}

impl Prb {
    /// How many bytes the block of a record has for its text.
    pub open spec fn avail(self, s: int) -> int {
        if self.has(s) {
            self.blk(s).e - text_start(self.blk(s), self.d)
        } else {
            0
        }
    }

    /// The bytes that the block of a record has for its text.
    pub open spec fn text(self, s: int) -> Seq<u8> {
        Seq::new(
            self.avail(s) as nat,
            |j: int| self.data[(text_start(self.blk(s), self.d) + j) % self.d],
        )
    }

    /// What an attempt to read a record gives, with its text if `data`.
    pub open spec fn status(self, s: int, data: bool) -> i32 {
        if s < 0 || !self.in_window(s) || self.st(s) < FINALIZED {
            EINVAL
        } else if self.st(s) == REUSABLE || self.place(s) is Failed {
            ENOENT
        } else if data && self.info(s).text_len > self.avail(s) {
            ENOENT
        } else {
            0
        }
    }

    /// The sequence number of the oldest record.
    pub open spec fn first(self) -> int {
        if self.t < 0 {
            0
        } else {
            self.t
        }
    }

    /// Whether a reader has to wait for a record.
    pub open spec fn halts(self, s: int, data: bool) -> bool {
        self.status(s, data) == EINVAL && !(self.panic && s < self.h)
    }

    /// The first record from `s` on that can be read or that a reader has to wait for.
    pub open spec fn seek(self, s: int, data: bool) -> int
        decreases self.h - s + 1,
    {
        if self.status(s, data) == 0 || self.halts(s, data) || s > self.h {
            s
        } else {
            self.seek(s + 1, data)
        }
    }

    /// Where a reader that asks for the record `s` or a later one ends up.
    pub open spec fn found(self, s: int, data: bool) -> int {
        self.seek(
            if s < self.first() {
                self.first()
            } else {
                s
            },
            data,
        )
    }

    /// Whether there is a record to read from `s` on.
    pub open spec fn readable(self, s: int, data: bool) -> bool {
        self.status(self.found(s, data), data) == 0
    }

    pub proof fn lemma_seek(self, s: int, data: bool)
        requires
            0 <= s,
        ensures
            s <= self.seek(s, data),
            self.status(self.seek(s, data), data) == 0 ==> self.seek(s, data) <= self.h,
            self.status(self.seek(s, data), data) == 0 || self.halts(self.seek(s, data), data),
            s <= self.h + 1 ==> self.seek(s, data) <= self.h + 1,
            forall|k: int|
                s <= k < self.seek(s, data) ==> #[trigger] self.status(k, data) != 0 && !self.halts(
                    k,
                    data,
                ),
        decreases self.h - s + 1,
    {
        if !(self.status(s, data) == 0 || self.halts(s, data) || s > self.h) {
            self.lemma_seek(s + 1, data);
        }
    }

    pub proof fn lemma_found(self, s: int, data: bool)
        requires
            self.wf(),
            0 <= s,
        ensures
            s <= self.found(s, data),
            self.readable(s, data) ==> self.found(s, data) <= self.h,
            self.readable(s, data) || self.halts(self.found(s, data), data),
    {
        self.lemma_seek(
            if s < self.first() {
                self.first()
            } else {
                s
            },
            data,
        );
    }

    /// The sequence number behind the last record that can be read from `s` on.
    pub open spec fn next_seq(self, s: int) -> int
        decreases self.h - s + 1,
    {
        let q = self.found(s, false);
        if self.readable(s, false) && s <= q <= self.h {
            self.next_seq(q + 1)
        } else {
            q
        }
    }

    /// The last record that can be read from `s` on, or `f`.
    pub open spec fn last_readable(self, s: int, f: int) -> int
        decreases self.h - s + 1,
    {
        let q = self.found(s, false);
        if self.readable(s, false) && s <= q <= self.h {
            self.last_readable(q + 1, q)
        } else {
            f
        }
    }

    pub proof fn lemma_last_readable(self, s: int, f: int)
        requires
            0 <= s,
            f < s,
        ensures
            self.last_readable(s, f) == f || {
                let l = self.last_readable(s, f);
                &&& s <= l <= self.h
                &&& self.status(l, false) == 0
            },
        decreases self.h - s + 1,
    {
        let q = self.found(s, false);
        if self.readable(s, false) && s <= q <= self.h {
            self.lemma_last_readable(q + 1, q);
        }
    }

    /// The state after the last readable record has been looked up again.
    pub open spec fn updated(self) -> Prb {
        Prb { lf: self.last_readable(self.lf + 1, self.lf), ..self }
    }

    /// Whether the sequence number of the next record can be told.
    pub open spec fn lf_ok(self) -> bool {
        self.lf == 0 && self.h + 1 < ids() || self.lf > 0 && self.in_window(self.lf)
    }

    pub proof fn lemma_updated(self)
        requires
            self.wf(),
        ensures
            self.updated().wf(),
    {
        self.lemma_last_readable(self.lf + 1, self.lf);
        let r = self.updated();
        assert forall|k: int| r.in_window(k) implies #[trigger] r.st_ok(k) by {
            assert(self.st_ok(k));
        }
        assert forall|k: int| r.in_window(k) implies #[trigger] r.blk_wf(k) by {
            assert(self.blk_wf(k));
        }
        self.lemma_contig_same(r, self.t, self.dt);
    }

    /// Whether there is a descriptor for a new record.
    pub open spec fn room(self) -> bool {
        self.h + 1 - self.n != self.t || self.st(self.t + 1) >= FINALIZED
    }

    /// The state with a descriptor for a new record.
    pub open spec fn recycled(self) -> Prb {
        if self.h + 1 - self.n == self.t {
            Prb { t: self.t + 1, ..self.tail_freed() }
        } else {
            self
        }
    }

    pub proof fn lemma_recycled(self)
        requires
            self.wf(),
            self.room(),
        ensures
            self.recycled().wf(),
            self.recycled().h + 1 - self.recycled().t < self.n,
    {
        if self.h + 1 - self.n == self.t {
            self.lemma_tail_freed();
            assert(self.blk_wf(self.t));
            self.tail_freed().lemma_next_tail();
        }
    }
}

/// Where a block ends that does not fit before the end of the ring.
#[verifier::spinoff_prover]
proof fn lemma_block_turns(b: int, size: int, d: int)
    requires
        d > 0,
        d % 8 == 0,
        16 <= size <= d / 2,
        b / d != (b + size - 1) / d,
    ensures
        ({
            let turn = (b / d + 1) * d;
            &&& turn % 8 == 0
            &&& b < turn < b + size
            &&& block_end(b, size, d) == turn + size
            &&& (turn + size - 1) / d == b / d + 1
        }),
{
    let q = b / d;
    let r = b % d;
    let k = d / 8;
    let turn = (q + 1) * d;
    vstd::arithmetic::div_mod::lemma_fundamental_div_mod(b, d);
    assert(turn == d * q + d && turn == d * (q + 1)) by (nonlinear_arith)
        requires
            turn == (q + 1) * d,
    ;
    assert(turn == 8 * ((q + 1) * k)) by (nonlinear_arith)
        requires
            turn == (q + 1) * d,
            d == 8 * k,
    ;
    if r + size - 1 < d {
        vstd::arithmetic::div_mod::lemma_fundamental_div_mod_converse(
            b + size - 1,
            d,
            q,
            r + size - 1,
        );
    }
    assert(r + size > d);
    vstd::arithmetic::div_mod::lemma_fundamental_div_mod_converse(
        b + size,
        d,
        q + 1,
        r + size - d,
    );
    vstd::arithmetic::div_mod::lemma_fundamental_div_mod_converse(turn + size - 1, d, q + 1, size - 1);
}

/// A block of an allowed size has a possible position.
#[verifier::spinoff_prover]
pub proof fn lemma_block_end(b: int, size: int, d: int)
    requires
        ring_size(d),
        d % 8 == 0,
        b % 8 == 0,
        size % 8 == 0,
        16 <= size <= d / 2,
    ensures
        ({
            let blk = Blk { b, e: block_end(b, size, d) };
            &&& blk_ok(blk, d)
            &&& blk.e - text_start(blk, d) + 8 == size
        }),
{
    if b / d != (b + size - 1) / d {
        lemma_block_turns(b, size, d);
    }
}

/// A block that ends no earlier than one for a text of `size` bytes would has room for the text.
#[verifier::spinoff_prover]
pub proof fn lemma_block_covers(blk: Blk, size: int, d: int)
    requires
        ring_size(d),
        d % 8 == 0,
        blk_ok(blk, d),
        0 < size,
        blk_size(size) <= d / 2,
        block_end(blk.b, blk_size(size), d) <= blk.e,
    ensures
        size <= blk.e - text_start(blk, d),
{
    let bs = blk_size(size);
    let q = blk.b / d;
    let turn = (q + 1) * d;
    lemma_block_end(blk.b, bs, d);
    vstd::arithmetic::div_mod::lemma_fundamental_div_mod(blk.b, d);
    vstd::arithmetic::div_mod::lemma_fundamental_div_mod(blk.e - 1, d);
    vstd::arithmetic::div_mod::lemma_fundamental_div_mod(blk.b + bs - 1, d);
    assert(turn == d * q + d && turn == d * (q + 1)) by (nonlinear_arith)
        requires
            turn == (q + 1) * d,
    ;
    if q != (blk.b + bs - 1) / d {
        let e = block_end(blk.b, bs, d);
        vstd::arithmetic::div_mod::lemma_fundamental_div_mod(e - 1, d);
        assert(e > turn) by {
            if (e - 1) / d == q {
                assert(text_start(Blk { b: blk.b, e }, d) == blk.b + 8);
                assert(e == blk.b + bs);
            }
        }
    }
}

/// The data with the word `x` at index `at`.
pub open spec fn put(data: Seq<u8>, at: int, x: u64) -> Seq<u8> {
    Seq::new(
        data.len(),
        |i: int|
            if at <= i < at + 8 {
                word_byte(x, i - at)
            } else {
                data[i]
            },
    )
}

/// The data with the ID of a record at the beginning of its block, and before its text.
pub open spec fn stamped(data: Seq<u8>, d: int, blk: Blk, id: u64) -> Seq<u8> {
    put(put(data, blk.b % d, id), (text_start(blk, d) - 8) % d, id)
}

/// The data with the block of a record grown up to `e`: where the block does not fit before the end of
/// the ring any more, the text moves to the beginning.
pub open spec fn regrown(data: Seq<u8>, d: int, blk: Blk, e: int, id: u64) -> Seq<u8> {
    if blk.b / d == (e - 1) / d {
        data
    } else if blk.b / d == (blk.e - 1) / d {
        Seq::new(
            data.len(),
            |i: int|
                if i < 8 {
                    word_byte(id, i)
                } else if i < blk.e - blk.b {
                    data[blk.b % d + i]
                } else {
                    data[i]
                },
        )
    } else {
        put(data, 0, id)
    }
}

impl Prb {
    /// How far the data ring has to be freed for a text of `size` bytes in a block that begins at `b`.
    pub open spec fn target(self, b: int, size: int) -> int {
        block_end(b, blk_size(size), self.d) - self.d
    }

    /// Whether there is room for a text of `size` bytes.
    pub open spec fn can_place(self, size: int) -> bool {
        size == 0 || self.can_push(self.target(self.dh, size))
    }

    /// The state with a place for a text of `size` bytes of the newest record.
    pub open spec fn placed(self, size: int) -> Prb {
        let r = self.pushed(self.target(self.dh, size));
        let blk = Blk { b: self.dh, e: block_end(self.dh, blk_size(size), self.d) };
        if size == 0 {
            self.with_place(self.h, Place::Empty)
        } else if self.can_place(size) {
            r.with_block(blk, stamped(self.data, self.d, blk, id_of(self.n, self.h)))
        } else {
            r.with_place(self.h, Place::Failed)
        }
    }

    /// What is needed of the newest record to give it a place.
    pub open spec fn writable(self) -> bool {
        &&& self.wf()
        &&& self.h >= 0
        &&& self.st(self.h) == RESERVED
        &&& self.info(self.h).seq == self.h
        &&& self.in_window(self.h - 1) ==> self.st(self.h - 1) != COMMITTED
    }

    pub proof fn lemma_placed(self, size: int)
        requires
            self.writable(),
            !self.has(self.h),
            0 <= size,
            fits_in(self.d, size),
        ensures
            self.placed(size).wf(),
            size > 0 ==> {
                let e = block_end(self.dh, blk_size(size), self.d);
                &&& self.dh < e <= self.dh + self.d
                &&& blk_ok(Blk { b: self.dh, e }, self.d)
                &&& e - text_start(Blk { b: self.dh, e }, self.d) + 8 == blk_size(size)
                &&& self.pushed(self.target(self.dh, size)).wf()
            },
    {
        if size == 0 {
            self.lemma_with_dataless(Place::Empty);
        } else {
            let bs = blk_size(size);
            let e = block_end(self.dh, bs, self.d);
            let blk = Blk { b: self.dh, e };
            lemma_block_end(self.dh, bs, self.d);
            self.lemma_pushed(e - self.d);
            let r = self.pushed(e - self.d);
            assert(self.st_ok(self.h));
            assert(r.recs[self.h] == self.recs[self.h]);
            if self.in_window(self.h - 1) {
                assert(r.st(self.h - 1) == self.st(self.h - 1) || r.st(self.h - 1) == REUSABLE);
            }
            if self.can_place(size) {
                let id = id_of(self.n, self.h);
                let data = stamped(self.data, self.d, blk, id);
                lemma_stamped(self.data, self.d, blk, id);
                assert forall|p: int| r.dt <= p < r.dh implies #[trigger] data[p % self.d]
                    == self.data[p % self.d] by {
                    lemma_stamped_elsewhere(self.data, self.d, blk, id, p);
                }
                r.lemma_with_block(blk, data);
            } else {
                r.lemma_with_dataless(Place::Failed);
            }
        }
    }

    /// Whether the block of the newest record can grow for a text of `size` bytes.
    pub open spec fn can_grow(self, size: int) -> bool {
        let b = self.blk(self.h).b;
        block_end(b, blk_size(size), self.d) <= self.dh || self.can_push(self.target(b, size))
    }

    /// The state with the block of the newest record grown for a text of `size` bytes.
    pub open spec fn grown(self, size: int) -> Prb {
        let blk = self.blk(self.h);
        let e = block_end(blk.b, blk_size(size), self.d);
        let r = self.pushed(self.target(blk.b, size));
        if e <= self.dh {
            self
        } else if self.can_grow(size) {
            r.with_block(
                Blk { b: blk.b, e },
                regrown(self.data, self.d, blk, e, id_of(self.n, self.h)),
            )
        } else {
            r
        }
    }

    pub proof fn lemma_grown(self, size: int)
        requires
            self.writable(),
            self.has(self.h),
            0 <= size,
            fits_in(self.d, size),
        ensures
            self.grown(size).wf(),
            ({
                let blk = self.blk(self.h);
                let e = block_end(blk.b, blk_size(size), self.d);
                &&& blk.b < e <= blk.b + self.d
                &&& blk_ok(blk, self.d)
                &&& blk.e == self.dh
                &&& self.live(self.h)
                &&& e > self.dh ==> {
                    &&& blk_ok(Blk { b: blk.b, e }, self.d)
                    &&& self.pushed(self.target(blk.b, size)).wf()
                    &&& self.pushed(self.target(blk.b, size)).recs[self.h] == self.recs[self.h]
                    &&& e - text_start(Blk { b: blk.b, e }, self.d) + 8 == blk_size(size)
                }
            }),
    {
        let bs = blk_size(size);
        let blk = self.blk(self.h);
        let e = block_end(blk.b, bs, self.d);
        let blk2 = Blk { b: blk.b, e };
        assert(self.st_ok(self.h) && self.blk_wf(self.h));
        if size == 0 {
            lemma_text_start(blk, self.d);
            lemma_at(blk.b, self.d);
            lemma_offset(blk.b, 7, self.d);
        } else {
            lemma_block_end(blk.b, bs, self.d);
        }
        if e > self.dh {
            self.lemma_pushed(e - self.d);
            let r = self.pushed(e - self.d);
            let q = self.stop_from(self.t, e - self.d);
            self.lemma_stop_bound(self.t, self.h, e - self.d);
            assert(q <= self.h);
            assert(r.recs[self.h] == self.recs[self.h]);
            if self.in_window(self.h - 1) {
                assert(r.st(self.h - 1) == self.st(self.h - 1) || r.st(self.h - 1) == REUSABLE);
            }
            if self.can_grow(size) {
                let id = id_of(self.n, self.h);
                let data = regrown(self.data, self.d, blk, e, id);
                assert(r.blk_wf(self.h));
                if blk.b / self.d == (blk.e - 1) / self.d && bs < blk.e - blk.b {
                    lemma_turn_order(blk.b, blk.b + bs - 1, blk.e - 1, self.d);
                }
                lemma_regrown(self.data, self.d, blk, e, id);
                assert forall|p: int| r.dt <= p < r.dh implies #[trigger] data[p % self.d]
                    == self.data[p % self.d] by {
                    lemma_regrown_elsewhere(self.data, self.d, blk, e, id, p);
                }
                r.lemma_with_block(blk2, data);
            }
        }
    }

    /// A record that is being written and has a block stops the freeing.
    proof fn lemma_stop_bound(self, s: int, q: int, target: int)
        requires
            self.live(q),
            self.st(q) < FINALIZED,
            s <= q <= self.h,
        ensures
            self.stop_from(s, target) <= q,
        decreases q - s,
    {
        if s < q {
            self.lemma_stop_bound(s + 1, q, target);
        }
    }
}

/// The IDs of a block are where they were put.
proof fn lemma_stamped(data: Seq<u8>, d: int, blk: Blk, id: u64)
    requires
        ring_size(d),
        d % 8 == 0,
        data.len() == d,
        blk_ok(blk, d),
    ensures
        marks(stamped(data, d, blk, id), d, blk, id),
        stamped(data, d, blk, id).len() == d,
{
    let ts = text_start(blk, d);
    let data2 = stamped(data, d, blk, id);
    lemma_at(blk.b, d);
    lemma_text_aligned(blk, d);
    lemma_at(ts - 8, d);
    assert forall|k: int| 0 <= k < 8 implies #[trigger] data2[(blk.b + k) % d] == word_byte(id, k) by {
        lemma_offset(blk.b, k, d);
        lemma_offset(ts - 8, 0, d);
    }
    assert forall|k: int| 0 <= k < 8 implies #[trigger] data2[(ts - 8 + k) % d] == word_byte(id, k) by {
        lemma_offset(ts - 8, k, d);
    }
}

/// Putting the IDs of a block changes nothing at the positions before it in the same turn.
proof fn lemma_stamped_elsewhere(data: Seq<u8>, d: int, blk: Blk, id: u64, p: int)
    requires
        ring_size(d),
        d % 8 == 0,
        data.len() == d,
        blk_ok(blk, d),
        blk.e - d <= p < blk.b,
    ensures
        stamped(data, d, blk, id)[p % d] == data[p % d],
{
    let ts = text_start(blk, d);
    lemma_at(blk.b, d);
    lemma_text_aligned(blk, d);
    lemma_at(ts - 8, d);
    let i = p % d;
    assert(0 <= i < d);
    if blk.b % d <= i < blk.b % d + 8 {
        let k = i - blk.b % d;
        lemma_offset(blk.b, k, d);
        lemma_distinct(blk.b + k, p, d);
    }
    if (ts - 8) % d <= i < (ts - 8) % d + 8 {
        let k = i - (ts - 8) % d;
        lemma_offset(ts - 8, k, d);
        lemma_distinct(ts - 8 + k, p, d);
    }
}

/// A word at a multiple of eight fits before the end of the ring.
pub proof fn lemma_at(p: int, d: int)
    requires
        p % 8 == 0,
        d % 8 == 0,
        d > 0,
    ensures
        p % d + 8 <= d,
        (p % d) % 8 == 0,
        0 <= p % d,
{
    let q = p / d;
    let e = d / 8;
    vstd::arithmetic::div_mod::lemma_fundamental_div_mod(p, d);
    assert(d * q == 8 * (e * q)) by (nonlinear_arith)
        requires
            d == 8 * e,
    ;
    assert(p % d == p - 8 * (e * q));
}

/// A text begins at a multiple of eight, behind its ID.
pub proof fn lemma_text_aligned(blk: Blk, d: int)
    requires
        ring_size(d),
        d % 8 == 0,
        blk_ok(blk, d),
    ensures
        text_start(blk, d) % 8 == 0,
        blk.b <= text_start(blk, d) - 8,
        text_start(blk, d) <= blk.e - 8,
        blk.b / d != (blk.e - 1) / d ==> {
            &&& (text_start(blk, d) - 8) % d == 0
            &&& text_start(blk, d) - 8 == (blk.b / d + 1) * d
            &&& blk.b + 8 <= text_start(blk, d) - 8
        },
{
    lemma_text_start(blk, d);
    lemma_at(blk.b, d);
    let q = blk.b / d;
    vstd::arithmetic::div_mod::lemma_fundamental_div_mod(blk.b, d);
    if q != (blk.e - 1) / d {
        let k = d / 8;
        assert((q + 1) * d == d * q + d) by (nonlinear_arith);
        assert((q + 1) * d == 8 * ((q + 1) * k)) by (nonlinear_arith)
            requires
                d == 8 * k,
        ;
        vstd::arithmetic::div_mod::lemma_fundamental_div_mod_converse((q + 1) * d, d, q + 1, 0);
    }
}

/// The IDs of a block that has grown are in place.
proof fn lemma_regrown(data: Seq<u8>, d: int, blk: Blk, e: int, id: u64)
    requires
        ring_size(d),
        d % 8 == 0,
        data.len() == d,
        blk_ok(blk, d),
        blk_ok(Blk { b: blk.b, e }, d),
        blk.e < e,
        blk.b / d == (blk.e - 1) / d && blk.b / d != (e - 1) / d ==> e - text_start(
            Blk { b: blk.b, e },
            d,
        ) + 8 >= blk.e - blk.b,
        marks(data, d, blk, id),
    ensures
        marks(regrown(data, d, blk, e, id), d, Blk { b: blk.b, e }, id),
        regrown(data, d, blk, e, id).len() == d,
{
    let blk2 = Blk { b: blk.b, e };
    let ts = text_start(blk2, d);
    let data2 = regrown(data, d, blk, e, id);
    lemma_at(blk.b, d);
    lemma_text_aligned(blk, d);
    lemma_text_aligned(blk2, d);
    lemma_at(ts - 8, d);
    if blk.b / d == (e - 1) / d {
        lemma_turn_order(blk.b, blk.e - 1, e - 1, d);
    } else {
        assert forall|k: int| 0 <= k < 8 implies #[trigger] data2[(ts - 8 + k) % d] == word_byte(
            id,
            k,
        ) by {
            lemma_offset(ts - 8, k, d);
        }
        assert forall|k: int| 0 <= k < 8 implies #[trigger] data2[(blk.b + k) % d] == word_byte(
            id,
            k,
        ) by {
            assert(data[(blk.b + k) % d] == word_byte(id, k));
            let p = blk.b + k;
            lemma_regrown_elsewhere(data, d, blk, e, id, p);
        }
    }
}

/// Turns of the ring follow one another.
proof fn lemma_turn_order(a: int, b: int, c: int, d: int)
    requires
        d > 0,
        a <= b <= c,
        a / d == c / d,
    ensures
        a / d == b / d,
{
    vstd::arithmetic::div_mod::lemma_div_is_ordered(a, b, d);
    vstd::arithmetic::div_mod::lemma_div_is_ordered(b, c, d);
}

/// Growing a block changes nothing before its end.
proof fn lemma_regrown_elsewhere(data: Seq<u8>, d: int, blk: Blk, e: int, id: u64, p: int)
    requires
        ring_size(d),
        d % 8 == 0,
        data.len() == d,
        blk_ok(blk, d),
        blk_ok(Blk { b: blk.b, e }, d),
        blk.e < e,
        blk.b / d == (blk.e - 1) / d && blk.b / d != (e - 1) / d ==> e - text_start(
            Blk { b: blk.b, e },
            d,
        ) + 8 >= blk.e - blk.b,
        marks(data, d, blk, id),
        e - d <= p < blk.e,
    ensures
        regrown(data, d, blk, e, id)[p % d] == data[p % d],
{
    let blk2 = Blk { b: blk.b, e };
    let ts = text_start(blk2, d);
    lemma_text_aligned(blk, d);
    lemma_text_aligned(blk2, d);
    lemma_at(blk.b, d);
    let i = p % d;
    if blk.b / d != (e - 1) / d {
        if blk.b / d == (blk.e - 1) / d {
            // The text moves behind the end of the block.
            let n = blk.e - blk.b;
            vstd::arithmetic::div_mod::lemma_fundamental_div_mod(blk.e - 1, d);
            vstd::arithmetic::div_mod::lemma_fundamental_div_mod(blk.b, d);
            let q = blk.b / d;
            assert((q + 1) * d == d * q + d) by (nonlinear_arith);
            if i < n {
                lemma_offset(ts - 8, i, d);
                lemma_distinct(ts - 8 + i, p, d);
            }
        } else if i < 8 {
            lemma_offset(ts - 8, i, d);
            assert(text_start(blk, d) == ts);
            assert(data[(text_start(blk, d) - 8 + i) % d] == word_byte(id, i));
        }
    }
}

impl Prb {
    /// The state with a record that can be reopened made final.
    pub open spec fn made_final(self, s: int) -> Prb {
        if self.st(s) == COMMITTED {
            self.with_st(s, FINALIZED).updated()
        } else {
            self
        }
    }
}

impl Prb {
    /// Whether the newest record can be reopened by `caller`.
    pub open spec fn reopens(self, caller: u32) -> bool {
        self.st(self.h) == COMMITTED && self.info(self.h).caller_id == caller
    }
}

impl Prb {
    /// The state with a record committed: it is final unless it is the newest.
    pub open spec fn committed(self, s: int) -> Prb {
        if s == self.h {
            self.with_st(s, COMMITTED)
        } else {
            self.with_st(s, FINALIZED).updated()
        }
    }
}

impl Prb {
    /// Whether the sequence number of the next record can still be told when there is one more.
    pub open spec fn lf_stays(self) -> bool {
        self.lf == 0 && self.h + 2 < ids() || self.lf > 0 && self.h + 1 - self.n < self.lf
    }

    /// The state with one more record, whose metadata is `info`, and with the one before it final.
    pub open spec fn entered(self, info: PrintkInfo) -> Prb {
        let r = self.recycled().with_new(info);
        if self.h >= 0 {
            r.made_final(self.h)
        } else {
            r
        }
    }

    pub proof fn lemma_updated_lf(self)
        requires
            self.wf(),
            self.lf_ok(),
        ensures
            self.updated().lf_ok(),
    {
        self.lemma_last_readable(self.lf + 1, self.lf);
    }

    /// The length of the text of the newest record, as far as its block has room.
    pub open spec fn kept_len(self) -> int {
        if self.info(self.h).text_len > self.avail(self.h) {
            self.avail(self.h)
        } else {
            self.info(self.h).text_len as int
        }
    }

    /// The state with the newest record reopened.
    pub open spec fn reopened(self) -> Prb {
        self.with_st(self.h, RESERVED).with_info(
            self.h,
            PrintkInfo { text_len: self.kept_len() as u16, ..self.info(self.h) },
        )
    }

    /// The length of the text of the newest record, with `size` more bytes.
    pub open spec fn total(self, size: int) -> int {
        if self.has(self.h) {
            size + self.kept_len()
        } else {
            size
        }
    }

    /// Whether a text of that length is allowed.
    pub open spec fn allows(self, size: int, max: int) -> bool {
        fits_in(self.d, self.total(size)) && self.total(size) <= max
    }

    /// The state after an attempt to make room for `size` more bytes of text of the newest record.
    pub open spec fn extended(self, size: int) -> Prb {
        if self.has(self.h) {
            self.reopened().grown(self.total(size))
        } else {
            self.reopened().placed(self.total(size))
        }
    }

    /// Whether there is room for `size` more bytes of text of the newest record.
    pub open spec fn can_extend(self, size: int) -> bool {
        if self.has(self.h) {
            self.reopened().can_grow(self.total(size))
        } else {
            self.reopened().can_place(self.total(size))
        }
    }
}

/// The data with `bytes` at index `at`.
pub open spec fn overwritten(data: Seq<u8>, at: int, bytes: Seq<u8>) -> Seq<u8> {
    Seq::new(
        data.len(),
        |i: int|
            if at <= i < at + bytes.len() {
                bytes[i - at]
            } else {
                data[i]
            },
    )
}

impl Prb {
    /// The state with `bytes` at offset `off` of the text of a record.
    pub open spec fn with_text(self, s: int, off: int, bytes: Seq<u8>) -> Prb {
        Prb {
            data: overwritten(
                self.data,
                text_start(self.blk(s), self.d) % self.d + off,
                bytes,
            ),
            ..self
        }
    }

    /// A text lies in one piece.
    pub proof fn lemma_text_piece(self, s: int)
        requires
            self.wf(),
            self.in_window(s),
            self.has(s),
        ensures
            ({
                let ts = text_start(self.blk(s), self.d);
                &&& 8 <= self.avail(s)
                &&& 0 <= ts % self.d
                &&& ts % self.d + self.avail(s) <= self.d
                &&& forall|j: int|
                    0 <= j < self.avail(s) ==> #[trigger] self.text(s)[j] == self.data[ts % self.d
                        + j]
                &&& forall|j: int|
                    #![trigger (ts + j) % self.d]
                    0 <= j < self.avail(s) ==> (ts + j) % self.d == ts % self.d + j
            }),
    {
        assert(self.blk_wf(s));
        let blk = self.blk(s);
        let d = self.d;
        let ts = text_start(blk, d);
        lemma_text_aligned(blk, d);
        vstd::arithmetic::div_mod::lemma_fundamental_div_mod(blk.b, d);
        let q = blk.b / d;
        assert((q + 1) * d == d * q + d) by (nonlinear_arith);
        vstd::arithmetic::div_mod::lemma_fundamental_div_mod(blk.e - 1, d);
        if q == (blk.e - 1) / d {
            lemma_offset(blk.b, 8, d);
        } else {
            lemma_offset(ts - 8, 8, d);
        }
        assert forall|j: int| 0 <= j < self.avail(s) implies #[trigger] ((ts + j) % d) == ts % d + j by {
            lemma_offset(ts, j, d);
        }
        assert forall|j: int| 0 <= j < self.avail(s) implies #[trigger] self.text(s)[j]
            == self.data[ts % d + j] by {
            assert((ts + j) % d == ts % d + j);
        }
    }

    /// Writing a text changes nothing at other positions.
    pub proof fn lemma_text_elsewhere(self, s: int, off: int, bytes: Seq<u8>, p: int)
        requires
            self.wf(),
            self.in_window(s),
            self.live(s),
            0 <= off,
            off + bytes.len() <= self.avail(s),
            self.dt <= p < self.dh,
            !(text_start(self.blk(s), self.d) <= p < self.blk(s).e),
        ensures
            self.with_text(s, off, bytes).data[p % self.d] == self.data[p % self.d],
    {
        assert(self.blk_wf(s));
        self.lemma_text_piece(s);
        self.lemma_bounds(self.t, self.dt, s);
        lemma_text_aligned(self.blk(s), self.d);
        let ts = text_start(self.blk(s), self.d);
        let i = p % self.d;
        let at = ts % self.d + off;
        if at <= i < at + bytes.len() {
            let j = i - ts % self.d;
            assert((ts + j) % self.d == ts % self.d + j);
            lemma_distinct(ts + j, p, self.d);
        }
    }

    pub proof fn lemma_with_text(self, s: int, off: int, bytes: Seq<u8>)
        requires
            self.wf(),
            self.in_window(s),
            self.live(s),
            0 <= off,
            off + bytes.len() <= self.avail(s),
        ensures
            self.with_text(s, off, bytes).wf(),
    {
        let r = self.with_text(s, off, bytes);
        assert(self.blk_wf(s));
        assert forall|k: int| r.in_window(k) implies #[trigger] r.st_ok(k) by {
            assert(self.st_ok(k));
        }
        assert forall|k: int| r.in_window(k) implies #[trigger] r.blk_wf(k) by {
            assert(self.blk_wf(k));
            if self.live(k) {
                let blk = self.blk(k);
                let ts = text_start(blk, self.d);
                let id = id_of(self.n, k);
                self.lemma_bounds(self.t, self.dt, k);
                lemma_text_aligned(blk, self.d);
                lemma_text_aligned(self.blk(s), self.d);
                if k < s {
                    self.lemma_order(self.t, self.dt, k, s);
                } else if s < k {
                    self.lemma_order(self.t, self.dt, s, k);
                }
                assert forall|j: int| 0 <= j < 8 implies #[trigger] r.data[(blk.b + j) % self.d]
                    == word_byte(id, j) by {
                    assert(self.data[(blk.b + j) % self.d] == word_byte(id, j));
                    self.lemma_text_elsewhere(s, off, bytes, blk.b + j);
                }
                assert forall|j: int| 0 <= j < 8 implies #[trigger] r.data[(ts - 8 + j) % self.d]
                    == word_byte(id, j) by {
                    assert(self.data[(ts - 8 + j) % self.d] == word_byte(id, j));
                    self.lemma_text_elsewhere(s, off, bytes, ts - 8 + j);
                }
            }
        }
        self.lemma_contig_same(r, self.t, self.dt);
    }

    /// A reader that asks for a record that is final and has its text gets it.
    pub proof fn law_final_record_is_read(self, s: int, data: bool)
        requires
            self.wf(),
            0 <= s,
            self.in_window(s),
            self.st(s) == FINALIZED,
            !(self.place(s) is Failed),
            data ==> self.info(s).text_len <= self.avail(s),
        ensures
            self.readable(s, data),
            self.found(s, data) == s,
    {
        assert(self.st_ok(s));
    }

    /// A reader passes over no record that it could have read or would have to wait for, and gets no
    /// record before the one that it asks for.
    pub proof fn law_reader_passes_over_lost_records_only(self, s: int, data: bool, k: int)
        requires
            self.wf(),
            0 <= s <= k < self.found(s, data),
        ensures
            s <= self.found(s, data),
            self.status(k, data) != 0,
            k >= self.first() ==> !self.halts(k, data),
    {
        let from = if s < self.first() {
            self.first()
        } else {
            s
        };
        self.lemma_seek(from, data);
        if k < from {
            assert(self.in_window(k) ==> self.st_ok(k));
        }
    }

    /// The sequence number behind the last record that can be read is that of a record which readers
    /// have to wait for, and they need not wait for any record before it.
    pub proof fn law_next_seq_is_awaited(self, s: int)
        requires
            self.wf(),
            0 <= s,
        ensures
            s <= self.next_seq(s),
            self.halts(self.next_seq(s), false),
            forall|k: int|
                s <= k < self.next_seq(s) && k >= self.first() ==> !#[trigger] self.halts(k, false),
        decreases self.h - s + 1,
    {
        let q = self.found(s, false);
        self.lemma_found(s, false);
        assert forall|k: int| s <= k < q && k >= self.first() implies !#[trigger] self.halts(
            k,
            false,
        ) by {
            self.law_reader_passes_over_lost_records_only(s, false, k);
        }
        if self.readable(s, false) && s <= q <= self.h {
            self.law_next_seq_is_awaited(q + 1);
        }
    }

    proof fn lemma_last_readable_is_last(self, s: int)
        requires
            self.wf(),
            0 <= s,
        ensures
            !self.readable(self.last_readable(s, s - 1) + 1, false),
        decreases self.h - s + 1,
    {
        let q = self.found(s, false);
        self.lemma_found(s, false);
        if self.readable(s, false) {
            self.lemma_last_readable_is_last(q + 1);
        }
    }

    /// Once the last readable record has been looked up again, there is none to read behind it, and
    /// what follows it is what readers wait for.
    pub proof fn law_last_readable_is_found(self)
        requires
            self.wf(),
        ensures
            !self.updated().readable(self.updated().lf + 1, false),
            self.updated().next_seq(self.updated().lf + 1) == self.updated().found(
                self.updated().lf + 1,
                false,
            ),
    {
        let u = self.updated();
        self.lemma_last_readable_is_last(self.lf + 1);
        self.lemma_same_reading(u, u.lf + 1);
    }

    /// Which records can be read does not depend on the one that was looked up last.
    proof fn lemma_same_reading(self, u: Prb, s: int)
        requires
            u == (Prb { lf: u.lf, ..self }),
        ensures
            u.found(s, false) == self.found(s, false),
            u.readable(s, false) == self.readable(s, false),
    {
        self.lemma_same_seek(u, self.first());
        self.lemma_same_seek(u, s);
    }

    proof fn lemma_same_seek(self, u: Prb, s: int)
        requires
            u == (Prb { lf: u.lf, ..self }),
        ensures
            u.seek(s, false) == self.seek(s, false),
            u.status(u.seek(s, false), false) == self.status(self.seek(s, false), false),
        decreases self.h - s + 1,
    {
        if s <= self.h {
            self.lemma_same_seek(u, s + 1);
        }
    }

    /// What a writer puts into a record, a reader gets once the record is final: the text and the
    /// metadata.
    pub proof fn law_reads_what_was_written(self, s: int, bytes: Seq<u8>, info: PrintkInfo)
        requires
            self.wf(),
            0 <= s,
            self.in_window(s),
            self.st(s) == RESERVED,
            self.has(s),
            bytes.len() <= self.avail(s),
            info.seq == s,
            info.text_len == bytes.len(),
        ensures
            ({
                let r = self.with_text(s, 0, bytes).with_info(s, info).with_st(s, FINALIZED).updated();
                &&& r.readable(s, true)
                &&& r.found(s, true) == s
                &&& r.text(s).take(info.text_len as int) == bytes
                &&& r.info(s) == info
            }),
    {
        assert(self.st_ok(s) && self.blk_wf(s));
        let r1 = self.with_text(s, 0, bytes);
        self.lemma_with_text(s, 0, bytes);
        r1.lemma_with_info(s, info);
        let r2 = r1.with_info(s, info);
        assert(r2.st_ok(s) && r2.blk_wf(s));
        r2.lemma_with_st(s, FINALIZED);
        let r3 = r2.with_st(s, FINALIZED);
        r3.lemma_updated();
        let r = r3.updated();
        r.law_final_record_is_read(s, true);
        self.lemma_text_piece(s);
        r.lemma_text_piece(s);
        assert forall|j: int| 0 <= j < bytes.len() implies r.text(s)[j] == bytes[j] by {
            assert(r.text(s)[j] == r.data[text_start(r.blk(s), r.d) % r.d + j]);
        }
        assert(r.text(s).take(info.text_len as int) =~= bytes);
    }

    /// Freeing the data ring loses the older texts first: where a text is kept, so are all newer ones.
    pub proof fn law_older_texts_are_lost_first(self, target: int, s: int, q: int)
        requires
            self.wf(),
            target <= self.dh,
            self.t <= s < q <= self.h,
            self.live(s),
            self.live(q),
            self.pushed(target).recs[s] == self.recs[s],
            self.st(s) != REUSABLE,
        ensures
            self.pushed(target).recs[q] == self.recs[q],
            self.pushed(target).live(q),
    {
        let f = self.stop_from(self.t, target);
        assert(!(s < f));
        self.lemma_pushed(target);
        let r = self.pushed(target);
        assert(r.in_window(q));
        assert(r.blk_wf(q) && r.blk_wf(s));
        assert(r.live(s));
        self.lemma_order(self.t, self.dt, s, q);
        assert(self.blk_wf(s));
    }

    /// Where no record with a block is being written, nothing stops the freeing.
    proof fn lemma_stop_free(self, s: int, target: int)
        requires
            forall|k: int| s <= k <= self.h && #[trigger] self.live(k) ==> self.st(k) >= FINALIZED,
        ensures
            self.stop_from(s, target) > self.h || self.blk(self.stop_from(s, target)).b >= target,
        decreases self.h - s + 1,
    {
        if s <= self.h {
            self.lemma_stop_free(s + 1, target);
        }
    }

    /// While no record is being written, every text that is not too long gets a record and a block:
    /// the oldest records give way. With two descriptors only, the newest record has to be final.
    pub proof fn law_reservation_succeeds(self, size: int, info: PrintkInfo)
        requires
            self.wf(),
            forall|k: int| self.t <= k <= self.h ==> #[trigger] self.st(k) != RESERVED,
            self.n > 2 || self.st(self.h) >= FINALIZED,
            0 <= size,
            fits_in(self.d, size),
        ensures
            self.room(),
            self.entered(info).can_place(size),
    {
        assert(self.st_ok(self.h));
        assert(self.in_window(self.t + 1) ==> self.st_ok(self.t + 1));
        let r = self.entered(info);
        let target = r.target(r.dh, size);
        assert forall|k: int| r.t <= k <= r.h && #[trigger] r.live(k) implies r.st(k) >= FINALIZED by {
            if k <= self.h {
                assert(self.in_window(k));
                assert(self.st_ok(k));
            }
        }
        r.lemma_stop_free(r.t, target);
    }

    /// Making room takes nothing from a record that is being written.
    pub proof fn law_reserved_records_stay(self, s: int, size: int, info: PrintkInfo)
        requires
            self.wf(),
            !(self.place(self.h) is Unset),
            self.room(),
            self.h + 2 < words(),
            0 <= s,
            self.in_window(s),
            self.st(s) == RESERVED,
            0 <= size,
            fits_in(self.d, size),
            info.seq == self.h + 1,
        ensures
            self.entered(info).placed(size).in_window(s),
            self.entered(info).placed(size).recs[s] == self.recs[s],
    {
        assert(self.st_ok(s));
        assert(self.st_ok(self.t));
        assert(self.t < s);
        let r = self.entered(info);
        assert(r.recs[s] == self.recs[s]);
        assert(r.t <= s);
        if r.live(s) {
            r.lemma_stop_bound(r.t, s, r.target(r.dh, size));
        }
    }

    /// Giving the newest record a block changes no text that is kept.
    pub proof fn law_kept_texts_stay(self, size: int, s: int)
        requires
            self.writable(),
            !self.has(self.h),
            0 <= size,
            fits_in(self.d, size),
            self.t <= s < self.h,
            self.placed(size).live(s),
        ensures
            self.placed(size).text(s) == self.text(s),
    {
        self.lemma_placed(size);
        let r = self.placed(size);
        assert(r.in_window(s));
        assert(r.blk_wf(s) && self.blk_wf(s));
        if size > 0 && self.can_place(size) {
            let blk = r.blk(self.h);
            let ts = text_start(self.blk(s), self.d);
            self.lemma_pushed(self.target(self.dh, size));
            self.lemma_bounds(self.t, self.dt, s);
            lemma_text_start(self.blk(s), self.d);
            assert forall|j: int| 0 <= j < self.avail(s) implies r.text(s)[j] == self.text(s)[j] by {
                lemma_stamped_elsewhere(
                    self.data,
                    self.d,
                    blk,
                    id_of(self.n, self.h),
                    ts + j,
                );
            }
            assert(r.text(s) =~= self.text(s));
        } else {
            assert(r.text(s) =~= self.text(s));
        }
    }

    /// A state with one more record is sound, and the record can be given a place.
    proof fn lemma_entered(self, info: PrintkInfo)
        requires
            self.wf(),
            !(self.place(self.h) is Unset),
            self.room(),
            self.h + 2 < words(),
            info.seq == self.h + 1,
        ensures
            self.entered(info).writable(),
            !self.entered(info).has(self.h + 1),
    {
        self.lemma_recycled();
        let r = self.recycled();
        assert(self.st_ok(self.h));
        r.lemma_with_new(info);
        let r1 = r.with_new(info);
        if self.h >= 0 && r1.st(self.h) == COMMITTED {
            assert(r1.in_window(self.h));
            assert(r1.st_ok(self.h) && r1.blk_wf(self.h));
            r1.lemma_with_st(self.h, FINALIZED);
            r1.with_st(self.h, FINALIZED).lemma_updated();
        }
    }

    /// A new record changes nothing that a reader gets of a final one: as long as the final one can be
    /// read, its metadata and its text are what they were.
    pub proof fn law_final_records_stay(self, s: int, size: int, info: PrintkInfo)
        requires
            self.wf(),
            !(self.place(self.h) is Unset),
            self.room(),
            self.h + 2 < words(),
            info.seq == self.h + 1,
            0 <= size,
            fits_in(self.d, size),
            self.in_window(s),
            self.st(s) == FINALIZED,
            self.entered(info).placed(size).status(s, true) == 0,
        ensures
            self.status(s, true) == 0,
            self.entered(info).placed(size).info(s) == self.info(s),
            self.entered(info).placed(size).text(s) == self.text(s),
    {
        self.lemma_entered(info);
        let m = self.entered(info);
        let r = m.placed(size);
        assert(m.place(s) == self.place(s) && m.info(s) == self.info(s) && m.data == self.data);
        m.lemma_placed(size);
        assert(r.in_window(s) && r.st_ok(s) && r.blk_wf(s));
        assert(r.place(s) == m.place(s) && r.info(s) == m.info(s));
        assert(m.text(s) =~= self.text(s));
        if m.has(s) {
            m.law_kept_texts_stay(size, s);
        } else {
            assert(r.text(s) =~= m.text(s));
        }
    }

    /// Growing the block of the newest record keeps its text.
    pub proof fn law_grown_block_keeps_text(self, size: int)
        requires
            self.writable(),
            self.has(self.h),
            0 <= size,
            fits_in(self.d, size),
            self.can_grow(size),
        ensures
            self.grown(size).avail(self.h) >= self.avail(self.h),
            self.grown(size).text(self.h).take(self.avail(self.h)) == self.text(self.h),
    {
        self.lemma_grown(size);
        let r = self.grown(size);
        let h = self.h;
        let blk = self.blk(h);
        let e = block_end(blk.b, blk_size(size), self.d);
        self.lemma_text_piece(h);
        r.lemma_text_piece(h);
        if e > self.dh {
            let blk2 = Blk { b: blk.b, e };
            let d = self.d;
            assert(r.blk(h) == blk2);
            lemma_text_aligned(blk, d);
            lemma_text_aligned(blk2, d);
            lemma_at(blk.b, d);
            if blk.b / d == (e - 1) / d {
                lemma_turn_order(blk.b, blk.e - 1, e - 1, d);
            } else if blk.b / d == (blk.e - 1) / d {
                if blk_size(size) < blk.e - blk.b {
                    lemma_turn_order(blk.b, blk.b + blk_size(size) - 1, blk.e - 1, d);
                }
                lemma_offset(text_start(blk2, d) - 8, 8, d);
                vstd::arithmetic::div_mod::lemma_fundamental_div_mod(blk.b, d);
                vstd::arithmetic::div_mod::lemma_fundamental_div_mod(blk.e - 1, d);
                lemma_offset(blk.b, 8, d);
            } else {
                assert(text_start(blk, d) == text_start(blk2, d));
                lemma_offset(text_start(blk2, d) - 8, 8, d);
            }
            assert forall|j: int| 0 <= j < self.avail(h) implies r.text(h)[j] == self.text(h)[j] by {
                assert(r.text(h)[j] == r.data[text_start(blk2, d) % d + j]);
                assert(self.text(h)[j] == self.data[text_start(blk, d) % d + j]);
            }
        }
        assert(r.text(h).take(self.avail(h)) =~= self.text(h));
    }
}

impl Prb {
    /// What holds of a ring buffer whose records are written one after another: only the newest can be
    /// still in work, it has found room for its text, and the last readable record is the one before
    /// it, or the newest itself once it is final.
    pub open spec fn one_writer(self) -> bool {
        &&& forall|k: int| self.t <= k < self.h ==> #[trigger] self.st(k) >= FINALIZED
        &&& !(self.place(self.h) is Unset)
        &&& self.h >= 0 ==> !(self.place(self.h) is Failed)
        &&& self.h <= self.lf + 1
        &&& self.h >= 0 && self.st(self.h) >= FINALIZED ==> self.lf == self.h
    }

    /// Where records are written one after another, the sequence number of the next record can always
    /// be told, and still after that record has been entered.
    pub proof fn law_next_seq_can_be_told(self)
        requires
            self.wf(),
            self.one_writer(),
        ensures
            self.lf_ok(),
            self.room() ==> self.lf_stays(),
    {
        assert(self.st_ok(self.h));
        assert(self.st_ok(self.t));
    }

    /// Older records that have been final stay so where no state goes back.
    proof fn lemma_older(self, r: Prb)
        requires
            forall|k: int| self.t <= k < self.h ==> #[trigger] self.st(k) >= FINALIZED,
            r.h == self.h,
            r.t >= self.t,
            forall|k: int|
                self.t <= k < self.h ==> #[trigger] r.st(k) == self.st(k) || r.st(k) == REUSABLE,
        ensures
            forall|k: int| r.t <= k < r.h ==> #[trigger] r.st(k) >= FINALIZED,
    {
    }

    /// A final record that is the newest but one, or the newest, is found as the last readable one.
    proof fn lemma_last_final(self, s: int)
        requires
            self.wf(),
            0 <= s <= self.h <= s + 1,
            s < self.h ==> self.st(self.h) < FINALIZED,
            self.st(s) == FINALIZED,
            self.in_window(s),
            !(self.place(s) is Failed),
            self.lf == s || self.lf == s - 1,
        ensures
            self.updated().lf == s,
    {
        reveal_with_fuel(Prb::last_readable, 2);
        self.lemma_found(s + 1, false);
        assert(self.st_ok(s));
        assert(self.found(s + 1, false) == s + 1);
        assert(self.status(s + 1, false) == EINVAL);
        assert(!self.readable(s + 1, false));
        if self.lf == s - 1 {
            self.law_final_record_is_read(s, false);
        }
    }

    /// A new record in a ring buffer whose records are written one after another: it finds room, and
    /// gets the next sequence number.
    pub proof fn law_one_writer_reserves(self, size: int, info: PrintkInfo)
        requires
            self.wf(),
            self.one_writer(),
            self.st(self.h) != RESERVED,
            self.h + 2 < words(),
            0 <= size,
            fits_in(self.d, size),
            info.seq == self.h + 1,
            self.room(),
        ensures
            self.entered(info).can_place(size),
            self.entered(info).placed(size).h == self.h + 1,
            self.entered(info).placed(size).one_writer(),
    {
        let h = self.h;
        assert(self.st_ok(h));
        assert(self.st_ok(self.t));
        self.law_reservation_succeeds(size, info);
        self.lemma_entered(info);
        self.lemma_recycled();
        let r = self.recycled();
        r.lemma_with_new(info);
        let r1 = r.with_new(info);
        let m = self.entered(info);
        if h >= 0 && r1.st(h) == COMMITTED {
            assert(r1.in_window(h));
            assert(r1.st_ok(h) && r1.blk_wf(h));
            r1.lemma_with_st(h, FINALIZED);
            assert(self.lf > 0 ==> self.st_ok(self.lf));
            r1.with_st(h, FINALIZED).lemma_last_final(h);
        }
        assert(m.lf == h || h == -1 && m.lf == 0);
        assert forall|k: int| m.t <= k < m.h implies #[trigger] m.st(k) >= FINALIZED by {
            assert(self.t <= k);
            if k < h {
                assert(self.st(k) >= FINALIZED);
            }
        }
        m.lemma_placed(size);
        m.lemma_older(m.placed(size));
    }

    /// A record that is refused for want of a descriptor leaves a ring buffer whose records are written
    /// one after another as it should be, and takes no sequence number.
    pub proof fn law_one_writer_refused(self)
        requires
            self.wf(),
            self.one_writer(),
            !self.room(),
        ensures
            (Prb { fail: self.fail + 1, ..self.tail_freed() }).one_writer(),
            self.tail_freed().h == self.h,
    {
        assert(self.st_ok(self.h));
        self.lemma_older(self.tail_freed());
    }

    /// Writing text and metadata keeps a ring buffer whose records are written one after another as it
    /// should be, and so does a panic.
    pub proof fn law_one_writer_writes(self, s: int, off: int, bytes: Seq<u8>, info: PrintkInfo, panic: bool)
        requires
            self.one_writer(),
        ensures
            self.with_text(s, off, bytes).one_writer(),
            self.with_info(s, info).one_writer(),
            (Prb { panic, ..self }).one_writer(),
    {
        self.lemma_older(self.with_text(s, off, bytes));
        self.lemma_older(self.with_info(s, info));
        self.lemma_older(Prb { panic, ..self });
    }

    /// Committing the newest record keeps a ring buffer whose records are written one after another as
    /// it should be; a record that is final is the last readable one.
    pub proof fn law_one_writer_commits(self)
        requires
            self.wf(),
            self.one_writer(),
            self.h >= 0,
            self.st(self.h) == RESERVED,
        ensures
            self.committed(self.h).one_writer(),
            self.with_st(self.h, FINALIZED).updated().one_writer(),
            self.with_st(self.h, FINALIZED).updated().lf == self.h,
    {
        assert(self.st_ok(self.h) && self.blk_wf(self.h));
        self.lemma_with_st(self.h, FINALIZED);
        self.with_st(self.h, FINALIZED).lemma_last_final(self.h);
        self.lemma_older(self.committed(self.h));
        self.lemma_older(self.with_st(self.h, FINALIZED).updated());
    }

    /// Reopening the newest record and extending it keeps a ring buffer whose records are written one
    /// after another as it should be, and the record finds room if it has had no block yet.
    pub proof fn law_one_writer_extends(self, size: int)
        requires
            self.wf(),
            self.one_writer(),
            self.h >= 0,
            self.st(self.h) == COMMITTED,
        ensures
            self.reopened().one_writer(),
            self.reopened().with_st(self.h, COMMITTED).one_writer(),
            self.extended(size).one_writer(),
            self.extended(size).with_st(self.h, COMMITTED).one_writer(),
            !self.has(self.h) ==> self.can_extend(size),
    {
        assert(self.st_ok(self.h));
        let o = self.reopened();
        self.lemma_older(o);
        self.lemma_older(o.with_st(self.h, COMMITTED));
        self.lemma_older(self.extended(size));
        self.lemma_older(self.extended(size).with_st(self.h, COMMITTED));
        if !self.has(self.h) {
            assert forall|k: int| o.t <= k <= o.h && #[trigger] o.live(k) implies o.st(k)
                >= FINALIZED by {
                assert(k < o.h);
                assert(self.st(k) >= FINALIZED);
            }
            o.lemma_stop_free(o.t, o.target(o.dh, self.total(size)));
        } else {
            assert(self.blk_wf(self.h));
            o.lemma_stop_bound(o.t, o.h, o.target(o.blk(o.h).b, self.total(size)));
        }
    }
}

/// A block has room for the ID and the text, and is filled up to a whole number of words and no more. It
/// is allowed to take half of the ring.
pub proof fn law_block_size(d: int, size: int)
    requires
        0 <= size,
    ensures
        blk_size(size) % 8 == 0,
        8 + size <= blk_size(size) < 16 + size,
        fits_in(d, 0),
        size > 0 ==> (fits_in(d, size) <==> 2 * blk_size(size) <= d),
{
}

impl Prb {
    /// Only final records are read: none that is being written, none that can still be reopened, none
    /// that has been lost, and with its text none whose text is not all there.
    pub proof fn law_only_final_records_are_read(self, s: int, data: bool)
        requires
            self.wf(),
            0 <= s,
            self.readable(s, data),
        ensures
            ({
                let q = self.found(s, data);
                &&& s <= q <= self.h
                &&& self.t <= q
                &&& self.st(q) == FINALIZED
                &&& !(self.place(q) is Failed)
                &&& data ==> self.info(q).text_len <= self.avail(q)
                &&& self.info(q).seq == q
            }),
    {
        self.lemma_found(s, data);
        assert(self.st_ok(self.found(s, data)));
    }

    /// A reader that asks for a record that is being written, or that can still be reopened, or that
    /// is not there yet, gets nothing and waits for it, unless there is a panic.
    pub proof fn law_unfinished_records_are_waited_for(self, s: int, data: bool)
        requires
            self.wf(),
            self.first() <= s,
            s > self.h || self.st(s) == RESERVED || self.st(s) == COMMITTED,
            s > self.h || !self.panic,
        ensures
            !self.readable(s, data),
            self.found(s, data) == s,
    {
    }

    /// In a panic a reader passes over what is not final, up to the newest record.
    pub proof fn law_panic_passes_over_unfinished_records(self, s: int, data: bool)
        requires
            self.wf(),
            self.panic,
            self.first() <= s < self.h,
            self.st(s) == RESERVED || self.st(s) == COMMITTED,
        ensures
            self.found(s, data) == self.found(s + 1, data),
            self.readable(s, data) == self.readable(s + 1, data),
    {
    }

    /// A reader that asks for a record that is gone goes on with the oldest one, and passes over records
    /// whose text has been lost.
    pub proof fn law_lost_records_are_passed_over(self, s: int, data: bool)
        requires
            self.wf(),
            0 <= s,
            s < self.first() || s <= self.h && (self.st(s) == REUSABLE || self.st(s) == FINALIZED
                && self.place(s) is Failed),
        ensures
            s < self.first() ==> self.found(s, data) == self.found(self.first(), data),
            s >= self.first() ==> self.found(s, data) == self.found(s + 1, data),
    {
    }

    /// Bytes that are written to a text stand there, what was before them and behind them stays, and
    /// the metadata, the states and the texts of the other records stay.
    pub proof fn law_written_text(self, s: int, off: int, bytes: Seq<u8>, k: int)
        requires
            self.wf(),
            self.in_window(s),
            self.live(s),
            0 <= off,
            off + bytes.len() <= self.avail(s),
        ensures
            ({
                let r = self.with_text(s, off, bytes);
                &&& r.text(s) == self.text(s).take(off) + bytes + self.text(s).skip(
                    off + bytes.len(),
                )
                &&& r.recs == self.recs
                &&& (r.h, r.t, r.lf, r.fail, r.panic) == (self.h, self.t, self.lf, self.fail, self.panic)
                &&& k != s && self.t <= k <= self.h && self.live(k) ==> r.text(k) == self.text(k)
            }),
    {
        let r = self.with_text(s, off, bytes);
        self.lemma_text_piece(s);
        self.lemma_with_text(s, off, bytes);
        r.lemma_text_piece(s);
        let ts = text_start(self.blk(s), self.d) % self.d;
        let want = self.text(s).take(off) + bytes + self.text(s).skip(off + bytes.len());
        assert forall|j: int| 0 <= j < self.avail(s) implies r.text(s)[j] == want[j] by {
            assert(r.text(s)[j] == r.data[ts + j]);
            assert(self.text(s)[j] == self.data[ts + j]);
        }
        assert(r.text(s) =~= want);
        if k != s && self.t <= k <= self.h && self.live(k) {
            assert(self.blk_wf(k) && self.blk_wf(s));
            self.lemma_bounds(self.t, self.dt, k);
            lemma_text_aligned(self.blk(k), self.d);
            lemma_text_aligned(self.blk(s), self.d);
            lemma_text_start(self.blk(k), self.d);
            lemma_text_start(self.blk(s), self.d);
            if k < s {
                self.lemma_order(self.t, self.dt, k, s);
            } else {
                self.lemma_order(self.t, self.dt, s, k);
            }
            assert forall|j: int| 0 <= j < self.avail(k) implies r.text(k)[j] == self.text(k)[j] by {
                self.lemma_text_elsewhere(s, off, bytes, text_start(self.blk(k), self.d) + j);
            }
            assert(r.text(k) =~= self.text(k));
        }
    }

    /// Metadata that is written to a record is stored whole, and nothing else changes.
    pub proof fn law_written_info(self, s: int, info: PrintkInfo, k: int)
        requires
            self.wf(),
        ensures
            ({
                let r = self.with_info(s, info);
                &&& r.info(s) == info
                &&& r.st(s) == self.st(s) && r.place(s) == self.place(s)
                &&& k != s ==> r.recs[k] == self.recs[k]
                &&& r.data == self.data
                &&& (r.h, r.t, r.lf, r.fail, r.panic) == (self.h, self.t, self.lf, self.fail, self.panic)
            }),
    {
    }

    /// Finalizing a record changes its state only: its text and metadata, and the other records, stay.
    pub proof fn law_final_commit(self, s: int, k: int)
        requires
            self.wf(),
        ensures
            ({
                let r = self.with_st(s, FINALIZED).updated();
                &&& r.st(s) == FINALIZED
                &&& r.info(s) == self.info(s) && r.place(s) == self.place(s)
                &&& r.text(s) == self.text(s)
                &&& k != s ==> r.recs[k] == self.recs[k]
                &&& k != s ==> r.text(k) == self.text(k)
                &&& (r.h, r.t, r.fail, r.panic) == (self.h, self.t, self.fail, self.panic)
                &&& r.lf >= self.lf
            }),
    {
        let r = self.with_st(s, FINALIZED).updated();
        self.with_st(s, FINALIZED).lemma_last_readable(self.lf + 1, self.lf);
        assert(r.text(s) =~= self.text(s));
        assert(r.text(k) =~= self.text(k));
    }

    /// Committing the newest record leaves it open, so that readers wait for it; a record that is not
    /// the newest becomes final.
    pub proof fn law_commit(self, s: int, k: int, data: bool)
        requires
            self.wf(),
            0 <= s,
            self.in_window(s),
            self.st(s) == RESERVED,
            !(self.place(s) is Unset),
        ensures
            ({
                let r = self.committed(s);
                &&& s == self.h ==> r.st(s) == COMMITTED && !r.readable(s, data)
                &&& s < self.h ==> r.st(s) == FINALIZED
                &&& r.info(s) == self.info(s) && r.place(s) == self.place(s)
                &&& r.data == self.data
                &&& k != s ==> r.recs[k] == self.recs[k]
                &&& (r.h, r.t, r.fail, r.panic) == (self.h, self.t, self.fail, self.panic)
            }),
    {
        assert(self.st_ok(s) && self.blk_wf(s));
        if s == self.h {
            self.lemma_with_st(s, COMMITTED);
        }
    }

    /// A new record is refused only where all descriptors are in use and the record behind the oldest
    /// is not final; otherwise it is there, under the next number, is being written, and has the
    /// metadata that it was given.
    pub proof fn law_new_record(self, info: PrintkInfo, size: int)
        requires
            self.wf(),
            !(self.place(self.h) is Unset),
            self.h + 2 < words(),
            info.seq == self.h + 1,
            0 <= size,
            fits_in(self.d, size),
        ensures
            !self.room() <==> self.h - self.t + 1 == self.n && (self.st(self.t + 1) == RESERVED
                || self.st(self.t + 1) == COMMITTED),
            self.room() ==> {
                let r = self.entered(info).placed(size);
                &&& r.wf()
                &&& r.h == self.h + 1
                &&& r.st(r.h) == RESERVED
                &&& r.info(r.h) == info
                &&& size == 0 ==> r.place(r.h) is Empty
                &&& size > 0 && self.entered(info).can_place(size) ==> r.has(r.h) && r.avail(r.h)
                    == (size + 7) / 8 * 8
                &&& size > 0 && !self.entered(info).can_place(size) ==> r.place(r.h) is Failed
                &&& self.h - self.t + 1 < self.n ==> r.t == self.t
                &&& self.h - self.t + 1 == self.n ==> r.t == self.t + 1
                &&& self.h >= 0 && self.st(self.h) == COMMITTED ==> r.st(self.h) == FINALIZED || r.st(
                    self.h,
                ) == REUSABLE
                &&& (r.n, r.d, r.fail, r.panic) == (self.n, self.d, self.fail, self.panic)
            },
    {
        assert(self.st_ok(self.t));
        assert(self.st_ok(self.h));
        assert(self.in_window(self.t + 1) ==> self.st_ok(self.t + 1));
        if self.room() {
            self.lemma_entered(info);
            let m = self.entered(info);
            assert(m.st_ok(m.h));
            m.lemma_placed(size);
        }
    }

    /// A text that does not reach into the space that a new block takes is not lost for it.
    pub proof fn law_no_text_is_lost_needlessly(self, size: int, s: int)
        requires
            self.writable(),
            !self.has(self.h),
            0 < size,
            fits_in(self.d, size),
            self.can_place(size),
            self.t <= s < self.h,
            self.live(s),
            self.blk(s).b >= self.placed(size).blk(self.h).e - self.d,
        ensures
            self.placed(size).recs[s] == self.recs[s],
            self.placed(size).live(s),
            self.placed(size).text(s) == self.text(s),
    {
        let target = self.target(self.dh, size);
        self.lemma_placed(size);
        let r = self.placed(size);
        assert(r.blk(self.h).e - self.d == target);
        self.lemma_stop_kept(self.t, s, target);
        let q = self.stop_from(self.t, target);
        assert(self.blk_wf(s) && self.blk_wf(q));
        if q < s {
            self.lemma_order(self.t, self.dt, q, s);
        }
        self.law_kept_texts_stay(size, s);
    }

    proof fn lemma_stop_kept(self, s: int, k: int, target: int)
        requires
            s <= k <= self.h,
            self.live(k),
            self.blk(k).b >= target,
        ensures
            s <= self.stop_from(s, target) <= k,
            self.live(self.stop_from(s, target)),
        decreases k - s,
    {
        if s < k && !(self.live(s) && (self.blk(s).b >= target || self.st(s) < FINALIZED)) {
            self.lemma_stop_kept(s + 1, k, target);
        }
    }

    /// The newest record can be reopened exactly if it is committed and has the same caller. Reopened
    /// and extended, it keeps its metadata and its text, and its block has room for as many bytes more.
    pub proof fn law_extended_record(self, caller: u32, size: int)
        requires
            self.wf(),
            self.h >= 0,
            !(self.place(self.h) is Unset),
            0 <= size,
            self.info(self.h).text_len <= self.avail(self.h),
            fits_in(self.d, size + self.info(self.h).text_len),
        ensures
            self.reopens(caller) <==> self.st(self.h) == COMMITTED && self.info(self.h).caller_id
                == caller,
            self.total(size) == size + self.info(self.h).text_len,
            self.st(self.h) == COMMITTED && self.can_extend(size) ==> {
                let r = self.extended(size);
                let len = self.info(self.h).text_len as int;
                &&& r.h == self.h
                &&& r.st(self.h) == RESERVED
                &&& r.info(self.h) == self.info(self.h)
                &&& r.avail(self.h) >= size + len
                &&& r.text(self.h).take(len) == self.text(self.h).take(len)
            },
    {
        let h = self.h;
        assert(self.st_ok(h) && self.blk_wf(h));
        assert(self.in_window(h - 1) ==> self.st_ok(h - 1));
        if self.st(h) == COMMITTED && self.can_extend(size) {
            let len = self.info(h).text_len as int;
            let total = size + len;
            let o = self.reopened();
            self.lemma_with_st(h, RESERVED);
            let r1 = self.with_st(h, RESERVED);
            r1.lemma_with_info(h, PrintkInfo { text_len: self.kept_len() as u16, ..self.info(h) });
            assert(o.info(h) == self.info(h));
            assert(o.st_ok(h) && o.blk_wf(h));
            let r = self.extended(size);
            if self.has(h) {
                assert(o.text(h) =~= self.text(h));
                o.law_grown_block_keeps_text(total);
                o.lemma_grown(total);
                assert(r.text(h).take(len) =~= r.text(h).take(o.avail(h)).take(len));
                assert(r.blk_wf(h));
                if total > 0 {
                    lemma_block_covers(r.blk(h), total, self.d);
                } else {
                    r.lemma_text_piece(h);
                }
            } else {
                o.lemma_placed(total);
                assert(r.text(h).take(0) =~= self.text(h).take(0));
            }
        }
    }
}

} // verus!
