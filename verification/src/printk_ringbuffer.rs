//! The printk ring buffer.
//!
//! A record has a descriptor, which holds its state and the position of its text, metadata, and a
//! block of the data ring for its text. Writers reserve a record, fill it in and commit it; readers
//! read finalized records. The oldest records give way to new ones.
//!
//! Any number of records can be reserved at the same time, and they can be committed in any order. An
//! operation is one step here: other writers come before it or after it.

use vstd::prelude::*;

#[allow(unused_imports)]
use crate::prb_model::{
    id_of, ids, lemma_bits, lemma_id, lemma_id_distinct, lemma_id_first, lemma_ix, lemma_offset,
    lemma_wd_add, lemma_wd_diff, lemma_wd_floor, lemma_wd_turn, ring_size, wd, words,
};
#[allow(unused_imports)]
use crate::prb_state::{
    blk_ok, blk_size, block_end, fits_in, lemma_at, lemma_block_covers, lemma_text_aligned,
    lemma_text_start, overwritten, put, regrown, stamped, stored, text_start, word_byte, Blk, Place,
    Prb, Rec,
};
use crate::ascii::NEWLINE;
use crate::lock::Interrupts;
use crate::prb_state::{COMMITTED, EINVAL, ENOENT, FINALIZED, RESERVED, REUSABLE};

verus! {

/// Logical position and extent of a data block.
#[derive(Clone, Copy)]
pub struct DataBlkLpos {
    pub begin: u64,
    pub next: u64,
}

/// A descriptor: the publication state and the text position.
#[derive(Clone, Copy)]
pub struct Desc {
    pub state_var: u64,
    pub text_blk_lpos: DataBlkLpos,
}

/// The metadata of a record.
#[derive(Clone, Copy)]
pub struct PrintkInfo {
    pub seq: u64,
    pub ts_nsec: u64,
    pub text_len: u16,
    pub facility: u8,
    pub flags_level: u8,
    pub caller_id: u32,
    pub execution_context: [u8; 16],
    pub dev_info: [u8; 64],
}

/// The text ring: geometry and positions.
pub struct DataRing {
    size_bits: u32,
    data: Vec<u8>,
    head_lpos: u64,
    tail_lpos: u64,
}

/// The descriptor ring: geometry and sequence state.
pub struct DescRing {
    count_bits: u32,
    descs: Vec<Desc>,
    infos: Vec<PrintkInfo>,
    head_id: u64,
    tail_id: u64,
    last_finalized_seq: u64,
}

/// The ring buffer, shared by readers and writers.
pub struct Ringbuffer {
    desc_ring: DescRing,
    text_data_ring: DataRing,
    fail: u64,
    panic: bool,
    model: Ghost<Prb>,
}

/// The descriptor has another ID.
const MISS: i32 = -1;

/// The number of descriptor IDs.
const IDS: u64 = 0x4000_0000_0000_0000;

/// The position of a record whose text could not be stored.
const FAILED_LPOS: u64 = 1;

/// The position of a record without text.
const EMPTY_LINE_LPOS: u64 = 3;

/// What was read of a descriptor.
struct Snapshot {
    state: i32,
    desc: Desc,
    seq: u64,
    caller: u32,
}

/// Whether a position in words is where the text of a record is.
spec fn lpos_ok(l: DataBlkLpos, place: Place) -> bool {
    match place {
        Place::Unset => true,
        Place::Failed => l.begin == FAILED_LPOS && l.next == FAILED_LPOS,
        Place::Empty => l.begin == EMPTY_LINE_LPOS && l.next == EMPTY_LINE_LPOS,
        Place::At { blk } => l.begin == wd(blk.b) && l.next == wd(blk.e),
    }
}

/// The word for an ID and a state.
spec fn sv_of(id: u64, state: i32) -> int {
    id + state * ids()
}

/// The state that a word gives for an ID.
spec fn state_of(id: u64, value: u64) -> i32 {
    if value as int % ids() != id {
        MISS
    } else {
        (value as int / ids()) as i32
    }
}

/// The sequence number that the metadata of a record that has not been written yet holds.
spec fn initial_seq(n: int, s: int) -> int {
    if s == -n {
        words() - n
    } else {
        0
    }
}

impl View for Ringbuffer {
    type V = Prb;

    closed spec fn view(&self) -> Prb {
        self.model@
    }
}

impl Ringbuffer {
    /// Whether the descriptor and the metadata of a record are in place.
    spec fn slot_ok(self, s: int) -> bool {
        let i = s % self@.n;
        let d = self.desc_ring.descs@[i];
        &&& d.state_var == sv_of(id_of(self@.n, s), self@.st(s))
        &&& lpos_ok(d.text_blk_lpos, self@.place(s))
        &&& self.desc_ring.infos@[i] == self@.info(s)
    }

    /// Whether the descriptor that no record has had yet is unused.
    spec fn unused_ok(self, s: int) -> bool {
        let i = s % self@.n;
        &&& self.desc_ring.descs@[i].state_var == 0
        &&& self.desc_ring.infos@[i].seq == initial_seq(self@.n, s)
    }

    /// Whether the arrays have the right sizes.
    spec fn geometry(self) -> bool {
        &&& 1 <= self.desc_ring.count_bits <= 31
        &&& 3 <= self.text_data_ring.size_bits <= 31
        &&& self@.n == vstd::arithmetic::power2::pow2(self.desc_ring.count_bits as nat)
        &&& self@.d == vstd::arithmetic::power2::pow2(self.text_data_ring.size_bits as nat)
        &&& ring_size(self@.n)
        &&& ring_size(self@.d)
        &&& self@.d % 8 == 0
        &&& self.desc_ring.descs@.len() == self@.n
        &&& self.desc_ring.infos@.len() == self@.n
        &&& self.text_data_ring.data@.len() == self@.d
    }

    /// Whether the ring buffer is in the state that the model says.
    spec fn agrees(self) -> bool {
        &&& self.geometry()
        &&& self.text_data_ring.data@ == self@.data
        &&& self.desc_ring.head_id == id_of(self@.n, self@.h)
        &&& self.desc_ring.tail_id == id_of(self@.n, self@.t)
        &&& self.desc_ring.last_finalized_seq == self@.lf
        &&& self.text_data_ring.head_lpos == wd(self@.dh)
        &&& self.text_data_ring.tail_lpos == wd(self@.dt)
        &&& self.fail == wd(self@.fail)
        &&& self.panic == self@.panic
        &&& forall|s: int| self@.in_window(s) ==> #[trigger] self.slot_ok(s)
        &&& forall|s: int| self@.h - self@.n < s < -1 ==> #[trigger] self.unused_ok(s)
    }

    /// What holds of the ring buffer, also while a record is being reserved.
    spec fn inv(self) -> bool {
        self@.wf() && self.agrees()
    }

    /// The invariant of the ring buffer.
    pub closed spec fn wf(self) -> bool {
        self.inv() && !(self@.place(self@.h) is Unset)
    }

    /// What a well-formed ring buffer promises: its state is sound, and no reservation is half done.
    pub proof fn lemma_wf(self)
        requires
            self.wf(),
        ensures
            self@.wf(),
            !(self@.place(self@.h) is Unset),
    {
    }

    /// What the descriptor of a record says.
    proof fn lemma_slot(self, s: int)
        requires
            self.inv(),
            self@.in_window(s),
        ensures
            self.slot_ok(s),
            self@.st_ok(s),
            self@.blk_wf(s),
            id_of(self@.n, s) < ids(),
            id_of(self@.n, s) as int % self@.n == s % self@.n,
            0 <= s % self@.n < self@.n,
            state_of(
                id_of(self@.n, s),
                self.desc_ring.descs@[s % self@.n].state_var,
            ) == self@.st(s),
    {
        lemma_id(self@.n, s);
        lemma_ix(self@.n, s, s);
        assert(self.slot_ok(s) && self@.st_ok(s) && self@.blk_wf(s));
    }
}

/// The size of the data ring.
fn data_size(ring: &DataRing) -> (size: u64)
    requires
        ring.size_bits <= 31,
    ensures
        size == vstd::arithmetic::power2::pow2(ring.size_bits as nat),
        size > 0,
{
    proof {
        lemma_bits(ring.size_bits as nat);
        vstd::arithmetic::power2::lemma_pow2_pos(ring.size_bits as nat);
    }
    1u64 << (ring.size_bits as u64)
}

/// The number of descriptors.
fn desc_count(ring: &DescRing) -> (count: u64)
    requires
        ring.count_bits <= 31,
    ensures
        count == vstd::arithmetic::power2::pow2(ring.count_bits as nat),
        count > 0,
{
    proof {
        lemma_bits(ring.count_bits as nat);
        vstd::arithmetic::power2::lemma_pow2_pos(ring.count_bits as nat);
    }
    1u64 << (ring.count_bits as u64)
}

/// Puts an ID and a state into a word.
fn sv(id: u64, state: i32) -> (value: u64)
    requires
        id < ids(),
        RESERVED <= state <= REUSABLE,
    ensures
        value == sv_of(id, state),
{
    id + (state as u64) * IDS
}

/// Takes the state for an ID from a word.
fn state(id: u64, value: u64) -> (s: i32)
    ensures
        s == state_of(id, value),
        MISS <= s <= REUSABLE,
{
    if value % IDS != id {
        MISS
    } else {
        (value / IDS) as i32
    }
}

/// A word is put together from its bytes.
proof fn lemma_word(x: u64)
    ensures
        x == word_byte(x, 0) + word_byte(x, 1) * 0x100 + word_byte(x, 2) * 0x1_0000 + word_byte(x, 3)
            * 0x100_0000 + word_byte(x, 4) * 0x1_0000_0000 + word_byte(x, 5) * 0x100_0000_0000
            + word_byte(x, 6) * 0x1_0000_0000_0000 + word_byte(x, 7) * 0x100_0000_0000_0000,
{
    let x = x as int;
    vstd::arithmetic::div_mod::lemma_div_denominator(x, 0x100, 0x100);
    vstd::arithmetic::div_mod::lemma_div_denominator(x, 0x1_0000, 0x100);
    vstd::arithmetic::div_mod::lemma_div_denominator(x, 0x100_0000, 0x100);
    vstd::arithmetic::div_mod::lemma_div_denominator(x, 0x1_0000_0000, 0x100);
    vstd::arithmetic::div_mod::lemma_div_denominator(x, 0x100_0000_0000, 0x100);
    vstd::arithmetic::div_mod::lemma_div_denominator(x, 0x1_0000_0000_0000, 0x100);
}

/// Reads a word of the data ring.
fn get_word(
    data: &Vec<u8>,
    at: usize,
    Ghost(d): Ghost<int>,
    Ghost(p): Ghost<int>,
    Ghost(x): Ghost<u64>,
) -> (value: u64)
    requires
        data@.len() == d,
        d > 0,
        at == p % d,
        at + 8 <= d,
        stored(data@, d, p, x),
    ensures
        value == x,
{
    let _total: usize = data.len();
    proof {
        assert forall|k: int| 0 <= k < 8 implies #[trigger] data@[at + k] == word_byte(x, k) by {
            lemma_offset(p, k, d);
            assert(data@[(p + k) % d] == word_byte(x, k));
        }
        assert(data@[at + 0] == word_byte(x, 0));
        assert(data@[at + 1] == word_byte(x, 1));
        assert(data@[at + 2] == word_byte(x, 2));
        assert(data@[at + 3] == word_byte(x, 3));
        assert(data@[at + 4] == word_byte(x, 4));
        assert(data@[at + 5] == word_byte(x, 5));
        assert(data@[at + 6] == word_byte(x, 6));
        assert(data@[at + 7] == word_byte(x, 7));
        lemma_word(x);
    }
    (data[at] as u64) + (data[at + 1] as u64) * 0x100 + (data[at + 2] as u64) * 0x1_0000 + (
    data[at + 3] as u64) * 0x100_0000 + (data[at + 4] as u64) * 0x1_0000_0000 + (data[at
        + 5] as u64) * 0x100_0000_0000 + (data[at + 6] as u64) * 0x1_0000_0000_0000 + (data[at
        + 7] as u64) * 0x100_0000_0000_0000
}

/// Writes a word of the data ring.
fn put_word(data: &mut Vec<u8>, at: usize, x: u64)
    requires
        at + 8 <= old(data)@.len(),
    ensures
        final(data)@ == put(old(data)@, at as int, x),
{
    let _total: usize = data.len();
    data.set(at, (x % 0x100) as u8);
    data.set(at + 1, (x / 0x100 % 0x100) as u8);
    data.set(at + 2, (x / 0x1_0000 % 0x100) as u8);
    data.set(at + 3, (x / 0x100_0000 % 0x100) as u8);
    data.set(at + 4, (x / 0x1_0000_0000 % 0x100) as u8);
    data.set(at + 5, (x / 0x100_0000_0000 % 0x100) as u8);
    data.set(at + 6, (x / 0x1_0000_0000_0000 % 0x100) as u8);
    data.set(at + 7, (x / 0x100_0000_0000_0000) as u8);
    assert(data@ =~= put(old(data)@, at as int, x));
}

/// Reads a descriptor, and of the metadata the sequence number and the caller.
fn desc_read(rb: &Ringbuffer, id: u64) -> (out: Snapshot)
    requires
        rb.geometry(),
    ensures
        ({
            let i = id as int % rb@.n;
            let d = rb.desc_ring.descs@[i];
            &&& out.state == state_of(id, d.state_var)
            &&& MISS <= out.state <= REUSABLE
            &&& out.desc.state_var == d.state_var
            &&& out.state != MISS && out.state != RESERVED ==> {
                &&& out.desc.text_blk_lpos == d.text_blk_lpos
                &&& out.seq == rb.desc_ring.infos@[i].seq
                &&& out.caller == rb.desc_ring.infos@[i].caller_id
            }
        }),
{
    let i: usize = (id % desc_count(&rb.desc_ring)) as usize;
    let d: Desc = rb.desc_ring.descs[i];
    let s: i32 = state(id, d.state_var);
    if s == MISS || s == RESERVED {
        let empty = DataBlkLpos { begin: 0, next: 0 };
        return Snapshot {
            state: s,
            desc: Desc { state_var: d.state_var, text_blk_lpos: empty },
            seq: 0,
            caller: 0,
        };
    }
    let info: PrintkInfo = rb.desc_ring.infos[i];
    Snapshot { state: s, desc: d, seq: info.seq, caller: info.caller_id }
}

/// Stores the state of a record.
fn set_state(rb: &mut Ringbuffer, id: u64, v: i32, Ghost(s): Ghost<int>)
    requires
        old(rb).inv(),
        old(rb)@.in_window(s),
        id == id_of(old(rb)@.n, s),
        RESERVED <= v <= REUSABLE,
        old(rb)@.with_st(s, v).wf(),
    ensures
        final(rb).inv(),
        final(rb)@ == old(rb)@.with_st(s, v),
{
    proof {
        rb.lemma_slot(s);
    }
    let ghost r = rb@;
    let i: usize = (id % desc_count(&rb.desc_ring)) as usize;
    let mut d: Desc = rb.desc_ring.descs[i];
    d.state_var = sv(id, v);
    rb.desc_ring.descs.set(i, d);
    proof {
        rb.model@ = r.with_st(s, v);
        assert forall|k: int| rb@.in_window(k) implies #[trigger] rb.slot_ok(k) by {
            assert(old(rb).slot_ok(k));
            lemma_ix(r.n, k, s);
        }
        assert forall|k: int| rb@.h - rb@.n < k < -1 implies #[trigger] rb.unused_ok(k) by {
            assert(old(rb).unused_ok(k));
            lemma_ix(r.n, k, s);
        }
    }
}

/// Makes a finalized record reusable.
fn desc_make_reusable(rb: &mut Ringbuffer, id: u64, Ghost(s): Ghost<int>)
    requires
        old(rb).inv(),
        old(rb)@.in_window(s),
        id == id_of(old(rb)@.n, s),
    ensures
        final(rb).inv(),
        final(rb)@ == (if old(rb)@.st(s) == FINALIZED {
            old(rb)@.with_st(s, REUSABLE)
        } else {
            old(rb)@
        }),
{
    proof {
        rb.lemma_slot(s);
    }
    let i: usize = (id % desc_count(&rb.desc_ring)) as usize;
    if rb.desc_ring.descs[i].state_var == sv(id, FINALIZED) {
        proof {
            rb@.lemma_with_st(s, REUSABLE);
        }
        set_state(rb, id, REUSABLE, Ghost(s));
    }
}

/// Whether the position `target` is behind `current`.
fn need_more_space(
    ring: &DataRing,
    current: u64,
    target: u64,
    Ghost(c): Ghost<int>,
    Ghost(t): Ghost<int>,
) -> (need: bool)
    requires
        ring.size_bits <= 31,
        current == wd(c),
        target == wd(t),
        t - c <= vstd::arithmetic::power2::pow2(ring.size_bits as nat),
        c - t <= 0x4000_0001_0000_0000,
    ensures
        need == (c < t),
{
    proof {
        lemma_bits(ring.size_bits as nat);
        if t >= c {
            lemma_wd_diff(t, c);
        } else {
            lemma_wd_diff(t + words(), c);
            lemma_wd_add(t, 0);
        }
    }
    target.wrapping_sub(current).wrapping_sub(1) < data_size(ring)
}

/// Makes the records reusable whose blocks are before the position `end`, and gives the position of
/// the first block behind them.
fn data_make_reusable(
    rb: &mut Ringbuffer,
    begin: u64,
    end: u64,
    Ghost(target): Ghost<int>,
) -> (next: Option<u64>)
    requires
        old(rb).inv(),
        begin == wd(old(rb)@.dt),
        end == wd(target),
        target <= old(rb)@.dh,
        old(rb)@.dt - target <= 0x4000_0000_0000_0000,
    ensures
        final(rb).inv(),
        ({
            let r = old(rb)@;
            let q = r.stop_from(r.t, target);
            &&& final(rb)@ == r.marked(q)
            &&& next is Some <==> r.can_push(target)
            &&& next matches Some(p) ==> p == wd(r.pushed(target).dt)
        }),
{
    let ghost r = rb@;
    let ghost mut q: int = r.t;
    let ghost mut p: int = r.dt;
    let mut begin: u64 = begin;
    proof {
        assert(r.marked(r.t).recs =~= r.recs);
        assert(r.marked(r.t) == r);
        assert(Prb { dt: r.dt, ..r.marked(r.t) } == r);
    }
    while need_more_space(&rb.text_data_ring, begin, end, Ghost(p), Ghost(target))
        invariant
            r == old(rb)@,
            rb.inv(),
            r.wf(),
            rb@ == r.marked(q),
            r.t <= q <= r.h + 1,
            r.contig(q, p),
            r.marked(q).wf(),
            (Prb { dt: p, ..r.marked(q) }).wf(),
            forall|k: int| r.t <= k < q && #[trigger] r.live(k) ==> r.blk(k).e <= p,
            r.dt <= p,
            p <= r.dh,
            target <= r.dh,
            r.dt - target <= 0x4000_0000_0000_0000,
            r.stop_from(r.t, target) == r.stop_from(q, target),
            begin == wd(p),
            end == wd(target),
        decreases r.h - q + 1,
    {
        let ghost f = r.next_live(q);
        proof {
            r.lemma_mark(q, p, target);
            rb.lemma_slot(f);
            lemma_wd_turn(p, p, r.d);
            assert(r.blk_wf(f));
            lemma_at(p, r.d);
        }
        let at: usize = (begin % data_size(&rb.text_data_ring)) as usize;
        let id: u64 = get_word(
            &rb.text_data_ring.data,
            at,
            Ghost(r.d),
            Ghost(p),
            Ghost(id_of(r.n, f)),
        );
        let snapshot: Snapshot = desc_read(rb, id);
        if snapshot.state != FINALIZED && snapshot.state != REUSABLE {
            return None;
        }
        assert(rb@.place(f) == r.place(f));
        assert(lpos_ok(snapshot.desc.text_blk_lpos, rb@.place(f)));
        if snapshot.desc.text_blk_lpos.begin != begin {
            return None;
        }
        if snapshot.state == FINALIZED {
            desc_make_reusable(rb, id, Ghost(f));
        }
        begin = snapshot.desc.text_blk_lpos.next;
        proof {
            if r.st(f) == REUSABLE {
                assert(r.marked(q).with_st(f, REUSABLE).recs =~= r.marked(q).recs);
            }
            r.lemma_bounds(r.t, r.dt, f);
            p = r.blk(f).e;
            q = f + 1;
        }
    }
    proof {
        r.lemma_mark_end(q, p, target);
        r.lemma_next_live(q, p);
        let f = r.next_live(q);
        r.lemma_stop_skip(q, f, target);
        assert forall|k: int| q <= k < f implies !#[trigger] r.live(k) by {}
        assert(r.marked(f).recs =~= r.marked(q).recs);
    }
    Some(begin)
}

/// Frees the data ring up to the position `lpos`.
fn data_push_tail(rb: &mut Ringbuffer, lpos: u64, Ghost(target): Ghost<int>) -> (done: bool)
    requires
        old(rb).inv(),
        lpos % 2 == 0 ==> {
            &&& lpos == wd(target)
            &&& target <= old(rb)@.dh
            &&& old(rb)@.dt - target <= 0x4000_0000_0000_0000
        },
    ensures
        final(rb).inv(),
        lpos % 2 == 1 ==> done && *final(rb) == *old(rb),
        lpos % 2 == 0 ==> done == old(rb)@.can_push(target) && final(rb)@ == old(rb)@.pushed(
            target,
        ),
{
    if lpos % 2 != 0 {
        return true;
    }
    let ghost r = rb@;
    let tail: u64 = rb.text_data_ring.tail_lpos;
    proof {
        r.lemma_pushed(target);
        assert(r.marked(r.t).recs =~= r.recs);
        assert(r.marked(r.t) == r);
        assert(Prb { dt: r.dt, ..r.marked(r.t) } == r);
        if target <= r.dt {
            r.lemma_mark_end(r.t, r.dt, target);
        }
    }
    if need_more_space(&rb.text_data_ring, tail, lpos, Ghost(r.dt), Ghost(target)) {
        match data_make_reusable(rb, tail, lpos, Ghost(target)) {
            None => {
                return false;
            },
            Some(next) => {
                let ghost m = *rb;
                rb.text_data_ring.tail_lpos = next;
                proof {
                    rb.model@ = r.pushed(target);
                    rb.lemma_same_slots(m);
                }
            },
        }
    }
    true
}

impl Ringbuffer {
    /// Descriptors stay in place where neither they nor their records change.
    proof fn lemma_same_slots(self, m: Ringbuffer)
        requires
            m.agrees(),
            self.desc_ring.descs@ == m.desc_ring.descs@,
            self.desc_ring.infos@ == m.desc_ring.infos@,
            self@.recs == m@.recs,
            self@.h == m@.h,
            self@.n == m@.n,
        ensures
            forall|s: int| self@.in_window(s) ==> #[trigger] self.slot_ok(s),
            forall|s: int| self@.h - self@.n < s < -1 ==> #[trigger] self.unused_ok(s),
    {
        assert forall|k: int| self@.in_window(k) implies #[trigger] self.slot_ok(k) by {
            assert(m.slot_ok(k));
        }
        assert forall|k: int| self@.h - self@.n < k < -1 implies #[trigger] self.unused_ok(k) by {
            assert(m.unused_ok(k));
        }
    }
}

/// Gives up the oldest record, to make room for a new one.
#[verifier::rlimit(40)]
fn desc_push_tail(rb: &mut Ringbuffer, tail: u64) -> (done: bool)
    requires
        old(rb).inv(),
        tail == old(rb).desc_ring.tail_id,
        old(rb)@.t < old(rb)@.h,
    ensures
        final(rb).inv(),
        done == (old(rb)@.st(old(rb)@.t + 1) >= FINALIZED),
        final(rb)@ == (if done {
            Prb { t: old(rb)@.t + 1, ..old(rb)@.tail_freed() }
        } else {
            old(rb)@.tail_freed()
        }),
{
    let ghost r = rb@;
    proof {
        rb.lemma_slot(r.t);
        rb.lemma_slot(r.t + 1);
        lemma_id(r.n, r.t);
        r.lemma_tail_freed();
        assert(r.st(r.t) == REUSABLE ==> r.with_st(r.t, REUSABLE).recs =~= r.recs);
    }
    let snapshot: Snapshot = desc_read(rb, tail);
    if snapshot.state == MISS {
        return (snapshot.desc.state_var % IDS) != (tail.wrapping_sub(desc_count(&rb.desc_ring))
            % IDS);
    }
    if snapshot.state == RESERVED || snapshot.state == COMMITTED {
        return false;
    }
    if snapshot.state == FINALIZED {
        desc_make_reusable(rb, tail, Ghost(r.t));
    }
    assert(rb@ == r.with_st(r.t, REUSABLE));
    proof {
        lemma_wd_add(r.blk(r.t).e, 0);
    }
    assert(snapshot.desc.text_blk_lpos.next % 2 == 0 <==> r.has(r.t));
    if !data_push_tail(rb, snapshot.desc.text_blk_lpos.next, Ghost(r.blk(r.t).e)) {
        return false;
    }
    assert(rb@ == r.tail_freed());
    let next: u64 = (tail + 1) % IDS;
    proof {
        rb.lemma_slot(r.t + 1);
    }
    let snapshot: Snapshot = desc_read(rb, next);
    if snapshot.state == FINALIZED || snapshot.state == REUSABLE {
        let ghost m = *rb;
        rb.desc_ring.tail_id = next;
        proof {
            m@.lemma_next_tail();
            rb.model@ = Prb { t: r.t + 1, ..m@ };
            rb.lemma_same_slots(m);
        }
        true
    } else {
        false
    }
}

/// The sequence number in the metadata that a new record takes over.
spec fn stale_seq(n: int, s: int) -> int {
    if s - n >= 0 {
        s - n
    } else {
        initial_seq(n, s - n)
    }
}

/// Takes a descriptor for a new record.
#[verifier::rlimit(40)]
fn desc_reserve(rb: &mut Ringbuffer) -> (id: Option<u64>)
    requires
        old(rb).inv(),
        old(rb)@.h + 2 < words(),
        !(old(rb)@.place(old(rb)@.h) is Unset),
    ensures
        final(rb).inv(),
        id is Some <==> old(rb)@.room(),
        id is None ==> final(rb)@ == old(rb)@.tail_freed(),
        id matches Some(id) ==> {
            let s = old(rb)@.h + 1;
            &&& id == id_of(old(rb)@.n, s)
            &&& final(rb)@ == old(rb)@.recycled().with_new(final(rb)@.info(s))
            &&& final(rb)@.info(s).seq == stale_seq(old(rb)@.n, s)
        },
{
    let ghost r = rb@;
    let ghost s = r.h + 1;
    let ghost v = s - r.n;
    proof {
        lemma_id(r.n, r.h);
        lemma_id(r.n, s);
        lemma_id(r.n, v);
        lemma_id_distinct(r.n, v, r.t);
        lemma_ix(r.n, s, s);
        vstd::arithmetic::div_mod::lemma_mod_sub_multiples_vanish(s, r.n);
    }
    let head: u64 = rb.desc_ring.head_id;
    let id: u64 = (head + 1) % IDS;
    let previous: u64 = id.wrapping_sub(desc_count(&rb.desc_ring)) % IDS;
    assert(previous == id_of(r.n, v));
    if previous == rb.desc_ring.tail_id && !desc_push_tail(rb, previous) {
        return None;
    }
    let ghost m = *rb;
    proof {
        r.lemma_recycled();
        assert(rb@ == r.recycled());
        if v >= -1 {
            m.lemma_slot(v);
        } else {
            assert(m.unused_ok(v));
        }
    }
    rb.desc_ring.head_id = id;
    let i: usize = (id % desc_count(&rb.desc_ring)) as usize;
    let prior: u64 = rb.desc_ring.descs[i].state_var;
    if prior != 0 && state(previous, prior) != REUSABLE {
        return None;
    }
    let mut d: Desc = rb.desc_ring.descs[i];
    d.state_var = sv(id, RESERVED);
    rb.desc_ring.descs.set(i, d);
    proof {
        let info = rb.desc_ring.infos@[i as int];
        m@.lemma_with_new(info);
        rb.model@ = m@.with_new(info);
        assert forall|k: int| rb@.in_window(k) implies #[trigger] rb.slot_ok(k) by {
            if k <= r.h {
                assert(m.slot_ok(k));
                lemma_ix(r.n, k, s);
            }
        }
        assert forall|k: int| rb@.h - rb@.n < k < -1 implies #[trigger] rb.unused_ok(k) by {
            assert(m.unused_ok(k));
            lemma_ix(r.n, k, s);
        }
    }
    Some(id)
}

/// The record whose turn it is at the descriptor of `seq`.
spec fn occupant(h: int, n: int, seq: int) -> int {
    h - (h - seq) % n
}

proof fn lemma_occupant(h: int, n: int, seq: int)
    requires
        n > 0,
    ensures
        h - n < occupant(h, n, seq) <= h,
        occupant(h, n, seq) % n == seq % n,
        h - n < seq <= h ==> occupant(h, n, seq) == seq,
{
    let k = (h - seq) / n;
    vstd::arithmetic::div_mod::lemma_fundamental_div_mod(h - seq, n);
    assert(occupant(h, n, seq) == seq + n * k);
    vstd::arithmetic::div_mod::lemma_mod_multiples_vanish(k, seq, n);
    if h - n < seq <= h {
        lemma_ix(n, occupant(h, n, seq), seq);
    }
}

/// Checks that the record `seq` is finalized, and reads its descriptor.
fn finalized_seq(rb: &Ringbuffer, id: u64, seq: u64) -> (out: (i32, Desc))
    requires
        rb.inv(),
        id == rb.desc_ring.descs@[seq as int % rb@.n].state_var as int % ids(),
    ensures
        out.0 == rb@.status(seq as int, false),
        out.0 == 0 ==> out.1 == rb.desc_ring.descs@[seq as int % rb@.n],
{
    proof {
        let r = rb@;
        let w = occupant(r.h, r.n, seq as int);
        lemma_occupant(r.h, r.n, seq as int);
        lemma_ix(r.n, w, w);
        if w >= -1 {
            rb.lemma_slot(w);
            lemma_wd_add(r.blk(w).b, 0);
        } else {
            assert(rb.unused_ok(w));
            lemma_ix(r.n, 0, 0);
            vstd::arithmetic::div_mod::lemma_small_mod(0, r.n as nat);
            if r.h >= 0 {
                rb.lemma_slot(0);
                lemma_id_first(r.n);
            } else {
                assert(rb.unused_ok(-r.n));
                vstd::arithmetic::div_mod::lemma_mod_sub_multiples_vanish(0, r.n);
            }
        }
        if w == -1 && seq == 0 {
            lemma_ix(r.n, -1, 0);
        }
    }
    let snapshot: Snapshot = desc_read(rb, id);
    if snapshot.state == MISS || snapshot.state == RESERVED || snapshot.state == COMMITTED
        || snapshot.seq != seq {
        return (EINVAL, snapshot.desc);
    }
    if snapshot.state == REUSABLE || (snapshot.desc.text_blk_lpos.begin == FAILED_LPOS
        && snapshot.desc.text_blk_lpos.next == FAILED_LPOS) {
        return (ENOENT, snapshot.desc);
    }
    (0, snapshot.desc)
}

/// The sequence number at the tail, that of a record without text too.
pub fn prb_first_seq(rb: &Ringbuffer) -> (seq: u64)
    requires
        rb.wf(),
    ensures
        seq == rb@.first(),
{
    first_seq(rb)
}

fn first_seq(rb: &Ringbuffer) -> (seq: u64)
    requires
        rb.inv(),
    ensures
        seq == rb@.first(),
{
    proof {
        rb.lemma_slot(rb@.t);
    }
    desc_read(rb, rb.desc_ring.tail_id).seq
}

/// The sequence number that the next reservation will receive.
///
/// The last readable record must still have its descriptor: it has where records are written one after
/// another.
pub fn prb_next_reserve_seq(rb: &Ringbuffer) -> (seq: u64)
    requires
        rb.wf(),
        rb@.lf_ok(),
    ensures
        seq == rb@.h + 1,
{
    next_reserve_seq(rb)
}

fn next_reserve_seq(rb: &Ringbuffer) -> (seq: u64)
    requires
        rb.inv(),
        rb@.lf_ok(),
    ensures
        seq == rb@.h + 1,
{
    let ghost r = rb@;
    let seq: u64 = rb.desc_ring.last_finalized_seq;
    let head: u64 = rb.desc_ring.head_id;
    let i: usize = (seq % desc_count(&rb.desc_ring)) as usize;
    let mut id: u64 = rb.desc_ring.descs[i].state_var % IDS;
    proof {
        lemma_ix(r.n, seq as int, seq as int);
        lemma_id(r.n, r.h);
    }
    if finalized_seq(rb, id, seq).0 == EINVAL {
        assert(seq == 0);
        let initial: u64 = IDS - desc_count(&rb.desc_ring) - 1;
        proof {
            lemma_id_first(r.n);
            lemma_id_distinct(r.n, r.h, -1);
        }
        if head == initial {
            return 0;
        }
        id = initial + 1;
    } else {
        proof {
            rb.lemma_slot(seq as int);
        }
    }
    proof {
        lemma_id(r.n, seq as int);
        lemma_id_distinct(r.n, r.h, seq as int);
    }
    assert(id == id_of(r.n, seq as int));
    seq + head.wrapping_sub(id) % IDS + 1
}

/// Whether a position is in another turn of the ring than the byte before `next`.
fn wrapped(ring: &DataRing, begin: u64, next: u64, Ghost(b): Ghost<int>, Ghost(e): Ghost<int>) -> (w:
    bool)
    requires
        3 <= ring.size_bits <= 31,
        begin == wd(b),
        next == wd(e),
        -0x2_0000_0000 <= e - b <= 0x2_0000_0000,
    ensures
        ({
            let d = vstd::arithmetic::power2::pow2(ring.size_bits as nat) as int;
            w == (b / d != (e - 1) / d)
        }),
{
    proof {
        lemma_bits(ring.size_bits as nat);
        lemma_wd_add(e, 1);
        lemma_wd_turn(b, e - 1, vstd::arithmetic::power2::pow2(ring.size_bits as nat) as int);
    }
    begin / data_size(ring) != next.wrapping_sub(1) / data_size(ring)
}

/// Whether a record has no block.
fn dataless(lpos: &DataBlkLpos, Ghost(place): Ghost<Place>) -> (none: bool)
    requires
        lpos_ok(*lpos, place),
        !(place is Unset),
        place matches Place::At { blk } ==> blk.b % 8 == 0,
    ensures
        none == !(place is At),
{
    proof {
        if place is At {
            lemma_wd_add(place->blk.b, 0);
        }
    }
    lpos.begin % 2 != 0 && lpos.next % 2 != 0
}

/// The size of a block for a text, with the ID before it.
fn to_blk_size(size: u32) -> (block: u32)
    requires
        size <= u32::MAX - 15,
    ensures
        block == blk_size(size as int),
{
    (size + 8 + 7) / 8 * 8
}

/// Whether a text is small enough for the ring: a block takes at most half of it.
fn data_check_size(ring: &DataRing, size: u32) -> (fits: bool)
    requires
        ring.size_bits <= 31,
        size <= u32::MAX - 15,
    ensures
        fits == fits_in(
            vstd::arithmetic::power2::pow2(ring.size_bits as nat) as int,
            size as int,
        ),
{
    size == 0 || to_blk_size(size) as u64 <= data_size(ring) / 2
}

/// Where a block lies that does not go round the end of the ring.
#[verifier::spinoff_prover]
proof fn lemma_block_straight(blk: Blk, d: int)
    requires
        ring_size(d),
        d % 8 == 0,
        blk_ok(blk, d),
        blk.b / d == (blk.e - 1) / d,
    ensures
        text_start(blk, d) == blk.b + 8,
        text_start(blk, d) % d == blk.b % d + 8,
        text_start(blk, d) % d >= 8,
        text_start(blk, d) % 8 == 0,
        text_start(blk, d) % d + (blk.e - text_start(blk, d)) <= d,
{
    let q = blk.b / d;
    lemma_at(blk.b, d);
    vstd::arithmetic::div_mod::lemma_fundamental_div_mod(blk.b, d);
    vstd::arithmetic::div_mod::lemma_fundamental_div_mod(blk.e - 1, d);
    if blk.b % d + 8 < d {
        lemma_offset(blk.b, 8, d);
    }
}

/// Where a block lies that goes round the end of the ring.
#[verifier::spinoff_prover]
proof fn lemma_block_round(blk: Blk, d: int)
    requires
        ring_size(d),
        d % 8 == 0,
        blk_ok(blk, d),
        blk.b / d != (blk.e - 1) / d,
    ensures
        blk.b + 8 <= text_start(blk, d),
        text_start(blk, d) % d == 8,
        text_start(blk, d) % 8 == 0,
        text_start(blk, d) % d + (blk.e - text_start(blk, d)) <= d,
        blk.e % d == blk.e - text_start(blk, d) + 8,
{
    let ts = text_start(blk, d);
    let q = blk.b / d;
    let k = d / 8;
    lemma_text_start(blk, d);
    vstd::arithmetic::div_mod::lemma_fundamental_div_mod(blk.b, d);
    assert((q + 1) * d == d * q + d && (q + 1) * d == d * (q + 1)) by (nonlinear_arith);
    assert((q + 1) * d == 8 * ((q + 1) * k)) by (nonlinear_arith)
        requires
            d == 8 * k,
    ;
    vstd::arithmetic::div_mod::lemma_fundamental_div_mod_converse(ts, d, q + 1, 8);
    vstd::arithmetic::div_mod::lemma_fundamental_div_mod_converse(
        blk.e,
        d,
        q + 1,
        blk.e - ts + 8,
    );
}

/// A position is one turn before that one ring further on.
#[verifier::spinoff_prover]
proof fn lemma_next_turn(p: int, d: int)
    requires
        d > 0,
    ensures
        (p + d) / d == p / d + 1,
{
    let q = p / d;
    vstd::arithmetic::div_mod::lemma_fundamental_div_mod(p, d);
    assert((q + 1) * d == d * q + d) by (nonlinear_arith);
    vstd::arithmetic::div_mod::lemma_fundamental_div_mod_converse(p + d, d, q + 1, p % d);
}

/// Where a block lies in the data.
#[verifier::spinoff_prover]
proof fn lemma_block_place(blk: Blk, d: int)
    requires
        ring_size(d),
        d % 8 == 0,
        blk_ok(blk, d),
    ensures
        ({
            let ts = text_start(blk, d);
            let w = blk.b / d != (blk.e - 1) / d;
            &&& blk.b + 8 <= ts
            &&& ts + 8 <= blk.e
            &&& ts % d + (blk.e - ts) <= d
            &&& ts % d >= 8
            &&& ts % 8 == 0
            &&& !w ==> ts % d == blk.b % d + 8 && ts == blk.b + 8
            &&& w ==> ts % d == 8 && blk.e as int % d == blk.e - ts + 8 && (blk.b + d) / d == (blk.e
                - 1) / d
            &&& blk.e - blk.b <= 0x8000_0000
            &&& (blk.b + d) / d == blk.b / d + 1
        }),
{
    lemma_next_turn(blk.b, d);
    if blk.b / d == (blk.e - 1) / d {
        lemma_block_straight(blk, d);
    } else {
        lemma_block_round(blk, d);
    }
}

/// Finds the text of a record: where it begins, and how many bytes its block has for it.
#[verifier::rlimit(60)]
#[verifier::spinoff_prover]
fn get_data(ring: &DataRing, lpos: &DataBlkLpos, Ghost(place): Ghost<Place>) -> (out: Option<
    (usize, u32),
>)
    requires
        3 <= ring.size_bits <= 31,
        lpos_ok(*lpos, place),
        !(place is Unset),
        place matches Place::At { blk } ==> blk_ok(
            blk,
            vstd::arithmetic::power2::pow2(ring.size_bits as nat) as int,
        ),
    ensures
        ({
            let d = vstd::arithmetic::power2::pow2(ring.size_bits as nat) as int;
            match place {
                Place::At { blk } => out matches Some(o) && o.0 == text_start(blk, d) % d && o.1
                    == blk.e - text_start(blk, d),
                Place::Empty => out matches Some(o) && o.0 == 0 && o.1 == 0,
                _ => out is None,
            }
        }),
{
    let ghost d = vstd::arithmetic::power2::pow2(ring.size_bits as nat) as int;
    if dataless(lpos, Ghost(place)) {
        if lpos.begin == EMPTY_LINE_LPOS && lpos.next == EMPTY_LINE_LPOS {
            return Some((0, 0));
        }
        return None;
    }
    let ghost blk = place->blk;
    proof {
        lemma_bits(ring.size_bits as nat);
        lemma_block_place(blk, d);
        lemma_wd_turn(blk.b, blk.e, d);
        lemma_wd_turn(blk.e, blk.b, d);
        lemma_wd_diff(blk.e, blk.b);
        lemma_wd_add(blk.b, 0);
        lemma_wd_add(blk.e, 0);
        lemma_wd_add(blk.b, d as u64);
    }
    let block: u64;
    let mut size: u32;
    if !wrapped(ring, lpos.begin, lpos.next, Ghost(blk.b), Ghost(blk.e)) {
        block = lpos.begin % data_size(ring);
        size = lpos.next.wrapping_sub(lpos.begin) as u32;
    } else if !wrapped(
        ring,
        lpos.begin.wrapping_add(data_size(ring)),
        lpos.next,
        Ghost(blk.b + d),
        Ghost(blk.e),
    ) {
        block = 0;
        size = (lpos.next % data_size(ring)) as u32;
    } else {
        return None;
    }
    if lpos.begin % 8 != 0 || lpos.next % 8 != 0 {
        return None;
    }
    if size <= 8 {
        return None;
    }
    size = size - 8;
    if !data_check_size(ring, size) {
        return None;
    }
    Some(((block + 8) as usize, size))
}

/// How many lines a text has.
pub open spec fn lines_of(text: Seq<u8>) -> int
    decreases text.len(),
{
    if text.len() == 0 {
        1
    } else {
        lines_of(text.drop_last()) + if text.last() == NEWLINE {
            1int
        } else {
            0
        }
    }
}

/// Counts the lines of a text.
fn count_lines(data: &Vec<u8>, at: usize, size: u32) -> (count: u32)
    requires
        at + size <= data@.len(),
        size <= 0xffff,
    ensures
        count == lines_of(data@.subrange(at as int, at + size)),
{
    let _total: usize = data.len();
    let mut count: u32 = 1;
    let mut i: usize = 0;
    while i < size as usize
        invariant
            i <= size,
            at + size <= data@.len() <= usize::MAX,
            size <= 0xffff,
            count == lines_of(data@.subrange(at as int, at + i)),
            count <= i + 1,
        decreases size - i,
    {
        proof {
            assert(data@.subrange(at as int, at + i + 1).drop_last() =~= data@.subrange(
                at as int,
                at + i,
            ));
        }
        if data[at + i] == NEWLINE {
            count = count + 1;
        }
        i = i + 1;
    }
    count
}

/// What was copied of a text.
struct TextCopy {
    text: Vec<u8>,
    lines: u32,
}

/// The smaller of two numbers.
pub open spec fn smaller(a: int, b: int) -> int {
    if a <= b {
        a
    } else {
        b
    }
}

/// Copies the text of a record, up to `size` bytes of it, and counts its lines if `lines`.
fn copy_data(
    rb: &Ringbuffer,
    lpos: &DataBlkLpos,
    len: u16,
    size: u32,
    lines: bool,
    Ghost(s): Ghost<int>,
) -> (out: Option<TextCopy>)
    requires
        rb.inv(),
        rb@.in_window(s),
        lpos_ok(*lpos, rb@.place(s)),
        rb@.has(s) || rb@.place(s) is Empty,
    ensures
        out is None <==> (size > 0 || lines) && len > rb@.avail(s),
        out matches Some(copy) ==> {
            &&& size == 0 ==> copy.text@ == Seq::<u8>::empty()
            &&& size > 0 ==> copy.text@ == rb@.text(s).take(smaller(size as int, len as int))
            &&& lines ==> copy.lines == lines_of(rb@.text(s).take(len as int))
        },
{
    let mut text: Vec<u8> = Vec::new();
    if size == 0 && !lines {
        return Some(TextCopy { text, lines: 0 });
    }
    let ghost r = rb@;
    let ghost place = r.place(s);
    let ghost ts = text_start(r.blk(s), r.d);
    proof {
        assert(r.blk_wf(s));
    }
    let (at, available): (usize, u32) = match get_data(&rb.text_data_ring, lpos, Ghost(place)) {
        None => {
            return None;
        },
        Some(found) => found,
    };
    if available < len as u32 {
        return None;
    }
    proof {
        if r.has(s) {
            lemma_block_place(r.blk(s), r.d);
            assert forall|j: int| 0 <= j < available implies #[trigger] r.text(s)[j]
                == rb.text_data_ring.data@[at + j] by {
                lemma_offset(ts, j, r.d);
            }
        }
        assert(rb.text_data_ring.data@.subrange(at as int, at + len) =~= r.text(s).take(
            len as int,
        ));
    }
    let mut count: u32 = 0;
    if lines {
        count = count_lines(&rb.text_data_ring.data, at, len as u32);
    }
    if size != 0 {
        let _total: usize = rb.text_data_ring.data.len();
        let wanted: u32 = if size <= len as u32 {
            size
        } else {
            len as u32
        };
        let mut i: usize = 0;
        while i < wanted as usize
            invariant
                i <= wanted <= len <= available,
                at + available <= rb.text_data_ring.data@.len() <= usize::MAX,
                text@.len() == i,
                forall|j: int|
                    0 <= j < i ==> #[trigger] text@[j] == rb.text_data_ring.data@[at + j],
            decreases wanted - i,
        {
            text.push(rb.text_data_ring.data[at + i]);
            i = i + 1;
        }
        assert(text@ =~= r.text(s).take(smaller(size as int, len as int)));
    }
    Some(TextCopy { text, lines: count })
}

/// What was read of a record.
pub struct RecordCopy {
    /// The metadata.
    pub info: PrintkInfo,
    /// The text, as far as it was asked for.
    pub text: Vec<u8>,
    /// The number of lines of the text, if it was asked for.
    pub lines: Option<u32>,
}

impl Prb {
    /// Whether `copy` is what a reader gets of the record `s` that asks for up to `size` bytes of its
    /// text, and for the number of its lines if `lines`.
    pub open spec fn copied(self, s: int, size: u32, lines: bool, copy: RecordCopy) -> bool {
        let len = self.info(s).text_len as int;
        &&& copy.info == self.info(s)
        &&& copy.text@ == if size == 0 {
            Seq::<u8>::empty()
        } else {
            self.text(s).take(smaller(size as int, len))
        }
        &&& lines ==> (copy.lines matches Some(count) && count == lines_of(
            self.text(s).take(len),
        ))
        &&& !lines ==> copy.lines is None
    }

    /// What a reader gets of a final record: all of its metadata, as much of its text as was asked for,
    /// and one line more than it has newlines.
    pub proof fn law_copy_of_a_record(self, s: int, size: u32, lines: bool, copy: RecordCopy)
        requires
            self.wf(),
            0 <= s,
            self.in_window(s),
            self.st(s) == FINALIZED,
            !(self.place(s) is Failed),
            size > 0 || lines ==> self.info(s).text_len <= self.avail(s),
            self.copied(self.found(s, size > 0 || lines), size, lines, copy),
        ensures
            self.readable(s, size > 0 || lines),
            copy.info == self.info(s),
            copy.info.seq == s,
            size == 0 ==> copy.text@.len() == 0,
            size > 0 ==> copy.text@ == self.text(s).take(
                if size < self.info(s).text_len {
                    size as int
                } else {
                    self.info(s).text_len as int
                },
            ),
            lines ==> copy.lines is Some && copy.lines->0 == 1 + self.text(s).take(
                self.info(s).text_len as int,
            ).filter(|b: u8| b == 0x0a).len(),
            !lines ==> copy.lines is None,
    {
        self.law_final_record_is_read(s, size > 0 || lines);
        assert(self.st_ok(s));
        if lines {
            law_lines(self.text(s).take(self.info(s).text_len as int));
        }
    }

    /// What a writer puts into a record, a reader gets once the record is final: every field of the
    /// metadata, and the text, or as much of it as the buffer holds.
    pub proof fn law_copy_is_what_was_written(
        self,
        s: int,
        bytes: Seq<u8>,
        info: PrintkInfo,
        size: u32,
        lines: bool,
        copy: RecordCopy,
    )
        requires
            self.wf(),
            0 <= s,
            self.in_window(s),
            self.st(s) == RESERVED,
            self.has(s),
            bytes.len() <= self.avail(s),
            info.seq == s,
            info.text_len == bytes.len(),
            ({
                let r = self.with_text(s, 0, bytes).with_info(s, info).with_st(s, FINALIZED).updated();
                r.copied(r.found(s, size > 0 || lines), size, lines, copy)
            }),
        ensures
            copy.info == info,
            size == 0 ==> copy.text@.len() == 0,
            0 < size < bytes.len() ==> copy.text@ == bytes.take(size as int),
            0 < size && bytes.len() <= size ==> copy.text@ == bytes,
            lines ==> copy.lines is Some && copy.lines->0 == 1 + bytes.filter(|b: u8| b == 0x0a).len(),
            !lines ==> copy.lines is None,
    {
        let r = self.with_text(s, 0, bytes).with_info(s, info).with_st(s, FINALIZED).updated();
        assert(self.st_ok(s) && self.blk_wf(s));
        self.law_reads_what_was_written(s, bytes, info);
        self.lemma_with_text(s, 0, bytes);
        let r1 = self.with_text(s, 0, bytes);
        r1.lemma_with_info(s, info);
        let r2 = r1.with_info(s, info);
        assert(r2.st_ok(s) && r2.blk_wf(s));
        r2.lemma_with_st(s, FINALIZED);
        r2.with_st(s, FINALIZED).lemma_updated();
        r.law_copy_of_a_record(s, size, lines, copy);
        if 0 < size < bytes.len() {
            assert(r.text(s).take(size as int) =~= bytes.take(size as int));
        }
    }

    /// The same goes for a record without text.
    pub proof fn law_copy_of_a_record_without_text(
        self,
        s: int,
        info: PrintkInfo,
        size: u32,
        lines: bool,
        copy: RecordCopy,
    )
        requires
            self.wf(),
            0 <= s,
            self.in_window(s),
            self.st(s) == RESERVED,
            self.place(s) is Empty,
            info.seq == s,
            info.text_len == 0,
            ({
                let r = self.with_info(s, info).with_st(s, FINALIZED).updated();
                r.copied(r.found(s, size > 0 || lines), size, lines, copy)
            }),
        ensures
            copy.info == info,
            copy.text@.len() == 0,
            copy.lines == (if lines {
                Some(1u32)
            } else {
                None
            }),
    {
        let r = self.with_info(s, info).with_st(s, FINALIZED).updated();
        assert(self.st_ok(s) && self.blk_wf(s));
        self.lemma_with_info(s, info);
        let r2 = self.with_info(s, info);
        assert(r2.st_ok(s) && r2.blk_wf(s));
        r2.lemma_with_st(s, FINALIZED);
        r2.with_st(s, FINALIZED).lemma_updated();
        r.law_copy_of_a_record(s, size, lines, copy);
        assert(r.text(s).take(0) =~= Seq::<u8>::empty());
        reveal(Seq::filter);
    }
}

/// A text has one line more than it has newlines.
pub proof fn law_lines(text: Seq<u8>)
    ensures
        lines_of(text) == 1 + text.filter(|b: u8| b == 0x0a).len(),
    decreases text.len(),
{
    reveal(Seq::filter);
    if text.len() > 0 {
        law_lines(text.drop_last());
    }
}

/// Reads the record `seq`.
fn read_record(rb: &Ringbuffer, seq: u64, size: u32, lines: bool) -> (out: Result<
    RecordCopy,
    i32,
>)
    requires
        rb.inv(),
    ensures
        match out {
            Ok(copy) => rb@.status(seq as int, size > 0 || lines) == 0 && rb@.copied(
                seq as int,
                size,
                lines,
                copy,
            ),
            Err(err) => err == rb@.status(seq as int, size > 0 || lines) && err != 0,
        },
{
    let i: usize = (seq % desc_count(&rb.desc_ring)) as usize;
    proof {
        lemma_ix(rb@.n, seq as int, seq as int);
    }
    let info: PrintkInfo = rb.desc_ring.infos[i];
    let id: u64 = rb.desc_ring.descs[i].state_var % IDS;
    let (err, desc): (i32, Desc) = finalized_seq(rb, id, seq);
    if err != 0 {
        return Err(err);
    }
    proof {
        rb.lemma_slot(seq as int);
    }
    match copy_data(rb, &desc.text_blk_lpos, info.text_len, size, lines, Ghost(seq as int)) {
        None => Err(ENOENT),
        Some(copy) => {
            let count: Option<u32> = if lines {
                Some(copy.lines)
            } else {
                None
            };
            Ok(RecordCopy { info, text: copy.text, lines: count })
        },
    }
}

/// Reads the record `seq`, or the next one that can be read, and tells which one it is, or which one
/// the reader has to wait for.
fn read_valid(rb: &Ringbuffer, seq: u64, size: u32, lines: bool) -> (out: (
    Option<RecordCopy>,
    u64,
))
    requires
        rb.inv(),
        rb@.panic ==> rb@.lf_ok(),
    ensures
        out.1 == rb@.found(seq as int, size > 0 || lines),
        out.0 is Some <==> rb@.readable(seq as int, size > 0 || lines),
        out.0 matches Some(copy) ==> rb@.copied(out.1 as int, size, lines, copy),
{
    let ghost r = rb@;
    let ghost data = size > 0 || lines;
    let mut c: u64 = seq;
    let ghost start: int = if seq < r.first() {
        r.first()
    } else {
        seq as int
    };
    proof {
        rb.lemma_slot(r.t);
    }
    loop
        invariant
            r == rb@,
            rb.inv(),
            rb@.panic ==> rb@.lf_ok(),
            data == (size > 0 || lines),
            start == (if seq < r.first() {
                r.first()
            } else {
                seq as int
            }),
            c == seq || c >= start,
            c >= start ==> r.seek(c as int, data) == r.seek(start, data),
        decreases
                (if c < start {
                    1int
                } else {
                    0
                }),
                r.h + 1 - c,
    {
        proof {
            if r.in_window(c as int) {
                rb.lemma_slot(c as int);
            }
        }
        match read_record(rb, c, size, lines) {
            Ok(copy) => {
                return (Some(copy), c);
            },
            Err(err) => {
                let tail: u64 = first_seq(rb);
                if c < tail {
                    c = tail;
                } else if err == ENOENT || (rb.panic && c < u64::MAX && c + 1
                    < next_reserve_seq(rb)) {
                    c = c + 1;
                } else {
                    return (None, c);
                }
            },
        }
    }
}

/// Reads a record or the next one that can be read.
pub fn prb_read_valid(rb: &Ringbuffer, seq: u64, text_buf_size: u32) -> (out: Option<RecordCopy>)
    requires
        rb.wf(),
        rb@.panic ==> rb@.lf_ok(),
    ensures
        out is Some <==> rb@.readable(seq as int, text_buf_size > 0),
        out matches Some(copy) ==> rb@.copied(
            rb@.found(seq as int, text_buf_size > 0),
            text_buf_size,
            false,
            copy,
        ),
{
    read_valid(rb, seq, text_buf_size, false).0
}

/// Reads the metadata of a record or of the next one that can be read, and counts its lines if
/// `lines`.
pub fn prb_read_valid_info(rb: &Ringbuffer, seq: u64, lines: bool) -> (out: Option<RecordCopy>)
    requires
        rb.wf(),
        rb@.panic ==> rb@.lf_ok(),
    ensures
        out is Some <==> rb@.readable(seq as int, lines),
        out matches Some(copy) ==> rb@.copied(rb@.found(seq as int, lines), 0, lines, copy),
{
    read_valid(rb, seq, 0, lines).0
}

/// The sequence number of the oldest record that can be read, or 0.
pub fn prb_first_valid_seq(rb: &Ringbuffer) -> (seq: u64)
    requires
        rb.wf(),
        rb@.panic ==> rb@.lf_ok(),
    ensures
        seq == (if rb@.readable(0, false) {
            rb@.found(0, false)
        } else {
            0
        }),
{
    let (copy, seq): (Option<RecordCopy>, u64) = read_valid(rb, 0, 0, false);
    if copy.is_some() {
        seq
    } else {
        0
    }
}

/// The sequence number behind the last record that can be read.
pub fn prb_next_seq(rb: &Ringbuffer) -> (seq: u64)
    requires
        rb.wf(),
        rb@.panic ==> rb@.lf_ok(),
    ensures
        seq == rb@.next_seq(
            if rb@.lf == 0 {
                0
            } else {
                rb@.lf + 1
            },
        ),
{
    let ghost r = rb@;
    let mut seq: u64 = rb.desc_ring.last_finalized_seq;
    if seq != 0 {
        seq = seq + 1;
    }
    let ghost start = seq as int;
    loop
        invariant
            r == rb@,
            rb.inv(),
            rb@.panic ==> rb@.lf_ok(),
            start == (if r.lf == 0 {
                0
            } else {
                r.lf + 1
            }),
            r.next_seq(seq as int) == r.next_seq(start),
        decreases r.h + 1 - seq,
    {
        let (copy, found): (Option<RecordCopy>, u64) = read_valid(rb, seq, 0, false);
        proof {
            r.lemma_found(seq as int, false);
        }
        if copy.is_none() {
            return found;
        }
        seq = found + 1;
    }
}

/// Looks up the last record that can be read.
fn update_last_finalized(rb: &mut Ringbuffer)
    requires
        old(rb).inv(),
        old(rb)@.panic ==> old(rb)@.lf_ok(),
    ensures
        final(rb).inv(),
        final(rb)@ == old(rb)@.updated(),
{
    let ghost r = rb@;
    let old_seq: u64 = rb.desc_ring.last_finalized_seq;
    let mut finalized: u64 = old_seq;
    let mut next: u64 = finalized + 1;
    loop
        invariant_except_break
            r.last_readable(next as int, finalized as int) == r.updated().lf,
        invariant
            *rb == *old(rb),
            r == rb@,
            rb.inv(),
            rb@.panic ==> rb@.lf_ok(),
        ensures
            finalized == r.updated().lf,
        decreases r.h + 1 - next,
    {
        let (copy, found): (Option<RecordCopy>, u64) = read_valid(rb, next, 0, false);
        proof {
            r.lemma_found(next as int, false);
        }
        if copy.is_none() {
            break;
        }
        finalized = found;
        next = found + 1;
    }
    if finalized == old_seq {
        return ;
    }
    rb.desc_ring.last_finalized_seq = finalized;
    proof {
        r.lemma_updated();
        rb.model@ = r.updated();
        rb.lemma_same_slots(*old(rb));
    }
}

/// Makes a record final that could be reopened.
fn desc_make_final(rb: &mut Ringbuffer, id: u64, Ghost(s): Ghost<int>)
    requires
        old(rb).inv(),
        old(rb)@.in_window(s),
        id == id_of(old(rb)@.n, s),
        old(rb)@.panic ==> old(rb)@.lf_ok(),
    ensures
        final(rb).inv(),
        final(rb)@ == old(rb)@.made_final(s),
{
    proof {
        rb.lemma_slot(s);
    }
    let i: usize = (id % desc_count(&rb.desc_ring)) as usize;
    if rb.desc_ring.descs[i].state_var == sv(id, COMMITTED) {
        proof {
            rb@.lemma_with_st(s, FINALIZED);
        }
        set_state(rb, id, FINALIZED, Ghost(s));
        update_last_finalized(rb);
    }
}

/// The end of a block that begins at `begin` and takes `size` bytes.
fn next_lpos(ring: &DataRing, begin: u64, size: u32, Ghost(b): Ghost<int>) -> (next: u64)
    requires
        3 <= ring.size_bits <= 31,
        begin == wd(b),
    ensures
        ({
            let d = vstd::arithmetic::power2::pow2(ring.size_bits as nat) as int;
            next == wd(block_end(b, size as int, d))
        }),
{
    let ghost d = vstd::arithmetic::power2::pow2(ring.size_bits as nat) as int;
    proof {
        lemma_bits(ring.size_bits as nat);
        lemma_wd_add(b, size as u64);
        lemma_wd_floor(b + size, d);
        lemma_wd_add((b + size) / d * d, size as u64);
    }
    let next: u64 = begin.wrapping_add(size as u64);
    if !wrapped(ring, begin, next, Ghost(b), Ghost(b + size)) {
        next
    } else {
        (next - next % data_size(ring)).wrapping_add(size as u64)
    }
}

/// Stores the place of the newest record.
fn set_lpos(rb: &mut Ringbuffer, id: u64, lpos: DataBlkLpos, Ghost(place): Ghost<Place>)
    requires
        old(rb).inv(),
        id == id_of(old(rb)@.n, old(rb)@.h),
        old(rb)@.with_place(old(rb)@.h, place).wf(),
        lpos_ok(lpos, place),
    ensures
        final(rb).inv(),
        final(rb)@ == old(rb)@.with_place(old(rb)@.h, place),
{
    let ghost r = rb@;
    proof {
        rb.lemma_slot(r.h);
    }
    let i: usize = (id % desc_count(&rb.desc_ring)) as usize;
    let mut d: Desc = rb.desc_ring.descs[i];
    d.text_blk_lpos = lpos;
    rb.desc_ring.descs.set(i, d);
    proof {
        rb.model@ = r.with_place(r.h, place);
        rb.lemma_newest_slot(*old(rb));
    }
}

impl Ringbuffer {
    /// Descriptors stay in place where only that of the newest record changes.
    proof fn lemma_newest_slot(self, m: Ringbuffer)
        requires
            m.inv(),
            self@.h == m@.h,
            self@.n == m@.n,
            self.slot_ok(m@.h),
            self.desc_ring.descs@.len() == m@.n,
            self.desc_ring.infos@.len() == m@.n,
            forall|i: int|
                0 <= i < m@.n && i != m@.h % m@.n ==> #[trigger] self.desc_ring.descs@[i]
                    == m.desc_ring.descs@[i],
            forall|i: int|
                0 <= i < m@.n && i != m@.h % m@.n ==> #[trigger] self.desc_ring.infos@[i]
                    == m.desc_ring.infos@[i],
            forall|k: int| k != m@.h ==> #[trigger] self@.recs[k] == m@.recs[k],
        ensures
            forall|s: int| self@.in_window(s) ==> #[trigger] self.slot_ok(s),
            forall|s: int| self@.h - self@.n < s < -1 ==> #[trigger] self.unused_ok(s),
    {
        let r = m@;
        assert forall|k: int| self@.in_window(k) implies #[trigger] self.slot_ok(k) by {
            assert(m.slot_ok(k));
            lemma_ix(r.n, k, r.h);
        }
        assert forall|k: int| self@.h - self@.n < k < -1 implies #[trigger] self.unused_ok(k) by {
            assert(m.unused_ok(k));
            lemma_ix(r.n, k, r.h);
        }
    }
}

/// Takes a block for a text of `size` bytes of the newest record, and gives where the text begins.
#[verifier::rlimit(30)]
fn data_alloc(rb: &mut Ringbuffer, size: u32, id: u64) -> (text: Option<usize>)
    requires
        old(rb).inv(),
        old(rb)@.writable(),
        !old(rb)@.has(old(rb)@.h),
        id == id_of(old(rb)@.n, old(rb)@.h),
        size <= u32::MAX - 15,
        fits_in(old(rb)@.d, size as int),
    ensures
        final(rb).inv(),
        final(rb)@ == old(rb)@.placed(size as int),
        text is Some <==> size > 0 && old(rb)@.can_place(size as int),
        text matches Some(at) ==> at == text_start(final(rb)@.blk(final(rb)@.h), final(rb)@.d)
            % final(rb)@.d,
{
    let ghost r = rb@;
    proof {
        r.lemma_placed(size as int);
    }
    if size == 0 {
        set_lpos(
            rb,
            id,
            DataBlkLpos { begin: EMPTY_LINE_LPOS, next: EMPTY_LINE_LPOS },
            Ghost(Place::Empty),
        );
        return None;
    }
    let taken: u32 = to_blk_size(size);
    let begin: u64 = rb.text_data_ring.head_lpos;
    let next: u64 = next_lpos(&rb.text_data_ring, begin, taken, Ghost(r.dh));
    let ghost e = block_end(r.dh, taken as int, r.d);
    let ghost blk = Blk { b: r.dh, e };
    proof {
        lemma_wd_diff(e, r.dh);
        lemma_wd_add(e, r.d as u64);
        lemma_wd_add(e - r.d, 0);
        assert(r.recs[r.h].place == r.place(r.h));
    }
    if next.wrapping_sub(begin) > data_size(&rb.text_data_ring) || !data_push_tail(
        rb,
        next.wrapping_sub(data_size(&rb.text_data_ring)),
        Ghost(e - r.d),
    ) {
        set_lpos(
            rb,
            id,
            DataBlkLpos { begin: FAILED_LPOS, next: FAILED_LPOS },
            Ghost(Place::Failed),
        );
        return None;
    }
    let ghost m = *rb;
    proof {
        m.lemma_slot(r.h);
        lemma_block_place(blk, r.d);
        lemma_text_aligned(blk, r.d);
        lemma_wd_turn(r.dh, r.dh, r.d);
        lemma_at(r.dh, r.d);
        lemma_at(text_start(blk, r.d) - 8, r.d);
    }
    rb.text_data_ring.head_lpos = next;
    let mut block: usize = (begin % data_size(&rb.text_data_ring)) as usize;
    put_word(&mut rb.text_data_ring.data, block, id);
    if wrapped(&rb.text_data_ring, begin, next, Ghost(r.dh), Ghost(e)) {
        block = 0;
        put_word(&mut rb.text_data_ring.data, block, id);
    }
    let i: usize = (id % desc_count(&rb.desc_ring)) as usize;
    let mut d: Desc = rb.desc_ring.descs[i];
    d.text_blk_lpos = DataBlkLpos { begin, next };
    rb.desc_ring.descs.set(i, d);
    proof {
        assert(rb.text_data_ring.data@ =~= stamped(r.data, r.d, blk, id));
        rb.model@ = r.placed(size as int);
        rb.lemma_newest_slot(m);
    }
    Some(block + 8)
}

/// Moves the text of a block to the beginning of the ring, behind the ID there.
fn move_text(data: &mut Vec<u8>, block: usize, len: usize)
    requires
        len <= block,
        block + len <= old(data)@.len(),
        8 <= len,
    ensures
        final(data)@ == Seq::new(
            old(data)@.len(),
            |i: int|
                if 8 <= i < len {
                    old(data)@[block + i]
                } else {
                    old(data)@[i]
                },
        ),
{
    let _total: usize = data.len();
    let mut k: usize = 8;
    while k < len
        invariant
            8 <= k <= len <= block,
            block + len <= data@.len() <= usize::MAX,
            data@ == Seq::new(
                old(data)@.len(),
                |i: int|
                    if 8 <= i < k {
                        old(data)@[block + i]
                    } else {
                        old(data)@[i]
                    },
            ),
        decreases len - k,
    {
        let byte: u8 = data[block + k];
        data.set(k, byte);
        k = k + 1;
        assert(data@ =~= Seq::new(
            old(data)@.len(),
            |i: int|
                if 8 <= i < k {
                    old(data)@[block + i]
                } else {
                    old(data)@[i]
                },
        ));
    }
}

/// Grows the block of the newest record up to `next`, after room has been made for it, and gives where
/// the text begins.
#[verifier::rlimit(50)]
#[verifier::spinoff_prover]
fn grow_block(rb: &mut Ringbuffer, id: u64, next: u64, Ghost(r): Ghost<Prb>, Ghost(size): Ghost<
    int,
>) -> (text: usize)
    requires
        old(rb).inv(),
        r.writable(),
        r.has(r.h),
        id == id_of(r.n, r.h),
        0 <= size,
        fits_in(r.d, size),
        r.can_grow(size),
        block_end(r.blk(r.h).b, blk_size(size), r.d) > r.dh,
        next == wd(block_end(r.blk(r.h).b, blk_size(size), r.d)),
        old(rb)@ == r.pushed(r.target(r.blk(r.h).b, size)),
    ensures
        final(rb).inv(),
        final(rb)@ == r.grown(size),
        text == text_start(r.grown(size).blk(r.h), r.d) % r.d,
{
    let ghost m = *rb;
    let ghost blk = r.blk(r.h);
    let ghost e = block_end(blk.b, blk_size(size), r.d);
    let ghost blk2 = Blk { b: blk.b, e };
    proof {
        r.lemma_grown(size);
        m.lemma_slot(r.h);
        lemma_block_place(blk, r.d);
        lemma_block_place(blk2, r.d);
        lemma_wd_turn(blk.b, blk.b, r.d);
        lemma_at(blk.b, r.d);
        lemma_wd_diff(blk.e, blk.b);
        if blk.b / r.d != (e - 1) / r.d && blk.b % r.d + blk_size(size) - 1 < r.d {
            lemma_offset(blk.b, blk_size(size) - 1, r.d);
        }
    }
    let i: usize = (id % desc_count(&rb.desc_ring)) as usize;
    let mut d: Desc = rb.desc_ring.descs[i];
    let begin: u64 = d.text_blk_lpos.begin;
    let end: u64 = d.text_blk_lpos.next;
    let start: usize = (begin % data_size(&rb.text_data_ring)) as usize;
    let was_wrapped: bool = wrapped(&rb.text_data_ring, begin, end, Ghost(blk.b), Ghost(blk.e));
    rb.text_data_ring.head_lpos = next;
    let mut block: usize = start;
    if wrapped(&rb.text_data_ring, begin, next, Ghost(blk.b), Ghost(e)) {
        block = 0;
        if !was_wrapped {
            move_text(&mut rb.text_data_ring.data, start, end.wrapping_sub(begin) as usize);
        }
        put_word(&mut rb.text_data_ring.data, block, id);
    }
    d.text_blk_lpos.next = next;
    rb.desc_ring.descs.set(i, d);
    proof {
        assert(rb.text_data_ring.data@ =~= regrown(r.data, r.d, blk, e, id));
        rb.model@ = r.grown(size);
        rb.lemma_newest_slot(m);
    }
    block + 8
}

/// Grows the block of the newest record for a text of `size` bytes, and gives where the text begins.
#[verifier::rlimit(40)]
#[verifier::spinoff_prover]
fn data_realloc(rb: &mut Ringbuffer, size: u32, id: u64) -> (text: Option<usize>)
    requires
        old(rb).inv(),
        old(rb)@.writable(),
        old(rb)@.has(old(rb)@.h),
        id == id_of(old(rb)@.n, old(rb)@.h),
        size <= u32::MAX - 15,
        fits_in(old(rb)@.d, size as int),
    ensures
        final(rb).inv(),
        final(rb)@ == old(rb)@.grown(size as int),
        text is Some <==> old(rb)@.can_grow(size as int),
        text matches Some(at) ==> at == text_start(final(rb)@.blk(final(rb)@.h), final(rb)@.d)
            % final(rb)@.d,
{
    let ghost r = rb@;
    let ghost blk = r.blk(r.h);
    proof {
        r.lemma_grown(size as int);
        rb.lemma_slot(r.h);
        lemma_block_place(blk, r.d);
        lemma_wd_turn(blk.b, blk.b, r.d);
        lemma_at(blk.b, r.d);
    }
    let i: usize = (id % desc_count(&rb.desc_ring)) as usize;
    let lpos: DataBlkLpos = rb.desc_ring.descs[i].text_blk_lpos;
    let begin: u64 = lpos.begin;
    let end: u64 = lpos.next;
    let head: u64 = rb.text_data_ring.head_lpos;
    if head != end {
        return None;
    }
    let taken: u32 = to_blk_size(size);
    let next: u64 = next_lpos(&rb.text_data_ring, begin, taken, Ghost(blk.b));
    let ghost e = block_end(blk.b, taken as int, r.d);
    if !need_more_space(&rb.text_data_ring, head, next, Ghost(r.dh), Ghost(e)) {
        if wrapped(&rb.text_data_ring, begin, end, Ghost(blk.b), Ghost(blk.e)) {
            return Some(8);
        }
        let start: usize = (begin % data_size(&rb.text_data_ring)) as usize;
        return Some(start + 8);
    }
    proof {
        lemma_wd_diff(e, blk.b);
        lemma_wd_add(e, r.d as u64);
        lemma_wd_add(e - r.d, 0);
    }
    if next.wrapping_sub(begin) > data_size(&rb.text_data_ring) || !data_push_tail(
        rb,
        next.wrapping_sub(data_size(&rb.text_data_ring)),
        Ghost(e - r.d),
    ) {
        return None;
    }
    Some(grow_block(rb, id, next, Ghost(r), Ghost(size as int)))
}

/// How much of the data ring the block of a record takes.
fn space_used(ring: &DataRing, lpos: &DataBlkLpos, Ghost(place): Ghost<Place>) -> (space: u32)
    requires
        lpos_ok(*lpos, place),
        !(place is Unset),
        place matches Place::At { blk } ==> blk.b % 8 == 0 && 0 <= blk.e - blk.b <= 0x8000_0000,
    ensures
        space == (match place {
            Place::At { blk } => blk.e - blk.b,
            _ => 0,
        }),
{
    if dataless(lpos, Ghost(place)) {
        return 0;
    }
    proof {
        lemma_wd_diff(place->blk.e, place->blk.b);
    }
    lpos.next.wrapping_sub(lpos.begin) as u32
}

/// Reopens the newest record, if it is committed and has the caller `caller`.
fn desc_reopen_last(rb: &mut Ringbuffer, caller: u32) -> (id: Option<u64>)
    requires
        old(rb).inv(),
    ensures
        final(rb).inv(),
        id is Some <==> old(rb)@.reopens(caller),
        id is None ==> *final(rb) == *old(rb),
        id matches Some(id) ==> {
            &&& id == id_of(old(rb)@.n, old(rb)@.h)
            &&& final(rb)@ == old(rb)@.with_st(old(rb)@.h, RESERVED)
        },
{
    let ghost r = rb@;
    proof {
        rb.lemma_slot(r.h);
    }
    let id: u64 = rb.desc_ring.head_id;
    let snapshot: Snapshot = desc_read(rb, id);
    if snapshot.state != COMMITTED || snapshot.caller != caller {
        return None;
    }
    proof {
        r.lemma_with_st(r.h, RESERVED);
    }
    set_state(rb, id, RESERVED, Ghost(r.h));
    Some(id)
}

/// The reservation of a record by a writer.
pub struct ReservedEntry {
    irqflags: bool,
    id: u64,
    text_space: u32,
    seq: Ghost<int>,
}

impl ReservedEntry {
    /// The sequence number of the record.
    pub closed spec fn seq(self) -> int {
        self.seq@
    }

    /// The ID of the record.
    pub closed spec fn id(self) -> u64 {
        self.id
    }

    /// Whether interrupts were enabled before the reservation.
    pub closed spec fn irqflags(self) -> bool {
        self.irqflags
    }

    /// How much of the data ring the record takes.
    pub closed spec fn text_space(self) -> u32 {
        self.text_space
    }
}

/// What a writer asks for, and where it finds it: the index of the metadata, and where the text
/// begins in the data ring.
pub struct Record {
    pub info: Option<usize>,
    pub text_buf: Option<usize>,
    pub text_buf_size: u32,
}

impl Ringbuffer {
    /// Whether a reservation is that of a record that is being written.
    pub open spec fn owns(self, e: ReservedEntry) -> bool {
        &&& 0 <= e.seq()
        &&& self@.in_window(e.seq())
        &&& self@.st(e.seq()) == RESERVED
        &&& e.id() == id_of(self@.n, e.seq())
    }
}

/// Ends a reservation.
fn commit(rb: &mut Ringbuffer, irq: &mut Interrupts, e: &ReservedEntry, state: i32)
    requires
        old(rb).wf(),
        old(rb).owns(*e),
        state == FINALIZED || state == COMMITTED && e.seq() == old(rb)@.h,
    ensures
        final(rb).wf(),
        final(rb)@ == old(rb)@.with_st(e.seq(), state),
        final(irq).enabled == e.irqflags(),
{
    let ghost s = e.seq();
    proof {
        rb.lemma_slot(s);
    }
    let i: usize = (e.id % desc_count(&rb.desc_ring)) as usize;
    if rb.desc_ring.descs[i].state_var == sv(e.id, RESERVED) {
        proof {
            rb@.lemma_with_st(s, state);
        }
        set_state(rb, e.id, state, Ghost(s));
    }
    irq.enabled = e.irqflags;
}

/// Where records are written one after another, a reservation is that of the newest record, and it
/// can be committed.
proof fn lemma_one_writer_owns(rb: Ringbuffer, e: ReservedEntry)
    requires
        rb.wf(),
        rb.owns(e),
    ensures
        rb@.one_writer() ==> {
            &&& e.seq() == rb@.h
            &&& rb@.committed(e.seq()).one_writer()
            &&& rb@.with_st(e.seq(), FINALIZED).updated().one_writer()
            &&& rb@.with_st(e.seq(), FINALIZED).updated().lf == e.seq()
        },
{
    if rb@.one_writer() {
        assert(rb@.st_ok(e.seq()));
        if e.seq() < rb@.h {
            assert(rb@.st(e.seq()) >= FINALIZED);
        }
        rb@.law_one_writer_commits();
    }
}

/// Commits a reserved record, which can be reopened while it is the newest.
pub fn prb_commit(rb: &mut Ringbuffer, irq: &mut Interrupts, e: &ReservedEntry)
    requires
        old(rb).wf(),
        old(rb).owns(*e),
        old(rb)@.panic ==> old(rb)@.lf_ok(),
    ensures
        final(rb).wf(),
        final(rb)@ == old(rb)@.committed(e.seq()),
        final(irq).enabled == e.irqflags(),
        old(rb)@.one_writer() ==> final(rb)@.one_writer(),
{
    proof {
        lemma_id_distinct(rb@.n, rb@.h, e.seq());
        lemma_one_writer_owns(*rb, *e);
    }
    if rb.desc_ring.head_id == e.id {
        commit(rb, irq, e, COMMITTED);
    } else {
        // A record that is not the newest is final at once.
        commit(rb, irq, e, FINALIZED);
        update_last_finalized(rb);
    }
}

/// Commits and finalizes a reserved record.
pub fn prb_final_commit(rb: &mut Ringbuffer, irq: &mut Interrupts, e: &ReservedEntry)
    requires
        old(rb).wf(),
        old(rb).owns(*e),
        old(rb)@.panic ==> old(rb)@.lf_ok(),
    ensures
        final(rb).wf(),
        final(rb)@ == old(rb)@.with_st(e.seq(), FINALIZED).updated(),
        final(irq).enabled == e.irqflags(),
        old(rb)@.one_writer() ==> final(rb)@.one_writer() && final(rb)@.lf == e.seq(),
{
    proof {
        lemma_one_writer_owns(*rb, *e);
    }
    commit(rb, irq, e, FINALIZED);
    update_last_finalized(rb);
}

/// How much of the data ring a reservation takes.
pub fn prb_record_text_space(e: &ReservedEntry) -> (space: u32)
    ensures
        space == e.text_space(),
{
    e.text_space
}

/// Metadata with nothing in it but a sequence number.
pub open spec fn blank_info(info: PrintkInfo, seq: int) -> bool {
    &&& info.seq == seq
    &&& info.ts_nsec == 0
    &&& info.text_len == 0
    &&& info.facility == 0
    &&& info.flags_level == 0
    &&& info.caller_id == 0
    &&& info.execution_context@ == Seq::new(16, |i: int| 0u8)
    &&& info.dev_info@ == Seq::new(64, |i: int| 0u8)
}

/// Makes metadata with nothing in it but a sequence number.
fn empty_info(seq: u64) -> (info: PrintkInfo)
    ensures
        blank_info(info, seq as int),
{
    let execution_context: [u8; 16] = [0u8; 16];
    let dev_info: [u8; 64] = [0u8; 64];
    assert(execution_context@ =~= Seq::new(16, |i: int| 0u8));
    assert(dev_info@ =~= Seq::new(64, |i: int| 0u8));
    PrintkInfo {
        seq,
        ts_nsec: 0,
        text_len: 0,
        facility: 0,
        flags_level: 0,
        caller_id: 0,
        execution_context,
        dev_info,
    }
}

/// Stores the metadata of a record.
fn set_info(rb: &mut Ringbuffer, id: u64, info: PrintkInfo, Ghost(s): Ghost<int>)
    requires
        old(rb).inv(),
        old(rb)@.in_window(s),
        s >= 0,
        info.seq == s,
        id == id_of(old(rb)@.n, s),
    ensures
        final(rb).inv(),
        final(rb)@ == old(rb)@.with_info(s, info),
{
    let ghost r = rb@;
    proof {
        rb.lemma_slot(s);
        r.lemma_with_info(s, info);
    }
    let i: usize = (id % desc_count(&rb.desc_ring)) as usize;
    rb.desc_ring.infos.set(i, info);
    proof {
        rb.model@ = r.with_info(s, info);
        assert forall|k: int| rb@.in_window(k) implies #[trigger] rb.slot_ok(k) by {
            assert(old(rb).slot_ok(k));
            lemma_ix(r.n, k, s);
        }
        assert forall|k: int| rb@.h - rb@.n < k < -1 implies #[trigger] rb.unused_ok(k) by {
            assert(old(rb).unused_ok(k));
            lemma_ix(r.n, k, s);
        }
    }
}

impl Record {
    /// Whether nothing is asked for or given.
    pub open spec fn cleared(self) -> bool {
        self.info is None && self.text_buf is None && self.text_buf_size == 0
    }

    /// Whether a writer finds the metadata and the text of the record `s` here.
    pub open spec fn locates(self, r: Prb, s: int) -> bool {
        &&& self.info matches Some(i) && i == s % r.n
        &&& r.has(s) ==> (self.text_buf matches Some(at) && at == text_start(r.blk(s), r.d) % r.d)
        &&& !r.has(s) ==> self.text_buf is None
    }
}

impl Prb {
    /// How much of the data ring a record takes.
    pub open spec fn space(self, s: int) -> int {
        if self.has(s) {
            self.blk(s).e - self.blk(s).b
        } else {
            0
        }
    }

    /// A record takes the bytes for its text and the ID before it, and more only if its block goes round
    /// the end of the ring; then it takes what is left before the end as well.
    pub proof fn law_space(self, s: int)
        requires
            self.wf(),
            self.in_window(s),
        ensures
            !self.has(s) ==> self.space(s) == 0,
            self.has(s) && self.blk(s).b / self.d == (self.blk(s).e - 1) / self.d ==> self.space(s)
                == self.avail(s) + 8,
            self.has(s) && self.blk(s).b / self.d != (self.blk(s).e - 1) / self.d ==> self.space(s)
                == self.avail(s) + 8 + (self.d - self.blk(s).b % self.d),
    {
        assert(self.blk_wf(s));
        let b = self.blk(s).b;
        let d = self.d;
        vstd::arithmetic::div_mod::lemma_fundamental_div_mod(b, d);
        let q = b / d;
        assert((q + 1) * d == d * q + d) by (nonlinear_arith);
    }
}

/// Reserves a new record with room for `text_buf_size` bytes of text.
///
/// The oldest records make room. Without a descriptor the record is refused; without room for the
/// text it is committed without text.
#[verifier::rlimit(40)]
pub fn prb_reserve(rb: &mut Ringbuffer, irq: &mut Interrupts, r: &mut Record) -> (e: Option<
    ReservedEntry,
>)
    requires
        old(rb).wf(),
        old(r).text_buf_size <= u32::MAX - 15,
        old(rb)@.h + 2 < words(),
        old(rb)@.panic && old(rb)@.room() ==> old(rb)@.lf_stays(),
    ensures
        final(rb).wf(),
        old(rb)@.one_writer() && old(rb)@.st(old(rb)@.h) != RESERVED ==> final(rb)@.one_writer(),
        e is None ==> final(r).cleared() && final(irq).enabled == old(irq).enabled,
        ({
            let m = old(rb)@;
            let size = old(r).text_buf_size as int;
            let s = m.h + 1;
            let info = final(rb)@.info(s);
            if !fits_in(m.d, size) {
                e is None && final(rb)@ == m
            } else if !m.room() {
                e is None && final(rb)@ == (Prb { fail: m.fail + 1, ..m.tail_freed() })
            } else {
                &&& blank_info(info, s)
                &&& e is Some <==> m.entered(info).can_place(size)
                &&& e is None ==> final(rb)@ == m.entered(info).placed(size).with_st(s, COMMITTED)
                &&& e matches Some(e) ==> {
                    &&& final(rb)@ == m.entered(info).placed(size)
                    &&& final(rb).owns(e)
                    &&& e.seq() == s
                    &&& e.irqflags() == old(irq).enabled
                    &&& e.text_space() == final(rb)@.space(s)
                    &&& final(r).locates(final(rb)@, s)
                    &&& final(r).text_buf_size == size
                    &&& size > 0 ==> final(rb)@.has(s)
                    &&& size <= final(rb)@.avail(s)
                    &&& !final(irq).enabled
                }
            }
        }),
{
    let ghost m = rb@;
    let ghost s = m.h + 1;
    let size: u32 = r.text_buf_size;
    if data_check_size(&rb.text_data_ring, size) {
        let irqflags: bool = irq.enabled;
        irq.enabled = false;
        match desc_reserve(rb) {
            Some(id) => {
                let ghost m1 = rb@;
                proof {
                    rb.lemma_slot(s);
                    lemma_id(m.n, s - 1);
                }
                let count: u64 = desc_count(&rb.desc_ring);
                let index: u64 = id % count;
                let old_seq: u64 = rb.desc_ring.infos[index as usize].seq;
                proof {
                    lemma_new_seq(m.n, s);
                }
                let seq: u64 = if old_seq == 0 && index != 0 {
                    index
                } else {
                    old_seq.wrapping_add(count)
                };
                assert(seq == s);
                let info: PrintkInfo = empty_info(seq);
                set_info(rb, id, info, Ghost(s));
                assert(rb@.recs =~= m.recycled().with_new(info).recs);
                assert(rb@ == m.recycled().with_new(info));
                if seq != 0 {
                    desc_make_final(rb, id.wrapping_sub(1) % IDS, Ghost(s - 1));
                }
                proof {
                    assert(rb@ == m.entered(info));
                    if m.panic {
                        lemma_entered_lf(m, info, rb@);
                    }
                    if m.one_writer() && m.st(m.h) != RESERVED {
                        m.law_one_writer_reserves(size as int, info);
                    }
                }
                let ghost m2 = rb@;
                proof {
                    assert(m2.info(s) == info);
                    assert(m2.st(s) == RESERVED && m2.place(s) is Unset);
                    assert(m2.in_window(s - 1) ==> m2.st_ok(s - 1));
                }
                let text: Option<usize> = data_alloc(rb, size, id);
                proof {
                    lemma_placed_newest(m2, size as int);
                    rb.lemma_slot(s);
                    if rb@.has(s) {
                        lemma_block_place(rb@.blk(s), m.d);
                        if size > 0 {
                            lemma_block_covers(rb@.blk(s), size as int, m.d);
                        }
                    }
                }
                if size == 0 || text.is_some() {
                    let lpos: DataBlkLpos = rb.desc_ring.descs[index as usize].text_blk_lpos;
                    let text_space: u32 = space_used(
                        &rb.text_data_ring,
                        &lpos,
                        Ghost(rb@.place(s)),
                    );
                    r.info = Some(index as usize);
                    r.text_buf = text;
                    return Some(ReservedEntry { irqflags, id, text_space, seq: Ghost(s) });
                }
                let e = ReservedEntry { irqflags, id, text_space: 0, seq: Ghost(s) };
                prb_commit(rb, irq, &e);
            },
            None => {
                let ghost m1 = *rb;
                rb.fail = rb.fail.wrapping_add(1);
                proof {
                    lemma_wd_add(m1@.fail, 1);
                    rb.model@ = Prb { fail: m1@.fail + 1, ..m1@ };
                    lemma_fail_wf(m1@, rb@);
                    rb.lemma_same_slots(m1);
                    if m.one_writer() {
                        m.law_one_writer_refused();
                    }
                }
                irq.enabled = irqflags;
            },
        }
    }
    r.info = None;
    r.text_buf = None;
    r.text_buf_size = 0;
    None
}

/// The sequence number that a new record gets.
proof fn lemma_new_seq(n: int, s: int)
    requires
        ring_size(n),
        0 <= s < words(),
    ensures
        ({
            let stale = stale_seq(n, s);
            &&& 0 <= stale < words()
            &&& stale == 0 && s % n != 0 ==> s % n == s
            &&& !(stale == 0 && s % n != 0) ==> (stale as u64).wrapping_add(n as u64) == s
        }),
{
    if s < n {
        vstd::arithmetic::div_mod::lemma_small_mod(s as nat, n as nat);
    } else if s == n {
        vstd::arithmetic::div_mod::lemma_mod_self_0(n);
    }
}

/// The sequence number of the next record can be told after a new one.
proof fn lemma_entered_lf(m: Prb, info: PrintkInfo, r: Prb)
    requires
        m.lf_stays(),
        r == m.entered(info),
        m.recycled().with_new(info).wf(),
    ensures
        r.lf_ok(),
{
    let r1 = m.recycled().with_new(info);
    assert(r1.lf_ok());
    if m.h >= 0 && r1.st(m.h) == COMMITTED {
        assert(r1.in_window(m.h));
        assert(r1.st_ok(m.h) && r1.blk_wf(m.h));
        r1.lemma_with_st(m.h, FINALIZED);
        r1.with_st(m.h, FINALIZED).lemma_updated_lf();
    }
}

/// What a place changes of the newest record.
proof fn lemma_placed_newest(m: Prb, size: int)
    ensures
        ({
            let r = m.placed(size);
            &&& r.h == m.h
            &&& r.n == m.n
            &&& r.d == m.d
            &&& r.lf == m.lf
            &&& r.panic == m.panic
            &&& !m.has(m.h) ==> r.st(m.h) == m.st(m.h) && r.info(m.h) == m.info(m.h)
            &&& !(r.place(m.h) is Unset)
            &&& size == 0 ==> r.place(m.h) is Empty
            &&& size > 0 && m.can_place(size) ==> r.has(m.h)
            &&& size > 0 && !m.can_place(size) ==> r.place(m.h) is Failed
        }),
{
}

/// The count of refused records is free.
proof fn lemma_fail_wf(m: Prb, r: Prb)
    requires
        m.wf(),
        r == (Prb { fail: m.fail + 1, ..m }),
    ensures
        r.wf(),
{
    assert forall|k: int| r.in_window(k) implies #[trigger] r.st_ok(k) by {
        assert(m.st_ok(k));
    }
    assert forall|k: int| r.in_window(k) implies #[trigger] r.blk_wf(k) by {
        assert(m.blk_wf(k));
    }
    m.lemma_contig_same(r, m.t, m.dt);
}

/// Makes room for more text of the newest record, which has been reopened, and gives how much of the
/// data ring it takes then.
#[verifier::rlimit(40)]
fn extend_last(rb: &mut Ringbuffer, r: &mut Record, id: u64, max: u32, Ghost(m): Ghost<Prb>) -> (space:
    Option<u32>)
    requires
        m.wf(),
        !(m.place(m.h) is Unset),
        m.h >= 0,
        m.st(m.h) == COMMITTED,
        old(rb).inv(),
        old(rb)@ == m.with_st(m.h, RESERVED),
        id == id_of(m.n, m.h),
        m.total(old(r).text_buf_size as int) <= u32::MAX - 15,
    ensures
        final(rb).wf(),
        ({
            let size = old(r).text_buf_size as int;
            &&& !m.allows(size, max as int) ==> space is None && final(rb)@ == m.reopened()
            &&& m.allows(size, max as int) ==> {
                &&& final(rb)@ == m.extended(size)
                &&& space is Some <==> m.can_extend(size)
            }
            &&& space matches Some(space) ==> {
                &&& space == final(rb)@.space(m.h)
                &&& final(r).locates(final(rb)@, m.h)
                &&& final(r).text_buf_size == m.total(size)
                &&& m.total(size) > 0 ==> final(rb)@.has(m.h)
                &&& m.total(size) <= final(rb)@.avail(m.h)
            }
        }),
        final(rb)@.h == m.h,
        final(rb)@.n == m.n,
        final(rb)@.lf == m.lf,
        final(rb)@.panic == m.panic,
        final(rb)@.st(m.h) == RESERVED,
{
    let ghost o = m.reopened();
    let ghost size = r.text_buf_size as int;
    proof {
        rb.lemma_slot(m.h);
        assert(m.st_ok(m.h) && m.blk_wf(m.h));
        assert(m.in_window(m.h - 1) ==> m.st_ok(m.h - 1));
        if m.has(m.h) {
            lemma_block_place(m.blk(m.h), m.d);
        }
    }
    let i: usize = (id % desc_count(&rb.desc_ring)) as usize;
    let pos: DataBlkLpos = rb.desc_ring.descs[i].text_blk_lpos;
    let mut info: PrintkInfo = rb.desc_ring.infos[i];
    if dataless(&pos, Ghost(m.place(m.h))) {
        if info.text_len != 0 {
            info.text_len = 0;
            set_info(rb, id, info, Ghost(m.h));
        }
        proof {
            assert(rb@.recs =~= o.recs);
            assert(rb@ == o);
        }
        if !data_check_size(&rb.text_data_ring, r.text_buf_size) || r.text_buf_size > max {
            return None;
        }
        r.text_buf = data_alloc(rb, r.text_buf_size, id);
        proof {
            lemma_placed_newest(o, size);
        }
    } else {
        let available: u32 = match get_data(&rb.text_data_ring, &pos, Ghost(m.place(m.h))) {
            None => {
                return None;
            },
            Some(found) => found.1,
        };
        if info.text_len as u32 > available {
            info.text_len = available as u16;
            set_info(rb, id, info, Ghost(m.h));
        }
        proof {
            assert(rb@.recs =~= o.recs);
            assert(rb@ == o);
        }
        r.text_buf_size = r.text_buf_size + info.text_len as u32;
        if !data_check_size(&rb.text_data_ring, r.text_buf_size) || r.text_buf_size > max {
            return None;
        }
        r.text_buf = data_realloc(rb, r.text_buf_size, id);
        proof {
            o.lemma_grown(m.total(size));
        }
    }
    proof {
        rb.lemma_slot(m.h);
        if rb@.has(m.h) {
            lemma_block_place(rb@.blk(m.h), m.d);
        }
    }
    if r.text_buf_size != 0 && r.text_buf.is_none() {
        return None;
    }
    proof {
        if rb@.has(m.h) && m.total(size) > 0 {
            lemma_block_covers(rb@.blk(m.h), m.total(size), m.d);
        }
    }
    r.info = Some(i);
    let pos: DataBlkLpos = rb.desc_ring.descs[i].text_blk_lpos;
    Some(space_used(&rb.text_data_ring, &pos, Ghost(rb@.place(m.h))))
}

/// Extends the newest record, if it is committed and has the caller `caller_id`, by `text_buf_size`
/// bytes of text, up to `max` bytes.
pub fn prb_reserve_in_last(
    rb: &mut Ringbuffer,
    irq: &mut Interrupts,
    r: &mut Record,
    caller_id: u32,
    max: u32,
) -> (e: Option<ReservedEntry>)
    requires
        old(rb).wf(),
        old(rb)@.reopens(caller_id) ==> old(rb)@.total(old(r).text_buf_size as int) <= u32::MAX
            - 15,
        old(rb)@.panic ==> old(rb)@.lf_ok(),
    ensures
        final(rb).wf(),
        old(rb)@.one_writer() ==> final(rb)@.one_writer(),
        e is None ==> final(r).cleared() && final(irq).enabled == old(irq).enabled,
        ({
            let m = old(rb)@;
            let size = old(r).text_buf_size as int;
            if !m.reopens(caller_id) {
                e is None && final(rb)@ == m
            } else if !m.allows(size, max as int) {
                e is None && final(rb)@ == m.reopened().with_st(m.h, COMMITTED)
            } else {
                &&& e is Some <==> m.can_extend(size)
                &&& e is None ==> final(rb)@ == m.extended(size).with_st(m.h, COMMITTED)
                &&& e matches Some(e) ==> {
                    &&& final(rb)@ == m.extended(size)
                    &&& final(rb).owns(e)
                    &&& e.seq() == m.h
                    &&& e.irqflags() == old(irq).enabled
                    &&& e.text_space() == final(rb)@.space(m.h)
                    &&& final(r).locates(final(rb)@, m.h)
                    &&& final(r).text_buf_size == m.total(size)
                    &&& m.total(size) > 0 ==> final(rb)@.has(m.h)
                    &&& m.total(size) <= final(rb)@.avail(m.h)
                    &&& !final(irq).enabled
                }
            }
        }),
{
    let ghost m = rb@;
    let irqflags: bool = irq.enabled;
    irq.enabled = false;
    proof {
        rb.lemma_slot(m.h);
        if m.one_writer() && m.reopens(caller_id) {
            assert(m.st_ok(m.h));
            m.law_one_writer_extends(r.text_buf_size as int);
        }
    }
    match desc_reopen_last(rb, caller_id) {
        None => {
            irq.enabled = irqflags;
        },
        Some(id) => {
            match extend_last(rb, r, id, max, Ghost(m)) {
                Some(text_space) => {
                    return Some(ReservedEntry { irqflags, id, text_space, seq: Ghost(m.h) });
                },
                None => {
                    let e = ReservedEntry { irqflags, id, text_space: 0, seq: Ghost(m.h) };
                    prb_commit(rb, irq, &e);
                },
            }
        },
    }
    r.info = None;
    r.text_buf = None;
    r.text_buf_size = 0;
    None
}

/// Makes a ring buffer of arrays for the text, the descriptors and the metadata.
#[verifier::rlimit(40)]
pub fn prb_init(
    text: Vec<u8>,
    textbits: u32,
    descs: Vec<Desc>,
    descbits: u32,
    infos: Vec<PrintkInfo>,
) -> (rb: Ringbuffer)
    requires
        1 <= descbits <= 31,
        3 <= textbits <= 31,
        text@.len() == vstd::arithmetic::power2::pow2(textbits as nat),
        descs@.len() == vstd::arithmetic::power2::pow2(descbits as nat),
        infos@.len() == vstd::arithmetic::power2::pow2(descbits as nat),
    ensures
        rb.wf(),
        rb@.n == descs@.len(),
        rb@.d == text@.len(),
        rb@.data == text@,
        rb@.h == -1,
        rb@.t == -1,
        rb@.lf == 0,
        rb@.fail == 0,
        !rb@.panic,
        rb@.one_writer(),
{
    proof {
        lemma_bits(textbits as nat);
        lemma_bits(descbits as nat);
    }
    let count: usize = descs.len();
    let ghost n: int = count as int;
    let size: u64 = text.len() as u64;
    let id: u64 = IDS - count as u64 - 1;
    let mut descs: Vec<Desc> = descs;
    let mut infos: Vec<PrintkInfo> = infos;
    let empty = Desc { state_var: 0, text_blk_lpos: DataBlkLpos { begin: 0, next: 0 } };
    let mut i: usize = 0;
    while i < count
        invariant
            i <= count,
            count == n,
            descs@.len() == n,
            infos@.len() == n,
            forall|j: int| 0 <= j < i ==> (#[trigger] descs@[j]).state_var == 0,
            forall|j: int| 0 <= j < i ==> (#[trigger] infos@[j]).seq == 0,
            empty.state_var == 0,
        decreases count - i,
    {
        descs.set(i, empty);
        let blank: PrintkInfo = empty_info(0);
        infos.set(i, blank);
        i = i + 1;
    }
    let failed = DataBlkLpos { begin: FAILED_LPOS, next: FAILED_LPOS };
    descs.set(count - 1, Desc { state_var: sv(id, REUSABLE), text_blk_lpos: failed });
    let first: PrintkInfo = empty_info(u64::MAX - count as u64 + 1);
    infos.set(0, first);
    let ghost last = infos@[n - 1];
    let ghost model = Prb {
        n,
        d: size as int,
        data: text@,
        recs: Map::new(
            |s: int| true,
            |s: int| Rec { st: REUSABLE, place: Place::Failed, info: last },
        ),
        h: -1,
        t: -1,
        dh: -(size as int),
        dt: -(size as int),
        lf: 0,
        fail: 0,
        panic: false,
    };
    let lpos: u64 = 0u64.wrapping_sub(size);
    let rb = Ringbuffer {
        desc_ring: DescRing {
            count_bits: descbits,
            descs,
            infos,
            head_id: id,
            tail_id: id,
            last_finalized_seq: 0,
        },
        text_data_ring: DataRing { size_bits: textbits, data: text, head_lpos: lpos, tail_lpos: lpos },
        fail: 0,
        panic: false,
        model: Ghost(model),
    };
    proof {
        lemma_id_first(n);
        lemma_wd_add(0, size);
        lemma_wd_zero();
        lemma_first_slots(n);
        assert forall|k: int| rb@.in_window(k) implies #[trigger] rb.slot_ok(k) by {}
        assert forall|k: int| rb@.h - rb@.n < k < -1 implies #[trigger] rb.unused_ok(k) by {
            lemma_ix(n, k, -1);
            if k != -n {
                lemma_ix(n, k, -n);
            }
        }
        reveal_with_fuel(Prb::contig, 2);
    }
    rb
}

/// Where the first records have their descriptors.
proof fn lemma_first_slots(n: int)
    requires
        n >= 2,
    ensures
        -1int % n == n - 1,
        (-n) % n == 0,
{
    vstd::arithmetic::div_mod::lemma_fundamental_div_mod_converse(-1, n, -1, n - 1);
    vstd::arithmetic::div_mod::lemma_fundamental_div_mod_converse(-n, n, -1, 0);
}

proof fn lemma_wd_zero()
    ensures
        wd(0) == 0,
{
    reveal(wd);
}

/// Writes `bytes` at offset `off` of the text of a reserved record.
pub fn prb_write_text(rb: &mut Ringbuffer, e: &ReservedEntry, off: usize, bytes: &[u8])
    requires
        old(rb).wf(),
        old(rb).owns(*e),
        old(rb)@.has(e.seq()),
        off + bytes@.len() <= old(rb)@.avail(e.seq()),
    ensures
        final(rb).wf(),
        old(rb)@.one_writer() ==> final(rb)@.one_writer(),
        final(rb).owns(*e),
        final(rb)@ == old(rb)@.with_text(e.seq(), off as int, bytes@),
{
    let ghost r = rb@;
    let ghost s = e.seq();
    proof {
        if rb@.one_writer() {
            rb@.law_one_writer_writes(e.seq(), off as int, bytes@, rb@.info(e.seq()), rb@.panic);
        }
        rb.lemma_slot(s);
        r.lemma_with_text(s, off as int, bytes@);
        r.lemma_text_piece(s);
    }
    let i: usize = (e.id % desc_count(&rb.desc_ring)) as usize;
    let pos: DataBlkLpos = rb.desc_ring.descs[i].text_blk_lpos;
    if let Some((start, _)) = get_data(&rb.text_data_ring, &pos, Ghost(r.place(s))) {
        let _total: usize = rb.text_data_ring.data.len();
        let at: usize = start + off;
        let mut k: usize = 0;
        while k < bytes.len()
            invariant
                k <= bytes@.len(),
                at + bytes@.len() <= r.d <= usize::MAX,
                rb.text_data_ring.data@ == overwritten(
                    r.data,
                    at as int,
                    bytes@.take(k as int),
                ),
                r.data.len() == r.d,
                rb.desc_ring == old(rb).desc_ring,
                rb.text_data_ring.size_bits == old(rb).text_data_ring.size_bits,
                rb.text_data_ring.head_lpos == old(rb).text_data_ring.head_lpos,
                rb.text_data_ring.tail_lpos == old(rb).text_data_ring.tail_lpos,
                rb.fail == old(rb).fail,
                rb.panic == old(rb).panic,
                rb.model@ == r,
            decreases bytes@.len() - k,
        {
            rb.text_data_ring.data.set(at + k, bytes[k]);
            k = k + 1;
            assert(rb.text_data_ring.data@ =~= overwritten(
                r.data,
                at as int,
                bytes@.take(k as int),
            ));
        }
        proof {
            assert(bytes@.take(k as int) =~= bytes@);
            rb.model@ = r.with_text(s, off as int, bytes@);
            rb.lemma_same_slots(*old(rb));
        }
    }
}

/// Writes the metadata of a reserved record, but for its sequence number.
pub fn prb_write_info(rb: &mut Ringbuffer, e: &ReservedEntry, info: PrintkInfo)
    requires
        old(rb).wf(),
        old(rb).owns(*e),
    ensures
        final(rb).wf(),
        old(rb)@.one_writer() ==> final(rb)@.one_writer(),
        final(rb).owns(*e),
        final(rb)@ == old(rb)@.with_info(
            e.seq(),
            (PrintkInfo { seq: old(rb)@.info(e.seq()).seq, ..info }),
        ),
        final(rb)@.info(e.seq()).seq == e.seq(),
{
    let ghost s = e.seq();
    proof {
        if rb@.one_writer() {
            let stored = PrintkInfo { seq: rb@.info(s).seq, ..info };
            rb@.law_one_writer_writes(s, 0, Seq::empty(), stored, rb@.panic);
        }
        rb.lemma_slot(s);
    }
    let i: usize = (e.id % desc_count(&rb.desc_ring)) as usize;
    let mut info: PrintkInfo = info;
    info.seq = rb.desc_ring.infos[i].seq;
    set_info(rb, e.id, info, Ghost(s));
}

/// Tells the ring buffer whether the system is in a panic: its readers pass over records that are
/// being written if this processor is the one that panicked and the others are not to be waited for.
pub fn prb_set_panic(
    rb: &mut Ringbuffer,
    panic_cpu: bool,
    debug_non_panic_cpus: bool,
    legacy_allow_panic_sync: bool,
)
    requires
        old(rb).wf(),
    ensures
        final(rb).wf(),
        old(rb)@.one_writer() ==> final(rb)@.one_writer(),
        final(rb)@ == (Prb {
            panic: panic_cpu && (!debug_non_panic_cpus || legacy_allow_panic_sync),
            ..old(rb)@
        }),
{
    let ghost r = rb@;
    rb.panic = panic_cpu && (!debug_non_panic_cpus || legacy_allow_panic_sync);
    proof {
        if r.one_writer() {
            r.law_one_writer_writes(r.h, 0, Seq::empty(), r.info(r.h), rb.panic);
        }
        rb.model@ = Prb { panic: rb.panic, ..r };
        let m = rb@;
        assert forall|k: int| m.in_window(k) implies #[trigger] m.st_ok(k) by {
            assert(r.st_ok(k));
        }
        assert forall|k: int| m.in_window(k) implies #[trigger] m.blk_wf(k) by {
            assert(r.blk_wf(k));
        }
        r.lemma_contig_same(m, r.t, r.dt);
        rb.lemma_same_slots(*old(rb));
    }
}

/// A record whose text and metadata are written, and that is made final then, is read with its text, or
/// as much of it as is asked for, and with every field of its metadata; its number it has had before.
pub proof fn law_written_record_is_read(
    w: &mut Ringbuffer,
    e: &ReservedEntry,
    bytes: &[u8],
    i: &mut Ringbuffer,
    info: PrintkInfo,
    c: &mut Ringbuffer,
    irq: &mut Interrupts,
    rb: &Ringbuffer,
    seq: u64,
    size: u32,
    read: Option<RecordCopy>,
    lines: bool,
    counted: Option<RecordCopy>,
)
    requires
        old(w).wf(),
        old(w).owns(*e),
        old(w)@.has(e.seq()),
        seq == e.seq(),
        bytes@.len() <= old(w)@.avail(e.seq()),
        info.text_len == bytes@.len(),
        size > 0,
        call_ensures(prb_write_text, (w, e, 0usize, bytes), ()),
        *old(i) == *final(w),
        call_ensures(prb_write_info, (i, e, info), ()),
        *old(c) == *final(i),
        call_ensures(prb_final_commit, (c, irq, e), ()),
        *rb == *final(c),
        call_ensures(prb_read_valid, (rb, seq, size), read),
        call_ensures(prb_read_valid_info, (rb, seq, lines), counted),
    ensures
        read is Some,
        read->0.info == (PrintkInfo { seq, ..info }),
        bytes@.len() <= size ==> read->0.text@ == bytes@,
        size < bytes@.len() ==> read->0.text@ == bytes@.take(size as int),
        read->0.lines is None,
        counted is Some,
        counted->0.info == (PrintkInfo { seq, ..info }),
        counted->0.text@.len() == 0,
        lines ==> counted->0.lines is Some && counted->0.lines->0 == 1 + bytes@.filter(
            |b: u8| b == 0x0a,
        ).len(),
        !lines ==> counted->0.lines is None,
{
    let m = old(w)@;
    let s = e.seq();
    let stored = PrintkInfo { seq, ..info };
    assert(m.st_ok(s) && m.blk_wf(s));
    assert(m.info(s).seq == s);
    let r = m.with_text(s, 0, bytes@).with_info(s, stored).with_st(s, FINALIZED).updated();
    assert(rb@ == r);
    m.law_reads_what_was_written(s, bytes@, stored);
    m.law_copy_is_what_was_written(s, bytes@, stored, size, false, read->0);
    m.lemma_with_text(s, 0, bytes@);
    m.with_text(s, 0, bytes@).lemma_with_info(s, stored);
    let r2 = m.with_text(s, 0, bytes@).with_info(s, stored);
    assert(r2.st_ok(s) && r2.blk_wf(s));
    r2.lemma_with_st(s, FINALIZED);
    r2.with_st(s, FINALIZED).lemma_updated();
    r.law_final_record_is_read(s, lines);
    m.law_copy_is_what_was_written(s, bytes@, stored, 0, lines, counted->0);
}

/// A text that takes more than half of the ring is refused, and nothing changes; where no record is being
/// written, any other one gets the next number, and room.
pub proof fn law_reserving(
    rb: &mut Ringbuffer,
    irq: &mut Interrupts,
    r: &mut Record,
    e: Option<ReservedEntry>,
)
    requires
        old(rb).wf(),
        call_ensures(prb_reserve, (rb, irq, r), e),
    ensures
        old(r).text_buf_size > 0 && 2 * blk_size(old(r).text_buf_size as int) > old(rb)@.d ==> e is None
            && final(rb)@ == old(rb)@,
        e is None ==> final(r).info is None && final(r).text_buf is None && final(r).text_buf_size == 0
            && final(irq).enabled == old(irq).enabled,
        ({
            &&& old(rb)@.h + 2 < words()
            &&& forall|k: int| old(rb)@.t <= k <= old(rb)@.h ==> #[trigger] old(rb)@.st(k) != RESERVED
            &&& old(rb)@.n > 2
            &&& old(r).text_buf_size == 0 || 2 * blk_size(old(r).text_buf_size as int) <= old(rb)@.d
        }) ==> {
            &&& e is Some
            &&& e->0.seq() == old(rb)@.h + 1
            &&& final(rb)@.h == old(rb)@.h + 1
            &&& final(rb)@.st(e->0.seq()) == RESERVED
            &&& final(rb)@.info(e->0.seq()).seq == e->0.seq()
            &&& final(rb)@.info(e->0.seq()).text_len == 0
            &&& final(rb)@.avail(e->0.seq()) >= old(r).text_buf_size
            &&& !final(irq).enabled
            &&& e->0.irqflags() == old(irq).enabled
        },
{
    let m = old(rb)@;
    let size = old(r).text_buf_size as int;
    let s = m.h + 1;
    let info = final(rb)@.info(s);
    if m.h + 2 < words() && (forall|k: int| m.t <= k <= m.h ==> #[trigger] m.st(k) != RESERVED) && m.n
        > 2 && (size == 0 || 2 * blk_size(size) <= m.d) {
        assert(fits_in(m.d, size));
        m.law_reservation_succeeds(size, info);
        m.law_new_record(info, size);
    }
}

/// The numbers that a ring buffer tells: the oldest record, the one that readers wait for, and the one
/// that the next reservation gets.
pub proof fn law_numbers(rb: &Ringbuffer, first: u64, valid: u64, next: u64, copy: Option<RecordCopy>)
    requires
        rb.wf(),
        call_ensures(prb_first_seq, (rb,), first),
        call_ensures(prb_first_valid_seq, (rb,), valid),
        call_ensures(prb_next_reserve_seq, (rb,), next),
        call_ensures(prb_read_valid, (rb, 0u64, 0u32), copy),
    ensures
        rb@.t >= 0 ==> first == rb@.t,
        rb@.t < 0 ==> first == 0,
        next == rb@.h + 1,
        copy is Some ==> copy->0.info.seq == valid && copy->0.text@.len() == 0,
        copy is None ==> valid == 0,
{
    if rb@.readable(0, false) {
        rb@.law_only_final_records_are_read(0, false);
    }
}

/// Extending the newest record keeps its text and its metadata, and asks for room for both texts; it is
/// refused for another caller, and where the text would be too long.
pub proof fn law_extending(
    rb: &mut Ringbuffer,
    irq: &mut Interrupts,
    r: &mut Record,
    caller_id: u32,
    max: u32,
    e: Option<ReservedEntry>,
)
    requires
        old(rb).wf(),
        old(rb)@.h >= 0,
        old(rb)@.has(old(rb)@.h),
        old(rb)@.info(old(rb)@.h).text_len <= old(rb)@.avail(old(rb)@.h),
        call_ensures(prb_reserve_in_last, (rb, irq, r, caller_id, max), e),
    ensures
        ({
            let m = old(rb)@;
            let len = m.info(m.h).text_len as int;
            let size = old(r).text_buf_size as int;
            &&& m.st(m.h) != COMMITTED || m.info(m.h).caller_id != caller_id ==> e is None
                && final(rb)@ == m
            &&& size + len > max || size + len > 0 && 2 * blk_size(size + len) > m.d ==> e is None
            &&& m.st(m.h) == COMMITTED && m.info(m.h).caller_id == caller_id && size + len <= max && (size
                + len == 0 || 2 * blk_size(size + len) <= m.d) && m.can_extend(size) ==> e is Some
            &&& e is Some ==> {
                &&& e->0.seq() == m.h
                &&& final(r).text_buf_size == size + len
                &&& final(rb)@.info(m.h) == m.info(m.h)
                &&& final(rb)@.text(m.h).take(len) == m.text(m.h).take(len)
                &&& final(rb)@.avail(m.h) >= size + len
            }
        }),
{
    let m = old(rb)@;
    let len = m.info(m.h).text_len as int;
    let size = old(r).text_buf_size as int;
    if fits_in(m.d, size + len) {
        m.law_extended_record(caller_id, size);
    }
}

/// A reader gets the record that it asks for, if that can be read, and a later one only if that has been
/// lost, or, in a panic, is not final. It gets no record that is not final, and none that a later read
/// would not give.
pub proof fn law_reading(rb: &Ringbuffer, seq: u64, size: u32, out: Option<RecordCopy>)
    requires
        rb.wf(),
        size > 0,
        call_ensures(prb_read_valid, (rb, seq, size), out),
    ensures
        out is Some ==> {
            let q = out->0.info.seq as int;
            let len = out->0.info.text_len as int;
            &&& seq <= q <= rb@.h
            &&& rb@.st(q) == FINALIZED
            &&& out->0.info == rb@.info(q)
            &&& out->0.text@ == rb@.text(q).take(if size < len {
                size as int
            } else {
                len
            })
            &&& out->0.lines is None
            &&& forall|k: int| seq <= k < q ==> #[trigger] rb@.status(k, true) != 0
        },
        rb@.first() <= seq <= rb@.h && rb@.st(seq as int) == FINALIZED && !(rb@.place(
            seq as int,
        ) is Failed) && rb@.info(seq as int).text_len <= rb@.avail(seq as int) ==> out is Some
            && out->0.info.seq == seq,
        seq > rb@.h ==> out is None,
{
    if out is Some {
        rb@.law_only_final_records_are_read(seq as int, true);
        let q = rb@.found(seq as int, true);
        assert forall|k: int| seq <= k < q implies #[trigger] rb@.status(k, true) != 0 by {
            rb@.law_reader_passes_over_lost_records_only(seq as int, true, k);
        }
    }
    if rb@.first() <= seq <= rb@.h {
        assert(rb@.in_window(seq as int));
        if rb@.st(seq as int) == FINALIZED && !(rb@.place(seq as int) is Failed) && rb@.info(
            seq as int,
        ).text_len <= rb@.avail(seq as int) {
            rb@.law_final_record_is_read(seq as int, true);
            assert(rb@.st_ok(seq as int));
        }
    }
    if seq > rb@.h {
        rb@.law_unfinished_records_are_waited_for(seq as int, true);
    }
}

/// What a writer is told of a record leads to it: the metadata is at the index of its descriptor, and the
/// text begins at the index in the data ring.
pub proof fn law_located(r: Record, m: Prb, s: int, j: int)
    requires
        m.wf(),
        m.in_window(s),
        r.locates(m, s),
        0 <= j < m.avail(s),
    ensures
        r.info is Some && r.info->0 == s % m.n,
        m.has(s) ==> r.text_buf is Some && m.text(s)[j] == m.data[r.text_buf->0 + j],
        !m.has(s) ==> r.text_buf is None,
{
    if m.has(s) {
        m.lemma_text_piece(s);
    }
}

/// The newest record is reopened with its metadata, but for a length beyond what its block holds, which
/// becomes what the block holds.
pub proof fn law_reopened(m: Prb)
    requires
        m.wf(),
        m.avail(m.h) <= u16::MAX || m.info(m.h).text_len <= m.avail(m.h),
    ensures
        m.reopened().st(m.h) == RESERVED,
        m.reopened().place(m.h) == m.place(m.h),
        m.reopened().info(m.h) == (PrintkInfo {
            text_len: if m.info(m.h).text_len <= m.avail(m.h) {
                m.info(m.h).text_len
            } else {
                m.avail(m.h) as u16
            },
            ..m.info(m.h)
        }),
{
}

/// A record that is committed while it is the newest is not read, so that it can still be reopened.
pub proof fn law_committed_record_is_waited_for(
    c: &mut Ringbuffer,
    irq: &mut Interrupts,
    e: &ReservedEntry,
    rb: &Ringbuffer,
    seq: u64,
    size: u32,
    out: Option<RecordCopy>,
)
    requires
        old(c).wf(),
        old(c).owns(*e),
        e.seq() == old(c)@.h,
        seq == e.seq(),
        call_ensures(prb_commit, (c, irq, e), ()),
        *rb == *final(c),
        call_ensures(prb_read_valid, (rb, seq, size), out),
    ensures
        out is None,
        rb@.st(e.seq()) == COMMITTED,
        final(irq).enabled == e.irqflags(),
{
    old(c).lemma_wf();
    old(c)@.law_commit(e.seq(), e.seq(), size > 0);
}

/// Readers pass over records that are not final in a panic only, on the processor that panicked, and then
/// only where the others are not to be waited for.
pub proof fn law_panic(rb: &mut Ringbuffer, cpu: bool, debug: bool, legacy: bool)
    requires
        call_ensures(prb_set_panic, (rb, cpu, debug, legacy), ()),
    ensures
        !cpu ==> !final(rb)@.panic,
        cpu && !debug ==> final(rb)@.panic,
        cpu && debug ==> final(rb)@.panic == legacy,
        final(rb)@.recs == old(rb)@.recs,
        final(rb)@.data == old(rb)@.data,
        final(rb)@.h == old(rb)@.h,
{
}

/// The metadata of a new record is its number, and zero in every other field.
pub proof fn law_blank_info(info: PrintkInfo, seq: int, i: int)
    requires
        blank_info(info, seq),
    ensures
        info.seq == seq,
        (info.ts_nsec, info.text_len, info.facility) == (0u64, 0u16, 0u8),
        (info.flags_level, info.caller_id) == (0u8, 0u32),
        0 <= i < 16 ==> info.execution_context@[i] == 0,
        0 <= i < 64 ==> info.dev_info@[i] == 0,
{
}

} // verus!
