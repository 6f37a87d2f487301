use klib::lock::Interrupts;
use klib::printk_ringbuffer::{
    prb_commit, prb_final_commit, prb_first_seq, prb_first_valid_seq, prb_init,
    prb_next_reserve_seq, prb_next_seq, prb_read_valid, prb_read_valid_info, prb_record_text_space,
    prb_reserve, prb_reserve_in_last, prb_set_panic, prb_write_info, prb_write_text, DataBlkLpos,
    Desc, PrintkInfo, Record, ReservedEntry, Ringbuffer,
};

const BLANK: PrintkInfo = PrintkInfo {
    seq: 0,
    ts_nsec: 0,
    text_len: 0,
    facility: 0,
    flags_level: 0,
    caller_id: 0,
    execution_context: [0; 16],
    dev_info: [0; 64],
};

/// A ring buffer for eight records and 256 bytes.
fn ring() -> Ringbuffer {
    let desc = Desc { state_var: 0, text_blk_lpos: DataBlkLpos { begin: 0, next: 0 } };
    prb_init(vec![0; 256], 8, vec![desc; 8], 3, vec![BLANK; 8])
}

fn irq() -> Interrupts {
    Interrupts { enabled: true }
}

fn record(size: u32) -> Record {
    Record { info: None, text_buf: None, text_buf_size: size }
}

/// Reserves a record with the sequence number `seq` for a text, and writes it.
fn reserve(rb: &mut Ringbuffer, irq: &mut Interrupts, seq: u64, text: &[u8]) -> ReservedEntry {
    let mut r = record(text.len() as u32);
    let e = prb_reserve(rb, irq, &mut r).unwrap();
    assert!(!irq.enabled);
    prb_write_text(rb, &e, 0, text);
    let info = PrintkInfo { seq, text_len: text.len() as u16, caller_id: 7, ..BLANK };
    prb_write_info(rb, &e, info);
    e
}

/// Stores a record.
fn store(rb: &mut Ringbuffer, seq: u64, text: &[u8]) {
    let mut irq = irq();
    let e = reserve(rb, &mut irq, seq, text);
    prb_final_commit(rb, &mut irq, &e);
    assert!(irq.enabled);
}

fn read(rb: &Ringbuffer, seq: u64) -> Option<(u64, Vec<u8>)> {
    prb_read_valid(rb, seq, 1000).map(|copy| (copy.info.seq, copy.text))
}

#[test]
fn empty_ring_buffer() {
    let rb = ring();
    assert!(prb_read_valid(&rb, 0, 100).is_none());
    assert!(prb_read_valid_info(&rb, 5, false).is_none());
    assert_eq!(prb_first_seq(&rb), 0);
    assert_eq!(prb_first_valid_seq(&rb), 0);
    assert_eq!(prb_next_seq(&rb), 0);
    assert_eq!(prb_next_reserve_seq(&rb), 0);
}

#[test]
fn what_is_written_is_read() {
    let mut rb = ring();
    store(&mut rb, 0, b"hello");
    store(&mut rb, 1, b"two\nlines");
    assert_eq!(read(&rb, 0), Some((0, b"hello".to_vec())));
    assert_eq!(read(&rb, 1), Some((1, b"two\nlines".to_vec())));
    assert_eq!(read(&rb, 2), None);
    assert_eq!(prb_next_seq(&rb), 2);
    assert_eq!(prb_next_reserve_seq(&rb), 2);
    let copy = prb_read_valid_info(&rb, 1, true).unwrap();
    assert_eq!((copy.info.text_len, copy.info.caller_id, copy.lines), (9, 7, Some(2)));
    assert!(copy.text.is_empty());
    // A buffer that is too small gets the beginning of the text.
    let copy = prb_read_valid(&rb, 0, 3).unwrap();
    assert_eq!((copy.text, copy.info.text_len, copy.lines), (b"hel".to_vec(), 5, None));
}

#[test]
fn records_without_text() {
    let mut rb = ring();
    store(&mut rb, 0, b"");
    store(&mut rb, 1, b"x");
    assert_eq!(read(&rb, 0), Some((0, vec![])));
    assert_eq!(read(&rb, 1), Some((1, b"x".to_vec())));
}

#[test]
fn reserved_records_are_waited_for() {
    let mut rb = ring();
    let mut outer = irq();
    let first = reserve(&mut rb, &mut outer, 0, b"first");
    store(&mut rb, 1, b"second");
    assert_eq!(read(&rb, 0), None);
    assert_eq!(read(&rb, 1), Some((1, b"second".to_vec())));
    // It counts what can be read already.
    assert_eq!(prb_next_seq(&rb), 2);
    assert_eq!(prb_next_reserve_seq(&rb), 2);
    prb_commit(&mut rb, &mut outer, &first);
    // A later record made it final.
    assert_eq!(read(&rb, 0), Some((0, b"first".to_vec())));
    assert_eq!(prb_next_seq(&rb), 2);
}

#[test]
fn committed_record_is_final_with_the_next() {
    let mut rb = ring();
    let mut irq = irq();
    let e = reserve(&mut rb, &mut irq, 0, b"open");
    prb_commit(&mut rb, &mut irq, &e);
    assert!(irq.enabled);
    assert_eq!(read(&rb, 0), None);
    store(&mut rb, 1, b"next");
    assert_eq!(read(&rb, 0), Some((0, b"open".to_vec())));
}

#[test]
fn committed_record_is_extended() {
    let mut rb = ring();
    let mut irq = irq();
    let e = reserve(&mut rb, &mut irq, 0, b"hello");
    prb_commit(&mut rb, &mut irq, &e);
    // Another caller cannot, and neither can anyone go beyond the limit.
    assert!(prb_reserve_in_last(&mut rb, &mut irq, &mut record(6), 8, 100).is_none());
    assert!(prb_reserve_in_last(&mut rb, &mut irq, &mut record(6), 7, 10).is_none());
    assert!(irq.enabled);
    let mut r = record(6);
    let e = prb_reserve_in_last(&mut rb, &mut irq, &mut r, 7, 100).unwrap();
    assert_eq!(r.text_buf_size, 11);
    prb_write_text(&mut rb, &e, 5, b" world");
    prb_write_info(&mut rb, &e, PrintkInfo { text_len: 11, caller_id: 7, ..BLANK });
    prb_final_commit(&mut rb, &mut irq, &e);
    assert_eq!(read(&rb, 0), Some((0, b"hello world".to_vec())));
    // What is final is not extended.
    assert!(prb_reserve_in_last(&mut rb, &mut irq, &mut record(1), 7, 100).is_none());
}

#[test]
fn block_that_is_not_the_newest_is_moved() {
    let mut rb = ring();
    let mut irq = irq();
    let e = reserve(&mut rb, &mut irq, 0, &[b'a'; 100]);
    prb_commit(&mut rb, &mut irq, &e);
    let mut r = record(20);
    let e = prb_reserve_in_last(&mut rb, &mut irq, &mut r, 7, 1000).unwrap();
    prb_write_text(&mut rb, &e, 100, &[b'b'; 20]);
    prb_write_info(&mut rb, &e, PrintkInfo { text_len: 120, caller_id: 7, ..BLANK });
    prb_final_commit(&mut rb, &mut irq, &e);
    let text = read(&rb, 0).unwrap().1;
    assert_eq!(text, [vec![b'a'; 100], vec![b'b'; 20]].concat());
}

#[test]
fn oldest_records_are_lost() {
    let mut rb = ring();
    for seq in 0..30 {
        store(&mut rb, seq, format!("record {seq}").as_bytes());
    }
    assert_eq!(prb_next_seq(&rb), 30);
    let first = prb_first_valid_seq(&rb);
    assert_eq!(first, prb_first_seq(&rb));
    assert!(22 <= first && first < 30);
    // A reader that is too late goes on with the oldest one.
    assert_eq!(read(&rb, 0), Some((first, format!("record {first}").into_bytes())));
    for seq in first..30 {
        assert_eq!(read(&rb, seq), Some((seq, format!("record {seq}").into_bytes())));
    }
}

#[test]
fn long_texts_push_out_others() {
    let mut rb = ring();
    for seq in 0..12 {
        store(&mut rb, seq, &[seq as u8; 110]);
        assert_eq!(read(&rb, seq), Some((seq, vec![seq as u8; 110])));
    }
    // There is room for the last two texts.
    assert_eq!(prb_read_valid_info(&rb, 9, false).unwrap().info.seq, 10);
    assert_eq!(read(&rb, 9), Some((10, vec![10; 110])));
}

#[test]
fn texts_that_are_too_long_are_refused() {
    let mut rb = ring();
    let mut irq = irq();
    let mut r = record(121);
    assert!(prb_reserve(&mut rb, &mut irq, &mut r).is_none());
    assert!(irq.enabled);
    assert_eq!((r.text_buf_size, r.info, r.text_buf), (0, None, None));
    let e = prb_reserve(&mut rb, &mut irq, &mut record(120)).unwrap();
    assert_eq!(prb_record_text_space(&e), 128);
}

#[test]
fn no_descriptor_is_left_where_all_are_reserved() {
    let mut rb = ring();
    let mut held = Vec::new();
    let mut irq = irq();
    while let Some(e) = prb_reserve(&mut rb, &mut irq, &mut record(0)) {
        held.push(e);
        assert!(held.len() <= 8);
    }
    assert!(held.len() >= 7);
    for e in &held {
        prb_final_commit(&mut rb, &mut irq, e);
    }
    assert!(prb_reserve(&mut rb, &mut irq, &mut record(0)).is_some());
}

#[test]
fn panic_passes_over_what_is_not_final() {
    let mut rb = ring();
    let mut outer = irq();
    let _held = reserve(&mut rb, &mut outer, 0, b"never ends");
    store(&mut rb, 1, b"after");
    assert_eq!(read(&rb, 0), None);
    prb_set_panic(&mut rb, true, true, false);
    assert_eq!(read(&rb, 0), None);
    prb_set_panic(&mut rb, true, false, false);
    assert_eq!(read(&rb, 0), Some((1, b"after".to_vec())));
    assert_eq!(prb_next_seq(&rb), 2);
}

#[test]
fn one_writer_always_knows_the_next_number() {
    let mut rb = ring();
    let mut irq = irq();
    for seq in 0..40u64 {
        assert_eq!(prb_next_reserve_seq(&rb), seq);
        let e = reserve(&mut rb, &mut irq, seq, b"some text of a record");
        assert_eq!(prb_next_reserve_seq(&rb), seq + 1);
        if seq % 3 == 0 {
            prb_commit(&mut rb, &mut irq, &e);
        } else {
            prb_final_commit(&mut rb, &mut irq, &e);
            assert_eq!(prb_next_seq(&rb), seq + 1);
        }
        // A text that is too long takes no number.
        let mut r = record(200);
        assert!(prb_reserve(&mut rb, &mut irq, &mut r).is_none());
        assert_eq!((r.info, r.text_buf, r.text_buf_size), (None, None, 0));
        assert_eq!(prb_next_reserve_seq(&rb), seq + 1);
    }
}
