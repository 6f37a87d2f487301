use klib::kfifo::{
    __kfifo, __kfifo_alloc_node, __kfifo_dma_in_finish_r, __kfifo_dma_in_prepare,
    __kfifo_dma_in_prepare_r, __kfifo_dma_out_prepare, __kfifo_dma_out_prepare_r, __kfifo_free,
    __kfifo_from_user, __kfifo_from_user_r, __kfifo_in, __kfifo_in_r, __kfifo_init, __kfifo_len_r,
    __kfifo_max_r, __kfifo_out, __kfifo_out_linear, __kfifo_out_linear_r, __kfifo_out_peek,
    __kfifo_out_peek_r, __kfifo_out_r, __kfifo_skip_r, __kfifo_to_user, __kfifo_to_user_r, kfifo_new,
    SgEntry, DMA_MAPPING_ERROR, EFAULT, EINVAL, ENOMEM,
};

/// A FIFO with room for eight elements.
fn fifo(esize: usize) -> __kfifo {
    let mut f = kfifo_new();
    assert_eq!(__kfifo_alloc_node(&mut f, 8, esize, Some(vec![0; 8 * esize])), 0);
    f
}

/// A FIFO of bytes whose next element lies at index 6.
fn turned_fifo() -> __kfifo {
    let mut f = fifo(1);
    let mut buf = [0; 6];
    assert_eq!(__kfifo_in(&mut f, &[0; 6], 6), 6);
    assert_eq!(__kfifo_out(&mut f, &mut buf, 6), 6);
    f
}

#[test]
fn allocation_rounds_up() {
    let mut f = kfifo_new();
    assert_eq!(__kfifo_alloc_node(&mut f, 5, 1, Some(vec![0; 8])), 0);
    assert_eq!(__kfifo_in(&mut f, &[1; 9], 9), 8);
    assert_eq!(f.len(), 8);
    assert_eq!(__kfifo_alloc_node(&mut f, 1, 1, Some(vec![0; 1])), -EINVAL);
    assert_eq!(f.len(), 0);
    assert_eq!(__kfifo_alloc_node(&mut f, 8, 1, None), -ENOMEM);
}

#[test]
fn initialization_rounds_down() {
    let mut f = kfifo_new();
    assert_eq!(__kfifo_init(&mut f, vec![0; 15], 15, 2), 0);
    assert_eq!(__kfifo_in(&mut f, &[1; 16], 8), 4);
    assert_eq!(__kfifo_init(&mut f, vec![0; 15], 15, 8), -EINVAL);
    __kfifo_free(&mut f);
    assert_eq!(f.len(), 0);
}

#[test]
fn first_in_first_out() {
    let mut f = turned_fifo();
    let mut buf = [0; 8];
    assert_eq!(__kfifo_in(&mut f, &[1, 2, 3], 3), 3);
    assert_eq!(__kfifo_in(&mut f, &[4, 5], 2), 2);
    assert_eq!(__kfifo_out_peek(&f, &mut buf, 2), 2);
    assert_eq!(buf[..2], [1, 2]);
    assert_eq!(f.len(), 5);
    assert_eq!(__kfifo_out(&mut f, &mut buf, 4), 4);
    assert_eq!(buf[..4], [1, 2, 3, 4]);
    assert_eq!(__kfifo_out(&mut f, &mut buf, 4), 1);
    assert_eq!(buf[0], 5);
    assert_eq!(__kfifo_out(&mut f, &mut buf, 4), 0);
}

#[test]
fn elements_of_several_bytes() {
    let mut f = fifo(4);
    let bytes: Vec<u8> = (0..40).collect();
    assert_eq!(__kfifo_in(&mut f, &bytes, 10), 8);
    let mut buf = [0; 8];
    assert_eq!(__kfifo_out(&mut f, &mut buf, 2), 2);
    assert_eq!(buf, [0, 1, 2, 3, 4, 5, 6, 7]);
    assert_eq!(f.len(), 6);
}

#[test]
fn linear_part_ends_at_the_end_of_the_buffer() {
    let mut f = turned_fifo();
    assert_eq!(__kfifo_in(&mut f, &[1, 2, 3, 4], 4), 4);
    let mut tail = 0;
    assert_eq!(__kfifo_out_linear(&f, Some(&mut tail), 4), 2);
    assert_eq!(tail, 6);
    assert_eq!(__kfifo_out_linear(&f, None, 1), 1);
}

#[test]
fn user_memory_that_cannot_be_reached() {
    let mut f = fifo(2);
    let mut copied = 0;
    assert_eq!(__kfifo_from_user(&mut f, &[1, 2, 3, 4], 4, &mut copied), 0);
    assert_eq!((copied, f.len()), (4, 2));
    // Three bytes of six can be read: one element.
    assert_eq!(__kfifo_from_user(&mut f, &[5, 6, 7], 6, &mut copied), -EFAULT);
    assert_eq!((copied, f.len()), (2, 3));
    let mut to = [0; 6];
    assert_eq!(__kfifo_to_user(&mut f, &mut to, 6, &mut copied), 0);
    assert_eq!((copied, to), (6, [1, 2, 3, 4, 5, 6]));
    assert_eq!(__kfifo_from_user(&mut f, &[1, 2, 3, 4], 4, &mut copied), 0);
    let mut to = [0; 2];
    assert_eq!(__kfifo_to_user(&mut f, &mut to, 4, &mut copied), -EFAULT);
    assert_eq!((copied, to, f.len()), (2, [1, 2], 1));
}

fn plain(sg: &[SgEntry]) -> Vec<(u32, u32, Option<u64>)> {
    sg.iter().map(|e| (e.offset, e.len, e.dma)).collect()
}

#[test]
fn scatterlist_goes_round_the_end() {
    let mut f = turned_fifo();
    let sg = __kfifo_dma_in_prepare(&f, 2, 5, 100);
    assert_eq!(plain(&sg), [(6, 2, Some(106)), (0, 3, Some(100))]);
    assert_eq!(plain(&__kfifo_dma_in_prepare(&f, 1, 5, DMA_MAPPING_ERROR)), [(6, 2, None)]);
    assert!(__kfifo_dma_in_prepare(&f, 0, 5, 100).is_empty());
    assert!(__kfifo_dma_out_prepare(&f, 2, 5, 100).is_empty());
    assert_eq!(__kfifo_in(&mut f, &[1, 2, 3], 3), 3);
    let sg = __kfifo_dma_out_prepare(&f, 2, 5, DMA_MAPPING_ERROR);
    assert_eq!(plain(&sg), [(6, 2, None), (0, 1, None)]);
}

#[test]
fn records_come_back_whole() {
    let mut f = turned_fifo();
    let mut buf = [0; 8];
    assert_eq!(__kfifo_in_r(&mut f, &[1, 2, 3], 3, 1), 3);
    assert_eq!(__kfifo_in_r(&mut f, &[4], 1, 1), 1);
    // Neither this record nor its header fits any more.
    assert_eq!(__kfifo_in_r(&mut f, &[5, 6], 2, 1), 0);
    assert_eq!(__kfifo_len_r(&f, 1), 3);
    assert_eq!(__kfifo_out_peek_r(&f, &mut buf, 8, 1), 3);
    assert_eq!(buf[..3], [1, 2, 3]);
    // What does not fit the buffer is lost with its record.
    assert_eq!(__kfifo_out_r(&mut f, &mut buf, 2, 1), 2);
    assert_eq!(__kfifo_out_r(&mut f, &mut buf, 8, 1), 1);
    assert_eq!(buf[0], 4);
    assert_eq!(__kfifo_out_r(&mut f, &mut buf, 8, 1), 0);
}

#[test]
fn records_are_skipped() {
    let mut f = turned_fifo();
    let mut buf = [0; 8];
    assert_eq!(__kfifo_in_r(&mut f, &[1, 2], 2, 2), 2);
    assert_eq!(__kfifo_in_r(&mut f, &[3], 1, 2), 1);
    let mut tail = 0;
    assert_eq!(__kfifo_out_linear_r(&f, Some(&mut tail), 8, 2), 2);
    assert_eq!(tail, 8);
    __kfifo_skip_r(&mut f, 2);
    assert_eq!(__kfifo_out_r(&mut f, &mut buf, 8, 2), 1);
    assert_eq!(buf[0], 3);
}

#[test]
fn records_of_user_memory() {
    let mut f = fifo(1);
    let mut copied = 9;
    assert_eq!(__kfifo_from_user_r(&mut f, &[1, 2], 3, &mut copied, 1), -EFAULT);
    assert_eq!((copied, f.len()), (0, 0));
    assert_eq!(__kfifo_from_user_r(&mut f, &[1, 2, 3], 3, &mut copied, 1), 0);
    assert_eq!((copied, f.len()), (3, 4));
    assert_eq!(__kfifo_from_user_r(&mut f, &[1, 2, 3, 4], 4, &mut copied, 1), 0);
    assert_eq!((copied, f.len()), (0, 4));
    let mut to = [0; 1];
    assert_eq!(__kfifo_to_user_r(&mut f, &mut to, 3, &mut copied, 1), -EFAULT);
    assert_eq!((copied, f.len()), (0, 4));
    let mut to = [0; 3];
    assert_eq!(__kfifo_to_user_r(&mut f, &mut to, 3, &mut copied, 1), 0);
    assert_eq!((copied, f.len(), to), (3, 0, [1, 2, 3]));
}

#[test]
fn records_by_transfers() {
    let mut f = turned_fifo();
    let sg = __kfifo_dma_in_prepare_r(&f, 2, 3, 1, 100);
    assert_eq!(plain(&sg), [(7, 1, Some(107)), (0, 2, Some(100))]);
    assert!(__kfifo_dma_in_prepare_r(&f, 2, 8, 1, 100).is_empty());
    __kfifo_dma_in_finish_r(&mut f, 3, 1);
    assert_eq!((f.len(), __kfifo_len_r(&f, 1)), (4, 3));
    let sg = __kfifo_dma_out_prepare_r(&f, 2, 3, 1, DMA_MAPPING_ERROR);
    assert_eq!(plain(&sg), [(7, 1, None), (0, 2, None)]);
    assert!(__kfifo_dma_out_prepare_r(&f, 2, 4, 1, 100).is_empty());
}

#[test]
fn length_of_a_record_is_limited() {
    assert_eq!(__kfifo_max_r(300, 1), 255);
    assert_eq!(__kfifo_max_r(255, 1), 255);
    assert_eq!(__kfifo_max_r(300, 2), 300);
    assert_eq!(__kfifo_max_r(70_000, 2), 65_535);
    assert_eq!(__kfifo_max_r(5, 0), 0);
    assert_eq!(__kfifo_max_r(u32::MAX, 3), 0xff_ffff);
    // More bytes than a length has limit nothing.
    for recsize in [4, 5, 8, 16, usize::MAX] {
        assert_eq!(__kfifo_max_r(10, recsize), 10);
        assert_eq!(__kfifo_max_r(u32::MAX, recsize), u32::MAX);
    }
}
