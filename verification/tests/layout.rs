use collective::layout::align;
use collective::layout::bcast_layout;
use collective::layout::BcastLayout;
use collective::layout::BARRIER_OFFSET;
use collective::layout::EPOCH_OFFSET;
use collective::layout::HEADER_SIZE;
use collective::layout::lock_offset;
use collective::layout::multiple_layout;
use collective::layout::region_count;
use collective::layout::region_offset;
use collective::layout::single_layout;
use collective::layout::MultipleLayout;
use collective::layout::SingleLayout;
use collective::layout::CACHE_LINE_SIZE;
use collective::layout::PAGE_SIZE;

#[test]
fn constants() {
    assert_eq!(CACHE_LINE_SIZE, 64);
    assert_eq!(PAGE_SIZE, 4096);
    assert_eq!(BARRIER_OFFSET, 0);
    assert_eq!(EPOCH_OFFSET, 64);
    assert_eq!(HEADER_SIZE, 128);
}

#[test]
fn a_broadcast_has_its_own_epoch_word() {
    assert_eq!(bcast_layout(0), Some(BcastLayout { epoch: 64, payload: 128, end: 128 }));
    assert_eq!(bcast_layout(300), Some(BcastLayout { epoch: 64, payload: 128, end: 428 }));
    assert_eq!(
        bcast_layout(usize::MAX - 128),
        Some(BcastLayout { epoch: 64, payload: 128, end: usize::MAX })
    );
    assert_eq!(bcast_layout(usize::MAX - 127), None);
    assert!(lock_offset(0) >= EPOCH_OFFSET + 64);
}

#[test]
fn align_rounds_up_to_pages() {
    assert_eq!(align(0), 0);
    assert_eq!(align(1), 4096);
    assert_eq!(align(4095), 4096);
    assert_eq!(align(4096), 4096);
    assert_eq!(align(4097), 8192);
    assert_eq!(align(usize::MAX - 4096), usize::MAX - 4095);
    assert_eq!(align(usize::MAX - 4095), usize::MAX - 4095);
}

#[test]
fn region_count_is_a_ceiling() {
    assert_eq!(region_count(0), 0);
    assert_eq!(region_count(1), 1);
    assert_eq!(region_count(4096), 1);
    assert_eq!(region_count(4097), 2);
    assert_eq!(region_count(64), 1);
    assert_eq!(region_count(131072), 32);
    assert_eq!(region_count(usize::MAX - 4095), usize::MAX / 4096);
}

#[test]
fn ranks_start_a_share_apart() {
    assert_eq!(region_offset(0, 4, 32), 0);
    assert_eq!(region_offset(1, 4, 32), 8);
    assert_eq!(region_offset(2, 4, 32), 16);
    assert_eq!(region_offset(3, 4, 32), 24);
    assert_eq!(region_offset(3, 4, 3), 0);
    assert_eq!(region_offset(2, 3, 7), 4);
    assert_eq!(region_offset(0, 1, 0), 0);
}

#[test]
fn locks_lie_a_cache_line_apart() {
    assert_eq!(lock_offset(0), 128);
    assert_eq!(lock_offset(1), 192);
    assert_eq!(lock_offset(31), 2112);
}

#[test]
fn single_layout_of_a_small_buffer() {
    assert_eq!(
        single_layout(64),
        Some(SingleLayout { regions: 1, locks: 128, body: 4096, end: 4160 })
    );
    assert_eq!(
        single_layout(0),
        Some(SingleLayout { regions: 0, locks: 128, body: 4096, end: 4096 })
    );
    assert_eq!(
        single_layout(62 * 4096),
        Some(SingleLayout { regions: 62, locks: 128, body: 4096, end: 4096 + 62 * 4096 })
    );
    assert_eq!(
        single_layout(63 * 4096),
        Some(SingleLayout { regions: 63, locks: 128, body: 8192, end: 8192 + 63 * 4096 })
    );
}

#[test]
fn single_layout_that_does_not_fit() {
    assert_eq!(single_layout(usize::MAX), None);
    assert_eq!(single_layout(usize::MAX - 4096), None);
}

#[test]
fn multiple_layout_of_a_small_buffer() {
    assert_eq!(
        multiple_layout(64, 4),
        Some(MultipleLayout { stride: 4096, slots: 4096, result: 4096 + 4 * 4096, end: 5 * 4096 + 64 })
    );
    assert_eq!(
        multiple_layout(20000, 2),
        Some(MultipleLayout { stride: 20480, slots: 4096, result: 45056, end: 65056 })
    );
    assert_eq!(
        multiple_layout(0, 3),
        Some(MultipleLayout { stride: 0, slots: 4096, result: 4096, end: 4096 })
    );
}

#[test]
fn multiple_layout_that_does_not_fit() {
    assert_eq!(multiple_layout(usize::MAX, 1), None);
    assert_eq!(multiple_layout(4096, usize::MAX), None);
    assert_eq!(multiple_layout(usize::MAX / 2, 2), None);
}
