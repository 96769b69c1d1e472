//! How the shared window is carved up: a cache-line header for the barrier,
//! one cache line per region lock, and a page-aligned body.

use vstd::prelude::*;
use vstd::arithmetic::div_mod::lemma_mod_multiples_basic;

verus! {

/// Size of one header slot (the barrier, or one region lock), in bytes.
pub const CACHE_LINE_SIZE: usize = 64;

/// Offset of the barrier's counter from the window's start.
pub const BARRIER_OFFSET: usize = 0;

/// Offset of the broadcasts' epoch: a word of its own, in the cache line
/// after the barrier's, which no reduction writes to.
pub const EPOCH_OFFSET: usize = 64;

/// Offset of what follows the two counters: the first region lock of a
/// locked reduction, or the bytes of a broadcast.
pub const HEADER_SIZE: usize = 128;

/// Size of one region of the body, in bytes.
pub const PAGE_SIZE: usize = 4096;

/// The least multiple of the page size that is not below `value`.
pub open spec fn spec_align(value: int) -> int {
    (value + 4095) / 4096 * 4096
}

/// Number of page-sized regions needed to hold `data_size` bytes.
pub open spec fn spec_region_count(data_size: int) -> int {
    (data_size + 4095) / 4096
}

/// Rounds `value` up to the next page boundary.
pub fn align(value: usize) -> (aligned: usize)
    requires
        value + 4095 <= usize::MAX,
    ensures
        aligned == spec_align(value as int),
        aligned % 4096 == 0,
        value <= aligned < value + 4096,
{
    let bumped: usize = value + (PAGE_SIZE - 1);
    let aligned: usize = bumped & !(PAGE_SIZE - 1);
    assert(aligned == bumped / 4096 * 4096) by (bit_vector)
        requires
            aligned == bumped & !4095usize,
    ;
    aligned
}

/// Number of regions that a body of `data_size` bytes is split into.
pub fn region_count(data_size: usize) -> (count: usize)
    requires
        data_size + 4095 <= usize::MAX,
    ensures
        count == spec_region_count(data_size as int),
{
    (data_size + (PAGE_SIZE - 1)) / PAGE_SIZE
}

/// Where the parts of the shared window lie for the locked reduction, as
/// byte offsets from the window's page-aligned start: the barrier's counter
/// and the broadcasts' epoch come first, then one lock per region, then,
/// from the next page boundary on, the accumulator.
#[derive(Clone, Copy, Debug, PartialEq, Eq, Structural)]
pub struct SingleLayout {
    /// Number of regions, which is the number of locks.
    pub regions: usize,
    /// Offset of the first lock.
    pub locks: usize,
    /// Offset of the accumulator.
    pub body: usize,
    /// Offset after the accumulator's last byte.
    pub end: usize,
}

/// Where the parts of the shared window lie for the slotted reduction: the
/// barrier comes first, then, from the next page boundary on, one slot per
/// rank, each a whole number of pages, then the result.
#[derive(Clone, Copy, Debug, PartialEq, Eq, Structural)]
pub struct MultipleLayout {
    /// Number of bytes from one slot's start to the next.
    pub stride: usize,
    /// Offset of the first slot.
    pub slots: usize,
    /// Offset of the result.
    pub result: usize,
    /// Offset after the result's last byte.
    pub end: usize,
}

/// The layout of the locked reduction for a buffer of `data_size` bytes.
pub open spec fn spec_single_layout(data_size: int) -> SingleLayout {
    let regions = spec_region_count(data_size);
    let body = spec_align(128 + 64 * regions);
    SingleLayout {
        regions: regions as usize,
        locks: 128,
        body: body as usize,
        end: (body + data_size) as usize,
    }
}

/// The layout of the slotted reduction for `ranks` buffers of `data_size`
/// bytes each.
pub open spec fn spec_multiple_layout(data_size: int, ranks: int) -> MultipleLayout {
    let stride = spec_align(data_size);
    MultipleLayout {
        stride: stride as usize,
        slots: 4096,
        result: (4096 + stride * ranks) as usize,
        end: (4096 + stride * ranks + data_size) as usize,
    }
}

/// Offset of the lock of a region.
pub open spec fn spec_lock_offset(region: int) -> int {
    128 + 64 * region
}

/// The rank's first region: each rank starts a whole share of the regions
/// after the rank before it.
pub fn region_offset(rank: usize, ranks: usize, regions: usize) -> (first: usize)
    requires
        rank < ranks,
    ensures
        first == rank * (regions / ranks),
        first <= regions,
        regions > 0 ==> first < regions,
{
    let share: usize = regions / ranks;
    assert(share * ranks <= regions) by (nonlinear_arith)
        requires
            share == regions as int / ranks as int,
            0 < ranks,
    ;
    assert(0 <= rank * share && rank * share + share <= share * ranks && (share == 0 ==> rank
        * share == 0)) by (nonlinear_arith)
        requires
            0 <= rank < ranks,
            0 <= share,
    ;
    rank * share
}

/// Offset of the lock of a region.
pub fn lock_offset(region: usize) -> (offset: usize)
    requires
        128 + 64 * region <= usize::MAX,
    ensures
        offset == spec_lock_offset(region as int),
        offset % 64 == 0,
{
    HEADER_SIZE + CACHE_LINE_SIZE * region
}

/// Lays out the window for the locked reduction of `data_size` bytes, if
/// the window's size can be told in a machine word. The locks lie one cache
/// line apart and end before the accumulator, which starts on a page
/// boundary.
pub fn single_layout(data_size: usize) -> (layout: Option<SingleLayout>)
    ensures
        layout == if spec_align(128 + 64 * spec_region_count(data_size as int)) + data_size
            <= usize::MAX {
            Some(spec_single_layout(data_size as int))
        } else {
            None
        },
        layout.is_some() ==> {
            &&& layout.unwrap().locks + 64 * layout.unwrap().regions <= layout.unwrap().body
            &&& layout.unwrap().body % 4096 == 0
        },
{
    if data_size > usize::MAX - (PAGE_SIZE - 1) {
        return None;
    }
    let regions: usize = region_count(data_size);
    let body: usize = align(HEADER_SIZE + CACHE_LINE_SIZE * regions);
    if data_size > usize::MAX - body {
        return None;
    }
    Some(SingleLayout { regions, locks: HEADER_SIZE, body, end: body + data_size })
}

/// Where the bytes of a broadcast lie: after the two counters.
#[derive(Clone, Copy, Debug, PartialEq, Eq, Structural)]
pub struct BcastLayout {
    /// Offset of the shared epoch.
    pub epoch: usize,
    /// Offset of the first byte that is sent.
    pub payload: usize,
    /// Offset after the last byte that is sent.
    pub end: usize,
}

/// Lays out the window for a broadcast of `bytes` bytes, if the window's
/// size can be told in a machine word.
pub fn bcast_layout(bytes: usize) -> (layout: Option<BcastLayout>)
    ensures
        layout == if 128 + bytes <= usize::MAX {
            Some((BcastLayout { epoch: 64, payload: 128, end: (128 + bytes) as usize }))
        } else {
            None
        },
{
    if bytes > usize::MAX - HEADER_SIZE {
        None
    } else {
        Some(BcastLayout { epoch: EPOCH_OFFSET, payload: HEADER_SIZE, end: HEADER_SIZE + bytes })
    }
}

/// Lays out the window for the slotted reduction of `ranks` buffers of
/// `data_size` bytes each, if the window's size can be told in a machine
/// word. The slots and the result start on page boundaries and do not
/// overlap.
pub fn multiple_layout(data_size: usize, ranks: usize) -> (layout: Option<MultipleLayout>)
    ensures
        layout == if 4096 + spec_align(data_size as int) * ranks + data_size <= usize::MAX {
            Some(spec_multiple_layout(data_size as int, ranks as int))
        } else {
            None
        },
        layout.is_some() ==> layout.unwrap().result % 4096 == 0,
{
    if data_size > usize::MAX - (PAGE_SIZE - 1) {
        return None;
    }
    let stride: usize = align(data_size);
    let all: Option<usize> = stride.checked_mul(ranks);
    match all {
        Some(slots) => {
            if slots <= usize::MAX - PAGE_SIZE && data_size <= usize::MAX - PAGE_SIZE - slots {
                proof {
                    let pages = stride as int / 4096;
                    assert(stride * ranks == (pages * ranks) * 4096) by (nonlinear_arith)
                        requires
                            stride == pages * 4096,
                    ;
                    lemma_mod_multiples_basic(pages * ranks, 4096);
                }
                Some(
                    MultipleLayout {
                        stride,
                        slots: PAGE_SIZE,
                        result: PAGE_SIZE + slots,
                        end: PAGE_SIZE + slots + data_size,
                    },
                )
            } else {
                None
            }
        },
        None => None,
    }
}

} // verus!
