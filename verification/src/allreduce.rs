//! The sum-reduction, as the steps that one rank takes on the shared body.
//!
//! Two algorithms share the element arithmetic. The locked one keeps a single
//! accumulator, split into page-sized regions with a lock each; every rank
//! adds its buffer into every region. The slotted one gives every rank a slot
//! to publish its buffer in and a range of the result to sum up alone.

use vstd::prelude::*;
use crate::datatype::MpiType;
use crate::layout::align;
use crate::layout::region_offset;
use crate::layout::spec_align;
use crate::layout::PAGE_SIZE;
use crate::mutex::Mutex;
use crate::mutex::UNLOCKED;

verus! {

/// The algorithm by which a group reduces.
#[derive(Clone, Copy, Debug, PartialEq, Eq, Structural)]
pub enum Algorithm {
    /// One accumulator, a lock per region.
    Single,
    /// A slot per rank, no locks.
    Multiple,
}

/// The name `single`, in ASCII.
pub open spec fn single_name() -> Seq<u8> {
    seq![115u8, 105u8, 110u8, 103u8, 108u8, 101u8]
}

/// The name `multiple`, in ASCII.
pub open spec fn multiple_name() -> Seq<u8> {
    seq![109u8, 117u8, 108u8, 116u8, 105u8, 112u8, 108u8, 101u8]
}

impl Algorithm {
    /// The algorithm that a configured name selects: the locked one where
    /// nothing is configured, and none for a name that is not an algorithm's.
    pub fn select(name: Option<&[u8]>) -> (algorithm: Option<Algorithm>)
        ensures
            algorithm == match name {
                None => Some(Algorithm::Single),
                Some(name) => if name@ == single_name() {
                    Some(Algorithm::Single)
                } else if name@ == multiple_name() {
                    Some(Algorithm::Multiple)
                } else {
                    None
                },
            },
    {
        match name {
            None => Some(Algorithm::Single),
            Some(name) => {
                if name.len() == 6 && name[0] == 115 && name[1] == 105 && name[2] == 110
                    && name[3] == 103 && name[4] == 108 && name[5] == 101 {
                    assert(name@ =~= single_name());
                    Some(Algorithm::Single)
                } else if name.len() == 8 && name[0] == 109 && name[1] == 117 && name[2] == 108
                    && name[3] == 116 && name[4] == 105 && name[5] == 112 && name[6] == 108
                    && name[7] == 101 {
                    assert(name@ =~= multiple_name());
                    Some(Algorithm::Multiple)
                } else {
                    assert(name@ != single_name()) by {
                        if name@ == single_name() {
                            assert(single_name()[0] == 115 && single_name()[1] == 105
                                && single_name()[2] == 110 && single_name()[3] == 103
                                && single_name()[4] == 108 && single_name()[5] == 101);
                        }
                    }
                    assert(name@ != multiple_name()) by {
                        if name@ == multiple_name() {
                            assert(multiple_name()[0] == 109 && multiple_name()[1] == 117
                                && multiple_name()[2] == 108 && multiple_name()[3] == 116
                                && multiple_name()[4] == 105 && multiple_name()[5] == 112
                                && multiple_name()[6] == 108 && multiple_name()[7] == 101);
                        }
                    }
                    None
                }
            },
        }
    }
}

/// Number of elements of type `T` in one region.
pub open spec fn elements_per_region<T: MpiType>() -> int {
    4096int / T::spec_size()
}

/// Number of regions that `len` elements of type `T` are split into.
pub open spec fn regions<T: MpiType>(len: int) -> int {
    (len * T::spec_size() + 4095) / 4096
}

/// Index of the first element of a region.
pub open spec fn region_start<T: MpiType>(region: int) -> int {
    region * elements_per_region::<T>()
}

/// Index after the last element of a region of a buffer of `len` elements.
pub open spec fn region_end<T: MpiType>(region: int, len: int) -> int {
    if region_start::<T>(region + 1) < len {
        region_start::<T>(region + 1)
    } else {
        len
    }
}

/// The region at which a rank starts, so that ranks begin apart.
pub open spec fn start_region(rank: int, ranks: int, count: int) -> int {
    rank * (count / ranks)
}

/// The region that a rank visits at a step: from its start region on, and
/// round to the regions before it.
pub open spec fn region_at(step: int, rank: int, ranks: int, count: int) -> int {
    if start_region(rank, ranks, count) + step < count {
        start_region(rank, ranks, count) + step
    } else {
        start_region(rank, ranks, count) + step - count
    }
}

/// `acc` with `send` added in, element by element, at the indices from
/// `start` up to `end`.
pub open spec fn sum_range<T: MpiType>(acc: Seq<T>, send: Seq<T>, start: int, end: int) -> Seq<T> {
    Seq::new(
        acc.len(),
        |i: int|
            if start <= i < end {
                T::wrap(acc[i].value() + send[i].value())
            } else {
                acc[i]
            },
    )
}

/// `acc` with `send` added in at every index.
pub open spec fn sum_into<T: MpiType>(acc: Seq<T>, send: Seq<T>) -> Seq<T> {
    sum_range(acc, send, 0, acc.len() as int)
}

/// A buffer of `len` zeros.
pub open spec fn zeros<T: MpiType>(len: nat) -> Seq<T> {
    Seq::new(len, |i: int| T::wrap(0))
}

/// Overwrites a buffer with zeros.
pub fn zero_fill<T: MpiType>(buffer: &mut [T])
    ensures
        final(buffer)@ == zeros::<T>(old(buffer)@.len()),
{
    let len: usize = buffer.len();
    let mut i: usize = 0;
    while i < len
        invariant
            i <= len,
            buffer@.len() == len,
            len == old(buffer)@.len(),
            forall|j: int| 0 <= j < i ==> buffer@[j] == T::wrap(0),
        decreases len - i,
    {
        buffer[i] = T::zero();
        i = i + 1;
    }
}

/// Adds `send` into `shared` at the indices from `start` up to `end`.
pub fn sum_slice<T: MpiType>(shared: &mut [T], send: &[T], start: usize, end: usize)
    requires
        old(shared)@.len() == send@.len(),
        start <= end <= send@.len(),
    ensures
        final(shared)@ == sum_range(old(shared)@, send@, start as int, end as int),
{
    let mut i: usize = start;
    while i < end
        invariant
            start <= i <= end,
            end <= send@.len(),
            shared@.len() == send@.len(),
            shared@ == sum_range(old(shared)@, send@, start as int, i as int),
        decreases end - i,
    {
        let mut element: T = shared[i];
        element.sum_mut(&send[i]);
        shared[i] = element;
        i = i + 1;
    }
}

/// The region that holds the element at `i`.
pub open spec fn region_of<T: MpiType>(i: int) -> int {
    i / elements_per_region::<T>()
}

/// Whether the element at `i` lies in a region that a rank starting at
/// region `first` has visited after `step` steps over `count` regions.
pub open spec fn visited<T: MpiType>(i: int, first: int, step: int, count: int) -> bool {
    let region = region_of::<T>(i);
    (first <= region < first + step) || region < first + step - count
}

/// `acc` with `send` added in at the elements of the regions that the
/// rank visits at the steps from `from` up to `to`.
pub open spec fn sum_visited<T: MpiType>(
    acc: Seq<T>,
    send: Seq<T>,
    first: int,
    from: int,
    to: int,
    count: int,
) -> Seq<T> {
    Seq::new(
        acc.len(),
        |i: int|
            if visited::<T>(i, first, to, count) && !visited::<T>(i, first, from, count) {
                T::wrap(acc[i].value() + send[i].value())
            } else {
                acc[i]
            },
    )
}

/// The step at which a rank's round comes to a halt when it goes on from
/// step `from`: the first step from there on whose region's lock is not
/// free, or the end of the round if there is none.
pub open spec fn blocked_at(locks: Seq<Mutex>, from: int, rank: int, ranks: int) -> int
    decreases locks.len() - from,
{
    if from >= locks.len() {
        from
    } else if locks[region_at(from, rank, ranks, locks.len() as int)].word() != UNLOCKED {
        from
    } else {
        blocked_at(locks, from + 1, rank, ranks)
    }
}

/// Where a region lies in a buffer: it starts inside the buffer, at the
/// element whose byte offset is the region's, and the regions together reach
/// the buffer's end.
pub proof fn lemma_region_bounds<T: MpiType>(region: int, len: int)
    requires
        0 <= region < regions::<T>(len),
    ensures
        0 <= region_start::<T>(region) < len,
        region_start::<T>(region) == region * 4096 / T::spec_size(),
        region_start::<T>(region) < region_end::<T>(region, len) <= len,
        region_start::<T>(region + 1) == region_start::<T>(region) + elements_per_region::<T>(),
        len <= region_start::<T>(regions::<T>(len)),
        elements_per_region::<T>() > 0,
{
    T::lemma_size();
    let per = elements_per_region::<T>();
    let count = regions::<T>(len);
    if T::spec_size() == 1 {
        assert(region * per == region * 4096 && (region + 1) * per == (region + 1) * 4096 && count
            * per == count * 4096);
    } else if T::spec_size() == 2 {
        assert(region * per == region * 2048 && (region + 1) * per == (region + 1) * 2048 && count
            * per == count * 2048);
    } else if T::spec_size() == 4 {
        assert(region * per == region * 1024 && (region + 1) * per == (region + 1) * 1024 && count
            * per == count * 1024);
    } else {
        assert(region * per == region * 512 && (region + 1) * per == (region + 1) * 512 && count
            * per == count * 512);
    }
}

/// An element lies between a region's start and the next region's start
/// exactly if that region holds it, and the regions of a buffer hold all of
/// its elements.
pub proof fn lemma_region_of<T: MpiType>(i: int, region: int, len: int)
    requires
        0 <= i < len,
        0 <= region,
    ensures
        (region_start::<T>(region) <= i < region_start::<T>(region + 1)) <==> region_of::<T>(i)
            == region,
        0 <= region_of::<T>(i) < regions::<T>(len),
{
    T::lemma_size();
    let per = elements_per_region::<T>();
    if T::spec_size() == 1 {
        assert(region * per == region * 4096 && (region + 1) * per == (region + 1) * 4096 && i
            / per == i / 4096);
    } else if T::spec_size() == 2 {
        assert(region * per == region * 2048 && (region + 1) * per == (region + 1) * 2048 && i
            / per == i / 2048);
    } else if T::spec_size() == 4 {
        assert(region * per == region * 1024 && (region + 1) * per == (region + 1) * 1024 && i
            / per == i / 1024);
    } else {
        assert(region * per == region * 512 && (region + 1) * per == (region + 1) * 512 && i
            / per == i / 512);
    }
}

/// The step at which a rank visits a region.
pub open spec fn step_of(region: int, rank: int, ranks: int, count: int) -> int {
    if region >= start_region(rank, ranks, count) {
        region - start_region(rank, ranks, count)
    } else {
        region + count - start_region(rank, ranks, count)
    }
}

/// A rank's round visits every region exactly once: each region has its
/// step, and no other step leads to it.
pub proof fn lemma_round_visits_once(region: int, rank: int, ranks: int, count: int)
    requires
        0 <= rank < ranks,
        0 <= region < count,
    ensures
        0 <= step_of(region, rank, ranks, count) < count,
        region_at(step_of(region, rank, ranks, count), rank, ranks, count) == region,
        forall|step: int|
            0 <= step < count && #[trigger] region_at(step, rank, ranks, count) == region ==> step
                == step_of(region, rank, ranks, count),
{
    let share = count / ranks;
    assert(0 <= share && share * ranks <= count) by (nonlinear_arith)
        requires
            share == count / ranks,
            0 < ranks,
            0 <= count,
    ;
    assert(0 <= rank * share && rank * share + share <= share * ranks && (share == 0 ==> rank
        * share == 0)) by (nonlinear_arith)
        requires
            0 <= rank < ranks,
            0 <= share,
    ;
}

/// Ranks start apart: where there are at least as many regions as ranks, no
/// two ranks begin their round at the same region.
pub proof fn lemma_ranks_start_apart(one: int, other: int, ranks: int, count: int)
    requires
        0 <= one < other < ranks,
        ranks <= count,
    ensures
        start_region(one, ranks, count) < start_region(other, ranks, count),
{
    let share = count / ranks;
    assert(1 <= share) by (nonlinear_arith)
        requires
            share == count / ranks,
            0 < ranks <= count,
    ;
    assert(one * share < other * share) by (nonlinear_arith)
        requires
            one < other,
            1 <= share,
    ;
}

/// The elements of a region of a buffer of `len` elements: the index of the
/// first, and the index after the last.
pub fn region_bounds<T: MpiType>(region: usize, len: usize) -> (bounds: (usize, usize))
    requires
        len * T::spec_size() + 4095 <= usize::MAX,
        region < regions::<T>(len as int),
    ensures
        bounds.0 == region_start::<T>(region as int),
        bounds.1 == region_end::<T>(region as int, len as int),
        bounds.0 < bounds.1 <= len,
{
    proof {
        lemma_region_bounds::<T>(region as int, len as int);
    }
    let size: usize = T::size();
    let per: usize = PAGE_SIZE / size;
    let start: usize = region * PAGE_SIZE / size;
    let count: usize = if per < len - start {
        per
    } else {
        len - start
    };
    (start, start + count)
}

/// The region that a rank visits at a step of its round over `count`
/// regions.
pub fn nth_region(step: usize, rank: usize, ranks: usize, count: usize) -> (region: usize)
    requires
        rank < ranks,
        step < count,
    ensures
        region == region_at(step as int, rank as int, ranks as int, count as int),
        region < count,
{
    let first: usize = region_offset(rank, ranks, count);
    if first < count - step {
        first + step
    } else {
        first - (count - step)
    }
}

/// One attempt of a rank to visit a region: if the region's lock is free,
/// the rank takes it, adds its elements of that region into the accumulator
/// and gives the lock back; if not, nothing changes.
pub fn accumulate_region<T: MpiType>(
    locks: &mut Vec<Mutex>,
    shared: &mut [T],
    send: &[T],
    region: usize,
) -> (visited: bool)
    requires
        old(shared)@.len() == send@.len(),
        send@.len() * T::spec_size() + 4095 <= usize::MAX,
        old(locks)@.len() == regions::<T>(send@.len() as int),
        region < old(locks)@.len(),
    ensures
        final(locks)@.len() == old(locks)@.len(),
        forall|g: int|
            0 <= g < old(locks)@.len() ==> (#[trigger] final(locks)@[g]).word() == old(
                locks,
            )@[g].word(),
        visited == (old(locks)@[region as int].word() == UNLOCKED),
        final(shared)@ == if visited {
            sum_range(
                old(shared)@,
                send@,
                region_start::<T>(region as int),
                region_end::<T>(region as int, send@.len() as int),
            )
        } else {
            old(shared)@
        },
{
    let (start, end) = region_bounds::<T>(region, send.len());
    if !locks[region].try_lock() {
        return false;
    }
    sum_slice(shared, send, start, end);
    locks[region].unlock();
    true
}

/// The regions whose locks a rank tries, in order, when it goes on from step
/// `from` and halts at step `to`: the regions of the steps in between, and
/// the region at which it halts if that is before the round's end.
pub open spec fn attempts(from: int, to: int, rank: int, ranks: int, count: int) -> Seq<int> {
    Seq::new(
        (if to < count {
            to + 1 - from
        } else {
            to - from
        }) as nat,
        |k: int| region_at(from + k, rank, ranks, count),
    )
}

/// With every lock free a round runs to its end, and a whole round adds in
/// at every element.
pub proof fn lemma_free_round<T: MpiType>(
    locks: Seq<Mutex>,
    acc: Seq<T>,
    send: Seq<T>,
    from: int,
    rank: int,
    ranks: int,
)
    requires
        0 <= rank < ranks,
        0 <= from <= locks.len(),
        locks.len() == regions::<T>(acc.len() as int),
        forall|g: int| 0 <= g < locks.len() ==> (#[trigger] locks[g]).word() == UNLOCKED,
    ensures
        blocked_at(locks, from, rank, ranks) == locks.len(),
        sum_visited(
            acc,
            send,
            start_region(rank, ranks, locks.len() as int),
            0,
            locks.len() as int,
            locks.len() as int,
        ) == sum_into(acc, send),
    decreases locks.len() - from,
{
    let count = locks.len() as int;
    if from < count {
        lemma_round_visits_once(0, rank, ranks, count);
        lemma_free_round(locks, acc, send, from + 1, rank, ranks);
        let region = region_at(from, rank, ranks, count);
        assert(0 <= region < count);
    }
    assert forall|i: int| 0 <= i < acc.len() implies visited::<T>(
        i,
        start_region(rank, ranks, count),
        count,
        count,
    ) && !visited::<T>(i, start_region(rank, ranks, count), 0, count) by {
        lemma_region_of::<T>(i, 0, acc.len() as int);
        lemma_round_visits_once(0, rank, ranks, count);
    }
    assert(sum_visited(acc, send, start_region(rank, ranks, count), 0, count, count) =~= sum_into(
        acc,
        send,
    ));
}

/// A rank's share of the locked reduction, from the step that it has come
/// to: it visits the regions in the order of its round, from its start
/// region on and round to the regions before it, and under each region's
/// lock adds its elements of that region into the accumulator. It halts at
/// the first region whose lock it does not get, and returns the step that it
/// has come to: the number of regions for a round that is done.
///
/// A caller that is handed a step before the end waits for that region's
/// lock to be free and calls again from that step.
///
/// Beside the step, the call gives the regions whose locks it has tried, in
/// the order in which it tried them: each but a last one that halted it was
/// taken, added to and given back before the next was tried.
pub fn allreduce_single<T: MpiType>(
    locks: &mut Vec<Mutex>,
    shared: &mut [T],
    send: &[T],
    rank: usize,
    ranks: usize,
    done: usize,
) -> (progress: (usize, Ghost<Seq<int>>))
    requires
        rank < ranks,
        old(shared)@.len() == send@.len(),
        send@.len() * T::spec_size() + 4095 <= usize::MAX,
        old(locks)@.len() == regions::<T>(send@.len() as int),
    ensures
        final(locks)@.len() == old(locks)@.len(),
        forall|g: int|
            0 <= g < old(locks)@.len() ==> (#[trigger] final(locks)@[g]).word() == old(
                locks,
            )@[g].word(),
        progress.0 == blocked_at(old(locks)@, done as int, rank as int, ranks as int),
        final(shared)@ == sum_visited(
            old(shared)@,
            send@,
            start_region(rank as int, ranks as int, old(locks)@.len() as int),
            done as int,
            progress.0 as int,
            old(locks)@.len() as int,
        ),
        progress.1@ == attempts(
            done as int,
            progress.0 as int,
            rank as int,
            ranks as int,
            old(locks)@.len() as int,
        ),
{
    let count: usize = locks.len();
    let ghost first = start_region(rank as int, ranks as int, count as int);
    let mut step: usize = done;
    let ghost mut tried: Seq<int> = Seq::empty();
    assert(shared@ =~= sum_visited(old(shared)@, send@, first, done as int, done as int, count as int));
    while step < count
        invariant
            rank < ranks,
            done <= step,
            step <= count || step == done,
            first == start_region(rank as int, ranks as int, count as int),
            count == locks@.len(),
            count == old(locks)@.len(),
            count == regions::<T>(send@.len() as int),
            send@.len() * T::spec_size() + 4095 <= usize::MAX,
            forall|g: int|
                0 <= g < count ==> (#[trigger] locks@[g]).word() == old(locks)@[g].word(),
            blocked_at(old(locks)@, done as int, rank as int, ranks as int) == blocked_at(
                old(locks)@,
                step as int,
                rank as int,
                ranks as int,
            ),
            tried.len() == step - done,
            forall|k: int|
                0 <= k < tried.len() ==> tried[k] == region_at(
                    done + k,
                    rank as int,
                    ranks as int,
                    count as int,
                ),
            shared@.len() == send@.len(),
            old(shared)@.len() == send@.len(),
            shared@ == sum_visited(
                old(shared)@,
                send@,
                first,
                done as int,
                step as int,
                count as int,
            ),
        decreases count - step,
    {
        let region: usize = nth_region(step, rank, ranks, count);
        let visited: bool = accumulate_region(locks, shared, send, region);
        proof {
            tried = tried.push(region as int);
        }
        if !visited {
            assert(tried =~= attempts(
                done as int,
                step as int,
                rank as int,
                ranks as int,
                count as int,
            ));
            return (step, Ghost(tried));
        }
        proof {
            lemma_region_bounds::<T>(region as int, send@.len() as int);
            lemma_round_visits_once(region as int, rank as int, ranks as int, count as int);
            assert forall|i: int| 0 <= i < send@.len() implies shared@[i] == sum_visited(
                old(shared)@,
                send@,
                first,
                done as int,
                step + 1,
                count as int,
            )[i] by {
                lemma_region_of::<T>(i, region as int, send@.len() as int);
            }
            assert(shared@ =~= sum_visited(
                old(shared)@,
                send@,
                first,
                done as int,
                step + 1,
                count as int,
            ));
        }
        step = step + 1;
    }
    assert(tried =~= attempts(done as int, step as int, rank as int, ranks as int, count as int));
    (step, Ghost(tried))
}

/// Number of elements from the start of one rank's slot to the start of the
/// next: the buffer's length, rounded up to whole pages.
pub open spec fn slot_stride<T: MpiType>(len: int) -> int {
    spec_align(len * T::spec_size()) / T::spec_size()
}

/// Number of elements of the result that one rank sums up: an even share of
/// the buffer's bytes, rounded up to whole bytes and then to whole pages, and
/// one page at least. The spans of all ranks together cover the buffer.
pub open spec fn owner_span<T: MpiType>(len: int, ranks: int) -> int {
    let share = spec_align((len * T::spec_size() + ranks - 1) / ranks);
    (if share > 4096 {
        share
    } else {
        4096
    }) / T::spec_size()
}

/// Whether the rank sums up the element at `i`.
pub open spec fn owned(i: int, span: int, rank: int) -> bool {
    span * rank <= i < span * rank + span
}

/// The slots with a rank's buffer written into its own slot.
pub open spec fn with_slot<T: MpiType>(slots: Seq<T>, send: Seq<T>, stride: int, rank: int) -> Seq<
    T,
> {
    Seq::new(
        slots.len(),
        |j: int|
            if stride * rank <= j < stride * rank + send.len() {
                send[j - stride * rank]
            } else {
                slots[j]
            },
    )
}

/// The sum of what the first `upto` slots hold at index `i`.
pub open spec fn slot_total<T: MpiType>(slots: Seq<T>, stride: int, i: int, upto: int) -> int
    decreases upto,
{
    if upto <= 0 {
        0
    } else {
        slot_total(slots, stride, i, upto - 1) + slots[stride * (upto - 1) + i].value()
    }
}

/// The result with the slots of all ranks added in at the elements that the
/// rank owns.
pub open spec fn reduce_owned<T: MpiType>(
    result: Seq<T>,
    slots: Seq<T>,
    stride: int,
    span: int,
    rank: int,
    ranks: int,
) -> Seq<T> {
    Seq::new(
        result.len(),
        |i: int|
            if owned(i, span, rank) {
                T::wrap(result[i].value() + slot_total(slots, stride, i, ranks))
            } else {
                result[i]
            },
    )
}

/// A slot is at least as long as the buffer, an owner's span is not empty,
/// and the spans of all ranks together reach the buffer's end.
pub proof fn lemma_slot_sizes<T: MpiType>(len: int, ranks: int)
    requires
        0 <= len,
        0 < ranks,
    ensures
        len <= slot_stride::<T>(len),
        0 < owner_span::<T>(len, ranks),
        len <= owner_span::<T>(len, ranks) * ranks,
        slot_stride::<T>(len) * T::spec_size() == spec_align(len * T::spec_size()),
{
    T::lemma_size();
    let size = T::spec_size();
    let bytes = len * size;
    let even = (bytes + ranks - 1) / ranks;
    let share = spec_align(even);
    let wide = if share > 4096 {
        share
    } else {
        4096
    };
    let span = owner_span::<T>(len, ranks);
    assert(0 <= even && bytes <= even * ranks) by (nonlinear_arith)
        requires
            even == (bytes + ranks - 1) / ranks,
            0 <= bytes,
            0 < ranks,
    ;
    assert(span * size == wide);
    assert(len <= span * ranks) by (nonlinear_arith)
        requires
            len * size <= even * ranks,
            even <= span * size,
            0 < size,
            0 < ranks,
            0 <= len,
            0 <= even,
            0 < span,
    ;
}

/// Number of elements between the starts of two slots.
pub fn stride_of<T: MpiType>(len: usize) -> (stride: usize)
    requires
        len * T::spec_size() + 4095 <= usize::MAX,
    ensures
        stride == slot_stride::<T>(len as int),
{
    proof {
        T::lemma_size();
    }
    align(len * T::size()) / T::size()
}

/// Number of elements of the result that one rank sums up.
pub fn span_of<T: MpiType>(len: usize, ranks: usize) -> (span: usize)
    requires
        0 < ranks,
        len * T::spec_size() + 4095 <= usize::MAX,
    ensures
        span == owner_span::<T>(len as int, ranks as int),
{
    proof {
        T::lemma_size();
    }
    let bytes: usize = len * T::size();
    let whole: usize = bytes / ranks;
    let even: usize = if bytes % ranks == 0 {
        whole
    } else {
        whole + 1
    };
    assert(even == (bytes + ranks - 1) / (ranks as int) && even <= bytes) by (nonlinear_arith)
        requires
            0 < ranks,
            0 <= bytes,
            whole == bytes as int / (ranks as int),
            even == if bytes as int % (ranks as int) == 0 {
                whole as int
            } else {
                whole + 1
            },
    ;
    let share: usize = align(even);
    let widened: usize = if share > PAGE_SIZE {
        share
    } else {
        PAGE_SIZE
    };
    widened / T::size()
}

/// The elements of a buffer of `len` elements that a rank sums up: its span,
/// cut off at the buffer's end.
pub open spec fn spec_owner_bounds(len: int, span: int, rank: int) -> (usize, usize) {
    (
        (if span * rank < len {
            span * rank
        } else {
            len
        }) as usize,
        (if span * rank + span < len {
            span * rank + span
        } else {
            len
        }) as usize,
    )
}

/// The elements of a buffer of `len` elements that a rank sums up: the
/// index of the first, and the index after the last. They are the same
/// where the rank's span begins beyond the buffer's end.
pub fn owner_bounds<T: MpiType>(len: usize, rank: usize, ranks: usize) -> (bounds: (usize, usize))
    requires
        rank < ranks,
        len * T::spec_size() + 4095 <= usize::MAX,
    ensures
        bounds == spec_owner_bounds(
            len as int,
            owner_span::<T>(len as int, ranks as int),
            rank as int,
        ),
        bounds.0 <= bounds.1 <= len,
        forall|i: int|
            0 <= i < len ==> (owned(i, owner_span::<T>(len as int, ranks as int), rank as int)
                <==> bounds.0 <= i < bounds.1),
{
    let span: usize = span_of::<T>(len, ranks);
    proof {
        lemma_slot_sizes::<T>(len as int, ranks as int);
        assert(0 <= span * rank) by (nonlinear_arith)
            requires
                0 <= rank,
                0 <= span,
        ;
    }
    let first: Option<usize> = span.checked_mul(rank);
    match first {
        Some(start) => {
            if start < len {
                let end: usize = if span < len - start {
                    start + span
                } else {
                    len
                };
                (start, end)
            } else {
                (len, len)
            }
        },
        None => (len, len),
    }
}

/// A rank's first step of the slotted reduction: it writes its buffer into
/// its own slot and leaves every other slot as it was.
pub fn publish<T: MpiType>(slots: &mut [T], send: &[T], rank: usize, ranks: usize)
    requires
        rank < ranks,
        send@.len() * T::spec_size() + 4095 <= usize::MAX,
        old(slots)@.len() == slot_stride::<T>(send@.len() as int) * ranks,
    ensures
        final(slots)@ == with_slot(
            old(slots)@,
            send@,
            slot_stride::<T>(send@.len() as int),
            rank as int,
        ),
{
    let len: usize = send.len();
    let capacity: usize = slots.len();
    let stride: usize = stride_of::<T>(len);
    proof {
        lemma_slot_sizes::<T>(len as int, ranks as int);
        assert(0 <= stride * rank && stride * rank + stride <= stride * ranks) by (nonlinear_arith)
            requires
                0 <= rank < ranks,
                0 <= stride,
        ;
    }
    let base: usize = stride * rank;
    let mut i: usize = 0;
    while i < len
        invariant
            i <= len,
            len == send@.len(),
            base == stride * rank,
            base + len <= slots@.len(),
            slots@.len() == capacity,
            slots@.len() == old(slots)@.len(),
            slots@ == with_slot(old(slots)@, send@.take(i as int), stride as int, rank as int),
        decreases len - i,
    {
        slots[base + i] = send[i];
        i = i + 1;
        assert(slots@ =~= with_slot(
            old(slots)@,
            send@.take(i as int),
            stride as int,
            rank as int,
        ));
    }
}

/// A rank's second step of the slotted reduction: at the elements that it
/// owns, and at no others, it adds what every rank's slot holds into the
/// result, slot after slot.
pub fn allreduce_multiple<T: MpiType>(slots: &[T], result: &mut [T], rank: usize, ranks: usize)
    requires
        rank < ranks,
        old(result)@.len() * T::spec_size() + 4095 <= usize::MAX,
        slots@.len() == slot_stride::<T>(old(result)@.len() as int) * ranks,
    ensures
        final(result)@ == reduce_owned(
            old(result)@,
            slots@,
            slot_stride::<T>(old(result)@.len() as int),
            owner_span::<T>(old(result)@.len() as int, ranks as int),
            rank as int,
            ranks as int,
        ),
{
    let len: usize = result.len();
    let capacity: usize = slots.len();
    let stride: usize = stride_of::<T>(len);
    let ghost span = owner_span::<T>(len as int, ranks as int);
    let (start, end) = owner_bounds::<T>(len, rank, ranks);
    proof {
        lemma_slot_sizes::<T>(len as int, ranks as int);
        assert forall|i: int| 0 <= i < len implies result@[i] == T::wrap(
            #[trigger] result@[i].value(),
        ) by {
            T::lemma_wrap_value(result@[i]);
        }
    }
    let mut source: usize = 0;
    while source < ranks
        invariant
            source <= ranks,
            start <= end <= len,
            forall|i: int| 0 <= i < len ==> (owned(i, span, rank as int) <==> start <= i < end),
            len == result@.len(),
            len == old(result)@.len(),
            len <= stride,
            slots@.len() == stride * ranks,
            slots@.len() == capacity,
            result@ == reduce_owned(
                old(result)@,
                slots@,
                stride as int,
                span,
                rank as int,
                source as int,
            ),
        decreases ranks - source,
    {
        proof {
            assert(0 <= stride * source && stride * source + stride <= stride * ranks)
                by (nonlinear_arith)
                requires
                    0 <= source < ranks,
                    0 <= stride,
            ;
        }
        let base: usize = stride * source;
        let slot = &slots[base..base + len];
        sum_slice(result, slot, start, end);
        proof {
            assert forall|i: int| 0 <= i < len implies result@[i] == reduce_owned(
                old(result)@,
                slots@,
                stride as int,
                span,
                rank as int,
                source + 1,
            )[i] by {
                if start <= i < end {
                    let sum = old(result)@[i].value() + slot_total(
                        slots@,
                        stride as int,
                        i,
                        source as int,
                    );
                    T::lemma_wrap_sum(sum, slot@[i].value());
                }
            }
            assert(result@ =~= reduce_owned(
                old(result)@,
                slots@,
                stride as int,
                span,
                rank as int,
                source + 1,
            ));
        }
        source = source + 1;
    }
}

/// A rank's last step of either algorithm: it takes the shared result into
/// its own buffer.
pub fn copy_out<T: MpiType>(receive: &mut [T], shared: &[T])
    requires
        old(receive)@.len() == shared@.len(),
    ensures
        final(receive)@ == shared@,
{
    let len: usize = shared.len();
    let mut i: usize = 0;
    while i < len
        invariant
            i <= len,
            len == shared@.len(),
            receive@.len() == len,
            forall|j: int| 0 <= j < i ==> receive@[j] == shared@[j],
        decreases len - i,
    {
        receive[i] = shared[i];
        i = i + 1;
    }
}

} // verus!
