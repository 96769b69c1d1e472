//! What a whole group of ranks computes, whatever the order in which their
//! steps on the shared body interleave.

use vstd::prelude::*;
use vstd::arithmetic::div_mod::lemma_fundamental_div_mod;
use vstd::arithmetic::div_mod::lemma_mod_bound;
use crate::allreduce::owned;
use crate::allreduce::owner_span;
use crate::allreduce::reduce_owned;
use crate::allreduce::region_end;
use crate::allreduce::region_of;
use crate::allreduce::region_start;
use crate::allreduce::regions;
use crate::allreduce::lemma_region_of;
use crate::allreduce::lemma_slot_sizes;
use crate::allreduce::slot_stride;
use crate::allreduce::slot_total;
use crate::allreduce::sum_range;
use crate::allreduce::with_slot;
use crate::allreduce::zeros;
use crate::datatype::MpiType;

verus! {

/// Whether every rank of a group brings a buffer of `len` elements.
pub open spec fn uniform<T: MpiType>(inputs: Seq<Seq<T>>, len: nat) -> bool {
    forall|r: int| 0 <= r < inputs.len() ==> (#[trigger] inputs[r]).len() == len
}

/// The sum of what the first `upto` ranks bring at index `i`.
pub open spec fn total<T: MpiType>(inputs: Seq<Seq<T>>, i: int, upto: int) -> int
    decreases upto,
{
    if upto <= 0 {
        0
    } else {
        total(inputs, i, upto - 1) + inputs[upto - 1][i].value()
    }
}

/// The buffer that a reduction owes to every rank: at each index the sum of
/// what all ranks bring there.
pub open spec fn sums<T: MpiType>(inputs: Seq<Seq<T>>, len: nat) -> Seq<T> {
    Seq::new(len, |i: int| T::wrap(total(inputs, i, inputs.len() as int)))
}

/// The accumulator after a sequence of visits, each the pair of the visiting
/// rank and the region that it added its elements to.
pub open spec fn run_single<T: MpiType>(
    acc: Seq<T>,
    inputs: Seq<Seq<T>>,
    visits: Seq<(int, int)>,
) -> Seq<T>
    decreases visits.len(),
{
    if visits.len() == 0 {
        acc
    } else {
        let (rank, region) = visits.last();
        sum_range(
            run_single(acc, inputs, visits.drop_last()),
            inputs[rank],
            region_start::<T>(region),
            region_end::<T>(region, acc.len() as int),
        )
    }
}

/// Whether the visits are those of `ranks` ranks that each visit each of
/// `count` regions exactly once.
pub open spec fn each_once(visits: Seq<(int, int)>, ranks: int, count: int) -> bool {
    &&& visits.no_duplicates()
    &&& forall|k: int|
        0 <= k < visits.len() ==> 0 <= (#[trigger] visits[k]).0 < ranks && 0 <= visits[k].1 < count
    &&& forall|rank: int, region: int|
        0 <= rank < ranks && 0 <= region < count ==> visits.contains((rank, region))
}

/// The sum of what those of the first `upto` ranks bring at index `i` that
/// have visited the region of `i`.
pub open spec fn visited_total<T: MpiType>(
    inputs: Seq<Seq<T>>,
    visits: Seq<(int, int)>,
    i: int,
    upto: int,
) -> int
    decreases upto,
{
    if upto <= 0 {
        0
    } else {
        visited_total(inputs, visits, i, upto - 1) + if visits.contains(
            (upto - 1, region_of::<T>(i)),
        ) {
            inputs[upto - 1][i].value()
        } else {
            0
        }
    }
}

proof fn lemma_without_last<A>(s: Seq<A>)
    requires
        s.len() > 0,
        s.no_duplicates(),
    ensures
        s.drop_last().no_duplicates(),
        !s.drop_last().contains(s.last()),
        forall|x: A| s.contains(x) <==> (s.drop_last().contains(x) || x == s.last()),
{
    let init = s.drop_last();
    assert forall|x: A| s.contains(x) <==> (init.contains(x) || x == s.last()) by {
        if s.contains(x) {
            let k = choose|k: int| 0 <= k < s.len() && s[k] == x;
            if k < init.len() {
                assert(init[k] == x);
            }
        }
        if init.contains(x) {
            let k = choose|k: int| 0 <= k < init.len() && init[k] == x;
            assert(s[k] == x);
        }
        if x == s.last() {
            assert(s[s.len() - 1] == x);
        }
    }
    if init.contains(s.last()) {
        let k = choose|k: int| 0 <= k < init.len() && init[k] == s.last();
        assert(s[k] == s[s.len() - 1]);
    }
    assert forall|a: int, b: int| 0 <= a < init.len() && 0 <= b < init.len() && a != b implies init[a]
        != init[b] by {
        assert(s[a] != s[b]);
    }
}

proof fn lemma_visited_total_empty<T: MpiType>(inputs: Seq<Seq<T>>, i: int, upto: int)
    ensures
        visited_total::<T>(inputs, Seq::empty(), i, upto) == 0,
    decreases upto,
{
    if upto > 0 {
        lemma_visited_total_empty::<T>(inputs, i, upto - 1);
    }
}

proof fn lemma_visited_total_step<T: MpiType>(
    inputs: Seq<Seq<T>>,
    visits: Seq<(int, int)>,
    i: int,
    upto: int,
)
    requires
        visits.len() > 0,
        visits.no_duplicates(),
    ensures
        visited_total::<T>(inputs, visits, i, upto) == visited_total::<T>(
            inputs,
            visits.drop_last(),
            i,
            upto,
        ) + if 0 <= visits.last().0 < upto && visits.last().1 == region_of::<T>(i) {
            inputs[visits.last().0][i].value()
        } else {
            0
        },
    decreases upto,
{
    if upto > 0 {
        lemma_visited_total_step::<T>(inputs, visits, i, upto - 1);
        lemma_without_last(visits);
    }
}

proof fn lemma_visited_total_all<T: MpiType>(
    inputs: Seq<Seq<T>>,
    visits: Seq<(int, int)>,
    i: int,
    upto: int,
    ranks: int,
    count: int,
)
    requires
        each_once(visits, ranks, count),
        0 <= region_of::<T>(i) < count,
        upto <= ranks,
    ensures
        visited_total::<T>(inputs, visits, i, upto) == total(inputs, i, upto),
    decreases upto,
{
    if upto > 0 {
        lemma_visited_total_all::<T>(inputs, visits, i, upto - 1, ranks, count);
    }
}

/// After any visits without a repeat, the accumulator holds at each index
/// the sum of what the ranks that have visited its region bring there.
pub proof fn lemma_run_single_partial<T: MpiType>(
    inputs: Seq<Seq<T>>,
    visits: Seq<(int, int)>,
    len: nat,
    i: int,
)
    requires
        uniform(inputs, len),
        visits.no_duplicates(),
        forall|k: int|
            0 <= k < visits.len() ==> 0 <= (#[trigger] visits[k]).0 < inputs.len() && 0
                <= visits[k].1,
        0 <= i < len,
    ensures
        run_single(zeros::<T>(len), inputs, visits).len() == len,
        run_single(zeros::<T>(len), inputs, visits)[i] == T::wrap(
            visited_total::<T>(inputs, visits, i, inputs.len() as int),
        ),
    decreases visits.len(),
{
    let ranks = inputs.len() as int;
    if visits.len() == 0 {
        assert(visits =~= Seq::empty());
        lemma_visited_total_empty::<T>(inputs, i, ranks);
    } else {
        let init = visits.drop_last();
        let (rank, region) = visits.last();
        lemma_without_last(visits);
        lemma_run_single_partial::<T>(inputs, init, len, i);
        lemma_visited_total_step::<T>(inputs, visits, i, ranks);
        lemma_region_of::<T>(i, region, len as int);
        let before = visited_total::<T>(inputs, init, i, ranks);
        if region_of::<T>(i) == region {
            T::lemma_wrap_sum(before, inputs[rank][i].value());
        }
    }
}

/// The locked reduction gives every rank the sums of all buffers, in
/// whatever order the ranks come to hold the regions' locks: from a zeroed
/// accumulator, any sequence of visits in which every rank visits every
/// region exactly once ends with the sums.
pub proof fn lemma_single_sums<T: MpiType>(
    inputs: Seq<Seq<T>>,
    visits: Seq<(int, int)>,
    len: nat,
)
    requires
        uniform(inputs, len),
        each_once(visits, inputs.len() as int, regions::<T>(len as int)),
    ensures
        run_single(zeros::<T>(len), inputs, visits) == sums(inputs, len),
{
    let end = run_single(zeros::<T>(len), inputs, visits);
    assert forall|i: int| 0 <= i < len implies end[i] == sums(inputs, len)[i] by {
        lemma_run_single_partial::<T>(inputs, visits, len, i);
        lemma_region_of::<T>(i, 0, len as int);
        lemma_visited_total_all::<T>(
            inputs,
            visits,
            i,
            inputs.len() as int,
            inputs.len() as int,
            regions::<T>(len as int),
        );
    }
    lemma_run_single_len::<T>(zeros::<T>(len), inputs, visits);
}

proof fn lemma_run_single_len<T: MpiType>(
    acc: Seq<T>,
    inputs: Seq<Seq<T>>,
    visits: Seq<(int, int)>,
)
    ensures
        run_single(acc, inputs, visits).len() == acc.len(),
    decreases visits.len(),
{
    if visits.len() > 0 {
        lemma_run_single_len::<T>(acc, inputs, visits.drop_last());
    }
}

/// Whether every rank's slot holds that rank's buffer.
pub open spec fn published<T: MpiType>(slots: Seq<T>, inputs: Seq<Seq<T>>, len: nat) -> bool {
    forall|r: int, i: int|
        0 <= r < inputs.len() && 0 <= i < len ==> slots[slot_stride::<T>(len as int) * r + i]
            == #[trigger] inputs[r][i]
}

/// The slots after a sequence of ranks have each written their buffer.
pub open spec fn run_publish<T: MpiType>(
    slots: Seq<T>,
    inputs: Seq<Seq<T>>,
    len: nat,
    writers: Seq<int>,
) -> Seq<T>
    decreases writers.len(),
{
    if writers.len() == 0 {
        slots
    } else {
        with_slot(
            run_publish(slots, inputs, len, writers.drop_last()),
            inputs[writers.last()],
            slot_stride::<T>(len as int),
            writers.last(),
        )
    }
}

/// The result after a sequence of ranks have each summed up the elements
/// that they own.
pub open spec fn run_multiple<T: MpiType>(
    result: Seq<T>,
    slots: Seq<T>,
    ranks: int,
    owners: Seq<int>,
) -> Seq<T>
    decreases owners.len(),
{
    if owners.len() == 0 {
        result
    } else {
        reduce_owned(
            run_multiple(result, slots, ranks, owners.drop_last()),
            slots,
            slot_stride::<T>(result.len() as int),
            owner_span::<T>(result.len() as int, ranks),
            owners.last(),
            ranks,
        )
    }
}

/// Whether the sequence names every one of `ranks` ranks exactly once.
pub open spec fn each_rank_once(order: Seq<int>, ranks: int) -> bool {
    &&& order.no_duplicates()
    &&& forall|k: int| 0 <= k < order.len() ==> 0 <= #[trigger] order[k] < ranks
    &&& forall|rank: int| 0 <= rank < ranks ==> order.contains(rank)
}

/// The rank that owns an element is the quotient of its index by the span.
pub proof fn lemma_owner(i: int, span: int, rank: int)
    requires
        0 <= i,
        0 < span,
    ensures
        owned(i, span, rank) <==> i / span == rank,
{
    lemma_fundamental_div_mod(i, span);
    lemma_mod_bound(i, span);
    let q = i / span;
    let m = i % span;
    assert(owned(i, span, rank) <==> q == rank) by (nonlinear_arith)
        requires
            i == span * q + m,
            0 <= m < span,
            owned(i, span, rank) <==> (span * rank <= i < span * rank + span),
    ;
}

proof fn lemma_slots_apart(stride: int, a: int, b: int)
    by (nonlinear_arith)
    requires
        0 <= stride,
        0 <= a < b,
    ensures
        0 <= stride * a,
        stride * a + stride <= stride * b,
{
}

proof fn lemma_run_publish_len<T: MpiType>(
    slots: Seq<T>,
    inputs: Seq<Seq<T>>,
    len: nat,
    writers: Seq<int>,
)
    ensures
        run_publish(slots, inputs, len, writers).len() == slots.len(),
    decreases writers.len(),
{
    if writers.len() > 0 {
        lemma_run_publish_len(slots, inputs, len, writers.drop_last());
    }
}

proof fn lemma_run_publish_slot<T: MpiType>(
    slots: Seq<T>,
    inputs: Seq<Seq<T>>,
    len: nat,
    writers: Seq<int>,
    r: int,
    i: int,
)
    requires
        uniform(inputs, len),
        slots.len() == slot_stride::<T>(len as int) * inputs.len(),
        forall|k: int| 0 <= k < writers.len() ==> 0 <= #[trigger] writers[k] < inputs.len(),
        writers.contains(r),
        0 <= i < len,
    ensures
        run_publish(slots, inputs, len, writers)[slot_stride::<T>(len as int) * r + i]
            == inputs[r][i],
    decreases writers.len(),
{
    let stride = slot_stride::<T>(len as int);
    let ranks = inputs.len() as int;
    let init = writers.drop_last();
    let last = writers.last();
    let k = choose|k: int| 0 <= k < writers.len() && writers[k] == r;
    assert(0 <= writers[k] < ranks);
    assert(0 <= writers[writers.len() - 1] < ranks);
    lemma_slot_sizes::<T>(len as int, ranks);
    lemma_run_publish_len(slots, inputs, len, init);
    lemma_slots_apart(stride, r, ranks);
    lemma_slots_apart(stride, last, ranks);
    let before = run_publish(slots, inputs, len, init);
    let after = run_publish(slots, inputs, len, writers);
    let j = stride * r + i;
    assert(after == with_slot(before, inputs[last], stride, last));
    assert(inputs[last].len() == len);
    assert(0 <= j < before.len());
    if last == r {
        assert(after[j] == inputs[r][j - stride * r]);
    } else {
        assert(init[k] == r);
        lemma_run_publish_slot(slots, inputs, len, init, r, i);
        if last < r {
            lemma_slots_apart(stride, last, r);
        } else {
            lemma_slots_apart(stride, r, last);
        }
        assert(after[j] == before[j]);
    }
}

/// Ranks publish without a lock: once every rank has written its slot, in
/// whatever order, every slot holds its rank's buffer.
pub proof fn lemma_publish_all<T: MpiType>(
    slots: Seq<T>,
    inputs: Seq<Seq<T>>,
    len: nat,
    writers: Seq<int>,
)
    requires
        uniform(inputs, len),
        slots.len() == slot_stride::<T>(len as int) * inputs.len(),
        each_rank_once(writers, inputs.len() as int),
    ensures
        published(run_publish(slots, inputs, len, writers), inputs, len),
{
    let end = run_publish(slots, inputs, len, writers);
    assert forall|r: int, i: int| 0 <= r < inputs.len() && 0 <= i < len implies end[slot_stride::<
        T,
    >(len as int) * r + i] == #[trigger] inputs[r][i] by {
        lemma_run_publish_slot(slots, inputs, len, writers, r, i);
    }
}

proof fn lemma_slot_total<T: MpiType>(
    slots: Seq<T>,
    inputs: Seq<Seq<T>>,
    len: nat,
    i: int,
    upto: int,
)
    requires
        published(slots, inputs, len),
        0 <= i < len,
        upto <= inputs.len(),
    ensures
        slot_total(slots, slot_stride::<T>(len as int), i, upto) == total(inputs, i, upto),
    decreases upto,
{
    if upto > 0 {
        lemma_slot_total(slots, inputs, len, i, upto - 1);
    }
}

proof fn lemma_run_multiple_len<T: MpiType>(
    result: Seq<T>,
    slots: Seq<T>,
    ranks: int,
    owners: Seq<int>,
)
    ensures
        run_multiple(result, slots, ranks, owners).len() == result.len(),
    decreases owners.len(),
{
    if owners.len() > 0 {
        lemma_run_multiple_len(result, slots, ranks, owners.drop_last());
    }
}

/// After any owners without a repeat have summed up their elements, the
/// result holds the sums at the elements of those owners and zero elsewhere.
pub proof fn lemma_run_multiple_partial<T: MpiType>(
    inputs: Seq<Seq<T>>,
    slots: Seq<T>,
    owners: Seq<int>,
    len: nat,
    i: int,
)
    requires
        uniform(inputs, len),
        inputs.len() > 0,
        published(slots, inputs, len),
        owners.no_duplicates(),
        0 <= i < len,
    ensures
        run_multiple(zeros::<T>(len), slots, inputs.len() as int, owners)[i] == if owners.contains(
            i / owner_span::<T>(len as int, inputs.len() as int),
        ) {
            T::wrap(total(inputs, i, inputs.len() as int))
        } else {
            T::wrap(0)
        },
    decreases owners.len(),
{
    let ranks = inputs.len() as int;
    let span = owner_span::<T>(len as int, ranks);
    lemma_slot_sizes::<T>(len as int, ranks);
    if owners.len() > 0 {
        let init = owners.drop_last();
        lemma_without_last(owners);
        lemma_run_multiple_partial(inputs, slots, init, len, i);
        lemma_run_multiple_len(zeros::<T>(len), slots, ranks, init);
        lemma_owner(i, span, owners.last());
        lemma_slot_total(slots, inputs, len, i, ranks);
        T::lemma_wrap_sum(0, total(inputs, i, ranks));
    } else {
        assert(!owners.contains(i / span));
    }
}

/// The slotted reduction gives every rank the sums of all buffers, in
/// whatever order the owners do their part: with every slot published and
/// the result zeroed, any sequence in which every rank sums up its own
/// elements exactly once ends with the sums.
pub proof fn lemma_multiple_sums<T: MpiType>(
    inputs: Seq<Seq<T>>,
    slots: Seq<T>,
    owners: Seq<int>,
    len: nat,
)
    requires
        uniform(inputs, len),
        inputs.len() > 0,
        published(slots, inputs, len),
        each_rank_once(owners, inputs.len() as int),
    ensures
        run_multiple(zeros::<T>(len), slots, inputs.len() as int, owners) == sums(inputs, len),
{
    let ranks = inputs.len() as int;
    let span = owner_span::<T>(len as int, ranks);
    let end = run_multiple(zeros::<T>(len), slots, ranks, owners);
    lemma_slot_sizes::<T>(len as int, ranks);
    lemma_run_multiple_len(zeros::<T>(len), slots, ranks, owners);
    assert forall|i: int| 0 <= i < len implies end[i] == sums(inputs, len)[i] by {
        lemma_run_multiple_partial(inputs, slots, owners, len, i);
        let owner = i / span;
        lemma_owner(i, span, owner);
        assert(0 <= owner < ranks) by (nonlinear_arith)
            requires
                span * owner <= i < span * owner + span,
                0 <= i < span * ranks,
                0 < span,
        ;
        assert(owners.contains(owner));
    }
}

/// The two algorithms agree: the locked reduction, in any order of visits,
/// and the slotted one, in any order of owners, leave the same result.
pub proof fn lemma_algorithms_agree<T: MpiType>(
    inputs: Seq<Seq<T>>,
    visits: Seq<(int, int)>,
    slots: Seq<T>,
    owners: Seq<int>,
    len: nat,
)
    requires
        uniform(inputs, len),
        inputs.len() > 0,
        each_once(visits, inputs.len() as int, regions::<T>(len as int)),
        published(slots, inputs, len),
        each_rank_once(owners, inputs.len() as int),
    ensures
        run_single(zeros::<T>(len), inputs, visits) == run_multiple(
            zeros::<T>(len),
            slots,
            inputs.len() as int,
            owners,
        ),
{
    lemma_single_sums(inputs, visits, len);
    lemma_multiple_sums(inputs, slots, owners, len);
}

/// A whole round of the locked reduction on an accumulator that an earlier
/// round has left behind: rank 0 zeroes it, then the ranks make their visits.
pub open spec fn round_single<T: MpiType>(
    prior: Seq<T>,
    inputs: Seq<Seq<T>>,
    visits: Seq<(int, int)>,
) -> Seq<T> {
    run_single(zeros::<T>(prior.len()), inputs, visits)
}

/// A whole round of the slotted reduction on slots and a result that an
/// earlier round has left behind: rank 0 zeroes the result, every rank
/// writes its slot, then every rank sums up its own elements.
pub open spec fn round_multiple<T: MpiType>(
    prior_slots: Seq<T>,
    prior_result: Seq<T>,
    inputs: Seq<Seq<T>>,
    writers: Seq<int>,
    owners: Seq<int>,
) -> Seq<T> {
    run_multiple(
        zeros::<T>(prior_result.len()),
        run_publish(prior_slots, inputs, prior_result.len(), writers),
        inputs.len() as int,
        owners,
    )
}

/// Rounds of the locked reduction do not mix: when a group reduces one set
/// of buffers and then another on the same accumulator, the first round ends
/// with the sums of the first buffers and the second with the sums of the
/// second, with nothing of the first in them.
pub proof fn lemma_single_rounds<T: MpiType>(
    prior: Seq<T>,
    first: Seq<Seq<T>>,
    first_visits: Seq<(int, int)>,
    second: Seq<Seq<T>>,
    second_visits: Seq<(int, int)>,
)
    requires
        uniform(first, prior.len()),
        uniform(second, prior.len()),
        each_once(first_visits, first.len() as int, regions::<T>(prior.len() as int)),
        each_once(second_visits, second.len() as int, regions::<T>(prior.len() as int)),
    ensures
        round_single(prior, first, first_visits) == sums(first, prior.len()),
        round_single(round_single(prior, first, first_visits), second, second_visits) == sums(
            second,
            prior.len(),
        ),
{
    lemma_single_sums(first, first_visits, prior.len());
    lemma_single_sums(second, second_visits, prior.len());
}

/// A round of the slotted reduction ends with the sums of that round's
/// buffers, whatever the slots and the result held when it began.
pub proof fn lemma_multiple_round<T: MpiType>(
    prior_slots: Seq<T>,
    prior_result: Seq<T>,
    inputs: Seq<Seq<T>>,
    writers: Seq<int>,
    owners: Seq<int>,
)
    requires
        uniform(inputs, prior_result.len()),
        inputs.len() > 0,
        prior_slots.len() == slot_stride::<T>(prior_result.len() as int) * inputs.len(),
        each_rank_once(writers, inputs.len() as int),
        each_rank_once(owners, inputs.len() as int),
    ensures
        round_multiple(prior_slots, prior_result, inputs, writers, owners) == sums(
            inputs,
            prior_result.len(),
        ),
        round_multiple(prior_slots, prior_result, inputs, writers, owners).len()
            == prior_result.len(),
        run_publish(prior_slots, inputs, prior_result.len(), writers).len() == prior_slots.len(),
{
    let len = prior_result.len();
    lemma_publish_all(prior_slots, inputs, len, writers);
    lemma_run_publish_len(prior_slots, inputs, len, writers);
    lemma_multiple_sums(inputs, run_publish(prior_slots, inputs, len, writers), owners, len);
}

/// Rounds of the slotted reduction do not mix: when a group reduces one set
/// of buffers and then another on the same slots and result, the second
/// round ends with the sums of the second buffers, with nothing of the first
/// in them.
pub proof fn lemma_multiple_rounds<T: MpiType>(
    prior_slots: Seq<T>,
    prior_result: Seq<T>,
    first: Seq<Seq<T>>,
    first_writers: Seq<int>,
    first_owners: Seq<int>,
    second: Seq<Seq<T>>,
    second_writers: Seq<int>,
    second_owners: Seq<int>,
)
    requires
        uniform(first, prior_result.len()),
        uniform(second, prior_result.len()),
        first.len() > 0,
        second.len() == first.len(),
        prior_slots.len() == slot_stride::<T>(prior_result.len() as int) * first.len(),
        each_rank_once(first_writers, first.len() as int),
        each_rank_once(first_owners, first.len() as int),
        each_rank_once(second_writers, second.len() as int),
        each_rank_once(second_owners, second.len() as int),
    ensures
        round_multiple(
            run_publish(prior_slots, first, prior_result.len(), first_writers),
            round_multiple(prior_slots, prior_result, first, first_writers, first_owners),
            second,
            second_writers,
            second_owners,
        ) == sums(second, prior_result.len()),
{
    lemma_multiple_round(prior_slots, prior_result, first, first_writers, first_owners);
    lemma_multiple_round(
        run_publish(prior_slots, first, prior_result.len(), first_writers),
        round_multiple(prior_slots, prior_result, first, first_writers, first_owners),
        second,
        second_writers,
        second_owners,
    );
}

/// Whether rank `r` brings the value `r + i` at every index `i`.
pub open spec fn ramp<T: MpiType>(inputs: Seq<Seq<T>>, len: nat) -> bool {
    forall|r: int, i: int|
        0 <= r < inputs.len() && 0 <= i < len ==> (#[trigger] inputs[r][i]).value() == r + i
}

proof fn lemma_ramp_total<T: MpiType>(inputs: Seq<Seq<T>>, len: nat, i: int, upto: int)
    requires
        ramp(inputs, len),
        0 <= i < len,
        0 <= upto <= inputs.len(),
    ensures
        total(inputs, i, upto) == upto * (upto - 1) / 2 + i * upto,
    decreases upto,
{
    if upto > 0 {
        lemma_ramp_total(inputs, len, i, upto - 1);
        assert((upto - 1) * (upto - 2) / 2 + i * (upto - 1) + (upto - 1 + i) == upto * (upto - 1)
            / 2 + i * upto) by (nonlinear_arith)
            requires
                upto > 0,
        ;
    } else {
        assert(upto * (upto - 1) / 2 + i * upto == 0) by (nonlinear_arith)
            requires
                upto == 0,
        ;
    }
}

/// With `R` ranks, rank `r` bringing `r + i` at index `i`, the reduction owes
/// every rank `R * (R - 1) / 2 + i * R` at index `i`, wherever that number
/// fits the element type.
pub proof fn lemma_ramp_sums<T: MpiType>(inputs: Seq<Seq<T>>, len: nat, i: int)
    requires
        ramp(inputs, len),
        0 <= i < len,
        T::fits(inputs.len() * (inputs.len() - 1) / 2 + i * inputs.len()),
    ensures
        sums(inputs, len)[i].value() == inputs.len() * (inputs.len() - 1) / 2 + i * inputs.len(),
{
    lemma_ramp_total(inputs, len, i, inputs.len() as int);
    T::lemma_wrap_exact(total(inputs, i, inputs.len() as int));
}

/// The locked reduction of the ramp: with `R` ranks, rank `r` bringing
/// `r + i` at index `i`, every order of visits leaves `R * (R - 1) / 2 + i * R`
/// at index `i`, wherever that number fits the element type.
pub proof fn lemma_ramp_single<T: MpiType>(
    inputs: Seq<Seq<T>>,
    visits: Seq<(int, int)>,
    len: nat,
    i: int,
)
    requires
        uniform(inputs, len),
        ramp(inputs, len),
        each_once(visits, inputs.len() as int, regions::<T>(len as int)),
        0 <= i < len,
        T::fits(inputs.len() * (inputs.len() - 1) / 2 + i * inputs.len()),
    ensures
        run_single(zeros::<T>(len), inputs, visits)[i].value() == inputs.len() * (inputs.len() - 1)
            / 2 + i * inputs.len(),
{
    lemma_single_sums(inputs, visits, len);
    lemma_ramp_sums(inputs, len, i);
}

/// The slotted reduction of the ramp: with `R` ranks, rank `r` bringing
/// `r + i` at index `i`, every order of owners leaves `R * (R - 1) / 2 + i * R`
/// at index `i`, wherever that number fits the element type.
pub proof fn lemma_ramp_multiple<T: MpiType>(
    inputs: Seq<Seq<T>>,
    slots: Seq<T>,
    owners: Seq<int>,
    len: nat,
    i: int,
)
    requires
        uniform(inputs, len),
        inputs.len() > 0,
        ramp(inputs, len),
        published(slots, inputs, len),
        each_rank_once(owners, inputs.len() as int),
        0 <= i < len,
        T::fits(inputs.len() * (inputs.len() - 1) / 2 + i * inputs.len()),
    ensures
        run_multiple(zeros::<T>(len), slots, inputs.len() as int, owners)[i].value()
            == inputs.len() * (inputs.len() - 1) / 2 + i * inputs.len(),
{
    lemma_multiple_sums(inputs, slots, owners, len);
    lemma_ramp_sums(inputs, len, i);
}

} // verus!
