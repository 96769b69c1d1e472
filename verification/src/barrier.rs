//! The epoch barrier: a counter of arrivals that only ever grows.

use vstd::prelude::*;
use crate::layout::CACHE_LINE_SIZE;

verus! {

/// The barrier's shared state: how many arrivals there have been since the
/// window was zeroed.
///
/// Round after round the counter keeps growing; a rank leaves a round once the
/// counter has reached that round's threshold, which is the rank's own
/// baseline plus the size of the group.
pub struct Barrier {
    counter: u64,
}

impl Barrier {
    /// Number of bytes that the barrier occupies at the start of the header.
    pub const SIZE: usize = CACHE_LINE_SIZE;

    /// Number of arrivals so far.
    pub closed spec fn arrivals(&self) -> nat {
        self.counter as nat
    }

    /// The threshold of the round that starts at baseline `epoch`.
    pub open spec fn threshold(epoch: int, total: int) -> int {
        epoch + total
    }

    /// The number of arrivals after one more.
    pub open spec fn one_more(arrivals: nat) -> nat {
        arrivals + 1
    }

    /// Whether a round that ends at `threshold` is over at a given number of
    /// arrivals.
    pub open spec fn over(arrivals: nat, threshold: int) -> bool {
        arrivals >= threshold
    }

    /// Whether a rank whose round ends at `threshold` may go on.
    pub open spec fn spec_released(&self, threshold: u64) -> bool {
        Self::over(self.arrivals(), threshold as int)
    }

    /// A barrier over zeroed memory: nobody has arrived.
    pub fn new() -> (barrier: Barrier)
        ensures
            barrier.arrivals() == 0,
    {
        Barrier { counter: 0 }
    }

    /// The barrier as a rank has just read it: a barrier with the given
    /// number of arrivals.
    pub fn observed(counter: u64) -> (barrier: Barrier)
        ensures
            barrier.arrivals() == counter,
    {
        Barrier { counter }
    }

    /// Joins the round that starts at the caller's baseline `epoch`: counts
    /// the caller in and returns the threshold that ends the round.
    pub fn arrive(&mut self, epoch: u64, total: u64) -> (threshold: u64)
        requires
            old(self).arrivals() < u64::MAX,
            epoch + total <= u64::MAX,
        ensures
            final(self).arrivals() == Self::one_more(old(self).arrivals()),
            threshold == Self::threshold(epoch as int, total as int),
    {
        self.counter = self.counter + 1;
        epoch + total
    }

    /// Whether the round that ends at `threshold` is over.
    #[verifier::when_used_as_spec(spec_released)]
    pub fn released(&self, threshold: u64) -> (open: bool)
        ensures
            open == self.spec_released(threshold),
    {
        self.counter >= threshold
    }

    /// A rank's call at the barrier, up to the point at which it would have
    /// to wait: counts the caller in, moves the caller's baseline on by
    /// `total`, and tells whether the round is over.
    ///
    /// A caller that is told no is not the last of its round: it goes on only
    /// once `released` says yes at its new baseline.
    pub fn wait(&mut self, epoch: &mut u64, total: u64) -> (released: bool)
        requires
            old(self).arrivals() < u64::MAX,
            *old(epoch) + total <= u64::MAX,
        ensures
            final(self).arrivals() == Self::one_more(old(self).arrivals()),
            *final(epoch) == Self::threshold(*old(epoch) as int, total as int),
            released == final(self).spec_released(*final(epoch)),
    {
        let threshold = self.arrive(*epoch, total);
        *epoch = threshold;
        self.released(threshold)
    }
}

/// One rank as the barrier sees it: how often it has arrived, and how many
/// rounds it has left behind.
pub struct Party {
    pub arrived: nat,
    pub left: nat,
}

/// A group at a barrier: the shared counter and every rank's progress.
pub struct Rendezvous {
    pub counter: nat,
    pub parties: Seq<Party>,
}

/// A step of one rank at the barrier.
pub enum Move {
    /// The rank counts itself in.
    Arrive(int),
    /// The rank finds its round over and goes on.
    Leave(int),
}

/// A group of `ranks` ranks over a zeroed barrier.
pub open spec fn start(ranks: nat) -> Rendezvous {
    Rendezvous { counter: 0, parties: Seq::new(ranks, |r: int| Party { arrived: 0, left: 0 }) }
}

/// Whether a rank can take a step: it arrives only when it is not already
/// waiting, and it leaves only when it is waiting and `Barrier::released`
/// says yes at the threshold of its round. A rank's baseline is the group's
/// size times the number of rounds that it has left.
pub open spec fn can(state: Rendezvous, step: Move) -> bool {
    let ranks = state.parties.len() as int;
    match step {
        Move::Arrive(r) => 0 <= r < ranks && state.parties[r].arrived == state.parties[r].left,
        Move::Leave(r) => 0 <= r < ranks && state.parties[r].arrived == state.parties[r].left + 1
            && Barrier::over(
            state.counter,
            Barrier::threshold(state.parties[r].left * ranks, ranks),
        ),
    }
}

/// The group after a step: an arrival does to the counter what
/// `Barrier::arrive` does, and leaving changes only the rank's own progress.
pub open spec fn after(state: Rendezvous, step: Move) -> Rendezvous {
    match step {
        Move::Arrive(r) => Rendezvous {
            counter: Barrier::one_more(state.counter),
            parties: state.parties.update(
                r,
                Party { arrived: state.parties[r].arrived + 1, left: state.parties[r].left },
            ),
        },
        Move::Leave(r) => Rendezvous {
            counter: state.counter,
            parties: state.parties.update(
                r,
                Party { arrived: state.parties[r].arrived, left: state.parties[r].left + 1 },
            ),
        },
    }
}

/// The group after a sequence of steps from a zeroed barrier, if every step
/// could be taken when its turn came.
pub open spec fn play(ranks: nat, steps: Seq<Move>) -> Option<Rendezvous>
    decreases steps.len(),
{
    if steps.len() == 0 {
        Some(start(ranks))
    } else {
        match play(ranks, steps.drop_last()) {
            Some(state) => if can(state, steps.last()) {
                Some(after(state, steps.last()))
            } else {
                None
            },
            None => None,
        }
    }
}

/// The number of arrivals of the first `upto` ranks.
pub open spec fn arrivals_of(parties: Seq<Party>, upto: int) -> int
    decreases upto,
{
    if upto <= 0 {
        0
    } else {
        arrivals_of(parties, upto - 1) + parties[upto - 1].arrived
    }
}

/// What holds of a group after any steps: the counter is the number of
/// arrivals, a rank is at most one arrival ahead of its own leaving and of
/// any other rank's arriving, and no rank has left a round that some rank
/// has not arrived at.
pub open spec fn in_step(state: Rendezvous) -> bool {
    let parties = state.parties;
    &&& state.counter == arrivals_of(parties, parties.len() as int)
    &&& forall|r: int|
        0 <= r < parties.len() ==> (#[trigger] parties[r]).left <= parties[r].arrived
            <= parties[r].left + 1
    &&& forall|q: int, r: int|
        0 <= q < parties.len() && 0 <= r < parties.len() ==> (#[trigger] parties[r]).left <= (
        #[trigger] parties[q]).arrived
    &&& forall|q: int, r: int|
        0 <= q < parties.len() && 0 <= r < parties.len() ==> (#[trigger] parties[q]).arrived <= (
        #[trigger] parties[r]).arrived + 1
}

proof fn lemma_arrivals_start(ranks: nat, upto: int)
    requires
        upto <= ranks,
    ensures
        arrivals_of(start(ranks).parties, upto) == 0,
    decreases upto,
{
    if upto > 0 {
        lemma_arrivals_start(ranks, upto - 1);
    }
}

proof fn lemma_arrivals_update(parties: Seq<Party>, r: int, party: Party, upto: int)
    requires
        0 <= r < parties.len(),
        upto <= parties.len(),
    ensures
        arrivals_of(parties.update(r, party), upto) == arrivals_of(parties, upto) + if r < upto {
            party.arrived - parties[r].arrived
        } else {
            0
        },
    decreases upto,
{
    if upto > 0 {
        lemma_arrivals_update(parties, r, party, upto - 1);
    }
}

proof fn lemma_arrivals_below(parties: Seq<Party>, bound: int, short: int, upto: int)
    requires
        0 <= short < parties.len(),
        0 <= upto <= parties.len(),
        forall|q: int| 0 <= q < parties.len() ==> (#[trigger] parties[q]).arrived <= bound,
        parties[short].arrived < bound,
    ensures
        arrivals_of(parties, upto) <= upto * bound - if short < upto {
            1int
        } else {
            0int
        },
    decreases upto,
{
    if upto > 0 {
        lemma_arrivals_below(parties, bound, short, upto - 1);
        assert(upto * bound == (upto - 1) * bound + bound) by (nonlinear_arith);
    } else {
        assert(upto * bound == 0) by (nonlinear_arith)
            requires
                upto == 0,
        ;
    }
}

proof fn lemma_step_in_step(state: Rendezvous, step: Move)
    requires
        in_step(state),
        can(state, step),
    ensures
        in_step(after(state, step)),
        after(state, step).parties.len() == state.parties.len(),
{
    let parties = state.parties;
    let ranks = parties.len() as int;
    let next = after(state, step);
    match step {
        Move::Arrive(r) => {
            lemma_arrivals_update(parties, r, next.parties[r], ranks);
        },
        Move::Leave(r) => {
            lemma_arrivals_update(parties, r, next.parties[r], ranks);
            let round = parties[r].left as int;
            assert forall|q: int| 0 <= q < ranks implies (#[trigger] parties[q]).arrived
                >= round + 1 by {
                if parties[q].arrived <= round {
                    lemma_arrivals_below(parties, round + 1, q, ranks);
                    assert(ranks * (round + 1) == round * ranks + ranks) by (nonlinear_arith);
                }
            }
        },
    }
}

/// Every group that a sequence of steps leads to is in step.
pub proof fn lemma_play_in_step(ranks: nat, steps: Seq<Move>)
    requires
        play(ranks, steps).is_some(),
    ensures
        in_step(play(ranks, steps).unwrap()),
        play(ranks, steps).unwrap().parties.len() == ranks,
    decreases steps.len(),
{
    if steps.len() == 0 {
        lemma_arrivals_start(ranks, ranks as int);
    } else {
        lemma_play_in_step(ranks, steps.drop_last());
        lemma_step_in_step(play(ranks, steps.drop_last()).unwrap(), steps.last());
    }
}

/// Nobody leaves a round early: in whatever order the ranks of a group take
/// their steps, once some rank has left `k` rounds behind, every rank of the
/// group has arrived at least `k` times, and the counter has reached `k`
/// times the size of the group.
pub proof fn lemma_nobody_leaves_early(ranks: nat, steps: Seq<Move>, leaver: int, other: int)
    requires
        play(ranks, steps).is_some(),
        0 <= leaver < ranks,
        0 <= other < ranks,
    ensures
        play(ranks, steps).unwrap().parties[leaver].left <= play(
            ranks,
            steps,
        ).unwrap().parties[other].arrived,
        play(ranks, steps).unwrap().counter >= play(ranks, steps).unwrap().parties[leaver].left
            * ranks,
{
    lemma_play_in_step(ranks, steps);
    let state = play(ranks, steps).unwrap();
    let rounds = state.parties[leaver].left as int;
    if state.counter < rounds * ranks {
        lemma_arrivals_at_least(state.parties, rounds, ranks as int);
    }
}

proof fn lemma_arrivals_at_least(parties: Seq<Party>, bound: int, upto: int)
    requires
        0 <= upto <= parties.len(),
        forall|q: int| 0 <= q < parties.len() ==> (#[trigger] parties[q]).arrived >= bound,
    ensures
        arrivals_of(parties, upto) >= bound * upto,
    decreases upto,
{
    if upto > 0 {
        lemma_arrivals_at_least(parties, bound, upto - 1);
        assert(bound * upto == bound * (upto - 1) + bound) by (nonlinear_arith);
    } else {
        assert(bound * upto == 0) by (nonlinear_arith)
            requires
                upto == 0,
        ;
    }
}

} // verus!
