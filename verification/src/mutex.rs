//! The region spinlock: one lock word per region of the shared body.

use vstd::prelude::*;
use crate::layout::CACHE_LINE_SIZE;
use crate::metrics::spec_lock_counter;
use crate::metrics::lock_counter;
use crate::metrics::wrapping_sum;
use crate::metrics::Counter;
use crate::metrics::Metrics;
use crate::metrics::Timer;

verus! {

/// The word of a lock that nobody holds.
pub const UNLOCKED: u64 = 0;

/// The word of a lock that is held.
pub const LOCKED: u64 = 1;

/// What a compare-and-swap from `UNLOCKED` to `LOCKED` does to a lock word:
/// the word afterwards, and whether the swap took place.
pub open spec fn swapped(word: u64) -> (u64, bool) {
    if word == UNLOCKED {
        (LOCKED, true)
    } else {
        (word, false)
    }
}

/// A region lock, given by the word that it keeps in the shared window.
///
/// A lock is taken with a compare-and-swap from `UNLOCKED` to `LOCKED` and
/// given back with a store of `UNLOCKED`. A value of this type is the lock as
/// one rank sees it between two steps of any other rank.
pub struct Mutex {
    word: u64,
}

impl Mutex {
    /// Number of bytes that a lock occupies in the header.
    pub const SIZE: usize = CACHE_LINE_SIZE;

    /// The lock word.
    pub closed spec fn word(&self) -> u64 {
        self.word
    }

    /// Whether some rank holds the lock.
    pub open spec fn spec_is_locked(&self) -> bool {
        self.word() == LOCKED
    }

    /// A lock over zeroed memory: nobody holds it.
    pub fn new() -> (mutex: Mutex)
        ensures
            mutex.word() == UNLOCKED,
    {
        Mutex { word: UNLOCKED }
    }

    /// The lock as a rank has just read it: a lock with the given word.
    pub fn observed(word: u64) -> (mutex: Mutex)
        ensures
            mutex.word() == word,
    {
        Mutex { word }
    }

    /// Whether some rank holds the lock.
    #[verifier::when_used_as_spec(spec_is_locked)]
    pub fn is_locked(&self) -> (locked: bool)
        ensures
            locked == self.spec_is_locked(),
    {
        self.word == LOCKED
    }

    /// One compare-and-swap from `UNLOCKED` to `LOCKED`.
    pub fn try_lock(&mut self) -> (acquired: bool)
        ensures
            (final(self).word(), acquired) == swapped(old(self).word()),
    {
        if self.word == UNLOCKED {
            self.word = LOCKED;
            true
        } else {
            false
        }
    }

    /// One attempt to take the lock, and its count: a compare-and-swap from
    /// `UNLOCKED` to `LOCKED` which, if it takes place, is counted as
    /// uncontended where it was the taker's first attempt and as contended
    /// where the taker had to spin before it.
    ///
    /// A caller that is told no has not got the lock and has changed nothing:
    /// it spins until `is_locked` says no, and attempts again with `spun` set.
    pub fn lock(&mut self, spun: bool, metrics: &mut Metrics) -> (acquired: bool)
        ensures
            (final(self).word(), acquired) == swapped(old(self).word()),
            final(metrics).spec_enabled() == old(metrics).spec_enabled(),
            forall|timer: Timer| final(metrics).spec_timer(timer) == old(metrics).spec_timer(timer),
            forall|counter: Counter|
                final(metrics).spec_counter(counter) == if acquired && old(metrics).spec_enabled()
                    && counter == spec_lock_counter(spun) {
                    wrapping_sum(old(metrics).spec_counter(counter), 1)
                } else {
                    old(metrics).spec_counter(counter)
                },
    {
        let acquired = self.try_lock();
        if acquired {
            metrics.increment(lock_counter(spun));
        }
        acquired
    }

    /// Gives the lock back, whoever held it.
    pub fn unlock(&mut self)
        ensures
            final(self).word() == UNLOCKED,
    {
        self.word = UNLOCKED;
    }
}

/// Where a rank stands in an increment of a counter that the lock guards.
pub enum Phase {
    /// Outside the critical section.
    Idle,
    /// Holding the lock, before it has read the counter.
    Holding,
    /// Holding the lock, with the value that it read from the counter.
    Loaded(int),
    /// Holding the lock, after it has written the counter.
    Stored,
}

/// Ranks that compete for one lock to increment one counter: the lock word,
/// the counter, where every rank stands, and how many increments every rank
/// has completed.
pub struct Contest {
    pub word: u64,
    pub counter: int,
    pub phases: Seq<Phase>,
    pub done: Seq<nat>,
}

/// A step of one rank. An increment is four steps: the rank takes the lock,
/// reads the counter, writes the value that it read plus one, and gives the
/// lock back.
pub enum Act {
    /// One compare-and-swap on the lock word, which may fail.
    TryLock(int),
    /// Reads the counter.
    Load(int),
    /// Writes the counter.
    Store(int),
    /// Stores `UNLOCKED` to the lock word.
    Unlock(int),
}

/// `ranks` ranks, none of which has done anything, at a free lock and a
/// counter of zero.
pub open spec fn start(ranks: nat) -> Contest {
    Contest {
        word: UNLOCKED,
        counter: 0,
        phases: Seq::new(ranks, |r: int| Phase::Idle),
        done: Seq::new(ranks, |r: int| 0nat),
    }
}

/// Whether a rank can take a step: each step of an increment follows the one
/// before it.
pub open spec fn can(state: Contest, act: Act) -> bool {
    match act {
        Act::TryLock(r) => 0 <= r < state.phases.len() && state.phases[r] == Phase::Idle,
        Act::Load(r) => 0 <= r < state.phases.len() && state.phases[r] == Phase::Holding,
        Act::Store(r) => 0 <= r < state.phases.len() && state.phases[r] is Loaded,
        Act::Unlock(r) => 0 <= r < state.phases.len() && state.phases[r] == Phase::Stored,
    }
}

/// The contest after a step. The compare-and-swap does to the word what
/// `Mutex::try_lock` and `Mutex::lock` do, and the rank goes on only if it
/// took place; giving the lock back stores what `Mutex::unlock` stores.
pub open spec fn after(state: Contest, act: Act) -> Contest {
    match act {
        Act::TryLock(r) => if swapped(state.word).1 {
            Contest {
                word: swapped(state.word).0,
                phases: state.phases.update(r, Phase::Holding),
                ..state
            }
        } else {
            state
        },
        Act::Load(r) => Contest {
            phases: state.phases.update(r, Phase::Loaded(state.counter)),
            ..state
        },
        Act::Store(r) => Contest {
            counter: state.phases[r]->Loaded_0 + 1,
            phases: state.phases.update(r, Phase::Stored),
            ..state
        },
        Act::Unlock(r) => Contest {
            word: UNLOCKED,
            phases: state.phases.update(r, Phase::Idle),
            done: state.done.update(r, state.done[r] + 1),
            ..state
        },
    }
}

/// The contest after a sequence of steps from the start, if every step could
/// be taken when its turn came.
pub open spec fn play(ranks: nat, acts: Seq<Act>) -> Option<Contest>
    decreases acts.len(),
{
    if acts.len() == 0 {
        Some(start(ranks))
    } else {
        match play(ranks, acts.drop_last()) {
            Some(state) => if can(state, acts.last()) {
                Some(after(state, acts.last()))
            } else {
                None
            },
            None => None,
        }
    }
}

/// The number of increments that the first `upto` ranks have completed.
pub open spec fn completed(done: Seq<nat>, upto: int) -> int
    decreases upto,
{
    if upto <= 0 {
        0
    } else {
        completed(done, upto - 1) + done[upto - 1]
    }
}

/// What holds of a contest after any steps: at most one rank is inside the
/// critical section, and none while the lock is free; the counter is the
/// number of completed increments, plus one while a rank has written it and
/// not yet given the lock back; and a rank that has read the counter holds
/// its current value.
pub open spec fn exclusive(state: Contest) -> bool {
    let ranks = state.phases.len() as int;
    let all = completed(state.done, ranks);
    &&& state.done.len() == ranks
    &&& state.word == UNLOCKED || state.word == LOCKED
    &&& state.word == UNLOCKED ==> forall|r: int|
        0 <= r < ranks ==> #[trigger] state.phases[r] == Phase::Idle
    &&& forall|q: int, r: int|
        0 <= q < ranks && 0 <= r < ranks && q != r && #[trigger] state.phases[q] != Phase::Idle
            ==> #[trigger] state.phases[r] == Phase::Idle
    &&& forall|r: int|
        0 <= r < ranks ==> match #[trigger] state.phases[r] {
            Phase::Idle => true,
            Phase::Holding => state.counter == all,
            Phase::Loaded(seen) => seen == state.counter && state.counter == all,
            Phase::Stored => state.counter == all + 1,
        }
    &&& (forall|r: int| 0 <= r < ranks ==> #[trigger] state.phases[r] == Phase::Idle)
        ==> state.counter == all
}

proof fn lemma_completed_start(ranks: nat, upto: int)
    requires
        upto <= ranks,
    ensures
        completed(start(ranks).done, upto) == 0,
    decreases upto,
{
    if upto > 0 {
        lemma_completed_start(ranks, upto - 1);
    }
}

proof fn lemma_completed_update(done: Seq<nat>, r: int, upto: int)
    requires
        0 <= r < done.len(),
        upto <= done.len(),
    ensures
        completed(done.update(r, done[r] + 1), upto) == completed(done, upto) + if r < upto {
            1int
        } else {
            0int
        },
    decreases upto,
{
    if upto > 0 {
        lemma_completed_update(done, r, upto - 1);
    }
}

proof fn lemma_act_exclusive(state: Contest, act: Act)
    requires
        exclusive(state),
        can(state, act),
    ensures
        exclusive(after(state, act)),
        after(state, act).phases.len() == state.phases.len(),
{
    let ranks = state.phases.len() as int;
    let next = after(state, act);
    match act {
        Act::TryLock(r) => {
            if state.word == UNLOCKED {
                assert(forall|q: int| 0 <= q < ranks ==> state.phases[q] == Phase::Idle);
                assert(next.phases[r] != Phase::Idle);
            }
        },
        Act::Load(r) => {
            assert(state.phases[r] != Phase::Idle);
            assert(next.phases[r] != Phase::Idle);
        },
        Act::Store(r) => {
            assert(state.phases[r] != Phase::Idle);
            assert(next.phases[r] != Phase::Idle);
        },
        Act::Unlock(r) => {
            assert(state.phases[r] != Phase::Idle);
            lemma_completed_update(state.done, r, ranks);
            assert forall|q: int| 0 <= q < ranks implies #[trigger] next.phases[q]
                == Phase::Idle by {
                if q != r {
                    assert(state.phases[q] == Phase::Idle);
                }
            }
        },
    }
}

/// Every contest that a sequence of steps leads to is exclusive.
pub proof fn lemma_play_exclusive(ranks: nat, acts: Seq<Act>)
    requires
        play(ranks, acts).is_some(),
    ensures
        exclusive(play(ranks, acts).unwrap()),
        play(ranks, acts).unwrap().phases.len() == ranks,
    decreases acts.len(),
{
    if acts.len() == 0 {
        lemma_completed_start(ranks, ranks as int);
    } else {
        lemma_play_exclusive(ranks, acts.drop_last());
        lemma_act_exclusive(play(ranks, acts.drop_last()).unwrap(), acts.last());
    }
}

proof fn lemma_completed_even(done: Seq<nat>, each: nat, upto: int)
    requires
        0 <= upto <= done.len(),
        forall|r: int| 0 <= r < done.len() ==> #[trigger] done[r] == each,
    ensures
        completed(done, upto) == upto * each,
    decreases upto,
{
    if upto > 0 {
        lemma_completed_even(done, each, upto - 1);
        assert(upto * each == (upto - 1) * each + each) by (nonlinear_arith);
    } else {
        assert(upto * each == 0) by (nonlinear_arith)
            requires
                upto == 0,
        ;
    }
}

/// The lock excludes: in whatever order competing ranks take their steps,
/// no two of them are inside the critical section at once.
pub proof fn lemma_mutual_exclusion(ranks: nat, acts: Seq<Act>, one: int, other: int)
    requires
        play(ranks, acts).is_some(),
        0 <= one < ranks,
        0 <= other < ranks,
        one != other,
    ensures
        play(ranks, acts).unwrap().phases[one] == Phase::Idle || play(
            ranks,
            acts,
        ).unwrap().phases[other] == Phase::Idle,
{
    lemma_play_exclusive(ranks, acts);
}

/// No update is lost: in whatever order `ranks` competing ranks take their
/// steps, once each of them has completed `each` increments under the lock
/// and is outside the critical section, the counter is `ranks * each`.
pub proof fn lemma_no_lost_update(ranks: nat, acts: Seq<Act>, each: nat)
    requires
        play(ranks, acts).is_some(),
        forall|r: int|
            0 <= r < ranks ==> #[trigger] play(ranks, acts).unwrap().done[r] == each && play(
                ranks,
                acts,
            ).unwrap().phases[r] == Phase::Idle,
    ensures
        play(ranks, acts).unwrap().counter == ranks * each,
{
    lemma_play_exclusive(ranks, acts);
    let state = play(ranks, acts).unwrap();
    assert forall|r: int| 0 <= r < ranks implies #[trigger] state.phases[r] == Phase::Idle by {
        assert(state.done[r] == each);
    }
    lemma_completed_even(state.done, each, ranks as int);
}

} // verus!
