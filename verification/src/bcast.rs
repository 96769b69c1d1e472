//! The broadcast handshake: the root writes its buffer into the header of
//! the shared window and advances a shared epoch; every follower waits for
//! the epoch to move, reads the header, and advances the epoch in turn.

use vstd::prelude::*;

verus! {

/// What a rank does in a broadcast.
#[derive(Clone, Copy, Debug, PartialEq, Eq, Structural)]
pub enum Role {
    /// The only rank of its group: there is nobody to send to.
    Alone,
    /// The rank whose buffer everybody receives.
    Root,
    /// A rank that receives the root's buffer.
    Follower,
}

/// The role of `rank` in a broadcast from `root` among `size` ranks.
pub open spec fn spec_role(rank: int, root: int, size: int) -> Role {
    if size == 1 {
        Role::Alone
    } else if rank == root {
        Role::Root
    } else {
        Role::Follower
    }
}

/// The role of `rank` in a broadcast from `root` among `size` ranks.
pub fn role(rank: i32, root: i32, size: i32) -> (role: Role)
    ensures
        role == spec_role(rank as int, root as int, size as int),
{
    if size == 1 {
        Role::Alone
    } else if rank == root {
        Role::Root
    } else {
        Role::Follower
    }
}

/// The header with `data` written over its first bytes.
pub open spec fn with_payload(header: Seq<u8>, data: Seq<u8>) -> Seq<u8> {
    Seq::new(
        header.len(),
        |i: int|
            if i < data.len() {
                data[i]
            } else {
                header[i]
            },
    )
}

/// What a follower reads: the first `len` bytes of the header.
pub open spec fn read_back(header: Seq<u8>, len: nat) -> Seq<u8> {
    header.take(len as int)
}

/// Whether an epoch has moved from a baseline: the root has signalled.
pub open spec fn signalled(epoch: nat, baseline: nat) -> bool {
    epoch != baseline
}

/// The shared epoch of the broadcasts: it counts the root's signal and
/// every follower's acknowledgement, of all broadcasts so far.
pub struct Channel {
    epoch: u64,
}

impl Channel {
    /// Signals and acknowledgements so far.
    pub closed spec fn epoch(&self) -> nat {
        self.epoch as nat
    }

    /// Whether the root of the broadcast that began at `baseline` has
    /// signalled that its data is in the header.
    pub open spec fn spec_ready(&self, baseline: u64) -> bool {
        signalled(self.epoch(), baseline as nat)
    }

    /// Whether the root and all followers of the broadcast that ends at
    /// `target` have advanced the epoch.
    pub open spec fn spec_drained(&self, target: u64) -> bool {
        self.epoch() >= target
    }

    /// A channel over zeroed memory.
    pub fn new() -> (channel: Channel)
        ensures
            channel.epoch() == 0,
    {
        Channel { epoch: 0 }
    }

    /// The channel as a rank has just read it: a channel at the given epoch.
    pub fn observed(epoch: u64) -> (channel: Channel)
        ensures
            channel.epoch() == epoch,
    {
        Channel { epoch }
    }

    /// Whether a follower whose baseline is `baseline` may read the header.
    #[verifier::when_used_as_spec(spec_ready)]
    pub fn ready(&self, baseline: u64) -> (ready: bool)
        ensures
            ready == self.spec_ready(baseline),
    {
        self.epoch != baseline
    }

    /// Whether the root may return: every follower has read the header.
    #[verifier::when_used_as_spec(spec_drained)]
    pub fn drained(&self, target: u64) -> (drained: bool)
        ensures
            drained == self.spec_drained(target),
    {
        self.epoch >= target
    }

    /// The root's step: writes its buffer over the start of the header, then
    /// advances the epoch to signal that the data is there.
    pub fn send(&mut self, header: &mut [u8], buffer: &[u8])
        requires
            buffer@.len() <= old(header)@.len(),
            old(self).epoch() < u64::MAX,
        ensures
            final(header)@ == with_payload(old(header)@, buffer@),
            final(self).epoch() == old(self).epoch() + 1,
    {
        let len: usize = buffer.len();
        let mut i: usize = 0;
        while i < len
            invariant
                i <= len,
                len == buffer@.len(),
                len <= header@.len(),
                header@.len() == old(header)@.len(),
                header@ == with_payload(old(header)@, buffer@.take(i as int)),
            decreases len - i,
        {
            header[i] = buffer[i];
            i = i + 1;
        }
        self.epoch = self.epoch + 1;
    }

    /// A follower's step: reads the start of the header into its buffer, then
    /// advances the epoch to acknowledge.
    pub fn receive(&mut self, header: &[u8], buffer: &mut [u8])
        requires
            old(buffer)@.len() <= header@.len(),
            old(self).epoch() < u64::MAX,
        ensures
            final(buffer)@ == read_back(header@, old(buffer)@.len()),
            final(self).epoch() == old(self).epoch() + 1,
    {
        let len: usize = buffer.len();
        let mut i: usize = 0;
        while i < len
            invariant
                i <= len,
                len == buffer@.len(),
                len == old(buffer)@.len(),
                len <= header@.len(),
                forall|j: int| 0 <= j < i ==> buffer@[j] == header@[j],
            decreases len - i,
        {
            buffer[i] = header[i];
            i = i + 1;
        }
        self.epoch = self.epoch + 1;
    }
}

/// How a rank's call of a broadcast went.
#[derive(Clone, Copy, Debug, PartialEq, Eq, Structural)]
pub enum Outcome {
    /// The rank is alone: there was nothing to do.
    Alone,
    /// The rank is the root and has sent.
    Sent,
    /// The rank is a follower and has received.
    Received,
    /// The rank is a follower and the root has not signalled yet.
    Early,
}

/// How the call of a rank goes, given its role and whether the root has
/// signalled.
pub open spec fn spec_outcome(role: Role, signalled: bool) -> Outcome {
    match role {
        Role::Alone => Outcome::Alone,
        Role::Root => Outcome::Sent,
        Role::Follower => if signalled {
            Outcome::Received
        } else {
            Outcome::Early
        },
    }
}

/// One rank's part of a broadcast, up to the point at which it would have to
/// wait for others.
///
/// A rank that is alone does nothing at all, in whatever state. The root
/// sends and moves its baseline on; it must then wait until the channel is
/// drained at its new baseline before it uses the header again. A follower
/// that finds the root's signal receives and moves its baseline on; one that
/// comes before the signal changes nothing, and calls again once the channel
/// is ready at its baseline.
pub fn bcast(
    channel: &mut Channel,
    header: &mut [u8],
    buffer: &mut [u8],
    rank: i32,
    root: i32,
    size: i32,
    epoch: &mut u64,
) -> (outcome: Outcome)
    requires
        spec_role(rank as int, root as int, size as int) != Role::Alone ==> {
            &&& size >= 1
            &&& old(buffer)@.len() <= old(header)@.len()
            &&& old(channel).epoch() < u64::MAX
            &&& *old(epoch) + size <= u64::MAX
        },
    ensures
        outcome == spec_outcome(
            spec_role(rank as int, root as int, size as int),
            old(channel).spec_ready(*old(epoch)),
        ),
        outcome == Outcome::Alone || outcome == Outcome::Early ==> {
            &&& final(channel).epoch() == old(channel).epoch()
            &&& final(header)@ == old(header)@
            &&& final(buffer)@ == old(buffer)@
            &&& *final(epoch) == *old(epoch)
        },
        outcome == Outcome::Sent ==> {
            &&& final(channel).epoch() == old(channel).epoch() + 1
            &&& final(header)@ == with_payload(old(header)@, old(buffer)@)
            &&& final(buffer)@ == old(buffer)@
            &&& *final(epoch) == *old(epoch) + size
        },
        outcome == Outcome::Received ==> {
            &&& final(channel).epoch() == old(channel).epoch() + 1
            &&& final(header)@ == old(header)@
            &&& final(buffer)@ == read_back(old(header)@, old(buffer)@.len())
            &&& *final(epoch) == *old(epoch) + size
        },
{
    match role(rank, root, size) {
        Role::Alone => Outcome::Alone,
        Role::Root => {
            channel.send(header, buffer);
            *epoch = *epoch + size as u64;
            Outcome::Sent
        },
        Role::Follower => {
            if !channel.ready(*epoch) {
                return Outcome::Early;
            }
            channel.receive(header, buffer);
            *epoch = *epoch + size as u64;
            Outcome::Received
        },
    }
}

/// What a follower reads from the header after the root has sent is the
/// root's buffer, byte for byte.
pub proof fn lemma_payload_read_back(header: Seq<u8>, data: Seq<u8>)
    requires
        data.len() <= header.len(),
    ensures
        read_back(with_payload(header, data), data.len()) == data,
{
}

/// One broadcast of a group, in progress: the shared epoch and header,
/// every rank's buffer, whether the root has sent, and which ranks have
/// received.
pub struct Round {
    pub epoch: nat,
    pub header: Seq<u8>,
    pub buffers: Seq<Seq<u8>>,
    pub sent: bool,
    pub received: Seq<bool>,
}

/// A step of one rank in a broadcast.
pub enum Turn {
    /// The root writes the header and advances the epoch.
    Send,
    /// A follower reads the header and advances the epoch.
    Receive(int),
}

/// A broadcast that begins with the channel drained: the shared epoch is at
/// the baseline that every rank holds.
pub open spec fn start(baseline: nat, header: Seq<u8>, buffers: Seq<Seq<u8>>) -> Round {
    Round {
        epoch: baseline,
        header,
        buffers,
        sent: false,
        received: Seq::new(buffers.len(), |r: int| false),
    }
}

/// Whether a rank can take a step: the root sends once, and a follower
/// receives once, and only after it has found the epoch moved from the
/// baseline.
pub open spec fn can(state: Round, baseline: nat, root: int, turn: Turn) -> bool {
    match turn {
        Turn::Send => !state.sent,
        Turn::Receive(r) => 0 <= r < state.buffers.len() && r != root && !state.received[r]
            && signalled(state.epoch, baseline),
    }
}

/// The broadcast after a step: what `Channel::send` and `Channel::receive`
/// do to the epoch, the header and the rank's buffer.
pub open spec fn after(state: Round, root: int, turn: Turn) -> Round {
    match turn {
        Turn::Send => Round {
            epoch: state.epoch + 1,
            header: with_payload(state.header, state.buffers[root]),
            sent: true,
            ..state
        },
        Turn::Receive(r) => Round {
            epoch: state.epoch + 1,
            buffers: state.buffers.update(r, read_back(state.header, state.buffers[r].len())),
            received: state.received.update(r, true),
            ..state
        },
    }
}

/// The broadcast after a sequence of steps, if every step could be taken
/// when its turn came.
pub open spec fn play(
    baseline: nat,
    header: Seq<u8>,
    buffers: Seq<Seq<u8>>,
    root: int,
    turns: Seq<Turn>,
) -> Option<Round>
    decreases turns.len(),
{
    if turns.len() == 0 {
        Some(start(baseline, header, buffers))
    } else {
        match play(baseline, header, buffers, root, turns.drop_last()) {
            Some(state) => if can(state, baseline, root, turns.last()) {
                Some(after(state, root, turns.last()))
            } else {
                None
            },
            None => None,
        }
    }
}

/// Number of ranks among the first `upto` that have received.
pub open spec fn receipts(received: Seq<bool>, upto: int) -> int
    decreases upto,
{
    if upto <= 0 {
        0
    } else {
        receipts(received, upto - 1) + if received[upto - 1] {
            1int
        } else {
            0int
        }
    }
}

/// Whether a group brings buffers of one length that the header can hold.
pub open spec fn fitting(header: Seq<u8>, buffers: Seq<Seq<u8>>, root: int) -> bool {
    &&& 0 <= root < buffers.len()
    &&& buffers[root].len() <= header.len()
    &&& forall|r: int| 0 <= r < buffers.len() ==> (#[trigger] buffers[r]).len() == buffers[root].len()
}

/// What holds of a broadcast after any steps.
pub open spec fn on_track(
    state: Round,
    baseline: nat,
    header: Seq<u8>,
    buffers: Seq<Seq<u8>>,
    root: int,
) -> bool {
    let ranks = buffers.len() as int;
    &&& state.buffers.len() == ranks
    &&& state.received.len() == ranks
    &&& state.epoch == baseline + receipts(state.received, ranks) + if state.sent {
        1int
    } else {
        0int
    }
    &&& receipts(state.received, ranks) > 0 ==> state.sent
    &&& state.header == if state.sent {
        with_payload(header, buffers[root])
    } else {
        header
    }
    &&& !state.received[root]
    &&& forall|r: int|
        0 <= r < ranks ==> #[trigger] state.buffers[r] == if state.received[r] {
            buffers[root]
        } else {
            buffers[r]
        }
}

proof fn lemma_receipts_none(received: Seq<bool>, upto: int)
    requires
        upto <= received.len(),
        forall|r: int| 0 <= r < received.len() ==> !#[trigger] received[r],
    ensures
        receipts(received, upto) == 0,
    decreases upto,
{
    if upto > 0 {
        lemma_receipts_none(received, upto - 1);
    }
}

proof fn lemma_receipts_update(received: Seq<bool>, r: int, upto: int)
    requires
        0 <= r < received.len(),
        upto <= received.len(),
        !received[r],
    ensures
        receipts(received.update(r, true), upto) == receipts(received, upto) + if r < upto {
            1int
        } else {
            0int
        },
        receipts(received, upto) >= 0,
    decreases upto,
{
    if upto > 0 {
        lemma_receipts_update(received, r, upto - 1);
    }
}

proof fn lemma_receipts_missing(received: Seq<bool>, one: int, other: int, upto: int)
    requires
        0 <= one < received.len(),
        0 <= other < received.len(),
        one != other,
        !received[one],
        !received[other],
        0 <= upto <= received.len(),
    ensures
        receipts(received, upto) <= upto - (if one < upto {
            1int
        } else {
            0int
        }) - (if other < upto {
            1int
        } else {
            0int
        }),
    decreases upto,
{
    if upto > 0 {
        lemma_receipts_missing(received, one, other, upto - 1);
    }
}

proof fn lemma_turn_on_track(
    state: Round,
    baseline: nat,
    header: Seq<u8>,
    buffers: Seq<Seq<u8>>,
    root: int,
    turn: Turn,
)
    requires
        fitting(header, buffers, root),
        on_track(state, baseline, header, buffers, root),
        can(state, baseline, root, turn),
    ensures
        on_track(after(state, root, turn), baseline, header, buffers, root),
{
    match turn {
        Turn::Send => {},
        Turn::Receive(r) => {
            lemma_receipts_update(state.received, r, buffers.len() as int);
            lemma_payload_read_back(header, buffers[root]);
        },
    }
}

/// Every broadcast that a sequence of steps leads to is on track.
pub proof fn lemma_play_on_track(
    baseline: nat,
    header: Seq<u8>,
    buffers: Seq<Seq<u8>>,
    root: int,
    turns: Seq<Turn>,
)
    requires
        fitting(header, buffers, root),
        play(baseline, header, buffers, root, turns).is_some(),
    ensures
        on_track(play(baseline, header, buffers, root, turns).unwrap(), baseline, header, buffers, root),
    decreases turns.len(),
{
    if turns.len() == 0 {
        lemma_receipts_none(start(baseline, header, buffers).received, buffers.len() as int);
    } else {
        lemma_play_on_track(baseline, header, buffers, root, turns.drop_last());
        lemma_turn_on_track(
            play(baseline, header, buffers, root, turns.drop_last()).unwrap(),
            baseline,
            header,
            buffers,
            root,
            turns.last(),
        );
    }
}

/// A broadcast delivers: in whatever order the ranks of a group take their
/// steps from a drained channel, a rank that has received holds the root's
/// buffer as it was before the call, byte for byte, the root's own buffer is
/// as it was, and once the epoch has advanced by the size of the group every
/// other rank has received.
pub proof fn lemma_bcast_delivers(
    baseline: nat,
    header: Seq<u8>,
    buffers: Seq<Seq<u8>>,
    root: int,
    turns: Seq<Turn>,
    rank: int,
)
    requires
        fitting(header, buffers, root),
        play(baseline, header, buffers, root, turns).is_some(),
        0 <= rank < buffers.len(),
    ensures
        ({
            let end = play(baseline, header, buffers, root, turns).unwrap();
            &&& end.received[rank] ==> end.buffers[rank] == buffers[root]
            &&& end.buffers[root] == buffers[root]
            &&& end.epoch >= baseline + buffers.len() && rank != root ==> end.received[rank]
        }),
{
    lemma_play_on_track(baseline, header, buffers, root, turns);
    let end = play(baseline, header, buffers, root, turns).unwrap();
    assert(end.buffers[rank] == if end.received[rank] {
        buffers[root]
    } else {
        buffers[rank]
    });
    if rank != root && !end.received[rank] {
        lemma_receipts_missing(end.received, root, rank, buffers.len() as int);
    }
}

} // verus!
