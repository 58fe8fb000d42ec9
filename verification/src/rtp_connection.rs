//! A connection of the threaded receiver: it follows the sequence numbers of
//! its media streams, asks for packets that are missing and passes the rest on.

use crate::buffers::{
    as_slice, buffer_contents, empty_buffer, set_byte, shared_contents, write_u16, write_u32,
    write_u8,
};
use crate::router::{Router, RouterView, SessionRef};
use crate::rpc::{MediaStream, SocketAddr, StreamId};
use crate::rtp_utils::{MuxedRtp, RtcpHeader, RtpHeader};
use crate::sequence::{
    absorb_run, beyond, furthest, gap, group_heads, lemma_furthest, lemma_group_heads,
    lemma_group_heads_prefix, lemma_missing, lemma_reach, lemma_reach_of_seq_at, lemma_run_end,
    lemma_run_members, lemma_run_prefix, lemma_seq_at_gap, missing, reach, run_end, seq_at,
};
use crate::wire::{
    be16, be32, build_clock_packet, clock_packet, lemma_nack_entries_len, nack_entries, nack_packet,
};
use bytes::{Bytes, BytesMut};
use std::collections::HashSet;
use vstd::prelude::*;
use vstd::slice::slice_to_vec;

verus! {

/// How many steps forward lead from `lhs` to `rhs`.
pub fn wrapping_difference(lhs: u16, rhs: u16) -> (difference: u16)
    ensures
        difference == gap(lhs, rhs),
{
    (u16::MAX - lhs).wrapping_add(rhs).wrapping_add(1)
}

/// What a tracker has to say after a packet.
#[derive(Debug, Clone, Copy, PartialEq, Eq, Structural)]
pub enum TrackerStatus {
    /// Nothing is missing.
    InSync,
    /// Packets are missing; the latest one is this far ahead.
    MissingPackets(u16),
    /// Too many packets are missing to catch up.
    OutOfSync,
}

/// Follows the sequence numbers of one media stream.
#[derive(Debug)]
pub struct RtpMessageTracker {
    nacks_sent: HashSet<u16>,
    last_in_sequence: u16,
    latest: u16,
    seen: HashSet<u16>,
}

/// What a tracker knows.
#[verifier::ext_equal]
pub struct TrackerState {
    /// The sequence numbers that were asked for and have not arrived.
    pub asked: Set<u16>,
    /// The last sequence number before which nothing is missing.
    pub last_in_sequence: u16,
    /// The sequence number that is furthest ahead.
    pub latest: u16,
    /// The sequence numbers that arrived out of order.
    pub seen: Set<u16>,
}

impl TrackerState {
    /// A tracker that has seen everything up to `seq`.
    pub open spec fn at(seq: u16) -> TrackerState {
        TrackerState {
            asked: Set::empty(),
            last_in_sequence: seq,
            latest: seq,
            seen: Set::empty(),
        }
    }

    /// The sequence number furthest ahead, once `seq` arrived: a jump of a hundred or more
    /// does not count.
    pub open spec fn latest_with(self, seq: u16) -> u16 {
        if gap(self.latest, seq) < 100 {
            seq
        } else {
            self.latest
        }
    }

    /// The state after the packet `seq` arrived.
    pub open spec fn with_packet(self, seq: u16) -> TrackerState {
        let ahead = gap(self.last_in_sequence, seq);
        if ahead == 0 {
            self
        } else if ahead == 1 {
            let run = run_end(seq, self.seen, 0) as int;
            TrackerState {
                asked: self.asked.remove(seq),
                last_in_sequence: seq_at(seq, run),
                latest: self.latest_with(seq),
                seen: beyond(seq, self.seen, run),
            }
        } else {
            TrackerState {
                asked: self.asked.remove(seq),
                last_in_sequence: self.last_in_sequence,
                latest: self.latest_with(seq),
                seen: self.seen.insert(seq),
            }
        }
    }

    /// How far the sequence number furthest ahead is ahead.
    pub open spec fn drift(self) -> int {
        gap(self.last_in_sequence, self.latest)
    }

    /// What is said when the packet `seq` arrives.
    pub open spec fn status_for(self, seq: u16) -> TrackerStatus {
        let after = self.with_packet(seq);
        let ahead = gap(self.last_in_sequence, seq);
        if ahead == 0 || (ahead == 1 && after.drift() == 0) {
            TrackerStatus::InSync
        } else if after.drift() > 100 {
            TrackerStatus::OutOfSync
        } else {
            TrackerStatus::MissingPackets(after.drift() as u16)
        }
    }

    /// How many sequence numbers lie strictly between the last one in sequence and the one
    /// furthest ahead, all the way round where the two are the same.
    pub open spec fn span(self) -> nat {
        (reach(self.last_in_sequence, self.latest) - 1) as nat
    }

    /// The sequence numbers that are missing and were not asked for, in order.
    pub open spec fn overdue(self) -> Seq<u16> {
        missing(self.last_in_sequence, self.span(), self.seen, self.asked)
    }

    /// The state after everything that is missing was asked for.
    pub open spec fn all_asked(self) -> TrackerState {
        TrackerState { asked: self.asked.union(self.overdue().to_set()), ..self }
    }
}

/// What is asked for is not asked for again.
pub proof fn nothing_is_asked_twice(tracker: TrackerState)
    ensures
        tracker.all_asked().overdue().len() == 0,
{
    let asked = tracker.all_asked();
    let again = asked.overdue();
    lemma_reach(tracker.last_in_sequence, tracker.latest);
    lemma_missing(tracker.last_in_sequence, tracker.span(), tracker.seen, tracker.asked);
    lemma_missing(tracker.last_in_sequence, tracker.span(), asked.seen, asked.asked);
    if again.len() > 0 {
        assert(again.contains(again[0]));
        assert(tracker.overdue().contains(again[0]));
    }
}

/// What is asked for is missing: it lies between the last packet in sequence and the one
/// furthest ahead, has not arrived and was not asked for. All of that is asked for.
pub proof fn what_is_missing_is_asked_for(tracker: TrackerState, seq: u16)
    ensures
        tracker.overdue().contains(seq) <==> {
            &&& reach(tracker.last_in_sequence, seq) < reach(
                tracker.last_in_sequence,
                tracker.latest,
            )
            &&& !tracker.seen.contains(seq)
            &&& !tracker.asked.contains(seq)
        },
{
    lemma_reach(tracker.last_in_sequence, tracker.latest);
    lemma_missing(tracker.last_in_sequence, tracker.span(), tracker.seen, tracker.asked);
}

/// Packets that arrive in order are never missed.
pub proof fn order_keeps_in_sync(seq: u16)
    ensures
        TrackerState::at(seq).status_for(seq_at(seq, 1)) is InSync,
        TrackerState::at(seq).with_packet(seq_at(seq, 1)) == TrackerState::at(seq_at(seq, 1)),
{
    let next = seq_at(seq, 1);
    let after = TrackerState::at(seq).with_packet(next);
    assert(gap(seq, next) == 1);
    assert(run_end(next, Set::empty(), 0) == 0);
    assert(beyond(next, Set::empty(), 0) =~= Set::empty());
    assert(seq_at(next, 0) == next);
    assert(after =~= TrackerState::at(next));
    assert(gap(next, next) == 0);
}

/// Two packets that change places leave no trace.
pub proof fn swapped_packets_leave_no_trace(seq: u16)
    ensures
        TrackerState::at(seq).with_packet(seq_at(seq, 2)).with_packet(seq_at(seq, 1))
            == TrackerState::at(seq_at(seq, 2)),
        TrackerState::at(seq).with_packet(seq_at(seq, 2)).status_for(seq_at(seq, 1)) is InSync,
{
    let first = seq_at(seq, 1);
    let second = seq_at(seq, 2);
    let between = TrackerState::at(seq).with_packet(second);
    assert(gap(seq, second) == 2);
    assert(gap(seq, first) == 1);
    assert(between.seen =~= set![second]);
    assert(between.latest == second);
    assert(gap(second, first) == 65535);
    assert(seq_at(first, 1) == second);
    assert(seq_at(first, 2) != second);
    assert(run_end(first, between.seen, 1) == 1);
    assert(run_end(first, between.seen, 0) == 1);
    assert forall|x: u16| !#[trigger] beyond(first, between.seen, 1).contains(x) by {
        assert(reach(first, second) == 1);
    }
    let after = between.with_packet(first);
    assert(after =~= TrackerState::at(second));
    assert(gap(second, second) == 0);
}

/// The packet that would continue the sequence is never among those that wait for it.
pub proof fn nothing_waits_for_what_is_there(tracker: TrackerState, seq: u16)
    requires
        !tracker.seen.contains(seq_at(tracker.last_in_sequence, 1)),
    ensures
        ({
            let after = tracker.with_packet(seq);
            !after.seen.contains(seq_at(after.last_in_sequence, 1))
        }),
{
    let after = tracker.with_packet(seq);
    let ahead = gap(tracker.last_in_sequence, seq);
    if ahead == 1 {
        let run = run_end(seq, tracker.seen, 0);
        lemma_run_end(seq, tracker.seen, 0);
        lemma_seq_at_gap(seq, run as int, run as int + 1);
        assert(seq_at(after.last_in_sequence, 1) == seq_at(seq, run as int + 1));
        if run == 65536 {
            lemma_reach(seq, seq_at(after.last_in_sequence, 1));
        }
    } else if ahead != 0 {
        assert(gap(tracker.last_in_sequence, seq_at(tracker.last_in_sequence, 1)) == 1);
    }
}

/// Whether all of `set` lies less than a hundred steps after `base`.
pub open spec fn within_window(base: u16, set: Set<u16>) -> bool {
    forall|x: u16| #[trigger] set.contains(x) ==> reach(base, x) < 100
}

impl TrackerState {
    /// The state that the packets in `set` lead to, when everything up to `base` was seen.
    pub open spec fn of_set(base: u16, set: Set<u16>) -> TrackerState {
        let run = run_end(base, set, 0) as int;
        TrackerState {
            asked: Set::empty(),
            last_in_sequence: seq_at(base, run),
            latest: seq_at(base, furthest(base, set, 99) as int),
            seen: beyond(base, set, run),
        }
    }
}

proof fn lemma_run_shift(base: u16, set: Set<u16>, seq: u16, seen: Set<u16>, d: nat, k: nat)
    requires
        1 <= d < 100,
        seq == seq_at(base, d as int),
        within_window(base, set),
        d + k <= 100,
        forall|x: u16| #[trigger] seen.contains(x) <==> set.contains(x) && reach(base, x) > d,
    ensures
        run_end(base, set, d + k) == d + run_end(seq, seen, k),
    decreases 100 - d - k,
{
    let next = seq_at(base, (d + k + 1) as int);
    lemma_seq_at_gap(base, d as int, (d + k + 1) as int);
    assert(next == seq_at(seq, k as int + 1));
    lemma_reach_of_seq_at(base, (d + k + 1) as int);
    if set.contains(next) {
        lemma_run_shift(base, set, seq, seen, d, k + 1);
    }
}

/// It does not matter in which order packets arrive: what a tracker knows depends on which
/// packets did, as long as each of them does once and they are less than a hundred apart.
pub proof fn order_does_not_matter(base: u16, set: Set<u16>, seq: u16)
    requires
        within_window(base, set.insert(seq)),
        !set.contains(seq),
    ensures
        TrackerState::of_set(base, Set::empty()) == TrackerState::at(base),
        TrackerState::of_set(base, set).with_packet(seq) == TrackerState::of_set(
            base,
            set.insert(seq),
        ),
{
    let empty = TrackerState::of_set(base, Set::empty());
    lemma_furthest(base, Set::empty(), 99);
    assert(seq_at(base, 0) == base);
    assert(empty =~= TrackerState::at(base));

    let more = set.insert(seq);
    assert(set.insert(seq).contains(seq));
    assert forall|x: u16| #[trigger] set.contains(x) implies reach(base, x) < 100 by {
        assert(more.contains(x));
    }
    let d = reach(base, seq);
    lemma_reach(base, seq);
    let before = TrackerState::of_set(base, set);
    let run = run_end(base, set, 0);
    lemma_run_end(base, set, 0);
    if run > 0 {
        lemma_run_members(base, set, 0, run as int);
        lemma_reach_of_seq_at(base, run as int);
    }
    if d <= run {
        lemma_run_members(base, set, 0, d);
    }
    lemma_seq_at_gap(base, run as int, d);
    assert forall|x: u16| 1 <= #[trigger] reach(base, x) <= 65536 && seq_at(base, reach(base, x))
        == x by {
        lemma_reach(base, x);
    }
    lemma_latest(base, set, seq);
    let after = before.with_packet(seq);
    let grown = run_end(base, more, 0);
    if d == run + 1 {
        let rest = run_end(seq, before.seen, 0);
        assert forall|j: int| 0 < j <= d implies more.contains(#[trigger] seq_at(base, j)) by {
            if j < d {
                lemma_run_members(base, set, 0, j);
            }
        }
        lemma_run_prefix(base, more, 0, d as nat);
        assert forall|x: u16| #[trigger] before.seen.contains(x) <==> more.contains(x) && reach(
            base,
            x,
        ) > d by {
            if set.contains(x) && reach(base, x) == d {
                assert(x == seq);
            }
        }
        lemma_run_shift(base, more, seq, before.seen, d as nat, 0);
        assert(grown == d + rest);
        lemma_run_end(base, more, 0);
        if grown > 0 {
            lemma_run_members(base, more, 0, grown as int);
            lemma_reach_of_seq_at(base, grown as int);
        }
        lemma_seq_at_gap(base, d, grown as int);
        assert(after.last_in_sequence == seq_at(base, grown as int));
        assert forall|x: u16| #[trigger] after.seen.contains(x) <==> beyond(
            base,
            more,
            grown as int,
        ).contains(x) by {
            if more.contains(x) && reach(base, x) > d {
                lemma_seq_at_gap(base, d, reach(base, x));
                assert(reach(seq, x) == reach(base, x) - d);
            }
        }
        assert(after.seen =~= beyond(base, more, grown as int));
    } else {
        lemma_run_kept(base, set, seq, 0);
        assert(grown == run);
        assert(after.seen =~= beyond(base, more, run as int));
    }
    assert(after.asked =~= Set::empty());
    assert(after =~= TrackerState::of_set(base, more));
}

proof fn lemma_run_kept(base: u16, set: Set<u16>, seq: u16, k: nat)
    requires
        k <= 65536,
        run_end(base, set, k) < 65536,
        seq != seq_at(base, run_end(base, set, k) as int + 1),
    ensures
        run_end(base, set.insert(seq), k) == run_end(base, set, k),
    decreases 65536 - k,
{
    if k < 65536 && set.contains(seq_at(base, k as int + 1)) {
        lemma_run_kept(base, set, seq, k + 1);
    }
}

proof fn lemma_latest(base: u16, set: Set<u16>, seq: u16)
    requires
        reach(base, seq) < 100,
    ensures
        TrackerState::of_set(base, set).latest_with(seq) == seq_at(
            base,
            furthest(base, set.insert(seq), 99) as int,
        ),
{
    let d = reach(base, seq);
    let old_furthest = furthest(base, set, 99);
    let new_furthest = furthest(base, set.insert(seq), 99);
    lemma_reach(base, seq);
    lemma_furthest(base, set, 99);
    lemma_furthest(base, set.insert(seq), 99);
    assert(set.insert(seq).contains(seq_at(base, d)));
    if d >= old_furthest {
        lemma_seq_at_gap(base, old_furthest as int, d);
        if new_furthest > d {
            lemma_reach_of_seq_at(base, new_furthest as int);
        }
    } else {
        lemma_seq_at_gap(base, d, old_furthest as int);
        assert(set.insert(seq).contains(seq_at(base, old_furthest as int)));
        if new_furthest > old_furthest {
            lemma_reach_of_seq_at(base, new_furthest as int);
        }
    }
}

impl View for RtpMessageTracker {
    type V = TrackerState;

    closed spec fn view(&self) -> TrackerState {
        TrackerState {
            asked: self.nacks_sent@,
            last_in_sequence: self.last_in_sequence,
            latest: self.latest,
            seen: self.seen@,
        }
    }
}

impl RtpMessageTracker {
    /// A tracker that takes everything up to `seq` as seen.
    pub fn new(seq: u16) -> (tracker: RtpMessageTracker)
        ensures
            tracker@ == TrackerState::at(seq),
    {
        RtpMessageTracker {
            nacks_sent: HashSet::new(),
            last_in_sequence: seq,
            latest: seq,
            seen: HashSet::new(),
        }
    }

    /// Takes up the sequence number of a packet that arrived.
    pub fn track(&mut self, seq: u16) -> (status: TrackerStatus)
        ensures
            final(self)@ == old(self)@.with_packet(seq),
            status == old(self)@.status_for(seq),
    {
        broadcast use vstd::std_specs::hash::group_hash_axioms;

        let change: u16 = wrapping_difference(self.last_in_sequence, seq);
        if change == 0 {
            // resent?
            return TrackerStatus::InSync;
        }
        if wrapping_difference(self.latest, seq) < 100 {
            self.latest = seq;
        }
        self.nacks_sent.remove(&seq);

        if change != 1 {
            self.seen.insert(seq);
            let diff: u16 = wrapping_difference(self.last_in_sequence, self.latest);
            assert(self@ =~= old(self)@.with_packet(seq));
            if diff > 100 {
                return TrackerStatus::OutOfSync;
            }
            return TrackerStatus::MissingPackets(diff);
        }
        self.last_in_sequence = absorb_run(seq, &mut self.seen);
        assert(self@ =~= old(self)@.with_packet(seq));

        if self.last_in_sequence == self.latest {
            return TrackerStatus::InSync;
        }
        let diff: u16 = wrapping_difference(self.last_in_sequence, self.latest);
        if diff > 100 {
            return TrackerStatus::OutOfSync;
        }
        TrackerStatus::MissingPackets(diff)
    }

    /// Forgets what was seen and continues after `seq`.
    pub fn reset(&mut self, seq: u16)
        ensures
            final(self)@ == TrackerState::at(seq),
    {
        self.last_in_sequence = seq;
        self.latest = seq;
        self.seen.clear();
        self.nacks_sent.clear();
    }

    /// Returns the sequence numbers that are missing and were not asked for, and remembers
    /// them as asked for.
    pub fn get_and_mark_nacks(&mut self) -> (nacks: Vec<u16>)
        ensures
            nacks@ == old(self)@.overdue(),
            final(self)@ == old(self)@.all_asked(),
    {
        broadcast use vstd::std_specs::hash::group_hash_axioms;

        let mut nacks: Vec<u16> = Vec::new();
        let ghost base = self.last_in_sequence;
        let ghost asked = self.nacks_sent@;
        let ghost span = self@.span();
        let ghost mut steps: nat = 0;
        let mut seq: u16 = self.last_in_sequence.wrapping_add(1);
        proof {
            lemma_reach(base, self.latest);
        }
        assert(asked.union(missing(base, 0, self.seen@, asked).to_set()) =~= asked);
        while seq != self.latest
            invariant
                base == self.last_in_sequence,
                self.last_in_sequence == old(self).last_in_sequence,
                self.latest == old(self).latest,
                self.seen@ == old(self).seen@,
                asked == old(self).nacks_sent@,
                span == old(self)@.span(),
                span + 1 == reach(base, self.latest),
                seq_at(base, span as int + 1) == self.latest,
                0 <= steps <= span < 65536,
                seq == seq_at(base, steps as int + 1),
                nacks@ == missing(base, steps, self.seen@, asked),
                self.nacks_sent@ == asked.union(nacks@.to_set()),
            decreases span - steps,
        {
            proof {
                lemma_missing(base, steps, self.seen@, asked);
                lemma_reach_of_seq_at(base, steps as int + 1);
            }
            let ghost before = nacks@;
            if !self.nacks_sent.contains(&seq) && !self.seen.contains(&seq) {
                nacks.push(seq);
                self.nacks_sent.insert(seq);
                assert(nacks@.to_set() =~= before.to_set().insert(seq)) by {
                    broadcast use vstd::seq_lib::group_seq_properties;

                }
                assert(self.nacks_sent@ =~= asked.union(nacks@.to_set()));
            }
            proof {
                steps = steps + 1;
            }
            seq = seq.wrapping_add(1);
        }
        assert(steps == span) by {
            lemma_reach_of_seq_at(base, steps as int + 1);
        }
        assert(self@ =~= old(self)@.all_asked());
        nacks
    }
}

/// The entries in which the sequence numbers `seqs` are reported: the head of each group,
/// with the lowest bit alone set.
pub open spec fn nack_heads(seqs: Seq<u16>) -> Seq<(u16, u16)> {
    group_heads(seqs).map_values(|head: u16| (head, 1u16))
}

proof fn lemma_nack_heads_step(seqs: Seq<u16>, n: int)
    requires
        1 <= n < seqs.len(),
        group_heads(seqs).len() <= 4096,
        group_heads(seqs.take(n)).len() > 0,
    ensures
        group_heads(seqs.take(n)).len() <= 4096,
        group_heads(seqs.take(n + 1)).len() <= 4096,
        group_heads(seqs.take(n + 1)) == (if gap(group_heads(seqs.take(n)).last(), seqs[n]) <= 15 {
            group_heads(seqs.take(n))
        } else {
            group_heads(seqs.take(n)).push(seqs[n])
        }),
        gap(group_heads(seqs.take(n)).last(), seqs[n]) > 15 ==> nack_heads(
            seqs.take(n + 1),
        ).drop_last() == nack_heads(seqs.take(n)),
        nack_entries(nack_heads(seqs.take(n))) == nack_entries(nack_heads(seqs.take(n)).drop_last())
            + be16(group_heads(seqs.take(n)).last()) + be16(1),
        nack_entries(nack_heads(seqs.take(n)).drop_last()).len() <= 4 * 4096,
{
    lemma_group_heads_prefix(seqs, n);
    lemma_group_heads_prefix(seqs, n + 1);
    assert(seqs.take(n + 1).drop_last() =~= seqs.take(n));
    assert(seqs.take(n + 1).last() == seqs[n]);
    if gap(group_heads(seqs.take(n)).last(), seqs[n]) > 15 {
        assert(nack_heads(seqs.take(n + 1)).drop_last() =~= nack_heads(seqs.take(n)));
    }
    lemma_nack_entries_len(nack_heads(seqs.take(n)).drop_last());
}

/// Builds the packet that asks the source `ssrc` for the packets `seqs`.
fn build_nack_packet(ssrc: u32, seqs: &Vec<u16>) -> (packet: BytesMut)
    requires
        seqs@.len() > 0,
        group_heads(seqs@).len() <= 4096,
    ensures
        buffer_contents(packet) == nack_packet(ssrc, nack_heads(seqs@)),
{
    let mut packet = empty_buffer();
    let mut header: u8 = 0;
    // Version field always 2
    header = header | (2u8 << 6);
    // FB message type 1 = Generic NACK
    header = header | 1;
    assert(((0u8 | (2u8 << 6)) | 1) == 0x81u8) by (bit_vector);
    write_u8(&mut packet, header);
    // Payload type 205 = RTPFB / Transport layer FB message
    write_u8(&mut packet, 205);
    // Length field, will be set later
    write_u16(&mut packet, 0);
    // our SSRC, can be ignored
    write_u32(&mut packet, 0);
    // target SSRC
    write_u32(&mut packet, ssrc);
    let ghost fixed = buffer_contents(packet);
    assert(fixed =~= seq![0x81u8, 205u8] + be16(0) + be32(0) + be32(ssrc));

    let mut current: u16 = seqs[0];
    let mut bitfield: u16 = 1;
    let mut items: u16 = 1;
    let mut i: usize = 1;
    proof {
        let first = seqs@.take(1);
        assert(first.drop_last() =~= Seq::<u16>::empty());
        assert(group_heads(first.drop_last()) =~= Seq::<u16>::empty());
        assert(group_heads(first) =~= seq![current]);
        assert(nack_heads(first).drop_last() =~= Seq::<(u16, u16)>::empty());
        assert(nack_entries(nack_heads(first).drop_last()) =~= Seq::<u8>::empty());
    }
    while i < seqs.len()
        invariant
            1 <= i <= seqs@.len(),
            bitfield == 1,
            group_heads(seqs@).len() <= 4096,
            group_heads(seqs@.take(i as int)).len() == items,
            items > 0,
            group_heads(seqs@.take(i as int)).last() == current,
            fixed.len() == 12,
            buffer_contents(packet) == fixed + nack_entries(
                nack_heads(seqs@.take(i as int)).drop_last(),
            ),
        decreases seqs@.len() - i,
    {
        proof {
            lemma_nack_heads_step(seqs@, i as int);
        }
        let ghost written = nack_entries(nack_heads(seqs@.take(i as int)).drop_last());
        let shift: u16 = wrapping_difference(current, seqs[i]);
        if shift > 15 {
            write_u16(&mut packet, current);
            write_u16(&mut packet, bitfield);
            assert(buffer_contents(packet) =~= fixed + (written + be16(current) + be16(1)));
            current = seqs[i];
            bitfield = 1;
            items = items + 1;
        } else {
            assert(1u16 | (1u16 >> shift) == 1u16) by (bit_vector)
                requires
                    shift <= 15,
            ;
            bitfield = bitfield | (1u16 >> shift);
        }
        i = i + 1;
    }
    let ghost entries = nack_heads(seqs@);
    let ghost written = nack_entries(entries.drop_last());
    proof {
        assert(seqs@.take(i as int) =~= seqs@);
        lemma_nack_entries_len(entries.drop_last());
    }
    write_u16(&mut packet, current);
    write_u16(&mut packet, bitfield);
    let length: u16 = 2 + items;
    set_byte(&mut packet, 2, (length / 256) as u8);
    set_byte(&mut packet, 3, (length % 256) as u8);
    assert(nack_entries(entries) == written + be16(current) + be16(1));
    assert(buffer_contents(packet) =~= nack_packet(ssrc, entries));
    packet
}

/// A datagram as it was received.
#[derive(Debug)]
pub struct UdpMessage {
    pub address: SocketAddr,
    pub data: Bytes,
}

/// A datagram that holds an RTP or RTCP packet.
#[derive(Debug)]
pub struct UdpRtpMessage {
    pub address: SocketAddr,
    pub data: Bytes,
    pub rtp: MuxedRtp,
}

/// The time of day, since the epoch.
#[derive(Debug, Clone, Copy, PartialEq, Eq, Structural)]
pub struct Clock {
    pub seconds: u64,
    pub nanoseconds: u32,
}

/// A packet that is passed on, and to whom.
#[derive(Debug)]
pub struct Relay {
    pub video: bool,
    pub data: Vec<u8>,
    /// The length of `data`, as the 16-bit integer that the media server takes.
    pub length: i16,
    pub subscribers: Vec<SessionRef>,
}

/// What is passed on.
#[verifier::ext_equal]
pub struct RelayView {
    pub video: bool,
    pub data: Seq<u8>,
    pub length: int,
    pub subscribers: Seq<SessionRef>,
}

impl View for Relay {
    type V = RelayView;

    open spec fn view(&self) -> RelayView {
        RelayView {
            video: self.video,
            data: self.data@,
            length: self.length as int,
            subscribers: self.subscribers@,
        }
    }
}

/// A length reduced to a signed 16-bit integer.
pub open spec fn signed_length(len: int) -> int {
    (len + 0x8000) % 0x10000 - 0x8000
}

/// What is passed on of the packet `data` of a media stream.
pub open spec fn relay_of(
    media_stream: MediaStream,
    data: Seq<u8>,
    subscribers: Seq<SessionRef>,
) -> RelayView {
    RelayView {
        video: media_stream.content is Video,
        data,
        length: signed_length(data.len() as int),
        subscribers,
    }
}

/// Prepares the packet `data` to be passed on to those who receive the stream.
pub fn build_relay(media_stream: &MediaStream, data: &[u8], router: &Router, stream: StreamId) -> (relay:
    Relay)
    ensures
        relay@ == relay_of(*media_stream, data@, router@.subscribers(stream)),
{
    let low: usize = data.len() % 0x10000;
    let length: i16 = if low < 0x8000 {
        low as i16
    } else {
        (low as i32 - 0x10000) as i16
    };
    let relay = Relay {
        video: media_stream.content.is_video(),
        data: slice_to_vec(data),
        length,
        subscribers: slice_to_vec(router.get_subscribers(stream)),
    };
    assert(relay@ =~= relay_of(*media_stream, data@, router@.subscribers(stream)));
    relay
}

/// What a media stream does about a packet.
#[derive(Debug)]
pub enum StreamOutcome {
    /// An RTP packet: it is passed on; missing packets may be asked for.
    Rtp { nacks: Option<BytesMut>, relay: Relay },
    /// A sender report is answered with the time of day, and not passed on.
    Reply(Vec<u8>),
    /// Any other RTCP packet is passed on.
    Rtcp(Relay),
}

/// What a media stream does about a packet, as values.
pub enum OutcomeView {
    Rtp { nacks: Option<Seq<u8>>, relay: RelayView },
    Reply(Seq<u8>),
    Rtcp(RelayView),
}

/// The bytes of a packet that is sent, where one is.
pub open spec fn packet_bytes(packet: Option<BytesMut>) -> Option<Seq<u8>> {
    match packet {
        Some(buffer) => Some(buffer_contents(buffer)),
        None => None,
    }
}

impl View for StreamOutcome {
    type V = OutcomeView;

    open spec fn view(&self) -> OutcomeView {
        match *self {
            StreamOutcome::Rtp { nacks, relay } => OutcomeView::Rtp {
                nacks: packet_bytes(nacks),
                relay: relay@,
            },
            StreamOutcome::Reply(packet) => OutcomeView::Reply(packet@),
            StreamOutcome::Rtcp(relay) => OutcomeView::Rtcp(relay@),
        }
    }
}

/// One media stream of a connection.
#[derive(Debug)]
pub struct RtpStream {
    ssrc: u32,
    stream_index: StreamId,
    media_stream: MediaStream,
    tracker: RtpMessageTracker,
}

/// What a media stream of a connection knows.
#[verifier::ext_equal]
pub struct RtpStreamView {
    pub ssrc: u32,
    pub stream_index: StreamId,
    pub media_stream: MediaStream,
    pub tracker: TrackerState,
}

impl View for RtpStream {
    type V = RtpStreamView;

    closed spec fn view(&self) -> RtpStreamView {
        RtpStreamView {
            ssrc: self.ssrc,
            stream_index: self.stream_index,
            media_stream: self.media_stream,
            tracker: self.tracker@,
        }
    }
}

impl RtpStreamView {
    /// A media stream of which nothing has arrived.
    pub open spec fn fresh(media_stream: MediaStream, stream_index: StreamId) -> RtpStreamView {
        RtpStreamView {
            ssrc: media_stream.ssrc,
            stream_index,
            media_stream,
            tracker: TrackerState::at(0),
        }
    }

    /// Whether missing packets are asked for when the packet `seq` arrives: the latest packet
    /// is more than 15 ahead, but not out of reach.
    pub open spec fn asks_at(self, seq: u16) -> bool {
        self.tracker.status_for(seq) matches TrackerStatus::MissingPackets(drift) && drift > 15
    }

    /// The state after the RTP packet `seq`.
    pub open spec fn after_rtp(self, seq: u16) -> RtpStreamView {
        let arrived = self.tracker.with_packet(seq);
        RtpStreamView {
            tracker: if self.asks_at(seq) {
                arrived.all_asked()
            } else if self.tracker.status_for(seq) is OutOfSync {
                TrackerState::at(seq)
            } else {
                arrived
            },
            ..self
        }
    }

    /// The packet that asks for what is overdue, where something is.
    pub open spec fn nacks(self) -> Option<Seq<u8>> {
        if self.tracker.overdue().len() == 0 {
            None
        } else {
            Some(nack_packet(self.ssrc, nack_heads(self.tracker.overdue())))
        }
    }

    /// What is sent back when the RTP packet `seq` arrives.
    pub open spec fn nacks_at(self, seq: u16) -> Option<Seq<u8>> {
        if self.asks_at(seq) {
            (RtpStreamView { tracker: self.tracker.with_packet(seq), ..self }).nacks()
        } else {
            None
        }
    }

    /// The state after a packet.
    pub open spec fn after(self, rtp: MuxedRtp) -> RtpStreamView {
        match rtp {
            MuxedRtp::RTP(header) => self.after_rtp(header.seq_nr),
            MuxedRtp::RTCP(_) => self,
        }
    }

    /// What is done about an RTCP packet.
    pub open spec fn rtcp_outcome(
        self,
        header: RtcpHeader,
        data: Seq<u8>,
        clock: Clock,
        router: RouterView,
    ) -> OutcomeView {
        if header.payload_type == 200 {
            OutcomeView::Reply(
                clock_packet((clock.seconds % 0x1_0000_0000) as u32, clock.nanoseconds),
            )
        } else {
            OutcomeView::Rtcp(
                relay_of(self.media_stream, data, router.subscribers(self.stream_index)),
            )
        }
    }

    /// What is done about a packet.
    pub open spec fn outcome(
        self,
        rtp: MuxedRtp,
        data: Seq<u8>,
        clock: Clock,
        router: RouterView,
    ) -> OutcomeView {
        match rtp {
            MuxedRtp::RTP(header) => OutcomeView::Rtp {
                nacks: self.nacks_at(header.seq_nr),
                relay: relay_of(self.media_stream, data, router.subscribers(self.stream_index)),
            },
            MuxedRtp::RTCP(header) => self.rtcp_outcome(header, data, clock, router),
        }
    }
}

impl RtpStream {
    /// A media stream of which nothing has arrived.
    pub fn new(media_stream: MediaStream, stream_index: StreamId) -> (stream: RtpStream)
        ensures
            stream@ == RtpStreamView::fresh(media_stream, stream_index),
    {
        RtpStream {
            ssrc: media_stream.ssrc,
            stream_index,
            media_stream,
            tracker: RtpMessageTracker::new(0),
        }
    }

    /// Takes up a packet of either kind.
    pub fn handle_message(&mut self, message: &UdpRtpMessage, clock: Clock, router: &Router) -> (outcome:
        StreamOutcome)
        ensures
            final(self)@ == old(self)@.after(message.rtp),
            outcome@ == old(self)@.outcome(
                message.rtp,
                shared_contents(message.data),
                clock,
                router@,
            ),
    {
        match message.rtp {
            MuxedRtp::RTP(rtp) => {
                let (nacks, relay) = self.handle_rtp(rtp, &message.data, router);
                StreamOutcome::Rtp { nacks, relay }
            },
            MuxedRtp::RTCP(rtcp) => self.handle_rtcp(rtcp, &message.data, clock, router),
        }
    }

    /// Takes up an RTP packet: it is passed on, and what is missing may be asked for.
    pub fn handle_rtp(&mut self, rtp: RtpHeader, data: &Bytes, router: &Router) -> (outcome: (
        Option<BytesMut>,
        Relay,
    ))
        ensures
            final(self)@ == old(self)@.after_rtp(rtp.seq_nr),
            packet_bytes(outcome.0) == old(self)@.nacks_at(rtp.seq_nr),
            outcome.1@ == relay_of(
                old(self)@.media_stream,
                shared_contents(*data),
                router@.subscribers(old(self)@.stream_index),
            ),
    {
        let mut nacks: Option<BytesMut> = None;
        match self.tracker.track(rtp.seq_nr) {
            TrackerStatus::MissingPackets(drift) => {
                if drift > 15 {
                    nacks = self.send_nacks();
                }
            },
            TrackerStatus::OutOfSync => {
                self.tracker.reset(rtp.seq_nr);
            },
            TrackerStatus::InSync => {},
        }
        let relay = build_relay(&self.media_stream, as_slice(data), router, self.stream_index);
        (nacks, relay)
    }

    /// Takes up an RTCP packet: a sender report is answered, anything else is passed on.
    pub fn handle_rtcp(&mut self, rtcp: RtcpHeader, data: &Bytes, clock: Clock, router: &Router) -> (outcome:
        StreamOutcome)
        ensures
            final(self)@ == old(self)@,
            outcome@ == old(self)@.rtcp_outcome(rtcp, shared_contents(*data), clock, router@),
    {
        if rtcp.payload_type == 200 {
            // Ignore this weird invalid RTCP
            return StreamOutcome::Reply(build_clock_packet(clock.seconds, clock.nanoseconds));
        }
        StreamOutcome::Rtcp(
            build_relay(&self.media_stream, as_slice(data), router, self.stream_index),
        )
    }

    /// Builds the packet that asks for what is missing and was not asked for, where there is
    /// something, and remembers it as asked for.
    pub fn send_nacks(&mut self) -> (packet: Option<BytesMut>)
        ensures
            packet_bytes(packet) == old(self)@.nacks(),
            final(self)@ == (RtpStreamView {
                tracker: old(self)@.tracker.all_asked(),
                ..old(self)@
            }),
    {
        let ghost before = self.tracker@;
        let seqs = self.tracker.get_and_mark_nacks();
        if seqs.is_empty() {
            return None;
        }
        proof {
            lemma_reach(before.last_in_sequence, before.latest);
            lemma_group_heads(
                before.last_in_sequence,
                before.span(),
                before.seen,
                before.asked,
            );
        }
        Some(build_nack_packet(self.ssrc, &seqs))
    }
}

/// The media streams of one peer.
#[derive(Debug)]
pub struct RtpConnection {
    handle: ConnectionId,
    rtp_streams: Vec<RtpStream>,
    stream_index: StreamId,
}

/// Identifies a connection.
pub type ConnectionId = u64;

/// What a connection knows.
#[verifier::ext_equal]
pub struct RtpConnectionView {
    pub handle: ConnectionId,
    pub rtp_streams: Seq<RtpStreamView>,
    pub stream_index: StreamId,
}

impl View for RtpConnection {
    type V = RtpConnectionView;

    closed spec fn view(&self) -> RtpConnectionView {
        RtpConnectionView {
            handle: self.handle,
            rtp_streams: self.rtp_streams@.map_values(|stream: RtpStream| stream@),
            stream_index: self.stream_index,
        }
    }
}

impl RtpConnectionView {
    /// A connection for `media_streams`, of which nothing has arrived.
    pub open spec fn fresh(
        handle: ConnectionId,
        media_streams: Seq<MediaStream>,
        stream_index: StreamId,
    ) -> RtpConnectionView {
        RtpConnectionView {
            handle,
            rtp_streams: media_streams.map_values(
                |media_stream: MediaStream| RtpStreamView::fresh(media_stream, stream_index),
            ),
            stream_index,
        }
    }

    /// Whether the stream at `i` is the one that packets of the source `ssrc` go to: the first
    /// one with that source.
    pub open spec fn takes(self, i: int, ssrc: u32) -> bool {
        &&& 0 <= i < self.rtp_streams.len()
        &&& self.rtp_streams[i].ssrc == ssrc
        &&& forall|j: int| 0 <= j < i ==> (#[trigger] self.rtp_streams[j]).ssrc != ssrc
    }

    /// Whether no stream takes packets of the source `ssrc`.
    pub open spec fn ignores(self, ssrc: u32) -> bool {
        forall|j: int|
            0 <= j < self.rtp_streams.len() ==> (#[trigger] self.rtp_streams[j]).ssrc != ssrc
    }
}

impl RtpConnection {
    /// A connection for `media_streams`, of which nothing has arrived.
    pub fn new(handle: ConnectionId, media_streams: &Vec<MediaStream>, stream_index: StreamId) -> (connection:
        RtpConnection)
        ensures
            connection@ == RtpConnectionView::fresh(handle, media_streams@, stream_index),
    {
        let mut rtp_streams: Vec<RtpStream> = Vec::new();
        let mut i: usize = 0;
        while i < media_streams.len()
            invariant
                i <= media_streams@.len(),
                rtp_streams@.len() == i,
                forall|j: int|
                    0 <= j < i ==> (#[trigger] rtp_streams@[j])@ == RtpStreamView::fresh(
                        media_streams@[j],
                        stream_index,
                    ),
            decreases media_streams@.len() - i,
        {
            rtp_streams.push(RtpStream::new(media_streams[i], stream_index));
            i = i + 1;
        }
        let connection = RtpConnection { handle, rtp_streams, stream_index };
        assert(connection@ =~= RtpConnectionView::fresh(handle, media_streams@, stream_index));
        connection
    }

    /// What identifies the connection.
    pub fn handle(&self) -> (handle: ConnectionId)
        ensures
            handle == self@.handle,
    {
        self.handle
    }

    /// Takes up a packet: the first media stream of its source does.
    pub fn handle_message(&mut self, message: &UdpRtpMessage, clock: Clock, router: &Router) -> (outcome:
        Option<StreamOutcome>)
        ensures
            match outcome {
                None => old(self)@.ignores(message.rtp.source()) && final(self)@ == old(self)@,
                Some(done) => exists|i: int|
                    {
                        &&& #[trigger] old(self)@.takes(i, message.rtp.source())
                        &&& done@ == old(self)@.rtp_streams[i].outcome(
                            message.rtp,
                            shared_contents(message.data),
                            clock,
                            router@,
                        )
                        &&& final(self)@ == (RtpConnectionView {
                            rtp_streams: old(self)@.rtp_streams.update(
                                i,
                                old(self)@.rtp_streams[i].after(message.rtp),
                            ),
                            ..old(self)@
                        })
                    },
            },
    {
        let ssrc: u32 = message.rtp.ssrc();
        let mut i: usize = 0;
        while i < self.rtp_streams.len()
            invariant
                i <= self.rtp_streams@.len(),
                self@ == old(self)@,
                ssrc == message.rtp.source(),
                forall|j: int| 0 <= j < i ==> (#[trigger] self@.rtp_streams[j]).ssrc != ssrc,
            decreases self.rtp_streams@.len() - i,
        {
            if self.rtp_streams[i].ssrc == ssrc {
                assert(old(self)@.rtp_streams[i as int] == self.rtp_streams@[i as int]@);
                assert(old(self)@.takes(i as int, ssrc));
                let outcome = self.rtp_streams[i].handle_message(message, clock, router);
                assert(self@.rtp_streams =~= old(self)@.rtp_streams.update(
                    i as int,
                    old(self)@.rtp_streams[i as int].after(message.rtp),
                ));
                return Some(outcome);
            }
            assert(self@.rtp_streams[i as int] == self.rtp_streams@[i as int]@);
            i = i + 1;
        }
        None
    }
}

} // verus!
