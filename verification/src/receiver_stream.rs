//! One media stream of the single-threaded receiver: it follows the sequence
//! numbers and reports the packets that are missing.

use crate::rpc::{MediaStream, SocketAddr};
use crate::sequence;
use crate::sequence::{
    absorb_run, beyond, furthest, gap, groups, lemma_finite, lemma_groups_heads,
    lemma_heads_are_reported, lemma_missing, lemma_reach, lemma_reach_of_seq_at, lemma_seq_at_gap,
    missing, reach, run_end, seq_at,
};
use std::collections::HashSet;
use vstd::prelude::*;

verus! {

/// How many packets may wait for a predecessor before it is asked for.
pub const SEQUENCE_HISTORY: usize = 16;

/// What a stream knows of its sequence numbers.
#[verifier::ext_equal]
pub struct Tracking {
    /// The latest sequence number that was pushed.
    pub sequence: Option<u16>,
    /// The last sequence number before which nothing is missing.
    pub last_in_sequence: u16,
    /// The sequence numbers that arrived too early.
    pub pending: Set<u16>,
    /// The sequence numbers that were asked for and have not arrived.
    pub asked: Set<u16>,
}

impl Tracking {
    /// Nothing has arrived.
    pub open spec fn fresh() -> Tracking {
        Tracking {
            sequence: None,
            last_in_sequence: 0,
            pending: Set::empty(),
            asked: Set::empty(),
        }
    }

    /// The state after `seq` was taken up, and with it all that had been waiting for it.
    pub open spec fn settled(self, seq: u16) -> Tracking {
        let in_order = gap(self.last_in_sequence, seq) == 1;
        let base = if in_order {
            seq
        } else {
            self.last_in_sequence
        };
        let arrived = if in_order {
            self.pending
        } else {
            self.pending.insert(seq)
        };
        let run = run_end(base, arrived, 0);
        Tracking {
            sequence: Some(seq),
            last_in_sequence: seq_at(base, run as int),
            pending: beyond(base, arrived, run as int),
            asked: self.asked.remove(seq),
        }
    }

    /// The sequence numbers that are to be asked for, in order: once more than
    /// `SEQUENCE_HISTORY` packets wait, all that is missing before the furthest of them
    /// and was not asked for before.
    pub open spec fn overdue(self) -> Seq<u16> {
        if self.pending.len() > SEQUENCE_HISTORY {
            missing(
                self.last_in_sequence,
                furthest(self.last_in_sequence, self.pending, 65536),
                self.pending,
                self.asked,
            )
        } else {
            Seq::empty()
        }
    }

    /// Whether `seq` starts the tracking anew: it is the first one, or more than a hundred
    /// packets were missed.
    pub open spec fn restarts_at(self, seq: u16) -> bool {
        self.sequence is None || gap(self.last_in_sequence, seq) > 100
    }

    /// The state after `seq` was pushed.
    pub open spec fn pushed(self, seq: u16) -> Tracking {
        if self.sequence is None {
            Tracking { sequence: Some(seq), last_in_sequence: seq, ..self }
        } else if self.restarts_at(seq) {
            Tracking {
                sequence: Some(seq),
                last_in_sequence: seq,
                pending: Set::empty(),
                asked: Set::empty(),
            }
        } else {
            let settled = self.settled(seq);
            Tracking { asked: settled.asked.union(settled.overdue().to_set()), ..settled }
        }
    }

    /// What is reported as missing when `seq` is pushed.
    pub open spec fn reported(self, seq: u16) -> Seq<(u16, u16)> {
        if self.restarts_at(seq) {
            Seq::empty()
        } else {
            groups(self.settled(seq).overdue())
        }
    }
}

/// What is reported as missing is not reported again.
pub proof fn nothing_is_reported_twice(tracking: Tracking, seq: u16)
    requires
        !tracking.restarts_at(seq),
    ensures
        tracking.pushed(seq).overdue().len() == 0,
{
    let settled = tracking.settled(seq);
    let pushed = tracking.pushed(seq);
    let reach = furthest(settled.last_in_sequence, settled.pending, 65536);
    let again = pushed.overdue();
    sequence::lemma_furthest(settled.last_in_sequence, settled.pending, 65536);
    lemma_missing(settled.last_in_sequence, reach, settled.pending, settled.asked);
    lemma_missing(settled.last_in_sequence, reach, pushed.pending, pushed.asked);
    if again.len() > 0 {
        assert(again.contains(again[0]));
        assert(settled.overdue().contains(again[0]));
    }
}

/// What is reported is missing: it has neither arrived nor been asked for, and something that
/// comes after it has arrived.
pub proof fn what_is_reported_is_missing(tracking: Tracking, seq: u16, g: int)
    requires
        0 <= g < tracking.reported(seq).len(),
    ensures
        ({
            let settled = tracking.settled(seq);
            let (head, _) = tracking.reported(seq)[g];
            &&& settled.pending.len() > SEQUENCE_HISTORY
            &&& !settled.pending.contains(head)
            &&& !settled.asked.contains(head)
            &&& reach(settled.last_in_sequence, head) < furthest(
                settled.last_in_sequence,
                settled.pending,
                65536,
            )
        }),
{
    let settled = tracking.settled(seq);
    let overdue = settled.overdue();
    let end = furthest(settled.last_in_sequence, settled.pending, 65536);
    let (head, _) = tracking.reported(seq)[g];
    lemma_groups_heads(overdue);
    lemma_heads_are_reported(overdue, g);
    if overdue.len() == 0 {
        assert(groups(overdue) =~= Seq::empty());
    }
    sequence::lemma_furthest(settled.last_in_sequence, settled.pending, 65536);
    lemma_missing(settled.last_in_sequence, end, settled.pending, settled.asked);
    lemma_reach(settled.last_in_sequence, head);
}

/// Packets that arrive in order are never reported as missing.
pub proof fn order_needs_no_report(tracking: Tracking, seq: u16)
    requires
        tracking.sequence is Some,
        tracking.pending =~= Set::empty(),
        seq == seq_at(tracking.last_in_sequence, 1),
    ensures
        tracking.reported(seq).len() == 0,
        tracking.pushed(seq).last_in_sequence == seq,
        tracking.pushed(seq).pending == Set::<u16>::empty(),
        tracking.pushed(seq).sequence == Some(seq),
{
    let settled = tracking.settled(seq);
    assert(gap(tracking.last_in_sequence, seq) == 1);
    assert(run_end(seq, tracking.pending, 0) == 0);
    assert(settled.pending =~= Set::empty());
    assert(groups(settled.overdue()) =~= Seq::empty());
}

/// The packet that would continue the sequence is never among those that wait for it.
pub proof fn nothing_pends_on_what_is_there(tracking: Tracking, seq: u16)
    requires
        tracking.sequence is Some,
    ensures
        ({
            let pushed = tracking.pushed(seq);
            !pushed.pending.contains(seq_at(pushed.last_in_sequence, 1))
        }),
{
    if !tracking.restarts_at(seq) {
        let in_order = gap(tracking.last_in_sequence, seq) == 1;
        let base = if in_order {
            seq
        } else {
            tracking.last_in_sequence
        };
        let arrived = if in_order {
            tracking.pending
        } else {
            tracking.pending.insert(seq)
        };
        let run = run_end(base, arrived, 0);
        sequence::lemma_run_end(base, arrived, 0);
        lemma_seq_at_gap(base, run as int, run as int + 1);
        if run == 65536 {
            lemma_reach(base, seq_at(base, run as int + 1));
        }
    }
}

/// One media stream as it is received.
#[derive(Debug)]
pub struct RTPStream {
    sequence: Option<u16>,
    last_sequences: HashSet<u16>,
    last_in_sequence: u16,
    nack_sent: HashSet<u16>,
    addr: SocketAddr,
    stream_start: u64,
    last_sender_report: Option<u64>,
    media_stream: MediaStream,
}

/// What is known of a stream.
#[verifier::ext_equal]
pub struct RTPStreamView {
    pub tracking: Tracking,
    /// Where the packets come from.
    pub addr: SocketAddr,
    /// When the stream was set up.
    pub stream_start: u64,
    /// When the last sender report arrived.
    pub last_sender_report: Option<u64>,
    pub media_stream: MediaStream,
}

impl View for RTPStream {
    type V = RTPStreamView;

    closed spec fn view(&self) -> RTPStreamView {
        RTPStreamView {
            tracking: self.tracking(),
            addr: self.addr,
            stream_start: self.stream_start,
            last_sender_report: self.last_sender_report,
            media_stream: self.media_stream,
        }
    }
}

impl RTPStream {
    spec fn tracking(self) -> Tracking {
        Tracking {
            sequence: self.sequence,
            last_in_sequence: self.last_in_sequence,
            pending: self.last_sequences@,
            asked: self.nack_sent@,
        }
    }

    /// A stream of which nothing has arrived, set up at the time `now`.
    pub fn new(addr: SocketAddr, media_stream: MediaStream, now: u64) -> (stream: RTPStream)
        ensures
            stream@ == (RTPStreamView {
                tracking: Tracking::fresh(),
                addr,
                stream_start: now,
                last_sender_report: None,
                media_stream,
            }),
    {
        let stream = RTPStream {
            sequence: None,
            last_sequences: HashSet::new(),
            last_in_sequence: 0,
            nack_sent: HashSet::new(),
            addr,
            stream_start: now,
            last_sender_report: None,
            media_stream,
        };
        stream
    }

    /// Where the packets come from.
    pub fn addr(&self) -> (addr: SocketAddr)
        ensures
            addr == self@.addr,
    {
        self.addr
    }

    /// What is received.
    pub fn media_stream(&self) -> (media_stream: MediaStream)
        ensures
            media_stream == self@.media_stream,
    {
        self.media_stream
    }

    /// When the last sender report arrived.
    pub fn last_sender_report(&self) -> (time: Option<u64>)
        ensures
            time == self@.last_sender_report,
    {
        self.last_sender_report
    }

    /// Takes note that a sender report arrived at the time `now`.
    pub fn note_sender_report(&mut self, now: u64)
        ensures
            final(self)@ == (RTPStreamView { last_sender_report: Some(now), ..old(self)@ }),
    {
        self.last_sender_report = Some(now);
    }

    /// Takes up the sequence number of a packet that arrived, and returns the
    /// groups of those that are now to be asked for.
    pub fn push_sequence(&mut self, seq: u16) -> (nacks: Vec<(u16, u16)>)
        ensures
            final(self)@ == (RTPStreamView {
                tracking: old(self)@.tracking.pushed(seq),
                ..old(self)@
            }),
            nacks@ == old(self)@.tracking.reported(seq),
    {
        broadcast use vstd::std_specs::hash::group_hash_axioms;

        if self.sequence.is_none() {
            self.sequence = Some(seq);
            self.last_in_sequence = seq;
            return Vec::new();
        }
        // If missed more than 100 packets, unceremoniously continue as if

        if seq.wrapping_sub(self.last_in_sequence) > 100 {
            self.last_in_sequence = seq;
            self.sequence = Some(seq);
            self.last_sequences.clear();
            self.nack_sent.clear();
            return Vec::new();
        }
        self.sequence = Some(seq);
        self.nack_sent.remove(&seq);

        if self.last_in_sequence.wrapping_add(1) == seq {
            self.last_in_sequence = seq;
        } else {
            self.last_sequences.insert(seq);
        }

        self.last_in_sequence = absorb_run(self.last_in_sequence, &mut self.last_sequences);
        assert(self.tracking() =~= old(self).tracking().settled(seq));
        self.report_overdue()
    }
}

impl RTPStream {
    /// Asks for what is overdue: returns its groups and remembers that it was asked for.
    fn report_overdue(&mut self) -> (nacks: Vec<(u16, u16)>)
        ensures
            nacks@ == groups(old(self)@.tracking.overdue()),
            final(self)@ == (RTPStreamView {
                tracking: Tracking {
                    asked: old(self)@.tracking.asked.union(
                        old(self)@.tracking.overdue().to_set(),
                    ),
                    ..old(self)@.tracking
                },
                ..old(self)@
            }),
    {
        broadcast use vstd::std_specs::hash::group_hash_axioms;

        let mut missed: Vec<(u16, u16)> = Vec::new();
        let ghost base = self.last_in_sequence;
        let ghost pending = self.last_sequences@;
        let ghost asked = self.nack_sent@;
        proof {
            lemma_finite(pending);
        }
        if self.last_sequences.len() <= SEQUENCE_HISTORY {
            assert(asked.union(Seq::<u16>::empty().to_set()) =~= asked);
            return missed;
        }
        let waiting: usize = self.last_sequences.len();
        let mut done: usize = 0;
        let mut offset: u16 = 1;
        let mut current: Option<u16> = None;
        let mut bitfield: u16 = 0;
        let ghost mut steps: nat = 0;
        proof {
            lemma_found(base, pending, 0);
        }
        assert(asked.union(missing(base, 0, pending, asked).to_set()) =~= asked);
        while done < waiting
            invariant
                base == self.last_in_sequence,
                pending == self.last_sequences@,
                waiting == pending.len(),
                waiting > 0,
                0 <= steps <= 65536,
                offset == (steps + 1) % 65536,
                done == found_within(base, pending, steps as int).len(),
                done <= waiting,
                done == waiting ==> pending.contains(seq_at(base, steps as int)) && steps > 0,
                self.nack_sent@ == asked.union(missing(base, steps, pending, asked).to_set()),
                match current {
                    Some(head) => groups(missing(base, steps, pending, asked)) == missed@.push(
                        (head, bitfield),
                    ) && missing(base, steps, pending, asked).contains(head),
                    None => missed@.len() == 0 && missing(base, steps, pending, asked).len() == 0,
                },
                self.sequence == old(self).sequence,
                self.addr == old(self).addr,
                self.stream_start == old(self).stream_start,
                self.last_sender_report == old(self).last_sender_report,
                self.media_stream == old(self).media_stream,
            decreases 65536 - steps,
        {
            let item: u16 = self.last_in_sequence.wrapping_add(offset);
            offset = offset.wrapping_add(1);
            let ghost before = missing(base, steps, pending, asked);
            proof {
                lemma_all_found(base, pending, steps as int);
                lemma_missing(base, steps, pending, asked);
                lemma_found(base, pending, steps as int + 1);
                lemma_found(base, pending, steps as int);
                lemma_found_step(base, pending, steps as int);
                lemma_reach_of_seq_at(base, steps as int + 1);
                steps = steps + 1;
            }
            if self.last_sequences.contains(&item) {
                done = done + 1;
                continue;
            }
            if self.nack_sent.contains(&item) {
                continue;
            }
            let ghost after = missing(base, steps, pending, asked);
            assert(after == before.push(item));
            assert(after.drop_last() =~= before);
            assert(after.to_set() =~= before.to_set().insert(item)) by {
                broadcast use vstd::seq_lib::group_seq_properties;

            }
            self.nack_sent.insert(item);
            assert(self.nack_sent@ =~= asked.union(after.to_set()));
            assert(after[after.len() - 1] == item);
            match current {
                Some(head) => {
                    proof {
                        lemma_reach(base, head);
                        lemma_seq_at_gap(base, reach(base, head), steps as int);
                        let k = before.index_of(head);
                        assert(after[k] == head);
                    }
                    let distance: u16 = item.wrapping_sub(head);
                    assert(distance == gap(head, item));
                    assert(groups(before).last() == (head, bitfield));
                    if distance > 15 {
                        missed.push((head, bitfield));
                        current = Some(item);
                        bitfield = 1;
                        assert(groups(after) == missed@.push((item, bitfield)));
                    } else {
                        assert(groups(before).drop_last() =~= missed@);
                        bitfield = bitfield | (1u16 << (distance - 1));
                        assert(groups(after) == missed@.push((head, bitfield)));
                    }
                },
                None => {
                    assert(before =~= Seq::<u16>::empty());
                    assert(missed@ =~= groups(before));
                    current = Some(item);
                    bitfield = 1;
                    assert(groups(after) == missed@.push((item, bitfield)));
                },
            }
        }
        proof {
            lemma_finite(pending);
            lemma_furthest_found(base, pending, steps as int);
        }
        match current {
            Some(head) => {
                missed.push((head, bitfield));
            },
            None => {
                assert(missing(base, steps, pending, asked) =~= Seq::<u16>::empty());
                assert(missed@ =~= Seq::<(u16, u16)>::empty());
            },
        }
        missed
    }
}

/// The members of `pending` within `n` steps after `base`.
spec fn found_within(base: u16, pending: Set<u16>, n: int) -> Set<u16> {
    Set::new(|x: u16| pending.contains(x) && reach(base, x) <= n)
}

proof fn lemma_found(base: u16, pending: Set<u16>, n: int)
    ensures
        found_within(base, pending, n).finite(),
        found_within(base, pending, n).len() <= pending.len(),
        n <= 0 ==> found_within(base, pending, n).len() == 0,
{
    lemma_finite(pending);
    vstd::set_lib::lemma_len_subset(found_within(base, pending, n), pending);
    if n <= 0 {
        assert forall|x: u16| reach(base, x) > 0 by {
            lemma_reach(base, x);
        }
        assert(found_within(base, pending, n) =~= Set::empty());
    }
}

proof fn lemma_all_found(base: u16, pending: Set<u16>, n: int)
    requires
        0 <= n <= 65536,
        found_within(base, pending, n).len() < pending.len(),
    ensures
        n < 65536,
{
    if n == 65536 {
        assert forall|x: u16| reach(base, x) <= 65536 by {
            lemma_reach(base, x);
        }
        assert(found_within(base, pending, n) =~= pending);
    }
}

proof fn lemma_found_step(base: u16, pending: Set<u16>, n: int)
    requires
        0 <= n < 65536,
    ensures
        found_within(base, pending, n + 1).len() == found_within(base, pending, n).len() + (
        if pending.contains(seq_at(base, n + 1)) {
            1int
        } else {
            0int
        }),
{
    let item = seq_at(base, n + 1);
    lemma_found(base, pending, n);
    lemma_reach_of_seq_at(base, n + 1);
    assert forall|x: u16| #[trigger] reach(base, x) == n + 1 implies x == item by {
        lemma_reach(base, x);
    }
    if pending.contains(item) {
        assert(found_within(base, pending, n + 1) =~= found_within(base, pending, n).insert(item));
    } else {
        assert(found_within(base, pending, n + 1) =~= found_within(base, pending, n));
    }
}

/// What is found within `n` steps is all there is, so the furthest member is the last one found.
proof fn lemma_furthest_found(base: u16, pending: Set<u16>, n: int)
    requires
        0 < n <= 65536,
        found_within(base, pending, n).len() == pending.len(),
        pending.contains(seq_at(base, n)),
    ensures
        furthest(base, pending, 65536) == n,
{
    lemma_finite(pending);
    lemma_found(base, pending, n);
    vstd::set_lib::lemma_subset_equality(found_within(base, pending, n), pending);
    lemma_furthest_from(base, pending, n, 65536);
}

proof fn lemma_furthest_from(base: u16, pending: Set<u16>, n: int, from: nat)
    requires
        0 < n <= from <= 65536,
        found_within(base, pending, n) == pending,
        pending.contains(seq_at(base, n)),
    ensures
        furthest(base, pending, from) == n,
    decreases from,
{
    if from > n {
        lemma_reach_of_seq_at(base, from as int);
        assert(!found_within(base, pending, n).contains(seq_at(base, from as int)));
        lemma_furthest_from(base, pending, n, (from - 1) as nat);
    }
}

} // verus!
