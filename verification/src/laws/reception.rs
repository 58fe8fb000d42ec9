//! Reception: what a receiver knows of the packets that arrived, and what it
//! asks for.

use crate::buffers::buffer_contents;
use crate::laws::packets::nack_entries_are_read_as_written;
use crate::laws::sequences::{groups_ask_for_nothing_else, what_is_missing_is_listed_in_order};
use crate::receiver_stream::{RTPStreamView, Tracking};
use crate::router::{RouterView, SessionRef, StreamView};
use crate::rpc::{MediaStream, StreamId};
use crate::rtp_connection::{
    nack_heads, order_keeps_in_sync, packet_bytes, relay_of, Clock, OutcomeView, Relay,
    RtpConnectionView, RtpStreamView, StreamOutcome, TrackerState, TrackerStatus,
};
use crate::rtp_receiver::{
    is_keyframe, keeps_packets, payload_start, starts_decoding, with_packet_kept, StreamSource,
};
use crate::rtp_utils::{MuxedRtp, RtcpHeader};
use crate::sequence::{
    beyond, furthest, gap, group_heads, groups, heads_are_near, lemma_furthest,
    lemma_group_heads, lemma_groups_heads, lemma_heads_are_reported, lemma_missing, lemma_reach,
    lemma_reach_of_seq_at, lemma_run_end, lemma_run_members, lemma_seq_at_gap, reach, run_end,
    seq_at,
};
use crate::wire::{be16_at, be32_at, clock_packet, holds_rtp_header, nack_packet};
use bytes::BytesMut;
use vstd::prelude::*;

verus! {

/// What absorbing a run does: the end moves over members, and the rest stays.
proof fn lemma_absorb(last: u16, seq: u16, waiting: Set<u16>)
    requires
        seq == seq_at(last, 1),
        !waiting.contains(seq),
    ensures
        ({
            let run = run_end(seq, waiting, 0);
            let end = seq_at(seq, run as int);
            let rest = beyond(seq, waiting, run as int);
            &&& run < 65536
            &&& reach(last, end) == run + 1
            &&& forall|x: u16| #[trigger]
                rest.contains(x) <==> (waiting.contains(x) || x == seq) && reach(last, x) > reach(
                    last,
                    end,
                )
            &&& forall|j: int|
                1 <= j <= reach(last, end) ==> waiting.contains(#[trigger] seq_at(last, j))
                    || seq_at(last, j) == seq
            &&& !rest.contains(seq_at(end, 1))
        }),
{
    let run = run_end(seq, waiting, 0);
    let end = seq_at(seq, run as int);
    let rest = beyond(seq, waiting, run as int);
    lemma_run_end(seq, waiting, 0);
    if run == 65536 {
        lemma_run_members(seq, waiting, 0, 65536);
    }
    lemma_seq_at_gap(last, 1, run as int + 1);
    lemma_reach_of_seq_at(last, run as int + 1);
    assert(end == seq_at(last, run as int + 1));
    assert forall|x: u16| #[trigger] rest.contains(x) <==> (waiting.contains(x) || x == seq)
        && reach(last, x) > run + 1 by {
        lemma_reach(seq, x);
        lemma_reach(last, x);
        if x == seq {
            lemma_reach_of_seq_at(last, 1);
        } else {
            lemma_seq_at_gap(last, 1, reach(seq, x) + 1);
            lemma_reach_of_seq_at(last, reach(seq, x) + 1);
        }
    }
    assert forall|j: int| 1 <= j <= run + 1 implies waiting.contains(#[trigger] seq_at(last, j))
        || seq_at(last, j) == seq by {
        if j > 1 {
            lemma_run_members(seq, waiting, 0, j - 1);
            lemma_seq_at_gap(last, 1, j);
        }
    }
    lemma_seq_at_gap(seq, run as int, run as int + 1);
    assert(seq_at(end, 1) == seq_at(seq, run as int + 1));
}

/// A tracker forgets no packet, and makes none up: a packet that arrives out of order is noted;
/// one in order moves the end of the sequence forward, over exactly those packets that had been
/// waiting for it, and the others stay noted.
pub proof fn trackers_forget_nothing(tracker: TrackerState, seq: u16, x: u16, j: int)
    requires
        !tracker.seen.contains(seq_at(tracker.last_in_sequence, 1)),
        seq != tracker.last_in_sequence,
    ensures
        ({
            let after = tracker.with_packet(seq);
            let last = tracker.last_in_sequence;
            let in_order = seq == seq_at(last, 1);
            let advance = if in_order {
                reach(last, after.last_in_sequence)
            } else {
                0
            };
            &&& !in_order ==> after.last_in_sequence == last
            &&& after.seen.contains(x) <==> (tracker.seen.contains(x) || x == seq) && reach(last, x)
                > advance
            &&& 1 <= j <= advance ==> tracker.seen.contains(seq_at(last, j)) || seq_at(last, j)
                == seq
            &&& after.asked.contains(x) <==> tracker.asked.contains(x) && x != seq
            &&& after.latest == if gap(tracker.latest, seq) < 100 {
                seq
            } else {
                tracker.latest
            }
            &&& !after.seen.contains(seq_at(after.last_in_sequence, 1))
        }),
{
    let last = tracker.last_in_sequence;
    lemma_reach(last, x);
    lemma_reach(last, seq);
    lemma_reach_of_seq_at(last, 1);
    if seq == seq_at(last, 1) {
        lemma_absorb(last, seq, tracker.seen);
        lemma_reach(last, tracker.with_packet(seq).last_in_sequence);
    }
}

/// A packet that arrives again, as the last one in sequence, changes nothing.
pub proof fn resent_packets_change_nothing(tracker: TrackerState)
    ensures
        tracker.with_packet(tracker.last_in_sequence) == tracker,
        tracker.status_for(tracker.last_in_sequence) is InSync,
{
}

/// A new tracker has seen everything up to its start, and nothing else.
pub proof fn new_trackers_start_clean(seq: u16, x: u16)
    ensures
        TrackerState::at(seq).last_in_sequence == seq,
        TrackerState::at(seq).latest == seq,
        !TrackerState::at(seq).seen.contains(x),
        !TrackerState::at(seq).asked.contains(x),
{
}

/// What is said of a packet: it is in sync where it continues the sequence and nothing beyond it
/// has arrived; out of sync where the latest packet is more than a hundred ahead of the sequence;
/// and otherwise packets are missing.
pub proof fn statuses_tell_the_drift(tracker: TrackerState, seq: u16)
    requires
        seq != tracker.last_in_sequence,
    ensures
        ({
            let after = tracker.with_packet(seq);
            let drift = gap(after.last_in_sequence, after.latest);
            let in_order = seq == seq_at(tracker.last_in_sequence, 1);
            &&& tracker.status_for(seq) is InSync <==> in_order && after.last_in_sequence
                == after.latest
            &&& tracker.status_for(seq) is OutOfSync <==> drift > 100
            &&& tracker.status_for(seq) matches TrackerStatus::MissingPackets(ahead) ==> ahead
                == drift
        }),
{
}

/// A stream recovers from being out of sync: it starts over at the packet that showed it, asks for
/// nothing then, and the packet after that one is in sync again.
pub proof fn streams_recover(stream: RtpStreamView, seq: u16)
    requires
        stream.tracker.status_for(seq) is OutOfSync,
    ensures
        ({
            let after = stream.after_rtp(seq);
            &&& after.tracker.last_in_sequence == seq
            &&& after.tracker.latest == seq
            &&& after.tracker.seen == Set::<u16>::empty()
            &&& after.tracker.asked == Set::<u16>::empty()
            &&& stream.nacks_at(seq) is None
            &&& after.tracker.status_for(seq_at(seq, 1)) is InSync
            &&& after.after_rtp(seq_at(seq, 1)).tracker == TrackerState::at(seq_at(seq, 1))
        }),
{
    order_keeps_in_sync(seq);
}

/// After a stream started over at a packet, every packet that is lost is asked for as soon as one
/// arrives that is from 16 to a hundred ahead of what is in sequence.
pub proof fn losses_are_asked_for_after_recovery(
    stream: RtpStreamView,
    restart: u16,
    ahead: int,
    lost: int,
)
    requires
        stream.tracker.status_for(restart) is OutOfSync,
        16 <= ahead < 100,
        1 <= lost < ahead,
    ensures
        ({
            let after = stream.after_rtp(restart);
            let arrived = seq_at(restart, ahead);
            &&& after.nacks_at(arrived) is Some
            &&& after.after_rtp(arrived).tracker.asked.contains(seq_at(restart, lost))
        }),
{
    streams_recover(stream, restart);
    let after = stream.after_rtp(restart);
    let arrived = seq_at(restart, ahead);
    let x = seq_at(restart, lost);
    lemma_seq_at_gap(restart, 0, ahead);
    assert(seq_at(restart, 0) == restart);
    lemma_reach_of_seq_at(restart, ahead);
    lemma_reach_of_seq_at(restart, lost);
    assert(after.tracker == TrackerState::at(restart));
    streams_ask_for_what_is_lost(after, arrived, x);
    let tracker = after.tracker.with_packet(arrived);
    assert(tracker.seen =~= set![arrived]);
    assert(is_lost(tracker, x));
}

/// Whether a packet is lost, as far as a tracker knows: it lies between the last one in sequence
/// and the latest one, has not arrived and was not asked for.
pub open spec fn is_lost(tracker: TrackerState, x: u16) -> bool {
    &&& reach(tracker.last_in_sequence, x) < reach(tracker.last_in_sequence, tracker.latest)
    &&& !tracker.seen.contains(x)
    &&& !tracker.asked.contains(x)
}

/// What a tracker has to ask for is all that is lost, each once and in order, and nothing else;
/// once it was asked for, it is noted so, and nothing else changes.
pub proof fn all_that_is_lost_is_asked_for(tracker: TrackerState, x: u16, i: int, j: int)
    ensures
        tracker.overdue().contains(x) <==> is_lost(tracker, x),
        0 <= i < j < tracker.overdue().len() ==> reach(
            tracker.last_in_sequence,
            tracker.overdue()[i],
        ) < reach(tracker.last_in_sequence, tracker.overdue()[j]),
        tracker.all_asked().asked.contains(x) <==> tracker.asked.contains(x) || is_lost(tracker, x),
        tracker.all_asked().last_in_sequence == tracker.last_in_sequence,
        tracker.all_asked().latest == tracker.latest,
        tracker.all_asked().seen == tracker.seen,
        !is_lost(tracker.all_asked(), x),
{
    let base = tracker.last_in_sequence;
    let overdue = tracker.overdue();
    lemma_reach(base, tracker.latest);
    lemma_reach(base, x);
    lemma_missing(base, tracker.span(), tracker.seen, tracker.asked);
    what_is_missing_is_listed_in_order(base, tracker.span(), tracker.seen, tracker.asked, 1);
    assert(overdue.to_set().contains(x) <==> overdue.contains(x));
}

/// The packet that asks for what is lost: there is one where something is lost. It is for the
/// source of the stream, names lost packets only, and none that is lost is more than 15 after one
/// that it names.
pub proof fn requests_name_what_is_lost(stream: RtpStreamView, x: u16, i: int)
    ensures
        is_lost(stream.tracker, x) ==> stream.nacks() is Some,
        stream.nacks() matches Some(packet) ==> {
            &&& packet.len() >= 16
            &&& packet.len() % 4 == 0
            &&& be32_at(packet, 8) == stream.ssrc
            &&& 0 <= i && 16 + 4 * i <= packet.len() ==> is_lost(
                stream.tracker,
                be16_at(packet, 12 + 4 * i),
            ) && be16_at(packet, 14 + 4 * i) == 1
            &&& is_lost(stream.tracker, x) ==> exists|k: int|
                0 <= k && 16 + 4 * k <= packet.len() && gap(
                    #[trigger] be16_at(packet, 12 + 4 * k),
                    x,
                ) <= 15
        },
{
    let tracker = stream.tracker;
    let overdue = tracker.overdue();
    let heads = group_heads(overdue);
    let entries = nack_heads(overdue);
    all_that_is_lost_is_asked_for(tracker, x, 0, 0);
    lemma_reach(tracker.last_in_sequence, tracker.latest);
    lemma_group_heads(tracker.last_in_sequence, tracker.span(), tracker.seen, tracker.asked);
    if let Some(packet) = stream.nacks() {
        assert(packet == nack_packet(stream.ssrc, entries));
        assert(entries.len() == heads.len() && heads.len() > 0);
        nack_entries_are_read_as_written(stream.ssrc, entries, 0);
        if 0 <= i && 16 + 4 * i <= packet.len() {
            nack_entries_are_read_as_written(stream.ssrc, entries, i);
            lemma_heads_are_reported(overdue, i);
            all_that_is_lost_is_asked_for(tracker, heads[i], 0, 0);
        }
        if is_lost(tracker, x) {
            let at = choose|at: int| 0 <= at < overdue.len() && overdue[at] == x;
            heads_are_near(overdue, at);
            let k = choose|k: int| 0 <= k < heads.len() && gap(#[trigger] heads[k], x) <= 15;
            nack_entries_are_read_as_written(stream.ssrc, entries, k);
            assert(gap(be16_at(packet, 12 + 4 * k), x) <= 15);
        }
    }
}

/// What a stream asks for: while the latest packet is from 16 to a hundred ahead, all that is
/// lost, and at no other time anything.
pub proof fn streams_ask_for_what_is_lost(stream: RtpStreamView, seq: u16, x: u16)
    ensures
        ({
            let arrived = stream.tracker.with_packet(seq);
            let drift = gap(arrived.last_in_sequence, arrived.latest);
            let asks = !(stream.tracker.status_for(seq) is InSync) && 15 < drift <= 100;
            let after = stream.after_rtp(seq);
            &&& asks ==> stream.nacks_at(seq) == (RtpStreamView {
                tracker: arrived,
                ..stream
            }).nacks()
            &&& asks && is_lost(arrived, x) ==> stream.nacks_at(seq) is Some
            &&& !asks ==> stream.nacks_at(seq) is None
            &&& asks ==> (after.tracker.asked.contains(x) <==> arrived.asked.contains(x)
                || is_lost(arrived, x))
            &&& asks ==> after.tracker == (TrackerState { asked: after.tracker.asked, ..arrived })
            &&& !asks && !(stream.tracker.status_for(seq) is OutOfSync) ==> after.tracker == arrived
            &&& after.ssrc == stream.ssrc
            &&& after.stream_index == stream.stream_index
            &&& after.media_stream == stream.media_stream
        }),
{
    let arrived = stream.tracker.with_packet(seq);
    all_that_is_lost_is_asked_for(arrived, x, 0, 0);
    requests_name_what_is_lost((RtpStreamView { tracker: arrived, ..stream }), x, 0);
}

/// Every RTP packet is passed on whole, to all who receive the stream.
pub proof fn rtp_packets_are_passed_on(
    stream: RtpStreamView,
    rtp: MuxedRtp,
    data: Seq<u8>,
    clock: Clock,
    router: RouterView,
)
    requires
        rtp is RTP,
    ensures
        stream.outcome(rtp, data, clock, router) matches OutcomeView::Rtp { nacks, relay }
            && relay.data == data && relay.subscribers == router.subscribers(stream.stream_index)
            && (relay.video <==> stream.media_stream.content is Video) && nacks == stream.nacks_at(
            rtp->RTP_0.seq_nr,
        ),
        stream.after(rtp) == stream.after_rtp(rtp->RTP_0.seq_nr),
{
}

/// A sender report is answered with the time and passed on to nobody; any other RTCP packet is
/// passed on whole, to all who receive the stream. Neither changes what is known of the stream.
pub proof fn rtcp_packets_are_answered_or_passed_on(
    stream: RtpStreamView,
    header: RtcpHeader,
    data: Seq<u8>,
    clock: Clock,
    router: RouterView,
)
    ensures
        stream.after(MuxedRtp::RTCP(header)) == stream,
        header.payload_type == 200 ==> stream.outcome(
            MuxedRtp::RTCP(header),
            data,
            clock,
            router,
        ) == OutcomeView::Reply(
            clock_packet((clock.seconds % 0x1_0000_0000) as u32, clock.nanoseconds),
        ),
        header.payload_type != 200 ==> (stream.outcome(
            MuxedRtp::RTCP(header),
            data,
            clock,
            router,
        ) matches OutcomeView::Rtcp(relay) && relay.data == data && relay.subscribers
            == router.subscribers(stream.stream_index) && (relay.video
            <==> stream.media_stream.content is Video)),
{
}

/// The length that is passed on is that of the packet, as far as 16 bits with a sign can tell.
pub proof fn lengths_are_passed_on(
    media_stream: MediaStream,
    data: Seq<u8>,
    subscribers: Seq<SessionRef>,
)
    ensures
        -0x8000 <= relay_of(media_stream, data, subscribers).length < 0x8000,
        (data.len() - relay_of(media_stream, data, subscribers).length) % 0x10000 == 0,
        data.len() < 0x8000 ==> relay_of(media_stream, data, subscribers).length == data.len(),
{
    let len = data.len() as int;
    let low = (len + 0x8000) % 0x10000;
    assert((len - (low - 0x8000)) % 0x10000 == 0) by {
        let turns = (len + 0x8000) / 0x10000;
        assert(len - (low - 0x8000) == 0x10000 * turns);
    }
}

/// A new connection serves each of its media streams, of which nothing has arrived.
pub proof fn new_connections_serve_their_streams(
    handle: u64,
    media_streams: Seq<MediaStream>,
    stream_index: StreamId,
    i: int,
)
    requires
        0 <= i < media_streams.len(),
    ensures
        ({
            let connection = RtpConnectionView::fresh(handle, media_streams, stream_index);
            let stream = connection.rtp_streams[i];
            &&& connection.handle == handle
            &&& connection.stream_index == stream_index
            &&& connection.rtp_streams.len() == media_streams.len()
            &&& stream.ssrc == media_streams[i].ssrc
            &&& stream.media_stream == media_streams[i]
            &&& stream.stream_index == stream_index
            &&& stream.tracker.last_in_sequence == 0 && stream.tracker.latest == 0
            &&& stream.tracker.seen == Set::<u16>::empty()
            &&& stream.tracker.asked == Set::<u16>::empty()
            &&& !connection.ignores(media_streams[i].ssrc)
        }),
{
    let connection = RtpConnectionView::fresh(handle, media_streams, stream_index);
    assert(connection.rtp_streams[i].ssrc == media_streams[i].ssrc);
}

/// The packets of a source go to the first stream with this source, and to nobody where there is
/// none.
pub proof fn sources_have_one_stream(connection: RtpConnectionView, ssrc: u32, i: int)
    requires
        0 <= i < connection.rtp_streams.len(),
    ensures
        connection.ignores(ssrc) ==> connection.rtp_streams[i].ssrc != ssrc,
        !connection.ignores(ssrc) ==> exists|k: int| #[trigger] connection.takes(k, ssrc),
        connection.takes(i, ssrc) <==> connection.rtp_streams[i].ssrc == ssrc && forall|k: int|
            0 <= k < i ==> #[trigger] connection.rtp_streams[k].ssrc != ssrc,
        forall|k: int| #[trigger]
            connection.takes(k, ssrc) ==> connection.rtp_streams[k].ssrc == ssrc && (
            connection.rtp_streams[i].ssrc == ssrc ==> k <= i),
{
    if !connection.ignores(ssrc) {
        let found = choose|k: int|
            0 <= k < connection.rtp_streams.len() && #[trigger] connection.rtp_streams[k].ssrc
                == ssrc;
        lemma_first_taker(connection, ssrc, found);
    }
    assert forall|k: int| #[trigger] connection.takes(
        k,
        ssrc,
    ) implies connection.rtp_streams[k].ssrc == ssrc && (connection.rtp_streams[i].ssrc == ssrc
        ==> k <= i) by {
        if i < k {
            assert(connection.rtp_streams[i].ssrc != ssrc);
        }
    }
}

proof fn lemma_first_taker(connection: RtpConnectionView, ssrc: u32, found: int)
    requires
        0 <= found < connection.rtp_streams.len(),
        connection.rtp_streams[found].ssrc == ssrc,
    ensures
        exists|k: int| #[trigger] connection.takes(k, ssrc),
    decreases found,
{
    if exists|j: int| 0 <= j < found && #[trigger] connection.rtp_streams[j].ssrc == ssrc {
        let earlier = choose|j: int|
            0 <= j < found && #[trigger] connection.rtp_streams[j].ssrc == ssrc;
        lemma_first_taker(connection, ssrc, earlier);
    } else {
        assert(connection.takes(found, ssrc));
    }
}

/// What was done about a packet, as values: the packet sent, where one is, the time sent back, and
/// what is passed on.
pub proof fn outcomes_tell_what_was_done(
    packet: BytesMut,
    nacks: Option<BytesMut>,
    reply: Vec<u8>,
    relay: Relay,
)
    ensures
        packet_bytes(Some(packet)) == Some(buffer_contents(packet)),
        packet_bytes(None) is None,
        (StreamOutcome::Rtp { nacks, relay })@ == (OutcomeView::Rtp {
            nacks: packet_bytes(nacks),
            relay: relay@,
        }),
        StreamOutcome::Reply(reply)@ == OutcomeView::Reply(reply@),
        StreamOutcome::Rtcp(relay)@ == OutcomeView::Rtcp(relay@),
        relay@.video == relay.video,
        relay@.data == relay.data@,
        relay@.length == relay.length,
        relay@.subscribers == relay.subscribers@,
{
}

/// What arrived is not forgotten: when a packet is pushed that does not start anew, each packet
/// that had arrived either stays among those that wait, or is passed by the end of the sequence,
/// which moves over packets that had arrived, and no others.
pub proof fn pushing_forgets_nothing(tracking: Tracking, seq: u16, x: u16, j: int)
    requires
        tracking.sequence is Some,
        !tracking.pending.contains(seq_at(tracking.last_in_sequence, 1)),
        gap(tracking.last_in_sequence, seq) <= 100,
    ensures
        ({
            let after = tracking.pushed(seq);
            let last = tracking.last_in_sequence;
            let in_order = seq == seq_at(last, 1);
            let advance = if in_order {
                reach(last, after.last_in_sequence)
            } else {
                0
            };
            &&& after.sequence == Some(seq)
            &&& !in_order ==> after.last_in_sequence == last
            &&& after.pending.contains(x) <==> (tracking.pending.contains(x) || x == seq) && reach(
                last,
                x,
            ) > advance
            &&& 1 <= j <= advance ==> tracking.pending.contains(seq_at(last, j)) || seq_at(last, j)
                == seq
            &&& !after.pending.contains(seq_at(after.last_in_sequence, 1))
        }),
{
    let last = tracking.last_in_sequence;
    lemma_reach(last, x);
    lemma_reach(last, seq);
    lemma_reach_of_seq_at(last, 1);
    let after = tracking.pushed(seq);
    if seq == seq_at(last, 1) {
        lemma_absorb(last, seq, tracking.pending);
        lemma_reach(last, after.last_in_sequence);
    } else {
        let arrived = tracking.pending.insert(seq);
        assert(run_end(last, arrived, 0) == 0);
        assert(seq_at(last, 0) == last);
        assert(after.last_in_sequence == last);
    }
}

/// Whether all that waits is at most a hundred ahead of the end of the sequence.
pub open spec fn waits_nearby(tracking: Tracking) -> bool {
    forall|x: u16| #[trigger]
        tracking.pending.contains(x) ==> reach(tracking.last_in_sequence, x) <= 100
}

/// How far it still is, after some steps of the way.
proof fn lemma_ahead(last: u16, advance: int, x: u16)
    requires
        0 <= advance < reach(last, x) <= 100,
    ensures
        reach(seq_at(last, advance), x) == reach(last, x) - advance,
{
    lemma_reach(last, x);
    lemma_seq_at_gap(last, advance, reach(last, x));
    lemma_reach_of_seq_at(seq_at(last, advance), reach(last, x) - advance);
}

/// What was passed is far away.
proof fn lemma_passed(last: u16, advance: int, x: u16)
    requires
        1 <= reach(last, x) <= advance <= 100,
    ensures
        reach(seq_at(last, advance), x) > 100,
{
    let d = reach(last, x);
    lemma_reach(last, x);
    lemma_seq_at_gap(last, d, advance);
}

/// What waits after a push is nearby, and what arrived waits or is far away.
proof fn lemma_waits_nearby(tracking: Tracking, seq: u16, x: u16)
    requires
        tracking.sequence is Some,
        !tracking.pending.contains(seq_at(tracking.last_in_sequence, 1)),
        waits_nearby(tracking),
        1 <= gap(tracking.last_in_sequence, seq) <= 100,
        tracking.pending.contains(x) || x == seq,
    ensures
        waits_nearby(tracking.pushed(seq)),
        tracking.pushed(seq).pending.contains(x) || reach(
            tracking.pushed(seq).last_in_sequence,
            x,
        ) > 100,
{
    let last = tracking.last_in_sequence;
    let after = tracking.pushed(seq);
    let end = after.last_in_sequence;
    let in_order = seq == seq_at(last, 1);
    let advance = if in_order {
        reach(last, end)
    } else {
        0
    };
    assert(reach(last, seq) == gap(last, seq));
    pushing_forgets_nothing(tracking, seq, x, advance);
    lemma_reach(last, end);
    lemma_reach(last, x);
    assert(seq_at(last, advance) == end);
    assert(advance <= 100);
    assert forall|y: u16| #[trigger] after.pending.contains(y) implies reach(end, y) <= 100 by {
        pushing_forgets_nothing(tracking, seq, y, 0);
        lemma_ahead(last, advance, y);
    }
    if reach(last, x) <= advance {
        lemma_passed(last, advance, x);
    }
}

/// What has arrived is never reported as missing: neither what is pushed, nor what had been
/// waiting, whether it still waits or the end of the sequence passed it. No group is headed by it,
/// and no bit but the lowest stands for it. And where no packet is pushed again that ends the
/// sequence, it stays so that all that waits is at most a hundred ahead.
pub proof fn what_arrived_is_not_reported(
    tracking: Tracking,
    seq: u16,
    x: u16,
    g: int,
    place: u16,
)
    requires
        tracking.sequence is Some,
        !tracking.pending.contains(seq_at(tracking.last_in_sequence, 1)),
        gap(tracking.last_in_sequence, seq) <= 100,
        gap(tracking.last_in_sequence, seq) == 1 ==> waits_nearby(tracking),
        tracking.pending.contains(x) || x == seq,
        1 <= place < 16,
    ensures
        !tracking.settled(seq).overdue().contains(x),
        0 <= g < tracking.reported(seq).len() ==> tracking.reported(seq)[g].0 != x,
        0 <= g < tracking.reported(seq).len() && tracking.reported(seq)[g].1 & (1u16 << place) != 0
            ==> x != (tracking.reported(seq)[g].0 + place + 1) % 65536,
        waits_nearby(tracking) && seq != tracking.last_in_sequence ==> waits_nearby(
            tracking.pushed(seq),
        ),
{
    let settled = tracking.settled(seq);
    let overdue = settled.overdue();
    let end = tracking.pushed(seq).last_in_sequence;
    let limit = furthest(end, settled.pending, 65536);
    assert(settled.pending == tracking.pushed(seq).pending && settled.last_in_sequence == end);
    if seq != tracking.last_in_sequence && waits_nearby(tracking) {
        lemma_waits_nearby(tracking, seq, x);
    } else {
        pushing_forgets_nothing(tracking, seq, x, 0);
        lemma_reach(tracking.last_in_sequence, x);
        lemma_reach_of_seq_at(tracking.last_in_sequence, 1);
        assert(settled.pending.contains(x));
    }
    lemma_furthest(end, settled.pending, 65536);
    if limit > 0 {
        lemma_reach_of_seq_at(end, limit as int);
        assert(settled.pending.contains(seq_at(end, limit as int)));
    }
    lemma_missing(end, limit, settled.pending, settled.asked);
    lemma_reach(end, x);
    if 0 <= g < tracking.reported(seq).len() {
        what_is_missing_is_listed_in_order(end, limit, settled.pending, settled.asked, 1);
        assert(overdue.no_duplicates());
        groups_ask_for_nothing_else(overdue, g, place);
    }
}

/// Tracking starts anew with the first packet, and where more than a hundred packets were missed:
/// from then on it is as if that packet were the first. Nothing is reported then.
pub proof fn far_packets_start_anew(tracking: Tracking, seq: u16)
    ensures
        ({
            let anew = tracking.sequence is None || gap(tracking.last_in_sequence, seq) > 100;
            let after = tracking.pushed(seq);
            &&& anew <==> tracking.restarts_at(seq)
            &&& anew ==> tracking.reported(seq).len() == 0
            &&& anew ==> after.last_in_sequence == seq && after.sequence == Some(seq)
            &&& anew && tracking.sequence is Some ==> after.pending == Set::<u16>::empty()
                && after.asked == Set::<u16>::empty()
            &&& tracking.sequence is Some && anew ==> after == Tracking::fresh().pushed(seq)
            &&& Tracking::fresh().sequence is None
            &&& Tracking::fresh().pending == Set::<u16>::empty()
            &&& Tracking::fresh().asked == Set::<u16>::empty()
        }),
{
    let anew = tracking.sequence is Some && gap(tracking.last_in_sequence, seq) > 100;
    if anew {
        assert(tracking.pushed(seq) =~= Tracking::fresh().pushed(seq));
    }
}

/// Once more than sixteen packets wait, all that is missing before the furthest of them has been
/// asked for; before that, nothing is.
pub proof fn missing_packets_are_asked_for_in_time(tracking: Tracking, seq: u16, x: u16)
    requires
        !tracking.restarts_at(seq),
    ensures
        ({
            let after = tracking.pushed(seq);
            let end = after.last_in_sequence;
            let behind = exists|y: u16| #[trigger]
                after.pending.contains(y) && reach(end, x) < reach(end, y);
            &&& after.pending.len() <= 16 ==> tracking.reported(seq).len() == 0
                && after.asked.contains(x) == (tracking.asked.contains(x) && x != seq)
            &&& after.pending.len() > 16 ==> (after.asked.contains(x) <==> (tracking.asked.contains(
                x,
            ) && x != seq) || (behind && !after.pending.contains(x)))
            &&& after.pending.len() > 16 && behind && !after.pending.contains(x) && !(
            tracking.asked.contains(x) && x != seq) ==> tracking.reported(seq).len() > 0
        }),
{
    let settled = tracking.settled(seq);
    let after = tracking.pushed(seq);
    let end = after.last_in_sequence;
    let limit = furthest(end, settled.pending, 65536);
    let overdue = settled.overdue();
    lemma_furthest(end, settled.pending, 65536);
    lemma_missing(end, limit, settled.pending, settled.asked);
    lemma_reach(end, x);
    assert(overdue.to_set().contains(x) <==> overdue.contains(x));
    assert(groups(Seq::<u16>::empty()).len() == 0);
    let behind = exists|y: u16| #[trigger]
        after.pending.contains(y) && reach(end, x) < reach(end, y);
    if behind {
        let y = choose|y: u16| #[trigger]
            after.pending.contains(y) && reach(end, x) < reach(end, y);
        lemma_reach(end, y);
        assert(settled.pending.contains(seq_at(end, reach(end, y))));
        assert(reach(end, y) <= limit);
    }
    if limit > 0 {
        let y = seq_at(end, limit as int);
        lemma_reach_of_seq_at(end, limit as int);
        assert(after.pending.contains(y));
        if reach(end, x) <= limit && !after.pending.contains(x) {
            assert(reach(end, x) < limit);
        }
    }
    lemma_groups_heads(overdue);
    lemma_group_heads(end, limit, settled.pending, settled.asked);
}

/// A packet that is no keyframe is kept behind those that were kept before, all of them and in
/// order; a keyframe takes their place. Nothing else of the stream changes.
pub proof fn packets_are_kept_in_order(
    stream: StreamView,
    ssrc: u32,
    packet: Seq<u8>,
    keyframe: bool,
    other: u32,
)
    ensures
        ({
            let after = stream.with_packet(ssrc, packet, keyframe);
            &&& after.keyframe_buffer.contains_key(ssrc)
            &&& after.keyframe_buffer[ssrc] == after.kept(ssrc)
            &&& after.kept(ssrc).len() > 0
            &&& after.kept(ssrc).last() == packet
            &&& other != ssrc ==> (after.keyframe_buffer.contains_key(other)
                <==> stream.keyframe_buffer.contains_key(other))
            &&& !keyframe ==> after.kept(ssrc).drop_last() == stream.kept(ssrc)
            &&& keyframe ==> after.kept(ssrc).len() == 1
            &&& other != ssrc ==> after.kept(other) == stream.kept(other)
            &&& after.subscribers == stream.subscribers
            &&& after.media_streams == stream.media_streams
            &&& after.id == stream.id && after.port == stream.port && after.peer_addr
                == stream.peer_addr
        }),
{
    let after = stream.with_packet(ssrc, packet, keyframe);
    if !keyframe {
        assert(after.kept(ssrc).drop_last() =~= stream.kept(ssrc));
    }
}

/// The stream after some packets of a source were taken up, one after the other.
pub open spec fn after_packets(stream: StreamView, ssrc: u32, packets: Seq<Seq<u8>>) -> StreamView
    decreases packets.len(),
{
    if packets.len() == 0 {
        stream
    } else {
        with_packet_kept(after_packets(stream, ssrc, packets.drop_last()), ssrc, packets.last())
    }
}

/// What is kept after a keyframe and some packets that are none is the keyframe and all of these
/// packets, in order, whatever was kept before.
pub proof fn all_since_the_keyframe_is_kept(
    stream: StreamView,
    ssrc: u32,
    keyframe: Seq<u8>,
    packets: Seq<Seq<u8>>,
)
    requires
        holds_rtp_header(keyframe),
        is_keyframe(keyframe.skip(payload_start(keyframe))),
        forall|i: int|
            0 <= i < packets.len() ==> holds_rtp_header(#[trigger] packets[i]) && !is_keyframe(
                packets[i].skip(payload_start(packets[i])),
            ),
    ensures
        after_packets(stream, ssrc, seq![keyframe] + packets).kept(ssrc) == seq![keyframe]
            + packets,
    decreases packets.len(),
{
    let all = seq![keyframe] + packets;
    if packets.len() == 0 {
        assert(all =~= seq![keyframe]);
        assert(all.drop_last() =~= Seq::empty());
        assert(after_packets(stream, ssrc, all.drop_last()) == stream);
        packets_are_kept_in_order(stream, ssrc, keyframe, true, ssrc);
        assert(after_packets(stream, ssrc, all).kept(ssrc) =~= all);
    } else {
        all_since_the_keyframe_is_kept(stream, ssrc, keyframe, packets.drop_last());
        assert(all.drop_last() =~= seq![keyframe] + packets.drop_last());
        assert(all.last() == packets[packets.len() - 1]);
        let before = after_packets(stream, ssrc, all.drop_last());
        packets_are_kept_in_order(before, ssrc, all.last(), false, ssrc);
        assert(after_packets(stream, ssrc, all).kept(ssrc) =~= all);
    }
}

/// A packet without a header changes nothing of what is kept.
pub proof fn headerless_packets_are_not_kept(stream: StreamView, ssrc: u32, packet: Seq<u8>)
    requires
        !holds_rtp_header(packet),
    ensures
        with_packet_kept(stream, ssrc, packet) == stream,
        !starts_decoding(packet),
{
}

/// Packets are kept of H.264 video of registered streams that is followed, and of nothing else.
pub proof fn video_of_registered_streams_is_kept(
    receiver: Map<StreamSource, RTPStreamView>,
    router: RouterView,
    source: StreamSource,
)
    ensures
        keeps_packets(receiver, router, source) <==> {
            &&& receiver.contains_key(source)
            &&& router.streams.contains_key(source.0)
            &&& receiver[source].media_stream.content is Video
            &&& receiver[source].media_stream.content->Video_0.codec is H264
        },
{
}

} // verus!
