//! Packets: what is written into one is what is read of it.

use crate::reports::{reports, ReportBlock};
use crate::rtp_receiver;
use crate::rtp_receiver::{
    aggregation_has_parameters, aggregation_walk_ends, is_aggregation, is_keyframe, payload_fits,
    payload_start, well_formed, MuxedRTP, RTCPHeader, RTPExtension, RTPHeader,
};
use crate::rtp_utils;
use crate::rtp_utils::{MuxedRtp, RtcpHeader, RtpExtension, RtpHeader};
use crate::wire::{
    be16, be16_at, be16_reads_back, be32, be32_at, be32_reads_back, clock_packet, csrc_count,
    has_extension, holds_rtp_header, lemma_nack_entries_len, nack_entries, nack_packet,
};
use vstd::prelude::*;

verus! {

/// Integers are written with the most significant byte first.
pub proof fn integers_are_big_endian(n: u16, m: u32)
    ensures
        be16(n).len() == 2,
        be16(n)[0] * 0x100 + be16(n)[1] == n,
        be32(m).len() == 4,
        be32(m)[0] * 0x100_0000 + be32(m)[1] * 0x1_0000 + be32(m)[2] * 0x100 + be32(m)[3] == m,
{
}

/// What is read of bytes as an integer is written as these bytes.
pub proof fn bytes_are_written_back(bytes: Seq<u8>, at: int)
    requires
        0 <= at,
        at + 4 <= bytes.len(),
    ensures
        be16(be16_at(bytes, at)) == bytes.subrange(at, at + 2),
        be32(be32_at(bytes, at)) == bytes.subrange(at, at + 4),
{
    assert(be16(be16_at(bytes, at)) =~= bytes.subrange(at, at + 2));
    assert(be32(be32_at(bytes, at)) =~= bytes.subrange(at, at + 4));
}

/// Whether the first byte of an RTP packet has the flag that is taken for that of an extension.
pub open spec fn flags_extension(first: u8) -> bool {
    first / 8 % 2 == 1
}

/// An RTP packet: its first byte and its kind, the sequence number, a timestamp, the source, and
/// all that follows.
pub open spec fn rtp_packet(
    first: u8,
    kind: u8,
    seq_nr: u16,
    timestamp: u32,
    ssrc: u32,
    rest: Seq<u8>,
) -> Seq<u8> {
    seq![first, kind] + be16(seq_nr) + be32(timestamp) + be32(ssrc) + rest
}

/// An RTCP packet: its first byte and its kind, its length, the source, and all that follows.
pub open spec fn rtcp_packet(first: u8, kind: u8, length: u16, ssrc: u32, rest: Seq<u8>) -> Seq<
    u8,
> {
    seq![first, kind] + be16(length) + be32(ssrc) + rest
}

proof fn lemma_first_byte(first: u8)
    ensures
        first & 0b00001111 == first % 16,
        first & 0b0001000 > 0 <==> flags_extension(first),
        first & 0x1F == first % 32,
{
    assert(first & 0b00001111 == first % 16) by (bit_vector);
    assert(first & 0b0001000 > 0 <==> first / 8 % 2 == 1) by (bit_vector);
    assert(first & 0x1F == first % 32) by (bit_vector);
}

proof fn lemma_rtp_packet(
    first: u8,
    kind: u8,
    seq_nr: u16,
    timestamp: u32,
    ssrc: u32,
    rest: Seq<u8>,
)
    ensures
        ({
            let packet = rtp_packet(first, kind, seq_nr, timestamp, ssrc, rest);
            &&& packet.len() == 12 + rest.len()
            &&& packet[0] == first
            &&& packet[1] == kind
            &&& be16_at(packet, 2) == seq_nr
            &&& be32_at(packet, 8) == ssrc
            &&& csrc_count(packet) == first % 16
            &&& has_extension(packet) == flags_extension(first)
            &&& packet.skip(12) == rest
        }),
{
    let packet = rtp_packet(first, kind, seq_nr, timestamp, ssrc, rest);
    lemma_first_byte(first);
    be16_reads_back(seq![first, kind], seq_nr, be32(timestamp) + be32(ssrc) + rest);
    assert(packet =~= seq![first, kind] + be16(seq_nr) + (be32(timestamp) + be32(ssrc) + rest));
    be32_reads_back(seq![first, kind] + be16(seq_nr) + be32(timestamp), ssrc, rest);
    assert(packet.skip(12) =~= rest);
}

/// The header that is written into an RTP packet without an extension is read of it, whatever
/// follows; the source in all its 32 bits.
pub proof fn rtp_headers_are_read_as_written(
    first: u8,
    kind: u8,
    seq_nr: u16,
    timestamp: u32,
    ssrc: u32,
    rest: Seq<u8>,
)
    requires
        !flags_extension(first),
    ensures
        rtp_utils::rtp_header(rtp_packet(first, kind, seq_nr, timestamp, ssrc, rest)) == Some(
            RtpHeader {
                payload_type: kind,
                seq_nr,
                ssrc,
                csrc_count: first % 16,
                extension: None,
            },
        ),
        rtp_receiver::rtp_header(rtp_packet(first, kind, seq_nr, timestamp, ssrc, rest)) == Some(
            RTPHeader {
                payload_type: kind,
                seq_nr,
                ssrc,
                csrc_count: first % 16,
                extension: None,
            },
        ),
{
    lemma_rtp_packet(first, kind, seq_nr, timestamp, ssrc, rest);
}

/// The header that is written into an RTP packet with an extension is read of it, with the
/// identifier and the length of the extension, which stand behind the contributing sources.
pub proof fn extended_headers_are_read_as_written(
    first: u8,
    kind: u8,
    seq_nr: u16,
    timestamp: u32,
    ssrc: u32,
    sources: Seq<u8>,
    id: u16,
    length: u16,
    rest: Seq<u8>,
)
    requires
        flags_extension(first),
        sources.len() == 4 * (first % 16),
    ensures
        ({
            let packet = rtp_packet(
                first,
                kind,
                seq_nr,
                timestamp,
                ssrc,
                sources + be16(id) + be16(length) + rest,
            );
            &&& rtp_utils::rtp_header(packet) == Some(
                RtpHeader {
                    payload_type: kind,
                    seq_nr,
                    ssrc,
                    csrc_count: first % 16,
                    extension: Some(RtpExtension { id, length }),
                },
            )
            &&& rtp_receiver::rtp_header(packet) == Some(
                RTPHeader {
                    payload_type: kind,
                    seq_nr,
                    ssrc,
                    csrc_count: first % 16,
                    extension: Some(RTPExtension { id, length }),
                },
            )
        }),
{
    lemma_extended_packet(first, kind, seq_nr, timestamp, ssrc, sources, id, length, rest);
}

proof fn lemma_extended_packet(
    first: u8,
    kind: u8,
    seq_nr: u16,
    timestamp: u32,
    ssrc: u32,
    sources: Seq<u8>,
    id: u16,
    length: u16,
    rest: Seq<u8>,
)
    requires
        flags_extension(first),
        sources.len() == 4 * (first % 16),
    ensures
        ({
            let behind = sources + be16(id) + be16(length) + rest;
            let packet = rtp_packet(first, kind, seq_nr, timestamp, ssrc, behind);
            &&& packet.len() == 16 + sources.len() + rest.len()
            &&& packet[0] == first
            &&& packet[1] == kind
            &&& be16_at(packet, 2) == seq_nr
            &&& be32_at(packet, 8) == ssrc
            &&& csrc_count(packet) == first % 16
            &&& has_extension(packet)
            &&& be16_at(packet, 12 + sources.len() as int) == id
            &&& be16_at(packet, 14 + sources.len() as int) == length
            &&& packet.skip(16 + sources.len() as int) == rest
        }),
{
    let behind = sources + be16(id) + be16(length) + rest;
    let packet = rtp_packet(first, kind, seq_nr, timestamp, ssrc, behind);
    let fixed = rtp_packet(first, kind, seq_nr, timestamp, ssrc, Seq::empty());
    lemma_rtp_packet(first, kind, seq_nr, timestamp, ssrc, behind);
    lemma_rtp_packet(first, kind, seq_nr, timestamp, ssrc, Seq::empty());
    be16_reads_back(fixed + sources, id, be16(length) + rest);
    assert(packet =~= fixed + sources + be16(id) + (be16(length) + rest));
    be16_reads_back(fixed + sources + be16(id), length, rest);
    assert(packet =~= fixed + sources + be16(id) + be16(length) + rest);
    assert(packet.skip(16 + sources.len() as int) =~= rest);
}

/// There is a header in every packet that is long enough for one, and in no other: twelve bytes,
/// and with an extension the contributing sources and four bytes more.
pub proof fn long_enough_packets_have_headers(packet: Seq<u8>)
    ensures
        ({
            let long_enough = packet.len() >= 12 && (flags_extension(packet[0]) ==> packet.len()
                >= 16 + 4 * (packet[0] % 16));
            &&& holds_rtp_header(packet) <==> long_enough
            &&& rtp_utils::rtp_header(packet) is Some <==> long_enough
            &&& rtp_receiver::rtp_header(packet) is Some <==> long_enough
            &&& rtp_utils::rtcp_header(packet) is Some <==> packet.len() >= 8
            &&& rtp_receiver::rtcp_header(packet) is Some <==> packet.len() >= 8
        }),
{
    lemma_first_byte(packet[0]);
}

/// The header that is written into an RTCP packet is read of it, whatever follows.
pub proof fn rtcp_headers_are_read_as_written(
    first: u8,
    kind: u8,
    length: u16,
    ssrc: u32,
    rest: Seq<u8>,
)
    ensures
        rtp_utils::rtcp_header(rtcp_packet(first, kind, length, ssrc, rest)) == Some(
            RtcpHeader { payload_type: kind, ssrc },
        ),
        rtp_receiver::rtcp_header(rtcp_packet(first, kind, length, ssrc, rest)) == Some(
            RTCPHeader { payload_type: kind, ssrc },
        ),
{
    let packet = rtcp_packet(first, kind, length, ssrc, rest);
    be32_reads_back(seq![first, kind] + be16(length), ssrc, rest);
    assert(packet =~= seq![first, kind] + be16(length) + be32(ssrc) + rest);
}

/// A packet is RTCP by its kind, and anything else is RTP; each has the header of its sort.
pub proof fn kinds_tell_packets_apart(packet: Seq<u8>)
    requires
        packet.len() >= 8,
    ensures
        ({
            let kind = packet[1];
            let rtcp = kind == 194 || kind == 195 || 200 <= kind && kind <= 213;
            &&& rtcp ==> rtp_utils::muxed_header(packet) == Some(
                MuxedRtp::RTCP(rtp_utils::rtcp_header(packet)->0),
            )
            &&& rtcp ==> rtp_receiver::muxed_header(packet) == Some(
                MuxedRTP::RTCP(rtp_receiver::rtcp_header(packet)->0),
            )
            &&& !rtcp ==> match rtp_utils::rtp_header(packet) {
                Some(header) => rtp_utils::muxed_header(packet) == Some(MuxedRtp::RTP(header)),
                None => rtp_utils::muxed_header(packet) is None,
            }
            &&& !rtcp ==> match rtp_receiver::rtp_header(packet) {
                Some(header) => rtp_receiver::muxed_header(packet) == Some(
                    MuxedRTP::RTP(header),
                ),
                None => rtp_receiver::muxed_header(packet) is None,
            }
        }),
{
}

/// A packet of less than eight bytes is of neither kind.
pub proof fn short_packets_are_of_no_kind(packet: Seq<u8>)
    requires
        packet.len() < 8,
    ensures
        rtp_utils::muxed_header(packet) is None,
        rtp_receiver::muxed_header(packet) is None,
{
}

/// The source that is written into a packet of either kind is the source that it belongs to.
pub proof fn packets_belong_to_the_source_written(
    first: u8,
    kind: u8,
    number: u16,
    timestamp: u32,
    ssrc: u32,
    rest: Seq<u8>,
)
    requires
        !flags_extension(first),
    ensures
        ({
            let rtcp = kind == 194 || kind == 195 || 200 <= kind && kind <= 213;
            let packet = if rtcp {
                rtcp_packet(first, kind, number, ssrc, rest)
            } else {
                rtp_packet(first, kind, number, timestamp, ssrc, rest)
            };
            &&& rtp_utils::muxed_header(packet) matches Some(header) && header.source() == ssrc
                && (header is RTP <==> !rtcp) && (header matches MuxedRtp::RTP(rtp) ==> rtp.ssrc
                == ssrc && rtp.seq_nr == number)
            &&& rtp_receiver::muxed_header(packet) is Some
            &&& !rtcp ==> (rtp_receiver::muxed_header(packet)->0 matches MuxedRTP::RTP(rtp)
                && rtp.ssrc == ssrc && rtp.seq_nr == number)
            &&& rtcp ==> (rtp_receiver::muxed_header(packet)->0 matches MuxedRTP::RTCP(rtp)
                && rtp.ssrc == ssrc)
        }),
{
    rtcp_headers_are_read_as_written(first, kind, number, ssrc, rest);
    rtp_headers_are_read_as_written(first, kind, number, timestamp, ssrc, rest);
}

/// The payload that is written behind the header of an RTP packet is the payload of it.
pub proof fn payloads_are_read_as_written(
    first: u8,
    kind: u8,
    seq_nr: u16,
    timestamp: u32,
    ssrc: u32,
    sources: Seq<u8>,
    payload: Seq<u8>,
)
    requires
        !flags_extension(first),
        sources.len() == 4 * (first % 16),
    ensures
        ({
            let packet = rtp_packet(first, kind, seq_nr, timestamp, ssrc, sources + payload);
            &&& holds_rtp_header(packet)
            &&& payload_fits(packet)
            &&& packet.skip(payload_start(packet)) == payload
        }),
{
    let packet = rtp_packet(first, kind, seq_nr, timestamp, ssrc, sources + payload);
    lemma_rtp_packet(first, kind, seq_nr, timestamp, ssrc, sources + payload);
    assert(packet.skip(payload_start(packet)) =~= payload);
}

/// The payload that is written behind the extension of an RTP packet is the payload of it. The
/// extension is as many bytes long as it says.
pub proof fn payloads_follow_the_extension(
    first: u8,
    kind: u8,
    seq_nr: u16,
    timestamp: u32,
    ssrc: u32,
    sources: Seq<u8>,
    id: u16,
    extension: Seq<u8>,
    payload: Seq<u8>,
)
    requires
        flags_extension(first),
        sources.len() == 4 * (first % 16),
        extension.len() <= u16::MAX,
    ensures
        ({
            let packet = rtp_packet(
                first,
                kind,
                seq_nr,
                timestamp,
                ssrc,
                sources + be16(id) + be16(extension.len() as u16) + (extension + payload),
            );
            &&& holds_rtp_header(packet)
            &&& payload_fits(packet)
            &&& packet.skip(payload_start(packet)) == payload
        }),
{
    let length = extension.len() as u16;
    let behind = sources + be16(id) + be16(length) + (extension + payload);
    let packet = rtp_packet(first, kind, seq_nr, timestamp, ssrc, behind);
    lemma_extended_packet(
        first,
        kind,
        seq_nr,
        timestamp,
        ssrc,
        sources,
        id,
        length,
        extension + payload,
    );
    let start = 16 + sources.len() + extension.len();
    assert(payload_start(packet) == start);
    assert(packet.skip(start as int) =~= packet.skip(16 + sources.len() as int).skip(
        extension.len() as int,
    ));
    assert((extension + payload).skip(extension.len() as int) =~= payload);
}

/// A packet is long enough for its header exactly where the contributing sources and the
/// extension end before it does.
pub proof fn packets_fit_their_headers(packet: Seq<u8>)
    requires
        holds_rtp_header(packet),
    ensures
        payload_fits(packet) <==> packet.len() >= if flags_extension(packet[0]) {
            16 + 4 * (packet[0] % 16) + be16_at(packet, 14 + 4 * (packet[0] % 16))
        } else {
            12 + 4 * (packet[0] % 16)
        },
{
    lemma_first_byte(packet[0]);
}

/// A report of missing packets is a generic NACK of version 2, for its source, and each of its
/// entries is read of it as it was written.
pub proof fn nack_entries_are_read_as_written(ssrc: u32, entries: Seq<(u16, u16)>, i: int)
    requires
        0 <= i < entries.len(),
    ensures
        ({
            let packet = nack_packet(ssrc, entries);
            &&& packet.len() == 12 + 4 * entries.len()
            &&& packet[0] == 0x81
            &&& packet[1] == 205
            &&& be32_at(packet, 4) == 0
            &&& be32_at(packet, 8) == ssrc
            &&& be16_at(packet, 12 + 4 * i) == entries[i].0
            &&& be16_at(packet, 14 + 4 * i) == entries[i].1
        }),
{
    let packet = nack_packet(ssrc, entries);
    let length = (2 + entries.len()) as u16;
    let fixed = seq![0x81u8, 205u8] + be16(length) + be32(0) + be32(ssrc);
    lemma_nack_entries_len(entries);
    be32_reads_back(
        seq![0x81u8, 205u8] + be16(length),
        0,
        be32(ssrc) + nack_entries(entries),
    );
    assert(packet =~= seq![0x81u8, 205u8] + be16(length) + be32(0) + (be32(ssrc) + nack_entries(
        entries,
    )));
    be32_reads_back(
        seq![0x81u8, 205u8] + be16(length) + be32(0),
        ssrc,
        nack_entries(entries),
    );
    lemma_entry(fixed, entries, i);
    assert(packet =~= fixed + nack_entries(entries));
}

proof fn lemma_entry(before: Seq<u8>, entries: Seq<(u16, u16)>, i: int)
    requires
        0 <= i < entries.len(),
    ensures
        be16_at(before + nack_entries(entries), before.len() + 4 * i) == entries[i].0,
        be16_at(before + nack_entries(entries), before.len() + 4 * i + 2) == entries[i].1,
    decreases entries.len(),
{
    let earlier = entries.drop_last();
    let (head, bits) = entries.last();
    let all = before + nack_entries(entries);
    let at = before.len() + 4 * i;
    lemma_nack_entries_len(earlier);
    lemma_nack_entries_len(entries);
    if i == entries.len() - 1 {
        let written = before + nack_entries(earlier);
        be16_reads_back(written, head, be16(bits));
        be16_reads_back(written + be16(head), bits, Seq::empty());
        assert(all =~= written + be16(head) + be16(bits));
        assert(all =~= written + be16(head) + be16(bits) + Seq::<u8>::empty());
    } else {
        lemma_entry(before, earlier, i);
        let shorter = before + nack_entries(earlier);
        assert(all[at] == shorter[at] && all[at + 1] == shorter[at + 1] && all[at + 2] == shorter[at
            + 2] && all[at + 3] == shorter[at + 3]);
    }
}

/// The reply to a sender report has version 2, one block and the type 250, and the time that is
/// written into it is read of it.
pub proof fn the_time_is_read_as_written(seconds: u32, nanoseconds: u32)
    ensures
        ({
            let packet = clock_packet(seconds, nanoseconds);
            &&& packet.len() == 12
            &&& packet[0] == 0x81
            &&& packet[1] == 250
            &&& be16_at(packet, 2) == 0
            &&& be32_at(packet, 4) == seconds
            &&& be32_at(packet, 8) == nanoseconds
        }),
{
    let packet = clock_packet(seconds, nanoseconds);
    be32_reads_back(seq![0x81u8, 250u8, 0u8, 0u8], seconds, be32(nanoseconds));
    be32_reads_back(seq![0x81u8, 250u8, 0u8, 0u8] + be32(seconds), nanoseconds, Seq::empty());
    assert(packet =~= seq![0x81u8, 250u8, 0u8, 0u8] + be32(seconds) + be32(nanoseconds)
        + Seq::<u8>::empty());
}

/// A payload that aggregates nothing is a keyframe where it is a sequence parameter set, or a
/// fragment of one.
pub proof fn keyframes_carry_parameters(payload: Seq<u8>)
    requires
        payload.len() < 6 || payload[0] % 32 != 24,
    ensures
        is_keyframe(payload) <==> payload.len() >= 6 && (payload[0] % 32 == 7 || (payload[0] % 32
            == 28 || payload[0] % 32 == 29) && payload[1] % 32 == 7),
        !is_aggregation(payload),
{
    if payload.len() >= 6 {
        lemma_first_byte(payload[0]);
        lemma_first_byte(payload[1]);
    }
}

/// Whether `offsets` are where the units of an aggregation are met, one after the other: each is
/// as far behind the one before it as the two bytes there say, and none but the last one is a
/// sequence parameter set.
pub open spec fn is_walk(payload: Seq<u8>, offsets: Seq<int>) -> bool {
    &&& offsets.len() > 0
    &&& offsets[0] == 1
    &&& forall|i: int|
        0 <= i < offsets.len() ==> 1 <= #[trigger] offsets[i] && offsets[i] + 2 < payload.len()
    &&& forall|i: int|
        0 <= i < offsets.len() - 1 ==> payload[#[trigger] offsets[i] + 2] % 32 != 7 && offsets[i
            + 1] == offsets[i] + payload[offsets[i]] * 256 + payload[offsets[i] + 1]
}

/// An aggregation is a keyframe exactly where a walk over its units meets a sequence parameter
/// set.
pub proof fn aggregated_keyframes_carry_parameters(payload: Seq<u8>)
    requires
        payload.len() >= 6,
        payload[0] % 32 == 24,
    ensures
        is_aggregation(payload),
        is_keyframe(payload) <==> exists|offsets: Seq<int>| #[trigger]
            is_walk(payload, offsets) && payload[offsets.last() + 2] % 32 == 7 && forall|i: int|
                0 <= i < offsets.len() - 1 ==> #[trigger] offsets[i] < offsets[i + 1],
{
    lemma_first_byte(payload[0]);
    let first = seq![1int];
    assert(is_walk(payload, first));
    if aggregation_has_parameters(payload, 1) {
        let offsets = lemma_walk_found(payload, first);
        assert(is_walk(payload, offsets));
    }
    if exists|offsets: Seq<int>| #[trigger]
        is_walk(payload, offsets) && payload[offsets.last() + 2] % 32 == 7 && forall|i: int|
            0 <= i < offsets.len() - 1 ==> #[trigger] offsets[i] < offsets[i + 1] {
        let offsets = choose|offsets: Seq<int>| #[trigger]
            is_walk(payload, offsets) && payload[offsets.last() + 2] % 32 == 7 && forall|i: int|
                0 <= i < offsets.len() - 1 ==> #[trigger] offsets[i] < offsets[i + 1];
        lemma_walk_counts(payload, offsets, 0);
    }
}

proof fn lemma_walk_found(payload: Seq<u8>, walked: Seq<int>) -> (offsets: Seq<int>)
    requires
        is_walk(payload, walked),
        aggregation_has_parameters(payload, walked.last()),
        forall|i: int| 0 <= i < walked.len() - 1 ==> #[trigger] walked[i] < walked[i + 1],
    ensures
        is_walk(payload, offsets),
        payload[offsets.last() + 2] % 32 == 7,
        forall|i: int| 0 <= i < offsets.len() - 1 ==> #[trigger] offsets[i] < offsets[i + 1],
    decreases payload.len() - walked.last(),
{
    let at = walked.last();
    lemma_first_byte(payload[at + 2]);
    if payload[at + 2] % 32 == 7 {
        walked
    } else {
        let next = at + be16_at(payload, at);
        let longer = walked.push(next);
        assert(aggregation_has_parameters(payload, next));
        assert(next + 2 < payload.len());
        assert forall|i: int| 0 <= i < longer.len() - 1 implies payload[#[trigger] longer[i] + 2]
            % 32 != 7 && longer[i + 1] == longer[i] + payload[longer[i]] * 256 + payload[longer[i]
            + 1] by {
            assert(longer[i] == walked[i]);
            if i < walked.len() - 1 {
                assert(longer[i + 1] == walked[i + 1]);
            }
        }
        assert forall|i: int| 0 <= i < longer.len() - 1 implies #[trigger] longer[i] < longer[i
            + 1] by {
            assert(longer[i] == walked[i]);
            if i < walked.len() - 1 {
                assert(longer[i + 1] == walked[i + 1]);
            }
        }
        lemma_walk_found(payload, longer)
    }
}

proof fn lemma_walk_counts(payload: Seq<u8>, offsets: Seq<int>, i: int)
    requires
        is_walk(payload, offsets),
        payload[offsets.last() + 2] % 32 == 7,
        forall|k: int| 0 <= k < offsets.len() - 1 ==> #[trigger] offsets[k] < offsets[k + 1],
        0 <= i < offsets.len(),
    ensures
        aggregation_has_parameters(payload, offsets[i]),
    decreases offsets.len() - i,
{
    let at = offsets[i];
    lemma_first_byte(payload[at + 2]);
    if i < offsets.len() - 1 {
        lemma_walk_counts(payload, offsets, i + 1);
        assert(offsets[i + 1] == at + be16_at(payload, at));
        assert(offsets[i] < offsets[i + 1]);
    }
}

/// A packet that is shorter than its header says cannot be looked into for a keyframe; of one
/// without a header there is nothing to look into.
pub proof fn cut_off_packets_are_malformed(packet: Seq<u8>)
    ensures
        !payload_fits(packet) ==> !well_formed(packet) && holds_rtp_header(packet),
        !holds_rtp_header(packet) ==> well_formed(packet),
{
}

/// A packet can be looked into for a keyframe unless it is shorter than its header says, or
/// aggregates units of which a walk meets one of length zero, before any sequence parameter set.
pub proof fn malformed_packets_have_endless_walks(packet: Seq<u8>)
    requires
        holds_rtp_header(packet),
        payload_fits(packet),
    ensures
        ({
            let payload = packet.skip(payload_start(packet));
            !well_formed(packet) <==> payload.len() >= 6 && payload[0] % 32 == 24 && exists|
                offsets: Seq<int>,
            | #[trigger]
                is_walk(payload, offsets) && payload[offsets.last() + 2] % 32 != 7
                    && payload[offsets.last()] == 0 && payload[offsets.last() + 1] == 0 && forall|
                    i: int,
                |
                    0 <= i < offsets.len() - 1 ==> #[trigger] offsets[i] < offsets[i + 1]
        }),
{
    let payload = packet.skip(payload_start(packet));
    if payload.len() >= 6 {
        lemma_first_byte(payload[0]);
        if payload[0] % 32 == 24 {
            let first = seq![1int];
            assert(is_walk(payload, first));
            if !aggregation_walk_ends(payload, 1) {
                let offsets = lemma_walk_stuck(payload, first);
                assert(is_walk(payload, offsets));
            }
            if exists|offsets: Seq<int>| #[trigger]
                is_walk(payload, offsets) && payload[offsets.last() + 2] % 32 != 7
                    && payload[offsets.last()] == 0 && payload[offsets.last() + 1] == 0 && forall|
                    i: int,
                |
                    0 <= i < offsets.len() - 1 ==> #[trigger] offsets[i] < offsets[i + 1] {
                let offsets = choose|offsets: Seq<int>| #[trigger]
                    is_walk(payload, offsets) && payload[offsets.last() + 2] % 32 != 7
                        && payload[offsets.last()] == 0 && payload[offsets.last() + 1] == 0
                        && forall|i: int|
                        0 <= i < offsets.len() - 1 ==> #[trigger] offsets[i] < offsets[i + 1];
                lemma_stuck_walk_never_ends(payload, offsets, 0);
            }
        }
    }
}

proof fn lemma_walk_stuck(payload: Seq<u8>, walked: Seq<int>) -> (offsets: Seq<int>)
    requires
        is_walk(payload, walked),
        !aggregation_walk_ends(payload, walked.last()),
        forall|i: int| 0 <= i < walked.len() - 1 ==> #[trigger] walked[i] < walked[i + 1],
    ensures
        is_walk(payload, offsets),
        payload[offsets.last() + 2] % 32 != 7,
        payload[offsets.last()] == 0,
        payload[offsets.last() + 1] == 0,
        forall|i: int| 0 <= i < offsets.len() - 1 ==> #[trigger] offsets[i] < offsets[i + 1],
    decreases payload.len() - walked.last(),
{
    let at = walked.last();
    lemma_first_byte(payload[at + 2]);
    if be16_at(payload, at) == 0 {
        walked
    } else {
        let next = at + be16_at(payload, at);
        let longer = walked.push(next);
        assert(next < payload.len());
        assert(!aggregation_walk_ends(payload, next));
        assert(next + 2 < payload.len());
        assert forall|i: int| 0 <= i < longer.len() - 1 implies payload[#[trigger] longer[i] + 2]
            % 32 != 7 && longer[i + 1] == longer[i] + payload[longer[i]] * 256 + payload[longer[i]
            + 1] by {
            assert(longer[i] == walked[i]);
            if i < walked.len() - 1 {
                assert(longer[i + 1] == walked[i + 1]);
            }
        }
        assert forall|i: int| 0 <= i < longer.len() - 1 implies #[trigger] longer[i] < longer[i
            + 1] by {
            assert(longer[i] == walked[i]);
            if i < walked.len() - 1 {
                assert(longer[i + 1] == walked[i + 1]);
            }
        }
        lemma_walk_stuck(payload, longer)
    }
}

proof fn lemma_stuck_walk_never_ends(payload: Seq<u8>, offsets: Seq<int>, i: int)
    requires
        is_walk(payload, offsets),
        payload[offsets.last() + 2] % 32 != 7,
        payload[offsets.last()] == 0,
        payload[offsets.last() + 1] == 0,
        forall|k: int| 0 <= k < offsets.len() - 1 ==> #[trigger] offsets[k] < offsets[k + 1],
        0 <= i < offsets.len(),
    ensures
        !aggregation_walk_ends(payload, offsets[i]),
    decreases offsets.len() - i,
{
    let at = offsets[i];
    lemma_first_byte(payload[at + 2]);
    if i < offsets.len() - 1 {
        lemma_stuck_walk_never_ends(payload, offsets, i + 1);
        assert(offsets[i + 1] == at + be16_at(payload, at));
        assert(offsets[i] < offsets[i + 1]);
        assert(offsets[i + 1] + 2 < payload.len());
    }
}

/// A report is read as it was written: eight numbers, and what follows them.
pub proof fn reports_are_read_as_written(
    block: ReportBlock,
    ssrc: u32,
    fraction_lost: u8,
    packets_lost: u32,
    cycles: u16,
    sequence: u16,
    jitter: u32,
    timestamp: u32,
    delay: u32,
    rest: Seq<u8>,
)
    requires
        packets_lost < 0x100_0000,
    ensures
        reports(
            block,
            be32(ssrc) + seq![fraction_lost] + be32(packets_lost).skip(1) + be16(cycles) + be16(
                sequence,
            ) + be32(jitter) + be32(timestamp) + be32(delay) + rest,
        ) <==> {
            &&& block.ssrc == ssrc
            &&& block.fraction_lost == fraction_lost
            &&& block.cumulative_pkts_lost == packets_lost
            &&& block.cycles == cycles
            &&& block.sequence == sequence
            &&& block.interarrival_jitter == jitter
            &&& block.last_sr_timestamp == timestamp
            &&& block.last_sr_delay == delay
            &&& block.payload@ == rest
        },
{
    let bytes = be32(ssrc) + seq![fraction_lost] + be32(packets_lost).skip(1) + be16(cycles) + be16(
        sequence,
    ) + be32(jitter) + be32(timestamp) + be32(delay) + rest;
    integers_are_big_endian(cycles, ssrc);
    integers_are_big_endian(sequence, packets_lost);
    integers_are_big_endian(0, jitter);
    integers_are_big_endian(0, timestamp);
    integers_are_big_endian(0, delay);
    assert(bytes.len() == 24 + rest.len());
    assert(be32_at(bytes, 0) == ssrc);
    assert(bytes[4] == fraction_lost);
    assert(bytes[5] == be32(packets_lost)[1] && bytes[6] == be32(packets_lost)[2] && bytes[7]
        == be32(packets_lost)[3]);
    assert(be16_at(bytes, 8) == cycles);
    assert(be16_at(bytes, 10) == sequence);
    assert(be32_at(bytes, 12) == jitter);
    assert(be32_at(bytes, 16) == timestamp);
    assert(be32_at(bytes, 20) == delay);
    assert(bytes.skip(24) =~= rest);
}

/// What is too short for a report holds none.
pub proof fn short_reports_are_none(block: ReportBlock, bytes: Seq<u8>)
    requires
        bytes.len() < 24,
    ensures
        !reports(block, bytes),
{
}

} // verus!
