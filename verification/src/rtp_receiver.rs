//! The single-threaded receiver: it answers sender reports, asks for packets
//! that are missing and keeps the packets that a decoder can start from.

use crate::receiver_stream::{RTPStream, RTPStreamView};
use crate::router::{Router, RouterView, StreamView};
use crate::rpc::{MediaStream, MediaStreamContent, SocketAddr, StreamId, VideoCodec};
use crate::rtp_connection::{build_relay, relay_of, Clock, Relay};
use crate::sequence::{furthest, lemma_furthest, lemma_group_heads, lemma_groups_heads};
use crate::wire::{
    be16, be16_at, be32, be32_at, build_clock_packet, clock_packet, csrc_count, extension_head,
    holds_rtp_header, is_rtcp_type, nack_entries, nack_packet, push_be16, push_be32, read_be16,
    read_be32, read_extension_head,
};
use std::collections::HashMap;
use vstd::prelude::*;
use vstd::slice::slice_subrange;

verus! {

/// What is read of the header of an RTP packet.
#[derive(Debug, Clone, Copy, PartialEq, Eq, Structural)]
pub struct RTPHeader {
    pub payload_type: u8,
    pub seq_nr: u16,
    pub ssrc: u32,
    pub csrc_count: u8,
    pub extension: Option<RTPExtension>,
}

/// The head of the header extension of an RTP packet.
#[derive(Debug, Clone, Copy, PartialEq, Eq, Structural)]
pub struct RTPExtension {
    pub id: u16,
    pub length: u16,
}

/// The header of an RTP packet, where there is one.
pub open spec fn rtp_header(packet: Seq<u8>) -> Option<RTPHeader> {
    if holds_rtp_header(packet) {
        Some(
            RTPHeader {
                payload_type: packet[1],
                seq_nr: be16_at(packet, 2),
                ssrc: be32_at(packet, 8),
                csrc_count: csrc_count(packet),
                extension: match extension_head(packet) {
                    Some((id, length)) => Some(RTPExtension { id, length }),
                    None => None,
                },
            },
        )
    } else {
        None
    }
}

impl RTPHeader {
    /// Reads the header of an RTP packet.
    pub fn parse(input: &[u8]) -> (header: Option<RTPHeader>)
        ensures
            header == rtp_header(input@),
    {
        if input.len() < 12 {
            return None;
        }
        let extension = match read_extension_head(input) {
            None => {
                return None;
            },
            Some(Some((id, length))) => Some(RTPExtension { id, length }),
            Some(None) => None,
        };
        Some(
            RTPHeader {
                payload_type: input[1],
                seq_nr: read_be16(input, 2),
                ssrc: read_be32(input, 8),
                csrc_count: input[0] & 0b00001111,
                extension,
            },
        )
    }
}

/// What is read of the header of an RTCP packet.
#[derive(Debug, Clone, Copy, PartialEq, Eq, Structural)]
pub struct RTCPHeader {
    pub payload_type: u8,
    pub ssrc: u32,
}

/// The header of an RTCP packet, where there is one.
pub open spec fn rtcp_header(packet: Seq<u8>) -> Option<RTCPHeader> {
    if packet.len() >= 8 {
        Some(RTCPHeader { payload_type: packet[1], ssrc: be32_at(packet, 4) })
    } else {
        None
    }
}

impl RTCPHeader {
    /// Reads the header of an RTCP packet.
    pub fn parse(input: &[u8]) -> (header: Option<RTCPHeader>)
        ensures
            header == rtcp_header(input@),
    {
        if input.len() < 8 {
            return None;
        }
        Some(RTCPHeader { payload_type: input[1], ssrc: read_be32(input, 4) })
    }
}

/// The header of a packet that arrived where both kinds arrive.
#[derive(Debug, Clone, Copy, PartialEq, Eq, Structural)]
pub enum MuxedRTP {
    RTP(RTPHeader),
    RTCP(RTCPHeader),
}

/// The header of a packet of either kind, where there is one.
pub open spec fn muxed_header(packet: Seq<u8>) -> Option<MuxedRTP> {
    if packet.len() < 8 {
        None
    } else if is_rtcp_type(packet[1]) {
        match rtcp_header(packet) {
            Some(rtcp) => Some(MuxedRTP::RTCP(rtcp)),
            None => None,
        }
    } else {
        match rtp_header(packet) {
            Some(rtp) => Some(MuxedRTP::RTP(rtp)),
            None => None,
        }
    }
}

impl MuxedRTP {
    /// The source that the packet belongs to.
    pub fn ssrc(&self) -> (ssrc: u32)
        ensures
            ssrc == match *self {
                MuxedRTP::RTCP(rtcp) => rtcp.ssrc,
                MuxedRTP::RTP(rtp) => rtp.ssrc,
            },
    {
        match self {
            MuxedRTP::RTCP(rtcp) => rtcp.ssrc,
            MuxedRTP::RTP(rtp) => rtp.ssrc,
        }
    }

    /// The sequence number of an RTP packet; zero for RTCP, which has none.
    pub fn seq_nr(&self) -> (seq_nr: u16)
        ensures
            seq_nr == match *self {
                MuxedRTP::RTCP(_) => 0,
                MuxedRTP::RTP(rtp) => rtp.seq_nr,
            },
    {
        match self {
            MuxedRTP::RTCP(_) => 0,
            MuxedRTP::RTP(rtp) => rtp.seq_nr,
        }
    }

    /// Reads the header of a packet of either kind.
    pub fn parse(input: &[u8]) -> (header: Option<MuxedRTP>)
        ensures
            header == muxed_header(input@),
    {
        if input.len() < 8 {
            return None;
        }
        match input[1] {
            194 | 195 | 200..=213 => match RTCPHeader::parse(input) {
                Some(rtcp) => Some(MuxedRTP::RTCP(rtcp)),
                None => None,
            },
            _ => match RTPHeader::parse(input) {
                Some(rtp) => Some(MuxedRTP::RTP(rtp)),
                None => None,
            },
        }
    }
}

/// Where the payload of an RTP packet starts: after the fixed header, the contributing
/// sources, and the extension with its head.
pub open spec fn payload_start(packet: Seq<u8>) -> int {
    12 + 4 * csrc_count(packet) + match extension_head(packet) {
        Some((_, length)) => 4 + length,
        None => 0,
    }
}

/// Whether an RTP packet is long enough for what its header announces.
pub open spec fn payload_fits(packet: Seq<u8>) -> bool {
    holds_rtp_header(packet) ==> payload_start(packet) <= packet.len()
}

/// The payload of an RTP packet, where it holds a header.
pub fn get_rtp_payload(input: &[u8]) -> (payload: Option<&[u8]>)
    requires
        payload_fits(input@),
    ensures
        match payload {
            Some(found) => holds_rtp_header(input@) && found@ == input@.skip(payload_start(input@)),
            None => !holds_rtp_header(input@),
        },
{
    if input.len() < 12 {
        return None;
    }
    let header = match RTPHeader::parse(input) {
        Some(header) => header,
        None => {
            return None;
        },
    };
    let mut header_length: usize = 12;
    proof {
        let first = input@[0];
        assert(first & 0b00001111 <= 15) by (bit_vector);
    }
    header_length = header_length + header.csrc_count as usize * 4;
    if let Some(extension) = header.extension {
        header_length = header_length + 4 + extension.length as usize;
    }
    let payload = slice_subrange(input, header_length, input.len());
    assert(payload@ =~= input@.skip(payload_start(input@)));
    Some(payload)
}

/// The type of the H.264 unit that starts with the byte `first`.
pub open spec fn unit_type(first: u8) -> u8 {
    first & 0x1F
}

/// Whether the units of an aggregation packet, from `offset` on, hold a sequence parameter set.
/// Each is preceded by two bytes, and the next one is looked for as many bytes after these two
/// bytes start as they say.
pub open spec fn aggregation_has_parameters(payload: Seq<u8>, offset: int) -> bool
    decreases payload.len() - offset,
{
    if offset + 2 >= payload.len() {
        false
    } else if unit_type(payload[offset + 2]) == 7 {
        true
    } else {
        let next = offset + be16_at(payload, offset);
        offset < next < payload.len() && aggregation_has_parameters(payload, next)
    }
}

/// Whether the walk over the units of an aggregation packet, from `offset` on, comes to an end:
/// it does not meet a unit of length zero.
pub open spec fn aggregation_walk_ends(payload: Seq<u8>, offset: int) -> bool
    decreases payload.len() - offset,
{
    if offset + 2 >= payload.len() || unit_type(payload[offset + 2]) == 7 {
        true
    } else {
        let next = offset + be16_at(payload, offset);
        offset < next && (next < payload.len() ==> aggregation_walk_ends(payload, next))
    }
}

/// Whether a payload is an aggregation packet.
pub open spec fn is_aggregation(payload: Seq<u8>) -> bool {
    payload.len() >= 6 && unit_type(payload[0]) == 24
}

/// Whether a decoder can start from an H.264 payload: it is a sequence parameter set, the
/// fragment of one, or an aggregation with one in it.
pub open spec fn is_keyframe(payload: Seq<u8>) -> bool {
    payload.len() >= 6 && {
        let fragment = unit_type(payload[0]);
        ||| fragment == 7
        ||| (fragment == 28 || fragment == 29) && unit_type(payload[1]) == 7
        ||| fragment == 24 && aggregation_has_parameters(payload, 1)
    }
}

/// Whether a decoder can start from an H.264 payload.
pub fn is_h264_keyframe(input: &[u8]) -> (keyframe: bool)
    requires
        is_aggregation(input@) ==> aggregation_walk_ends(input@, 1),
    ensures
        keyframe == is_keyframe(input@),
{
    if input.len() < 6 {
        return false;
    }
    let frag: u8 = input[0] & 0x1F;
    let nal: u8 = input[1] & 0x1F;
    if frag == 7 || ((frag == 28 || frag == 29) && nal == 7) {
        return true;
    }
    if frag == 24 {
        let mut offset: usize = 1;
        while input.len() - offset > 2
            invariant
                offset <= input@.len(),
                aggregation_walk_ends(input@, offset as int),
                aggregation_has_parameters(input@, offset as int) == aggregation_has_parameters(
                    input@,
                    1,
                ),
                is_keyframe(input@) == aggregation_has_parameters(input@, 1),
            decreases input@.len() - offset,
        {
            let nal: u8 = input[offset + 2] & 0x1F;
            if nal == 7 {
                return true;
            }
            let packet_len: usize = read_be16(input, offset) as usize;
            if packet_len >= input.len() - offset {
                return false;
            }
            offset = offset + packet_len;
        }
    }
    false
}

/// Whether a packet can be looked into for a keyframe: it is long enough for what its header
/// announces, and a walk over what it aggregates ends.
pub open spec fn well_formed(packet: Seq<u8>) -> bool {
    holds_rtp_header(packet) ==> {
        &&& payload_start(packet) <= packet.len()
        &&& is_aggregation(packet.skip(payload_start(packet))) ==> aggregation_walk_ends(
            packet.skip(payload_start(packet)),
            1,
        )
    }
}

/// Whether a packet can be looked into for a keyframe.
pub fn is_well_formed(packet: &[u8]) -> (ok: bool)
    ensures
        ok == well_formed(packet@),
{
    let header = match RTPHeader::parse(packet) {
        Some(header) => header,
        None => {
            return true;
        },
    };
    proof {
        let first = packet@[0];
        assert(first & 0b00001111 <= 15) by (bit_vector);
    }
    let mut header_length: usize = 12 + header.csrc_count as usize * 4;
    if let Some(extension) = header.extension {
        header_length = header_length + 4 + extension.length as usize;
    }
    if header_length > packet.len() {
        return false;
    }
    let payload = slice_subrange(packet, header_length, packet.len());
    assert(payload@ =~= packet@.skip(payload_start(packet@)));
    if payload.len() < 6 || payload[0] & 0x1F != 24 {
        return true;
    }
    let mut offset: usize = 1;
    while payload.len() - offset > 2
        invariant
            offset <= payload@.len(),
            aggregation_walk_ends(payload@, offset as int) == aggregation_walk_ends(payload@, 1),
            well_formed(packet@) == aggregation_walk_ends(payload@, 1),
        decreases payload@.len() - offset,
    {
        if payload[offset + 2] & 0x1F == 7 {
            return true;
        }
        let packet_len: usize = read_be16(payload, offset) as usize;
        if packet_len == 0 {
            return false;
        }
        if packet_len >= payload.len() - offset {
            return true;
        }
        offset = offset + packet_len;
    }
    true
}

/// A packet that is sent to a peer.
#[derive(Debug)]
pub struct Outgoing {
    pub packet: Vec<u8>,
    pub addr: SocketAddr,
}

/// What is done about a sender report.
#[derive(Debug)]
pub struct SenderReportOutcome {
    /// The report is passed on.
    pub relay: Relay,
    /// The time of day is sent back.
    pub reply: Option<Outgoing>,
}

/// What identifies a media stream of a stream.
pub type StreamSource = (StreamId, u32);

spec fn status_key(source: StreamSource) -> u64 {
    (source.0 * 0x1_0000_0000 + source.1) as u64
}

/// Follows the media streams that arrive on one port.
#[derive(Debug)]
pub struct RTPReceiver {
    port: u16,
    rtp_status: HashMap<u64, RTPStream>,
}

impl View for RTPReceiver {
    type V = Map<StreamSource, RTPStreamView>;

    closed spec fn view(&self) -> Map<StreamSource, RTPStreamView> {
        Map::new(
            |source: StreamSource| self.rtp_status@.contains_key(status_key(source)),
            |source: StreamSource| self.rtp_status@[status_key(source)]@,
        )
    }
}

/// Whether packets of a media stream are kept: it is H.264 video, of a stream that is
/// registered.
pub open spec fn keeps_packets(
    receiver: Map<StreamSource, RTPStreamView>,
    router: RouterView,
    source: StreamSource,
) -> bool {
    &&& receiver.contains_key(source)
    &&& receiver[source].media_stream.content matches MediaStreamContent::Video(video)
        && video.codec == VideoCodec::H264
    &&& router.streams.contains_key(source.0)
}

/// A stream with one more packet of a source kept, where it holds an RTP header.
pub open spec fn with_packet_kept(stream: StreamView, ssrc: u32, packet: Seq<u8>) -> StreamView {
    if holds_rtp_header(packet) {
        stream.with_packet(ssrc, packet, is_keyframe(packet.skip(payload_start(packet))))
    } else {
        stream
    }
}

/// Whether a packet is one that a decoder can start from.
pub open spec fn starts_decoding(packet: Seq<u8>) -> bool {
    holds_rtp_header(packet) && is_keyframe(packet.skip(payload_start(packet)))
}

/// Once a keyframe is kept, what is kept starts with one: a decoder can start from it.
pub proof fn what_is_kept_starts_with_a_keyframe(stream: StreamView, ssrc: u32, packet: Seq<u8>)
    requires
        holds_rtp_header(packet),
        starts_decoding(packet) || (stream.kept(ssrc).len() > 0 && starts_decoding(
            stream.kept(ssrc)[0],
        )),
    ensures
        ({
            let kept = with_packet_kept(stream, ssrc, packet).kept(ssrc);
            kept.len() > 0 && starts_decoding(kept[0]) && kept.last() == packet
        }),
{
}

impl RTPReceiver {
    /// The port that packets arrive on.
    pub closed spec fn port(self) -> u16 {
        self.port
    }

    /// A receiver that follows nothing yet.
    pub fn new(port: u16) -> (receiver: RTPReceiver)
        ensures
            receiver@ == Map::<StreamSource, RTPStreamView>::empty(),
            receiver.port() == port,
    {
        let receiver = RTPReceiver { port, rtp_status: HashMap::new() };
        assert(receiver@ =~= Map::empty());
        receiver
    }

    fn key(stream_id: StreamId, ssrc: u32) -> (key: u64)
        ensures
            key == status_key((stream_id, ssrc)),
            forall|other: StreamSource| #[trigger]
                status_key(other) == key ==> other == (stream_id, ssrc),
    {
        stream_id as u64 * 0x1_0000_0000 + ssrc as u64
    }

    /// Follows a media stream from now on.
    pub fn insert_stream(&mut self, stream_id: StreamId, ssrc: u32, stream: RTPStream)
        ensures
            final(self)@ == old(self)@.insert((stream_id, ssrc), stream@),
            final(self).port() == old(self).port(),
    {
        broadcast use vstd::std_specs::hash::group_hash_axioms;

        let key = Self::key(stream_id, ssrc);
        self.rtp_status.insert(key, stream);
        assert(self@ =~= old(self)@.insert((stream_id, ssrc), stream@));
    }

    /// The media stream of a source that is followed.
    pub fn media_stream(&self, stream_id: StreamId, ssrc: u32) -> (media_stream: Option<
        MediaStream,
    >)
        ensures
            media_stream == match self@.get((stream_id, ssrc)) {
                Some(stream) => Some(stream.media_stream),
                None => None,
            },
    {
        broadcast use vstd::std_specs::hash::group_hash_axioms;

        let key = Self::key(stream_id, ssrc);
        match self.rtp_status.get(&key) {
            Some(stream) => Some(stream.media_stream()),
            None => None,
        }
    }

    /// Stops following a media stream, and returns what is known of it.
    fn take_stream(&mut self, stream_id: StreamId, ssrc: u32) -> (stream: Option<RTPStream>)
        ensures
            final(self)@ == old(self)@.remove((stream_id, ssrc)),
            final(self).port() == old(self).port(),
            match stream {
                Some(found) => old(self)@.contains_key((stream_id, ssrc)) && found@
                    == old(self)@[(stream_id, ssrc)],
                None => !old(self)@.contains_key((stream_id, ssrc)),
            },
    {
        broadcast use vstd::std_specs::hash::group_hash_axioms;

        let key = Self::key(stream_id, ssrc);
        let stream = self.rtp_status.remove(&key);
        assert(self@ =~= old(self)@.remove((stream_id, ssrc)));
        stream
    }

    /// Takes up an RTCP packet of a media stream that is followed, at the time `now`: it is
    /// passed on, and a sender report is answered with the time of day.
    pub fn handle_sender_report(
        &mut self,
        stream_id: StreamId,
        ssrc: u32,
        header: RTCPHeader,
        payload: &[u8],
        now: u64,
        clock: Clock,
        router: &Router,
    ) -> (outcome: Option<SenderReportOutcome>)
        ensures
            final(self).port() == old(self).port(),
            old(self)@.contains_key((stream_id, ssrc)) <==> outcome is Some,
            match outcome {
                None => final(self)@ == old(self)@,
                Some(done) => {
                    let stream = old(self)@[(stream_id, ssrc)];
                    &&& final(self)@ == old(self)@.insert(
                        (stream_id, ssrc),
                        RTPStreamView { last_sender_report: Some(now), ..stream },
                    )
                    &&& done.relay@ == relay_of(
                        stream.media_stream,
                        payload@,
                        router@.subscribers(stream_id),
                    )
                    &&& done.reply is Some <==> header.payload_type == 200
                    &&& done.reply matches Some(reply) ==> {
                        &&& reply.packet@ == clock_packet(
                            (clock.seconds % 0x1_0000_0000) as u32,
                            clock.nanoseconds,
                        )
                        &&& reply.addr == stream.addr
                    }
                },
            },
    {
        let mut stream = match self.take_stream(stream_id, ssrc) {
            Some(stream) => stream,
            None => {
                assert(self@ =~= old(self)@);
                return None;
            },
        };
        stream.note_sender_report(now);
        let relay = build_relay(&stream.media_stream(), payload, router, stream_id);
        let reply = if header.payload_type == 200 {
            Some(
                Outgoing {
                    packet: build_clock_packet(clock.seconds, clock.nanoseconds),
                    addr: stream.addr(),
                },
            )
        } else {
            None
        };
        let ghost known = stream@;
        self.insert_stream(stream_id, ssrc, stream);
        assert(self@ =~= old(self)@.insert((stream_id, ssrc), known));
        Some(SenderReportOutcome { relay, reply })
    }

    /// Takes up the sequence number of a packet, and asks for what is missing by now.
    pub fn send_nacks(&mut self, stream_id: StreamId, ssrc: u32, seq_nr: u16) -> (sent: Option<
        Outgoing,
    >)
        ensures
            final(self).port() == old(self).port(),
            if old(self)@.contains_key((stream_id, ssrc)) {
                let stream = old(self)@[(stream_id, ssrc)];
                let nacks = stream.tracking.reported(seq_nr);
                &&& final(self)@ == old(self)@.insert(
                    (stream_id, ssrc),
                    RTPStreamView { tracking: stream.tracking.pushed(seq_nr), ..stream },
                )
                &&& sent is Some <==> nacks.len() > 0
                &&& sent matches Some(packet) ==> packet.packet@ == nack_packet(ssrc, nacks)
                    && packet.addr == stream.addr
            } else {
                final(self)@ == old(self)@ && sent is None
            },
    {
        let mut stream = match self.take_stream(stream_id, ssrc) {
            Some(stream) => stream,
            None => {
                assert(self@ =~= old(self)@);
                return None;
            },
        };
        let ghost tracking = stream@.tracking;
        let nacks = stream.push_sequence(seq_nr);
        let addr = stream.addr();
        let ghost known = stream@;
        self.insert_stream(stream_id, ssrc, stream);
        assert(self@ =~= old(self)@.insert((stream_id, ssrc), known));
        if nacks.is_empty() {
            return None;
        }
        proof {
            let settled = tracking.settled(seq_nr);
            let reach = furthest(settled.last_in_sequence, settled.pending, 65536);
            lemma_furthest(settled.last_in_sequence, settled.pending, 65536);
            lemma_group_heads(settled.last_in_sequence, reach, settled.pending, settled.asked);
            lemma_groups_heads(settled.overdue());
        }
        Some(Outgoing { packet: build_nack_packet(ssrc, &nacks), addr })
    }

    /// Takes up an RTP packet: asks for what is missing by now, and keeps the packet where a
    /// decoder may need it to start.
    pub fn handle_rtp_packet(
        &mut self,
        stream_id: StreamId,
        ssrc: u32,
        header: RTPHeader,
        payload: &[u8],
        router: &mut Router,
    ) -> (sent: Option<Outgoing>)
        requires
            keeps_packets(old(self)@, old(router)@, (stream_id, ssrc)) ==> well_formed(payload@),
        ensures
            final(self).port() == old(self).port(),
            final(router)@ == if keeps_packets(old(self)@, old(router)@, (stream_id, ssrc)) {
                RouterView {
                    streams: old(router)@.streams.insert(
                        stream_id,
                        with_packet_kept(old(router)@.streams[stream_id], ssrc, payload@),
                    ),
                    ..old(router)@
                }
            } else {
                old(router)@
            },
            if old(self)@.contains_key((stream_id, ssrc)) {
                let stream = old(self)@[(stream_id, ssrc)];
                let nacks = stream.tracking.reported(header.seq_nr);
                &&& final(self)@ == old(self)@.insert(
                    (stream_id, ssrc),
                    RTPStreamView { tracking: stream.tracking.pushed(header.seq_nr), ..stream },
                )
                &&& sent is Some <==> nacks.len() > 0
                &&& sent matches Some(packet) ==> packet.packet@ == nack_packet(ssrc, nacks)
                    && packet.addr == stream.addr
            } else {
                final(self)@ == old(self)@ && sent is None
            },
    {
        let sent = self.send_nacks(stream_id, ssrc, header.seq_nr);
        let is_h264 = match self.media_stream(stream_id, ssrc) {
            Some(media_stream) => match media_stream.content {
                MediaStreamContent::Video(video) => video.codec == VideoCodec::H264,
                MediaStreamContent::Audio(_) => false,
            },
            None => false,
        };
        if !is_h264 {
            return sent;
        }
        if let Some(stream) = router.get_stream_mut(stream_id) {
            if let Some(rtp_payload) = get_rtp_payload(payload) {
                let keyframe = is_h264_keyframe(rtp_payload);
                stream.keep_packet(ssrc, payload, keyframe);
            }
        }
        assert(router@ =~= if keeps_packets(old(self)@, old(router)@, (stream_id, ssrc)) {
            RouterView {
                streams: old(router)@.streams.insert(
                    stream_id,
                    with_packet_kept(old(router)@.streams[stream_id], ssrc, payload@),
                ),
                ..old(router)@
            }
        } else {
            old(router)@
        });
        sent
    }
}

/// Builds the packet that asks the source `ssrc` for the packets in `nacks`.
fn build_nack_packet(ssrc: u32, nacks: &Vec<(u16, u16)>) -> (packet: Vec<u8>)
    requires
        nacks@.len() <= 4096,
    ensures
        packet@ == nack_packet(ssrc, nacks@),
{
    let mut packet: Vec<u8> = vec![0x81u8, 205];
    push_be16(&mut packet, 2 + nacks.len() as u16);
    push_be32(&mut packet, 0);
    push_be32(&mut packet, ssrc);
    let ghost fixed = packet@;
    assert(fixed =~= seq![0x81u8, 205u8] + be16((2 + nacks@.len()) as u16) + be32(0) + be32(ssrc));
    let mut i: usize = 0;
    assert(nack_entries(nacks@.take(0)) =~= Seq::<u8>::empty());
    while i < nacks.len()
        invariant
            i <= nacks@.len(),
            packet@ == fixed + nack_entries(nacks@.take(i as int)),
        decreases nacks@.len() - i,
    {
        let ghost written = nack_entries(nacks@.take(i as int));
        push_be16(&mut packet, nacks[i].0);
        push_be16(&mut packet, nacks[i].1);
        proof {
            let longer = nacks@.take(i + 1);
            assert(longer.drop_last() =~= nacks@.take(i as int));
            assert(packet@ =~= fixed + (written + be16(longer.last().0) + be16(longer.last().1)));
        }
        i = i + 1;
    }
    assert(nacks@.take(i as int) =~= nacks@);
    packet
}

} // verus!
