//! RTP and RTCP headers, and how packets of the two kinds are told apart.

use crate::wire::{
    be16, be16_at, be32, be32_at, be32_reads_back, csrc_count, extension_head, holds_rtp_header,
    is_rtcp_type, nack_entries, nack_packet, read_be16, read_be32, read_extension_head,
};
use vstd::prelude::*;

verus! {

/// What is read of the header of an RTP packet.
#[derive(Debug, Clone, Copy, PartialEq, Eq, Structural)]
pub struct RtpHeader {
    pub payload_type: u8,
    pub seq_nr: u16,
    pub ssrc: u32,
    pub csrc_count: u8,
    pub extension: Option<RtpExtension>,
}

/// The head of the header extension of an RTP packet.
#[derive(Debug, Clone, Copy, PartialEq, Eq, Structural)]
pub struct RtpExtension {
    pub id: u16,
    pub length: u16,
}

/// The header of an RTP packet, where there is one.
pub open spec fn rtp_header(packet: Seq<u8>) -> Option<RtpHeader> {
    if holds_rtp_header(packet) {
        Some(
            RtpHeader {
                payload_type: packet[1],
                seq_nr: be16_at(packet, 2),
                ssrc: be32_at(packet, 8),
                csrc_count: csrc_count(packet),
                extension: match extension_head(packet) {
                    Some((id, length)) => Some(RtpExtension { id, length }),
                    None => None,
                },
            },
        )
    } else {
        None
    }
}

impl RtpHeader {
    /// Reads the header of an RTP packet.
    pub fn parse(input: &[u8]) -> (header: Option<RtpHeader>)
        ensures
            header == rtp_header(input@),
    {
        if input.len() < 12 {
            return None;
        }
        let extension = match read_extension_head(input) {
            None => {
                return None;
            },
            Some(Some((id, length))) => Some(RtpExtension { id, length }),
            Some(None) => None,
        };
        Some(
            RtpHeader {
                payload_type: input[1],
                seq_nr: read_be16(input, 2),
                ssrc: read_be32(input, 8),
                csrc_count: input[0] & 0b00001111,
                extension,
            },
        )
    }
}

/// What is read of the header of an RTCP packet.
#[derive(Debug, Clone, Copy, PartialEq, Eq, Structural)]
pub struct RtcpHeader {
    pub payload_type: u8,
    pub ssrc: u32,
}

/// The header of an RTCP packet, where there is one.
pub open spec fn rtcp_header(packet: Seq<u8>) -> Option<RtcpHeader> {
    if packet.len() >= 8 {
        Some(RtcpHeader { payload_type: packet[1], ssrc: be32_at(packet, 4) })
    } else {
        None
    }
}

impl RtcpHeader {
    /// Reads the header of an RTCP packet.
    pub fn parse(input: &[u8]) -> (header: Option<RtcpHeader>)
        ensures
            header == rtcp_header(input@),
    {
        if input.len() < 8 {
            return None;
        }
        Some(RtcpHeader { payload_type: input[1], ssrc: read_be32(input, 4) })
    }
}

/// The header of a packet that arrived where both kinds arrive.
#[derive(Debug, Clone, Copy, PartialEq, Eq, Structural)]
pub enum MuxedRtp {
    RTP(RtpHeader),
    RTCP(RtcpHeader),
}

/// The header of a packet of either kind, where there is one.
pub open spec fn muxed_header(packet: Seq<u8>) -> Option<MuxedRtp> {
    if packet.len() < 8 {
        None
    } else if is_rtcp_type(packet[1]) {
        match rtcp_header(packet) {
            Some(rtcp) => Some(MuxedRtp::RTCP(rtcp)),
            None => None,
        }
    } else {
        match rtp_header(packet) {
            Some(rtp) => Some(MuxedRtp::RTP(rtp)),
            None => None,
        }
    }
}

impl MuxedRtp {
    /// The source that the packet belongs to.
    pub open spec fn source(self) -> u32 {
        match self {
            MuxedRtp::RTCP(rtcp) => rtcp.ssrc,
            MuxedRtp::RTP(rtp) => rtp.ssrc,
        }
    }

    /// The source that the packet belongs to.
    pub fn ssrc(&self) -> (ssrc: u32)
        ensures
            ssrc == self.source(),
    {
        match self {
            MuxedRtp::RTCP(rtcp) => rtcp.ssrc,
            MuxedRtp::RTP(rtp) => rtp.ssrc,
        }
    }

    /// The sequence number of an RTP packet; zero for RTCP, which has none.
    pub fn seq_nr(&self) -> (seq_nr: u16)
        ensures
            seq_nr == match *self {
                MuxedRtp::RTCP(_) => 0,
                MuxedRtp::RTP(rtp) => rtp.seq_nr,
            },
    {
        match self {
            MuxedRtp::RTCP(_) => 0,
            MuxedRtp::RTP(rtp) => rtp.seq_nr,
        }
    }

    /// Reads the header of a packet of either kind.
    pub fn parse(input: &[u8]) -> (header: Option<MuxedRtp>)
        ensures
            header == muxed_header(input@),
    {
        if input.len() < 8 {
            return None;
        }
        match input[1] {
            194 | 195 | 200..=213 => match RtcpHeader::parse(input) {
                Some(rtcp) => Some(MuxedRtp::RTCP(rtcp)),
                None => None,
            },
            _ => match RtpHeader::parse(input) {
                Some(rtp) => Some(MuxedRtp::RTP(rtp)),
                None => None,
            },
        }
    }
}

/// A report of missing packets is read as RTCP, of the type of such reports.
pub proof fn nack_packets_are_rtcp(ssrc: u32, entries: Seq<(u16, u16)>)
    ensures
        muxed_header(nack_packet(ssrc, entries)) == Some(
            MuxedRtp::RTCP(RtcpHeader { payload_type: 205, ssrc: 0 }),
        ),
{
    let packet = nack_packet(ssrc, entries);
    let length = (2 + entries.len()) as u16;
    be32_reads_back(
        seq![0x81u8, 205u8] + be16(length),
        0,
        be32(ssrc) + nack_entries(entries),
    );
    assert(packet =~= seq![0x81u8, 205u8] + be16(length) + be32(0) + (be32(ssrc) + nack_entries(
        entries,
    )));
}

} // verus!
