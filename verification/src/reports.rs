//! What receivers report of the reception of a stream.

use crate::wire::{be16_at, be32_at};
use discortp::rtcp::report::{ReceiverReportPacket, ReportBlockPacket};
use discortp::FromPacket;
use vstd::prelude::*;

verus! {

/// A report on the reception of one source.
#[derive(Debug, Clone)]
pub struct ReportBlock {
    pub ssrc: u32,
    pub fraction_lost: u8,
    pub cumulative_pkts_lost: u32,
    pub cycles: u16,
    pub sequence: u16,
    pub interarrival_jitter: u32,
    pub last_sr_timestamp: u32,
    pub last_sr_delay: u32,
    /// What follows the report.
    pub payload: Vec<u8>,
}

/// Whether a report is the one at the start of `bytes`.
pub open spec fn reports(block: ReportBlock, bytes: Seq<u8>) -> bool {
    &&& bytes.len() >= 24
    &&& block.ssrc == be32_at(bytes, 0)
    &&& block.fraction_lost == bytes[4]
    &&& block.cumulative_pkts_lost == bytes[5] * 0x1_0000 + be16_at(bytes, 6)
    &&& block.cycles == be16_at(bytes, 8)
    &&& block.sequence == be16_at(bytes, 10)
    &&& block.interarrival_jitter == be32_at(bytes, 12)
    &&& block.last_sr_timestamp == be32_at(bytes, 16)
    &&& block.last_sr_delay == be32_at(bytes, 20)
    &&& block.payload@ == bytes.skip(24)
}

/// `ReceiverReportPacket::owned` of the crate `discortp` takes a packet of eight bytes or more,
/// whatever they hold; the payload that `from_packet` reads is what follows these eight.
#[verifier::external_body]
fn report_payload(packet: Vec<u8>) -> (payload: Option<Vec<u8>>)
    ensures
        payload is Some <==> packet@.len() >= 8,
        payload matches Some(found) ==> found@ == packet@.skip(8),
{
    ReceiverReportPacket::owned(packet).map(|report| report.from_packet().payload)
}

/// `ReportBlockPacket::owned` of the crate `discortp` takes twenty-four bytes or more; what
/// `from_packet` reads of them are numbers with the most significant byte first, and what
/// follows.
#[verifier::external_body]
fn report_block(payload: Vec<u8>) -> (block: Option<ReportBlock>)
    ensures
        block is Some <==> payload@.len() >= 24,
        block matches Some(found) ==> reports(found, payload@),
{
    let block = ReportBlockPacket::owned(payload)?.from_packet();
    Some(ReportBlock {
        ssrc: block.ssrc,
        fraction_lost: block.fraction_lost,
        cumulative_pkts_lost: block.cumulative_pkts_lost,
        cycles: block.cycles,
        sequence: block.sequence,
        interarrival_jitter: block.interarrival_jitter,
        last_sr_timestamp: block.last_sr_timestamp,
        last_sr_delay: block.last_sr_delay,
        payload: block.payload,
    })
}

/// Reads the first report in a receiver report, where there is one.
pub fn read_receiver_report(packet: Vec<u8>) -> (block: Option<ReportBlock>)
    ensures
        block is Some <==> packet@.len() >= 32,
        block matches Some(found) ==> reports(found, packet@.skip(8)),
{
    match report_payload(packet) {
        Some(payload) => report_block(payload),
        None => None,
    }
}

} // verus!
