//! Big-endian integers in byte sequences, and the fields of RTP and RTCP headers.

use vstd::prelude::*;

verus! {

/// The 16-bit big-endian integer that `bytes` hold from `at` on.
pub open spec fn be16_at(bytes: Seq<u8>, at: int) -> u16 {
    (bytes[at] * 256 + bytes[at + 1]) as u16
}

/// The 32-bit big-endian integer that `bytes` hold from `at` on.
pub open spec fn be32_at(bytes: Seq<u8>, at: int) -> u32 {
    (bytes[at] * 0x1000000 + bytes[at + 1] * 0x10000 + bytes[at + 2] * 256 + bytes[at + 3]) as u32
}

/// The two bytes of a 16-bit integer, the most significant one first.
pub open spec fn be16(n: u16) -> Seq<u8> {
    seq![(n / 256) as u8, (n % 256) as u8]
}

/// The four bytes of a 32-bit integer, the most significant one first.
pub open spec fn be32(n: u32) -> Seq<u8> {
    seq![
        (n / 0x1000000) as u8,
        (n / 0x10000 % 256) as u8,
        (n / 256 % 256) as u8,
        (n % 256) as u8,
    ]
}

/// Reads a 16-bit big-endian integer.
pub fn read_be16(bytes: &[u8], at: usize) -> (n: u16)
    requires
        at + 2 <= bytes@.len(),
    ensures
        n == be16_at(bytes@, at as int),
{
    bytes[at] as u16 * 256 + bytes[at + 1] as u16
}

/// Reads a 32-bit big-endian integer.
pub fn read_be32(bytes: &[u8], at: usize) -> (n: u32)
    requires
        at + 4 <= bytes@.len(),
    ensures
        n == be32_at(bytes@, at as int),
{
    bytes[at] as u32 * 0x1000000 + bytes[at + 1] as u32 * 0x10000 + bytes[at + 2] as u32 * 256
        + bytes[at + 3] as u32
}

/// Appends a 16-bit integer to `bytes`, the most significant byte first.
pub fn push_be16(bytes: &mut Vec<u8>, n: u16)
    ensures
        final(bytes)@ == old(bytes)@ + be16(n),
{
    bytes.push((n / 256) as u8);
    bytes.push((n % 256) as u8);
    assert(bytes@ =~= old(bytes)@ + be16(n));
}

/// Appends a 32-bit integer to `bytes`, the most significant byte first.
pub fn push_be32(bytes: &mut Vec<u8>, n: u32)
    ensures
        final(bytes)@ == old(bytes)@ + be32(n),
{
    bytes.push((n / 0x1000000) as u8);
    bytes.push((n / 0x10000 % 256) as u8);
    bytes.push((n / 256 % 256) as u8);
    bytes.push((n % 256) as u8);
    assert(bytes@ =~= old(bytes)@ + be32(n));
}

/// What is written as a 16-bit integer is read back.
pub proof fn be16_reads_back(before: Seq<u8>, n: u16, after: Seq<u8>)
    ensures
        be16_at(before + be16(n) + after, before.len() as int) == n,
{
    let all = before + be16(n) + after;
    let at = before.len() as int;
    assert(all[at] == be16(n)[0] && all[at + 1] == be16(n)[1]);
}

/// What is written as a 32-bit integer is read back.
pub proof fn be32_reads_back(before: Seq<u8>, n: u32, after: Seq<u8>)
    ensures
        be32_at(before + be32(n) + after, before.len() as int) == n,
{
    let all = before + be32(n) + after;
    let at = before.len() as int;
    assert(all[at] == be32(n)[0] && all[at + 1] == be32(n)[1] && all[at + 2] == be32(n)[2] && all[at
        + 3] == be32(n)[3]);
}

/// The bytes of the entries of a report of missing packets.
pub open spec fn nack_entries(entries: Seq<(u16, u16)>) -> Seq<u8>
    decreases entries.len(),
{
    if entries.len() == 0 {
        Seq::empty()
    } else {
        nack_entries(entries.drop_last()) + be16(entries.last().0) + be16(entries.last().1)
    }
}

/// An entry takes four bytes.
pub proof fn lemma_nack_entries_len(entries: Seq<(u16, u16)>)
    ensures
        nack_entries(entries).len() == 4 * entries.len(),
    decreases entries.len(),
{
    if entries.len() > 0 {
        lemma_nack_entries_len(entries.drop_last());
    }
}

/// The report that asks the source `ssrc` for missing packets: a transport layer feedback
/// message (type 205) that is a generic NACK (version 2, message type 1), its length in words
/// less one, no source of its own, the source it is for, and the entries.
pub open spec fn nack_packet(ssrc: u32, entries: Seq<(u16, u16)>) -> Seq<u8> {
    seq![0x81u8, 205u8] + be16((2 + entries.len()) as u16) + be32(0) + be32(ssrc) + nack_entries(
        entries,
    )
}

/// A report of missing packets says how long it is: its length in words, less one.
pub proof fn nack_packet_says_its_length(ssrc: u32, entries: Seq<(u16, u16)>)
    requires
        entries.len() <= 65533,
    ensures
        nack_packet(ssrc, entries).len() == 4 * (be16_at(nack_packet(ssrc, entries), 2) + 1),
        be32_at(nack_packet(ssrc, entries), 8) == ssrc,
{
    let packet = nack_packet(ssrc, entries);
    let length = (2 + entries.len()) as u16;
    lemma_nack_entries_len(entries);
    be16_reads_back(
        seq![0x81u8, 205u8],
        length,
        be32(0) + be32(ssrc) + nack_entries(entries),
    );
    assert(packet =~= seq![0x81u8, 205u8] + be16(length) + (be32(0) + be32(ssrc) + nack_entries(
        entries,
    )));
    be32_reads_back(
        seq![0x81u8, 205u8] + be16(length) + be32(0),
        ssrc,
        nack_entries(entries),
    );
}

/// The reply to a sender report: version 2, one block, type 250, and the time of day in
/// seconds and nanoseconds.
pub open spec fn clock_packet(seconds: u32, nanoseconds: u32) -> Seq<u8> {
    seq![0x81u8, 250u8, 0u8, 0u8] + be32(seconds) + be32(nanoseconds)
}

/// Builds the reply to a sender report; of the seconds, the low 32 bits count.
pub fn build_clock_packet(seconds: u64, nanoseconds: u32) -> (packet: Vec<u8>)
    ensures
        packet@ == clock_packet((seconds % 0x1_0000_0000) as u32, nanoseconds),
{
    let mut packet: Vec<u8> = vec![0x81u8, 250, 0, 0];
    push_be32(&mut packet, (seconds % 0x1_0000_0000) as u32);
    push_be32(&mut packet, nanoseconds);
    assert(packet@ =~= clock_packet((seconds % 0x1_0000_0000) as u32, nanoseconds));
    packet
}

/// The number of contributing sources that an RTP packet lists.
pub open spec fn csrc_count(packet: Seq<u8>) -> u8 {
    packet[0] & 0b00001111
}

/// Whether an RTP packet is taken to have a header extension.
pub open spec fn has_extension(packet: Seq<u8>) -> bool {
    packet[0] & 0b0001000 > 0
}

/// Where the contributing sources of an RTP packet end and its extension starts.
pub open spec fn extension_start(packet: Seq<u8>) -> int {
    12 + 4 * csrc_count(packet)
}

/// Whether `packet` holds an RTP header: the twelve fixed bytes, and the head of
/// the extension where there is one.
pub open spec fn holds_rtp_header(packet: Seq<u8>) -> bool {
    packet.len() >= 12 && (has_extension(packet) ==> extension_start(packet) + 4 <= packet.len())
}

/// Whether the second byte of a packet makes it an RTCP packet.
pub open spec fn is_rtcp_type(kind: u8) -> bool {
    kind == 194 || kind == 195 || 200 <= kind <= 213
}

/// The identifier and the length of the header extension of an RTP packet.
pub open spec fn extension_head(packet: Seq<u8>) -> Option<(u16, u16)> {
    if has_extension(packet) {
        let start = extension_start(packet);
        Some((be16_at(packet, start), be16_at(packet, start + 2)))
    } else {
        None
    }
}

/// Reads the head of the header extension of an RTP packet.
///
/// The outer `None` says that the packet is too short for it, the inner one that there is none.
pub(crate) fn read_extension_head(packet: &[u8]) -> (head: Option<Option<(u16, u16)>>)
    requires
        packet@.len() >= 12,
    ensures
        head is Some <==> holds_rtp_header(packet@),
        head matches Some(found) ==> found == extension_head(packet@),
{
    let first: u8 = packet[0];
    let count: u8 = first & 0b00001111;
    assert(first & 0b00001111 <= 15) by (bit_vector);
    if (first & 0b0001000) > 0 {
        let offset: usize = 12 + (count * 4) as usize;
        if offset + 4 > packet.len() {
            return None;
        }
        Some(Some((read_be16(packet, offset), read_be16(packet, offset + 2))))
    } else {
        Some(None)
    }
}

} // verus!
