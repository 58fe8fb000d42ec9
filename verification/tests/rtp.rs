use staafmixer::rtp_receiver::{MuxedRTP, RTCPHeader, RTPExtension, RTPHeader};
use staafmixer::rtp_utils::{MuxedRtp, RtcpHeader, RtpExtension, RtpHeader};
use staafmixer::wire::{build_clock_packet, push_be16, push_be32, read_be16, read_be32};

const PLAIN: [u8; 13] = [0x80, 96, 0x12, 0x34, 0, 0, 0, 1, 0, 0, 5, 0x3a, 0xff];

#[test]
fn short_packets_have_no_header() {
    assert!(MuxedRtp::parse(&[0x80, 96, 0, 1, 0, 0, 0]).is_none());
    assert!(MuxedRtp::parse(&[0x80, 96, 0, 1, 0, 0, 0, 0, 0, 0, 0]).is_none());
    assert!(MuxedRTP::parse(&[0x80, 200, 0, 1, 0, 0, 0]).is_none());
    assert!(RtpHeader::parse(&PLAIN[..11]).is_none());
    assert!(RTPHeader::parse(&PLAIN[..11]).is_none());
    assert!(RtcpHeader::parse(&PLAIN[..7]).is_none());
    assert!(RTCPHeader::parse(&PLAIN[..7]).is_none());
}

#[test]
fn rtp_headers_are_read() {
    let header = RtpHeader {
        payload_type: 96,
        seq_nr: 0x1234,
        ssrc: 1338,
        csrc_count: 0,
        extension: None,
    };
    assert_eq!(RtpHeader::parse(&PLAIN), Some(header));
    assert_eq!(MuxedRtp::parse(&PLAIN), Some(MuxedRtp::RTP(header)));
    let header = RTPHeader {
        payload_type: 96,
        seq_nr: 0x1234,
        ssrc: 1338,
        csrc_count: 0,
        extension: None,
    };
    assert_eq!(MuxedRTP::parse(&PLAIN), Some(MuxedRTP::RTP(header)));
    assert_eq!(MuxedRTP::RTP(header).ssrc(), 1338);
    assert_eq!(MuxedRTP::RTP(header).seq_nr(), 0x1234);
}

#[test]
fn header_extensions_are_read() {
    // The extension flag stands in the lowest bit but three, so it counts as eight sources.
    let mut packet = vec![0x88, 97, 0, 7, 0, 0, 0, 0, 0, 0, 0, 9];
    packet.extend_from_slice(&[0u8; 32]);
    assert!(RtpHeader::parse(&packet).is_none());
    packet.extend_from_slice(&[0xbe, 0xde, 0, 3]);
    let header = RtpHeader::parse(&packet).unwrap();
    assert_eq!(header.csrc_count, 8);
    assert_eq!(header.extension, Some(RtpExtension { id: 0xbede, length: 3 }));
    let header = RTPHeader::parse(&packet).unwrap();
    assert_eq!(header.csrc_count, 8);
    assert_eq!(header.extension, Some(RTPExtension { id: 0xbede, length: 3 }));
}

#[test]
fn rtcp_is_told_apart_by_its_type() {
    for kind in [194u8, 195, 200, 205, 213] {
        let packet = [0x81, kind, 0, 1, 0, 0, 5, 0x39];
        let header = RtcpHeader { payload_type: kind, ssrc: 1337 };
        assert_eq!(MuxedRtp::parse(&packet), Some(MuxedRtp::RTCP(header)));
        assert_eq!(MuxedRtp::RTCP(header).ssrc(), 1337);
        assert_eq!(MuxedRtp::RTCP(header).seq_nr(), 0);
        let header = RTCPHeader { payload_type: kind, ssrc: 1337 };
        assert_eq!(MuxedRTP::parse(&packet), Some(MuxedRTP::RTCP(header)));
        assert_eq!(MuxedRTP::RTCP(header).ssrc(), 1337);
        assert_eq!(MuxedRTP::RTCP(header).seq_nr(), 0);
    }
    for kind in [96u8, 193, 196, 199, 214, 250] {
        let mut packet = PLAIN;
        packet[1] = kind;
        assert!(matches!(MuxedRtp::parse(&packet), Some(MuxedRtp::RTP(_))));
        assert!(matches!(MuxedRTP::parse(&packet), Some(MuxedRTP::RTP(_))));
    }
}

#[test]
fn integers_are_read_back() {
    let mut bytes = vec![7u8];
    push_be16(&mut bytes, 0xabcd);
    push_be32(&mut bytes, 0x01020304);
    assert_eq!(bytes, [7, 0xab, 0xcd, 1, 2, 3, 4]);
    assert_eq!(read_be16(&bytes, 1), 0xabcd);
    assert_eq!(read_be32(&bytes, 3), 0x01020304);
}

#[test]
fn the_clock_is_cut_to_thirty_two_bits() {
    assert_eq!(
        build_clock_packet(0x1_0000_0002, 3),
        [0x81, 250, 0, 0, 0, 0, 0, 2, 0, 0, 0, 3]
    );
}
