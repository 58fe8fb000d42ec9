use staafmixer::manager::IngestManager;
use staafmixer::receiver_stream::RTPStream;
use staafmixer::router::{Router, Session, SessionState};
use staafmixer::rpc::{
    AudioCodec, IpAddr, MediaStream, MediaStreamAudio, MediaStreamContent, MediaStreamVideo,
    SocketAddr, VideoCodec,
};
use staafmixer::rtp_connection::Clock;
use staafmixer::rtp_receiver::{
    get_rtp_payload, is_h264_keyframe, is_well_formed, RTCPHeader, RTPHeader, RTPReceiver,
};

fn addr() -> SocketAddr {
    SocketAddr { ip: IpAddr::V6(1), port: 1445, flowinfo: 0, scope_id: 0 }
}

fn video() -> MediaStream {
    MediaStream {
        ssrc: 1338,
        payload_type: 96,
        content: MediaStreamContent::Video(MediaStreamVideo {
            codec: VideoCodec::H264,
            width: 0,
            height: 0,
        }),
    }
}

fn audio() -> MediaStream {
    MediaStream {
        ssrc: 1337,
        payload_type: 97,
        content: MediaStreamContent::Audio(MediaStreamAudio { codec: AudioCodec::Opus }),
    }
}

fn packet(seq: u16, payload: &[u8]) -> Vec<u8> {
    let mut packet = vec![0x80, 96];
    packet.extend_from_slice(&seq.to_be_bytes());
    packet.extend_from_slice(&[0, 0, 0, 0, 0, 0, 5, 0x3a]);
    packet.extend_from_slice(payload);
    packet
}

fn router() -> Router {
    let mut router = Router::new();
    let mut manager = IngestManager::new();
    manager.spawn_socket(40);
    router.register_stream(&mut manager, 5, vec![video()], 40, addr().ip);
    let mut session = Session { handle: 77, state: SessionState::new() };
    router.add_route(&mut session, 5);
    router
}

#[test]
fn a_report_waits_for_more_than_sixteen_packets() {
    let mut stream = RTPStream::new(addr(), video(), 0);
    assert!(stream.push_sequence(100).is_empty());
    assert!(stream.push_sequence(101).is_empty());
    // 102 and 105 are missing.
    for seq in [103u16, 104] {
        assert!(stream.push_sequence(seq).is_empty());
    }
    for seq in 106u16..120 {
        assert!(stream.push_sequence(seq).is_empty());
    }
    // The seventeenth packet that waits: 102 and, three after it, 105.
    assert_eq!(stream.push_sequence(120), [(102, 0b101)]);
    assert!(stream.push_sequence(121).is_empty());
    assert!(stream.push_sequence(102).is_empty());
    assert!(stream.push_sequence(105).is_empty());
    assert!(stream.push_sequence(122).is_empty());
}

#[test]
fn distant_packets_are_reported_in_groups() {
    let mut stream = RTPStream::new(addr(), video(), 0);
    stream.push_sequence(0);
    let mut reported = vec![];
    for seq in 2u16..=30 {
        if seq != 16 && seq != 17 {
            reported.extend(stream.push_sequence(seq));
        }
    }
    // 1 is asked for with 16, which is fifteen after it; 17 starts another group.
    assert_eq!(reported, [(1, 1 | 1 << 14), (17, 1)]);
}

#[test]
fn a_gap_of_more_than_a_hundred_starts_over() {
    let mut stream = RTPStream::new(addr(), video(), 0);
    stream.push_sequence(65530);
    assert!(stream.push_sequence(95).is_empty());
    for seq in 96u16..140 {
        assert!(stream.push_sequence(seq).is_empty());
    }
}

#[test]
fn packets_in_order_are_not_reported() {
    let mut stream = RTPStream::new(addr(), video(), 0);
    for step in 0..200u16 {
        assert!(stream.push_sequence(65500u16.wrapping_add(step)).is_empty());
    }
}

#[test]
fn the_payload_follows_the_header() {
    assert_eq!(get_rtp_payload(&packet(1, &[1, 2])), Some(&[1u8, 2][..]));
    assert_eq!(get_rtp_payload(&packet(1, &[])), Some(&[][..]));
    assert_eq!(get_rtp_payload(&[0x80; 11]), None);
    let mut two_sources = packet(1, &[0; 8]);
    two_sources[0] = 0x82;
    two_sources.push(9);
    assert_eq!(get_rtp_payload(&two_sources), Some(&[9u8][..]));
    let mut extended = packet(1, &[0; 32]);
    extended[0] = 0x88;
    assert_eq!(get_rtp_payload(&extended), None);
    extended.extend_from_slice(&[0, 1, 0, 2, 3, 4, 5]);
    assert_eq!(get_rtp_payload(&extended), Some(&[5u8][..]));
}

#[test]
fn keyframes_are_recognised() {
    assert!(is_h264_keyframe(&[0x67, 0, 0, 0, 0, 0]));
    assert!(!is_h264_keyframe(&[0x67, 0, 0, 0, 0]));
    assert!(is_h264_keyframe(&[0x7c, 0x87, 0, 0, 0, 0]));
    assert!(is_h264_keyframe(&[0x7d, 0x87, 0, 0, 0, 0]));
    assert!(!is_h264_keyframe(&[0x7c, 0x85, 0, 0, 0, 0]));
    assert!(!is_h264_keyframe(&[0x61, 0x87, 0, 0, 0, 0]));
    // Aggregations: the parameters come first, second, or not at all.
    assert!(is_h264_keyframe(&[0x78, 0, 2, 0x67, 1, 2]));
    assert!(is_h264_keyframe(&[0x78, 0, 3, 0x68, 0, 9, 0x67]));
    assert!(!is_h264_keyframe(&[0x78, 0, 3, 0x68, 0, 9, 0x68]));
    assert!(!is_h264_keyframe(&[0x78, 1, 0, 0x68, 0, 9, 0x67]));
}

#[test]
fn malformed_packets_are_told() {
    assert!(is_well_formed(&[0x80; 11]));
    assert!(is_well_formed(&packet(1, &[])));
    assert!(is_well_formed(&packet(1, &[0x78, 0, 3, 0x68, 0, 9, 0x68])));
    assert!(is_well_formed(&packet(1, &[0x78, 0, 3, 0x68, 0, 0, 0x67])));
    // A unit of length zero is never left behind.
    assert!(!is_well_formed(&packet(1, &[0x78, 0, 3, 0x68, 0, 0, 0x68])));
    let mut short = packet(1, &[0; 7]);
    short[0] = 0x82;
    assert!(!is_well_formed(&short));
    let mut extended = packet(1, &[0; 36]);
    extended[0] = 0x88;
    assert!(is_well_formed(&extended));
    extended[12 + 35] = 1;
    assert!(!is_well_formed(&extended));
}

#[test]
fn missing_packets_are_asked_for() {
    let mut receiver = RTPReceiver::new(1445);
    receiver.insert_stream(5, 1338, RTPStream::new(addr(), video(), 0));
    assert!(receiver.send_nacks(5, 1, 0).is_none());
    assert!(receiver.send_nacks(5, 1338, 0).is_none());
    for seq in 2u16..18 {
        assert!(receiver.send_nacks(5, 1338, seq).is_none());
    }
    let sent = receiver.send_nacks(5, 1338, 18).unwrap();
    assert_eq!(sent.packet, [0x81, 205, 0, 3, 0, 0, 0, 0, 0, 0, 5, 0x3a, 0, 1, 0, 1]);
    assert_eq!(sent.addr, addr());
    assert!(receiver.send_nacks(5, 1338, 19).is_none());
}

#[test]
fn reports_of_a_sender_are_passed_on_and_answered() {
    let router = router();
    let mut receiver = RTPReceiver::new(1445);
    receiver.insert_stream(5, 1338, RTPStream::new(addr(), video(), 0));
    let clock = Clock { seconds: 10, nanoseconds: 20 };
    let report = RTCPHeader { payload_type: 200, ssrc: 1338 };
    let payload = [0x80, 200, 0, 1, 0, 0, 5, 0x3a];
    assert!(receiver.handle_sender_report(6, 1338, report, &payload, 3, clock, &router).is_none());
    let outcome =
        receiver.handle_sender_report(5, 1338, report, &payload, 3, clock, &router).unwrap();
    assert_eq!(outcome.relay.subscribers, [77]);
    assert_eq!(outcome.relay.data, payload);
    let reply = outcome.reply.unwrap();
    assert_eq!(reply.packet, [0x81, 250, 0, 0, 0, 0, 0, 10, 0, 0, 0, 20]);
    assert_eq!(reply.addr, addr());
    let other = RTCPHeader { payload_type: 201, ssrc: 1338 };
    let outcome =
        receiver.handle_sender_report(5, 1338, other, &payload, 4, clock, &router).unwrap();
    assert!(outcome.reply.is_none());
}

#[test]
fn a_stream_notes_its_sender_reports() {
    let mut stream = RTPStream::new(addr(), audio(), 7);
    assert_eq!(stream.last_sender_report(), None);
    stream.note_sender_report(9);
    assert_eq!(stream.last_sender_report(), Some(9));
    assert_eq!(stream.addr(), addr());
    assert_eq!(stream.media_stream(), audio());
}

#[test]
fn what_is_kept_starts_with_the_last_keyframe() {
    let mut router = router();
    let mut receiver = RTPReceiver::new(1445);
    receiver.insert_stream(5, 1338, RTPStream::new(addr(), video(), 0));
    let plain = packet(1, &[0x61, 0, 0, 0, 0, 0]);
    let keyframe = packet(2, &[0x67, 0, 0, 0, 0, 0]);
    for bytes in [&plain, &keyframe, &plain] {
        let header = RTPHeader::parse(bytes).unwrap();
        receiver.handle_rtp_packet(5, 1338, header, bytes, &mut router);
    }
    let kept = &router.get_stream(5).unwrap().keyframe_buffer[&1338];
    assert_eq!(kept, &vec![keyframe, plain]);
}

#[test]
fn only_video_of_known_streams_is_kept() {
    let mut router = router();
    let mut receiver = RTPReceiver::new(1445);
    receiver.insert_stream(5, 1337, RTPStream::new(addr(), audio(), 0));
    receiver.insert_stream(6, 1338, RTPStream::new(addr(), video(), 0));
    assert_eq!(receiver.media_stream(5, 1337), Some(audio()));
    assert_eq!(receiver.media_stream(5, 1338), None);
    let bytes = packet(1, &[0x67, 0, 0, 0, 0, 0]);
    let header = RTPHeader::parse(&bytes).unwrap();
    for (stream_id, ssrc) in [(5, 1337), (6, 1338), (5, 1338)] {
        assert!(receiver
            .handle_rtp_packet(stream_id, ssrc, header, &bytes, &mut router)
            .is_none());
    }
    assert!(router.get_stream(5).unwrap().keyframe_buffer.is_empty());
}
