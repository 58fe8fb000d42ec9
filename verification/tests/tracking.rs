use bytes::Bytes;
use staafmixer::manager::IngestManager;
use staafmixer::router::{Router, Session, SessionState};
use staafmixer::rpc::{
    AudioCodec, IpAddr, MediaStream, MediaStreamAudio, MediaStreamContent, MediaStreamVideo,
    SocketAddr, VideoCodec,
};
use staafmixer::rtp_connection::{
    wrapping_difference, Clock, RtpConnection, RtpMessageTracker, RtpStream, StreamOutcome,
    TrackerStatus, UdpRtpMessage,
};
use staafmixer::rtp_utils::MuxedRtp;

const CLOCK: Clock = Clock { seconds: 1, nanoseconds: 2 };

fn video() -> MediaStream {
    MediaStream {
        ssrc: 1338,
        payload_type: 96,
        content: MediaStreamContent::Video(MediaStreamVideo {
            codec: VideoCodec::H264,
            width: 1280,
            height: 720,
        }),
    }
}

fn audio() -> MediaStream {
    MediaStream {
        ssrc: 1337,
        payload_type: 97,
        content: MediaStreamContent::Audio(MediaStreamAudio { codec: AudioCodec::Opus }),
    }
}

fn peer() -> SocketAddr {
    SocketAddr { ip: IpAddr::V4(0x7f000001), port: 40, flowinfo: 0, scope_id: 0 }
}

fn rtp_packet(ssrc: u32, seq: u16) -> Vec<u8> {
    let mut packet = vec![0x80, 96];
    packet.extend_from_slice(&seq.to_be_bytes());
    packet.extend_from_slice(&[0, 0, 0, 0]);
    packet.extend_from_slice(&ssrc.to_be_bytes());
    packet.push(1);
    packet
}

fn message(packet: Vec<u8>) -> UdpRtpMessage {
    UdpRtpMessage {
        address: peer(),
        rtp: MuxedRtp::parse(&packet).unwrap(),
        data: Bytes::from(packet),
    }
}

/// A router that knows the stream 5, which the session 77 receives.
fn router() -> Router {
    let mut router = Router::new();
    let mut manager = IngestManager::new();
    manager.spawn_socket(40);
    router.register_stream(&mut manager, 5, vec![video()], 40, peer().ip);
    let mut session = Session { handle: 77, state: SessionState::new() };
    router.add_route(&mut session, 5);
    router
}

#[test]
fn differences_wrap() {
    assert_eq!(wrapping_difference(3, 3), 0);
    assert_eq!(wrapping_difference(3, 5), 2);
    assert_eq!(wrapping_difference(65535, 0), 1);
    assert_eq!(wrapping_difference(5, 3), 65534);
}

#[test]
fn packets_in_order_are_in_sync() {
    let mut tracker = RtpMessageTracker::new(65530);
    for step in 1..20u16 {
        assert_eq!(tracker.track(65530u16.wrapping_add(step)), TrackerStatus::InSync);
    }
    // A packet that comes again changes nothing.
    assert_eq!(tracker.track(13), TrackerStatus::InSync);
    // The last packet in sequence is also the latest: the walk goes all the way round.
    assert_eq!(tracker.get_and_mark_nacks().len(), 65535);
}

#[test]
fn swapped_packets_are_in_sync_again() {
    let mut tracker = RtpMessageTracker::new(0);
    assert_eq!(tracker.track(2), TrackerStatus::MissingPackets(2));
    assert_eq!(tracker.track(1), TrackerStatus::InSync);
    assert_eq!(tracker.track(3), TrackerStatus::InSync);
}

#[test]
fn the_order_of_arrival_does_not_matter() {
    let mut forward = RtpMessageTracker::new(0);
    let mut backward = RtpMessageTracker::new(0);
    for seq in [1u16, 2, 4, 5, 8] {
        forward.track(seq);
    }
    for seq in [8u16, 5, 4, 2, 1] {
        backward.track(seq);
    }
    assert_eq!(forward.get_and_mark_nacks(), [3, 6, 7]);
    assert_eq!(backward.get_and_mark_nacks(), [3, 6, 7]);
}

#[test]
fn missing_packets_are_asked_for_once() {
    let mut tracker = RtpMessageTracker::new(0);
    assert_eq!(tracker.track(1), TrackerStatus::InSync);
    assert_eq!(tracker.track(4), TrackerStatus::MissingPackets(3));
    assert_eq!(tracker.get_and_mark_nacks(), [2, 3]);
    assert!(tracker.get_and_mark_nacks().is_empty());
    assert_eq!(tracker.track(6), TrackerStatus::MissingPackets(5));
    assert_eq!(tracker.get_and_mark_nacks(), [5]);
    assert_eq!(tracker.track(2), TrackerStatus::MissingPackets(4));
    assert_eq!(tracker.track(3), TrackerStatus::MissingPackets(2));
    assert_eq!(tracker.track(5), TrackerStatus::InSync);
}

#[test]
fn too_many_missing_packets_are_out_of_sync() {
    let mut tracker = RtpMessageTracker::new(0);
    assert_eq!(tracker.track(60), TrackerStatus::MissingPackets(60));
    assert_eq!(tracker.track(120), TrackerStatus::OutOfSync);
    tracker.reset(120);
    assert_eq!(tracker.track(121), TrackerStatus::InSync);
    // A jump of a hundred or more does not count as the latest.
    assert_eq!(tracker.track(221), TrackerStatus::MissingPackets(0));
}

#[test]
fn missing_packets_are_asked_for_beyond_fifteen() {
    let router = router();
    let mut stream = RtpStream::new(video(), 5);
    assert!(matches!(
        stream.handle_message(&message(rtp_packet(1338, 15)), CLOCK, &router),
        StreamOutcome::Rtp { nacks: None, .. }
    ));
    match stream.handle_message(&message(rtp_packet(1338, 18)), CLOCK, &router) {
        StreamOutcome::Rtp { nacks: Some(nacks), relay } => {
            // The group of 1 reaches up to 16; 17 starts another one.
            assert_eq!(
                &nacks[..],
                [0x81, 205, 0, 4, 0, 0, 0, 0, 0, 0, 5, 0x3a, 0, 1, 0, 1, 0, 17, 0, 1]
            );
            assert_eq!(relay.data, rtp_packet(1338, 18));
            assert_eq!(relay.length, 13);
            assert!(relay.video);
            assert_eq!(relay.subscribers, [77]);
        }
        other => panic!("{:?}", other),
    }
    assert!(stream.send_nacks().is_none());
}

#[test]
fn an_out_of_sync_stream_starts_over() {
    let router = router();
    let mut stream = RtpStream::new(video(), 5);
    for seq in [90u16, 150] {
        stream.handle_message(&message(rtp_packet(1338, seq)), CLOCK, &router);
    }
    match stream.handle_message(&message(rtp_packet(1338, 151)), CLOCK, &router) {
        StreamOutcome::Rtp { nacks, .. } => assert!(nacks.is_none()),
        other => panic!("{:?}", other),
    }
}

#[test]
fn sender_reports_are_answered_with_the_time() {
    let router = router();
    let mut stream = RtpStream::new(video(), 5);
    let report = vec![0x80, 200, 0, 1, 0, 0, 5, 0x3a];
    match stream.handle_message(&message(report), CLOCK, &router) {
        StreamOutcome::Reply(packet) => {
            assert_eq!(packet, [0x81, 250, 0, 0, 0, 0, 0, 1, 0, 0, 0, 2]);
        }
        other => panic!("{:?}", other),
    }
    let other = vec![0x80, 202, 0, 1, 0, 0, 5, 0x3a];
    match stream.handle_message(&message(other.clone()), CLOCK, &router) {
        StreamOutcome::Rtcp(relay) => {
            assert_eq!(relay.data, other);
            assert_eq!(relay.length, 8);
            assert_eq!(relay.subscribers, [77]);
        }
        other => panic!("{:?}", other),
    }
}

#[test]
fn long_packets_have_a_negative_length() {
    let router = router();
    let mut stream = RtpStream::new(audio(), 6);
    let mut packet = rtp_packet(1337, 1);
    packet.resize(0x8001, 0);
    match stream.handle_message(&message(packet), CLOCK, &router) {
        StreamOutcome::Rtp { relay, .. } => {
            assert_eq!(relay.length, -32767);
            assert!(!relay.video);
            assert!(relay.subscribers.is_empty());
        }
        other => panic!("{:?}", other),
    }
}

#[test]
fn a_connection_serves_the_stream_of_a_source() {
    let router = router();
    let mut connection = RtpConnection::new(3, &vec![video(), audio()], 5);
    assert_eq!(connection.handle(), 3);
    match connection.handle_message(&message(rtp_packet(1337, 1)), CLOCK, &router) {
        Some(StreamOutcome::Rtp { relay, .. }) => assert!(!relay.video),
        other => panic!("{:?}", other),
    }
    assert!(connection.handle_message(&message(rtp_packet(9, 1)), CLOCK, &router).is_none());
}
