use bytes::Bytes;
use staafmixer::manager::{start_ingest, IngestManager};
use staafmixer::message_handler::MessageHandler;
use staafmixer::router::{HandleMap, IncomingStreamHandle, Router, Session, SessionState};
use staafmixer::rpc::{
    AudioCodec, IpAddr, MediaStream, MediaStreamAudio, MediaStreamContent, SocketAddr,
};
use staafmixer::rtp_connection::UdpMessage;
use staafmixer::stream_map::StreamMap;
use staafmixer::udp_consumer::UdpConsumer;

const HOST: IpAddr = IpAddr::V4(0x7f000001);

fn audio(ssrc: u32) -> MediaStream {
    MediaStream {
        ssrc,
        payload_type: 97,
        content: MediaStreamContent::Audio(MediaStreamAudio { codec: AudioCodec::Opus }),
    }
}

fn session(handle: u64) -> Session {
    Session { handle, state: SessionState::new() }
}

fn manager() -> IngestManager {
    let mut manager = IngestManager::new();
    start_ingest(&mut manager);
    manager
}

#[test]
fn subscribers_receive_a_registered_stream() {
    let mut router = Router::new();
    let mut manager = manager();
    router.register_stream(&mut manager, 5, vec![audio(1)], 1445, HOST);
    let mut first = session(7);
    router.connect(7);
    assert!(router.get_subscribers(5).is_empty());
    router.add_route(&mut first, 5);
    assert_eq!(router.get_subscribers(5), [7]);
    assert_eq!(first.state.subscribed_to(), [5]);
    assert!(!first.state.is_empty());
}

#[test]
fn early_subscribers_receive_the_stream_once_it_is_registered() {
    let mut router = Router::new();
    let mut manager = manager();
    let (mut first, mut second) = (session(7), session(8));
    router.add_route(&mut first, 5);
    router.add_route(&mut second, 5);
    assert!(router.get_subscribers(5).is_empty());
    assert!(router.get_stream(5).is_none());
    router.register_stream(&mut manager, 5, vec![audio(1)], 1445, HOST);
    assert_eq!(router.get_subscribers(5), [7, 8]);
    // Those who wait are taken once: a stream that is registered again starts without them.
    router.register_stream(&mut manager, 5, vec![audio(1)], 1445, HOST);
    assert!(router.get_subscribers(5).is_empty());
}

#[test]
fn a_disconnected_session_receives_nothing() {
    let mut router = Router::new();
    let mut manager = manager();
    let (mut first, mut second) = (session(7), session(8));
    router.connect(7);
    router.register_stream(&mut manager, 5, vec![audio(1)], 1445, HOST);
    router.add_route(&mut first, 5);
    router.add_route(&mut first, 6);
    router.add_route(&mut second, 5);
    router.disconnect(&first);
    assert_eq!(router.get_subscribers(5), [8]);
    router.register_stream(&mut manager, 6, vec![audio(2)], 1445, HOST);
    assert!(router.get_subscribers(6).is_empty());
}

#[test]
fn a_route_is_removed() {
    let mut router = Router::new();
    let mut manager = manager();
    let (mut first, mut second) = (session(7), session(8));
    router.register_stream(&mut manager, 5, vec![audio(1)], 1445, HOST);
    router.add_route(&mut first, 5);
    router.add_route(&mut second, 5);
    router.add_route(&mut first, 5);
    router.remove_route(7, 5);
    assert_eq!(router.get_subscribers(5), [8]);
    router.remove_route(8, 9);
    assert_eq!(router.get_subscribers(5), [8]);
}

#[test]
fn packets_are_recognised_until_the_stream_is_destroyed() {
    let mut router = Router::new();
    let mut manager = manager();
    router.register_stream(&mut manager, 5, vec![audio(1), audio(2)], 1445, HOST);
    assert_eq!(router.get_stream_id(1, 1445, HOST), Some(5));
    assert_eq!(router.get_stream_id(2, 1445, HOST), Some(5));
    assert_eq!(router.get_stream_id(3, 1445, HOST), None);
    assert_eq!(router.get_stream_id(1, 1446, HOST), None);
    assert_eq!(router.get_stream_id(1, 1445, IpAddr::V6(0x7f000001)), None);
    assert_eq!(router.get_stream(5).unwrap().media_streams, [audio(1), audio(2)]);
    router.get_stream_mut(5).unwrap().subscribers.push(9);
    assert_eq!(router.get_subscribers(5), [9]);
    assert!(router.get_stream_mut(6).is_none());
    router._destroy_stream(5);
    assert!(router.get_stream(5).is_none());
    assert_eq!(router.get_stream_id(1, 1445, HOST), None);
    assert!(router.get_subscribers(5).is_empty());
}

#[test]
fn handles_are_kept_apart() {
    let handle = |ssrc, peer_addr| IncomingStreamHandle { ssrc, incoming_port: 1445, peer_addr };
    let mut map = HandleMap::new();
    map.insert(handle(1, HOST), 5);
    map.insert(handle(1, IpAddr::V6(1)), 6);
    map.insert(handle(1, HOST), 7);
    assert_eq!(map.get(&handle(1, HOST)), Some(7));
    assert_eq!(map.get(&handle(1, IpAddr::V6(1))), Some(6));
    map.remove(&handle(1, HOST));
    assert_eq!(map.get(&handle(1, HOST)), None);

    let mut map = StreamMap::new();
    assert_eq!(map.get(&handle(1, HOST)), None);
    map.insert(handle(1, HOST), 5);
    map.insert(handle(1, IpAddr::V6(0x7f000001)), 6);
    map.insert(handle(2, HOST), 7);
    assert_eq!(map.get(&handle(1, HOST)), Some(5));
    assert_eq!(map.get(&handle(1, IpAddr::V6(0x7f000001))), Some(6));
    map.insert(handle(1, HOST), 8);
    assert_eq!(map.get(&handle(1, HOST)), Some(8));
}

#[test]
fn packets_go_to_the_connection_of_their_stream() {
    let mut router = Router::new();
    let mut manager = manager();
    assert!(manager.has_socket(1445));
    assert!(!manager.has_socket(40));
    let first = router.register_stream(&mut manager, 5, vec![audio(1)], 1445, HOST);
    let second = router.register_stream(&mut manager, 6, vec![audio(2)], 1445, HOST);
    assert_ne!(first.handle(), second.handle());
    let handler = MessageHandler::handler_for(1445);
    let datagram = |ssrc: u8, kind: u8| UdpMessage {
        address: SocketAddr { ip: HOST, port: 9, flowinfo: 0, scope_id: 0 },
        data: Bytes::from(vec![0x80, kind, 0, 1, 0, 0, 0, ssrc, 0, 0, 0, ssrc]),
    };
    for kind in [96, 200] {
        let (connection, routed) =
            handler.route(datagram(2, kind), manager.stream_map()).unwrap();
        assert_eq!(connection, second.handle());
        assert_eq!(routed.rtp.ssrc(), 2);
        assert_eq!(&routed.data[..2], [0x80, kind]);
    }
    assert!(handler.route(datagram(3, 96), manager.stream_map()).is_none());
    assert!(MessageHandler::handler_for(40)
        .route(datagram(1, 96), manager.stream_map())
        .is_none());
    let short = UdpMessage {
        address: SocketAddr { ip: HOST, port: 9, flowinfo: 0, scope_id: 0 },
        data: Bytes::from(vec![0x80, 96]),
    };
    assert!(handler.route(short, manager.stream_map()).is_none());
}

#[test]
fn datagrams_are_taken_out_of_the_buffer() {
    let mut consumer = UdpConsumer::new();
    assert_eq!(consumer.buffer.len(), 65536);
    consumer.buffer[..3].copy_from_slice(&[1, 2, 3]);
    let address = SocketAddr { ip: HOST, port: 9, flowinfo: 0, scope_id: 0 };
    let message = consumer.take_message(2, address);
    assert_eq!(&message.data[..], [1, 2]);
    assert_eq!(message.address, address);
    assert_eq!(consumer.buffer.len(), 65536);
    assert!(consumer.buffer.iter().all(|byte| *byte == 0));
    consumer.count_dropped();
    assert_eq!(consumer.drop_counter, 1);
}
