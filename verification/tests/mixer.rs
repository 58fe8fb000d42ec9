use staafmixer::manager::{start_ingest, IngestManager};
use staafmixer::plugin::{describe_streams, get_free_port, handle_message, init, Refusal, Reply};
use staafmixer::reports::read_receiver_report;
use staafmixer::router::{Router, Session, SessionState};
use staafmixer::rpc::{
    AudioCodec, IpAddr, MediaStream, MediaStreamAudio, MediaStreamContent, MediaStreamVideo,
    RegisterStream, StaafRPC, VideoCodec,
};

const HOST: IpAddr = IpAddr::V4(0x7f000001);

fn video(codec: VideoCodec) -> MediaStream {
    MediaStream {
        ssrc: 1338,
        payload_type: 96,
        content: MediaStreamContent::Video(MediaStreamVideo { codec, width: 0, height: 0 }),
    }
}

fn audio() -> MediaStream {
    MediaStream {
        ssrc: 1337,
        payload_type: 97,
        content: MediaStreamContent::Audio(MediaStreamAudio { codec: AudioCodec::Opus }),
    }
}

fn session() -> Option<Session> {
    Some(Session { handle: 7, state: SessionState::new() })
}

fn register() -> Option<StaafRPC> {
    Some(StaafRPC::RegisterStream(RegisterStream {
        media_streams: vec![video(VideoCodec::H264), audio()],
        peer_addr: HOST,
        stream_id: 5,
    }))
}

fn mixer() -> (Router, IngestManager) {
    let mut manager = IngestManager::new();
    start_ingest(&mut manager);
    (Router::new(), manager)
}

fn refusal(reply: Reply) -> &'static str {
    match reply {
        Reply::Refused(refusal) => refusal.message(),
        other => panic!("{:?}", other),
    }
}

#[test]
fn a_stream_is_registered_on_a_port() {
    let (mut router, mut manager) = mixer();
    match handle_message(&mut router, &mut manager, &mut None, register()) {
        Reply::StreamRegistered { port, connection } => {
            assert_eq!(port, 1445);
            assert_eq!(connection.handle(), 0);
        }
        other => panic!("{:?}", other),
    }
    assert_eq!(router.get_stream_id(1338, 1445, HOST), Some(5));
    assert_eq!(get_free_port(&vec![audio()]), 1445);
}

#[test]
fn a_session_subscribes_to_one_stream() {
    let (mut router, mut manager) = mixer();
    let mut session = session();
    let subscribe = |stream_id| Some(StaafRPC::Subscribe { stream_id });
    let reply = handle_message(&mut router, &mut manager, &mut session, subscribe(5));
    assert!(matches!(reply, Reply::Done));
    let reply = handle_message(&mut router, &mut manager, &mut session, subscribe(6));
    assert_eq!(refusal(reply), "No multistream support yet");
    assert_eq!(session.as_ref().unwrap().state.subscribed_to(), [5]);
    handle_message(&mut router, &mut manager, &mut session, register());
    assert_eq!(router.get_subscribers(5), [7]);
    let unsubscribe = Some(StaafRPC::Unsubscribe { stream_id: 5 });
    let reply = handle_message(&mut router, &mut manager, &mut session, unsubscribe);
    assert!(matches!(reply, Reply::Done));
    assert!(router.get_subscribers(5).is_empty());
    // What was subscribed to stays noted.
    assert_eq!(session.unwrap().state.subscribed_to(), [5]);
}

#[test]
fn requests_are_refused() {
    let (mut router, mut manager) = mixer();
    let mut ask = |message| refusal(handle_message(&mut router, &mut manager, &mut None, message));
    assert_eq!(ask(None), "Message not found");
    assert_eq!(ask(Some(StaafRPC::Subscribe { stream_id: 5 })), "Session not found");
    assert_eq!(ask(Some(StaafRPC::Unsubscribe { stream_id: 5 })), "Session not found");
    assert_eq!(ask(Some(StaafRPC::Offer)), "Session not found");
    assert_eq!(ask(Some(StaafRPC::StreamRegistered { port: 1 })), "Answer given as request");
    assert_eq!(Refusal::NoMultistream.message(), "No multistream support yet");
    let reply = handle_message(&mut router, &mut manager, &mut None, Some(StaafRPC::Answer));
    assert!(matches!(reply, Reply::Done));
}

#[test]
fn subscribers_are_offered_their_stream() {
    let (mut router, mut manager) = mixer();
    let mut session = session();
    let mut ask = |message| handle_message(&mut router, &mut manager, &mut session, message);
    assert!(matches!(ask(Some(StaafRPC::Offer)), Reply::NothingToOffer));
    ask(Some(StaafRPC::Subscribe { stream_id: 5 }));
    assert!(matches!(ask(Some(StaafRPC::Offer)), Reply::Offer(lines) if lines.is_empty()));
    ask(register());
    let lines = match ask(Some(StaafRPC::Offer)) {
        Reply::Offer(lines) => lines,
        other => panic!("{:?}", other),
    };
    assert_eq!(lines.len(), 2);
    assert!(lines[0].video);
    assert_eq!(lines[0].port, 1);
    assert_eq!(lines[0].protocol, "UDP/TLS/RTP/SAVPF");
    assert_eq!(lines[0].payload_type, 96);
    assert_eq!(lines[0].rtpmap, "96 H264/90000");
    assert_eq!(
        lines[0].fmtp.as_deref(),
        Some("96 profile-level-id=42e01f;level-asymmetry-allowed=1")
    );
    assert!(!lines[1].video);
    assert_eq!(lines[1].payload_type, 97);
    assert_eq!(lines[1].rtpmap, "97 opus/48000/2");
    assert_eq!(lines[1].fmtp, None);
}

#[test]
fn offers_follow_the_order_of_streams() {
    let (mut router, mut manager) = mixer();
    router.register_stream(&mut manager, 5, vec![video(VideoCodec::VP9)], 1445, HOST);
    router.register_stream(&mut manager, 6, vec![audio()], 1445, HOST);
    let maps = |ids: Vec<u32>| {
        describe_streams(&router, &ids)
            .into_iter()
            .map(|line| line.rtpmap)
            .collect::<Vec<_>>()
    };
    assert_eq!(maps(vec![6, 4, 5]), ["97 opus/48000/2", "96 VP9/90000"]);
    assert!(maps(vec![]).is_empty());
}

#[test]
fn a_stream_is_there_from_the_start() {
    let mut manager = IngestManager::new();
    manager.spawn_socket(40);
    let (router, connection) = init(&mut manager);
    assert_eq!(connection.handle(), 0);
    let stream = router.get_stream(1337).unwrap();
    assert_eq!(stream.port, 40);
    assert_eq!(stream.peer_addr, HOST);
    assert_eq!(stream.media_streams.len(), 2);
    assert_eq!(router.get_stream_id(1338, 40, HOST), Some(1337));
    assert_eq!(router.get_stream_id(1337, 40, HOST), Some(1337));
}

#[test]
fn receiver_reports_are_read() {
    let mut packet = vec![0x81, 201, 0, 7, 0, 0, 0, 1];
    packet.extend_from_slice(&[0, 0, 5, 0x3a, 9, 1, 2, 3, 0, 4, 0, 5]);
    packet.extend_from_slice(&[0, 0, 0, 6, 0, 0, 0, 7, 0, 0, 0]);
    assert!(read_receiver_report(packet.clone()).is_none());
    packet.extend_from_slice(&[8, 0xaa, 0xbb]);
    let block = read_receiver_report(packet).unwrap();
    assert_eq!(block.ssrc, 1338);
    assert_eq!(block.fraction_lost, 9);
    assert_eq!(block.cumulative_pkts_lost, 0x010203);
    assert_eq!(block.cycles, 4);
    assert_eq!(block.sequence, 5);
    assert_eq!(block.interarrival_jitter, 6);
    assert_eq!(block.last_sr_timestamp, 7);
    assert_eq!(block.last_sr_delay, 8);
    assert_eq!(block.payload, [0xaa, 0xbb]);
    assert!(read_receiver_report(vec![0; 7]).is_none());
}
