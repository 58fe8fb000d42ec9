use ring::hmac::{sign, Key, HMAC_SHA512};
use staafmixer::consts::{INGEST_PING_PORT, INGEST_PORT};
use staafmixer::ingest::{
    answer_ping, read_connect_command, registered_port, ControlConnection, Stage,
};
use staafmixer::rpc::{
    AudioCodec, IpAddr, MediaStream, MediaStreamAudio, MediaStreamContent, MediaStreamVideo,
    SocketAddr, StaafRPC, VideoCodec,
};

const SECRET: [u8; 8] = [1, 2, 3, 15, 16, 0, 255, 0xab];

fn addr() -> SocketAddr {
    SocketAddr { ip: IpAddr::V4(0x0a000001), port: 9, flowinfo: 0, scope_id: 0 }
}

fn signature() -> String {
    hex::encode(sign(&Key::new(HMAC_SHA512, b"staaf"), &SECRET).as_ref())
}

fn challenged() -> ControlConnection {
    let mut connection = ControlConnection::with_secret(addr(), SECRET);
    assert_eq!(connection.stage(), Stage::Greeting);
    let challenge = connection.handshake(b"HMAC\r\n\r\n").unwrap();
    assert_eq!(challenge.as_deref(), Some("200 0102030f1000ffab\n"));
    assert_eq!(connection.stage(), Stage::Command);
    connection
}

fn admitted(channel: &str) -> ControlConnection {
    let mut connection = challenged();
    let command = format!("CONNECT {} ${}\r\n\r\n", channel, signature());
    let answer = connection.handshake(command.as_bytes()).unwrap();
    assert_eq!(answer.as_deref(), Some("200\n"));
    assert_eq!(connection.stage(), Stage::StreamInfo);
    connection
}

fn refused(command: &[u8]) {
    let mut connection = challenged();
    assert!(connection.handshake(command).is_err());
    assert_eq!(connection.channel_id(), None);
    assert_eq!(connection.stage(), Stage::Command);
}

#[test]
fn a_conversation_leads_to_a_port() {
    let mut connection = admitted("77");
    assert_eq!(connection.channel_id(), Some(77));
    let lines = [
        "ProtocolVersion: 0.9\r\n\r\n",
        "VendorName: OBS Studio\r\n\r\n",
        "VendorVersion: 26.0.0\r\n\r\n",
        "Video: true\r\n\r\n",
        "VideoCodec: H264\r\n\r\n",
        "VideoHeight: 720\r\n\r\n",
        "VideoWidth: 1280\r\n\r\n",
        "VideoPayloadType: 96\r\n\r\n",
        "VideoIngestSSRC: 1338\r\n\r\n",
        "Audio: true\r\n\r\n",
        "AudioCodec: OPUS\r\n\r\n",
        "AudioPayloadType: 97\r\n\r\n",
        "AudioIngestSSRC: 1337\r\n\r\n",
    ];
    for line in lines {
        assert_eq!(connection.read_stream_info(line.as_bytes()), Ok(false));
    }
    assert_eq!(connection.read_stream_info(b".\r\n\r\n"), Ok(true));
    assert_eq!(connection.stage(), Stage::Announced);
    assert_eq!(connection.metadata("VendorName").unwrap(), "OBS Studio");
    assert!(connection.metadata("Vendor").is_none());
    let request = connection.register_request().unwrap();
    assert_eq!(request.stream_id, 77);
    assert_eq!(request.peer_addr, addr().ip);
    assert_eq!(
        request.media_streams,
        [
            MediaStream {
                ssrc: 1338,
                payload_type: 96,
                content: MediaStreamContent::Video(MediaStreamVideo {
                    codec: VideoCodec::H264,
                    width: 0,
                    height: 0,
                }),
            },
            MediaStream {
                ssrc: 1337,
                payload_type: 97,
                content: MediaStreamContent::Audio(MediaStreamAudio { codec: AudioCodec::Opus }),
            },
        ]
    );
    assert_eq!(connection.send_port(1337), "200. Use UDP port 1337\n");
    assert_eq!(connection.send_ping(), "201");
}

#[test]
fn a_random_secret_is_announced_in_hex() {
    let mut connection = ControlConnection::new(addr());
    let challenge = connection.handshake(b"HMAC\r\n\r\n").unwrap().unwrap();
    assert_eq!(challenge.len(), 21);
    assert!(challenge.starts_with("200 "));
    assert!(challenge[4..20].chars().all(|digit| digit.is_ascii_hexdigit()));
    let mut others = (0..8).map(|_| {
        let mut other = ControlConnection::new(addr());
        other.handshake(b"HMAC\r\n\r\n").unwrap().unwrap()
    });
    assert!(others.any(|other| other != challenge));
}

#[test]
fn a_wrong_greeting_is_refused() {
    let mut connection = ControlConnection::with_secret(addr(), SECRET);
    assert!(connection.handshake(b"HMAC\r\n\r ").is_err());
    assert!(connection.handshake(b"HMAC\r\n").is_err());
    assert_eq!(connection.stage(), Stage::Greeting);
}

#[test]
fn a_command_may_arrive_in_pieces() {
    let mut connection = challenged();
    let command = format!("CONNECT 18446744073709551615 ${}\r\n\r\n", signature());
    let (first, rest) = command.as_bytes().split_at(30);
    assert_eq!(connection.room(), 1024);
    assert_eq!(connection.handshake(first), Ok(None));
    assert_eq!(connection.room(), 994);
    assert_eq!(connection.handshake(rest), Ok(Some("200\n".to_string())));
    assert_eq!(connection.channel_id(), Some(u64::MAX));
}

#[test]
fn signatures_may_be_in_upper_case() {
    let mut connection = challenged();
    let command = format!("CONNECT +5 ${}\r\n\r\n", signature().to_uppercase());
    assert!(connection.handshake(command.as_bytes()).is_ok());
    assert_eq!(connection.channel_id(), Some(5));
}

#[test]
fn a_wrong_command_is_refused() {
    let good = signature();
    refused(b"");
    refused(format!("CONNECT 5 ${}00\r\n\r\n", &good[2..]).as_bytes());
    refused(b"CONNECT 5 $\r\n\r\n");
    refused(format!("CONNECT 5 ${}\r\n\r\n", &good[1..]).as_bytes());
    refused(format!("CONNECT 5 $g{}\r\n\r\n", &good[1..]).as_bytes());
    refused(format!("CONNECT 5 {}\r\n\r\n", good).as_bytes());
    refused(format!("CONNECT 5 ${} \r\n\r\n", good).as_bytes());
    refused(format!("CONNECT  ${}\r\n\r\n", good).as_bytes());
    refused(format!("CONNECT 18446744073709551616 ${}\r\n\r\n", good).as_bytes());
    refused(format!("CONNECT -5 ${}\r\n\r\n", good).as_bytes());
    refused(format!("connect 5 ${}\r\n\r\n", good).as_bytes());
    refused(b"CONNECT 5\r\n\r\n");
    refused(b"\xff\r\n\r\n");
    refused(&[b'A'; 1024]);
    let mut connection = challenged();
    assert_eq!(connection.handshake(&[b'A'; 1023]), Ok(None));
    assert!(connection.handshake(b"A").is_err());
}

#[test]
fn commands_are_read() {
    assert_eq!(
        read_connect_command(b"CONNECT 7 $00fF\r\n\r\n"),
        Some((7, vec![0, 255]))
    );
    assert_eq!(read_connect_command(b"CONNECT 7 $\r\n\r\n"), Some((7, vec![])));
    assert_eq!(read_connect_command(b"CONNECT 7 $0\r\n\r\n"), None);
    assert_eq!(read_connect_command(b"CONNECT 7 $\r\n"), None);
}

#[test]
fn a_verdict_decides() {
    let mut connection = challenged();
    assert!(connection.conclude(9, false).is_err());
    assert_eq!(connection.channel_id(), None);
    assert_eq!(connection.conclude(9, true).unwrap(), "200\n");
    assert_eq!(connection.channel_id(), Some(9));
}

#[test]
fn a_wrong_announcement_is_refused() {
    assert!(admitted("5").read_stream_info(b"").is_err());
    assert!(admitted("5").read_stream_info(b"Video\r\n\r\n.\r\n\r\n").is_err());
    assert!(admitted("5").read_stream_info(b"\xff: 1\r\n\r\n.\r\n\r\n").is_err());
    // The announcement ends with a dot, but no line is one.
    let mut connection = admitted("5");
    assert!(connection.read_stream_info(b"Version: 1.\r\n\r\n").is_err());
    assert_eq!(connection.metadata("Version").unwrap(), "1.");
}

#[test]
fn values_may_hold_colons() {
    let mut connection = admitted("5");
    assert_eq!(connection.read_stream_info(b"a: b: c\r\n\r\na:: d\r\n\r\n.\r\n\r\n"), Ok(true));
    assert_eq!(connection.metadata("a").unwrap(), "b: c");
    assert_eq!(connection.metadata("a:").unwrap(), "d");
}

#[test]
fn requests_need_a_channel_and_numbers() {
    let fresh = ControlConnection::with_secret(addr(), SECRET);
    assert!(fresh.register_request().is_err());
    let request = |announcement: &str| {
        let mut connection = admitted("4294967298");
        assert_eq!(connection.read_stream_info(announcement.as_bytes()), Ok(true));
        connection.register_request()
    };
    let nothing = request(".\r\n\r\n").unwrap();
    assert!(nothing.media_streams.is_empty());
    assert_eq!(nothing.stream_id, 2);
    assert!(request("Video: True\r\n\r\n.\r\n\r\n").unwrap().media_streams.is_empty());
    assert!(request("Video: true\r\n\r\n.\r\n\r\n").is_err());
    assert!(request("Audio: true\r\n\r\nAudioIngestSSRC: 1\r\n\r\n.\r\n\r\n").is_err());
    assert!(request(
        "Audio: true\r\n\r\nAudioIngestSSRC: 4294967296\r\n\r\nAudioPayloadType: 1\r\n\r\n.\r\n\r\n"
    )
    .is_err());
    assert!(request(
        "Audio: true\r\n\r\nAudioIngestSSRC: 1\r\n\r\nAudioPayloadType: 65536\r\n\r\n.\r\n\r\n"
    )
    .is_err());
}

#[test]
fn only_a_registration_has_a_port() {
    assert_eq!(registered_port(&StaafRPC::StreamRegistered { port: 1445 }), Some(1445));
    assert_eq!(registered_port(&StaafRPC::Offer), None);
}

#[test]
fn pings_are_answered() {
    assert_eq!(answer_ping(b"PING").as_deref(), Some("201\r\n\r\n"));
    assert_eq!(answer_ping(b"PING 77").as_deref(), Some("201\r\n\r\n"));
    assert_eq!(answer_ping(b"PINGS"), None);
    assert_eq!(answer_ping(b"PIN"), None);
    assert_eq!(answer_ping(b""), None);
    assert_eq!(answer_ping(b" PING"), None);
}

#[test]
fn the_ports_are_those_of_the_protocol() {
    assert_eq!((INGEST_PING_PORT, INGEST_PORT), (8079, 8084));
}
