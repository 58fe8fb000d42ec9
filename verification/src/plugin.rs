//! The mixer plugin: what it does about the requests of sessions.

use crate::manager::IngestManager;
use crate::router::{routes_stay_within, routes_within, Router, RouterView, Session};
use crate::rpc::{
    AudioCodec, IpAddr, MediaStream, MediaStreamAudio, MediaStreamContent, MediaStreamVideo,
    StaafRPC, StreamId, VideoCodec,
};
use crate::rtp_connection::{RtpConnection, RtpConnectionView};
use crate::text::{decimal, format_decimal};
use crate::udp_consumer::MEDIA_PORT;
use vstd::prelude::*;
use vstd::string::StringExecFns;

verus! {

/// Why a request is refused.
#[derive(Debug, Clone, Copy, PartialEq, Eq, Structural)]
pub enum Refusal {
    MessageNotFound,
    SessionNotFound,
    NoMultistream,
    AnswerGivenAsRequest,
}

impl Refusal {
    /// The refusal in words.
    pub open spec fn text(self) -> Seq<char> {
        match self {
            Refusal::MessageNotFound => "Message not found"@,
            Refusal::SessionNotFound => "Session not found"@,
            Refusal::NoMultistream => "No multistream support yet"@,
            Refusal::AnswerGivenAsRequest => "Answer given as request"@,
        }
    }

    /// The refusal in words.
    pub fn message(&self) -> (text: &'static str)
        ensures
            text@ == self.text(),
    {
        match self {
            Refusal::MessageNotFound => "Message not found",
            Refusal::SessionNotFound => "Session not found",
            Refusal::NoMultistream => "No multistream support yet",
            Refusal::AnswerGivenAsRequest => "Answer given as request",
        }
    }
}

/// What an offer says of one media stream. It is only ever sent.
#[derive(Debug, Clone)]
pub struct MediaLine {
    pub video: bool,
    pub port: u16,
    pub protocol: String,
    pub payload_type: u16,
    /// How the payload is encoded.
    pub rtpmap: String,
    /// The parameters of the encoding, of video.
    pub fmtp: Option<String>,
}

/// What a media line is made of.
pub struct MediaLineView {
    pub video: bool,
    pub port: u16,
    pub protocol: Seq<char>,
    pub payload_type: u16,
    pub rtpmap: Seq<char>,
    pub fmtp: Option<Seq<char>>,
}

impl View for MediaLine {
    type V = MediaLineView;

    open spec fn view(&self) -> MediaLineView {
        MediaLineView {
            video: self.video,
            port: self.port,
            protocol: self.protocol@,
            payload_type: self.payload_type,
            rtpmap: self.rtpmap@,
            fmtp: match self.fmtp {
                Some(text) => Some(text@),
                None => None,
            },
        }
    }
}

/// The encoding of a media stream and its clock: 48 kHz and two channels for audio, 90 kHz for
/// video.
pub open spec fn codec_info(content: MediaStreamContent) -> Seq<char> {
    match content {
        MediaStreamContent::Audio(audio) => audio.codec.name() + "/48000/2"@,
        MediaStreamContent::Video(video) => video.codec.name() + "/90000"@,
    }
}

/// What an offer says of a media stream.
pub open spec fn media_line(media_stream: MediaStream) -> MediaLineView {
    MediaLineView {
        video: media_stream.content is Video,
        port: 1,
        protocol: "UDP/TLS/RTP/SAVPF"@,
        payload_type: media_stream.payload_type,
        rtpmap: decimal(media_stream.payload_type as nat) + " "@ + codec_info(
            media_stream.content,
        ),
        fmtp: if media_stream.content is Video {
            Some(
                decimal(media_stream.payload_type as nat)
                    + " profile-level-id=42e01f;level-asymmetry-allowed=1"@,
            )
        } else {
            None
        },
    }
}

/// The views of media lines.
pub open spec fn line_views(lines: Seq<MediaLine>) -> Seq<MediaLineView> {
    lines.map_values(|line: MediaLine| line@)
}

/// The media streams of the streams with these identifiers, of those that are registered.
pub open spec fn offered(router: RouterView, ids: Seq<StreamId>) -> Seq<MediaStream>
    decreases ids.len(),
{
    if ids.len() == 0 {
        Seq::empty()
    } else {
        offered(router, ids.drop_last()) + if router.streams.contains_key(ids.last()) {
            router.streams[ids.last()].media_streams
        } else {
            Seq::empty()
        }
    }
}

/// What an offer of the streams with these identifiers says.
pub open spec fn offer(router: RouterView, ids: Seq<StreamId>) -> Seq<MediaLineView> {
    offered(router, ids).map_values(|media_stream: MediaStream| media_line(media_stream))
}

/// Whether an offer is one of all that `subscribed` holds, in some order.
pub open spec fn is_offer_of(
    lines: Seq<MediaLineView>,
    router: RouterView,
    subscribed: Set<StreamId>,
) -> bool {
    exists|ids: Seq<StreamId>|
        ids.no_duplicates() && ids.to_set() == subscribed && lines == #[trigger] offer(router, ids)
}

/// Whoever subscribed to one stream is offered the media streams of this stream, in order.
pub proof fn subscribers_are_offered_their_stream(
    lines: Seq<MediaLineView>,
    router: RouterView,
    stream: StreamId,
)
    requires
        is_offer_of(lines, router, set![stream]),
        router.streams.contains_key(stream),
    ensures
        lines == router.streams[stream].media_streams.map_values(
            |media_stream: MediaStream| media_line(media_stream),
        ),
{
    let ids = choose|ids: Seq<StreamId>|
        ids.no_duplicates() && ids.to_set() == set![stream] && lines == #[trigger] offer(
            router,
            ids,
        );
    assert(ids.to_set().contains(stream));
    assert(ids.contains(stream));
    assert(ids.len() == 1) by {
        if ids.len() > 1 {
            assert(ids.to_set().contains(ids[0]) && ids.to_set().contains(ids[1]));
            assert(ids[0] == stream && ids[1] == stream);
        }
    }
    assert(ids.to_set().contains(ids[0]));
    assert(ids.drop_last() =~= Seq::empty());
    assert(offered(router, ids.drop_last()) =~= Seq::empty());
    assert(offered(router, ids) =~= router.streams[stream].media_streams);
}

/// Whether a session, where there is one, has subscribed to one stream at most.
pub open spec fn subscribed_once(session: Option<Session>) -> bool {
    session matches Some(known) ==> forall|a: StreamId, b: StreamId|
        known.state@.contains(a) && known.state@.contains(b) ==> a == b
}

/// Whether a session, where there is one, receives only what it has subscribed to.
pub open spec fn receives_within(router: RouterView, session: Option<Session>) -> bool {
    session matches Some(known) ==> routes_within(router, known.handle, known.state@)
}

/// What is done about a request.
#[derive(Debug)]
pub enum Reply {
    /// It is refused.
    Refused(Refusal),
    /// The stream is registered; its media are to be sent to the port, and go to the connection.
    StreamRegistered { port: u16, connection: RtpConnection },
    /// There is nothing to say.
    Done,
    /// There is nothing to offer.
    NothingToOffer,
    /// The session is offered some media streams.
    Offer(Vec<MediaLine>),
}

/// The port that media streams are to be sent to.
pub fn get_free_port(_media_streams: &Vec<MediaStream>) -> (port: u16)
    ensures
        port == MEDIA_PORT,
{
    MEDIA_PORT
}

/// What an offer says of a media stream.
pub fn describe(media_stream: &MediaStream) -> (line: MediaLine)
    ensures
        line@ == media_line(*media_stream),
{
    let mut codec = String::new();
    match media_stream.content {
        MediaStreamContent::Audio(audio) => {
            codec.append(audio.codec.to_str());
            codec.append("/48000/2");
        },
        MediaStreamContent::Video(video) => {
            codec.append(video.codec.to_str());
            codec.append("/90000");
        },
    }
    assert(codec@ =~= codec_info(media_stream.content));
    let video = media_stream.content.is_video();
    let mut rtpmap = format_decimal(media_stream.payload_type as u64);
    rtpmap.append(" ");
    rtpmap.append(codec.as_str());
    let fmtp = if video {
        let mut fmtp = format_decimal(media_stream.payload_type as u64);
        fmtp.append(" profile-level-id=42e01f;level-asymmetry-allowed=1");
        Some(fmtp)
    } else {
        None
    };
    MediaLine {
        video,
        port: 1,
        protocol: "UDP/TLS/RTP/SAVPF".to_owned(),
        payload_type: media_stream.payload_type,
        rtpmap,
        fmtp,
    }
}

/// What an offer of the streams with these identifiers says.
pub fn describe_streams(router: &Router, ids: &Vec<StreamId>) -> (lines: Vec<MediaLine>)
    ensures
        line_views(lines@) == offer(router@, ids@),
{
    let mut lines: Vec<MediaLine> = Vec::new();
    let mut i: usize = 0;
    assert(line_views(lines@) =~= offer(router@, ids@.take(0)));
    while i < ids.len()
        invariant
            i <= ids@.len(),
            line_views(lines@) == offer(router@, ids@.take(i as int)),
        decreases ids@.len() - i,
    {
        let ghost before = line_views(lines@);
        proof {
            assert(ids@.take(i + 1).drop_last() =~= ids@.take(i as int));
            assert(ids@.take(i + 1).last() == ids@[i as int]);
        }
        if let Some(stream) = router.get_stream(ids[i]) {
            let mut k: usize = 0;
            while k < stream.media_streams.len()
                invariant
                    k <= stream.media_streams@.len(),
                    line_views(lines@) == before + stream.media_streams@.take(
                        k as int,
                    ).map_values(|media_stream: MediaStream| media_line(media_stream)),
                decreases stream.media_streams@.len() - k,
            {
                let line = describe(&stream.media_streams[k]);
                let ghost written = line_views(lines@);
                lines.push(line);
                proof {
                    assert(line_views(lines@) =~= written.push(line@));
                    let views = |media_stream: MediaStream| media_line(media_stream);
                    let done = stream.media_streams@.take(k as int).map_values(views);
                    assert(stream.media_streams@.take(k + 1).map_values(views) =~= done.push(
                        line@,
                    ));
                    assert((before + done).push(line@) =~= before + done.push(line@));
                }
                k = k + 1;
            }
            assert(stream.media_streams@.take(k as int) =~= stream.media_streams@);
        }
        assert(line_views(lines@) =~= offer(router@, ids@.take(i + 1)));
        i = i + 1;
    }
    assert(ids@.take(i as int) =~= ids@);
    lines
}

/// The session of a request, where it was found, after it subscribed to a stream.
pub open spec fn subscribed(session: Session, stream_id: StreamId, after: Option<Session>) -> bool {
    after matches Some(same) && same.handle == session.handle && same.state@
        == session.state@.insert(stream_id)
}

proof fn lemma_requests_keep_routes(router: RouterView, known: Session, message: Option<StaafRPC>)
    requires
        routes_within(router, known.handle, known.state@),
    ensures
        message matches Some(StaafRPC::RegisterStream(register)) ==> routes_within(
            router.with_stream(
                register.stream_id,
                register.media_streams@,
                MEDIA_PORT,
                register.peer_addr,
            ),
            known.handle,
            known.state@,
        ),
        message matches Some(StaafRPC::Subscribe { stream_id }) ==> routes_within(
            router.with_route(known.handle, stream_id),
            known.handle,
            known.state@.insert(stream_id),
        ),
        message matches Some(StaafRPC::Unsubscribe { stream_id }) ==> routes_within(
            router.without_routes(known.handle, set![stream_id]),
            known.handle,
            known.state@,
        ),
{
    let (id, media_streams, peer_addr) = match message {
        Some(StaafRPC::RegisterStream(register)) => (
            register.stream_id,
            register.media_streams@,
            register.peer_addr,
        ),
        Some(StaafRPC::Subscribe { stream_id }) => (stream_id, Seq::empty(), IpAddr::V4(0)),
        Some(StaafRPC::Unsubscribe { stream_id }) => (stream_id, Seq::empty(), IpAddr::V4(0)),
        _ => (0, Seq::empty(), IpAddr::V4(0)),
    };
    routes_stay_within(
        router,
        known.handle,
        known.state@,
        known.handle,
        id,
        media_streams,
        MEDIA_PORT,
        peer_addr,
    );
}

/// Takes up a request, where it could be read, of a session, where there is one.
pub fn handle_message(
    router: &mut Router,
    manager: &mut IngestManager,
    session: &mut Option<Session>,
    message: Option<StaafRPC>,
) -> (reply: Reply)
    requires
        message matches Some(StaafRPC::RegisterStream(_)) ==> old(manager)@.sockets.contains(
            MEDIA_PORT,
        ),
    ensures
        !(message matches Some(StaafRPC::RegisterStream(_))) ==> final(manager)@ == old(manager)@,
        subscribed_once(*old(session)) ==> subscribed_once(*final(session)),
        receives_within(old(router)@, *old(session)) ==> receives_within(
            final(router)@,
            *final(session),
        ),
        match message {
            None => reply == Reply::Refused(Refusal::MessageNotFound) && final(router)@
                == old(router)@ && *final(session) == *old(session),
            Some(StaafRPC::RegisterStream(register)) => {
                &&& reply matches Reply::StreamRegistered { port, connection } && port
                    == MEDIA_PORT && connection@ == RtpConnectionView::fresh(
                    old(manager)@.next_connection,
                    register.media_streams@,
                    register.stream_id,
                )
                &&& final(manager)@ == old(manager)@.with_connection(
                    register.peer_addr,
                    MEDIA_PORT,
                    register.media_streams@,
                )
                &&& final(router)@ == old(router)@.with_stream(
                    register.stream_id,
                    register.media_streams@,
                    MEDIA_PORT,
                    register.peer_addr,
                )
                &&& *final(session) == *old(session)
            },
            Some(StaafRPC::Subscribe { stream_id }) => match *old(session) {
                None => reply == Reply::Refused(Refusal::SessionNotFound) && final(router)@
                    == old(router)@ && *final(session) == *old(session),
                Some(known) => if known.state@ =~= Set::empty() {
                    &&& reply is Done
                    &&& final(router)@ == old(router)@.with_route(known.handle, stream_id)
                    &&& subscribed(known, stream_id, *final(session))
                } else {
                    reply == Reply::Refused(Refusal::NoMultistream) && final(router)@
                        == old(router)@ && *final(session) == *old(session)
                },
            },
            Some(StaafRPC::Unsubscribe { stream_id }) => {
                &&& *final(session) == *old(session)
                &&& match *old(session) {
                    None => reply == Reply::Refused(Refusal::SessionNotFound) && final(router)@
                        == old(router)@,
                    Some(known) => reply is Done && final(router)@
                        == old(router)@.without_routes(known.handle, set![stream_id]),
                }
            },
            Some(StaafRPC::Offer) => {
                &&& *final(session) == *old(session)
                &&& final(router)@ == old(router)@
                &&& match *old(session) {
                    None => reply == Reply::Refused(Refusal::SessionNotFound),
                    Some(known) => if known.state@ =~= Set::empty() {
                        reply is NothingToOffer
                    } else {
                        reply matches Reply::Offer(lines) && is_offer_of(
                            line_views(lines@),
                            old(router)@,
                            known.state@,
                        )
                    },
                }
            },
            Some(StaafRPC::Answer) => reply is Done && final(router)@ == old(router)@
                && *final(session) == *old(session),
            Some(StaafRPC::StreamRegistered { .. }) => reply == Reply::Refused(
                Refusal::AnswerGivenAsRequest,
            ) && final(router)@ == old(router)@ && *final(session) == *old(session),
        },
{
    proof {
        if *session is Some && receives_within(router@, *session) {
            lemma_requests_keep_routes(router@, (*session)->0, message);
        }
    }
    match message {
        None => Reply::Refused(Refusal::MessageNotFound),
        Some(StaafRPC::RegisterStream(register)) => {
            let port = get_free_port(&register.media_streams);
            let connection = router.register_stream(
                manager,
                register.stream_id,
                register.media_streams,
                port,
                register.peer_addr,
            );
            Reply::StreamRegistered { port, connection }
        },
        Some(StaafRPC::Subscribe { stream_id }) => match session {
            None => Reply::Refused(Refusal::SessionNotFound),
            Some(known) => {
                if !known.state.is_empty() {
                    return Reply::Refused(Refusal::NoMultistream);
                }
                router.add_route(known, stream_id);
                Reply::Done
            },
        },
        Some(StaafRPC::Unsubscribe { stream_id }) => match session {
            None => Reply::Refused(Refusal::SessionNotFound),
            Some(known) => {
                router.remove_route(known.handle, stream_id);
                Reply::Done
            },
        },
        Some(StaafRPC::Offer) => match session {
            None => Reply::Refused(Refusal::SessionNotFound),
            Some(known) => {
                if known.state.is_empty() {
                    return Reply::NothingToOffer;
                }
                let ids = known.state.subscribed_to();
                Reply::Offer(describe_streams(router, &ids))
            },
        },
        Some(StaafRPC::Answer) => Reply::Done,
        Some(StaafRPC::StreamRegistered { .. }) => Reply::Refused(Refusal::AnswerGivenAsRequest),
    }
}

/// The media streams of the stream that is there from the start.
pub open spec fn first_media_streams() -> Seq<MediaStream> {
    seq![
        MediaStream {
            ssrc: 1338,
            payload_type: 96,
            content: MediaStreamContent::Video(
                MediaStreamVideo { codec: VideoCodec::H264, width: 1280, height: 720 },
            ),
        },
        MediaStream {
            ssrc: 1337,
            payload_type: 97,
            content: MediaStreamContent::Audio(MediaStreamAudio { codec: AudioCodec::Opus }),
        },
    ]
}

/// The identifier of the stream that is there from the start.
pub const FIRST_STREAM: StreamId = 1337;

/// The port that the stream that is there from the start arrives on.
pub const FIRST_PORT: u16 = 40;

/// The router that the plugin starts with, which knows one stream, of the host itself; and the
/// connection of this stream.
pub fn init(manager: &mut IngestManager) -> (started: (Router, RtpConnection))
    requires
        old(manager)@.sockets.contains(FIRST_PORT),
    ensures
        started.0@ == RouterView::empty().with_stream(
            FIRST_STREAM,
            first_media_streams(),
            FIRST_PORT,
            IpAddr::V4(0x7f00_0001),
        ),
        started.1@ == RtpConnectionView::fresh(
            old(manager)@.next_connection,
            first_media_streams(),
            FIRST_STREAM,
        ),
        final(manager)@ == old(manager)@.with_connection(
            IpAddr::V4(0x7f00_0001),
            FIRST_PORT,
            first_media_streams(),
        ),
{
    let mut router = Router::new();
    let mut media_streams: Vec<MediaStream> = Vec::new();
    media_streams.push(
        MediaStream {
            ssrc: 1338,
            payload_type: 96,
            content: MediaStreamContent::Video(
                MediaStreamVideo { codec: VideoCodec::H264, width: 1280, height: 720 },
            ),
        },
    );
    media_streams.push(
        MediaStream {
            ssrc: 1337,
            payload_type: 97,
            content: MediaStreamContent::Audio(MediaStreamAudio { codec: AudioCodec::Opus }),
        },
    );
    assert(media_streams@ =~= first_media_streams());
    let connection = router.register_stream(
        manager,
        FIRST_STREAM,
        media_streams,
        FIRST_PORT,
        IpAddr::V4(0x7f00_0001),
    );
    (router, connection)
}

} // verus!
