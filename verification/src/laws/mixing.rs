//! The mixer: what a session is offered, and what is said of it.

use crate::plugin::{
    codec_info, first_media_streams, is_offer_of, line_views, media_line, offer, offered,
    receives_within, subscribed, subscribed_once, MediaLine, MediaLineView, Refusal,
};
use crate::router::{routes_within, RouterView, Session, SessionRef};
use crate::rpc::{AudioCodec, MediaStream, MediaStreamContent, StreamId, VideoCodec};
use crate::text::{
    cut, decimal, decimal_reads_back, lemma_decimal, lemma_occurrence_unique, occurs_at,
    parsed_decimal,
};
use vstd::prelude::*;

verus! {

/// The names of the codecs.
pub proof fn codecs_have_their_names(audio: AudioCodec)
    ensures
        audio.name() == seq!['o', 'p', 'u', 's'],
        VideoCodec::H264.name() == seq!['H', '2', '6', '4'],
        VideoCodec::VP9.name() == seq!['V', 'P', '9'],
{
    reveal_strlit("opus");
    reveal_strlit("H264");
    reveal_strlit("VP9");
    assert(audio.name() =~= seq!['o', 'p', 'u', 's']);
    assert(VideoCodec::H264.name() =~= seq!['H', '2', '6', '4']);
    assert(VideoCodec::VP9.name() =~= seq!['V', 'P', '9']);
}

proof fn lemma_cut_at(before: Seq<char>, separator: char, after: Seq<char>)
    requires
        forall|i: int| 0 <= i < before.len() ==> #[trigger] before[i] != separator,
    ensures
        cut(before + seq![separator] + after, seq![separator]) == Some((before, after)),
{
    let text = before + seq![separator] + after;
    let at = before.len() as int;
    assert(text.subrange(at, at + 1) =~= seq![separator]);
    assert forall|i: int| 0 <= i < at implies !#[trigger] occurs_at(
        text,
        seq![separator],
        i,
    ) by {
        assert(text.subrange(i, i + 1)[0] == before[i]);
    }
    lemma_occurrence_unique(text, seq![separator], at);
    assert(text.take(at) =~= before);
    assert(text.skip(at + 1) =~= after);
}

/// The encoding of a media stream: the name of its codec, a slash, and the clock; of audio, the
/// number of channels too.
pub proof fn encodings_name_codec_and_clock(content: MediaStreamContent)
    ensures
        content matches MediaStreamContent::Audio(audio) ==> cut(codec_info(content), seq!['/'])
            == Some((audio.codec.name(), seq!['4', '8', '0', '0', '0', '/', '2'])),
        content matches MediaStreamContent::Video(video) ==> cut(codec_info(content), seq!['/'])
            == Some((video.codec.name(), seq!['9', '0', '0', '0', '0'])),
{
    reveal_strlit("/48000/2");
    reveal_strlit("/90000");
    match content {
        MediaStreamContent::Audio(audio) => {
            codecs_have_their_names(audio.codec);
            let clock = seq!['4', '8', '0', '0', '0', '/', '2'];
            assert(codec_info(content) =~= audio.codec.name() + seq!['/'] + clock);
            lemma_cut_at(audio.codec.name(), '/', clock);
        },
        MediaStreamContent::Video(video) => {
            codecs_have_their_names(AudioCodec::Opus);
            let clock = seq!['9', '0', '0', '0', '0'];
            assert(codec_info(content) =~= video.codec.name() + seq!['/'] + clock);
            lemma_cut_at(video.codec.name(), '/', clock);
        },
    }
}

/// A media line tells the payload type, and the encoding behind it; of video it has parameters
/// too, under the same payload type, and of audio none.
pub proof fn lines_describe_their_stream(media_stream: MediaStream)
    ensures
        ({
            let line = media_line(media_stream);
            let (number, encoding) = cut(line.rtpmap, seq![' '])->0;
            let (parameters_number, parameters) = cut(line.fmtp->0, seq![' '])->0;
            &&& line.video <==> media_stream.content is Video
            &&& line.port == 1
            &&& line.protocol == "UDP/TLS/RTP/SAVPF"@
            &&& line.payload_type == media_stream.payload_type
            &&& cut(line.rtpmap, seq![' ']) is Some
            &&& parsed_decimal(number, 0xffff) == Some(media_stream.payload_type as nat)
            &&& number == decimal(media_stream.payload_type as nat)
            &&& encoding == codec_info(media_stream.content)
            &&& line.fmtp is Some <==> media_stream.content is Video
            &&& line.fmtp is Some ==> cut(line.fmtp->0, seq![' ']) is Some && parameters_number
                == number && parameters == "profile-level-id=42e01f;level-asymmetry-allowed=1"@
        }),
{
    let line = media_line(media_stream);
    let number = decimal(media_stream.payload_type as nat);
    lemma_decimal(media_stream.payload_type as nat);
    decimal_reads_back(media_stream.payload_type as nat, 0xffff);
    reveal_strlit(" ");
    assert(" "@ =~= seq![' ']);
    lemma_cut_at(number, ' ', codec_info(media_stream.content));
    assert(line.rtpmap =~= number + seq![' '] + codec_info(media_stream.content));
    if media_stream.content is Video {
        reveal_strlit(" profile-level-id=42e01f;level-asymmetry-allowed=1");
        reveal_strlit("profile-level-id=42e01f;level-asymmetry-allowed=1");
        let parameters = "profile-level-id=42e01f;level-asymmetry-allowed=1"@;
        assert(" profile-level-id=42e01f;level-asymmetry-allowed=1"@ =~= seq![' '] + parameters);
        assert(line.fmtp->0 =~= number + seq![' '] + parameters);
        lemma_cut_at(number, ' ', parameters);
    }
}

/// What is offered of several streams is what is offered of each, one after the other; of one it
/// is its media streams, and nothing of one that is not registered.
pub proof fn streams_are_offered_in_turn(
    router: RouterView,
    head: Seq<StreamId>,
    tail: Seq<StreamId>,
    id: StreamId,
)
    ensures
        offered(router, head + tail) == offered(router, head) + offered(router, tail),
        router.streams.contains_key(id) ==> offered(router, seq![id])
            == router.streams[id].media_streams,
        !router.streams.contains_key(id) ==> offered(router, seq![id]).len() == 0,
        offered(router, Seq::empty()).len() == 0,
    decreases tail.len(),
{
    let one = seq![id];
    assert(one.drop_last() =~= Seq::<StreamId>::empty());
    assert(offered(router, one.drop_last()) =~= Seq::empty());
    assert(router.streams.contains_key(id) ==> offered(router, one)
        =~= router.streams[id].media_streams);
    if tail.len() == 0 {
        assert(head + tail =~= head);
        assert(offered(router, head) + offered(router, tail) =~= offered(router, head));
    } else {
        streams_are_offered_in_turn(router, head, tail.drop_last(), id);
        assert((head + tail).drop_last() =~= head + tail.drop_last());
        assert(offered(router, head + tail) =~= offered(router, head) + offered(router, tail));
    }
}

/// Each media stream that is offered has its line, in the same order.
pub proof fn each_stream_has_its_line(router: RouterView, ids: Seq<StreamId>, i: int)
    requires
        0 <= i < offered(router, ids).len(),
    ensures
        offer(router, ids).len() == offered(router, ids).len(),
        offer(router, ids)[i] == media_line(offered(router, ids)[i]),
{
}

proof fn lemma_offered(router: RouterView, ids: Seq<StreamId>, i: int) -> (id: StreamId)
    requires
        0 <= i < offered(router, ids).len(),
    ensures
        ids.contains(id),
        router.streams.contains_key(id),
        router.streams[id].media_streams.contains(offered(router, ids)[i]),
    decreases ids.len(),
{
    let earlier = offered(router, ids.drop_last());
    if i < earlier.len() {
        let id = lemma_offered(router, ids.drop_last(), i);
        let k = choose|k: int| 0 <= k < ids.len() - 1 && ids.drop_last()[k] == id;
        assert(ids[k] == id);
        id
    } else {
        let id = ids.last();
        assert(ids[ids.len() - 1] == id);
        assert(router.streams[id].media_streams[i - earlier.len()] == offered(router, ids)[i]);
        id
    }
}

proof fn lemma_all_offered(router: RouterView, ids: Seq<StreamId>, id: StreamId, k: int)
    requires
        ids.contains(id),
        router.streams.contains_key(id),
        0 <= k < router.streams[id].media_streams.len(),
    ensures
        exists|i: int|
            0 <= i < offered(router, ids).len() && #[trigger] offered(router, ids)[i]
                == router.streams[id].media_streams[k],
    decreases ids.len(),
{
    let at = choose|at: int| 0 <= at < ids.len() && ids[at] == id;
    let earlier = offered(router, ids.drop_last());
    if at < ids.len() - 1 {
        assert(ids.drop_last()[at] == id);
        lemma_all_offered(router, ids.drop_last(), id, k);
        let i = choose|i: int|
            0 <= i < earlier.len() && #[trigger] earlier[i] == router.streams[id].media_streams[k];
        assert(offered(router, ids)[i] == earlier[i]);
    } else {
        let i = earlier.len() + k;
        assert(offered(router, ids)[i] == router.streams[id].media_streams[k]);
    }
}

/// An offer holds a line for each media stream of each registered stream that was subscribed to,
/// and no other lines.
pub proof fn offers_hold_what_was_subscribed_to(
    lines: Seq<MediaLineView>,
    router: RouterView,
    streams: Set<StreamId>,
    i: int,
    id: StreamId,
    k: int,
)
    requires
        is_offer_of(lines, router, streams),
    ensures
        0 <= i < lines.len() ==> exists|from: StreamId, n: int|
            #![trigger router.streams[from].media_streams[n]]
            streams.contains(from) && router.streams.contains_key(from) && 0 <= n
                < router.streams[from].media_streams.len() && lines[i] == media_line(
                router.streams[from].media_streams[n],
            ),
        streams.contains(id) && router.streams.contains_key(id) && 0 <= k
            < router.streams[id].media_streams.len() ==> exists|n: int|
            0 <= n < lines.len() && #[trigger] lines[n] == media_line(
                router.streams[id].media_streams[k],
            ),
{
    let ids = choose|ids: Seq<StreamId>|
        ids.no_duplicates() && ids.to_set() == streams && lines == #[trigger] offer(router, ids);
    if 0 <= i < lines.len() {
        let from = lemma_offered(router, ids, i);
        assert(ids.to_set().contains(from));
        let found = router.streams[from].media_streams;
        let n = choose|n: int| 0 <= n < found.len() && found[n] == offered(router, ids)[i];
        assert(lines[i] == media_line(router.streams[from].media_streams[n]));
    }
    if streams.contains(id) && router.streams.contains_key(id) && 0 <= k
        < router.streams[id].media_streams.len() {
        assert(ids.to_set().contains(id));
        lemma_all_offered(router, ids, id, k);
        let n = choose|n: int|
            0 <= n < offered(router, ids).len() && #[trigger] offered(router, ids)[n]
                == router.streams[id].media_streams[k];
        assert(lines[n] == media_line(router.streams[id].media_streams[k]));
    }
}

/// A session that subscribes stays the same session, and has subscribed to this stream and to all
/// that it had before.
pub proof fn subscriptions_are_added(
    session: Session,
    stream_id: StreamId,
    after: Session,
    id: StreamId,
)
    requires
        subscribed(session, stream_id, Some(after)),
    ensures
        after.handle == session.handle,
        after.state@.contains(id) <==> session.state@.contains(id) || id == stream_id,
        !subscribed(session, stream_id, None),
{
}

/// That a session has subscribed once says that no two of its streams differ; that it receives
/// only what it subscribed to says so of each route to it.
pub proof fn sessions_receive_what_they_subscribed_to(
    router: RouterView,
    session: Session,
    handle: SessionRef,
    streams: Set<StreamId>,
    id: StreamId,
    other: StreamId,
)
    ensures
        subscribed_once(Some(session)) && session.state@.contains(id) && session.state@.contains(
            other,
        ) ==> id == other,
        receives_within(router, Some(session)) && (router.subscribers(id).contains(session.handle)
            || router.waiting(id).contains(session.handle)) ==> session.state@.contains(id),
        routes_within(router, handle, streams) && (router.subscribers(id).contains(handle)
            || router.waiting(id).contains(handle)) ==> streams.contains(id),
{
    let held = Some(session);
    if subscribed_once(held) && session.state@.contains(id) && session.state@.contains(other) {
        assert(held->0 == session);
        assert(held->0.state@.contains(id));
        assert(held->0.state@.contains(other));
        assert(id == other);
    }
    assert(router.has_route(session.handle, id) <==> router.subscribers(id).contains(session.handle)
        || router.waiting(id).contains(session.handle));
    assert(router.has_route(handle, id) <==> router.subscribers(id).contains(handle)
        || router.waiting(id).contains(handle));
}

/// Each refusal has words of its own.
pub proof fn refusals_are_told_apart(left: Refusal, right: Refusal)
    ensures
        left != right ==> left.text() != right.text(),
        Refusal::MessageNotFound.text() == "Message not found"@,
        Refusal::SessionNotFound.text() == "Session not found"@,
        Refusal::NoMultistream.text() == "No multistream support yet"@,
        Refusal::AnswerGivenAsRequest.text() == "Answer given as request"@,
{
    reveal_strlit("Message not found");
    reveal_strlit("Session not found");
    reveal_strlit("No multistream support yet");
    reveal_strlit("Answer given as request");
    assert("Message not found"@[0] == 'M');
    assert("Session not found"@[0] == 'S');
    assert("No multistream support yet"@[0] == 'N');
    assert("Answer given as request"@[0] == 'A');
}

/// The stream that is there from the start has video and audio, with sources of their own.
pub proof fn the_first_stream_has_video_and_audio()
    ensures
        first_media_streams().len() == 2,
        first_media_streams()[0].ssrc == 1338,
        first_media_streams()[0].payload_type == 96,
        first_media_streams()[0].content matches MediaStreamContent::Video(video) && video.codec
            == VideoCodec::H264 && video.width == 1280 && video.height == 720,
        first_media_streams()[1].ssrc == 1337,
        first_media_streams()[1].payload_type == 97,
        first_media_streams()[1].content is Audio,
{
}

/// The views of media lines are those of each, in order, with all that a line says.
pub proof fn lines_are_viewed_one_by_one(lines: Seq<MediaLine>, i: int)
    requires
        0 <= i < lines.len(),
    ensures
        line_views(lines).len() == lines.len(),
        line_views(lines)[i].video == lines[i].video,
        line_views(lines)[i].port == lines[i].port,
        line_views(lines)[i].protocol == lines[i].protocol@,
        line_views(lines)[i].payload_type == lines[i].payload_type,
        line_views(lines)[i].rtpmap == lines[i].rtpmap@,
        line_views(lines)[i].fmtp is Some <==> lines[i].fmtp is Some,
        lines[i].fmtp matches Some(text) ==> line_views(lines)[i].fmtp == Some(text@),
{
}

} // verus!
