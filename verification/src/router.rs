//! Who receives which stream, and which stream an incoming packet belongs to.

use crate::manager::IngestManager;
use crate::rpc::{IpAddr, MediaStream, StreamId};
use crate::rtp_connection::{RtpConnection, RtpConnectionView};
use std::collections::hash_map::Entry;
use std::collections::{HashMap, HashSet};
use vstd::prelude::*;
use vstd::slice::slice_to_vec;

verus! {

/// A session of the media server, known by the handle that the server gave it.
pub type SessionRef = u64;

/// What identifies the packets of one media stream as they come in.
#[derive(Debug, Clone, Copy, PartialEq, Eq, Structural)]
pub struct IncomingStreamHandle {
    pub ssrc: u32,
    pub incoming_port: u16,
    pub peer_addr: IpAddr,
}

/// A registered stream and those who receive it.
#[derive(Debug)]
pub struct Stream {
    pub id: StreamId,
    pub media_streams: Vec<MediaStream>,
    pub port: u16,
    pub peer_addr: IpAddr,
    pub subscribers: Vec<SessionRef>,
    /// The packets of each source that a decoder can start from.
    pub keyframe_buffer: HashMap<u32, Vec<Vec<u8>>>,
}

/// What a stream is made of.
#[verifier::ext_equal]
pub struct StreamView {
    pub id: StreamId,
    pub media_streams: Seq<MediaStream>,
    pub port: u16,
    pub peer_addr: IpAddr,
    pub subscribers: Seq<SessionRef>,
    pub keyframe_buffer: Map<u32, Seq<Seq<u8>>>,
}

/// The packets that a buffer holds.
pub open spec fn held_packets(packets: Vec<Vec<u8>>) -> Seq<Seq<u8>> {
    packets@.map_values(|packet: Vec<u8>| packet@)
}

impl View for Stream {
    type V = StreamView;

    open spec fn view(&self) -> StreamView {
        StreamView {
            id: self.id,
            media_streams: self.media_streams@,
            port: self.port,
            peer_addr: self.peer_addr,
            subscribers: self.subscribers@,
            keyframe_buffer: self.keyframe_buffer@.map_values(
                |packets: Vec<Vec<u8>>| held_packets(packets),
            ),
        }
    }
}

impl StreamView {
    /// The packets of a source that are kept.
    pub open spec fn kept(self, ssrc: u32) -> Seq<Seq<u8>> {
        if self.keyframe_buffer.contains_key(ssrc) {
            self.keyframe_buffer[ssrc]
        } else {
            Seq::empty()
        }
    }

    /// With one more packet kept; a keyframe takes the place of all before it.
    pub open spec fn with_packet(self, ssrc: u32, packet: Seq<u8>, keyframe: bool) -> StreamView {
        StreamView {
            keyframe_buffer: self.keyframe_buffer.insert(
                ssrc,
                if keyframe {
                    seq![packet]
                } else {
                    self.kept(ssrc).push(packet)
                },
            ),
            ..self
        }
    }
}

impl Stream {
    /// A stream that nobody receives yet.
    pub fn new(id: StreamId, media_streams: Vec<MediaStream>, port: u16, peer_addr: IpAddr) -> (stream:
        Stream)
        ensures
            stream@ == (StreamView {
                id,
                media_streams: media_streams@,
                port,
                peer_addr,
                subscribers: Seq::empty(),
                keyframe_buffer: Map::empty(),
            }),
    {
        broadcast use vstd::std_specs::hash::group_hash_axioms;

        let stream = Stream {
            id,
            media_streams,
            port,
            peer_addr,
            subscribers: Vec::new(),
            keyframe_buffer: HashMap::new(),
        };
        assert(stream@.keyframe_buffer =~= Map::empty());
        stream
    }

    /// Keeps a packet of a source, and with a keyframe forgets those before it.
    pub fn keep_packet(&mut self, ssrc: u32, packet: &[u8], keyframe: bool)
        ensures
            final(self)@ == old(self)@.with_packet(ssrc, packet@, keyframe),
    {
        broadcast use vstd::std_specs::hash::group_hash_axioms;

        let mut packets: Vec<Vec<u8>> = match self.keyframe_buffer.remove(&ssrc) {
            Some(packets) => packets,
            None => Vec::new(),
        };
        assert(held_packets(packets) =~= old(self)@.kept(ssrc));
        if keyframe {
            packets.clear();
        }
        packets.push(slice_to_vec(packet));
        let ghost kept = held_packets(packets);
        assert(kept =~= if keyframe {
            seq![packet@]
        } else {
            old(self)@.kept(ssrc).push(packet@)
        });
        self.keyframe_buffer.insert(ssrc, packets);
        assert(self@.keyframe_buffer =~= old(self)@.keyframe_buffer.insert(ssrc, kept));
    }
}

/// What a session has subscribed to.
#[derive(Debug)]
pub struct SessionState {
    subscribed_to: HashSet<StreamId>,
}

impl View for SessionState {
    type V = Set<StreamId>;

    closed spec fn view(&self) -> Set<StreamId> {
        self.subscribed_to@
    }
}

impl SessionState {
    /// A session without subscriptions.
    pub fn new() -> (state: SessionState)
        ensures
            state@ == Set::<StreamId>::empty(),
    {
        SessionState { subscribed_to: HashSet::new() }
    }

    /// The streams that the session has subscribed to, each once, in no particular order.
    pub fn subscribed_to(&self) -> (streams: Vec<StreamId>)
        ensures
            streams@.no_duplicates(),
            streams@.to_set() == self@,
    {
        broadcast use vstd::std_specs::hash::group_hash_axioms;

        let mut streams: Vec<StreamId> = Vec::new();
        let ghost all = vstd::std_specs::iter::IteratorSpec::remaining(
            &vstd::std_specs::hash::spec_hash_keys_iter(&self.subscribed_to),
        ).unref();
        for stream in it: self.subscribed_to.iter()
            invariant
                it.seq().unref() == all,
                streams@ =~= all.take(it.index() as int),
        {
            streams.push(*stream);
        }
        assert(streams@ =~= all);
        streams
    }

    /// Whether the session has no subscription.
    pub fn is_empty(&self) -> (empty: bool)
        ensures
            empty == (self@ =~= Set::<StreamId>::empty()),
    {
        broadcast use vstd::std_specs::hash::group_hash_axioms;

        self.subscribed_to.is_empty()
    }

    /// Adds a subscription.
    pub fn subscribe(&mut self, stream_index: StreamId)
        ensures
            final(self)@ == old(self)@.insert(stream_index),
    {
        broadcast use vstd::std_specs::hash::group_hash_axioms;

        self.subscribed_to.insert(stream_index);
    }
}

/// A session and what it has subscribed to.
#[derive(Debug)]
pub struct Session {
    pub handle: SessionRef,
    pub state: SessionState,
}

/// The map that a list of pairs stands for; of two pairs with one key, the later one counts.
pub open spec fn pairs_map(pairs: Seq<(IncomingStreamHandle, StreamId)>) -> Map<
    IncomingStreamHandle,
    StreamId,
>
    decreases pairs.len(),
{
    if pairs.len() == 0 {
        Map::empty()
    } else {
        pairs_map(pairs.drop_last()).insert(pairs.last().0, pairs.last().1)
    }
}

/// Which stream the packets with a handle belong to.
#[derive(Debug)]
pub struct HandleMap {
    pairs: Vec<(IncomingStreamHandle, StreamId)>,
}

impl View for HandleMap {
    type V = Map<IncomingStreamHandle, StreamId>;

    closed spec fn view(&self) -> Map<IncomingStreamHandle, StreamId> {
        pairs_map(self.pairs@)
    }
}

impl HandleMap {
    /// A map without entries.
    pub fn new() -> (map: HandleMap)
        ensures
            map@ == Map::<IncomingStreamHandle, StreamId>::empty(),
    {
        HandleMap { pairs: Vec::new() }
    }

    /// The stream of a handle.
    pub fn get(&self, handle: &IncomingStreamHandle) -> (stream: Option<StreamId>)
        ensures
            stream == self@.get(*handle),
    {
        let mut i: usize = self.pairs.len();
        assert(self.pairs@.take(i as int) =~= self.pairs@);
        while i > 0
            invariant
                i <= self.pairs@.len(),
                pairs_map(self.pairs@.take(i as int)).get(*handle) == self@.get(*handle),
            decreases i,
        {
            i = i - 1;
            proof {
                let longer = self.pairs@.take(i + 1);
                assert(longer.drop_last() =~= self.pairs@.take(i as int));
            }
            if self.pairs[i].0 == *handle {
                return Some(self.pairs[i].1);
            }
        }
        None
    }

    /// Removes the entry of a handle.
    pub fn remove(&mut self, handle: &IncomingStreamHandle)
        ensures
            final(self)@ == old(self)@.remove(*handle),
    {
        let mut kept: Vec<(IncomingStreamHandle, StreamId)> = Vec::new();
        let mut i: usize = 0;
        assert(pairs_map(kept@) =~= pairs_map(self.pairs@.take(0)).remove(*handle));
        while i < self.pairs.len()
            invariant
                i <= self.pairs@.len(),
                self.pairs@ == old(self).pairs@,
                pairs_map(kept@) == pairs_map(self.pairs@.take(i as int)).remove(*handle),
            decreases self.pairs@.len() - i,
        {
            let pair = self.pairs[i];
            let ghost before = kept@;
            if pair.0 != *handle {
                kept.push(pair);
                assert(kept@.drop_last() =~= before);
            }
            proof {
                let longer = self.pairs@.take(i + 1);
                assert(longer.drop_last() =~= self.pairs@.take(i as int));
                assert(longer.last() == pair);
                assert(pairs_map(kept@) =~= pairs_map(longer).remove(*handle));
            }
            i = i + 1;
        }
        assert(self.pairs@.take(i as int) =~= self.pairs@);
        self.pairs = kept;
    }

    /// Sets the stream of a handle.
    pub fn insert(&mut self, handle: IncomingStreamHandle, stream: StreamId)
        ensures
            final(self)@ == old(self)@.insert(handle, stream),
    {
        self.remove(&handle);
        let ghost before = self.pairs@;
        self.pairs.push((handle, stream));
        assert(self.pairs@.drop_last() =~= before);
        assert(self@ =~= old(self)@.insert(handle, stream));
    }
}

/// What a router knows.
#[verifier::ext_equal]
pub struct RouterView {
    /// The sessions that are connected.
    pub sessions: Set<SessionRef>,
    /// The streams that are registered.
    pub streams: Map<StreamId, StreamView>,
    /// Those who subscribed to a stream before it was registered.
    pub early_subscribers: Map<StreamId, Seq<SessionRef>>,
    /// The stream that the packets with a handle belong to.
    pub stream_map: Map<IncomingStreamHandle, StreamId>,
}

/// The handles in `subscribers` other than `session`.
pub open spec fn others(subscribers: Seq<SessionRef>, session: SessionRef) -> Seq<SessionRef> {
    subscribers.filter(|item: SessionRef| item != session)
}

/// The handle of the packets of `media_stream`.
pub open spec fn handle_of(media_stream: MediaStream, port: u16, peer_addr: IpAddr) -> IncomingStreamHandle {
    IncomingStreamHandle { ssrc: media_stream.ssrc, incoming_port: port, peer_addr }
}

/// `map` with the handles of `media_streams` set to `target`.
pub open spec fn with_handles<V>(
    map: Map<IncomingStreamHandle, V>,
    media_streams: Seq<MediaStream>,
    port: u16,
    peer_addr: IpAddr,
    target: V,
) -> Map<IncomingStreamHandle, V>
    decreases media_streams.len(),
{
    if media_streams.len() == 0 {
        map
    } else {
        with_handles(map, media_streams.drop_last(), port, peer_addr, target).insert(
            handle_of(media_streams.last(), port, peer_addr),
            target,
        )
    }
}

/// `map` without the handles of `media_streams`.
pub open spec fn without_handles(
    map: Map<IncomingStreamHandle, StreamId>,
    media_streams: Seq<MediaStream>,
    port: u16,
    peer_addr: IpAddr,
) -> Map<IncomingStreamHandle, StreamId>
    decreases media_streams.len(),
{
    if media_streams.len() == 0 {
        map
    } else {
        without_handles(map, media_streams.drop_last(), port, peer_addr).remove(
            handle_of(media_streams.last(), port, peer_addr),
        )
    }
}

impl RouterView {
    /// A router that knows nothing.
    pub open spec fn empty() -> RouterView {
        RouterView {
            sessions: Set::empty(),
            streams: Map::empty(),
            early_subscribers: Map::empty(),
            stream_map: Map::empty(),
        }
    }

    /// Those who receive a stream.
    pub open spec fn subscribers(self, stream: StreamId) -> Seq<SessionRef> {
        if self.streams.contains_key(stream) {
            self.streams[stream].subscribers
        } else {
            Seq::empty()
        }
    }

    /// Those who wait for a stream to be registered.
    pub open spec fn waiting(self, stream: StreamId) -> Seq<SessionRef> {
        if self.early_subscribers.contains_key(stream) {
            self.early_subscribers[stream]
        } else {
            Seq::empty()
        }
    }

    /// Whether a session receives a stream, or waits for it.
    pub open spec fn has_route(self, session: SessionRef, stream: StreamId) -> bool {
        self.subscribers(stream).contains(session) || self.waiting(stream).contains(session)
    }

    /// Without the routes from the streams `from` to `session`.
    pub open spec fn without_routes(self, session: SessionRef, from: Set<StreamId>) -> RouterView {
        RouterView {
            streams: self.streams.map_entries(
                |id: StreamId, stream: StreamView|
                    if from.contains(id) {
                        StreamView { subscribers: others(stream.subscribers, session), ..stream }
                    } else {
                        stream
                    },
            ),
            early_subscribers: self.early_subscribers.map_entries(
                |id: StreamId, waiting: Seq<SessionRef>|
                    if from.contains(id) {
                        others(waiting, session)
                    } else {
                        waiting
                    },
            ),
            ..self
        }
    }

    /// With a route from `stream` to `session`: now, or once `stream` is registered.
    pub open spec fn with_route(self, session: SessionRef, stream: StreamId) -> RouterView {
        if self.streams.contains_key(stream) {
            let found = self.streams[stream];
            RouterView {
                streams: self.streams.insert(
                    stream,
                    StreamView { subscribers: found.subscribers.push(session), ..found },
                ),
                ..self
            }
        } else {
            RouterView {
                early_subscribers: self.early_subscribers.insert(
                    stream,
                    self.waiting(stream).push(session),
                ),
                ..self
            }
        }
    }

    /// With `stream` registered; those who waited for it receive it.
    pub open spec fn with_stream(
        self,
        stream: StreamId,
        media_streams: Seq<MediaStream>,
        port: u16,
        peer_addr: IpAddr,
    ) -> RouterView {
        RouterView {
            sessions: self.sessions,
            streams: self.streams.insert(
                stream,
                StreamView {
                    id: stream,
                    media_streams,
                    port,
                    peer_addr,
                    subscribers: self.waiting(stream),
                    keyframe_buffer: Map::empty(),
                },
            ),
            early_subscribers: self.early_subscribers.remove(stream),
            stream_map: with_handles(self.stream_map, media_streams, port, peer_addr, stream),
        }
    }

    /// Without `stream`.
    pub open spec fn without_stream(self, stream: StreamId) -> RouterView {
        if self.streams.contains_key(stream) {
            let found = self.streams[stream];
            RouterView {
                streams: self.streams.remove(stream),
                stream_map: without_handles(
                    self.stream_map,
                    found.media_streams,
                    found.port,
                    found.peer_addr,
                ),
                ..self
            }
        } else {
            self
        }
    }
}

/// Whether every route to a session starts at a stream that it has subscribed to.
pub open spec fn routes_within(
    router: RouterView,
    session: SessionRef,
    subscribed: Set<StreamId>,
) -> bool {
    forall|id: StreamId| #[trigger] router.has_route(session, id) ==> subscribed.contains(id)
}

proof fn lemma_others(subscribers: Seq<SessionRef>, session: SessionRef)
    ensures
        !others(subscribers, session).contains(session),
        forall|other: SessionRef| #[trigger]
            others(subscribers, session).contains(other) ==> subscribers.contains(other),
        forall|other: SessionRef|
            other != session && subscribers.contains(other) ==> #[trigger] others(
                subscribers,
                session,
            ).contains(other),
    decreases subscribers.len(),
{
    reveal(Seq::filter);
    let kept = others(subscribers, session);
    if subscribers.len() > 0 {
        let earlier = others(subscribers.drop_last(), session);
        lemma_others(subscribers.drop_last(), session);
        assert forall|other: SessionRef| #[trigger] kept.contains(other) implies other != session
            && subscribers.contains(other) by {
            if earlier.contains(other) {
                let i = choose|i: int|
                    0 <= i < subscribers.len() - 1 && subscribers.drop_last()[i] == other;
                assert(subscribers[i] == other);
            } else {
                assert(subscribers[subscribers.len() - 1] == other);
            }
        }
        assert forall|other: SessionRef|
            other != session && subscribers.contains(other) implies #[trigger] kept.contains(
            other,
        ) by {
            let i = choose|i: int| 0 <= i < subscribers.len() && subscribers[i] == other;
            if i < subscribers.len() - 1 {
                assert(subscribers.drop_last()[i] == other);
                assert(earlier.contains(other));
                let k = choose|k: int| 0 <= k < earlier.len() && earlier[k] == other;
                assert(kept[k] == other);
            } else {
                assert(kept[kept.len() - 1] == other);
            }
        }
    }
}

/// A session that is disconnected receives nothing any more, nor will it.
pub proof fn disconnected_sessions_receive_nothing(
    router: RouterView,
    session: SessionRef,
    subscribed: Set<StreamId>,
    id: StreamId,
)
    requires
        routes_within(router, session, subscribed),
    ensures
        !router.without_routes(session, subscribed).has_route(session, id),
{
    if router.without_routes(session, subscribed).has_route(session, id) && !subscribed.contains(
        id,
    ) {
        assert(router.has_route(session, id));
    }
    lemma_others(router.subscribers(id), session);
    lemma_others(router.waiting(id), session);
}

/// That every route to a session starts at a stream that it has subscribed to stays so: when it
/// or another session subscribes, when a route is removed, and when a stream comes or goes.
pub proof fn routes_stay_within(
    router: RouterView,
    session: SessionRef,
    subscribed: Set<StreamId>,
    other: SessionRef,
    id: StreamId,
    media_streams: Seq<MediaStream>,
    port: u16,
    peer_addr: IpAddr,
)
    requires
        routes_within(router, session, subscribed),
    ensures
        routes_within(router.with_route(session, id), session, subscribed.insert(id)),
        other != session ==> routes_within(router.with_route(other, id), session, subscribed),
        routes_within(router.without_routes(other, set![id]), session, subscribed),
        routes_within(
            router.with_stream(id, media_streams, port, peer_addr),
            session,
            subscribed,
        ),
        routes_within(router.without_stream(id), session, subscribed),
{
    assert forall|stream: StreamId| #[trigger]
        router.with_route(session, id).has_route(session, stream) implies subscribed.insert(
        id,
    ).contains(stream) by {
        assert(stream != id ==> router.has_route(session, stream));
    }
    if other != session {
        assert forall|stream: StreamId| #[trigger]
            router.with_route(other, id).has_route(session, stream) implies subscribed.contains(
            stream,
        ) by {
            lemma_pushed(router.subscribers(stream), other, session);
            lemma_pushed(router.waiting(stream), other, session);
            assert(router.has_route(session, stream));
        }
    }
    assert forall|stream: StreamId| #[trigger]
        router.without_routes(other, set![id]).has_route(
            session,
            stream,
        ) implies subscribed.contains(stream) by {
        lemma_others(router.subscribers(stream), other);
        lemma_others(router.waiting(stream), other);
        assert(router.has_route(session, stream));
    }
    assert forall|stream: StreamId| #[trigger]
        router.with_stream(id, media_streams, port, peer_addr).has_route(
            session,
            stream,
        ) implies subscribed.contains(stream) by {
        assert(router.has_route(session, stream));
    }
    assert forall|stream: StreamId| #[trigger]
        router.without_stream(id).has_route(session, stream) implies subscribed.contains(
        stream,
    ) by {
        assert(router.has_route(session, stream));
    }
}

proof fn lemma_pushed(subscribers: Seq<SessionRef>, other: SessionRef, session: SessionRef)
    requires
        other != session,
    ensures
        subscribers.push(other).contains(session) ==> subscribers.contains(session),
{
    if subscribers.push(other).contains(session) {
        let i = choose|i: int|
            0 <= i < subscribers.len() + 1 && subscribers.push(other)[i] == session;
        assert(subscribers[i] == session);
    }
}

/// Whoever subscribes to a stream receives it: at once where it is registered, and otherwise as
/// soon as it is.
pub proof fn subscribers_receive(
    router: RouterView,
    session: SessionRef,
    id: StreamId,
    media_streams: Seq<MediaStream>,
    port: u16,
    peer_addr: IpAddr,
)
    ensures
        router.streams.contains_key(id) ==> router.with_route(session, id).subscribers(
            id,
        ).contains(session),
        !router.streams.contains_key(id) ==> router.with_route(session, id).with_stream(
            id,
            media_streams,
            port,
            peer_addr,
        ).subscribers(id).contains(session),
{
    let routed = router.with_route(session, id);
    if router.streams.contains_key(id) {
        let receivers = routed.subscribers(id);
        assert(receivers[receivers.len() - 1] == session);
    } else {
        let receivers = routed.with_stream(id, media_streams, port, peer_addr).subscribers(id);
        assert(receivers[receivers.len() - 1] == session);
    }
}

/// Whoever unsubscribes from a stream receives it no longer; the others still do.
pub proof fn unsubscribed_sessions_receive_nothing(
    router: RouterView,
    session: SessionRef,
    id: StreamId,
    other: SessionRef,
)
    ensures
        !router.without_routes(session, set![id]).subscribers(id).contains(session),
        other != session && router.subscribers(id).contains(other) ==> router.without_routes(
            session,
            set![id],
        ).subscribers(id).contains(other),
{
    lemma_others(router.subscribers(id), session);
}

/// The handles of media streams lead to what they were set to, and other handles where they
/// led before.
pub proof fn handles_lead_to_their_target<V>(
    map: Map<IncomingStreamHandle, V>,
    media_streams: Seq<MediaStream>,
    port: u16,
    peer_addr: IpAddr,
    target: V,
    handle: IncomingStreamHandle,
)
    ensures
        with_handles(map, media_streams, port, peer_addr, target).get(handle) == if exists|i: int|
            0 <= i < media_streams.len() && handle == handle_of(
                #[trigger] media_streams[i],
                port,
                peer_addr,
            ) {
            Some(target)
        } else {
            map.get(handle)
        },
    decreases media_streams.len(),
{
    if media_streams.len() > 0 {
        let earlier = media_streams.drop_last();
        handles_lead_to_their_target(map, earlier, port, peer_addr, target, handle);
        assert forall|i: int| 0 <= i < earlier.len() implies #[trigger] earlier[i]
            == media_streams[i] by {}
        if handle == handle_of(media_streams.last(), port, peer_addr) {
            assert(handle == handle_of(
                media_streams[media_streams.len() - 1],
                port,
                peer_addr,
            ));
        } else if exists|i: int|
            0 <= i < media_streams.len() && handle == handle_of(
                #[trigger] media_streams[i],
                port,
                peer_addr,
            ) {
            let i = choose|i: int|
                0 <= i < media_streams.len() && handle == handle_of(
                    #[trigger] media_streams[i],
                    port,
                    peer_addr,
                );
            assert(handle == handle_of(earlier[i], port, peer_addr));
        }
    }
}

/// The packets of a stream that is registered are recognised by their source, port and sender.
pub proof fn registered_packets_are_recognised(
    router: RouterView,
    id: StreamId,
    media_streams: Seq<MediaStream>,
    port: u16,
    peer_addr: IpAddr,
    i: int,
)
    requires
        0 <= i < media_streams.len(),
    ensures
        router.with_stream(id, media_streams, port, peer_addr).stream_map.get(
            handle_of(media_streams[i], port, peer_addr),
        ) == Some(id),
{
    handles_lead_to_their_target(
        router.stream_map,
        media_streams,
        port,
        peer_addr,
        id,
        handle_of(media_streams[i], port, peer_addr),
    );
}

proof fn lemma_without_handles(
    map: Map<IncomingStreamHandle, StreamId>,
    media_streams: Seq<MediaStream>,
    port: u16,
    peer_addr: IpAddr,
    i: int,
)
    requires
        0 <= i < media_streams.len(),
    ensures
        !without_handles(map, media_streams, port, peer_addr).contains_key(
            handle_of(media_streams[i], port, peer_addr),
        ),
    decreases media_streams.len(),
{
    if i < media_streams.len() - 1 {
        lemma_without_handles(map, media_streams.drop_last(), port, peer_addr, i);
    }
}

/// A stream that is destroyed is received by nobody, and its packets are not recognised.
pub proof fn destroyed_streams_are_gone(router: RouterView, id: StreamId, i: int)
    requires
        router.streams.contains_key(id),
        0 <= i < router.streams[id].media_streams.len(),
    ensures
        router.without_stream(id).subscribers(id).len() == 0,
        !router.without_stream(id).stream_map.contains_key(
            handle_of(
                router.streams[id].media_streams[i],
                router.streams[id].port,
                router.streams[id].peer_addr,
            ),
        ),
{
    let found = router.streams[id];
    lemma_without_handles(
        router.stream_map,
        found.media_streams,
        found.port,
        found.peer_addr,
        i,
    );
}

/// Routes streams to sessions.
#[derive(Debug)]
pub struct Router {
    sessions: HashSet<SessionRef>,
    streams: HashMap<StreamId, Stream>,
    early_subscribers: HashMap<StreamId, Vec<SessionRef>>,
    stream_map: HandleMap,
}

impl View for Router {
    type V = RouterView;

    closed spec fn view(&self) -> RouterView {
        RouterView {
            sessions: self.sessions@,
            streams: self.streams@.map_values(|stream: Stream| stream@),
            early_subscribers: self.early_subscribers@.map_values(
                |waiting: Vec<SessionRef>| waiting@,
            ),
            stream_map: self.stream_map@,
        }
    }
}

/// Keeps the handles other than `session`.
fn keep_others(subscribers: &Vec<SessionRef>, session: SessionRef) -> (kept: Vec<SessionRef>)
    ensures
        kept@ == others(subscribers@, session),
{
    let mut kept: Vec<SessionRef> = Vec::new();
    let mut i: usize = 0;
    assert(others(subscribers@.take(0), session) =~= Seq::empty()) by {
        reveal(Seq::filter);
    }
    while i < subscribers.len()
        invariant
            i <= subscribers@.len(),
            kept@ == others(subscribers@.take(i as int), session),
        decreases subscribers@.len() - i,
    {
        proof {
            let longer = subscribers@.take(i + 1);
            assert(longer.drop_last() =~= subscribers@.take(i as int));
            reveal(Seq::filter);
        }
        if subscribers[i] != session {
            kept.push(subscribers[i]);
        }
        i = i + 1;
    }
    assert(subscribers@.take(i as int) =~= subscribers@);
    kept
}

impl Router {
    /// A router without sessions and streams.
    pub fn new() -> (router: Router)
        ensures
            router@ == RouterView::empty(),
    {
        let router = Router {
            sessions: HashSet::new(),
            streams: HashMap::new(),
            early_subscribers: HashMap::new(),
            stream_map: HandleMap::new(),
        };
        assert(router@ =~= RouterView::empty());
        router
    }

    /// Forgets a session and all routes to it from what it subscribed to.
    pub fn disconnect(&mut self, session: &Session)
        ensures
            final(self)@ == (RouterView {
                sessions: old(self)@.sessions.remove(session.handle),
                ..old(self)@.without_routes(session.handle, session.state@)
            }),
    {
        broadcast use vstd::std_specs::hash::group_hash_axioms;

        self.sessions.remove(&session.handle);
        let ghost start = self@;
        let streams = session.state.subscribed_to();
        let mut i: usize = 0;
        proof {
            lemma_no_routes_removed(start, session.handle);
            assert(streams@.take(0).to_set() =~= Set::empty());
        }
        while i < streams.len()
            invariant
                i <= streams@.len(),
                self@ == start.without_routes(session.handle, streams@.take(i as int).to_set()),
            decreases streams@.len() - i,
        {
            self.remove_route(session.handle, streams[i]);
            proof {
                let done = streams@.take(i as int).to_set();
                assert(streams@.take(i + 1) =~= streams@.take(i as int).push(streams@[i as int]));
                assert(streams@.take(i + 1).to_set() =~= done.insert(streams@[i as int])) by {
                    broadcast use vstd::seq_lib::group_seq_properties;

                }
                lemma_routes_removed_twice(start, session.handle, done, streams@[i as int]);
            }
            i = i + 1;
        }
        assert(streams@.take(i as int) =~= streams@);
    }

    /// Takes note of a session.
    pub fn connect(&mut self, session: SessionRef)
        ensures
            final(self)@ == (RouterView {
                sessions: old(self)@.sessions.insert(session),
                ..old(self)@
            }),
    {
        broadcast use vstd::std_specs::hash::group_hash_axioms;

        self.sessions.insert(session);
        assert(self@ =~= (RouterView { sessions: old(self)@.sessions.insert(session), ..old(self)@ }));
    }

    /// Removes the route from a stream to a session.
    pub fn remove_route(&mut self, session: SessionRef, stream_id: StreamId)
        ensures
            final(self)@ == old(self)@.without_routes(session, set![stream_id]),
    {
        broadcast use vstd::std_specs::hash::group_hash_axioms;

        if let Some(stream) = self.streams.remove(&stream_id) {
            let mut stream = stream;
            stream.subscribers = keep_others(&stream.subscribers, session);
            self.streams.insert(stream_id, stream);
        }
        if let Some(waiting) = self.early_subscribers.remove(&stream_id) {
            let kept = keep_others(&waiting, session);
            self.early_subscribers.insert(stream_id, kept);
        }
        assert(self@ =~= old(self)@.without_routes(session, set![stream_id]));
    }

    /// Subscribes a session to a stream, which need not be registered yet.
    pub fn add_route(&mut self, session: &mut Session, stream_id: StreamId)
        ensures
            final(self)@ == old(self)@.with_route(old(session).handle, stream_id),
            final(session).handle == old(session).handle,
            final(session).state@ == old(session).state@.insert(stream_id),
    {
        broadcast use vstd::std_specs::hash::group_hash_axioms;

        session.state.subscribe(stream_id);
        if let Some(stream) = self.streams.remove(&stream_id) {
            let mut stream = stream;
            stream.subscribers.push(session.handle);
            self.streams.insert(stream_id, stream);
            assert(self@ =~= old(self)@.with_route(session.handle, stream_id));
            return;
        }
        let mut waiting = match self.early_subscribers.remove(&stream_id) {
            Some(waiting) => waiting,
            None => Vec::new(),
        };
        waiting.push(session.handle);
        self.early_subscribers.insert(stream_id, waiting);
        assert(self@ =~= old(self)@.with_route(session.handle, stream_id));
    }

    /// The stream with an identifier.
    pub fn get_stream(&self, stream_index: StreamId) -> (stream: Option<&Stream>)
        ensures
            match stream {
                Some(found) => self@.streams.contains_key(stream_index) && found@
                    == self@.streams[stream_index],
                None => !self@.streams.contains_key(stream_index),
            },
    {
        broadcast use vstd::std_specs::hash::group_hash_axioms;

        self.streams.get(&stream_index)
    }

    /// The stream with an identifier, to be changed.
    pub fn get_stream_mut(&mut self, stream_index: StreamId) -> (stream: Option<&mut Stream>)
        ensures
            match stream {
                Some(found) => old(self)@.streams.contains_key(stream_index) && found@
                    == old(self)@.streams[stream_index] && final(self)@ == (RouterView {
                    streams: old(self)@.streams.insert(stream_index, final(found)@),
                    ..old(self)@
                }),
                None => !old(self)@.streams.contains_key(stream_index) && final(self)@
                    == old(self)@,
            },
    {
        broadcast use vstd::std_specs::hash::group_hash_axioms;

        match self.streams.entry(stream_index) {
            Entry::Occupied(entry) => Some(entry.into_mut()),
            Entry::Vacant(_) => None,
        }
    }

    /// The stream that packets belong to.
    pub fn get_stream_id(&self, ssrc: u32, port: u16, ip_addr: IpAddr) -> (stream: Option<StreamId>)
        ensures
            stream == self@.stream_map.get(
                IncomingStreamHandle { ssrc, incoming_port: port, peer_addr: ip_addr },
            ),
    {
        self.stream_map.get(
            &IncomingStreamHandle { ssrc, incoming_port: port, peer_addr: ip_addr },
        )
    }

    /// Registers a stream; those who subscribed before receive it from now on, and its packets
    /// go to the connection that is returned. There must be a socket on the port.
    pub fn register_stream(
        &mut self,
        manager: &mut IngestManager,
        stream_index: StreamId,
        media_streams: Vec<MediaStream>,
        port: u16,
        ip_addr: IpAddr,
    ) -> (connection: RtpConnection)
        requires
            old(manager)@.sockets.contains(port),
        ensures
            final(self)@ == old(self)@.with_stream(stream_index, media_streams@, port, ip_addr),
            final(manager)@ == old(manager)@.with_connection(ip_addr, port, media_streams@),
            connection@ == RtpConnectionView::fresh(
                old(manager)@.next_connection,
                media_streams@,
                stream_index,
            ),
    {
        broadcast use vstd::std_specs::hash::group_hash_axioms;

        let mut i: usize = 0;
        let ghost before = self@.stream_map;
        while i < media_streams.len()
            invariant
                i <= media_streams@.len(),
                self.sessions == old(self).sessions,
                self.streams == old(self).streams,
                self.early_subscribers == old(self).early_subscribers,
                self.stream_map@ == with_handles(
                    before,
                    media_streams@.take(i as int),
                    port,
                    ip_addr,
                    stream_index,
                ),
            decreases media_streams@.len() - i,
        {
            let handle = IncomingStreamHandle {
                ssrc: media_streams[i].ssrc,
                incoming_port: port,
                peer_addr: ip_addr,
            };
            self.stream_map.insert(handle, stream_index);
            proof {
                let longer = media_streams@.take(i + 1);
                assert(longer.drop_last() =~= media_streams@.take(i as int));
            }
            i = i + 1;
        }
        assert(media_streams@.take(i as int) =~= media_streams@);
        let connection = manager.register_stream(stream_index, ip_addr, port, &media_streams);
        let mut stream = Stream::new(stream_index, media_streams, port, ip_addr);
        if let Some(subscribers) = self.early_subscribers.remove(&stream_index) {
            stream.subscribers = subscribers;
        }
        self.streams.insert(stream_index, stream);
        assert(self@ =~= old(self)@.with_stream(stream_index, media_streams@, port, ip_addr));
        connection
    }

    /// Removes a stream, and with it the handles of its packets.
    pub fn _destroy_stream(&mut self, stream_index: StreamId)
        ensures
            final(self)@ == old(self)@.without_stream(stream_index),
    {
        broadcast use vstd::std_specs::hash::group_hash_axioms;

        if let Some(stream) = self.streams.remove(&stream_index) {
            let ghost before = self.stream_map@;
            let mut i: usize = 0;
            while i < stream.media_streams.len()
                invariant
                    i <= stream.media_streams@.len(),
                    self.sessions == old(self).sessions,
                    self.streams@ == old(self).streams@.remove(stream_index),
                    self.early_subscribers == old(self).early_subscribers,
                    self.stream_map@ == without_handles(
                        before,
                        stream.media_streams@.take(i as int),
                        stream.port,
                        stream.peer_addr,
                    ),
                decreases stream.media_streams@.len() - i,
            {
                self.stream_map.remove(
                    &IncomingStreamHandle {
                        ssrc: stream.media_streams[i].ssrc,
                        incoming_port: stream.port,
                        peer_addr: stream.peer_addr,
                    },
                );
                proof {
                    let longer = stream.media_streams@.take(i + 1);
                    assert(longer.drop_last() =~= stream.media_streams@.take(i as int));
                }
                i = i + 1;
            }
            assert(stream.media_streams@.take(i as int) =~= stream.media_streams@);
        }
        assert(self@ =~= old(self)@.without_stream(stream_index));
    }

    /// Those who receive a stream.
    pub fn get_subscribers(&self, stream_index: StreamId) -> (subscribers: &[SessionRef])
        ensures
            subscribers@ == self@.subscribers(stream_index),
    {
        broadcast use vstd::std_specs::hash::group_hash_axioms;

        match self.streams.get(&stream_index) {
            Some(stream) => stream.subscribers.as_slice(),
            None => {
                let none: &[SessionRef] = &[];
                assert(none@ =~= Seq::empty());
                none
            },
        }
    }
}

proof fn lemma_no_routes_removed(router: RouterView, session: SessionRef)
    ensures
        router.without_routes(session, Set::empty()) == router,
{
    assert(router.without_routes(session, Set::empty()) =~= router);
}

proof fn lemma_routes_removed_twice(
    router: RouterView,
    session: SessionRef,
    done: Set<StreamId>,
    next: StreamId,
)
    ensures
        router.without_routes(session, done).without_routes(session, set![next])
            == router.without_routes(session, done.insert(next)),
{
    assert forall|subscribers: Seq<SessionRef>|
        #[trigger] others(others(subscribers, session), session) == others(subscribers, session) by {
        lemma_others_idempotent(subscribers, session);
    }
    assert(router.without_routes(session, done).without_routes(session, set![next])
        =~= router.without_routes(session, done.insert(next)));
}

proof fn lemma_others_idempotent(subscribers: Seq<SessionRef>, session: SessionRef)
    ensures
        others(others(subscribers, session), session) == others(subscribers, session),
    decreases subscribers.len(),
{
    reveal(Seq::filter);
    if subscribers.len() > 0 {
        lemma_others_idempotent(subscribers.drop_last(), session);
        let rest = others(subscribers.drop_last(), session);
        if subscribers.last() != session {
            assert(rest.push(subscribers.last()).drop_last() =~= rest);
        }
    }
}

} // verus!
