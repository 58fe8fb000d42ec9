//! Routing: who receives a stream, and where its packets go.

use crate::manager::IngestManagerView;
use crate::message_handler::MessageHandler;
use crate::router::{
    handle_of, handles_lead_to_their_target, held_packets, others, pairs_map, without_handles,
    IncomingStreamHandle, RouterView, SessionRef,
};
use crate::rpc::{IpAddr, MediaStream, StreamId};
use crate::rtp_connection::{ConnectionId, UdpMessage};
use crate::rtp_utils::MuxedRtp;
use crate::stream_map::key_of;
use crate::udp_consumer::zeros;
use vstd::prelude::*;

verus! {

/// Those who receive a stream, or wait for it, are those that the router holds for it, and nobody
/// where it holds none.
pub proof fn routes_are_those_held(router: RouterView, session: SessionRef, id: StreamId)
    ensures
        router.streams.contains_key(id) ==> router.subscribers(id)
            == router.streams[id].subscribers,
        !router.streams.contains_key(id) ==> router.subscribers(id).len() == 0,
        router.early_subscribers.contains_key(id) ==> router.waiting(id)
            == router.early_subscribers[id],
        !router.early_subscribers.contains_key(id) ==> router.waiting(id).len() == 0,
        router.has_route(session, id) <==> router.subscribers(id).contains(session)
            || router.waiting(id).contains(session),
{
}

/// A router that knows nothing has neither sessions, streams, handles, nor anybody who waits.
pub proof fn empty_routers_know_nothing(
    session: SessionRef,
    id: StreamId,
    handle: IncomingStreamHandle,
)
    ensures
        !RouterView::empty().sessions.contains(session),
        !RouterView::empty().streams.contains_key(id),
        !RouterView::empty().early_subscribers.contains_key(id),
        !RouterView::empty().stream_map.contains_key(handle),
{
}

/// When routes to a session are removed, the others keep theirs: of the streams meant, all other
/// sessions still receive or await them, in the same order, and the session does no longer; of
/// other streams nothing changes.
pub proof fn others_keep_their_routes(
    router: RouterView,
    session: SessionRef,
    from: Set<StreamId>,
    id: StreamId,
)
    ensures
        ({
            let after = router.without_routes(session, from);
            &&& from.contains(id) ==> after.subscribers(id) == router.subscribers(id).filter(
                |item: SessionRef| item != session,
            )
            &&& from.contains(id) ==> after.waiting(id) == router.waiting(id).filter(
                |item: SessionRef| item != session,
            )
            &&& !from.contains(id) ==> after.subscribers(id) == router.subscribers(id)
            &&& !from.contains(id) ==> after.waiting(id) == router.waiting(id)
        }),
{
    lemma_others(router.subscribers(id), session);
    lemma_others(router.waiting(id), session);
    assert(Seq::<SessionRef>::empty().filter(|item: SessionRef| item != session)
        =~= Seq::empty()) by {
        reveal(Seq::filter);
    }
}

proof fn lemma_others(items: Seq<SessionRef>, session: SessionRef)
    ensures
        others(items, session) == items.filter(|item: SessionRef| item != session),
    decreases items.len(),
{
    reveal(Seq::filter);
    if items.len() > 0 {
        lemma_others(items.drop_last(), session);
    }
}

/// Removing routes to a session takes them from nobody else.
pub proof fn no_route_of_another_is_lost(
    router: RouterView,
    session: SessionRef,
    from: Set<StreamId>,
    id: StreamId,
    other: SessionRef,
)
    requires
        other != session,
    ensures
        ({
            let after = router.without_routes(session, from);
            &&& after.subscribers(id).contains(other) <==> router.subscribers(id).contains(other)
            &&& after.waiting(id).contains(other) <==> router.waiting(id).contains(other)
            &&& from.contains(id) ==> !after.subscribers(id).contains(session)
                && !after.waiting(id).contains(session)
        }),
{
    others_keep_their_routes(router, session, from, id);
    let keep = |item: SessionRef| item != session;
    lemma_filtered(router.subscribers(id), keep, other);
    lemma_filtered(router.waiting(id), keep, other);
    lemma_filtered(router.subscribers(id), keep, session);
    lemma_filtered(router.waiting(id), keep, session);
}

proof fn lemma_filtered(items: Seq<SessionRef>, keep: spec_fn(SessionRef) -> bool, item: SessionRef)
    ensures
        items.filter(keep).contains(item) <==> items.contains(item) && keep(item),
    decreases items.len(),
{
    reveal(Seq::filter);
    if items.len() > 0 {
        let rest = items.drop_last();
        lemma_filtered(rest, keep, item);
        assert(items.contains(item) <==> rest.contains(item) || items.last() == item) by {
            if rest.contains(item) {
                let i = choose|i: int| 0 <= i < rest.len() && rest[i] == item;
                assert(items[i] == item);
            }
            if items.contains(item) && items.last() != item {
                let i = choose|i: int| 0 <= i < items.len() && items[i] == item;
                assert(rest[i] == item);
            }
            assert(items[items.len() - 1] == items.last());
        }
        if keep(items.last()) {
            let kept = rest.filter(keep);
            let all = kept.push(items.last());
            if kept.contains(item) {
                let i = choose|i: int| 0 <= i < kept.len() && kept[i] == item;
                assert(all[i] == item);
            }
            if all.contains(item) && items.last() != item {
                let i = choose|i: int| 0 <= i < all.len() && all[i] == item;
                assert(kept[i] == item);
            }
            assert(all[all.len() - 1] == items.last());
        }
    }
}

/// Removing routes changes neither the sessions, nor the handles, nor which streams there are or
/// what else is known of them.
pub proof fn removed_routes_change_nothing_else(
    router: RouterView,
    session: SessionRef,
    from: Set<StreamId>,
    id: StreamId,
)
    ensures
        ({
            let after = router.without_routes(session, from);
            &&& after.sessions == router.sessions
            &&& after.stream_map == router.stream_map
            &&& after.streams.contains_key(id) <==> router.streams.contains_key(id)
            &&& after.early_subscribers.contains_key(id) <==> router.early_subscribers.contains_key(
                id,
            )
            &&& router.streams.contains_key(id) ==> {
                &&& after.streams[id].id == router.streams[id].id
                &&& after.streams[id].media_streams == router.streams[id].media_streams
                &&& after.streams[id].port == router.streams[id].port
                &&& after.streams[id].peer_addr == router.streams[id].peer_addr
                &&& after.streams[id].keyframe_buffer == router.streams[id].keyframe_buffer
            }
        }),
{
}

/// A new route comes last: behind those who receive the stream where it is registered, and
/// otherwise behind those who wait for it. No other route changes, nor anything else.
pub proof fn new_routes_come_last(
    router: RouterView,
    session: SessionRef,
    id: StreamId,
    other: StreamId,
)
    ensures
        ({
            let after = router.with_route(session, id);
            let registered = router.streams.contains_key(id);
            &&& registered ==> after.subscribers(id) == router.subscribers(id) + seq![session]
            &&& registered ==> after.waiting(id) == router.waiting(id)
            &&& !registered ==> after.waiting(id) == router.waiting(id) + seq![session]
            &&& !registered ==> !after.streams.contains_key(id)
            &&& other != id ==> after.subscribers(other) == router.subscribers(other)
            &&& other != id ==> after.waiting(other) == router.waiting(other)
            &&& after.sessions == router.sessions
            &&& after.stream_map == router.stream_map
            &&& after.streams.contains_key(other) <==> router.streams.contains_key(other)
            &&& router.streams.contains_key(other) ==> {
                &&& after.streams[other].id == router.streams[other].id
                &&& after.streams[other].media_streams == router.streams[other].media_streams
                &&& after.streams[other].port == router.streams[other].port
                &&& after.streams[other].peer_addr == router.streams[other].peer_addr
                &&& after.streams[other].keyframe_buffer == router.streams[other].keyframe_buffer
            }
        }),
{
    assert(router.subscribers(id).push(session) =~= router.subscribers(id) + seq![session]);
    assert(router.waiting(id).push(session) =~= router.waiting(id) + seq![session]);
}

/// Who subscribes to a stream and unsubscribes leaves no trace with those who receive it, unless
/// there was a route before.
pub proof fn unsubscribing_undoes_subscribing(
    router: RouterView,
    session: SessionRef,
    id: StreamId,
    other: StreamId,
)
    requires
        !router.has_route(session, id),
    ensures
        ({
            let after = router.with_route(session, id).without_routes(session, set![id]);
            &&& after.subscribers(other) == router.subscribers(other)
            &&& after.waiting(other) == router.waiting(other)
        }),
{
    let with = router.with_route(session, id);
    let keep = |item: SessionRef| item != session;
    others_keep_their_routes(with, session, set![id], other);
    lemma_untouched(router.subscribers(id), keep);
    lemma_untouched(router.waiting(id), keep);
    reveal(Seq::filter);
    if router.streams.contains_key(id) {
        assert(with.subscribers(id).drop_last() =~= router.subscribers(id));
    } else {
        assert(with.waiting(id).drop_last() =~= router.waiting(id));
        assert(with.subscribers(id) =~= Seq::empty());
    }
}

proof fn lemma_untouched(items: Seq<SessionRef>, keep: spec_fn(SessionRef) -> bool)
    requires
        forall|i: int| 0 <= i < items.len() ==> keep(#[trigger] items[i]),
    ensures
        items.filter(keep) == items,
    decreases items.len(),
{
    reveal(Seq::filter);
    if items.len() > 0 {
        lemma_untouched(items.drop_last(), keep);
        assert(items.drop_last().push(items.last()) =~= items);
    }
}

/// A stream that is registered goes to those who waited for it, in the order in which they came,
/// and nobody waits for it any more. It is known as it was announced, and nothing of it is kept
/// yet. No other stream changes, nor do the sessions.
pub proof fn registered_streams_reach_who_waited(
    router: RouterView,
    id: StreamId,
    media_streams: Seq<MediaStream>,
    port: u16,
    peer_addr: IpAddr,
    other: StreamId,
    ssrc: u32,
)
    ensures
        ({
            let after = router.with_stream(id, media_streams, port, peer_addr);
            &&& after.streams.contains_key(id)
            &&& after.subscribers(id) == router.waiting(id)
            &&& after.waiting(id).len() == 0
            &&& after.streams[id].id == id
            &&& after.streams[id].media_streams == media_streams
            &&& after.streams[id].port == port
            &&& after.streams[id].peer_addr == peer_addr
            &&& !after.streams[id].keyframe_buffer.contains_key(ssrc)
            &&& after.streams[id].kept(ssrc).len() == 0
            &&& after.sessions == router.sessions
            &&& other != id ==> (after.streams.contains_key(other)
                <==> router.streams.contains_key(other))
            &&& other != id && router.streams.contains_key(other) ==> after.streams[other]
                == router.streams[other]
            &&& other != id ==> after.waiting(other) == router.waiting(other)
        }),
{
}

/// Packets are recognised by all of source, port and sender: those of the media streams announced
/// lead to the stream, and all others where they led before.
pub proof fn handles_lead_to_the_stream(
    router: RouterView,
    id: StreamId,
    media_streams: Seq<MediaStream>,
    port: u16,
    peer_addr: IpAddr,
    handle: IncomingStreamHandle,
)
    ensures
        ({
            let after = router.with_stream(id, media_streams, port, peer_addr);
            let announced = handle.incoming_port == port && handle.peer_addr == peer_addr && exists|
                i: int,
            |
                0 <= i < media_streams.len() && #[trigger] media_streams[i].ssrc == handle.ssrc;
            &&& announced ==> after.stream_map.get(handle) == Some(id)
            &&& !announced ==> after.stream_map.get(handle) == router.stream_map.get(handle)
        }),
{
    handles_lead_to_their_target(router.stream_map, media_streams, port, peer_addr, id, handle);
    lemma_announced(media_streams, port, peer_addr, handle);
}

proof fn lemma_announced(
    media_streams: Seq<MediaStream>,
    port: u16,
    peer_addr: IpAddr,
    handle: IncomingStreamHandle,
)
    ensures
        (exists|i: int|
            0 <= i < media_streams.len() && handle == handle_of(
                #[trigger] media_streams[i],
                port,
                peer_addr,
            )) <==> (handle.incoming_port == port && handle.peer_addr == peer_addr && exists|i: int|
            0 <= i < media_streams.len() && #[trigger] media_streams[i].ssrc == handle.ssrc),
{
    if handle.incoming_port == port && handle.peer_addr == peer_addr && exists|i: int|
        0 <= i < media_streams.len() && #[trigger] media_streams[i].ssrc == handle.ssrc {
        let i = choose|i: int|
            0 <= i < media_streams.len() && #[trigger] media_streams[i].ssrc == handle.ssrc;
        assert(handle == handle_of(media_streams[i], port, peer_addr));
    }
    if exists|i: int|
        0 <= i < media_streams.len() && handle == handle_of(
            #[trigger] media_streams[i],
            port,
            peer_addr,
        ) {
        let i = choose|i: int|
            0 <= i < media_streams.len() && handle == handle_of(
                #[trigger] media_streams[i],
                port,
                peer_addr,
            );
        assert(media_streams[i].ssrc == handle.ssrc);
    }
}

/// A stream that is destroyed goes with its handles; all other streams and handles stay, and so do
/// the sessions and those who wait.
pub proof fn destroyed_streams_take_nothing_along(
    router: RouterView,
    id: StreamId,
    other: StreamId,
    handle: IncomingStreamHandle,
)
    ensures
        ({
            let after = router.without_stream(id);
            let found = router.streams[id];
            let gone = router.streams.contains_key(id) && handle.incoming_port == found.port
                && handle.peer_addr == found.peer_addr && exists|i: int|
                0 <= i < found.media_streams.len() && #[trigger] found.media_streams[i].ssrc
                    == handle.ssrc;
            &&& !after.streams.contains_key(id)
            &&& other != id ==> (after.streams.contains_key(other)
                <==> router.streams.contains_key(other))
            &&& other != id && router.streams.contains_key(other) ==> after.streams[other]
                == router.streams[other]
            &&& after.early_subscribers == router.early_subscribers
            &&& after.sessions == router.sessions
            &&& gone ==> after.stream_map.get(handle) is None
            &&& !gone ==> after.stream_map.get(handle) == router.stream_map.get(handle)
        }),
{
    if router.streams.contains_key(id) {
        let found = router.streams[id];
        lemma_removed(router.stream_map, found.media_streams, found.port, found.peer_addr, handle);
        lemma_announced(found.media_streams, found.port, found.peer_addr, handle);
    }
}

proof fn lemma_removed(
    map: Map<IncomingStreamHandle, StreamId>,
    media_streams: Seq<MediaStream>,
    port: u16,
    peer_addr: IpAddr,
    handle: IncomingStreamHandle,
)
    ensures
        without_handles(map, media_streams, port, peer_addr).get(handle) == if exists|i: int|
            0 <= i < media_streams.len() && handle == handle_of(
                #[trigger] media_streams[i],
                port,
                peer_addr,
            ) {
            None
        } else {
            map.get(handle)
        },
    decreases media_streams.len(),
{
    if media_streams.len() > 0 {
        let earlier = media_streams.drop_last();
        lemma_removed(map, earlier, port, peer_addr, handle);
        assert forall|i: int| 0 <= i < earlier.len() implies #[trigger] earlier[i]
            == media_streams[i] by {}
        if handle == handle_of(media_streams.last(), port, peer_addr) {
            assert(handle == handle_of(media_streams[media_streams.len() - 1], port, peer_addr));
        } else if exists|i: int|
            0 <= i < media_streams.len() && handle == handle_of(
                #[trigger] media_streams[i],
                port,
                peer_addr,
            ) {
            let i = choose|i: int|
                0 <= i < media_streams.len() && handle == handle_of(
                    #[trigger] media_streams[i],
                    port,
                    peer_addr,
                );
            assert(handle == handle_of(earlier[i], port, peer_addr));
        }
    }
}

/// A stream that is registered and destroyed leaves the other streams as they were.
pub proof fn destroying_undoes_registering(
    router: RouterView,
    id: StreamId,
    media_streams: Seq<MediaStream>,
    port: u16,
    peer_addr: IpAddr,
)
    requires
        !router.streams.contains_key(id),
    ensures
        router.with_stream(id, media_streams, port, peer_addr).without_stream(id).streams
            == router.streams,
{
    assert(router.with_stream(id, media_streams, port, peer_addr).without_stream(id).streams
        =~= router.streams);
}

/// A new manager listens on nothing and knows no handles; its first connection is number zero.
pub proof fn empty_managers_know_nothing(port: u16, handle: IncomingStreamHandle)
    ensures
        !IngestManagerView::empty().sockets.contains(port),
        !IngestManagerView::empty().stream_map.contains_key(handle),
        IngestManagerView::empty().next_connection == 0,
{
}

/// Connections are numbered one after the other. The packets of the media streams announced go to
/// the new one, and all others where they went before; the sockets stay.
pub proof fn connections_take_what_was_announced(
    manager: IngestManagerView,
    ip_addr: IpAddr,
    port: u16,
    media_streams: Seq<MediaStream>,
    handle: IncomingStreamHandle,
)
    ensures
        ({
            let after = manager.with_connection(ip_addr, port, media_streams);
            let announced = handle.incoming_port == port && handle.peer_addr == ip_addr && exists|
                i: int,
            |
                0 <= i < media_streams.len() && #[trigger] media_streams[i].ssrc == handle.ssrc;
            &&& announced ==> after.stream_map.get(handle) == Some(manager.next_connection)
            &&& !announced ==> after.stream_map.get(handle) == manager.stream_map.get(handle)
            &&& after.sockets == manager.sockets
            &&& manager.next_connection < u64::MAX ==> after.next_connection
                == manager.next_connection + 1
            &&& manager.next_connection == u64::MAX ==> after.next_connection == 0
        }),
{
    let next: ConnectionId = manager.next_connection;
    handles_lead_to_their_target(manager.stream_map, media_streams, port, ip_addr, next, handle);
    lemma_announced(media_streams, port, ip_addr, handle);
}

/// The handle of a datagram is made of the source in its header, the port it came to and the
/// address it came from.
pub proof fn datagrams_are_told_apart(handler: MessageHandler, message: UdpMessage, rtp: MuxedRtp)
    ensures
        handler.handle_of(message, rtp).incoming_port == handler.bound_port,
        handler.handle_of(message, rtp).peer_addr == message.address.ip,
        rtp matches MuxedRtp::RTP(header) ==> handler.handle_of(message, rtp).ssrc == header.ssrc,
        rtp matches MuxedRtp::RTCP(header) ==> handler.handle_of(message, rtp).ssrc == header.ssrc,
{
}

/// The key of a handle holds its source and port, and tells IPv4 from IPv6 addresses.
pub proof fn keys_hold_the_handle(handle: IncomingStreamHandle)
    ensures
        key_of(handle).0 == handle.ssrc,
        key_of(handle).1 == handle.incoming_port,
        handle.peer_addr matches IpAddr::V4(address) ==> !key_of(handle).2 && key_of(handle).3
            == address,
        handle.peer_addr matches IpAddr::V6(address) ==> key_of(handle).2 && key_of(handle).3
            == address,
{
}

/// What a socket receives in is 65536 bytes, all of them zero.
pub proof fn receive_buffers_are_blank(i: int)
    ensures
        zeros().len() == 65536,
        0 <= i < 65536 ==> zeros()[i] == 0,
{
}

/// The packets that a buffer holds are those put into it, in order.
pub proof fn buffers_hold_their_packets(packets: Vec<Vec<u8>>, i: int)
    ensures
        held_packets(packets).len() == packets@.len(),
        0 <= i < packets@.len() ==> held_packets(packets)[i] == packets@[i]@,
{
}

/// A map given by pairs leads from each key to what was paired with it last, and from no other.
pub proof fn later_pairs_count(
    pairs: Seq<(IncomingStreamHandle, StreamId)>,
    handle: IncomingStreamHandle,
    id: StreamId,
    other: IncomingStreamHandle,
)
    ensures
        pairs_map(pairs.push((handle, id))).get(handle) == Some(id),
        other != handle ==> pairs_map(pairs.push((handle, id))).get(other) == pairs_map(pairs).get(
            other,
        ),
        pairs_map(Seq::empty()).get(other) is None,
{
    assert(pairs.push((handle, id)).drop_last() =~= pairs);
}

} // verus!
