//! The connections of all sockets.

use crate::router::{
    handle_of, handles_lead_to_their_target, with_handles, IncomingStreamHandle,
};
use crate::rpc::{IpAddr, MediaStream, StreamId};
use crate::rtp_connection::{ConnectionId, RtpConnection, RtpConnectionView};
use crate::stream_map::StreamMap;
use crate::udp_consumer::MEDIA_PORT;
use std::collections::HashSet;
use vstd::prelude::*;

verus! {

/// Sets up connections and knows which packets go to which.
pub struct IngestManager {
    stream_map: StreamMap,
    sockets: HashSet<u16>,
    next_connection: ConnectionId,
}

/// What a manager knows.
#[verifier::ext_equal]
pub struct IngestManagerView {
    /// The connection that takes the packets with a handle.
    pub stream_map: Map<IncomingStreamHandle, ConnectionId>,
    /// The ports that are listened on.
    pub sockets: Set<u16>,
    /// What identifies the next connection.
    pub next_connection: ConnectionId,
}

impl View for IngestManager {
    type V = IngestManagerView;

    closed spec fn view(&self) -> IngestManagerView {
        IngestManagerView {
            stream_map: self.stream_map@,
            sockets: self.sockets@,
            next_connection: self.next_connection,
        }
    }
}

impl IngestManagerView {
    /// A manager without sockets and connections.
    pub open spec fn empty() -> IngestManagerView {
        IngestManagerView { stream_map: Map::empty(), sockets: Set::empty(), next_connection: 0 }
    }

    /// With a connection for the media streams of a peer.
    pub open spec fn with_connection(
        self,
        ip_addr: IpAddr,
        port: u16,
        media_streams: Seq<MediaStream>,
    ) -> IngestManagerView {
        IngestManagerView {
            stream_map: with_handles(
                self.stream_map,
                media_streams,
                port,
                ip_addr,
                self.next_connection,
            ),
            sockets: self.sockets,
            next_connection: ((self.next_connection + 1) % 0x1_0000_0000_0000_0000) as u64,
        }
    }
}

/// Two connections in a row have identifiers of their own.
pub proof fn connections_are_told_apart(
    manager: IngestManagerView,
    ip_addr: IpAddr,
    port: u16,
    media_streams: Seq<MediaStream>,
)
    ensures
        manager.with_connection(ip_addr, port, media_streams).next_connection
            != manager.next_connection,
{
}

/// The packets of media streams that are registered go to their connection.
pub proof fn packets_go_to_their_connection(
    manager: IngestManagerView,
    ip_addr: IpAddr,
    port: u16,
    media_streams: Seq<MediaStream>,
    i: int,
)
    requires
        0 <= i < media_streams.len(),
    ensures
        manager.with_connection(ip_addr, port, media_streams).stream_map.get(
            handle_of(media_streams[i], port, ip_addr),
        ) == Some(manager.next_connection),
{
    handles_lead_to_their_target(
        manager.stream_map,
        media_streams,
        port,
        ip_addr,
        manager.next_connection,
        handle_of(media_streams[i], port, ip_addr),
    );
}

impl IngestManager {
    /// A manager without sockets and connections.
    pub fn new() -> (manager: IngestManager)
        ensures
            manager@ == IngestManagerView::empty(),
    {
        let manager = IngestManager {
            stream_map: StreamMap::new(),
            sockets: HashSet::new(),
            next_connection: 0,
        };
        assert(manager@ =~= IngestManagerView::empty());
        manager
    }

    /// Takes note of a socket that listens on `port`.
    pub fn spawn_socket(&mut self, port: u16)
        ensures
            final(self)@ == (IngestManagerView {
                sockets: old(self)@.sockets.insert(port),
                ..old(self)@
            }),
    {
        broadcast use vstd::std_specs::hash::group_hash_axioms;

        self.sockets.insert(port);
    }

    /// Whether a socket listens on `port`.
    pub fn has_socket(&self, port: u16) -> (found: bool)
        ensures
            found == self@.sockets.contains(port),
    {
        broadcast use vstd::std_specs::hash::group_hash_axioms;

        self.sockets.contains(&port)
    }

    /// Which connection takes which packets.
    pub fn stream_map(&self) -> (stream_map: &StreamMap)
        ensures
            stream_map@ == self@.stream_map,
    {
        &self.stream_map
    }

    /// Sets up the connection that takes the packets of `media_streams` from a peer.
    pub fn register_stream(
        &mut self,
        stream_index: StreamId,
        ip_addr: IpAddr,
        port: u16,
        media_streams: &Vec<MediaStream>,
    ) -> (connection: RtpConnection)
        requires
            old(self)@.sockets.contains(port),
        ensures
            final(self)@ == old(self)@.with_connection(ip_addr, port, media_streams@),
            connection@ == RtpConnectionView::fresh(
                old(self)@.next_connection,
                media_streams@,
                stream_index,
            ),
    {
        let connection = RtpConnection::new(self.next_connection, media_streams, stream_index);
        let ghost before = self.stream_map@;
        let mut i: usize = 0;
        while i < media_streams.len()
            invariant
                i <= media_streams@.len(),
                self.sockets == old(self).sockets,
                self.next_connection == old(self).next_connection,
                connection@.handle == self.next_connection,
                self.stream_map@ == with_handles(
                    before,
                    media_streams@.take(i as int),
                    port,
                    ip_addr,
                    self.next_connection,
                ),
            decreases media_streams@.len() - i,
        {
            self.stream_map.insert(
                IncomingStreamHandle {
                    ssrc: media_streams[i].ssrc,
                    incoming_port: port,
                    peer_addr: ip_addr,
                },
                connection.handle(),
            );
            proof {
                let longer = media_streams@.take(i + 1);
                assert(longer.drop_last() =~= media_streams@.take(i as int));
                assert(longer.last() == media_streams@[i as int]);
            }
            i = i + 1;
        }
        assert(media_streams@.take(i as int) =~= media_streams@);
        self.next_connection = self.next_connection.wrapping_add(1);
        connection
    }
}

/// Takes note of the socket that media arrive on.
pub fn start_ingest(manager: &mut IngestManager)
    ensures
        final(manager)@ == (IngestManagerView {
            sockets: old(manager)@.sockets.insert(MEDIA_PORT),
            ..old(manager)@
        }),
{
    manager.spawn_socket(MEDIA_PORT);
}

} // verus!
