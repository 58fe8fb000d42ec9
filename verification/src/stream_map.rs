//! The map from incoming packets to connections, which all handlers of a socket look into.

use crate::router::IncomingStreamHandle;
use crate::rpc::IpAddr;
use crate::rtp_connection::ConnectionId;
use dashmap::DashMap;
use vstd::prelude::*;

verus! {

/// The map of the `dashmap` crate.
#[verifier::external_type_specification]
#[verifier::external_body]
#[verifier::reject_recursive_types(K)]
#[verifier::reject_recursive_types(V)]
#[verifier::reject_recursive_types(S)]
pub struct ExDashMap<K, V, S>(DashMap<K, V, S>);

/// A stream handle as a tuple of integers: source, port, whether the address is an IPv6
/// address, and the address.
pub type StreamKey = (u32, u16, bool, u128);

/// The entries of a map.
pub uninterp spec fn map_contents(map: DashMap<StreamKey, ConnectionId>) -> Map<
    StreamKey,
    ConnectionId,
>;

/// `DashMap::new`: the map is empty.
#[verifier::external_body]
fn empty_map() -> (created: DashMap<StreamKey, ConnectionId>)
    ensures
        map_contents(created).is_empty(),
{
    DashMap::new()
}

/// `DashMap::insert`: sets the value of the key. The map is held exclusively.
#[verifier::external_body]
fn insert_entry(map: &mut DashMap<StreamKey, ConnectionId>, key: StreamKey, value: ConnectionId)
    ensures
        map_contents(*final(map)) == map_contents(*old(map)).insert(key, value),
{
    map.insert(key, value);
}

/// `DashMap::get`: the value of the key, where the map has it.
#[verifier::external_body]
fn find_entry(map: &DashMap<StreamKey, ConnectionId>, key: &StreamKey) -> (value: Option<
    ConnectionId,
>)
    ensures
        value == map_contents(*map).get(*key),
{
    map.get(key).map(|entry| *entry.value())
}

/// The tuple that stands for a stream handle.
pub open spec fn key_of(handle: IncomingStreamHandle) -> StreamKey {
    match handle.peer_addr {
        IpAddr::V4(address) => (handle.ssrc, handle.incoming_port, false, address as u128),
        IpAddr::V6(address) => (handle.ssrc, handle.incoming_port, true, address),
    }
}

/// Two stream handles have one tuple only if they are the same.
pub proof fn keys_tell_handles_apart(a: IncomingStreamHandle, b: IncomingStreamHandle)
    ensures
        key_of(a) == key_of(b) <==> a == b,
{
}

/// Which connection takes the packets with a stream handle.
pub struct StreamMap {
    map: DashMap<StreamKey, ConnectionId>,
}

impl View for StreamMap {
    type V = Map<IncomingStreamHandle, ConnectionId>;

    closed spec fn view(&self) -> Map<IncomingStreamHandle, ConnectionId> {
        Map::new(
            |handle: IncomingStreamHandle| map_contents(self.map).contains_key(key_of(handle)),
            |handle: IncomingStreamHandle| map_contents(self.map)[key_of(handle)],
        )
    }
}

impl StreamMap {
    /// A map without entries.
    pub fn new() -> (map: StreamMap)
        ensures
            map@ == Map::<IncomingStreamHandle, ConnectionId>::empty(),
    {
        let map = StreamMap { map: empty_map() };
        assert(map@ =~= Map::empty());
        map
    }

    /// Sets the connection of a stream handle.
    pub fn insert(&mut self, handle: IncomingStreamHandle, connection: ConnectionId)
        ensures
            final(self)@ == old(self)@.insert(handle, connection),
    {
        let key = Self::key(&handle);
        insert_entry(&mut self.map, key, connection);
        assert forall|other: IncomingStreamHandle|
            #[trigger] key_of(other) == key implies other == handle by {
            keys_tell_handles_apart(other, handle);
        }
        assert(self@ =~= old(self)@.insert(handle, connection));
    }

    /// The connection of a stream handle.
    pub fn get(&self, handle: &IncomingStreamHandle) -> (connection: Option<ConnectionId>)
        ensures
            connection == self@.get(*handle),
    {
        find_entry(&self.map, &Self::key(handle))
    }

    fn key(handle: &IncomingStreamHandle) -> (key: StreamKey)
        ensures
            key == key_of(*handle),
    {
        match handle.peer_addr {
            IpAddr::V4(address) => (handle.ssrc, handle.incoming_port, false, address as u128),
            IpAddr::V6(address) => (handle.ssrc, handle.incoming_port, true, address),
        }
    }
}

} // verus!
