//! What is done with a datagram that a socket received.

use crate::buffers::{as_slice, shared_contents};
use crate::router::IncomingStreamHandle;
use crate::rtp_connection::{ConnectionId, UdpMessage, UdpRtpMessage};
use crate::rtp_utils::{muxed_header, MuxedRtp};
use crate::stream_map::StreamMap;
use vstd::prelude::*;

verus! {

/// Hands the datagrams of a socket to the connections they belong to.
#[derive(Debug, Clone, Copy)]
pub struct MessageHandler {
    pub bound_port: u16,
}

impl MessageHandler {
    /// A handler for a socket that is bound to a port.
    pub fn handler_for(bound_port: u16) -> (handler: MessageHandler)
        ensures
            handler.bound_port == bound_port,
    {
        MessageHandler { bound_port }
    }

    /// What identifies the packets that arrive with `rtp` as header from the sender of
    /// `message`.
    pub open spec fn handle_of(self, message: UdpMessage, rtp: MuxedRtp) -> IncomingStreamHandle {
        IncomingStreamHandle {
            ssrc: rtp.source(),
            incoming_port: self.bound_port,
            peer_addr: message.address.ip,
        }
    }

    /// Finds the connection of a datagram: there is none where the datagram holds neither an
    /// RTP nor an RTCP header, or where nobody registered what it identifies.
    pub fn route(&self, message: UdpMessage, stream_map: &StreamMap) -> (routed: Option<
        (ConnectionId, UdpRtpMessage),
    >)
        ensures
            match routed {
                Some((connection, routed)) => {
                    &&& muxed_header(shared_contents(message.data)) == Some(routed.rtp)
                    &&& stream_map@.get(self.handle_of(message, routed.rtp)) == Some(connection)
                    &&& routed.address == message.address
                    &&& routed.data == message.data
                },
                None => match muxed_header(shared_contents(message.data)) {
                    Some(rtp) => stream_map@.get(self.handle_of(message, rtp)) is None,
                    None => true,
                },
            },
    {
        let rtp = match MuxedRtp::parse(as_slice(&message.data)) {
            Some(rtp) => rtp,
            None => {
                return None;
            },
        };
        let handle = IncomingStreamHandle {
            ssrc: rtp.ssrc(),
            incoming_port: self.bound_port,
            peer_addr: message.address.ip,
        };
        match stream_map.get(&handle) {
            Some(connection) => Some(
                (connection, UdpRtpMessage { address: message.address, data: message.data, rtp }),
            ),
            None => None,
        }
    }
}

} // verus!
