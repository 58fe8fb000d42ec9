//! The buffer that a socket receives its datagrams in.

use crate::buffers::{
    buffer_contents, empty_buffer, freeze, resize, shared_contents, truncate,
};
use crate::rpc::SocketAddr;
use crate::rtp_connection::UdpMessage;
use bytes::BytesMut;
use vstd::prelude::*;

verus! {

/// The size of the receive buffer, enough for any datagram.
pub const DATAGRAM_SIZE: usize = 65536;

/// How many handlers share the datagrams of a socket.
pub const HANDLERS_PER_SOCKET: usize = 5;

/// How many datagrams may wait for a handler.
pub const UDP_MESSAGE_QUEUE_DEPTH: usize = 100;

/// How many packets may wait for a connection.
pub const RTP_MESSAGE_QUEUE_DEPTH: usize = 100;

/// The port that media arrive on.
pub const MEDIA_PORT: u16 = 1445;

/// A buffer of zeros.
pub open spec fn zeros() -> Seq<u8> {
    Seq::new(DATAGRAM_SIZE as nat, |i: int| 0u8)
}

/// Turns what a socket receives into messages.
#[derive(Debug)]
pub struct UdpConsumer {
    /// Where the socket puts the next datagram.
    pub buffer: BytesMut,
    /// How many datagrams nobody took.
    pub drop_counter: u64,
}

impl UdpConsumer {
    /// A consumer with an empty buffer to receive in.
    pub fn new() -> (consumer: UdpConsumer)
        ensures
            buffer_contents(consumer.buffer) == zeros(),
            consumer.drop_counter == 0,
    {
        UdpConsumer { buffer: Self::receive_buffer(), drop_counter: 0 }
    }

    fn receive_buffer() -> (buffer: BytesMut)
        ensures
            buffer_contents(buffer) == zeros(),
    {
        let mut buffer = empty_buffer();
        resize(&mut buffer, DATAGRAM_SIZE, 0);
        assert(buffer_contents(buffer) =~= zeros());
        buffer
    }

    /// Takes the datagram of `size` bytes from `address` out of the buffer, and puts a fresh
    /// buffer in its place.
    pub fn take_message(&mut self, size: usize, address: SocketAddr) -> (message: UdpMessage)
        requires
            size <= buffer_contents(old(self).buffer).len(),
        ensures
            message.address == address,
            shared_contents(message.data) == buffer_contents(old(self).buffer).take(size as int),
            buffer_contents(final(self).buffer) == zeros(),
            final(self).drop_counter == old(self).drop_counter,
    {
        let mut data = Self::receive_buffer();
        truncate(&mut self.buffer, size);
        std::mem::swap(&mut self.buffer, &mut data);
        UdpMessage { address, data: freeze(data) }
    }

    /// Counts a datagram that nobody took.
    pub fn count_dropped(&mut self)
        ensures
            final(self).drop_counter == (old(self).drop_counter + 1) % 0x1_0000_0000_0000_0000,
            final(self).buffer == old(self).buffer,
    {
        self.drop_counter = self.drop_counter.wrapping_add(1);
    }
}

} // verus!
