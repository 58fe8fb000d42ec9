//! A narrower form of the messages to the plugin, which knows of a media
//! stream only whether it is video.

use crate::rpc::{IpAddr, StreamId};
use vstd::prelude::*;

verus! {

#[derive(Debug, Clone, Copy, PartialEq, Eq, Structural)]
pub struct MediaStream {
    pub ssrc: u32,
    pub payload_type: u16,
    pub is_video: bool,
}

#[derive(Debug)]
pub enum StaafRPC {
    RegisterStream(RegisterStream),
    Subscribe(StreamId),
    Unsubscribe(StreamId),
    Offer,
}

#[derive(Debug)]
pub struct RegisterStream {
    pub media_streams: Vec<MediaStream>,
    pub peer_addr: IpAddr,
    pub stream_id: StreamId,
}

} // verus!
