//! The messages that the ingest server and the mixer plugin exchange, and the
//! values they are made of.

use vstd::prelude::*;

verus! {

/// Identifies a stream; the channel that a streamer connects with.
pub type StreamId = u32;

/// The address of a host.
#[derive(Debug, Clone, Copy, PartialEq, Eq, Structural)]
pub enum IpAddr {
    /// The four octets of an IPv4 address, the first one the most significant.
    V4(u32),
    /// The sixteen octets of an IPv6 address, the first one the most significant.
    V6(u128),
}

/// The address of a socket.
#[derive(Debug, Clone, Copy, PartialEq, Eq, Structural)]
pub struct SocketAddr {
    pub ip: IpAddr,
    pub port: u16,
    /// The flow information of an IPv6 address, zero for IPv4.
    pub flowinfo: u32,
    /// The scope of an IPv6 address, zero for IPv4.
    pub scope_id: u32,
}

/// One media stream, of those that travel together under one `StreamId`.
#[derive(Debug, Clone, Copy, PartialEq, Eq, Structural)]
pub struct MediaStream {
    pub ssrc: u32,
    pub payload_type: u16,
    pub content: MediaStreamContent,
}

#[derive(Debug, Clone, Copy, PartialEq, Eq, Structural)]
pub enum MediaStreamContent {
    Video(MediaStreamVideo),
    Audio(MediaStreamAudio),
}

impl MediaStreamContent {
    /// Whether this is video.
    pub fn is_video(&self) -> (video: bool)
        ensures
            video == (*self is Video),
    {
        match self {
            MediaStreamContent::Video(_) => true,
            MediaStreamContent::Audio(_) => false,
        }
    }
}

#[derive(Debug, Clone, Copy, PartialEq, Eq, Structural)]
pub enum AudioCodec {
    Opus,
}

impl AudioCodec {
    /// The encoding name of the codec.
    pub open spec fn name(self) -> Seq<char> {
        "opus"@
    }

    /// The encoding name of the codec.
    pub fn to_str(&self) -> (name: &'static str)
        ensures
            name@ == self.name(),
    {
        match self {
            AudioCodec::Opus => "opus",
        }
    }
}

#[derive(Debug, Clone, Copy, PartialEq, Eq, Structural)]
pub enum VideoCodec {
    H264,
    VP9,
}

impl VideoCodec {
    /// The encoding name of the codec.
    pub open spec fn name(self) -> Seq<char> {
        match self {
            VideoCodec::VP9 => "VP9"@,
            VideoCodec::H264 => "H264"@,
        }
    }

    /// The encoding name of the codec.
    pub fn to_str(&self) -> (name: &'static str)
        ensures
            name@ == self.name(),
    {
        match self {
            VideoCodec::VP9 => "VP9",
            VideoCodec::H264 => "H264",
        }
    }
}

#[derive(Debug, Clone, Copy, PartialEq, Eq, Structural)]
pub struct MediaStreamAudio {
    pub codec: AudioCodec,
}

#[derive(Debug, Clone, Copy, PartialEq, Eq, Structural)]
pub struct MediaStreamVideo {
    pub codec: VideoCodec,
    pub width: u32,
    pub height: u32,
}

/// A message between the ingest server and the mixer plugin.
#[derive(Debug, Clone)]
pub enum StaafRPC {
    RegisterStream(RegisterStream),
    StreamRegistered { port: u16 },
    Subscribe { stream_id: StreamId },
    Unsubscribe { stream_id: StreamId },
    Offer,
    Answer,
}

/// A request to accept the media streams of a peer under a stream.
#[derive(Debug, Clone)]
pub struct RegisterStream {
    pub media_streams: Vec<MediaStream>,
    pub peer_addr: IpAddr,
    pub stream_id: StreamId,
}

} // verus!
