//! A streaming mixer for the Janus media server: the control connection of
//! streamers, the client of the media server, the routing of streams to
//! sessions, and the reception of their packets.

pub mod buffers;
pub mod consts;
pub mod ingest;
pub mod janus_client;
pub mod laws;
pub mod manager;
pub mod message_handler;
pub mod plugin;
pub mod plugin_rpc;
pub mod receiver_stream;
pub mod reports;
pub mod router;
pub mod rpc;
pub mod rtp_connection;
pub mod rtp_receiver;
pub mod rtp_utils;
pub mod sequence;
pub mod signing;
pub mod stream_map;
pub mod text;
pub mod udp_consumer;
pub mod wire;
