# staafmixer

A streaming mixer for the Janus media server, written in Rust and verified with
Verus. Streamers connect to the ingest server, which authenticates them and asks
the mixer plugin to accept their media; viewers subscribe to a stream through the
plugin and receive its packets.

## Layout

- `src/` is the library. Its contracts are proved by Verus.
  - `ingest`, `consts`, `signing`, `text`: the control connection of a streamer.
  - `janus_client`: the client side of a connection to the media server.
  - `rpc`, `plugin_rpc`: the messages between the ingest server and the plugin.
  - `plugin`, `router`, `reports`: what the plugin does about requests, who
    receives which stream, and what receivers report.
  - `manager`, `stream_map`, `message_handler`, `udp_consumer`, `rtp_connection`,
    `rtp_utils`, `buffers`: the threaded receiver.
  - `rtp_receiver`, `receiver_stream`: the single-threaded receiver.
  - `sequence`, `wire`: sequence numbers, and the layout of packets.
- `app/` holds the programs around it: sockets, threads, tasks, JSON, and the
  callbacks of the media server.
- `tests/` runs the library on concrete values.

## The control protocol

```
> HMAC\r\n\r\n
< 200 <hex encoded message to sign>\n
> CONNECT <channel id in ascii> $<hex encoded signature of message>\r\n\r\n
< 200\n
> Video: true\r\n\r\n
> VideoPayloadType: 96\r\n\r\n
> VideoIngestSSRC: 1338\r\n\r\n
> Audio: true\r\n\r\n
> AudioPayloadType: 97\r\n\r\n
> AudioIngestSSRC: 1337\r\n\r\n
> .\r\n\r\n
< 200. Use UDP port 1445\n
```

The signature is the HMAC-SHA512 of the message.
