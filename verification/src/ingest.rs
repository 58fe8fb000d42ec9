//! The control connection of a streamer: the handshake that authenticates it,
//! what it announces of its streams, and the request to accept them.

use crate::consts::{FTL_INGEST_RESP_OK, FTL_INGEST_RESP_PING};
use crate::rpc::{
    AudioCodec, MediaStream, MediaStreamAudio, MediaStreamContent, MediaStreamVideo,
    RegisterStream, SocketAddr, StaafRPC, StreamId, VideoCodec,
};
use crate::signing::{
    decode_hex, encode_hex, hex_bytes, hex_reads_back, hex_text, hmac_sha512, lemma_hex_digit,
    random_secret, verify_signature,
};
use crate::text::{
    cut, decimal, decimal_reads_back, ends_with, fields, first_occurrence, format_decimal, has_tail,
    lemma_decimal, lemma_decimal_len, lemma_encoded_tail, lemma_fields_after_word, lemma_fields_at,
    lemma_fields_of_word, lemma_occurrence, lemma_occurrence_extends, lemma_occurrence_unique,
    occurs_at, parse_decimal, parsed_decimal, same_bytes, same_text, split, split_once, text_of,
    texts,
};
use vstd::hash_map::StringHashMap;
use vstd::prelude::*;
use vstd::slice::slice_to_vec;
use vstd::string::StringExecFns;
use vstd::string::StrSliceExecFns;
use vstd::utf8::{
    decode_utf8, encode_utf8, encode_utf8_decode_utf8, encode_utf8_valid_utf8,
    is_ascii_chars_encode_utf8, valid_utf8,
};

verus! {

/// How many bytes the command that answers the challenge must stay below.
pub const COMMAND_LIMIT: usize = 1024;

/// What a control connection receives next.
#[derive(Debug, Clone, Copy, PartialEq, Eq, Structural)]
pub enum Stage {
    /// The eight bytes that ask for a challenge.
    Greeting,
    /// The command that answers the challenge.
    Command,
    /// What the streamer announces.
    StreamInfo,
    /// Nothing more, until it streams.
    Announced,
}

/// The control connection of a streamer.
pub struct ControlConnection {
    addr: SocketAddr,
    shared_secret: [u8; 8],
    channel_id: Option<u64>,
    authenticated: bool,
    metadata: StringHashMap<String>,
    stage: Stage,
    /// What was received of the command, or of the announcement.
    buffer: Vec<u8>,
}

/// What a control connection holds.
#[verifier::ext_equal]
pub struct ControlConnectionView {
    pub addr: SocketAddr,
    pub shared_secret: Seq<u8>,
    pub channel_id: Option<u64>,
    pub authenticated: bool,
    pub metadata: Map<Seq<char>, Seq<char>>,
    pub stage: Stage,
    pub buffer: Seq<u8>,
}

/// The texts that a map holds.
spec fn held_texts(map: Map<Seq<char>, String>) -> Map<Seq<char>, Seq<char>> {
    map.map_values(|text: String| text@)
}

impl View for ControlConnection {
    type V = ControlConnectionView;

    closed spec fn view(&self) -> ControlConnectionView {
        ControlConnectionView {
            addr: self.addr,
            shared_secret: self.shared_secret@,
            channel_id: self.channel_id,
            authenticated: self.authenticated,
            metadata: held_texts(self.metadata@),
            stage: self.stage,
            buffer: self.buffer@,
        }
    }
}

/// The request for a challenge.
pub open spec fn greeting() -> Seq<u8> {
    encode_utf8("HMAC\r\n\r\n"@)
}

/// The key that streamers sign with.
pub open spec fn stream_key() -> Seq<u8> {
    encode_utf8("staaf"@)
}

/// The challenge: the secret to sign, in hexadecimal notation.
pub open spec fn challenge(secret: Seq<u8>) -> Seq<char> {
    decimal(FTL_INGEST_RESP_OK as nat) + " "@ + hex_text(secret) + "\n"@
}

/// The answer to a command that is accepted.
pub open spec fn acceptance() -> Seq<char> {
    decimal(FTL_INGEST_RESP_OK as nat) + "\n"@
}

/// The signature in the last word of a command: hexadecimal digits after a dollar sign, and the
/// end of the command behind them.
pub open spec fn signature_word(word: Seq<char>) -> Option<Seq<u8>> {
    if word.len() >= 5 && word[0] == '$' && word.skip(word.len() - 4) == "\r\n\r\n"@ {
        hex_bytes(word.subrange(1, word.len() - 4))
    } else {
        None
    }
}

/// The channel and the signature in a command. It is text, and its words stand one space
/// apart; what follows the third is not looked at.
pub open spec fn connect_command(command: Seq<u8>) -> Option<(u64, Seq<u8>)> {
    if valid_utf8(command) {
        let words = fields(decode_utf8(command), " "@);
        if words.len() >= 3 && words[0] == "CONNECT"@ {
            match (parsed_decimal(words[1], u64::MAX as nat), signature_word(words[2])) {
                (Some(channel_id), Some(signature)) => Some((channel_id as u64, signature)),
                _ => None,
            }
        } else {
            None
        }
    } else {
        None
    }
}

/// The channel that a command opens, for the streamer that got the challenge `secret`: that of
/// the command, where it carries the signature of the secret.
pub open spec fn admitted_channel(secret: Seq<u8>, command: Seq<u8>) -> Option<u64> {
    match connect_command(command) {
        Some((channel_id, signature)) => if signature == hmac_sha512(stream_key(), secret) {
            Some(channel_id)
        } else {
            None
        },
        None => None,
    }
}

impl ControlConnectionView {
    /// A connection on which nothing was received yet.
    pub open spec fn fresh(addr: SocketAddr, shared_secret: Seq<u8>) -> ControlConnectionView {
        ControlConnectionView {
            addr,
            shared_secret,
            channel_id: None,
            authenticated: false,
            metadata: Map::empty(),
            stage: Stage::Greeting,
            buffer: Seq::empty(),
        }
    }

    /// The connection once it is authenticated for a channel.
    pub open spec fn admitted(self, channel_id: u64) -> ControlConnectionView {
        ControlConnectionView {
            channel_id: Some(channel_id),
            authenticated: true,
            stage: Stage::StreamInfo,
            buffer: Seq::empty(),
            ..self
        }
    }

    /// The connection after some bytes of the handshake, with what is answered to them, if
    /// anything. Nothing where the streamer is refused.
    pub open spec fn after_handshake(self, received: Seq<u8>) -> Option<
        (ControlConnectionView, Option<Seq<char>>),
    > {
        if self.stage is Greeting {
            if received == greeting() {
                Some(
                    (
                        ControlConnectionView {
                            stage: Stage::Command,
                            buffer: Seq::empty(),
                            ..self
                        },
                        Some(challenge(self.shared_secret)),
                    ),
                )
            } else {
                None
            }
        } else {
            let command = self.buffer + received;
            if received.len() == 0 || command.len() >= COMMAND_LIMIT {
                None
            } else if ends_with(command, encode_utf8("\r\n\r\n"@)) {
                match admitted_channel(self.shared_secret, command) {
                    Some(channel_id) => Some((self.admitted(channel_id), Some(acceptance()))),
                    None => None,
                }
            } else {
                Some((ControlConnectionView { buffer: command, ..self }, None))
            }
        }
    }
}

/// What stands before and behind the first colon and space of each line, up to a line that is
/// a mere dot, put over `metadata`; and whether each of these lines had them.
pub open spec fn read_lines(
    lines: Seq<Seq<char>>,
    metadata: Map<Seq<char>, Seq<char>>,
) -> (Map<Seq<char>, Seq<char>>, bool)
    decreases lines.len(),
{
    if lines.len() == 0 || lines[0] == "."@ {
        (metadata, true)
    } else {
        match cut(lines[0], ": "@) {
            Some((name, value)) => read_lines(lines.skip(1), metadata.insert(name, value)),
            None => (metadata, false),
        }
    }
}

/// The lines of an announcement.
pub open spec fn announcement_lines(announcement: Seq<u8>) -> Seq<Seq<char>> {
    fields(decode_utf8(announcement), "\r\n\r\n"@)
}

impl ControlConnectionView {
    /// The connection after some bytes of the announcement, and whether it is complete.
    /// Nothing where the streamer is refused; what was read of the announcement by then stays.
    pub open spec fn after_stream_info(self, received: Seq<u8>) -> (
        ControlConnectionView,
        Option<bool>,
    ) {
        let announcement = self.buffer + received;
        if received.len() == 0 {
            (self, None)
        } else if !ends_with(announcement, encode_utf8(".\r\n\r\n"@)) {
            (ControlConnectionView { buffer: announcement, ..self }, Some(false))
        } else if !valid_utf8(announcement) {
            (self, None)
        } else {
            let (metadata, complete) = read_lines(
                announcement_lines(announcement),
                self.metadata,
            );
            if complete {
                (
                    ControlConnectionView {
                        metadata,
                        stage: Stage::Announced,
                        buffer: Seq::empty(),
                        ..self
                    },
                    Some(true),
                )
            } else {
                (ControlConnectionView { metadata, ..self }, None)
            }
        }
    }
}

/// The number up to `max` that `metadata` holds under `name`.
pub open spec fn announced_number(
    metadata: Map<Seq<char>, Seq<char>>,
    name: Seq<char>,
    max: nat,
) -> Option<nat> {
    if metadata.contains_key(name) {
        parsed_decimal(metadata[name], max)
    } else {
        None
    }
}

/// The media stream of one kind that is announced under the three names: whether there is one,
/// its source and its payload type. Nothing where there is one, and a number is missing.
pub open spec fn announced_kind(
    metadata: Map<Seq<char>, Seq<char>>,
    kind: Seq<char>,
    ssrc_name: Seq<char>,
    payload_type_name: Seq<char>,
    content: MediaStreamContent,
) -> Option<Seq<MediaStream>> {
    if metadata.contains_key(kind) && metadata[kind] == "true"@ {
        match (
            announced_number(metadata, ssrc_name, u32::MAX as nat),
            announced_number(metadata, payload_type_name, u16::MAX as nat),
        ) {
            (Some(ssrc), Some(payload_type)) => Some(
                seq![MediaStream { ssrc: ssrc as u32, payload_type: payload_type as u16, content }],
            ),
            _ => None,
        }
    } else {
        Some(Seq::empty())
    }
}

/// The video that is announced.
pub open spec fn announced_video(metadata: Map<Seq<char>, Seq<char>>) -> Option<Seq<MediaStream>> {
    announced_kind(
        metadata,
        "Video"@,
        "VideoIngestSSRC"@,
        "VideoPayloadType"@,
        MediaStreamContent::Video(
            MediaStreamVideo { codec: VideoCodec::H264, width: 0, height: 0 },
        ),
    )
}

/// The audio that is announced.
pub open spec fn announced_audio(metadata: Map<Seq<char>, Seq<char>>) -> Option<Seq<MediaStream>> {
    announced_kind(
        metadata,
        "Audio"@,
        "AudioIngestSSRC"@,
        "AudioPayloadType"@,
        MediaStreamContent::Audio(MediaStreamAudio { codec: AudioCodec::Opus }),
    )
}

/// The media streams that are announced, video before audio.
pub open spec fn announced(metadata: Map<Seq<char>, Seq<char>>) -> Option<Seq<MediaStream>> {
    match (announced_video(metadata), announced_audio(metadata)) {
        (Some(video), Some(audio)) => Some(video + audio),
        _ => None,
    }
}

fn read_signature_word(word: &str) -> (signature: Option<Vec<u8>>)
    ensures
        match signature {
            Some(read) => signature_word(word@) == Some(read@),
            None => signature_word(word@) is None,
        },
{
    let length: usize = word.unicode_len();
    if length < 5 || !same_text(word.substring_char(length - 4, length), "\r\n\r\n")
        || word.get_char(0) != '$' {
        assert(length >= 5 ==> word@.subrange(length - 4, length as int) =~= word@.skip(
            length - 4,
        ));
        return None;
    }
    assert(word@.subrange(length - 4, length as int) =~= word@.skip(length - 4));
    decode_hex(word.substring_char(1, length - 4))
}

/// Reads the channel and the signature in a command.
pub fn read_connect_command(command: &[u8]) -> (read: Option<(u64, Vec<u8>)>)
    ensures
        match read {
            Some((channel_id, signature)) => connect_command(command@) == Some(
                (channel_id, signature@),
            ),
            None => connect_command(command@) is None,
        },
{
    let line = match text_of(slice_to_vec(command)) {
        Some(line) => line,
        None => {
            return None;
        },
    };
    let words = split(line.as_str(), " ");
    let ghost views = texts(words@);
    assert(views.len() == words@.len());
    if words.len() < 3 {
        return None;
    }
    assert(views[0] == words@[0]@ && views[1] == words@[1]@ && views[2] == words@[2]@);
    if !same_text(words[0].as_str(), "CONNECT") {
        return None;
    }
    let channel_id = match parse_decimal(words[1].as_str(), u64::MAX) {
        Some(channel_id) => channel_id,
        None => {
            return None;
        },
    };
    match read_signature_word(words[2].as_str()) {
        Some(signature) => Some((channel_id, signature)),
        None => None,
    }
}

/// Reads the lines of an announcement, up to one that is a mere dot, into `metadata`, and tells
/// whether each of them had a name and a value.
fn take_lines(lines: &Vec<String>, metadata: &mut StringHashMap<String>) -> (complete: bool)
    ensures
        (held_texts(final(metadata)@), complete) == read_lines(
            texts(lines@),
            held_texts(old(metadata)@),
        ),
{
    let ghost all = texts(lines@);
    let mut i: usize = 0;
    assert(all.skip(0) =~= all);
    while i < lines.len()
        invariant
            i <= lines@.len(),
            all == texts(lines@),
            read_lines(all.skip(i as int), held_texts(metadata@)) == read_lines(
                all,
                held_texts(old(metadata)@),
            ),
        decreases lines@.len() - i,
    {
        let ghost rest = all.skip(i as int);
        assert(rest[0] == lines@[i as int]@);
        assert(rest.skip(1) =~= all.skip(i + 1));
        if same_text(lines[i].as_str(), ".") {
            return true;
        }
        match split_once(lines[i].as_str(), ": ") {
            Some((name, value)) => {
                let ghost before = metadata@;
                let ghost (name_text, value_text) = (name@, value@);
                metadata.insert(name, value);
                assert(held_texts(metadata@) =~= held_texts(before).insert(name_text, value_text));
            },
            None => {
                return false;
            },
        }
        i = i + 1;
    }
    true
}

fn read_number(metadata: &StringHashMap<String>, name: &str, max: u64) -> (number: Option<u64>)
    ensures
        match number {
            Some(n) => announced_number(held_texts(metadata@), name@, max as nat) == Some(n as nat),
            None => announced_number(held_texts(metadata@), name@, max as nat) is None,
        },
{
    match metadata.get(name) {
        Some(text) => parse_decimal(text.as_str(), max),
        None => None,
    }
}

fn read_kind(
    metadata: &StringHashMap<String>,
    kind: &str,
    ssrc_name: &str,
    payload_type_name: &str,
    content: MediaStreamContent,
    streams: &mut Vec<MediaStream>,
) -> (read: Result<(), ()>)
    ensures
        match announced_kind(
            held_texts(metadata@),
            kind@,
            ssrc_name@,
            payload_type_name@,
            content,
        ) {
            Some(found) => read is Ok && final(streams)@ == old(streams)@ + found,
            None => read is Err,
        },
{
    let present = match metadata.get(kind) {
        Some(text) => same_text(text.as_str(), "true"),
        None => false,
    };
    if !present {
        assert(streams@ + Seq::<MediaStream>::empty() =~= streams@);
        return Ok(());
    }
    let ssrc = match read_number(metadata, ssrc_name, u32::MAX as u64) {
        Some(ssrc) => ssrc as u32,
        None => {
            return Err(());
        },
    };
    let payload_type = match read_number(metadata, payload_type_name, u16::MAX as u64) {
        Some(payload_type) => payload_type as u16,
        None => {
            return Err(());
        },
    };
    let ghost before = streams@;
    streams.push(MediaStream { ssrc, payload_type, content });
    assert(streams@ =~= before + seq![MediaStream { ssrc, payload_type, content }]);
    Ok(())
}

impl ControlConnection {
    /// A connection with a secret of its own, drawn at random.
    pub fn new(addr: SocketAddr) -> (connection: ControlConnection)
        ensures
            exists|secret: Seq<u8>|
                secret.len() == 8 && connection@ == #[trigger] ControlConnectionView::fresh(
                    addr,
                    secret,
                ),
    {
        let secret = random_secret();
        ControlConnection::with_secret(addr, secret)
    }

    /// A connection whose secret is given.
    pub fn with_secret(addr: SocketAddr, shared_secret: [u8; 8]) -> (connection:
        ControlConnection)
        ensures
            connection@ == ControlConnectionView::fresh(addr, shared_secret@),
    {
        let connection = ControlConnection {
            addr,
            shared_secret,
            channel_id: None,
            authenticated: false,
            metadata: StringHashMap::new(),
            stage: Stage::Greeting,
            buffer: Vec::new(),
        };
        assert(connection@ =~= ControlConnectionView::fresh(addr, shared_secret@));
        connection
    }

    /// What the connection receives next.
    pub fn stage(&self) -> (stage: Stage)
        ensures
            stage == self@.stage,
    {
        self.stage
    }

    /// The channel that the connection is authenticated for.
    pub fn channel_id(&self) -> (channel_id: Option<u64>)
        ensures
            channel_id == self@.channel_id,
    {
        self.channel_id
    }

    /// How many bytes of the command may be received at once.
    pub fn room(&self) -> (room: usize)
        ensures
            room == if self@.buffer.len() < COMMAND_LIMIT {
                COMMAND_LIMIT - self@.buffer.len()
            } else {
                0
            },
    {
        if self.buffer.len() < COMMAND_LIMIT {
            COMMAND_LIMIT - self.buffer.len()
        } else {
            0
        }
    }

    /// The text that was announced under a name.
    pub fn metadata(&self, name: &str) -> (text: Option<&String>)
        ensures
            match text {
                Some(found) => self@.metadata.contains_key(name@) && found@
                    == self@.metadata[name@],
                None => !self@.metadata.contains_key(name@),
            },
    {
        self.metadata.get(name)
    }

    /// Admits a streamer to a channel where its signature is valid, and returns what is answered
    /// then.
    pub fn conclude(&mut self, channel_id: u64, valid: bool) -> (answer: Result<String, ()>)
        ensures
            match answer {
                Ok(text) => valid && final(self)@ == old(self)@.admitted(channel_id) && text@
                    == acceptance(),
                Err(_) => !valid && final(self)@ == old(self)@,
            },
    {
        if !valid {
            return Err(());
        }
        self.channel_id = Some(channel_id);
        self.authenticated = true;
        self.stage = Stage::StreamInfo;
        self.buffer = Vec::new();
        let mut text = format_decimal(FTL_INGEST_RESP_OK as u64);
        text.append("\n");
        assert(self@ =~= old(self)@.admitted(channel_id));
        Ok(text)
    }

    /// Takes up bytes of the handshake, and returns what is answered to them, if anything. It
    /// fails where the streamer is refused.
    pub fn handshake(&mut self, received: &[u8]) -> (answer: Result<Option<String>, ()>)
        requires
            old(self)@.stage is Greeting || old(self)@.stage is Command,
        ensures
            match answer {
                Ok(None) => old(self)@.after_handshake(received@) == Some(
                    (final(self)@, None::<Seq<char>>),
                ),
                Ok(Some(text)) => old(self)@.after_handshake(received@) == Some(
                    (final(self)@, Some(text@)),
                ),
                Err(_) => old(self)@.after_handshake(received@) is None && final(self)@
                    == old(self)@,
            },
    {
        if self.stage == Stage::Greeting {
            if !same_bytes(received, "HMAC\r\n\r\n".as_bytes()) {
                return Err(());
            }
            let mut text = format_decimal(FTL_INGEST_RESP_OK as u64);
            text.append(" ");
            text.append(encode_hex(self.shared_secret.as_slice()).as_str());
            text.append("\n");
            self.stage = Stage::Command;
            self.buffer = Vec::new();
            assert(self@.buffer =~= Seq::empty());
            return Ok(Some(text));
        }
        if received.len() == 0 || received.len() >= self.room() {
            return Err(());
        }
        let mut command = self.buffer.clone();
        command.extend_from_slice(received);
        assert(command@ =~= self.buffer@ + received@);
        if !has_tail(command.as_slice(), "\r\n\r\n".as_bytes()) {
            self.buffer = command;
            return Ok(None);
        }
        let (channel_id, signature) = match read_connect_command(command.as_slice()) {
            Some(read) => read,
            None => {
                return Err(());
            },
        };
        let key = "staaf";
        proof {
            reveal_strlit("staaf");
            is_ascii_chars_encode_utf8("staaf"@);
        }
        let valid = verify_signature(
            key.as_bytes(),
            self.shared_secret.as_slice(),
            signature.as_slice(),
        );
        match self.conclude(channel_id, valid) {
            Ok(text) => Ok(Some(text)),
            Err(_) => Err(()),
        }
    }

    /// Takes up bytes of the announcement, and tells whether it is complete. It fails where the
    /// streamer is refused.
    pub fn read_stream_info(&mut self, received: &[u8]) -> (complete: Result<bool, ()>)
        requires
            old(self)@.stage is StreamInfo,
            old(self)@.buffer.len() + received@.len() <= usize::MAX,
        ensures
            final(self)@ == old(self)@.after_stream_info(received@).0,
            match complete {
                Ok(done) => old(self)@.after_stream_info(received@).1 == Some(done),
                Err(_) => old(self)@.after_stream_info(received@).1 is None,
            },
    {
        if received.len() == 0 {
            return Err(());
        }
        let mut announcement = self.buffer.clone();
        announcement.extend_from_slice(received);
        assert(announcement@ =~= self.buffer@ + received@);
        if !has_tail(announcement.as_slice(), ".\r\n\r\n".as_bytes()) {
            self.buffer = announcement;
            return Ok(false);
        }
        let headers = match text_of(announcement) {
            Some(headers) => headers,
            None => {
                return Err(());
            },
        };
        let lines = split(headers.as_str(), "\r\n\r\n");
        if !take_lines(&lines, &mut self.metadata) {
            return Err(());
        }
        self.stage = Stage::Announced;
        self.buffer = Vec::new();
        assert(self@.buffer =~= Seq::empty());
        Ok(true)
    }

    /// The request to accept the media streams that were announced. It fails without a channel,
    /// and where a stream is announced without its numbers.
    pub fn register_request(&self) -> (request: Result<RegisterStream, ()>)
        ensures
            request is Ok <==> self@.channel_id is Some && announced(self@.metadata) is Some,
            request matches Ok(rpc) ==> {
                &&& rpc.media_streams@ == announced(self@.metadata)->0
                &&& rpc.peer_addr == self@.addr.ip
                &&& rpc.stream_id == self@.channel_id->0 % 0x1_0000_0000
            },
    {
        let channel_id = match self.channel_id {
            Some(channel_id) => channel_id,
            None => {
                return Err(());
            },
        };
        let mut media_streams: Vec<MediaStream> = Vec::new();
        if read_kind(
            &self.metadata,
            "Video",
            "VideoIngestSSRC",
            "VideoPayloadType",
            MediaStreamContent::Video(
                MediaStreamVideo { codec: VideoCodec::H264, width: 0, height: 0 },
            ),
            &mut media_streams,
        ).is_err() {
            return Err(());
        }
        let ghost video = media_streams@;
        assert(video =~= announced_video(self@.metadata)->0);
        if read_kind(
            &self.metadata,
            "Audio",
            "AudioIngestSSRC",
            "AudioPayloadType",
            MediaStreamContent::Audio(MediaStreamAudio { codec: AudioCodec::Opus }),
            &mut media_streams,
        ).is_err() {
            return Err(());
        }
        Ok(
            RegisterStream {
                media_streams,
                peer_addr: self.addr.ip,
                stream_id: (channel_id % 0x1_0000_0000) as StreamId,
            },
        )
    }

    /// What tells a streamer the port to send its media to.
    pub fn send_port(&self, port: u16) -> (text: String)
        ensures
            text@ == decimal(FTL_INGEST_RESP_OK as nat) + ". Use UDP port "@ + decimal(port as nat)
                + "\n"@,
    {
        let mut text = format_decimal(FTL_INGEST_RESP_OK as u64);
        text.append(". Use UDP port ");
        text.append(format_decimal(port as u64).as_str());
        text.append("\n");
        text
    }

    /// What a streamer is sent to see whether it is there.
    pub fn send_ping(&self) -> (text: String)
        ensures
            text@ == decimal(FTL_INGEST_RESP_PING as nat),
    {
        format_decimal(FTL_INGEST_RESP_PING as u64)
    }
}

/// The command that connects to a channel with a signature.
pub open spec fn connect_line(channel_id: u64, signature: Seq<u8>) -> Seq<char> {
    "CONNECT"@ + " "@ + decimal(channel_id as nat) + " "@ + ("$"@ + hex_text(signature)
        + "\r\n\r\n"@)
}

/// A command that was written for a channel and a signature is read as these.
pub proof fn connect_line_reads_back(channel_id: u64, signature: Seq<u8>)
    ensures
        connect_command(encode_utf8(connect_line(channel_id, signature))) == Some(
            (channel_id, signature),
        ),
{
    let number = decimal(channel_id as nat);
    let word = "$"@ + hex_text(signature) + "\r\n\r\n"@;
    let line = connect_line(channel_id, signature);
    reveal_strlit("CONNECT");
    reveal_strlit(" ");
    reveal_strlit("$");
    reveal_strlit("\r\n\r\n");
    encode_utf8_valid_utf8(line);
    encode_utf8_decode_utf8(line);
    lemma_decimal(channel_id as nat);
    decimal_reads_back(channel_id as nat, u64::MAX as nat);
    hex_reads_back(signature);
    assert forall|i: int| 0 <= i < word.len() implies #[trigger] word[i] != ' ' by {
        if 1 <= i < 1 + 2 * signature.len() {
            let at = i - 1;
            assert(word[i] == hex_text(signature)[at]);
            lemma_hex_digit(
                if at % 2 == 0 {
                    signature[at / 2] / 16
                } else {
                    signature[at / 2] % 16
                },
            );
        }
    }
    lemma_fields_after_word("CONNECT"@, ' ', number + " "@ + word);
    lemma_fields_after_word(number, ' ', word);
    lemma_fields_of_word(word, ' ');
    assert(" "@ =~= seq![' ']);
    assert(line =~= "CONNECT"@ + seq![' '] + (number + " "@ + word));
    let words = fields(line, " "@);
    assert(words =~= seq!["CONNECT"@, number, word]);
    assert(word.skip(word.len() - 4) =~= "\r\n\r\n"@);
    assert(word.subrange(1, word.len() - 4) =~= hex_text(signature));
}

proof fn lemma_connect_line_len(channel_id: u64, signature: Seq<u8>)
    ensures
        encode_utf8(connect_line(channel_id, signature)).len() <= 34 + 2 * signature.len(),
{
    let number = decimal(channel_id as nat);
    let line = connect_line(channel_id, signature);
    reveal_strlit("CONNECT");
    reveal_strlit(" ");
    reveal_strlit("$");
    reveal_strlit("\r\n\r\n");
    lemma_decimal(channel_id as nat);
    lemma_decimal_len(channel_id);
    let start = 10 + number.len();
    assert forall|i: int| 0 <= i < line.len() implies '\0' <= #[trigger] line[i] <= '\u{7f}' by {
        if 8 <= i < 8 + number.len() {
            assert(line[i] == number[i - 8]);
        } else if start <= i < start + 2 * signature.len() {
            let at = i - start;
            assert(line[i] == hex_text(signature)[at]);
            lemma_hex_digit(
                if at % 2 == 0 {
                    signature[at / 2] / 16
                } else {
                    signature[at / 2] % 16
                },
            );
        }
    }
    is_ascii_chars_encode_utf8(line);
}

/// Whoever signs the challenge is admitted to the channel they name.
pub proof fn signers_are_admitted(connection: ControlConnectionView, channel_id: u64)
    requires
        connection.stage is Command,
        connection.buffer.len() == 0,
        hmac_sha512(stream_key(), connection.shared_secret).len() == 64,
    ensures
        connection.after_handshake(
            encode_utf8(
                connect_line(channel_id, hmac_sha512(stream_key(), connection.shared_secret)),
            ),
        ) == Some((connection.admitted(channel_id), Some(acceptance()))),
{
    let signature = hmac_sha512(stream_key(), connection.shared_secret);
    let line = connect_line(channel_id, signature);
    let command = encode_utf8(line);
    connect_line_reads_back(channel_id, signature);
    lemma_connect_line_len(channel_id, signature);
    assert(connection.buffer + command =~= command);
    let head = "CONNECT"@ + " "@ + decimal(channel_id as nat) + " "@ + ("$"@ + hex_text(signature));
    assert(line =~= head + "\r\n\r\n"@);
    lemma_encoded_tail(head, "\r\n\r\n"@);
    reveal_strlit("\r\n\r\n");
    is_ascii_chars_encode_utf8("\r\n\r\n"@);
}

/// Nobody is authenticated who did not sign the challenge.
pub proof fn only_signers_are_admitted(connection: ControlConnectionView, received: Seq<u8>)
    requires
        !connection.authenticated,
        connection.stage is Greeting || connection.stage is Command,
        connection.after_handshake(received) matches Some((next, _)) && next.authenticated,
    ensures
        ({
            let (next, _) = connection.after_handshake(received)->0;
            &&& next.channel_id is Some
            &&& connect_command(connection.buffer + received) == Some(
                (
                    next.channel_id->0,
                    hmac_sha512(stream_key(), connection.shared_secret),
                ),
            )
        }),
{
}

impl ControlConnectionView {
    /// Whether exactly an authenticated connection has a channel, and only such a one announces
    /// streams.
    pub open spec fn is_consistent(self) -> bool {
        &&& self.authenticated <==> self.channel_id is Some
        &&& self.stage is StreamInfo || self.stage is Announced ==> self.authenticated
    }
}

/// That only authenticated connections have a channel and announce streams holds from the start,
/// and stays so.
pub proof fn channels_come_with_authentication(
    connection: ControlConnectionView,
    addr: SocketAddr,
    secret: Seq<u8>,
    received: Seq<u8>,
)
    requires
        connection.is_consistent(),
    ensures
        ControlConnectionView::fresh(addr, secret).is_consistent(),
        connection.after_handshake(received) matches Some((next, _)) ==> next.is_consistent(),
        connection.stage is StreamInfo ==> connection.after_stream_info(
            received,
        ).0.is_consistent(),
{
}

/// It does not matter in how many pieces a command arrives.
pub proof fn commands_arrive_in_pieces(
    connection: ControlConnectionView,
    first: Seq<u8>,
    rest: Seq<u8>,
)
    requires
        connection.stage is Command,
        first.len() > 0,
        rest.len() > 0,
        connection.after_handshake(first) matches Some((_, None)),
    ensures
        ({
            let (next, _) = connection.after_handshake(first)->0;
            next.after_handshake(rest) == connection.after_handshake(first + rest)
        }),
{
    assert(connection.buffer + first + rest =~= connection.buffer + (first + rest));
}

/// It does not matter in how many pieces an announcement arrives.
pub proof fn announcements_arrive_in_pieces(
    connection: ControlConnectionView,
    first: Seq<u8>,
    rest: Seq<u8>,
)
    requires
        connection.stage is StreamInfo,
        rest.len() > 0,
        connection.after_stream_info(first).1 == Some(false),
    ensures
        ({
            let pieces = connection.after_stream_info(first).0.after_stream_info(rest);
            let whole = connection.after_stream_info(first + rest);
            pieces.1 == whole.1 && (whole.1 is Some ==> pieces.0 == whole.0)
        }),
{
    assert(connection.buffer + first + rest =~= connection.buffer + (first + rest));
}

/// The line that announces a value under a name.
pub open spec fn header_line(header: (Seq<char>, Seq<char>)) -> Seq<char> {
    header.0 + ": "@ + header.1
}

/// The announcement of some values.
pub open spec fn announcement(headers: Seq<(Seq<char>, Seq<char>)>) -> Seq<char>
    decreases headers.len(),
{
    if headers.len() == 0 {
        ".\r\n\r\n"@
    } else {
        header_line(headers[0]) + "\r\n\r\n"@ + announcement(headers.skip(1))
    }
}

/// Whether a value can be announced under a name: the name ends where the value is looked for,
/// and the line where the next one is.
pub open spec fn can_be_announced(header: (Seq<char>, Seq<char>)) -> bool {
    &&& first_occurrence(header.0, ": "@) is None
    &&& first_occurrence(header_line(header) + "\r\n\r\n"@, "\r\n\r\n"@) == Some(
        header_line(header).len() as int,
    )
}

/// Metadata with some values put over it, one after the other.
pub open spec fn with_headers(
    metadata: Map<Seq<char>, Seq<char>>,
    headers: Seq<(Seq<char>, Seq<char>)>,
) -> Map<Seq<char>, Seq<char>>
    decreases headers.len(),
{
    if headers.len() == 0 {
        metadata
    } else {
        with_headers(metadata.insert(headers[0].0, headers[0].1), headers.skip(1))
    }
}

proof fn lemma_header_line(header: (Seq<char>, Seq<char>))
    requires
        can_be_announced(header),
    ensures
        cut(header_line(header), ": "@) == Some(header),
        header_line(header) != "."@,
{
    let (name, value) = header;
    let line = header_line(header);
    reveal_strlit(": ");
    reveal_strlit(".");
    lemma_occurrence(name, ": "@, 0);
    assert(line.subrange(name.len() as int, name.len() as int + 2) =~= ": "@);
    assert forall|i: int| 0 <= i < name.len() implies !#[trigger] occurs_at(line, ": "@, i) by {
        if occurs_at(line, ": "@, i) {
            assert(line.subrange(i, i + 2)[0] == ':' && line.subrange(i, i + 2)[1] == ' ');
            assert(line[i + 1] == ' ');
            assert(i + 1 < name.len());
            assert(name.subrange(i, i + 2) =~= ": "@);
            assert(occurs_at(name, ": "@, i));
        }
    }
    lemma_occurrence_unique(line, ": "@, name.len() as int);
    assert(line.take(name.len() as int) =~= name);
    assert(line.skip(name.len() as int + 2) =~= value);
    assert("."@.len() == 1 && line.len() >= 2);
}

proof fn lemma_announcement_lines(
    headers: Seq<(Seq<char>, Seq<char>)>,
    metadata: Map<Seq<char>, Seq<char>>,
)
    requires
        forall|i: int| 0 <= i < headers.len() ==> can_be_announced(#[trigger] headers[i]),
    ensures
        read_lines(fields(announcement(headers), "\r\n\r\n"@), metadata) == (
            with_headers(metadata, headers),
            true,
        ),
    decreases headers.len(),
{
    let mark = "\r\n\r\n"@;
    reveal_strlit("\r\n\r\n");
    if headers.len() == 0 {
        reveal_strlit(".\r\n\r\n");
        reveal_strlit(".");
        let last = announcement(headers);
        assert(last =~= "."@ + mark + Seq::<char>::empty());
        assert(last.subrange(1, 5) =~= mark);
        assert(last.subrange(0, 4)[0] == '.');
        lemma_occurrence_unique(last, mark, 1);
        lemma_fields_at("."@, mark, Seq::empty());
    } else {
        let line = header_line(headers[0]);
        let rest = announcement(headers.skip(1));
        lemma_occurrence_extends(line, mark, rest);
        lemma_fields_at(line, mark, rest);
        lemma_header_line(headers[0]);
        lemma_announcement_lines(
            headers.skip(1),
            metadata.insert(headers[0].0, headers[0].1),
        );
        let lines = fields(announcement(headers), mark);
        assert(lines[0] == line);
        assert(lines.skip(1) =~= fields(rest, mark));
    }
}

proof fn lemma_announcement_tail(headers: Seq<(Seq<char>, Seq<char>)>) -> (head: Seq<char>)
    ensures
        announcement(headers) == head + ".\r\n\r\n"@,
    decreases headers.len(),
{
    if headers.len() == 0 {
        assert(announcement(headers) =~= Seq::<char>::empty() + ".\r\n\r\n"@);
        Seq::empty()
    } else {
        let inner = lemma_announcement_tail(headers.skip(1));
        let head = header_line(headers[0]) + "\r\n\r\n"@ + inner;
        assert(announcement(headers) =~= head + ".\r\n\r\n"@);
        head
    }
}

/// What a streamer announces is what is known of it then.
pub proof fn announcements_are_read(
    connection: ControlConnectionView,
    headers: Seq<(Seq<char>, Seq<char>)>,
)
    requires
        connection.stage is StreamInfo,
        connection.buffer.len() == 0,
        forall|i: int| 0 <= i < headers.len() ==> can_be_announced(#[trigger] headers[i]),
    ensures
        connection.after_stream_info(encode_utf8(announcement(headers))) == (
            (ControlConnectionView {
                metadata: with_headers(connection.metadata, headers),
                stage: Stage::Announced,
                buffer: Seq::empty(),
                ..connection
            }),
            Some(true),
        ),
{
    let text = announcement(headers);
    let head = lemma_announcement_tail(headers);
    reveal_strlit(".\r\n\r\n");
    is_ascii_chars_encode_utf8(".\r\n\r\n"@);
    lemma_encoded_tail(head, ".\r\n\r\n"@);
    encode_utf8_valid_utf8(text);
    encode_utf8_decode_utf8(text);
    lemma_announcement_lines(headers, connection.metadata);
    assert(connection.buffer + encode_utf8(text) =~= encode_utf8(text));
}

/// A value without a carriage return can be announced under a name with neither that nor a
/// colon in it.
pub proof fn plain_texts_can_be_announced(name: Seq<char>, value: Seq<char>)
    requires
        forall|i: int| 0 <= i < name.len() ==> #[trigger] name[i] != ':' && name[i] != '\r',
        forall|i: int| 0 <= i < value.len() ==> #[trigger] value[i] != '\r',
    ensures
        can_be_announced((name, value)),
{
    let line = header_line((name, value));
    let mark = "\r\n\r\n"@;
    reveal_strlit(": ");
    reveal_strlit("\r\n\r\n");
    lemma_occurrence(name, ": "@, 0);
    if let Some(at) = first_occurrence(name, ": "@) {
        assert(name.subrange(at, at + 2)[0] == name[at]);
    }
    let text = line + mark;
    assert(text.subrange(line.len() as int, line.len() as int + mark.len()) =~= mark);
    assert forall|i: int| 0 <= i < line.len() implies !#[trigger] occurs_at(text, mark, i) by {
        if occurs_at(text, mark, i) {
            assert(text.subrange(i, i + mark.len())[0] == line[i]);
            if i < name.len() {
                assert(line[i] == name[i]);
            } else if i < name.len() + 2 {
                assert(line[i] == ": "@[i - name.len()]);
            } else {
                assert(line[i] == value[i - name.len() - 2]);
            }
        }
    }
    lemma_occurrence_unique(text, mark, line.len() as int);
}

/// The announcement of video and audio with these sources and payload types.
pub open spec fn stream_headers(
    video_ssrc: u32,
    video_payload_type: u16,
    audio_ssrc: u32,
    audio_payload_type: u16,
) -> Seq<(Seq<char>, Seq<char>)> {
    seq![
        ("Video"@, "true"@),
        ("VideoPayloadType"@, decimal(video_payload_type as nat)),
        ("VideoIngestSSRC"@, decimal(video_ssrc as nat)),
        ("Audio"@, "true"@),
        ("AudioPayloadType"@, decimal(audio_payload_type as nat)),
        ("AudioIngestSSRC"@, decimal(audio_ssrc as nat)),
    ]
}

proof fn lemma_reveal_names()
    ensures
        forall|i: int| 0 <= i < "Video"@.len() ==> 'A' <= #[trigger] "Video"@[i] <= 'z',
        forall|i: int|
            0 <= i < "VideoPayloadType"@.len() ==> 'A' <= #[trigger] "VideoPayloadType"@[i] <= 'z',
        forall|i: int|
            0 <= i < "VideoIngestSSRC"@.len() ==> 'A' <= #[trigger] "VideoIngestSSRC"@[i] <= 'z',
        forall|i: int| 0 <= i < "Audio"@.len() ==> 'A' <= #[trigger] "Audio"@[i] <= 'z',
        forall|i: int|
            0 <= i < "AudioPayloadType"@.len() ==> 'A' <= #[trigger] "AudioPayloadType"@[i] <= 'z',
        forall|i: int|
            0 <= i < "AudioIngestSSRC"@.len() ==> 'A' <= #[trigger] "AudioIngestSSRC"@[i] <= 'z',
        forall|i: int| 0 <= i < "true"@.len() ==> 'A' <= #[trigger] "true"@[i] <= 'z',
        "Video"@.len() == 5,
        "Audio"@.len() == 5,
        "VideoPayloadType"@.len() == 16,
        "AudioPayloadType"@.len() == 16,
        "VideoIngestSSRC"@.len() == 15,
        "AudioIngestSSRC"@.len() == 15,
        "Video"@[0] != "Audio"@[0],
        "VideoPayloadType"@[0] != "AudioPayloadType"@[0],
        "VideoIngestSSRC"@[0] != "AudioIngestSSRC"@[0],
{
    reveal_strlit("Video");
    reveal_strlit("VideoPayloadType");
    reveal_strlit("VideoIngestSSRC");
    reveal_strlit("Audio");
    reveal_strlit("AudioPayloadType");
    reveal_strlit("AudioIngestSSRC");
    reveal_strlit("true");
}

proof fn lemma_stream_headers(
    metadata: Map<Seq<char>, Seq<char>>,
    video_ssrc: u32,
    video_payload_type: u16,
    audio_ssrc: u32,
    audio_payload_type: u16,
)
    ensures
        ({
            let headers = stream_headers(
                video_ssrc,
                video_payload_type,
                audio_ssrc,
                audio_payload_type,
            );
            let after = with_headers(metadata, headers);
            &&& forall|i: int| 0 <= i < headers.len() ==> can_be_announced(#[trigger] headers[i])
            &&& forall|i: int|
                0 <= i < headers.len() ==> after.contains_key((#[trigger] headers[i]).0)
                    && after[headers[i].0] == headers[i].1
        }),
{
    let headers = stream_headers(video_ssrc, video_payload_type, audio_ssrc, audio_payload_type);
    lemma_reveal_names();
    lemma_decimal(video_ssrc as nat);
    lemma_decimal(video_payload_type as nat);
    lemma_decimal(audio_ssrc as nat);
    lemma_decimal(audio_payload_type as nat);
    assert forall|i: int| 0 <= i < headers.len() implies can_be_announced(
        #[trigger] headers[i],
    ) by {
        plain_texts_can_be_announced(headers[i].0, headers[i].1);
    }
    let after1 = metadata.insert(headers[0].0, headers[0].1);
    let after2 = after1.insert(headers[1].0, headers[1].1);
    let after3 = after2.insert(headers[2].0, headers[2].1);
    let after4 = after3.insert(headers[3].0, headers[3].1);
    let after5 = after4.insert(headers[4].0, headers[4].1);
    let after6 = after5.insert(headers[5].0, headers[5].1);
    let rest1 = headers.skip(1);
    let rest2 = rest1.skip(1);
    let rest3 = rest2.skip(1);
    let rest4 = rest3.skip(1);
    let rest5 = rest4.skip(1);
    let rest6 = rest5.skip(1);
    assert(with_headers(after6, rest6) == after6);
    assert(with_headers(after5, rest5) == after6);
    assert(with_headers(after4, rest4) == after6);
    assert(with_headers(after3, rest3) == after6);
    assert(with_headers(after2, rest2) == after6);
    assert(with_headers(after1, rest1) == after6);
    assert(with_headers(metadata, headers) == after6);
}

/// A whole conversation: whoever asks for a challenge, signs it and announces video and audio is
/// challenged, admitted, and has these two streams requested.
pub proof fn conversations_lead_to_a_request(
    addr: SocketAddr,
    secret: Seq<u8>,
    channel_id: u64,
    video_ssrc: u32,
    video_payload_type: u16,
    audio_ssrc: u32,
    audio_payload_type: u16,
)
    requires
        hmac_sha512(stream_key(), secret).len() == 64,
    ensures
        ({
            let start = ControlConnectionView::fresh(addr, secret);
            let greeted = start.after_handshake(greeting());
            let (waiting, challenged) = greeted->0;
            let admitted = waiting.after_handshake(
                encode_utf8(connect_line(channel_id, hmac_sha512(stream_key(), secret))),
            );
            let (welcome, accepted) = admitted->0;
            let (known, complete) = welcome.after_stream_info(
                encode_utf8(
                    announcement(
                        stream_headers(
                            video_ssrc,
                            video_payload_type,
                            audio_ssrc,
                            audio_payload_type,
                        ),
                    ),
                ),
            );
            &&& greeted is Some && challenged == Some(challenge(secret))
            &&& admitted is Some && accepted == Some(acceptance())
            &&& complete == Some(true)
            &&& known.authenticated && known.channel_id == Some(channel_id)
            &&& announced(known.metadata) == Some(
                seq![
                    MediaStream {
                        ssrc: video_ssrc,
                        payload_type: video_payload_type,
                        content: MediaStreamContent::Video(
                            MediaStreamVideo { codec: VideoCodec::H264, width: 0, height: 0 },
                        ),
                    },
                    MediaStream {
                        ssrc: audio_ssrc,
                        payload_type: audio_payload_type,
                        content: MediaStreamContent::Audio(
                            MediaStreamAudio { codec: AudioCodec::Opus },
                        ),
                    },
                ],
            )
        }),
{
    let start = ControlConnectionView::fresh(addr, secret);
    let (waiting, _) = start.after_handshake(greeting())->0;
    let headers = stream_headers(video_ssrc, video_payload_type, audio_ssrc, audio_payload_type);
    signers_are_admitted(waiting, channel_id);
    let welcome = waiting.admitted(channel_id);
    lemma_stream_headers(
        welcome.metadata,
        video_ssrc,
        video_payload_type,
        audio_ssrc,
        audio_payload_type,
    );
    announcements_are_read(welcome, headers);
    let metadata = with_headers(welcome.metadata, headers);
    decimal_reads_back(video_ssrc as nat, u32::MAX as nat);
    decimal_reads_back(video_payload_type as nat, u16::MAX as nat);
    decimal_reads_back(audio_ssrc as nat, u32::MAX as nat);
    decimal_reads_back(audio_payload_type as nat, u16::MAX as nat);
    assert(headers[0].0 == "Video"@ && headers[1].0 == "VideoPayloadType"@ && headers[2].0
        == "VideoIngestSSRC"@);
    assert(headers[3].0 == "Audio"@ && headers[4].0 == "AudioPayloadType"@ && headers[5].0
        == "AudioIngestSSRC"@);
    let video = announced_video(metadata)->0;
    let audio = announced_audio(metadata)->0;
    assert(video + audio =~= seq![video[0], audio[0]]);
}

/// The port in the answer to the request, where it is that the stream was registered.
pub fn registered_port(answer: &StaafRPC) -> (port: Option<u16>)
    ensures
        port == match *answer {
            StaafRPC::StreamRegistered { port } => Some(port),
            _ => None,
        },
{
    match answer {
        StaafRPC::StreamRegistered { port } => Some(*port),
        _ => None,
    }
}

/// Whether a message of a streamer is a ping: that word alone, or with a space behind it.
pub open spec fn is_ping(message: Seq<u8>) -> bool {
    let word = encode_utf8("PING"@);
    message == word || word.push(0x20).is_prefix_of(message)
}

/// What is answered to a message of a streamer, if anything.
pub fn answer_ping(message: &[u8]) -> (answer: Option<String>)
    ensures
        answer is Some <==> is_ping(message@),
        answer matches Some(text) ==> text@ == decimal(FTL_INGEST_RESP_PING as nat)
            + "\r\n\r\n"@,
{
    proof {
        reveal_strlit("PING");
        is_ascii_chars_encode_utf8("PING"@);
    }
    let word = "PING".as_bytes();
    proof {
        let spaced = word@.push(0x20);
        if spaced.is_prefix_of(message@) {
            assert forall|i: int| 0 <= i < 5 implies #[trigger] message@[i] == spaced[i] by {
                assert(message@.subrange(0, 5)[i] == message@[i]);
            }
        }
    }
    if message.len() < 4 || message[0] != word[0] || message[1] != word[1] || message[2] != word[2]
        || message[3] != word[3] || (message.len() > 4 && message[4] != 0x20) {
        return None;
    }
    assert(message@.len() == 4 ==> message@ =~= word@);
    assert(message@.len() > 4 ==> word@.push(0x20).is_prefix_of(message@));
    let mut text = format_decimal(FTL_INGEST_RESP_PING as u64);
    text.append("\r\n\r\n");
    Some(text)
}

} // verus!
