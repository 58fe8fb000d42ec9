//! The control connection: who is admitted, and what is known of the streams that
//! are announced.

use crate::ingest::{
    acceptance, admitted_channel, announced, announced_audio, announced_kind, announced_number,
    announced_video, challenge, connect_command, greeting, is_ping, read_lines, signature_word,
    stream_key, with_headers, ControlConnectionView,
};
use crate::rpc::{
    AudioCodec, MediaStreamAudio, MediaStreamContent, MediaStreamVideo, SocketAddr, VideoCodec,
};
use crate::signing::{hex_bytes, hex_reads_back, hex_text, hmac_sha512};
use crate::text::{
    cut, decimal, fields, lemma_fields_after_word, lemma_fields_of_word, parsed_decimal,
};
use vstd::prelude::*;
use vstd::utf8::{
    decode_utf8, encode_utf8, encode_utf8_decode_utf8, encode_utf8_valid_utf8,
    is_ascii_chars_encode_utf8, valid_utf8,
};

verus! {

/// The request for a challenge and the key, byte by byte.
pub proof fn the_greeting_is_fixed()
    ensures
        greeting() == seq![72u8, 77, 65, 67, 13, 10, 13, 10],
        stream_key() == seq![115u8, 116, 97, 97, 102],
{
    reveal_strlit("HMAC\r\n\r\n");
    reveal_strlit("staaf");
    is_ascii_chars_encode_utf8("HMAC\r\n\r\n"@);
    is_ascii_chars_encode_utf8("staaf"@);
    assert(greeting() =~= seq![72u8, 77, 65, 67, 13, 10, 13, 10]);
    assert(stream_key() =~= seq![115u8, 116, 97, 97, 102]);
}

proof fn lemma_ok()
    ensures
        decimal(200) == seq!['2', '0', '0'],
        decimal(201) == seq!['2', '0', '1'],
{
    assert(decimal(2) == seq!['2']);
    assert(decimal(20) =~= seq!['2', '0']);
    assert(decimal(200) =~= seq!['2', '0', '0']);
    assert(decimal(201) =~= seq!['2', '0', '1']);
}

/// The challenge carries the whole secret, in hexadecimal notation, behind the number for success
/// and before the end of the line; the acceptance is that number in a line.
pub proof fn challenges_carry_the_secret(secret: Seq<u8>)
    ensures
        challenge(secret) == seq!['2', '0', '0', ' '] + hex_text(secret) + seq!['\n'],
        acceptance() == seq!['2', '0', '0', '\n'],
        hex_bytes(challenge(secret).subrange(4, challenge(secret).len() - 1)) == Some(secret),
{
    lemma_ok();
    reveal_strlit(" ");
    reveal_strlit("\n");
    assert(challenge(secret) =~= seq!['2', '0', '0', ' '] + hex_text(secret) + seq!['\n']);
    assert(acceptance() =~= seq!['2', '0', '0', '\n']);
    assert(challenge(secret).subrange(4, challenge(secret).len() - 1) =~= hex_text(secret));
    hex_reads_back(secret);
}

/// A signature stands in hexadecimal digits between a dollar sign and the end of the command, and
/// is not read of anything else.
pub proof fn signatures_stand_in_their_frame(word: Seq<char>, digits: Seq<char>)
    ensures
        signature_word(seq!['$'] + digits + seq!['\r', '\n', '\r', '\n']) == hex_bytes(digits),
        signature_word(word) is Some ==> word.len() >= 5 && word == seq!['$'] + word.subrange(
            1,
            word.len() - 4,
        ) + seq!['\r', '\n', '\r', '\n'],
{
    reveal_strlit("\r\n\r\n");
    let framed = seq!['$'] + digits + seq!['\r', '\n', '\r', '\n'];
    assert(framed.skip(framed.len() - 4) =~= "\r\n\r\n"@);
    assert(framed.subrange(1, framed.len() - 4) =~= digits);
    if signature_word(word) is Some {
        assert("\r\n\r\n"@ =~= seq!['\r', '\n', '\r', '\n']);
        assert(word =~= seq!['$'] + word.subrange(1, word.len() - 4) + word.skip(word.len() - 4));
    }
}

/// Whether a word holds no space.
pub open spec fn has_no_space(word: Seq<char>) -> bool {
    forall|i: int| 0 <= i < word.len() ==> #[trigger] word[i] != ' '
}

/// What is read of a command with the words `verb`, `number` and `signature`.
spec fn reading(verb: Seq<char>, number: Seq<char>, signature: Seq<char>) -> Option<
    (u64, Seq<u8>),
> {
    if verb == seq!['C', 'O', 'N', 'N', 'E', 'C', 'T'] && parsed_decimal(
        number,
        0xffff_ffff_ffff_ffff,
    ) is Some && signature_word(signature) is Some {
        Some(
            (parsed_decimal(number, 0xffff_ffff_ffff_ffff)->0 as u64, signature_word(signature)->0),
        )
    } else {
        None
    }
}

proof fn lemma_connect_word()
    ensures
        "CONNECT"@ == seq!['C', 'O', 'N', 'N', 'E', 'C', 'T'],
        " "@ == seq![' '],
{
    reveal_strlit("CONNECT");
    reveal_strlit(" ");
    assert("CONNECT"@ =~= seq!['C', 'O', 'N', 'N', 'E', 'C', 'T']);
    assert(" "@ =~= seq![' ']);
}

/// A command is made of three words with a space between each two: the verb, a channel number of
/// at most 64 bits and a signature. With fewer words, with another verb, without a number or
/// without a signature it is refused; what follows a third space has no part in it.
pub proof fn commands_are_three_words(
    verb: Seq<char>,
    number: Seq<char>,
    signature: Seq<char>,
    rest: Seq<char>,
)
    requires
        has_no_space(verb),
        has_no_space(number),
        has_no_space(signature),
    ensures
        ({
            let verb_fits = verb == seq!['C', 'O', 'N', 'N', 'E', 'C', 'T'];
            let channel = parsed_decimal(number, 0xffff_ffff_ffff_ffff);
            let signed = signature_word(signature);
            let text = verb + seq![' '] + number + seq![' '] + signature;
            let read = connect_command(encode_utf8(text));
            &&& read is Some <==> verb_fits && channel is Some && signed is Some
            &&& read matches Some((channel_id, bytes)) ==> channel == Some(channel_id as nat)
                && signed == Some(bytes)
            &&& connect_command(encode_utf8(text + seq![' '] + rest)) == read
            &&& connect_command(encode_utf8(verb + seq![' '] + number)) is None
            &&& connect_command(encode_utf8(verb)) is None
        }),
{
    let text = verb + seq![' '] + number + seq![' '] + signature;
    let longer = text + seq![' '] + rest;
    let short = verb + seq![' '] + number;
    lemma_connect_word();
    encode_utf8_valid_utf8(text);
    encode_utf8_decode_utf8(text);
    encode_utf8_valid_utf8(longer);
    encode_utf8_decode_utf8(longer);
    encode_utf8_valid_utf8(short);
    encode_utf8_decode_utf8(short);
    encode_utf8_valid_utf8(verb);
    encode_utf8_decode_utf8(verb);
    lemma_fields_of_word(verb, ' ');
    lemma_fields_of_word(number, ' ');
    lemma_fields_of_word(signature, ' ');
    lemma_fields_after_word(verb, ' ', number);
    lemma_fields_after_word(number, ' ', signature);
    lemma_fields_after_word(verb, ' ', number + seq![' '] + signature);
    lemma_fields_after_word(signature, ' ', rest);
    lemma_fields_after_word(number, ' ', signature + seq![' '] + rest);
    lemma_fields_after_word(
        verb,
        ' ',
        number + seq![' '] + (signature + seq![' '] + rest),
    );
    assert(text =~= verb + seq![' '] + (number + seq![' '] + signature));
    assert(longer =~= verb + seq![' '] + (number + seq![' '] + (signature + seq![' '] + rest)));
    assert(fields(text, seq![' ']) =~= seq![verb, number, signature]);
    assert(fields(short, seq![' ']) =~= seq![verb, number]);
    let words = fields(longer, seq![' ']);
    assert(words[0] == verb && words[1] == number && words[2] == signature);
    assert(words.len() >= 3);
    assert(connect_command(encode_utf8(text)) == reading(verb, number, signature));
    assert(connect_command(encode_utf8(longer)) == reading(verb, number, signature));
}

/// What is no text is no command.
pub proof fn commands_are_text(command: Seq<u8>)
    requires
        !valid_utf8(command),
    ensures
        connect_command(command) is None,
{
}

/// A command opens the channel that it names where its signature is that of the secret under the
/// key, and no other.
pub proof fn channels_open_for_the_signature(secret: Seq<u8>, command: Seq<u8>, channel_id: u64)
    ensures
        admitted_channel(secret, command) == Some(channel_id) <==> connect_command(command) == Some(
            (channel_id, hmac_sha512(stream_key(), secret)),
        ),
{
}

/// A new connection has received nothing: nobody is authenticated, and nothing is known.
pub proof fn new_connections_know_nothing(addr: SocketAddr, secret: Seq<u8>, name: Seq<char>)
    ensures
        ({
            let connection = ControlConnectionView::fresh(addr, secret);
            &&& connection.addr == addr
            &&& connection.shared_secret == secret
            &&& connection.channel_id is None
            &&& !connection.authenticated
            &&& !connection.metadata.contains_key(name)
            &&& connection.stage is Greeting
            &&& connection.buffer.len() == 0
        }),
{
}

/// The first thing that is received must be the request for a challenge, and nothing but that; it
/// is answered with the challenge, and a command is awaited then. Nothing else changes.
pub proof fn only_the_greeting_is_challenged(connection: ControlConnectionView, received: Seq<u8>)
    requires
        connection.stage is Greeting,
    ensures
        connection.after_handshake(received) is Some <==> received == seq![
            72u8,
            77,
            65,
            67,
            13,
            10,
            13,
            10,
        ],
        connection.after_handshake(received) matches Some((next, answer)) ==> {
            &&& answer == Some(challenge(connection.shared_secret))
            &&& next.stage is Command
            &&& next.buffer.len() == 0
            &&& next.addr == connection.addr
            &&& next.shared_secret == connection.shared_secret
            &&& next.channel_id == connection.channel_id
            &&& next.authenticated == connection.authenticated
            &&& next.metadata == connection.metadata
        },
{
    the_greeting_is_fixed();
}

proof fn lemma_marks()
    ensures
        encode_utf8("\r\n\r\n"@) == seq![13u8, 10, 13, 10],
        encode_utf8(".\r\n\r\n"@) == seq![46u8, 13, 10, 13, 10],
{
    reveal_strlit("\r\n\r\n");
    reveal_strlit(".\r\n\r\n");
    is_ascii_chars_encode_utf8("\r\n\r\n"@);
    is_ascii_chars_encode_utf8(".\r\n\r\n"@);
    assert(encode_utf8("\r\n\r\n"@) =~= seq![13u8, 10, 13, 10]);
    assert(encode_utf8(".\r\n\r\n"@) =~= seq![46u8, 13, 10, 13, 10]);
}

/// A command is collected until two line ends in a row: before that nothing is answered, and
/// nothing but what was received so far changes. It is refused where the streamer sends nothing
/// more, and from 1024 bytes on.
pub proof fn commands_are_collected(connection: ControlConnectionView, received: Seq<u8>)
    requires
        connection.stage is Command,
    ensures
        ({
            let command = connection.buffer + received;
            let ended = command.len() >= 4 && command.skip(command.len() - 4) == seq![
                13u8,
                10,
                13,
                10,
            ];
            let after = connection.after_handshake(received);
            &&& received.len() == 0 ==> after is None
            &&& command.len() >= 1024 ==> after is None
            &&& received.len() > 0 && command.len() < 1024 && !ended ==> (after matches Some(
                (next, answer),
            ) && answer is None && next == (ControlConnectionView { buffer: command, ..connection }))
            &&& received.len() > 0 && command.len() < 1024 && ended ==> (after is Some
                <==> admitted_channel(connection.shared_secret, command) is Some)
            &&& (after matches Some((next, Some(answer)))) ==> {
                let (next, answer) = after->0;
                &&& ended
                &&& answer == Some(acceptance())
                &&& next.authenticated
                &&& next.channel_id == admitted_channel(connection.shared_secret, command)
                &&& next.channel_id is Some
                &&& next.stage is StreamInfo
                &&& next.buffer.len() == 0
                &&& next.addr == connection.addr
                &&& next.shared_secret == connection.shared_secret
                &&& next.metadata == connection.metadata
            }
        }),
{
    lemma_marks();
}

/// An announcement is collected until its last line: before that nothing but what was received so
/// far changes. It is refused where the streamer sends nothing more, and where it is no text; then
/// nothing changes at all. Where it is complete, nothing of the authentication changes.
pub proof fn announcements_are_collected(connection: ControlConnectionView, received: Seq<u8>)
    requires
        connection.stage is StreamInfo,
    ensures
        ({
            let text = connection.buffer + received;
            let ended = text.len() >= 5 && text.skip(text.len() - 5) == seq![46u8, 13, 10, 13, 10];
            let (next, complete) = connection.after_stream_info(received);
            &&& received.len() == 0 ==> complete is None && next == connection
            &&& received.len() > 0 && !ended ==> complete == Some(false) && next == (
            ControlConnectionView { buffer: text, ..connection })
            &&& received.len() > 0 && ended && !valid_utf8(text) ==> complete is None && next
                == connection
            &&& received.len() > 0 && ended && valid_utf8(text) ==> (next.metadata, complete is Some)
                == read_lines(
                fields(decode_utf8(text), seq!['\r', '\n', '\r', '\n']),
                connection.metadata,
            )
            &&& received.len() > 0 && ended && complete is Some ==> complete == Some(true)
                && next.stage is Announced && next.buffer.len() == 0
            &&& received.len() > 0 && ended && complete is None ==> next.stage is StreamInfo
                && next.buffer == connection.buffer
            &&& next.addr == connection.addr
            &&& next.shared_secret == connection.shared_secret
            &&& next.channel_id == connection.channel_id
            &&& next.authenticated == connection.authenticated
        }),
{
    lemma_marks();
    reveal_strlit("\r\n\r\n");
    assert("\r\n\r\n"@ =~= seq!['\r', '\n', '\r', '\n']);
}

proof fn lemma_colon()
    ensures
        ": "@ == seq![':', ' '],
        "."@ == seq!['.'],
{
    reveal_strlit(": ");
    reveal_strlit(".");
    assert(": "@ =~= seq![':', ' ']);
    assert("."@ =~= seq!['.']);
}

/// Lines are read one by one: each sets its value under its name, over what was known of it
/// before. Reading ends well with the lines or at a mere dot, whatever follows, and badly at a
/// line without a colon and a space; what was read by then stays.
pub proof fn lines_are_read_one_by_one(
    line: Seq<char>,
    rest: Seq<Seq<char>>,
    metadata: Map<Seq<char>, Seq<char>>,
)
    ensures
        read_lines(Seq::empty(), metadata) == (metadata, true),
        line == seq!['.'] ==> read_lines(seq![line] + rest, metadata) == (metadata, true),
        (line != seq!['.'] && cut(line, seq![':', ' ']) is None) ==> read_lines(
            seq![line] + rest,
            metadata,
        ) == (metadata, false),
        (line != seq!['.'] && cut(line, seq![':', ' ']) is Some) ==> {
            let (name, value) = cut(line, seq![':', ' '])->0;
            read_lines(seq![line] + rest, metadata) == read_lines(
                rest,
                metadata.insert(name, value),
            )
        },
{
    lemma_colon();
    assert((seq![line] + rest).skip(1) =~= rest);
}

/// What is announced last under a name is what counts, and other names are not touched by it.
pub proof fn later_values_count(
    metadata: Map<Seq<char>, Seq<char>>,
    headers: Seq<(Seq<char>, Seq<char>)>,
    name: Seq<char>,
    value: Seq<char>,
    other: Seq<char>,
)
    ensures
        with_headers(metadata, headers.push((name, value))).get(name) == Some(value),
        other != name ==> with_headers(metadata, headers.push((name, value))).get(other)
            == with_headers(metadata, headers).get(other),
        with_headers(metadata, Seq::empty()) == metadata,
    decreases headers.len(),
{
    let all = headers.push((name, value));
    if headers.len() == 0 {
        assert(all.skip(1) =~= Seq::empty());
        assert(with_headers(metadata.insert(name, value), all.skip(1)) == metadata.insert(
            name,
            value,
        ));
        assert(with_headers(metadata, all) == metadata.insert(name, value));
    } else {
        assert(all.skip(1) =~= headers.skip(1).push((name, value)));
        assert(all[0] == headers[0]);
        later_values_count(
            metadata.insert(headers[0].0, headers[0].1),
            headers.skip(1),
            name,
            value,
            other,
        );
    }
}

/// A number is announced under a name where the text there denotes it.
pub proof fn announced_numbers_are_read(
    metadata: Map<Seq<char>, Seq<char>>,
    name: Seq<char>,
    max: nat,
)
    ensures
        metadata.contains_key(name) ==> announced_number(metadata, name, max) == parsed_decimal(
            metadata[name],
            max,
        ),
        !metadata.contains_key(name) ==> announced_number(metadata, name, max) is None,
{
}

/// A kind of media is announced by the word `true` under its name, and then its numbers must be
/// there: a source of 32 bits and a payload type of 16. Without that word, nothing of the kind is
/// announced, whatever else is.
pub proof fn kinds_are_announced(
    metadata: Map<Seq<char>, Seq<char>>,
    kind: Seq<char>,
    ssrc_name: Seq<char>,
    payload_type_name: Seq<char>,
    content: MediaStreamContent,
)
    ensures
        ({
            let there = metadata.get(kind) == Some(seq!['t', 'r', 'u', 'e']);
            let ssrc = announced_number(metadata, ssrc_name, 0xffff_ffff);
            let payload_type = announced_number(metadata, payload_type_name, 0xffff);
            let found = announced_kind(metadata, kind, ssrc_name, payload_type_name, content);
            &&& found is None <==> there && (ssrc is None || payload_type is None)
            &&& found matches Some(streams) ==> streams.len() == if there {
                1nat
            } else {
                0
            }
            &&& found is Some && there ==> {
                &&& ssrc == Some(found->0[0].ssrc as nat)
                &&& payload_type == Some(found->0[0].payload_type as nat)
                &&& found->0[0].content == content
            }
        }),
{
    reveal_strlit("true");
    assert("true"@ =~= seq!['t', 'r', 'u', 'e']);
}

/// What is requested: H.264 video of no known size, where it is announced, and behind it Opus
/// audio, where that is; nothing where either lacks a number.
pub proof fn video_comes_before_audio(metadata: Map<Seq<char>, Seq<char>>, i: int)
    ensures
        ({
            let video = announced_video(metadata);
            let audio = announced_audio(metadata);
            &&& announced(metadata) is None <==> video is None || audio is None
            &&& announced(metadata) matches Some(streams) ==> {
                &&& streams.len() == video->0.len() + audio->0.len()
                &&& 0 <= i < video->0.len() ==> streams[i] == video->0[i] && (
                streams[i].content matches MediaStreamContent::Video(content) && content.codec
                    == VideoCodec::H264 && content.width == 0 && content.height == 0)
                &&& 0 <= i < audio->0.len() ==> streams[video->0.len() + i] == audio->0[i] && (
                audio->0[i].content matches MediaStreamContent::Audio(content) && content.codec
                    == AudioCodec::Opus)
            }
            &&& video == announced_kind(
                metadata,
                seq!['V', 'i', 'd', 'e', 'o'],
                seq!['V', 'i', 'd', 'e', 'o', 'I', 'n', 'g', 'e', 's', 't', 'S', 'S', 'R', 'C'],
                seq!['V', 'i', 'd', 'e', 'o', 'P', 'a', 'y', 'l', 'o', 'a', 'd', 'T', 'y', 'p', 'e'],
                MediaStreamContent::Video(
                    MediaStreamVideo { codec: VideoCodec::H264, width: 0, height: 0 },
                ),
            )
            &&& audio == announced_kind(
                metadata,
                seq!['A', 'u', 'd', 'i', 'o'],
                seq!['A', 'u', 'd', 'i', 'o', 'I', 'n', 'g', 'e', 's', 't', 'S', 'S', 'R', 'C'],
                seq!['A', 'u', 'd', 'i', 'o', 'P', 'a', 'y', 'l', 'o', 'a', 'd', 'T', 'y', 'p', 'e'],
                MediaStreamContent::Audio(MediaStreamAudio { codec: AudioCodec::Opus }),
            )
        }),
{
    reveal_strlit("Video");
    reveal_strlit("VideoIngestSSRC");
    reveal_strlit("VideoPayloadType");
    reveal_strlit("Audio");
    reveal_strlit("AudioIngestSSRC");
    reveal_strlit("AudioPayloadType");
    assert("Video"@ =~= seq!['V', 'i', 'd', 'e', 'o']);
    assert("VideoIngestSSRC"@ =~= seq![
        'V', 'i', 'd', 'e', 'o', 'I', 'n', 'g', 'e', 's', 't', 'S', 'S', 'R', 'C',
    ]);
    assert("VideoPayloadType"@ =~= seq![
        'V', 'i', 'd', 'e', 'o', 'P', 'a', 'y', 'l', 'o', 'a', 'd', 'T', 'y', 'p', 'e',
    ]);
    assert("Audio"@ =~= seq!['A', 'u', 'd', 'i', 'o']);
    assert("AudioIngestSSRC"@ =~= seq![
        'A', 'u', 'd', 'i', 'o', 'I', 'n', 'g', 'e', 's', 't', 'S', 'S', 'R', 'C',
    ]);
    assert("AudioPayloadType"@ =~= seq![
        'A', 'u', 'd', 'i', 'o', 'P', 'a', 'y', 'l', 'o', 'a', 'd', 'T', 'y', 'p', 'e',
    ]);
}

/// A ping is the word alone, or the word and a space with anything behind it.
pub proof fn pings_are_recognised(message: Seq<u8>)
    ensures
        is_ping(message) <==> message.len() >= 4 && message.take(4) == seq![80u8, 73, 78, 71] && (
        message.len() > 4 ==> message[4] == 32),
{
    reveal_strlit("PING");
    is_ascii_chars_encode_utf8("PING"@);
    let word = encode_utf8("PING"@);
    assert(word =~= seq![80u8, 73, 78, 71]);
    let spaced = word.push(0x20);
    if spaced.is_prefix_of(message) {
        assert(message.subrange(0, 5) =~= spaced);
        assert(message.take(4) =~= spaced.take(4));
        assert(spaced.take(4) =~= word);
        assert(message[4] == message.subrange(0, 5)[4]);
    }
    if message == word {
        assert(message.take(4) =~= word);
    }
    if message.len() >= 4 && message.take(4) == word {
        if message.len() == 4 {
            assert(message =~= message.take(4));
        } else if message[4] == 32 {
            assert(message.subrange(0, 5) =~= message.take(4).push(32));
        }
    }
}

} // verus!
