//! What the handshake needs to challenge a streamer: a secret, its text, and
//! the check of a signature.

use hex::FromHex;
use vstd::prelude::*;

verus! {

/// The hexadecimal digit, in lower case, that stands for `n`, which is less than sixteen.
pub open spec fn hex_digit(n: u8) -> char {
    if n < 10 {
        ('0' as u8 + n) as char
    } else {
        ('a' as u8 + n - 10) as char
    }
}

/// The number that a hexadecimal digit of either case stands for.
pub open spec fn hex_value(character: char) -> Option<u8> {
    if '0' <= character <= '9' {
        Some((character as u8 - '0' as u8) as u8)
    } else if 'a' <= character <= 'f' {
        Some((character as u8 - 'a' as u8 + 10) as u8)
    } else if 'A' <= character <= 'F' {
        Some((character as u8 - 'A' as u8 + 10) as u8)
    } else {
        None
    }
}

/// Bytes in hexadecimal notation, two digits in lower case for each.
pub open spec fn hex_text(bytes: Seq<u8>) -> Seq<char> {
    Seq::new(
        2 * bytes.len(),
        |i: int|
            hex_digit(
                if i % 2 == 0 {
                    bytes[i / 2] / 16
                } else {
                    bytes[i / 2] % 16
                },
            ),
    )
}

/// The bytes that hexadecimal digits stand for, two digits for each; nothing where a character
/// is no digit or one is left over.
pub open spec fn hex_bytes(text: Seq<char>) -> Option<Seq<u8>> {
    if text.len() % 2 == 0 && forall|i: int|
        0 <= i < text.len() ==> hex_value(#[trigger] text[i]) is Some {
        Some(
            Seq::new(
                text.len() / 2,
                |i: int| (16 * hex_value(text[2 * i])->0 + hex_value(text[2 * i + 1])->0) as u8,
            ),
        )
    } else {
        None
    }
}

/// Bytes are read back from their hexadecimal notation.
pub proof fn hex_reads_back(bytes: Seq<u8>)
    ensures
        hex_bytes(hex_text(bytes)) == Some(bytes),
{
    let text = hex_text(bytes);
    assert forall|i: int| 0 <= i < text.len() implies hex_value(#[trigger] text[i]) is Some by {
        lemma_hex_digit(
            if i % 2 == 0 {
                bytes[i / 2] / 16
            } else {
                bytes[i / 2] % 16
            },
        );
    }
    assert forall|i: int| 0 <= i < bytes.len() implies #[trigger] hex_bytes(text)->0[i]
        == bytes[i] by {
        lemma_hex_digit(bytes[i] / 16);
        lemma_hex_digit(bytes[i] % 16);
    }
    assert(hex_bytes(text)->0 =~= bytes);
}

/// The digit of a number stands for it, and is no other character of the protocol.
pub proof fn lemma_hex_digit(n: u8)
    requires
        n < 16,
    ensures
        hex_value(hex_digit(n)) == Some(n),
        '0' <= hex_digit(n) <= 'f',
{
}

/// `hex::encode` writes bytes in hexadecimal notation, in lower case.
#[verifier::external_body]
pub(crate) fn encode_hex(bytes: &[u8]) -> (text: String)
    ensures
        text@ == hex_text(bytes@),
{
    hex::encode(bytes)
}

/// `Vec::from_hex` of the crate `hex` reads bytes in hexadecimal notation, of either case, and
/// fails where the text is not made of pairs of digits.
#[verifier::external_body]
pub(crate) fn decode_hex(text: &str) -> (bytes: Option<Vec<u8>>)
    ensures
        match bytes {
            Some(read) => hex_bytes(text@) == Some(read@),
            None => hex_bytes(text@) is None,
        },
{
    Vec::from_hex(text).ok()
}

/// The HMAC-SHA512 of a message under a key.
pub uninterp spec fn hmac_sha512(key: Seq<u8>, message: Seq<u8>) -> Seq<u8>;

/// `ring::hmac::verify`, under `Key::new(HMAC_SHA512, ..)`, succeeds for the HMAC of the message,
/// which has 64 bytes, and for nothing else. The bound on the lengths keeps the digest's count of
/// bits, which it holds in 64 bits, from running over.
#[verifier::external_body]
pub(crate) fn verify_signature(key: &[u8], message: &[u8], signature: &[u8]) -> (valid: bool)
    requires
        key@.len() < 0x1000_0000_0000_0000,
        message@.len() < 0x1000_0000_0000_0000,
    ensures
        valid == (signature@ == hmac_sha512(key@, message@)),
        valid ==> signature@.len() == 64,
{
    let key = ring::hmac::Key::new(ring::hmac::HMAC_SHA512, key);
    ring::hmac::verify(&key, message, signature).is_ok()
}

/// `rand::random` draws eight bytes. They may be any: nothing is known of them.
#[verifier::external_body]
pub(crate) fn random_secret() -> (secret: [u8; 8]) {
    rand::random::<[u8; 8]>()
}

} // verus!
