//! The byte buffers of the `bytes` crate, and the integers that the
//! `byteorder` crate writes to them.

use crate::wire::{be16, be32};
use byteorder::{BigEndian, WriteBytesExt};
use bytes::{BufMut, Bytes, BytesMut};
use vstd::prelude::*;

verus! {

/// A growable buffer of the `bytes` crate.
#[verifier::external_type_specification]
#[verifier::external_body]
pub struct ExBytesMut(BytesMut);

/// A shared, immutable buffer of the `bytes` crate.
#[verifier::external_type_specification]
#[verifier::external_body]
pub struct ExBytes(Bytes);

/// The bytes that a growable buffer holds.
pub uninterp spec fn buffer_contents(buffer: BytesMut) -> Seq<u8>;

/// The bytes that a shared buffer holds.
pub uninterp spec fn shared_contents(buffer: Bytes) -> Seq<u8>;

/// The size that a buffer is kept below, so that growing it never overflows a capacity.
pub const MAX_BUFFER: usize = 0x100_0000;

/// `BytesMut::new`: the buffer is empty.
#[verifier::external_body]
pub(crate) fn empty_buffer() -> (buffer: BytesMut)
    ensures
        buffer_contents(buffer) == Seq::<u8>::empty(),
{
    BytesMut::new()
}

/// `WriteBytesExt::write_u8` on `BufMut::writer`: appends the byte.
#[verifier::external_body]
pub(crate) fn write_u8(buffer: &mut BytesMut, n: u8)
    requires
        buffer_contents(*old(buffer)).len() < MAX_BUFFER,
    ensures
        buffer_contents(*final(buffer)) == buffer_contents(*old(buffer)).push(n),
{
    buffer.writer().write_u8(n).unwrap()
}

/// `WriteBytesExt::write_u16` with `BigEndian` on `BufMut::writer`: appends the two bytes,
/// the most significant one first.
#[verifier::external_body]
pub(crate) fn write_u16(buffer: &mut BytesMut, n: u16)
    requires
        buffer_contents(*old(buffer)).len() < MAX_BUFFER,
    ensures
        buffer_contents(*final(buffer)) == buffer_contents(*old(buffer)) + be16(n),
{
    buffer.writer().write_u16::<BigEndian>(n).unwrap()
}

/// `WriteBytesExt::write_u32` with `BigEndian` on `BufMut::writer`: appends the four bytes,
/// the most significant one first.
#[verifier::external_body]
pub(crate) fn write_u32(buffer: &mut BytesMut, n: u32)
    requires
        buffer_contents(*old(buffer)).len() < MAX_BUFFER,
    ensures
        buffer_contents(*final(buffer)) == buffer_contents(*old(buffer)) + be32(n),
{
    buffer.writer().write_u32::<BigEndian>(n).unwrap()
}

/// `BytesMut::as_mut`, and a store through it: replaces the byte at `at`.
#[verifier::external_body]
pub(crate) fn set_byte(buffer: &mut BytesMut, at: usize, value: u8)
    requires
        at < buffer_contents(*old(buffer)).len(),
    ensures
        buffer_contents(*final(buffer)) == buffer_contents(*old(buffer)).update(at as int, value),
{
    buffer.as_mut()[at] = value
}

/// `BytesMut::resize`: cuts the buffer to `len` bytes, or fills it up to them with `value`.
#[verifier::external_body]
pub(crate) fn resize(buffer: &mut BytesMut, len: usize, value: u8)
    requires
        len < MAX_BUFFER,
    ensures
        buffer_contents(*final(buffer)).len() == len,
        forall|i: int|
            0 <= i < len ==> #[trigger] buffer_contents(*final(buffer))[i] == (if i
                < buffer_contents(*old(buffer)).len() {
                buffer_contents(*old(buffer))[i]
            } else {
                value
            }),
{
    buffer.resize(len, value)
}

/// `BytesMut::truncate`: keeps the first `len` bytes, or all where there are fewer.
#[verifier::external_body]
pub(crate) fn truncate(buffer: &mut BytesMut, len: usize)
    ensures
        buffer_contents(*final(buffer)) == (if len <= buffer_contents(*old(buffer)).len() {
            buffer_contents(*old(buffer)).take(len as int)
        } else {
            buffer_contents(*old(buffer))
        }),
{
    buffer.truncate(len)
}

/// `BytesMut::freeze`: the same bytes, from now on shared and immutable.
#[verifier::external_body]
pub(crate) fn freeze(buffer: BytesMut) -> (shared: Bytes)
    ensures
        shared_contents(shared) == buffer_contents(buffer),
{
    buffer.freeze()
}

/// `Bytes::as_ref`: the bytes of the buffer.
#[verifier::external_body]
pub(crate) fn as_slice(shared: &Bytes) -> (bytes: &[u8])
    ensures
        bytes@ == shared_contents(*shared),
{
    shared.as_ref()
}

} // verus!
