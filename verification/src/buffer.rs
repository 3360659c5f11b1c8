//! The byte buffer of the `bytes` crate, as far as the library fills it.

use bytes::{BufMut, BytesMut};
use vstd::prelude::*;

verus! {

#[verifier::external_type_specification]
#[verifier::external_body]
pub struct ExBytesMut(bytes::BytesMut);

/// The bytes that a buffer holds, in order.
pub uninterp spec fn buffer_bytes(buffer: BytesMut) -> Seq<u8>;

/// `BytesMut::new`: a buffer that holds nothing.
#[verifier::external_body]
pub(crate) fn buffer_new() -> (buffer: BytesMut)
    ensures
        buffer_bytes(buffer) == Seq::<u8>::empty(),
{
    BytesMut::new()
}

/// `BufMut::put_u8` on a `BytesMut`: the byte is appended. The buffer
/// grows as a `Vec` does, and like `Vec::push` the call is taken to have
/// the memory it needs.
#[verifier::external_body]
pub(crate) fn buffer_put_u8(buffer: &mut BytesMut, byte: u8)
    ensures
        buffer_bytes(*final(buffer)) == buffer_bytes(*old(buffer)).push(byte),
{
    buffer.put_u8(byte)
}

/// `BufMut::put_slice` on a `BytesMut`: the bytes are appended in order.
/// The buffer grows as a `Vec` does, and like `Vec::extend_from_slice` the
/// call is taken to have the memory it needs.
#[verifier::external_body]
pub(crate) fn buffer_put_slice(buffer: &mut BytesMut, bytes: &[u8])
    ensures
        buffer_bytes(*final(buffer)) == buffer_bytes(*old(buffer)) + bytes@,
{
    buffer.put_slice(bytes)
}

/// `BytesMut::freeze`, copied out: the bytes that the buffer held.
#[verifier::external_body]
pub(crate) fn buffer_into_vec(buffer: BytesMut) -> (bytes: Vec<u8>)
    ensures
        bytes@ == buffer_bytes(buffer),
{
    buffer.freeze().to_vec()
}

} // verus!
