//! The byte buffer of the `bytes` crate, as far as the codecs use it.

use bytes::BytesMut;
use vstd::prelude::*;

verus! {

/// The growable byte buffer of the `bytes` crate.
#[verifier::external_type_specification]
#[verifier::external_body]
pub struct ExBytesMut(BytesMut);

/// The bytes that a buffer holds, first to last.
pub uninterp spec fn spec_bytes(buf: BytesMut) -> Seq<u8>;

/// The bytes of the buffer as a slice, by `BytesMut::as_ref`: the slice
/// holds what the buffer holds.
#[verifier::external_body]
pub(crate) fn bytes_of(buf: &BytesMut) -> (held: &[u8])
    ensures
        held@ == spec_bytes(*buf),
{
    buf.as_ref()
}

/// Takes the first `at` bytes out of the buffer, by `BytesMut::split_to`:
/// they are handed back, and the buffer keeps what stood behind them. The
/// call asks for `at` to be within the buffer.
#[verifier::external_body]
pub(crate) fn take_front(buf: &mut BytesMut, at: usize) -> (front: Vec<u8>)
    requires
        at <= spec_bytes(*old(buf)).len(),
    ensures
        front@ == spec_bytes(*old(buf)).take(at as int),
        spec_bytes(*final(buf)) == spec_bytes(*old(buf)).skip(at as int),
{
    buf.split_to(at).to_vec()
}

/// Appends `data` to the buffer, by `BytesMut::extend_from_slice`: the
/// buffer then holds what it held, and `data` behind it.
#[verifier::external_body]
pub(crate) fn append(buf: &mut BytesMut, data: &[u8])
    ensures
        spec_bytes(*final(buf)) == spec_bytes(*old(buf)) + data@,
{
    buf.extend_from_slice(data)
}

} // verus!
