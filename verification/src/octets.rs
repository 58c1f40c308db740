//! Shared byte buffers.
use bytes::Bytes;
use vstd::prelude::*;
use vstd::utf8::encode_utf8;

verus! {

/// `bytes::Bytes`, carried as an opaque value.
#[verifier::external_type_specification]
#[verifier::external_body]
pub struct ExBytes(bytes::Bytes);

/// The bytes that a buffer holds.
pub uninterp spec fn octets(buffer: Bytes) -> Seq<u8>;

/// Calls `bytes::Bytes::clone`: another handle to the same bytes.
#[verifier::external_body]
pub(crate) fn share(buffer: &Bytes) -> (shared: Bytes)
    ensures
        octets(shared) == octets(*buffer),
{
    buffer.clone()
}

/// Calls `bytes::Bytes::copy_from_slice`: a buffer that holds a copy of the
/// slice.
#[verifier::external_body]
pub(crate) fn copy_from_slice(data: &[u8]) -> (buffer: Bytes)
    ensures
        octets(buffer) == data@,
{
    Bytes::copy_from_slice(data)
}

/// Calls `bytes::Bytes::from` on a string: a buffer that holds the string in
/// UTF-8.
#[verifier::external_body]
pub(crate) fn from_string(text: String) -> (buffer: Bytes)
    ensures
        octets(buffer) == encode_utf8(text@),
{
    Bytes::from(text)
}

} // verus!
