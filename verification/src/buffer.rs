//! The shared transcript buffer.
//!
//! A transcript is held in a `bytes::Bytes`, so that every span cut from it
//! shares one allocation. Bytes that come from several places are gathered
//! in a `bytes::BytesMut`. Verus does not look inside either: what this
//! module declares of them is taken on trust from the `bytes` crate.

use bytes::{Bytes, BytesMut};
use vstd::prelude::*;

verus! {

/// `bytes::Bytes`: a handle on a run of bytes that it may share with other
/// handles. Nothing of its inside is known here.
#[verifier::external_type_specification]
#[verifier::external_body]
pub struct ExBytes(bytes::Bytes);

/// The bytes that a buffer holds, in order.
pub uninterp spec fn contents(buffer: Bytes) -> Seq<u8>;

/// `Bytes::len`: the number of bytes that the buffer holds.
pub assume_specification[ Bytes::len ](buffer: &Bytes) -> (n: usize)
    ensures
        n == contents(*buffer).len(),
;

/// `Bytes::copy_from_slice`: a new buffer that holds a copy of the slice.
pub assume_specification[ Bytes::copy_from_slice ](data: &[u8]) -> (buffer: Bytes)
    ensures
        contents(buffer) == data@,
;

/// `Bytes::clone`: a second handle on the same bytes.
pub assume_specification[ <Bytes as Clone>::clone ](buffer: &Bytes) -> (copy: Bytes)
    ensures
        contents(copy) == contents(*buffer),
;

/// `bytes::BytesMut`: a run of bytes that can grow. Nothing of its inside is
/// known here.
#[verifier::external_type_specification]
#[verifier::external_body]
pub struct ExBytesMut(bytes::BytesMut);

/// The bytes that a growing buffer holds, in order.
pub uninterp spec fn gathering(buffer: BytesMut) -> Seq<u8>;

/// `BytesMut::new`: a growing buffer that holds no byte.
pub assume_specification[ BytesMut::new ]() -> (buffer: BytesMut)
    ensures
        gathering(buffer) == Seq::<u8>::empty(),
;

/// `BytesMut::extend_from_slice`, which panics where the length would
/// exceed `usize`: the buffer holds what it held, then the bytes of the
/// slice.
pub assume_specification[ BytesMut::extend_from_slice ](buffer: &mut BytesMut, extend: &[u8])
    requires
        gathering(*old(buffer)).len() + extend@.len() <= usize::MAX,
    ensures
        gathering(*final(buffer)) == gathering(*old(buffer)) + extend@,
;

/// `BytesMut::freeze`: the bytes of the growing buffer as a `Bytes`.
pub assume_specification[ BytesMut::freeze ](buffer: BytesMut) -> (bytes: Bytes)
    ensures
        contents(bytes) == gathering(buffer),
;

/// `Bytes::slice`, which panics unless `start <= end <= len`: a handle on
/// the bytes from `start` up to `end`.
#[verifier::external_body]
pub(crate) fn window(buffer: &Bytes, start: usize, end: usize) -> (part: Bytes)
    requires
        start <= end <= contents(*buffer).len(),
    ensures
        contents(part) == contents(*buffer).subrange(start as int, end as int),
{
    buffer.slice(start..end)
}

/// `Bytes::as_ref`: the bytes of the buffer as a slice.
#[verifier::external_body]
pub(crate) fn as_slice(buffer: &Bytes) -> (bytes: &[u8])
    ensures
        bytes@ == contents(*buffer),
{
    buffer.as_ref()
}

/// `Bytes::from` a vector: a buffer that holds the bytes of the vector.
#[verifier::external_body]
pub(crate) fn from_vec(data: Vec<u8>) -> (buffer: Bytes)
    ensures
        contents(buffer) == data@,
{
    Bytes::from(data)
}

} // verus!
