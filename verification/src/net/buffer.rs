//! The byte buffer that frames are read from and written to.
//!
//! The buffer is `bytes::BytesMut`. Verus cannot look inside it, so its
//! contents have a name, `buffer_bytes`, and each operation the codec uses is
//! a small wrapper whose contract says what the operation does to those
//! contents. The contracts are assumed, not proved.
//!
//! The operations that grow the buffer ask that the contents stay within
//! `isize::MAX` bytes, the most that any allocation can hold. That the
//! allocator then gives the memory is taken for granted here, as it is for
//! `Vec` throughout: a program that runs out of memory ends.

use vstd::prelude::*;
use bytes::{Buf, BufMut, BytesMut};

verus! {

#[verifier::external_type_specification]
#[verifier::external_body]
pub struct ExBytesMut(bytes::BytesMut);

/// The bytes a buffer holds, in order, the next byte to be read first.
pub uninterp spec fn buffer_bytes(buf: BytesMut) -> Seq<u8>;

/// `<BytesMut as Deref>::deref`: borrows the buffer's contents as a slice.
/// Assumed: the slice holds exactly the bytes of the buffer.
#[verifier::external_body]
pub(crate) fn buffer_slice(buf: &BytesMut) -> (bytes: &[u8])
    ensures
        bytes@ == buffer_bytes(*buf),
{
    core::ops::Deref::deref(buf)
}

/// `<BytesMut as Buf>::advance`: drops the first `count` bytes. It panics when
/// `count` exceeds the length, which the precondition rules out.
/// Assumed: the bytes after the first `count` remain, in order.
#[verifier::external_body]
pub(crate) fn buffer_advance(buf: &mut BytesMut, count: usize)
    requires
        count <= buffer_bytes(*old(buf)).len(),
    ensures
        buffer_bytes(*final(buf)) == buffer_bytes(*old(buf)).skip(count as int),
{
    buf.advance(count)
}

/// `BytesMut::reserve`: makes room for `additional` more bytes. It panics when
/// the new capacity overflows; the precondition keeps the contents and the
/// room asked for within what an allocation can hold.
/// Assumed: the contents do not change.
#[verifier::external_body]
pub(crate) fn buffer_reserve(buf: &mut BytesMut, additional: usize)
    requires
        buffer_bytes(*old(buf)).len() + additional <= isize::MAX,
    ensures
        buffer_bytes(*final(buf)) == buffer_bytes(*old(buf)),
{
    buf.reserve(additional)
}

/// `BytesMut::extend_from_slice`: appends a slice, growing the buffer first
/// where needed; the precondition keeps the new contents within what an
/// allocation can hold.
/// Assumed: the contents are the old contents followed by the slice.
#[verifier::external_body]
pub(crate) fn buffer_extend(buf: &mut BytesMut, extend: &[u8])
    requires
        buffer_bytes(*old(buf)).len() + extend@.len() <= isize::MAX,
    ensures
        buffer_bytes(*final(buf)) == buffer_bytes(*old(buf)) + extend@,
{
    buf.extend_from_slice(extend)
}

/// `<BytesMut as BufMut>::put_u8`: appends one byte, growing the buffer first
/// where needed; the precondition keeps the new contents within what an
/// allocation can hold.
/// Assumed: the contents are the old contents followed by that byte.
#[verifier::external_body]
pub(crate) fn buffer_put_u8(buf: &mut BytesMut, byte: u8)
    requires
        buffer_bytes(*old(buf)).len() + 1 <= isize::MAX,
    ensures
        buffer_bytes(*final(buf)) == buffer_bytes(*old(buf)).push(byte),
{
    buf.put_u8(byte)
}

} // verus!
