//! What this crate takes for granted of the `bytes` crate.
//!
//! [`Bytes`] and [`BytesMut`] are opaque to the verifier. Each value holds a
//! sequence of bytes, named [`bytes_seq`] and [`bytes_mut_seq`]; the contracts
//! below say what the methods used here do to that sequence. How much memory a
//! buffer has allocated, and where, is never stated, and running out of memory
//! or address space is left aside.
use bytes::Buf;
use bytes::Bytes;
use bytes::BytesMut;
use vstd::prelude::*;

verus! {

/// A cheaply splittable, immutable byte buffer.
#[verifier::external_type_specification]
#[verifier::external_body]
pub struct ExBytes(Bytes);

/// The bytes held by a [`Bytes`], in order.
pub uninterp spec fn bytes_seq(b: Bytes) -> Seq<u8>;

/// `Bytes::new` gives the empty buffer.
pub assume_specification[ Bytes::new ]() -> (b: Bytes)
    ensures
        bytes_seq(b) == Seq::<u8>::empty(),
;

/// `Bytes::len` gives the number of bytes held.
pub assume_specification[ Bytes::len ](b: &Bytes) -> (n: usize)
    ensures
        n == bytes_seq(*b).len(),
;

/// `Bytes::copy_from_slice` holds a copy of the slice.
pub assume_specification[ Bytes::copy_from_slice ](data: &[u8]) -> (b: Bytes)
    ensures
        bytes_seq(b) == data@,
;

/// `Bytes::split_to` takes the first `at` bytes out and returns them; it
/// panics when there are fewer.
pub assume_specification[ Bytes::split_to ](b: &mut Bytes, at: usize) -> (front: Bytes)
    requires
        at <= bytes_seq(*old(b)).len(),
    ensures
        bytes_seq(front) == bytes_seq(*old(b)).take(at as int),
        bytes_seq(*final(b)) == bytes_seq(*old(b)).skip(at as int),
;

/// `Bytes::split_off` keeps the first `at` bytes and returns the others; it
/// panics when there are fewer.
pub assume_specification[ Bytes::split_off ](b: &mut Bytes, at: usize) -> (back: Bytes)
    requires
        at <= bytes_seq(*old(b)).len(),
    ensures
        bytes_seq(*final(b)) == bytes_seq(*old(b)).take(at as int),
        bytes_seq(back) == bytes_seq(*old(b)).skip(at as int),
;

/// `<Bytes as Deref>::deref` shows the bytes held as a slice.
#[verifier::external_body]
pub(crate) fn bytes_as_slice(b: &Bytes) -> (s: &[u8])
    ensures
        s@ == bytes_seq(*b),
{
    &b[..]
}

/// A byte buffer that can be written to and split without copying.
#[verifier::external_type_specification]
#[verifier::external_body]
pub struct ExBytesMut(BytesMut);

/// The bytes held by a [`BytesMut`], in order.
pub uninterp spec fn bytes_mut_seq(b: BytesMut) -> Seq<u8>;

/// `BytesMut::new` gives the empty buffer.
pub assume_specification[ BytesMut::new ]() -> (b: BytesMut)
    ensures
        bytes_mut_seq(b) == Seq::<u8>::empty(),
;

/// `BytesMut::with_capacity` gives an empty buffer; it panics when the
/// capacity is more than `isize::MAX`.
pub assume_specification[ BytesMut::with_capacity ](capacity: usize) -> (b: BytesMut)
    requires
        capacity <= isize::MAX,
    ensures
        bytes_mut_seq(b) == Seq::<u8>::empty(),
;

/// `BytesMut::len` gives the number of bytes held.
pub assume_specification[ BytesMut::len ](b: &BytesMut) -> (n: usize)
    ensures
        n == bytes_mut_seq(*b).len(),
;

/// `BytesMut::resize` cuts the buffer to its first `new_len` bytes, or fills
/// it up with `value`; it panics when it would hold more than `isize::MAX`.
pub assume_specification[ BytesMut::resize ](b: &mut BytesMut, new_len: usize, value: u8)
    requires
        new_len <= isize::MAX,
    ensures
        bytes_mut_seq(*final(b)).len() == new_len,
        forall|i: int|
            0 <= i < new_len ==> #[trigger] bytes_mut_seq(*final(b))[i] == (if i
                < bytes_mut_seq(*old(b)).len() {
                bytes_mut_seq(*old(b))[i]
            } else {
                value
            }),
;

/// `BytesMut::truncate` keeps the first `len` bytes; with fewer bytes held it
/// does nothing.
pub assume_specification[ BytesMut::truncate ](b: &mut BytesMut, len: usize)
    ensures
        bytes_mut_seq(*final(b)) == (if len <= bytes_mut_seq(*old(b)).len() {
            bytes_mut_seq(*old(b)).take(len as int)
        } else {
            bytes_mut_seq(*old(b))
        }),
;

/// `BytesMut::split_to` takes the first `at` bytes out and returns them; it
/// panics when there are fewer.
pub assume_specification[ BytesMut::split_to ](b: &mut BytesMut, at: usize) -> (front: BytesMut)
    requires
        at <= bytes_mut_seq(*old(b)).len(),
    ensures
        bytes_mut_seq(front) == bytes_mut_seq(*old(b)).take(at as int),
        bytes_mut_seq(*final(b)) == bytes_mut_seq(*old(b)).skip(at as int),
;

/// `BytesMut::split_off` keeps the first `at` bytes and returns the others; it
/// panics when `at` is more than the buffer has room for.
pub assume_specification[ BytesMut::split_off ](b: &mut BytesMut, at: usize) -> (back: BytesMut)
    requires
        at <= bytes_mut_seq(*old(b)).len(),
    ensures
        bytes_mut_seq(*final(b)) == bytes_mut_seq(*old(b)).take(at as int),
        bytes_mut_seq(back) == bytes_mut_seq(*old(b)).skip(at as int),
;

/// `BytesMut::unsplit` appends the bytes of `other`; it panics when the buffer
/// would hold more than `isize::MAX` bytes.
pub assume_specification[ BytesMut::unsplit ](b: &mut BytesMut, other: BytesMut)
    requires
        bytes_mut_seq(*old(b)).len() + bytes_mut_seq(other).len() <= isize::MAX,
    ensures
        bytes_mut_seq(*final(b)) == bytes_mut_seq(*old(b)) + bytes_mut_seq(other),
;

/// `BytesMut::extend_from_slice` appends a copy of the slice; it panics when
/// the buffer would hold more than `isize::MAX` bytes.
pub assume_specification[ BytesMut::extend_from_slice ](b: &mut BytesMut, extend: &[u8])
    requires
        bytes_mut_seq(*old(b)).len() + extend@.len() <= isize::MAX,
    ensures
        bytes_mut_seq(*final(b)) == bytes_mut_seq(*old(b)) + extend@,
;

/// `<BytesMut as Buf>::advance` drops the first `cnt` bytes; it panics when
/// there are fewer.
#[verifier::external_body]
pub(crate) fn bytes_mut_advance(b: &mut BytesMut, cnt: usize)
    requires
        cnt <= bytes_mut_seq(*old(b)).len(),
    ensures
        bytes_mut_seq(*final(b)) == bytes_mut_seq(*old(b)).skip(cnt as int),
{
    b.advance(cnt);
}

/// `<BytesMut as Deref>::deref` shows the bytes held as a slice.
#[verifier::external_body]
pub(crate) fn bytes_mut_as_slice(b: &BytesMut) -> (s: &[u8])
    ensures
        s@ == bytes_mut_seq(*b),
{
    &b[..]
}

/// `<BytesMut as From<&[u8]>>::from` holds a copy of the slice.
#[verifier::external_body]
pub(crate) fn bytes_mut_from_slice(data: &[u8]) -> (b: BytesMut)
    ensures
        bytes_mut_seq(b) == data@,
{
    BytesMut::from(data)
}

/// Whether the memory of `next` begins where the bytes of `b` end, as
/// `BytesMut::as_ptr` of the two tells. It depends on where the allocator put
/// the buffers, so nothing is said of the answer.
#[verifier::external_body]
pub(crate) fn bytes_mut_adjoin(b: &BytesMut, next: &BytesMut) -> (r: bool) {
    b.as_ptr_range().end == next.as_ptr()
}

} // verus!
