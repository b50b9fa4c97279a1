use vstd::prelude::*;
use bytes::BytesMut;

verus! {

#[verifier::external_type_specification]
#[verifier::external_body]
pub struct ExBytesMut(BytesMut);

/// The bytes that a `BytesMut` holds, first to last.
pub uninterp spec fn buffer_contents(b: BytesMut) -> Seq<u8>;

/// `BytesMut::len`: the number of bytes held.
#[verifier::external_body]
pub(crate) fn buffer_len(b: &BytesMut) -> (r: usize)
    ensures
        r == buffer_contents(*b).len(),
{
    b.len()
}

/// `<BytesMut as AsRef<[u8]>>::as_ref`: the held bytes as a slice.
#[verifier::external_body]
pub(crate) fn buffer_bytes(b: &BytesMut) -> (r: &[u8])
    ensures
        r@ == buffer_contents(*b),
{
    b.as_ref()
}

/// `<BytesMut as Buf>::advance`: drops the first `n` bytes; it panics past the end.
#[verifier::external_body]
pub(crate) fn buffer_advance(b: &mut BytesMut, n: usize)
    requires
        n <= buffer_contents(*old(b)).len(),
    ensures
        buffer_contents(*final(b)) == buffer_contents(*old(b)).subrange(
            n as int,
            buffer_contents(*old(b)).len() as int,
        ),
{
    bytes::Buf::advance(b, n)
}

/// `BytesMut::extend_from_slice`: appends the bytes of `s`.
#[verifier::external_body]
pub(crate) fn buffer_extend(b: &mut BytesMut, s: &[u8])
    ensures
        buffer_contents(*final(b)) == buffer_contents(*old(b)) + s@,
{
    b.extend_from_slice(s)
}

/// `<BytesMut as From<&[u8]>>::from`: a buffer holding a copy of `s`.
#[verifier::external_body]
pub(crate) fn buffer_from(s: &[u8]) -> (r: BytesMut)
    ensures
        buffer_contents(r) == s@,
{
    BytesMut::from(s)
}

/// `<BytesMut as BufMut>::put_u8`: appends one byte.
#[verifier::external_body]
pub(crate) fn buffer_push(b: &mut BytesMut, byte: u8)
    ensures
        buffer_contents(*final(b)) == buffer_contents(*old(b)).push(byte),
{
    bytes::BufMut::put_u8(b, byte)
}

} // verus!
