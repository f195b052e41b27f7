use bytes::BytesMut;
use vstd::prelude::*;

verus! {

#[verifier::external_type_specification]
#[verifier::external_body]
pub struct ExBytesMut(BytesMut);

/// The bytes that a buffer holds.
pub uninterp spec fn buffered_bytes(b: BytesMut) -> Seq<u8>;

/// Relies on `BytesMut::with_capacity`: the new buffer is empty.
#[verifier::external_body]
pub(crate) fn buf_with_capacity(capacity: usize) -> (r: BytesMut)
    ensures
        buffered_bytes(r) == Seq::<u8>::empty(),
{
    BytesMut::with_capacity(capacity)
}

/// Relies on `BytesMut::len`: the number of bytes held.
#[verifier::external_body]
pub(crate) fn buf_len(b: &BytesMut) -> (r: usize)
    ensures
        r == buffered_bytes(*b).len(),
{
    b.len()
}

/// Relies on `BytesMut::extend_from_slice`: the bytes are appended.
#[verifier::external_body]
pub(crate) fn buf_extend(b: &mut BytesMut, data: &[u8])
    ensures
        buffered_bytes(*final(b)) == buffered_bytes(*old(b)) + data@,
{
    b.extend_from_slice(data)
}

/// Relies on `BytesMut::split_to`: the first `at` bytes leave the buffer and
/// are returned; it panics when `at` exceeds the length.
#[verifier::external_body]
pub(crate) fn buf_split_to(b: &mut BytesMut, at: usize) -> (r: Vec<u8>)
    requires
        at <= buffered_bytes(*old(b)).len(),
    ensures
        r@ == buffered_bytes(*old(b)).subrange(0, at as int),
        buffered_bytes(*final(b)) == buffered_bytes(*old(b)).subrange(
            at as int,
            buffered_bytes(*old(b)).len() as int,
        ),
{
    b.split_to(at).to_vec()
}

/// Relies on `BytesMut::truncate`: the first `len` bytes stay; a longer `len`
/// changes nothing.
#[verifier::external_body]
pub(crate) fn buf_truncate(b: &mut BytesMut, len: usize)
    ensures
        buffered_bytes(*final(b)) == if len < buffered_bytes(*old(b)).len() {
            buffered_bytes(*old(b)).subrange(0, len as int)
        } else {
            buffered_bytes(*old(b))
        },
{
    b.truncate(len)
}

/// Relies on the bytes that a `BytesMut` dereferences to: a copy of them.
#[verifier::external_body]
pub(crate) fn buf_to_vec(b: &BytesMut) -> (r: Vec<u8>)
    ensures
        r@ == buffered_bytes(*b),
{
    b.to_vec()
}

} // verus!
