use bytes::{Buf, BufMut, Bytes, BytesMut};
use vstd::prelude::*;
use vstd::slice::{slice_subrange, slice_to_vec};

verus! {

/// The two bytes of `v`, most significant first.
pub open spec fn u16_be_bytes(v: u16) -> Seq<u8> {
    seq![(v / 256) as u8, (v % 256) as u8]
}

/// The four bytes of `v`, most significant first.
pub open spec fn u32_be_bytes(v: u32) -> Seq<u8> {
    seq![
        (v / 0x100_0000) as u8,
        (v / 0x1_0000 % 256) as u8,
        (v / 256 % 256) as u8,
        (v % 256) as u8,
    ]
}

/// The number whose big-endian bytes are `bytes[at]` and `bytes[at + 1]`.
pub open spec fn u16_be_at(bytes: Seq<u8>, at: int) -> u16 {
    (bytes[at] * 256 + bytes[at + 1]) as u16
}

/// The number whose big-endian bytes are `bytes[at]` to `bytes[at + 3]`.
pub open spec fn u32_be_at(bytes: Seq<u8>, at: int) -> u32 {
    (bytes[at] * 0x100_0000 + bytes[at + 1] * 0x1_0000 + bytes[at + 2] * 256 + bytes[at + 3]) as u32
}

/// Reading where big-endian bytes were appended gives the number written.
pub proof fn lemma_u16_be_at_append(front: Seq<u8>, v: u16, back: Seq<u8>)
    ensures
        u16_be_at(front + u16_be_bytes(v) + back, front.len() as int) == v,
{
    let all = front + u16_be_bytes(v) + back;
    assert(all[front.len() as int] == u16_be_bytes(v)[0]);
    assert(all[front.len() as int + 1] == u16_be_bytes(v)[1]);
}

/// Reading where big-endian bytes were appended gives the number written.
pub proof fn lemma_u32_be_at_append(front: Seq<u8>, v: u32, back: Seq<u8>)
    ensures
        u32_be_at(front + u32_be_bytes(v) + back, front.len() as int) == v,
{
    let all = front + u32_be_bytes(v) + back;
    assert(all[front.len() as int] == u32_be_bytes(v)[0]);
    assert(all[front.len() as int + 1] == u32_be_bytes(v)[1]);
    assert(all[front.len() as int + 2] == u32_be_bytes(v)[2]);
    assert(all[front.len() as int + 3] == u32_be_bytes(v)[3]);
}

/// The CRC-32 checksum of a byte sequence, as `crc32fast::hash` computes it.
pub uninterp spec fn crc32(data: Seq<u8>) -> u32;

/// `crc32fast::hash`: the checksum depends on the bytes alone, so it is the
/// value that `crc32` names.
#[verifier::external_body]
pub(crate) fn crc32_of(data: &[u8]) -> (sum: u32)
    ensures
        sum == crc32(data@),
{
    crc32fast::hash(data)
}

/// `BufMut::put_u8` on a `Vec<u8>`: appends the byte.
#[verifier::external_body]
pub(crate) fn put_u8(buf: &mut Vec<u8>, v: u8)
    ensures
        final(buf)@ == old(buf)@.push(v),
{
    buf.put_u8(v)
}

/// `BufMut::put_u16` on a `Vec<u8>`: appends the two bytes of `v`, most
/// significant first.
#[verifier::external_body]
pub(crate) fn put_u16(buf: &mut Vec<u8>, v: u16)
    ensures
        final(buf)@ == old(buf)@ + u16_be_bytes(v),
{
    buf.put_u16(v)
}

/// `BufMut::put_u32` on a `Vec<u8>`: appends the four bytes of `v`, most
/// significant first.
#[verifier::external_body]
pub(crate) fn put_u32(buf: &mut Vec<u8>, v: u32)
    ensures
        final(buf)@ == old(buf)@ + u32_be_bytes(v),
{
    buf.put_u32(v)
}

/// `BufMut::put_slice` on a `Vec<u8>`: appends the bytes of `src`.
#[verifier::external_body]
pub(crate) fn put_slice(buf: &mut Vec<u8>, src: &[u8])
    ensures
        final(buf)@ == old(buf)@ + src@,
{
    buf.put_slice(src)
}

/// `Buf::get_u16` on a byte slice: the number whose big-endian bytes are the
/// first two of the slice. It panics on a shorter slice.
#[verifier::external_body]
pub(crate) fn get_u16(src: &[u8]) -> (v: u16)
    requires
        src@.len() >= 2,
    ensures
        v == u16_be_at(src@, 0),
{
    let mut cursor = src;
    cursor.get_u16()
}

/// `Buf::get_u32` on a byte slice: the number whose big-endian bytes are the
/// first four of the slice. It panics on a shorter slice.
#[verifier::external_body]
pub(crate) fn get_u32(src: &[u8]) -> (v: u32)
    requires
        src@.len() >= 4,
    ensures
        v == u32_be_at(src@, 0),
{
    let mut cursor = src;
    cursor.get_u32()
}

/// The number whose big-endian bytes are the two at `at` of `buf`.
pub(crate) fn read_u16(buf: &[u8], at: usize) -> (v: u16)
    requires
        at + 2 <= buf@.len(),
    ensures
        v == u16_be_at(buf@, at as int),
{
    let len = buf.len();
    let field = slice_subrange(buf, at, at + 2);
    assert(field@[0] == buf@[at as int]);
    assert(field@[1] == buf@[at + 1]);
    get_u16(field)
}

/// The number whose big-endian bytes are the four at `at` of `buf`.
pub(crate) fn read_u32(buf: &[u8], at: usize) -> (v: u32)
    requires
        at + 4 <= buf@.len(),
    ensures
        v == u32_be_at(buf@, at as int),
{
    let len = buf.len();
    let field = slice_subrange(buf, at, at + 4);
    assert(field@[0] == buf@[at as int]);
    assert(field@[1] == buf@[at + 1]);
    assert(field@[2] == buf@[at + 2]);
    assert(field@[3] == buf@[at + 3]);
    get_u32(field)
}

/// A copy of the bytes of `buf` from `from` up to `to`.
pub(crate) fn copy_range(buf: &[u8], from: usize, to: usize) -> (bytes: Vec<u8>)
    requires
        from <= to <= buf@.len(),
    ensures
        bytes@ == buf@.subrange(from as int, to as int),
{
    slice_to_vec(slice_subrange(buf, from, to))
}

#[verifier::external_type_specification]
#[verifier::external_body]
pub struct ExBytes(bytes::Bytes);

#[verifier::external_type_specification]
#[verifier::external_body]
pub struct ExBytesMut(bytes::BytesMut);

/// The bytes that a `Bytes` holds, in order.
pub uninterp spec fn bytes_view(b: Bytes) -> Seq<u8>;

/// The bytes that a `BytesMut` holds, in order.
pub uninterp spec fn bytes_mut_view(b: BytesMut) -> Seq<u8>;

/// `Bytes::from` for a `Vec<u8>`: the buffer holds the bytes of the vector.
#[verifier::external_body]
pub(crate) fn bytes_from_vec(v: Vec<u8>) -> (b: Bytes)
    ensures
        bytes_view(b) == v@,
{
    Bytes::from(v)
}

/// `AsRef<[u8]>::as_ref` of `Bytes`: the bytes of the buffer as a slice.
#[verifier::external_body]
pub(crate) fn bytes_as_slice(b: &Bytes) -> (s: &[u8])
    ensures
        s@ == bytes_view(*b),
{
    b.as_ref()
}

/// `BytesMut::with_capacity`: a buffer that holds no bytes. It panics where
/// the capacity exceeds `isize::MAX`.
#[verifier::external_body]
pub(crate) fn bytes_mut_with_capacity(capacity: usize) -> (b: BytesMut)
    requires
        capacity <= isize::MAX,
    ensures
        bytes_mut_view(b) == Seq::<u8>::empty(),
{
    BytesMut::with_capacity(capacity)
}

/// `BytesMut::resize`: cuts the buffer to `new_len` bytes, or fills it up
/// to that length with `value`.
#[verifier::external_body]
pub(crate) fn bytes_mut_resize(b: &mut BytesMut, new_len: usize, value: u8)
    requires
        new_len <= isize::MAX,
    ensures
        new_len <= bytes_mut_view(*old(b)).len() ==> bytes_mut_view(*final(b)) == bytes_mut_view(
            *old(b),
        ).subrange(0, new_len as int),
        new_len > bytes_mut_view(*old(b)).len() ==> bytes_mut_view(*final(b)) == bytes_mut_view(
            *old(b),
        ) + Seq::new((new_len - bytes_mut_view(*old(b)).len()) as nat, |i: int| value),
{
    b.resize(new_len, value)
}

/// `AsRef<[u8]>::as_ref` of `BytesMut`: the bytes of the buffer as a slice.
#[verifier::external_body]
pub(crate) fn bytes_mut_as_slice(b: &BytesMut) -> (s: &[u8])
    ensures
        s@ == bytes_mut_view(*b),
{
    b.as_ref()
}

/// `AsMut<[u8]>::as_mut` of `BytesMut`: the bytes of the buffer as a slice
/// to write through; what the slice holds at the end, the buffer holds.
#[verifier::external_body]
pub(crate) fn bytes_mut_as_mut_slice(b: &mut BytesMut) -> (s: &mut [u8])
    ensures
        s@ == bytes_mut_view(*old(b)),
        final(s)@ == bytes_mut_view(*final(b)),
{
    b.as_mut()
}

/// `BytesMut::freeze`: the immutable buffer holds the same bytes.
#[verifier::external_body]
pub(crate) fn bytes_mut_freeze(b: BytesMut) -> (frozen: Bytes)
    ensures
        bytes_view(frozen) == bytes_mut_view(b),
{
    b.freeze()
}

} // verus!
