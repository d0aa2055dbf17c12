use vstd::prelude::*;
use bytes::{Buf, BufMut, BytesMut};

verus! {

/// `bytes::BytesMut`, the growable byte buffer that messages are written
/// into and read from.
#[verifier::external_type_specification]
#[verifier::external_body]
pub struct ExBytesMut(bytes::BytesMut);

/// The bytes that a `BytesMut` holds, first to last.
pub uninterp spec fn buffer_bytes(buffer: BytesMut) -> Seq<u8>;

/// The four bytes of `n`, most significant first.
pub open spec fn be32_bytes(n: u32) -> Seq<u8> {
    seq![
        (n / 0x100_0000) as u8,
        (n / 0x1_0000 % 0x100) as u8,
        (n / 0x100 % 0x100) as u8,
        (n % 0x100) as u8,
    ]
}

/// The number whose four bytes, most significant first, start `s`.
pub open spec fn be32_value(s: Seq<u8>) -> u32 {
    (s[0] * 0x100_0000 + s[1] * 0x1_0000 + s[2] * 0x100 + s[3]) as u32
}

/// Reading back the four bytes of a number gives the number.
pub proof fn lemma_be32_round_trip(n: u32)
    ensures
        be32_value(be32_bytes(n)) == n,
{
    let s = be32_bytes(n);
    assert(s[0] == n / 0x100_0000);
    assert(s[1] == n / 0x1_0000 % 0x100);
    assert(s[2] == n / 0x100 % 0x100);
    assert(s[3] == n % 0x100);
    assert((n / 0x100_0000) * 0x100_0000 + (n / 0x1_0000 % 0x100) * 0x1_0000 + (n / 0x100 % 0x100)
        * 0x100 + n % 0x100 == n) by (nonlinear_arith);
}

/// The four bytes of `n`, most significant first, as `u32::to_be_bytes` gives them.
pub fn be32(n: u32) -> (r: [u8; 4])
    ensures
        r@ == be32_bytes(n),
{
    let r = [(n / 0x100_0000) as u8, (n / 0x1_0000 % 0x100) as u8, (n / 0x100 % 0x100) as u8, (n % 0x100) as u8];
    assert(r@ =~= be32_bytes(n));
    r
}

/// Calls `BytesMut`'s `Deref::deref`, which shows the bytes the buffer holds.
#[verifier::external_body]
pub fn buffer_slice(buffer: &BytesMut) -> (r: &[u8])
    ensures
        r@ == buffer_bytes(*buffer),
{
    &buffer[..]
}

/// Calls `BufMut::put_u8` on a `BytesMut`, which appends `n` (growing the
/// buffer, which panics only past `isize::MAX` bytes).
#[verifier::external_body]
pub fn buffer_put_u8(buffer: &mut BytesMut, n: u8)
    requires
        buffer_bytes(*old(buffer)).len() < isize::MAX,
    ensures
        buffer_bytes(*final(buffer)) == buffer_bytes(*old(buffer)).push(n),
{
    buffer.put_u8(n)
}

/// Calls `BufMut::put_u32` on a `BytesMut`, which appends the four bytes of
/// `n`, most significant first.
#[verifier::external_body]
pub fn buffer_put_u32(buffer: &mut BytesMut, n: u32)
    requires
        buffer_bytes(*old(buffer)).len() + 4 <= isize::MAX,
    ensures
        buffer_bytes(*final(buffer)) == buffer_bytes(*old(buffer)) + be32_bytes(n),
{
    buffer.put_u32(n)
}

/// Calls `BytesMut::extend_from_slice`, which appends `bytes`.
#[verifier::external_body]
pub fn buffer_extend(buffer: &mut BytesMut, bytes: &[u8])
    requires
        buffer_bytes(*old(buffer)).len() + bytes@.len() <= isize::MAX,
    ensures
        buffer_bytes(*final(buffer)) == buffer_bytes(*old(buffer)) + bytes@,
{
    buffer.extend_from_slice(bytes)
}

/// Calls `Buf::get_u8` on a `BytesMut`, which takes the first byte off
/// the buffer (it panics on an empty buffer).
#[verifier::external_body]
pub fn buffer_get_u8(buffer: &mut BytesMut) -> (r: u8)
    requires
        buffer_bytes(*old(buffer)).len() >= 1,
    ensures
        r == buffer_bytes(*old(buffer))[0],
        buffer_bytes(*final(buffer)) == buffer_bytes(*old(buffer)).skip(1),
{
    buffer.get_u8()
}

/// Calls `Buf::get_u32` on a `BytesMut`, which takes the first four bytes
/// off the buffer and reads them most significant first (it panics when
/// fewer than four bytes are held).
#[verifier::external_body]
pub fn buffer_get_u32(buffer: &mut BytesMut) -> (r: u32)
    requires
        buffer_bytes(*old(buffer)).len() >= 4,
    ensures
        r == be32_value(buffer_bytes(*old(buffer))),
        buffer_bytes(*final(buffer)) == buffer_bytes(*old(buffer)).skip(4),
{
    buffer.get_u32()
}

/// Calls `Buf::advance` on a `BytesMut`, which drops the first `count`
/// bytes (it panics when fewer are held).
#[verifier::external_body]
pub fn buffer_advance(buffer: &mut BytesMut, count: usize)
    requires
        count <= buffer_bytes(*old(buffer)).len(),
    ensures
        buffer_bytes(*final(buffer)) == buffer_bytes(*old(buffer)).skip(count as int),
{
    buffer.advance(count)
}

} // verus!
