//! Big-endian integers on the wire: what the bytes mean, and the calls into
//! the `bytes` crate that read and write them.

use byteorder::{BigEndian, ReadBytesExt};
use bytes::{Buf, BufMut};
use vstd::prelude::*;

verus! {

/// The eight bytes of `v`, most significant first.
pub open spec fn u64_be(v: u64) -> Seq<u8> {
    seq![
        ((v >> 56) & 0xff) as u8,
        ((v >> 48) & 0xff) as u8,
        ((v >> 40) & 0xff) as u8,
        ((v >> 32) & 0xff) as u8,
        ((v >> 24) & 0xff) as u8,
        ((v >> 16) & 0xff) as u8,
        ((v >> 8) & 0xff) as u8,
        (v & 0xff) as u8,
    ]
}

/// The number whose big-endian bytes are the first eight of `s`.
pub open spec fn be_u64(s: Seq<u8>) -> u64
    recommends
        s.len() >= 8,
{
    (s[0] as u64) << 56 | (s[1] as u64) << 48 | (s[2] as u64) << 40 | (s[3] as u64) << 32 | (
    s[4] as u64) << 24 | (s[5] as u64) << 16 | (s[6] as u64) << 8 | (s[7] as u64)
}

/// The four bytes of `v`, most significant first.
pub open spec fn u32_be(v: u32) -> Seq<u8> {
    seq![
        ((v >> 24) & 0xff) as u8,
        ((v >> 16) & 0xff) as u8,
        ((v >> 8) & 0xff) as u8,
        (v & 0xff) as u8,
    ]
}

/// The number whose big-endian bytes are the first four of `s`.
pub open spec fn be_u32(s: Seq<u8>) -> u32
    recommends
        s.len() >= 4,
{
    (s[0] as u32) << 24 | (s[1] as u32) << 16 | (s[2] as u32) << 8 | (s[3] as u32)
}

/// The eight bytes of `v` in two's complement, most significant first.
pub open spec fn i64_be(v: i64) -> Seq<u8> {
    u64_be(v as u64)
}

/// The signed number whose two's complement bytes are the first four of `s`.
pub open spec fn be_i32(s: Seq<u8>) -> i32
    recommends
        s.len() >= 4,
{
    be_u32(s) as i32
}

/// Reading back what was written gives the number that was written.
pub proof fn lemma_u64_round_trip(v: u64)
    ensures
        u64_be(v).len() == 8,
        be_u64(u64_be(v)) == v,
{
    assert({
        &&& (v >> 56) & 0xff < 256
        &&& (v >> 48) & 0xff < 256
        &&& (v >> 40) & 0xff < 256
        &&& (v >> 32) & 0xff < 256
        &&& (v >> 24) & 0xff < 256
        &&& (v >> 16) & 0xff < 256
        &&& (v >> 8) & 0xff < 256
        &&& v & 0xff < 256
    }) by (bit_vector);
    assert(v == (((v >> 56) & 0xff) << 56 | ((v >> 48) & 0xff) << 48 | ((v >> 40) & 0xff) << 40
        | ((v >> 32) & 0xff) << 32 | ((v >> 24) & 0xff) << 24 | ((v >> 16) & 0xff) << 16 | ((v
        >> 8) & 0xff) << 8 | (v & 0xff))) by (bit_vector);
}

/// The four bytes of `v` in two's complement, most significant first.
pub open spec fn i32_be(v: i32) -> Seq<u8> {
    u32_be(v as u32)
}

/// Reading back what was written gives the number that was written.
pub proof fn lemma_i32_round_trip(v: i32)
    ensures
        i32_be(v).len() == 4,
        be_i32(i32_be(v)) == v,
{
    let u = v as u32;
    assert({
        &&& (u >> 24) & 0xff < 256
        &&& (u >> 16) & 0xff < 256
        &&& (u >> 8) & 0xff < 256
        &&& u & 0xff < 256
    }) by (bit_vector);
    assert(u == (((u >> 24) & 0xff) << 24 | ((u >> 16) & 0xff) << 16 | ((u >> 8) & 0xff) << 8 | (u
        & 0xff))) by (bit_vector);
    assert((v as u32) as i32 == v) by (bit_vector);
}

/// Reads a big-endian `i32` from the start of `content`, if it holds one.
///
/// Trusted: `byteorder::ReadBytesExt::read_i32::<BigEndian>` on a byte slice
/// as reader fills four bytes with `read_exact`, which fails on a slice of
/// fewer than four, and returns `i32::from_be_bytes` of them.
#[verifier::external_body]
pub(crate) fn read_i32(content: &[u8]) -> (v: Option<i32>)
    ensures
        content@.len() >= 4 ==> v == Some(be_i32(content@.subrange(0, 4))),
        content@.len() < 4 ==> v.is_none(),
{
    let mut reader = content;
    reader.read_i32::<BigEndian>().ok()
}

/// The big-endian bytes of `v`.
///
/// Trusted: `i32::to_be_bytes` of std gives the four bytes of the two's
/// complement of `v`, most significant first.
#[verifier::external_body]
pub(crate) fn i32_bytes(v: i32) -> (bytes: Vec<u8>)
    ensures
        bytes@ == i32_be(v),
{
    v.to_be_bytes().to_vec()
}

/// Reads a big-endian `u64` at `at`.
///
/// Trusted: `bytes::Buf::get_u64` on a cursor over `buf[at..]` returns
/// `u64::from_be_bytes` of the next eight bytes, and panics only when fewer
/// than eight remain.
#[verifier::external_body]
pub(crate) fn get_u64(buf: &[u8], at: usize) -> (v: u64)
    requires
        at + 8 <= buf@.len(),
    ensures
        v == be_u64(buf@.subrange(at as int, at + 8)),
{
    let mut reader = std::io::Cursor::new(&buf[at..]);
    reader.get_u64()
}

/// Appends one byte.
///
/// Trusted: `bytes::BufMut::put_u8` on a `Vec<u8>` appends the byte.
#[verifier::external_body]
pub(crate) fn put_u8(buf: &mut Vec<u8>, v: u8)
    ensures
        final(buf)@ == old(buf)@.push(v),
{
    buf.put_u8(v);
}

/// Appends a big-endian `u32`.
///
/// Trusted: `bytes::BufMut::put_u32` on a `Vec<u8>` appends `v.to_be_bytes()`.
#[verifier::external_body]
pub(crate) fn put_u32(buf: &mut Vec<u8>, v: u32)
    ensures
        final(buf)@ == old(buf)@ + u32_be(v),
{
    buf.put_u32(v);
}

/// Appends a big-endian `u64`.
///
/// Trusted: `bytes::BufMut::put_u64` on a `Vec<u8>` appends `v.to_be_bytes()`.
#[verifier::external_body]
pub(crate) fn put_u64(buf: &mut Vec<u8>, v: u64)
    ensures
        final(buf)@ == old(buf)@ + u64_be(v),
{
    buf.put_u64(v);
}

/// Appends a big-endian `i64`.
///
/// Trusted: `bytes::BufMut::put_i64` on a `Vec<u8>` appends `v.to_be_bytes()`,
/// the two's complement of `v`.
#[verifier::external_body]
pub(crate) fn put_i64(buf: &mut Vec<u8>, v: i64)
    ensures
        final(buf)@ == old(buf)@ + i64_be(v),
{
    buf.put_i64(v);
}

} // verus!
