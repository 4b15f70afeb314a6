//! Big-endian integers on the wire.
//!
//! The byte-level reads and writes are done by the `byteorder` crate; this
//! module states, in arithmetic on octets, what those calls return.

use byteorder::{BigEndian, ByteOrder, WriteBytesExt};
use vstd::prelude::*;

verus! {

/// The 16-bit value whose big-endian form is `hi, lo`.
pub open spec fn be16(hi: u8, lo: u8) -> u16 {
    (hi as int * 256 + lo as int) as u16
}

/// The 16-bit big-endian value held at `s[at]`, `s[at + 1]`.
pub open spec fn be16_at(s: Seq<u8>, at: int) -> u16 {
    be16(s[at], s[at + 1])
}

/// The 32-bit big-endian value held at `s[at] .. s[at + 3]`.
pub open spec fn be32_at(s: Seq<u8>, at: int) -> u32 {
    (be16_at(s, at) as int * 65536 + be16_at(s, at + 2) as int) as u32
}

/// The two octets of `n`, most significant first.
pub open spec fn be16_bytes(n: u16) -> Seq<u8> {
    seq![(n / 256) as u8, (n % 256) as u8]
}

/// The four octets of `n`, most significant first.
pub open spec fn be32_bytes(n: u32) -> Seq<u8> {
    be16_bytes((n / 65536) as u16) + be16_bytes((n % 65536) as u16)
}

/// Calls `byteorder::BigEndian::read_u16`, which reads the first two
/// octets of its argument as a big-endian number and panics on a shorter
/// slice. The contract claims exactly that value.
#[verifier::external_body]
pub(crate) fn read_u16_be(buf: &[u8]) -> (n: u16)
    requires
        buf@.len() >= 2,
    ensures
        n == be16_at(buf@, 0),
{
    BigEndian::read_u16(buf)
}

/// Calls `byteorder::BigEndian::read_u32`, which reads the first four
/// octets of its argument as a big-endian number and panics on a shorter
/// slice. The contract claims exactly that value.
#[verifier::external_body]
pub(crate) fn read_u32_be(buf: &[u8]) -> (n: u32)
    requires
        buf@.len() >= 4,
    ensures
        n == be32_at(buf@, 0),
{
    BigEndian::read_u32(buf)
}

/// Calls `byteorder::WriteBytesExt::write_u8` on a `Vec<u8>`, which
/// appends the octet; writing to a vector cannot fail.
#[verifier::external_body]
pub(crate) fn put_u8(buf: &mut Vec<u8>, n: u8)
    ensures
        final(buf)@ == old(buf)@.push(n),
{
    buf.write_u8(n).unwrap();
}

/// Calls `byteorder::WriteBytesExt::write_u16::<BigEndian>` on a
/// `Vec<u8>`, which appends the two octets of `n`, most significant first;
/// writing to a vector cannot fail.
#[verifier::external_body]
pub(crate) fn put_u16_be(buf: &mut Vec<u8>, n: u16)
    ensures
        final(buf)@ == old(buf)@ + be16_bytes(n),
{
    buf.write_u16::<BigEndian>(n).unwrap();
}

/// Calls `byteorder::WriteBytesExt::write_u32::<BigEndian>` on a
/// `Vec<u8>`, which appends the four octets of `n`, most significant
/// first; writing to a vector cannot fail.
#[verifier::external_body]
pub(crate) fn put_u32_be(buf: &mut Vec<u8>, n: u32)
    ensures
        final(buf)@ == old(buf)@ + be32_bytes(n),
{
    buf.write_u32::<BigEndian>(n).unwrap();
}

/// Reads the 16-bit big-endian value at `at`.
pub fn get_u16(buf: &[u8], at: usize) -> (n: u16)
    requires
        at + 2 <= buf.len(),
    ensures
        n == be16_at(buf@, at as int),
{
    let part = vstd::slice::slice_subrange(buf, at, at + 2);
    read_u16_be(part)
}

/// Reads the 32-bit big-endian value at `at`.
pub fn get_u32(buf: &[u8], at: usize) -> (n: u32)
    requires
        at + 4 <= buf.len(),
    ensures
        n == be32_at(buf@, at as int),
{
    let part = vstd::slice::slice_subrange(buf, at, at + 4);
    read_u32_be(part)
}

} // verus!
