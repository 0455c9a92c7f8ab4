//! Little-endian integers, as the container stores them.

use byteorder::{ByteOrder, LittleEndian};
use vstd::prelude::*;

verus! {

/// The number that the first two bytes hold, low byte first.
pub open spec fn spec_u16_le(bytes: Seq<u8>) -> int
    recommends
        bytes.len() >= 2,
{
    bytes[0] + 256 * bytes[1]
}

/// The number that the first four bytes hold, low byte first.
pub open spec fn spec_u32_le(bytes: Seq<u8>) -> int
    recommends
        bytes.len() >= 4,
{
    bytes[0] + 256 * bytes[1] + 65536 * bytes[2] + 16777216 * bytes[3]
}

/// The two bytes that hold `n`, low byte first.
pub open spec fn spec_u16_le_bytes(n: u16) -> Seq<u8> {
    seq![(n % 256) as u8, (n / 256) as u8]
}

/// The four bytes that hold `n`, low byte first.
pub open spec fn spec_u32_le_bytes(n: u32) -> Seq<u8> {
    seq![
        (n % 256) as u8,
        (n / 256 % 256) as u8,
        (n / 65536 % 256) as u8,
        (n / 16777216) as u8,
    ]
}

/// Calls `byteorder::ByteOrder::read_u16` of `LittleEndian`, which reads the
/// first two bytes of `buf` as a number, low byte first, and panics on a
/// shorter slice.
#[verifier::external_body]
pub(crate) fn read_u16_le(buf: &[u8]) -> (n: u16)
    requires
        buf@.len() >= 2,
    ensures
        n == spec_u16_le(buf@),
{
    LittleEndian::read_u16(buf)
}

/// Calls `byteorder::ByteOrder::read_u32` of `LittleEndian`, which reads the
/// first four bytes of `buf` as a number, low byte first, and panics on a
/// shorter slice.
#[verifier::external_body]
pub(crate) fn read_u32_le(buf: &[u8]) -> (n: u32)
    requires
        buf@.len() >= 4,
    ensures
        n == spec_u32_le(buf@),
{
    LittleEndian::read_u32(buf)
}

/// Calls `byteorder::ByteOrder::write_u16` of `LittleEndian` on a buffer of
/// two bytes, which it fills with `n`, low byte first.
#[verifier::external_body]
pub(crate) fn write_u16_le(n: u16) -> (buf: [u8; 2])
    ensures
        buf@ == spec_u16_le_bytes(n),
{
    let mut buf = [0u8; 2];
    LittleEndian::write_u16(&mut buf, n);
    buf
}

/// Calls `byteorder::ByteOrder::write_u32` of `LittleEndian` on a buffer of
/// four bytes, which it fills with `n`, low byte first.
#[verifier::external_body]
pub(crate) fn write_u32_le(n: u32) -> (buf: [u8; 4])
    ensures
        buf@ == spec_u32_le_bytes(n),
{
    let mut buf = [0u8; 4];
    LittleEndian::write_u32(&mut buf, n);
    buf
}

/// Appends the two bytes of `n` to `out`.
pub fn put_u16_le(out: &mut Vec<u8>, n: u16)
    ensures
        final(out)@ == old(out)@ + spec_u16_le_bytes(n),
{
    let buf = write_u16_le(n);
    out.push(buf[0]);
    out.push(buf[1]);
    assert(out@ =~= old(out)@ + spec_u16_le_bytes(n));
}

/// Appends the four bytes of `n` to `out`.
pub fn put_u32_le(out: &mut Vec<u8>, n: u32)
    ensures
        final(out)@ == old(out)@ + spec_u32_le_bytes(n),
{
    let buf = write_u32_le(n);
    out.push(buf[0]);
    out.push(buf[1]);
    out.push(buf[2]);
    out.push(buf[3]);
    assert(out@ =~= old(out)@ + spec_u32_le_bytes(n));
}

/// Reads the two bytes of `bytes` from `at` on as a number.
pub fn get_u16_le(bytes: &[u8], at: usize) -> (n: u16)
    requires
        at + 2 <= bytes.len(),
    ensures
        n == spec_u16_le(bytes@.subrange(at as int, at + 2)),
{
    read_u16_le(&bytes[at..at + 2])
}

/// Reads the four bytes of `bytes` from `at` on as a number.
pub fn get_u32_le(bytes: &[u8], at: usize) -> (n: u32)
    requires
        at + 4 <= bytes.len(),
    ensures
        n == spec_u32_le(bytes@.subrange(at as int, at + 4)),
{
    read_u32_le(&bytes[at..at + 4])
}

/// The two bytes written for a number read back as that number.
pub proof fn lemma_u16_le_read_back(n: u16)
    ensures
        spec_u16_le_bytes(n).len() == 2,
        spec_u16_le(spec_u16_le_bytes(n)) == n,
{
}

/// The four bytes written for a number read back as that number.
pub proof fn lemma_u32_le_read_back(n: u32)
    ensures
        spec_u32_le_bytes(n).len() == 4,
        spec_u32_le(spec_u32_le_bytes(n)) == n,
{
}

} // verus!
