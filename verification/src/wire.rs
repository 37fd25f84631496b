//! Little-endian integer fields in byte buffers.

use vstd::bytes::{spec_u32_from_le_bytes, spec_u32_to_le_bytes, spec_u64_from_le_bytes, spec_u64_to_le_bytes};
use vstd::prelude::*;

verus! {

/// `byteorder::WriteBytesExt::write_u8` on a byte vector: appends `v`.
/// Writing into a vector cannot fail.
#[verifier::external_body]
pub(crate) fn write_u8(buf: &mut Vec<u8>, v: u8) -> (r: Result<(), std::io::Error>)
    ensures
        r is Ok,
        final(buf)@ == old(buf)@.push(v),
{
    byteorder::WriteBytesExt::write_u8(buf, v)
}

/// `byteorder::WriteBytesExt::write_u32` in little-endian order on a byte vector:
/// appends the four bytes of `v`, lowest first. Writing into a vector cannot fail.
#[verifier::external_body]
pub(crate) fn write_u32_le(buf: &mut Vec<u8>, v: u32) -> (r: Result<(), std::io::Error>)
    ensures
        r is Ok,
        final(buf)@ == old(buf)@ + spec_u32_to_le_bytes(v),
{
    byteorder::WriteBytesExt::write_u32::<byteorder::LittleEndian>(buf, v)
}

/// `byteorder::WriteBytesExt::write_u64` in little-endian order on a byte vector:
/// appends the eight bytes of `v`, lowest first. Writing into a vector cannot fail.
#[verifier::external_body]
pub(crate) fn write_u64_le(buf: &mut Vec<u8>, v: u64) -> (r: Result<(), std::io::Error>)
    ensures
        r is Ok,
        final(buf)@ == old(buf)@ + spec_u64_to_le_bytes(v),
{
    byteorder::WriteBytesExt::write_u64::<byteorder::LittleEndian>(buf, v)
}

/// `byteorder::ReadBytesExt::read_u8` on the bytes of `buf` from `pos` on:
/// the byte at `pos`, or an error where none is left.
#[verifier::external_body]
pub(crate) fn read_u8(buf: &[u8], pos: usize) -> (r: Result<u8, std::io::Error>)
    requires
        pos <= buf@.len(),
    ensures
        pos + 1 <= buf@.len() ==> r is Ok && r->Ok_0 == buf@[pos as int],
        pos + 1 > buf@.len() ==> r is Err,
{
    let mut rest: &[u8] = &buf[pos..];
    byteorder::ReadBytesExt::read_u8(&mut rest)
}

/// `byteorder::ReadBytesExt::read_u32` in little-endian order on the bytes of `buf`
/// from `pos` on: the number that the next four bytes spell, lowest first, or an
/// error where fewer than four are left.
#[verifier::external_body]
pub(crate) fn read_u32_le(buf: &[u8], pos: usize) -> (r: Result<u32, std::io::Error>)
    requires
        pos <= buf@.len(),
    ensures
        pos + 4 <= buf@.len() ==> r is Ok && r->Ok_0 == spec_u32_from_le_bytes(
            buf@.subrange(pos as int, pos + 4),
        ),
        pos + 4 > buf@.len() ==> r is Err,
{
    let mut rest: &[u8] = &buf[pos..];
    byteorder::ReadBytesExt::read_u32::<byteorder::LittleEndian>(&mut rest)
}

/// `byteorder::ReadBytesExt::read_u64` in little-endian order on the bytes of `buf`
/// from `pos` on: the number that the next eight bytes spell, lowest first, or an
/// error where fewer than eight are left.
#[verifier::external_body]
pub(crate) fn read_u64_le(buf: &[u8], pos: usize) -> (r: Result<u64, std::io::Error>)
    requires
        pos <= buf@.len(),
    ensures
        pos + 8 <= buf@.len() ==> r is Ok && r->Ok_0 == spec_u64_from_le_bytes(
            buf@.subrange(pos as int, pos + 8),
        ),
        pos + 8 > buf@.len() ==> r is Err,
{
    let mut rest: &[u8] = &buf[pos..];
    byteorder::ReadBytesExt::read_u64::<byteorder::LittleEndian>(&mut rest)
}

/// `std::io::Error::new` with the kind `InvalidInput`: an error that says `reason`.
#[verifier::external_body]
pub(crate) fn invalid_input(reason: &'static str) -> std::io::Error {
    std::io::Error::new(std::io::ErrorKind::InvalidInput, reason)
}

/// Appends `data` to `buf`.
pub(crate) fn write_all(buf: &mut Vec<u8>, data: &[u8])
    ensures
        final(buf)@ == old(buf)@ + data@,
{
    let mut i: usize = 0;
    while i < data.len()
        invariant
            i <= data@.len(),
            buf@ == old(buf)@ + data@.subrange(0, i as int),
        decreases data@.len() - i,
    {
        buf.push(data[i]);
        i += 1;
        assert(data@.subrange(0, i as int) == data@.subrange(0, i - 1).push(data@[i - 1]));
    }
    assert(data@.subrange(0, i as int) == data@);
}

} // verus!
