//! Little-endian word reads from a byte slice, done by the byteorder crate.

use vstd::prelude::*;

use crate::model::le32;
use crate::model::le64;

verus! {

/// Relies on byteorder::LittleEndian::read_u32: the first four bytes of the
/// given slice as a little-endian 32-bit integer (it panics on a shorter
/// slice, which the precondition rules out).
#[verifier::external_body]
pub(crate) fn read_u32_le(buf: &[u8], pos: usize) -> (r: u32)
    requires
        pos + 4 <= buf@.len(),
    ensures
        r == le32(buf@.subrange(pos as int, pos as int + 4)),
{
    <byteorder::LittleEndian as byteorder::ByteOrder>::read_u32(&buf[pos..pos + 4])
}

/// Relies on byteorder::LittleEndian::read_u64: the first eight bytes of the
/// given slice as a little-endian 64-bit integer (it panics on a shorter
/// slice, which the precondition rules out).
#[verifier::external_body]
pub(crate) fn read_u64_le(buf: &[u8], pos: usize) -> (r: u64)
    requires
        pos + 8 <= buf@.len(),
    ensures
        r == le64(buf@.subrange(pos as int, pos as int + 8)),
{
    <byteorder::LittleEndian as byteorder::ByteOrder>::read_u64(&buf[pos..pos + 8])
}

} // verus!
