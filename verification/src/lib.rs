//! CRC32C (Castagnoli) checksums over byte slices, with incremental updates.
//!
//! Two engines compute the same function: a slicing-by-4 table-driven engine
//! and a block-interleaved engine that merges partial checksums with a
//! table-based shift operator. Both are verified against one bit-level model
//! of the CRC32C polynomial division.

use vstd::prelude::*;

pub mod crc32c_hw;
pub mod crc32c_sw;
mod model;
mod tables;
mod words;

pub use model::crc32c_spec;
pub use model::crc32c_update_spec;
pub use model::lemma_chunked_compute;
pub use model::lemma_update_spec_append;
pub use model::lemma_update_spec_empty;

verus! {

/// Computes the CRC32C for the data.
pub fn compute(buf: &[u8]) -> (r: u32)
    ensures
        r == crc32c_spec(buf@),
{
    crc32c_hw::crc32c_update(0, buf)
}

/// Computes the CRC32C for the data, starting with a previous CRC32C value.
pub fn update(crc: u32, buf: &[u8]) -> (r: u32)
    ensures
        r == crc32c_update_spec(crc, buf@),
{
    crc32c_hw::crc32c_update(crc, buf)
}

/// A running CRC32C accumulator: state that changes as data is written.
#[derive(Debug, Copy, Clone, PartialEq, Eq, Structural)]
pub struct Digest(pub u32);

impl Digest {
    /// Creates a new digest from a CRC32C value.
    pub fn new(crc: u32) -> (d: Digest)
        ensures
            d.0 == crc,
    {
        Digest(crc)
    }

    /// Feeds more data into the digest.
    pub fn write(&mut self, buf: &[u8])
        ensures
            final(self).0 == crc32c_update_spec(old(self).0, buf@),
    {
        self.0 = update(self.0, buf);
    }

    /// The accumulated CRC32C value, widened to 64 bits.
    pub fn finish(&self) -> (r: u64)
        ensures
            r == self.0 as u64,
    {
        self.0 as u64
    }
}

impl Default for Digest {
    /// The digest of no data at all.
    fn default() -> (d: Digest)
        ensures
            d.0 == 0,
    {
        Digest(0)
    }
}

} // verus!
