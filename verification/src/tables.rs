//! Lookup tables for the two engines, built at run time by verified code:
//! the 256-entry byte table, the four stride tables of the slicing-by-4
//! engine, and the nibble-indexed shift tables that advance a register past
//! a fixed number of zero bytes.

use vstd::prelude::*;

use crate::model::bits8;
use crate::model::byte_step;
use crate::model::crc_zeros;
use crate::model::lemma_zeros_add;
use crate::model::lemma_zeros_of_zero;
use crate::model::lemma_zeros_xor;

verus! {

/// The byte table holds the result of one byte of polynomial division for
/// every starting register value below 256.
pub open spec fn byte_table_ok(t: Seq<u32>) -> bool {
    t.len() == 256 && (forall|i: int| 0 <= i < 256 ==> t[i] == bits8(i as u32))
}

/// A stride table, for a byte position `sh` bits up the register, holds the
/// 16-zero-byte extension of every byte value at that position.
pub open spec fn stride_table_ok(t: Seq<u32>, sh: u32) -> bool {
    t.len() == 256 && (forall|i: int| 0 <= i < 256 ==> t[i] == crc_zeros((i as u32) << sh, 16))
}

/// A shift table for block length `l`, stored row-major: entry `16*i + n`
/// holds the `l`-zero-byte extension of nibble value `n` placed `4*i` bits
/// up the register.
pub open spec fn shift_table_ok(t: Seq<u32>, l: nat) -> bool {
    t.len() == 128 && (forall|k: int|
        0 <= k < 128 ==> t[k] == crc_zeros(((k % 16) as u32) << ((4 * (k / 16)) as u32), l))
}

/// Builds the byte table by running eight bit steps from each byte value.
pub fn build_byte_table() -> (t: Vec<u32>)
    ensures
        byte_table_ok(t@),
{
    let mut t: Vec<u32> = Vec::new();
    let mut i: usize = 0;
    while i < 256
        invariant
            i <= 256,
            t@.len() == i,
            forall|j: int| 0 <= j < i ==> t@[j] == bits8(j as u32),
        decreases 256 - i,
    {
        let x0: u32 = i as u32;
        let x1 = (x0 >> 1) ^ (if x0 & 1 == 1 { 0x82F63B78u32 } else { 0u32 });
        let x2 = (x1 >> 1) ^ (if x1 & 1 == 1 { 0x82F63B78u32 } else { 0u32 });
        let x3 = (x2 >> 1) ^ (if x2 & 1 == 1 { 0x82F63B78u32 } else { 0u32 });
        let x4 = (x3 >> 1) ^ (if x3 & 1 == 1 { 0x82F63B78u32 } else { 0u32 });
        let x5 = (x4 >> 1) ^ (if x4 & 1 == 1 { 0x82F63B78u32 } else { 0u32 });
        let x6 = (x5 >> 1) ^ (if x5 & 1 == 1 { 0x82F63B78u32 } else { 0u32 });
        let x7 = (x6 >> 1) ^ (if x6 & 1 == 1 { 0x82F63B78u32 } else { 0u32 });
        let x8 = (x7 >> 1) ^ (if x7 & 1 == 1 { 0x82F63B78u32 } else { 0u32 });
        assert(x8 == bits8(i as u32));
        t.push(x8);
        i += 1;
    }
    t
}

/// One byte step of the running register, through the byte table.
pub fn table_byte_step(bt: &Vec<u32>, crc: u32, b: u8) -> (r: u32)
    requires
        byte_table_ok(bt@),
    ensures
        r == byte_step(crc, b),
{
    let idx: usize = ((crc ^ (b as u32)) & 0xff) as usize;
    proof {
        assert(((crc ^ (b as u32)) & 0xff) < 256) by (bit_vector);
        assert((((crc ^ (b as u32)) & 0xff) as usize) as u32 == (crc ^ (b as u32))
            & 0xff) by (bit_vector);
        assert(byte_step(crc, b) == (crc >> 8) ^ bits8((crc ^ (b as u32)) & 0xff)) by (bit_vector);
    }
    (crc >> 8) ^ bt[idx]
}

/// Advance a register past `n` zero bytes, one table step at a time.
pub fn apply_zeros(bt: &Vec<u32>, x: u32, n: usize) -> (r: u32)
    requires
        byte_table_ok(bt@),
    ensures
        r == crc_zeros(x, n as nat),
{
    let mut v = x;
    let mut i: usize = 0;
    while i < n
        invariant
            i <= n,
            byte_table_ok(bt@),
            v == crc_zeros(x, i as nat),
        decreases n - i,
    {
        v = table_byte_step(bt, v, 0);
        proof {
            lemma_zeros_add(x, i as nat, 1);
            let y = crc_zeros(x, i as nat);
            assert(crc_zeros(y, 1) == crc_zeros(byte_step(y, 0), 0));
            assert(crc_zeros(byte_step(y, 0), 0) == byte_step(y, 0));
        }
        i += 1;
    }
    v
}

/// Builds one stride table: the 16-zero-byte extension of each byte value
/// placed `sh` bits up the register.
pub fn build_stride_table(bt: &Vec<u32>, sh: u32) -> (t: Vec<u32>)
    requires
        byte_table_ok(bt@),
        sh <= 24,
    ensures
        stride_table_ok(t@, sh),
{
    let mut t: Vec<u32> = Vec::new();
    let mut i: usize = 0;
    while i < 256
        invariant
            i <= 256,
            sh <= 24,
            byte_table_ok(bt@),
            t@.len() == i,
            forall|j: int| 0 <= j < i ==> t@[j] == crc_zeros((j as u32) << sh, 16),
        decreases 256 - i,
    {
        let start: u32 = (i as u32) << sh;
        let v = apply_zeros(bt, start, 16);
        t.push(v);
        i += 1;
    }
    t
}

/// Builds the shift table for block length `l`. Each row's sixteen entries
/// are assembled, by GF(2) linearity of zero-extension, from the four
/// extensions of the row's single-bit register values.
pub fn build_shift_table(bt: &Vec<u32>, l: usize) -> (t: Vec<u32>)
    requires
        byte_table_ok(bt@),
    ensures
        shift_table_ok(t@, l as nat),
{
    let mut t: Vec<u32> = Vec::new();
    let mut i: usize = 0;
    while i < 8
        invariant
            i <= 8,
            byte_table_ok(bt@),
            t@.len() == 16 * i,
            forall|k: int|
                0 <= k < 16 * i ==> t@[k] == crc_zeros(
                    ((k % 16) as u32) << ((4 * (k / 16)) as u32),
                    l as nat,
                ),
        decreases 8 - i,
    {
        let sh: u32 = 4 * (i as u32);
        let b0 = apply_zeros(bt, 1u32 << sh, l);
        let b1 = apply_zeros(bt, (1u32 << sh) << 1, l);
        let b2 = apply_zeros(bt, (1u32 << sh) << 2, l);
        let b3 = apply_zeros(bt, (1u32 << sh) << 3, l);
        let mut n: usize = 0;
        while n < 16
            invariant
                n <= 16,
                i < 8,
                sh == 4 * (i as u32),
                byte_table_ok(bt@),
                b0 == crc_zeros(1u32 << sh, l as nat),
                b1 == crc_zeros((1u32 << sh) << 1, l as nat),
                b2 == crc_zeros((1u32 << sh) << 2, l as nat),
                b3 == crc_zeros((1u32 << sh) << 3, l as nat),
                t@.len() == 16 * i + n,
                forall|k: int|
                    0 <= k < 16 * i + n ==> t@[k] == crc_zeros(
                        ((k % 16) as u32) << ((4 * (k / 16)) as u32),
                        l as nat,
                    ),
            decreases 16 - n,
        {
            let nv: u32 = n as u32;
            let v = ((if nv & 1 == 1 {
                b0
            } else {
                0u32
            }) ^ (if nv & 2 == 2 {
                b1
            } else {
                0u32
            })) ^ ((if nv & 4 == 4 {
                b2
            } else {
                0u32
            }) ^ (if nv & 8 == 8 {
                b3
            } else {
                0u32
            }));
            proof {
                let g0 = if nv & 1 == 1 { 1u32 << sh } else { 0u32 };
                let g1 = if nv & 2 == 2 { (1u32 << sh) << 1 } else { 0u32 };
                let g2 = if nv & 4 == 4 { (1u32 << sh) << 2 } else { 0u32 };
                let g3 = if nv & 8 == 8 { (1u32 << sh) << 3 } else { 0u32 };
                assert(nv << sh == (g0 ^ g1) ^ (g2 ^ g3)) by (bit_vector)
                    requires
                        nv < 16,
                        sh <= 28,
                        g0 == (if nv & 1 == 1 { 1u32 << sh } else { 0u32 }),
                        g1 == (if nv & 2 == 2 { (1u32 << sh) << 1 } else { 0u32 }),
                        g2 == (if nv & 4 == 4 { (1u32 << sh) << 2 } else { 0u32 }),
                        g3 == (if nv & 8 == 8 { (1u32 << sh) << 3 } else { 0u32 }),
                ;
                lemma_zeros_xor(g0 ^ g1, g2 ^ g3, l as nat);
                lemma_zeros_xor(g0, g1, l as nat);
                lemma_zeros_xor(g2, g3, l as nat);
                lemma_zeros_of_zero(l as nat);
                assert(v == crc_zeros(nv << sh, l as nat));
                let k = 16 * i + n;
                assert((k as int) % 16 == n && (k as int) / 16 == i);
                assert((nv << sh) == (((k as int) % 16) as u32) << ((4 * ((k as int) / 16)) as u32));
            }
            t.push(v);
            n += 1;
        }
        i += 1;
    }
    t
}

} // verus!
