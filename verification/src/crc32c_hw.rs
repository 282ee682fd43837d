//! The block-interleaved engine: 64-bit word steps over three independent
//! sub-regions per block, merged with a nibble-indexed shift table that
//! advances a register past a whole block of zero bytes.

use vstd::prelude::*;

use crate::model::crc32c_update_spec;
use crate::model::crc_fold;
use crate::model::crc_zeros;
use crate::model::lemma_fold_snoc;
use crate::model::lemma_fold_split;
use crate::model::lemma_fold_xor;
use crate::model::lemma_zeros_xor;
use crate::tables::build_byte_table;
use crate::tables::build_shift_table;
use crate::tables::byte_table_ok;
use crate::tables::shift_table_ok;
use crate::tables::table_byte_step;
use crate::words::read_u64_le;

verus! {

/// Block lengths of the three passes, each a multiple of eight, processed
/// three sub-regions at a time from the longest to the shortest.
pub const BLOCK_0_LEN: usize = 5440;

pub const BLOCK_1_LEN: usize = 1360;

pub const BLOCK_2_LEN: usize = 336;

/// Eight data bytes folded into the register, read as one little-endian
/// 64-bit word.
fn compute_u64(bt: &Vec<u32>, crc: u32, buf: &[u8], pos: usize) -> (r: u32)
    requires
        byte_table_ok(bt@),
        pos + 8 <= buf@.len(),
    ensures
        r == crc_fold(crc, buf@.subrange(pos as int, pos as int + 8)),
{
    let w = read_u64_le(buf, pos);
    let ghost s = buf@.subrange(pos as int, pos as int + 8);
    proof {
        let b0 = s[0];
        let b1 = s[1];
        let b2 = s[2];
        let b3 = s[3];
        let b4 = s[4];
        let b5 = s[5];
        let b6 = s[6];
        let b7 = s[7];
        assert((w & 0xff) as u8 == b0 && ((w >> 8) & 0xff) as u8 == b1 && ((w >> 16) & 0xff) as u8
            == b2 && ((w >> 24) & 0xff) as u8 == b3 && ((w >> 32) & 0xff) as u8 == b4 && ((w >> 40)
            & 0xff) as u8 == b5 && ((w >> 48) & 0xff) as u8 == b6 && ((w >> 56) & 0xff) as u8
            == b7) by (bit_vector)
            requires
                w == (((b0 as u64) | ((b1 as u64) << 8)) | (((b2 as u64) << 16) | ((b3 as u64)
                    << 24))) | ((((b4 as u64) << 32) | ((b5 as u64) << 40)) | (((b6 as u64) << 48)
                    | ((b7 as u64) << 56))),
        ;
    }
    let c0 = table_byte_step(bt, crc, (w & 0xff) as u8);
    let c1 = table_byte_step(bt, c0, ((w >> 8) & 0xff) as u8);
    let c2 = table_byte_step(bt, c1, ((w >> 16) & 0xff) as u8);
    let c3 = table_byte_step(bt, c2, ((w >> 24) & 0xff) as u8);
    let c4 = table_byte_step(bt, c3, ((w >> 32) & 0xff) as u8);
    let c5 = table_byte_step(bt, c4, ((w >> 40) & 0xff) as u8);
    let c6 = table_byte_step(bt, c5, ((w >> 48) & 0xff) as u8);
    let c7 = table_byte_step(bt, c6, ((w >> 56) & 0xff) as u8);
    proof {
        assert(crc_fold(crc, s.subrange(0, 0)) == crc);
        lemma_fold_snoc(crc, s, 0);
        assert(c0 == crc_fold(crc, s.subrange(0, 1)));
        lemma_fold_snoc(crc, s, 1);
        assert(c1 == crc_fold(crc, s.subrange(0, 2)));
        lemma_fold_snoc(crc, s, 2);
        assert(c2 == crc_fold(crc, s.subrange(0, 3)));
        lemma_fold_snoc(crc, s, 3);
        assert(c3 == crc_fold(crc, s.subrange(0, 4)));
        lemma_fold_snoc(crc, s, 4);
        assert(c4 == crc_fold(crc, s.subrange(0, 5)));
        lemma_fold_snoc(crc, s, 5);
        assert(c5 == crc_fold(crc, s.subrange(0, 6)));
        lemma_fold_snoc(crc, s, 6);
        assert(c6 == crc_fold(crc, s.subrange(0, 7)));
        lemma_fold_snoc(crc, s, 7);
        assert(c7 == crc_fold(crc, s.subrange(0, 8)));
        assert(s.subrange(0, 8) =~= s);
    }
    c7
}

/// Advance a register past a whole block of zero bytes: XOR the shift-table
/// rows picked by the register's eight nibbles.
fn shift(crc: u32, st: &Vec<u32>, Ghost(l): Ghost<nat>) -> (r: u32)
    requires
        shift_table_ok(st@, l),
    ensures
        r == crc_zeros(crc, l),
{
    let i0 = (crc & 0xf) as usize;
    let i1 = ((crc >> 4) & 0xf) as usize;
    let i2 = ((crc >> 8) & 0xf) as usize;
    let i3 = ((crc >> 12) & 0xf) as usize;
    let i4 = ((crc >> 16) & 0xf) as usize;
    let i5 = ((crc >> 20) & 0xf) as usize;
    let i6 = ((crc >> 24) & 0xf) as usize;
    let i7 = ((crc >> 28) & 0xf) as usize;
    proof {
        assert((crc & 0xf) < 16 && ((crc >> 4) & 0xf) < 16 && ((crc >> 8) & 0xf) < 16 && ((crc
            >> 12) & 0xf) < 16 && ((crc >> 16) & 0xf) < 16 && ((crc >> 20) & 0xf) < 16 && ((crc
            >> 24) & 0xf) < 16 && ((crc >> 28) & 0xf) < 16) by (bit_vector);
        assert(((crc & 0xf) as usize) as u32 == crc & 0xf && (((crc >> 4) & 0xf) as usize) as u32
            == (crc >> 4) & 0xf && (((crc >> 8) & 0xf) as usize) as u32 == (crc >> 8) & 0xf && (((
        crc >> 12) & 0xf) as usize) as u32 == (crc >> 12) & 0xf && (((crc >> 16) & 0xf)
            as usize) as u32 == (crc >> 16) & 0xf && (((crc >> 20) & 0xf) as usize) as u32 == (crc
            >> 20) & 0xf && (((crc >> 24) & 0xf) as usize) as u32 == (crc >> 24) & 0xf && (((crc
            >> 28) & 0xf) as usize) as u32 == (crc >> 28) & 0xf) by (bit_vector);
        let g0 = (crc & 0xf) << 0u32;
        let g1 = ((crc >> 4) & 0xf) << 4u32;
        let g2 = ((crc >> 8) & 0xf) << 8u32;
        let g3 = ((crc >> 12) & 0xf) << 12u32;
        let g4 = ((crc >> 16) & 0xf) << 16u32;
        let g5 = ((crc >> 20) & 0xf) << 20u32;
        let g6 = ((crc >> 24) & 0xf) << 24u32;
        let g7 = ((crc >> 28) & 0xf) << 28u32;
        assert(crc == (((crc & 0xf) << 0u32 ^ ((crc >> 4) & 0xf) << 4u32) ^ (((crc >> 8) & 0xf)
            << 8u32 ^ ((crc >> 12) & 0xf) << 12u32)) ^ ((((crc >> 16) & 0xf) << 16u32 ^ ((crc
            >> 20) & 0xf) << 20u32) ^ (((crc >> 24) & 0xf) << 24u32 ^ ((crc >> 28) & 0xf)
            << 28u32))) by (bit_vector);
        lemma_zeros_xor((g0 ^ g1) ^ (g2 ^ g3), (g4 ^ g5) ^ (g6 ^ g7), l);
        lemma_zeros_xor(g0 ^ g1, g2 ^ g3, l);
        lemma_zeros_xor(g4 ^ g5, g6 ^ g7, l);
        lemma_zeros_xor(g0, g1, l);
        lemma_zeros_xor(g2, g3, l);
        lemma_zeros_xor(g4, g5, l);
        lemma_zeros_xor(g6, g7, l);
    }
    ((st[i0] ^ st[16 + i1]) ^ (st[32 + i2] ^ st[48 + i3])) ^ ((st[64 + i4] ^ st[80 + i5]) ^ (st[96
        + i6] ^ st[112 + i7]))
}

/// Run one block size to exhaustion: while three whole blocks remain, fold
/// them as three independent word-stepped registers and merge the three
/// partial results with two shift-and-XOR steps.
fn block_pass(bt: &Vec<u32>, st: &Vec<u32>, l: usize, crc: u32, buf: &[u8], pos: usize) -> (res: (
    u32,
    usize,
))
    requires
        byte_table_ok(bt@),
        shift_table_ok(st@, l as nat),
        l % 8 == 0,
        8 <= l && l <= 100000,
        pos <= buf@.len(),
    ensures
        pos <= res.1 && res.1 <= buf@.len(),
        (res.1 - pos) % 8 == 0,
        buf@.len() - res.1 < 3 * l,
        res.0 == crc_fold(crc, buf@.subrange(pos as int, res.1 as int)),
{
    let n = buf.len();
    let mut c = crc;
    let mut p = pos;
    proof {
        assert(buf@.subrange(pos as int, pos as int) =~= Seq::<u8>::empty());
    }
    while n - p >= 3 * l
        invariant
            n == buf@.len(),
            byte_table_ok(bt@),
            shift_table_ok(st@, l as nat),
            l % 8 == 0,
            8 <= l && l <= 100000,
            pos <= p && p <= n,
            (p - pos) % 8 == 0,
            c == crc_fold(crc, buf@.subrange(pos as int, p as int)),
        decreases n - p,
    {
        let mut c0 = c;
        let mut c1: u32 = 0;
        let mut c2: u32 = 0;
        let mut off: usize = 0;
        proof {
            assert(buf@.subrange(p as int, p as int) =~= Seq::<u8>::empty());
            assert(buf@.subrange(p as int + l, p as int + l) =~= Seq::<u8>::empty());
            assert(buf@.subrange(p as int + 2 * l, p as int + 2 * l) =~= Seq::<u8>::empty());
        }
        while off < l
            invariant
                n == buf@.len(),
                byte_table_ok(bt@),
                l % 8 == 0,
                8 <= l && l <= 100000,
                off <= l,
                off % 8 == 0,
                p + 3 * l <= n,
                c0 == crc_fold(c, buf@.subrange(p as int, p as int + off)),
                c1 == crc_fold(0, buf@.subrange(p as int + l, p as int + l + off)),
                c2 == crc_fold(0, buf@.subrange(p as int + 2 * l, p as int + 2 * l + off)),
            decreases l - off,
        {
            let d0 = compute_u64(bt, c0, buf, p + off);
            let d1 = compute_u64(bt, c1, buf, p + l + off);
            let d2 = compute_u64(bt, c2, buf, p + 2 * l + off);
            proof {
                lemma_fold_split(c, buf@, p as int, p as int + off, p as int + off + 8);
                lemma_fold_split(0, buf@, p as int + l, p as int + l + off, p as int + l + off + 8);
                lemma_fold_split(
                    0,
                    buf@,
                    p as int + 2 * l,
                    p as int + 2 * l + off,
                    p as int + 2 * l + off + 8,
                );
            }
            c0 = d0;
            c1 = d1;
            c2 = d2;
            off += 8;
        }
        let t1 = shift(c0, st, Ghost(l as nat)) ^ c1;
        let t2 = shift(t1, st, Ghost(l as nat)) ^ c2;
        proof {
            let r0 = buf@.subrange(p as int, p as int + l);
            let r1 = buf@.subrange(p as int + l, p as int + 2 * l);
            let r2 = buf@.subrange(p as int + 2 * l, p as int + 3 * l);
            assert(buf@.subrange(p as int + l, p as int + l + l) =~= r1);
            assert(buf@.subrange(p as int + 2 * l, p as int + 2 * l + l) =~= r2);
            // the register after the first region, carried over the second
            lemma_fold_split(c, buf@, p as int, p as int + l, p as int + 2 * l);
            assert(0u32 ^ c0 == c0) by (bit_vector);
            lemma_fold_xor(0, c0, r1);
            let zz1 = crc_zeros(c0, l as nat);
            assert(zz1 ^ c1 == c1 ^ zz1) by (bit_vector);
            assert(t1 == crc_fold(c, buf@.subrange(p as int, p as int + 2 * l)));
            // and over the third
            lemma_fold_split(c, buf@, p as int, p as int + 2 * l, p as int + 3 * l);
            assert(0u32 ^ t1 == t1) by (bit_vector);
            lemma_fold_xor(0, t1, r2);
            let zz2 = crc_zeros(t1, l as nat);
            assert(zz2 ^ c2 == c2 ^ zz2) by (bit_vector);
            assert(t2 == crc_fold(c, buf@.subrange(p as int, p as int + 3 * l)));
            lemma_fold_split(crc, buf@, pos as int, p as int, p as int + 3 * l);
        }
        c = t2;
        p += 3 * l;
    }
    (c, p)
}

/// The block-interleaved update: byte steps until the remaining length is a
/// multiple of eight, three block passes from the longest block to the
/// shortest, and whole-word steps for the rest.
pub fn crc32c_update(crc: u32, buf: &[u8]) -> (r: u32)
    ensures
        r == crc32c_update_spec(crc, buf@),
{
    let bt = build_byte_table();
    let n = buf.len();
    let mut c = !crc;
    let mut pos: usize = 0;
    while (n - pos) % 8 != 0
        invariant
            n == buf@.len(),
            pos <= n,
            byte_table_ok(bt@),
            c == crc_fold(!crc, buf@.subrange(0, pos as int)),
        decreases n - pos,
    {
        c = table_byte_step(&bt, c, buf[pos]);
        proof {
            lemma_fold_snoc(!crc, buf@, pos as int);
        }
        pos += 1;
    }
    if n - pos >= 3 * BLOCK_0_LEN {
        let st = build_shift_table(&bt, BLOCK_0_LEN);
        let res = block_pass(&bt, &st, BLOCK_0_LEN, c, buf, pos);
        proof {
            lemma_fold_split(!crc, buf@, 0, pos as int, res.1 as int);
        }
        c = res.0;
        pos = res.1;
    }
    if n - pos >= 3 * BLOCK_1_LEN {
        let st = build_shift_table(&bt, BLOCK_1_LEN);
        let res = block_pass(&bt, &st, BLOCK_1_LEN, c, buf, pos);
        proof {
            lemma_fold_split(!crc, buf@, 0, pos as int, res.1 as int);
        }
        c = res.0;
        pos = res.1;
    }
    if n - pos >= 3 * BLOCK_2_LEN {
        let st = build_shift_table(&bt, BLOCK_2_LEN);
        let res = block_pass(&bt, &st, BLOCK_2_LEN, c, buf, pos);
        proof {
            lemma_fold_split(!crc, buf@, 0, pos as int, res.1 as int);
        }
        c = res.0;
        pos = res.1;
    }
    while n - pos >= 8
        invariant
            n == buf@.len(),
            pos <= n,
            (n - pos) % 8 == 0,
            byte_table_ok(bt@),
            c == crc_fold(!crc, buf@.subrange(0, pos as int)),
        decreases n - pos,
    {
        c = compute_u64(&bt, c, buf, pos);
        proof {
            lemma_fold_split(!crc, buf@, 0, pos as int, pos as int + 8);
        }
        pos += 8;
    }
    proof {
        assert(pos == n);
        assert(buf@.subrange(0, n as int) =~= buf@);
    }
    !c
}

} // verus!
