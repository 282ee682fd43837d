//! The table-driven engine: slicing-by-4 with four interleaved lanes, pure
//! table lookups.

use vstd::prelude::*;

use crate::model::byte_step;
use crate::model::crc32c_update_spec;
use crate::model::crc_fold;
use crate::model::crc_zeros;
use crate::model::le32;
use crate::model::lemma_fold_snoc;
use crate::model::lemma_fold_split;
use crate::model::lemma_word_inject;
use crate::model::lemma_zeros_add;
use crate::model::lemma_zeros_xor;
use crate::tables::build_byte_table;
use crate::tables::build_stride_table;
use crate::tables::byte_table_ok;
use crate::tables::stride_table_ok;
use crate::tables::table_byte_step;
use crate::words::read_u32_le;

verus! {

/// The register value that four lanes stand for: each lane, zero-extended
/// past the data that the lanes behind it still cover, XORed together.
pub open spec fn lanes_val(c0: u32, c1: u32, c2: u32, c3: u32) -> u32 {
    (crc_zeros(c0, 16) ^ crc_zeros(c1, 12)) ^ (crc_zeros(c2, 8) ^ crc_zeros(c3, 4))
}

/// Loading four words from 16 data bytes, the first XORed with the incoming
/// register, yields lanes standing for the register folded over those bytes.
proof fn lemma_lanes_init(crc: u32, s: Seq<u8>)
    requires
        s.len() == 16,
    ensures
        crc_fold(crc, s) == lanes_val(
            crc ^ le32(s.subrange(0, 4)),
            le32(s.subrange(4, 8)),
            le32(s.subrange(8, 12)),
            le32(s.subrange(12, 16)),
        ),
{
    let p0 = s.subrange(0, 4);
    let p1 = s.subrange(4, 8);
    let p2 = s.subrange(8, 12);
    let p3 = s.subrange(12, 16);
    let w1 = le32(p1);
    let w2 = le32(p2);
    let w3 = le32(p3);
    assert(s.subrange(0, 16) =~= s);
    lemma_fold_split(crc, s, 0, 4, 16);
    let u1 = crc_fold(crc, p0);
    lemma_fold_split(u1, s, 4, 8, 16);
    let u2 = crc_fold(u1, p1);
    lemma_fold_split(u2, s, 8, 12, 16);
    let u3 = crc_fold(u2, p2);
    let u4 = crc_fold(u3, p3);
    assert(crc_fold(crc, s) == u4);
    lemma_word_inject(crc, p0);
    lemma_word_inject(u1, p1);
    lemma_word_inject(u2, p2);
    lemma_word_inject(u3, p3);
    let a = crc ^ le32(p0);
    // u1 == z(a,4); unfold u2
    lemma_zeros_xor(u1, w1, 4);
    lemma_zeros_add(a, 4, 4);
    assert(u2 == crc_zeros(a, 8) ^ crc_zeros(w1, 4));
    // u3
    lemma_zeros_xor(u2, w2, 4);
    lemma_zeros_xor(crc_zeros(a, 8), crc_zeros(w1, 4), 4);
    lemma_zeros_add(a, 8, 4);
    lemma_zeros_add(w1, 4, 4);
    assert(u3 == (crc_zeros(a, 12) ^ crc_zeros(w1, 8)) ^ crc_zeros(w2, 4));
    // u4
    lemma_zeros_xor(u3, w3, 4);
    lemma_zeros_xor(crc_zeros(a, 12) ^ crc_zeros(w1, 8), crc_zeros(w2, 4), 4);
    lemma_zeros_xor(crc_zeros(a, 12), crc_zeros(w1, 8), 4);
    lemma_zeros_add(a, 12, 4);
    lemma_zeros_add(w1, 8, 4);
    lemma_zeros_add(w2, 4, 4);
    let e0 = crc_zeros(a, 16);
    let e1 = crc_zeros(w1, 12);
    let e2 = crc_zeros(w2, 8);
    let e3 = crc_zeros(w3, 4);
    assert(u4 == ((e0 ^ e1) ^ e2) ^ e3);
    assert(((e0 ^ e1) ^ e2) ^ e3 == (e0 ^ e1) ^ (e2 ^ e3)) by (bit_vector);
}

/// One 16-byte step of the four-lane loop: folding 16 bytes onto the value
/// the lanes stand for matches advancing each lane by its stride lookup XOR
/// its next word.
proof fn lemma_lanes_step(c0: u32, c1: u32, c2: u32, c3: u32, s: Seq<u8>)
    requires
        s.len() == 16,
    ensures
        crc_fold(lanes_val(c0, c1, c2, c3), s) == lanes_val(
            le32(s.subrange(0, 4)) ^ crc_zeros(c0, 16),
            le32(s.subrange(4, 8)) ^ crc_zeros(c1, 16),
            le32(s.subrange(8, 12)) ^ crc_zeros(c2, 16),
            le32(s.subrange(12, 16)) ^ crc_zeros(c3, 16),
        ),
{
    let t = lanes_val(c0, c1, c2, c3);
    let w0 = le32(s.subrange(0, 4));
    let w1 = le32(s.subrange(4, 8));
    let w2 = le32(s.subrange(8, 12));
    let w3 = le32(s.subrange(12, 16));
    lemma_lanes_init(t, s);
    // expand z(t ^ w0, 16)
    lemma_zeros_xor(t, w0, 16);
    let z01 = crc_zeros(c0, 16) ^ crc_zeros(c1, 12);
    let z23 = crc_zeros(c2, 8) ^ crc_zeros(c3, 4);
    lemma_zeros_xor(z01, z23, 16);
    lemma_zeros_xor(crc_zeros(c0, 16), crc_zeros(c1, 12), 16);
    lemma_zeros_xor(crc_zeros(c2, 8), crc_zeros(c3, 4), 16);
    lemma_zeros_add(c0, 16, 16);
    lemma_zeros_add(c1, 12, 16);
    lemma_zeros_add(c2, 8, 16);
    lemma_zeros_add(c3, 4, 16);
    let h0 = crc_zeros(c0, 32);
    let h1 = crc_zeros(c1, 28);
    let h2 = crc_zeros(c2, 24);
    let h3 = crc_zeros(c3, 20);
    let f0 = crc_zeros(w0, 16);
    let f1 = crc_zeros(w1, 12);
    let f2 = crc_zeros(w2, 8);
    let f3 = crc_zeros(w3, 4);
    assert(crc_zeros(t, 16) == (h0 ^ h1) ^ (h2 ^ h3));
    assert(crc_fold(t, s) == ((crc_zeros(t, 16) ^ f0) ^ f1) ^ (f2 ^ f3));
    // expand the new lanes
    lemma_zeros_xor(w0, crc_zeros(c0, 16), 16);
    lemma_zeros_xor(w1, crc_zeros(c1, 16), 12);
    lemma_zeros_xor(w2, crc_zeros(c2, 16), 8);
    lemma_zeros_xor(w3, crc_zeros(c3, 16), 4);
    lemma_zeros_add(c1, 16, 12);
    lemma_zeros_add(c2, 16, 8);
    lemma_zeros_add(c3, 16, 4);
    assert(lanes_val(
        w0 ^ crc_zeros(c0, 16),
        w1 ^ crc_zeros(c1, 16),
        w2 ^ crc_zeros(c2, 16),
        w3 ^ crc_zeros(c3, 16),
    ) == ((f0 ^ h0) ^ (f1 ^ h1)) ^ ((f2 ^ h2) ^ (f3 ^ h3)));
    assert(((((h0 ^ h1) ^ (h2 ^ h3)) ^ f0) ^ f1) ^ (f2 ^ f3) == ((f0 ^ h0) ^ (f1 ^ h1)) ^ ((f2
        ^ h2) ^ (f3 ^ h3))) by (bit_vector);
}

/// One 4-byte step of the drain loop: folding one word onto the value the
/// lanes stand for matches rotating the lanes and refreshing the front lane.
proof fn lemma_lanes_drain(c0: u32, c1: u32, c2: u32, c3: u32, s: Seq<u8>)
    requires
        s.len() == 4,
    ensures
        crc_fold(lanes_val(c0, c1, c2, c3), s) == lanes_val(
            c1,
            c2,
            c3,
            le32(s) ^ crc_zeros(c0, 16),
        ),
{
    let t = lanes_val(c0, c1, c2, c3);
    let w = le32(s);
    lemma_word_inject(t, s);
    lemma_zeros_xor(t, w, 4);
    let z01 = crc_zeros(c0, 16) ^ crc_zeros(c1, 12);
    let z23 = crc_zeros(c2, 8) ^ crc_zeros(c3, 4);
    lemma_zeros_xor(z01, z23, 4);
    lemma_zeros_xor(crc_zeros(c0, 16), crc_zeros(c1, 12), 4);
    lemma_zeros_xor(crc_zeros(c2, 8), crc_zeros(c3, 4), 4);
    lemma_zeros_add(c0, 16, 4);
    lemma_zeros_add(c1, 12, 4);
    lemma_zeros_add(c2, 8, 4);
    lemma_zeros_add(c3, 4, 4);
    let k0 = crc_zeros(c0, 20);
    let k1 = crc_zeros(c1, 16);
    let k2 = crc_zeros(c2, 12);
    let k3 = crc_zeros(c3, 8);
    let kw = crc_zeros(w, 4);
    assert(crc_fold(t, s) == ((k0 ^ k1) ^ (k2 ^ k3)) ^ kw);
    lemma_zeros_xor(w, crc_zeros(c0, 16), 4);
    assert(lanes_val(c1, c2, c3, w ^ crc_zeros(c0, 16)) == (k1 ^ k2) ^ (k3 ^ (kw ^ k0)));
    assert(((k0 ^ k1) ^ (k2 ^ k3)) ^ kw == (k1 ^ k2) ^ (k3 ^ (kw ^ k0))) by (bit_vector);
}

/// Folding the four lanes into a scalar with four combine steps from zero
/// yields exactly the register value the lanes stand for.
proof fn lemma_combine_chain(c0: u32, c1: u32, c2: u32, c3: u32)
    ensures
        crc_zeros(crc_zeros(crc_zeros(crc_zeros(0 ^ c0, 4) ^ c1, 4) ^ c2, 4) ^ c3, 4) == lanes_val(
            c0,
            c1,
            c2,
            c3,
        ),
{
    assert(0u32 ^ c0 == c0) by (bit_vector);
    let r1 = crc_zeros(c0, 4);
    lemma_zeros_xor(r1, c1, 4);
    lemma_zeros_add(c0, 4, 4);
    let r2 = crc_zeros(r1 ^ c1, 4);
    assert(r2 == crc_zeros(c0, 8) ^ crc_zeros(c1, 4));
    lemma_zeros_xor(r2, c2, 4);
    lemma_zeros_xor(crc_zeros(c0, 8), crc_zeros(c1, 4), 4);
    lemma_zeros_add(c0, 8, 4);
    lemma_zeros_add(c1, 4, 4);
    let r3 = crc_zeros(r2 ^ c2, 4);
    assert(r3 == (crc_zeros(c0, 12) ^ crc_zeros(c1, 8)) ^ crc_zeros(c2, 4));
    lemma_zeros_xor(r3, c3, 4);
    lemma_zeros_xor(crc_zeros(c0, 12) ^ crc_zeros(c1, 8), crc_zeros(c2, 4), 4);
    lemma_zeros_xor(crc_zeros(c0, 12), crc_zeros(c1, 8), 4);
    lemma_zeros_add(c0, 12, 4);
    lemma_zeros_add(c1, 8, 4);
    lemma_zeros_add(c2, 4, 4);
    let r4 = crc_zeros(r3 ^ c3, 4);
    let e0 = crc_zeros(c0, 16);
    let e1 = crc_zeros(c1, 12);
    let e2 = crc_zeros(c2, 8);
    let e3 = crc_zeros(c3, 4);
    assert(r4 == ((e0 ^ e1) ^ e2) ^ e3);
    assert(((e0 ^ e1) ^ e2) ^ e3 == (e0 ^ e1) ^ (e2 ^ e3)) by (bit_vector);
}

/// One byte of input folded into the register through the byte table.
fn compute_u8(bt: &Vec<u32>, crc: u32, buf: &[u8], pos: usize) -> (r: u32)
    requires
        byte_table_ok(bt@),
        pos < buf@.len(),
    ensures
        r == byte_step(crc, buf@[pos as int]),
{
    table_byte_step(bt, crc, buf[pos])
}

/// One word of input for one lane: the next word at `pos` XORed with the
/// four stride lookups of the lane's old value.
fn compute_u32(
    s3: &Vec<u32>,
    s2: &Vec<u32>,
    s1: &Vec<u32>,
    s0: &Vec<u32>,
    crc: u32,
    buf: &[u8],
    pos: usize,
) -> (r: u32)
    requires
        stride_table_ok(s3@, 0),
        stride_table_ok(s2@, 8),
        stride_table_ok(s1@, 16),
        stride_table_ok(s0@, 24),
        pos + 4 <= buf@.len(),
    ensures
        r == le32(buf@.subrange(pos as int, pos as int + 4)) ^ crc_zeros(crc, 16),
{
    let w = read_u32_le(buf, pos);
    let t0 = (crc & 0xff) as usize;
    let t1 = ((crc >> 8) & 0xff) as usize;
    let t2 = ((crc >> 16) & 0xff) as usize;
    let t3 = ((crc >> 24) & 0xff) as usize;
    proof {
        assert((crc & 0xff) < 256 && ((crc >> 8) & 0xff) < 256 && ((crc >> 16) & 0xff) < 256 && ((
        crc >> 24) & 0xff) < 256) by (bit_vector);
        let g0 = crc & 0xff;
        let g1 = ((crc >> 8) & 0xff) << 8u32;
        let g2 = ((crc >> 16) & 0xff) << 16u32;
        let g3 = ((crc >> 24) & 0xff) << 24u32;
        assert(((crc & 0xff) as usize) as u32 == crc & 0xff && (((crc >> 8) & 0xff) as usize) as u32
            == (crc >> 8) & 0xff && (((crc >> 16) & 0xff) as usize) as u32 == (crc >> 16) & 0xff
            && (((crc >> 24) & 0xff) as usize) as u32 == (crc >> 24) & 0xff) by (bit_vector);
        assert((crc & 0xff) << 0u32 == crc & 0xff) by (bit_vector);
        assert(crc == ((crc & 0xff) ^ (((crc >> 8) & 0xff) << 8u32)) ^ ((((crc >> 16) & 0xff)
            << 16u32) ^ (((crc >> 24) & 0xff) << 24u32))) by (bit_vector);
        assert(crc == (g0 ^ g1) ^ (g2 ^ g3));
        lemma_zeros_xor(g0 ^ g1, g2 ^ g3, 16);
        lemma_zeros_xor(g0, g1, 16);
        lemma_zeros_xor(g2, g3, 16);
    }
    w ^ ((s3[t0] ^ s2[t1]) ^ (s1[t2] ^ s0[t3]))
}

/// Two registers folded into one across a 4-byte boundary: XOR them and run
/// four zero steps.
fn combine(bt: &Vec<u32>, crc1: u32, crc2: u32) -> (r: u32)
    requires
        byte_table_ok(bt@),
    ensures
        r == crc_zeros(crc1 ^ crc2, 4),
{
    let x = crc1 ^ crc2;
    let r1 = table_byte_step(bt, x, 0);
    let r2 = table_byte_step(bt, r1, 0);
    let r3 = table_byte_step(bt, r2, 0);
    let r4 = table_byte_step(bt, r3, 0);
    proof {
        assert(crc_zeros(x, 4) == crc_zeros(byte_step(x, 0), 3));
        assert(crc_zeros(r1, 3) == crc_zeros(byte_step(r1, 0), 2));
        assert(crc_zeros(r2, 2) == crc_zeros(byte_step(r2, 0), 1));
        assert(crc_zeros(r3, 1) == crc_zeros(byte_step(r3, 0), 0));
    }
    r4
}

/// The slicing-by-4 update: byte steps until the remaining length is a
/// multiple of four, four interleaved lanes over 16-byte groups, a lane
/// rotation to drain whole words, four combines, and byte steps for the
/// tail.
pub fn crc32c_update(crc: u32, buf: &[u8]) -> (r: u32)
    ensures
        r == crc32c_update_spec(crc, buf@),
{
    let bt = build_byte_table();
    let s3 = build_stride_table(&bt, 0);
    let s2 = build_stride_table(&bt, 8);
    let s1 = build_stride_table(&bt, 16);
    let s0 = build_stride_table(&bt, 24);
    let n = buf.len();
    let mut c = !crc;
    let mut pos: usize = 0;
    while (n - pos) % 4 != 0
        invariant
            n == buf@.len(),
            pos <= n,
            byte_table_ok(bt@),
            c == crc_fold(!crc, buf@.subrange(0, pos as int)),
        decreases n - pos,
    {
        c = compute_u8(&bt, c, buf, pos);
        proof {
            lemma_fold_snoc(!crc, buf@, pos as int);
        }
        pos += 1;
    }
    if n - pos >= 16 {
        let mut c0 = c ^ read_u32_le(buf, pos);
        let mut c1 = read_u32_le(buf, pos + 4);
        let mut c2 = read_u32_le(buf, pos + 8);
        let mut c3 = read_u32_le(buf, pos + 12);
        proof {
            let s = buf@.subrange(pos as int, pos as int + 16);
            assert(s.subrange(0, 4) =~= buf@.subrange(pos as int, pos as int + 4));
            assert(s.subrange(4, 8) =~= buf@.subrange(pos as int + 4, pos as int + 8));
            assert(s.subrange(8, 12) =~= buf@.subrange(pos as int + 8, pos as int + 12));
            assert(s.subrange(12, 16) =~= buf@.subrange(pos as int + 12, pos as int + 16));
            lemma_lanes_init(c, s);
            lemma_fold_split(!crc, buf@, 0, pos as int, pos as int + 16);
            assert(buf@.subrange(0, pos as int + 16).subrange(pos as int, pos as int + 16) =~= s);
            assert(c0 == c ^ le32(s.subrange(0, 4)));
        }
        pos += 16;
        while n - pos >= 16
            invariant
                n == buf@.len(),
                pos <= n,
                (n - pos) % 4 == 0,
                stride_table_ok(s3@, 0),
                stride_table_ok(s2@, 8),
                stride_table_ok(s1@, 16),
                stride_table_ok(s0@, 24),
                lanes_val(c0, c1, c2, c3) == crc_fold(!crc, buf@.subrange(0, pos as int)),
            decreases n - pos,
        {
            let d0 = compute_u32(&s3, &s2, &s1, &s0, c0, buf, pos);
            let d1 = compute_u32(&s3, &s2, &s1, &s0, c1, buf, pos + 4);
            let d2 = compute_u32(&s3, &s2, &s1, &s0, c2, buf, pos + 8);
            let d3 = compute_u32(&s3, &s2, &s1, &s0, c3, buf, pos + 12);
            proof {
                let s = buf@.subrange(pos as int, pos as int + 16);
                assert(s.subrange(0, 4) =~= buf@.subrange(pos as int, pos as int + 4));
                assert(s.subrange(4, 8) =~= buf@.subrange(pos as int + 4, pos as int + 8));
                assert(s.subrange(8, 12) =~= buf@.subrange(pos as int + 8, pos as int + 12));
                assert(s.subrange(12, 16) =~= buf@.subrange(pos as int + 12, pos as int + 16));
                lemma_lanes_step(c0, c1, c2, c3, s);
                lemma_fold_split(!crc, buf@, 0, pos as int, pos as int + 16);
            }
            c0 = d0;
            c1 = d1;
            c2 = d2;
            c3 = d3;
            pos += 16;
        }
        while n - pos >= 4
            invariant
                n == buf@.len(),
                pos <= n,
                (n - pos) % 4 == 0,
                stride_table_ok(s3@, 0),
                stride_table_ok(s2@, 8),
                stride_table_ok(s1@, 16),
                stride_table_ok(s0@, 24),
                lanes_val(c0, c1, c2, c3) == crc_fold(!crc, buf@.subrange(0, pos as int)),
            decreases n - pos,
        {
            let t = compute_u32(&s3, &s2, &s1, &s0, c0, buf, pos);
            proof {
                let s = buf@.subrange(pos as int, pos as int + 4);
                lemma_lanes_drain(c0, c1, c2, c3, s);
                lemma_fold_split(!crc, buf@, 0, pos as int, pos as int + 4);
            }
            c0 = c1;
            c1 = c2;
            c2 = c3;
            c3 = t;
            pos += 4;
        }
        c = 0;
        c = combine(&bt, c, c0);
        c = combine(&bt, c, c1);
        c = combine(&bt, c, c2);
        c = combine(&bt, c, c3);
        proof {
            lemma_combine_chain(c0, c1, c2, c3);
        }
    }
    while pos < n
        invariant
            n == buf@.len(),
            pos <= n,
            byte_table_ok(bt@),
            c == crc_fold(!crc, buf@.subrange(0, pos as int)),
        decreases n - pos,
    {
        c = compute_u8(&bt, c, buf, pos);
        proof {
            lemma_fold_snoc(!crc, buf@, pos as int);
        }
        pos += 1;
    }
    proof {
        assert(buf@.subrange(0, n as int) =~= buf@);
    }
    !c
}

} // verus!
