//! The mathematical model of CRC32C: bit-level polynomial division with the
//! reflected Castagnoli polynomial, folded over byte sequences, and the
//! GF(2)-linearity lemmas that the two engines are proved against.

use vstd::prelude::*;

verus! {

/// The Castagnoli polynomial in reflected (LSB-first) form.
pub open spec fn crc32c_poly() -> u32 {
    0x82F63B78u32
}

/// One step of LSB-first polynomial division: shift one bit out of the
/// register and reduce by the polynomial if that bit was set.
pub open spec fn bit_step(x: u32) -> u32 {
    (x >> 1) ^ (if x & 1 == 1 { crc32c_poly() } else { 0u32 })
}

/// Eight bit steps: one full byte of polynomial division.
pub open spec fn bits8(x: u32) -> u32 {
    bit_step(bit_step(bit_step(bit_step(bit_step(bit_step(bit_step(bit_step(x))))))))
}

/// Advance the (working-form) CRC register by one input byte.
pub open spec fn byte_step(crc: u32, b: u8) -> u32 {
    bits8(crc ^ (b as u32))
}

/// Advance the register over a whole byte sequence, front to back.
pub open spec fn crc_fold(crc: u32, s: Seq<u8>) -> u32
    decreases s.len(),
{
    if s.len() == 0 {
        crc
    } else {
        crc_fold(byte_step(crc, s[0]), s.subrange(1, s.len() as int))
    }
}

/// Advance the register past `n` zero bytes.
pub open spec fn crc_zeros(crc: u32, n: nat) -> u32
    decreases n,
{
    if n == 0 {
        crc
    } else {
        crc_zeros(byte_step(crc, 0), (n - 1) as nat)
    }
}

/// The running CRC32C that results from feeding `s` after an earlier
/// accumulator value `crc`. The register works on the one's complement of
/// the externally visible value.
pub open spec fn crc32c_update_spec(crc: u32, s: Seq<u8>) -> u32 {
    !crc_fold(!crc, s)
}

/// The CRC32C of `s` alone.
pub open spec fn crc32c_spec(s: Seq<u8>) -> u32 {
    crc32c_update_spec(0, s)
}

/// The little-endian 32-bit value of a 4-byte sequence.
pub open spec fn le32(s: Seq<u8>) -> u32
    recommends
        s.len() == 4,
{
    ((s[0] as u32) | ((s[1] as u32) << 8)) | (((s[2] as u32) << 16) | ((s[3] as u32) << 24))
}

/// The little-endian 64-bit value of an 8-byte sequence.
pub open spec fn le64(s: Seq<u8>) -> u64
    recommends
        s.len() == 8,
{
    (((s[0] as u64) | ((s[1] as u64) << 8)) | (((s[2] as u64) << 16) | ((s[3] as u64) << 24)))
        | ((((s[4] as u64) << 32) | ((s[5] as u64) << 40)) | (((s[6] as u64) << 48) | ((s[7]
        as u64) << 56)))
}

/// Folding an empty sequence leaves the register unchanged, so the
/// complement round-trip returns the accumulator as it was.
pub proof fn lemma_update_spec_empty(crc: u32, s: Seq<u8>)
    requires
        s.len() == 0,
    ensures
        crc32c_update_spec(crc, s) == crc,
{
    assert(crc_fold(!crc, s) == !crc);
    assert(!(!crc) == crc) by (bit_vector);
}

/// Folding distributes over concatenation: the register after `s1 + s2`
/// is the register after `s1`, folded over `s2`.
pub proof fn lemma_fold_append(crc: u32, s1: Seq<u8>, s2: Seq<u8>)
    ensures
        crc_fold(crc, s1 + s2) == crc_fold(crc_fold(crc, s1), s2),
    decreases s1.len(),
{
    if s1.len() == 0 {
        assert(s1 + s2 =~= s2);
    } else {
        assert((s1 + s2).subrange(1, (s1 + s2).len() as int) =~= s1.subrange(
            1,
            s1.len() as int,
        ) + s2);
        lemma_fold_append(byte_step(crc, s1[0]), s1.subrange(1, s1.len() as int), s2);
    }
}

/// Extending the sequence by one byte advances the folded register by
/// one byte step.
pub proof fn lemma_fold_push(crc: u32, s: Seq<u8>, b: u8)
    ensures
        crc_fold(crc, s.push(b)) == byte_step(crc_fold(crc, s), b),
{
    let t = seq![b];
    assert(s.push(b) =~= s + t);
    lemma_fold_append(crc, s, t);
    let x = crc_fold(crc, s);
    assert(t.subrange(1, 1) =~= Seq::<u8>::empty());
    assert(crc_fold(x, t) == crc_fold(byte_step(x, t[0]), t.subrange(1, 1)));
    assert(t[0] == b);
}

/// A chunked update equals the update over the concatenation: feeding `s1`
/// and then `s2` gives the same accumulator as feeding `s1 + s2` at once.
pub proof fn lemma_update_spec_append(crc: u32, s1: Seq<u8>, s2: Seq<u8>)
    ensures
        crc32c_update_spec(crc32c_update_spec(crc, s1), s2) == crc32c_update_spec(crc, s1 + s2),
{
    let m = crc_fold(!crc, s1);
    assert(!(!m) == m) by (bit_vector);
    lemma_fold_append(!crc, s1, s2);
}

/// Folding one more byte of `s` advances the folded register by one byte
/// step.
pub proof fn lemma_fold_snoc(init: u32, s: Seq<u8>, i: int)
    requires
        0 <= i < s.len(),
    ensures
        crc_fold(init, s.subrange(0, i + 1)) == byte_step(crc_fold(init, s.subrange(0, i)), s[i]),
{
    assert(s.subrange(0, i + 1) =~= s.subrange(0, i).push(s[i]));
    lemma_fold_push(init, s.subrange(0, i), s[i]);
}

/// A fold over a range of `s` splits at any point of the range.
pub proof fn lemma_fold_split(init: u32, s: Seq<u8>, a: int, b: int, c: int)
    requires
        0 <= a <= b <= c <= s.len(),
    ensures
        crc_fold(init, s.subrange(a, c)) == crc_fold(
            crc_fold(init, s.subrange(a, b)),
            s.subrange(b, c),
        ),
{
    assert(s.subrange(a, c) =~= s.subrange(a, b) + s.subrange(b, c));
    lemma_fold_append(init, s.subrange(a, b), s.subrange(b, c));
}

/// Updating the checksum of `s1` with `s2` gives the checksum of `s1 + s2`:
/// an accumulator is a valid intermediate state across any chunk boundary.
pub proof fn lemma_chunked_compute(s1: Seq<u8>, s2: Seq<u8>)
    ensures
        crc32c_update_spec(crc32c_spec(s1), s2) == crc32c_spec(s1 + s2),
{
    lemma_update_spec_append(0, s1, s2);
}

/// The byte step is GF(2)-linear in the register.
pub proof fn lemma_byte_step_xor(x: u32, y: u32, b: u8)
    ensures
        byte_step(x ^ y, b) == byte_step(x, b) ^ byte_step(y, 0),
{
    assert(byte_step(x ^ y, b) == byte_step(x, b) ^ byte_step(y, 0)) by (bit_vector);
}

/// Zero-extension is GF(2)-linear in the register.
pub proof fn lemma_zeros_xor(x: u32, y: u32, n: nat)
    ensures
        crc_zeros(x ^ y, n) == crc_zeros(x, n) ^ crc_zeros(y, n),
    decreases n,
{
    if n == 0 {
    } else {
        lemma_byte_step_xor(x, y, 0);
        lemma_zeros_xor(byte_step(x, 0), byte_step(y, 0), (n - 1) as nat);
    }
}

/// Zero-extension composes additively in the number of zero bytes.
pub proof fn lemma_zeros_add(x: u32, m: nat, n: nat)
    ensures
        crc_zeros(x, m + n) == crc_zeros(crc_zeros(x, m), n),
    decreases m,
{
    if m == 0 {
    } else {
        lemma_zeros_add(byte_step(x, 0), (m - 1) as nat, n);
    }
}

/// The zero register stays zero under zero-extension.
pub proof fn lemma_zeros_of_zero(n: nat)
    ensures
        crc_zeros(0, n) == 0,
    decreases n,
{
    if n == 0 {
    } else {
        assert(byte_step(0u32, 0u8) == 0u32) by (bit_vector);
        lemma_zeros_of_zero((n - 1) as nat);
    }
}

/// Folding is GF(2)-linear: a register split into two summands folds to
/// the fold of one summand XOR the zero-extension of the other.
pub proof fn lemma_fold_xor(x: u32, y: u32, s: Seq<u8>)
    ensures
        crc_fold(x ^ y, s) == crc_fold(x, s) ^ crc_zeros(y, s.len()),
    decreases s.len(),
{
    if s.len() == 0 {
        assert(x ^ y == x ^ y);
    } else {
        lemma_byte_step_xor(x, y, s[0]);
        lemma_fold_xor(byte_step(x, s[0]), byte_step(y, 0), s.subrange(1, s.len() as int));
    }
}

/// Injecting one data byte: a zero step on a register XORed with a word
/// whose low byte is `b` is a `b` step plus the shifted-down rest of the
/// word.
pub proof fn lemma_byte_inject(u: u32, v: u32, b: u8)
    requires
        v & 0xff == b as u32,
    ensures
        byte_step(u ^ v, 0) == byte_step(u, b) ^ (v >> 8),
{
    assert(byte_step(u ^ v, 0) == byte_step(u, b) ^ (v >> 8)) by (bit_vector)
        requires
            v & 0xff == b as u32,
    ;
}

/// Folding four data bytes equals zero-extending the register XORed with
/// their little-endian word value: the word-injection identity behind every
/// sliced engine.
pub proof fn lemma_word_inject(crc: u32, s: Seq<u8>)
    requires
        s.len() == 4,
    ensures
        crc_fold(crc, s) == crc_zeros(crc ^ le32(s), 4),
{
    let b0 = s[0];
    let b1 = s[1];
    let b2 = s[2];
    let b3 = s[3];
    let w = le32(s);
    let s1 = s.subrange(1, 4);
    let s2 = s1.subrange(1, 3);
    let s3 = s2.subrange(1, 2);
    let s4 = s3.subrange(1, 1);
    assert(s1[0] == b1 && s2[0] == b2 && s3[0] == b3 && s4.len() == 0);
    assert(crc_fold(crc, s) == crc_fold(byte_step(crc, b0), s1));
    assert(crc_fold(byte_step(crc, b0), s1) == crc_fold(byte_step(byte_step(crc, b0), b1), s2));
    assert(crc_fold(byte_step(byte_step(crc, b0), b1), s2) == crc_fold(
        byte_step(byte_step(byte_step(crc, b0), b1), b2),
        s3,
    ));
    assert(crc_fold(byte_step(byte_step(byte_step(crc, b0), b1), b2), s3) == crc_fold(
        byte_step(byte_step(byte_step(byte_step(crc, b0), b1), b2), b3),
        s4,
    ));
    let x = crc ^ w;
    let z1 = byte_step(x, 0);
    let z2 = byte_step(z1, 0);
    let z3 = byte_step(z2, 0);
    let z4 = byte_step(z3, 0);
    assert(crc_zeros(x, 4) == crc_zeros(z1, 3));
    assert(crc_zeros(z1, 3) == crc_zeros(z2, 2));
    assert(crc_zeros(z2, 2) == crc_zeros(z3, 1));
    assert(crc_zeros(z3, 1) == crc_zeros(z4, 0));
    assert(w & 0xff == b0 as u32 && (w >> 8) & 0xff == b1 as u32 && (w >> 16) & 0xff == b2 as u32
        && (w >> 24) & 0xff == b3 as u32 && (w >> 8) >> 8 == w >> 16 && (w >> 16) >> 8 == w >> 24
        && (w >> 24) >> 8 == 0) by (bit_vector)
        requires
            w == ((b0 as u32) | ((b1 as u32) << 8)) | (((b2 as u32) << 16) | ((b3 as u32) << 24)),
    ;
    let f1 = byte_step(crc, b0);
    let f2 = byte_step(f1, b1);
    let f3 = byte_step(f2, b2);
    let f4 = byte_step(f3, b3);
    lemma_byte_inject(crc, w, b0);
    assert(z1 == f1 ^ (w >> 8));
    lemma_byte_inject(f1, w >> 8, b1);
    assert(z2 == f2 ^ (w >> 16));
    lemma_byte_inject(f2, w >> 16, b2);
    assert(z3 == f3 ^ (w >> 24));
    lemma_byte_inject(f3, w >> 24, b3);
    assert(z4 == f4 ^ 0);
    assert(f4 ^ 0 == f4) by (bit_vector);
    assert(crc_fold(f4, s4) == f4);
    assert(crc_fold(crc, s) == f4);
    assert(crc_zeros(x, 4) == f4);
}

} // verus!
