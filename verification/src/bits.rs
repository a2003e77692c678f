//! Facts about the packed board word: two bits per cell, cell `i` in bits
//! `2i` and `2i + 1`. A shift `s` addresses a cell when it is even and below 18.

use vstd::prelude::*;

verus! {

/// The two-bit field of `bits` at shift `s`.
pub open spec fn field(bits: u32, s: u32) -> u32 {
    (bits >> s) & 3
}

/// The shift that addresses cell `i`.
pub open spec fn shift_of(i: int) -> u32 {
    (2 * i) as u32
}

/// Only the low 18 bits are used, and no cell holds the spare pattern `01`.
pub open spec fn valid_bits(bits: u32) -> bool {
    bits & 0xFFFC_0000 == 0 && (!bits | (bits >> 1)) & 0x15555 == 0x15555
}

/// The word with the two labels of every occupied cell exchanged.
pub open spec fn flip_bits(bits: u32) -> u32 {
    let occ = ((bits ^ (bits >> 1)) & 0x15555) ^ 0x15555;
    bits ^ (occ | (occ << 1))
}

/// The word with the field at shift `s` replaced by `c`.
pub open spec fn put_bits(bits: u32, s: u32, c: u32) -> u32 {
    (bits & !(3u32 << s)) | (c << s)
}

pub proof fn lemma_empty_word()
    by (bit_vector)
    ensures
        valid_bits(0x2AAAA),
        forall|s: u32| s < 18 && s % 2 == 0 ==> #[trigger] field(0x2AAAA, s) == 2,
{
}

pub proof fn lemma_field_range(bits: u32, s: u32)
    by (bit_vector)
    requires
        valid_bits(bits),
        s < 18,
        s % 2 == 0,
    ensures
        field(bits, s) == 0 || field(bits, s) == 2 || field(bits, s) == 3,
{
}

pub proof fn lemma_put_field(bits: u32, s: u32, c: u32, t: u32)
    by (bit_vector)
    requires
        s < 18,
        s % 2 == 0,
        t < 18,
        t % 2 == 0,
        c < 4,
    ensures
        field(put_bits(bits, s, c), t) == (if t == s { c } else { field(bits, t) }),
{
}

pub proof fn lemma_put_valid(bits: u32, s: u32, c: u32)
    by (bit_vector)
    requires
        valid_bits(bits),
        s < 18,
        s % 2 == 0,
        c == 0 || c == 2 || c == 3,
    ensures
        valid_bits(put_bits(bits, s, c)),
{
}

pub proof fn lemma_flip_field(bits: u32, t: u32)
    by (bit_vector)
    requires
        valid_bits(bits),
        t < 18,
        t % 2 == 0,
    ensures
        field(flip_bits(bits), t) == (if field(bits, t) == 0 {
            3u32
        } else if field(bits, t) == 3 {
            0u32
        } else {
            2u32
        }),
{
}

pub proof fn lemma_flip_valid(bits: u32)
    by (bit_vector)
    requires
        valid_bits(bits),
    ensures
        valid_bits(flip_bits(bits)),
{
}

pub proof fn lemma_flip_twice(bits: u32)
    by (bit_vector)
    ensures
        flip_bits(flip_bits(bits)) == bits,
{
}

/// A word is determined by its nine fields.
pub proof fn lemma_fields_determine(a: u32, b: u32)
    by (bit_vector)
    requires
        a & 0xFFFC_0000 == 0,
        b & 0xFFFC_0000 == 0,
        field(a, 0) == field(b, 0),
        field(a, 2) == field(b, 2),
        field(a, 4) == field(b, 4),
        field(a, 6) == field(b, 6),
        field(a, 8) == field(b, 8),
        field(a, 10) == field(b, 10),
        field(a, 12) == field(b, 12),
        field(a, 14) == field(b, 14),
        field(a, 16) == field(b, 16),
    ensures
        a == b,
{
}

/// Each line mask is clear exactly when its three fields are all zero.
pub proof fn lemma_line_masks(v: u32)
    by (bit_vector)
    ensures
        v & 0x3f == 0 <==> field(v, 0) == 0 && field(v, 2) == 0 && field(v, 4) == 0,
        v & 0xfc0 == 0 <==> field(v, 6) == 0 && field(v, 8) == 0 && field(v, 10) == 0,
        v & 0x3f000 == 0 <==> field(v, 12) == 0 && field(v, 14) == 0 && field(v, 16) == 0,
        v & 0x30c3 == 0 <==> field(v, 0) == 0 && field(v, 6) == 0 && field(v, 12) == 0,
        v & 0xc30c == 0 <==> field(v, 2) == 0 && field(v, 8) == 0 && field(v, 14) == 0,
        v & 0x30c30 == 0 <==> field(v, 4) == 0 && field(v, 10) == 0 && field(v, 16) == 0,
        v & 0x30303 == 0 <==> field(v, 0) == 0 && field(v, 8) == 0 && field(v, 16) == 0,
        v & 0x3330 == 0 <==> field(v, 4) == 0 && field(v, 8) == 0 && field(v, 12) == 0,
{
}

/// The word has a cell with unequal bits exactly when some field is `2`.
pub proof fn lemma_open_mask(v: u32)
    by (bit_vector)
    requires
        valid_bits(v),
    ensures
        (v ^ (v >> 1)) & 0x15555 != 0 <==> (field(v, 0) == 2 || field(v, 2) == 2 || field(v, 4)
            == 2 || field(v, 6) == 2 || field(v, 8) == 2 || field(v, 10) == 2 || field(v, 12) == 2
            || field(v, 14) == 2 || field(v, 16) == 2),
{
}

} // verus!
