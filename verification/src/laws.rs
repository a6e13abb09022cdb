//! The laws of the codec, proved over the model.

use vstd::prelude::*;

verus! {

use vstd::arithmetic::div_mod::lemma_basic_div;
use vstd::arithmetic::div_mod::lemma_fundamental_div_mod_converse_div;
use vstd::arithmetic::div_mod::lemma_fundamental_div_mod_converse_mod;
use vstd::arithmetic::div_mod::lemma_mod_bound;
use vstd::arithmetic::div_mod::lemma_multiply_divide_lt;
use vstd::arithmetic::power2::lemma2_to64;
use vstd::arithmetic::power2::lemma2_to64_rest;
use vstd::arithmetic::power2::lemma_pow2_adds;
use vstd::arithmetic::power2::lemma_pow2_pos;
use vstd::arithmetic::power2::lemma_pow2_strictly_increases;
use vstd::arithmetic::power2::pow2;
use vstd::bits::lemma_u64_low_bits_mask_is_mod;
use vstd::bits::lemma_u64_pow2_no_overflow;
use vstd::bits::lemma_u64_shl_is_mul;
use vstd::bits::lemma_u64_shr_is_div;
use crate::model::field_value;
use crate::model::field_value_signed;
use crate::model::fits_signed;
use crate::model::fits_unsigned;
use crate::model::lemma_twos_complement_bound;
use crate::model::twos_complement;
use crate::model::with_field;

/// A zero-width unsigned field admits no value: no unsigned value, not even
/// zero, fits a field of width 0.
pub proof fn lemma_fits_unsigned_zero_width(value: u64)
    ensures
        !fits_unsigned(value, 0),
{
}

/// A zero-width signed field admits no value: no signed value, not even zero,
/// fits a field of width 0.
pub proof fn lemma_fits_signed_zero_width(value: i64)
    ensures
        !fits_signed(value, 0),
{
}

/// The largest value of a `width`-bit unsigned field, 2^width - 1, fits it;
/// the next value, 2^width, does not.
pub proof fn lemma_fits_unsigned_boundary(width: u64)
    requires
        1 <= width <= 63,
    ensures
        fits_unsigned((pow2(width as nat) - 1) as u64, width),
        !fits_unsigned(pow2(width as nat) as u64, width),
{
    lemma_u64_pow2_no_overflow(width as nat);
}

/// The largest value of a `width`-bit signed field, 2^(width-1) - 1, fits it;
/// the next value, 2^(width-1), does not. For a width of 64 the next value
/// exceeds the native signed range, so only the first half is stated there.
pub proof fn lemma_fits_signed_boundary(width: u64)
    requires
        2 <= width <= 64,
    ensures
        fits_signed((pow2((width - 1) as nat) - 1) as i64, width),
        width <= 63 ==> !fits_signed(pow2((width - 1) as nat) as i64, width),
{
    lemma_u64_pow2_no_overflow((width - 1) as nat);
    lemma2_to64_rest();
    if width <= 63 {
        lemma_pow2_strictly_increases((width - 1) as nat, 63);
    }
}

/// The decomposition of an updated word: inserting a `width`-bit pattern at
/// bit `lsb` keeps the word below 2^64, leaves the remainder modulo 2^lsb
/// (the bits below the field) and the quotient by 2^(width+lsb) (the bits
/// above it) unchanged, and the field itself reads back as the pattern.
pub proof fn lemma_with_field_parts(word: u64, width: u64, lsb: u64, field: nat)
    requires
        1 <= width,
        width + lsb <= 64,
        field < pow2(width as nat),
    ensures
        with_field(word, width, lsb, field) < pow2(64),
        with_field(word, width, lsb, field) % pow2(lsb as nat) == (word as nat) % pow2(lsb as nat),
        with_field(word, width, lsb, field) / pow2((width + lsb) as nat) == (word as nat) / pow2(
            (width + lsb) as nat,
        ),
        with_field(word, width, lsb, field) / pow2(lsb as nat) % pow2(width as nat) == field,
{
    let wn = word as nat;
    let l = pow2(lsb as nat);
    let p = pow2((width + lsb) as nat);
    let pw = pow2(width as nat);
    let h = wn / p;
    let r = wn % l;
    let w2 = with_field(word, width, lsb, field);
    lemma_pow2_pos(lsb as nat);
    lemma_pow2_pos(width as nat);
    lemma_pow2_pos((width + lsb) as nat);
    lemma_pow2_adds(width as nat, lsb as nat);
    lemma_mod_bound(wn as int, l as int);
    assert(field * l + r < p) by (nonlinear_arith)
        requires
            field < pw,
            r < l,
            p == pw * l,
            l > 0,
    ;
    lemma_fundamental_div_mod_converse_div(w2 as int, p as int, h as int, (field * l + r) as int);
    assert(h * p + field * l + r == (h * pw + field) * l + r) by (nonlinear_arith)
        requires
            p == pw * l,
    ;
    lemma_fundamental_div_mod_converse_mod(w2 as int, l as int, (h * pw + field) as int, r as int);
    lemma_fundamental_div_mod_converse_div(w2 as int, l as int, (h * pw + field) as int, r as int);
    lemma_fundamental_div_mod_converse_mod(
        (h * pw + field) as int,
        pw as int,
        h as int,
        field as int,
    );
    if width + lsb == 64 {
        lemma2_to64();
        lemma_basic_div(wn as int, p as int);
        assert(w2 < pow2(64));
    } else {
        lemma_pow2_adds((64 - width - lsb) as nat, (width + lsb) as nat);
        lemma_pow2_pos((64 - width - lsb) as nat);
        lemma2_to64();
        assert(wn < p * pow2((64 - width - lsb) as nat)) by (nonlinear_arith)
            requires
                wn < pow2(64),
                pow2(64) == pow2((64 - width - lsb) as nat) * p,
        ;
        lemma_multiply_divide_lt(wn as int, p as int, pow2((64 - width - lsb) as nat) as int);
        assert(w2 < pow2(64)) by (nonlinear_arith)
            requires
                w2 == h * p + field * l + r,
                h < pow2((64 - width - lsb) as nat),
                field * l + r < p,
                pow2(64) == pow2((64 - width - lsb) as nat) * p,
                p > 0,
        ;
    }
}

/// Round trip for unsigned fields: a fitting value written into any word is
/// read back unchanged from the same field.
pub proof fn lemma_unsigned_round_trip(word: u64, width: u64, lsb: u64, value: u64)
    requires
        width + lsb <= 64,
        fits_unsigned(value, width),
    ensures
        with_field(word, width, lsb, value as nat) < pow2(64),
        field_value(with_field(word, width, lsb, value as nat) as u64, width, lsb) == value as nat,
{
    lemma_with_field_parts(word, width, lsb, value as nat);
    lemma2_to64();
}

/// Round trip for signed fields: a fitting value written into any word as a
/// two's-complement pattern is read back unchanged, sign included, from the
/// same field.
pub proof fn lemma_signed_round_trip(word: u64, width: u64, lsb: u64, value: i64)
    requires
        width + lsb <= 64,
        fits_signed(value, width),
    ensures
        with_field(word, width, lsb, twos_complement(value, width)) < pow2(64),
        field_value_signed(
            with_field(word, width, lsb, twos_complement(value, width)) as u64,
            width,
            lsb,
        ) == value as int,
{
    lemma_twos_complement_bound(value, width);
    lemma_with_field_parts(word, width, lsb, twos_complement(value, width));
    lemma2_to64();
}

/// Insertion changes nothing outside the field: every bit of the word below
/// `lsb` or at `lsb + width` and above keeps its value.
pub proof fn lemma_insertion_preserves_bit(word: u64, width: u64, lsb: u64, field: nat, i: u64)
    requires
        1 <= width,
        width + lsb <= 64,
        field < pow2(width as nat),
        i < 64,
        i < lsb || lsb + width <= i,
    ensures
        ((with_field(word, width, lsb, field) as u64) >> i) & 1 == (word >> i) & 1,
{
    lemma_with_field_parts(word, width, lsb, field);
    lemma2_to64();
    let w2: u64 = with_field(word, width, lsb, field) as u64;
    if i < lsb {
        lemma_u64_low_bits_mask_is_mod(w2, lsb as nat);
        lemma_u64_low_bits_mask_is_mod(word, lsb as nat);
        lemma_u64_pow2_no_overflow(lsb as nat);
        lemma_u64_shl_is_mul(1u64, lsb);
        assert((w2 >> i) & 1 == (word >> i) & 1) by (bit_vector)
            requires
                i < lsb && lsb < 64 && w2 & (((1u64 << lsb) - 1) as u64) == word & (((1u64 << lsb)
                    - 1) as u64),
        ;
    } else {
        let wl: u64 = (width + lsb) as u64;
        lemma_u64_shr_is_div(w2, wl);
        lemma_u64_shr_is_div(word, wl);
        assert((w2 >> i) & 1 == (word >> i) & 1) by (bit_vector)
            requires
                wl <= i && i < 64 && w2 >> wl == word >> wl,
        ;
    }
}

} // verus!
