//! The mathematical model of words and fields.
//!
//! A `u64` word is read as a natural number below 2^64. The field of width
//! `width` starting at bit `lsb` then corresponds to a digit range of the
//! base-2 expansion, and every operation of the library is specified through
//! division and remainder by powers of two.

use vstd::prelude::*;

verus! {

use vstd::arithmetic::div_mod::lemma_mod_bound;
use vstd::arithmetic::power2::lemma_pow2_pos;
use vstd::arithmetic::power2::lemma_pow2_unfold;
use vstd::arithmetic::power2::pow2;

/// A value fits an unsigned field of `width` bits when the field is at least
/// one bit wide and the value is below 2^width. A zero-width field admits no
/// value at all, not even zero.
pub open spec fn fits_unsigned(value: u64, width: u64) -> bool {
    &&& 1 <= width
    &&& (value as nat) < pow2(width as nat)
}

/// A value fits a signed field of `width` bits when the field is at least one
/// bit wide and the value lies in the two's-complement range of that width,
/// [-2^(width-1), 2^(width-1) - 1]. A zero-width field admits no value.
pub open spec fn fits_signed(value: i64, width: u64) -> bool {
    &&& 1 <= width
    &&& -(pow2((width - 1) as nat) as int) <= value as int
    &&& (value as int) < pow2((width - 1) as nat) as int
}

/// The unsigned value of the `width`-bit field of `word` starting at bit
/// `lsb`: discard the `lsb` low bits, then keep the low `width` bits of what
/// remains. A zero-width field reads as 0.
pub open spec fn field_value(word: u64, width: u64, lsb: u64) -> nat {
    ((word as nat) / pow2(lsb as nat)) % pow2(width as nat)
}

/// The same field read as a two's-complement signed number: when the field's
/// top bit is set, the unsigned reading is shifted down by 2^width.
pub open spec fn field_value_signed(word: u64, width: u64, lsb: u64) -> int {
    if 1 <= width && pow2((width - 1) as nat) <= field_value(word, width, lsb) {
        field_value(word, width, lsb) - pow2(width as nat)
    } else {
        field_value(word, width, lsb) as int
    }
}

/// The `width`-bit two's-complement pattern of a fitting signed value, as an
/// unsigned number: the value itself when non-negative, else the value plus
/// 2^width.
pub open spec fn twos_complement(value: i64, width: u64) -> nat {
    if value >= 0 {
        value as nat
    } else {
        (value + pow2(width as nat)) as nat
    }
}

/// `word` with the bits [lsb, lsb+width) replaced by the `width`-bit pattern
/// `field`: the bits above the field, the field itself and the bits below,
/// recombined at their places.
pub open spec fn with_field(word: u64, width: u64, lsb: u64, field: nat) -> nat {
    (word as nat) / pow2((width + lsb) as nat) * pow2((width + lsb) as nat) + field * pow2(
        lsb as nat,
    ) + (word as nat) % pow2(lsb as nat)
}

/// A field of `width` bits always reads as a value below 2^width.
pub proof fn lemma_field_value_bound(word: u64, width: u64, lsb: u64)
    ensures
        field_value(word, width, lsb) < pow2(width as nat),
{
    lemma_pow2_pos(width as nat);
    lemma_mod_bound(((word as nat) / pow2(lsb as nat)) as int, pow2(width as nat) as int);
}

/// The two's-complement pattern of a fitting value stays below 2^width, and
/// its top bit is set exactly when the value is negative.
pub proof fn lemma_twos_complement_bound(value: i64, width: u64)
    requires
        fits_signed(value, width),
        width <= 64,
    ensures
        twos_complement(value, width) < pow2(width as nat),
        value >= 0 ==> twos_complement(value, width) < pow2((width - 1) as nat),
        value < 0 ==> twos_complement(value, width) >= pow2((width - 1) as nat),
{
    lemma_pow2_unfold(width as nat);
}

} // verus!
