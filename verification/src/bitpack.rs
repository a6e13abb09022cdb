//! The executable codec: fit predicates, field extraction, field insertion.

use vstd::prelude::*;

verus! {

use vstd::arithmetic::div_mod::lemma_basic_div;
use vstd::arithmetic::div_mod::lemma_div_basics;
use vstd::arithmetic::div_mod::lemma_fundamental_div_mod;
use vstd::arithmetic::div_mod::lemma_mod_bound;
use vstd::arithmetic::div_mod::lemma_mod_multiples_basic;
use vstd::arithmetic::div_mod::lemma_small_mod;
use vstd::arithmetic::power2::lemma2_to64;
use vstd::arithmetic::power2::lemma2_to64_rest;
use vstd::arithmetic::power2::lemma_pow2_adds;
use vstd::arithmetic::power2::lemma_pow2_pos;
use vstd::arithmetic::power2::lemma_pow2_strictly_increases;
use vstd::arithmetic::power2::lemma_pow2_unfold;
use vstd::arithmetic::power2::pow2;
use vstd::bits::lemma_u64_low_bits_mask_is_mod;
use vstd::bits::lemma_u64_pow2_no_overflow;
use vstd::bits::lemma_u64_shl_is_mul;
use vstd::bits::lemma_u64_shr_is_div;
use crate::model::field_value;
use crate::model::field_value_signed;
use crate::model::fits_signed;
use crate::model::fits_unsigned;
use crate::model::lemma_field_value_bound;
use crate::model::lemma_twos_complement_bound;
use crate::model::twos_complement;
use crate::model::with_field;

/// Does the unsigned value `n` fit in a `width`-bit unsigned field?
pub fn fitsu(n: u64, width: u64) -> (r: bool)
    requires
        width <= 64,
    ensures
        r == fits_unsigned(n, width),
{
    if width == 0 {
        return false;
    }
    let shift: u64 = 64 - width;
    let shifted: u64 = (n << shift) >> shift;
    proof {
        if width == 64 {
            assert((n << shift) >> shift == n) by (bit_vector)
                requires
                    shift == 0u64,
            ;
            lemma2_to64_rest();
        } else {
            assert(((n << shift) >> shift == n) <==> (n < (1u64 << width))) by (bit_vector)
                requires
                    1 <= width < 64 && shift == 64 - width,
            ;
            lemma_u64_pow2_no_overflow(width as nat);
            lemma_u64_shl_is_mul(1u64, width);
        }
    }
    n == shifted
}

/// Does the signed value `n` fit in a `width`-bit two's-complement field?
pub fn fitss(n: i64, width: u64) -> (r: bool)
    requires
        width <= 64,
    ensures
        r == fits_signed(n, width),
{
    if width == 0 {
        return false;
    }
    let shift: u64 = 64 - width;
    let shifted: i64 = (n << shift) >> shift;
    proof {
        if width == 64 {
            assert((n << shift) >> shift == n) by (bit_vector)
                requires
                    shift == 0u64,
            ;
            lemma2_to64_rest();
        } else {
            let half: u64 = 1u64 << ((width - 1) as u64);
            assert(((n << shift) >> shift == n) <==> (-(half as i64) <= n && n < half as i64))
                by (bit_vector)
                requires
                    1 <= width < 64 && shift == 64 - width && half == 1u64 << ((width - 1) as u64),
            ;
            lemma_u64_pow2_no_overflow((width - 1) as nat);
            lemma_u64_shl_is_mul(1u64, (width - 1) as u64);
            lemma_pow2_strictly_increases((width - 1) as nat, 63);
            lemma2_to64_rest();
        }
    }
    n == shifted
}

/// Read the `width`-bit field of `word` starting at bit `lsb` as an unsigned
/// value. A zero-width field reads as 0.
#[verifier::rlimit(60)]
pub fn getu(word: u64, width: u64, lsb: u64) -> (r: u64)
    requires
        width + lsb <= 64,
    ensures
        r as nat == field_value(word, width, lsb),
{
    if width == 0 {
        proof {
            lemma2_to64();
            lemma_mod_of_one((word as nat) / pow2(lsb as nat));
        }
        return 0;
    }
    let left_shift: u64 = 64 - width - lsb;
    let right_shift: u64 = 64 - width;
    let r: u64 = (word << left_shift) >> right_shift;
    proof {
        if width == 64 {
            assert((word << left_shift) >> right_shift == word) by (bit_vector)
                requires
                    left_shift == 0u64 && right_shift == 0u64,
            ;
            lemma2_to64();
            lemma2_to64_rest();
            lemma_div_basics(word as int);
            lemma_small_mod(word as nat, pow2(64));
        } else {
            assert((word << left_shift) >> right_shift == (word >> lsb) & (((1u64 << width)
                - 1) as u64)) by (bit_vector)
                requires
                    1 <= width < 64 && width + lsb <= 64 && left_shift == 64 - width - lsb
                        && right_shift == 64 - width,
            ;
            lemma_u64_shr_is_div(word, lsb);
            lemma_u64_pow2_no_overflow(width as nat);
            lemma_u64_shl_is_mul(1u64, width);
            lemma_u64_low_bits_mask_is_mod(word >> lsb, width as nat);
        }
    }
    r
}

/// Read the `width`-bit field of `word` starting at bit `lsb` as a signed
/// value: the field's bits, sign-extended from bit `width - 1` to the full
/// 64. A zero-width field reads as 0.
pub fn gets(word: u64, width: u64, lsb: u64) -> (r: i64)
    requires
        width + lsb <= 64,
    ensures
        r as int == field_value_signed(word, width, lsb),
{
    if width == 0 {
        proof {
            lemma2_to64();
            lemma_mod_of_one((word as nat) / pow2(lsb as nat));
        }
        return 0;
    }
    let u: u64 = getu(word, width, lsb);
    let shift: u64 = 64 - width;
    let r: i64 = ((u as i64) << shift) >> shift;
    proof {
        lemma_field_value_bound(word, width, lsb);
        if width == 64 {
            assert(((u as i64) << shift) >> shift == u as i64) by (bit_vector)
                requires
                    shift == 0u64,
            ;
            assert(u < 0x8000000000000000u64 ==> u as i64 == u) by (bit_vector);
            assert(u >= 0x8000000000000000u64 ==> u as i64 == u - 0x10000000000000000)
                by (bit_vector);
            lemma2_to64_rest();
        } else {
            let half: u64 = 1u64 << ((width - 1) as u64);
            assert((u < half ==> ((u as i64) << shift) >> shift == u) && (half <= u && u < (1u64
                << width) ==> ((u as i64) << shift) >> shift == u - 2 * half)) by (bit_vector)
                requires
                    1 <= width < 64 && shift == 64 - width && half == 1u64 << ((width - 1) as u64),
            ;
            lemma_u64_pow2_no_overflow((width - 1) as nat);
            lemma_u64_pow2_no_overflow(width as nat);
            lemma_u64_shl_is_mul(1u64, (width - 1) as u64);
            lemma_u64_shl_is_mul(1u64, width);
            lemma_pow2_unfold(width as nat);
        }
    }
    r
}

/// The remainder of a division by one is zero.
proof fn lemma_mod_of_one(x: nat)
    ensures
        x % 1 == 0,
{
    lemma_small_mod(0, 1);
    lemma_mod_multiples_basic(x as int, 1);
}

/// Masking a word down to its `lsb` low bits by a shift up and back computes
/// the remainder modulo 2^lsb.
proof fn lemma_low_part(word: u64, lsb: u64)
    requires
        1 <= lsb < 64,
    ensures
        ((word << ((64 - lsb) as u64)) >> ((64 - lsb) as u64)) as nat == (word as nat) % pow2(
            lsb as nat,
        ),
{
    assert((word << ((64 - lsb) as u64)) >> ((64 - lsb) as u64) == word & (((1u64 << lsb)
        - 1) as u64)) by (bit_vector)
        requires
            1 <= lsb < 64,
    ;
    lemma_u64_pow2_no_overflow(lsb as nat);
    lemma_u64_shl_is_mul(1u64, lsb);
    lemma_u64_low_bits_mask_is_mod(word, lsb as nat);
}

/// Clearing the `k` low bits of a word by a shift down and back computes the
/// word rounded down to a multiple of 2^k.
proof fn lemma_high_part(word: u64, k: u64)
    requires
        k < 64,
    ensures
        ((word >> k) << k) as nat == (word as nat) / pow2(k as nat) * pow2(k as nat),
{
    lemma_u64_shr_is_div(word, k);
    lemma_u64_pow2_no_overflow(k as nat);
    lemma_pow2_pos(k as nat);
    lemma_fundamental_div_mod(word as int, pow2(k as nat) as int);
    lemma_mod_bound(word as int, pow2(k as nat) as int);
    assert((word >> k) * pow2(k as nat) <= word);
    lemma_u64_shl_is_mul(word >> k, k);
}

/// A word rounded down to a multiple of 2^(width+lsb), a `width`-bit pattern
/// placed at bit `lsb`, and the `lsb` low bits of the word occupy disjoint
/// bit ranges, so their bitwise or is their sum: the updated word.
#[verifier::rlimit(100)]
proof fn lemma_combine(word: u64, width: u64, lsb: u64, field: nat, left: u64, middle: u64, right: u64)
    requires
        1 <= width,
        width + lsb <= 64,
        field < pow2(width as nat),
        left as nat == (word as nat) / pow2((width + lsb) as nat) * pow2((width + lsb) as nat),
        middle as nat == field * pow2(lsb as nat),
        right as nat == (word as nat) % pow2(lsb as nat),
    ensures
        (left | middle | right) as nat == with_field(word, width, lsb, field),
{
    let wl: u64 = (width + lsb) as u64;
    lemma_u64_pow2_no_overflow(lsb as nat);
    lemma_u64_shl_is_mul(1u64, lsb);
    let l: u64 = 1u64 << lsb;
    lemma_pow2_pos(lsb as nat);
    lemma_mod_bound(word as int, l as int);
    lemma_mod_multiples_basic(field as int, l as int);
    assert(right < l);
    assert(middle as int % (l as int) == 0);
    if wl < 64 {
        lemma_u64_pow2_no_overflow(wl as nat);
        lemma_u64_shl_is_mul(1u64, wl);
        let p: u64 = 1u64 << wl;
        lemma_pow2_pos(wl as nat);
        lemma_pow2_adds(width as nat, lsb as nat);
        assert(field * (l as nat) < p as nat) by (nonlinear_arith)
            requires
                field < pow2(width as nat),
                (p as nat) == pow2(width as nat) * (l as nat),
                (l as nat) > 0,
        ;
        assert(middle < p);
        lemma_mod_multiples_basic(((word as nat) / pow2(wl as nat)) as int, p as int);
        assert(left as int % (p as int) == 0);
        lemma_u64_low_bits_mask_is_mod(middle, lsb as nat);
        lemma_u64_low_bits_mask_is_mod(left, wl as nat);
        assert(middle & (((1u64 << lsb) - 1) as u64) == 0);
        assert(left & (((1u64 << wl) - 1) as u64) == 0);
        assert(left | middle | right == left + middle + right) by (bit_vector)
            requires
                lsb < wl && wl < 64 && right < (1u64 << lsb) && middle & (((1u64 << lsb)
                    - 1) as u64) == 0 && middle < (1u64 << wl) && left & (((1u64 << wl)
                    - 1) as u64) == 0,
        ;
    } else {
        lemma2_to64();
        lemma_basic_div(word as int, pow2(64) as int);
        assert((word as nat) / pow2(64) == 0);
        assert((word as nat) / pow2(64) * pow2(64) == 0) by (nonlinear_arith)
            requires
                (word as nat) / pow2(64) == 0,
        ;
        assert(left == 0);
        lemma_u64_low_bits_mask_is_mod(middle, lsb as nat);
        assert(middle & (((1u64 << lsb) - 1) as u64) == 0);
        assert(left | middle | right == middle + right) by (bit_vector)
            requires
                left == 0u64 && lsb < 64 && right < (1u64 << lsb) && middle & (((1u64 << lsb)
                    - 1) as u64) == 0,
        ;
    }
}

/// Return `word` with the `width`-bit field at bit `lsb` overwritten by the
/// unsigned `value`, or `None` when the value does not fit the width. Every
/// bit outside the field keeps its old value.
pub fn newu(word: u64, width: u64, lsb: u64, value: u64) -> (r: Option<u64>)
    requires
        width + lsb <= 64,
    ensures
        r is Some <==> fits_unsigned(value, width),
        r is Some ==> r->Some_0 as nat == with_field(word, width, lsb, value as nat),
{
    if !fitsu(value, width) {
        return None;
    }
    let right: u64 = if lsb == 0 {
        0
    } else {
        (word << (64 - lsb)) >> (64 - lsb)
    };
    let left: u64 = if width + lsb == 64 {
        0
    } else {
        (word >> (width + lsb)) << (width + lsb)
    };
    let middle: u64 = value << lsb;
    proof {
        lemma_insertion_parts(word, width, lsb, left, right);
        lemma_pow2_adds(width as nat, lsb as nat);
        if width + lsb < 64 {
            lemma_pow2_strictly_increases((width + lsb) as nat, 64);
        }
        lemma2_to64();
        lemma_pow2_pos(lsb as nat);
        assert((value as nat) * pow2(lsb as nat) < pow2((width + lsb) as nat)) by (nonlinear_arith)
            requires
                (value as nat) < pow2(width as nat),
                pow2((width + lsb) as nat) == pow2(width as nat) * pow2(lsb as nat),
                pow2(lsb as nat) > 0,
        ;
        lemma_u64_shl_is_mul(value, lsb);
        lemma_combine(word, width, lsb, value as nat, left, middle, right);
    }
    Some(left | middle | right)
}

/// Return `word` with the `width`-bit field at bit `lsb` overwritten by the
/// two's-complement pattern of the signed `value`, or `None` when the value
/// does not fit the width. Every bit outside the field keeps its old value.
pub fn news(word: u64, width: u64, lsb: u64, value: i64) -> (r: Option<u64>)
    requires
        width + lsb <= 64,
    ensures
        r is Some <==> fits_signed(value, width),
        r is Some ==> r->Some_0 as nat == with_field(
            word,
            width,
            lsb,
            twos_complement(value, width),
        ),
{
    if !fitss(value, width) {
        return None;
    }
    let right: u64 = if lsb == 0 {
        0
    } else {
        (word << (64 - lsb)) >> (64 - lsb)
    };
    let left: u64 = if width + lsb == 64 {
        0
    } else {
        (word >> (width + lsb)) << (width + lsb)
    };
    let middle: u64 = if value >= 0 {
        (value as u64) << lsb
    } else {
        ((value << (64 - width)) as u64) >> (64 - width - lsb)
    };
    proof {
        lemma_insertion_parts(word, width, lsb, left, right);
        lemma_middle_signed(value, width, lsb, middle);
        lemma_twos_complement_bound(value, width);
        lemma_combine(word, width, lsb, twos_complement(value, width), left, middle, right);
    }
    Some(left | middle | right)
}

/// The middle word computed by `news` is the two's-complement pattern of the
/// value, placed at bit `lsb`.
#[verifier::rlimit(100)]
proof fn lemma_middle_signed(value: i64, width: u64, lsb: u64, middle: u64)
    requires
        fits_signed(value, width),
        width + lsb <= 64,
        middle == if value >= 0 {
            ((value as u64) << lsb)
        } else {
            (((value << ((64 - width) as u64)) as u64) >> ((64 - width - lsb) as u64))
        },
    ensures
        middle as nat == twos_complement(value, width) * pow2(lsb as nat),
{
    lemma_pow2_pos(lsb as nat);
    lemma_u64_pow2_no_overflow(lsb as nat);
    lemma_u64_shl_is_mul(1u64, lsb);
    lemma_pow2_adds(width as nat, lsb as nat);
    if width + lsb < 64 {
        lemma_pow2_strictly_increases((width + lsb) as nat, 64);
    }
    lemma2_to64();
    if value >= 0 {
        lemma_pow2_strictly_increases((width - 1) as nat, width as nat);
        assert((value as nat) * pow2(lsb as nat) < pow2((width + lsb) as nat)) by (nonlinear_arith)
            requires
                (value as nat) < pow2(width as nat),
                pow2((width + lsb) as nat) == pow2(width as nat) * pow2(lsb as nat),
                pow2(lsb as nat) > 0,
        ;
        lemma_u64_shl_is_mul(value as u64, lsb);
        assert(middle as nat == twos_complement(value, width) * pow2(lsb as nat));
    } else if width == 64 {
        assert(((value << ((64 - width) as u64)) as u64) >> ((64 - width - lsb) as u64) == value
            + 0x10000000000000000) by (bit_vector)
            requires
                width == 64u64 && lsb == 0u64 && value < 0,
        ;
        assert(middle as nat == twos_complement(value, width) * pow2(lsb as nat));
    } else {
        let s: u64 = (64 - width) as u64;
        let t: u64 = (64 - width - lsb) as u64;
        let pattern: u64 = (value as u64) & (((1u64 << width) - 1) as u64);
        lemma_u64_pow2_no_overflow((width - 1) as nat);
        lemma_u64_shl_is_mul(1u64, (width - 1) as u64);
        lemma_u64_pow2_no_overflow(width as nat);
        lemma_u64_shl_is_mul(1u64, width);
        assert(((value << s) as u64) >> t == ((value as u64) & (((1u64 << width) - 1) as u64))
            << lsb) by (bit_vector)
            requires
                s == 64 - width && t == 64 - width - lsb && 1 <= width && width < 64 && width + lsb
                    <= 64,
        ;
        assert((value as u64) & (((1u64 << width) - 1) as u64) == value + (1u64 << width))
            by (bit_vector)
            requires
                1 <= width && width < 64 && -(1u64 << ((width - 1) as u64)) <= value && value < 0,
        ;
        assert((pattern as nat) * pow2(lsb as nat) < pow2((width + lsb) as nat))
            by (nonlinear_arith)
            requires
                (pattern as nat) < pow2(width as nat),
                pow2((width + lsb) as nat) == pow2(width as nat) * pow2(lsb as nat),
                pow2(lsb as nat) > 0,
        ;
        lemma_u64_shl_is_mul(pattern, lsb);
        assert(middle as nat == twos_complement(value, width) * pow2(lsb as nat));
    }
}

/// The `left` and `right` words computed by the insertion functions are the
/// word's bits above the field and below it, as rounded quotient and
/// remainder.
proof fn lemma_insertion_parts(word: u64, width: u64, lsb: u64, left: u64, right: u64)
    requires
        1 <= width,
        width + lsb <= 64,
        right == if lsb == 0 {
            0u64
        } else {
            (word << ((64 - lsb) as u64)) >> ((64 - lsb) as u64)
        },
        left == if width + lsb == 64 {
            0u64
        } else {
            (word >> ((width + lsb) as u64)) << ((width + lsb) as u64)
        },
    ensures
        left as nat == (word as nat) / pow2((width + lsb) as nat) * pow2((width + lsb) as nat),
        right as nat == (word as nat) % pow2(lsb as nat),
{
    if lsb == 0 {
        lemma2_to64();
        lemma_mod_of_one(word as nat);
    } else {
        lemma_low_part(word, lsb);
    }
    if width + lsb == 64 {
        lemma2_to64();
        lemma_basic_div(word as int, pow2(64) as int);
        assert((word as nat) / pow2(64) == 0);
        assert((word as nat) / pow2(64) * pow2(64) == 0) by (nonlinear_arith)
            requires
                (word as nat) / pow2(64) == 0,
        ;
    } else {
        lemma_high_part(word, (width + lsb) as u64);
    }
}

} // verus!
