//! The general laws of the library, stated and proved over the same
//! specification functions that the executable functions' contracts use.

use vstd::arithmetic::div_mod::lemma_fundamental_div_mod;
use vstd::arithmetic::div_mod::lemma_small_mod;
use vstd::arithmetic::power::{lemma_pow_increases, lemma_pow_multiplies, pow};
use vstd::arithmetic::power2::{lemma2_to64, lemma_pow2, pow2};
use vstd::prelude::*;

use crate::conv_trait::{
    dec_digits, lemma_dec_digits_props, lemma_fixed_digits_props, octal_digit_count,
    spec_digit_val, spec_from_base_parsed, spec_is_digit, spec_to_base_text,
};
use crate::generic_num::{
    fits_width, lemma_bit_high_zero, lemma_pow2_width_values, lemma_wrap_signed_fits, nth_bit,
    spec_least_variant, wrap_signed, GenericNum,
};
use crate::{Base, DataSize};

verus! {

/// Minimal-width inference: the narrowest variant holds the value exactly,
/// and no strictly narrower width could.
pub proof fn lemma_least_variant_minimal(x: int)
    requires
        fits_width(x, 128),
    ensures
        spec_least_variant(x).as_int() == x,
        fits_width(x, spec_least_variant(x).width_bits()),
        spec_least_variant(x).width_bits() > 8 ==> !fits_width(x, 8),
        spec_least_variant(x).width_bits() > 16 ==> !fits_width(x, 16),
        spec_least_variant(x).width_bits() > 32 ==> !fits_width(x, 32),
        spec_least_variant(x).width_bits() > 64 ==> !fits_width(x, 64),
{
    lemma_pow2_width_values();
}

/// Width conversion idempotence: converting a value to two widths in turn
/// and then back to its own width reproduces the value, whenever neither
/// target width discards information.
pub proof fn lemma_resize_round_trip(v: GenericNum, s1: DataSize, s2: DataSize)
    requires
        fits_width(v.as_int(), s1.spec_bits()),
        fits_width(v.as_int(), s2.spec_bits()),
    ensures
        wrap_signed(
            wrap_signed(wrap_signed(v.as_int(), s1.spec_bits()), s2.spec_bits()),
            v.width_bits(),
        ) == v.as_int(),
{
    let x = v.as_int();
    v.lemma_value_in_width();
    lemma_wrap_signed_fits(x, s1.spec_bits());
    lemma_wrap_signed_fits(x, s2.spec_bits());
    lemma_wrap_signed_fits(x, v.width_bits());
}

/// Bit indexing boundary: every bit at or beyond the variant's width reads
/// as zero.
pub proof fn lemma_bit_index_boundary(v: GenericNum, idx: nat)
    requires
        idx >= v.width_bits(),
    ensures
        !nth_bit(v.upat(), idx),
{
    v.lemma_value_in_width();
    lemma_bit_high_zero(v.upat(), v.width_bits(), idx);
}

/// Sign bit correctness: the value is negative exactly when the most
/// significant bit of the variant's width is set in the pattern.
pub proof fn lemma_sign_bit_is_top_bit(v: GenericNum)
    ensures
        (v.as_int() < 0) == nth_bit(v.upat(), (v.width_bits() - 1) as nat),
{
    v.lemma_value_in_width();
    lemma_pow2_width_values();
    let p = v.upat();
    let w = v.width_bits();
    let h = pow2((w - 1) as nat) as int;
    vstd::arithmetic::power2::lemma_pow2_unfold(w);
    if p < h {
        vstd::arithmetic::div_mod::lemma_basic_div(p as int, h);
    } else {
        vstd::arithmetic::div_mod::lemma_multiply_divide_lt(p as int, h, 2);
        vstd::arithmetic::div_mod::lemma_div_is_ordered(h, p as int, h);
        vstd::arithmetic::div_mod::lemma_div_by_self(h);
        assert(p as int / h == 1);
        lemma_small_mod(1, 2);
    }
}

/// The five variant widths.
proof fn lemma_width_cases(v: GenericNum)
    ensures
        v.width_bits() == 8 || v.width_bits() == 16 || v.width_bits() == 32 || v.width_bits()
            == 64 || v.width_bits() == 128,
{
}

/// Round-trip: rendering a value and parsing the text back under the same
/// base reconstructs a value numerically equal to the original, for every
/// value in decimal, and for every non-negative value in the other bases.
/// A negative value renders in binary, octal and hexadecimal as its raw
/// two's-complement pattern, which parses back as the pattern's unsigned
/// reading, not as the original value.
pub proof fn lemma_format_parse_round_trip(v: GenericNum, base: Base)
    requires
        base is Decimal || v.as_int() >= 0,
    ensures
        ({
            let r = spec_from_base_parsed(spec_to_base_text(v, base), base);
            &&& r is Some
            &&& r->Some_0.as_int() == v.as_int()
        }),
{
    v.lemma_value_in_width();
    lemma_pow2_width_values();
    lemma_width_cases(v);
    let x = v.as_int();
    let w = v.width_bits();
    let p = v.upat();
    let s = spec_to_base_text(v, base);
    match base {
        Base::Decimal => {
            if x >= 0 {
                lemma_dec_digits_props(x as nat);
                assert(spec_is_digit(s[0], 10));
                assert(spec_digit_val('-') == 16);
                assert(s[0] != '-');
                lemma_least_variant_minimal(x);
            } else {
                let m = (-x) as nat;
                lemma_dec_digits_props(m);
                assert(s[0] == '-');
                assert(s.skip(1) =~= dec_digits(m));
                assert(m <= 0x80000000000000000000000000000000);
                lemma_least_variant_minimal(x);
            }
        },
        Base::Binary => {
            lemma_fixed_digits_props(p, 2, w, false);
            lemma_pow2(w);
            lemma_small_mod(p, pow(2, w) as nat);
            lemma_least_variant_minimal(x);
        },
        Base::Octal => {
            let wd = octal_digit_count(w);
            lemma_fixed_digits_props(p, 8, wd, false);
            assert(pow2(3) == 8) by {
                lemma2_to64();
            }
            lemma_pow2(3);
            lemma_pow_multiplies(2, 3, wd);
            assert(3 * wd >= w) by {
                lemma_fundamental_div_mod(w as int + 2, 3);
            }
            lemma_pow_increases(2, w, 3 * wd);
            lemma_pow2(w);
            lemma_small_mod(p, pow(8, wd) as nat);
            lemma_least_variant_minimal(x);
        },
        Base::Hex => {
            let wd = w / 4;
            lemma_fixed_digits_props(p, 16, wd, false);
            assert(pow2(4) == 16) by {
                lemma2_to64();
            }
            lemma_pow2(4);
            lemma_pow_multiplies(2, 4, wd);
            assert(4 * wd == w);
            lemma_pow2(w);
            lemma_small_mod(p, pow(16, wd) as nat);
            lemma_least_variant_minimal(x);
        },
    }
}

} // verus!
