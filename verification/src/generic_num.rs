//! The tagged multi-width numeric value and its operations.

use vstd::arithmetic::div_mod::*;
use vstd::arithmetic::mul::{lemma_mul_inequality, lemma_mul_nonnegative};
use vstd::arithmetic::power2::*;
use vstd::prelude::*;

use crate::conv_trait::{
    parse_digits, push_char, push_dec_digits, push_fixed_digits, spec_from_base_parsed,
    spec_parse_decimal, spec_parse_unsigned, spec_to_base_text, BinaryConvert, DecimalConvert,
    HexConvert, OctalConvert,
};
use crate::{Base, DataSize};

verus! {

/// `x` is representable as a signed two's-complement integer of `w` bits.
pub open spec fn fits_width(x: int, w: nat) -> bool
    recommends
        w >= 1,
{
    -(pow2((w - 1) as nat) as int) <= x < pow2((w - 1) as nat)
}

/// The two's-complement bit pattern of `x` at width `w`, as a number:
/// `x` itself when `x` is non-negative, `x + 2^w` otherwise.
pub open spec fn pat_of(x: int, w: nat) -> nat
    recommends
        fits_width(x, w),
{
    if x >= 0 {
        x as nat
    } else {
        (x + pow2(w)) as nat
    }
}

/// The signed integer whose two's-complement pattern at width `w` is `p`.
pub open spec fn signed_of_pat(p: nat, w: nat) -> int
    recommends
        w >= 1,
        p < pow2(w),
{
    if p < pow2((w - 1) as nat) {
        p as int
    } else {
        p - pow2(w)
    }
}

/// Two's-complement truncation of the integer `x` to width `w`: the unique
/// `y` with `fits_width(y, w)` and `y == x` modulo `2^w`.
pub open spec fn wrap_signed(x: int, w: nat) -> int
    recommends
        w >= 1,
{
    signed_of_pat((x % (pow2(w) as int)) as nat, w)
}

/// Bit `i` of the number `p`, counting from the least significant bit.
pub open spec fn nth_bit(p: nat, i: nat) -> bool {
    (p / pow2(i)) % 2 == 1
}

/// The concrete values of the powers of two at the five variant widths.
pub proof fn lemma_pow2_width_values()
    ensures
        pow2(7) == 0x80,
        pow2(8) == 0x100,
        pow2(15) == 0x8000,
        pow2(16) == 0x10000,
        pow2(31) == 0x80000000,
        pow2(32) == 0x100000000,
        pow2(63) == 0x8000000000000000,
        pow2(64) == 0x10000000000000000,
        pow2(127) == 0x80000000000000000000000000000000,
        pow2(128) == 0x100000000000000000000000000000000,
{
    lemma2_to64();
    lemma2_to64_rest();
    lemma_pow2_adds(64, 63);
    lemma_pow2_adds(64, 64);
}

/// Converting a pattern to its signed reading and back is the identity.
pub proof fn lemma_pat_of_signed(p: nat, w: nat)
    requires
        w >= 1,
        p < pow2(w),
    ensures
        fits_width(signed_of_pat(p, w), w),
        pat_of(signed_of_pat(p, w), w) == p,
{
    lemma_pow2_unfold(w);
}

/// Converting a representable integer to its pattern and back is the identity.
pub proof fn lemma_signed_of_pat_of(x: int, w: nat)
    requires
        w >= 1,
        fits_width(x, w),
    ensures
        pat_of(x, w) < pow2(w),
        signed_of_pat(pat_of(x, w), w) == x,
{
    lemma_pow2_unfold(w);
}

/// A signed integer of one of five fixed bit widths.
///
/// Exactly one variant is active at a time; the stored value is always exactly
/// as wide as the variant declares.
#[derive(Clone, Copy, Debug, PartialEq, Eq, Structural)]
pub enum GenericNum {
    Byte(i8),
    Word(i16),
    DWord(i32),
    QWord(i64),
    OWord(i128),
}

impl GenericNum {
    /// The width of the active variant, in bits.
    pub open spec fn width_bits(self) -> nat {
        self.spec_data_size().spec_bits()
    }

    /// The signed value held, as a mathematical integer.
    pub open spec fn as_int(self) -> int {
        match self {
            GenericNum::Byte(i) => i as int,
            GenericNum::Word(i) => i as int,
            GenericNum::DWord(i) => i as int,
            GenericNum::QWord(i) => i as int,
            GenericNum::OWord(i) => i as int,
        }
    }

    /// The two's-complement bit pattern held, as a number.
    pub open spec fn upat(self) -> nat {
        pat_of(self.as_int(), self.width_bits())
    }

    /// The width tag of the active variant.
    pub open spec fn spec_data_size(self) -> DataSize {
        match self {
            GenericNum::Byte(_) => DataSize::Byte,
            GenericNum::Word(_) => DataSize::Word,
            GenericNum::DWord(_) => DataSize::DWord,
            GenericNum::QWord(_) => DataSize::QWord,
            GenericNum::OWord(_) => DataSize::OWord,
        }
    }

    /// The value held always fits the width of its variant, and the pattern
    /// and the signed reading determine each other.
    pub proof fn lemma_value_in_width(self)
        ensures
            1 <= self.width_bits() <= 128,
            fits_width(self.as_int(), self.width_bits()),
            self.upat() < pow2(self.width_bits()),
            signed_of_pat(self.upat(), self.width_bits()) == self.as_int(),
    {
        lemma_pow2_width_values();
        lemma_signed_of_pat_of(self.as_int(), self.width_bits());
    }

    /// The width tag of the active variant.
    pub fn data_size(&self) -> (r: DataSize)
        ensures
            r == self.spec_data_size(),
    {
        match self {
            GenericNum::Byte(_) => DataSize::Byte,
            GenericNum::Word(_) => DataSize::Word,
            GenericNum::DWord(_) => DataSize::DWord,
            GenericNum::QWord(_) => DataSize::QWord,
            GenericNum::OWord(_) => DataSize::OWord,
        }
    }

    /// Whether the most significant bit of the active variant is set, that
    /// is, whether the signed reading is negative.
    pub fn sign_bit(&self) -> (r: bool)
        ensures
            r == (self.as_int() < 0),
    {
        match self {
            GenericNum::Byte(i) => *i < 0,
            GenericNum::Word(i) => *i < 0,
            GenericNum::DWord(i) => *i < 0,
            GenericNum::QWord(i) => *i < 0,
            GenericNum::OWord(i) => *i < 0,
        }
    }
}

impl Default for GenericNum {
    /// The default value: the 8-bit variant holding zero.
    fn default() -> (r: Self)
        ensures
            r == GenericNum::Byte(0i8),
    {
        GenericNum::Byte(0)
    }
}

/// The narrowest variant that holds the integer `x` exactly.
pub open spec fn spec_least_variant(x: int) -> GenericNum
    recommends
        fits_width(x, 128),
{
    if fits_width(x, 8) {
        GenericNum::Byte(x as i8)
    } else if fits_width(x, 16) {
        GenericNum::Word(x as i16)
    } else if fits_width(x, 32) {
        GenericNum::DWord(x as i32)
    } else if fits_width(x, 64) {
        GenericNum::QWord(x as i64)
    } else {
        GenericNum::OWord(x as i128)
    }
}

/// The two's-complement pattern of an 8-bit value, computed without
/// truncating casts.
fn pat8(i: i8) -> (p: u8)
    ensures
        p as nat == pat_of(i as int, 8),
{
    proof {
        lemma_pow2_width_values();
    }
    if i >= 0 {
        i as u8
    } else {
        ((i as i16) + 0x100) as u8
    }
}

/// The signed reading of an 8-bit pattern.
fn sig8(p: u8) -> (i: i8)
    ensures
        i as int == signed_of_pat(p as nat, 8),
{
    proof {
        lemma_pow2_width_values();
    }
    if p < 0x80 {
        p as i8
    } else {
        ((p as i16) - 0x100) as i8
    }
}

/// The two's-complement pattern of a 16-bit value.
fn pat16(i: i16) -> (p: u16)
    ensures
        p as nat == pat_of(i as int, 16),
{
    proof {
        lemma_pow2_width_values();
    }
    if i >= 0 {
        i as u16
    } else {
        ((i as i32) + 0x10000) as u16
    }
}

/// The signed reading of a 16-bit pattern.
fn sig16(p: u16) -> (i: i16)
    ensures
        i as int == signed_of_pat(p as nat, 16),
{
    proof {
        lemma_pow2_width_values();
    }
    if p < 0x8000 {
        p as i16
    } else {
        ((p as i32) - 0x10000) as i16
    }
}

/// The two's-complement pattern of a 32-bit value.
fn pat32(i: i32) -> (p: u32)
    ensures
        p as nat == pat_of(i as int, 32),
{
    proof {
        lemma_pow2_width_values();
    }
    if i >= 0 {
        i as u32
    } else {
        ((i as i64) + 0x100000000) as u32
    }
}

/// The signed reading of a 32-bit pattern.
fn sig32(p: u32) -> (i: i32)
    ensures
        i as int == signed_of_pat(p as nat, 32),
{
    proof {
        lemma_pow2_width_values();
    }
    if p < 0x80000000 {
        p as i32
    } else {
        ((p as i64) - 0x100000000) as i32
    }
}

/// The two's-complement pattern of a 64-bit value.
fn pat64(i: i64) -> (p: u64)
    ensures
        p as nat == pat_of(i as int, 64),
{
    proof {
        lemma_pow2_width_values();
    }
    if i >= 0 {
        i as u64
    } else {
        ((i as i128) + 0x10000000000000000) as u64
    }
}

/// The signed reading of a 64-bit pattern.
fn sig64(p: u64) -> (i: i64)
    ensures
        i as int == signed_of_pat(p as nat, 64),
{
    proof {
        lemma_pow2_width_values();
    }
    if p < 0x8000000000000000 {
        p as i64
    } else {
        ((p as i128) - 0x10000000000000000) as i64
    }
}

/// The two's-complement pattern of a 128-bit value. There is no wider
/// primitive to widen into, so a negative value is complemented by hand.
fn pat128(i: i128) -> (p: u128)
    ensures
        p as nat == pat_of(i as int, 128),
{
    proof {
        lemma_pow2_width_values();
    }
    if i >= 0 {
        i as u128
    } else {
        let m = (-(i + 1)) as u128;
        u128::MAX - m
    }
}

/// The signed reading of a 128-bit pattern.
fn sig128(p: u128) -> (i: i128)
    ensures
        i as int == signed_of_pat(p as nat, 128),
{
    proof {
        lemma_pow2_width_values();
    }
    if p < 0x80000000000000000000000000000000 {
        p as i128
    } else {
        let m = u128::MAX - p;
        -(m as i128) - 1
    }
}

impl GenericNum {
    /// The pattern of the active variant, zero-extended to 128 bits.
    fn upat128(&self) -> (p: u128)
        ensures
            p as nat == self.upat(),
    {
        match self {
            GenericNum::Byte(i) => pat8(*i) as u128,
            GenericNum::Word(i) => pat16(*i) as u128,
            GenericNum::DWord(i) => pat32(*i) as u128,
            GenericNum::QWord(i) => pat64(*i) as u128,
            GenericNum::OWord(i) => pat128(*i),
        }
    }

    /// The value of the active variant, sign-extended to 128 bits.
    fn value_i128(&self) -> (v: i128)
        ensures
            v as int == self.as_int(),
    {
        match self {
            GenericNum::Byte(i) => *i as i128,
            GenericNum::Word(i) => *i as i128,
            GenericNum::DWord(i) => *i as i128,
            GenericNum::QWord(i) => *i as i128,
            GenericNum::OWord(i) => *i,
        }
    }

    /// Build the variant tagged `size` from a pattern of that width.
    fn from_pat(p: u128, size: DataSize) -> (r: GenericNum)
        requires
            (p as nat) < pow2(size.spec_bits()),
        ensures
            r.spec_data_size() == size,
            r.upat() == p as nat,
    {
        proof {
            lemma_pow2_width_values();
            lemma_pat_of_signed(p as nat, size.spec_bits());
        }
        match size {
            DataSize::Byte => GenericNum::Byte(sig8(p as u8)),
            DataSize::Word => GenericNum::Word(sig16(p as u16)),
            DataSize::DWord => GenericNum::DWord(sig32(p as u32)),
            DataSize::QWord => GenericNum::QWord(sig64(p as u64)),
            DataSize::OWord => GenericNum::OWord(sig128(p)),
        }
    }
}

impl GenericNum {
    /// Wrap `num` in the narrowest variant that represents it exactly,
    /// trying the 8-, 16-, 32- and 64-bit widths in that order.
    pub(crate) fn use_least_size(num: i128) -> (r: GenericNum)
        ensures
            r == spec_least_variant(num as int),
            r.as_int() == num as int,
    {
        proof {
            lemma_pow2_width_values();
        }
        if -0x80 <= num && num <= 0x7f {
            GenericNum::Byte(num as i8)
        } else if -0x8000 <= num && num <= 0x7fff {
            GenericNum::Word(num as i16)
        } else if -0x80000000 <= num && num <= 0x7fffffff {
            GenericNum::DWord(num as i32)
        } else if -0x8000000000000000 <= num && num <= 0x7fffffffffffffff {
            GenericNum::QWord(num as i64)
        } else {
            GenericNum::OWord(num)
        }
    }
}

/// An integer in `[0, m)` is its own remainder.
proof fn lemma_int_small_mod(x: int, m: int)
    requires
        0 <= x < m,
    ensures
        x % m == x,
{
    lemma_fundamental_div_mod_converse_mod(x, m, 0, x);
}

/// The 128-bit pattern of `x` leaves the same remainder as `x` itself at
/// every variant width.
proof fn lemma_pat128_mod(x: int, w: nat)
    requires
        1 <= w <= 128,
        fits_width(x, 128),
    ensures
        (pat_of(x, 128) as int) % (pow2(w) as int) == x % (pow2(w) as int),
{
    lemma_pow2_pos(w);
    if x < 0 {
        lemma_pow2_strictly_increases(127, 128);
        lemma_pow2_adds(w, (128 - w) as nat);
        lemma_mod_multiples_vanish(pow2((128 - w) as nat) as int, x, pow2(w) as int);
        assert(x + pow2(128) >= 0);
        assert(pow2(w) * pow2((128 - w) as nat) + x == pat_of(x, 128) as int);
    }
}

/// Truncating the two's-complement pattern of a representable integer keeps
/// the integer; and the truncation of any integer is representable.
pub proof fn lemma_wrap_signed_fits(x: int, w: nat)
    requires
        1 <= w,
    ensures
        fits_width(wrap_signed(x, w), w),
        fits_width(x, w) ==> wrap_signed(x, w) == x,
{
    lemma_pow2_pos(w);
    lemma_pow2_unfold(w);
    let m = pow2(w) as int;
    let p = x % m;
    lemma_mod_division_less_than_divisor(x, m);
    lemma_pat_of_signed(p as nat, w);
    if fits_width(x, w) {
        if x >= 0 {
            lemma_int_small_mod(x, m);
        } else {
            lemma_mod_add_multiples_vanish(x, m);
            lemma_int_small_mod(x + m, m);
        }
    }
}

impl GenericNum {
    /// Build the variant tagged `size` holding the two's-complement
    /// truncation of `v` to that width.
    fn from_int_trunc(v: i128, size: DataSize) -> (r: GenericNum)
        ensures
            r.spec_data_size() == size,
            r.as_int() == wrap_signed(v as int, size.spec_bits()),
    {
        proof {
            lemma_pow2_width_values();
        }
        let p = pat128(v);
        let t: u128 = match size {
            DataSize::Byte => p % 0x100,
            DataSize::Word => p % 0x10000,
            DataSize::DWord => p % 0x100000000,
            DataSize::QWord => p % 0x10000000000000000,
            DataSize::OWord => p,
        };
        proof {
            let w = size.spec_bits();
            lemma_pat128_mod(v as int, w);
            if size is OWord {
                lemma_int_small_mod(p as int, pow2(128) as int);
            }
            assert(t as nat == ((v as int) % (pow2(w) as int)) as nat);
            lemma_mod_division_less_than_divisor(v as int, pow2(w) as int);
        }
        let r = GenericNum::from_pat(t, size);
        proof {
            lemma_pat_of_signed(t as nat, size.spec_bits());
        }
        r
    }

    /// Convert the value to the width `size`: the value is kept exactly when
    /// it fits the target width (sign extension), and is truncated to the
    /// low-order bits of its two's-complement pattern otherwise.
    pub fn to_size(&self, size: DataSize) -> (r: Self)
        ensures
            r.spec_data_size() == size,
            r.as_int() == wrap_signed(self.as_int(), size.spec_bits()),
    {
        let v = self.value_i128();
        GenericNum::from_int_trunc(v, size)
    }

    /// Convert the value to the 8-bit width.
    pub fn to_byte(&self) -> (r: Self)
        ensures
            r.spec_data_size() == DataSize::Byte,
            r.as_int() == wrap_signed(self.as_int(), 8),
    {
        self.to_size(DataSize::Byte)
    }

    /// Convert the value to the 16-bit width.
    pub fn to_word(&self) -> (r: Self)
        ensures
            r.spec_data_size() == DataSize::Word,
            r.as_int() == wrap_signed(self.as_int(), 16),
    {
        self.to_size(DataSize::Word)
    }

    /// Convert the value to the 32-bit width.
    pub fn to_dword(&self) -> (r: Self)
        ensures
            r.spec_data_size() == DataSize::DWord,
            r.as_int() == wrap_signed(self.as_int(), 32),
    {
        self.to_size(DataSize::DWord)
    }

    /// Convert the value to the 64-bit width.
    pub fn to_qword(&self) -> (r: Self)
        ensures
            r.spec_data_size() == DataSize::QWord,
            r.as_int() == wrap_signed(self.as_int(), 64),
    {
        self.to_size(DataSize::QWord)
    }

    /// Convert the value to the 128-bit width.
    pub fn to_oword(&self) -> (r: Self)
        ensures
            r.spec_data_size() == DataSize::OWord,
            r.as_int() == wrap_signed(self.as_int(), 128),
    {
        self.to_size(DataSize::OWord)
    }

    /// Whether the 64-bit truncation of the value is zero. For the widths up
    /// to 64 bits this is exactly a test for zero; the 128-bit variant is
    /// first truncated to 64 bits, so a multiple of `2^64` also reports true.
    pub fn is_zero(&self) -> (r: bool)
        ensures
            r == (self.as_int() % (pow2(64) as int) == 0),
            self.width_bits() <= 64 ==> r == (self.as_int() == 0),
    {
        proof {
            lemma_pow2_width_values();
            self.lemma_value_in_width();
            lemma_wrap_signed_fits(self.as_int(), 64);
            if self.width_bits() <= 64 {
                lemma_pow2_strictly_increases((self.width_bits() - 1) as nat, 64);
                if self.width_bits() < 64 {
                    lemma_pow2_strictly_increases(self.width_bits(), 64);
                }
            }
        }
        let q = self.to_qword();
        match q {
            GenericNum::QWord(i) => i == 0,
            _ => false,
        }
    }

    /// The two's-complement negation of the value within its own width: the
    /// value `-x` truncated to the width, so the minimum value of a width
    /// negates to itself.
    pub fn wrapping_neg(&self) -> (r: Self)
        ensures
            r.spec_data_size() == self.spec_data_size(),
            r.as_int() == wrap_signed(-self.as_int(), self.width_bits()),
    {
        proof {
            lemma_pow2_width_values();
            self.lemma_value_in_width();
        }
        let p = self.upat128();
        let size = self.data_size();
        let ghost x = self.as_int();
        let ghost w = self.width_bits();
        if p == 0 {
            proof {
                lemma_pow2_pos(w);
                lemma_int_small_mod(0, pow2(w) as int);
                lemma_pat_of_signed(0, w);
            }
            GenericNum::from_pat(0, size)
        } else {
            let t: u128 = match size {
                DataSize::Byte => 0x100 - p,
                DataSize::Word => 0x10000 - p,
                DataSize::DWord => 0x100000000 - p,
                DataSize::QWord => 0x10000000000000000 - p,
                DataSize::OWord => (u128::MAX - p) + 1,
            };
            proof {
                assert(t as nat == pow2(w) - p as nat);
                let m = pow2(w) as int;
                if x > 0 {
                    lemma_mod_add_multiples_vanish(-x, m);
                    lemma_int_small_mod(m - x, m);
                } else {
                    lemma_int_small_mod(-x, m);
                }
                assert((-x) % m == t as int);
                lemma_pat_of_signed(t as nat, w);
            }
            GenericNum::from_pat(t, size)
        }
    }
}

/// Splitting a number at bit `i`: the remainder modulo `2^(i+1)` is bit `i`
/// followed by the remainder modulo `2^i`.
proof fn lemma_bit_parts(p: nat, i: nat)
    ensures
        p % pow2(i + 1) == pow2(i) * ((p / pow2(i)) % 2) + p % pow2(i),
        p % pow2(i) < pow2(i),
{
    lemma_pow2_pos(i);
    lemma_pow2_unfold(i + 1);
    lemma_breakdown(p as int, pow2(i) as int, 2);
    lemma_mod_division_less_than_divisor(p as int, pow2(i) as int);
}

/// Bounds for flipping bit `i` of a pattern of width `w`: a set bit can be
/// subtracted, and a clear bit can be added without leaving the width.
proof fn lemma_flip_bounds(p: nat, w: nat, i: nat)
    requires
        i < w,
        p < pow2(w),
    ensures
        nth_bit(p, i) ==> pow2(i) <= p,
        !nth_bit(p, i) ==> p + pow2(i) < pow2(w),
{
    lemma_pow2_pos(i);
    lemma_pow2_pos((i + 1) as nat);
    lemma_bit_parts(p, i);
    let e = pow2(i + 1) as int;
    let a = p as int / e;
    lemma_fundamental_div_mod(p as int, e);
    lemma_mod_division_less_than_divisor(p as int, e);
    lemma_div_pos_is_pos(p as int, e);
    if nth_bit(p, i) {
        lemma_mul_nonnegative(a, e);
    } else {
        let c = pow2((w - i - 1) as nat) as int;
        lemma_pow2_adds(i + 1, (w - i - 1) as nat);
        lemma_pow2_unfold((i + 1) as nat);
        lemma_multiply_divide_lt(p as int, e, c);
        lemma_mul_inequality(a + 1, c, e);
        assert((p as int % e) + pow2(i) < e);
        assert(p + pow2(i) < (a + 1) * e) by (nonlinear_arith)
            requires
                p as int == e * a + (p as int % e),
                (p as int % e) + pow2(i) < e,
        ;
        assert(a + 1 <= c);
        assert(c * e == pow2(w));
        assert(p + pow2(i) < pow2(w));
    }
}

/// Flipping bit `i` by adding or subtracting `2^i` flips exactly that bit's
/// reading.
proof fn lemma_flip_bit_value(p: nat, i: nat)
    ensures
        nth_bit(p, i) ==> !nth_bit((p - pow2(i)) as nat, i),
        !nth_bit(p, i) ==> nth_bit((p + pow2(i)) as nat, i),
{
    lemma_pow2_pos(i);
    let e = pow2(i) as int;
    let q = p as int / e;
    lemma_div_pos_is_pos(p as int, e);
    if nth_bit(p, i) {
        lemma_mod_division_less_than_divisor(q, 2);
        let t = (q - 1) / 2;
        lemma_fundamental_div_mod(q, 2);
        assert(q == 2 * t + 1) by {
            lemma_fundamental_div_mod_converse_div(q, 2, t, 1);
        }
        assert(e <= p) by {
            lemma_fundamental_div_mod(p as int, e);
            lemma_mod_division_less_than_divisor(p as int, e);
            lemma_mul_inequality(1, q, e);
        }
        assert((p - e) / e == q - 1) by {
            lemma_div_minus_one(p as int, e);
        }
        assert((q - 1) % 2 == 0) by {
            lemma_fundamental_div_mod_converse_mod(q - 1, 2, t, 0);
        }
    } else {
        lemma_mod_division_less_than_divisor(q, 2);
        let t = q / 2;
        lemma_fundamental_div_mod(q, 2);
        assert(q == 2 * t) by {
            lemma_fundamental_div_mod_converse_div(q, 2, t, 0);
        }
        assert((p + e) / e == q + 1) by {
            lemma_div_plus_one(p as int, e);
        }
        assert((q + 1) % 2 == 1) by {
            lemma_fundamental_div_mod_converse_mod(q + 1, 2, t, 1);
        }
    }
}

/// Bit `j` of a number assembled from a high part above bit `i`, the single
/// bit `b` at `i`, and a low part below `i`.
proof fn lemma_bits_of_composition(hi: nat, b: nat, lo: nat, i: nat, j: nat)
    requires
        b < 2,
        lo < pow2(i),
    ensures
        nth_bit(hi * pow2(i + 1) + b * pow2(i) + lo, j) == (if j < i {
            nth_bit(lo, j)
        } else if j == i {
            b == 1
        } else {
            nth_bit(hi, (j - i - 1) as nat)
        }),
{
    let x = hi * pow2(i + 1) + b * pow2(i) + lo;
    lemma_pow2_pos(i);
    lemma_pow2_pos(j);
    lemma_pow2_pos(i + 1);
    if j < i {
        let e = pow2(j) as int;
        let q = hi * pow2((i + 1 - j) as nat) + b * pow2((i - j) as nat) + lo / pow2(j);
        lemma_pow2_pos((i - j) as nat);
        lemma_pow2_pos((i + 1 - j) as nat);
        lemma_pow2_adds((i + 1 - j) as nat, j);
        lemma_pow2_adds((i - j) as nat, j);
        lemma_fundamental_div_mod(lo as int, e);
        lemma_mod_division_less_than_divisor(lo as int, e);
        assert(x as int == q * e + (lo as int % e)) by (nonlinear_arith)
            requires
                x == hi * pow2(i + 1) + b * pow2(i) + lo,
                pow2(i + 1) == pow2((i + 1 - j) as nat) * pow2(j),
                pow2(i) == pow2((i - j) as nat) * pow2(j),
                lo as int == (pow2(j) as int) * ((lo as int) / (pow2(j) as int)) + (lo as int % (
                pow2(j) as int)),
                q == hi * pow2((i + 1 - j) as nat) + b * pow2((i - j) as nat) + lo / pow2(j),
                e == pow2(j),
        ;
        lemma_fundamental_div_mod_converse_div(x as int, e, q as int, lo as int % e);
        // the two upper summands of the quotient are even
        let k = hi * pow2((i - j) as nat) + b * pow2(((i - j) - 1) as nat);
        lemma_pow2_unfold((i + 1 - j) as nat);
        lemma_pow2_unfold((i - j) as nat);
        assert(q == 2 * k + lo / pow2(j)) by (nonlinear_arith)
            requires
                i - j >= 1,
                q == hi * pow2((i + 1 - j) as nat) + b * pow2((i - j) as nat) + lo / pow2(j),
                k == hi * pow2((i - j) as nat) + b * pow2(((i - j) - 1) as nat),
                pow2((i + 1 - j) as nat) == 2 * pow2((i - j) as nat),
                pow2((i - j) as nat) == 2 * pow2(((i - j) - 1) as nat),
        ;
        lemma_mod_multiples_vanish(k as int, (lo / pow2(j)) as int, 2);
    } else if j == i {
        let e = pow2(i) as int;
        let q = hi * 2 + b;
        lemma_pow2_unfold(i + 1);
        assert(x as int == q * e + lo) by (nonlinear_arith)
            requires
                x == hi * pow2(i + 1) + b * pow2(i) + lo,
                pow2(i + 1) == 2 * pow2(i),
                q == hi * 2 + b,
                e == pow2(i),
        ;
        lemma_fundamental_div_mod_converse_div(x as int, e, q as int, lo as int);
        lemma_mod_multiples_vanish(hi as int, b as int, 2);
        lemma_int_small_mod(b as int, 2);
    } else {
        let e = pow2(i + 1) as int;
        let r = b * pow2(i) + lo;
        lemma_pow2_unfold(i + 1);
        assert(r < pow2(i + 1)) by (nonlinear_arith)
            requires
                b < 2,
                lo < pow2(i),
                r == b * pow2(i) + lo,
                pow2(i + 1) == 2 * pow2(i),
        ;
        assert(x as int == (hi as int) * e + r) by (nonlinear_arith)
            requires
                x == hi * pow2(i + 1) + b * pow2(i) + lo,
                r == b * pow2(i) + lo,
                e == pow2(i + 1),
        ;
        lemma_fundamental_div_mod_converse_div(x as int, e, hi as int, r as int);
        lemma_pow2_pos(((j - i) - 1) as nat);
        lemma_pow2_adds(i + 1, ((j - i) - 1) as nat);
        lemma_div_denominator(x as int, e, pow2(((j - i) - 1) as nat) as int);
    }
}

/// Splitting a pattern at bit `i` into its high part, its bit at `i`, and
/// its low part.
proof fn lemma_bit_decomposition(p: nat, i: nat)
    ensures
        p == (p / pow2(i + 1)) * pow2(i + 1) + ((p / pow2(i)) % 2) * pow2(i) + p % pow2(i),
{
    lemma_pow2_pos(i);
    lemma_pow2_pos(i + 1);
    lemma_fundamental_div_mod(p as int, pow2(i + 1) as int);
    lemma_bit_parts(p, i);
    let hi = p / pow2(i + 1);
    let b = (p / pow2(i)) % 2;
    let lo = p % pow2(i);
    let r1 = p % pow2(i + 1);
    assert(p == pow2(i + 1) * hi + r1);
    assert(p == hi * pow2(i + 1) + b * pow2(i) + lo) by (nonlinear_arith)
        requires
            p == pow2(i + 1) * hi + r1,
            r1 == pow2(i) * b + lo,
    ;
}

/// Adding or subtracting `2^i` to flip bit `i` leaves every other bit of the
/// pattern unchanged.
pub proof fn lemma_flip_bit_other_bits(p: nat, i: nat, j: nat)
    requires
        j != i,
    ensures
        ({
            let q = if nth_bit(p, i) {
                (p - pow2(i)) as nat
            } else {
                p + pow2(i)
            };
            nth_bit(q, j) == nth_bit(p, j)
        }),
{
    let hi = p / pow2(i + 1);
    let b = (p / pow2(i)) % 2;
    let lo = p % pow2(i);
    lemma_pow2_pos(i);
    lemma_bit_decomposition(p, i);
    lemma_bit_parts(p, i);
    let nb: nat = if b == 0 {
        1
    } else {
        0
    };
    let q = if nth_bit(p, i) {
        (p - pow2(i)) as nat
    } else {
        p + pow2(i)
    };
    assert(q == hi * pow2(i + 1) + nb * pow2(i) + lo);
    lemma_bits_of_composition(hi, b, lo, i, j);
    lemma_bits_of_composition(hi, nb, lo, i, j);
}

/// Doubling modulo `2^w` equals reducing modulo `2^(w-1)` and doubling.
proof fn lemma_double_mod(p: nat, w: nat)
    requires
        w >= 1,
    ensures
        (p % pow2((w - 1) as nat)) * 2 == (p * 2) % pow2(w),
{
    let h = pow2((w - 1) as nat) as int;
    lemma_pow2_pos((w - 1) as nat);
    lemma_pow2_unfold(w);
    lemma_fundamental_div_mod(p as int, h);
    lemma_mod_division_less_than_divisor(p as int, h);
    let q = p as int / h;
    let r = p as int % h;
    assert(p as int * 2 == q * (2 * h) + 2 * r) by (nonlinear_arith)
        requires
            p as int == h * q + r,
    ;
    lemma_fundamental_div_mod_converse_mod(p as int * 2, 2 * h, q, 2 * r);
}

/// The arithmetic right shift of a pattern: halving the pattern and keeping
/// the sign bit halves the signed reading, rounding toward minus infinity.
proof fn lemma_shr_pattern(p: nat, w: nat)
    requires
        w >= 1,
        p < pow2(w),
    ensures
        ({
            let h = pow2((w - 1) as nat);
            let t = if p >= h {
                p / 2 + h
            } else {
                p / 2
            };
            t < pow2(w) && signed_of_pat(t, w) == signed_of_pat(p, w) / 2
        }),
{
    let h = pow2((w - 1) as nat) as int;
    lemma_pow2_pos((w - 1) as nat);
    lemma_pow2_unfold(w);
    lemma_fundamental_div_mod(p as int, 2);
    lemma_mod_division_less_than_divisor(p as int, 2);
    if p >= h {
        assert(p as int / 2 < h) by {
            lemma_multiply_divide_lt(p as int, 2, h);
        }
        let x = p - 2 * h;
        assert(x / 2 == p as int / 2 - h) by {
            lemma_fundamental_div_mod_converse_div(x, 2, p as int / 2 - h, p as int % 2);
        }
    }
}

/// A pattern has no bits at or above its width.
pub proof fn lemma_bit_high_zero(p: nat, w: nat, i: nat)
    requires
        p < pow2(w),
        i >= w,
    ensures
        !nth_bit(p, i),
{
    if i > w {
        lemma_pow2_strictly_increases(w, i);
    }
    lemma_basic_div(p as int, pow2(i) as int);
}

/// `2^k` as a machine integer, for `k` below 128.
fn pow2_u128(k: usize) -> (r: u128)
    requires
        k < 128,
    ensures
        r as nat == pow2(k as nat),
{
    proof {
        lemma2_to64();
    }
    let mut r: u128 = 1;
    let mut j: usize = 0;
    while j < k
        invariant
            j <= k < 128,
            r as nat == pow2(j as nat),
        decreases k - j,
    {
        proof {
            lemma_pow2_unfold((j + 1) as nat);
            lemma_pow2_width_values();
            if j + 1 < 127 {
                lemma_pow2_strictly_increases((j + 1) as nat, 127);
            }
        }
        r = r * 2;
        j = j + 1;
    }
    r
}

impl GenericNum {
    /// The value of bit `idx` of the two's-complement pattern, counting from
    /// the least significant bit; every bit at or beyond the variant's width
    /// reads as zero.
    pub fn get_bit(&self, idx: usize) -> (r: bool)
        ensures
            r == nth_bit(self.upat(), idx as nat),
            idx >= self.width_bits() ==> !r,
    {
        proof {
            self.lemma_value_in_width();
        }
        let bits = self.data_size().bits();
        if idx >= bits {
            proof {
                lemma_bit_high_zero(self.upat(), self.width_bits(), idx as nat);
            }
            false
        } else {
            let p = self.upat128();
            let d = pow2_u128(idx);
            proof {
                lemma_pow2_pos(idx as nat);
            }
            (p / d) % 2 == 1
        }
    }

    /// Toggle bit `idx` of the two's-complement pattern in place, leaving the
    /// width unchanged; an index at or beyond the variant's width leaves the
    /// value unchanged.
    pub fn flip_bit(&mut self, idx: usize)
        ensures
            final(self).spec_data_size() == old(self).spec_data_size(),
            idx < old(self).width_bits() ==> final(self).upat() == (if nth_bit(
                old(self).upat(),
                idx as nat,
            ) {
                (old(self).upat() - pow2(idx as nat)) as nat
            } else {
                old(self).upat() + pow2(idx as nat)
            }),
            idx < old(self).width_bits() ==> nth_bit(final(self).upat(), idx as nat)
                == !nth_bit(old(self).upat(), idx as nat),
            idx < old(self).width_bits() ==> forall|j: nat|
                j != idx as nat ==> nth_bit(final(self).upat(), j) == nth_bit(
                    old(self).upat(),
                    j,
                ),
            idx >= old(self).width_bits() ==> *final(self) == *old(self),
    {
        proof {
            self.lemma_value_in_width();
        }
        let bits = self.data_size().bits();
        if idx >= bits {
            return ;
        }
        let p = self.upat128();
        let d = pow2_u128(idx);
        proof {
            lemma_pow2_pos(idx as nat);
            lemma_pow2_width_values();
            lemma_flip_bounds(self.upat(), self.width_bits(), idx as nat);
            lemma_flip_bit_value(self.upat(), idx as nat);
        }
        let t: u128 = if (p / d) % 2 == 1 {
            p - d
        } else {
            p + d
        };
        let size = self.data_size();
        *self = GenericNum::from_pat(t, size);
        proof {
            assert forall|j: nat| j != idx as nat implies nth_bit(self.upat(), j) == nth_bit(
                old(self).upat(),
                j,
            ) by {
                lemma_flip_bit_other_bits(old(self).upat(), idx as nat, j);
            }
        }
    }

    /// Shift the pattern left by one bit within the variant's width: the bit
    /// shifted out of the width is discarded, a zero bit enters at the bottom.
    pub fn shl(&mut self)
        ensures
            final(self).spec_data_size() == old(self).spec_data_size(),
            final(self).upat() == (old(self).upat() * 2) % pow2(old(self).width_bits()),
            final(self).as_int() == wrap_signed(old(self).as_int() * 2, old(self).width_bits()),
    {
        proof {
            lemma_pow2_width_values();
            self.lemma_value_in_width();
        }
        let p = self.upat128();
        let size = self.data_size();
        let half: u128 = match size {
            DataSize::Byte => 0x80,
            DataSize::Word => 0x8000,
            DataSize::DWord => 0x80000000,
            DataSize::QWord => 0x8000000000000000,
            DataSize::OWord => 0x80000000000000000000000000000000,
        };
        let ghost w = self.width_bits();
        let ghost x = self.as_int();
        let t = (p % half) * 2;
        proof {
            lemma_double_mod(p as nat, w);
            lemma_mod_division_less_than_divisor(p as int * 2, pow2(w) as int);
            // the doubled value and the doubled pattern agree modulo 2^w
            if x < 0 {
                lemma_mod_multiples_vanish(2, 2 * x, pow2(w) as int);
                assert(pow2(w) * 2 + 2 * x == 2 * (p as nat));
            }
            lemma_pat_of_signed(t as nat, w);
        }
        *self = GenericNum::from_pat(t, size);
    }

    /// Shift the pattern right by one bit arithmetically: the sign bit is
    /// kept, so the signed reading is halved rounding toward minus infinity.
    pub fn shr(&mut self)
        ensures
            final(self).spec_data_size() == old(self).spec_data_size(),
            final(self).as_int() == old(self).as_int() / 2,
    {
        proof {
            lemma_pow2_width_values();
            self.lemma_value_in_width();
        }
        let p = self.upat128();
        let size = self.data_size();
        let half: u128 = match size {
            DataSize::Byte => 0x80,
            DataSize::Word => 0x8000,
            DataSize::DWord => 0x80000000,
            DataSize::QWord => 0x8000000000000000,
            DataSize::OWord => 0x80000000000000000000000000000000,
        };
        let ghost w = self.width_bits();
        proof {
            lemma_shr_pattern(p as nat, w);
        }
        let t: u128 = if p >= half {
            p / 2 + half
        } else {
            p / 2
        };
        *self = GenericNum::from_pat(t, size);
    }
}

impl BinaryConvert for GenericNum {
    /// The fixed-width binary rendering of the pattern.
    open spec fn spec_to_binary(&self) -> Seq<char> {
        spec_to_base_text(*self, Base::Binary)
    }

    /// Unsigned binary parsing into the narrowest variant.
    open spec fn spec_from_binary(s: Seq<char>) -> Option<GenericNum> {
        spec_parse_unsigned(s, 2)
    }

    fn to_binary(&self) -> (r: String) {
        let mut out = String::new();
        let bits = self.data_size().bits();
        push_fixed_digits(self.upat128(), 2, bits, false, &mut out);
        proof {
            assert(out@ =~= spec_to_base_text(*self, Base::Binary));
        }
        out
    }

    fn from_binary(input: &str) -> (r: Option<GenericNum>) {
        match parse_digits(input, 2) {
            Some(v) => if v <= 0x7fffffffffffffffffffffffffffffff {
                Some(GenericNum::use_least_size(v as i128))
            } else {
                None
            },
            None => None,
        }
    }
}

impl OctalConvert for GenericNum {
    /// The octal rendering of the pattern, in a third of the width's bits
    /// rounded up.
    open spec fn spec_to_octal(&self) -> Seq<char> {
        spec_to_base_text(*self, Base::Octal)
    }

    /// Unsigned octal parsing into the narrowest variant.
    open spec fn spec_from_octal(s: Seq<char>) -> Option<GenericNum> {
        spec_parse_unsigned(s, 8)
    }

    fn to_octal(&self) -> (r: String) {
        let mut out = String::new();
        let bits = self.data_size().bits();
        push_fixed_digits(self.upat128(), 8, (bits + 2) / 3, false, &mut out);
        proof {
            assert(out@ =~= spec_to_base_text(*self, Base::Octal));
        }
        out
    }

    fn from_octal(input: &str) -> (r: Option<GenericNum>) {
        match parse_digits(input, 8) {
            Some(v) => if v <= 0x7fffffffffffffffffffffffffffffff {
                Some(GenericNum::use_least_size(v as i128))
            } else {
                None
            },
            None => None,
        }
    }
}

impl DecimalConvert for GenericNum {
    /// The signed decimal rendering of the value, without padding.
    open spec fn spec_to_decimal(&self) -> Seq<char> {
        spec_to_base_text(*self, Base::Decimal)
    }

    /// Signed decimal parsing into the narrowest variant.
    open spec fn spec_from_decimal(s: Seq<char>) -> Option<GenericNum> {
        spec_parse_decimal(s)
    }

    fn to_decimal(&self) -> (r: String) {
        let mut out = String::new();
        let v = self.value_i128();
        if v >= 0 {
            push_dec_digits(v as u128, &mut out);
        } else {
            push_char(&mut out, '-');
            let m = ((-(v + 1)) as u128) + 1;
            push_dec_digits(m, &mut out);
        }
        proof {
            assert(out@ =~= spec_to_base_text(*self, Base::Decimal));
        }
        out
    }

    fn from_decimal(input: &str) -> (r: Option<GenericNum>) {
        let n = input.unicode_len();
        if n >= 1 {
            let c0 = input.get_char(0);
            if c0 == '-' {
                let rest = input.substring_char(1, n);
                proof {
                    assert(rest@ =~= input@.skip(1));
                }
                return match parse_digits(rest, 10) {
                    Some(m) => {
                        if m <= 0x80000000000000000000000000000000 {
                            let value: i128 = if m == 0x80000000000000000000000000000000 {
                                i128::MIN
                            } else {
                                -(m as i128)
                            };
                            Some(GenericNum::use_least_size(value))
                        } else {
                            None
                        }
                    },
                    None => None,
                };
            }
        }
        match parse_digits(input, 10) {
            Some(v) => if v <= 0x7fffffffffffffffffffffffffffffff {
                Some(GenericNum::use_least_size(v as i128))
            } else {
                None
            },
            None => None,
        }
    }
}

impl HexConvert for GenericNum {
    /// The fixed-width lower-case hexadecimal rendering of the pattern.
    open spec fn spec_to_hex_lower(&self) -> Seq<char> {
        spec_to_base_text(*self, Base::Hex)
    }

    /// The fixed-width upper-case hexadecimal rendering of the pattern.
    open spec fn spec_to_hex_upper(&self) -> Seq<char> {
        crate::conv_trait::fixed_digits(self.upat(), 16, self.width_bits() / 4, true)
    }

    /// Unsigned hexadecimal parsing into the narrowest variant.
    open spec fn spec_from_hex(s: Seq<char>) -> Option<GenericNum> {
        spec_parse_unsigned(s, 16)
    }

    fn to_hex_lower(&self) -> (r: String) {
        let mut out = String::new();
        let bits = self.data_size().bits();
        push_fixed_digits(self.upat128(), 16, bits / 4, false, &mut out);
        proof {
            assert(out@ =~= spec_to_base_text(*self, Base::Hex));
        }
        out
    }

    fn to_hex_upper(&self) -> (r: String) {
        let mut out = String::new();
        let bits = self.data_size().bits();
        push_fixed_digits(self.upat128(), 16, bits / 4, true, &mut out);
        proof {
            assert(out@ =~= crate::conv_trait::fixed_digits(
                self.upat(),
                16,
                self.width_bits() / 4,
                true,
            ));
        }
        out
    }

    fn from_hex(input: &str) -> (r: Option<GenericNum>) {
        match parse_digits(input, 16) {
            Some(v) => if v <= 0x7fffffffffffffffffffffffffffffff {
                Some(GenericNum::use_least_size(v as i128))
            } else {
                None
            },
            None => None,
        }
    }
}

impl GenericNum {
    /// Parse `input` under the given base into the narrowest variant that
    /// holds the denoted value: decimal admits an optional leading minus
    /// sign, the other bases are unsigned digit strings of the pattern.
    pub fn from_base(input: &str, base: Base) -> (r: Option<Self>)
        ensures
            r == spec_from_base_parsed(input@, base),
    {
        match base {
            Base::Binary => Self::from_binary(input),
            Base::Octal => Self::from_octal(input),
            Base::Decimal => Self::from_decimal(input),
            Base::Hex => Self::from_hex(input),
        }
    }

    /// Render the value under the given base: the fixed-width zero-padded
    /// pattern for binary, octal and hexadecimal, the signed value for
    /// decimal. Hexadecimal renders in lower case.
    pub fn to_base(&self, base: Base) -> (r: String)
        ensures
            r@ == spec_to_base_text(*self, base),
    {
        match base {
            Base::Binary => self.to_binary(),
            Base::Octal => self.to_octal(),
            Base::Decimal => self.to_decimal(),
            Base::Hex => self.to_hex_lower(),
        }
    }
}

} // verus!
