//! Digit-level specifications, radix formatting and parsing, and the
//! conversion traits.

use vstd::arithmetic::div_mod::*;
use vstd::arithmetic::mul::lemma_mul_inequality;
use vstd::arithmetic::power::{lemma_pow0, lemma_pow1, lemma_pow_adds, lemma_pow_positive, pow};
use vstd::prelude::*;

use crate::generic_num::{spec_least_variant, GenericNum};
use crate::Base;

verus! {

/// The character that renders the digit value `d`, in lower or upper case.
/// Digit values ten through fifteen render as letters; values at or above
/// sixteen are never rendered.
pub open spec fn spec_digit_char(d: nat, upper: bool) -> char {
    if d == 0 {
        '0'
    } else if d == 1 {
        '1'
    } else if d == 2 {
        '2'
    } else if d == 3 {
        '3'
    } else if d == 4 {
        '4'
    } else if d == 5 {
        '5'
    } else if d == 6 {
        '6'
    } else if d == 7 {
        '7'
    } else if d == 8 {
        '8'
    } else if d == 9 {
        '9'
    } else if d == 10 {
        if upper {
            'A'
        } else {
            'a'
        }
    } else if d == 11 {
        if upper {
            'B'
        } else {
            'b'
        }
    } else if d == 12 {
        if upper {
            'C'
        } else {
            'c'
        }
    } else if d == 13 {
        if upper {
            'D'
        } else {
            'd'
        }
    } else if d == 14 {
        if upper {
            'E'
        } else {
            'e'
        }
    } else {
        if upper {
            'F'
        } else {
            'f'
        }
    }
}

/// The digit value of a character: `0` through `9` for the decimal digits,
/// ten through fifteen for the letters of either case, and sixteen for every
/// other character, so that a digit is valid for a base exactly when its
/// value is below that base.
pub open spec fn spec_digit_val(c: char) -> nat {
    let u = c as u32;
    if 48 <= u && u <= 57 {
        (u - 48) as nat
    } else if 97 <= u && u <= 102 {
        (u - 87) as nat
    } else if 65 <= u && u <= 70 {
        (u - 55) as nat
    } else {
        16
    }
}

/// Whether `c` is a digit of the given base.
pub open spec fn spec_is_digit(c: char, base: nat) -> bool {
    spec_digit_val(c) < base
}

/// A non-empty string of digits of the given base.
pub open spec fn valid_digit_seq(s: Seq<char>, base: nat) -> bool {
    s.len() > 0 && forall|k: int| 0 <= k < s.len() ==> spec_is_digit(s[k], base)
}

/// The number that a digit string denotes in the given base, most significant
/// digit first.
pub open spec fn digits_val(s: Seq<char>, base: nat) -> nat
    decreases s.len(),
{
    if s.len() == 0 {
        0
    } else {
        digits_val(s.drop_last(), base) * base + spec_digit_val(s.last())
    }
}

/// The exactly `width` lowest digits of `p` in the given base, most
/// significant first, zero-padded at the left.
pub open spec fn fixed_digits(p: nat, base: nat, width: nat, upper: bool) -> Seq<char>
    decreases width,
{
    if width == 0 {
        Seq::empty()
    } else {
        fixed_digits(p / base, base, (width - 1) as nat, upper).push(
            spec_digit_char(p % base, upper),
        )
    }
}

/// The decimal digits of `n` without leading zeros; zero renders as `"0"`.
pub open spec fn dec_digits(n: nat) -> Seq<char>
    decreases n,
{
    if n < 10 {
        seq![spec_digit_char(n, false)]
    } else {
        dec_digits(n / 10).push(spec_digit_char(n % 10, false))
    }
}

/// The signed decimal rendering of `x`: a minus sign followed by the digits
/// of the magnitude when `x` is negative, the bare digits otherwise.
pub open spec fn dec_text(x: int) -> Seq<char> {
    if x >= 0 {
        dec_digits(x as nat)
    } else {
        seq!['-'] + dec_digits((-x) as nat)
    }
}

/// The digit string regrouped from the right in chunks of `k` characters,
/// with `sep` inserted between chunks; `k == 0` leaves the string unchanged.
pub open spec fn spec_grouped(s: Seq<char>, k: nat, sep: Seq<char>) -> Seq<char>
    decreases s.len(),
{
    if k == 0 || s.len() <= k {
        s
    } else {
        spec_grouped(s.take(s.len() - k), k, sep) + sep + s.skip(s.len() - k)
    }
}

/// Relies on `String::push`: appends the given character at the end.
#[verifier::external_body]
pub(crate) fn push_char(s: &mut String, c: char)
    ensures
        final(s)@ == old(s)@.push(c),
{
    s.push(c);
}

/// The rendering character of a digit value.
fn digit_to_char(d: u8, upper: bool) -> (c: char)
    requires
        d < 16,
    ensures
        c == spec_digit_char(d as nat, upper),
{
    match d {
        0 => '0',
        1 => '1',
        2 => '2',
        3 => '3',
        4 => '4',
        5 => '5',
        6 => '6',
        7 => '7',
        8 => '8',
        9 => '9',
        10 => if upper {
            'A'
        } else {
            'a'
        },
        11 => if upper {
            'B'
        } else {
            'b'
        },
        12 => if upper {
            'C'
        } else {
            'c'
        },
        13 => if upper {
            'D'
        } else {
            'd'
        },
        14 => if upper {
            'E'
        } else {
            'e'
        },
        _ => if upper {
            'F'
        } else {
            'f'
        },
    }
}

/// The digit value of a character, sixteen for a character that is no digit.
fn char_digit_val(c: char) -> (d: u8)
    ensures
        d as nat == spec_digit_val(c),
{
    let u = c as u32;
    if 48 <= u && u <= 57 {
        (u - 48) as u8
    } else if 97 <= u && u <= 102 {
        (u - 87) as u8
    } else if 65 <= u && u <= 70 {
        (u - 55) as u8
    } else {
        16
    }
}

/// Append the exactly `width` lowest digits of `p` in the given base.
pub(crate) fn push_fixed_digits(p: u128, base: u128, width: usize, upper: bool, out: &mut String)
    requires
        2 <= base <= 16,
    ensures
        final(out)@ == old(out)@ + fixed_digits(p as nat, base as nat, width as nat, upper),
    decreases width,
{
    if width == 0 {
        proof {
            assert(old(out)@ + fixed_digits(p as nat, base as nat, 0, upper) =~= old(out)@);
        }
    } else {
        push_fixed_digits(p / base, base, width - 1, upper, out);
        let d = (p % base) as u8;
        let c = digit_to_char(d, upper);
        push_char(out, c);
        proof {
            assert(final(out)@ =~= old(out)@ + fixed_digits(
                p as nat,
                base as nat,
                width as nat,
                upper,
            ));
        }
    }
}

/// Append the decimal digits of `n` without leading zeros.
pub(crate) fn push_dec_digits(n: u128, out: &mut String)
    ensures
        final(out)@ == old(out)@ + dec_digits(n as nat),
    decreases n,
{
    if n < 10 {
        let c = digit_to_char(n as u8, false);
        push_char(out, c);
        proof {
            assert(final(out)@ =~= old(out)@ + dec_digits(n as nat));
        }
    } else {
        push_dec_digits(n / 10, out);
        let c = digit_to_char((n % 10) as u8, false);
        push_char(out, c);
        proof {
            assert(final(out)@ =~= old(out)@ + dec_digits(n as nat));
        }
    }
}

/// Every prefix of a digit string denotes at most the whole string's value.
proof fn lemma_digits_val_prefix_le(s: Seq<char>, base: nat, j: int)
    requires
        base >= 1,
        0 <= j <= s.len(),
    ensures
        digits_val(s.take(j), base) <= digits_val(s, base),
    decreases s.len(),
{
    if j == s.len() {
        assert(s.take(j) =~= s);
    } else {
        let head = s.drop_last();
        lemma_digits_val_prefix_le(head, base, j);
        assert(s.take(j) =~= head.take(j));
        let dh = digits_val(head, base);
        assert(dh * base >= dh) by (nonlinear_arith)
            requires
                base >= 1,
                dh >= 0,
        ;
        assert(digits_val(s, base) == dh * base + spec_digit_val(s.last()));
        assert(digits_val(s, base) >= dh);
    }
}

/// Division bounds transported to multiplication, used to justify the
/// overflow test of the parser.
proof fn lemma_parse_step_bounds(acc: nat, b: nat, d: nat, m: nat)
    requires
        b >= 1,
        d <= m,
    ensures
        acc <= (m - d) as nat / b ==> acc * b + d <= m,
        acc > (m - d) as nat / b ==> acc * b + d > m,
{
    let lim = (m - d) as nat / b;
    lemma_fundamental_div_mod((m - d) as int, b as int);
    lemma_mod_division_less_than_divisor((m - d) as int, b as int);
    if acc <= lim {
        lemma_mul_inequality(acc as int, lim as int, b as int);
        assert(lim * b <= m - d) by (nonlinear_arith)
            requires
                m - d == b * lim + ((m - d) as int % (b as int)),
                (m - d) as int % (b as int) >= 0,
        ;
    } else {
        assert(acc * b >= (lim + 1) * b) by {
            lemma_mul_inequality(lim as int + 1, acc as int, b as int);
        }
        assert((lim + 1) * b > m - d) by (nonlinear_arith)
            requires
                m - d == b * lim + ((m - d) as int % (b as int)),
                (m - d) as int % (b as int) < b,
        ;
    }
}

/// Parse a whole string as unsigned digits of the given base: the denoted
/// number when the string is a non-empty sequence of digits of that base
/// whose value fits the machine word, nothing otherwise.
pub(crate) fn parse_digits(s: &str, base: u128) -> (r: Option<u128>)
    requires
        2 <= base <= 16,
    ensures
        match r {
            Some(v) => valid_digit_seq(s@, base as nat) && v as nat == digits_val(
                s@,
                base as nat,
            ),
            None => !(valid_digit_seq(s@, base as nat) && digits_val(s@, base as nat)
                <= u128::MAX),
        },
{
    let n = s.unicode_len();
    if n == 0 {
        return None;
    }
    let mut acc: u128 = 0;
    let mut k: usize = 0;
    while k < n
        invariant
            2 <= base <= 16,
            0 <= k <= n,
            n == s@.len(),
            forall|j: int| 0 <= j < k ==> spec_is_digit(s@[j], base as nat),
            acc as nat == digits_val(s@.take(k as int), base as nat),
        decreases n - k,
    {
        let c = s.get_char(k);
        let d = char_digit_val(c);
        let d128 = d as u128;
        if d128 >= base {
            assert(!spec_is_digit(s@[k as int], base as nat));
            return None;
        }
        let lim = (u128::MAX - d128) / base;
        proof {
            lemma_parse_step_bounds(acc as nat, base as nat, d as nat, u128::MAX as nat);
            assert(s@.take(k + 1).drop_last() =~= s@.take(k as int));
            assert(s@.take(k + 1).last() == s@[k as int]);
        }
        if acc > lim {
            proof {
                lemma_digits_val_prefix_le(s@, base as nat, k + 1);
            }
            return None;
        }
        acc = acc * base + d128;
        k = k + 1;
    }
    proof {
        assert(s@.take(n as int) =~= s@);
    }
    Some(acc)
}

/// Rendering a digit value and reading it back is the identity.
pub proof fn lemma_digit_char_val(d: nat, upper: bool)
    requires
        d < 16,
    ensures
        spec_digit_val(spec_digit_char(d, upper)) == d,
{
}

/// The fixed-width digit string of `p` has exactly the requested width, all
/// its characters are digits of the base, and it denotes `p` reduced modulo
/// `base` to the power of the width.
pub proof fn lemma_fixed_digits_props(p: nat, base: nat, width: nat, upper: bool)
    requires
        2 <= base <= 16,
    ensures
        fixed_digits(p, base, width, upper).len() == width,
        forall|k: int|
            0 <= k < width ==> spec_is_digit(fixed_digits(p, base, width, upper)[k], base),
        digits_val(fixed_digits(p, base, width, upper), base) == p % (pow(
            base as int,
            width,
        ) as nat),
    decreases width,
{
    lemma_pow_positive(base as int, width);
    let s = fixed_digits(p, base, width, upper);
    if width == 0 {
        assert(p % (pow(base as int, 0) as nat) == 0) by {
            lemma_pow0(base as int);
            lemma_fundamental_div_mod_converse_mod(p as int, 1, p as int, 0);
        }
    } else {
        lemma_fixed_digits_props(p / base, base, (width - 1) as nat, upper);
        let prev = fixed_digits(p / base, base, (width - 1) as nat, upper);
        let d = p % base;
        lemma_digit_char_val(d, upper);
        assert(s.drop_last() =~= prev);
        assert(s.last() == spec_digit_char(d, upper));
        assert(forall|k: int| 0 <= k < width - 1 ==> s[k] == prev[k]);
        let pw1 = pow(base as int, (width - 1) as nat);
        lemma_pow_positive(base as int, (width - 1) as nat);
        assert(base * pw1 == pow(base as int, width)) by {
            lemma_pow_adds(base as int, 1, (width - 1) as nat);
            lemma_pow1(base as int);
        }
        lemma_mod_breakdown(p as int, base as int, pw1);
        assert(digits_val(s, base) == ((p / base) % (pw1 as nat)) * base + d);
        assert(p % (pow(base as int, width) as nat) == base * ((p / base) % (pw1 as nat)) + d);
    }
}

/// The decimal digit string of `n` is non-empty, all its characters are
/// decimal digits, and it denotes `n`.
pub proof fn lemma_dec_digits_props(n: nat)
    ensures
        dec_digits(n).len() >= 1,
        forall|k: int| 0 <= k < dec_digits(n).len() ==> spec_is_digit(dec_digits(n)[k], 10),
        digits_val(dec_digits(n), 10) == n,
    decreases n,
{
    let s = dec_digits(n);
    if n < 10 {
        lemma_digit_char_val(n, false);
        assert(s.drop_last() =~= Seq::<char>::empty());
        assert(digits_val(s, 10) == digits_val(Seq::<char>::empty(), 10) * 10 + spec_digit_val(
            s.last(),
        ));
    } else {
        lemma_dec_digits_props(n / 10);
        let prev = dec_digits(n / 10);
        lemma_digit_char_val(n % 10, false);
        assert(s.drop_last() =~= prev);
        assert(forall|k: int| 0 <= k < prev.len() ==> s[k] == prev[k]);
        lemma_fundamental_div_mod(n as int, 10);
    }
}

/// The number of octal digits that render a width of `w` bits: a third of
/// the width, rounded up, so that the digits always cover the whole pattern.
pub open spec fn octal_digit_count(w: nat) -> nat {
    (w + 2) / 3
}

/// The text that renders `v` in the given base: the two's-complement pattern
/// in exactly as many digits as the variant's width calls for, except in
/// decimal, which renders the signed value without padding.
pub open spec fn spec_to_base_text(v: GenericNum, base: Base) -> Seq<char> {
    match base {
        Base::Binary => fixed_digits(v.upat(), 2, v.width_bits(), false),
        Base::Octal => fixed_digits(v.upat(), 8, octal_digit_count(v.width_bits()), false),
        Base::Decimal => dec_text(v.as_int()),
        Base::Hex => fixed_digits(v.upat(), 16, v.width_bits() / 4, false),
    }
}

/// The value parsed from an unsigned digit string of the given base, wrapped
/// in the narrowest variant: present exactly when the string is a non-empty
/// sequence of digits of that base and the denoted number is at most the
/// largest 128-bit signed value.
pub open spec fn spec_parse_unsigned(s: Seq<char>, base: nat) -> Option<GenericNum> {
    if valid_digit_seq(s, base) && digits_val(s, base) <= i128::MAX {
        Some(spec_least_variant(digits_val(s, base) as int))
    } else {
        None
    }
}

/// The value parsed from a decimal string with an optional leading minus
/// sign, wrapped in the narrowest variant: the magnitude must be a non-empty
/// digit string and the signed value must fit 128 bits.
pub open spec fn spec_parse_decimal(s: Seq<char>) -> Option<GenericNum> {
    if s.len() > 0 && s[0] == '-' {
        let rest = s.skip(1);
        if valid_digit_seq(rest, 10) && digits_val(rest, 10) <= 0x80000000000000000000000000000000 {
            Some(spec_least_variant(-(digits_val(rest, 10) as int)))
        } else {
            None
        }
    } else {
        spec_parse_unsigned(s, 10)
    }
}

/// The value parsed from `s` under the given base: decimal admits a sign,
/// the other bases are unsigned digit strings.
pub open spec fn spec_from_base_parsed(s: Seq<char>, base: Base) -> Option<GenericNum> {
    match base {
        Base::Decimal => spec_parse_decimal(s),
        _ => spec_parse_unsigned(s, base.spec_radix()),
    }
}

/// Rendering to and parsing from binary digit strings.
pub trait BinaryConvert: Sized {
    /// The binary rendering of this value.
    spec fn spec_to_binary(&self) -> Seq<char>;

    /// The value that the binary string `s` parses to, if any.
    spec fn spec_from_binary(s: Seq<char>) -> Option<Self>;

    /// Render the value in binary.
    fn to_binary(&self) -> (r: String)
        ensures
            r@ == self.spec_to_binary(),
    ;

    /// Parse a binary digit string.
    fn from_binary(input: &str) -> (r: Option<Self>)
        ensures
            r == Self::spec_from_binary(input@),
    ;
}

/// Rendering to and parsing from octal digit strings.
pub trait OctalConvert: Sized {
    /// The octal rendering of this value.
    spec fn spec_to_octal(&self) -> Seq<char>;

    /// The value that the octal string `s` parses to, if any.
    spec fn spec_from_octal(s: Seq<char>) -> Option<Self>;

    /// Render the value in octal.
    fn to_octal(&self) -> (r: String)
        ensures
            r@ == self.spec_to_octal(),
    ;

    /// Parse an octal digit string.
    fn from_octal(input: &str) -> (r: Option<Self>)
        ensures
            r == Self::spec_from_octal(input@),
    ;
}

/// Rendering to and parsing from signed decimal strings.
pub trait DecimalConvert: Sized {
    /// The decimal rendering of this value.
    spec fn spec_to_decimal(&self) -> Seq<char>;

    /// The value that the decimal string `s` parses to, if any.
    spec fn spec_from_decimal(s: Seq<char>) -> Option<Self>;

    /// Render the value in signed decimal.
    fn to_decimal(&self) -> (r: String)
        ensures
            r@ == self.spec_to_decimal(),
    ;

    /// Parse a decimal string with an optional leading minus sign.
    fn from_decimal(input: &str) -> (r: Option<Self>)
        ensures
            r == Self::spec_from_decimal(input@),
    ;
}

/// Rendering to and parsing from hexadecimal digit strings.
pub trait HexConvert: Sized {
    /// The lower-case hexadecimal rendering of this value.
    spec fn spec_to_hex_lower(&self) -> Seq<char>;

    /// The upper-case hexadecimal rendering of this value.
    spec fn spec_to_hex_upper(&self) -> Seq<char>;

    /// The value that the hexadecimal string `s` parses to, if any.
    spec fn spec_from_hex(s: Seq<char>) -> Option<Self>;

    /// Render the value in lower-case hexadecimal.
    fn to_hex_lower(&self) -> (r: String)
        ensures
            r@ == self.spec_to_hex_lower(),
    ;

    /// Render the value in upper-case hexadecimal.
    fn to_hex_upper(&self) -> (r: String)
        ensures
            r@ == self.spec_to_hex_upper(),
    ;

    /// Parse a hexadecimal digit string of either case.
    fn from_hex(input: &str) -> (r: Option<Self>)
        ensures
            r == Self::spec_from_hex(input@),
    ;
}

/// Regrouping the characters of a string with a separator.
pub trait SeperateString {
    /// The characters of this value.
    spec fn spec_text(&self) -> Seq<char>;

    /// Insert `seperator` between chunks of `chunk_size` characters, counted
    /// from the right end of the string; a chunk size of zero returns the
    /// string unchanged.
    fn seperate(&self, chunk_size: usize, seperator: &str) -> (r: String)
        ensures
            r@ == spec_grouped(self.spec_text(), chunk_size as nat, seperator@),
    ;
}

/// Regroup a digit string from the right in chunks of `k` characters.
fn separate_chunks(s: &str, k: usize, sep: &str) -> (r: String)
    requires
        k >= 1,
    ensures
        r@ == spec_grouped(s@, k as nat, sep@),
    decreases s@.len(),
{
    let n = s.unicode_len();
    if n <= k {
        s.to_owned()
    } else {
        let head = s.substring_char(0, n - k);
        let tail = s.substring_char(n - k, n);
        proof {
            assert(head@ =~= s@.take(n - k as int));
            assert(tail@ =~= s@.skip(n - k as int));
        }
        let mut r = separate_chunks(head, k, sep);
        r.append(sep);
        r.append(tail);
        proof {
            assert(r@ =~= spec_grouped(s@, k as nat, sep@));
        }
        r
    }
}

impl SeperateString for String {
    /// The characters of the string itself.
    open spec fn spec_text(&self) -> Seq<char> {
        self@
    }

    fn seperate(&self, chunk_size: usize, seperator: &str) -> (r: String)
    {
        if chunk_size == 0 {
            self.clone()
        } else {
            separate_chunks(self.as_str(), chunk_size, seperator)
        }
    }
}

} // verus!
