use generic_num::conv_trait::{
    BinaryConvert, DecimalConvert, HexConvert, OctalConvert, SeperateString,
};
use generic_num::generic_num::GenericNum;
use generic_num::Base;

/// Numeric equality across widths: widen both sides to 128 bits.
fn same_value(a: GenericNum, b: GenericNum) -> bool {
    a.to_oword() == b.to_oword()
}

#[test]
fn round_trip_decimal_all_widths() {
    let values = [
        GenericNum::Byte(0),
        GenericNum::Byte(127),
        GenericNum::Byte(-128),
        GenericNum::Word(-12345),
        GenericNum::DWord(2000000000),
        GenericNum::QWord(-9000000000000000000),
        GenericNum::OWord(i128::MAX),
        GenericNum::OWord(i128::MIN),
    ];
    for v in values {
        let text = v.to_base(Base::Decimal);
        let back = GenericNum::from_base(&text, Base::Decimal).unwrap();
        assert!(same_value(v, back));
    }
}

#[test]
fn round_trip_nonnegative_all_radices() {
    let values = [
        GenericNum::Byte(0),
        GenericNum::Byte(127),
        GenericNum::Word(255),
        GenericNum::DWord(123456789),
        GenericNum::QWord(i64::MAX),
        GenericNum::OWord(i128::MAX),
    ];
    for v in values {
        for base in [Base::Binary, Base::Octal, Base::Decimal, Base::Hex] {
            let text = v.to_base(base);
            let back = GenericNum::from_base(&text, base).unwrap();
            assert!(same_value(v, back));
        }
    }
}

#[test]
fn minimal_width_inference() {
    assert_eq!(
        GenericNum::from_base("127", Base::Decimal),
        Some(GenericNum::Byte(127))
    );
    assert_eq!(
        GenericNum::from_base("128", Base::Decimal),
        Some(GenericNum::Word(128))
    );
    assert_eq!(
        GenericNum::from_base("-128", Base::Decimal),
        Some(GenericNum::Byte(-128))
    );
    assert_eq!(
        GenericNum::from_base("-129", Base::Decimal),
        Some(GenericNum::Word(-129))
    );
    assert_eq!(
        GenericNum::from_base("ff", Base::Hex),
        Some(GenericNum::Word(255))
    );
    assert_eq!(
        GenericNum::from_base("7f", Base::Hex),
        Some(GenericNum::Byte(127))
    );
    assert_eq!(
        GenericNum::from_base("2147483648", Base::Decimal),
        Some(GenericNum::QWord(2147483648))
    );
}

#[test]
fn parse_failures() {
    // a hex digit that is invalid for the requested base
    assert_eq!(GenericNum::from_base("12g", Base::Octal), None);
    assert_eq!(GenericNum::from_base("12g", Base::Hex), None);
    assert_eq!(GenericNum::from_base("8", Base::Octal), None);
    assert_eq!(GenericNum::from_base("2", Base::Binary), None);
    assert_eq!(GenericNum::from_base("", Base::Decimal), None);
    assert_eq!(GenericNum::from_base("-", Base::Decimal), None);
    // a sign is admitted in decimal only
    assert_eq!(GenericNum::from_base("-f", Base::Hex), None);
    assert_eq!(GenericNum::from_base("-101", Base::Binary), None);
}

#[test]
fn parse_overflow_bounds() {
    // one beyond the largest 128-bit signed value
    assert_eq!(
        GenericNum::from_base("170141183460469231731687303715884105728", Base::Decimal),
        None
    );
    assert_eq!(
        GenericNum::from_base("170141183460469231731687303715884105727", Base::Decimal),
        Some(GenericNum::OWord(i128::MAX))
    );
    // the most negative value parses with its sign
    assert_eq!(
        GenericNum::from_base("-170141183460469231731687303715884105728", Base::Decimal),
        Some(GenericNum::OWord(i128::MIN))
    );
    assert_eq!(
        GenericNum::from_base("-170141183460469231731687303715884105729", Base::Decimal),
        None
    );
    // 128 one bits denote a pattern beyond the signed range
    let ones: String = std::iter::repeat('1').take(128).collect();
    assert_eq!(GenericNum::from_base(&ones, Base::Binary), None);
}

#[test]
fn binary_rendering_is_fixed_width() {
    assert_eq!(GenericNum::Byte(-1).to_binary(), "11111111");
    assert_eq!(GenericNum::Byte(-128).to_binary(), "10000000");
    assert_eq!(GenericNum::Byte(5).to_binary(), "00000101");
    assert_eq!(GenericNum::Word(5).to_binary(), "0000000000000101");
}

#[test]
fn octal_rendering_pads_a_third_of_the_width() {
    assert_eq!(GenericNum::Byte(8).to_octal(), "010");
    assert_eq!(GenericNum::Byte(-1).to_octal(), "377");
    assert_eq!(GenericNum::Word(8).to_octal(), "000010");
    // a third of 32 bits, rounded up: eleven digits
    assert_eq!(GenericNum::DWord(8).to_octal(), "00000000010");
    // a third of 64 bits, rounded up: twenty-two digits
    assert_eq!(GenericNum::QWord(8).to_octal(), "0000000000000000000010");
}

#[test]
fn octal_rendering_of_the_widest_variant() {
    // a third of 128 bits, rounded up: forty-three digits
    let text = GenericNum::OWord(-1).to_octal();
    assert_eq!(text.len(), 43);
    assert_eq!(
        text,
        "3777777777777777777777777777777777777777777"
    );
    assert_eq!(GenericNum::from_base(&text, Base::Octal), None);
}

#[test]
fn zero_parses_to_the_narrowest_variant() {
    assert_eq!(
        GenericNum::from_base("0", Base::Decimal),
        Some(GenericNum::Byte(0))
    );
    assert_eq!(
        GenericNum::from_base("00000000", Base::Binary),
        Some(GenericNum::Byte(0))
    );
    assert_eq!(
        GenericNum::from_base("0000000000000000", Base::Hex),
        Some(GenericNum::Byte(0))
    );
}

#[test]
fn hex_rendering_both_cases() {
    assert_eq!(GenericNum::Word(255).to_hex_lower(), "00ff");
    assert_eq!(GenericNum::Word(255).to_hex_upper(), "00FF");
    assert_eq!(GenericNum::Byte(-1).to_hex_lower(), "ff");
    assert_eq!(GenericNum::DWord(0x1234abcd).to_hex_lower(), "1234abcd");
    assert_eq!(GenericNum::DWord(0x1234abcd).to_hex_upper(), "1234ABCD");
    assert_eq!(
        GenericNum::OWord(-1).to_hex_lower(),
        "ffffffffffffffffffffffffffffffff"
    );
}

#[test]
fn decimal_rendering_is_signed_and_unpadded() {
    assert_eq!(GenericNum::Byte(-5).to_decimal(), "-5");
    assert_eq!(GenericNum::Byte(0).to_decimal(), "0");
    assert_eq!(GenericNum::QWord(1234567).to_decimal(), "1234567");
    assert_eq!(GenericNum::Byte(-128).to_decimal(), "-128");
    assert_eq!(
        GenericNum::OWord(i128::MIN).to_decimal(),
        "-170141183460469231731687303715884105728"
    );
}

#[test]
fn to_base_dispatches_lower_hex() {
    let v = GenericNum::Word(255);
    assert_eq!(v.to_base(Base::Binary), "0000000011111111");
    assert_eq!(v.to_base(Base::Octal), "000377");
    assert_eq!(v.to_base(Base::Decimal), "255");
    assert_eq!(v.to_base(Base::Hex), "00ff");
}

#[test]
fn from_trait_parsers_match_from_base() {
    assert_eq!(
        GenericNum::from_binary("101"),
        GenericNum::from_base("101", Base::Binary)
    );
    assert_eq!(
        GenericNum::from_octal("17"),
        GenericNum::from_base("17", Base::Octal)
    );
    assert_eq!(
        GenericNum::from_decimal("-42"),
        GenericNum::from_base("-42", Base::Decimal)
    );
    assert_eq!(
        GenericNum::from_hex("aB"),
        GenericNum::from_base("aB", Base::Hex)
    );
    assert_eq!(GenericNum::from_hex("aB"), Some(GenericNum::Word(0xab)));
}

#[test]
fn seperate_groups_from_the_right() {
    let s = String::from("1234567");
    assert_eq!(s.seperate(3, ","), "1,234,567");
    assert_eq!(s.seperate(0, ","), "1234567");
    assert_eq!(s.seperate(7, ","), "1234567");
    assert_eq!(s.seperate(8, ","), "1234567");
    assert_eq!(s.seperate(1, ","), "1,2,3,4,5,6,7");
    assert_eq!(String::from("123456").seperate(2, ", "), "12, 34, 56");
    assert_eq!(String::from("").seperate(3, ","), "");
}

#[test]
fn digits_per_byte_constants() {
    assert_eq!(Base::Binary.digits_per_byte(), 4);
    assert_eq!(Base::Octal.digits_per_byte(), 3);
    assert_eq!(Base::Decimal.digits_per_byte(), 0);
    assert_eq!(Base::Hex.digits_per_byte(), 2);
    assert_eq!(Base::Binary.radix(), 2);
    assert_eq!(Base::Octal.radix(), 8);
    assert_eq!(Base::Decimal.radix(), 10);
    assert_eq!(Base::Hex.radix(), 16);
}
