use generic_num::generic_num::GenericNum;
use generic_num::DataSize;

#[test]
fn default_is_zero_byte() {
    assert_eq!(GenericNum::default(), GenericNum::Byte(0));
}

#[test]
fn data_size_reports_the_active_variant() {
    assert_eq!(GenericNum::Byte(1).data_size(), DataSize::Byte);
    assert_eq!(GenericNum::Word(1).data_size(), DataSize::Word);
    assert_eq!(GenericNum::DWord(1).data_size(), DataSize::DWord);
    assert_eq!(GenericNum::QWord(1).data_size(), DataSize::QWord);
    assert_eq!(GenericNum::OWord(1).data_size(), DataSize::OWord);
    assert_eq!(DataSize::Byte.bytes(), 1);
    assert_eq!(DataSize::OWord.bytes(), 16);
    assert_eq!(DataSize::QWord.bits(), 64);
}

#[test]
fn widening_extends_the_sign() {
    assert_eq!(GenericNum::Byte(-1).to_word(), GenericNum::Word(-1));
    assert_eq!(GenericNum::Byte(-1).to_oword(), GenericNum::OWord(-1));
    assert_eq!(GenericNum::Byte(5).to_dword(), GenericNum::DWord(5));
    assert_eq!(GenericNum::Word(-300).to_qword(), GenericNum::QWord(-300));
}

#[test]
fn narrowing_truncates_the_pattern() {
    assert_eq!(GenericNum::Word(0x1ff).to_byte(), GenericNum::Byte(-1));
    assert_eq!(GenericNum::Word(0x100).to_byte(), GenericNum::Byte(0));
    assert_eq!(GenericNum::DWord(0x12345678).to_word(), GenericNum::Word(0x5678));
    assert_eq!(GenericNum::QWord(-1).to_byte(), GenericNum::Byte(-1));
}

#[test]
fn to_size_dispatches_each_width() {
    let v = GenericNum::Byte(-2);
    assert_eq!(v.to_size(DataSize::Byte), GenericNum::Byte(-2));
    assert_eq!(v.to_size(DataSize::Word), GenericNum::Word(-2));
    assert_eq!(v.to_size(DataSize::DWord), GenericNum::DWord(-2));
    assert_eq!(v.to_size(DataSize::QWord), GenericNum::QWord(-2));
    assert_eq!(v.to_size(DataSize::OWord), GenericNum::OWord(-2));
}

#[test]
fn resize_round_trip_keeps_fitting_values() {
    let v = GenericNum::Byte(-5);
    let r = v
        .to_size(DataSize::DWord)
        .to_size(DataSize::QWord)
        .to_size(DataSize::Byte);
    assert_eq!(r, v);
}

#[test]
fn sign_bit_reads_the_top_bit() {
    assert!(GenericNum::Byte(-1).sign_bit());
    assert!(!GenericNum::Byte(127).sign_bit());
    assert!(GenericNum::OWord(i128::MIN).sign_bit());
    assert!(!GenericNum::OWord(i128::MAX).sign_bit());
}

#[test]
fn is_zero_tests_the_64_bit_truncation() {
    assert!(GenericNum::Byte(0).is_zero());
    assert!(!GenericNum::Byte(1).is_zero());
    assert!(GenericNum::QWord(0).is_zero());
    assert!(!GenericNum::QWord(i64::MIN).is_zero());
    // the 128-bit variant is truncated to 64 bits first
    assert!(GenericNum::OWord(0x10000000000000000).is_zero());
    assert!(!GenericNum::OWord(1).is_zero());
}

#[test]
fn wrapping_neg_negates_within_the_width() {
    assert_eq!(GenericNum::Byte(5).wrapping_neg(), GenericNum::Byte(-5));
    assert_eq!(GenericNum::Byte(0).wrapping_neg(), GenericNum::Byte(0));
    assert_eq!(GenericNum::Byte(-128).wrapping_neg(), GenericNum::Byte(-128));
    assert_eq!(GenericNum::OWord(i128::MIN).wrapping_neg(), GenericNum::OWord(i128::MIN));
}

#[test]
fn get_bit_reads_the_pattern() {
    let v = GenericNum::Byte(2);
    assert!(v.get_bit(1));
    assert!(!v.get_bit(0));
    assert!(GenericNum::Byte(-128).get_bit(7));
    assert!(GenericNum::OWord(i128::MIN).get_bit(127));
}

#[test]
fn get_bit_beyond_the_width_is_false() {
    let v = GenericNum::Byte(-1);
    assert!(!v.get_bit(8));
    assert!(!v.get_bit(100));
    assert!(!GenericNum::Word(-1).get_bit(16));
}

#[test]
fn flip_bit_toggles_one_bit() {
    let mut v = GenericNum::Byte(0);
    v.flip_bit(3);
    assert_eq!(v, GenericNum::Byte(8));
    v.flip_bit(3);
    assert_eq!(v, GenericNum::Byte(0));
    let mut w = GenericNum::Byte(0);
    w.flip_bit(7);
    assert_eq!(w, GenericNum::Byte(-128));
}

#[test]
fn flip_bit_beyond_the_width_is_a_no_op() {
    let mut v = GenericNum::Byte(3);
    v.flip_bit(8);
    assert_eq!(v, GenericNum::Byte(3));
    v.flip_bit(1000);
    assert_eq!(v, GenericNum::Byte(3));
}

#[test]
fn shl_discards_the_overflowing_bit() {
    let mut v = GenericNum::Byte(-128);
    v.shl();
    assert_eq!(v, GenericNum::Byte(0));
    let mut w = GenericNum::Byte(1);
    w.shl();
    assert_eq!(w, GenericNum::Byte(2));
    let mut q = GenericNum::Word(0x4000);
    q.shl();
    assert_eq!(q, GenericNum::Word(i16::MIN));
}

#[test]
fn flip_bit_at_the_top_of_the_widest_variant() {
    let mut v = GenericNum::OWord(0);
    v.flip_bit(127);
    assert_eq!(v, GenericNum::OWord(i128::MIN));
    v.flip_bit(0);
    assert_eq!(v, GenericNum::OWord(i128::MIN + 1));
    v.flip_bit(127);
    assert_eq!(v, GenericNum::OWord(1));
}

#[test]
fn shr_is_arithmetic() {
    let mut v = GenericNum::Byte(4);
    v.shr();
    assert_eq!(v, GenericNum::Byte(2));
    let mut w = GenericNum::Byte(-2);
    w.shr();
    assert_eq!(w, GenericNum::Byte(-1));
    let mut s = GenericNum::Byte(-1);
    s.shr();
    assert_eq!(s, GenericNum::Byte(-1));
}
