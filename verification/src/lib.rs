//! A multi-width signed integer value abstraction.
//!
//! A [`GenericNum`](generic_num::GenericNum) holds a signed integer in one of
//! five fixed bit widths (8, 16, 32, 64 or 128 bits) and can be rendered in and
//! parsed from binary, octal, decimal and hexadecimal text, converted between
//! widths with two's-complement semantics, and inspected or mutated at the bit
//! level.

pub mod conv_trait;
pub mod generic_num;
pub mod laws;

pub use conv_trait::{BinaryConvert, DecimalConvert, HexConvert, OctalConvert, SeperateString};
pub use generic_num::GenericNum;

use vstd::prelude::*;

verus! {

/// A numeral base used to render or parse a value as text.
#[derive(Clone, Copy, Debug, PartialEq, Eq, Structural)]
pub enum Base {
    Binary,
    Octal,
    Decimal,
    Hex,
}

impl Base {
    /// The radix of this base as a number.
    pub open spec fn spec_radix(self) -> nat {
        match self {
            Base::Binary => 2,
            Base::Octal => 8,
            Base::Decimal => 10,
            Base::Hex => 16,
        }
    }

    /// The radix of this base as a number.
    pub fn radix(&self) -> (r: usize)
        ensures
            r as nat == self.spec_radix(),
    {
        match self {
            Base::Binary => 2,
            Base::Octal => 8,
            Base::Decimal => 10,
            Base::Hex => 16,
        }
    }

    /// How many digits of this base render one byte of storage in the
    /// fixed-width formatters; zero for decimal, which has no fixed padding.
    pub open spec fn spec_digits_per_byte(self) -> nat {
        match self {
            Base::Binary => 4,
            Base::Octal => 3,
            Base::Decimal => 0,
            Base::Hex => 2,
        }
    }

    /// How many digits of this base render one byte of storage in the
    /// fixed-width formatters; zero for decimal, which has no fixed padding.
    pub fn digits_per_byte(&self) -> (r: usize)
        ensures
            r as nat == self.spec_digits_per_byte(),
    {
        match self {
            Base::Binary => 4,
            Base::Octal => 3,
            Base::Decimal => 0,
            Base::Hex => 2,
        }
    }
}

/// The width of one variant of [`generic_num::GenericNum`].
#[derive(Clone, Copy, Debug, PartialEq, Eq, Structural)]
pub enum DataSize {
    Byte,
    Word,
    DWord,
    QWord,
    OWord,
}

impl DataSize {
    /// The width in bytes.
    pub open spec fn spec_bytes(self) -> nat {
        match self {
            DataSize::Byte => 1,
            DataSize::Word => 2,
            DataSize::DWord => 4,
            DataSize::QWord => 8,
            DataSize::OWord => 16,
        }
    }

    /// The width in bytes.
    pub fn bytes(&self) -> (r: usize)
        ensures
            r as nat == self.spec_bytes(),
    {
        match self {
            DataSize::Byte => 1,
            DataSize::Word => 2,
            DataSize::DWord => 4,
            DataSize::QWord => 8,
            DataSize::OWord => 16,
        }
    }

    /// The width in bits.
    pub open spec fn spec_bits(self) -> nat {
        self.spec_bytes() * 8
    }

    /// The width in bits.
    pub fn bits(&self) -> (r: usize)
        ensures
            r as nat == self.spec_bits(),
    {
        let b = self.bytes();
        b * 8
    }
}

} // verus!
