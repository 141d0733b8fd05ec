//! The classifier: which bytes are digits, and what each digit is worth.

use vstd::prelude::*;

verus! {

/// What [`DIGIT_MAP`] holds for a byte that is no hexadecimal digit.
pub const NOT_DIGIT: u8 = 255;

/// The value of every byte as a hexadecimal digit, in either case, and
/// [`NOT_DIGIT`] for every other byte.
pub const DIGIT_MAP: [u8; 256] = [
    255, 255, 255, 255, 255, 255, 255, 255, 255, 255, 255, 255, 255, 255, 255, 255,
    255, 255, 255, 255, 255, 255, 255, 255, 255, 255, 255, 255, 255, 255, 255, 255,
    255, 255, 255, 255, 255, 255, 255, 255, 255, 255, 255, 255, 255, 255, 255, 255,
    0, 1, 2, 3, 4, 5, 6, 7, 8, 9, 255, 255, 255, 255, 255, 255,
    255, 10, 11, 12, 13, 14, 15, 255, 255, 255, 255, 255, 255, 255, 255, 255,
    255, 255, 255, 255, 255, 255, 255, 255, 255, 255, 255, 255, 255, 255, 255, 255,
    255, 10, 11, 12, 13, 14, 15, 255, 255, 255, 255, 255, 255, 255, 255, 255,
    255, 255, 255, 255, 255, 255, 255, 255, 255, 255, 255, 255, 255, 255, 255, 255,
    255, 255, 255, 255, 255, 255, 255, 255, 255, 255, 255, 255, 255, 255, 255, 255,
    255, 255, 255, 255, 255, 255, 255, 255, 255, 255, 255, 255, 255, 255, 255, 255,
    255, 255, 255, 255, 255, 255, 255, 255, 255, 255, 255, 255, 255, 255, 255, 255,
    255, 255, 255, 255, 255, 255, 255, 255, 255, 255, 255, 255, 255, 255, 255, 255,
    255, 255, 255, 255, 255, 255, 255, 255, 255, 255, 255, 255, 255, 255, 255, 255,
    255, 255, 255, 255, 255, 255, 255, 255, 255, 255, 255, 255, 255, 255, 255, 255,
    255, 255, 255, 255, 255, 255, 255, 255, 255, 255, 255, 255, 255, 255, 255, 255,
    255, 255, 255, 255, 255, 255, 255, 255, 255, 255, 255, 255, 255, 255, 255, 255,
];

/// Whether `b` is one of `0-9`, `a-f` or `A-F`.
pub open spec fn is_hex_digit(b: u8) -> bool {
    (0x30 <= b <= 0x39) || (0x61 <= b <= 0x66) || (0x41 <= b <= 0x46)
}

/// The value of `b` as a hexadecimal digit; zero for a byte that is none.
pub open spec fn hex_value(b: u8) -> nat {
    if 0x30 <= b <= 0x39 {
        (b - 0x30) as nat
    } else if 0x61 <= b <= 0x66 {
        (b - 0x61 + 10) as nat
    } else if 0x41 <= b <= 0x46 {
        (b - 0x41 + 10) as nat
    } else {
        0
    }
}

/// Looks `byte` up in [`DIGIT_MAP`].
pub fn digit_map(byte: u8) -> (v: u8)
    ensures
        is_hex_digit(byte) ==> v == hex_value(byte) && v < 16,
        !is_hex_digit(byte) ==> v == NOT_DIGIT,
{
    DIGIT_MAP[byte as usize]
}

/// An alphabet: the set of bytes that count as digits.
pub trait NumericType: Default {
    /// Whether `v` is a digit of this alphabet.
    spec fn numeric(v: u8) -> bool;

    /// An alphabet holds hexadecimal digits only.
    proof fn lemma_numeric_is_hex(v: u8)
        ensures
            Self::numeric(v) ==> is_hex_digit(v),
    ;

    /// Whether `v` is a digit of this alphabet.
    fn is_numeric(v: u8) -> (r: bool)
        ensures
            r == Self::numeric(v),
    ;
}

/// The decimal alphabet `0-9`.
pub struct StdNumeric;

impl Default for StdNumeric {
    fn default() -> (r: Self) {
        StdNumeric
    }
}

impl NumericType for StdNumeric {
    open spec fn numeric(v: u8) -> bool {
        0x30 <= v <= 0x39
    }

    proof fn lemma_numeric_is_hex(v: u8) {
    }

    fn is_numeric(v: u8) -> (r: bool) {
        v >= 0x30 && v <= 0x39
    }
}

/// The hexadecimal alphabet `0-9`, `a-f` and `A-F`.
pub struct HexDigit;

impl Default for HexDigit {
    fn default() -> (r: Self) {
        HexDigit
    }
}

impl NumericType for HexDigit {
    open spec fn numeric(v: u8) -> bool {
        is_hex_digit(v)
    }

    proof fn lemma_numeric_is_hex(v: u8) {
    }

    fn is_numeric(v: u8) -> (r: bool) {
        (v >= 0x30 && v <= 0x39) || (v >= 0x61 && v <= 0x66) || (v >= 0x41 && v <= 0x46)
    }
}

/// The nibble that `byte` stands for in the alphabet `T`, or [`NOT_DIGIT`].
pub fn classify<T: NumericType>(byte: u8) -> (v: u8)
    ensures
        T::numeric(byte) ==> v == hex_value(byte) && v < 16,
        !T::numeric(byte) ==> v == NOT_DIGIT,
{
    proof {
        T::lemma_numeric_is_hex(byte);
    }
    if T::is_numeric(byte) {
        digit_map(byte)
    } else {
        NOT_DIGIT
    }
}

/// Whether some byte of `vec` is no digit of the alphabet `T`.
pub fn is_not_numeric<T: NumericType>(vec: &Vec<u8>) -> (r: bool)
    ensures
        r == exists|i: int| 0 <= i < vec@.len() && !T::numeric(#[trigger] vec@[i]),
{
    let mut k: usize = 0;
    while k < vec.len()
        invariant
            k <= vec@.len(),
            forall|i: int| 0 <= i < k ==> T::numeric(#[trigger] vec@[i]),
        decreases vec@.len() - k,
    {
        if !T::is_numeric(vec[k]) {
            return true;
        }
        k += 1;
    }
    false
}

} // verus!
