//! Binary-coded decimal conversion.

use vstd::prelude::*;

verus! {

/// The number of tens that the fixed-point estimate `val * 103 / 1024` finds in `val`, computed
/// modulo 2^32.
pub open spec fn bcd_tens(val: u32) -> int {
    ((val * 103) % 0x1_0000_0000) / 1024
}

/// The number that an eight-bit binary-coded decimal value stands for.
pub open spec fn bin_of_bcd(val: int) -> int {
    val % 16 + val / 16 * 10
}

/// The binary-coded decimal form of a number of up to two digits.
pub open spec fn bcd_of_bin(val: int) -> int {
    val / 10 * 16 + val % 10
}

/// A number of up to two digits comes back from its binary-coded decimal form.
pub proof fn law_bin_round_trip(val: int)
    requires
        0 <= val <= 99,
    ensures
        0 <= bcd_of_bin(val) <= 0xff,
        bin_of_bcd(bcd_of_bin(val)) == val,
{
}

/// A binary-coded decimal value comes back from the number it stands for.
pub proof fn law_bcd_round_trip(val: int)
    requires
        0 <= val <= 0x99,
        val % 16 <= 9,
    ensures
        0 <= bin_of_bcd(val) <= 99,
        bcd_of_bin(bin_of_bcd(val)) == val,
{
}

/// Converts an eight-bit binary-coded decimal value to binary.
pub fn _bcd2bin(val: u8) -> (r: u32)
    ensures
        r == bin_of_bcd(val as int),
{
    assert(val & 0x0f == val % 16) by (bit_vector);
    assert(val >> 4 == val / 16) by (bit_vector);
    (val & 0x0f) as u32 + (val >> 4) as u32 * 10
}

/// Converts an unsigned binary value to its eight-bit binary-coded decimal form.
pub fn _bin2bcd(val: u32) -> (r: u8)
    ensures
        val <= 99 ==> r == bcd_of_bin(val as int),
        r == ((bcd_tens(val) as u32) << 4 | ((val - bcd_tens(val) * 10) % 0x1_0000_0000) as u32) as u8,
{
    let product: u32 = val.wrapping_mul(103);
    let tens: u32 = product >> 10;
    assert(product >> 10 == product / 1024) by (bit_vector);
    assert(tens <= 0x3f_ffff);
    let units: u32 = val.wrapping_sub(tens * 10);
    assert(val <= 99 ==> tens == val / 10);
    proof {
        let u = units;
        assert(tens <= 9 && u <= 9 ==> ((tens << 4) | u) as u8 == tens * 16 + u) by (bit_vector);
    }
    ((tens << 4) | units) as u8
}

/// Each half of a binary-coded decimal value is a digit, the upper one the tens.
pub proof fn law_digits(tens: int, units: int)
    requires
        0 <= tens < 16,
        0 <= units < 16,
    ensures
        bin_of_bcd(tens * 16 + units) == tens * 10 + units,
        tens < 10 && units < 10 ==> bcd_of_bin(tens * 10 + units) == tens * 16 + units,
{
}

/// The estimate of the tens is exact up to 178, and never more than one too large while the product
/// fits in a word.
pub proof fn law_tens(val: u32)
    ensures
        val <= 178 ==> bcd_tens(val) == val / 10,
        val <= 1000 ==> val / 10 <= bcd_tens(val) <= val / 10 + 1,
        bcd_tens(val) * 1024 <= (val * 103) % 0x1_0000_0000 < bcd_tens(val) * 1024 + 1024,
{
}

/// Converting a number of up to two digits to binary-coded decimal gives its digits, and converting that
/// back gives the number.
pub proof fn law_conversions(val: u32, b: u8, r: u32)
    requires
        val <= 99,
        call_ensures(_bin2bcd, (val,), b),
        call_ensures(_bcd2bin, (b,), r),
    ensures
        b / 16 == val / 10,
        b % 16 == val % 10,
        r == val,
{
}

} // verus!
