//! Numbers as text, for the messages of errors.

use vstd::prelude::*;
use vstd::string::StringExecFns;

verus! {

/// The digit that stands for a number below 16, in lower case.
pub open spec fn digit(d: int) -> Seq<char> {
    if d == 0 {
        "0"@
    } else if d == 1 {
        "1"@
    } else if d == 2 {
        "2"@
    } else if d == 3 {
        "3"@
    } else if d == 4 {
        "4"@
    } else if d == 5 {
        "5"@
    } else if d == 6 {
        "6"@
    } else if d == 7 {
        "7"@
    } else if d == 8 {
        "8"@
    } else if d == 9 {
        "9"@
    } else if d == 10 {
        "a"@
    } else if d == 11 {
        "b"@
    } else if d == 12 {
        "c"@
    } else if d == 13 {
        "d"@
    } else if d == 14 {
        "e"@
    } else {
        "f"@
    }
}

/// A number in decimal digits, without leading zeros.
pub open spec fn decimal(v: int) -> Seq<char>
    decreases v,
{
    if v < 10 {
        digit(v)
    } else {
        decimal(v / 10) + digit(v % 10)
    }
}

/// A number in decimal digits, with a minus sign before them if it is
/// negative.
pub open spec fn signed_decimal(v: int) -> Seq<char> {
    if v < 0 {
        "-"@ + decimal(-v)
    } else {
        decimal(v)
    }
}

/// A number below 2^32 in eight hexadecimal digits.
pub open spec fn hex8(v: int) -> Seq<char> {
    digit((v / 0x1000_0000) % 16) + digit((v / 0x100_0000) % 16) + digit((v / 0x10_0000) % 16)
        + digit((v / 0x1_0000) % 16) + digit((v / 0x1000) % 16) + digit((v / 0x100) % 16) + digit(
        (v / 0x10) % 16,
    ) + digit(v % 16)
}

fn digit_str(d: u32) -> (s: &'static str)
    requires
        d < 16,
    ensures
        s@ == digit(d as int),
{
    if d == 0 {
        "0"
    } else if d == 1 {
        "1"
    } else if d == 2 {
        "2"
    } else if d == 3 {
        "3"
    } else if d == 4 {
        "4"
    } else if d == 5 {
        "5"
    } else if d == 6 {
        "6"
    } else if d == 7 {
        "7"
    } else if d == 8 {
        "8"
    } else if d == 9 {
        "9"
    } else if d == 10 {
        "a"
    } else if d == 11 {
        "b"
    } else if d == 12 {
        "c"
    } else if d == 13 {
        "d"
    } else if d == 14 {
        "e"
    } else {
        "f"
    }
}

/// `v` in decimal digits.
pub fn decimal_string(v: u64) -> (s: String)
    ensures
        s@ == decimal(v as int),
    decreases v,
{
    if v < 10 {
        String::from_str(digit_str(v as u32))
    } else {
        decimal_string(v / 10).concat(digit_str((v % 10) as u32))
    }
}

/// `v` in decimal digits, with its sign if it is negative.
pub fn signed_decimal_string(v: i32) -> (s: String)
    ensures
        s@ == signed_decimal(v as int),
{
    if v < 0 {
        let digits = decimal_string((-(v as i64)) as u64);
        String::from_str("-").concat(digits.as_str())
    } else {
        decimal_string(v as u64)
    }
}

/// `v` in eight hexadecimal digits.
pub fn hex8_string(v: u32) -> (s: String)
    ensures
        s@ == hex8(v as int),
{
    String::from_str(digit_str((v / 0x1000_0000) % 16)).concat(
        digit_str((v / 0x100_0000) % 16),
    ).concat(digit_str((v / 0x10_0000) % 16)).concat(digit_str((v / 0x1_0000) % 16)).concat(
        digit_str((v / 0x1000) % 16),
    ).concat(digit_str((v / 0x100) % 16)).concat(digit_str((v / 0x10) % 16)).concat(
        digit_str(v % 16),
    )
}

} // verus!
