//! Absolute values of signed words that wrap instead of overflowing.
use vstd::prelude::*;

verus! {

/// The absolute value of an `i8`; the minimum value maps to itself.
pub fn i8_wrapping_abs(x: i8) -> (r: i8)
    ensures
        r == if x == i8::MIN {
            x as int
        } else if x < 0 {
            -x
        } else {
            x as int
        },
{
    if x == i8::MIN {
        x
    } else if x < 0 {
        -x
    } else {
        x
    }
}

/// The absolute value of an `i16`; the minimum value maps to itself.
pub fn i16_wrapping_abs(x: i16) -> (r: i16)
    ensures
        r == if x == i16::MIN {
            x as int
        } else if x < 0 {
            -x
        } else {
            x as int
        },
{
    if x == i16::MIN {
        x
    } else if x < 0 {
        -x
    } else {
        x
    }
}

/// The absolute value of an `i32`; the minimum value maps to itself.
pub fn i32_wrapping_abs(x: i32) -> (r: i32)
    ensures
        r == if x == i32::MIN {
            x as int
        } else if x < 0 {
            -x
        } else {
            x as int
        },
{
    if x == i32::MIN {
        x
    } else if x < 0 {
        -x
    } else {
        x
    }
}

/// The absolute value of an `i64`; the minimum value maps to itself.
pub fn i64_wrapping_abs(x: i64) -> (r: i64)
    ensures
        r == if x == i64::MIN {
            x as int
        } else if x < 0 {
            -x
        } else {
            x as int
        },
{
    if x == i64::MIN {
        x
    } else if x < 0 {
        -x
    } else {
        x
    }
}

/// The absolute value of an `i128`; the minimum value maps to itself.
pub fn i128_wrapping_abs(x: i128) -> (r: i128)
    ensures
        r == if x == i128::MIN {
            x as int
        } else if x < 0 {
            -x
        } else {
            x as int
        },
{
    if x == i128::MIN {
        x
    } else if x < 0 {
        -x
    } else {
        x
    }
}

/// The absolute value of an `isize`; the minimum value maps to itself.
pub fn isize_wrapping_abs(x: isize) -> (r: isize)
    ensures
        r == if x == isize::MIN {
            x as int
        } else if x < 0 {
            -x
        } else {
            x as int
        },
{
    if x == isize::MIN {
        x
    } else if x < 0 {
        -x
    } else {
        x
    }
}

} // verus!
