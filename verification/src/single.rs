//! Order on IEEE-754 single-precision numbers, read off their bit patterns.
//!
//! The engine carries every coordinate, size and speed as the 32-bit pattern
//! of a single-precision number. Arithmetic on such numbers is the caller's
//! business; comparing two of them needs no arithmetic at all, and is done
//! here.
use vstd::prelude::*;

verus! {

/// The pattern of positive zero.
pub const ZERO: u32 = 0;

/// The pattern of 1.0.
pub const ONE: u32 = 0x3F80_0000;

/// The pattern with only the sign bit set: negative zero.
pub const SIGN: u32 = 0x8000_0000;

/// The pattern of positive infinity, the largest magnitude that is a number.
pub const INFINITY: u32 = 0x7F80_0000;

/// The pattern without its sign bit.
pub open spec fn magnitude(bits: u32) -> int {
    if bits >= SIGN {
        bits - SIGN
    } else {
        bits as int
    }
}

/// Whether the pattern is not a number.
pub open spec fn is_nan(bits: u32) -> bool {
    magnitude(bits) > INFINITY
}

/// Where a number stands among all numbers: patterns of numbers compare as
/// these integers do. Both zeros stand at 0.
pub open spec fn rank(bits: u32) -> int {
    if bits >= SIGN {
        -magnitude(bits)
    } else {
        magnitude(bits)
    }
}

/// `a < b` as IEEE-754 defines it: false where either is not a number.
pub open spec fn lt(a: u32, b: u32) -> bool {
    !is_nan(a) && !is_nan(b) && rank(a) < rank(b)
}

/// `a <= b` as IEEE-754 defines it: false where either is not a number.
pub open spec fn le(a: u32, b: u32) -> bool {
    !is_nan(a) && !is_nan(b) && rank(a) <= rank(b)
}

fn rank_of(bits: u32) -> (r: Option<i64>)
    ensures
        match r {
            Some(k) => !is_nan(bits) && k == rank(bits),
            None => is_nan(bits),
        },
{
    let negative: bool = bits >= SIGN;
    let m: u32 = if negative {
        bits - SIGN
    } else {
        bits
    };
    if m > INFINITY {
        None
    } else if negative {
        Some(-(m as i64))
    } else {
        Some(m as i64)
    }
}

/// Whether `a < b`.
pub fn less(a: u32, b: u32) -> (r: bool)
    ensures
        r == lt(a, b),
{
    match (rank_of(a), rank_of(b)) {
        (Some(x), Some(y)) => x < y,
        _ => false,
    }
}

/// Whether `a <= b`.
pub fn less_eq(a: u32, b: u32) -> (r: bool)
    ensures
        r == le(a, b),
{
    match (rank_of(a), rank_of(b)) {
        (Some(x), Some(y)) => x <= y,
        _ => false,
    }
}

} // verus!
