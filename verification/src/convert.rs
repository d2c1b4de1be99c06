//! Conversions between the signed and unsigned readings of a word.

use vstd::prelude::*;

verus! {

/// The bits of `x` read as an unsigned word.
pub open spec fn spec_i64_bits(x: i64) -> u64 {
    if x >= 0 {
        x as u64
    } else {
        (x + 0x1_0000_0000_0000_0000) as u64
    }
}

/// The bits of `x` read as a signed word.
pub open spec fn spec_u64_as_i64(x: u64) -> i64 {
    if x < 0x8000_0000_0000_0000 {
        x as i64
    } else {
        (x - 0x1_0000_0000_0000_0000) as i64
    }
}

/// The bits of `x` read as a signed word.
pub open spec fn spec_u32_as_i32(x: u32) -> i32 {
    if x < 0x8000_0000 {
        x as i32
    } else {
        (x - 0x1_0000_0000) as i32
    }
}

/// The bits of `x` read as an unsigned word.
#[verifier::when_used_as_spec(spec_i64_bits)]
pub fn i64_bits(x: i64) -> (r: u64)
    ensures
        r == spec_i64_bits(x),
{
    if x >= 0 {
        x as u64
    } else {
        ((x - i64::MIN) as u64) + 0x8000_0000_0000_0000u64
    }
}

/// The bits of `x` read as a signed word.
#[verifier::when_used_as_spec(spec_u64_as_i64)]
pub fn u64_as_i64(x: u64) -> (r: i64)
    ensures
        r == spec_u64_as_i64(x),
{
    if x < 0x8000_0000_0000_0000u64 {
        x as i64
    } else {
        ((x - 0x8000_0000_0000_0000u64) as i64) + i64::MIN
    }
}

/// The bits of `x` read as a signed word.
#[verifier::when_used_as_spec(spec_u32_as_i32)]
pub fn u32_as_i32(x: u32) -> (r: i32)
    ensures
        r == spec_u32_as_i32(x),
{
    if x < 0x8000_0000u32 {
        x as i32
    } else {
        (x as i64 - 0x1_0000_0000i64) as i32
    }
}

/// The magnitude of `d`.
pub fn magnitude_i32(d: i32) -> (r: u32)
    ensures
        r == crate::arith::abs(d as int),
{
    if d < 0 {
        (-(d as i64)) as u32
    } else {
        d as u32
    }
}

/// The magnitude of `d`.
pub fn magnitude_i64(d: i64) -> (r: u64)
    ensures
        r == crate::arith::abs(d as int),
{
    if d == i64::MIN {
        0x8000_0000_0000_0000u64
    } else if d < 0 {
        (-d) as u64
    } else {
        d as u64
    }
}

} // verus!
