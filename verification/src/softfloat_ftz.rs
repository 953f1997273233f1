//! The arithmetic of `softfloat_ref` with subnormals flushed to zero: a subnormal
//! operand counts as a zero of its sign, and a result below the normal range
//! becomes one.
use crate::bits;
use crate::ieee;
use crate::model::IeeeClass;
use crate::softfloat_ref::add;
use crate::softfloat_ref::div;
use crate::softfloat_ref::encoding;
use crate::softfloat_ref::mul;
use crate::softfloat_ref::sqrt;
use crate::RoundingMode;
use vstd::prelude::*;

verus! {

/// A zero of the same sign in place of a subnormal number.
pub fn flush_input(a: u64) -> (r: u64)
    ensures
        r == ieee::flushed(a),
        !ieee::is_subnormal(r),
        r != a ==> 0 < a as int % 0x8000_0000_0000_0000 < 0x10_0000_0000_0000,
        r as int / 0x8000_0000_0000_0000 == a as int / 0x8000_0000_0000_0000,
{
    proof {
        bits::lemma_pow2_values();
    }
    if matches!(encoding::classify(a), IeeeClass::Subnormal) {
        encoding::signed_zero(a / 0x8000_0000_0000_0000)
    } else {
        a
    }
}

/// `a + b`.
#[must_use]
pub fn fadd(a: u64, b: u64, mode: RoundingMode) -> (r: u64)
    ensures
        ieee::is_sum(true, ieee::flushed(a) as u64, ieee::flushed(b) as u64, mode, r),
{
    add::add_with(flush_input(a), flush_input(b), mode, true)
}

/// `a - b`.
#[must_use]
pub fn fsub(a: u64, b: u64, mode: RoundingMode) -> (r: u64)
    ensures
        ieee::is_sum(
            true,
            ieee::flushed(a) as u64,
            ieee::flushed(add::opposite(b)) as u64,
            mode,
            r,
        ),
{
    fadd(a, add::negate(b), mode)
}

/// `a * b`.
#[must_use]
pub fn fmul(a: u64, b: u64, mode: RoundingMode) -> (r: u64)
    ensures
        ieee::is_product(true, ieee::flushed(a) as u64, ieee::flushed(b) as u64, mode, r),
{
    mul::mul_with(flush_input(a), flush_input(b), mode, true)
}

/// `a / b`.
#[must_use]
pub fn fdiv(a: u64, b: u64, mode: RoundingMode) -> (r: u64)
    ensures
        ieee::is_quotient(true, ieee::flushed(a) as u64, ieee::flushed(b) as u64, mode, r),
{
    div::div_with(flush_input(a), flush_input(b), mode, true)
}

/// The square root. The root of a normal number is normal.
#[must_use]
pub fn fsqrt(a: u64, mode: RoundingMode) -> (r: u64)
    ensures
        ieee::is_root(ieee::flushed(a) as u64, mode, r),
{
    sqrt::fsqrt(flush_input(a), mode)
}

/// `a * b + c` with a single rounding.
#[must_use]
pub fn fma(a: u64, b: u64, c: u64, mode: RoundingMode) -> (r: u64)
    ensures
        ieee::is_fused(
            true,
            ieee::flushed(a) as u64,
            ieee::flushed(b) as u64,
            ieee::flushed(c) as u64,
            mode,
            r,
        ),
{
    mul::fma_with(flush_input(a), flush_input(b), flush_input(c), mode, true)
}

} // verus!
