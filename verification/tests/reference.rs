//! Fixed cases of the reference operations.
use metal_softfloat_core::softfloat_ref::encoding::{IMPLICIT_BIT, MANT_MASK};
use metal_softfloat_core::softfloat_ref::{
    classify, cvt_f64_to_i64, cvt_i64_to_f64, fadd, fdiv, feq, fge, fgt, fle, flt, fma, fmul, fsqrt,
    fsub, isqrt_u128, IeeeClass, CANONICAL_QNAN, POS_INF,
};
use metal_softfloat_core::RoundingMode;

fn bits(x: f64) -> u64 {
    x.to_bits()
}

fn nan() -> u64 {
    CANONICAL_QNAN
}

fn pinf() -> u64 {
    POS_INF
}

fn ninf() -> u64 {
    POS_INF | (1u64 << 63)
}

fn pzero() -> u64 {
    0
}

fn nzero() -> u64 {
    1u64 << 63
}

fn min_subnormal() -> u64 {
    1
}

fn max_subnormal() -> u64 {
    (1u64 << 52) - 1
}

fn min_normal() -> u64 {
    1u64 << 52
}

#[test]
fn fadd_basic() {
    assert_eq!(fadd(bits(1.0), bits(2.0), RoundingMode::Nearest), bits(3.0));
    assert_eq!(fadd(bits(-1.5), bits(0.25), RoundingMode::Nearest), bits(-1.25));
}

#[test]
fn fsub_basic() {
    assert_eq!(fsub(bits(5.0), bits(3.0), RoundingMode::Nearest), bits(2.0));
}

#[test]
fn fmul_basic() {
    assert_eq!(fmul(bits(2.5), bits(4.0), RoundingMode::Nearest), bits(10.0));
}

#[test]
fn fdiv_basic() {
    assert_eq!(fdiv(bits(1.0), bits(2.0), RoundingMode::Nearest), bits(0.5));
}

#[test]
fn fsqrt_basic() {
    assert_eq!(fsqrt(bits(4.0), RoundingMode::Nearest), bits(2.0));
    assert_eq!(fsqrt(bits(2.0), RoundingMode::Nearest), bits(2.0f64.sqrt()));
}

#[test]
fn cvt_i32_cases() {
    let cvt_i32_to_f64 = |x: i32| cvt_i64_to_f64(i64::from(x), RoundingMode::Nearest);
    assert_eq!(cvt_i32_to_f64(0), bits(0.0));
    assert_eq!(cvt_i32_to_f64(1), bits(1.0));
    assert_eq!(cvt_i32_to_f64(-1), bits(-1.0));
    assert_eq!(cvt_i32_to_f64(42), bits(42.0));
    assert_eq!(cvt_i32_to_f64(i32::MIN), bits(-2_147_483_648.0));
    assert_eq!(cvt_i32_to_f64(i32::MAX), bits(2_147_483_647.0));
}

#[test]
fn rounding_modes_diverge_on_one_third() {
    let a = bits(1.0);
    let b = bits(3.0);
    let near = fdiv(a, b, RoundingMode::Nearest);
    let down = fdiv(a, b, RoundingMode::Down);
    let up = fdiv(a, b, RoundingMode::Up);
    let zero = fdiv(a, b, RoundingMode::Zero);

    assert_eq!(near, down); // 1/3 rounds down to the nearest even
    assert_eq!(down, zero); // positive result, so zero == down
    assert_ne!(down, up); // up flips the last bit
    assert_eq!(up, down + 1);
}

#[test]
fn fadd_cancellation_precision() {
    let a = bits(1.0e16);
    let b = bits(-1.0e16 + 1.0); // approximately 1.0 after cancellation
    let r = fadd(a, b, RoundingMode::Nearest);
    assert_eq!(r, (1.0e16f64 + (-1.0e16f64 + 1.0)).to_bits());
}

#[test]
fn const_fn_smoke() {
    let one: u64 = 0x3FF0_0000_0000_0000; // 1.0
    let two: u64 = 0x4000_0000_0000_0000; // 2.0
    let three: u64 = 0x4008_0000_0000_0000; // 3.0
    let sum: u64 = fadd(one, two, RoundingMode::Nearest);
    let prod: u64 = fmul(two, three, RoundingMode::Nearest);
    let root: u64 = fsqrt(0x4010_0000_0000_0000, RoundingMode::Nearest); // sqrt(4) = 2
    let eq: bool = feq(one, one);
    assert_eq!(sum, three);
    assert_eq!(prod, 0x4018_0000_0000_0000); // 6.0
    assert_eq!(root, two);
    assert!(eq);
}

#[test]
fn isqrt_basic() {
    assert_eq!(isqrt_u128(0), (0, 0));
    assert_eq!(isqrt_u128(1), (1, 0));
    assert_eq!(isqrt_u128(4), (2, 0));
    assert_eq!(isqrt_u128(25), (5, 0));
    assert_eq!(isqrt_u128(26), (5, 1));
    assert_eq!(isqrt_u128(100), (10, 0));
    // Large values
    let n: u128 = (1u128 << 80) + 123;
    let (r, rem) = isqrt_u128(n);
    assert_eq!(r * r + rem, n);
    assert!(rem < 2 * r + 1);
}

#[test]
fn isqrt_of_the_largest_words() {
    assert_eq!(isqrt_u128((1u128 << 126) - 1), ((1u128 << 63) - 1, (1u128 << 64) - 2));
    assert_eq!(isqrt_u128(u128::MAX), ((1u128 << 64) - 1, (1u128 << 65) - 2));
}

#[test]
fn fadd_simple_cases() {
    assert_eq!(fadd(bits(1.0), bits(2.0), RoundingMode::Nearest), bits(3.0));
    assert_eq!(fadd(bits(5.0), bits(-3.0), RoundingMode::Nearest), bits(2.0));
    assert_eq!(fadd(bits(1.5), bits(2.5), RoundingMode::Nearest), bits(4.0));
    assert_eq!(fadd(bits(-1.5), bits(0.25), RoundingMode::Nearest), bits(-1.25));
}

#[test]
fn fadd_special_cases() {
    let m = RoundingMode::Nearest;
    // NaN propagates.
    assert_eq!(classify(fadd(nan(), bits(1.0), m)), IeeeClass::NaN);
    assert_eq!(classify(fadd(bits(1.0), nan(), m)), IeeeClass::NaN);
    // Infinities.
    assert_eq!(fadd(pinf(), pinf(), m), pinf());
    assert_eq!(fadd(ninf(), ninf(), m), ninf());
    assert_eq!(classify(fadd(pinf(), ninf(), m)), IeeeClass::NaN);
    // Infinity and a finite number.
    assert_eq!(fadd(pinf(), bits(1.0), m), pinf());
    assert_eq!(fadd(bits(1.0), ninf(), m), ninf());
    // Zeros.
    assert_eq!(fadd(pzero(), pzero(), m), pzero());
    assert_eq!(fadd(nzero(), nzero(), m), nzero());
    assert_eq!(fadd(pzero(), nzero(), m), pzero());
    // (+0) + (-0) rounded down is -0.
    assert_eq!(fadd(pzero(), nzero(), RoundingMode::Down), nzero());
    // x + (-x) rounded down is -0.
    assert_eq!(fadd(bits(1.0), bits(-1.0), RoundingMode::Down), nzero());
    assert_eq!(fadd(bits(1.0), bits(-1.0), m), pzero());
}

#[test]
fn fmul_special_cases() {
    let m = RoundingMode::Nearest;
    // Zero times infinity.
    assert_eq!(classify(fmul(pzero(), pinf(), m)), IeeeClass::NaN);
    assert_eq!(classify(fmul(ninf(), pzero(), m)), IeeeClass::NaN);
    // Infinities.
    assert_eq!(fmul(pinf(), pinf(), m), pinf());
    assert_eq!(fmul(pinf(), ninf(), m), ninf());
    // Zeros.
    assert_eq!(fmul(pzero(), pzero(), m), pzero());
    assert_eq!(fmul(pzero(), nzero(), m), nzero());
    assert_eq!(fmul(nzero(), nzero(), m), pzero());
    // Infinity times a finite number.
    assert_eq!(fmul(pinf(), bits(2.0), m), pinf());
    assert_eq!(fmul(pinf(), bits(-2.0), m), ninf());
    // NaN propagates.
    assert_eq!(classify(fmul(nan(), bits(0.0), m)), IeeeClass::NaN);
}

#[test]
fn fdiv_special_cases() {
    let m = RoundingMode::Nearest;
    assert_eq!(classify(fdiv(pzero(), pzero(), m)), IeeeClass::NaN);
    assert_eq!(classify(fdiv(pinf(), pinf(), m)), IeeeClass::NaN);
    // A finite number by zero.
    assert_eq!(fdiv(bits(1.0), pzero(), m), pinf());
    assert_eq!(fdiv(bits(-1.0), pzero(), m), ninf());
    assert_eq!(fdiv(bits(1.0), nzero(), m), ninf());
    // Zero by a finite number.
    assert_eq!(fdiv(pzero(), bits(2.0), m), pzero());
    assert_eq!(fdiv(pzero(), bits(-2.0), m), nzero());
    // Infinity and a finite number.
    assert_eq!(fdiv(pinf(), bits(2.0), m), pinf());
    assert_eq!(fdiv(bits(2.0), pinf(), m), pzero());
    assert_eq!(fdiv(bits(-2.0), pinf(), m), nzero());
}

#[test]
fn fsqrt_special_cases() {
    let m = RoundingMode::Nearest;
    assert_eq!(classify(fsqrt(nan(), m)), IeeeClass::NaN);
    // The root of a zero keeps its sign.
    assert_eq!(fsqrt(pzero(), m), pzero());
    assert_eq!(fsqrt(nzero(), m), nzero());
    assert_eq!(fsqrt(pinf(), m), pinf());
    assert_eq!(classify(fsqrt(ninf(), m)), IeeeClass::NaN);
    // A negative finite number has no root.
    assert_eq!(classify(fsqrt(bits(-1.0), m)), IeeeClass::NaN);
}

#[test]
fn subnormal_arithmetic_basic() {
    let m = RoundingMode::Nearest;
    let two = bits(2.0);
    let r = fmul(min_subnormal(), two, m);
    assert_eq!(r, 2);
    let r = fadd(max_subnormal(), min_subnormal(), m);
    assert_eq!(r, min_normal());
    let r = fdiv(min_normal(), bits(2.0), m);
    assert_eq!(r, 1u64 << 51);
}

#[test]
fn fma_simple_cases() {
    let m = RoundingMode::Nearest;
    // 2 * 3 + 4 = 10
    assert_eq!(fma(bits(2.0), bits(3.0), bits(4.0), m), bits(10.0));
    // 1 * 1 - 1 = 0
    assert_eq!(fma(bits(1.0), bits(1.0), bits(-1.0), m), bits(0.0));
    // (1 + 2^-52) * (1 - 2^-53) - 1 keeps the parts that a rounded product loses.
    let lo = (1.0_f64 + 2.0f64.powi(-53)).to_bits();
    let hi = (1.0_f64 - 2.0f64.powi(-53)).to_bits();
    let neg_one_plus = (-1.0_f64 + 2.0f64.powi(-106)).to_bits();
    assert_eq!(fma(lo, hi, neg_one_plus, m), bits(-(2.0f64.powi(-53))));
    let next = bits(1.0) + 1;
    let exact = 2.0f64.powi(-53) - 2.0f64.powi(-105);
    assert_eq!(fma(next, hi, bits(-1.0), m), bits(exact));
}

#[test]
fn fma_special_cases() {
    let m = RoundingMode::Nearest;
    // Any NaN operand.
    assert_eq!(classify(fma(nan(), bits(1.0), bits(1.0), m)), IeeeClass::NaN);
    assert_eq!(classify(fma(bits(1.0), nan(), bits(1.0), m)), IeeeClass::NaN);
    assert_eq!(classify(fma(bits(1.0), bits(1.0), nan(), m)), IeeeClass::NaN);
    // Zero times infinity.
    assert_eq!(classify(fma(pzero(), pinf(), bits(1.0), m)), IeeeClass::NaN);
    assert_eq!(classify(fma(pinf(), pzero(), bits(1.0), m)), IeeeClass::NaN);
    // An infinite product and the opposite infinity.
    assert_eq!(classify(fma(pinf(), bits(1.0), ninf(), m)), IeeeClass::NaN);
    // An infinite product and the same infinity.
    assert_eq!(fma(pinf(), bits(2.0), pinf(), m), pinf());
    // Zeros of mixed signs.
    assert_eq!(fma(pzero(), nzero(), pzero(), m), pzero());
    assert_eq!(fma(pzero(), nzero(), nzero(), m), nzero());
    // 1 * 1 + (-1) rounded down is -0.
    assert_eq!(fma(bits(1.0), bits(1.0), bits(-1.0), RoundingMode::Down), nzero());
}

#[test]
fn cvt_f64_to_i64_basic() {
    let m = RoundingMode::Zero;
    assert_eq!(cvt_f64_to_i64(bits(0.0), m), 0);
    assert_eq!(cvt_f64_to_i64(bits(1.5), m), 1);
    assert_eq!(cvt_f64_to_i64(bits(-1.5), m), -1);
    assert_eq!(cvt_f64_to_i64(bits(2_147_483_647.0), m), 2_147_483_647);
    assert_eq!(cvt_f64_to_i64(bits(f64::INFINITY), m), i64::MAX);
    assert_eq!(cvt_f64_to_i64(bits(f64::NEG_INFINITY), m), i64::MIN);
    assert_eq!(cvt_f64_to_i64(nan(), m), 0);
}

#[test]
fn comparisons_basic() {
    assert!(feq(bits(1.0), bits(1.0)));
    assert!(!feq(nan(), nan()));
    // Zeros of either sign are equal.
    assert!(feq(pzero(), nzero()));
    assert!(flt(bits(1.0), bits(2.0)));
    assert!(!flt(bits(2.0), bits(1.0)));
    assert!(!flt(nan(), bits(1.0)));
    assert!(fle(bits(1.0), bits(1.0)));
    assert!(fle(bits(1.0), bits(2.0)));
    assert!(fgt(bits(2.0), bits(1.0)));
    assert!(fge(bits(2.0), bits(2.0)));
    // -1 < 1.
    assert!(flt(bits(-1.0), bits(1.0)));
    assert!(!flt(bits(1.0), bits(-1.0)));
    // -2 < -1.
    assert!(flt(bits(-2.0), bits(-1.0)));
}

#[test]
fn classifier_corner_cases() {
    assert_eq!(classify(0), IeeeClass::Zero);
    assert_eq!(classify(1u64 << 63), IeeeClass::Zero);
    assert_eq!(classify(1), IeeeClass::Subnormal);
    assert_eq!(classify(MANT_MASK), IeeeClass::Subnormal);
    assert_eq!(classify(IMPLICIT_BIT), IeeeClass::Normal); // smallest normal
    assert_eq!(classify(bits(1.0)), IeeeClass::Normal);
    assert_eq!(classify(POS_INF), IeeeClass::Inf);
    assert_eq!(classify(POS_INF | (1u64 << 63)), IeeeClass::Inf);
    assert_eq!(classify(POS_INF | 1), IeeeClass::NaN); // signaling
    assert_eq!(classify(CANONICAL_QNAN), IeeeClass::NaN); // quiet
}
