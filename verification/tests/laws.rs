//! The laws on concrete values, and the edges of the operations.
use metal_softfloat_core::softfloat_ftz;
use metal_softfloat_core::softfloat_ref::encoding::round_and_pack;
use metal_softfloat_core::softfloat_ref::{
    classify, cvt_f32_to_f64, cvt_f64_to_f32, cvt_f64_to_i64, cvt_i64_to_f64, fadd, fdiv,
    fdiv_berkeley, feq, fge, fgt, fle, flt, fma, fmul, fsqrt, fsqrt_berkeley, fsub, IeeeClass,
    CANONICAL_QNAN, POS_INF,
};
use metal_softfloat_core::RoundingMode;

const MODES: [RoundingMode; 4] =
    [RoundingMode::Nearest, RoundingMode::Down, RoundingMode::Up, RoundingMode::Zero];
const SIGN: u64 = 1 << 63;
const ONE: u64 = 0x3FF0_0000_0000_0000;
const MAX: u64 = 0x7FEF_FFFF_FFFF_FFFF;
const MIN_NORMAL: u64 = 1 << 52;

fn bits(x: f64) -> u64 {
    x.to_bits()
}

fn samples() -> Vec<u64> {
    let sizes = [
        0,
        1,
        2,
        MIN_NORMAL - 1,
        MIN_NORMAL,
        MIN_NORMAL + 1,
        bits(0.1),
        bits(0.5),
        ONE,
        ONE + 1,
        bits(1.5),
        bits(3.0),
        bits(1.0e16),
        bits(2.5e300),
        MAX,
        POS_INF,
        CANONICAL_QNAN,
        POS_INF | 1,
    ];
    let mut v = Vec::new();
    for &k in &sizes {
        v.push(k);
        v.push(k | SIGN);
    }
    v
}

fn mirror(mode: RoundingMode) -> RoundingMode {
    match mode {
        RoundingMode::Down => RoundingMode::Up,
        RoundingMode::Up => RoundingMode::Down,
        _ => mode,
    }
}

fn is_nan(a: u64) -> bool {
    classify(a) == IeeeClass::NaN
}

fn is_zero(a: u64) -> bool {
    classify(a) == IeeeClass::Zero
}

fn is_finite(a: u64) -> bool {
    !is_nan(a) && classify(a) != IeeeClass::Inf
}

#[test]
fn mode_numbers() {
    assert_eq!(RoundingMode::Nearest.code(), 0);
    assert_eq!(RoundingMode::Down.code(), 1);
    assert_eq!(RoundingMode::Up.code(), 2);
    assert_eq!(RoundingMode::Zero.code(), 3);
    assert_eq!(RoundingMode::Zero as u32, 3);
}

#[test]
fn nan_results_are_canonical() {
    for &a in &samples() {
        for &b in &samples() {
            for &m in &MODES {
                for r in [fadd(a, b, m), fsub(a, b, m), fmul(a, b, m), fdiv(a, b, m), fsqrt(a, m)] {
                    assert!(!is_nan(r) || r == CANONICAL_QNAN);
                }
                if is_nan(a) || is_nan(b) {
                    assert_eq!(fadd(a, b, m), CANONICAL_QNAN);
                    assert_eq!(fma(ONE, a, b, m), CANONICAL_QNAN);
                }
            }
        }
    }
    assert_eq!(cvt_f32_to_f64(0x7FA0_0000), CANONICAL_QNAN);
    assert_eq!(cvt_f64_to_f32(POS_INF | 1, RoundingMode::Nearest), 0x7FC0_0000);
}

#[test]
fn operands_change_places() {
    for &a in &samples() {
        for &b in &samples() {
            for &m in &MODES {
                assert_eq!(fadd(a, b, m), fadd(b, a, m));
                assert_eq!(fmul(a, b, m), fmul(b, a, m));
                assert_eq!(fma(a, b, ONE, m), fma(b, a, ONE, m));
                assert_eq!(fsub(a, b, m), fadd(a, b ^ SIGN, m));
            }
        }
    }
}

#[test]
fn neutral_operands() {
    for &a in &samples() {
        for &m in &MODES {
            if is_nan(a) {
                continue;
            }
            assert_eq!(fmul(a, ONE, m), a);
            assert_eq!(fdiv(a, ONE, m), a);
            if !is_zero(a) {
                assert_eq!(fadd(a, 0, m), a);
                assert_eq!(fadd(SIGN, a, m), a);
            }
            if is_finite(a) {
                let zero = if m == RoundingMode::Down { SIGN } else { 0 };
                assert_eq!(fsub(a, a, m), zero);
            }
        }
    }
}

#[test]
fn fused_forms() {
    for &a in &samples() {
        for &b in &samples() {
            for &m in &MODES {
                assert_eq!(fma(a, ONE, b, m), fadd(a, b, m));
                if !is_zero(a) && !is_zero(b) {
                    assert_eq!(fma(a, b, 0, m), fmul(a, b, m));
                    assert_eq!(fma(a, b, SIGN, m), fmul(a, b, m));
                }
            }
        }
    }
}

#[test]
fn opposite_factors_mirror() {
    for &a in &samples() {
        for &b in &samples() {
            for &m in &MODES {
                let p = fmul(a, b, m);
                if !is_nan(p) {
                    assert_eq!(fmul(a ^ SIGN, b, mirror(m)), p ^ SIGN);
                }
                let q = fdiv(a, b, m);
                if !is_nan(q) {
                    assert_eq!(fdiv(a ^ SIGN, b, mirror(m)), q ^ SIGN);
                }
            }
        }
    }
}

#[test]
fn opposite_terms_mirror() {
    for &a in &samples() {
        for &b in &samples() {
            for &m in &MODES {
                let s = fadd(a, b, m);
                if !is_nan(s) && !is_zero(s) {
                    assert_eq!(fadd(a ^ SIGN, b ^ SIGN, mirror(m)), s ^ SIGN);
                }
                let f = fma(a, bits(3.0), b, m);
                if !is_nan(f) && !is_zero(f) {
                    assert_eq!(fma(a ^ SIGN, bits(3.0), b ^ SIGN, mirror(m)), f ^ SIGN);
                }
            }
        }
    }
    // An exact zero is positive in both of these.
    assert_eq!(fadd(ONE, ONE ^ SIGN, RoundingMode::Nearest), 0);
    assert_eq!(fadd(ONE ^ SIGN, ONE, RoundingMode::Nearest), 0);
}

#[test]
fn directed_results_enclose() {
    for &a in &samples() {
        for &b in &samples() {
            let near = fdiv(a, b, RoundingMode::Nearest);
            let down = fdiv(a, b, RoundingMode::Down);
            let up = fdiv(a, b, RoundingMode::Up);
            let zero = fdiv(a, b, RoundingMode::Zero);
            if is_nan(near) {
                continue;
            }
            assert!(fle(down, near) && fle(near, up));
            assert!(near == down || near == up);
            assert_eq!(zero, if near & SIGN != 0 { up } else { down });
        }
    }
}

#[test]
fn sums_and_roots_keep_order() {
    let v = samples();
    for &a in &v {
        for &a2 in &v {
            if !is_finite(a) || !is_finite(a2) || !fle(a, a2) {
                continue;
            }
            for &m in &MODES {
                for &b in &v {
                    if is_finite(b) {
                        assert!(fle(fadd(a, b, m), fadd(a2, b, m)));
                    }
                }
                if fge(a, 0) && a & SIGN == 0 {
                    assert!(fle(fsqrt(a, m), fsqrt(a2, m)));
                }
            }
        }
    }
}

#[test]
fn underflow_is_gradual() {
    for &a in &samples() {
        for &b in &samples() {
            for &m in &MODES {
                if is_finite(a) && is_finite(b) {
                    assert_eq!(is_zero(fsub(a, b, m)), feq(a, b));
                }
            }
        }
    }
    assert_eq!(fsub(MIN_NORMAL + 1, MIN_NORMAL, RoundingMode::Nearest), 1);
}

#[test]
fn exact_results_in_every_mode() {
    for &m in &MODES {
        assert_eq!(fadd(bits(0.75), bits(0.5), m), bits(1.25));
        assert_eq!(fmul(bits(1.5), bits(-2.5), m), bits(-3.75));
        assert_eq!(fdiv(bits(-3.75), bits(1.5), m), bits(-2.5));
        assert_eq!(fsqrt(bits(6.25), m), bits(2.5));
        assert_eq!(fsqrt_berkeley(bits(6.25), m), bits(2.5));
        assert_eq!(fdiv_berkeley(bits(-3.75), bits(1.5), m), bits(-2.5));
    }
}

#[test]
fn overflow_by_mode() {
    let neg = MAX | SIGN;
    assert_eq!(fadd(MAX, MAX, RoundingMode::Nearest), POS_INF);
    assert_eq!(fadd(MAX, MAX, RoundingMode::Down), MAX);
    assert_eq!(fadd(MAX, MAX, RoundingMode::Up), POS_INF);
    assert_eq!(fadd(MAX, MAX, RoundingMode::Zero), MAX);
    assert_eq!(fadd(neg, neg, RoundingMode::Down), POS_INF | SIGN);
    assert_eq!(fadd(neg, neg, RoundingMode::Up), neg);
    // Half a unit above the greatest number goes to infinity, less does not.
    assert_eq!(fadd(MAX, bits(2f64.powi(970)), RoundingMode::Nearest), POS_INF);
    assert_eq!(fadd(MAX, bits(2f64.powi(970)) - 1, RoundingMode::Nearest), MAX);
}

#[test]
fn ties_go_to_even() {
    let half = bits(2f64.powi(-53));
    assert_eq!(fadd(ONE, half, RoundingMode::Nearest), ONE);
    assert_eq!(fadd(ONE + 1, half, RoundingMode::Nearest), ONE + 2);
    assert_eq!(fadd(ONE, half + 1, RoundingMode::Nearest), ONE + 1);
    // Half of the least subnormal.
    assert_eq!(fmul(1, bits(0.5), RoundingMode::Nearest), 0);
    assert_eq!(fmul(3, bits(0.5), RoundingMode::Nearest), 2);
    assert_eq!(fmul(1, bits(0.5), RoundingMode::Up), 1);
    // The greatest subnormal rounds up into the normal range.
    assert_eq!(fmul(2 * MIN_NORMAL - 1, bits(0.5), RoundingMode::Nearest), MIN_NORMAL);
}

#[test]
fn order_of_all_pairs() {
    for &a in &samples() {
        for &b in &samples() {
            let less = flt(a, b);
            let equal = feq(a, b);
            let greater = fgt(a, b);
            if is_nan(a) || is_nan(b) {
                assert!(!less && !equal && !greater && !fle(a, b) && !fge(a, b));
            } else {
                assert_eq!(less as u32 + equal as u32 + greater as u32, 1);
                assert_eq!(fle(a, b), less || equal);
                assert_eq!(fge(a, b), greater || equal);
            }
            if equal {
                assert!(a == b || (is_zero(a) && is_zero(b)));
            }
        }
    }
}

#[test]
fn small_integers_round_trip() {
    for shift in 0..=53 {
        for d in -1i64..=1 {
            let x = (1i64 << shift) + d;
            if x > 1 << 53 {
                continue;
            }
            for &m in &MODES {
                for &back in &MODES {
                    assert_eq!(cvt_f64_to_i64(cvt_i64_to_f64(x, m), back), x);
                    assert_eq!(cvt_f64_to_i64(cvt_i64_to_f64(-x, m), back), -x);
                }
            }
        }
    }
}

#[test]
fn integers_with_the_unit_in_the_last_place() {
    // An odd whole number between 2^52 and 2^53 has no fraction to round.
    let x: i64 = (1 << 52) + 1;
    for &m in &MODES {
        assert_eq!(cvt_f64_to_i64(bits(x as f64), m), x);
    }
    assert_eq!(cvt_f64_to_i64(bits(9.223372036854775807e18), RoundingMode::Nearest), i64::MAX);
    assert_eq!(cvt_f64_to_i64(bits(-9.223372036854775808e18), RoundingMode::Nearest), i64::MIN);
    assert_eq!(cvt_f64_to_i64(bits(-2.5), RoundingMode::Nearest), -2);
    assert_eq!(cvt_f64_to_i64(bits(-3.5), RoundingMode::Nearest), -4);
    assert_eq!(cvt_f64_to_i64(1, RoundingMode::Up), 1);
    assert_eq!(cvt_f64_to_i64(1 | SIGN, RoundingMode::Down), -1);
    assert_eq!(cvt_f64_to_i64(bits(0.5), RoundingMode::Nearest), 0);
    assert_eq!(cvt_f64_to_i64(bits(0.5) + 1, RoundingMode::Nearest), 1);
}

#[test]
fn binary32_round_trips_in_every_mode() {
    for k in [0u32, 1, 2, 0x7F_FFFF, 0x80_0000, 0x80_0001, 0x3F80_0000, 0x7F7F_FFFF, 0x7F80_0000] {
        for a in [k, k | 0x8000_0000] {
            for &m in &MODES {
                assert_eq!(cvt_f64_to_f32(cvt_f32_to_f64(a), m), a);
            }
        }
    }
}

#[test]
fn narrowing_below_the_least_binary32() {
    let half = bits(2f64.powi(-150));
    assert_eq!(cvt_f64_to_f32(half, RoundingMode::Nearest), 0);
    assert_eq!(cvt_f64_to_f32(half + 1, RoundingMode::Nearest), 1);
    assert_eq!(cvt_f64_to_f32(half | SIGN, RoundingMode::Down), 0x8000_0001);
    assert_eq!(cvt_f64_to_f32(1, RoundingMode::Up), 1);
    assert_eq!(cvt_f64_to_f32(1, RoundingMode::Nearest), 0);
    assert_eq!(cvt_f64_to_f32(MAX, RoundingMode::Zero), 0x7F7F_FFFF);
    assert_eq!(cvt_f64_to_f32(MAX, RoundingMode::Nearest), 0x7F80_0000);
}

#[test]
fn estimated_quotient_below_the_normal_range() {
    // Underflow of the estimating division is gradual too.
    let two = bits(2.0);
    assert_eq!(fdiv_berkeley(MIN_NORMAL, two, RoundingMode::Nearest), 0x0008_0000_0000_0000);
    assert_eq!(fdiv_berkeley(1, two, RoundingMode::Nearest), 0);
    assert_eq!(fdiv_berkeley(1, two, RoundingMode::Up), 1);
    assert_eq!(fdiv_berkeley(3 | SIGN, two, RoundingMode::Nearest), 2 | SIGN);
    assert_eq!(fdiv_berkeley(MIN_NORMAL + 1, MAX | SIGN, RoundingMode::Down), 1 | SIGN);
    for &a in &samples() {
        for &b in &samples() {
            if is_finite(a) && is_finite(b) && !is_zero(b) {
                for &m in &MODES {
                    assert_eq!(fdiv_berkeley(a, b, m), fdiv(a, b, m));
                }
            }
        }
    }
    assert_eq!(fdiv_berkeley(SIGN, bits(2.0), RoundingMode::Nearest), SIGN);
    assert_eq!(fdiv_berkeley(MAX, bits(0.5), RoundingMode::Zero), MAX);
    assert_eq!(fsqrt_berkeley(SIGN, RoundingMode::Nearest), SIGN);
    assert_eq!(fsqrt_berkeley(1, RoundingMode::Nearest), fsqrt(1, RoundingMode::Nearest));
}

#[test]
fn staged_words_of_any_exponent_round_once() {
    let one = 1u128 << 116;
    let near = RoundingMode::Nearest;
    assert_eq!(round_and_pack(one, 0, 0, near, false), ONE);
    assert_eq!(round_and_pack(one, 1, -1022, near, false), MIN_NORMAL | SIGN);
    // One rounding: just above the midpoint of two subnormals, by the lowest bit.
    assert_eq!(round_and_pack(one, 0, -1075, near, false), 0);
    assert_eq!(round_and_pack(one + 1, 0, -1075, near, false), 1);
    assert_eq!(round_and_pack(5 << 114, 0, -1073, near, false), 2);
    assert_eq!(round_and_pack((5 << 114) + 1, 0, -1073, near, false), 3);
    // The carry out of the subnormals.
    assert_eq!(round_and_pack((1 << 117) - 1, 0, -1023, near, false), MIN_NORMAL);
    for exp in [-1075 - 64, -1300, -100_000, i32::MIN] {
        assert_eq!(round_and_pack(one, 0, exp, near, false), 0);
        assert_eq!(round_and_pack(one, 1, exp, RoundingMode::Zero, false), SIGN);
        assert_eq!(round_and_pack(one, 0, exp, RoundingMode::Up, false), 1);
        assert_eq!(round_and_pack(one, 1, exp, RoundingMode::Down, false), 1 | SIGN);
        assert_eq!(round_and_pack(one, 1, exp, RoundingMode::Down, true), SIGN);
    }
    assert_eq!(round_and_pack((1 << 117) - 1, 0, 1023, near, false), POS_INF);
    for exp in [1024, 5_000, 100_000, i32::MAX - 1023] {
        assert_eq!(round_and_pack(one, 1, exp, near, false), POS_INF | SIGN);
        assert_eq!(round_and_pack(one, 0, exp, RoundingMode::Down, false), MAX);
        assert_eq!(round_and_pack(one, 1, exp, RoundingMode::Down, true), POS_INF | SIGN);
    }
}

#[test]
fn flushing_operands_and_results() {
    let m = RoundingMode::Nearest;
    // Subnormal operands count as zeros of their sign.
    assert_eq!(softfloat_ftz::fadd(1, bits(2.0), m), bits(2.0));
    assert_eq!(softfloat_ftz::fadd(1, 1 | SIGN, RoundingMode::Down), SIGN);
    assert_eq!(softfloat_ftz::fsub(1, 1, m), 0);
    assert_eq!(softfloat_ftz::fmul(1 | SIGN, bits(2.0), m), SIGN);
    assert_eq!(softfloat_ftz::fdiv(1, 1, m), CANONICAL_QNAN);
    assert_eq!(softfloat_ftz::fdiv(1, bits(-2.0), m), SIGN);
    assert_eq!(softfloat_ftz::fdiv(bits(2.0), 1 | SIGN, m), POS_INF | SIGN);
    assert_eq!(softfloat_ftz::fsqrt(1, m), 0);
    assert_eq!(softfloat_ftz::fma(1, ONE, bits(2.0), m), bits(2.0));
    // Results below the normal range become zeros.
    assert_eq!(softfloat_ftz::fmul(MIN_NORMAL, bits(0.5), RoundingMode::Up), 0);
    assert_eq!(softfloat_ftz::fsub(MIN_NORMAL, MIN_NORMAL + 1, m), SIGN);
    assert_eq!(softfloat_ftz::fdiv(MIN_NORMAL, bits(-2.0), m), SIGN);
}

#[test]
fn flushing_returns_no_subnormal_and_keeps_the_rest() {
    for &a in &samples() {
        for &b in &samples() {
            for &m in &MODES {
                let flushed = [
                    softfloat_ftz::fadd(a, b, m),
                    softfloat_ftz::fsub(a, b, m),
                    softfloat_ftz::fmul(a, b, m),
                    softfloat_ftz::fdiv(a, b, m),
                    softfloat_ftz::fma(a, b, ONE, m),
                ];
                let kept =
                    [fadd(a, b, m), fsub(a, b, m), fmul(a, b, m), fdiv(a, b, m), fma(a, b, ONE, m)];
                for (&f, &k) in flushed.iter().zip(&kept) {
                    assert!(classify(f) != IeeeClass::Subnormal);
                    let plain = classify(a) != IeeeClass::Subnormal
                        && classify(b) != IeeeClass::Subnormal
                        && classify(k) != IeeeClass::Subnormal
                        && k & !SIGN != MIN_NORMAL;
                    if plain {
                        assert_eq!(f, k);
                    }
                }
            }
        }
    }
}
