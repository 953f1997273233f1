//! What each operation returns, for every operand.
//!
//! With `flush`, a result below the normal range is a zero of its sign.
use crate::model::{Exact, IeeeClass};
use crate::model;
use crate::RoundingMode;
use vstd::arithmetic::power2::*;
use vstd::prelude::*;

verus! {

/// The pattern is a NaN.
pub open spec fn is_nan(a: u64) -> bool {
    model::class_of(a) == IeeeClass::NaN
}

/// The pattern is an infinity.
pub open spec fn is_inf(a: u64) -> bool {
    model::class_of(a) == IeeeClass::Inf
}

/// The pattern is a zero.
pub open spec fn is_zero(a: u64) -> bool {
    model::class_of(a) == IeeeClass::Zero
}

/// The pattern is subnormal.
pub open spec fn is_subnormal(a: u64) -> bool {
    model::class_of(a) == IeeeClass::Subnormal
}

/// The pattern is a finite number other than zero.
pub open spec fn is_finite_nonzero(a: u64) -> bool {
    model::finite(a) && !is_zero(a)
}

/// The canonical quiet NaN.
pub open spec fn qnan() -> u64 {
    0x7FF8_0000_0000_0000
}

/// The infinity of the given sign.
pub open spec fn inf(neg: bool) -> int {
    model::pattern(neg, model::binary64().inf)
}

/// The zero of the given sign.
pub open spec fn zero(neg: bool) -> int {
    model::pattern(neg, 0)
}

/// The absolute value.
pub open spec fn abs(v: int) -> int {
    if v < 0 {
        -v
    } else {
        v
    }
}

/// `r` is the magnitude `x` rounded, or with `flush`, where `x` is below the
/// normal range, a zero of its sign.
pub open spec fn delivers(flush: bool, x: Exact, mode: RoundingMode, neg: bool, r: u64) -> bool {
    if flush && x.lt(pow2(52) as int, 1) {
        r == zero(neg)
    } else {
        model::is_rounded(x, mode, neg, r)
    }
}

/// `r` is the number `num / den`, in units of `2^-1074`, rounded.
pub open spec fn is_ratio(flush: bool, num: int, den: int, mode: RoundingMode, r: u64) -> bool {
    delivers(flush, Exact::Ratio { num: abs(num), den }, mode, num < 0, r)
}

/// `a`, or a zero of its sign where it is subnormal.
pub open spec fn flushed(a: u64) -> int {
    if is_subnormal(a) {
        zero(model::negative(a))
    } else {
        a as int
    }
}

/// `r` is what a sum of zeros of these signs is: the common sign, else positive
/// except where rounding goes down.
pub open spec fn is_zero_sum(neg_a: bool, neg_b: bool, mode: RoundingMode, r: u64) -> bool {
    r == zero(
        if neg_a == neg_b {
            neg_a
        } else {
            mode == RoundingMode::Down
        },
    )
}

/// `r` is `a + b`.
pub open spec fn is_sum(
    flush: bool,
    a: u64,
    b: u64,
    mode: RoundingMode,
    r: u64,
) -> bool {
    let sum = model::value(a) + model::value(b);
    if is_nan(a) || is_nan(b) {
        r == qnan()
    } else if is_inf(a) && is_inf(b) {
        if model::negative(a) == model::negative(b) {
            r == a
        } else {
            r == qnan()
        }
    } else if is_inf(a) {
        r == a
    } else if is_inf(b) {
        r == b
    } else if is_zero(a) && is_zero(b) {
        is_zero_sum(model::negative(a), model::negative(b), mode, r)
    } else if sum == 0 {
        r == zero(mode == RoundingMode::Down)
    } else {
        is_ratio(flush, sum, 1, mode, r)
    }
}

/// `r` is `a * b`.
pub open spec fn is_product(
    flush: bool,
    a: u64,
    b: u64,
    mode: RoundingMode,
    r: u64,
) -> bool {
    let neg = model::negative(a) != model::negative(b);
    if is_nan(a) || is_nan(b) {
        r == qnan()
    } else if (is_zero(a) && is_inf(b)) || (is_inf(a) && is_zero(b)) {
        r == qnan()
    } else if is_inf(a) || is_inf(b) {
        r == inf(neg)
    } else if is_zero(a) || is_zero(b) {
        r == zero(neg)
    } else {
        is_ratio(flush, model::value(a) * model::value(b), pow2(1074) as int, mode, r)
    }
}

/// `r` is `a * b + c`, rounded once.
pub open spec fn is_fused(
    flush: bool,
    a: u64,
    b: u64,
    c: u64,
    mode: RoundingMode,
    r: u64,
) -> bool {
    let neg = model::negative(a) != model::negative(b);
    let exact = model::value(a) * model::value(b) + model::value(c) * pow2(1074);
    if is_nan(a) || is_nan(b) || is_nan(c) {
        r == qnan()
    } else if (is_zero(a) && is_inf(b)) || (is_inf(a) && is_zero(b)) {
        r == qnan()
    } else if is_inf(a) || is_inf(b) {
        if is_inf(c) && model::negative(c) != neg {
            r == qnan()
        } else {
            r == inf(neg)
        }
    } else if is_inf(c) {
        r == c
    } else if (is_zero(a) || is_zero(b)) && is_zero(c) {
        is_zero_sum(neg, model::negative(c), mode, r)
    } else if exact == 0 {
        r == zero(mode == RoundingMode::Down)
    } else {
        is_ratio(flush, exact, pow2(1074) as int, mode, r)
    }
}

/// The quotient of two finite numbers other than zero, in units of `2^-1074`.
pub open spec fn quotient(a: u64, b: u64) -> Exact {
    Exact::Ratio { num: abs(model::value(a)) * pow2(1074), den: abs(model::value(b)) }
}

/// `r` is `a / b`.
pub open spec fn is_quotient(
    flush: bool,
    a: u64,
    b: u64,
    mode: RoundingMode,
    r: u64,
) -> bool {
    let neg = model::negative(a) != model::negative(b);
    if is_nan(a) || is_nan(b) {
        r == qnan()
    } else if (is_inf(a) && is_inf(b)) || (is_zero(a) && is_zero(b)) {
        r == qnan()
    } else if is_inf(a) || is_zero(b) {
        r == inf(neg)
    } else if is_inf(b) || is_zero(a) {
        r == zero(neg)
    } else {
        delivers(flush, quotient(a, b), mode, neg, r)
    }
}

/// `r` is the square root of `a`.
pub open spec fn is_root(a: u64, mode: RoundingMode, r: u64) -> bool {
    if is_nan(a) {
        r == qnan()
    } else if is_zero(a) {
        r == a
    } else if model::negative(a) {
        r == qnan()
    } else if is_inf(a) {
        r == inf(false)
    } else {
        model::is_rounded(
            Exact::Root { square: model::value(a) * pow2(1074) },
            mode,
            false,
            r,
        )
    }
}

/// `r` is the whole number `v` in binary64.
pub open spec fn is_from_integer(v: int, mode: RoundingMode, r: u64) -> bool {
    if v == 0 {
        r == zero(false)
    } else {
        is_ratio(false, v * pow2(1074), 1, mode, r)
    }
}

/// The whole number to which the mode takes `v / den`.
pub open spec fn whole(v: int, den: int, mode: RoundingMode) -> int {
    let floor = v / den;
    let part = v % den;
    match mode {
        RoundingMode::Nearest => if 2 * part > den || (2 * part == den && floor % 2 == 1) {
            floor + 1
        } else {
            floor
        },
        RoundingMode::Down => floor,
        RoundingMode::Up => if part > 0 {
            floor + 1
        } else {
            floor
        },
        RoundingMode::Zero => if part > 0 && v < 0 {
            floor + 1
        } else {
            floor
        },
    }
}

/// The member of the 64-bit signed range closest to `v`.
pub open spec fn saturate(v: int) -> int {
    if v < i64::MIN {
        i64::MIN as int
    } else if v > i64::MAX {
        i64::MAX as int
    } else {
        v
    }
}

/// `r` is `a` as a 64-bit integer: a NaN becomes 0, and what lies outside the
/// range the nearer end of it.
pub open spec fn is_to_integer(a: u64, mode: RoundingMode, r: i64) -> bool {
    if is_nan(a) {
        r == 0
    } else {
        r == saturate(whole(model::value(a), pow2(1074) as int, mode))
    }
}

/// `r` is the binary32 number `a` in binary64, which holds it exactly.
pub open spec fn is_widened(a: u32, r: u64) -> bool {
    match model::class_of32(a) {
        IeeeClass::NaN => r == qnan(),
        IeeeClass::Inf => r == inf(model::negative32(a)),
        _ => {
            &&& model::negative(r) == model::negative32(a)
            &&& model::finite(r)
            &&& model::value(r) == model::value32(a) * pow2(925)
        },
    }
}

/// `r` is `a` rounded to binary32.
pub open spec fn is_narrowed(a: u64, mode: RoundingMode, r: u32) -> bool {
    if is_nan(a) {
        r == 0x7FC0_0000
    } else if is_inf(a) {
        model::negative32(r) == model::negative(a) && model::magnitude32(r) == model::binary32().inf
    } else {
        let x = Exact::Ratio { num: abs(model::value(a)), den: pow2(925) as int };
        &&& model::negative32(r) == model::negative(a)
        &&& model::rounds_to(
            model::binary32(),
            x,
            mode,
            model::negative(a),
            model::magnitude32(r),
        )
    }
}

/// Neither pattern is a NaN.
pub open spec fn ordered(a: u64, b: u64) -> bool {
    !is_nan(a) && !is_nan(b)
}

/// `a` and `b` are the same number. Zeros of either sign are.
pub open spec fn equal(a: u64, b: u64) -> bool {
    ordered(a, b) && model::value(a) == model::value(b)
}

/// `a` is the lesser number.
pub open spec fn less(a: u64, b: u64) -> bool {
    ordered(a, b) && model::value(a) < model::value(b)
}

} // verus!
