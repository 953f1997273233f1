//! How well results fit: no number of the format fits the exact result better.
//!
//! A result that rounds toward a side is the last number on that side of the exact
//! result. A result that rounds to nearest lies no further from the exact result than
//! any other number does, and where another number lies equally far, its last bit is
//! zero. Only at or beyond the midpoint between the greatest number and `2^1024`, in
//! units of `2^-1074` at `(2^54 - 1) * 2^2044`, is it infinite.
use crate::bits;
use crate::ieee;
use crate::laws;
use crate::model::{Exact, Format};
use crate::model;
use crate::rounding;
use crate::softfloat_ref::encoding;
use crate::RoundingMode;
use vstd::arithmetic::power2::*;
use vstd::prelude::*;

verus! {

/// Among all numbers, of which `cv` is one, `rv` fits `num / den` best, where `finite`
/// tells whether it is a number, `even` whether its last bit is zero, and `most` is
/// the least magnitude that goes to infinity when rounding to nearest.
spec fn fits(
    num: int,
    den: int,
    most: int,
    mode: RoundingMode,
    rv: int,
    finite: bool,
    even: bool,
    cv: int,
) -> bool {
    match mode {
        RoundingMode::Nearest => {
            &&& finite == (-(most * den) < num < most * den)
            &&& finite && cv > rv ==> 2 * num <= (rv + cv) * den
            &&& finite && cv < rv ==> 2 * num >= (rv + cv) * den
            &&& finite && cv != rv && 2 * num == (rv + cv) * den ==> even
        },
        RoundingMode::Down => {
            &&& finite ==> rv * den <= num
            &&& cv * den <= num ==> finite && cv <= rv
            &&& num > 0 ==> finite
        },
        RoundingMode::Up => {
            &&& finite ==> rv * den >= num
            &&& cv * den >= num ==> finite && cv >= rv
            &&& num < 0 ==> finite
        },
        RoundingMode::Zero => {
            &&& finite
            &&& num >= 0 ==> 0 <= rv * den <= num && (cv * den <= num ==> cv <= rv)
            &&& num <= 0 ==> num <= rv * den <= 0 && (cv * den >= num ==> cv >= rv)
        },
    }
}

/// To nearest, against one other number of either sign.
proof fn lemma_nearest(f: Format, n: int, d: int, neg: bool, k: int, j: int, w: int)
    requires
        n >= 0,
        d > 0,
        0 <= k < f.inf,
        0 <= j,
        w == model::mag(f, j) || w == -model::mag(f, j),
        model::rounds_to(f, Exact::Ratio { num: n, den: d }, RoundingMode::Nearest, neg, k),
    ensures
        ({
            let v = model::mag(f, k);
            &&& w > v ==> 2 * n <= (v + w) * d
            &&& w < v ==> 2 * n >= (v + w) * d
            &&& w != v && 2 * n == (v + w) * d ==> k % 2 == 0
        }),
{
    let v = model::mag(f, k);
    rounding::lemma_mag_nonnegative(f, j);
    rounding::lemma_mag_nonnegative(f, k);
    if w > v {
        let y = v + model::mag(f, k + 1);
        if j <= k {
            if j < k {
                rounding::lemma_mag_increases(f, j, k);
            }
        } else if k + 1 < j {
            rounding::lemma_mag_increases(f, k + 1, j);
        }
        assert(y * d <= (v + w) * d) by (nonlinear_arith)
            requires
                y <= v + w,
                d > 0,
        ;
    } else if w < v {
        if k == 0 {
            rounding::lemma_mag_at(f, 0, 0);
            assert((v + w) * d < 0) by (nonlinear_arith)
                requires
                    v + w < 0,
                    d > 0,
            ;
        } else {
            let z = model::mag(f, k - 1);
            let y = z + v;
            rounding::lemma_mag_increases(f, k - 1, k);
            if j >= k {
                if j > k {
                    rounding::lemma_mag_increases(f, k, j);
                }
            } else if j < k - 1 {
                rounding::lemma_mag_increases(f, j, k - 1);
            }
            assert((v + w) * d <= y * d) by (nonlinear_arith)
                requires
                    v + w <= y,
                    d > 0,
            ;
        }
    }
}

/// Toward zero, against one other number of either sign.
proof fn lemma_inner(f: Format, n: int, d: int, k: int, j: int, w: int)
    requires
        n >= 0,
        d > 0,
        0 <= k < f.inf,
        0 <= j < f.inf,
        w == model::mag(f, j) || w == -model::mag(f, j),
        model::mag(f, k) * d <= n,
        k + 1 < f.inf ==> n < model::mag(f, k + 1) * d,
    ensures
        model::mag(f, k) * d >= 0,
        w * d <= n ==> w <= model::mag(f, k),
{
    let v = model::mag(f, k);
    rounding::lemma_mag_nonnegative(f, j);
    rounding::lemma_mag_nonnegative(f, k);
    assert(v * d >= 0) by (nonlinear_arith)
        requires
            v >= 0,
            d > 0,
    ;
    if w > v {
        if j <= k {
            if j < k {
                rounding::lemma_mag_increases(f, j, k);
            }
        } else if k + 1 < j {
            rounding::lemma_mag_increases(f, k + 1, j);
        }
        let u = model::mag(f, k + 1);
        assert(u * d <= w * d) by (nonlinear_arith)
            requires
                u <= w,
                d > 0,
        ;
    }
}

/// Away from zero, against one other number of either sign.
proof fn lemma_outer(f: Format, n: int, d: int, k: int, j: int, w: int)
    requires
        n >= 0,
        d > 0,
        0 <= k <= f.inf,
        0 <= j < f.inf,
        w == model::mag(f, j) || w == -model::mag(f, j),
        k > 0 ==> n > model::mag(f, k - 1) * d,
    ensures
        w * d >= n ==> k < f.inf && w >= model::mag(f, k),
{
    rounding::lemma_mag_nonnegative(f, j);
    rounding::lemma_mag_nonnegative(f, k);
    if w * d >= n {
        assert(w >= 0) by (nonlinear_arith)
            requires
                w * d >= n,
                n >= 0,
                d > 0,
        ;
        if j < k {
            let z = model::mag(f, k - 1);
            if j < k - 1 {
                rounding::lemma_mag_increases(f, j, k - 1);
            }
            assert(w * d <= z * d) by (nonlinear_arith)
                requires
                    w <= z,
                    d > 0,
            ;
        } else if k < j {
            rounding::lemma_mag_increases(f, k, j);
        }
    }
}

/// To nearest, what is infinite is at or beyond the midpoint `most`.
proof fn lemma_most(f: Format, n: int, d: int, most: int, neg: bool, k: int)
    requires
        n >= 0,
        d > 0,
        f.inf > 0,
        f.inf % 2 == 0,
        2 * most == model::mag(f, f.inf - 1) + model::mag(f, f.inf),
        model::rounds_to(f, Exact::Ratio { num: n, den: d }, RoundingMode::Nearest, neg, k),
    ensures
        most >= 0,
        most * d >= 0,
        (k < f.inf) == (n < most * d),
{
    rounding::lemma_mag_nonnegative(f, f.inf - 1);
    rounding::lemma_mag_nonnegative(f, f.inf);
    assert(2 * most * d == 2 * (most * d) && most * d >= 0) by (nonlinear_arith)
        requires
            most >= 0,
            d > 0,
    ;
    if k < f.inf - 1 {
        let y = model::mag(f, k) + model::mag(f, k + 1);
        rounding::lemma_mag_increases(f, k, f.inf - 1);
        rounding::lemma_mag_increases(f, k + 1, f.inf);
        assert(y * d < 2 * most * d) by (nonlinear_arith)
            requires
                y < 2 * most,
                d > 0,
        ;
    }
}

/// What rounds, with its sign, fits.
proof fn lemma_fits(
    f: Format,
    num: int,
    den: int,
    most: int,
    mode: RoundingMode,
    neg: bool,
    k: int,
    j: int,
    cv: int,
)
    requires
        den > 0,
        f.inf > 0,
        f.inf % 2 == 0,
        2 * most == model::mag(f, f.inf - 1) + model::mag(f, f.inf),
        num < 0 ==> neg,
        num > 0 ==> !neg,
        model::rounds_to(f, Exact::Ratio { num: ieee::abs(num), den }, mode, neg, k),
        0 <= j < f.inf,
        cv == model::mag(f, j) || cv == -model::mag(f, j),
    ensures
        fits(
            num,
            den,
            most,
            mode,
            model::signed(neg, model::mag(f, k)),
            k < f.inf,
            k % 2 == 0,
            cv,
        ),
{
    let n = ieee::abs(num);
    let v = model::mag(f, k);
    let w = if neg {
        -cv
    } else {
        cv
    };
    assert(((-v) + cv) * den == -((v - cv) * den) && (-v) * den == -(v * den) && (-cv) * den
        == -(cv * den)) by (nonlinear_arith);
    if mode == RoundingMode::Nearest {
        lemma_most(f, n, den, most, neg, k);
        if k < f.inf {
            lemma_nearest(f, n, den, neg, k, j, w);
        }
    } else if model::toward_zero(mode, neg) {
        lemma_inner(f, n, den, k, j, w);
        if num == 0 {
            lemma_inner(f, n, den, k, j, -w);
            assert(v <= 0) by (nonlinear_arith)
                requires
                    v * den <= 0,
                    den > 0,
            ;
        }
    } else {
        lemma_outer(f, n, den, k, j, w);
    }
}

/// The midpoint beyond the greatest binary64 number.
proof fn lemma_most64()
    ensures
        ({
            let f = model::binary64();
            2 * (0x3F_FFFF_FFFF_FFFFint * pow2(2044)) == model::mag(f, f.inf - 1) + model::mag(
                f,
                f.inf,
            )
        }),
        model::mag(model::binary64(), model::binary64().inf - 1) >= pow2(2097),
{
    let f = model::binary64();
    bits::lemma_pow2_values();
    lemma_pow2_unfold(2045);
    lemma_pow2_unfold(2046);
    lemma_pow2_adds(52, 2045);
    rounding::lemma_mag_at(f, 2045, 0x1F_FFFF_FFFF_FFFF);
    rounding::lemma_mag_at(f, 2045, 0x20_0000_0000_0000);
}

/// The midpoint beyond the greatest binary32 number.
proof fn lemma_most32()
    ensures
        ({
            let f = model::binary32();
            2 * (0x1FF_FFFFint * pow2(252)) == model::mag(f, f.inf - 1) + model::mag(f, f.inf)
        }),
{
    let f = model::binary32();
    bits::lemma_pow2_values();
    lemma_pow2_unfold(253);
    rounding::lemma_mag_at(f, 253, 0xFF_FFFF);
    rounding::lemma_mag_at(f, 253, 0x100_0000);
}

/// What is delivered, with its sign, fits.
proof fn lemma_delivered_fits(num: int, den: int, mode: RoundingMode, neg: bool, r: u64, c: u64)
    requires
        den > 0,
        num < 0 ==> neg,
        num > 0 ==> !neg,
        model::finite(c),
        ieee::delivers(false, Exact::Ratio { num: ieee::abs(num), den }, mode, neg, r),
    ensures
        model::negative(r) == neg,
        !ieee::is_nan(r),
        fits(
            num,
            den,
            0x3F_FFFF_FFFF_FFFFint * pow2(2044),
            mode,
            model::value(r),
            model::finite(r),
            r as int % 2 == 0,
            model::value(c),
        ),
{
    bits::lemma_pow2_values();
    lemma_most64();
    lemma_fits(
        model::binary64(),
        num,
        den,
        0x3F_FFFF_FFFF_FFFFint * pow2(2044),
        mode,
        neg,
        model::magnitude(r),
        model::magnitude(c),
        model::value(c),
    );
}

/// No number fits a sum better than the result.
pub proof fn sum_fits_best(a: u64, b: u64, mode: RoundingMode, r: u64, c: u64)
    requires
        model::finite(a),
        model::finite(b),
        model::finite(c),
        model::value(a) + model::value(b) != 0,
        ieee::is_sum(false, a, b, mode, r),
    ensures
        ({
            let most = 0x3F_FFFF_FFFF_FFFFint * pow2(2044);
            let num = model::value(a) + model::value(b);
            let rv = model::value(r);
            let cv = model::value(c);
            let finite = model::finite(r);
            &&& model::negative(r) == (num < 0)
            &&& !ieee::is_nan(r)
            &&& match mode {
                RoundingMode::Nearest => {
                    &&& finite == (-most < num < most)
                    &&& finite && cv > rv ==> 2 * num <= rv + cv
                    &&& finite && cv < rv ==> 2 * num >= rv + cv
                    &&& finite && cv != rv && 2 * num == rv + cv ==> r as int % 2 == 0
                },
                RoundingMode::Down => {
                    &&& finite ==> rv <= num
                    &&& cv <= num ==> finite && cv <= rv
                    &&& num > 0 ==> finite
                },
                RoundingMode::Up => {
                    &&& finite ==> rv >= num
                    &&& cv >= num ==> finite && cv >= rv
                    &&& num < 0 ==> finite
                },
                RoundingMode::Zero => {
                    &&& finite
                    &&& num >= 0 ==> 0 <= rv <= num && (cv <= num ==> cv <= rv)
                    &&& num <= 0 ==> num <= rv <= 0 && (cv >= num ==> cv >= rv)
                },
            }
        }),
{
    encoding::lemma_class_value(a);
    encoding::lemma_class_value(b);
    lemma_delivered_fits(
        model::value(a) + model::value(b),
        1,
        mode,
        model::value(a) + model::value(b) < 0,
        r,
        c,
    );
}

/// No number fits a product better than the result.
pub proof fn product_fits_best(a: u64, b: u64, mode: RoundingMode, r: u64, c: u64)
    requires
        ieee::is_finite_nonzero(a),
        ieee::is_finite_nonzero(b),
        model::finite(c),
        ieee::is_product(false, a, b, mode, r),
    ensures
        ({
            let most = 0x3F_FFFF_FFFF_FFFFint * pow2(2044);
            let num = model::value(a) * model::value(b);
            let den = pow2(1074);
            let rv = model::value(r);
            let cv = model::value(c);
            let finite = model::finite(r);
            &&& model::negative(r) == (num < 0)
            &&& !ieee::is_nan(r)
            &&& match mode {
                RoundingMode::Nearest => {
                    &&& finite == (-(most * den) < num < most * den)
                    &&& finite && cv > rv ==> 2 * num <= (rv + cv) * den
                    &&& finite && cv < rv ==> 2 * num >= (rv + cv) * den
                    &&& finite && cv != rv && 2 * num == (rv + cv) * den ==> r as int % 2 == 0
                },
                RoundingMode::Down => {
                    &&& finite ==> rv * den <= num
                    &&& cv * den <= num ==> finite && cv <= rv
                    &&& num > 0 ==> finite
                },
                RoundingMode::Up => {
                    &&& finite ==> rv * den >= num
                    &&& cv * den >= num ==> finite && cv >= rv
                    &&& num < 0 ==> finite
                },
                RoundingMode::Zero => {
                    &&& finite
                    &&& num >= 0 ==> 0 <= rv * den <= num && (cv * den <= num ==> cv <= rv)
                    &&& num <= 0 ==> num <= rv * den <= 0 && (cv * den >= num ==> cv >= rv)
                },
            }
        }),
{
    let num = model::value(a) * model::value(b);
    lemma_pow2_pos(1074);
    lemma_delivered_fits(num, pow2(1074) as int, mode, num < 0, r, c);
}

/// No number fits a product and sum better than the result: nothing is rounded between.
pub proof fn fused_fits_best(a: u64, b: u64, d: u64, mode: RoundingMode, r: u64, c: u64)
    requires
        model::finite(a),
        model::finite(b),
        model::finite(d),
        model::finite(c),
        model::value(a) * model::value(b) + model::value(d) * pow2(1074) != 0,
        ieee::is_fused(false, a, b, d, mode, r),
    ensures
        ({
            let most = 0x3F_FFFF_FFFF_FFFFint * pow2(2044);
            let num = model::value(a) * model::value(b) + model::value(d) * pow2(1074);
            let den = pow2(1074);
            let rv = model::value(r);
            let cv = model::value(c);
            let finite = model::finite(r);
            &&& model::negative(r) == (num < 0)
            &&& !ieee::is_nan(r)
            &&& match mode {
                RoundingMode::Nearest => {
                    &&& finite == (-(most * den) < num < most * den)
                    &&& finite && cv > rv ==> 2 * num <= (rv + cv) * den
                    &&& finite && cv < rv ==> 2 * num >= (rv + cv) * den
                    &&& finite && cv != rv && 2 * num == (rv + cv) * den ==> r as int % 2 == 0
                },
                RoundingMode::Down => {
                    &&& finite ==> rv * den <= num
                    &&& cv * den <= num ==> finite && cv <= rv
                    &&& num > 0 ==> finite
                },
                RoundingMode::Up => {
                    &&& finite ==> rv * den >= num
                    &&& cv * den >= num ==> finite && cv >= rv
                    &&& num < 0 ==> finite
                },
                RoundingMode::Zero => {
                    &&& finite
                    &&& num >= 0 ==> 0 <= rv * den <= num && (cv * den <= num ==> cv <= rv)
                    &&& num <= 0 ==> num <= rv * den <= 0 && (cv * den >= num ==> cv >= rv)
                },
            }
        }),
{
    let num = model::value(a) * model::value(b) + model::value(d) * pow2(1074);
    lemma_pow2_pos(1074);
    encoding::lemma_class_value(a);
    encoding::lemma_class_value(b);
    encoding::lemma_class_value(d);
    assert(model::value(a) == 0 || model::value(b) == 0 ==> model::value(a) * model::value(b) == 0)
        by (nonlinear_arith);
    assert(model::value(d) == 0 ==> model::value(d) * pow2(1074) == 0) by (nonlinear_arith);
    lemma_delivered_fits(num, pow2(1074) as int, mode, num < 0, r, c);
}

/// No number fits a quotient better than the result.
pub proof fn quotient_fits_best(a: u64, b: u64, mode: RoundingMode, r: u64, c: u64)
    requires
        ieee::is_finite_nonzero(a),
        ieee::is_finite_nonzero(b),
        model::finite(c),
        ieee::is_quotient(false, a, b, mode, r),
    ensures
        ({
            let most = 0x3F_FFFF_FFFF_FFFFint * pow2(2044);
            let (num, den) = if model::value(b) < 0 {
                ((-model::value(a)) * pow2(1074), -model::value(b))
            } else {
                (model::value(a) * pow2(1074), model::value(b))
            };
            let rv = model::value(r);
            let cv = model::value(c);
            let finite = model::finite(r);
            &&& model::negative(r) == (num < 0)
            &&& !ieee::is_nan(r)
            &&& match mode {
                RoundingMode::Nearest => {
                    &&& finite == (-(most * den) < num < most * den)
                    &&& finite && cv > rv ==> 2 * num <= (rv + cv) * den
                    &&& finite && cv < rv ==> 2 * num >= (rv + cv) * den
                    &&& finite && cv != rv && 2 * num == (rv + cv) * den ==> r as int % 2 == 0
                },
                RoundingMode::Down => {
                    &&& finite ==> rv * den <= num
                    &&& cv * den <= num ==> finite && cv <= rv
                    &&& num > 0 ==> finite
                },
                RoundingMode::Up => {
                    &&& finite ==> rv * den >= num
                    &&& cv * den >= num ==> finite && cv >= rv
                    &&& num < 0 ==> finite
                },
                RoundingMode::Zero => {
                    &&& finite
                    &&& num >= 0 ==> 0 <= rv * den <= num && (cv * den <= num ==> cv <= rv)
                    &&& num <= 0 ==> num <= rv * den <= 0 && (cv * den >= num ==> cv >= rv)
                },
            }
        }),
{
    let g = pow2(1074) as int;
    let va = model::value(a);
    let vb = model::value(b);
    let (num, den) = if vb < 0 {
        ((-va) * g, -vb)
    } else {
        (va * g, vb)
    };
    lemma_pow2_pos(1074);
    encoding::lemma_class_value(a);
    encoding::lemma_class_value(b);
    assert((-va) * g == -(va * g) && (va > 0 ==> va * g > 0) && (va < 0 ==> va * g < 0))
        by (nonlinear_arith)
        requires
            g > 0,
    ;
    assert(ieee::abs(num) == ieee::abs(va) * g);
    lemma_delivered_fits(
        num,
        den,
        mode,
        model::negative(a) != model::negative(b),
        r,
        c,
    );
}

/// No number fits a whole number other than zero better than its binary64 form.
pub proof fn integer_fits_best(v: int, mode: RoundingMode, r: u64, c: u64)
    requires
        v != 0,
        model::finite(c),
        ieee::is_from_integer(v, mode, r),
    ensures
        ({
            let most = 0x3F_FFFF_FFFF_FFFFint * pow2(2044);
            let num = v * pow2(1074);
            let rv = model::value(r);
            let cv = model::value(c);
            let finite = model::finite(r);
            &&& model::negative(r) == (num < 0)
            &&& !ieee::is_nan(r)
            &&& match mode {
                RoundingMode::Nearest => {
                    &&& finite == (-most < num < most)
                    &&& finite && cv > rv ==> 2 * num <= rv + cv
                    &&& finite && cv < rv ==> 2 * num >= rv + cv
                    &&& finite && cv != rv && 2 * num == rv + cv ==> r as int % 2 == 0
                },
                RoundingMode::Down => {
                    &&& finite ==> rv <= num
                    &&& cv <= num ==> finite && cv <= rv
                    &&& num > 0 ==> finite
                },
                RoundingMode::Up => {
                    &&& finite ==> rv >= num
                    &&& cv >= num ==> finite && cv >= rv
                    &&& num < 0 ==> finite
                },
                RoundingMode::Zero => {
                    &&& finite
                    &&& num >= 0 ==> 0 <= rv <= num && (cv <= num ==> cv <= rv)
                    &&& num <= 0 ==> num <= rv <= 0 && (cv >= num ==> cv >= rv)
                },
            }
        }),
{
    lemma_pow2_pos(1074);
    lemma_delivered_fits(v * pow2(1074), 1, mode, v * pow2(1074) < 0, r, c);
    assert(v * pow2(1074) != 0) by (nonlinear_arith)
        requires
            v != 0,
            pow2(1074) > 0,
    ;
}

/// No number fits a staged word, `m * 2^q` with its sign, better than what it is packed
/// to.
pub proof fn staged_word_fits_best(m: int, q: int, mode: RoundingMode, neg: bool, r: u64, c: u64)
    requires
        m > 0,
        model::finite(c),
        ieee::delivers(false, Exact::scaled(m, q), mode, neg, r),
    ensures
        ({
            let most = 0x3F_FFFF_FFFF_FFFFint * pow2(2044);
            let (size, den) = if q >= 0 {
                (m * pow2(q as nat), 1int)
            } else {
                (m, pow2((-q) as nat) as int)
            };
            let num = if neg {
                -size
            } else {
                size
            };
            let rv = model::value(r);
            let cv = model::value(c);
            let finite = model::finite(r);
            &&& model::negative(r) == (num < 0)
            &&& !ieee::is_nan(r)
            &&& match mode {
                RoundingMode::Nearest => {
                    &&& finite == (-(most * den) < num < most * den)
                    &&& finite && cv > rv ==> 2 * num <= (rv + cv) * den
                    &&& finite && cv < rv ==> 2 * num >= (rv + cv) * den
                    &&& finite && cv != rv && 2 * num == (rv + cv) * den ==> r as int % 2 == 0
                },
                RoundingMode::Down => {
                    &&& finite ==> rv * den <= num
                    &&& cv * den <= num ==> finite && cv <= rv
                    &&& num > 0 ==> finite
                },
                RoundingMode::Up => {
                    &&& finite ==> rv * den >= num
                    &&& cv * den >= num ==> finite && cv >= rv
                    &&& num < 0 ==> finite
                },
                RoundingMode::Zero => {
                    &&& finite
                    &&& num >= 0 ==> 0 <= rv * den <= num && (cv * den <= num ==> cv <= rv)
                    &&& num <= 0 ==> num <= rv * den <= 0 && (cv * den >= num ==> cv >= rv)
                },
            }
        }),
{
    let (size, den) = if q >= 0 {
        (m * pow2(q as nat), 1int)
    } else {
        (m, pow2((-q) as nat) as int)
    };
    let num = if neg {
        -size
    } else {
        size
    };
    if q >= 0 {
        lemma_pow2_pos(q as nat);
        assert(m * pow2(q as nat) > 0) by (nonlinear_arith)
            requires
                m > 0,
                pow2(q as nat) > 0,
        ;
    } else {
        lemma_pow2_pos((-q) as nat);
    }
    lemma_delivered_fits(num, den, mode, neg, r, c);
}

/// No binary32 number fits a finite number better than its binary32 form, which has
/// its sign.
pub proof fn narrowed_fits_best(a: u64, mode: RoundingMode, r: u32, c: u32)
    requires
        model::finite(a),
        c as int % 0x8000_0000 < 0x7F80_0000,
        ieee::is_narrowed(a, mode, r),
    ensures
        ({
            let most = 0x1FF_FFFFint * pow2(252);
            let num = model::value(a);
            let den = pow2(925);
            let rv = model::value32(r);
            let cv = model::value32(c);
            let finite = r as int % 0x8000_0000 < 0x7F80_0000;
            &&& (r >= 0x8000_0000) == (a >= 0x8000_0000_0000_0000)
            &&& r as int % 0x8000_0000 <= 0x7F80_0000
            &&& match mode {
                RoundingMode::Nearest => {
                    &&& finite == (-(most * den) < num < most * den)
                    &&& finite && cv > rv ==> 2 * num <= (rv + cv) * den
                    &&& finite && cv < rv ==> 2 * num >= (rv + cv) * den
                    &&& finite && cv != rv && 2 * num == (rv + cv) * den ==> r as int % 2 == 0
                },
                RoundingMode::Down => {
                    &&& finite ==> rv * den <= num
                    &&& cv * den <= num ==> finite && cv <= rv
                    &&& num > 0 ==> finite
                },
                RoundingMode::Up => {
                    &&& finite ==> rv * den >= num
                    &&& cv * den >= num ==> finite && cv >= rv
                    &&& num < 0 ==> finite
                },
                RoundingMode::Zero => {
                    &&& finite
                    &&& num >= 0 ==> 0 <= rv * den <= num && (cv * den <= num ==> cv <= rv)
                    &&& num <= 0 ==> num <= rv * den <= 0 && (cv * den >= num ==> cv >= rv)
                },
            }
        }),
{
    bits::lemma_pow2_values();
    lemma_pow2_pos(925);
    lemma_most32();
    encoding::lemma_class_value(a);
    lemma_fits(
        model::binary32(),
        model::value(a),
        pow2(925) as int,
        0x1FF_FFFFint * pow2(252),
        mode,
        model::negative(a),
        model::magnitude32(r),
        model::magnitude32(c),
        model::value32(c),
    );
}

/// No number fits the root of a positive number better than the result: squares tell.
pub proof fn root_fits_best(a: u64, mode: RoundingMode, r: u64, c: u64)
    requires
        ieee::is_finite_nonzero(a),
        a < 0x8000_0000_0000_0000,
        model::finite(c),
        c < 0x8000_0000_0000_0000,
        ieee::is_root(a, mode, r),
    ensures
        r < 0x8000_0000_0000_0000,
        model::finite(r),
        ({
            let square = model::value(a) * pow2(1074);
            let rv = model::value(r);
            let cv = model::value(c);
            match mode {
                RoundingMode::Nearest => {
                    &&& cv > rv ==> 4 * square <= (rv + cv) * (rv + cv)
                    &&& cv < rv ==> 4 * square >= (rv + cv) * (rv + cv)
                    &&& cv != rv && 4 * square == (rv + cv) * (rv + cv) ==> r as int % 2 == 0
                },
                RoundingMode::Up => {
                    &&& square <= rv * rv
                    &&& square <= cv * cv ==> rv <= cv
                },
                _ => {
                    &&& rv * rv <= square
                    &&& cv * cv <= square ==> cv <= rv
                },
            }
        }),
{
    let f = model::binary64();
    let square = model::value(a) * pow2(1074);
    let k = model::magnitude(r);
    let j = model::magnitude(c);
    let v = model::mag(f, k);
    let w = model::mag(f, j);
    bits::lemma_pow2_values();
    encoding::lemma_class_value(a);
    rounding::lemma_mag_nonnegative(f, k);
    rounding::lemma_mag_nonnegative(f, j);
    lemma_root_finite(a, mode, r);
    assert(square * (2 * 2) == 4 * square && square * (1 * 1) == square) by (nonlinear_arith);
    if j < k {
        let z = model::mag(f, k - 1);
        rounding::lemma_mag_nonnegative(f, k - 1);
        rounding::lemma_mag_increases(f, k - 1, k);
        rounding::lemma_mag_increases(f, j, k);
        if j < k - 1 {
            rounding::lemma_mag_increases(f, j, k - 1);
        }
        lemma_squares(w, z);
        lemma_squares(v + w, z + v);
    } else if k < j {
        let u = model::mag(f, k + 1);
        rounding::lemma_mag_increases(f, k, k + 1);
        rounding::lemma_mag_increases(f, k, j);
        if k + 1 < j {
            rounding::lemma_mag_increases(f, k + 1, j);
        }
        lemma_squares(u, w);
        lemma_squares(v + u, v + w);
    }
}

/// Squares are ordered as what is squared.
proof fn lemma_squares(x: int, y: int)
    requires
        0 <= x <= y,
    ensures
        x * x <= y * y,
{
    assert(x * x <= y * y) by (nonlinear_arith)
        requires
            0 <= x <= y,
    ;
}

/// The root of a finite number is finite.
proof fn lemma_root_finite(a: u64, mode: RoundingMode, r: u64)
    requires
        ieee::is_finite_nonzero(a),
        !model::negative(a),
        ieee::is_root(a, mode, r),
    ensures
        model::finite(r),
        !model::negative(r),
{
    let f = model::binary64();
    let va = model::value(a);
    let g = pow2(1074) as int;
    bits::lemma_pow2_values();
    encoding::lemma_class_value(a);
    if model::magnitude(r) == f.inf {
        let p = model::mag(f, f.inf - 1);
        let h = pow2(2097) as int;
        lemma_most64();
        rounding::lemma_mag_increases(f, model::magnitude(a), f.inf);
        rounding::lemma_mag_increases(f, f.inf - 1, f.inf);
        rounding::lemma_mag_at(f, 2046, 0x10_0000_0000_0000);
        lemma_pow2_adds(52, 2046);
        lemma_pow2_unfold(2098);
        lemma_pow2_adds(2097, 2097);
        lemma_pow2_adds(2098, 1074);
        lemma_pow2_strictly_increases(3172, 4194);
        lemma_pow2_pos(1074);
        lemma_pow2_pos(2097);
        assert(va * g < pow2(2098) * g) by (nonlinear_arith)
            requires
                va < pow2(2098),
                g > 0,
        ;
        lemma_squares(h, p);
        let y = p + model::mag(f, f.inf);
        lemma_squares(2 * h, y);
        assert(2 * h * (2 * h) == 4 * (h * h)) by (nonlinear_arith);
        assert(va * g * (2 * 2) == 4 * (va * g) && va * g * (1 * 1) == va * g)
            by (nonlinear_arith);
        assert(va * g < h * h);
    }
}

/// With flushing, a sum whose exact value is below the normal range is a zero of its
/// sign, and every other sum is what it is without.
pub proof fn flushed_sum_is_zero_or_plain(a: u64, b: u64, mode: RoundingMode, r: u64, s: u64)
    requires
        ieee::is_sum(true, a, b, mode, r),
        ieee::is_sum(false, a, b, mode, s),
    ensures
        ({
            let num = model::value(a) + model::value(b);
            if model::finite(a) && model::finite(b) && 0 < num < 0x10_0000_0000_0000 {
                r == 0
            } else if model::finite(a) && model::finite(b) && -0x10_0000_0000_0000 < num < 0 {
                r == 0x8000_0000_0000_0000
            } else {
                r == s
            }
        }),
{
    bits::lemma_pow2_values();
    encoding::lemma_class_value(a);
    encoding::lemma_class_value(b);
    if !(model::finite(a) && model::finite(b) && model::value(a) + model::value(b) != 0
        && ieee::abs(model::value(a) + model::value(b)) < 0x10_0000_0000_0000) {
        assert(ieee::is_sum(false, a, b, mode, r));
        laws::sum_is_determined(false, a, b, mode, r, s);
    }
}

/// With flushing, a product whose exact value is below the normal range is a zero of
/// its sign, and every other product is what it is without.
pub proof fn flushed_product_is_zero_or_plain(
    a: u64,
    b: u64,
    mode: RoundingMode,
    r: u64,
    s: u64,
)
    requires
        ieee::is_product(true, a, b, mode, r),
        ieee::is_product(false, a, b, mode, s),
    ensures
        ({
            let num = model::value(a) * model::value(b);
            let least = 0x10_0000_0000_0000 * pow2(1074);
            if model::finite(a) && model::finite(b) && 0 < num < least {
                r == 0
            } else if model::finite(a) && model::finite(b) && -least < num < 0 {
                r == 0x8000_0000_0000_0000
            } else {
                r == s
            }
        }),
{
    let num = model::value(a) * model::value(b);
    let least = 0x10_0000_0000_0000 * pow2(1074);
    bits::lemma_pow2_values();
    encoding::lemma_class_value(a);
    encoding::lemma_class_value(b);
    assert(model::value(a) == 0 || model::value(b) == 0 <==> num == 0) by (nonlinear_arith)
        requires
            num == model::value(a) * model::value(b),
    ;
    if !(model::finite(a) && model::finite(b) && num != 0 && ieee::abs(num) < least) {
        assert(ieee::is_product(false, a, b, mode, r));
        laws::product_is_determined(false, a, b, mode, r, s);
    }
}

/// With flushing, a product and sum whose exact value is below the normal range is a
/// zero of its sign, and every other is what it is without.
pub proof fn flushed_fused_is_zero_or_plain(
    a: u64,
    b: u64,
    c: u64,
    mode: RoundingMode,
    r: u64,
    s: u64,
)
    requires
        ieee::is_fused(true, a, b, c, mode, r),
        ieee::is_fused(false, a, b, c, mode, s),
    ensures
        ({
            let num = model::value(a) * model::value(b) + model::value(c) * pow2(1074);
            let least = 0x10_0000_0000_0000 * pow2(1074);
            let finite = model::finite(a) && model::finite(b) && model::finite(c);
            if finite && 0 < num < least {
                r == 0
            } else if finite && -least < num < 0 {
                r == 0x8000_0000_0000_0000
            } else {
                r == s
            }
        }),
{
    let num = model::value(a) * model::value(b) + model::value(c) * pow2(1074);
    let least = 0x10_0000_0000_0000 * pow2(1074);
    bits::lemma_pow2_values();
    encoding::lemma_class_value(a);
    encoding::lemma_class_value(b);
    encoding::lemma_class_value(c);
    assert(model::value(a) == 0 || model::value(b) == 0 ==> model::value(a) * model::value(b) == 0)
        by (nonlinear_arith);
    assert(model::value(c) == 0 ==> model::value(c) * pow2(1074) == 0) by (nonlinear_arith);
    if !(model::finite(a) && model::finite(b) && model::finite(c) && num != 0 && ieee::abs(num)
        < least) {
        assert(ieee::is_fused(false, a, b, c, mode, r));
        laws::fused_is_determined(false, a, b, c, mode, r, s);
    }
}

/// With flushing, a quotient whose exact value is below the normal range is a zero of
/// its sign, and every other quotient is what it is without.
pub proof fn flushed_quotient_is_zero_or_plain(
    a: u64,
    b: u64,
    mode: RoundingMode,
    r: u64,
    s: u64,
)
    requires
        ieee::is_quotient(true, a, b, mode, r),
        ieee::is_quotient(false, a, b, mode, s),
    ensures
        ({
            let va = model::value(a);
            let vb = model::value(b);
            let num = (if va < 0 {
                -va
            } else {
                va
            }) * pow2(1074);
            let least = 0x10_0000_0000_0000 * (if vb < 0 {
                -vb
            } else {
                vb
            });
            if model::finite(a) && model::finite(b) && va != 0 && vb != 0 && num < least {
                r == if (va < 0) == (vb < 0) {
                    0
                } else {
                    0x8000_0000_0000_0000u64
                }
            } else {
                r == s
            }
        }),
{
    bits::lemma_pow2_values();
    encoding::lemma_class_value(a);
    encoding::lemma_class_value(b);
    if !(model::finite(a) && model::finite(b) && model::value(a) != 0 && model::value(b) != 0
        && ieee::abs(model::value(a)) * pow2(1074) < 0x10_0000_0000_0000 * ieee::abs(
        model::value(b),
    )) {
        assert(ieee::is_quotient(false, a, b, mode, r));
        laws::quotient_is_determined(false, a, b, mode, r, s);
    }
}

/// With flushing, a staged word below the normal range is packed to a zero of its sign,
/// and every other word to what it is without.
pub proof fn flushed_word_is_zero_or_plain(
    m: int,
    q: int,
    mode: RoundingMode,
    neg: bool,
    r: u64,
)
    requires
        m > 0,
        ieee::delivers(true, Exact::scaled(m, q), mode, neg, r),
    ensures
        ({
            let tiny = if q >= 0 {
                m * pow2(q as nat) < 0x10_0000_0000_0000
            } else {
                m < 0x10_0000_0000_0000 * pow2((-q) as nat)
            };
            if tiny {
                r == if neg {
                    0x8000_0000_0000_0000u64
                } else {
                    0
                }
            } else {
                ieee::delivers(false, Exact::scaled(m, q), mode, neg, r)
            }
        }),
{
    bits::lemma_pow2_values();
}

} // verus!
