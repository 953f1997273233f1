//! What holds of the operations as a whole.
use crate::bits;
use crate::ieee;
use crate::model::{Exact, Format};
use crate::model;
use crate::rounding;
use crate::softfloat_ref::add;
use crate::softfloat_ref::encoding;
use crate::RoundingMode;
use vstd::arithmetic::mul::*;
use vstd::arithmetic::power2::*;
use vstd::prelude::*;

verus! {

/// The pattern of one.
pub open spec fn one() -> u64 {
    0x3FF0_0000_0000_0000
}

/// The mode that rounds a number as `mode` rounds its opposite.
pub open spec fn mirror(mode: RoundingMode) -> RoundingMode {
    match mode {
        RoundingMode::Down => RoundingMode::Up,
        RoundingMode::Up => RoundingMode::Down,
        _ => mode,
    }
}

proof fn lemma_one()
    ensures
        model::value(one()) == pow2(1074),
        ieee::is_finite_nonzero(one()),
        !model::negative(one()),
{
    bits::lemma_pow2_values();
    rounding::lemma_mag_at(model::binary64(), 1022, 0x10_0000_0000_0000);
    lemma_pow2_adds(52, 1022);
}

proof fn lemma_opposite(a: u64)
    ensures
        model::negative(add::opposite(a)) == !model::negative(a),
        model::magnitude(add::opposite(a)) == model::magnitude(a),
        model::value(add::opposite(a)) == -model::value(a),
        add::opposite(add::opposite(a)) == a,
{
}

/// Equal magnitudes have equal encodings.
proof fn lemma_same_encoding(f: Format, j: int, k: int)
    requires
        0 <= j,
        0 <= k,
        model::mag(f, j) == model::mag(f, k),
    ensures
        j == k,
{
    if j < k {
        rounding::lemma_mag_increases(f, j, k);
    } else if k < j {
        rounding::lemma_mag_increases(f, k, j);
    }
}

proof fn lemma_delivers_unique(
    flush: bool,
    x: Exact,
    mode: RoundingMode,
    neg: bool,
    r: u64,
    s: u64,
)
    requires
        x.valid(),
        ieee::delivers(flush, x, mode, neg, r),
        ieee::delivers(flush, x, mode, neg, s),
    ensures
        r == s,
{
    if !(flush && x.lt(pow2(52) as int, 1)) {
        rounding::lemma_rounds_unique(
            model::binary64(),
            x,
            mode,
            neg,
            model::magnitude(r),
            model::magnitude(s),
        );
    }
}

/// Operands and mode determine a sum.
pub proof fn sum_is_determined(flush: bool, a: u64, b: u64, mode: RoundingMode, r: u64, s: u64)
    requires
        ieee::is_sum(flush, a, b, mode, r),
        ieee::is_sum(flush, a, b, mode, s),
    ensures
        r == s,
{
    let sum = model::value(a) + model::value(b);
    let x = Exact::Ratio { num: ieee::abs(sum), den: 1 };
    if ieee::delivers(flush, x, mode, sum < 0, r) && ieee::delivers(flush, x, mode, sum < 0, s) {
        lemma_delivers_unique(flush, x, mode, sum < 0, r, s);
    }
}

/// Operands and mode determine a product.
pub proof fn product_is_determined(
    flush: bool,
    a: u64,
    b: u64,
    mode: RoundingMode,
    r: u64,
    s: u64,
)
    requires
        ieee::is_product(flush, a, b, mode, r),
        ieee::is_product(flush, a, b, mode, s),
    ensures
        r == s,
{
    let num = model::value(a) * model::value(b);
    let x = Exact::Ratio { num: ieee::abs(num), den: pow2(1074) as int };
    lemma_pow2_pos(1074);
    if ieee::delivers(flush, x, mode, num < 0, r) && ieee::delivers(flush, x, mode, num < 0, s) {
        lemma_delivers_unique(flush, x, mode, num < 0, r, s);
    }
}

/// Operands and mode determine a fused product and sum.
pub proof fn fused_is_determined(
    flush: bool,
    a: u64,
    b: u64,
    c: u64,
    mode: RoundingMode,
    r: u64,
    s: u64,
)
    requires
        ieee::is_fused(flush, a, b, c, mode, r),
        ieee::is_fused(flush, a, b, c, mode, s),
    ensures
        r == s,
{
    let num = model::value(a) * model::value(b) + model::value(c) * pow2(1074);
    let x = Exact::Ratio { num: ieee::abs(num), den: pow2(1074) as int };
    lemma_pow2_pos(1074);
    if ieee::delivers(flush, x, mode, num < 0, r) && ieee::delivers(flush, x, mode, num < 0, s) {
        lemma_delivers_unique(flush, x, mode, num < 0, r, s);
    }
}

/// Operands and mode determine a quotient.
pub proof fn quotient_is_determined(
    flush: bool,
    a: u64,
    b: u64,
    mode: RoundingMode,
    r: u64,
    s: u64,
)
    requires
        ieee::is_quotient(flush, a, b, mode, r),
        ieee::is_quotient(flush, a, b, mode, s),
    ensures
        r == s,
{
    let x = ieee::quotient(a, b);
    let neg = model::negative(a) != model::negative(b);
    encoding::lemma_class_value(a);
    encoding::lemma_class_value(b);
    if !ieee::is_zero(b) && ieee::delivers(flush, x, mode, neg, r) && ieee::delivers(
        flush,
        x,
        mode,
        neg,
        s,
    ) {
        let v = ieee::abs(model::value(a));
        assert(v * pow2(1074) >= 0) by (nonlinear_arith)
            requires
                v >= 0,
        ;
        lemma_delivers_unique(flush, x, mode, neg, r, s);
    }
}

/// Operand and mode determine a root.
pub proof fn root_is_determined(a: u64, mode: RoundingMode, r: u64, s: u64)
    requires
        ieee::is_root(a, mode, r),
        ieee::is_root(a, mode, s),
    ensures
        r == s,
{
    let v = model::value(a);
    let x = Exact::Root { square: v * pow2(1074) };
    encoding::lemma_class_value(a);
    if !ieee::is_zero(a) && !model::negative(a) && model::is_rounded(x, mode, false, r)
        && model::is_rounded(x, mode, false, s) {
        assert(v * pow2(1074) >= 0) by (nonlinear_arith)
            requires
                v >= 0,
        ;
        lemma_delivers_unique(false, x, mode, false, r, s);
    }
}

/// Operand and mode determine the binary64 form of a whole number.
pub proof fn integer_conversion_is_determined(v: int, mode: RoundingMode, r: u64, s: u64)
    requires
        ieee::is_from_integer(v, mode, r),
        ieee::is_from_integer(v, mode, s),
    ensures
        r == s,
{
    if v != 0 {
        let num = v * pow2(1074);
        lemma_delivers_unique(
            false,
            Exact::Ratio { num: ieee::abs(num), den: 1 },
            mode,
            num < 0,
            r,
            s,
        );
    }
}

/// A binary32 operand determines its binary64 form.
pub proof fn widening_is_determined(a: u32, r: u64, s: u64)
    requires
        ieee::is_widened(a, r),
        ieee::is_widened(a, s),
    ensures
        r == s,
{
    let f = model::binary64();
    if model::finite(r) && model::finite(s) && model::value(r) == model::value(s)
        && model::negative(r) == model::negative(s) {
        lemma_same_encoding(f, model::magnitude(r), model::magnitude(s));
    }
}

/// Operand and mode determine the binary32 form.
pub proof fn narrowing_is_determined(a: u64, mode: RoundingMode, r: u32, s: u32)
    requires
        ieee::is_narrowed(a, mode, r),
        ieee::is_narrowed(a, mode, s),
    ensures
        r == s,
{
    if !ieee::is_nan(a) && !ieee::is_inf(a) {
        lemma_pow2_pos(925);
        rounding::lemma_rounds_unique(
            model::binary32(),
            Exact::Ratio { num: ieee::abs(model::value(a)), den: pow2(925) as int },
            mode,
            model::negative(a),
            model::magnitude32(r),
            model::magnitude32(s),
        );
    }
}

/// A NaN operand gives the canonical NaN, and no other NaN is ever a result.
pub proof fn nan_is_canonical(flush: bool, a: u64, b: u64, c: u64, mode: RoundingMode, r: u64)
    ensures
        ieee::is_sum(flush, a, b, mode, r) && (ieee::is_nan(a) || ieee::is_nan(b) || ieee::is_nan(
            r,
        )) ==> r == ieee::qnan(),
        ieee::is_product(flush, a, b, mode, r) && (ieee::is_nan(a) || ieee::is_nan(b)
            || ieee::is_nan(r)) ==> r == ieee::qnan(),
        ieee::is_quotient(flush, a, b, mode, r) && (ieee::is_nan(a) || ieee::is_nan(b)
            || ieee::is_nan(r)) ==> r == ieee::qnan(),
        ieee::is_fused(flush, a, b, c, mode, r) && (ieee::is_nan(a) || ieee::is_nan(b)
            || ieee::is_nan(c) || ieee::is_nan(r)) ==> r == ieee::qnan(),
        ieee::is_root(a, mode, r) && (ieee::is_nan(a) || ieee::is_nan(r)) ==> r == ieee::qnan(),
{
    bits::lemma_pow2_values();
}

/// The operands of a sum may change places.
pub proof fn sum_commutes(flush: bool, a: u64, b: u64, mode: RoundingMode, r: u64)
    ensures
        ieee::is_sum(flush, a, b, mode, r) == ieee::is_sum(flush, b, a, mode, r),
{
}

/// The operands of a product may change places.
pub proof fn product_commutes(flush: bool, a: u64, b: u64, mode: RoundingMode, r: u64)
    ensures
        ieee::is_product(flush, a, b, mode, r) == ieee::is_product(flush, b, a, mode, r),
{
    lemma_mul_is_commutative(model::value(a), model::value(b));
}

/// The factors of a fused product and sum may change places.
pub proof fn fused_commutes(flush: bool, a: u64, b: u64, c: u64, mode: RoundingMode, r: u64)
    ensures
        ieee::is_fused(flush, a, b, c, mode, r) == ieee::is_fused(flush, b, a, c, mode, r),
{
    lemma_mul_is_commutative(model::value(a), model::value(b));
}

/// A finite number less itself is zero: negative where rounding goes down, else
/// positive.
pub proof fn self_difference_is_zero(flush: bool, a: u64, mode: RoundingMode, r: u64)
    requires
        model::finite(a),
        ieee::is_sum(flush, a, add::opposite(a), mode, r),
    ensures
        r == ieee::zero(mode == RoundingMode::Down),
{
    lemma_opposite(a);
    encoding::lemma_class_value(a);
    encoding::lemma_class_value(add::opposite(a));
}

/// A zero of either sign added to a finite number other than zero gives the number.
pub proof fn zero_leaves_a_sum(a: u64, b: u64, mode: RoundingMode, r: u64)
    requires
        ieee::is_finite_nonzero(a),
        ieee::is_zero(b),
        ieee::is_sum(false, a, b, mode, r),
    ensures
        r == a,
{
    encoding::lemma_class_value(a);
    encoding::lemma_class_value(b);
    encoding::lemma_own_value(a, mode, false);
    sum_is_determined(false, a, b, mode, r, a);
}

/// A number times one is the number.
pub proof fn one_leaves_a_product(a: u64, mode: RoundingMode, r: u64)
    requires
        !ieee::is_nan(a),
        ieee::is_product(false, a, one(), mode, r),
    ensures
        r == a,
{
    let g = pow2(1074) as int;
    let v = model::value(a);
    lemma_one();
    lemma_pow2_pos(1074);
    encoding::lemma_class_value(a);
    encoding::lemma_class_value(one());
    if ieee::is_finite_nonzero(a) {
        encoding::lemma_own_value(a, mode, false);
        lemma_scaled(false, v, 1, g, mode, a);
        assert(1 * g == g);
        product_is_determined(false, a, one(), mode, r, a);
    }
}

/// Numerator and denominator may be multiplied by the same positive number.
proof fn lemma_scaled(flush: bool, num: int, den: int, g: int, mode: RoundingMode, r: u64)
    requires
        g > 0,
    ensures
        ieee::is_ratio(flush, num, den, mode, r) == ieee::is_ratio(
            flush,
            num * g,
            den * g,
            mode,
            r,
        ),
{
    assert(ieee::abs(num * g) == ieee::abs(num) * g && (num * g < 0) == (num < 0))
        by (nonlinear_arith)
        requires
            g > 0,
    ;
    rounding::lemma_higher_terms(ieee::abs(num), den, g);
    encoding::lemma_delivers_alike(
        flush,
        Exact::Ratio { num: ieee::abs(num), den },
        Exact::Ratio { num: ieee::abs(num) * g, den: den * g },
        mode,
        num < 0,
        r,
    );
}

/// A number divided by one is the number.
pub proof fn one_leaves_a_quotient(a: u64, mode: RoundingMode, r: u64)
    requires
        !ieee::is_nan(a),
        ieee::is_quotient(false, a, one(), mode, r),
    ensures
        r == a,
{
    let g = pow2(1074) as int;
    let v = model::value(a);
    lemma_one();
    lemma_pow2_pos(1074);
    encoding::lemma_class_value(a);
    encoding::lemma_class_value(one());
    if ieee::is_finite_nonzero(a) {
        encoding::lemma_own_value(a, mode, false);
        rounding::lemma_higher_terms(ieee::abs(v), 1, g);
        encoding::lemma_delivers_alike(
            false,
            Exact::Ratio { num: ieee::abs(v), den: 1 },
            Exact::Ratio { num: ieee::abs(v) * g, den: 1 * g },
            mode,
            v < 0,
            a,
        );
        quotient_is_determined(false, a, one(), mode, r, a);
    }
}

/// Fusing with the factor one is addition.
pub proof fn fused_with_one_is_sum(flush: bool, a: u64, c: u64, mode: RoundingMode, r: u64)
    ensures
        ieee::is_fused(flush, a, one(), c, mode, r) == ieee::is_sum(flush, a, c, mode, r),
{
    let g = pow2(1074) as int;
    let sum = model::value(a) + model::value(c);
    lemma_one();
    lemma_pow2_pos(1074);
    encoding::lemma_class_value(a);
    encoding::lemma_class_value(c);
    encoding::lemma_class_value(one());
    assert(model::value(a) * g + model::value(c) * g == sum * g) by (nonlinear_arith)
        requires
            sum == model::value(a) + model::value(c),
    ;
    assert((sum * g == 0) == (sum == 0)) by (nonlinear_arith)
        requires
            g > 0,
    ;
    lemma_scaled(flush, sum, 1, g, mode, r);
    assert(1 * g == g);
}

/// Fusing with a zero addend is multiplication, where the product is not zero.
pub proof fn fused_with_zero_is_product(
    flush: bool,
    a: u64,
    b: u64,
    c: u64,
    mode: RoundingMode,
    r: u64,
)
    requires
        !ieee::is_zero(a),
        !ieee::is_zero(b),
        ieee::is_zero(c),
    ensures
        ieee::is_fused(flush, a, b, c, mode, r) == ieee::is_product(flush, a, b, mode, r),
{
    encoding::lemma_class_value(a);
    encoding::lemma_class_value(b);
    encoding::lemma_class_value(c);
    let va = model::value(a);
    let vb = model::value(b);
    assert(va * vb != 0) by (nonlinear_arith)
        requires
            va != 0,
            vb != 0,
    ;
    assert(model::value(c) * pow2(1074) == 0) by (nonlinear_arith)
        requires
            model::value(c) == 0,
    ;
}

/// A product with the opposite factor, rounded in the mirrored mode, is the
/// opposite product.
pub proof fn product_mirrors(flush: bool, a: u64, b: u64, mode: RoundingMode, r: u64)
    requires
        ieee::is_product(flush, a, b, mode, r),
        !ieee::is_nan(r),
    ensures
        ieee::is_product(flush, add::opposite(a), b, mirror(mode), add::opposite(r)),
{
    let va = model::value(a);
    let vb = model::value(b);
    lemma_opposite(a);
    lemma_opposite(r);
    bits::lemma_pow2_values();
    encoding::lemma_class_value(a);
    encoding::lemma_class_value(b);
    assert((-va) * vb == -(va * vb)) by (nonlinear_arith);
    assert(va != 0 && vb != 0 ==> va * vb != 0) by (nonlinear_arith);
}

/// A quotient with the opposite dividend, rounded in the mirrored mode, is the
/// opposite quotient.
pub proof fn quotient_mirrors(flush: bool, a: u64, b: u64, mode: RoundingMode, r: u64)
    requires
        ieee::is_quotient(flush, a, b, mode, r),
        !ieee::is_nan(r),
    ensures
        ieee::is_quotient(flush, add::opposite(a), b, mirror(mode), add::opposite(r)),
{
    lemma_opposite(a);
    lemma_opposite(r);
    bits::lemma_pow2_values();
}

/// A sum of opposite operands, rounded in the mirrored mode, is the opposite sum,
/// where it is not zero.
pub proof fn sum_mirrors(flush: bool, a: u64, b: u64, mode: RoundingMode, r: u64)
    requires
        ieee::is_sum(flush, a, b, mode, r),
        !ieee::is_nan(r),
        !ieee::is_zero(r),
    ensures
        ieee::is_sum(flush, add::opposite(a), add::opposite(b), mirror(mode), add::opposite(r)),
{
    lemma_opposite(a);
    lemma_opposite(b);
    lemma_opposite(r);
    bits::lemma_pow2_values();
}

/// A fused product and sum with the opposite factor and addend, rounded in the
/// mirrored mode, is the opposite one, where it is not zero.
pub proof fn fused_mirrors(flush: bool, a: u64, b: u64, c: u64, mode: RoundingMode, r: u64)
    requires
        ieee::is_fused(flush, a, b, c, mode, r),
        !ieee::is_nan(r),
        !ieee::is_zero(r),
    ensures
        ieee::is_fused(
            flush,
            add::opposite(a),
            b,
            add::opposite(c),
            mirror(mode),
            add::opposite(r),
        ),
{
    let va = model::value(a);
    let vb = model::value(b);
    let vc = model::value(c);
    lemma_opposite(a);
    lemma_opposite(c);
    lemma_opposite(r);
    bits::lemma_pow2_values();
    assert((-va) * vb == -(va * vb) && (-vc) * pow2(1074) == -(vc * pow2(1074)))
        by (nonlinear_arith);
}

/// At or above `2^1024` a result is infinite, except where the mode points toward
/// zero: there it is the greatest finite number.
pub proof fn overflow_follows_the_mode(x: Exact, mode: RoundingMode, neg: bool, r: u64)
    requires
        x.valid(),
        !x.lt(pow2(2098) as int, 1),
        model::is_rounded(x, mode, neg, r),
    ensures
        r == model::pattern(
            neg,
            if model::toward_zero(mode, neg) {
                model::binary64().inf - 1
            } else {
                model::binary64().inf
            },
        ),
{
    let f = model::binary64();
    bits::lemma_pow2_values();
    rounding::lemma_mag_at(f, 2046, 0x10_0000_0000_0000);
    lemma_pow2_adds(52, 2046);
    rounding::lemma_overflow(f, x, mode, neg);
    rounding::lemma_rounds_unique(
        f,
        x,
        mode,
        neg,
        model::magnitude(r),
        if model::toward_zero(mode, neg) {
            f.inf - 1
        } else {
            f.inf
        },
    );
}

/// The two directed results are neighbours or equal, the nearest is one of them,
/// and rounding toward zero gives the one of lesser magnitude.
pub proof fn directed_modes_bracket(
    x: Exact,
    neg: bool,
    down: u64,
    up: u64,
    nearest: u64,
    zero: u64,
)
    requires
        x.valid(),
        model::is_rounded(x, RoundingMode::Down, neg, down),
        model::is_rounded(x, RoundingMode::Up, neg, up),
        model::is_rounded(x, RoundingMode::Nearest, neg, nearest),
        model::is_rounded(x, RoundingMode::Zero, neg, zero),
    ensures
        nearest == down || nearest == up,
        zero == if neg {
            up
        } else {
            down
        },
        ({
            let (inner, outer) = if neg {
                (model::magnitude(up), model::magnitude(down))
            } else {
                (model::magnitude(down), model::magnitude(up))
            };
            inner <= outer <= inner + 1
        }),
        model::value(down) <= model::value(nearest) <= model::value(up),
{
    let f = model::binary64();
    let (d, u) = if neg {
        (model::magnitude(up), model::magnitude(down))
    } else {
        (model::magnitude(down), model::magnitude(up))
    };
    let n = model::magnitude(nearest);
    rounding::lemma_rounds_unique(
        f,
        x,
        RoundingMode::Zero,
        neg,
        model::magnitude(zero),
        d,
    );
    lemma_neighbours(f, x, d, u, n);
    if d < u {
        rounding::lemma_mag_increases(f, d, u);
    }
}

/// The inner and outer directed results, and the nearest between them.
proof fn lemma_neighbours(f: Format, x: Exact, d: int, u: int, n: int)
    requires
        x.valid(),
        model::rounds_to(f, x, RoundingMode::Zero, false, d),
        model::rounds_to(f, x, RoundingMode::Up, false, u),
        model::rounds_to(f, x, RoundingMode::Nearest, false, n),
    ensures
        d <= u <= d + 1,
        n == d || n == u,
{
    let md = model::mag(f, d);
    let mu = model::mag(f, u);
    rounding::lemma_mag_nonnegative(f, d);
    rounding::lemma_mag_nonnegative(f, u);
    rounding::lemma_cross(x, md, 1, 2 * md, 2);
    rounding::lemma_cross(x, mu, 1, 2 * mu, 2);
    if u < d {
        rounding::lemma_mag_increases(f, u, d);
        rounding::lemma_monotone(x, mu, md, 1);
    }
    if u > d + 1 {
        rounding::lemma_mag_nonnegative(f, d + 1);
        if d + 1 < u - 1 {
            rounding::lemma_mag_increases(f, d + 1, u - 1);
        }
        rounding::lemma_monotone(x, model::mag(f, d + 1), model::mag(f, u - 1), 1);
    }
    if n < d {
        let mid = model::mag(f, n) + model::mag(f, n + 1);
        rounding::lemma_mag_increases(f, n, n + 1);
        if n + 1 < d {
            rounding::lemma_mag_increases(f, n + 1, d);
        }
        rounding::lemma_monotone(x, mid, 2 * md, 2);
    }
    if n > u {
        let mid = model::mag(f, n - 1) + model::mag(f, n);
        rounding::lemma_mag_increases(f, n - 1, n);
        if u < n - 1 {
            rounding::lemma_mag_increases(f, u, n - 1);
        }
        rounding::lemma_monotone(x, 2 * mu, mid, 2);
    }
}

/// `r` is zero if `num` is, else `num / den` rounded.
spec fn settles(num: int, den: int, mode: RoundingMode, r: u64) -> bool {
    if num == 0 {
        model::value(r) == 0
    } else {
        ieee::is_ratio(false, num, den, mode, r)
    }
}

proof fn lemma_settles_monotone(
    num: int,
    num2: int,
    den: int,
    mode: RoundingMode,
    r: u64,
    r2: u64,
)
    requires
        den > 0,
        num <= num2,
        settles(num, den, mode, r),
        settles(num2, den, mode, r2),
    ensures
        model::value(r) <= model::value(r2),
{
    let f = model::binary64();
    let x = Exact::Ratio { num: ieee::abs(num), den };
    let y = Exact::Ratio { num: ieee::abs(num2), den };
    let k = model::magnitude(r);
    let k2 = model::magnitude(r2);
    rounding::lemma_mag_nonnegative(f, k);
    rounding::lemma_mag_nonnegative(f, k2);
    if num > 0 {
        assert(num * den <= num2 * den) by (nonlinear_arith)
            requires
                num <= num2,
                den > 0,
        ;
        rounding::lemma_ratio_at_most(num, den, num2, den);
        rounding::lemma_rounds_monotone(f, x, y, mode, false, k, k2);
        if k < k2 {
            rounding::lemma_mag_increases(f, k, k2);
        }
    } else if num2 < 0 {
        assert((-num2) * den <= (-num) * den) by (nonlinear_arith)
            requires
                num <= num2,
                den > 0,
        ;
        rounding::lemma_ratio_at_most(-num2, den, -num, den);
        rounding::lemma_rounds_monotone(f, y, x, mode, true, k2, k);
        if k2 < k {
            rounding::lemma_mag_increases(f, k2, k);
        }
    }
}

/// A greater operand gives no lesser sum.
pub proof fn sum_is_monotone(a: u64, a2: u64, b: u64, mode: RoundingMode, r: u64, r2: u64)
    requires
        model::finite(a),
        model::finite(a2),
        model::finite(b),
        model::value(a) <= model::value(a2),
        ieee::is_sum(false, a, b, mode, r),
        ieee::is_sum(false, a2, b, mode, r2),
    ensures
        model::value(r) <= model::value(r2),
{
    encoding::lemma_class_value(a);
    encoding::lemma_class_value(a2);
    encoding::lemma_class_value(b);
    lemma_zero_value(r);
    lemma_zero_value(r2);
    lemma_settles_monotone(
        model::value(a) + model::value(b),
        model::value(a2) + model::value(b),
        1,
        mode,
        r,
        r2,
    );
}

proof fn lemma_zero_value(r: u64)
    ensures
        ieee::is_zero(r) ==> model::value(r) == 0,
        r == ieee::zero(true) || r == ieee::zero(false) ==> ieee::is_zero(r),
{
    encoding::lemma_class_value(r);
}

/// A greater operand gives no lesser root.
pub proof fn root_is_monotone(a: u64, b: u64, mode: RoundingMode, r: u64, s: u64)
    requires
        model::finite(a),
        model::finite(b),
        0 <= model::value(a) <= model::value(b),
        ieee::is_root(a, mode, r),
        ieee::is_root(b, mode, s),
    ensures
        model::value(r) <= model::value(s),
{
    let f = model::binary64();
    let g = pow2(1074) as int;
    let va = model::value(a);
    let vb = model::value(b);
    encoding::lemma_class_value(a);
    encoding::lemma_class_value(b);
    rounding::lemma_mag_nonnegative(f, model::magnitude(s));
    if va > 0 {
        assert(0 <= va * g <= vb * g) by (nonlinear_arith)
            requires
                0 <= va <= vb,
                g >= 0,
        ;
        rounding::lemma_root_at_most(va * g, vb * g);
        rounding::lemma_rounds_monotone(
            f,
            Exact::Root { square: va * g },
            Exact::Root { square: vb * g },
            mode,
            false,
            model::magnitude(r),
            model::magnitude(s),
        );
        if model::magnitude(r) < model::magnitude(s) {
            rounding::lemma_mag_increases(f, model::magnitude(r), model::magnitude(s));
        }
    }
}

/// Distinct finite numbers have a difference other than zero: underflow is gradual.
pub proof fn difference_is_zero_only_of_equals(a: u64, b: u64, mode: RoundingMode, r: u64)
    requires
        model::finite(a),
        model::finite(b),
        ieee::is_sum(false, a, add::opposite(b), mode, r),
    ensures
        ieee::is_zero(r) == (model::value(a) == model::value(b)),
{
    let f = model::binary64();
    let sum = model::value(a) - model::value(b);
    lemma_opposite(b);
    encoding::lemma_class_value(a);
    encoding::lemma_class_value(b);
    encoding::lemma_class_value(add::opposite(b));
    if sum != 0 {
        let x = Exact::Ratio { num: ieee::abs(sum), den: 1 };
        bits::lemma_pow2_values();
        rounding::lemma_mag_at(f, 0, 1);
        assert(model::mag(f, 1) == 1) by (nonlinear_arith)
            requires
                model::mag(f, 1) == 1 * pow2(0),
                pow2(0) == 1,
        ;
        rounding::lemma_representable(f, mode, sum < 0, 1);
        rounding::lemma_ratio_at_most(1, 1, ieee::abs(sum), 1);
        rounding::lemma_rounds_monotone(
            f,
            Exact::Ratio { num: 1, den: 1 },
            x,
            mode,
            sum < 0,
            1,
            model::magnitude(r),
        );
    }
}

/// A sum that is a finite number is that number, in every mode.
pub proof fn exact_sum_is_kept(a: u64, b: u64, mode: RoundingMode, r: u64)
    requires
        model::finite(a),
        model::finite(b),
        ieee::is_finite_nonzero(r),
        model::value(a) + model::value(b) == model::value(r),
    ensures
        ieee::is_sum(false, a, b, mode, r),
{
    encoding::lemma_class_value(a);
    encoding::lemma_class_value(b);
    encoding::lemma_class_value(r);
    encoding::lemma_own_value(r, mode, false);
}

/// A product that is a finite number is that number, in every mode.
pub proof fn exact_product_is_kept(a: u64, b: u64, mode: RoundingMode, r: u64)
    requires
        ieee::is_finite_nonzero(a),
        ieee::is_finite_nonzero(b),
        ieee::is_finite_nonzero(r),
        model::value(a) * model::value(b) == model::value(r) * pow2(1074),
    ensures
        ieee::is_product(false, a, b, mode, r),
{
    encoding::lemma_class_value(a);
    encoding::lemma_class_value(b);
    encoding::lemma_class_value(r);
    encoding::lemma_own_value(r, mode, false);
    lemma_pow2_pos(1074);
    lemma_scaled(false, model::value(r), 1, pow2(1074) as int, mode, r);
    assert(1 * pow2(1074) == pow2(1074));
}

/// A quotient that is a finite number is that number, in every mode: division
/// undoes an exact multiplication.
pub proof fn exact_quotient_is_kept(a: u64, b: u64, mode: RoundingMode, r: u64)
    requires
        ieee::is_finite_nonzero(a),
        ieee::is_finite_nonzero(b),
        ieee::is_finite_nonzero(r),
        model::value(r) * model::value(b) == model::value(a) * pow2(1074),
    ensures
        ieee::is_quotient(false, a, b, mode, r),
{
    let g = pow2(1074) as int;
    let va = model::value(a);
    let vb = model::value(b);
    let vr = model::value(r);
    encoding::lemma_class_value(a);
    encoding::lemma_class_value(b);
    encoding::lemma_class_value(r);
    encoding::lemma_own_value(r, mode, false);
    lemma_pow2_pos(1074);
    assert(ieee::abs(vr) * ieee::abs(vb) == ieee::abs(va) * g && (vr < 0) == ((va < 0) != (vb < 0)))
        by (nonlinear_arith)
        requires
            vr * vb == va * g,
            g > 0,
            va != 0,
            vb != 0,
            vr != 0,
    ;
    rounding::lemma_higher_terms(ieee::abs(vr), 1, ieee::abs(vb));
    encoding::lemma_delivers_alike(
        false,
        Exact::Ratio { num: ieee::abs(vr), den: 1 },
        Exact::Ratio { num: ieee::abs(vr) * ieee::abs(vb), den: 1 * ieee::abs(vb) },
        mode,
        vr < 0,
        r,
    );
}

/// A root that is a finite number is that number, in every mode: the root undoes
/// an exact square.
pub proof fn exact_root_is_kept(a: u64, mode: RoundingMode, r: u64)
    requires
        ieee::is_finite_nonzero(a),
        ieee::is_finite_nonzero(r),
        !model::negative(r),
        model::value(r) * model::value(r) == model::value(a) * pow2(1074),
    ensures
        ieee::is_root(a, mode, r),
{
    let va = model::value(a);
    let vr = model::value(r);
    encoding::lemma_class_value(a);
    encoding::lemma_class_value(r);
    encoding::lemma_own_value(r, mode, false);
    assert(va > 0) by (nonlinear_arith)
        requires
            vr * vr == va * pow2(1074),
            vr > 0,
            pow2(1074) >= 0,
    ;
    rounding::lemma_root_of_square(vr);
    encoding::lemma_delivers_alike(
        false,
        Exact::Ratio { num: vr, den: 1 },
        Exact::Root { square: vr * vr },
        mode,
        false,
        r,
    );
}

/// Of two patterns that are not NaN, exactly one is less or they are equal.
pub proof fn order_is_total(a: u64, b: u64)
    requires
        ieee::ordered(a, b),
    ensures
        ieee::less(a, b) || ieee::less(b, a) || ieee::equal(a, b),
        !(ieee::less(a, b) && ieee::less(b, a)),
        !(ieee::less(a, b) && ieee::equal(a, b)),
{
}

/// A NaN is neither less nor greater than, nor equal to, anything.
pub proof fn nan_is_unordered(a: u64, b: u64)
    requires
        ieee::is_nan(a) || ieee::is_nan(b),
    ensures
        !ieee::less(a, b),
        !ieee::less(b, a),
        !ieee::equal(a, b),
{
}

/// The order is transitive.
pub proof fn order_is_transitive(a: u64, b: u64, c: u64)
    requires
        ieee::less(a, b) || ieee::equal(a, b),
        ieee::less(b, c) || ieee::equal(b, c),
    ensures
        ieee::less(a, c) || ieee::equal(a, c),
        ieee::less(a, b) || ieee::less(b, c) ==> ieee::less(a, c),
{
}

/// Equal numbers are the same pattern, except zeros of different signs.
pub proof fn equals_are_identical(a: u64, b: u64)
    requires
        ieee::equal(a, b),
    ensures
        a == b || (ieee::is_zero(a) && ieee::is_zero(b)),
{
    encoding::lemma_class_value(a);
    encoding::lemma_class_value(b);
    lemma_same_encoding(model::binary64(), model::magnitude(a), model::magnitude(b));
}

/// A whole number of at most 53 bits goes into binary64 and back unchanged, in
/// every pair of modes.
pub proof fn small_integers_round_trip(
    x: i64,
    mode: RoundingMode,
    back: RoundingMode,
    r: u64,
    y: i64,
)
    requires
        -0x20_0000_0000_0000 <= x <= 0x20_0000_0000_0000,
        ieee::is_from_integer(x as int, mode, r),
        ieee::is_to_integer(r, back, y),
    ensures
        model::value(r) == x * pow2(1074),
        y == x,
{
    let g = pow2(1074) as int;
    lemma_pow2_pos(1074);
    bits::lemma_pow2_values();
    lemma_zero_value(r);
    encoding::lemma_class_value(r);
    if x != 0 {
        lemma_integer_encoding(ieee::abs(x as int), mode, x < 0, r);
    }
    assert(model::value(r) == x * g) by {
        if x < 0 {
            assert(x * g == -((-x) * g)) by (nonlinear_arith);
        }
    }
    vstd::arithmetic::div_mod::lemma_fundamental_div_mod_converse(x * g, g, x as int, 0);
}

/// The encoding of a whole number of at most 53 bits.
proof fn lemma_integer_encoding(n: int, mode: RoundingMode, neg: bool, r: u64)
    requires
        0 < n <= 0x20_0000_0000_0000,
        ieee::is_ratio(
            false,
            model::signed(neg, n) * pow2(1074),
            1,
            mode,
            r,
        ),
    ensures
        model::negative(r) == neg,
        model::mag(model::binary64(), model::magnitude(r)) == n * pow2(1074),
        model::finite(r),
{
    let f = model::binary64();
    let g = pow2(1074) as int;
    bits::lemma_pow2_values();
    lemma_pow2_pos(1074);
    assert(n * g > 0 && (-n) * g == -(n * g)) by (nonlinear_arith)
        requires
            n > 0,
            g > 0,
    ;
    let (e, m) = lemma_normalize(n);
    // n * 2^1074 == m * 2^(1074 - e), with m filling the mantissa.
    lemma_pow2_adds((1074 - e) as nat, e as nat);
    assert(n * g == m * pow2((1074 - e) as nat)) by (nonlinear_arith)
        requires
            m == n * pow2(e as nat),
            g == pow2((1074 - e) as nat) * pow2(e as nat),
    ;
    let k = (1074 - e) * 0x10_0000_0000_0000 + m;
    rounding::lemma_mag_at(f, 1074 - e, m);
    rounding::lemma_representable(f, mode, neg, k);
    rounding::lemma_rounds_unique(
        f,
        Exact::Ratio { num: n * g, den: 1 },
        mode,
        neg,
        model::magnitude(r),
        k,
    );
}

/// Shifts a number until it fills 53 bits.
proof fn lemma_normalize(n: int) -> (r: (int, int))
    requires
        0 < n <= 0x20_0000_0000_0000,
    ensures
        0 <= r.0 <= 53,
        r.1 == n * pow2(r.0 as nat),
        0x10_0000_0000_0000 <= r.1 <= 0x20_0000_0000_0000,
    decreases 0x20_0000_0000_0000 - n,
{
    bits::lemma_pow2_values();
    if n >= 0x10_0000_0000_0000 {
        assert(n * pow2(0) == n) by (nonlinear_arith)
            requires
                pow2(0) == 1,
        ;
        (0, n)
    } else {
        let (e, m) = lemma_normalize(2 * n);
        lemma_pow2_unfold((e + 1) as nat);
        assert(m == n * pow2((e + 1) as nat)) by (nonlinear_arith)
            requires
                m == 2 * n * pow2(e as nat),
                pow2((e + 1) as nat) == 2 * pow2(e as nat),
        ;
        if e + 1 > 53 {
            lemma_pow2_unfold(54);
            assert(m >= pow2(54)) by (nonlinear_arith)
                requires
                    m == n * pow2((e + 1) as nat),
                    n >= 1,
                    pow2((e + 1) as nat) >= pow2(54),
                    pow2(54) > 0,
            ;
        }
        (e + 1, m)
    }
}

/// A binary32 number goes into binary64 and back unchanged, in every mode.
pub proof fn binary32_round_trips(a: u32, w: u64, mode: RoundingMode, r: u32)
    requires
        model::class_of32(a) != model::IeeeClass::NaN,
        ieee::is_widened(a, w),
        ieee::is_narrowed(w, mode, r),
    ensures
        r == a,
{
    let f = model::binary32();
    let g = pow2(925) as int;
    let k = model::magnitude32(a);
    bits::lemma_pow2_values();
    lemma_pow2_pos(925);
    encoding::lemma_class_value(w);
    if k < f.inf {
        let v = model::mag(f, k);
        rounding::lemma_mag_nonnegative(f, k);
        rounding::lemma_mag_nonnegative(model::binary64(), model::magnitude(w));
        assert(v * g >= 0 && (-v) * g == -(v * g)) by (nonlinear_arith)
            requires
                v >= 0,
                g > 0,
        ;
        rounding::lemma_representable(f, mode, model::negative(w), k);
        rounding::lemma_higher_terms(v, 1, g);
        rounding::lemma_alike(
            f,
            Exact::Ratio { num: v, den: 1 },
            Exact::Ratio { num: v * g, den: 1 * g },
            mode,
            model::negative(w),
            k,
        );
        rounding::lemma_rounds_unique(
            f,
            Exact::Ratio { num: v * g, den: g },
            mode,
            model::negative(w),
            model::magnitude32(r),
            k,
        );
    }
}

/// No operation on flushed operands returns a subnormal number.
pub proof fn flushed_results_are_not_subnormal(
    a: u64,
    b: u64,
    c: u64,
    mode: RoundingMode,
    r: u64,
)
    requires
        !ieee::is_subnormal(a),
        !ieee::is_subnormal(b),
        !ieee::is_subnormal(c),
        ieee::is_sum(true, a, b, mode, r) || ieee::is_product(true, a, b, mode, r)
            || ieee::is_quotient(true, a, b, mode, r) || ieee::is_fused(true, a, b, c, mode, r),
    ensures
        !ieee::is_subnormal(r),
{
    bits::lemma_pow2_values();
    lemma_pow2_pos(1074);
    encoding::lemma_class_value(a);
    encoding::lemma_class_value(b);
    if ieee::is_subnormal(r) {
        let sum = model::value(a) + model::value(b);
        let x = Exact::Ratio { num: ieee::abs(sum), den: 1 };
        let num = model::value(a) * model::value(b);
        let y = Exact::Ratio { num: ieee::abs(num), den: pow2(1074) as int };
        let all = num + model::value(c) * pow2(1074);
        let z = Exact::Ratio { num: ieee::abs(all), den: pow2(1074) as int };
        let neg = model::negative(a) != model::negative(b);
        if ieee::delivers(true, x, mode, sum < 0, r) {
            lemma_flush(x, mode, sum < 0, r);
        }
        if ieee::delivers(true, y, mode, num < 0, r) {
            lemma_flush(y, mode, num < 0, r);
        }
        if ieee::delivers(true, z, mode, all < 0, r) {
            lemma_flush(z, mode, all < 0, r);
        }
        if !ieee::is_zero(b) && ieee::delivers(true, ieee::quotient(a, b), mode, neg, r) {
            let v = ieee::abs(model::value(a));
            assert(v * pow2(1074) >= 0) by (nonlinear_arith)
                requires
                    v >= 0,
            ;
            lemma_flush(ieee::quotient(a, b), mode, neg, r);
        }
    }
}

/// A flushed delivery is not subnormal.
proof fn lemma_flush(x: Exact, mode: RoundingMode, neg: bool, r: u64)
    requires
        x.valid(),
        ieee::delivers(true, x, mode, neg, r),
    ensures
        !ieee::is_subnormal(r),
{
    let f = model::binary64();
    let least = pow2(52) as int;
    bits::lemma_pow2_values();
    if !x.lt(least, 1) {
        let y = Exact::Ratio { num: least, den: 1 };
        rounding::lemma_mag_at(f, 0, least);
        assert(least * pow2(0) == least) by (nonlinear_arith)
            requires
                pow2(0) == 1,
        ;
        rounding::lemma_representable(f, mode, neg, least);
        assert(rounding::at_most(y, x)) by {
            assert forall|p: int, q: int|
                p >= 0 && q > 0 implies #[trigger] rounding::at_most_at(y, x, p, q) by {
                assert(least * q >= 0) by (nonlinear_arith)
                    requires
                        least >= 0,
                        q > 0,
                ;
                rounding::lemma_cross(x, least, 1, least * q, q);
                if p <= least * q {
                    rounding::lemma_monotone(x, p, least * q, q);
                } else {
                    rounding::lemma_monotone(x, least * q, p, q);
                }
            }
        }
        rounding::lemma_rounds_monotone(f, y, x, mode, neg, least, model::magnitude(r));
    }
}

/// Flushing changes only results below the normal range.
pub proof fn flushing_keeps_normal_results(x: Exact, mode: RoundingMode, neg: bool, r: u64)
    requires
        !x.lt(pow2(52) as int, 1),
    ensures
        ieee::delivers(true, x, mode, neg, r) == ieee::delivers(false, x, mode, neg, r),
{
}

/// The estimated quotient of finite numbers, with a divisor other than zero, is
/// their quotient.
pub proof fn estimated_quotient_is_quotient(a: u64, b: u64, mode: RoundingMode, r: u64, s: u64)
    requires
        model::finite(a),
        ieee::is_finite_nonzero(b),
        ieee::is_quotient(false, a, b, mode, r),
        ({
            let neg = model::negative(a) != model::negative(b);
            if ieee::is_zero(a) {
                s == ieee::zero(neg)
            } else {
                ieee::delivers(false, ieee::quotient(a, b), mode, neg, s)
            }
        }),
    ensures
        r == s,
{
    encoding::lemma_class_value(a);
    encoding::lemma_class_value(b);
    quotient_is_determined(false, a, b, mode, r, s);
}

} // verus!
