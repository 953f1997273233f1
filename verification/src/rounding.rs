//! Properties of the grid of magnitudes and of rounding onto it.
use crate::model::{Exact, Format};
use crate::model;
use crate::RoundingMode;
use vstd::arithmetic::div_mod::*;
use vstd::arithmetic::power2::*;
use vstd::prelude::*;

verus! {

/// The magnitude `n * 2^u` has the encoding `u * 2^frac + n`.
pub proof fn lemma_mag_at(f: Format, u: int, n: int)
    requires
        u >= 0,
        0 <= n <= pow2(f.frac + 1),
        u > 0 ==> pow2(f.frac) <= n,
    ensures
        model::mag(f, u * pow2(f.frac) + n) == n * pow2(u as nat),
{
    let unit = pow2(f.frac) as int;
    let k = u * unit + n;
    lemma_pow2_pos(f.frac);
    lemma_pow2_unfold(f.frac + 1);
    lemma2_to64();
    if n < unit {
        assert(k == n);
        lemma_fundamental_div_mod_converse(k, unit, 0, n);
        assert(n * pow2(u as nat) == n) by (nonlinear_arith)
            requires
                pow2(u as nat) == 1,
        ;
    } else if n < 2 * unit {
        assert(k == (u + 1) * unit + (n - unit)) by (nonlinear_arith)
            requires
                k == u * unit + n,
        ;
        lemma_fundamental_div_mod_converse(k, unit, u + 1, n - unit);
        assert(model::mag(f, k) == (unit + (n - unit)) * pow2(u as nat));
    } else {
        assert(k == (u + 2) * unit + 0) by (nonlinear_arith)
            requires
                k == u * unit + n,
                n == 2 * unit,
        ;
        lemma_fundamental_div_mod_converse(k, unit, u + 2, 0);
        lemma_pow2_unfold((u + 1) as nat);
        assert(unit * pow2((u + 1) as nat) == n * pow2(u as nat)) by (nonlinear_arith)
            requires
                n == 2 * unit,
                pow2((u + 1) as nat) == 2 * pow2(u as nat),
        ;
        assert(model::mag(f, k) == (unit + 0) * pow2((u + 1) as nat));
    }
}

/// Writes an encoding as `u * 2^frac + n` in the form that `lemma_mag_at` takes.
pub proof fn lemma_mag_form(f: Format, k: int) -> (r: (int, int))
    requires
        k >= 0,
    ensures
        r.0 >= 0,
        0 <= r.1 < pow2(f.frac + 1),
        r.0 > 0 ==> pow2(f.frac) <= r.1,
        k == r.0 * pow2(f.frac) + r.1,
        model::mag(f, k) == r.1 * pow2(r.0 as nat),
        model::mag(f, k + 1) == (r.1 + 1) * pow2(r.0 as nat),
{
    let unit = pow2(f.frac) as int;
    lemma_pow2_pos(f.frac);
    lemma_pow2_unfold(f.frac + 1);
    lemma_fundamental_div_mod(k, unit);
    lemma_div_pos_is_pos(k, unit);
    let e = k / unit;
    let (u, n) = if e == 0 {
        (0int, k)
    } else {
        (e - 1, k % unit + unit)
    };
    assert(k == u * unit + n) by (nonlinear_arith)
        requires
            k == unit * e + k % unit,
            (e == 0 && u == 0 && n == k) || (u == e - 1 && n == k % unit + unit),
    ;
    lemma_mag_at(f, u, n);
    lemma_mag_at(f, u, n + 1);
    (u, n)
}

/// Encodings number the magnitudes in increasing order.
pub proof fn lemma_mag_increases(f: Format, j: int, k: int)
    requires
        0 <= j < k,
    ensures
        0 <= model::mag(f, j) < model::mag(f, k),
    decreases k - j,
{
    let (u, n) = lemma_mag_form(f, k - 1);
    lemma_pow2_pos(u as nat);
    assert(0 <= n * pow2(u as nat) < (n + 1) * pow2(u as nat)) by (nonlinear_arith)
        requires
            pow2(u as nat) > 0,
            n >= 0,
    ;
    if j < k - 1 {
        lemma_mag_increases(f, j, k - 1);
    }
}

pub proof fn lemma_mag_nonnegative(f: Format, k: int)
    requires
        0 <= k,
    ensures
        0 <= model::mag(f, k),
{
    lemma_mag_increases(f, k, k + 1);
}

/// A magnitude stands alike against equal fractions.
pub proof fn lemma_cross(x: Exact, p: int, q: int, p2: int, q2: int)
    requires
        x.valid(),
        p >= 0,
        p2 >= 0,
        q > 0,
        q2 > 0,
        p * q2 == p2 * q,
    ensures
        x.lt(p, q) == x.lt(p2, q2),
        x.gt(p, q) == x.gt(p2, q2),
{
    match x {
        Exact::Ratio { num, den } => {
            lemma_cross_ints(num, den, p, q, p2, q2);
        },
        Exact::Root { square } => {
            assert((p * p) * (q2 * q2) == (p2 * p2) * (q * q)) by (nonlinear_arith)
                requires
                    p * q2 == p2 * q,
            ;
            assert(q * q > 0 && q2 * q2 > 0) by (nonlinear_arith)
                requires
                    q > 0,
                    q2 > 0,
            ;
            lemma_cross_ints(square, 1, p * p, q * q, p2 * p2, q2 * q2);
        },
    }
}

proof fn lemma_cross_ints(num: int, den: int, p: int, q: int, p2: int, q2: int)
    requires
        q > 0,
        q2 > 0,
        p * q2 == p2 * q,
    ensures
        (num * q < p * den) == (num * q2 < p2 * den),
        (num * q > p * den) == (num * q2 > p2 * den),
{
    let l = num * q - p * den;
    let r = num * q2 - p2 * den;
    assert(l * q2 == r * q) by (nonlinear_arith)
        requires
            p * q2 == p2 * q,
            l == num * q - p * den,
            r == num * q2 - p2 * den,
    ;
    assert((l < 0) == (r < 0) && (l > 0) == (r > 0)) by (nonlinear_arith)
        requires
            l * q2 == r * q,
            q > 0,
            q2 > 0,
    ;
}

/// What is below a fraction is below every greater one.
pub proof fn lemma_monotone(x: Exact, p: int, p2: int, q: int)
    requires
        x.valid(),
        0 <= p <= p2,
        q > 0,
    ensures
        x.lt(p, q) ==> x.lt(p2, q),
        x.gt(p2, q) ==> x.gt(p, q),
        p < p2 ==> x.lt(p, q) || x.gt(p, q) || x.lt(p2, q),
        p < p2 ==> x.lt(p2, q) || x.gt(p, q),
{
    match x {
        Exact::Ratio { num, den } => {
            assert(p * den <= p2 * den && (p < p2 ==> p * den < p2 * den)) by (nonlinear_arith)
                requires
                    den > 0,
                    p <= p2,
            ;
        },
        Exact::Root { square } => {
            assert(p * p <= p2 * p2 && (p < p2 ==> p * p < p2 * p2)) by (nonlinear_arith)
                requires
                    0 <= p <= p2,
            ;
        },
    }
}

/// The mode takes the upper of the two neighbours `k` and `k + 1` of `x`.
pub open spec fn takes_upper(f: Format, x: Exact, mode: RoundingMode, neg: bool, k: int) -> bool {
    let y = model::mag(f, k) + model::mag(f, k + 1);
    if mode == RoundingMode::Nearest {
        x.gt(y, 2) || (x.eq(y, 2) && k % 2 == 1)
    } else if model::toward_zero(mode, neg) {
        false
    } else {
        x.gt(model::mag(f, k), 1)
    }
}

/// Rounding picks one of the two neighbours.
pub proof fn lemma_pick(f: Format, x: Exact, mode: RoundingMode, neg: bool, k: int)
    requires
        x.valid(),
        0 <= k < f.inf,
        !x.lt(model::mag(f, k), 1),
        x.lt(model::mag(f, k + 1), 1),
    ensures
        model::rounds_to(
            f,
            x,
            mode,
            neg,
            if takes_upper(f, x, mode, neg, k) {
                k + 1
            } else {
                k
            },
        ),
{
    let a = model::mag(f, k);
    let b = model::mag(f, k + 1);
    lemma_mag_increases(f, k, k + 1);
    lemma_mag_increases(f, k + 1, k + 2);
    lemma_cross(x, a, 1, 2 * a, 2);
    lemma_cross(x, b, 1, 2 * b, 2);
    lemma_monotone(x, 2 * b, b + model::mag(f, k + 2), 2);
    if k > 0 {
        lemma_mag_increases(f, k - 1, k);
        let z = model::mag(f, k - 1);
        lemma_monotone(x, z + a, 2 * a, 2);
        lemma_cross(x, z, 1, 2 * z, 2);
        lemma_monotone(x, 2 * z, z + a, 2);
    }
}

/// At or above the value of infinity the result is infinity or the greatest finite number.
pub proof fn lemma_overflow(f: Format, x: Exact, mode: RoundingMode, neg: bool)
    requires
        x.valid(),
        0 < f.inf,
        !x.lt(model::mag(f, f.inf), 1),
    ensures
        model::rounds_to(
            f,
            x,
            mode,
            neg,
            if model::toward_zero(mode, neg) {
                f.inf - 1
            } else {
                f.inf
            },
        ),
{
    let a = model::mag(f, f.inf - 1);
    let b = model::mag(f, f.inf);
    lemma_mag_increases(f, f.inf - 1, f.inf);
    lemma_cross(x, b, 1, 2 * b, 2);
    lemma_monotone(x, a, b, 1);
    lemma_monotone(x, a + b, 2 * b, 2);
}

/// The mode determines the rounded encoding.
pub proof fn lemma_rounds_unique(
    f: Format,
    x: Exact,
    mode: RoundingMode,
    neg: bool,
    r: int,
    s: int,
)
    requires
        x.valid(),
        model::rounds_to(f, x, mode, neg, r),
        model::rounds_to(f, x, mode, neg, s),
    ensures
        r == s,
{
    lemma_rounds_least(f, x, mode, neg, r, s);
    lemma_rounds_least(f, x, mode, neg, s, r);
}

proof fn lemma_rounds_least(
    f: Format,
    x: Exact,
    mode: RoundingMode,
    neg: bool,
    r: int,
    s: int,
)
    requires
        x.valid(),
        model::rounds_to(f, x, mode, neg, r),
        model::rounds_to(f, x, mode, neg, s),
    ensures
        r >= s,
{
    if r < s {
        lemma_mag_increases(f, r, r + 1);
        lemma_mag_increases(f, s - 1, s);
        let y = model::mag(f, r) + model::mag(f, r + 1);
        let z = model::mag(f, s - 1) + model::mag(f, s);
        if r + 1 < s {
            lemma_mag_increases(f, r + 1, s);
            lemma_mag_increases(f, r, s - 1);
        }
        if mode == RoundingMode::Nearest {
            lemma_monotone(x, y, z, 2);
        } else if model::toward_zero(mode, neg) {
            lemma_monotone(x, model::mag(f, r + 1), model::mag(f, s), 1);
        } else {
            lemma_monotone(x, model::mag(f, r), model::mag(f, s - 1), 1);
        }
    }
}

/// Two magnitudes stand alike against `p / q`.
pub open spec fn alike_at(x: Exact, y: Exact, p: int, q: int) -> bool {
    x.lt(p, q) == y.lt(p, q) && x.gt(p, q) == y.gt(p, q)
}

/// Two magnitudes stand alike against every fraction.
pub open spec fn alike(x: Exact, y: Exact) -> bool {
    forall|p: int, q: int| p >= 0 && q > 0 ==> #[trigger] alike_at(x, y, p, q)
}

/// Against `p / q`, `x` stands no higher than `y`.
pub open spec fn at_most_at(x: Exact, y: Exact, p: int, q: int) -> bool {
    (y.lt(p, q) ==> x.lt(p, q)) && (x.gt(p, q) ==> y.gt(p, q))
}

/// `x` is no greater than `y`.
pub open spec fn at_most(x: Exact, y: Exact) -> bool {
    forall|p: int, q: int| p >= 0 && q > 0 ==> #[trigger] at_most_at(x, y, p, q)
}

/// Rounding keeps the order of magnitudes.
pub proof fn lemma_rounds_monotone(
    f: Format,
    x: Exact,
    y: Exact,
    mode: RoundingMode,
    neg: bool,
    r: int,
    s: int,
)
    requires
        x.valid(),
        y.valid(),
        at_most(x, y),
        model::rounds_to(f, x, mode, neg, r),
        model::rounds_to(f, y, mode, neg, s),
    ensures
        r <= s,
{
    if r > s {
        lemma_mag_increases(f, s, s + 1);
        lemma_mag_increases(f, r - 1, r);
        let m = model::mag(f, s) + model::mag(f, s + 1);
        let n = model::mag(f, r - 1) + model::mag(f, r);
        if s + 1 < r {
            lemma_mag_increases(f, s, r - 1);
            lemma_mag_increases(f, s + 1, r);
        }
        if mode == RoundingMode::Nearest {
            assert(at_most_at(x, y, n, 2));
            lemma_monotone(y, m, n, 2);
        } else if model::toward_zero(mode, neg) {
            assert(at_most_at(x, y, model::mag(f, r), 1));
            lemma_monotone(y, model::mag(f, s + 1), model::mag(f, r), 1);
        } else {
            assert(at_most_at(x, y, model::mag(f, r - 1), 1));
            lemma_monotone(y, model::mag(f, s), model::mag(f, r - 1), 1);
        }
    }
}

/// The order of ratios.
pub proof fn lemma_ratio_at_most(num: int, den: int, num2: int, den2: int)
    requires
        den > 0,
        den2 > 0,
        num * den2 <= num2 * den,
    ensures
        at_most(Exact::Ratio { num, den }, Exact::Ratio { num: num2, den: den2 }),
{
    let x = Exact::Ratio { num, den };
    let y = Exact::Ratio { num: num2, den: den2 };
    assert forall|p: int, q: int| p >= 0 && q > 0 implies #[trigger] at_most_at(x, y, p, q) by {
        assert(num2 * q < p * den2 ==> num * q < p * den) by (nonlinear_arith)
            requires
                num * den2 <= num2 * den,
                den > 0,
                den2 > 0,
                q > 0,
        ;
        assert(num * q > p * den ==> num2 * q > p * den2) by (nonlinear_arith)
            requires
                num * den2 <= num2 * den,
                den > 0,
                den2 > 0,
                q > 0,
        ;
    }
}

/// The order of roots.
pub proof fn lemma_root_at_most(square: int, square2: int)
    requires
        square <= square2,
    ensures
        at_most(Exact::Root { square }, Exact::Root { square: square2 }),
{
    let x = Exact::Root { square };
    let y = Exact::Root { square: square2 };
    assert forall|p: int, q: int| p >= 0 && q > 0 implies #[trigger] at_most_at(x, y, p, q) by {
        assert(square * (q * q) <= square2 * (q * q)) by (nonlinear_arith)
            requires
                square <= square2,
        ;
    }
}

/// The root of a square.
pub proof fn lemma_root_of_square(v: int)
    requires
        v >= 0,
    ensures
        alike(Exact::Ratio { num: v, den: 1 }, Exact::Root { square: v * v }),
{
    let x = Exact::Ratio { num: v, den: 1 };
    let y = Exact::Root { square: v * v };
    assert forall|p: int, q: int| p >= 0 && q > 0 implies #[trigger] alike_at(x, y, p, q) by {
        let w = v * q;
        assert(v * v * (q * q) == w * w) by (nonlinear_arith)
            requires
                w == v * q,
        ;
        assert(w >= 0) by (nonlinear_arith)
            requires
                w == v * q,
                v >= 0,
                q > 0,
        ;
        assert((w * w < p * p) == (w < p) && (w * w > p * p) == (w > p)) by (nonlinear_arith)
            requires
                w >= 0,
                p >= 0,
        ;
    }
}

/// A ratio is the same in higher terms.
pub proof fn lemma_higher_terms(num: int, den: int, c: int)
    requires
        c > 0,
    ensures
        alike(Exact::Ratio { num, den }, Exact::Ratio { num: num * c, den: den * c }),
{
    let x = Exact::Ratio { num, den };
    let y = Exact::Ratio { num: num * c, den: den * c };
    assert forall|p: int, q: int| p >= 0 && q > 0 implies #[trigger] alike_at(x, y, p, q) by {
        let l = num * q - p * den;
        assert(num * c * q - p * (den * c) == l * c) by (nonlinear_arith)
            requires
                l == num * q - p * den,
        ;
        assert((l * c < 0) == (l < 0) && (l * c > 0) == (l > 0)) by (nonlinear_arith)
            requires
                c > 0,
        ;
    }
}

/// What stands alike rounds alike.
pub proof fn lemma_alike(f: Format, x: Exact, y: Exact, mode: RoundingMode, neg: bool, r: int)
    requires
        alike(x, y),
    ensures
        model::rounds_to(f, x, mode, neg, r) == model::rounds_to(f, y, mode, neg, r),
{
    if 0 <= r <= f.inf {
        lemma_mag_nonnegative(f, r);
        lemma_mag_nonnegative(f, r + 1);
        let a = model::mag(f, r);
        let b = model::mag(f, r + 1);
        assert(alike_at(x, y, a, 1));
        assert(alike_at(x, y, b, 1));
        assert(alike_at(x, y, a + b, 2));
        if r > 0 {
            lemma_mag_nonnegative(f, r - 1);
            let c = model::mag(f, r - 1);
            assert(alike_at(x, y, c, 1));
            assert(alike_at(x, y, c + a, 2));
        }
    }
}

/// A representable magnitude rounds to itself.
pub proof fn lemma_representable(f: Format, mode: RoundingMode, neg: bool, k: int)
    requires
        0 <= k < f.inf,
    ensures
        model::rounds_to(
            f,
            Exact::Ratio { num: model::mag(f, k), den: 1 },
            mode,
            neg,
            k,
        ),
{
    let x = Exact::Ratio { num: model::mag(f, k), den: 1 };
    lemma_mag_increases(f, k, k + 1);
    lemma_pick(f, x, mode, neg, k);
}

/// The mode moves `n + part / unit`, where `n` is of the given parity, up to `n + 1`.
pub open spec fn goes_up(odd: bool, part: int, unit: int, mode: RoundingMode, neg: bool) -> bool {
    if mode == RoundingMode::Nearest {
        2 * part > unit || (2 * part == unit && odd)
    } else if model::toward_zero(mode, neg) {
        false
    } else {
        part > 0
    }
}

/// A magnitude split at the last place, `(n + part / unit) * 2^u`, rounds by
/// what stands below that place.
pub proof fn lemma_round_split(
    f: Format,
    num: int,
    den: int,
    u: int,
    n: int,
    part: int,
    unit: int,
    mode: RoundingMode,
    neg: bool,
)
    requires
        num >= 0,
        den > 0,
        u >= 0,
        0 <= n < pow2(f.frac + 1),
        u > 0 ==> pow2(f.frac) <= n,
        0 <= part < unit,
        num * unit == (n * unit + part) * (pow2(u as nat) * den),
        u * pow2(f.frac) + n < f.inf,
        f.frac > 0,
    ensures
        model::rounds_to(
            f,
            Exact::Ratio { num, den },
            mode,
            neg,
            u * pow2(f.frac) + n + if goes_up(n % 2 == 1, part, unit, mode, neg) {
                1int
            } else {
                0
            },
        ),
{
    let x = Exact::Ratio { num, den };
    let k = u * pow2(f.frac) + n;
    let v = pow2(u as nat) as int;
    let e = v * den;
    lemma_pow2_pos(u as nat);
    lemma_pow2_pos(f.frac);
    lemma_mag_at(f, u, n);
    lemma_mag_at(f, u, n + 1);
    assert(e > 0) by (nonlinear_arith)
        requires
            e == v * den,
            v > 0,
            den > 0,
    ;
    assert(k >= 0) by (nonlinear_arith)
        requires
            k == u * pow2(f.frac) + n,
            u >= 0,
            n >= 0,
    ;
    // n * v, (n + 1) * v and the midpoint, each against num / den.
    assert(n * v * den == n * e && (n + 1) * v * den == n * e + e) by (nonlinear_arith)
        requires
            e == v * den,
    ;
    assert((n * v + (n + 1) * v) * den == 2 * (n * e) + e) by (nonlinear_arith)
        requires
            n * v * den == n * e,
            (n + 1) * v * den == n * e + e,
    ;
    assert(num * unit == n * e * unit + part * e) by (nonlinear_arith)
        requires
            num * unit == (n * unit + part) * e,
    ;
    let low = num - n * e;
    assert(low * unit == part * e) by (nonlinear_arith)
        requires
            num * unit == n * e * unit + part * e,
            low == num - n * e,
    ;
    assert(low >= 0 && low < e && (low > 0) == (part > 0) && (2 * low > e) == (2 * part > unit) && (
    2 * low < e) == (2 * part < unit)) by (nonlinear_arith)
        requires
            low * unit == part * e,
            0 <= part < unit,
            e > 0,
    ;
    lemma_pow2_unfold(f.frac);
    assert(k % 2 == n % 2) by {
        let h = pow2((f.frac - 1) as nat) as int;
        assert(u * pow2(f.frac) == 2 * (u * h)) by (nonlinear_arith)
            requires
                pow2(f.frac) == 2 * h,
        ;
    }
    lemma_pick(f, x, mode, neg, k);
}

} // verus!
