//! Rounding from a staged mantissa.
//!
//! An operation stages its exact result in a 128-bit word `m` whose top bit is
//! bit 116: bits 64 to 116 are the mantissa that the result would have with an
//! unbounded exponent, the 64 bits below decide how to round. The word stands
//! for `m * 2^q` in units of `2^-1074`. What does not fit is folded into its
//! lowest bit, so the word need not equal the exact magnitude; it stands on the
//! same side as the magnitude of every multiple of half a unit in the last place.
use crate::bits;
use crate::model::Exact;
use crate::model;
use crate::rounding;
use crate::RoundingMode;
use vstd::arithmetic::div_mod::*;
use vstd::arithmetic::power2::*;
use vstd::prelude::*;

verus! {

/// An exponent that makes `2^q` whole when it is added: 1190, which serves every
/// operation, or for smaller words the one that just does.
pub open spec fn lift(q: int) -> int {
    if q >= -1190 {
        1190
    } else {
        -q
    }
}

/// `m` stands to `t` half units as `x` does.
pub open spec fn agrees_at(x: Exact, m: int, q: int, t: int) -> bool {
    let p = t * pow2(63) * pow2((q + lift(q)) as nat);
    &&& x.lt(p, pow2(lift(q) as nat) as int) == (m < t * pow2(63))
    &&& x.gt(p, pow2(lift(q) as nat) as int) == (m > t * pow2(63))
}

/// The word `m`, scaled by `2^q`, can be rounded in place of `x`.
pub open spec fn stands_for(x: Exact, m: int, q: int) -> bool {
    forall|t: int| t >= 0 ==> #[trigger] agrees_at(x, m, q, t)
}

/// Number of bits of the staged word below the last place of the result.
pub open spec fn dropped(q: int) -> int {
    if q >= -64 {
        64
    } else {
        -q
    }
}

/// The encoding of the staged word cut off at the last place of the result.
pub open spec fn truncated(m: int, q: int) -> int {
    (q + dropped(q)) * pow2(52) + m / pow2(dropped(q) as nat) as int
}

/// The mode takes the neighbour above the truncation.
pub open spec fn bumps(m: int, q: int, mode: RoundingMode, neg: bool) -> bool {
    let unit = pow2(dropped(q) as nat) as int;
    let rem = m % unit;
    if mode == RoundingMode::Nearest {
        2 * rem > unit || (2 * rem == unit && (m / unit) % 2 == 1)
    } else if model::toward_zero(mode, neg) {
        false
    } else {
        rem > 0
    }
}

/// The encoding that rounding the staged word gives.
pub open spec fn round_bits(m: int, q: int, mode: RoundingMode, neg: bool) -> int {
    let k = truncated(m, q);
    if k >= model::binary64().inf {
        if model::toward_zero(mode, neg) {
            model::binary64().inf - 1
        } else {
            model::binary64().inf
        }
    } else if bumps(m, q, mode, neg) {
        k + 1
    } else {
        k
    }
}

/// One threshold: the staged word stands to `c` units of `2^e` as `x` does to
/// `c` units of `2^(q + e)`.
proof fn lemma_threshold(x: Exact, m: int, q: int, c: int, e: int)
    requires
        x.valid(),
        stands_for(x, m, q),
        c >= 0,
        e >= 63,
        q + e + 1 >= 0,
    ensures
        x.lt(c * pow2((q + e + 1) as nat), 2) == (m < c * pow2(e as nat)),
        x.gt(c * pow2((q + e + 1) as nat), 2) == (m > c * pow2(e as nat)),
{
    let t = c * pow2((e - 63) as nat);
    let w = pow2(63) as int;
    let l = lift(q);
    let s = pow2((q + l) as nat) as int;
    let g = pow2(l as nat) as int;
    let y = c * pow2((q + e + 1) as nat);
    lemma_pow2_adds((e - 63) as nat, 63);
    lemma_pow2_adds(e as nat, (q + l) as nat);
    lemma_pow2_adds((q + e + 1) as nat, l as nat);
    lemma_pow2_unfold((q + e + 1 + l) as nat);
    lemma_pow2_pos(l as nat);
    lemma_pow2_pos((e - 63) as nat);
    lemma_pow2_pos((q + e + 1) as nat);
    lemma_pow2_pos((q + l) as nat);
    lemma_pow2_pos(63);
    assert(t * w == c * pow2(e as nat)) by (nonlinear_arith)
        requires
            t == c * pow2((e - 63) as nat),
            pow2((e - 63) as nat) * w == pow2(e as nat),
    ;
    assert(t >= 0 && y >= 0) by (nonlinear_arith)
        requires
            t == c * pow2((e - 63) as nat),
            y == c * pow2((q + e + 1) as nat),
            c >= 0,
    ;
    assert(agrees_at(x, m, q, t));
    let p = t * w * s;
    assert(p >= 0) by (nonlinear_arith)
        requires
            p == t * w * s,
            t >= 0,
            w >= 0,
            s >= 0,
    ;
    assert(p == c * (pow2(e as nat) * s)) by (nonlinear_arith)
        requires
            p == t * w * s,
            t * w == c * pow2(e as nat),
    ;
    assert(p * 2 == y * g) by (nonlinear_arith)
        requires
            p == c * (pow2(e as nat) * s),
            y == c * pow2((q + e + 1) as nat),
            2 * (pow2(e as nat) * s) == pow2((q + e + 1) as nat) * g,
    ;
    rounding::lemma_cross(x, p, g, y, 2);
}

/// Rounding the staged word rounds everything it stands for.
pub proof fn lemma_round(x: Exact, m: int, q: int, mode: RoundingMode, neg: bool)
    requires
        x.valid(),
        stands_for(x, m, q),
        pow2(116) <= m < pow2(117),
    ensures
        model::rounds_to(model::binary64(), x, mode, neg, round_bits(m, q, mode, neg)),
{
    let f = model::binary64();
    let d = dropped(q);
    let u = q + d;
    let unit = pow2(d as nat) as int;
    let n = m / unit;
    let k = truncated(m, q);
    let v = pow2(u as nat) as int;
    bits::lemma_pow2_values();
    lemma_pow2_pos(d as nat);
    lemma_pow2_pos(u as nat);
    lemma_fundamental_div_mod(m, unit);
    lemma_div_pos_is_pos(m, unit);
    lemma_truncation_range(m, q);
    rounding::lemma_mag_at(f, u, n);
    rounding::lemma_mag_at(f, u, n + 1);
    assert(k + 1 == u * pow2(52) + (n + 1));
    lemma_pow2_unfold((u + 1) as nat);
    lemma_pow2_unfold(d as nat);
    let half = pow2((d - 1) as nat) as int;
    // The three thresholds that decide: n, n + 1/2 and n + 1 units.
    lemma_threshold(x, m, q, n, d);
    lemma_threshold(x, m, q, n + 1, d);
    lemma_threshold(x, m, q, 2 * n + 1, d - 1);
    assert(n * pow2((u + 1) as nat) == 2 * (n * v)) by (nonlinear_arith)
        requires
            pow2((u + 1) as nat) == 2 * v,
    ;
    assert((n + 1) * pow2((u + 1) as nat) == 2 * ((n + 1) * v)) by (nonlinear_arith)
        requires
            pow2((u + 1) as nat) == 2 * v,
    ;
    assert((2 * n + 1) * v == n * v + (n + 1) * v) by (nonlinear_arith);
    assert(0 <= n * v && 0 <= (n + 1) * v) by (nonlinear_arith)
        requires
            n >= 0,
            v >= 0,
    ;
    rounding::lemma_cross(x, n * v, 1, 2 * (n * v), 2);
    rounding::lemma_cross(x, (n + 1) * v, 1, 2 * ((n + 1) * v), 2);
    assert(n * unit == unit * n) by (nonlinear_arith);
    assert((n + 1) * unit == unit * n + unit) by (nonlinear_arith);
    assert((2 * n + 1) * half == unit * n + half) by (nonlinear_arith)
        requires
            unit == 2 * half,
    ;
    assert(!x.lt(model::mag(f, k), 1));
    if k >= f.inf {
        if k > f.inf {
            rounding::lemma_mag_increases(f, f.inf, k);
        }
        rounding::lemma_mag_nonnegative(f, f.inf);
        rounding::lemma_monotone(x, model::mag(f, f.inf), model::mag(f, k), 1);
        rounding::lemma_overflow(f, x, mode, neg);
    } else {
        assert(x.lt(model::mag(f, k + 1), 1));
        assert(k % 2 == n % 2) by {
            assert(k == 2 * (u * 0x8_0000_0000_0000) + n);
        }
        rounding::lemma_pick(f, x, mode, neg, k);
    }
}

/// The truncated mantissa fills the fraction field unless the result is subnormal.
pub proof fn lemma_truncation_range(m: int, q: int)
    requires
        pow2(116) <= m < pow2(117),
    ensures
        0 <= m / pow2(dropped(q) as nat) as int,
        m / (pow2(dropped(q) as nat) as int) < pow2(53),
        q >= -64 ==> pow2(52) <= m / (pow2(dropped(q) as nat) as int),
        q < -64 ==> m / (pow2(dropped(q) as nat) as int) < pow2(52),
        truncated(m, q) >= 0,
{
    let d = dropped(q);
    let unit = pow2(d as nat) as int;
    bits::lemma_pow2_values();
    lemma_pow2_pos(d as nat);
    lemma_div_pos_is_pos(m, unit);
    if q >= -64 {
        assert(m / unit == m / 0x1_0000_0000_0000_0000);
    } else {
        if d > 65 {
            lemma_pow2_strictly_increases(65, d as nat);
        }
        lemma_pow2_unfold(65);
        assert(unit >= 0x2_0000_0000_0000_0000);
        lemma_fundamental_div_mod(m, unit);
        let n = m / unit;
        assert(n < 0x10_0000_0000_0000) by (nonlinear_arith)
            requires
                unit * n <= m,
                m < 0x20_0000_0000_0000_0000_0000_0000_0000,
                unit >= 0x2_0000_0000_0000_0000,
                n >= 0,
        ;
    }
    assert((q + d) * pow2(52) >= 0) by (nonlinear_arith)
        requires
            q + d >= 0,
            pow2(52) >= 0,
    ;
}

/// A staged word of a ratio with denominator `2^1190` need only be compared
/// against the numerator.
pub proof fn lemma_stage(num: int, m: int, q: int)
    requires
        q >= -1190,
        forall|t: int|
            t >= 0 ==> {
                let w = #[trigger] (t * pow2(63));
                &&& (num < w * pow2((q + 1190) as nat)) == (m < w)
                &&& (num > w * pow2((q + 1190) as nat)) == (m > w)
            },
    ensures
        stands_for(Exact::Ratio { num, den: pow2(1190) as int }, m, q),
{
    let g = pow2(1190) as int;
    let x = Exact::Ratio { num, den: g };
    lemma_pow2_pos(1190);
    assert forall|t: int| t >= 0 implies #[trigger] agrees_at(x, m, q, t) by {
        let w = t * pow2(63);
        let p = w * pow2((q + 1190) as nat);
        assert((num * g < p * g) == (num < p) && (num * g > p * g) == (num > p))
            by (nonlinear_arith)
            requires
                g > 0,
        ;
    }
}

/// The staged word is below the normal range exactly if what it stands for is.
pub proof fn lemma_tiny(x: Exact, m: int, q: int)
    requires
        x.valid(),
        stands_for(x, m, q),
        pow2(116) <= m < pow2(117),
    ensures
        (q < -64) == x.lt(pow2(52) as int, 1),
{
    bits::lemma_pow2_values();
    let p = pow2(52) as int;
    rounding::lemma_cross(x, p, 1, 2 * p, 2);
    if q < -64 {
        if q + 118 >= 0 {
            lemma_threshold(x, m, q, 1, 117);
            if q + 118 < 53 {
                lemma_pow2_strictly_increases((q + 118) as nat, 53);
            }
            rounding::lemma_monotone(x, pow2((q + 118) as nat) as int, 2 * p, 2);
        } else {
            let e = 52 - q;
            lemma_threshold(x, m, q, 1, e);
            lemma_pow2_strictly_increases(117, e as nat);
        }
    } else {
        lemma_threshold(x, m, q, 1, 116);
        if q + 117 > 53 {
            lemma_pow2_strictly_increases(53, (q + 117) as nat);
        }
        rounding::lemma_monotone(x, 2 * p, pow2((q + 117) as nat) as int, 2);
    }
}

/// A word stands for its own value.
pub proof fn lemma_stage_word(m: int, q: int)
    requires
        m >= 0,
    ensures
        Exact::scaled(m, q).valid(),
        stands_for(Exact::scaled(m, q), m, q),
{
    let x = Exact::scaled(m, q);
    let l = lift(q);
    let s = pow2((q + l) as nat) as int;
    let g = pow2(l as nat) as int;
    lemma_pow2_pos((q + l) as nat);
    lemma_pow2_pos(l as nat);
    if q >= 0 {
        lemma_pow2_pos(q as nat);
        lemma_pow2_adds(q as nat, l as nat);
        let e = pow2(q as nat) as int;
        assert(m * e >= 0) by (nonlinear_arith)
            requires
                m >= 0,
                e >= 0,
        ;
        assert forall|t: int| t >= 0 implies #[trigger] agrees_at(x, m, q, t) by {
            let w = t * pow2(63);
            assert(m * e * g == m * s) by (nonlinear_arith)
                requires
                    e * g == s,
            ;
            assert((m * s < w * s) == (m < w) && (m * s > w * s) == (m > w)) by (nonlinear_arith)
                requires
                    s > 0,
            ;
        }
    } else {
        lemma_pow2_pos((-q) as nat);
        lemma_pow2_adds((q + l) as nat, (-q) as nat);
        let d = pow2((-q) as nat) as int;
        assert forall|t: int| t >= 0 implies #[trigger] agrees_at(x, m, q, t) by {
            let w = t * pow2(63);
            assert(w * s * d == w * g) by (nonlinear_arith)
                requires
                    s * d == g,
            ;
            assert((m * g < w * g) == (m < w) && (m * g > w * g) == (m > w)) by (nonlinear_arith)
                requires
                    g > 0,
            ;
        }
    }
}

/// A word that equals the exact magnitude stands for it.
pub proof fn lemma_stage_exact(num: int, m: int, q: int)
    requires
        q >= -1190,
        num == m * pow2((q + 1190) as nat),
    ensures
        stands_for(Exact::Ratio { num, den: pow2(1190) as int }, m, q),
{
    let e = pow2((q + 1190) as nat) as int;
    lemma_pow2_pos((q + 1190) as nat);
    assert forall|t: int| t >= 0 implies {
        let w = #[trigger] (t * pow2(63));
        &&& (num < w * pow2((q + 1190) as nat)) == (m < w)
        &&& (num > w * pow2((q + 1190) as nat)) == (m > w)
    } by {
        let w = t * pow2(63);
        assert((m * e < w * e) == (m < w) && (m * e > w * e) == (m > w)) by (nonlinear_arith)
            requires
                e > 0,
        ;
    }
    lemma_stage(num, m, q);
}

} // verus!
