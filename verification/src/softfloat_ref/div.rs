//! Division.
use crate::bits;
use crate::ieee;
use crate::model::IeeeClass;
use crate::model;
use crate::softfloat_ref::encoding;
use crate::softfloat_ref::encoding::{Unpacked, CANONICAL_QNAN};
use crate::softfloat_ref::recip;
use crate::staging;
use crate::RoundingMode;
use vstd::arithmetic::power2::*;
use vstd::prelude::*;

verus! {

/// One Newton step toward `2^115 / d`: `y * (2^116 - d * y) / 2^115`, rounded down.
fn newton_step(y: u64, d: u64) -> (z: u64)
    requires
        0x10_0000_0000_0000 <= d < 0x20_0000_0000_0000,
        -0x10_0000_0000_0000_0000_0000 <= 0x8_0000_0000_0000_0000_0000_0000_0000 - d * y
            <= 0x40_0000_0000_0000_0000_0000,
    ensures
        ({
            let e = 0x8_0000_0000_0000_0000_0000_0000_0000 - d * y;
            let f = 0x8_0000_0000_0000_0000_0000_0000_0000 - d * z;
            0 <= f && f * 0x8_0000_0000_0000_0000_0000_0000_0000 < e * e + d
                * 0x8_0000_0000_0000_0000_0000_0000_0000
        }),
{
    let ghost w = 0x8_0000_0000_0000_0000_0000_0000_0000int;
    let ghost e = w - d * y;
    let product: u128 = (d as u128) * (y as u128);
    let delta: u128 = 0x10_0000_0000_0000_0000_0000_0000_0000 - product;
    let dh: u128 = delta >> 64u32;
    let dl: u128 = delta % 0x1_0000_0000_0000_0000;
    proof {
        bits::lemma_pow2_values();
        bits::lemma_shr128(delta, 64);
        assert(y * dh <= 0xFFFF_FFFF_FFFF_FFFF * 0x10_0000_0000_0000 && y * dl
            <= 0xFFFF_FFFF_FFFF_FFFF * 0xFFFF_FFFF_FFFF_FFFF) by (nonlinear_arith)
            requires
                0 <= y <= 0xFFFF_FFFF_FFFF_FFFF,
                0 <= dh <= 0x10_0000_0000_0000,
                0 <= dl <= 0xFFFF_FFFF_FFFF_FFFF,
        ;
    }
    let p_hi: u128 = (y as u128) * dh;
    let p_lo: u128 = (y as u128) * dl;
    proof {
        bits::lemma_shr128(p_lo, 64);
    }
    let top: u128 = p_hi + (p_lo >> 64u32);
    let z: u128 = top >> 51u32;
    proof {
        bits::lemma_shr128(top, 51);
        lemma2_to64();
        lemma2_to64_rest();
        assert(pow2(51) == 0x8_0000_0000_0000);
        // z is the floor of y * delta / 2^115.
        let n = y * delta;
        let low = p_lo % 0x1_0000_0000_0000_0000 + (top % 0x8_0000_0000_0000)
            * 0x1_0000_0000_0000_0000;
        assert(n == p_hi * 0x1_0000_0000_0000_0000 + p_lo) by (nonlinear_arith)
            requires
                n == y * delta,
                delta == dh * 0x1_0000_0000_0000_0000 + dl,
                p_hi == y * dh,
                p_lo == y * dl,
        ;
        assert(n == z * w + low);
        assert(0 <= low < w);
        lemma_newton(y as int, d as int, z as int, low);
        assert(z <= 0x8000_0000_0000_0000) by (nonlinear_arith)
            requires
                d * z <= w,
                w == 0x8_0000_0000_0000_0000_0000_0000_0000,
                d >= 0x10_0000_0000_0000,
        ;
    }
    z as u64
}

/// A Newton step squares the error.
proof fn lemma_newton(y: int, d: int, z: int, low: int)
    requires
        d > 0,
        0 <= low < 0x8_0000_0000_0000_0000_0000_0000_0000,
        y * (0x10_0000_0000_0000_0000_0000_0000_0000 - d * y) == z
            * 0x8_0000_0000_0000_0000_0000_0000_0000 + low,
    ensures
        ({
            let e = 0x8_0000_0000_0000_0000_0000_0000_0000 - d * y;
            let f = 0x8_0000_0000_0000_0000_0000_0000_0000 - d * z;
            0 <= f && f * 0x8_0000_0000_0000_0000_0000_0000_0000 < e * e + d
                * 0x8_0000_0000_0000_0000_0000_0000_0000
        }),
{
    let w = 0x8_0000_0000_0000_0000_0000_0000_0000int;
    let e = w - d * y;
    let f = w - d * z;
    assert(f * w == e * e + d * low) by (nonlinear_arith)
        requires
            y * (2 * w - d * y) == z * w + low,
            e == w - d * y,
            f == w - d * z,
    ;
    assert(0 <= e * e && 0 <= d * low < d * w) by (nonlinear_arith)
        requires
            d > 0,
            0 <= low < w,
    ;
    assert(0 <= f) by (nonlinear_arith)
        requires
            f * w >= 0,
            w > 0,
    ;
}

/// The quotient and remainder of `numer_hi * 2^64` by `denom`.
///
/// The reciprocal of `denom` is approximated from below, by a table and two
/// Newton steps; what the quotient is short by is then found bit by bit.
pub fn u128_div_u64_newton(numer_hi: u64, denom: u64) -> (r: (u128, u64))
    requires
        0x10_0000_0000_0000 <= denom < 0x20_0000_0000_0000,
    ensures
        r.0 * denom + r.1 == numer_hi * 0x1_0000_0000_0000_0000,
        r.1 < denom,
{
    let ghost w = 0x8_0000_0000_0000_0000_0000_0000_0000int;
    let top: u32 = (denom / 0x20_0000) as u32;
    let recip: u32 = recip::approx_recip32_1(top);
    let seed: u64 = (recip as u64) * 0x8000_0000;
    proof {
        lemma_seed(denom as int, top as int, recip as int);
    }
    let y1: u64 = newton_step(seed, denom);
    proof {
        let e = w - denom * seed;
        let f = w - denom * y1;
        assert(e * e <= 0x1000_0000_0000_0000_0000_0000_0000_0000_0000_0000_0000) by (nonlinear_arith)
            requires
                -0x10_0000_0000_0000_0000_0000 <= e <= 0x40_0000_0000_0000_0000_0000,
        ;
        assert(f < 0x400_0000_0000_0000);
    }
    let y: u64 = newton_step(y1, denom);
    let ghost short = w - denom * y;
    proof {
        let f = w - denom * y1;
        assert(f * f <= 0x10_0000_0000_0000_0000_0000_0000_0000) by (nonlinear_arith)
            requires
                0 <= f <= 0x400_0000_0000_0000,
        ;
        assert(short <= denom + 2);
        assert(numer_hi * y <= 0xFFFF_FFFF_FFFF_FFFF * 0xFFFF_FFFF_FFFF_FFFF) by (nonlinear_arith)
            requires
                0 <= numer_hi <= 0xFFFF_FFFF_FFFF_FFFF,
                0 <= y <= 0xFFFF_FFFF_FFFF_FFFF,
        ;
    }
    let scaled: u128 = (numer_hi as u128) * (y as u128);
    let q_approx: u128 = scaled >> 51u32;
    let numer: u128 = (numer_hi as u128) * 0x1_0000_0000_0000_0000;
    proof {
        bits::lemma_shr128(scaled, 51);
        lemma2_to64_rest();
        lemma_estimate(
            numer_hi as int,
            denom as int,
            y as int,
            q_approx as int,
            scaled as int % 0x8_0000_0000_0000,
        );
    }
    let mut rem: u128 = numer - q_approx * (denom as u128);
    let mut q: u128 = q_approx;
    let mut left: u32 = 14;
    proof {
        lemma2_to64();
        assert(denom * pow2(14) == denom * 0x4000);
    }
    while left > 0
        invariant
            left <= 14,
            0x10_0000_0000_0000 <= denom < 0x20_0000_0000_0000,
            q * denom + rem == numer,
            numer == numer_hi * 0x1_0000_0000_0000_0000,
            rem < denom * pow2(left as nat),
        decreases left,
    {
        left = left - 1;
        proof {
            lemma_pow2_unfold((left + 1) as nat);
            lemma2_to64();
            if left < 14 {
                lemma_pow2_strictly_increases(left as nat, 14);
            }
            lemma_pow2_pos(left as nat);
            let s = pow2(left as nat) as int;
            assert(denom * pow2((left + 1) as nat) == 2 * (denom * s)) by (nonlinear_arith)
                requires
                    pow2((left + 1) as nat) == 2 * s,
            ;
            assert(0 < denom * s <= 0x20_0000_0000_0000 * 0x4000) by (nonlinear_arith)
                requires
                    0 < s <= 0x4000,
                    0 < denom < 0x20_0000_0000_0000,
            ;
            assert(1 * s == s);
            bits::lemma_shl128(denom as u128, left);
            bits::lemma_shl128(1u128, left);
            assert((q + s) * denom == q * denom + denom * s) by (nonlinear_arith);
            assert(q <= q * denom) by (nonlinear_arith)
                requires
                    q >= 0,
                    denom >= 1,
            ;
            assert(rem >= denom * s ==> q + s <= numer) by (nonlinear_arith)
                requires
                    q * denom + rem == numer,
                    q <= q * denom,
                    denom >= 1,
                    s > 0,
            ;
        }
        let shifted: u128 = (denom as u128) << left;
        if rem >= shifted {
            rem = rem - shifted;
            q = q + (1u128 << left);
        }
    }
    proof {
        lemma2_to64();
        assert(denom * pow2(0) == denom);
    }
    (q, rem as u64)
}

/// The seed's error.
proof fn lemma_seed(denom: int, top: int, recip: int)
    requires
        0x10_0000_0000_0000 <= denom < 0x20_0000_0000_0000,
        top == denom / 0x20_0000,
        0 <= recip < 0x1_0000_0000,
        0 < 0x8000_0000_0000_0000 - recip * top < 2 * top + 0x200_0000,
    ensures
        -0x10_0000_0000_0000_0000_0000 <= 0x8_0000_0000_0000_0000_0000_0000_0000 - denom * (recip
            * 0x8000_0000) <= 0x40_0000_0000_0000_0000_0000,
{
    let low = denom % 0x20_0000;
    assert(denom * (recip * 0x8000_0000) == (recip * top) * 0x10_0000_0000_0000 + (recip * low)
        * 0x8000_0000) by (nonlinear_arith)
        requires
            denom == top * 0x20_0000 + low,
    ;
    assert(0 <= recip * low <= 0x1_0000_0000 * 0x20_0000) by (nonlinear_arith)
        requires
            0 <= recip < 0x1_0000_0000,
            0 <= low < 0x20_0000,
    ;
}

/// A reciprocal from below gives a quotient from below, short by little.
proof fn lemma_estimate(n: int, d: int, y: int, q: int, low: int)
    requires
        0 <= n <= 0xFFFF_FFFF_FFFF_FFFF,
        0x10_0000_0000_0000 <= d < 0x20_0000_0000_0000,
        0 <= 0x8_0000_0000_0000_0000_0000_0000_0000 - d * y <= d + 2,
        n * y == q * 0x8_0000_0000_0000 + low,
        0 <= low < 0x8_0000_0000_0000,
    ensures
        0 <= n * 0x1_0000_0000_0000_0000 - q * d < d * 0x4000,
{
    let short = 0x8_0000_0000_0000_0000_0000_0000_0000 - d * y;
    let rem = n * 0x1_0000_0000_0000_0000 - q * d;
    assert(rem * 0x8_0000_0000_0000 == n * short + d * low) by (nonlinear_arith)
        requires
            rem == n * 0x1_0000_0000_0000_0000 - q * d,
            short == 0x8_0000_0000_0000_0000_0000_0000_0000 - d * y,
            n * y == q * 0x8_0000_0000_0000 + low,
    ;
    assert(0 <= n * short <= 0x1_0000_0000_0000_0000 * (d + 2)) by (nonlinear_arith)
        requires
            0 <= n <= 0xFFFF_FFFF_FFFF_FFFF,
            0 <= short <= d + 2,
    ;
    assert(0 <= d * low <= d * 0x8_0000_0000_0000) by (nonlinear_arith)
        requires
            0 <= low < 0x8_0000_0000_0000,
            d > 0,
    ;
}

/// The word `m` stands to `t` half units as `n / d`, scaled by `2^(53 - adj)`, does to `t`.
pub open spec fn tells(n: int, d: int, adj: int, m: int, t: int) -> bool {
    let l = n * pow2((53 - adj) as nat);
    &&& (l < t * d) == (m < t * pow2(63))
    &&& (l > t * d) == (m > t * pow2(63))
}

/// A word that stands as the ratio of the mantissas does stands for the quotient.
pub proof fn lemma_quotient_stage(
    a: u64,
    ua: Unpacked,
    b: u64,
    ub: Unpacked,
    adj: int,
    m: int,
)
    requires
        ua.of(a),
        ub.of(b),
        ieee::is_finite_nonzero(a),
        ieee::is_finite_nonzero(b),
        -1 <= adj <= 0,
        forall|t: int|
            t >= 0 ==> #[trigger] tells(ua.mantissa as int, ub.mantissa as int, adj, m, t),
    ensures
        ieee::quotient(a, b).valid(),
        staging::stands_for(ieee::quotient(a, b), m, ua.exp - ub.exp + adj + 958),
{
    let va = ieee::abs(model::value(a));
    let vb = ieee::abs(model::value(b));
    let x = ieee::quotient(a, b);
    let exp = ua.exp - ub.exp + adj;
    let g = pow2(1190) as int;
    let n = ua.mantissa * pow2((53 - adj) as nat);
    encoding::lemma_class_value(a);
    encoding::lemma_class_value(b);
    assert(va * pow2(1074) >= 0) by (nonlinear_arith)
        requires
            va >= 0,
    ;
    // Both sides of each comparison, times 2^52, have the common factors h and c.
    let h = pow2(63) as int;
    let c = pow2((ua.exp + 3222 + adj) as nat) as int;
    lemma_pow2_pos((ua.exp + 3222 + adj) as nat);
    lemma_pow2_pos(52);
    lemma_pow2_pos(63);
    lemma_pow2_adds(1074, 1190);
    lemma_pow2_adds((ua.exp + 1074) as nat, 2264);
    lemma_pow2_adds((53 - adj) as nat, 63);
    lemma_pow2_adds((116 - adj) as nat, (ua.exp + 3222 + adj) as nat);
    lemma_pow2_adds((exp + 2148) as nat, (ub.exp + 1074) as nat);
    let l = va * pow2(1074) * g;
    assert(l * pow2(52) == n * h * c) by (nonlinear_arith)
        requires
            l == va * pow2(1074) * g,
            va * pow2(52) == ua.mantissa * pow2((ua.exp + 1074) as nat),
            n == ua.mantissa * pow2((53 - adj) as nat),
            pow2((ua.exp + 1074) as nat) * (pow2(1074) * g) == pow2((53 - adj) as nat) * h * c,
    ;
    assert forall|t: int| t >= 0 implies #[trigger] staging::agrees_at(
        x,
        m,
        exp + 958,
        t,
    ) by {
        let p = t * pow2(63) * pow2((exp + 2148) as nat);
        let r = p * vb;
        assert(r * pow2(52) == (t * ub.mantissa) * h * c) by (nonlinear_arith)
            requires
                r == t * h * pow2((exp + 2148) as nat) * vb,
                vb * pow2(52) == ub.mantissa * pow2((ub.exp + 1074) as nat),
                pow2((exp + 2148) as nat) * pow2((ub.exp + 1074) as nat) == c,
        ;
        lemma_scaled_order(l, r, n, t * ub.mantissa, pow2(52) as int, h, c);
        assert(tells(ua.mantissa as int, ub.mantissa as int, adj, m, t));
    }
}

/// A quotient with its remainder folded in stands as the ratio does.
proof fn lemma_quotient_tells(n: int, d: int, adj: int, q: int, rem: int, m: int)
    requires
        -1 <= adj <= 0,
        m == q * pow2((41 - adj) as nat) + if rem != 0 {
            1int
        } else {
            0
        },
        q >= 0,
        0 <= rem < d,
        q * d + rem == n * pow2(75),
    ensures
        forall|t: int| t >= 0 ==> #[trigger] tells(n, d, adj, m, t),
{
    let k = pow2((41 - adj) as nat) as int;
    let e = pow2((22 + adj) as nat) as int;
    let l = n * pow2((53 - adj) as nat);
    lemma_pow2_strictly_increases(0, (41 - adj) as nat);
    lemma2_to64();
    lemma_pow2_pos((22 + adj) as nat);
    lemma_pow2_adds((22 + adj) as nat, (41 - adj) as nat);
    lemma_pow2_adds((22 + adj) as nat, (53 - adj) as nat);
    assert forall|t: int| t >= 0 implies #[trigger] tells(n, d, adj, m, t) by {
        let x = t * e;
        assert(t * pow2(63) == x * k) by (nonlinear_arith)
            requires
                x == t * e,
                e * k == pow2(63),
        ;
        assert(l * e == q * d + rem && (t * d) * e == x * d) by (nonlinear_arith)
            requires
                l == n * pow2((53 - adj) as nat),
                e * pow2((53 - adj) as nat) == pow2(75),
                q * d + rem == n * pow2(75),
                x == t * e,
        ;
        assert((l * e < (t * d) * e) == (l < t * d) && (l * e > (t * d) * e) == (l > t * d))
            by (nonlinear_arith)
            requires
                e > 0,
        ;
        lemma_quotient_order(q, rem, d, x);
        assert((m < x * k) == (q < x) && (m > x * k) == (q > x || (q == x && rem != 0)))
            by (nonlinear_arith)
            requires
                m == q * k + (if rem != 0 {
                    1int
                } else {
                    0
                }),
                k > 1,
        ;
    }
}

/// A common positive factor does not change an order.
proof fn lemma_scaled_order(l: int, r: int, x: int, y: int, f: int, k: int, c: int)
    requires
        l * f == x * k * c,
        r * f == y * k * c,
        f > 0,
        k > 0,
        c > 0,
    ensures
        (l < r) == (x < y),
        (l > r) == (x > y),
{
    let e = k * c;
    assert(e > 0) by (nonlinear_arith)
        requires
            e == k * c,
            k > 0,
            c > 0,
    ;
    assert(x * k * c == x * e && y * k * c == y * e) by (nonlinear_arith)
        requires
            e == k * c,
    ;
    assert((l * f < r * f) == (l < r) && (l * f > r * f) == (l > r)) by (nonlinear_arith)
        requires
            f > 0,
    ;
    assert((x * e < y * e) == (x < y) && (x * e > y * e) == (x > y)) by (nonlinear_arith)
        requires
            e > 0,
    ;
}

/// A dividend stands to a multiple of the divisor as its quotient tells.
proof fn lemma_quotient_order(q: int, rem: int, b: int, d: int)
    requires
        0 <= rem < b,
    ensures
        (q * b + rem < d * b) == (q < d),
        (q * b + rem > d * b) == (q > d || (q == d && rem != 0)),
{
    assert(q < d ==> q * b + b <= d * b) by (nonlinear_arith)
        requires
            b > 0,
    ;
    assert(q > d ==> q * b >= d * b + b) by (nonlinear_arith)
        requires
            b > 0,
    ;
    assert(q == d ==> q * b == d * b);
}

/// The quotient of two finite non-zero numbers.
pub fn div_nonzero(
    a: u64,
    ua: Unpacked,
    b: u64,
    ub: Unpacked,
    mode: RoundingMode,
    flush: bool,
) -> (r: u64)
    requires
        ua.of(a),
        ub.of(b),
        ieee::is_finite_nonzero(a),
        ieee::is_finite_nonzero(b),
    ensures
        ieee::delivers(
            flush,
            ieee::quotient(a, b),
            mode,
            model::negative(a) != model::negative(b),
            r,
        ),
{
    let sign: u64 = if ua.sign == ub.sign {
        0
    } else {
        1
    };
    proof {
        encoding::lemma_class_value(a);
        encoding::lemma_class_value(b);
        bits::lemma_pow2_values();
        lemma_pow2_adds(64, 11);
    }
    let numer_hi: u64 = ua.mantissa * 0x800;
    let (quotient, remainder) = u128_div_u64_newton(numer_hi, ub.mantissa);
    proof {
        assert(quotient * ub.mantissa + remainder == ua.mantissa * pow2(75));
        assert(0x400_0000_0000_0000_0000 <= quotient < 0x1000_0000_0000_0000_0000)
            by (nonlinear_arith)
            requires
                quotient * ub.mantissa + remainder == ua.mantissa * 0x800_0000_0000_0000_0000,
                0 <= remainder < ub.mantissa,
                0x10_0000_0000_0000 <= ua.mantissa < 0x20_0000_0000_0000,
                0x10_0000_0000_0000 <= ub.mantissa < 0x20_0000_0000_0000,
        ;
        lemma2_to64();
        lemma2_to64_rest();
    }
    // The top bit of the quotient is bit 75, or bit 74 where `b` has the larger mantissa.
    let (staged, adj): (u128, i32) = if quotient >= 0x800_0000_0000_0000_0000 {
        proof {
            bits::lemma_shl128(quotient, 41);
        }
        (quotient << 41u32, 0)
    } else {
        proof {
            bits::lemma_shl128(quotient, 42);
        }
        (quotient << 42u32, -1)
    };
    let m_128: u128 = if remainder != 0 {
        staged + 1
    } else {
        staged
    };
    let exp: i32 = ua.exp - ub.exp + adj;
    let r = encoding::round_and_pack(m_128, sign, exp, mode, flush);
    proof {
        lemma_quotient_tells(
            ua.mantissa as int,
            ub.mantissa as int,
            adj as int,
            quotient as int,
            remainder as int,
            m_128 as int,
        );
        lemma_quotient_stage(a, ua, b, ub, adj as int, m_128 as int);
        encoding::lemma_delivers(
            ieee::quotient(a, b),
            m_128 as int,
            exp as int,
            mode,
            sign == 1,
            flush,
            r,
        );
    }
    r
}

/// `a / b`. Zero by zero and infinity by infinity give the canonical NaN, any
/// other finite number by zero an infinity.
#[must_use]
pub fn fdiv(a: u64, b: u64, mode: RoundingMode) -> (r: u64)
    ensures
        ieee::is_quotient(false, a, b, mode, r),
{
    div_with(a, b, mode, false)
}

/// `a / b`, with a choice for results below the normal range.
pub fn div_with(a: u64, b: u64, mode: RoundingMode, flush: bool) -> (r: u64)
    ensures
        ieee::is_quotient(flush, a, b, mode, r),
{
    let ua = encoding::unpack(a);
    let ub = encoding::unpack(b);
    let sign: u64 = if ua.sign == ub.sign {
        0
    } else {
        1
    };
    proof {
        encoding::lemma_class_value(a);
        encoding::lemma_class_value(b);
    }
    match (ua.class, ub.class) {
        (IeeeClass::NaN, _) | (_, IeeeClass::NaN) => CANONICAL_QNAN,
        (IeeeClass::Inf, IeeeClass::Inf) | (IeeeClass::Zero, IeeeClass::Zero) => CANONICAL_QNAN,
        (IeeeClass::Inf, _) => encoding::signed_inf(sign),
        (_, IeeeClass::Inf) => encoding::signed_zero(sign),
        (_, IeeeClass::Zero) => encoding::signed_inf(sign),
        (IeeeClass::Zero, _) => encoding::signed_zero(sign),
        _ => div_nonzero(a, ua, b, ub, mode, flush),
    }
}

} // verus!
