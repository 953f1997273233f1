//! Division in two digits of 32 bits from one reciprocal, with a correction only
//! where the estimate lies too close to a rounding boundary to decide.
use crate::bits;
use crate::ieee;
use crate::model::IeeeClass;
use crate::model;
use crate::softfloat_ref::div;
use crate::softfloat_ref::encoding;
use crate::softfloat_ref::recip;
use crate::RoundingMode;
use vstd::arithmetic::power2::*;
use vstd::prelude::*;

verus! {

/// The error of a reciprocal of the upper half, two units lowered, as a
/// reciprocal of the whole: positive, and little more than four units.
proof fn lemma_recip_error(b: int, h: int, low: int, r: int)
    requires
        b == h * 0x1_0000_0000 + low,
        0 <= low < 0x1_0000_0000,
        0x8000_0000 <= h < 0x1_0000_0000,
        0 < 0x8000_0000_0000_0000 - r * h < 2 * h + 0x200_0000,
        0 <= r < 0x1_0000_0000,
    ensures
        r >= 2,
        0 < 64 * (0x8000_0000_0000_0000_0000_0000 - b * (r - 2)) <= 257 * b,
{
    assert(r >= 2) by (nonlinear_arith)
        requires
            0x8000_0000_0000_0000 - r * h < 2 * h + 0x200_0000,
            0x8000_0000 <= h < 0x1_0000_0000,
    ;
    assert(b * (r - 2) == 0x1_0000_0000 * (r * h) - 0x2_0000_0000 * h + low * (r - 2))
        by (nonlinear_arith)
        requires
            b == h * 0x1_0000_0000 + low,
    ;
    assert(0 <= low * (r - 2) < 0x1_0000_0000_0000_0000) by (nonlinear_arith)
        requires
            0 <= low < 0x1_0000_0000,
            0 <= r - 2 < 0x1_0000_0000,
    ;
}

/// One digit of 32 bits: the estimate `z` of `2^31 * x / b` is below it, and
/// the remainder has three parts.
proof fn lemma_estimate_digit(x: int, b: int, rc: int, err: int, z: int)
    requires
        x >= 0,
        err == 0x8000_0000_0000_0000_0000_0000 - b * rc,
        z == ((x / 0x1_0000_0000) * rc) / 0x1_0000_0000,
    ensures
        ({
            let hi = x / 0x1_0000_0000;
            let lo = x % 0x1_0000_0000;
            let lost = (hi * rc) % 0x1_0000_0000;
            (0x8000_0000 * x - z * b) * 0x1_0000_0000 == 0x8000_0000_0000_0000 * lo + hi * err + lost
                * b
        }),
{
    let hi = x / 0x1_0000_0000;
    let lo = x % 0x1_0000_0000;
    let lost = (hi * rc) % 0x1_0000_0000;
    assert(hi * rc == z * 0x1_0000_0000 + lost);
    assert((0x8000_0000 * x - z * b) * 0x1_0000_0000 == 0x8000_0000_0000_0000 * lo + hi * err + lost
        * b) by (nonlinear_arith)
        requires
            x == hi * 0x1_0000_0000 + lo,
            hi * rc == z * 0x1_0000_0000 + lost,
            err == 0x8000_0000_0000_0000_0000_0000 - b * rc,
    ;
}

/// Bounds of the remainder after one digit.
proof fn lemma_digit_bounds(x: int, b: int, rc: int, err: int, z: int)
    requires
        0 < x,
        0x8000_0000_0000_0000 <= b < 0x1_0000_0000_0000_0000,
        err == 0x8000_0000_0000_0000_0000_0000 - b * rc,
        0 < 64 * err <= 257 * b,
        rc >= 0,
        z == ((x / 0x1_0000_0000) * rc) / 0x1_0000_0000,
    ensures
        z >= 0,
        0 < (0x8000_0000 * x - z * b) * 0x1_0000_0000,
        // One unit for each of the two truncations, and the reciprocal's error.
        64 * ((0x8000_0000 * x - z * b) * 0x1_0000_0000) <= 64 * 0x8000_0000_0000_0000_0000_0000
            + 0x40_0000_0000 * b + 257 * ((x / 0x1_0000_0000) * b),
{
    let hi = x / 0x1_0000_0000;
    let lo = x % 0x1_0000_0000;
    let lost = (hi * rc) % 0x1_0000_0000;
    lemma_estimate_digit(x, b, rc, err, z);
    assert(hi * rc >= 0) by (nonlinear_arith)
        requires
            hi >= 0,
            rc >= 0,
    ;
    assert(0 <= hi * err && (hi > 0 ==> hi * err > 0) && 64 * (hi * err) <= 257 * (hi * b))
        by (nonlinear_arith)
        requires
            hi >= 0,
            0 < 64 * err <= 257 * b,
    ;
    assert(0 <= lost * b <= 0x1_0000_0000 * b) by (nonlinear_arith)
        requires
            0 <= lost < 0x1_0000_0000,
            b > 0,
    ;
    let g = (0x8000_0000 * x - z * b) * 0x1_0000_0000;
    let part = hi * err;
    let tail = lost * b;
    assert(g == 0x8000_0000_0000_0000 * lo + part + tail);
}

/// An estimate of the quotient `2^63 * a / b` in two digits of 32 bits.
struct Estimate {
    /// The estimate, `2^32 * first + 16 * q`.
    sig: u64,
    /// The second digit, with four units added that make the estimate high.
    q: u64,
    /// What the first digit leaves of the dividend.
    rem: u64,
}

impl Estimate {
    /// The estimate is for these operands: at most 64 above the quotient and
    /// less than 16 below it.
    spec fn of(self, a: u64, b: u64) -> bool {
        let n = 0x8000_0000_0000_0000 * a;
        &&& self.sig as int % 16 == 0
        &&& 16 * self.q <= self.sig
        &&& (self.sig - 16 * self.q) as int % 128 == 0
        &&& 0 < n - (self.sig - 64) * b
        &&& 5 * (n - (self.sig - 64) * b) < 384 * b
        &&& n == 0x8_0000_0000 * self.rem + (self.sig - 16 * self.q) * b
    }
}

/// The upper half of a divisor, and its lower half in units of 16.
fn halves(b: u64) -> (r: (u64, u64))
    requires
        b as int % 16 == 0,
    ensures
        b == r.0 * 0x1_0000_0000 + r.1 * 16,
        r.0 == b as int / 0x1_0000_0000,
        r.1 < 0x1000_0000,
{
    (b / 0x1_0000_0000, (b % 0x1_0000_0000) / 16)
}

/// The first digit and what it leaves.
proof fn lemma_first_digit(a: int, b: int, h: int, tail: int, rc: int, err: int, z: int)
    requires
        0 < a < b,
        a % 8 == 0,
        b % 8 == 0,
        0x8000_0000_0000_0000 <= b < 0x1_0000_0000_0000_0000,
        b == h * 0x1_0000_0000 + tail * 16,
        0 <= h,
        0 <= tail < 0x1000_0000,
        err == 0x8000_0000_0000_0000_0000_0000 - b * rc,
        0 < 64 * err <= 257 * b,
        rc >= 0,
        z == ((a / 0x1_0000_0000) * rc) / 0x1_0000_0000,
    ensures
        ({
            let rem = (a - 2 * z * h) * 0x1000_0000 - 2 * z * tail;
            &&& 0 <= z < 0x8000_0000
            &&& 2 * z * h <= a
            &&& 0 <= 2 * z * tail < 0x1000_0000_0000_0000
            &&& 0 < rem <= 353 * 0x80_0000_0000_0000
            &&& 8 * rem == 0x8000_0000 * a - z * b
        }),
{
    let hi = a / 0x1_0000_0000;
    lemma_digit_bounds(a, b, rc, err, z);
    assert(0 <= hi * b <= 0x1_0000_0000_0000_0000_0000_0000) by (nonlinear_arith)
        requires
            0 <= hi < 0x1_0000_0000,
            0 < b < 0x1_0000_0000_0000_0000,
    ;
    assert(z < 0x8000_0000) by (nonlinear_arith)
        requires
            0x8000_0000 * a - z * b > 0,
            0 < a < b,
    ;
    assert(z * b == 0x1_0000_0000 * (z * h) + 16 * (z * tail)) by (nonlinear_arith)
        requires
            b == h * 0x1_0000_0000 + tail * 16,
    ;
    assert(2 * z * h == 2 * (z * h) && 2 * z * tail == 2 * (z * tail)) by (nonlinear_arith);
    assert(0 <= z * tail < 0x8000_0000 * 0x1000_0000 && 0 <= z * h) by (nonlinear_arith)
        requires
            0 <= z < 0x8000_0000,
            0 <= tail < 0x1000_0000,
            0 <= h,
    ;
}

/// The second digit.
proof fn lemma_second_digit(rem: int, b: int, rc: int, err: int, q: int)
    requires
        0 < rem <= 353 * 0x80_0000_0000_0000,
        0x8000_0000_0000_0000 <= b < 0x1_0000_0000_0000_0000,
        err == 0x8000_0000_0000_0000_0000_0000 - b * rc,
        0 < 64 * err <= 257 * b,
        rc >= 0,
        q == ((rem / 0x1_0000_0000) * rc) / 0x1_0000_0000,
    ensures
        0 <= q < 0x1_0000_0000,
        0 < 0x8000_0000 * rem - q * b,
        5 * (0x8000_0000 * rem - q * b) < 24 * b,
{
    let hi = rem / 0x1_0000_0000;
    lemma_digit_bounds(rem, b, rc, err, q);
    assert(hi * b <= 0xB080_0000 * b) by (nonlinear_arith)
        requires
            hi <= 0xB080_0000,
            b > 0,
    ;
    assert(q < 0x1_0000_0000) by (nonlinear_arith)
        requires
            0x8000_0000 * rem - q * b > 0,
            rem <= 353 * 0x80_0000_0000_0000,
            b >= 0x8000_0000_0000_0000,
    ;
}

/// Estimates `2^63 * a / b`.
fn estimate(a: u64, b: u64) -> (e: Estimate)
    requires
        0x4000_0000_0000_0000 <= a < b,
        0x8000_0000_0000_0000 <= b,
        a as int % 16 == 0,
        b as int % 16 == 0,
    ensures
        e.of(a, b),
{
    let (h, tail) = halves(b);
    let r: u32 = recip::approx_recip32_1(h as u32);
    proof {
        lemma_recip_error(b as int, h as int, tail * 16, r as int);
    }
    let rc: u64 = r as u64 - 2;
    let ghost err = 0x8000_0000_0000_0000_0000_0000 - b * rc;
    assert((a / 0x1_0000_0000) * rc <= 0xFFFF_FFFF * 0xFFFF_FFFF) by (nonlinear_arith)
        requires
            (a / 0x1_0000_0000) <= 0xFFFF_FFFF,
            0 <= rc <= 0xFFFF_FFFF,
    ;
    let z: u64 = ((a / 0x1_0000_0000) * rc) / 0x1_0000_0000;
    proof {
        lemma_first_digit(
            a as int,
            b as int,
            h as int,
            tail as int,
            rc as int,
            err,
            z as int,
        );
    }
    let double_term: u64 = 2 * z;
    let rem: u64 = (a - double_term * h) * 0x1000_0000 - double_term * tail;
    assert((rem / 0x1_0000_0000) * rc <= 0xFFFF_FFFF * 0xFFFF_FFFF) by (nonlinear_arith)
        requires
            (rem / 0x1_0000_0000) <= 0xFFFF_FFFF,
            0 <= rc <= 0xFFFF_FFFF,
    ;
    let q0: u64 = ((rem / 0x1_0000_0000) * rc) / 0x1_0000_0000;
    proof {
        lemma_second_digit(rem as int, b as int, rc as int, err, q0 as int);
    }
    let q: u64 = q0 + 4;
    let sig: u64 = z * 0x1_0000_0000 + q * 16;
    proof {
        assert((sig - 64) * b == 0x1_0000_0000 * (z * b) + 16 * (q0 * b)) by (nonlinear_arith)
            requires
                sig == z * 0x1_0000_0000 + (q0 + 4) * 16,
        ;
        assert((sig - 16 * q) * b == 0x1_0000_0000 * (z * b)) by (nonlinear_arith)
            requires
                sig == z * 0x1_0000_0000 + q * 16,
        ;
    }
    Estimate { sig, q, rem }
}

/// `s` stands to multiples of 512 as the quotient `2^63 * a / b` does.
spec fn decides(a: u64, b: u64, s: int, t: int) -> bool {
    let n = 0x8000_0000_0000_0000 * a;
    &&& (n < t * (512 * b)) == (s < 512 * t)
    &&& (n > t * (512 * b)) == (s > 512 * t)
}

/// A quotient and its estimate fall strictly between the same multiples of 512.
proof fn lemma_between(a: u64, b: u64, s: int, c: int)
    requires
        b > 0,
        512 * c < s < 512 * c + 512,
        c * (512 * b) < 0x8000_0000_0000_0000 * a < (c + 1) * (512 * b),
    ensures
        forall|t: int| #[trigger] decides(a, b, s, t),
{
    let u = 512 * b;
    assert forall|t: int| #[trigger] decides(a, b, s, t) by {
        assert(t <= c ==> t * u <= c * u) by (nonlinear_arith)
            requires
                u > 0,
        ;
        assert(t >= c + 1 ==> t * u >= (c + 1) * u) by (nonlinear_arith)
            requires
                u > 0,
        ;
    }
}

/// A quotient that is a multiple of 512.
proof fn lemma_on(a: u64, b: u64, c: int)
    requires
        b > 0,
        0x8000_0000_0000_0000 * a == c * (512 * b),
    ensures
        forall|t: int| #[trigger] decides(a, b, 512 * c, t),
{
    let u = 512 * b;
    assert forall|t: int| #[trigger] decides(a, b, 512 * c, t) by {
        assert((t < c ==> t * u < c * u) && (t > c ==> t * u > c * u)) by (nonlinear_arith)
            requires
                u > 0,
        ;
    }
}

/// The quotient `2^63 * a / b` to the bits that rounding needs.
///
/// Next to a multiple of 512 the estimate does not decide on which side the
/// quotient lies; there the exact remainder does.
fn quotient_bits(a: u64, b: u64) -> (s: u64)
    requires
        0x4000_0000_0000_0000 <= a < b,
        0x8000_0000_0000_0000 <= b,
        a as int % 16 == 0,
        b as int % 16 == 0,
        2 * a >= b,
    ensures
        0x4000_0000_0000_0000 <= s < 0x8000_0000_0000_0000,
        forall|t: int| #[trigger] decides(a, b, s as int, t),
{
    let e = estimate(a, b);
    let low: u64 = e.sig % 512;
    if low >= 64 {
        proof {
            lemma_uncorrected(a, b, e);
        }
        return e.sig;
    }
    let (h, tail) = halves(b);
    let q_corr: u64 = e.q - e.q % 8;
    let sig: u64 = e.sig - e.sig % 128;
    proof {
        assert(0 <= q_corr * h <= 0x1000_0000_0000_0000 * 0x1_0000_0000 && 0 <= q_corr * tail
            <= 0x1000_0000_0000_0000 * 0x1000_0000) by (nonlinear_arith)
            requires
                0 <= q_corr <= 0x1000_0000_0000_0000,
                0 <= h <= 0x1_0000_0000,
                0 <= tail <= 0x1000_0000,
        ;
    }
    let q_h: i128 = (q_corr as i128) * (h as i128);
    let q_t: i128 = (q_corr as i128) * (tail as i128);
    let rem: i128 = (e.rem as i128 - 2 * q_h) * 0x1000_0000 - 2 * q_t;
    proof {
        assert(q_corr * b == 0x1_0000_0000 * q_h + 16 * q_t) by (nonlinear_arith)
            requires
                b == h * 0x1_0000_0000 + tail * 16,
                q_h == q_corr * h,
                q_t == q_corr * tail,
        ;
        let exact = if rem < 0 {
            sig - 128
        } else if rem != 0 {
            sig + 1
        } else {
            sig as int
        };
        lemma_corrected(a, b, e, q_corr as int, sig as int, rem as int, exact);
    }
    if rem < 0 {
        sig - 128
    } else if rem != 0 {
        sig + 1
    } else {
        sig
    }
}

/// Away from the multiples of 512 the estimate decides.
proof fn lemma_uncorrected(a: u64, b: u64, e: Estimate)
    requires
        e.of(a, b),
        0 < a < b <= 2 * a,
        e.sig as int % 512 >= 64,
    ensures
        0x4000_0000_0000_0000 <= e.sig < 0x8000_0000_0000_0000,
        forall|t: int| #[trigger] decides(a, b, e.sig as int, t),
{
    let low = e.sig as int % 512;
    let c = e.sig as int / 512;
    assert((e.sig - 64) * b == c * (512 * b) + (low - 64) * b) by (nonlinear_arith)
        requires
            e.sig == 512 * c + low,
    ;
    assert(0 <= (low - 64) * b <= 432 * b) by (nonlinear_arith)
        requires
            64 <= low <= 496,
            b > 0,
    ;
    assert((c + 1) * (512 * b) == c * (512 * b) + 512 * b) by (nonlinear_arith);
    lemma_between(a, b, e.sig as int, c);
    lemma_range(a, b, e.sig as int);
}

/// Cutting the digits off next to a multiple of 512.
proof fn lemma_cut(sig: int, q: int)
    requires
        sig % 16 == 0,
        (sig - 16 * q) % 128 == 0,
        sig % 512 < 64,
    ensures
        sig % 128 == sig % 512,
        16 * (q % 8) == sig % 512,
        (sig - sig % 128) == 512 * (sig / 512),
{
    let d = (sig - 16 * q) / 128;
    let c = sig / 512;
    let p = q / 8;
    assert(sig == 512 * c + sig % 512);
    assert(16 * (q % 8) == sig % 512 + 128 * (4 * c - d - p));
    assert(sig % 128 == sig % 512);
}

/// Next to a multiple of 512 the sign of the exact remainder decides.
proof fn lemma_corrected(a: u64, b: u64, e: Estimate, q_corr: int, sig: int, rem: int, s: int)
    requires
        s == if rem < 0 {
            sig - 128
        } else if rem != 0 {
            sig + 1
        } else {
            sig
        },
        e.of(a, b),
        0 < a < b <= 2 * a,
        e.sig as int % 512 < 64,
        q_corr == e.q - e.q as int % 8,
        sig == e.sig - e.sig as int % 128,
        16 * rem == 0x1_0000_0000 * e.rem - 2 * (q_corr * b),
    ensures
        0x4000_0000_0000_0000 <= s < 0x8000_0000_0000_0000,
        forall|t: int| #[trigger] decides(a, b, s, t),
{
    let low = e.sig as int % 512;
    let c = e.sig as int / 512;
    let n = 0x8000_0000_0000_0000 * a;
    lemma_cut(e.sig as int, e.q as int);
    assert((e.sig - 16 * e.q) * b == sig * b - 16 * (q_corr * b)) by (nonlinear_arith)
        requires
            e.sig - 16 * e.q == sig - 16 * q_corr,
    ;
    assert(n == sig * b + 128 * rem);
    assert(sig * b == c * (512 * b)) by (nonlinear_arith)
        requires
            sig == 512 * c,
    ;
    assert((e.sig - 64) * b == sig * b + (low - 64) * b) by (nonlinear_arith)
        requires
            e.sig == sig + low,
    ;
    assert(-64 * b <= (low - 64) * b <= 0) by (nonlinear_arith)
        requires
            0 <= low < 64,
            b > 0,
    ;
    assert((c + 1) * (512 * b) == c * (512 * b) + 512 * b && (c - 1) * (512 * b) == c * (512 * b)
        - 512 * b) by (nonlinear_arith);
    if rem > 0 {
        lemma_between(a, b, sig + 1, c);
        lemma_range(a, b, sig + 1);
    } else if rem == 0 {
        lemma_on(a, b, c);
        lemma_range(a, b, sig);
    } else {
        lemma_between(a, b, sig - 128, c - 1);
        lemma_range(a, b, sig - 128);
    }
}

/// A quotient between a half and one has its top bit at bit 62.
proof fn lemma_range(a: u64, b: u64, s: int)
    requires
        0 < a < b <= 2 * a,
        forall|t: int| #[trigger] decides(a, b, s, t),
    ensures
        0x4000_0000_0000_0000 <= s < 0x8000_0000_0000_0000,
{
    assert(decides(a, b, s, 0x20_0000_0000_0000));
    assert(decides(a, b, s, 0x40_0000_0000_0000));
}

/// The bits of the quotient, staged, stand as the ratio of the mantissas does.
proof fn lemma_bits_tell(ma: int, mb: int, a: u64, b: u64, adj: int, s: int)
    requires
        -1 <= adj <= 0,
        ma >= 0,
        mb > 0,
        a == ma * (if adj == 0 {
            0x400int
        } else {
            0x800
        }),
        b == mb * 0x800,
        forall|t: int| #[trigger] decides(a, b, s, t),
    ensures
        forall|t: int|
            t >= 0 ==> #[trigger] div::tells(ma, mb, adj, s * 0x40_0000_0000_0000, t),
{
    let l = ma * pow2((53 - adj) as nat);
    bits::lemma_pow2_values();
    lemma_pow2_unfold(54);
    assert(0x8000_0000_0000_0000 * a == 0x10_0000 * l) by {
        if adj == 0 {
            assert(l == ma * 0x20_0000_0000_0000);
        } else {
            assert(l == ma * 0x40_0000_0000_0000);
        }
    }
    assert forall|t: int| t >= 0 implies #[trigger] div::tells(
        ma,
        mb,
        adj,
        s * 0x40_0000_0000_0000,
        t,
    ) by {
        assert(decides(a, b, s, t));
        assert(t * (512 * b) == 0x10_0000 * (t * mb)) by (nonlinear_arith)
            requires
                b == mb * 0x800,
        ;
        assert(t * pow2(63) == (512 * t) * 0x40_0000_0000_0000);
    }
}

/// `a / b` for finite numbers other than zero. A zero `a` gives a zero, whatever
/// `b` is.
#[must_use]
pub fn fdiv_berkeley(a: u64, b: u64, mode: RoundingMode) -> (r: u64)
    requires
        ieee::is_zero(a) || (ieee::is_finite_nonzero(a) && ieee::is_finite_nonzero(b)),
    ensures
        ({
            let neg = model::negative(a) != model::negative(b);
            if ieee::is_zero(a) {
                r == ieee::zero(neg)
            } else {
                ieee::delivers(false, ieee::quotient(a, b), mode, neg, r)
            }
        }),
{
    let ua = encoding::unpack(a);
    let ub = encoding::unpack(b);
    let sign: u64 = if ua.sign == ub.sign {
        0
    } else {
        1
    };
    if matches!(ua.class, IeeeClass::Zero) {
        return encoding::signed_zero(sign);
    }
    proof {
        encoding::lemma_class_value(a);
        encoding::lemma_class_value(b);
    }
    // The operands scaled so that their ratio is between a half and one.
    let (sig_a, adj): (u64, i32) = if ua.mantissa < ub.mantissa {
        (ua.mantissa * 0x800, -1)
    } else {
        (ua.mantissa * 0x400, 0)
    };
    let sig_b: u64 = ub.mantissa * 0x800;
    let sig_z: u64 = quotient_bits(sig_a, sig_b);
    let m_128: u128 = (sig_z as u128) * 0x40_0000_0000_0000;
    let exp: i32 = ua.exp - ub.exp + adj;
    proof {
        bits::lemma_pow2_values();
        lemma_bits_tell(
            ua.mantissa as int,
            ub.mantissa as int,
            sig_a,
            sig_b,
            adj as int,
            sig_z as int,
        );
        div::lemma_quotient_stage(a, ua, b, ub, adj as int, m_128 as int);
    }
    let r = encoding::round_and_pack(m_128, sign, exp, mode, false);
    proof {
        encoding::lemma_delivers(
            ieee::quotient(a, b),
            m_128 as int,
            exp as int,
            mode,
            sign == 1,
            false,
            r,
        );
    }
    r
}

} // verus!
