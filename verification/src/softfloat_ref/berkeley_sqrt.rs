//! Square root in two digits of 32 bits from one reciprocal square root, with a
//! correction only where the estimate lies too close to a rounding boundary to
//! decide.
use crate::bits;
use crate::ieee;
use crate::model::{Exact, IeeeClass};
use crate::model;
use crate::softfloat_ref::encoding;
use crate::softfloat_ref::recip_sqrt;
use crate::softfloat_ref::sqrt;
use crate::RoundingMode;
use vstd::arithmetic::power2::*;
use vstd::prelude::*;

verus! {

/// `r` is a reciprocal root of `b`: `2^47.5 / sqrt(b)` from below, by a little
/// more than two units.
spec fn reciprocal(b: int, r: int) -> bool {
    &&& 0x8000_0000 <= b < 0x2_0000_0000
    &&& 0x8000_0000 <= r < 0x1_0000_0000
    &&& b * (r * r) < 0x8000_0000_0000_0000_0000_0000
    &&& 4 * (0x8000_0000_0000_0000_0000_0000 - b * (r * r)) <= 17 * (b * r)
}

/// `b` holds the leading bits of `x`.
spec fn leads(b: int, x: int) -> bool {
    0x2000_0000 * b <= x < 0x2000_0000 * (b + 2)
}

/// The first digit of the root of `x`.
spec fn first_digit(b: int, r: int) -> int {
    (b * r) / 0x2_0000_0000
}

/// The first digit is below the root, and what it leaves is bounded.
proof fn lemma_first_digit(x: int, b: int, r: int)
    requires
        reciprocal(b, r),
        leads(b, x),
        x < 0x4000_0000_0000_0000,
    ensures
        ({
            let z = first_digit(b, r);
            let rem = x - z * z;
            &&& 0x3FFF_FFFE <= z < 0x8000_0000
            &&& z * r < 0x4000_0000_0000_0000
            &&& b * r < 0x2_0000_0000 * (z + 1)
            &&& 0 <= rem
            &&& 0x8_0000_0000 * rem < 0x8_0000_0000 * (2 * z + 1) + 17 * (b * (z + 1)) + 0x2_0000_0000_0000_0000
            &&& rem <= 8 * z
        }),
{
    let br = b * r;
    let z = br / 0x2_0000_0000;
    let low = br % 0x2_0000_0000;
    let rem = x - z * z;
    let w = 0x2_0000_0000int;
    let gap = 0x8000_0000_0000_0000_0000_0000 - b * (r * r);
    assert(br * r == b * (r * r)) by (nonlinear_arith)
        requires
            br == b * r,
    ;
    assert(br >= 0x7FFF_FFFC_0000_0000) by (nonlinear_arith)
        requires
            4 * (0x8000_0000_0000_0000_0000_0000 - br * r) <= 17 * br,
            0 < r < 0x1_0000_0000,
    ;
    assert(z * r < 0x4000_0000_0000_0000) by (nonlinear_arith)
        requires
            br == z * w + low,
            0 <= low,
            br * r < 0x8000_0000_0000_0000_0000_0000,
            0 < r,
            w == 0x2_0000_0000,
    ;
    assert(br * br == b * 0x8000_0000_0000_0000_0000_0000 - b * gap) by (nonlinear_arith)
        requires
            gap == 0x8000_0000_0000_0000_0000_0000 - b * (r * r),
            br == b * r,
    ;
    assert(gap * b >= 0) by (nonlinear_arith)
        requires
            gap > 0,
            b > 0,
    ;
    assert(0x4_0000_0000_0000_0000 * (z * z) <= br * br < 0x4_0000_0000_0000_0000 * (z * z) + 0x8_0000_0000_0000_0000 * z + 0x4_0000_0000_0000_0000)
        by (nonlinear_arith)
        requires
            br == z * w + low,
            0 <= low < w,
            z >= 0,
            w == 0x2_0000_0000,
    ;
    assert(b * gap == gap * b) by (nonlinear_arith);
    assert(z * z <= 0x2000_0000 * b);
    assert(z < 0x8000_0000) by (nonlinear_arith)
        requires
            z * z < 0x4000_0000_0000_0000,
            z >= 0,
    ;
    // What is left, by the digit's own truncation, the reciprocal's error and
    // the bits of x that b does not hold.
    assert(4 * (b * gap) <= 17 * (b * br)) by (nonlinear_arith)
        requires
            4 * gap <= 17 * br,
            b > 0,
    ;
    assert(b * br <= 0x2_0000_0000 * (b * (z + 1))) by (nonlinear_arith)
        requires
            br <= 0x2_0000_0000 * (z + 1),
            b > 0,
    ;
    let bz = b * (z + 1);
    assert(0x4_0000_0000_0000_0000 * rem < 0x4_0000_0000_0000_0000 * (2 * z + 1) + b * gap + 0x1_0000_0000_0000_0000_0000_0000);
    assert(0x10_0000_0000_0000_0000 * rem < 0x10_0000_0000_0000_0000 * (2 * z + 1) + 17 * (0x2_0000_0000 * bz) + 0x4_0000_0000_0000_0000_0000_0000);
    assert(bz <= 0x2_0000_0000 * (z + 1)) by (nonlinear_arith)
        requires
            bz == b * (z + 1),
            b < 0x2_0000_0000,
            z >= 0,
    ;
}

/// The second digit of the root.
spec fn second_digit(rem: int, r: int) -> int {
    ((rem / 4) * r) / 0x1_0000_0000
}

/// How far the product of digit and reciprocal is from `2^62`.
proof fn lemma_product(x: int, b: int, r: int, z: int)
    requires
        reciprocal(b, r),
        leads(b, x),
        z * r < 0x4000_0000_0000_0000,
        0 <= z < 0x8000_0000,
        0 <= x - z * z <= 8 * z,
        b * r < 0x2_0000_0000 * (z + 1),
    ensures
        ({
            let rem = x - z * z;
            let gap = 0x8000_0000_0000_0000_0000_0000 - b * (r * r);
            let short = 0x4000_0000_0000_0000 - z * r;
            &&& 0x8000_0000_0000_0000 * short > rem * (r * r) - 0x4000_0000_0000_0000_0000_0000
            &&& 0x8000_0000_0000_0000 * short <= 0x2000_0000 * gap + rem * (r * r) + 0x100_0000_0000_0000_0000
        }),
{
    let rem = x - z * z;
    let gap = 0x8000_0000_0000_0000_0000_0000 - b * (r * r);
    let short = 0x4000_0000_0000_0000 - z * r;
    let rr = r * r;
    assert(rr < 0x1_0000_0000_0000_0000) by (nonlinear_arith)
        requires
            rr == r * r,
            0 <= r < 0x1_0000_0000,
    ;
    assert((z * r) * (z * r) == x * rr - rem * rr) by (nonlinear_arith)
        requires
            rem == x - z * z,
            rr == r * r,
    ;
    assert((z * r) * (z * r) == 0x1000_0000_0000_0000_0000_0000_0000_0000 - 0x8000_0000_0000_0000 * short + short * short) by (nonlinear_arith)
        requires
            short == 0x4000_0000_0000_0000 - z * r,
    ;
    assert(0x2000_0000 * (b * rr) <= x * rr <= 0x2000_0000 * (b * rr) + 0x4000_0000 * rr)
        by (nonlinear_arith)
        requires
            0x2000_0000 * b <= x < 0x2000_0000 * (b + 2),
            rr >= 0,
    ;
    assert(short * short >= 0) by (nonlinear_arith);
    // The square of the shortfall is negligible.
    assert(z * r >= 0) by (nonlinear_arith)
        requires
            z >= 0,
            r >= 0,
    ;
    assert(short * short <= 0x4000_0000_0000_0000 * short) by (nonlinear_arith)
        requires
            0 < short <= 0x4000_0000_0000_0000,
    ;
    assert(rem * rr <= 0x2_0000_0000_0000_0000_0000_0000) by (nonlinear_arith)
        requires
            0 <= rem <= 8 * z,
            rr == r * r,
            z * r < 0x4000_0000_0000_0000,
            0 <= r < 0x1_0000_0000,
    ;
    assert(short < 0x10_0000_0000);
    assert(short * short <= 0x10_0000_0000 * short) by (nonlinear_arith)
        requires
            0 < short < 0x10_0000_0000,
    ;
}

/// The second digit is less than one unit high.
proof fn lemma_second_low(rem: int, r: int, z: int, q: int)
    requires
        0x8000_0000 <= r < 0x1_0000_0000,
        0 < z,
        0 <= rem <= 8 * z,
        z * r < 0x4000_0000_0000_0000,
        0x8000_0000_0000_0000 * (0x4000_0000_0000_0000 - z * r) > rem * (r * r) - 0x4000_0000_0000_0000_0000_0000,
        q == second_digit(rem, r),
        q >= 1,
    ensures
        (q - 1) * (0x4000_0000 * z + (q - 1)) < 0x400_0000_0000_0000 * rem,
{
    let k = q - 1;
    let d = 0x4000_0000 * z + k;
    let short = 0x4000_0000_0000_0000 - z * r;
    let rk = r * k;
    assert(0x4_0000_0000 * (k + 1) <= rem * r) by {
        let c = rem / 4;
        assert(c * r >= 0x1_0000_0000 * q);
        assert(4 * (c * r) <= rem * r) by (nonlinear_arith)
            requires
                4 * c <= rem,
                r > 0,
        ;
    }
    let v = rem * r;
    assert(0x4_0000_0000 * (k * d) <= (v - 0x4_0000_0000) * d) by (nonlinear_arith)
        requires
            0x4_0000_0000 * k <= v - 0x4_0000_0000,
            d >= 0,
    ;
    assert((v - 0x4_0000_0000) * d == 0x4000_0000 * (rem * (z * r)) + rem * rk - 0x4_0000_0000 * d)
        by (nonlinear_arith)
        requires
            v == rem * r,
            d == 0x4000_0000 * z + k,
            rk == r * k,
    ;
    assert(rem * (z * r) == 0x4000_0000_0000_0000 * rem - rem * short) by (nonlinear_arith)
        requires
            short == 0x4000_0000_0000_0000 - z * r,
    ;
    // rem * (r * k - 2^30 * short) < 2^34 * d
    let e = rk - 0x4000_0000 * short;
    assert(0x4_0000_0000 * rk <= rem * (r * r)) by (nonlinear_arith)
        requires
            0x4_0000_0000 * (k + 1) <= rem * r,
            rk == r * k,
            r > 0,
    ;
    assert(rem * (r * r) >= 0) by (nonlinear_arith)
        requires
            rem >= 0,
    ;
    assert(0x4_0000_0000 * e < 0x8000_0000_0000_0000_0000_0000);
    assert(rem * e == rem * rk - 0x4000_0000 * (rem * short)) by (nonlinear_arith)
        requires
            e == rk - 0x4000_0000 * short,
    ;
    assert(rem * e <= 0x1FFF_FFFF_FFFF_FFFF * rem) by (nonlinear_arith)
        requires
            e <= 0x1FFF_FFFF_FFFF_FFFF,
            rem >= 0,
    ;
    assert(rem > 0) by (nonlinear_arith)
        requires
            0x4_0000_0000 * (k + 1) <= rem * r,
            k >= 0,
            r > 0,
    ;
}

/// The size of what the first digit leaves, against the digit: two cases by
/// where the root lies in its binade.
proof fn lemma_left(x: int, b: int, z: int)
    requires
        leads(b, x),
        b < 0x2_0000_0000,
        0x3FFF_FFFE <= z < 0x8000_0000,
        0 <= x - z * z <= 8 * z,
        0x8_0000_0000 * (x - z * z) < 0x8_0000_0000 * (2 * z + 1) + 17 * (b * (z + 1)) + 0x2_0000_0000_0000_0000,
    ensures
        z >= 0x6000_0000 ==> 20 * (x - z * z) <= 139 * z,
        z < 0x6000_0000 ==> 5 * (x - z * z) <= 27 * z,
{
    let bz = b * (z + 1);
    if z >= 0x6000_0000 {
        assert(bz <= 0x2_0000_0000 * (z + 1)) by (nonlinear_arith)
            requires
                bz == b * (z + 1),
                b < 0x2_0000_0000,
                z >= 0,
        ;
    } else {
        assert(z * z <= 0x2400_0000_0000_0000) by (nonlinear_arith)
            requires
                0 <= z < 0x6000_0000,
        ;
        assert(b <= 0x1_2000_0018);
        assert(bz <= 0x1_2000_0018 * (z + 1)) by (nonlinear_arith)
            requires
                bz == b * (z + 1),
                b <= 0x1_2000_0018,
                z >= 0,
        ;
    }
}

/// The second digit is less than five units low.
proof fn lemma_second_high(x: int, b: int, r: int, z: int, q: int)
    requires
        reciprocal(b, r),
        0x3FFF_FFFE <= z < 0x8000_0000,
        z * r < 0x4000_0000_0000_0000,
        b * r < 0x2_0000_0000 * (z + 1),
        0 <= x - z * z <= 8 * z,
        z >= 0x6000_0000 ==> 20 * (x - z * z) <= 139 * z,
        z < 0x6000_0000 ==> 5 * (x - z * z) <= 27 * z,
        0x8000_0000_0000_0000 * (0x4000_0000_0000_0000 - z * r) <= 0x2000_0000 * (0x8000_0000_0000_0000_0000_0000 - b * (r * r)) + (x - z * z)
            * (r * r) + 0x100_0000_0000_0000_0000,
        q == second_digit(x - z * z, r),
    ensures
        0x400_0000_0000_0000 * (x - z * z) < (q + 5) * (0x4000_0000 * z + (q + 5)),
{
    let rem = x - z * z;
    let k = q + 5;
    let d = 0x4000_0000 * z + k;
    let gap = 0x8000_0000_0000_0000_0000_0000 - b * (r * r);
    let short = 0x4000_0000_0000_0000 - z * r;
    let v = 0x10_0000_0000 - 3 * r;
    let rk = r * k;
    let rr = r * r;
    let u = rem * r;
    let c = rem / 4;
    assert(c * r >= 0) by (nonlinear_arith)
        requires
            c >= 0,
            r >= 0,
    ;
    assert(0x4_0000_0000 * k > u + v) by {
        assert(c * r < 0x1_0000_0000 * (q + 1));
        assert(4 * (c * r) >= u - 3 * r) by (nonlinear_arith)
            requires
                4 * c >= rem - 3,
                u == rem * r,
                r > 0,
        ;
    }
    assert(u >= 0) by (nonlinear_arith)
        requires
            u == rem * r,
            rem >= 0,
            r >= 0,
    ;
    assert(0x4_0000_0000 * (k * d) > (u + v) * d) by (nonlinear_arith)
        requires
            0x4_0000_0000 * k > u + v,
            d > 0,
    ;
    assert((u + v) * d == 0x4000_0000 * (rem * (z * r)) + rem * rk + v * d) by (nonlinear_arith)
        requires
            u == rem * r,
            d == 0x4000_0000 * z + k,
            rk == r * k,
    ;
    assert(rem * (z * r) == 0x4000_0000_0000_0000 * rem - rem * short) by (nonlinear_arith)
        requires
            short == 0x4000_0000_0000_0000 - z * r,
    ;
    // Left to show: rem * r * k + v * d >= 2^30 * rem * short, here times 2^34.
    assert(0x4_0000_0000 * rk >= rem * rr) by (nonlinear_arith)
        requires
            0x4_0000_0000 * k >= u,
            u == rem * r,
            rk == r * k,
            rr == r * r,
            r > 0,
    ;
    assert(0x4_0000_0000 * (rem * rk) >= rem * (rem * rr)) by (nonlinear_arith)
        requires
            0x4_0000_0000 * rk >= rem * rr,
            rem >= 0,
    ;
    let most = 0x2000_0000 * gap + rem * rr + 0x100_0000_0000_0000_0000;
    assert(0x8000_0000_0000_0000 * (rem * short) <= rem * most) by (nonlinear_arith)
        requires
            0x8000_0000_0000_0000 * short <= most,
            rem >= 0,
    ;
    assert(rem * most == 0x2000_0000 * (rem * gap) + rem * (rem * rr) + 0x100_0000_0000_0000_0000 * rem)
        by (nonlinear_arith)
        requires
            most == 0x2000_0000 * gap + rem * rr + 0x100_0000_0000_0000_0000,
    ;
    assert(v * d >= 0x4_0000_0000_0000_0000 * z - 0x3000_0000_0000_0000_0000_0000) by (nonlinear_arith)
        requires
            d >= 0x4000_0000 * z,
            v == 0x10_0000_0000 - 3 * r,
            v > 0,
            z * r < 0x4000_0000_0000_0000,
            z >= 0,
    ;
    assert(4 * (rem * gap) <= 17 * (0x2_0000_0000 * (rem * (z + 1)))) by (nonlinear_arith)
        requires
            4 * gap <= 17 * (b * r),
            b * r <= 0x2_0000_0000 * (z + 1),
            rem >= 0,
    ;
    lemma_room(rem, r, z);
}

/// The size of the two error terms against what the four added units give.
proof fn lemma_room(rem: int, r: int, z: int)
    requires
        0x3FFF_FFFE <= z < 0x8000_0000,
        0 <= r,
        z * r < 0x4000_0000_0000_0000,
        0 <= rem <= 8 * z,
        z >= 0x6000_0000 ==> 20 * rem <= 139 * z,
        z < 0x6000_0000 ==> 5 * rem <= 27 * z,
    ensures
        0x10_0000_0000_0000_0000_0000_0000 * z - 0xC000_0000_0000_0000_0000_0000_0000_0000 >= rem * (rem * (r * r)) + 0x2_2000_0000_0000_0000 * (rem * (z + 1))
            + 0x200_0000_0000_0000_0000 * rem,
{
    let u = rem * r;
    let zr = z * r;
    assert(rem * (rem * (r * r)) == u * u) by (nonlinear_arith)
        requires
            u == rem * r,
    ;
    assert(0 <= u && 0 <= zr) by (nonlinear_arith)
        requires
            u == rem * r,
            zr == z * r,
            rem >= 0,
            r >= 0,
            z >= 0,
    ;
    let zz = z * (z + 1);
    if z >= 0x6000_0000 {
        assert(20 * u <= 139 * zr) by (nonlinear_arith)
            requires
                20 * rem <= 139 * z,
                u == rem * r,
                zr == z * r,
                r >= 0,
        ;
        assert(400 * (u * u) <= 0x4B7_9000_0000_0000_0000_0000_0000_0000_0000) by (nonlinear_arith)
            requires
                0 <= 20 * u <= 0x22_C000_0000_0000_0000,
        ;
        assert(20 * (rem * (z + 1)) <= 139 * zz) by (nonlinear_arith)
            requires
                20 * rem <= 139 * z,
                zz == z * (z + 1),
                z >= 0,
        ;
        // z lies between 3 * 2^29 and 2^31.
        assert(zz <= 0xE000_0000 * z - 0x3000_0000_0000_0000 + z) by (nonlinear_arith)
            requires
                0x6000_0000 <= z <= 0x8000_0000,
                zz == z * (z + 1),
        ;
    } else {
        assert(5 * u <= 27 * zr) by (nonlinear_arith)
            requires
                5 * rem <= 27 * z,
                u == rem * r,
                zr == z * r,
                r >= 0,
        ;
        assert(25 * (u * u) <= 0x2D_9000_0000_0000_0000_0000_0000_0000_0000) by (nonlinear_arith)
            requires
                0 <= 5 * u <= 0x6_C000_0000_0000_0000,
        ;
        assert(5 * (rem * (z + 1)) <= 27 * zz) by (nonlinear_arith)
            requires
                5 * rem <= 27 * z,
                zz == z * (z + 1),
                z >= 0,
        ;
        assert(zz <= 0x6000_0000 * z) by (nonlinear_arith)
            requires
                z + 1 <= 0x6000_0000,
                zz == z * (z + 1),
                z >= 0,
        ;
    }
}

/// `s` stands to multiples of 512 as `2^32` times the root of `x` does.
spec fn decides(x: int, s: int, t: int) -> bool {
    &&& (0x4000_0000_0000 * x < t * t) == (s < 512 * t)
    &&& (0x4000_0000_0000 * x > t * t) == (s > 512 * t)
}

/// The root and its estimate fall strictly between the same multiples of 512.
proof fn lemma_between(x: int, s: int, c: int)
    requires
        c >= 0,
        512 * c < s < 512 * c + 512,
        c * c < 0x4000_0000_0000 * x < (c + 1) * (c + 1),
    ensures
        forall|t: int| t >= 0 ==> #[trigger] decides(x, s, t),
{
    assert forall|t: int| t >= 0 implies #[trigger] decides(x, s, t) by {
        assert(t <= c ==> t * t <= c * c) by (nonlinear_arith)
            requires
                t >= 0,
        ;
        assert(t >= c + 1 ==> t * t >= (c + 1) * (c + 1)) by (nonlinear_arith)
            requires
                c >= 0,
        ;
    }
}

/// A root that is a multiple of 512.
proof fn lemma_on(x: int, c: int)
    requires
        c >= 0,
        0x4000_0000_0000 * x == c * c,
    ensures
        forall|t: int| t >= 0 ==> #[trigger] decides(x, 512 * c, t),
{
    assert forall|t: int| t >= 0 implies #[trigger] decides(x, 512 * c, t) by {
        assert((t < c ==> t * t < c * c) && (t > c ==> t * t > c * c)) by (nonlinear_arith)
            requires
                t >= 0,
                c >= 0,
        ;
    }
}

/// The root of a number between `2^60` and `2^62`, times `2^32`, has its top bit at bit 62.
proof fn lemma_range(x: int, s: int)
    requires
        0x1000_0000_0000_0000 <= x < 0x4000_0000_0000_0000,
        forall|t: int| t >= 0 ==> #[trigger] decides(x, s, t),
    ensures
        0x4000_0000_0000_0000 <= s < 0x8000_0000_0000_0000,
{
    assert(decides(x, s, 0x20_0000_0000_0000));
    assert(decides(x, s, 0x40_0000_0000_0000));
}

/// The estimate of `2^32` times the root of `x`: less than 40 above it, less than
/// 8 below.
spec fn near(x: int, sig: int) -> bool {
    &&& sig >= 512
    &&& sig % 8 == 0
    &&& (sig - 40) * (sig - 40) < 0x1_0000_0000_0000_0000 * x < (sig + 8) * (sig + 8)
}

/// Two digits make an estimate.
proof fn lemma_near(x: int, b: int, r: int)
    requires
        reciprocal(b, r),
        leads(b, x),
        x < 0x4000_0000_0000_0000,
    ensures
        ({
            let z = first_digit(b, r);
            let q = second_digit(x - z * z, r);
            &&& 0 <= x - z * z < 0x4_0000_0000
            &&& 0 <= z < 0x8000_0000
            &&& 0 <= q < 0x1_0000_0000
            &&& near(x, 0x1_0000_0000 * z + 32 + 8 * q)
        }),
{
    let z = first_digit(b, r);
    let rem = x - z * z;
    let q = second_digit(rem, r);
    let sig = 0x1_0000_0000 * z + 32 + 8 * q;
    lemma_first_digit(x, b, r);
    lemma_left(x, b, z);
    lemma_product(x, b, r, z);
    lemma_second_high(x, b, r, z, q);
    let c = rem / 4;
    assert(0 <= c * r < 0x1_0000_0000 * 0x1_0000_0000) by (nonlinear_arith)
        requires
            0 <= c < 0x1_0000_0000,
            0 <= r < 0x1_0000_0000,
    ;
    let k = q + 5;
    assert((sig + 8) * (sig + 8) == 0x1_0000_0000_0000_0000 * (z * z) + 64 * (k * (0x4000_0000 * z + k)))
        by (nonlinear_arith)
        requires
            sig + 8 == 0x1_0000_0000 * z + 8 * k,
    ;
    if q >= 1 {
        let j = q - 1;
        lemma_second_low(rem, r, z, q);
        assert((sig - 40) * (sig - 40) == 0x1_0000_0000_0000_0000 * (z * z) + 64 * (j * (0x4000_0000 * z + j)))
            by (nonlinear_arith)
            requires
                sig - 40 == 0x1_0000_0000 * z + 8 * j,
        ;
    } else {
        assert((sig - 40) * (sig - 40) == 0x1_0000_0000_0000_0000 * (z * z) - 0x10_0000_0000 * z + 64)
            by (nonlinear_arith)
            requires
                sig - 40 == 0x1_0000_0000 * z - 8,
        ;
    }
}

/// Away from the multiples of 512 the estimate decides.
proof fn lemma_uncorrected(x: int, sig: int)
    requires
        0x1000_0000_0000_0000 <= x < 0x4000_0000_0000_0000,
        near(x, sig),
        sig % 512 >= 34,
    ensures
        0x4000_0000_0000_0000 <= sig < 0x8000_0000_0000_0000,
        forall|t: int| t >= 0 ==> #[trigger] decides(x, sig, t),
{
    let c = sig / 512;
    lemma_bracket(x, sig, c, c + 1);
    lemma_between(x, sig, c);
    lemma_range(x, sig);
}

/// The squares of multiples of 512 on either side of the estimate.
proof fn lemma_bracket(x: int, sig: int, lo: int, hi: int)
    requires
        near(x, sig),
        0 <= 512 * lo <= sig - 40,
        sig + 8 <= 512 * hi,
    ensures
        lo * lo < 0x4000_0000_0000 * x < hi * hi,
{
    assert(0x4_0000 * (lo * lo) <= (sig - 40) * (sig - 40)) by (nonlinear_arith)
        requires
            0 <= 512 * lo <= sig - 40,
    ;
    assert(0x4_0000 * (hi * hi) >= (sig + 8) * (sig + 8)) by (nonlinear_arith)
        requires
            0 <= sig + 8 <= 512 * hi,
    ;
}

/// Next to a multiple of 512 the sign of the exact remainder decides.
proof fn lemma_corrected(x: int, sig: int, square: int, s: int)
    requires
        0x1000_0000_0000_0000 <= x < 0x4000_0000_0000_0000,
        near(x, sig),
        sig % 512 < 34,
        square == ((sig - sig % 64) / 64) * ((sig - sig % 64) / 64),
        s == sig - sig % 64 + if 0x10_0000_0000_0000 * x < square {
            -1int
        } else if 0x10_0000_0000_0000 * x != square {
            1
        } else {
            0
        },
    ensures
        0x4000_0000_0000_0000 <= s < 0x8000_0000_0000_0000,
        forall|t: int| t >= 0 ==> #[trigger] decides(x, s, t),
{
    let c = sig / 512;
    assert(sig - sig % 64 == 512 * c);
    let e = 8 * c;
    assert((sig - sig % 64) / 64 == e);
    assert(square == 64 * (c * c)) by (nonlinear_arith)
        requires
            square == e * e,
            e == 8 * c,
    ;
    if 0x10_0000_0000_0000 * x < square {
        lemma_bracket(x, sig, c - 1, c + 1);
        lemma_between(x, s, c - 1);
    } else if 0x10_0000_0000_0000 * x != square {
        lemma_bracket(x, sig, c - 1, c + 1);
        lemma_between(x, s, c);
    } else {
        lemma_on(x, c);
    }
    lemma_range(x, s);
}

/// `2^32` times the root of the mantissa, scaled by `2^8` for an odd exponent and
/// by `2^9` for an even one, to the bits that rounding needs.
fn root_bits(mantissa: u64, odd_exp_a: u32) -> (s: u64)
    requires
        0x10_0000_0000_0000 <= mantissa < 0x20_0000_0000_0000,
        odd_exp_a <= 1,
    ensures
        0x4000_0000_0000_0000 <= s < 0x8000_0000_0000_0000,
        forall|t: int|
            t >= 0 ==> #[trigger] decides(
                mantissa * (512 - 256 * odd_exp_a),
                s as int,
                t,
            ),
{
    let sig32_a: u32 = (mantissa / 0x20_0000) as u32;
    let recip: u32 = recip_sqrt::approx_recip_sqrt32_1(odd_exp_a, sig32_a);
    let r: u64 = recip as u64;
    let a: u64 = sig32_a as u64;
    let ghost b = sig32_a * (2 - odd_exp_a);
    let ghost x = mantissa * (512 - 256 * odd_exp_a);
    assert(a * r <= 0xFFFF_FFFF * 0xFFFF_FFFF) by (nonlinear_arith)
        requires
            0 <= a <= 0xFFFF_FFFF,
            0 <= r <= 0xFFFF_FFFF,
    ;
    let (sig_a, z): (u64, u64) = if odd_exp_a != 0 {
        proof {
            assert(b == a && x == 256 * mantissa) by (nonlinear_arith)
                requires
                    odd_exp_a == 1,
                    b == a * (2 - odd_exp_a),
                    x == mantissa * (512 - 256 * odd_exp_a),
            ;
        }
        (mantissa * 256, (a * r) / 0x2_0000_0000)
    } else {
        proof {
            assert(b == 2 * a && x == 512 * mantissa) by (nonlinear_arith)
                requires
                    odd_exp_a == 0,
                    b == a * (2 - odd_exp_a),
                    x == mantissa * (512 - 256 * odd_exp_a),
            ;
            assert(b * r == 2 * (a * r)) by (nonlinear_arith)
                requires
                    b == 2 * a,
            ;
        }
        (mantissa * 512, (a * r) / 0x1_0000_0000)
    };
    proof {
        assert(z == first_digit(b, r as int));
        lemma_near(x, b, r as int);
    }
    let rem: u64 = sig_a - z * z;
    assert((rem / 4) * r <= 0xFFFF_FFFF * 0xFFFF_FFFF) by (nonlinear_arith)
        requires
            0 <= rem / 4 <= 0xFFFF_FFFF,
            0 <= r <= 0xFFFF_FFFF,
    ;
    let q: u64 = ((rem / 4) * r) / 0x1_0000_0000;
    let sig_z: u64 = z * 0x1_0000_0000 + 32 + 8 * q;
    if sig_z % 512 >= 34 {
        proof {
            lemma_uncorrected(x, sig_z as int);
        }
        return sig_z;
    }
    let cut: u64 = sig_z - sig_z % 64;
    let root: u128 = (cut / 64) as u128;
    proof {
        assert(root * root <= 0x400_0000_0000_0000 * 0x400_0000_0000_0000) by (nonlinear_arith)
            requires
                0 <= root <= 0x400_0000_0000_0000,
        ;
        let square = root * root;
        let s = cut + if 0x10_0000_0000_0000 * x < square {
            -1int
        } else if 0x10_0000_0000_0000 * x != square {
            1
        } else {
            0
        };
        lemma_corrected(x, sig_z as int, square, s);
    }
    let square: u128 = root * root;
    let scaled: u128 = (sig_a as u128) * 0x10_0000_0000_0000;
    if scaled < square {
        cut - 1
    } else if scaled != square {
        cut + 1
    } else {
        cut
    }
}

/// The square root of a positive finite number or of a zero.
#[must_use]
pub fn fsqrt_berkeley(a: u64, mode: RoundingMode) -> (r: u64)
    requires
        ieee::is_zero(a) || (ieee::is_finite_nonzero(a) && !model::negative(a)),
    ensures
        ieee::is_root(a, mode, r),
{
    let ua = encoding::unpack(a);
    proof {
        encoding::lemma_class_value(a);
        bits::lemma_pow2_values();
        lemma_pow2_adds(52, 6);
        lemma2_to64();
        lemma2_to64_rest();
    }
    if matches!(ua.class, IeeeClass::Zero) {
        return a;
    }
    // The parity of the biased exponent, which is odd where the exponent is even.
    let lifted: u32 = (ua.exp + 1074) as u32;
    let odd_exp_a: u32 = 1 - lifted % 2;
    let exp_z: i32 = (lifted / 2) as i32 - 537;
    let sig_z: u64 = root_bits(ua.mantissa, odd_exp_a);
    let m_128: u128 = (sig_z as u128) * 0x40_0000_0000_0000;
    proof {
        let x = ua.mantissa * (512 - 256 * odd_exp_a);
        let ms = ua.mantissa * pow2((59 - odd_exp_a) as nat);
        assert(ms == 0x4_0000_0000_0000 * x) by {
            if odd_exp_a == 0 {
                assert(pow2((59 - odd_exp_a) as nat) == 0x800_0000_0000_0000);
                assert(ms == 0x4_0000_0000_0000 * x) by (nonlinear_arith)
                    requires
                        odd_exp_a == 0,
                        x == ua.mantissa * (512 - 256 * odd_exp_a),
                        ms == ua.mantissa * pow2((59 - odd_exp_a) as nat),
                        pow2((59 - odd_exp_a) as nat) == 0x800_0000_0000_0000,
                ;
            } else {
                assert(pow2((59 - odd_exp_a) as nat) == 0x400_0000_0000_0000);
                assert(ms == 0x4_0000_0000_0000 * x) by (nonlinear_arith)
                    requires
                        odd_exp_a == 1,
                        x == ua.mantissa * (512 - 256 * odd_exp_a),
                        ms == ua.mantissa * pow2((59 - odd_exp_a) as nat),
                        pow2((59 - odd_exp_a) as nat) == 0x400_0000_0000_0000,
                ;
            }
        }
        assert forall|t: int| t >= 0 implies #[trigger] sqrt::root_tells(
            ms,
            m_128 as int,
            t,
        ) by {
            assert(decides(x, sig_z as int, t));
            let d = 4 * t;
            assert(d * d == 16 * (t * t)) by (nonlinear_arith)
                requires
                    d == 4 * t,
            ;
        }
        sqrt::lemma_root_stage(a, ua, exp_z as int, 1 - odd_exp_a, ms, m_128 as int);
    }
    let r = encoding::round_and_pack(m_128, 0, exp_z, mode, false);
    proof {
        let root = Exact::Root { square: model::value(a) * pow2(1074) };
        encoding::lemma_delivers(root, m_128 as int, exp_z as int, mode, false, false, r);
    }
    r
}

} // verus!
