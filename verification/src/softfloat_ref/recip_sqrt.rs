//! A 32-bit reciprocal square root: a straight line on each eighth of two
//! binades, then a cubic correction by its own error.
use vstd::prelude::*;

verus! {

/// On `[base, base + 2^28)` the line from `k0` with slope `-k1 / 2^20`, read at
/// multiples of `2^12`, has a square that stays below `2^63 / (c * a)` and within
/// three parts in `2^10` of it.
///
/// The product of the square and the point is a cubic in the position. The mean
/// of its three factors bounds it from above; where it opens downward, its ends
/// bound it from below.
pub open spec fn fits_sqrt(k0: int, k1: int, base: int, c: int) -> bool {
    let sum = 0x1_0000_0000 * (k0 + 1) + k1 * (base + 0x1000);
    let first = k0 * 0x10_0000;
    let last = first - k1 * 0xFFFF;
    &&& 0 < k0 <= 0xFFFF
    &&& 0 < k1 <= 0xFFFF
    &&& last >= 0
    &&& c * (sum * sum * sum) < 27 * (0x2000_0000_0000_0000_0000_0000_0000_0000 * k1)
    &&& c * (first * first * base) >= 0x7F_A000_0000_0000_0000_0000_0000
    &&& c * (last * last * (base + 0xFFF_F000)) >= 0x7F_A000_0000_0000_0000_0000_0000
    &&& k1 * k1 * base + 0x1FFF_E000 * (k1 * k1) <= 0x2000 * (first * k1)
}

/// The line for the eighth with the given index, by the parity of the exponent.
fn sqrt_line(index: u32) -> (k: (u64, u64))
    requires
        index < 16,
    ensures
        fits_sqrt(
            k.0 as int,
            k.1 as int,
            0x8000_0000 + (index as int / 2) * 0x1000_0000,
            2 - index as int % 2,
        ),
{
    proof {
        assert(fits_sqrt(0xB4C9, 0xA5A5, 0x8000_0000, 2)) by (nonlinear_arith);
        assert(fits_sqrt(0xFFAB, 0xEA42, 0x8000_0000, 1)) by (nonlinear_arith);
        assert(fits_sqrt(0xAA7D, 0x8C21, 0x9000_0000, 2)) by (nonlinear_arith);
        assert(fits_sqrt(0xF11C, 0xC62D, 0x9000_0000, 1)) by (nonlinear_arith);
        assert(fits_sqrt(0xA1C5, 0x788F, 0xA000_0000, 2)) by (nonlinear_arith);
        assert(fits_sqrt(0xE4C7, 0xAA7F, 0xA000_0000, 1)) by (nonlinear_arith);
        assert(fits_sqrt(0x9A43, 0x6928, 0xB000_0000, 2)) by (nonlinear_arith);
        assert(fits_sqrt(0xDA29, 0x94B6, 0xB000_0000, 1)) by (nonlinear_arith);
        assert(fits_sqrt(0x93B5, 0x5CC7, 0xC000_0000, 2)) by (nonlinear_arith);
        assert(fits_sqrt(0xD0E5, 0x8335, 0xC000_0000, 1)) by (nonlinear_arith);
        assert(fits_sqrt(0x8DED, 0x52A6, 0xD000_0000, 2)) by (nonlinear_arith);
        assert(fits_sqrt(0xC8B7, 0x74E2, 0xD000_0000, 1)) by (nonlinear_arith);
        assert(fits_sqrt(0x88C6, 0x4A3E, 0xE000_0000, 2)) by (nonlinear_arith);
        assert(fits_sqrt(0xC16D, 0x68FE, 0xE000_0000, 1)) by (nonlinear_arith);
        assert(fits_sqrt(0x8424, 0x432B, 0xF000_0000, 2)) by (nonlinear_arith);
        assert(fits_sqrt(0xBAE1, 0x5EFD, 0xF000_0000, 1)) by (nonlinear_arith);
    }
    match index {
        0 => (0xB4C9, 0xA5A5),
        1 => (0xFFAB, 0xEA42),
        2 => (0xAA7D, 0x8C21),
        3 => (0xF11C, 0xC62D),
        4 => (0xA1C5, 0x788F),
        5 => (0xE4C7, 0xAA7F),
        6 => (0x9A43, 0x6928),
        7 => (0xDA29, 0x94B6),
        8 => (0x93B5, 0x5CC7),
        9 => (0xD0E5, 0x8335),
        10 => (0x8DED, 0x52A6),
        11 => (0xC8B7, 0x74E2),
        12 => (0x88C6, 0x4A3E),
        13 => (0xC16D, 0x68FE),
        14 => (0x8424, 0x432B),
        _ => (0xBAE1, 0x5EFD),
    }
}

/// The mean of three factors, two of them equal, bounds their product.
proof fn lemma_mean(x: int, y: int)
    requires
        x >= 0,
        y >= 0,
    ensures
        27 * (x * x * y) <= (2 * x + y) * (2 * x + y) * (2 * x + y),
{
    let d = y - x;
    assert((2 * x + y) * (2 * x + y) * (2 * x + y) - 27 * (x * x * y) == d * d * (8 * x + y))
        by (nonlinear_arith)
        requires
            d == y - x,
    ;
    assert(d * d * (8 * x + y) >= 0) by (nonlinear_arith)
        requires
            x >= 0,
            y >= 0,
    ;
}

/// The cubic `(u - k * e)^2 * (b + 2^12 * e)` by powers of `e`.
proof fn lemma_cubic(u: int, k: int, b: int, e: int)
    ensures
        (u - k * e) * (u - k * e) * (b + 0x1000 * e) == u * u * b + (0x1000 * (u * u) - 2 * (u * k
            * b)) * e + (k * k * b - 0x2000 * (u * k)) * (e * e) + 0x1000 * (k * k) * (e * e * e),
{
    let p = u - k * e;
    assert(p * p == u * u - 2 * (u * k) * e + (k * k) * (e * e)) by (nonlinear_arith)
        requires
            p == u - k * e,
    ;
    let uu = u * u;
    let uk = u * k;
    let kk = k * k;
    let ee = e * e;
    let pp = uu - 2 * (uk * e) + kk * ee;
    assert(2 * uk * e == 2 * (uk * e)) by (nonlinear_arith);
    assert(pp * (b + 0x1000 * e) == pp * b + 0x1000 * (pp * e)) by (nonlinear_arith);
    assert(pp * b == uu * b - 2 * (uk * b) * e + (kk * b) * ee) by (nonlinear_arith)
        requires
            pp == uu - 2 * (uk * e) + kk * ee,
    ;
    assert(pp * e == uu * e - 2 * (uk * ee) + kk * (ee * e)) by (nonlinear_arith)
        requires
            pp == uu - 2 * (uk * e) + kk * ee,
            ee == e * e,
    ;
    assert((0x1000 * uu - 2 * (uk * b)) * e == 0x1000 * (uu * e) - 2 * (uk * b) * e)
        by (nonlinear_arith);
    assert((kk * b - 0x2000 * uk) * ee == (kk * b) * ee - 0x2000 * (uk * ee)) by (nonlinear_arith);
    assert(0x1000 * kk * (ee * e) == 0x1000 * (kk * (ee * e))) by (nonlinear_arith);
}

/// A cubic that opens downward on `[0, n]` is at least the lesser of its ends.
proof fn lemma_ends(c0: int, c1: int, c2: int, c3: int, n: int, e: int, bound: int)
    requires
        0 <= e <= n,
        n > 0,
        c3 >= 0,
        c2 + c3 * (2 * n) <= 0,
        c0 >= bound,
        c0 + c1 * n + c2 * (n * n) + c3 * (n * n * n) >= bound,
    ensures
        c0 + c1 * e + c2 * (e * e) + c3 * (e * e * e) >= bound,
{
    let f = c0 + c1 * e + c2 * (e * e) + c3 * (e * e * e);
    let g = c0 + c1 * n + c2 * (n * n) + c3 * (n * n * n);
    let w = c2 + c3 * (e + n);
    let h = n * (e * (n - e));
    assert(n * f == (n - e) * c0 + e * g - h * w) by {
        assert(n * f == n * c0 + n * (c1 * e) + n * (c2 * (e * e)) + n * (c3 * (e * e * e)))
            by (nonlinear_arith)
            requires
                f == c0 + c1 * e + c2 * (e * e) + c3 * (e * e * e),
        ;
        assert(e * g == e * c0 + e * (c1 * n) + e * (c2 * (n * n)) + e * (c3 * (n * n * n)))
            by (nonlinear_arith)
            requires
                g == c0 + c1 * n + c2 * (n * n) + c3 * (n * n * n),
        ;
        assert(h * w == h * c2 + h * (c3 * (e + n))) by (nonlinear_arith)
            requires
                w == c2 + c3 * (e + n),
        ;
        assert(n * (c1 * e) == e * (c1 * n)) by (nonlinear_arith);
        assert(n * (c2 * (e * e)) == e * (c2 * (n * n)) - h * c2) by (nonlinear_arith)
            requires
                h == n * (e * (n - e)),
        ;
        assert(n * (c3 * (e * e * e)) == e * (c3 * (n * n * n)) - h * (c3 * (e + n)))
            by (nonlinear_arith)
            requires
                h == n * (e * (n - e)),
        ;
        assert((n - e) * c0 == n * c0 - e * c0) by (nonlinear_arith);
    }
    assert(w <= 0) by (nonlinear_arith)
        requires
            w == c2 + c3 * (e + n),
            c2 + c3 * (2 * n) <= 0,
            c3 >= 0,
            e <= n,
    ;
    assert(h >= 0) by (nonlinear_arith)
        requires
            h == n * (e * (n - e)),
            0 <= e <= n,
    ;
    assert(h * w <= 0) by (nonlinear_arith)
        requires
            h >= 0,
            w <= 0,
    ;
    assert((n - e) * c0 + e * g >= n * bound) by (nonlinear_arith)
        requires
            0 <= e <= n,
            c0 >= bound,
            g >= bound,
    ;
    assert(f >= bound) by (nonlinear_arith)
        requires
            n * f >= n * bound,
            n > 0,
    ;
}

/// The square of the line, times the point, is just short of `2^63 / c`.
proof fn lemma_sqrt_line(k0: int, k1: int, base: int, c: int, e: int, low: int, r0: int)
    requires
        fits_sqrt(k0, k1, base, c),
        0x8000_0000 <= base < 0x1_0000_0000,
        1 <= c <= 2,
        0 <= e <= 0xFFFF,
        0 <= low < 0x1000,
        r0 == k0 - (k1 * e) / 0x10_0000,
    ensures
        0 <= r0 <= k0,
        0x7FA0_0000_0000_0000 <= c * (r0 * r0 * (base + 0x1000 * e + low)) < 0x8000_0000_0000_0000,
{
    let u = k0 * 0x10_0000;
    let s = u - k1 * e;
    let x = base + 0x1000 * e;
    let p = r0 * 0x10_0000;
    assert(0 <= k1 * e <= k1 * 0xFFFF) by (nonlinear_arith)
        requires
            0 <= e <= 0xFFFF,
            0 < k1,
    ;
    assert(0 <= s <= p < s + 0x10_0000);
    let top = s + 0x10_0000;
    let y = x + 0x1000;
    // Above.
    let sum = 0x1_0000_0000 * (k0 + 1) + k1 * (base + 0x1000);
    let f = 0x800 * top;
    let g = k1 * y;
    assert(2 * f + g == sum) by (nonlinear_arith)
        requires
            f == 0x800 * (k0 * 0x10_0000 - k1 * e + 0x10_0000),
            g == k1 * (base + 0x1000 * e + 0x1000),
            sum == 0x1_0000_0000 * (k0 + 1) + k1 * (base + 0x1000),
    ;
    assert(g >= 0) by (nonlinear_arith)
        requires
            g == k1 * y,
            k1 > 0,
            y >= 0,
    ;
    lemma_mean(f, g);
    let up = top * top * y;
    assert(f * f * g == 0x40_0000 * (k1 * up)) by (nonlinear_arith)
        requires
            f == 0x800 * top,
            g == k1 * y,
            up == top * top * y,
    ;
    let q = k1 * up;
    assert(c * (27 * (0x40_0000 * q)) < 27 * (0x2000_0000_0000_0000_0000_0000_0000_0000 * k1)) by (nonlinear_arith)
        requires
            27 * (0x40_0000 * q) <= sum * sum * sum,
            c * (sum * sum * sum) < 27 * (0x2000_0000_0000_0000_0000_0000_0000_0000 * k1),
            c >= 1,
    ;
    assert(c * up < 0x80_0000_0000_0000_0000_0000_0000) by (nonlinear_arith)
        requires
            c * (27 * (0x40_0000 * q)) < 27 * (0x2000_0000_0000_0000_0000_0000_0000_0000 * k1),
            q == k1 * up,
            k1 > 0,
    ;
    let at = p * p * (x + low);
    assert(at <= up) by (nonlinear_arith)
        requires
            at == p * p * (x + low),
            up == top * top * y,
            0 <= p <= top,
            0 <= x,
            y == x + 0x1000,
            0 <= low < 0x1000,
    ;
    assert(c * at <= c * up) by (nonlinear_arith)
        requires
            at <= up,
            c >= 1,
    ;
    // Below.
    let c0 = u * u * base;
    let c1 = 0x1000 * (u * u) - 2 * (u * k1 * base);
    let c2 = k1 * k1 * base - 0x2000 * (u * k1);
    let c3 = 0x1000 * (k1 * k1);
    let n = 0xFFFFint;
    lemma_cubic(u, k1, base, e);
    lemma_cubic(u, k1, base, n);
    assert(c3 >= 0) by (nonlinear_arith)
        requires
            c3 == 0x1000 * (k1 * k1),
    ;
    let least = if c == 1 {
        0x7F_A000_0000_0000_0000_0000_0000int
    } else {
        0x3F_D000_0000_0000_0000_0000_0000
    };
    let end = (u - k1 * n) * (u - k1 * n) * (base + 0x1000 * n);
    assert(c * c0 >= 0x7F_A000_0000_0000_0000_0000_0000 && c * end >= 0x7F_A000_0000_0000_0000_0000_0000);
    assert(c0 >= least && end >= least) by (nonlinear_arith)
        requires
            c * c0 >= 0x7F_A000_0000_0000_0000_0000_0000,
            c * end >= 0x7F_A000_0000_0000_0000_0000_0000,
            c == 1 ==> least == 0x7F_A000_0000_0000_0000_0000_0000,
            c == 2 ==> least == 0x3F_D000_0000_0000_0000_0000_0000,
            1 <= c <= 2,
    ;
    lemma_ends(c0, c1, c2, c3, n, e, least);
    assert(at >= s * s * x) by (nonlinear_arith)
        requires
            at == p * p * (x + low),
            0 <= s <= p,
            0 <= x,
            0 <= low,
    ;
    assert(c * at == 0x100_0000_0000 * (c * (r0 * r0 * (x + low)))) by (nonlinear_arith)
        requires
            at == p * p * (x + low),
            p == r0 * 0x10_0000,
    ;
    assert(c * at >= 0x7F_A000_0000_0000_0000_0000_0000) by (nonlinear_arith)
        requires
            at >= least,
            c == 1 ==> least == 0x7F_A000_0000_0000_0000_0000_0000,
            c == 2 ==> least == 0x3F_D000_0000_0000_0000_0000_0000,
            1 <= c <= 2,
    ;
}

/// How far the square of the cubic `1 + x/2 + 3/8 x^2 + 5/16 x^3`, `x = s / w`,
/// stays below `1 / (1 - x)`.
proof fn lemma_series(w: int, s: int)
    ensures
        ({
            let n = 16 * (w * w * w) + 8 * (w * w) * s + 6 * w * (s * s) + 5 * (s * s * s);
            let k = 140 * (w * w * w) + 56 * (w * w) * s + 35 * w * (s * s) + 25 * (s * s * s);
            (w - s) * (n * n) == 256 * (w * w * w * (w * w * w) * w) - (s * s) * (s * s) * k
        }),
{
    let w2 = w * w;
    let w3 = w2 * w;
    let s2 = s * s;
    let s3 = s2 * s;
    let a = 16 * w3;
    let b = 8 * (w2 * s);
    let c = 6 * (w * s2);
    let d = 5 * s3;
    let n = a + b + c + d;
    assert(16 * (w * w * w) + 8 * (w * w) * s + 6 * w * (s * s) + 5 * (s * s * s) == n)
        by (nonlinear_arith)
        requires
            n == 16 * (w * w * w) + 8 * (w * w * s) + 6 * (w * (s * s)) + 5 * (s * s * s),
    ;
    let k = 140 * w3 + 56 * (w2 * s) + 35 * (w * s2) + 25 * s3;
    assert(140 * (w * w * w) + 56 * (w * w) * s + 35 * w * (s * s) + 25 * (s * s * s) == k)
        by (nonlinear_arith)
        requires
            k == 140 * (w * w * w) + 56 * (w * w * s) + 35 * (w * (s * s)) + 25 * (s * s * s),
    ;
    let m = 16 * (w3 * w) - 8 * (w3 * s) - 2 * (w2 * s2) - w * s3 - 5 * (s3 * s);
    assert((w - s) * n == m) by {
        assert((w - s) * n == w * a + w * b + w * c + w * d - s * a - s * b - s * c - s * d)
            by (nonlinear_arith)
            requires
                n == a + b + c + d,
        ;
        assert(w * a == 16 * (w3 * w) && s * a == 16 * (w3 * s)) by (nonlinear_arith)
            requires
                a == 16 * w3,
        ;
        assert(w * b == 8 * (w3 * s) && s * b == 8 * (w2 * s2)) by (nonlinear_arith)
            requires
                b == 8 * (w2 * s),
                w3 == w2 * w,
                s2 == s * s,
        ;
        assert(w * c == 6 * (w2 * s2) && s * c == 6 * (w * s3)) by (nonlinear_arith)
            requires
                c == 6 * (w * s2),
                w2 == w * w,
                s3 == s2 * s,
        ;
        assert(w * d == 5 * (w * s3) && s * d == 5 * (s3 * s)) by (nonlinear_arith)
            requires
                d == 5 * s3,
        ;
    }
    // The products of m with the terms of n, by monomials of degree seven.
    let m7 = w3 * w3 * w;
    let m6 = w3 * w3 * s;
    let m5 = w3 * w2 * s2;
    let m4 = w3 * w * s3;
    let m3 = w3 * (s3 * s);
    let m2 = w2 * (s3 * s2);
    let m1 = w * (s3 * s3);
    let m0 = s3 * s3 * s;
    lemma_times(w3, w3 * w, w3 * s, w2 * s2, w * s3, s3 * s, m);
    assert(w3 * m == 16 * m7 - 8 * m6 - 2 * m5 - m4 - 5 * m3) by {
        assert(w3 * (w3 * w) == m7 && w3 * (w3 * s) == m6 && w3 * (w2 * s2) == m5 && w3 * (w * s3)
            == m4) by (nonlinear_arith)
            requires
                m7 == w3 * w3 * w,
                m6 == w3 * w3 * s,
                m5 == w3 * w2 * s2,
                m4 == w3 * w * s3,
        ;
    }
    lemma_times(w2 * s, w3 * w, w3 * s, w2 * s2, w * s3, s3 * s, m);
    assert((w2 * s) * m == 16 * m6 - 8 * m5 - 2 * m4 - m3 - 5 * m2) by {
        assert((w2 * s) * (w3 * w) == m6 && (w2 * s) * (w3 * s) == m5) by (nonlinear_arith)
            requires
                m6 == w3 * w3 * s,
                m5 == w3 * w2 * s2,
                w3 == w2 * w,
                s2 == s * s,
        ;
        assert((w2 * s) * (w2 * s2) == m4 && (w2 * s) * (w * s3) == m3 && (w2 * s) * (s3 * s) == m2)
            by (nonlinear_arith)
            requires
                m4 == w3 * w * s3,
                m3 == w3 * (s3 * s),
                m2 == w2 * (s3 * s2),
                w3 == w2 * w,
                w2 == w * w,
                s3 == s2 * s,
                s2 == s * s,
        ;
    }
    lemma_times(w * s2, w3 * w, w3 * s, w2 * s2, w * s3, s3 * s, m);
    assert((w * s2) * m == 16 * m5 - 8 * m4 - 2 * m3 - m2 - 5 * m1) by {
        assert((w * s2) * (w3 * w) == m5 && (w * s2) * (w3 * s) == m4) by (nonlinear_arith)
            requires
                m5 == w3 * w2 * s2,
                m4 == w3 * w * s3,
                w2 == w * w,
                s3 == s2 * s,
        ;
        assert((w * s2) * (w2 * s2) == m3 && (w * s2) * (w * s3) == m2 && (w * s2) * (s3 * s) == m1)
            by (nonlinear_arith)
            requires
                m3 == w3 * (s3 * s),
                m2 == w2 * (s3 * s2),
                m1 == w * (s3 * s3),
                w3 == w2 * w,
                w2 == w * w,
                s3 == s2 * s,
                s2 == s * s,
        ;
    }
    lemma_times(s3, w3 * w, w3 * s, w2 * s2, w * s3, s3 * s, m);
    assert(s3 * m == 16 * m4 - 8 * m3 - 2 * m2 - m1 - 5 * m0) by {
        assert(s3 * (w3 * w) == m4 && s3 * (w3 * s) == m3 && s3 * (w2 * s2) == m2 && s3 * (w * s3)
            == m1 && s3 * (s3 * s) == m0) by (nonlinear_arith)
            requires
                m4 == w3 * w * s3,
                m3 == w3 * (s3 * s),
                m2 == w2 * (s3 * s2),
                m1 == w * (s3 * s3),
                m0 == s3 * s3 * s,
        ;
    }
    assert((w - s) * (n * n) == 16 * (w3 * m) + 8 * ((w2 * s) * m) + 6 * ((w * s2) * m) + 5 * (s3
        * m)) by (nonlinear_arith)
        requires
            (w - s) * n == m,
            n == 16 * w3 + 8 * (w2 * s) + 6 * (w * s2) + 5 * s3,
    ;
    assert((w - s) * (n * n) == 256 * m7 - 140 * m3 - 56 * m2 - 35 * m1 - 25 * m0);
    assert((s2 * s2) * k == 140 * m3 + 56 * m2 + 35 * m1 + 25 * m0) by {
        let s4 = s2 * s2;
        assert(s4 * k == 140 * (s4 * w3) + 56 * (s4 * (w2 * s)) + 35 * (s4 * (w * s2)) + 25 * (s4
            * s3)) by (nonlinear_arith)
            requires
                k == 140 * w3 + 56 * (w2 * s) + 35 * (w * s2) + 25 * s3,
        ;
        assert(s4 * w3 == m3 && s4 * (w2 * s) == m2 && s4 * (w * s2) == m1 && s4 * s3 == m0)
            by (nonlinear_arith)
            requires
                s4 == s2 * s2,
                s3 == s2 * s,
                s2 == s * s,
                m3 == w3 * (s3 * s),
                m2 == w2 * (s3 * s2),
                m1 == w * (s3 * s3),
                m0 == s3 * s3 * s,
        ;
    }
}

/// A factor distributed over the five terms of `m`.
proof fn lemma_times(f: int, a: int, b: int, c: int, d: int, e: int, m: int)
    requires
        m == 16 * a - 8 * b - 2 * c - d - 5 * e,
    ensures
        f * m == 16 * (f * a) - 8 * (f * b) - 2 * (f * c) - f * d - 5 * (f * e),
{
    assert(f * m == 16 * (f * a) - 8 * (f * b) - 2 * (f * c) - f * d - 5 * (f * e))
        by (nonlinear_arith)
        requires
            m == 16 * a - 8 * b - 2 * c - d - 5 * e,
    ;
}

/// The cubic, with `w = 2^40`.
spec fn series(s: int) -> int {
    0x1000_0000_0000_0000_0000_0000_0000_0000 + 0x8_0000_0000_0000_0000_0000 * s + 0x600_0000_0000 * (s * s) + 5 * (s * s * s)
}

/// The refined value is the cubic in the line's error, less what the
/// truncations take: little more than two units.
proof fn lemma_truncations(r0: int, sigma: int, r1: int, sqr: int, t: int, r2: int)
    requires
        0 <= r0 <= 0xFFFF,
        0 <= sigma < 0xC000_0000,
        r1 == r0 * 0x1_0000 + (r0 * sigma) / 0x200_0000,
        sqr == (sigma * sigma) / 0x1_0000_0000,
        t == r1 / 2 + r1 / 8 - r0 * 0x4000,
        r2 == r1 + (t * sqr) / 0x1_0000_0000_0000,
    ensures
        0 <= r1 < 0x2_0000_0000,
        0 <= sqr < 0xC000_0000,
        0 <= t < 0x8000_0000,
        0x1000_0000_0000_0000_0000_0000_0000 * r2 <= r0 * series(sigma),
        64 * (r0 * series(sigma) - 0x1000_0000_0000_0000_0000_0000_0000 * r2) <= 129 * 0x1000_0000_0000_0000_0000_0000_0000,
{
    let a1 = r0 * sigma;
    let s2 = sigma * sigma;
    assert(0 <= a1 <= 0xFFFF * 0xC000_0000 && 0 <= s2 <= 0xC000_0000 * 0xC000_0000)
        by (nonlinear_arith)
        requires
            a1 == r0 * sigma,
            s2 == sigma * sigma,
            0 <= r0 <= 0xFFFF,
            0 <= sigma <= 0xC000_0000,
    ;
    let lost1 = a1 % 0x200_0000;
    let lost2 = (t * sqr) % 0x1_0000_0000_0000;
    let lost3 = s2 % 0x1_0000_0000;
    let eps = 5 * lost1 + 0x200_0000 * (4 * (r1 % 2) + r1 % 8);
    let b = 0x600_0000_0000 * r0 + 5 * a1;
    let scaled = 0x1000_0000 * t;
    assert(scaled == b - eps);
    assert(0 <= eps <= 0x2000_0000);
    assert(t >= 0);
    let f2 = (t * sqr) / 0x1_0000_0000_0000;
    assert(t * sqr >= 0) by (nonlinear_arith)
        requires
            t >= 0,
            sqr >= 0,
    ;
    assert(t * sqr == f2 * 0x1_0000_0000_0000 + lost2);
    let d = 0x1_0000_0000 * sqr;
    assert(scaled * d == 0x1000_0000_0000_0000 * (t * sqr)) by (nonlinear_arith)
        requires
            scaled == 0x1000_0000 * t,
            d == 0x1_0000_0000 * sqr,
    ;
    assert(scaled * d == b * s2 - eps * s2 - scaled * lost3) by (nonlinear_arith)
        requires
            scaled == b - eps,
            d == s2 - lost3,
    ;
    assert(b * s2 == 0x600_0000_0000 * (r0 * s2) + 5 * (a1 * s2)) by (nonlinear_arith)
        requires
            b == 0x600_0000_0000 * r0 + 5 * a1,
    ;
    let n = series(sigma);
    let s3 = sigma * sigma * sigma;
    assert(r0 * n == 0x1000_0000_0000_0000_0000_0000_0000_0000 * r0 + 0x8_0000_0000_0000_0000_0000 * a1 + 0x600_0000_0000 * (r0 * s2) + 5 * (r0 * s3))
        by (nonlinear_arith)
        requires
            n == 0x1000_0000_0000_0000_0000_0000_0000_0000 + 0x8_0000_0000_0000_0000_0000 * sigma + 0x600_0000_0000 * s2 + 5 * s3,
            a1 == r0 * sigma,
    ;
    assert(r0 * s3 == a1 * s2) by (nonlinear_arith)
        requires
            s3 == sigma * sigma * sigma,
            a1 == r0 * sigma,
            s2 == sigma * sigma,
    ;
    let gone = 0x8_0000_0000_0000_0000_0000 * lost1 + eps * s2 + scaled * lost3 + 0x1000_0000_0000_0000 * lost2;
    assert(0x1000_0000_0000_0000_0000_0000_0000 * r2 == r0 * n - gone);
    assert(0 <= eps * s2 <= 0x2000_0000 * (0xC000_0000 * 0xC000_0000)) by (nonlinear_arith)
        requires
            0 <= eps <= 0x2000_0000,
            0 <= s2 <= 0xC000_0000 * 0xC000_0000,
    ;
    assert(0 <= scaled * lost3 <= 0x800_0000_0000_0000 * 0x1_0000_0000) by (nonlinear_arith)
        requires
            0 <= scaled <= 0x800_0000_0000_0000,
            0 <= lost3 < 0x1_0000_0000,
    ;
}

/// The square of the refined value against `2^95 / a`.
proof fn lemma_square(a: int, r0: int, sigma: int, r: int)
    requires
        0x8000_0000 <= a < 0x2_0000_0000,
        0 <= r0 <= 0xFFFF,
        0 <= sigma < 0xC000_0000,
        r >= 0,
        0x80_0000 * (0x100_0000_0000 - sigma - 1) <= a * (r0 * r0) < 0x80_0000 * (0x100_0000_0000 - sigma),
        0x1000_0000_0000_0000_0000_0000_0000 * r <= r0 * series(sigma),
        64 * (r0 * series(sigma) - 0x1000_0000_0000_0000_0000_0000_0000 * r) <= 129 * 0x1000_0000_0000_0000_0000_0000_0000,
    ensures
        a * (r * r) < 0x8000_0000_0000_0000_0000_0000,
        a * ((64 * r + 129) * (64 * r + 129)) >= 0x7FF_FFFF_FE93_0000_0000_0000_0000,
{
    let w = 0x100_0000_0000int;
    let n = series(sigma);
    let g = a * (r0 * r0);
    let n2 = n * n;
    let s2 = sigma * sigma;
    let s3 = sigma * sigma * sigma;
    assert(0 <= s2 <= 0xC000_0000 * 0xC000_0000) by (nonlinear_arith)
        requires
            s2 == sigma * sigma,
            0 <= sigma <= 0xC000_0000,
    ;
    assert(0 <= s3 <= 0xC000_0000 * 0xC000_0000 * 0xC000_0000) by (nonlinear_arith)
        requires
            s3 == s2 * sigma,
            0 <= sigma <= 0xC000_0000,
            0 <= s2 <= 0xC000_0000 * 0xC000_0000,
    ;
    // (w - sigma) * n^2 is 2^288 less a fourth-order term.
    lemma_series(w, sigma);
    let k = 140 * (w * w * w) + 56 * (w * w) * sigma + 35 * w * (sigma * sigma) + 25 * s3;
    assert(w * w == 0x1_0000_0000_0000_0000_0000 && w * w * w == 0x100_0000_0000_0000_0000_0000_0000_0000) by (nonlinear_arith)
        requires
            w == 0x100_0000_0000,
    ;
    assert(w * w * w * (w * w * w) * w == 0x100_0000_0000_0000_0000_0000_0000_0000_0000_0000_0000_0000_0000_0000_0000_0000_0000_0000) by (nonlinear_arith)
        requires
            w * w * w == 0x100_0000_0000_0000_0000_0000_0000_0000,
            w == 0x100_0000_0000,
    ;
    assert(8 * (w * w) * sigma == 0x8_0000_0000_0000_0000_0000 * sigma && 6 * w * s2 == 0x600_0000_0000 * s2 && 56 * (w
        * w) * sigma == 0x38_0000_0000_0000_0000_0000 * sigma && 35 * w * s2 == 0x2300_0000_0000 * s2)
        by (nonlinear_arith)
        requires
            w == 0x100_0000_0000,
            w * w == 0x1_0000_0000_0000_0000_0000,
    ;
    assert(0 <= k <= 0x8D00_0000_0000_0000_0000_0000_0000_0000);
    let fourth = s2 * s2 * k;
    assert(0 <= s2 * s2 <= 0x5100_0000_0000_0000_0000_0000_0000_0000) by (nonlinear_arith)
        requires
            0 <= s2 <= 0xC000_0000 * 0xC000_0000,
    ;
    assert(0 <= fourth <= 0x2C9D_0000_0000_0000_0000_0000_0000_0000_0000_0000_0000_0000_0000_0000_0000_0000) by (nonlinear_arith)
        requires
            fourth == s2 * s2 * k,
            0 <= s2 * s2 <= 0x5100_0000_0000_0000_0000_0000_0000_0000,
            0 <= k <= 0x8D00_0000_0000_0000_0000_0000_0000_0000,
    ;
    assert((w - sigma) * n2 == 0x1_0000_0000_0000_0000_0000_0000_0000_0000_0000_0000_0000_0000_0000_0000_0000_0000_0000_0000 - fourth);
    assert(1 <= n <= 0x1008_0000_0000_0000_0000_0000_0000_0000);
    assert(1 <= n2 <= 0x103_0000_0000_0000_0000_0000_0000_0000_0000_0000_0000_0000_0000_0000_0000_0000) by (nonlinear_arith)
        requires
            n2 == n * n,
            1 <= n <= 0x1008_0000_0000_0000_0000_0000_0000_0000,
    ;
    let q = r0 * n;
    assert(a * (q * q) == g * n2) by (nonlinear_arith)
        requires
            q == r0 * n,
            g == a * (r0 * r0),
            n2 == n * n,
    ;
    // Above.
    let scaled = 0x1000_0000_0000_0000_0000_0000_0000 * r;
    assert(a * (scaled * scaled) <= a * (q * q)) by (nonlinear_arith)
        requires
            0 <= scaled <= q,
            a >= 0,
    ;
    assert(a * (scaled * scaled) == 0x100_0000_0000_0000_0000_0000_0000_0000_0000_0000_0000_0000_0000_0000 * (a * (r * r))) by (nonlinear_arith)
        requires
            scaled == 0x1000_0000_0000_0000_0000_0000_0000 * r,
    ;
    assert(g * n2 < 0x80_0000 * ((w - sigma) * n2)) by (nonlinear_arith)
        requires
            g < 0x80_0000 * (w - sigma),
            n2 > 0,
    ;
    // Below.
    let lifted = 64 * r + 129;
    let top = 0x1000_0000_0000_0000_0000_0000_0000 * lifted;
    assert(a * (top * top) >= 4096 * (a * (q * q))) by (nonlinear_arith)
        requires
            top >= 64 * q,
            q >= 0,
            a >= 0,
    ;
    assert(a * (top * top) == 0x100_0000_0000_0000_0000_0000_0000_0000_0000_0000_0000_0000_0000_0000 * (a * (lifted * lifted))) by (nonlinear_arith)
        requires
            top == 0x1000_0000_0000_0000_0000_0000_0000 * lifted,
    ;
    assert(g * n2 >= 0x80_0000 * ((w - sigma) * n2 - n2)) by (nonlinear_arith)
        requires
            g >= 0x80_0000 * (w - sigma - 1),
            n2 >= 0,
    ;
}

/// The error of the root, from the square one unit and a little above it.
proof fn lemma_shortfall(a: int, r: int)
    requires
        0x8000_0000 <= a < 0x2_0000_0000,
        r >= 0,
        a * (r * r) < 0x8000_0000_0000_0000_0000_0000,
        a * ((64 * r + 129) * (64 * r + 129)) >= 0x7FF_FFFF_FE93_0000_0000_0000_0000,
    ensures
        r < 0x1_0000_0000,
        4 * (0x8000_0000_0000_0000_0000_0000 - a * (r * r)) <= 17 * (a * r),
{
    let l = 64 * r + 129;
    let ar = a * r;
    assert(r < 0x1_0000_0000) by (nonlinear_arith)
        requires
            a * (r * r) < 0x8000_0000_0000_0000_0000_0000,
            a >= 0x8000_0000,
            r >= 0,
    ;
    assert(a * (l * l) == 4096 * (a * (r * r)) + 16512 * ar + 16641 * a) by (nonlinear_arith)
        requires
            l == 64 * r + 129,
            ar == a * r,
    ;
    let al = a * l;
    assert(al >= 0x1F_F000_0000_0000_0000) by (nonlinear_arith)
        requires
            al == a * l,
            a * (l * l) >= 0x7FF_FFFF_FE93_0000_0000_0000_0000,
            0 < l <= 0x40_0000_0081,
    ;
    assert(al == 64 * ar + 129 * a) by (nonlinear_arith)
        requires
            al == a * l,
            l == 64 * r + 129,
            ar == a * r,
    ;
}

/// `2^47.5 / sqrt(a)` for an odd exponent, `2^47 / sqrt(a)` for an even one, from
/// below, with an error of little more than two units.
pub(crate) fn approx_recip_sqrt32_1(odd_exp_a: u32, a: u32) -> (r: u32)
    requires
        odd_exp_a <= 1,
        a >= 0x8000_0000,
    ensures
        r >= 0x8000_0000,
        ({
            let b = a * (2 - odd_exp_a);
            &&& b * (r * r) < 0x8000_0000_0000_0000_0000_0000
            &&& 4 * (0x8000_0000_0000_0000_0000_0000 - b * (r * r)) <= 17 * (b * r)
        }),
{
    let index: u32 = ((a - 0x8000_0000) / 0x1000_0000) * 2 + odd_exp_a;
    let eps: u64 = ((a / 0x1000) % 0x1_0000) as u64;
    let (k0, k1) = sqrt_line(index);
    let ghost c = 2 - odd_exp_a;
    let ghost b = a * c;
    let ghost base = 0x8000_0000 + (index as int / 2) * 0x1000_0000;
    proof {
        assert(0x8000_0000 <= b < 0x2_0000_0000) by (nonlinear_arith)
            requires
                b == a * c,
                1 <= c <= 2,
                0x8000_0000 <= a < 0x1_0000_0000,
        ;
        assert(index as int / 2 == (a - 0x8000_0000) / 0x1000_0000);
        assert(a == base + 0x1000 * eps + a % 0x1000);
        assert(k1 * eps <= 0xFFFF * 0xFFFF) by (nonlinear_arith)
            requires
                0 <= k1 <= 0xFFFF,
                0 <= eps <= 0xFFFF,
        ;
        lemma_sqrt_line(
            k0 as int,
            k1 as int,
            base,
            c,
            eps as int,
            a as int % 0x1000,
            k0 - (k1 * eps) / 0x10_0000,
        );
    }
    let r0: u64 = k0 - (k1 * eps) / 0x10_0000;
    proof {
        assert(0 <= r0 * r0 <= 0xFFFF * 0xFFFF) by (nonlinear_arith)
            requires
                0 <= r0 <= 0xFFFF,
        ;
        assert(c * (r0 * r0 * a) == b * (r0 * r0)) by (nonlinear_arith)
            requires
                b == a * c,
        ;
        assert((r0 * r0 * c) * a == b * (r0 * r0)) by (nonlinear_arith)
            requires
                b == a * c,
        ;
    }
    let e_sqr_r0: u64 = if odd_exp_a == 0 {
        2 * (r0 * r0)
    } else {
        r0 * r0
    };
    assert(e_sqr_r0 * a == b * (r0 * r0)) by {
        if odd_exp_a == 0 {
            assert(r0 * r0 * c == 2 * (r0 * r0)) by (nonlinear_arith)
                requires
                    c == 2,
            ;
        } else {
            assert(r0 * r0 * c == r0 * r0) by (nonlinear_arith)
                requires
                    c == 1,
            ;
        }
    }
    let sigma0: u64 = 0xFF_FFFF_FFFF - (e_sqr_r0 * (a as u64)) / 0x80_0000;
    let ghost r1 = r0 * 0x1_0000 + (r0 * sigma0) as int / 0x200_0000;
    let ghost sqr = (sigma0 * sigma0) as int / 0x1_0000_0000;
    let ghost t = r1 / 2 + r1 / 8 - r0 * 0x4000;
    proof {
        lemma_truncations(
            r0 as int,
            sigma0 as int,
            r1,
            sqr,
            t,
            r1 + (t * sqr) / 0x1_0000_0000_0000,
        );
        assert(r0 * sigma0 <= 0xFFFF * 0xC000_0000 && sigma0 * sigma0 <= 0xC000_0000 * 0xC000_0000
            && t * sqr <= 0x8000_0000 * 0xC000_0000) by (nonlinear_arith)
            requires
                0 <= r0 <= 0xFFFF,
                0 <= sigma0 < 0xC000_0000,
                0 <= t < 0x8000_0000,
                0 <= sqr < 0xC000_0000,
        ;
    }
    let r: u64 = r0 * 0x1_0000 + (r0 * sigma0) / 0x200_0000;
    let sqr_sigma0: u64 = (sigma0 * sigma0) / 0x1_0000_0000;
    let slope: u64 = r / 2 + r / 8 - r0 * 0x4000;
    let refined: u64 = r + (slope * sqr_sigma0) / 0x1_0000_0000_0000;
    proof {
        lemma_square(b, r0 as int, sigma0 as int, refined as int);
        lemma_shortfall(b, refined as int);
        if refined < 0x8000_0000 {
            let low = refined as int;
            assert(b * (low * low) <= b * (0x8000_0000 * 0x8000_0000) && b * low <= b * 0x8000_0000)
                by (nonlinear_arith)
                requires
                    0 <= low <= 0x8000_0000,
                    b >= 0,
            ;
        }
    }
    if refined < 0x8000_0000 {
        0x8000_0000
    } else {
        refined as u32
    }
}

} // verus!
