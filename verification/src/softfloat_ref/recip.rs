//! A 32-bit reciprocal: a straight line on each sixteenth of the binade, then
//! two corrections by its own error.
use vstd::prelude::*;

verus! {

/// On `[base, base + 2^27)` the line from `k0` with slope `-k1 / 2^20`, read at
/// multiples of `2^11`, stays below `2^47 / a` and within one part in `2^10` of it.
///
/// The gap to `2^47` is a parabola in the position: it has no root, and the
/// line's other bound holds at both ends.
pub open spec fn fits(k0: int, k1: int, base: int) -> bool {
    let curve = k1 * 0x800;
    let slope = (k0 + 1) * 0x8000_0000 - k1 * (base + 0x800);
    let gap = 0x8_0000_0000_0000_0000 - (k0 + 1) * 0x10_0000 * (base + 0x800);
    &&& 0 < k0 <= 0xFFFF
    &&& 0 < k1 <= 0xFFFF
    &&& k1 * 0xFFFF <= k0 * 0x10_0000
    &&& slope * slope < 4 * curve * gap
    &&& k0 * 0x10_0000 * base >= 0x7_FE00_0000_0000_0000
    &&& (k0 * 0x10_0000 - k1 * 0xFFFF) * (base + 0x7FF_F800) >= 0x7_FE00_0000_0000_0000
}

/// The line for the sixteenth with the given index.
fn recip_line(index: u32) -> (k: (u64, u64))
    requires
        index < 16,
    ensures
        fits(k.0 as int, k.1 as int, 0x8000_0000 + index * 0x800_0000),
{
    proof {
        assert(fits(0xFFC4, 0xF0F1, 0x80000000)) by (nonlinear_arith);
        assert(fits(0xF0BE, 0xD62C, 0x88000000)) by (nonlinear_arith);
        assert(fits(0xE363, 0xBFA1, 0x90000000)) by (nonlinear_arith);
        assert(fits(0xD76F, 0xAC77, 0x98000000)) by (nonlinear_arith);
        assert(fits(0xCCAD, 0x9C0A, 0xA0000000)) by (nonlinear_arith);
        assert(fits(0xC2F0, 0x8DDB, 0xA8000000)) by (nonlinear_arith);
        assert(fits(0xBA16, 0x8185, 0xB0000000)) by (nonlinear_arith);
        assert(fits(0xB201, 0x76BA, 0xB8000000)) by (nonlinear_arith);
        assert(fits(0xAA97, 0x6D3B, 0xC0000000)) by (nonlinear_arith);
        assert(fits(0xA3C6, 0x64D4, 0xC8000000)) by (nonlinear_arith);
        assert(fits(0x9D7A, 0x5D5C, 0xD0000000)) by (nonlinear_arith);
        assert(fits(0x97A6, 0x56B1, 0xD8000000)) by (nonlinear_arith);
        assert(fits(0x923C, 0x50B6, 0xE0000000)) by (nonlinear_arith);
        assert(fits(0x8D32, 0x4B55, 0xE8000000)) by (nonlinear_arith);
        assert(fits(0x887E, 0x4679, 0xF0000000)) by (nonlinear_arith);
        assert(fits(0x8417, 0x4211, 0xF8000000)) by (nonlinear_arith);
    }
    match index {
        0 => (0xFFC4, 0xF0F1),
        1 => (0xF0BE, 0xD62C),
        2 => (0xE363, 0xBFA1),
        3 => (0xD76F, 0xAC77),
        4 => (0xCCAD, 0x9C0A),
        5 => (0xC2F0, 0x8DDB),
        6 => (0xBA16, 0x8185),
        7 => (0xB201, 0x76BA),
        8 => (0xAA97, 0x6D3B),
        9 => (0xA3C6, 0x64D4),
        10 => (0x9D7A, 0x5D5C),
        11 => (0x97A6, 0x56B1),
        12 => (0x923C, 0x50B6),
        13 => (0x8D32, 0x4B55),
        14 => (0x887E, 0x4679),
        _ => (0x8417, 0x4211),
    }
}

/// The product of a point and the line at it is just short of `2^47`.
proof fn lemma_line(k0: int, k1: int, base: int, e: int, low: int, r0: int)
    requires
        fits(k0, k1, base),
        0x8000_0000 <= base < 0x1_0000_0000,
        0 <= e <= 0xFFFF,
        0 <= low < 0x800,
        r0 == k0 - (k1 * e) / 0x10_0000,
    ensures
        0 <= r0 <= k0,
        0x7FE0_0000_0000 <= r0 * (base + 0x800 * e + low) < 0x8000_0000_0000,
{
    let s = k0 * 0x10_0000 - k1 * e;
    let x = base + 0x800 * e;
    let curve = k1 * 0x800;
    assert(0 <= k1 * e <= k1 * 0xFFFF) by (nonlinear_arith)
        requires
            0 <= e <= 0xFFFF,
            0 < k1,
    ;
    let p = r0 * 0x10_0000;
    assert(s <= p < s + 0x10_0000);
    // Above: the parabola has no root.
    let slope = (k0 + 1) * 0x8000_0000 - k1 * (base + 0x800);
    let gap = 0x8_0000_0000_0000_0000 - (k0 + 1) * 0x10_0000 * (base + 0x800);
    let up = (s + 0x10_0000) * (x + 0x800);
    assert(up == 0x8_0000_0000_0000_0000 - (curve * (e * e) - slope * e + gap)) by (nonlinear_arith)
        requires
            up == (k0 * 0x10_0000 - k1 * e + 0x10_0000) * (base + 0x800 * e + 0x800),
            curve == k1 * 0x800,
            slope == (k0 + 1) * 0x8000_0000 - k1 * (base + 0x800),
            gap == 0x8_0000_0000_0000_0000 - (k0 + 1) * 0x10_0000 * (base + 0x800),
    ;
    let c = 2 * curve * e - slope;
    assert(4 * curve * (curve * (e * e) - slope * e + gap) == c * c + (4 * curve * gap - slope
        * slope)) by (nonlinear_arith)
        requires
            c == 2 * curve * e - slope,
    ;
    assert(c * c >= 0) by (nonlinear_arith);
    assert(curve * (e * e) - slope * e + gap > 0) by (nonlinear_arith)
        requires
            4 * curve * (curve * (e * e) - slope * e + gap) > 0,
            curve > 0,
    ;
    assert(p * (x + low) <= up) by (nonlinear_arith)
        requires
            up == (s + 0x10_0000) * (x + 0x800),
            0 <= s <= p < s + 0x10_0000,
            0 <= x,
            0 <= low < 0x800,
    ;
    // Below: the parabola opens downward, so its ends bound it.
    let at = s * x;
    let first = k0 * 0x10_0000 * base;
    let last = (k0 * 0x10_0000 - k1 * 0xFFFF) * (base + 0x7FF_F800);
    let u = k0 * 0x10_0000;
    let m = u * 0x800 - k1 * base;
    assert(at == first + m * e - curve * (e * e)) by (nonlinear_arith)
        requires
            at == (u - k1 * e) * (base + 0x800 * e),
            first == u * base,
            m == u * 0x800 - k1 * base,
            curve == k1 * 0x800,
    ;
    assert(last == first + 0xFFFF * m - 0xFFFE_0001 * curve) by (nonlinear_arith)
        requires
            last == (u - k1 * 0xFFFF) * (base + 0x7FF_F800),
            first == u * base,
            m == u * 0x800 - k1 * base,
            curve == k1 * 0x800,
    ;
    assert(last * e == first * e + 0xFFFF * (m * e) - 0xFFFE_0001 * (curve * e)) by (nonlinear_arith)
        requires
            last == first + 0xFFFF * m - 0xFFFE_0001 * curve,
    ;
    assert(curve * (e * (0xFFFF - e)) == 0xFFFF * (curve * e) - curve * (e * e)) by (nonlinear_arith);
    assert(first * (0xFFFF - e) == 0xFFFF * first - first * e) by (nonlinear_arith);
    assert(0xFFFF * at == first * (0xFFFF - e) + last * e + 0xFFFF * (curve * (e * (0xFFFF - e))));
    assert(first * (0xFFFF - e) + last * e >= 0xFFFF * 0x7_FE00_0000_0000_0000) by (nonlinear_arith)
        requires
            first >= 0x7_FE00_0000_0000_0000,
            last >= 0x7_FE00_0000_0000_0000,
            0 <= e <= 0xFFFF,
    ;
    assert(curve * (e * (0xFFFF - e)) >= 0) by (nonlinear_arith)
        requires
            curve > 0,
            0 <= e <= 0xFFFF,
    ;
    assert(p * (x + low) >= at) by (nonlinear_arith)
        requires
            at == s * x,
            0 <= s <= p,
            0 <= x,
            0 <= low,
    ;
    assert(p * (x + low) == 0x10_0000 * (r0 * (x + low))) by (nonlinear_arith)
        requires
            p == r0 * 0x10_0000,
    ;
}

/// The two corrections leave an error of little more than two units.
proof fn lemma_refine(a: int, r0: int, sigma: int, r1: int, sqr: int, r2: int)
    requires
        0x8000_0000 <= a < 0x1_0000_0000,
        0 <= r0 <= 0xFFFF,
        0x7FE0_0000_0000 <= r0 * a < 0x8000_0000_0000,
        sigma == 0xFF_FFFF_FFFF - (r0 * a) / 0x80,
        r1 == r0 * 0x1_0000 + (r0 * sigma) / 0x100_0000,
        sqr == (sigma * sigma) / 0x1_0000_0000,
        r2 == r1 + (r1 * sqr) / 0x1_0000_0000_0000,
    ensures
        0 <= sigma < 0x4000_0000,
        0 <= sqr < 0x1000_0000,
        0 <= r1 < 0x1_0000_0000,
        0 < 0x8000_0000_0000_0000 - r2 * a < 2 * a + 0x200_0000,
        r2 < 0x1_0000_0000,
{
    let d = 0x8000_0000_0000 - r0 * a;
    let over = d - 0x80 * sigma;
    assert(1 <= over <= 0x80);
    let lost1 = (r0 * sigma) % 0x100_0000;
    let lost2 = (r1 * sqr) % 0x1_0000_0000_0000;
    let lost3 = (sigma * sigma) % 0x1_0000_0000;
    let e1 = 0x8000_0000_0000_0000 - r1 * a;
    let e2 = 0x8000_0000_0000_0000 - r2 * a;
    assert(0 <= sigma * sigma < 0x1000_0000_0000_0000) by (nonlinear_arith)
        requires
            0 <= sigma < 0x4000_0000,
    ;
    assert(0 <= r0 * sigma) by (nonlinear_arith)
        requires
            0 <= sigma,
            0 <= r0,
    ;
    let f1 = (r0 * sigma) / 0x100_0000;
    assert(r0 * sigma == f1 * 0x100_0000 + lost1);
    assert(e1 * 0x100_0000 == 0x100_0000_0000 * over + sigma * d + lost1 * a) by (nonlinear_arith)
        requires
            e1 == 0x8000_0000_0000_0000 - (r0 * 0x1_0000 + f1) * a,
            r0 * sigma == f1 * 0x100_0000 + lost1,
            d == 0x8000_0000_0000 - r0 * a,
            over == d - 0x80 * sigma,
    ;
    assert(0 <= sigma * d < 0x8_0000_0000_0000_0000) by (nonlinear_arith)
        requires
            0 <= sigma < 0x4000_0000,
            0 < d <= 0x20_0000_0000,
    ;
    assert(0 <= lost1 * a < 0x100_0000 * a) by (nonlinear_arith)
        requires
            0 <= lost1 < 0x100_0000,
            a > 0,
    ;
    assert(0 < e1 < 0x801_0080_0000);
    assert(r1 * a < 0x8000_0000_0000_0000);
    assert(r1 < 0x1_0000_0000) by (nonlinear_arith)
        requires
            r1 * a < 0x8000_0000_0000_0000,
            a >= 0x8000_0000,
    ;
    let f2 = (r1 * sqr) / 0x1_0000_0000_0000;
    assert(0 <= r1 * sqr) by (nonlinear_arith)
        requires
            0 <= r1,
            0 <= sqr,
    ;
    assert(r1 * sqr == f2 * 0x1_0000_0000_0000 + lost2);
    assert(e2 * 0x1_0000_0000_0000 == 0x1_0000_0000_0000 * e1 - 0x8000_0000_0000_0000 * sqr + e1
        * sqr + lost2 * a) by (nonlinear_arith)
        requires
            e2 == 0x8000_0000_0000_0000 - (r1 + f2) * a,
            r1 * sqr == f2 * 0x1_0000_0000_0000 + lost2,
            e1 == 0x8000_0000_0000_0000 - r1 * a,
    ;
    assert(sigma * d == 0x80 * (sigma * sigma) + sigma * over) by (nonlinear_arith)
        requires
            over == d - 0x80 * sigma,
    ;
    assert(e2 * 0x1_0000_0000_0000 == 0x1_0000_0000_0000_0000 * over + 0x100_0000 * (sigma * over)
        + 0x100_0000 * (lost1 * a) + 0x8000_0000 * lost3 + e1 * sqr + lost2 * a);
    assert(0 <= sigma * over <= 0x20_0000_0000) by (nonlinear_arith)
        requires
            0 <= sigma < 0x4000_0000,
            1 <= over <= 0x80,
    ;
    assert(0 <= e1 * sqr < 0x801_0080_0000 * 0x1000_0000) by (nonlinear_arith)
        requires
            0 < e1 < 0x801_0080_0000,
            0 <= sqr < 0x1000_0000,
    ;
    assert(0 <= lost2 * a < 0x1_0000_0000_0000 * a) by (nonlinear_arith)
        requires
            0 <= lost2 < 0x1_0000_0000_0000,
            a > 0,
    ;
    assert(r2 < 0x1_0000_0000) by (nonlinear_arith)
        requires
            r2 * a < 0x8000_0000_0000_0000,
            a >= 0x8000_0000,
    ;
}

/// `2^63 / a`, from below, with an error of little more than two units.
pub(crate) fn approx_recip32_1(a: u32) -> (r: u32)
    requires
        a >= 0x8000_0000,
    ensures
        0 < 0x8000_0000_0000_0000 - r * a < 2 * a + 0x200_0000,
{
    let index: u32 = (a - 0x8000_0000) / 0x800_0000;
    let eps: u64 = ((a / 0x800) % 0x1_0000) as u64;
    let (k0, k1) = recip_line(index);
    proof {
        let base = 0x8000_0000 + index * 0x800_0000;
        assert(a == base + 0x800 * eps + a % 0x800);
        assert(k1 * eps <= 0xFFFF * 0xFFFF) by (nonlinear_arith)
            requires
                0 <= k1 <= 0xFFFF,
                0 <= eps <= 0xFFFF,
        ;
        lemma_line(
            k0 as int,
            k1 as int,
            base,
            eps as int,
            a as int % 0x800,
            k0 - (k1 * eps) / 0x10_0000,
        );
    }
    let r0: u64 = k0 - (k1 * eps) / 0x10_0000;
    let sigma0: u64 = 0xFF_FFFF_FFFF - (r0 * (a as u64)) / 0x80;
    let ghost r1 = r0 * 0x1_0000 + (r0 * sigma0) as int / 0x100_0000;
    let ghost sqr = (sigma0 * sigma0) as int / 0x1_0000_0000;
    proof {
        lemma_refine(
            a as int,
            r0 as int,
            sigma0 as int,
            r1,
            sqr,
            r1 + (r1 * sqr) / 0x1_0000_0000_0000,
        );
        assert(r0 * sigma0 <= 0xFFFF * 0x4000_0000 && sigma0 * sigma0 <= 0x4000_0000 * 0x4000_0000
            && r1 * sqr <= 0x1_0000_0000 * 0x1000_0000) by (nonlinear_arith)
            requires
                0 <= r0 <= 0xFFFF,
                0 <= sigma0 < 0x4000_0000,
                0 <= r1 < 0x1_0000_0000,
                0 <= sqr < 0x1000_0000,
        ;
    }
    let r: u64 = r0 * 0x1_0000 + (r0 * sigma0) / 0x100_0000;
    let sqr_sigma0: u64 = (sigma0 * sigma0) / 0x1_0000_0000;
    (r + (r * sqr_sigma0) / 0x1_0000_0000_0000) as u32
}

} // verus!
