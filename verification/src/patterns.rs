//! What holds of patterns bit by bit: their fields, their order, and what flushing
//! and changing the sign do to them.
use crate::bits;
use crate::ieee;
use crate::laws;
use crate::model::IeeeClass;
use crate::model;
use crate::rounding;
use crate::softfloat_ref::add;
use crate::softfloat_ref::encoding;
use crate::RoundingMode;
use vstd::arithmetic::power2::*;
use vstd::prelude::*;

verus! {

/// A binary64 pattern is a sign, an exponent field of 11 bits and a fraction field of
/// 52 bits, and stands for the number that these give, in units of `2^-1074`.
pub proof fn fields_give_the_number(a: u64)
    ensures
        ({
            let exponent = (a as int / 0x10_0000_0000_0000) % 0x800;
            let fraction = a as int % 0x10_0000_0000_0000;
            let size = if exponent == 0 {
                fraction
            } else {
                (0x10_0000_0000_0000 + fraction) * pow2((exponent - 1) as nat)
            };
            &&& model::negative(a) == (a as int / 0x8000_0000_0000_0000 == 1)
            &&& model::value(a) == if a >= 0x8000_0000_0000_0000 {
                -size
            } else {
                size
            }
            &&& model::finite(a) == (exponent < 0x7FF)
            &&& ieee::is_zero(a) == (exponent == 0 && fraction == 0)
            &&& ieee::is_subnormal(a) == (exponent == 0 && fraction != 0)
            &&& (model::class_of(a) == IeeeClass::Normal) == (0 < exponent < 0x7FF)
            &&& ieee::is_inf(a) == (exponent == 0x7FF && fraction == 0)
            &&& ieee::is_nan(a) == (exponent == 0x7FF && fraction != 0)
        }),
{
    bits::lemma_pow2_values();
    assert((a as int % 0x8000_0000_0000_0000) / 0x10_0000_0000_0000 == (a as int
        / 0x10_0000_0000_0000) % 0x800);
    assert((a as int % 0x8000_0000_0000_0000) % 0x10_0000_0000_0000 == a as int
        % 0x10_0000_0000_0000);
}

/// A binary32 pattern is a sign, an exponent field of 8 bits and a fraction field of
/// 23 bits, and stands for the number that these give, in units of `2^-149`.
pub proof fn binary32_fields_give_the_number(a: u32)
    ensures
        ({
            let exponent = (a as int / 0x80_0000) % 0x100;
            let fraction = a as int % 0x80_0000;
            let size = if exponent == 0 {
                fraction
            } else {
                (0x80_0000 + fraction) * pow2((exponent - 1) as nat)
            };
            &&& model::negative32(a) == (a as int / 0x8000_0000 == 1)
            &&& model::value32(a) == if a >= 0x8000_0000 {
                -size
            } else {
                size
            }
            &&& model::class_of32(a) == if exponent == 0xFF {
                if fraction == 0 {
                    IeeeClass::Inf
                } else {
                    IeeeClass::NaN
                }
            } else if exponent > 0 {
                IeeeClass::Normal
            } else if fraction > 0 {
                IeeeClass::Subnormal
            } else {
                IeeeClass::Zero
            }
        }),
{
    bits::lemma_pow2_values();
    assert((a as int % 0x8000_0000) / 0x80_0000 == (a as int / 0x80_0000) % 0x100);
    assert((a as int % 0x8000_0000) % 0x80_0000 == a as int % 0x80_0000);
}

/// A pattern made of a sign and an encoding has that sign and that encoding.
pub proof fn sign_and_encoding_are_read_back(neg: bool, k: int)
    requires
        0 <= k < 0x8000_0000_0000_0000,
    ensures
        0 <= model::pattern(neg, k) <= u64::MAX,
        model::pattern(neg, k) / 0x8000_0000_0000_0000 == if neg {
            1int
        } else {
            0
        },
        model::pattern(neg, k) % 0x8000_0000_0000_0000 == k,
{
}

/// A pattern is taken apart into its sign, its exponent without the bias, and its
/// fraction with the leading one in front. A subnormal fraction is shifted until its
/// leading one stands there, and the exponent falls by as many places.
pub proof fn parts_are_those_of_the_fields(u: encoding::Unpacked, a: u64)
    requires
        u.of(a),
    ensures
        ({
            let exponent = (a as int / 0x10_0000_0000_0000) % 0x800;
            let fraction = a as int % 0x10_0000_0000_0000;
            &&& u.sign == a as int / 0x8000_0000_0000_0000
            &&& u.class == model::class_of(a)
            &&& 0 < exponent < 0x7FF ==> u.exp == exponent - 1023 && u.mantissa
                == 0x10_0000_0000_0000 + fraction
            &&& exponent == 0 && fraction > 0 ==> u.exp < -1022 && u.mantissa == fraction * pow2(
                (-1022 - u.exp) as nat,
            ) && 0x10_0000_0000_0000 <= u.mantissa < 0x20_0000_0000_0000
            &&& exponent == 0x7FF || (exponent == 0 && fraction == 0) ==> u.exp == 0 && u.mantissa
                == 0
        }),
{
    let exponent = (a as int / 0x10_0000_0000_0000) % 0x800;
    let fraction = a as int % 0x10_0000_0000_0000;
    fields_give_the_number(a);
    bits::lemma_pow2_values();
    let m = u.mantissa as int;
    if 0 < exponent < 0x7FF {
        let n = 0x10_0000_0000_0000 + fraction;
        let e = (exponent - 1) as nat;
        let d = (u.exp + 1022) as nat;
        // n * 2^e * 2^52 == m * 2^d * 2^52
        lemma_pow2_adds(d, 52);
        let x = pow2(e) as int;
        let y = pow2(d) as int;
        assert(n * x == m * y) by (nonlinear_arith)
            requires
                n * x * 0x10_0000_0000_0000 == m * (y * 0x10_0000_0000_0000),
        ;
        lemma_same_binade(n, e, m, d);
    } else if exponent == 0 && fraction > 0 {
        let d = (u.exp + 1074) as nat;
        let s = (-1022 - u.exp) as nat;
        lemma_pow2_adds(d, s);
        lemma_pow2_pos(d);
        let y = pow2(d) as int;
        let z = pow2(s) as int;
        assert(fraction * z == m) by (nonlinear_arith)
            requires
                fraction * (y * z) == m * y,
                y > 0,
        ;
    }
}

/// Numbers of 53 bits, scaled by powers of two, are equal only in all their parts.
proof fn lemma_same_binade(n: int, e: nat, m: int, d: nat)
    requires
        0x10_0000_0000_0000 <= n < 0x20_0000_0000_0000,
        0x10_0000_0000_0000 <= m < 0x20_0000_0000_0000,
        n * pow2(e) == m * pow2(d),
    ensures
        n == m,
        e == d,
{
    if e < d {
        lemma_binade_below(n, e, m, d);
    } else if d < e {
        lemma_binade_below(m, d, n, e);
    }
    lemma_pow2_pos(e);
    let x = pow2(e) as int;
    assert(n == m) by (nonlinear_arith)
        requires
            n * x == m * x,
            x > 0,
    ;
}

/// A number of 53 bits in a lower binade is less.
proof fn lemma_binade_below(n: int, e: nat, m: int, d: nat)
    requires
        0x10_0000_0000_0000 <= n < 0x20_0000_0000_0000,
        0x10_0000_0000_0000 <= m < 0x20_0000_0000_0000,
        e < d,
    ensures
        n * pow2(e) < m * pow2(d),
{
    let x = pow2(e) as int;
    let y = pow2(d) as int;
    lemma_pow2_pos(e);
    lemma_pow2_unfold(e + 1);
    if e + 1 < d {
        lemma_pow2_strictly_increases(e + 1, d);
    }
    assert(n * x < m * y) by (nonlinear_arith)
        requires
            2 * x <= y,
            x > 0,
            n < 0x20_0000_0000_0000,
            m >= 0x10_0000_0000_0000,
    ;
}

/// The mantissa of a staged word, raised where `increments` tells, is the word in units
/// of `2^64` as the mode rounds it: the closest, the even one of two equally close, or
/// the last one on the side that the mode points to.
pub proof fn mantissa_is_the_one_the_mode_asks_for(m: int, mode: RoundingMode, neg: bool)
    requires
        m >= 0,
    ensures
        ({
            let unit = 0x1_0000_0000_0000_0000int;
            let n = m / unit + if encoding::increments(
                (m / unit) % 2 == 1,
                m % unit,
                mode,
                neg,
            ) {
                1int
            } else {
                0
            };
            match mode {
                RoundingMode::Nearest => {
                    &&& -unit <= 2 * (n * unit - m) <= unit
                    &&& 2 * (n * unit - m) == unit || 2 * (n * unit - m) == -unit ==> n % 2 == 0
                },
                RoundingMode::Down => if neg {
                    0 <= n * unit - m < unit
                } else {
                    -unit < n * unit - m <= 0
                },
                RoundingMode::Up => if neg {
                    -unit < n * unit - m <= 0
                } else {
                    0 <= n * unit - m < unit
                },
                RoundingMode::Zero => -unit < n * unit - m <= 0,
            }
        }),
{
}

/// The opposite of a number differs from it in the sign bit alone.
pub proof fn opposite_flips_the_sign_bit(a: u64)
    ensures
        add::opposite(a) == a ^ 0x8000_0000_0000_0000,
{
    assert(a ^ 0x8000_0000_0000_0000 == if a >= 0x8000_0000_0000_0000 {
        (a - 0x8000_0000_0000_0000) as u64
    } else {
        (a + 0x8000_0000_0000_0000) as u64
    }) by (bit_vector);
}

/// Patterns are ordered as signed magnitudes: among positive numbers as integers,
/// among negative ones the other way round, with equal zeros, and NaN beside the
/// order.
pub proof fn order_is_that_of_signed_magnitudes(a: u64, b: u64)
    ensures
        ({
            let top = 0x8000_0000_0000_0000int;
            let i = if a < top {
                a as int
            } else {
                top - a
            };
            let j = if b < top {
                b as int
            } else {
                top - b
            };
            let numbers = -0x7FF0_0000_0000_0000 <= i <= 0x7FF0_0000_0000_0000
                && -0x7FF0_0000_0000_0000 <= j <= 0x7FF0_0000_0000_0000;
            &&& ieee::less(a, b) == (numbers && i < j)
            &&& ieee::equal(a, b) == (numbers && i == j)
        }),
{
    let f = model::binary64();
    let j = model::magnitude(a);
    let k = model::magnitude(b);
    bits::lemma_pow2_values();
    rounding::lemma_mag_nonnegative(f, j);
    rounding::lemma_mag_nonnegative(f, k);
    encoding::lemma_class_value(a);
    encoding::lemma_class_value(b);
    if j < k {
        rounding::lemma_mag_increases(f, j, k);
    } else if k < j {
        rounding::lemma_mag_increases(f, k, j);
    }
}

/// Flushing leaves every pattern as it is but the subnormal ones, those whose
/// exponent field is zero and whose fraction is not: of them it keeps the sign bit.
pub proof fn flushing_clears_subnormals_only(a: u64)
    ensures
        (a as int / 0x10_0000_0000_0000) % 0x800 != 0 ==> ieee::flushed(a) == a,
        (a as int / 0x10_0000_0000_0000) % 0x800 == 0 ==> ieee::flushed(a) == (a as int
            / 0x8000_0000_0000_0000) * 0x8000_0000_0000_0000,
{
    fields_give_the_number(a);
}

/// A normal binary32 number is widened field by field: the sign stays, the exponent
/// field grows by the difference of the biases, and the fraction is shifted up. Below
/// the normal range the number stays the same, and zeros, infinities and NaN go over
/// into their like.
pub proof fn widening_moves_the_fields(a: u32, r: u64)
    requires
        ieee::is_widened(a, r),
    ensures
        ({
            let sign = a as int / 0x8000_0000;
            let exponent = (a as int / 0x80_0000) % 0x100;
            let fraction = a as int % 0x80_0000;
            if exponent == 0xFF {
                r == if fraction == 0 {
                    sign * 0x8000_0000_0000_0000 + 0x7FF0_0000_0000_0000
                } else {
                    0x7FF8_0000_0000_0000
                }
            } else if exponent > 0 {
                r == sign * 0x8000_0000_0000_0000 + (exponent + 896) * 0x10_0000_0000_0000
                    + fraction * 0x2000_0000
            } else {
                &&& r as int / 0x8000_0000_0000_0000 == sign
                &&& model::finite(r)
                &&& model::value(r) == fraction * pow2(925) * (1 - 2 * sign)
            }
        }),
{
    let sign = a as int / 0x8000_0000;
    let exponent = (a as int / 0x80_0000) % 0x100;
    let fraction = a as int % 0x80_0000;
    binary32_fields_give_the_number(a);
    bits::lemma_pow2_values();
    if 0 < exponent < 0xFF {
        let s = (sign * 0x8000_0000_0000_0000 + (exponent + 896) * 0x10_0000_0000_0000 + fraction
            * 0x2000_0000) as u64;
        fields_give_the_number(s);
        assert((s as int / 0x10_0000_0000_0000) % 0x800 == exponent + 896);
        assert(s as int % 0x10_0000_0000_0000 == fraction * 0x2000_0000);
        let small = 0x80_0000 + fraction;
        let e = pow2((exponent - 1) as nat) as int;
        let g = pow2(925) as int;
        lemma_pow2_adds(29, (exponent + 895) as nat);
        lemma_pow2_adds((exponent - 1) as nat, 925);
        assert((0x2000_0000 * small) * pow2((exponent + 895) as nat) == small * e * g)
            by (nonlinear_arith)
            requires
                0x2000_0000 * pow2((exponent + 895) as nat) == e * g,
        ;
        assert((-(small * e)) * g == -(small * e * g)) by (nonlinear_arith);
        laws::widening_is_determined(a, r, s);
    } else if exponent == 0 {
        let g = pow2(925) as int;
        assert(fraction * g * (1 - 2 * sign) == if sign == 1 {
            (-fraction) * g
        } else {
            fraction * g
        }) by (nonlinear_arith)
            requires
                sign == 0 || sign == 1,
        ;
    }
}

/// A number as a 64-bit integer is the integer that the mode asks for: the greatest
/// below or at it, the least above or at it, or the closest, and of two that are
/// equally close the even one. What is out of range goes to the end of the range, and
/// a NaN to zero.
pub proof fn integer_is_the_one_the_mode_asks_for(a: u64, mode: RoundingMode, r: i64)
    requires
        ieee::is_to_integer(a, mode, r),
    ensures
        ieee::is_nan(a) ==> r == 0,
        !ieee::is_nan(a) ==> {
            let v = model::value(a);
            let g = pow2(1074) as int;
            let least = -0x8000_0000_0000_0000int;
            let greatest = 0x7FFF_FFFF_FFFF_FFFFint;
            match mode {
                RoundingMode::Nearest => {
                    &&& r > least ==> (2 * r - 1) * g <= 2 * v
                    &&& r < greatest ==> 2 * v <= (2 * r + 1) * g
                    &&& (2 * r - 1) * g == 2 * v ==> r as int % 2 == 0
                    &&& r < greatest && 2 * v == (2 * r + 1) * g ==> r as int % 2 == 0
                },
                RoundingMode::Down => {
                    &&& r > least ==> r * g <= v
                    &&& r < greatest ==> v < (r + 1) * g
                },
                RoundingMode::Up => {
                    &&& r > least ==> (r - 1) * g < v
                    &&& r < greatest ==> v <= r * g
                },
                RoundingMode::Zero => {
                    &&& v >= 0 ==> r >= 0 && r * g <= v && (r < greatest ==> v < (r + 1) * g)
                    &&& v <= 0 ==> r <= 0 && v <= r * g && (r > least ==> (r - 1) * g < v)
                },
            }
        },
{
    if !ieee::is_nan(a) {
        let v = model::value(a);
        let g = pow2(1074) as int;
        let w = ieee::whole(v, g, mode);
        let q = v / g;
        let part = v % g;
        lemma_pow2_pos(1074);
        vstd::arithmetic::div_mod::lemma_fundamental_div_mod(v, g);
        assert(v == q * g + part) by (nonlinear_arith)
            requires
                v == g * q + part,
        ;
        assert((q + 1) * g == q * g + g && (q - 1) * g == q * g - g && (2 * q + 1) * g == 2 * (q
            * g) + g && (2 * q - 1) * g == 2 * (q * g) - g && (2 * q + 3) * g == 2 * (q * g) + 3
            * g && (q + 2) * g == q * g + 2 * g) by (nonlinear_arith);
        lemma_multiples(q, r as int, g);
        assert(q >= 0 ==> q * g >= 0) by (nonlinear_arith)
            requires
                g > 0,
        ;
        assert(q < 0 ==> q * g <= -g) by (nonlinear_arith)
            requires
                g > 0,
        ;
        lemma_multiples(0, r as int, g);
    }
}

/// Multiples of `g` are ordered as their factors.
proof fn lemma_multiples(q: int, r: int, g: int)
    requires
        g > 0,
    ensures
        q <= r ==> q * g <= r * g,
        r <= q ==> r * g <= q * g,
        q + 1 <= r ==> q * g + g <= r * g,
        r <= q - 1 ==> r * g <= q * g - g,
        (r + 1) * g == r * g + g,
        (r - 1) * g == r * g - g,
        (2 * r + 1) * g == 2 * (r * g) + g,
        (2 * r - 1) * g == 2 * (r * g) - g,
{
    assert(q <= r ==> q * g <= r * g) by (nonlinear_arith)
        requires
            g > 0,
    ;
    assert(r <= q ==> r * g <= q * g) by (nonlinear_arith)
        requires
            g > 0,
    ;
    assert(q + 1 <= r ==> q * g + g <= r * g) by (nonlinear_arith)
        requires
            g > 0,
    ;
    assert(r <= q - 1 ==> r * g <= q * g - g) by (nonlinear_arith)
        requires
            g > 0,
    ;
    assert((r + 1) * g == r * g + g && (r - 1) * g == r * g - g && (2 * r + 1) * g == 2 * (r * g)
        + g && (2 * r - 1) * g == 2 * (r * g) - g) by (nonlinear_arith);
}

} // verus!
