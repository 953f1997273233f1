//! Conversions between binary64 and integers, and between binary64 and binary32.
use crate::bits;
use crate::ieee;
use crate::model::{Exact, IeeeClass};
use crate::model;
use crate::rounding;
use crate::softfloat_ref::encoding;
use crate::softfloat_ref::encoding::{
    Unpacked, CANONICAL_QNAN, EXP_BIAS,
};
use crate::staging;
use crate::RoundingMode;
use vstd::arithmetic::div_mod::*;
use vstd::arithmetic::power2::*;
use vstd::bits::*;
use vstd::prelude::*;
use vstd::std_specs::bits::*;

verus! {

/// A signed 64-bit integer in binary64.
#[must_use]
pub fn cvt_i64_to_f64(x: i64, mode: RoundingMode) -> (r: u64)
    ensures
        ieee::is_from_integer(x as int, mode, r),
{
    if x == 0 {
        return 0;
    }
    if x < 0 {
        cvt_mag_to_f64(1, (-(x as i128)) as u64, mode)
    } else {
        cvt_mag_to_f64(0, x as u64, mode)
    }
}

/// An unsigned 64-bit integer in binary64.
#[must_use]
pub fn cvt_u64_to_f64(x: u64, mode: RoundingMode) -> (r: u64)
    ensures
        ieee::is_from_integer(x as int, mode, r),
{
    if x == 0 {
        return 0;
    }
    cvt_mag_to_f64(0, x, mode)
}

/// A magnitude with an explicit sign in binary64.
fn cvt_mag_to_f64(sign: u64, mag: u64, mode: RoundingMode) -> (r: u64)
    requires
        sign <= 1,
        mag > 0,
    ensures
        ieee::is_from_integer(model::signed(sign == 1, mag as int), mode, r),
{
    proof {
        bits::lemma_top_bit64(mag);
        bits::lemma_pow2_values();
    }
    let msb_pos: u32 = 63 - mag.leading_zeros();
    let ghost p = msb_pos as nat;
    let ghost s = (116 - p) as nat;
    proof {
        lemma_pow2_adds(p, s);
        lemma_pow2_adds((p + 1) as nat, s);
        lemma_pow2_pos(s);
        assert(pow2(116) <= mag * pow2(s) < pow2(117)) by (nonlinear_arith)
            requires
                pow2(p) <= mag < pow2((p + 1) as nat),
                pow2(p) * pow2(s) == pow2(116),
                pow2((p + 1) as nat) * pow2(s) == pow2(117),
                pow2(s) > 0,
        ;
        bits::lemma_shl128(mag as u128, (116 - msb_pos) as u32);
    }
    let m_128: u128 = (mag as u128) << (116 - msb_pos);
    let r = encoding::round_and_pack(m_128, sign, msb_pos as i32, mode, false);
    proof {
        let g = pow2(1190) as int;
        let t = pow2(1074) as int;
        let num = mag * t;
        lemma_pow2_pos(1190);
        lemma_pow2_pos(1074);
        lemma_pow2_adds(1074, 1190);
        lemma_pow2_adds(s, (p + 2148) as nat);
        assert(m_128 * pow2((p + 2148) as nat) == num * g) by (nonlinear_arith)
            requires
                m_128 == mag * pow2(s),
                num == mag * t,
                pow2(s) * pow2((p + 2148) as nat) == t * g,
        ;
        assert(num > 0) by (nonlinear_arith)
            requires
                num == mag * t,
                mag > 0,
                t > 0,
        ;
        assert(num * g >= 0) by (nonlinear_arith)
            requires
                num > 0,
                g > 0,
        ;
        staging::lemma_stage_exact(num * g, m_128 as int, p as int + 958);
        let x = Exact::Ratio { num, den: 1 };
        let y = Exact::Ratio { num: num * g, den: 1 * g };
        encoding::lemma_delivers(y, m_128 as int, p as int, mode, sign == 1, false, r);
        rounding::lemma_higher_terms(num, 1, g);
        encoding::lemma_delivers_alike(false, x, y, mode, sign == 1, r);
        let v = model::signed(sign == 1, mag as int);
        assert((-mag) * t == -(mag * t)) by (nonlinear_arith);
        assert(v * t == model::signed(sign == 1, num));
    }
    r
}

/// The decision whether `dropped`, out of twice `half`, moves a magnitude up.
fn round_up(odd: bool, dropped: u64, half: u64, sign: u64, mode: RoundingMode) -> (up: bool)
    requires
        sign <= 1,
    ensures
        up == rounding::goes_up(odd, dropped as int, 2 * half, mode, sign == 1),
{
    match mode {
        RoundingMode::Nearest => dropped > half || (dropped == half && odd),
        RoundingMode::Down => sign == 1 && dropped != 0,
        RoundingMode::Up => sign == 0 && dropped != 0,
        RoundingMode::Zero => false,
    }
}

/// The mantissa split `shift` bits above its lowest.
fn split(mantissa: u64, shift: u32) -> (r: (u64, u64, u64))
    requires
        1 <= shift < 64,
    ensures
        r.0 == mantissa as int / pow2(shift as nat) as int,
        r.1 == mantissa as int % pow2(shift as nat) as int,
        2 * r.2 == pow2(shift as nat),
{
    proof {
        bits::lemma_pow2_values();
        lemma_pow2_unfold(shift as nat);
        if shift < 63 {
            lemma_pow2_strictly_increases((shift - 1) as nat, 62);
            lemma_pow2_strictly_increases(shift as nat, 63);
        }
        lemma_u64_pow2_no_overflow((shift - 1) as nat);
        lemma_u64_shl_is_mul(1, (shift - 1) as u64);
        lemma_u64_shr_is_div(mantissa, shift as u64);
        lemma_u64_low_bits_mask_is_mod(mantissa, shift as nat);
    }
    let half: u64 = 1u64 << (shift - 1);
    let mask: u64 = half + (half - 1);
    (mantissa >> shift, mantissa & mask, half)
}

/// A number below the unit `2^52` in exponent, with its scale made explicit.
proof fn lemma_scale_down(a: u64, u: Unpacked)
    requires
        u.of(a),
        ieee::is_finite_nonzero(a),
        u.exp <= 52,
    ensures
        model::mag(model::binary64(), model::magnitude(a)) * pow2((52 - u.exp) as nat) == u.mantissa
            * pow2(1074),
{
    let v = model::mag(model::binary64(), model::magnitude(a));
    encoding::lemma_class_value(a);
    if u.exp >= 0 {
        let e = pow2(u.exp as nat) as int;
        lemma_pow2_pos(u.exp as nat);
        lemma_pow2_adds((52 - u.exp) as nat, u.exp as nat);
        lemma_pow2_adds(1074, u.exp as nat);
        assert(v * pow2((52 - u.exp) as nat) == u.mantissa * pow2(1074)) by (nonlinear_arith)
            requires
                v * pow2(52) == u.mantissa * pow2((u.exp + 1074) as nat),
                pow2(52) == pow2((52 - u.exp) as nat) * e,
                pow2((u.exp + 1074) as nat) == pow2(1074) * e,
                e > 0,
        ;
    } else {
        let e = pow2((-u.exp) as nat) as int;
        lemma_pow2_adds(52, (-u.exp) as nat);
        lemma_pow2_adds((u.exp + 1074) as nat, (-u.exp) as nat);
        assert(v * pow2((52 - u.exp) as nat) == u.mantissa * pow2(1074)) by (nonlinear_arith)
            requires
                v * pow2(52) == u.mantissa * pow2((u.exp + 1074) as nat),
                pow2((52 - u.exp) as nat) == pow2(52) * e,
                pow2(1074) == pow2((u.exp + 1074) as nat) * e,
        ;
    }
}

/// A number from the unit `2^52` up in exponent is a whole number.
proof fn lemma_scale_up(a: u64, u: Unpacked)
    requires
        u.of(a),
        ieee::is_finite_nonzero(a),
        u.exp >= 52,
    ensures
        model::mag(model::binary64(), model::magnitude(a)) == u.mantissa * pow2(
            (u.exp - 52) as nat,
        ) * pow2(1074),
{
    let v = model::mag(model::binary64(), model::magnitude(a));
    let n = u.mantissa * pow2((u.exp - 52) as nat);
    encoding::lemma_class_value(a);
    lemma_pow2_adds((u.exp - 52) as nat, 1074);
    lemma_pow2_adds((u.exp + 1022) as nat, 52);
    lemma_pow2_pos(52);
    assert(v == n * pow2(1074)) by (nonlinear_arith)
        requires
            v * pow2(52) == u.mantissa * pow2((u.exp + 1074) as nat),
            n == u.mantissa * pow2((u.exp - 52) as nat),
            pow2((u.exp + 1074) as nat) == pow2((u.exp - 52) as nat) * pow2(1074) * pow2(52),
            pow2(52) > 0,
    ;
}

/// `(n + part / unit) * den` taken to a whole number of `den`.
proof fn lemma_whole(neg: bool, v: int, den: int, n: int, part: int, unit: int, mode: RoundingMode)
    requires
        den > 0,
        n >= 0,
        0 <= part < unit,
        v * unit == (n * unit + part) * den,
    ensures
        ieee::whole(model::signed(neg, v), den, mode) == model::signed(
            neg,
            n + if rounding::goes_up(n % 2 == 1, part, unit, mode, neg) {
                1int
            } else {
                0
            },
        ),
{
    let low = v - n * den;
    assert(low * unit == part * den) by (nonlinear_arith)
        requires
            v * unit == (n * unit + part) * den,
            low == v - n * den,
    ;
    assert(low >= 0 && low < den && (low > 0) == (part > 0) && (2 * low > den) == (2 * part > unit)
        && (2 * low < den) == (2 * part < unit)) by (nonlinear_arith)
        requires
            low * unit == part * den,
            0 <= part < unit,
            den > 0,
    ;
    assert(n * den >= 0) by (nonlinear_arith)
        requires
            n >= 0,
            den > 0,
    ;
    if !neg {
        lemma_fundamental_div_mod_converse(v, den, n, low);
    } else if low == 0 {
        assert(-v == (-n) * den + 0) by (nonlinear_arith)
            requires
                v == n * den,
        ;
        lemma_fundamental_div_mod_converse(-v, den, -n, 0);
    } else {
        assert(-v == (-n - 1) * den + (den - low)) by (nonlinear_arith)
            requires
                v == n * den + low,
        ;
        lemma_fundamental_div_mod_converse(-v, den, -n - 1, den - low);
    }
}

/// What is `2^63` or more in size lies at or beyond the end of the range.
proof fn lemma_out_of_range(neg: bool, v: int, den: int, mode: RoundingMode)
    requires
        den > 0,
        v >= 0x8000_0000_0000_0000 * den,
    ensures
        ieee::saturate(ieee::whole(model::signed(neg, v), den, mode)) == if neg {
            i64::MIN as int
        } else {
            i64::MAX as int
        },
{
    let n = v / den;
    let part = v % den;
    lemma_fundamental_div_mod(v, den);
    assert(n >= 0x8000_0000_0000_0000) by (nonlinear_arith)
        requires
            v == den * n + part,
            part < den,
            v >= 0x8000_0000_0000_0000 * den,
            den > 0,
    ;
    assert(v * den == (n * den + part) * den) by (nonlinear_arith)
        requires
            v == den * n + part,
    ;
    lemma_whole(neg, v, den, n, part, den, mode);
}

/// A binary64 number as a signed 64-bit integer, rounded by the mode and
/// saturated at the ends of the range. A NaN gives 0.
#[must_use]
pub fn cvt_f64_to_i64(a: u64, mode: RoundingMode) -> (r: i64)
    ensures
        ieee::is_to_integer(a, mode, r),
{
    let ua = encoding::unpack(a);
    let ghost neg = model::negative(a);
    let ghost v = model::mag(model::binary64(), model::magnitude(a));
    let ghost den = pow2(1074) as int;
    proof {
        encoding::lemma_class_value(a);
        lemma_pow2_pos(1074);
        bits::lemma_pow2_values();
    }
    match ua.class {
        IeeeClass::NaN => {
            return 0;
        },
        IeeeClass::Zero => {
            proof {
                assert(0 * den == 0);
                lemma_whole(neg, 0, den, 0, 0, 1, mode);
            }
            return 0;
        },
        IeeeClass::Inf => {
            proof {
                lemma_infinity_large();
                lemma_out_of_range(neg, v, den, mode);
            }
            return if ua.sign == 1 {
                i64::MIN
            } else {
                i64::MAX
            };
        },
        _ => {},
    }
    if ua.exp < 0 {
        // Below 1 in size: 0, or 1 where the mode moves it up.
        proof {
            let s = (52 - ua.exp) as nat;
            lemma_scale_down(a, ua);
            if s > 53 {
                lemma_pow2_strictly_increases(53, s);
                lemma_pow2_unfold(54);
                if s > 54 {
                    lemma_pow2_strictly_increases(54, s);
                }
            }
            lemma_whole(neg, v, den, 0, ua.mantissa as int, pow2(s) as int, mode);
        }
        let up = match mode {
            RoundingMode::Up => ua.sign == 0,
            RoundingMode::Down => ua.sign == 1,
            RoundingMode::Nearest => ua.exp == -1 && ua.mantissa != 0x10_0000_0000_0000,
            RoundingMode::Zero => false,
        };
        return if !up {
            0
        } else if ua.sign == 1 {
            -1
        } else {
            1
        };
    }
    if ua.exp > 62 {
        proof {
            let e = (ua.exp - 52) as nat;
            let n = ua.mantissa * pow2(e);
            lemma_scale_up(a, ua);
            if e > 11 {
                lemma_pow2_strictly_increases(11, e);
            }
            assert(n * den >= 0x8000_0000_0000_0000 * den) by (nonlinear_arith)
                requires
                    n == ua.mantissa * pow2(e),
                    ua.mantissa >= 0x10_0000_0000_0000,
                    pow2(e) >= 0x800,
                    den > 0,
            ;
            lemma_out_of_range(neg, v, den, mode);
        }
        return if ua.sign == 1 {
            i64::MIN
        } else {
            i64::MAX
        };
    }
    let mag: u64 = if ua.exp < 52 {
        let (int_part, dropped, half) = split(ua.mantissa, (52 - ua.exp) as u32);
        let up = round_up(int_part % 2 == 1, dropped, half, ua.sign, mode);
        proof {
            let s = (52 - ua.exp) as nat;
            let unit = pow2(s) as int;
            lemma_pow2_pos(s);
            lemma_scale_down(a, ua);
            lemma_fundamental_div_mod(ua.mantissa as int, unit);
            lemma_div_is_ordered_by_denominator(ua.mantissa as int, 1, unit);
            assert(ua.mantissa as int / 1 == ua.mantissa);
            assert(ua.mantissa == int_part * unit + dropped) by (nonlinear_arith)
                requires
                    ua.mantissa == unit * int_part + dropped,
            ;
            lemma_whole(neg, v, den, int_part as int, dropped as int, unit, mode);
        }
        int_part + if up {
            1
        } else {
            0
        }
    } else {
        let shift: u32 = (ua.exp - 52) as u32;
        proof {
            lemma_scale_up(a, ua);
            if shift < 10 {
                lemma_pow2_strictly_increases(shift as nat, 10);
            }
            lemma2_to64();
            let n = ua.mantissa * pow2(shift as nat);
            assert(n < 0x8000_0000_0000_0000) by (nonlinear_arith)
                requires
                    n == ua.mantissa * pow2(shift as nat),
                    0 <= ua.mantissa < 0x20_0000_0000_0000,
                    0 < pow2(shift as nat) <= 0x400,
            ;
            lemma_u64_shl_is_mul(ua.mantissa, shift as u64);
            assert(v * 1 == (n * 1 + 0) * den);
            lemma_whole(neg, v, den, n, 0, 1, mode);
        }
        ua.mantissa << shift
    };
    if ua.sign == 1 {
        -(mag as i64)
    } else {
        mag as i64
    }
}

/// The value of infinity is beyond every integer range.
proof fn lemma_infinity_large()
    ensures
        model::mag(model::binary64(), model::binary64().inf) >= 0x8000_0000_0000_0000 * pow2(1074),
{
    bits::lemma_pow2_values();
    rounding::lemma_mag_at(model::binary64(), 2046, 0x10_0000_0000_0000);
    lemma_pow2_adds(972, 1074);
    lemma_pow2_strictly_increases(63, 972);
    assert(0x10_0000_0000_0000 * pow2(2046) >= 0x8000_0000_0000_0000 * pow2(1074))
        by (nonlinear_arith)
        requires
            pow2(2046) == pow2(972) * pow2(1074),
            pow2(972) >= 0x8000_0000_0000_0000,
            pow2(1074) >= 0,
    ;
}

/// The fields of a binary32 pattern.
proof fn lemma_fields32(a: u32)
    ensures
        a >> 31u32 == if model::negative32(a) { 1u32 } else { 0u32 },
        (a >> 23u32) & 0xFF == model::magnitude32(a) / 0x80_0000,
        a & 0x7F_FFFF == model::magnitude32(a) % 0x80_0000,
{
    assert(a >> 31u32 == a / 0x8000_0000 && (a >> 23u32) & 0xFF == (a % 0x8000_0000) / 0x80_0000
        && a & 0x7F_FFFF == (a % 0x8000_0000) % 0x80_0000) by (bit_vector);
}

/// A binary32 number in binary64. The result is exact.
#[must_use]
pub fn cvt_f32_to_f64(a: u32) -> (r: u64)
    ensures
        ieee::is_widened(a, r),
{
    let sign: u64 = (a >> 31u32) as u64;
    let exp_raw: i32 = ((a >> 23u32) & 0xFF) as i32;
    let mant_raw: u64 = (a & 0x7F_FFFF) as u64;
    let ghost f = model::binary32();
    let ghost k = model::magnitude32(a);
    proof {
        lemma_fields32(a);
        bits::lemma_pow2_values();
        lemma_fundamental_div_mod(k, 0x80_0000);
        rounding::lemma_mag_at(model::binary64(), 0, 0);
        rounding::lemma_mag_at(f, 0, 0);
    }
    if exp_raw == 0 && mant_raw == 0 {
        return encoding::signed_zero(sign);
    }
    if exp_raw == 0xFF {
        if mant_raw == 0 {
            return encoding::signed_inf(sign);
        }
        return CANONICAL_QNAN;
    }
    if exp_raw == 0 {
        // Subnormal: shift the top bit to where a normal number has it.
        proof {
            bits::lemma_top_bit64(mant_raw);
            lemma_top_below(mant_raw, 23);
        }
        let shift: u32 = mant_raw.leading_zeros() - 11;
        let biased: i32 = 926 - shift as i32;
        proof {
            let t = shift as nat;
            lemma_pow2_adds((52 - t) as nat, t);
            lemma_pow2_adds((53 - t) as nat, t);
            lemma_pow2_adds(t, (925 - t) as nat);
            lemma_pow2_pos(t);
            assert(0x10_0000_0000_0000 <= mant_raw * pow2(t) < 0x20_0000_0000_0000)
                by (nonlinear_arith)
                requires
                    pow2((52 - t) as nat) <= mant_raw < pow2((53 - t) as nat),
                    pow2((52 - t) as nat) * pow2(t) == 0x10_0000_0000_0000,
                    pow2((53 - t) as nat) * pow2(t) == 0x20_0000_0000_0000,
                    pow2(t) > 0,
            ;
            lemma_u64_shl_is_mul(mant_raw, shift as u64);
            rounding::lemma_mag_at(f, 0, mant_raw as int);
            assert(mant_raw * pow2(0) == mant_raw) by (nonlinear_arith)
                requires
                    pow2(0) == 1,
            ;
            let m = mant_raw * pow2(t);
            assert(m * pow2((925 - t) as nat) == mant_raw * pow2(925)) by (nonlinear_arith)
                requires
                    m == mant_raw * pow2(t),
                    pow2(t) * pow2((925 - t) as nat) == pow2(925),
            ;
            lemma_widened(a, model::negative32(a), biased as int, m);
        }
        return encoding::assemble(sign, biased, mant_raw << shift);
    }
    // Normal: another bias, and zeros below the fraction.
    let biased: i32 = exp_raw - 127 + EXP_BIAS;
    let mantissa: u64 = (mant_raw + 0x80_0000) * 0x2000_0000;
    proof {
        let n = mant_raw + 0x80_0000;
        let e = exp_raw - 1;
        rounding::lemma_mag_at(f, e as int, n);
        lemma_pow2_adds(29, (e + 896) as nat);
        lemma_pow2_adds(e as nat, 925);
        assert(mantissa * pow2((e + 896) as nat) == n * pow2(e as nat) * pow2(925))
            by (nonlinear_arith)
            requires
                mantissa == n * pow2(29),
                pow2(29) * pow2((e + 896) as nat) == pow2(e as nat) * pow2(925),
        ;
        lemma_widened(a, model::negative32(a), biased as int, mantissa as int);
    }
    encoding::assemble(sign, biased, mantissa)
}

/// A number below `2^n` has its top bit below bit `n`.
proof fn lemma_top_below(x: u64, n: nat)
    requires
        0 < x < pow2(n),
        n <= 64,
    ensures
        u64_leading_zeros(x) >= 64 - n,
{
    let l = u64_leading_zeros(x);
    bits::lemma_top_bit64(x);
    if l < 64 - n {
        if n < 63 - l {
            lemma_pow2_strictly_increases(n, (63 - l) as nat);
        }
    }
}

/// A binary64 pattern assembled from the parts of a binary32 number.
proof fn lemma_widened(a: u32, neg: bool, biased: int, m: int)
    requires
        neg == model::negative32(a),
        1 <= biased <= 2046,
        0x10_0000_0000_0000 <= m < 0x20_0000_0000_0000,
        m * pow2((biased - 1) as nat) == model::mag(model::binary32(), model::magnitude32(a))
            * pow2(925),
        model::magnitude32(a) < model::binary32().inf,
    ensures
        ieee::is_widened(
            a,
            model::pattern(neg, (biased - 1) * 0x10_0000_0000_0000 + m) as u64,
        ),
{
    let v = model::mag(model::binary32(), model::magnitude32(a));
    bits::lemma_pow2_values();
    rounding::lemma_mag_at(model::binary64(), biased - 1, m);
    assert((-v) * pow2(925) == -(v * pow2(925))) by (nonlinear_arith);
}

/// The binary32 pattern of the given sign and encoding.
fn pattern32(sign: u64, k: u64) -> (r: u32)
    requires
        sign <= 1,
        k <= 0x7F80_0000,
    ensures
        model::negative32(r) == (sign == 1),
        model::magnitude32(r) == k,
{
    let s: u32 = sign as u32;
    let low: u32 = k as u32;
    assert((s << 31u32) | low == s * 0x8000_0000 + low) by (bit_vector)
        requires
            s <= 1,
            low <= 0x7F80_0000,
    ;
    (s << 31u32) | low
}

/// A binary64 number in binary32, rounded by the mode.
#[must_use]
pub fn cvt_f64_to_f32(a: u64, mode: RoundingMode) -> (r: u32)
    ensures
        ieee::is_narrowed(a, mode, r),
{
    let ua = encoding::unpack(a);
    let ghost neg = model::negative(a);
    let ghost f = model::binary32();
    let ghost v = model::mag(model::binary64(), model::magnitude(a));
    let ghost den = pow2(925) as int;
    let ghost x = Exact::Ratio { num: v, den };
    proof {
        encoding::lemma_class_value(a);
        lemma_pow2_pos(925);
        bits::lemma_pow2_values();
    }
    match ua.class {
        IeeeClass::NaN => {
            return 0x7FC0_0000;
        },
        IeeeClass::Zero => {
            proof {
                assert(0 * (pow2(0) * den) == 0) by (nonlinear_arith);
                rounding::lemma_round_split(f, 0, den, 0, 0, 0, 1, mode, neg);
            }
            return pattern32(ua.sign, 0);
        },
        IeeeClass::Inf => {
            return pattern32(ua.sign, 0x7F80_0000);
        },
        _ => {},
    }
    if ua.exp > 127 {
        proof {
            lemma_overflows32(a, ua);
            rounding::lemma_overflow(f, x, mode, neg);
        }
        let to_max = match mode {
            RoundingMode::Nearest => false,
            RoundingMode::Up => ua.sign == 1,
            RoundingMode::Down => ua.sign == 0,
            RoundingMode::Zero => true,
        };
        return pattern32(
            ua.sign,
            if to_max {
                0x7F7F_FFFF
            } else {
                0x7F80_0000
            },
        );
    }
    if ua.exp < -150 {
        // Below half of the least subnormal: only a directed mode sees it.
        proof {
            let s = (-97 - ua.exp) as nat;
            lemma_pow2_strictly_increases(53, s);
            lemma_pow2_unfold(54);
            if s > 54 {
                lemma_pow2_strictly_increases(54, s);
            }
            lemma_subnormal32(a, ua);
            rounding::lemma_round_split(
                f,
                v,
                den,
                0,
                0,
                ua.mantissa as int,
                pow2(s) as int,
                mode,
                neg,
            );
        }
        let up = match mode {
            RoundingMode::Up => ua.sign == 0,
            RoundingMode::Down => ua.sign == 1,
            _ => false,
        };
        return pattern32(
            ua.sign,
            if up {
                1
            } else {
                0
            },
        );
    }
    // The binade, counted from the subnormals, and the bits below the last place.
    let (binade, total_drop): (u64, u32) = if ua.exp >= -126 {
        ((ua.exp + 126) as u64, 29)
    } else {
        (0, (-97 - ua.exp) as u32)
    };
    let (new_mant, dropped, half) = split(ua.mantissa, total_drop);
    let up = round_up(new_mant % 2 == 1, dropped, half, ua.sign, mode);
    proof {
        let unit = pow2(total_drop as nat) as int;
        if total_drop > 29 {
            lemma_pow2_strictly_increases(29, total_drop as nat);
            lemma_pow2_unfold(30);
            if total_drop > 30 {
                lemma_pow2_strictly_increases(30, total_drop as nat);
            }
        }
        lemma_fundamental_div_mod(ua.mantissa as int, unit);
        assert(new_mant < 0x100_0000 && (ua.exp >= -126 ==> new_mant >= 0x80_0000) && (ua.exp
            < -126 ==> new_mant < 0x80_0000)) by (nonlinear_arith)
            requires
                ua.mantissa == unit * new_mant + dropped,
                0 <= dropped < unit,
                0x10_0000_0000_0000 <= ua.mantissa < 0x20_0000_0000_0000,
                ua.exp >= -126 ==> unit == 0x2000_0000,
                ua.exp < -126 ==> unit >= 0x4000_0000,
        ;
        assert(ua.mantissa == new_mant * unit + dropped) by (nonlinear_arith)
            requires
                ua.mantissa == unit * new_mant + dropped,
        ;
        if ua.exp >= -126 {
            lemma_normal32(a, ua);
        } else {
            lemma_subnormal32(a, ua);
        }
        rounding::lemma_round_split(
            f,
            v,
            den,
            binade as int,
            new_mant as int,
            dropped as int,
            unit,
            mode,
            neg,
        );
    }
    let k: u64 = binade * 0x80_0000 + new_mant;
    pattern32(
        ua.sign,
        k + if up {
            1
        } else {
            0
        },
    )
}

/// A number in the normal range of binary32, in units of `2^-149`.
proof fn lemma_normal32(a: u64, u: Unpacked)
    requires
        u.of(a),
        ieee::is_finite_nonzero(a),
        u.exp >= -126,
    ensures
        model::mag(model::binary64(), model::magnitude(a)) * pow2(29) == u.mantissa * (pow2(
            (u.exp + 126) as nat,
        ) * pow2(925)),
{
    let v = model::mag(model::binary64(), model::magnitude(a));
    encoding::lemma_class_value(a);
    lemma_pow2_adds(29, 23);
    lemma_pow2_adds((u.exp + 126) as nat, 925);
    lemma_pow2_adds((u.exp + 1051) as nat, 23);
    lemma_pow2_pos(23);
    let e = pow2((u.exp + 1051) as nat);
    assert(v * pow2(29) == u.mantissa * e) by (nonlinear_arith)
        requires
            v * pow2(52) == u.mantissa * pow2((u.exp + 1074) as nat),
            pow2(52) == pow2(29) * pow2(23),
            pow2((u.exp + 1074) as nat) == e * pow2(23),
            pow2(23) > 0,
    ;
}

/// A number below the normal range of binary32, in units of `2^-149`.
proof fn lemma_subnormal32(a: u64, u: Unpacked)
    requires
        u.of(a),
        ieee::is_finite_nonzero(a),
        u.exp < -126,
    ensures
        model::mag(model::binary64(), model::magnitude(a)) * pow2((-97 - u.exp) as nat)
            == u.mantissa * (pow2(0) * pow2(925)),
{
    let v = model::mag(model::binary64(), model::magnitude(a));
    let s = (-97 - u.exp) as nat;
    encoding::lemma_class_value(a);
    bits::lemma_pow2_values();
    lemma_pow2_adds(s, 52);
    lemma_pow2_adds(925, 52);
    lemma_pow2_adds((u.exp + 1074) as nat, s);
    lemma_pow2_pos(52);
    let e = pow2((u.exp + 1074) as nat);
    assert(v * pow2(s) == u.mantissa * pow2(925)) by (nonlinear_arith)
        requires
            v * pow2(52) == u.mantissa * e,
            e * pow2(s) == pow2(925) * pow2(52),
            pow2(52) > 0,
    ;
    assert(pow2(0) * pow2(925) == pow2(925)) by (nonlinear_arith)
        requires
            pow2(0) == 1,
    ;
}

/// A number with an exponent above that of binary32 reaches its infinity.
proof fn lemma_overflows32(a: u64, u: Unpacked)
    requires
        u.of(a),
        ieee::is_finite_nonzero(a),
        u.exp > 127,
    ensures
        !(Exact::Ratio {
            num: model::mag(model::binary64(), model::magnitude(a)),
            den: pow2(925) as int,
        }).lt(model::mag(model::binary32(), model::binary32().inf), 1),
{
    let v = model::mag(model::binary64(), model::magnitude(a));
    let e = (u.exp + 126) as nat;
    bits::lemma_pow2_values();
    lemma_normal32(a, u);
    rounding::lemma_mag_at(model::binary32(), 254, 0x80_0000);
    lemma_pow2_pos(925);
    if e > 254 {
        lemma_pow2_strictly_increases(254, e);
    }
    assert(v >= 0x80_0000 * pow2(254) * pow2(925)) by (nonlinear_arith)
        requires
            v * 0x2000_0000 == u.mantissa * (pow2(e) * pow2(925)),
            u.mantissa >= 0x10_0000_0000_0000,
            pow2(e) >= pow2(254),
            pow2(254) >= 0,
            pow2(925) > 0,
    ;
}

} // verus!
