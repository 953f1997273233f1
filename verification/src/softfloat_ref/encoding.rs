//! Taking patterns apart and putting results together.
use crate::bits;
use crate::ieee;
use crate::model::{Exact, IeeeClass};
use crate::model;
use crate::rounding;
use crate::staging;
use crate::RoundingMode;
use vstd::arithmetic::div_mod::*;
use vstd::arithmetic::power2::*;
use vstd::bits::*;
use vstd::prelude::*;
use vstd::std_specs::bits::*;

verus! {

pub const MANT_BITS: u32 = 52;

pub const EXP_MASK: u64 = 0x7FF;

pub const MANT_MASK: u64 = 0x000F_FFFF_FFFF_FFFF;

pub const IMPLICIT_BIT: u64 = 0x0010_0000_0000_0000;

pub const EXP_BIAS: i32 = 1023;

/// The quiet NaN that every NaN result is: sign clear, the quiet bit set and
/// the rest of the payload zero.
pub const CANONICAL_QNAN: u64 = 0x7FF8_0000_0000_0000;

pub const POS_INF: u64 = 0x7FF0_0000_0000_0000;

/// The fields of a binary64 pattern.
proof fn lemma_fields(a: u64)
    ensures
        a >> 63u32 == if model::negative(a) { 1u64 } else { 0u64 },
        (a >> 52u32) & 0x7FF == model::magnitude(a) / 0x10_0000_0000_0000,
        a & 0x000F_FFFF_FFFF_FFFF == model::magnitude(a) % 0x10_0000_0000_0000,
        0 <= model::magnitude(a) < 0x8000_0000_0000_0000,
        a == model::pattern(model::negative(a), model::magnitude(a)),
{
    assert(a >> 63u32 == if a >= 0x8000_0000_0000_0000 { 1u64 } else { 0u64 }) by (bit_vector);
    assert((a >> 52u32) & 0x7FF == (a % 0x8000_0000_0000_0000) / 0x10_0000_0000_0000)
        by (bit_vector);
    assert(a & 0x000F_FFFF_FFFF_FFFF == (a % 0x8000_0000_0000_0000) % 0x10_0000_0000_0000)
        by (bit_vector);
}

/// Classifies a binary64 pattern.
#[must_use]
pub fn classify(bits: u64) -> (c: IeeeClass)
    ensures
        c == model::class_of(bits),
{
    let exp: u64 = (bits >> MANT_BITS) & EXP_MASK;
    let mant: u64 = bits & MANT_MASK;
    proof {
        lemma_fields(bits);
        bits::lemma_pow2_values();
    }
    if exp == 0 {
        if mant == 0 {
            IeeeClass::Zero
        } else {
            IeeeClass::Subnormal
        }
    } else if exp == EXP_MASK {
        if mant == 0 {
            IeeeClass::Inf
        } else {
            IeeeClass::NaN
        }
    } else {
        IeeeClass::Normal
    }
}

/// A pattern taken apart. The mantissa of a finite non-zero number has its top
/// bit at bit 52, also where the pattern is subnormal.
#[derive(Debug, Clone, Copy)]
pub struct Unpacked {
    pub sign: u64,
    pub exp: i32,
    pub mantissa: u64,
    pub class: IeeeClass,
}

impl Unpacked {
    /// The parts of `a`.
    pub open spec fn of(self, a: u64) -> bool {
        &&& self.sign == if model::negative(a) { 1u64 } else { 0u64 }
        &&& self.class == model::class_of(a)
        &&& if self.class == IeeeClass::Normal || self.class == IeeeClass::Subnormal {
            &&& 0x10_0000_0000_0000 <= self.mantissa < 0x20_0000_0000_0000
            &&& self.class == IeeeClass::Normal ==> -1022 <= self.exp <= 1023
            &&& self.class == IeeeClass::Subnormal ==> -1074 <= self.exp < -1022
            &&& model::mag(model::binary64(), model::magnitude(a)) * pow2(52) == self.mantissa
                * pow2((self.exp + 1074) as nat)
        } else {
            self.exp == 0 && self.mantissa == 0
        }
    }
}

/// Takes a pattern apart.
pub fn unpack(x: u64) -> (u: Unpacked)
    ensures
        u.of(x),
{
    let sign: u64 = x >> 63u32;
    let exp_raw: i32 = ((x >> MANT_BITS) & EXP_MASK) as i32;
    let mant_raw: u64 = x & MANT_MASK;
    let class = classify(x);
    let ghost k = model::magnitude(x);
    let ghost f = model::binary64();
    proof {
        lemma_fields(x);
        bits::lemma_pow2_values();
        lemma_fundamental_div_mod(k, 0x10_0000_0000_0000);
    }
    match class {
        IeeeClass::Zero | IeeeClass::Inf | IeeeClass::NaN => {
            Unpacked { sign, exp: 0, mantissa: 0, class }
        },
        IeeeClass::Normal => {
            assert(mant_raw | 0x0010_0000_0000_0000 == mant_raw + 0x0010_0000_0000_0000)
                by (bit_vector)
                requires
                    mant_raw < 0x0010_0000_0000_0000,
            ;
            proof {
                let e = k / 0x10_0000_0000_0000;
                lemma_pow2_adds((e - 1) as nat, 52);
                let m = mant_raw + 0x10_0000_0000_0000;
                assert(model::mag(f, k) == m * pow2((e - 1) as nat));
                assert(model::mag(f, k) * pow2(52) == m * pow2((e + 51) as nat)) by (nonlinear_arith)
                    requires
                        model::mag(f, k) == m * pow2((e - 1) as nat),
                        pow2((e - 1) as nat) * pow2(52) == pow2((e + 51) as nat),
                ;
            }
            Unpacked { sign, exp: exp_raw - EXP_BIAS, mantissa: mant_raw | IMPLICIT_BIT, class }
        },
        IeeeClass::Subnormal => {
            proof {
                lemma_top_of_field(mant_raw);
            }
            let shift: i32 = mant_raw.leading_zeros() as i32 - 11;
            proof {
                let s = shift as nat;
                lemma_pow2_adds(s, (52 - s) as nat);
                assert(mant_raw * pow2(52) == (mant_raw * pow2(s)) * pow2((52 - s) as nat))
                    by (nonlinear_arith)
                    requires
                        pow2(52) == pow2(s) * pow2((52 - s) as nat),
                ;
                lemma_u64_shl_is_mul(mant_raw, shift as u64);
            }
            Unpacked { sign, exp: -1022 - shift, mantissa: mant_raw << shift, class }
        },
    }
}

/// A non-zero fraction field, shifted until its top bit reaches bit 52.
proof fn lemma_top_of_field(x: u64)
    requires
        0 < x < 0x10_0000_0000_0000,
    ensures
        12 <= u64_leading_zeros(x) <= 63,
        0x10_0000_0000_0000 <= x * pow2((u64_leading_zeros(x) - 11) as nat) < 0x20_0000_0000_0000,
{
    let l = u64_leading_zeros(x);
    bits::lemma_top_bit64(x);
    bits::lemma_pow2_values();
    if l < 12 {
        if l < 11 {
            lemma_pow2_strictly_increases(52, (63 - l) as nat);
        }
    }
    lemma_pow2_adds((63 - l) as nat, (l - 11) as nat);
    lemma_pow2_adds((64 - l) as nat, (l - 11) as nat);
    lemma_pow2_pos((l - 11) as nat);
    let s = pow2((l - 11) as nat) as int;
    assert(pow2((63 - l) as nat) * s <= x * s < pow2((64 - l) as nat) * s) by (nonlinear_arith)
        requires
            pow2((63 - l) as nat) <= x < pow2((64 - l) as nat),
            s > 0,
    ;
}

/// The pattern of the given sign and encoding.
proof fn lemma_sign_or(sign: u64, k: u64)
    requires
        sign <= 1,
        k < 0x8000_0000_0000_0000,
    ensures
        (sign << 63u32) | k == model::pattern(sign == 1, k as int),
        sign << 63u32 == model::pattern(sign == 1, 0),
        model::negative((sign << 63u32) | k) == (sign == 1),
        model::magnitude((sign << 63u32) | k) == k,
        model::negative(sign << 63u32) == (sign == 1),
        model::magnitude(sign << 63u32) == 0,
{
    assert((sign << 63u32) | k == sign * 0x8000_0000_0000_0000 + k) by (bit_vector)
        requires
            sign <= 1,
            k < 0x8000_0000_0000_0000,
    ;
    assert(sign << 63u32 == sign * 0x8000_0000_0000_0000) by (bit_vector)
        requires
            sign <= 1,
    ;
}

/// The zero of the given sign.
pub fn signed_zero(sign: u64) -> (r: u64)
    requires
        sign <= 1,
    ensures
        r == model::pattern(sign == 1, 0),
        model::negative(r) == (sign == 1),
        model::magnitude(r) == 0,
{
    proof {
        lemma_sign_or(sign, 0);
    }
    sign << 63u32
}

/// The infinity of the given sign.
pub fn signed_inf(sign: u64) -> (r: u64)
    requires
        sign <= 1,
    ensures
        r == model::pattern(sign == 1, POS_INF as int),
        model::negative(r) == (sign == 1),
        model::magnitude(r) == POS_INF,
{
    proof {
        lemma_sign_or(sign, POS_INF);
    }
    (sign << 63u32) | POS_INF
}

/// The result of an overflow: infinity, or the greatest finite number where the
/// mode points toward zero.
pub fn overflow_pack(sign: u64, mode: RoundingMode) -> (r: u64)
    requires
        sign <= 1,
    ensures
        r == model::pattern(
            sign == 1,
            if model::toward_zero(mode, sign == 1) {
                POS_INF - 1
            } else {
                POS_INF as int
            },
        ),
{
    let is_neg = sign == 1;
    proof {
        lemma_sign_or(sign, POS_INF);
        lemma_sign_or(sign, (POS_INF - 1) as u64);
    }
    let to_inf: u64 = (sign << 63u32) | POS_INF;
    let to_max: u64 = (sign << 63u32) | (POS_INF - 1);
    match mode {
        RoundingMode::Nearest => to_inf,
        RoundingMode::Up => if is_neg {
            to_max
        } else {
            to_inf
        },
        RoundingMode::Down => if is_neg {
            to_inf
        } else {
            to_max
        },
        RoundingMode::Zero => to_max,
    }
}

/// What the 64 bits below the last place add to a mantissa.
pub open spec fn increments(odd: bool, low: int, mode: RoundingMode, neg: bool) -> bool {
    if mode == RoundingMode::Nearest {
        low > 0x8000_0000_0000_0000 || (low == 0x8000_0000_0000_0000 && odd)
    } else if model::toward_zero(mode, neg) {
        false
    } else {
        low > 0
    }
}

/// Decides from the 64 bits below the last place whether the mantissa goes up.
fn increment(odd: bool, low: u64, sign: u64, mode: RoundingMode) -> (up: bool)
    requires
        sign <= 1,
    ensures
        up == increments(odd, low as int, mode, sign == 1),
{
    match mode {
        RoundingMode::Nearest => low > 0x8000_0000_0000_0000 || (low == 0x8000_0000_0000_0000
            && odd),
        RoundingMode::Down => sign == 1 && low != 0,
        RoundingMode::Up => sign == 0 && low != 0,
        RoundingMode::Zero => false,
    }
}

/// The halves of a staged word.
proof fn lemma_halves(m: u128)
    ensures
        (m >> 64u32) as u64 == m as int / 0x1_0000_0000_0000_0000,
        (m as u64) == m as int % 0x1_0000_0000_0000_0000,
{
    assert((m >> 64u32) == m / 0x1_0000_0000_0000_0000) by (bit_vector);
    assert((m as u64) as u128 == m % 0x1_0000_0000_0000_0000) by (bit_vector);
}

/// Reduces a staged word to a 53-bit mantissa. The second result is 1 where
/// rounding carried into the next binade, and then the mantissa is halved.
pub fn round_128(m_128: u128, sign: u64, mode: RoundingMode) -> (r: (u64, i32))
    requires
        sign <= 1,
        pow2(116) <= m_128 < pow2(117),
    ensures
        r.1 == 0 || r.1 == 1,
        0x10_0000_0000_0000 <= r.0 < 0x20_0000_0000_0000,
        r.0 + r.1 * 0x10_0000_0000_0000 == m_128 as int / 0x1_0000_0000_0000_0000 + if increments(
            (m_128 as int / 0x1_0000_0000_0000_0000) % 2 == 1,
            m_128 as int % 0x1_0000_0000_0000_0000,
            mode,
            sign == 1,
        ) {
            1int
        } else {
            0
        },
{
    let mantissa: u64 = (m_128 >> 64u32) as u64;
    let low: u64 = m_128 as u64;
    proof {
        lemma_halves(m_128);
        bits::lemma_pow2_values();
    }
    if increment(mantissa % 2 == 1, low, sign, mode) {
        let bumped: u64 = mantissa + 1;
        if bumped >= 0x20_0000_0000_0000 {
            (bumped / 2, 1)
        } else {
            (bumped, 0)
        }
    } else {
        (mantissa, 0)
    }
}

/// The pattern of a normal number.
pub fn assemble(sign: u64, biased: i32, mantissa: u64) -> (r: u64)
    requires
        sign <= 1,
        1 <= biased <= 2046,
        0x10_0000_0000_0000 <= mantissa < 0x20_0000_0000_0000,
    ensures
        r == model::pattern(sign == 1, (biased - 1) * 0x10_0000_0000_0000 + mantissa),
{
    let b: u64 = biased as u64;
    assert((sign << 63u32) | ((b & 0x7FF) << 52u32) | (mantissa & 0x000F_FFFF_FFFF_FFFF) == sign
        * 0x8000_0000_0000_0000 + (b - 1) * 0x10_0000_0000_0000 + mantissa) by (bit_vector)
        requires
            sign <= 1,
            1 <= b <= 2046,
            0x10_0000_0000_0000 <= mantissa < 0x20_0000_0000_0000,
    ;
    (sign << 63u32) | ((b & EXP_MASK) << MANT_BITS) | (mantissa & MANT_MASK)
}

/// Rounds a staged word once, at the last place that the result has, and packs it.
///
/// The word stands for `m_128 * 2^(exp_pre_round - 116)`, in units of `2^-1074`
/// that is `m_128 * 2^(exp_pre_round + 958)`. With `flush`, a word below the normal
/// range becomes a zero of its sign.
pub fn round_and_pack(
    m_128: u128,
    sign: u64,
    exp_pre_round: i32,
    mode: RoundingMode,
    flush: bool,
) -> (r: u64)
    requires
        sign <= 1,
        pow2(116) <= m_128 < pow2(117),
        exp_pre_round + EXP_BIAS <= i32::MAX,
    ensures
        ieee::delivers(
            flush,
            Exact::scaled(m_128 as int, exp_pre_round + 958),
            mode,
            sign == 1,
            r,
        ),
{
    let biased_pre: i32 = exp_pre_round + EXP_BIAS;
    let ghost q = exp_pre_round + 958;
    let ghost neg = sign == 1;
    proof {
        bits::lemma_pow2_values();
        staging::lemma_truncation_range(m_128 as int, q);
    }
    let r: u64 = if biased_pre > 2046 {
        proof {
            assert((q + 64) * 0x10_0000_0000_0000 >= 2046 * 0x10_0000_0000_0000);
        }
        overflow_pack(sign, mode)
    } else if biased_pre < 1 {
        if flush {
            signed_zero(sign)
        } else {
            let shift: u32 = (1 - biased_pre) as u32;
            let m: u128 = bits::shift_right_jam(m_128, shift);
            proof {
                lemma_subnormal_split(m_128 as int, shift as nat, mode, neg);
                lemma_halves(m);
            }
            let mantissa: u64 = (m >> 64u32) as u64;
            let low: u64 = m as u64;
            let up = increment(mantissa % 2 == 1, low, sign, mode);
            let mant_after: u64 = mantissa + if up {
                1
            } else {
                0
            };
            proof {
                lemma_sign_or(sign, mant_after);
            }
            (sign << 63u32) | mant_after
        }
    } else {
        let (rounded_m, round_bump) = round_128(m_128, sign, mode);
        let biased: i32 = biased_pre + round_bump;
        proof {
            assert(staging::bumps(m_128 as int, q, mode, neg) == increments(
                (m_128 as int / 0x1_0000_0000_0000_0000) % 2 == 1,
                m_128 as int % 0x1_0000_0000_0000_0000,
                mode,
                neg,
            ));
            assert(staging::truncated(m_128 as int, q) == (biased_pre - 1) * 0x10_0000_0000_0000
                + m_128 as int / 0x1_0000_0000_0000_0000);
        }
        if biased > 2046 {
            overflow_pack(sign, mode)
        } else {
            assemble(sign, biased, rounded_m)
        }
    };
    proof {
        let word = Exact::scaled(m_128 as int, q);
        staging::lemma_stage_word(m_128 as int, q);
        lemma_packed(word, m_128 as int, exp_pre_round as int, mode, neg, flush, r);
    }
    r
}

/// The encoding that rounding a word gives, with its sign, is the rounding of
/// whatever the word stands for, and nothing else is.
proof fn lemma_packed(
    x: Exact,
    m: int,
    exp: int,
    mode: RoundingMode,
    neg: bool,
    flush: bool,
    r: u64,
)
    requires
        x.valid(),
        staging::stands_for(x, m, exp + 958),
        pow2(116) <= m < pow2(117),
    ensures
        ieee::delivers(flush, x, mode, neg, r) == (r == model::pattern(
            neg,
            if flush && exp < -1022 {
                0
            } else {
                staging::round_bits(m, exp + 958, mode, neg)
            },
        )),
{
    let k = staging::round_bits(m, exp + 958, mode, neg);
    staging::lemma_tiny(x, m, exp + 958);
    staging::lemma_round(x, m, exp + 958, mode, neg);
    if model::is_rounded(x, mode, neg, r) {
        rounding::lemma_rounds_unique(model::binary64(), x, mode, neg, model::magnitude(r), k);
    }
}

/// Shifting a staged word down to the subnormal field keeps the mantissa and
/// the decision how to round.
proof fn lemma_subnormal_split(m: int, shift: nat, mode: RoundingMode, neg: bool)
    requires
        pow2(116) <= m < pow2(117),
        1 <= shift,
    ensures
        0 <= bits::jam(m, shift) / 0x1_0000_0000_0000_0000 < 0x10_0000_0000_0000,
        bits::jam(m, shift) / 0x1_0000_0000_0000_0000 == m / pow2(shift + 64) as int,
        increments(
            (bits::jam(m, shift) / 0x1_0000_0000_0000_0000) % 2 == 1,
            bits::jam(m, shift) % 0x1_0000_0000_0000_0000,
            mode,
            neg,
        ) == staging::bumps(m, -64 - shift, mode, neg),
{
    let w = 0x1_0000_0000_0000_0000int;
    let unit = pow2(shift + 64) as int;
    let n = m / unit;
    let j = bits::jam(m, shift);
    bits::lemma_pow2_values();
    lemma_pow2_adds(shift, 64);
    lemma_pow2_pos(shift);
    lemma_pow2_pos(shift + 64);
    staging::lemma_truncation_range(m, -64 - shift);
    lemma_fundamental_div_mod(m, unit);
    let s = pow2(shift) as int;
    assert(n * w * s == unit * n) by (nonlinear_arith)
        requires
            unit == s * w,
    ;
    assert((n + 1) * w * s == unit * n + unit) by (nonlinear_arith)
        requires
            unit == s * w,
    ;
    assert((n * w + 0x8000_0000_0000_0000) * s * 2 == 2 * (unit * n) + unit) by (nonlinear_arith)
        requires
            unit == s * w,
            w == 0x1_0000_0000_0000_0000,
    ;
    bits::lemma_jam(m, shift, n * w);
    bits::lemma_jam(m, shift, (n + 1) * w);
    bits::lemma_jam(m, shift, n * w + 0x8000_0000_0000_0000);
    assert(n * w <= j < n * w + w) by (nonlinear_arith)
        requires
            n * w <= j < (n + 1) * w,
    ;
    lemma_fundamental_div_mod_converse(j, w, n, j - n * w);
}

/// What a word is rounded to is the rounding of whatever the word stands for.
pub proof fn lemma_delivers(
    x: Exact,
    m: int,
    exp: int,
    mode: RoundingMode,
    neg: bool,
    flush: bool,
    r: u64,
)
    requires
        x.valid(),
        staging::stands_for(x, m, exp + 958),
        pow2(116) <= m < pow2(117),
        ieee::delivers(flush, Exact::scaled(m, exp + 958), mode, neg, r),
    ensures
        ieee::delivers(flush, x, mode, neg, r),
{
    staging::lemma_stage_word(m, exp + 958);
    lemma_packed(Exact::scaled(m, exp + 958), m, exp, mode, neg, flush, r);
    lemma_packed(x, m, exp, mode, neg, flush, r);
}

/// Operands that stand alike are delivered alike.
pub proof fn lemma_delivers_alike(
    flush: bool,
    x: Exact,
    y: Exact,
    mode: RoundingMode,
    neg: bool,
    r: u64,
)
    requires
        rounding::alike(x, y),
    ensures
        ieee::delivers(flush, x, mode, neg, r) == ieee::delivers(flush, y, mode, neg, r),
{
    assert(rounding::alike_at(x, y, pow2(52) as int, 1));
    rounding::lemma_alike(model::binary64(), x, y, mode, neg, model::magnitude(r));
}

/// A finite pattern is the rounding of its own value.
pub proof fn lemma_own_value(a: u64, mode: RoundingMode, flush: bool)
    requires
        model::finite(a),
        model::value(a) != 0,
        flush ==> !ieee::is_subnormal(a),
    ensures
        ieee::is_ratio(flush, model::value(a), 1, mode, a),
{
    let k = model::magnitude(a);
    bits::lemma_pow2_values();
    rounding::lemma_mag_at(model::binary64(), 0, 0);
    rounding::lemma_mag_at(model::binary64(), 0, pow2(52) as int);
    if flush && k > pow2(52) {
        rounding::lemma_mag_increases(model::binary64(), pow2(52) as int, k);
    }
    assert(pow2(52) * pow2(0) == pow2(52)) by (nonlinear_arith)
        requires
            pow2(0) == 1,
    ;
    rounding::lemma_mag_nonnegative(model::binary64(), k);
    rounding::lemma_representable(model::binary64(), mode, model::negative(a), k);
}

/// What the class tells of the value.
pub proof fn lemma_class_value(a: u64)
    ensures
        model::finite(a) == (!ieee::is_nan(a) && !ieee::is_inf(a)),
        (model::value(a) == 0) == ieee::is_zero(a),
        ieee::is_zero(a) ==> model::mag(model::binary64(), model::magnitude(a)) == 0,
        !ieee::is_zero(a) ==> model::mag(model::binary64(), model::magnitude(a)) > 0,
        !ieee::is_zero(a) ==> (model::value(a) < 0) == model::negative(a),
{
    let f = model::binary64();
    bits::lemma_pow2_values();
    assert(model::mag(f, 0) == 0);
    if model::magnitude(a) > 0 {
        rounding::lemma_mag_increases(f, 0, model::magnitude(a));
    }
}

} // verus!
