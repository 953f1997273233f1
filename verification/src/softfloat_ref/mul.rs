//! Multiplication and fused multiply-add.
use crate::bits;
use crate::ieee;
use crate::model::{Exact, IeeeClass};
use crate::model;
use crate::rounding;
use crate::softfloat_ref::add;
use crate::softfloat_ref::add::Staged;
use crate::softfloat_ref::encoding;
use crate::softfloat_ref::encoding::{Unpacked, CANONICAL_QNAN};
use crate::staging;
use crate::RoundingMode;
use vstd::arithmetic::div_mod::*;
use vstd::arithmetic::mul::*;
use vstd::arithmetic::power2::*;
use vstd::prelude::*;

verus! {

/// The exact product of two finite non-zero numbers as a term.
pub fn product(a: u64, ua: Unpacked, b: u64, ub: Unpacked) -> (s: Staged)
    requires
        ua.of(a),
        ub.of(b),
        ieee::is_finite_nonzero(a),
        ieee::is_finite_nonzero(b),
    ensures
        s.wf(),
        s.scaled() == model::value(a) * model::value(b) * pow2(116),
        s.sign == if ua.sign == ub.sign { 0u64 } else { 1u64 },
        (s.sign == 1) == (model::value(a) * model::value(b) < 0),
{
    let sign: u64 = if ua.sign == ub.sign {
        0
    } else {
        1
    };
    proof {
        bits::lemma_pow2_values();
        lemma_mul_bounds(ua.mantissa as int, ub.mantissa as int);
    }
    // 53 by 53 bits: the top bit of the product is bit 104 or 105.
    let p: u128 = (ua.mantissa as u128) * (ub.mantissa as u128);
    let ghost v = model::mag(model::binary64(), model::magnitude(a)) * model::mag(
        model::binary64(),
        model::magnitude(b),
    );
    proof {
        lemma_product_size(a, ua, b, ub);
        encoding::lemma_class_value(a);
        encoding::lemma_class_value(b);
        lemma_signed_product(
            model::negative(a),
            model::mag(model::binary64(), model::magnitude(a)),
            model::negative(b),
            model::mag(model::binary64(), model::magnitude(b)),
            pow2(116) as int,
        );
        lemma_mod_multiples_basic(v, pow2(116) as int);
    }
    if p >= 0x200_0000_0000_0000_0000_0000_0000 {
        proof {
            bits::lemma_shl128(p, 11);
            lemma_pow2_unfold((ua.exp + ub.exp + 2160) as nat);
            assert((p * 2048) * pow2((ua.exp + ub.exp + 2149) as nat) == v * pow2(116))
                by (nonlinear_arith)
                requires
                    p * pow2((ua.exp + ub.exp + 2160) as nat) == v * pow2(116),
                    pow2((ua.exp + ub.exp + 2160) as nat) == 2048 * pow2(
                        (ua.exp + ub.exp + 2149) as nat,
                    ),
            ;
        }
        Staged { sign, exp: ua.exp + ub.exp + 1, m: p << 11u32 }
    } else {
        proof {
            bits::lemma_shl128(p, 12);
            assert((p * 4096) * pow2((ua.exp + ub.exp + 2148) as nat) == v * pow2(116))
                by (nonlinear_arith)
                requires
                    p * pow2((ua.exp + ub.exp + 2160) as nat) == v * pow2(116),
                    pow2((ua.exp + ub.exp + 2160) as nat) == 4096 * pow2(
                        (ua.exp + ub.exp + 2148) as nat,
                    ),
            ;
        }
        Staged { sign, exp: ua.exp + ub.exp, m: p << 12u32 }
    }
}

proof fn lemma_mul_bounds(x: int, y: int)
    requires
        0x10_0000_0000_0000 <= x < 0x20_0000_0000_0000,
        0x10_0000_0000_0000 <= y < 0x20_0000_0000_0000,
    ensures
        0x100_0000_0000_0000_0000_0000_0000 <= x * y < 0x400_0000_0000_0000_0000_0000_0000,
{
    assert(0x10_0000_0000_0000 * 0x10_0000_0000_0000 <= x * y && x * y < 0x20_0000_0000_0000
        * 0x20_0000_0000_0000) by (nonlinear_arith)
        requires
            0x10_0000_0000_0000 <= x < 0x20_0000_0000_0000,
            0x10_0000_0000_0000 <= y < 0x20_0000_0000_0000,
    ;
}

/// The product of the mantissas, put to scale.
proof fn lemma_product_size(a: u64, ua: Unpacked, b: u64, ub: Unpacked)
    requires
        ua.of(a),
        ub.of(b),
        ieee::is_finite_nonzero(a),
        ieee::is_finite_nonzero(b),
    ensures
        -2148 <= ua.exp + ub.exp <= 2046,
        (ua.mantissa * ub.mantissa) * pow2((ua.exp + ub.exp + 2160) as nat) == (model::mag(
            model::binary64(),
            model::magnitude(a),
        ) * model::mag(model::binary64(), model::magnitude(b))) * pow2(116),
        pow2((ua.exp + ub.exp + 2160) as nat) == 2048 * pow2((ua.exp + ub.exp + 2149) as nat),
        pow2((ua.exp + ub.exp + 2160) as nat) == 4096 * pow2((ua.exp + ub.exp + 2148) as nat),
{
    let va = model::mag(model::binary64(), model::magnitude(a));
    let vb = model::mag(model::binary64(), model::magnitude(b));
    let e = (ua.exp + 1074) as nat;
    let f = (ub.exp + 1074) as nat;
    encoding::lemma_class_value(a);
    encoding::lemma_class_value(b);
    bits::lemma_pow2_values();
    lemma_pow2_adds(e, f);
    lemma_pow2_adds(e + f, 12);
    lemma_pow2_adds(e + f + 1, 11);
    lemma_pow2_adds(52, 52);
    lemma_pow2_adds(104, 12);
    assert((ua.mantissa * ub.mantissa) * pow2(e + f + 12) == (va * vb) * pow2(116))
        by (nonlinear_arith)
        requires
            va * pow2(52) == ua.mantissa * pow2(e),
            vb * pow2(52) == ub.mantissa * pow2(f),
            pow2(e + f + 12) == pow2(e) * pow2(f) * pow2(12),
            pow2(116) == pow2(52) * pow2(52) * pow2(12),
    ;
}

/// Signs multiply apart from magnitudes.
proof fn lemma_signed_product(na: bool, va: int, nb: bool, vb: int, g: int)
    requires
        va > 0,
        vb > 0,
    ensures
        model::signed(na, va) * model::signed(nb, vb) * g == model::signed(na != nb, va * vb * g),
        (model::signed(na, va) * model::signed(nb, vb) < 0) == (na != nb),
        ieee::abs(model::signed(na, va) * model::signed(nb, vb)) == va * vb,
{
    assert(va * vb > 0) by (nonlinear_arith)
        requires
            va > 0,
            vb > 0,
    ;
    assert((-va) * vb == -(va * vb) && va * (-vb) == -(va * vb) && (-va) * (-vb) == va * vb)
        by (nonlinear_arith);
    assert((-(va * vb)) * g == -(va * vb * g)) by (nonlinear_arith);
}

/// The product of two finite non-zero numbers.
pub fn mul_nonzero(
    a: u64,
    ua: Unpacked,
    b: u64,
    ub: Unpacked,
    mode: RoundingMode,
    flush: bool,
) -> (r: u64)
    requires
        ua.of(a),
        ub.of(b),
        ieee::is_finite_nonzero(a),
        ieee::is_finite_nonzero(b),
    ensures
        ({
            let exact = model::value(a) * model::value(b);
            ieee::delivers(
                flush,
                Exact::Ratio { num: ieee::abs(exact), den: pow2(1074) as int },
                mode,
                exact < 0,
                r,
            )
        }),
{
    let p = product(a, ua, b, ub);
    let r = encoding::round_and_pack(p.m, p.sign, p.exp, mode, flush);
    proof {
        let exact = model::value(a) * model::value(b);
        let g = pow2(116) as int;
        lemma_pow2_pos(116);
        lemma_pow2_pos(1190);
        lemma_pow2_adds(1074, 116);
        assert(ieee::abs(exact * g) == ieee::abs(exact) * g) by (nonlinear_arith)
            requires
                g > 0,
        ;
        assert(p.size() >= 0) by (nonlinear_arith)
            requires
                p.size() == p.m * pow2((p.exp + 2148) as nat),
        ;
        let x = Exact::Ratio { num: ieee::abs(exact), den: pow2(1074) as int };
        let y = Exact::Ratio { num: ieee::abs(exact) * g, den: pow2(1074) as int * g };
        staging::lemma_stage_exact(p.size(), p.m as int, p.exp + 958);
        encoding::lemma_delivers(y, p.m as int, p.exp as int, mode, p.sign == 1, flush, r);
        rounding::lemma_higher_terms(ieee::abs(exact), pow2(1074) as int, g);
        encoding::lemma_delivers_alike(flush, x, y, mode, exact < 0, r);
    }
    r
}

/// `a * b`. Zero times infinity, like any NaN operand, gives the canonical NaN.
#[must_use]
pub fn fmul(a: u64, b: u64, mode: RoundingMode) -> (r: u64)
    ensures
        ieee::is_product(false, a, b, mode, r),
{
    mul_with(a, b, mode, false)
}

/// `a * b`, with a choice for results below the normal range.
pub fn mul_with(a: u64, b: u64, mode: RoundingMode, flush: bool) -> (r: u64)
    ensures
        ieee::is_product(flush, a, b, mode, r),
{
    let ua = encoding::unpack(a);
    let ub = encoding::unpack(b);
    let sign: u64 = if ua.sign == ub.sign {
        0
    } else {
        1
    };
    proof {
        encoding::lemma_class_value(a);
        encoding::lemma_class_value(b);
    }
    match (ua.class, ub.class) {
        (IeeeClass::NaN, _) | (_, IeeeClass::NaN) => CANONICAL_QNAN,
        (IeeeClass::Zero, IeeeClass::Inf) | (IeeeClass::Inf, IeeeClass::Zero) => CANONICAL_QNAN,
        (IeeeClass::Inf, _) | (_, IeeeClass::Inf) => encoding::signed_inf(sign),
        (IeeeClass::Zero, _) | (_, IeeeClass::Zero) => encoding::signed_zero(sign),
        _ => mul_nonzero(a, ua, b, ub, mode, flush),
    }
}

/// `a * b + c` of finite non-zero numbers, with one rounding.
pub fn fma_nonzero(
    a: u64,
    ua: Unpacked,
    b: u64,
    ub: Unpacked,
    c: u64,
    uc: Unpacked,
    mode: RoundingMode,
    flush: bool,
) -> (r: u64)
    requires
        ua.of(a),
        ub.of(b),
        uc.of(c),
        ieee::is_finite_nonzero(a),
        ieee::is_finite_nonzero(b),
        ieee::is_finite_nonzero(c),
    ensures
        ({
            let exact = model::value(a) * model::value(b) + model::value(c) * pow2(1074);
            if exact == 0 {
                r == ieee::zero(mode == RoundingMode::Down)
            } else {
                ieee::delivers(
                    flush,
                    Exact::Ratio { num: ieee::abs(exact), den: pow2(1074) as int },
                    mode,
                    exact < 0,
                    r,
                )
            }
        }),
{
    let r = add::add_staged(product(a, ua, b, ub), add::stage(c, uc), mode, flush);
    proof {
        let p = model::value(a) * model::value(b);
        let vc = model::value(c);
        let exact = p + vc * pow2(1074);
        let g = pow2(116) as int;
        lemma_pow2_pos(116);
        lemma_pow2_adds(1074, 116);
        assert(p * g + vc * pow2(1190) == exact * g) by (nonlinear_arith)
            requires
                exact == p + vc * pow2(1074),
                pow2(1190) == pow2(1074) * g,
        ;
        assert((exact * g == 0) == (exact == 0) && (exact * g < 0) == (exact < 0) && ieee::abs(
            exact * g,
        ) == ieee::abs(exact) * g) by (nonlinear_arith)
            requires
                g > 0,
        ;
        rounding::lemma_higher_terms(ieee::abs(exact), pow2(1074) as int, g);
        encoding::lemma_delivers_alike(
            flush,
            Exact::Ratio { num: ieee::abs(exact), den: pow2(1074) as int },
            Exact::Ratio { num: ieee::abs(exact) * g, den: pow2(1074) as int * g },
            mode,
            exact < 0,
            r,
        );
    }
    r
}

/// `a * b + c` with a single rounding: the product enters the sum exactly.
///
/// Zero times infinity gives the canonical NaN whatever `c` is, and so does an
/// infinite product with an infinity of the opposite sign.
#[must_use]
pub fn fma(a: u64, b: u64, c: u64, mode: RoundingMode) -> (r: u64)
    ensures
        ieee::is_fused(false, a, b, c, mode, r),
{
    fma_with(a, b, c, mode, false)
}

/// `a * b + c` with a single rounding and a choice for results below the normal
/// range.
pub fn fma_with(a: u64, b: u64, c: u64, mode: RoundingMode, flush: bool) -> (r: u64)
    requires
        flush ==> !ieee::is_subnormal(c),
    ensures
        ieee::is_fused(flush, a, b, c, mode, r),
{
    let ua = encoding::unpack(a);
    let ub = encoding::unpack(b);
    let uc = encoding::unpack(c);
    let prod_sign: u64 = if ua.sign == ub.sign {
        0
    } else {
        1
    };
    proof {
        encoding::lemma_class_value(a);
        encoding::lemma_class_value(b);
        encoding::lemma_class_value(c);
    }
    if ua.class == IeeeClass::NaN || ub.class == IeeeClass::NaN || uc.class == IeeeClass::NaN {
        return CANONICAL_QNAN;
    }
    if (ua.class == IeeeClass::Zero && ub.class == IeeeClass::Inf) || (ua.class == IeeeClass::Inf
        && ub.class == IeeeClass::Zero) {
        return CANONICAL_QNAN;
    }
    if ua.class == IeeeClass::Inf || ub.class == IeeeClass::Inf {
        if uc.class == IeeeClass::Inf && uc.sign != prod_sign {
            return CANONICAL_QNAN;
        }
        return encoding::signed_inf(prod_sign);
    }
    if uc.class == IeeeClass::Inf {
        return encoding::signed_inf(uc.sign);
    }
    let ghost g = pow2(1074) as int;
    if ua.class == IeeeClass::Zero || ub.class == IeeeClass::Zero {
        if uc.class == IeeeClass::Zero {
            let sign: u64 = if prod_sign == uc.sign {
                prod_sign
            } else if mode == RoundingMode::Down {
                1
            } else {
                0
            };
            return encoding::signed_zero(sign);
        }
        proof {
            let vc = model::value(c);
            lemma_pow2_pos(1074);
            assert(model::value(a) * model::value(b) == 0) by (nonlinear_arith)
                requires
                    model::value(a) == 0 || model::value(b) == 0,
            ;
            encoding::lemma_own_value(c, mode, flush);
            assert(vc * g != 0 && (vc * g < 0) == (vc < 0) && ieee::abs(vc * g) == ieee::abs(vc)
                * g) by (nonlinear_arith)
                requires
                    g > 0,
                    vc != 0,
            ;
            rounding::lemma_higher_terms(ieee::abs(vc), 1, g);
            encoding::lemma_delivers_alike(
                flush,
                Exact::Ratio { num: ieee::abs(vc), den: 1 },
                Exact::Ratio { num: ieee::abs(vc) * g, den: 1 * g },
                mode,
                vc < 0,
                c,
            );
        }
        return c;
    }
    if uc.class == IeeeClass::Zero {
        proof {
            assert(model::value(c) * g == 0) by (nonlinear_arith)
                requires
                    model::value(c) == 0,
            ;
            lemma_signed_product(
                model::negative(a),
                model::mag(model::binary64(), model::magnitude(a)),
                model::negative(b),
                model::mag(model::binary64(), model::magnitude(b)),
                1,
            );
            assert(model::mag(model::binary64(), model::magnitude(a)) * model::mag(
                model::binary64(),
                model::magnitude(b),
            ) > 0) by (nonlinear_arith)
                requires
                    model::mag(model::binary64(), model::magnitude(a)) > 0,
                    model::mag(model::binary64(), model::magnitude(b)) > 0,
            ;
        }
        return mul_with(a, b, mode, flush);
    }
    fma_nonzero(a, ua, b, ub, c, uc, mode, flush)
}

} // verus!
