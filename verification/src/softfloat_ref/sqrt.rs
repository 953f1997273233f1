//! Square root.
use crate::bits;
use crate::ieee;
use crate::model::{Exact, IeeeClass};
use crate::model;
use crate::softfloat_ref::encoding;
use crate::softfloat_ref::encoding::{Unpacked, CANONICAL_QNAN, POS_INF};
use crate::staging;
use crate::RoundingMode;
use vstd::arithmetic::div_mod::*;
use vstd::arithmetic::power2::*;
use vstd::prelude::*;

verus! {

/// The integer square root and what it leaves, digit by digit: each round takes
/// two bits of `n` and gives one bit of the root.
pub fn isqrt_u128(n: u128) -> (r: (u128, u128))
    ensures
        r.0 * r.0 + r.1 == n,
        r.1 < 2 * r.0 + 1,
{
    let mut x: u128 = 0;
    let mut rem: u128 = 0;
    let mut round: u32 = 0;
    let ghost mut seen: int = 0;
    proof {
        bits::lemma_pow2_values();
        lemma_basic_div(n as int, pow2(128) as int);
    }
    while round < 64
        invariant
            round <= 64,
            seen == n as int / pow2((128 - 2 * round) as nat) as int,
            x * x + rem == seen,
            rem <= 2 * x,
            x < pow2(round as nat),
        decreases 64 - round,
    {
        let top: u128 = n >> (126 - 2 * round);
        let pair: u128 = top % 4;
        proof {
            let d = pow2((126 - 2 * round) as nat) as int;
            bits::lemma_shr128(n, (126 - 2 * round) as u32);
            lemma_pow2_adds((126 - 2 * round) as nat, 2);
            lemma2_to64();
            lemma_pow2_pos((126 - 2 * round) as nat);
            lemma_div_denominator(n as int, d, 4);
            assert(seen == top as int / 4);
            lemma_pow2_unfold((round + 1) as nat);
            if round < 63 {
                lemma_pow2_strictly_increases((round + 1) as nat, 64);
            }
            bits::lemma_pow2_values();
            lemma_digit(x as int, rem as int, top as int);
        }
        rem = rem * 4 + pair;
        let trial: u128 = x * 4 + 1;
        if rem >= trial {
            rem = rem - trial;
            x = x * 2 + 1;
        } else {
            x = x * 2;
        }
        proof {
            seen = top as int;
        }
        round = round + 1;
    }
    proof {
        lemma2_to64();
        assert(n as int / pow2(0) as int == n);
    }
    (x, rem)
}

/// One digit of the root.
proof fn lemma_digit(x: int, rem: int, top: int)
    requires
        0 <= x,
        0 <= rem <= 2 * x,
        x * x + rem == top / 4,
        top >= 0,
    ensures
        ({
            let left = rem * 4 + top % 4;
            if left >= x * 4 + 1 {
                (x * 2 + 1) * (x * 2 + 1) + (left - (x * 4 + 1)) == top && left - (x * 4 + 1) <= 2
                    * (x * 2 + 1)
            } else {
                (x * 2) * (x * 2) + left == top && left <= 2 * (x * 2)
            }
        }),
{
    assert((x * 2 + 1) * (x * 2 + 1) == 4 * (x * x) + 4 * x + 1) by (nonlinear_arith);
    assert((x * 2) * (x * 2) == 4 * (x * x)) by (nonlinear_arith);
}

/// The word `m` stands to `t` half units as the root of `ms` does to `4 * t`.
pub open spec fn root_tells(ms: int, m: int, t: int) -> bool {
    let d = 4 * t;
    &&& (ms < d * d) == (m < t * pow2(63))
    &&& (ms > d * d) == (m > t * pow2(63))
}

/// A word that stands as the root of the mantissa does stands for the root.
pub proof fn lemma_root_stage(a: u64, u: Unpacked, half: int, odd: int, ms: int, m: int)
    requires
        u.of(a),
        ieee::is_finite_nonzero(a),
        !model::negative(a),
        u.exp == 2 * half + odd,
        0 <= odd <= 1,
        ms == u.mantissa * pow2((58 + odd) as nat),
        forall|t: int| t >= 0 ==> #[trigger] root_tells(ms, m, t),
    ensures
        (Exact::Root { square: model::value(a) * pow2(1074) }).valid(),
        staging::stands_for(
            Exact::Root { square: model::value(a) * pow2(1074) },
            m,
            half + 958,
        ),
{
    let v = model::value(a);
    let square = v * pow2(1074);
    let x = Exact::Root { square };
    let q = half + 958;
    let g = pow2(1190) as int;
    encoding::lemma_class_value(a);
    assert(square >= 0) by (nonlinear_arith)
        requires
            square == v * pow2(1074),
            v >= 0,
    ;
    bits::lemma_pow2_values();
    let e = pow2((half + 2148) as nat) as int;
    // square * g^2 == ms * 2^122 * e^2
    lemma_pow2_adds(1074, 1190);
    lemma_pow2_adds(2264, 1190);
    lemma_pow2_adds((half + 2148) as nat, (half + 2148) as nat);
    lemma_pow2_adds((u.exp + 1074) as nat, 3454);
    lemma_pow2_adds(52, (58 + odd) as nat);
    lemma_pow2_adds((110 + odd) as nat, 122);
    lemma_pow2_adds((232 + odd) as nat, (2 * half + 4296) as nat);
    lemma_pow2_pos(52);
    lemma_pow2_pos((half + 2148) as nat);
    assert(square * (g * g) == (ms * pow2(122)) * (e * e)) by {
        let l = square * (g * g);
        let r = (ms * pow2(122)) * (e * e);
        assert(l == v * pow2(3454)) by (nonlinear_arith)
            requires
                l == v * pow2(1074) * (g * g),
                pow2(3454) == pow2(1074) * g * g,
        ;
        assert(l * pow2(52) == u.mantissa * pow2((u.exp + 4528) as nat)) by (nonlinear_arith)
            requires
                l == v * pow2(3454),
                v * pow2(52) == u.mantissa * pow2((u.exp + 1074) as nat),
                pow2((u.exp + 1074) as nat) * pow2(3454) == pow2((u.exp + 4528) as nat),
        ;
        assert(r * pow2(52) == u.mantissa * pow2((u.exp + 4528) as nat)) by (nonlinear_arith)
            requires
                r == (u.mantissa * pow2((58 + odd) as nat) * pow2(122)) * (e * e),
                pow2((u.exp + 4528) as nat) == pow2(52) * pow2((58 + odd) as nat) * pow2(122) * (e
                    * e),
        ;
        assert(l == r) by (nonlinear_arith)
            requires
                l * pow2(52) == r * pow2(52),
                pow2(52) > 0,
        ;
    }
    lemma_pow2_adds(61, 61);
    let w = 0x2000_0000_0000_0000int;
    assert forall|t: int| t >= 0 implies #[trigger] staging::agrees_at(x, m, q, t) by {
        let d = 4 * t;
        let p = t * pow2(63) * pow2((q + 1190) as nat);
        assert(t * pow2(63) == d * w);
        assert(p * p == (d * d) * pow2(122) * (e * e)) by (nonlinear_arith)
            requires
                p == d * w * e,
                pow2(122) == w * w,
        ;
        let f = pow2(122) * (e * e);
        assert(f > 0) by (nonlinear_arith)
            requires
                f == pow2(122) * (e * e),
                pow2(122) == w * w,
                w == 0x2000_0000_0000_0000,
                e > 0,
        ;
        assert(square * (g * g) == ms * f && p * p == (d * d) * f) by (nonlinear_arith)
            requires
                square * (g * g) == (ms * pow2(122)) * (e * e),
                p * p == (d * d) * pow2(122) * (e * e),
                f == pow2(122) * (e * e),
        ;
        assert((ms * f < (d * d) * f) == (ms < d * d) && (ms * f > (d * d) * f) == (ms > d * d))
            by (nonlinear_arith)
            requires
                f > 0,
        ;
        assert(root_tells(ms, m, t));
    }
}

/// An integer root with its remainder folded in stands as the root does.
proof fn lemma_integer_root_tells(ms: int, root: int, rem: int, m: int)
    requires
        root >= 0,
        root * root + rem == ms,
        0 <= rem <= 2 * root,
        m == root * 0x2000_0000_0000_0000 + if rem != 0 {
            1int
        } else {
            0
        },
    ensures
        forall|t: int| t >= 0 ==> #[trigger] root_tells(ms, m, t),
{
    bits::lemma_pow2_values();
    assert forall|t: int| t >= 0 implies #[trigger] root_tells(ms, m, t) by {
        let d = 4 * t;
        assert(t * pow2(63) == d * 0x2000_0000_0000_0000);
        assert((ms < d * d) == (root < d) && (root > d ==> ms > d * d)) by (nonlinear_arith)
            requires
                root * root + rem == ms,
                0 <= rem <= 2 * root,
                d >= 0,
        ;
    }
}

/// The square root of a positive finite number.
pub fn sqrt_positive(a: u64, ua: Unpacked, mode: RoundingMode) -> (r: u64)
    requires
        ua.of(a),
        ieee::is_finite_nonzero(a),
        !model::negative(a),
    ensures
        model::is_rounded(Exact::Root { square: model::value(a) * pow2(1074) }, mode, false, r),
{
    proof {
        encoding::lemma_class_value(a);
        bits::lemma_pow2_values();
        lemma_pow2_adds(52, 6);
        lemma_pow2_adds(53, 6);
        lemma2_to64();
    }
    // The exponent is made even; the root of a 111- or 112-bit number has 56 bits.
    let lifted: u32 = (ua.exp + 1074) as u32;
    let odd: u32 = lifted % 2;
    let exp_div2: i32 = (lifted / 2) as i32 - 537;
    proof {
        let n = (58 + odd) as nat;
        assert(pow2(n) == if odd == 0 {
            0x400_0000_0000_0000int
        } else {
            0x800_0000_0000_0000
        });
        assert(0x4000_0000_0000_0000_0000_0000_0000 <= ua.mantissa * pow2(n)
            < 0x1_0000_0000_0000_0000_0000_0000_0000) by (nonlinear_arith)
            requires
                0x10_0000_0000_0000 <= ua.mantissa < 0x20_0000_0000_0000,
                0x400_0000_0000_0000 <= pow2(n) <= 0x800_0000_0000_0000,
        ;
        bits::lemma_shl128(ua.mantissa as u128, (58 + odd) as u32);
    }
    let m_shifted: u128 = (ua.mantissa as u128) << (58 + odd);
    let (root, remainder) = isqrt_u128(m_shifted);
    proof {
        assert(0x80_0000_0000_0000 <= root < 0x100_0000_0000_0000) by (nonlinear_arith)
            requires
                root * root + remainder == m_shifted,
                0 <= remainder <= 2 * root,
                0x4000_0000_0000_0000_0000_0000_0000 <= m_shifted
                    < 0x1_0000_0000_0000_0000_0000_0000_0000,
        ;
        bits::lemma_shl128(root, 61);
    }
    let staged: u128 = root << 61u32;
    let m_128: u128 = if remainder != 0 {
        staged + 1
    } else {
        staged
    };
    let r = encoding::round_and_pack(m_128, 0, exp_div2, mode, false);
    proof {
        let x = Exact::Root { square: model::value(a) * pow2(1074) };
        lemma_integer_root_tells(
            m_shifted as int,
            root as int,
            remainder as int,
            m_128 as int,
        );
        lemma_root_stage(a, ua, exp_div2 as int, odd as int, m_shifted as int, m_128 as int);
        encoding::lemma_delivers(x, m_128 as int, exp_div2 as int, mode, false, false, r);
    }
    r
}

/// The square root. Zeros keep their sign; any other negative operand gives the
/// canonical NaN.
#[must_use]
pub fn fsqrt(a: u64, mode: RoundingMode) -> (r: u64)
    ensures
        ieee::is_root(a, mode, r),
{
    let ua = encoding::unpack(a);
    proof {
        encoding::lemma_class_value(a);
    }
    match ua.class {
        IeeeClass::NaN => CANONICAL_QNAN,
        IeeeClass::Zero => a,
        IeeeClass::Inf => if ua.sign == 1 {
            CANONICAL_QNAN
        } else {
            POS_INF
        },
        _ => if ua.sign == 1 {
            CANONICAL_QNAN
        } else {
            sqrt_positive(a, ua, mode)
        },
    }
}

} // verus!
