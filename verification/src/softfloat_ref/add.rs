//! Addition and subtraction.
use crate::bits;
use crate::ieee;
use crate::model::{Exact, IeeeClass};
use crate::model;
use crate::rounding;
use crate::softfloat_ref::encoding;
use crate::softfloat_ref::encoding::{Unpacked, CANONICAL_QNAN};
use crate::staging;
use crate::RoundingMode;
use vstd::arithmetic::div_mod::*;
use vstd::arithmetic::power2::*;
use vstd::prelude::*;

verus! {

/// A term of a sum: a staged word with its sign and exponent.
#[derive(Clone, Copy)]
pub struct Staged {
    pub sign: u64,
    pub exp: i32,
    pub m: u128,
}

impl Staged {
    /// The magnitude in units of `2^-2264`.
    pub open spec fn size(self) -> int {
        self.m * pow2((self.exp + 2148) as nat)
    }

    /// The term itself.
    pub open spec fn scaled(self) -> int {
        model::signed(self.sign == 1, self.size())
    }

    /// The top bit is in place, and the term is a multiple of `2^-2148`.
    pub open spec fn wf(self) -> bool {
        &&& self.sign <= 1
        &&& pow2(116) <= self.m < pow2(117)
        &&& self.m % 2048 == 0
        &&& -2148 <= self.exp <= 2048
        &&& self.size() % (pow2(116) as int) == 0
    }
}

/// The lower term, shifted to the exponent of the higher one, keeps the order of
/// the sum against every even number of units.
proof fn lemma_aligned_sum(big: int, sml: int, shift: nat, minus: bool, w: int)
    requires
        sml >= 0,
        big % 2 == 0,
        w % 2 == 0,
    ensures
        ({
            let d = pow2(shift) as int;
            let j = bits::jam(sml, shift);
            let exact = big * d + model::signed(minus, sml);
            let word = big + model::signed(minus, j);
            (exact < w * d) == (word < w) && (exact > w * d) == (word > w)
        }),
{
    let d = pow2(shift) as int;
    if minus {
        bits::lemma_jam(sml, shift, big - w);
        assert((big - w) * d == big * d - w * d) by (nonlinear_arith);
    } else {
        bits::lemma_jam(sml, shift, w - big);
        assert((w - big) * d == w * d - big * d) by (nonlinear_arith);
    }
}

/// The exact sum of two terms, the second of them negated if `minus`.
spec fn total(big: Staged, sml: Staged, minus: bool) -> int {
    big.size() + model::signed(minus, sml.size())
}

/// The word that adding the aligned words gives.
spec fn word(big: Staged, sml: Staged, minus: bool) -> int {
    big.m + model::signed(minus, bits::jam(sml.m as int, (big.exp - sml.exp) as nat))
}

/// The word stands to every even number of units as the exact sum does.
proof fn lemma_sum_order(big: Staged, sml: Staged, minus: bool, w: int)
    requires
        big.wf(),
        sml.wf(),
        big.exp >= sml.exp,
        w % 2 == 0,
    ensures
        (total(big, sml, minus) < w * pow2((big.exp + 2148) as nat)) == (word(big, sml, minus) < w),
        (total(big, sml, minus) > w * pow2((big.exp + 2148) as nat)) == (word(big, sml, minus) > w),
{
    let shift = (big.exp - sml.exp) as nat;
    let d = pow2(shift) as int;
    let e0 = pow2((sml.exp + 2148) as nat) as int;
    let exact = big.m * d + model::signed(minus, sml.m as int);
    lemma_aligned_sum(big.m as int, sml.m as int, shift, minus, w);
    lemma_pow2_adds(shift, (sml.exp + 2148) as nat);
    lemma_pow2_pos((sml.exp + 2148) as nat);
    let e1 = pow2((big.exp + 2148) as nat) as int;
    let t = total(big, sml, minus);
    assert(t == exact * e0) by {
        assert(big.m * e1 == big.m * d * e0) by (nonlinear_arith)
            requires
                e1 == d * e0,
        ;
        if minus {
            assert((big.m * d - sml.m) * e0 == big.m * d * e0 - sml.m * e0) by (nonlinear_arith);
        } else {
            assert((big.m * d + sml.m) * e0 == big.m * d * e0 + sml.m * e0) by (nonlinear_arith);
        }
    }
    assert((t < w * e1) == (exact < w * d) && (t > w * e1) == (exact > w * d))
        by (nonlinear_arith)
        requires
            t == exact * e0,
            e1 == d * e0,
            e0 > 0,
    ;
}

/// The exact sum as a magnitude.
spec fn sum_of(t: int) -> Exact {
    Exact::Ratio { num: t, den: pow2(1190) as int }
}

/// The word as it is.
proof fn lemma_plain(big: Staged, sml: Staged, minus: bool)
    requires
        big.wf(),
        sml.wf(),
        big.exp >= sml.exp,
    ensures
        staging::stands_for(
            sum_of(total(big, sml, minus)),
            word(big, sml, minus),
            big.exp + 958,
        ),
{
    bits::lemma_pow2_values();
    assert forall|t: int| t >= 0 implies {
        let w = #[trigger] (t * pow2(63));
        &&& (total(big, sml, minus) < w * pow2((big.exp + 958 + 1190) as nat)) == (word(
            big,
            sml,
            minus,
        ) < w)
        &&& (total(big, sml, minus) > w * pow2((big.exp + 958 + 1190) as nat)) == (word(
            big,
            sml,
            minus,
        ) > w)
    } by {
        let w = t * pow2(63);
        assert(w == 2 * (t * 0x4000_0000_0000_0000));
        lemma_sum_order(big, sml, minus, w);
    }
    staging::lemma_stage(total(big, sml, minus), word(big, sml, minus), big.exp + 958);
}

/// The word with its carry shifted back in.
proof fn lemma_carried(big: Staged, sml: Staged, minus: bool)
    requires
        big.wf(),
        sml.wf(),
        big.exp >= sml.exp,
        word(big, sml, minus) >= 0,
    ensures
        staging::stands_for(
            sum_of(total(big, sml, minus)),
            bits::jam(word(big, sml, minus), 1),
            big.exp + 959,
        ),
{
    let c = word(big, sml, minus);
    let e1 = pow2((big.exp + 2148) as nat) as int;
    bits::lemma_pow2_values();
    lemma_pow2_unfold((big.exp + 2149) as nat);
    assert forall|t: int| t >= 0 implies {
        let w = #[trigger] (t * pow2(63));
        &&& (total(big, sml, minus) < w * pow2((big.exp + 959 + 1190) as nat)) == (bits::jam(c, 1)
            < w)
        &&& (total(big, sml, minus) > w * pow2((big.exp + 959 + 1190) as nat)) == (bits::jam(c, 1)
            > w)
    } by {
        let w = t * pow2(63);
        assert(w == 2 * (t * 0x4000_0000_0000_0000));
        lemma_sum_order(big, sml, minus, 2 * w);
        bits::lemma_jam(c, 1, w);
        assert(w * (2 * e1) == 2 * w * e1) by (nonlinear_arith);
    }
    staging::lemma_stage(total(big, sml, minus), bits::jam(c, 1), big.exp + 959);
}

/// The word moved up by one place.
proof fn lemma_doubled(big: Staged, sml: Staged, minus: bool)
    requires
        big.wf(),
        sml.wf(),
        big.exp >= sml.exp,
        big.exp > -2148,
    ensures
        staging::stands_for(
            sum_of(total(big, sml, minus)),
            2 * word(big, sml, minus),
            big.exp + 957,
        ),
{
    let c = word(big, sml, minus);
    let e1 = pow2((big.exp + 2147) as nat) as int;
    bits::lemma_pow2_values();
    lemma_pow2_unfold((big.exp + 2148) as nat);
    assert forall|t: int| t >= 0 implies {
        let w = #[trigger] (t * pow2(63));
        &&& (total(big, sml, minus) < w * pow2((big.exp + 957 + 1190) as nat)) == (2 * c < w)
        &&& (total(big, sml, minus) > w * pow2((big.exp + 957 + 1190) as nat)) == (2 * c > w)
    } by {
        let h = t * 0x4000_0000_0000_0000;
        assert(t * pow2(63) == 2 * h);
        assert(h == 2 * (t * 0x2000_0000_0000_0000));
        lemma_sum_order(big, sml, minus, h);
        assert(h * (2 * e1) == 2 * h * e1) by (nonlinear_arith);
    }
    staging::lemma_stage(total(big, sml, minus), 2 * c, big.exp + 957);
}

/// Where the exponents differ by at most one nothing is lost.
proof fn lemma_lossless(big: Staged, sml: Staged, minus: bool)
    requires
        big.wf(),
        sml.wf(),
        0 <= big.exp - sml.exp <= 1,
    ensures
        total(big, sml, minus) == word(big, sml, minus) * pow2((big.exp + 2148) as nat),
{
    let shift = (big.exp - sml.exp) as nat;
    bits::lemma_pow2_values();
    let j = bits::jam(sml.m as int, shift);
    assert(sml.m == j * pow2(shift)) by {
        if shift == 0 {
            assert(pow2(shift) == 1);
        } else {
            assert(pow2(shift) == 2);
        }
    }
    lemma_pow2_adds(shift, (sml.exp + 2148) as nat);
    let e0 = pow2((sml.exp + 2148) as nat) as int;
    let e1 = pow2((big.exp + 2148) as nat) as int;
    assert(sml.m * e0 == j * e1) by (nonlinear_arith)
        requires
            sml.m == j * pow2(shift),
            e1 == pow2(shift) * e0,
    ;
    assert((big.m + j) * e1 == big.m * e1 + j * e1) by (nonlinear_arith);
    assert((big.m - j) * e1 == big.m * e1 - j * e1) by (nonlinear_arith);
}

/// An exact word moved up to the top.
proof fn lemma_normalized(big: Staged, sml: Staged, minus: bool, s: nat)
    requires
        big.wf(),
        sml.wf(),
        0 <= big.exp - sml.exp <= 1,
        total(big, sml, minus) > 0,
        word(big, sml, minus) * pow2(s) < pow2(117),
    ensures
        big.exp + 958 - s >= -1190,
        staging::stands_for(
            sum_of(total(big, sml, minus)),
            word(big, sml, minus) * pow2(s),
            big.exp + 958 - s,
        ),
{
    let c = word(big, sml, minus);
    let e = big.exp + 2148;
    let t0 = total(big, sml, minus);
    let m = c * pow2(s);
    lemma_lossless(big, sml, minus);
    bits::lemma_pow2_values();
    lemma_pow2_pos(e as nat);
    lemma_pow2_pos(s);
    // Both terms are multiples of 2^116, and so is their sum.
    let g = pow2(116) as int;
    assert(t0 >= g) by {
        lemma_fundamental_div_mod(big.size(), g);
        lemma_fundamental_div_mod(sml.size(), g);
        let a = big.size() / g;
        let b = sml.size() / g;
        if minus {
            assert(t0 == (a - b) * g) by (nonlinear_arith)
                requires
                    t0 == g * a - g * b,
            ;
            assert(t0 >= g) by (nonlinear_arith)
                requires
                    t0 == (a - b) * g,
                    t0 > 0,
                    g > 0,
            ;
        } else {
            assert(t0 == (a + b) * g) by (nonlinear_arith)
                requires
                    t0 == g * a + g * b,
            ;
            assert(t0 >= g) by (nonlinear_arith)
                requires
                    t0 == (a + b) * g,
                    t0 > 0,
                    g > 0,
            ;
        }
    }
    assert(c > 0) by (nonlinear_arith)
        requires
            t0 == c * pow2(e as nat),
            t0 > 0,
            pow2(e as nat) > 0,
    ;
    if e < s {
        lemma_pow2_unfold(s);
        if e < s - 1 {
            lemma_pow2_strictly_increases(e as nat, (s - 1) as nat);
        }
        assert(2 * (c * pow2(e as nat)) <= c * pow2(s)) by (nonlinear_arith)
            requires
                c > 0,
                2 * pow2(e as nat) <= pow2(s),
        ;
    }
    let e2 = pow2((e - s) as nat) as int;
    lemma_pow2_adds((e - s) as nat, s);
    lemma_pow2_pos((e - s) as nat);
    assert(t0 == m * e2) by (nonlinear_arith)
        requires
            t0 == c * pow2(e as nat),
            m == c * pow2(s),
            pow2(e as nat) == e2 * pow2(s),
    ;
    assert forall|t: int| t >= 0 implies {
        let w = #[trigger] (t * pow2(63));
        &&& (t0 < w * pow2((big.exp + 958 - s + 1190) as nat)) == (m < w)
        &&& (t0 > w * pow2((big.exp + 958 - s + 1190) as nat)) == (m > w)
    } by {
        let w = t * pow2(63);
        assert((m * e2 < w * e2) == (m < w) && (m * e2 > w * e2) == (m > w)) by (nonlinear_arith)
            requires
                e2 > 0,
        ;
    }
    staging::lemma_stage(t0, m, big.exp + 958 - s);
}

/// The sum of two terms, rounded.
pub fn add_staged(x: Staged, y: Staged, mode: RoundingMode, flush: bool) -> (r: u64)
    requires
        x.wf(),
        y.wf(),
    ensures
        ({
            let sum = x.scaled() + y.scaled();
            if sum == 0 {
                r == ieee::zero(mode == RoundingMode::Down)
            } else {
                ieee::delivers(
                    flush,
                    Exact::Ratio { num: ieee::abs(sum), den: pow2(1190) as int },
                    mode,
                    sum < 0,
                    r,
                )
            }
        }),
{
    let (big, sml) = if x.exp > y.exp || (x.exp == y.exp && x.m >= y.m) {
        (x, y)
    } else {
        (y, x)
    };
    let shift: u32 = (big.exp - sml.exp) as u32;
    let aligned: u128 = bits::shift_right_jam(sml.m, shift);
    let minus = big.sign != sml.sign;
    let ghost t0 = total(big, sml, minus);
    let ghost sum = x.scaled() + y.scaled();
    proof {
        bits::lemma_pow2_values();
        lemma_pow2_pos(1190);
        lemma_pow2_unfold(118);
        lemma_sum_bounds(big, sml);
        assert(sum == model::signed(big.sign == 1, t0));
    }
    if !minus {
        let word: u128 = big.m + aligned;
        if word >= 0x20_0000_0000_0000_0000_0000_0000_0000 {
            let m: u128 = bits::shift_right_jam(word, 1);
            proof {
                lemma_carried(big, sml, minus);
                bits::lemma_jam(word as int, 1, 0x10_0000_0000_0000_0000_0000_0000_0000);
                bits::lemma_jam(word as int, 1, 0x20_0000_0000_0000_0000_0000_0000_0000);
            }
            let r = encoding::round_and_pack(m, big.sign, big.exp + 1, mode, flush);
            proof {
                encoding::lemma_delivers(
                    sum_of(t0),
                    m as int,
                    big.exp + 1,
                    mode,
                    big.sign == 1,
                    flush,
                    r,
                );
            }
            r
        } else {
            proof {
                lemma_plain(big, sml, minus);
            }
            let r = encoding::round_and_pack(word, big.sign, big.exp, mode, flush);
            proof {
                encoding::lemma_delivers(
                    sum_of(t0),
                    word as int,
                    big.exp as int,
                    mode,
                    big.sign == 1,
                    flush,
                    r,
                );
            }
            r
        }
    } else {
        let word: u128 = big.m - aligned;
        if word == 0 {
            // Exact cancellation.
            proof {
                lemma_lossless(big, sml, minus);
            }
            return encoding::signed_zero(
                if mode == RoundingMode::Down {
                    1
                } else {
                    0
                },
            );
        }
        let top: u32 = bits::top_bit(word);
        proof {
            if top > 116 {
                if top > 117 {
                    lemma_pow2_strictly_increases(117, top as nat);
                }
            }
        }
        let up: u32 = 116 - top;
        proof {
            lemma_pow2_adds(top as nat, up as nat);
            lemma_pow2_adds((top + 1) as nat, up as nat);
            lemma_pow2_pos(up as nat);
            assert(pow2(116) <= word * pow2(up as nat) < pow2(117)) by (nonlinear_arith)
                requires
                    pow2(top as nat) <= word < pow2((top + 1) as nat),
                    pow2(top as nat) * pow2(up as nat) == pow2(116),
                    pow2((top + 1) as nat) * pow2(up as nat) == pow2(117),
                    pow2(up as nat) > 0,
            ;
            bits::lemma_shl128(word, up);
        }
        let m: u128 = word << up;
        proof {
            lemma_normal_word(big, sml, up as nat);
        }
        let r = encoding::round_and_pack(m, big.sign, big.exp - up as i32, mode, flush);
        proof {
            encoding::lemma_delivers(
                sum_of(t0),
                m as int,
                big.exp - up as int,
                mode,
                big.sign == 1,
                flush,
                r,
            );
        }
        r
    }
}

/// Sizes of the aligned word, of the sum and of the difference.
proof fn lemma_sum_bounds(big: Staged, sml: Staged)
    requires
        big.wf(),
        sml.wf(),
        big.exp > sml.exp || (big.exp == sml.exp && big.m >= sml.m),
    ensures
        ({
            let j = bits::jam(sml.m as int, (big.exp - sml.exp) as nat);
            &&& 0 <= j <= big.m
            &&& big.m + j < pow2(118)
            &&& j == big.m ==> big.exp == sml.exp
            &&& big.exp - sml.exp >= 2 ==> big.m - j >= pow2(115)
        }),
        total(big, sml, false) > 0,
        total(big, sml, true) >= 0,
        total(big, sml, true) > 0 || word(big, sml, true) == 0,
{
    let shift = (big.exp - sml.exp) as nat;
    let j = bits::jam(sml.m as int, shift);
    bits::lemma_pow2_values();
    lemma_pow2_unfold(118);
    lemma_pow2_unfold(116);
    lemma_pow2_pos(shift);
    lemma_pow2_pos((big.exp + 2148) as nat);
    lemma_pow2_pos((sml.exp + 2148) as nat);
    let p = pow2(115) as int;
    if shift == 0 {
        bits::lemma_jam_none(sml.m as int);
    } else if shift == 1 {
        bits::lemma_jam(sml.m as int, shift, 2 * p);
    } else {
        if shift > 2 {
            lemma_pow2_strictly_increases(2, shift);
        }
        assert(pow2(2) == 4) by {
            lemma2_to64();
        }
        assert(p * pow2(shift) >= 4 * p) by (nonlinear_arith)
            requires
                pow2(shift) >= 4,
                p >= 0,
        ;
        assert(p % 2 == 0) by {
            lemma_pow2_unfold(115);
        }
        bits::lemma_jam(sml.m as int, shift, p);
    }
    bits::lemma_jam(sml.m as int, shift, 0);
    lemma_sum_order(big, sml, true, 0);
    assert(big.m * pow2((big.exp + 2148) as nat) > 0) by (nonlinear_arith)
        requires
            big.m > 0,
            pow2((big.exp + 2148) as nat) > 0,
    ;
    assert(sml.m * pow2((sml.exp + 2148) as nat) > 0) by (nonlinear_arith)
        requires
            sml.m > 0,
            pow2((sml.exp + 2148) as nat) > 0,
    ;
}

/// A difference moved up to the top, by one place if bits were lost.
proof fn lemma_normal_word(big: Staged, sml: Staged, up: nat)
    requires
        big.wf(),
        sml.wf(),
        big.exp > sml.exp || (big.exp == sml.exp && big.m >= sml.m),
        word(big, sml, true) > 0,
        pow2(116) <= word(big, sml, true) * pow2(up) < pow2(117),
    ensures
        big.exp + 958 - up >= -1190,
        staging::stands_for(
            sum_of(total(big, sml, true)),
            word(big, sml, true) * pow2(up),
            big.exp + 958 - up,
        ),
{
    lemma_sum_bounds(big, sml);
    bits::lemma_pow2_values();
    if big.exp - sml.exp <= 1 {
        lemma_normalized(big, sml, true, up);
    } else {
        let c = word(big, sml, true);
        if up >= 2 {
            lemma_pow2_unfold(116);
            lemma_pow2_unfold(117);
            if up > 2 {
                lemma_pow2_strictly_increases(2, up);
            }
            assert(pow2(2) == 4) by {
                lemma2_to64();
            }
            assert(c * pow2(up) >= 4 * c) by (nonlinear_arith)
                requires
                    pow2(up) >= 4,
                    c > 0,
            ;
        } else if up == 1 {
            assert(c * pow2(up) == 2 * c) by (nonlinear_arith)
                requires
                    pow2(up) == 2,
            ;
            lemma_doubled(big, sml, true);
        } else {
            assert(c * pow2(up) == c) by (nonlinear_arith)
                requires
                    pow2(up) == 1,
            ;
            lemma_plain(big, sml, true);
        }
    }
}

/// A finite non-zero number as a term.
pub fn stage(a: u64, u: Unpacked) -> (s: Staged)
    requires
        u.of(a),
        ieee::is_finite_nonzero(a),
    ensures
        s.wf(),
        s.scaled() == model::value(a) * pow2(1190),
        s.sign == u.sign,
        s.exp == u.exp,
{
    let m: u128 = (u.mantissa as u128) << 64u32;
    proof {
        bits::lemma_pow2_values();
        bits::lemma_shl128(u.mantissa as u128, 64);
        let v = model::mag(model::binary64(), model::magnitude(a));
        let e = (u.exp + 1074) as nat;
        lemma_pow2_adds(e, 1074);
        lemma_pow2_adds(52, 1138);
        lemma_pow2_adds(64, 1074);
        assert(m * pow2((u.exp + 2148) as nat) == v * pow2(1190)) by (nonlinear_arith)
            requires
                m == u.mantissa * pow2(64),
                pow2((u.exp + 2148) as nat) == pow2(e) * pow2(1074),
                v * pow2(52) == u.mantissa * pow2(e),
                pow2(1190) == pow2(52) * pow2(1138),
                pow2(1138) == pow2(64) * pow2(1074),
        ;
        lemma_pow2_adds(1074, 116);
        assert(v * pow2(1190) == (v * pow2(1074)) * pow2(116)) by (nonlinear_arith)
            requires
                pow2(1190) == pow2(1074) * pow2(116),
        ;
        lemma_pow2_pos(116);
        lemma_mod_multiples_basic(v * pow2(1074), pow2(116) as int);
        assert((-v) * pow2(1190) == -(v * pow2(1190))) by (nonlinear_arith);
    }
    Staged { sign: u.sign, exp: u.exp, m }
}

/// The sum of two finite non-zero numbers.
pub fn add_nonzero(
    a: u64,
    ua: Unpacked,
    b: u64,
    ub: Unpacked,
    mode: RoundingMode,
    flush: bool,
) -> (r: u64)
    requires
        ua.of(a),
        ub.of(b),
        ieee::is_finite_nonzero(a),
        ieee::is_finite_nonzero(b),
    ensures
        ({
            let sum = model::value(a) + model::value(b);
            if sum == 0 {
                r == ieee::zero(mode == RoundingMode::Down)
            } else {
                ieee::delivers(
                    flush,
                    Exact::Ratio { num: ieee::abs(sum), den: 1 },
                    mode,
                    sum < 0,
                    r,
                )
            }
        }),
{
    let r = add_staged(stage(a, ua), stage(b, ub), mode, flush);
    proof {
        let va = model::value(a);
        let vb = model::value(b);
        let g = pow2(1190) as int;
        let sum = va + vb;
        lemma_pow2_pos(1190);
        assert(va * g + vb * g == sum * g) by (nonlinear_arith)
            requires
                sum == va + vb,
        ;
        assert((sum * g == 0) == (sum == 0) && (sum * g < 0) == (sum < 0) && ieee::abs(sum * g)
            == ieee::abs(sum) * g) by (nonlinear_arith)
            requires
                g > 0,
        ;
        rounding::lemma_higher_terms(ieee::abs(sum), 1, g);
        encoding::lemma_delivers_alike(
            flush,
            Exact::Ratio { num: ieee::abs(sum), den: 1 },
            Exact::Ratio { num: ieee::abs(sum) * g, den: 1 * g },
            mode,
            sum < 0,
            r,
        );
    }
    r
}

/// `a + b`.
///
/// A NaN operand, and infinities of opposite signs, give the canonical NaN. An
/// exact sum of zero is positive unless rounding goes down or both operands are
/// negative zeros.
#[must_use]
pub fn fadd(a: u64, b: u64, mode: RoundingMode) -> (r: u64)
    ensures
        ieee::is_sum(false, a, b, mode, r),
{
    add_with(a, b, mode, false)
}

/// `a + b`, with a choice for results below the normal range.
pub fn add_with(a: u64, b: u64, mode: RoundingMode, flush: bool) -> (r: u64)
    requires
        flush ==> !ieee::is_subnormal(a) && !ieee::is_subnormal(b),
    ensures
        ieee::is_sum(flush, a, b, mode, r),
{
    let ua = encoding::unpack(a);
    let ub = encoding::unpack(b);
    proof {
        encoding::lemma_class_value(a);
        encoding::lemma_class_value(b);
    }
    match (ua.class, ub.class) {
        (IeeeClass::NaN, _) | (_, IeeeClass::NaN) => CANONICAL_QNAN,
        (IeeeClass::Inf, IeeeClass::Inf) => if ua.sign == ub.sign {
            encoding::signed_inf(ua.sign)
        } else {
            CANONICAL_QNAN
        },
        (IeeeClass::Inf, _) => encoding::signed_inf(ua.sign),
        (_, IeeeClass::Inf) => encoding::signed_inf(ub.sign),
        (IeeeClass::Zero, IeeeClass::Zero) => {
            let sign: u64 = if ua.sign == ub.sign {
                ua.sign
            } else if mode == RoundingMode::Down {
                1
            } else {
                0
            };
            encoding::signed_zero(sign)
        },
        (IeeeClass::Zero, _) => {
            proof {
                encoding::lemma_own_value(b, mode, flush);
            }
            b
        },
        (_, IeeeClass::Zero) => {
            proof {
                encoding::lemma_own_value(a, mode, flush);
            }
            a
        },
        _ => add_nonzero(a, ua, b, ub, mode, flush),
    }
}

/// The pattern of the opposite number.
pub open spec fn opposite(a: u64) -> u64 {
    if model::negative(a) {
        (a - 0x8000_0000_0000_0000) as u64
    } else {
        (a + 0x8000_0000_0000_0000) as u64
    }
}

/// Flips the sign bit.
pub fn negate(a: u64) -> (r: u64)
    ensures
        r == opposite(a),
{
    assert(a ^ 0x8000_0000_0000_0000 == if a >= 0x8000_0000_0000_0000 {
        (a - 0x8000_0000_0000_0000) as u64
    } else {
        (a + 0x8000_0000_0000_0000) as u64
    }) by (bit_vector);
    a ^ 0x8000_0000_0000_0000
}

/// `a - b`: the sum of `a` and the opposite of `b`.
#[must_use]
pub fn fsub(a: u64, b: u64, mode: RoundingMode) -> (r: u64)
    ensures
        ieee::is_sum(false, a, opposite(b), mode, r),
{
    fadd(a, negate(b), mode)
}

} // verus!
