//! What the operations return on infinities, zeros and NaN, pattern by pattern.
//!
//! A pattern without its sign bit is a NaN above `0x7FF0_0000_0000_0000`, infinity at
//! it, and finite below.
use crate::bits;
use crate::ieee;
use crate::model;
use crate::softfloat_ref::encoding;
use crate::RoundingMode;
use vstd::arithmetic::power2::*;
use vstd::prelude::*;

verus! {

/// An infinite term is the sum, unless the other is the opposite infinity or a NaN. An
/// exact sum of zero is positive except where rounding goes down; two zeros of the
/// same sign keep it.
pub proof fn special_sums(flush: bool, a: u64, b: u64, mode: RoundingMode, r: u64)
    requires
        ieee::is_sum(flush, a, b, mode, r),
    ensures
        ({
            let top = 0x8000_0000_0000_0000u64;
            let inf = 0x7FF0_0000_0000_0000u64;
            let qnan = 0x7FF8_0000_0000_0000u64;
            let i = a % top;
            let j = b % top;
            &&& i > inf || j > inf ==> r == qnan
            &&& i == inf && j < inf ==> r == a
            &&& i < inf && j == inf ==> r == b
            &&& i == inf && j == inf ==> r == if a == b {
                a
            } else {
                qnan
            }
            &&& i < inf && j < inf && model::value(a) + model::value(b) == 0 ==> r == if a == b {
                a
            } else if mode == RoundingMode::Down {
                top
            } else {
                0
            }
        }),
{
    bits::lemma_pow2_values();
    encoding::lemma_class_value(a);
    encoding::lemma_class_value(b);
}

/// Zero times infinity is a NaN; otherwise an infinite factor makes the product
/// infinite, and a zero factor makes it zero, with the product of the signs.
pub proof fn special_products(flush: bool, a: u64, b: u64, mode: RoundingMode, r: u64)
    requires
        ieee::is_product(flush, a, b, mode, r),
    ensures
        ({
            let top = 0x8000_0000_0000_0000u64;
            let inf = 0x7FF0_0000_0000_0000u64;
            let qnan = 0x7FF8_0000_0000_0000u64;
            let i = a % top;
            let j = b % top;
            let sign = if (a < top) == (b < top) {
                0u64
            } else {
                top
            };
            &&& i > inf || j > inf ==> r == qnan
            &&& i == inf && j == 0 ==> r == qnan
            &&& i == 0 && j == inf ==> r == qnan
            &&& i == inf && 0 < j <= inf ==> r == sign + inf
            &&& 0 < i <= inf && j == inf ==> r == sign + inf
            &&& i == 0 && j < inf ==> r == sign
            &&& i < inf && j == 0 ==> r == sign
        }),
{
    bits::lemma_pow2_values();
}

/// Zero by zero and infinity by infinity are NaN; otherwise an infinite dividend or a
/// zero divisor makes the quotient infinite, and a zero dividend or an infinite
/// divisor makes it zero, with the quotient of the signs.
pub proof fn special_quotients(flush: bool, a: u64, b: u64, mode: RoundingMode, r: u64)
    requires
        ieee::is_quotient(flush, a, b, mode, r),
    ensures
        ({
            let top = 0x8000_0000_0000_0000u64;
            let inf = 0x7FF0_0000_0000_0000u64;
            let qnan = 0x7FF8_0000_0000_0000u64;
            let i = a % top;
            let j = b % top;
            let sign = if (a < top) == (b < top) {
                0u64
            } else {
                top
            };
            &&& i > inf || j > inf ==> r == qnan
            &&& i == inf && j == inf ==> r == qnan
            &&& i == 0 && j == 0 ==> r == qnan
            &&& i == inf && j < inf ==> r == sign + inf
            &&& 0 < i <= inf && j == 0 ==> r == sign + inf
            &&& i == 0 && 0 < j <= inf ==> r == sign
            &&& i < inf && j == inf ==> r == sign
        }),
{
    bits::lemma_pow2_values();
}

/// Zero times infinity, and an infinite product with the opposite infinity added, are
/// NaN; otherwise an infinite product or addend is the result. An exact result of zero
/// is positive except where rounding goes down; a zero product and a zero addend of
/// the same sign keep it.
pub proof fn special_fused(flush: bool, a: u64, b: u64, c: u64, mode: RoundingMode, r: u64)
    requires
        ieee::is_fused(flush, a, b, c, mode, r),
    ensures
        ({
            let top = 0x8000_0000_0000_0000u64;
            let inf = 0x7FF0_0000_0000_0000u64;
            let qnan = 0x7FF8_0000_0000_0000u64;
            let i = a % top;
            let j = b % top;
            let k = c % top;
            let sign = if (a < top) == (b < top) {
                0u64
            } else {
                top
            };
            let exact = model::value(a) * model::value(b) + model::value(c) * pow2(1074);
            &&& i > inf || j > inf || k > inf ==> r == qnan
            &&& i == inf && j == 0 ==> r == qnan
            &&& i == 0 && j == inf ==> r == qnan
            &&& (i == inf && 0 < j <= inf || 0 < i <= inf && j == inf) && k < inf ==> r == sign
                + inf
            &&& (i == inf && 0 < j <= inf || 0 < i <= inf && j == inf) && k == inf ==> r == if c
                == sign + inf {
                c
            } else {
                qnan
            }
            &&& i < inf && j < inf && k == inf ==> r == c
            &&& i < inf && j < inf && k < inf && exact == 0 ==> r == if (i == 0 || j == 0) && c
                == sign {
                c
            } else if mode == RoundingMode::Down {
                top
            } else {
                0
            }
        }),
{
    bits::lemma_pow2_values();
    encoding::lemma_class_value(a);
    encoding::lemma_class_value(b);
    encoding::lemma_class_value(c);
    lemma_pow2_pos(1074);
    assert(model::value(a) == 0 || model::value(b) == 0 <==> model::value(a) * model::value(b)
        == 0) by (nonlinear_arith);
    assert(model::value(c) == 0 <==> model::value(c) * pow2(1074) == 0) by (nonlinear_arith)
        requires
            pow2(1074) > 0,
    ;
}

/// The root of a zero is that zero and of positive infinity that infinity; a NaN and
/// any other negative operand give a NaN.
pub proof fn special_roots(a: u64, mode: RoundingMode, r: u64)
    requires
        ieee::is_root(a, mode, r),
    ensures
        a == 0 || a == 0x8000_0000_0000_0000 ==> r == a,
        a == 0x7FF0_0000_0000_0000 ==> r == a,
        a > 0x8000_0000_0000_0000 ==> r == 0x7FF8_0000_0000_0000,
        0x7FF0_0000_0000_0000 < a < 0x8000_0000_0000_0000 ==> r == 0x7FF8_0000_0000_0000,
{
    bits::lemma_pow2_values();
}

/// Zero as an integer becomes the positive zero. A NaN becomes the canonical NaN of
/// binary32, an infinity the infinity of its sign.
pub proof fn special_conversions(a: u64, mode: RoundingMode, r: u64, s: u32)
    ensures
        ieee::is_from_integer(0, mode, r) ==> r == 0,
        ieee::is_narrowed(a, mode, s) && a % 0x8000_0000_0000_0000 > 0x7FF0_0000_0000_0000 ==> s
            == 0x7FC0_0000,
        ieee::is_narrowed(a, mode, s) && a == 0x7FF0_0000_0000_0000 ==> s == 0x7F80_0000,
        ieee::is_narrowed(a, mode, s) && a == 0xFFF0_0000_0000_0000 ==> s == 0xFF80_0000,
{
    bits::lemma_pow2_values();
}

} // verus!
