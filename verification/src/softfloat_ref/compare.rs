//! Comparisons. Any comparison with a NaN is false; zeros of either sign are equal.
use crate::ieee;
use crate::model::IeeeClass;
use crate::model;
use crate::rounding;
use crate::softfloat_ref::encoding;
use vstd::prelude::*;

verus! {

/// Some operand is a NaN.
fn nan_either(a: u64, b: u64) -> (r: bool)
    ensures
        r == !ieee::ordered(a, b),
{
    matches!(encoding::classify(a), IeeeClass::NaN) || matches!(
        encoding::classify(b),
        IeeeClass::NaN
    )
}

/// Magnitudes are ordered as their encodings.
proof fn lemma_order(a: u64, b: u64)
    ensures
        (model::magnitude(a) < model::magnitude(b)) == (model::mag(
            model::binary64(),
            model::magnitude(a),
        ) < model::mag(model::binary64(), model::magnitude(b))),
{
    let f = model::binary64();
    if model::magnitude(a) < model::magnitude(b) {
        rounding::lemma_mag_increases(f, model::magnitude(a), model::magnitude(b));
    } else if model::magnitude(b) < model::magnitude(a) {
        rounding::lemma_mag_increases(f, model::magnitude(b), model::magnitude(a));
    }
}

/// `a == b`.
#[must_use]
pub fn feq(a: u64, b: u64) -> (r: bool)
    ensures
        r == ieee::equal(a, b),
{
    proof {
        encoding::lemma_class_value(a);
        encoding::lemma_class_value(b);
        lemma_order(a, b);
        lemma_order(b, a);
    }
    if nan_either(a, b) {
        return false;
    }
    let za = matches!(encoding::classify(a), IeeeClass::Zero);
    let zb = matches!(encoding::classify(b), IeeeClass::Zero);
    if za && zb {
        return true;
    }
    a == b
}

/// `a < b`.
#[must_use]
pub fn flt(a: u64, b: u64) -> (r: bool)
    ensures
        r == ieee::less(a, b),
{
    proof {
        encoding::lemma_class_value(a);
        encoding::lemma_class_value(b);
        lemma_order(a, b);
        lemma_order(b, a);
    }
    if nan_either(a, b) {
        return false;
    }
    let sa = a >= 0x8000_0000_0000_0000;
    let sb = b >= 0x8000_0000_0000_0000;
    if sa != sb {
        // Of different signs: the negative one is less, unless both are zero.
        if matches!(encoding::classify(a), IeeeClass::Zero) && matches!(
            encoding::classify(b),
            IeeeClass::Zero
        ) {
            return false;
        }
        return sa;
    }
    // Of the same sign the patterns are ordered, in reverse for negatives.
    if sa {
        a > b
    } else {
        a < b
    }
}

/// `a <= b`.
#[must_use]
pub fn fle(a: u64, b: u64) -> (r: bool)
    ensures
        r == (ieee::less(a, b) || ieee::equal(a, b)),
{
    flt(a, b) || feq(a, b)
}

/// `a > b`.
#[must_use]
pub fn fgt(a: u64, b: u64) -> (r: bool)
    ensures
        r == ieee::less(b, a),
{
    flt(b, a)
}

/// `a >= b`.
#[must_use]
pub fn fge(a: u64, b: u64) -> (r: bool)
    ensures
        r == (ieee::less(b, a) || ieee::equal(b, a)),
{
    fle(b, a)
}

} // verus!
