//! What a bit pattern means and what it is to round.
//!
//! Every finite binary64 number is a whole multiple of `2^-1074`, the least
//! positive subnormal. Magnitudes are therefore integers counted in that unit,
//! and the encodings without their sign bit, read as integers, number the
//! representable magnitudes in increasing order: the encoding of infinity
//! stands where the next binade would begin, at `2^1024`.
use crate::RoundingMode;
use vstd::arithmetic::power2::*;
use vstd::prelude::*;

verus! {

/// A grid of representable magnitudes, counted in its least positive member.
#[verifier::ext_equal]
pub struct Format {
    /// Width of the fraction field in bits.
    pub frac: nat,
    /// The encoding of infinity.
    pub inf: int,
}

/// binary64, in units of `2^-1074`.
pub open spec fn binary64() -> Format {
    Format { frac: 52, inf: 0x7FF0_0000_0000_0000 }
}

/// binary32, in units of `2^-149`.
pub open spec fn binary32() -> Format {
    Format { frac: 23, inf: 0x7F80_0000 }
}

/// The magnitude that encoding `k` stands for.
pub open spec fn mag(f: Format, k: int) -> int {
    let unit = pow2(f.frac) as int;
    if k / unit == 0 {
        k % unit
    } else {
        (unit + k % unit) * pow2((k / unit - 1) as nat)
    }
}

/// An exact magnitude before rounding.
pub enum Exact {
    /// `num / den`.
    Ratio { num: int, den: int },
    /// The square root of `square`.
    Root { square: int },
}

impl Exact {
    /// The magnitude is below `p / q`.
    pub open spec fn lt(self, p: int, q: int) -> bool {
        match self {
            Exact::Ratio { num, den } => num * q < p * den,
            Exact::Root { square } => square * (q * q) < p * p,
        }
    }

    /// The magnitude is above `p / q`.
    pub open spec fn gt(self, p: int, q: int) -> bool {
        match self {
            Exact::Ratio { num, den } => num * q > p * den,
            Exact::Root { square } => square * (q * q) > p * p,
        }
    }

    /// The magnitude is `p / q`.
    pub open spec fn eq(self, p: int, q: int) -> bool {
        !self.lt(p, q) && !self.gt(p, q)
    }

    /// The magnitude `m * 2^q`.
    pub open spec fn scaled(m: int, q: int) -> Exact {
        if q >= 0 {
            Exact::Ratio { num: m * pow2(q as nat), den: 1 }
        } else {
            Exact::Ratio { num: m, den: pow2((-q) as nat) as int }
        }
    }

    /// The magnitude is a non-negative number.
    pub open spec fn valid(self) -> bool {
        match self {
            Exact::Ratio { num, den } => num >= 0 && den > 0,
            Exact::Root { square } => square >= 0,
        }
    }
}

/// The mode moves a magnitude of this sign toward zero.
pub open spec fn toward_zero(mode: RoundingMode, neg: bool) -> bool {
    match mode {
        RoundingMode::Nearest => false,
        RoundingMode::Down => !neg,
        RoundingMode::Up => neg,
        RoundingMode::Zero => true,
    }
}

/// Encoding `r` is the one that `mode` selects for the magnitude `x`.
///
/// To nearest, `x` lies no further than the midpoint from `r` on either side,
/// and on the midpoint only where `r` is even. Toward zero, `r` is the greatest
/// finite encoding that does not exceed `x`; away from zero, the least encoding
/// that is not below `x`, with infinity standing above everything.
pub open spec fn rounds_to(f: Format, x: Exact, mode: RoundingMode, neg: bool, r: int) -> bool {
    &&& 0 <= r <= f.inf
    &&& if mode == RoundingMode::Nearest {
        &&& r < f.inf ==> {
            let y = mag(f, r) + mag(f, r + 1);
            x.lt(y, 2) || (x.eq(y, 2) && r % 2 == 0)
        }
        &&& r > 0 ==> {
            let y = mag(f, r - 1) + mag(f, r);
            x.gt(y, 2) || (x.eq(y, 2) && r % 2 == 0)
        }
    } else if toward_zero(mode, neg) {
        &&& r < f.inf
        &&& !x.lt(mag(f, r), 1)
        &&& r + 1 < f.inf ==> x.lt(mag(f, r + 1), 1)
    } else {
        &&& r < f.inf ==> !x.gt(mag(f, r), 1)
        &&& r > 0 ==> x.gt(mag(f, r - 1), 1)
    }
}

/// IEEE-754 floating-point class.
#[derive(Debug, Clone, Copy, PartialEq, Eq, Structural)]
pub enum IeeeClass {
    Zero,
    Subnormal,
    Normal,
    Inf,
    NaN,
}

/// The sign bit of a binary64 pattern.
pub open spec fn negative(a: u64) -> bool {
    a >= 0x8000_0000_0000_0000
}

/// A binary64 pattern without its sign bit.
pub open spec fn magnitude(a: u64) -> int {
    a as int % 0x8000_0000_0000_0000
}

/// The class of an encoding without its sign.
pub open spec fn class_of_encoding(f: Format, k: int) -> IeeeClass {
    if k == 0 {
        IeeeClass::Zero
    } else if k < pow2(f.frac) {
        IeeeClass::Subnormal
    } else if k < f.inf {
        IeeeClass::Normal
    } else if k == f.inf {
        IeeeClass::Inf
    } else {
        IeeeClass::NaN
    }
}

/// The class of a binary64 pattern.
pub open spec fn class_of(a: u64) -> IeeeClass {
    class_of_encoding(binary64(), magnitude(a))
}

/// `v` with the given sign.
pub open spec fn signed(neg: bool, v: int) -> int {
    if neg {
        -v
    } else {
        v
    }
}

/// The number that a binary64 pattern stands for, in units of `2^-1074`.
/// Infinity counts as the value after the greatest finite one; of a NaN the
/// number means nothing.
pub open spec fn value(a: u64) -> int {
    signed(negative(a), mag(binary64(), magnitude(a)))
}

/// A pattern that stands for a finite number.
pub open spec fn finite(a: u64) -> bool {
    magnitude(a) < binary64().inf
}

/// The pattern made of a sign and an encoding.
pub open spec fn pattern(neg: bool, k: int) -> int {
    if neg {
        0x8000_0000_0000_0000 + k
    } else {
        k
    }
}

/// Pattern `r` has the given sign and the magnitude to which `x` rounds.
pub open spec fn is_rounded(x: Exact, mode: RoundingMode, neg: bool, r: u64) -> bool {
    &&& negative(r) == neg
    &&& rounds_to(binary64(), x, mode, neg, magnitude(r))
}

/// The sign bit of a binary32 pattern.
pub open spec fn negative32(a: u32) -> bool {
    a >= 0x8000_0000
}

/// A binary32 pattern without its sign bit.
pub open spec fn magnitude32(a: u32) -> int {
    a as int % 0x8000_0000
}

/// The class of a binary32 pattern.
pub open spec fn class_of32(a: u32) -> IeeeClass {
    class_of_encoding(binary32(), magnitude32(a))
}

/// The number that a binary32 pattern stands for, in units of `2^-149`.
pub open spec fn value32(a: u32) -> int {
    signed(negative32(a), mag(binary32(), magnitude32(a)))
}

} // verus!
