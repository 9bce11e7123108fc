//! Exact numeric values for the attribute channel.
//!
//! MPD attributes carry decimal numbers (durations in seconds, frame rates
//! written as fractions, plain integers) and two boolean sentinels mapped to
//! plus and minus infinity.  The parser keeps every such value exact: a
//! finite number is a ratio of two integers, and the infinities are explicit
//! variants.  Converting to a machine float, where a host needs one, is the
//! host's concern.

use vstd::prelude::*;

verus! {

/// An exact non-negative-denominator rational: `num / den`, negated when
/// `neg` is set.  Well-formed values always have `den >= 1`.
#[derive(Debug, Clone, Copy, PartialEq, Eq, Structural)]
pub struct Ratio {
    pub neg: bool,
    pub num: u128,
    pub den: u128,
}

impl Ratio {
    /// Well-formedness: the denominator is positive.
    pub open spec fn wf(self) -> bool {
        self.den >= 1
    }

    /// The exact mathematical value times `den`, signed.
    pub open spec fn signed_num(self) -> int {
        if self.neg {
            -(self.num as int)
        } else {
            self.num as int
        }
    }

    /// Two ratios denote the same number.
    pub open spec fn same_value(self, other: Ratio) -> bool {
        self.signed_num() * other.den == other.signed_num() * self.den
    }

    /// The ratio denoting the integer `n`.
    pub fn from_u64(n: u64) -> (r: Ratio)
        ensures
            r == Ratio::spec_from_u64(n),
    {
        Ratio { neg: false, num: n as u128, den: 1 }
    }

    /// Specification twin of [`Ratio::from_u64`].
    pub open spec fn spec_from_u64(n: u64) -> Ratio {
        Ratio { neg: false, num: n as u128, den: 1 }
    }
}

/// A number on the attribute channel: exact and finite, or one of the two
/// infinity sentinels that stand for the booleans `"true"` and `"false"` in
/// attributes such as `segmentAlignment`.
#[derive(Debug, Clone, Copy, PartialEq, Eq, Structural)]
pub enum AttrNum {
    NegInf,
    Fin(Ratio),
    PosInf,
}

} // verus!
