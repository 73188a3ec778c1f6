//! Exact rationals standing in for the real-valued parameters of a summary:
//! the configured rank tolerance and the queried quantile.

use vstd::prelude::*;

verus! {

/// The largest denominator a `Fraction` may carry.  It bounds the precision a
/// caller can ask for and keeps every intermediate product of the rank
/// arithmetic inside 128 bits.
pub const DEN_LIMIT: u64 = 1_000_000_000;

/// A nonnegative rational `num / den`.
///
/// The summary takes its rank tolerance and its quantile arguments in this
/// form, so that all rank arithmetic is exact integer arithmetic.
#[derive(Clone, Copy, Debug, PartialEq, Eq, Structural)]
pub struct Fraction {
    /// Numerator.
    pub num: u64,
    /// Denominator; meaningful only when at least 1.
    pub den: u64,
}

impl Fraction {
    /// The shapes a constructor argument may take: any numerator, with a
    /// positive, bounded denominator.
    pub open spec fn admissible(self) -> bool {
        1 <= self.den <= DEN_LIMIT
    }

    /// A configured tolerance: strictly between zero and one, with a bounded
    /// denominator.
    pub open spec fn valid_error(self) -> bool {
        &&& 1 <= self.num
        &&& self.num < self.den
        &&& self.den <= DEN_LIMIT
    }

    /// The clamping policy of the constructor: a zero tolerance becomes
    /// one part in a hundred million, a tolerance of one or more becomes
    /// ninety-nine hundredths, anything else is kept verbatim.
    pub open spec fn clamped(self) -> Fraction {
        if self.num == 0 {
            Fraction { num: 1, den: 100_000_000 }
        } else if self.num >= self.den {
            Fraction { num: 99, den: 100 }
        } else {
            self
        }
    }

    /// The clamping policy always yields a valid tolerance.
    pub proof fn lemma_clamped_valid(self)
        requires
            self.admissible(),
        ensures
            self.clamped().valid_error(),
    {
    }
}

} // verus!
