use vstd::prelude::*;

verus! {

/// A non-negative rational number `num / den`, used for every quantity of the
/// viewer that is not a whole number (periods in seconds, colour channels,
/// camera parameters).
#[derive(Clone, Copy, Debug, PartialEq, Eq, Structural)]
pub struct Ratio {
    pub num: u64,
    pub den: u64,
}

impl Ratio {
    /// A ratio is well formed when its denominator is not zero.
    pub open spec fn wf(self) -> bool {
        self.den > 0
    }
}

} // verus!
