use vstd::prelude::*;

verus! {

/// An exact rational branch length: the value `num / den`.
///
/// The engine works over integer numerators scaled by a common denominator,
/// so every branch length it produces is an exact rational; no rounding ever
/// happens inside the solvers. `den` is always positive.
#[derive(Debug, Clone, Copy, PartialEq, Eq, Structural)]
pub struct Ratio {
    pub num: i128,
    pub den: i128,
}

impl Ratio {
    pub open spec fn wf(self) -> bool {
        self.den >= 1
    }

    pub fn new(num: i128, den: i128) -> (r: Ratio)
        requires
            den >= 1,
        ensures
            r.num == num,
            r.den == den,
            r.wf(),
    {
        Ratio { num, den }
    }
}

} // verus!
