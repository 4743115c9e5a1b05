//! The patronage rate: a fraction of outstanding supply per elapsed block,
//! held in whole percent parts within `[0, 100]`.

use vstd::prelude::*;

verus! {

/// A per-cent fraction in `[0, 1]`, stored as whole parts out of one hundred.
#[derive(Clone, Copy, PartialEq, Eq, Structural, Debug)]
pub struct Percent {
    parts: u8,
}

impl Percent {
    /// The number of hundredth parts this fraction holds.
    pub closed spec fn parts(self) -> u8 {
        self.parts
    }

    /// A fraction is well formed when it does not exceed one hundred parts,
    /// that is, when it lies within `[0, 1]`.
    pub open spec fn wf(self) -> bool {
        self.parts() <= 100
    }

    /// Builds a fraction from whole percent parts, saturating at one hundred.
    pub fn from_percent(parts: u8) -> (r: Percent)
        ensures
            r.parts() == if parts > 100 { 100u8 } else { parts },
            r.wf(),
    {
        if parts > 100 {
            Percent { parts: 100 }
        } else {
            Percent { parts }
        }
    }

    /// The number of hundredth parts, as an executable value.
    pub fn as_parts(&self) -> (r: u8)
        ensures
            r == self.parts(),
    {
        self.parts
    }

    /// Subtracts `other` from `self`; `None` when `other` is the larger fraction.
    pub fn checked_sub(&self, other: &Percent) -> (r: Option<Percent>)
        ensures
            other.parts() <= self.parts() ==> (r matches Some(d) && d.parts()
                == self.parts() - other.parts()),
            other.parts() > self.parts() ==> r is None,
            self.wf() && r is Some ==> r.unwrap().wf(),
    {
        if other.parts <= self.parts {
            Some(Percent { parts: self.parts - other.parts })
        } else {
            None
        }
    }

    /// The fraction of `value`, rounded down.
    pub fn mul_floor(&self, value: u64) -> (r: u64)
        requires
            self.wf(),
        ensures
            r == value * self.parts() / 100,
    {
        proof {
            assert(value * self.parts() <= value * 100) by (nonlinear_arith)
                requires
                    self.parts() <= 100,
                    0 <= value,
            ;
        }
        let wide: u128 = (value as u128) * (self.parts as u128) / 100;
        proof {
            assert(value * self.parts() / 100 <= value) by (nonlinear_arith)
                requires
                    self.parts() <= 100,
                    0 <= value,
            ;
        }
        wide as u64
    }
}

} // verus!
