//! The sine.
//!
//! The sine is computed by the `const_soft_float` crate, in software, from
//! the bit pattern alone. Of it nothing is proved: the function below is
//! believed to return what its named result says, and the named result is
//! only a name for what the crate returns. It is the one operation of the
//! library that is not its own. Only the seeding of the particle field uses
//! it.

use vstd::prelude::*;
use const_soft_float::soft_f32::SoftF32;
use crate::single::Single;

verus! {

/// Pattern that `SoftF32::sin` returns for the pattern `a`.
pub uninterp spec fn sine_bits(a: u32) -> u32;

impl Single {
    /// The sine of `self`, an angle in radians.
    pub open spec fn spec_sine(self) -> Single {
        Single { bits: sine_bits(self.bits) }
    }
}

/// Calls `SoftF32::sin`. Trusted: the result is the crate's sine of the
/// pattern, which depends on nothing but it.
#[verifier::external_body]
pub(crate) fn sine(a: Single) -> (r: Single)
    ensures
        r.bits == sine_bits(a.bits),
{
    Single { bits: SoftF32::from_bits(a.bits).sin().to_bits() }
}

} // verus!
