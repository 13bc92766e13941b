//! Materials whose behaviour needs no colour arithmetic.
use vstd::prelude::*;

use crate::photonmap::Interaction;

verus! {

/// A debugging material that shows the surface normal as a colour. It takes
/// part in no light transport: every photon that reaches it is absorbed.
#[derive(Clone, Copy, Debug, Default, PartialEq, Eq, Hash)]
pub struct NormalShading;

/// A debugging material that shows the surface normal as a colour, with the
/// depth axis reversed.
#[derive(Clone, Copy, Debug, Default, PartialEq, Eq, Hash)]
pub struct FalseColour;

impl NormalShading {
    /// Light reaching a normal-shaded surface is absorbed.
    pub fn interact<R, C>(&self) -> (r: Interaction<R, C>)
        ensures
            r is Absorbed,
    {
        Interaction::Absorbed
    }
}

} // verus!
