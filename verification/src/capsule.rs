//! Plain settings of the capsule-primitive mesh builder. The builder
//! itself works in floating point and lives with the rendering
//! collaborator, outside this core; the distribution mode it is driven by
//! is ordinary data and is kept here.

use vstd::prelude::*;

verus! {

/// Manner in which a capsule mesh's UV coordinates are distributed
/// vertically.
#[derive(Clone, Copy, Debug, PartialEq, Eq, Structural)]
pub enum CapsuleUvProfile {
    /// UV space is distributed by how much of the capsule consists of the
    /// hemispheres.
    Aspect,
    /// Hemispheres get UV space according to the ratio of latitudes to
    /// rings.
    Uniform,
    /// Upper third of the texture goes to the northern hemisphere, middle
    /// third to the cylinder and lower third to the southern one.
    Fixed,
}

impl Default for CapsuleUvProfile {
    /// The default distribution mode is by aspect.
    fn default() -> (r: Self)
        ensures
            r == CapsuleUvProfile::Aspect,
    {
        CapsuleUvProfile::Aspect
    }
}

} // verus!
