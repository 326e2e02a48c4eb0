//! Rays: half-lines through the scene.
use super::vector3::Vector3;
use crate::fixed::Fixed;
use vstd::prelude::*;

verus! {

/// The points `origin + t * direction`.
#[derive(Clone, Copy, Debug, PartialEq, Eq, Structural)]
pub struct Ray {
    pub origin: Vector3,
    pub direction: Vector3,
}

impl Ray {
    /// The point of the ray at the parameter `t`.
    pub open spec fn spec_at(&self, t: Fixed) -> Vector3 {
        self.origin.add(self.direction.scale(t))
    }

    /// The point of the ray at the parameter `t`.
    #[verifier::when_used_as_spec(spec_at)]
    pub fn at(&self, t: Fixed) -> (r: Vector3)
        ensures
            r == self.spec_at(t),
    {
        self.origin.add(self.direction.scale(t))
    }
}

} // verus!
