//! Rays: a starting point and a direction.

use vstd::prelude::*;
use crate::vec3::Vec3;

verus! {

/// The points `origin + t * direction`; the direction need not have length one.
#[derive(Copy, Clone, Debug, PartialEq)]
pub struct Ray {
    pub origin: Vec3,
    pub direction: Vec3,
}

impl Ray {
    pub fn new(origin: Vec3, direction: Vec3) -> (r: Ray)
        ensures
            r == (Ray { origin, direction }),
    {
        Ray { origin, direction }
    }
}

} // verus!
