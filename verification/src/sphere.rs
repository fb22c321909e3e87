//! Spheres, and which of a ray's two crossings with one is reported.

use vstd::prelude::*;
use crate::scalar::{Scalar, lemma_magnitude_order};
use crate::vec3::Vec3;

verus! {

/// A sphere: a center and a radius.
#[derive(Copy, Clone, Debug, PartialEq)]
pub struct Sphere {
    pub center: Vec3,
    pub radius: Scalar,
}

/// `t` is not strictly between `t_min` and `t_max`, as the machine compares:
/// a NaN is never outside.
pub open spec fn outside(t: Scalar, t_min: Scalar, t_max: Scalar) -> bool {
    t.spec_le(t_min) || t_max.spec_le(t)
}

impl Sphere {
    pub fn new(center: Vec3, radius: Scalar) -> (sphere: Sphere)
        ensures
            sphere == (Sphere { center, radius }),
    {
        Sphere { center, radius }
    }

    /// The distance that is reported when a ray's equation with a sphere has
    /// the given discriminant and the roots `near` and `far`: nothing where
    /// the discriminant is zero or less, else the near root unless it is
    /// outside the interval, else the far root unless that is outside too.
    pub open spec fn spec_choose_root(
        discriminant: Scalar,
        near: Scalar,
        far: Scalar,
        t_min: Scalar,
        t_max: Scalar,
    ) -> Option<Scalar> {
        if discriminant.spec_le(Scalar::zero()) {
            None
        } else if !outside(near, t_min, t_max) {
            Some(near)
        } else if !outside(far, t_min, t_max) {
            Some(far)
        } else {
            None
        }
    }

    /// Decides which crossing of a ray with a sphere is reported. The caller
    /// has solved the ray's equation: `discriminant` is that of the quadratic
    /// in its halved form, `near` and `far` are its smaller and larger root.
    #[verifier::when_used_as_spec(spec_choose_root)]
    pub fn choose_root(
        discriminant: Scalar,
        near: Scalar,
        far: Scalar,
        t_min: Scalar,
        t_max: Scalar,
    ) -> (root: Option<Scalar>)
        ensures
            root == Sphere::spec_choose_root(discriminant, near, far, t_min, t_max),
    {
        if discriminant.le(Scalar::zero()) {
            return None;
        }
        let mut temp: Scalar = near;
        if temp.le(t_min) || t_max.le(temp) {
            temp = far;
        }
        if temp.le(t_min) || t_max.le(temp) {
            return None;
        }
        Some(temp)
    }
}

/// A ray that only touches the sphere, or misses it, is reported as a miss:
/// with a discriminant of zero or below there is no crossing. What is
/// reported is one of the two roots; where the near root lies strictly inside
/// the interval it is the one; and among numbers (no NaN) what is reported
/// lies strictly inside the interval.
pub proof fn lemma_choose_root(
    discriminant: Scalar,
    near: Scalar,
    far: Scalar,
    t_min: Scalar,
    t_max: Scalar,
)
    ensures
        discriminant.is_zero() ==> Sphere::spec_choose_root(discriminant, near, far, t_min, t_max)
            is None,
        discriminant.spec_lt(Scalar::zero()) ==> Sphere::spec_choose_root(
            discriminant,
            near,
            far,
            t_min,
            t_max,
        ) is None,
        Sphere::spec_choose_root(discriminant, near, far, t_min, t_max) matches Some(t) ==> t
            == near || t == far,
        Sphere::spec_choose_root(discriminant, near, far, t_min, t_max) matches Some(t) ==> (
        !t.spec_is_nan() && !t_min.spec_is_nan() && !t_max.spec_is_nan() ==> t_min.spec_lt(t)
            && t.spec_lt(t_max)),
        Scalar::zero().spec_lt(discriminant) && t_min.spec_lt(near) && near.spec_lt(t_max)
            ==> Sphere::spec_choose_root(discriminant, near, far, t_min, t_max) == Some(near),
        Scalar::zero().spec_lt(discriminant) && outside(near, t_min, t_max) && t_min.spec_lt(far)
            && far.spec_lt(t_max) ==> Sphere::spec_choose_root(
            discriminant,
            near,
            far,
            t_min,
            t_max,
        ) == Some(far),
{
    lemma_magnitude_order(discriminant, Scalar::zero());
    lemma_magnitude_order(Scalar::zero(), discriminant);
}

} // verus!
