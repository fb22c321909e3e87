//! Triples of numbers: points, directions and colors before quantization.

use vstd::prelude::*;
use core::ops::Neg;
use vstd::std_specs::cmp::PartialEqSpecImpl;
use vstd::std_specs::ops::NegSpecImpl;
use crate::scalar::{Scalar, lemma_negated_value};

verus! {

/// Three numbers, used alike as a point, a direction or a color.
#[derive(Copy, Clone, Debug)]
pub struct Vec3 {
    pub x: Scalar,
    pub y: Scalar,
    pub z: Scalar,
}

impl Vec3 {
    /// One of the components is a NaN.
    pub open spec fn has_nan(self) -> bool {
        self.x.spec_is_nan() || self.y.spec_is_nan() || self.z.spec_is_nan()
    }

    /// `self == other`, component by component, as numbers.
    pub open spec fn spec_eq(self, other: Vec3) -> bool {
        self.x.spec_eq(other.x) && self.y.spec_eq(other.y) && self.z.spec_eq(other.z)
    }

    /// Each component with its sign flipped.
    pub open spec fn negated(self) -> Vec3 {
        Vec3 { x: self.x.negated(), y: self.y.negated(), z: self.z.negated() }
    }

    pub fn new(x: Scalar, y: Scalar, z: Scalar) -> (v: Vec3)
        ensures
            v == (Vec3 { x, y, z }),
    {
        Vec3 { x, y, z }
    }

    pub fn x(self) -> (x: Scalar)
        ensures
            x == self.x,
    {
        self.x
    }

    pub fn y(self) -> (y: Scalar)
        ensures
            y == self.y,
    {
        self.y
    }

    pub fn z(self) -> (z: Scalar)
        ensures
            z == self.z,
    {
        self.z
    }
}

impl PartialEq for Vec3 {
    /// Equality of the three numbers, component by component.
    fn eq(&self, other: &Vec3) -> (equal: bool) {
        self.x == other.x && self.y == other.y && self.z == other.z
    }
}

impl PartialEqSpecImpl for Vec3 {
    open spec fn obeys_eq_spec() -> bool {
        true
    }

    open spec fn eq_spec(&self, other: &Vec3) -> bool {
        self.spec_eq(*other)
    }
}

impl Neg for Vec3 {
    type Output = Vec3;

    fn neg(self) -> (r: Vec3) {
        Vec3 { x: self.x.neg(), y: self.y.neg(), z: self.z.neg() }
    }
}

impl NegSpecImpl for Vec3 {
    open spec fn obeys_neg_spec() -> bool {
        true
    }

    open spec fn neg_req(self) -> bool {
        true
    }

    open spec fn neg_spec(self) -> Vec3 {
        self.negated()
    }
}

/// Negating twice gives the vector back, bit for bit; where no component is a
/// NaN the result also compares equal to the vector.
pub proof fn lemma_neg_involution(v: Vec3)
    ensures
        v.negated().negated() == v,
        !v.has_nan() ==> v.negated().negated().spec_eq(v),
{
    lemma_negated_value(v.x);
    lemma_negated_value(v.y);
    lemma_negated_value(v.z);
}

} // verus!
