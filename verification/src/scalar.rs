//! Single-precision numbers, held by their bit patterns.
//!
//! A [`Scalar`] carries the 32 bits of a binary32 number: one sign bit, eight
//! exponent bits and 23 fraction bits. Everything here is decided on those
//! bits alone: the order of two numbers, their equality, the sign. Sums,
//! products, quotients and roots are left to the caller, who turns a `Scalar`
//! into the machine's own number and back through `to_bits` and `from_bits`.

use vstd::prelude::*;
use vstd::arithmetic::power2::{
    pow2, lemma_pow2_pos, lemma_pow2_strictly_increases, lemma_pow2_unfold,
};
use vstd::std_specs::cmp::PartialEqSpecImpl;
use vstd::std_specs::ops::NegSpecImpl;

verus! {

/// A binary32 number by its bit pattern.
#[derive(Copy, Clone, Debug)]
pub struct Scalar {
    pub bits: u32,
}

impl Scalar {
    /// The sign bit is set.
    pub open spec fn is_negative(self) -> bool {
        self.bits >= 0x8000_0000
    }

    /// The eight exponent bits.
    pub open spec fn exponent(self) -> nat {
        ((self.bits / 0x80_0000) % 0x100) as nat
    }

    /// The 23 fraction bits.
    pub open spec fn fraction(self) -> nat {
        (self.bits % 0x80_0000) as nat
    }

    /// Not a number: all exponent bits set and a fraction that is not zero.
    pub open spec fn spec_is_nan(self) -> bool {
        self.exponent() == 255 && self.fraction() != 0
    }

    /// Plus or minus zero.
    pub open spec fn is_zero(self) -> bool {
        self.bits % 0x8000_0000 == 0
    }

    /// The absolute value, counted in units of 2^-149 (the smallest positive
    /// number). An infinity counts as 2^128, which lies above every finite
    /// number; what this gives for a NaN has no meaning.
    pub open spec fn magnitude(self) -> nat {
        if self.exponent() == 0 {
            self.fraction()
        } else {
            (0x80_0000 + self.fraction()) * pow2((self.exponent() - 1) as nat)
        }
    }

    /// The number, counted in units of 2^-149.
    pub open spec fn value(self) -> int {
        if self.is_negative() {
            -(self.magnitude() as int)
        } else {
            self.magnitude() as int
        }
    }

    /// `self < other` as numbers: false when either is a NaN.
    pub open spec fn spec_lt(self, other: Scalar) -> bool {
        !self.spec_is_nan() && !other.spec_is_nan() && self.value() < other.value()
    }

    /// `self <= other` as numbers: false when either is a NaN.
    pub open spec fn spec_le(self, other: Scalar) -> bool {
        !self.spec_is_nan() && !other.spec_is_nan() && self.value() <= other.value()
    }

    /// `self == other` as numbers: plus and minus zero are equal, and a NaN is
    /// equal to nothing, not even to itself.
    pub open spec fn spec_eq(self, other: Scalar) -> bool {
        !self.spec_is_nan() && !other.spec_is_nan() && self.value() == other.value()
    }

    /// The same number with the sign bit flipped.
    pub open spec fn negated(self) -> Scalar {
        if self.is_negative() {
            Scalar { bits: (self.bits - 0x8000_0000) as u32 }
        } else {
            Scalar { bits: (self.bits + 0x8000_0000) as u32 }
        }
    }

    /// Positive zero.
    pub open spec fn spec_zero() -> Scalar {
        Scalar { bits: 0 }
    }

    pub fn from_bits(bits: u32) -> (s: Scalar)
        ensures
            s.bits == bits,
    {
        Scalar { bits }
    }

    pub fn to_bits(self) -> (bits: u32)
        ensures
            bits == self.bits,
    {
        self.bits
    }

    #[verifier::when_used_as_spec(spec_zero)]
    pub fn zero() -> (s: Scalar)
        ensures
            s == Scalar::spec_zero(),
    {
        Scalar { bits: 0 }
    }

    #[verifier::when_used_as_spec(spec_is_nan)]
    pub fn is_nan(self) -> (nan: bool)
        ensures
            nan == self.spec_is_nan(),
    {
        let bits: u32 = self.bits;
        assert(((bits & 0x7fff_ffff) > 0x7f80_0000) <==> ((bits / 0x80_0000) % 0x100 == 255 && bits
            % 0x80_0000 != 0)) by (bit_vector);
        (bits & 0x7fff_ffff) > 0x7f80_0000
    }

    /// `self < other`, as the machine compares two single-precision numbers.
    #[verifier::when_used_as_spec(spec_lt)]
    pub fn lt(self, other: Scalar) -> (less: bool)
        ensures
            less == self.spec_lt(other),
    {
        if self.is_nan() || other.is_nan() {
            return false;
        }
        let a: u32 = self.bits;
        let b: u32 = other.bits;
        let a_size: u32 = a & 0x7fff_ffff;
        let b_size: u32 = b & 0x7fff_ffff;
        proof {
            assert(a & 0x7fff_ffff == a % 0x8000_0000) by (bit_vector);
            assert(b & 0x7fff_ffff == b % 0x8000_0000) by (bit_vector);
            lemma_magnitude_order(self, other);
            lemma_magnitude_order(other, self);
        }
        if a >= 0x8000_0000 {
            if b >= 0x8000_0000 {
                b_size < a_size
            } else {
                a_size != 0 || b_size != 0
            }
        } else {
            if b >= 0x8000_0000 {
                false
            } else {
                a_size < b_size
            }
        }
    }

    /// `self <= other`, as the machine compares two single-precision numbers.
    #[verifier::when_used_as_spec(spec_le)]
    pub fn le(self, other: Scalar) -> (at_most: bool)
        ensures
            at_most == self.spec_le(other),
    {
        if self.is_nan() || other.is_nan() {
            return false;
        }
        !other.lt(self)
    }
}

/// Among the bit patterns without their sign bit, a larger pattern is a larger
/// magnitude, and only the pattern of zero has magnitude zero.
pub proof fn lemma_magnitude_order(a: Scalar, b: Scalar)
    ensures
        a.bits % 0x8000_0000 < b.bits % 0x8000_0000 ==> a.magnitude() < b.magnitude(),
        a.bits % 0x8000_0000 == b.bits % 0x8000_0000 ==> a.magnitude() == b.magnitude(),
        a.is_zero() <==> a.magnitude() == 0,
{
    let ea = a.exponent();
    let eb = b.exponent();
    let fa = a.fraction();
    let fb = b.fraction();
    assert(a.bits % 0x8000_0000 == ea * 0x80_0000 + fa);
    assert(b.bits % 0x8000_0000 == eb * 0x80_0000 + fb);
    if ea > 0 {
        let p = pow2((ea - 1) as nat);
        lemma_pow2_pos((ea - 1) as nat);
        assert((0x80_0000 + fa) * p >= 0x80_0000) by (nonlinear_arith)
            requires
                p >= 1,
                fa >= 0,
        ;
    }
    if a.bits % 0x8000_0000 < b.bits % 0x8000_0000 {
        assert(ea <= eb);
        if ea == eb {
            if ea > 0 {
                let p = pow2((ea - 1) as nat);
                lemma_pow2_pos((ea - 1) as nat);
                assert((0x80_0000 + fa) * p < (0x80_0000 + fb) * p) by (nonlinear_arith)
                    requires
                        p >= 1,
                        fa < fb,
                ;
            }
        } else {
            let q = pow2((eb - 1) as nat);
            lemma_pow2_pos((eb - 1) as nat);
            assert((0x80_0000 + fb) * q >= 0x80_0000 * q) by (nonlinear_arith)
                requires
                    q >= 1,
                    fb >= 0,
            ;
            if ea > 0 {
                let p = pow2((ea - 1) as nat);
                lemma_pow2_unfold(ea);
                assert(pow2(ea) == 2 * p);
                if ea < eb - 1 {
                    lemma_pow2_strictly_increases(ea, (eb - 1) as nat);
                }
                assert(pow2(ea) <= q);
                assert((0x80_0000 + fa) * p < 0x80_0000 * q) by (nonlinear_arith)
                    requires
                        p >= 1,
                        fa < 0x80_0000,
                        2 * p <= q,
                ;
            } else {
                assert(0x80_0000 * q >= 0x80_0000) by (nonlinear_arith)
                    requires
                        q >= 1,
                ;
            }
        }
    }
}

/// The order of the numbers: nothing is less than itself, `<` is
/// transitive, `<=` is `<` or equal, and of two numbers (no NaN) one is at
/// most the other.
pub proof fn lemma_order(a: Scalar, b: Scalar, c: Scalar)
    ensures
        !a.spec_lt(a),
        a.spec_lt(b) && b.spec_lt(c) ==> a.spec_lt(c),
        a.spec_le(b) && b.spec_le(c) ==> a.spec_le(c),
        a.spec_le(b) <==> a.spec_lt(b) || a.spec_eq(b),
        a.spec_le(b) && b.spec_le(a) <==> a.spec_eq(b),
        !a.spec_is_nan() && !b.spec_is_nan() ==> a.spec_le(b) || b.spec_lt(a),
        a.spec_eq(b) ==> b.spec_eq(a),
        a.spec_eq(b) && a.bits != b.bits ==> a.is_zero() && b.is_zero(),
{
    lemma_magnitude_order(a, b);
    lemma_magnitude_order(b, a);
}

/// Flipping the sign bit negates the value and keeps the magnitude.
pub proof fn lemma_negated_value(a: Scalar)
    ensures
        a.negated().magnitude() == a.magnitude(),
        a.negated().value() == -a.value(),
        a.negated().spec_is_nan() == a.spec_is_nan(),
        a.negated().negated() == a,
{
    let n = a.negated();
    assert(n.exponent() == a.exponent());
    assert(n.fraction() == a.fraction());
    assert(n.is_negative() != a.is_negative());
}

impl PartialEq for Scalar {
    /// Equality of the numbers: plus and minus zero are equal, and a NaN
    /// is equal to nothing.
    fn eq(&self, other: &Scalar) -> (equal: bool) {
        if self.is_nan() || other.is_nan() {
            return false;
        }
        let a: u32 = self.bits;
        let b: u32 = other.bits;
        proof {
            assert(a & 0x7fff_ffff == a % 0x8000_0000) by (bit_vector);
            assert(b & 0x7fff_ffff == b % 0x8000_0000) by (bit_vector);
            lemma_magnitude_order(*self, *other);
            lemma_magnitude_order(*other, *self);
        }
        a == b || ((a & 0x7fff_ffff) == 0 && (b & 0x7fff_ffff) == 0)
    }
}

impl PartialEqSpecImpl for Scalar {
    open spec fn obeys_eq_spec() -> bool {
        true
    }

    open spec fn eq_spec(&self, other: &Scalar) -> bool {
        self.spec_eq(*other)
    }
}

impl core::ops::Neg for Scalar {
    type Output = Scalar;

    /// The number with its sign flipped; a NaN stays a NaN.
    fn neg(self) -> (r: Scalar) {
        let bits: u32 = self.bits;
        assert(bits ^ 0x8000_0000 == (if bits >= 0x8000_0000 {
            (bits - 0x8000_0000) as u32
        } else {
            (bits + 0x8000_0000) as u32
        })) by (bit_vector);
        Scalar { bits: bits ^ 0x8000_0000 }
    }
}

impl NegSpecImpl for Scalar {
    open spec fn obeys_neg_spec() -> bool {
        true
    }

    open spec fn neg_req(self) -> bool {
        true
    }

    open spec fn neg_spec(self) -> Scalar {
        self.negated()
    }
}

} // verus!
