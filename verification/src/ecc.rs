//! Parameters of the elliptic curves the surrounding system signs with:
//! sizes of scalars and field elements, and the curves' security level.

use vstd::prelude::*;

verus! {

/// The supported elliptic curves: K256 (secp256k1) and P256 (secp256r1).
#[derive(Clone, Copy, Debug, PartialEq, Eq, Structural)]
pub enum EccCurveType {
    /// secp256k1.
    K256,
    /// secp256r1.
    P256,
}

impl EccCurveType {
    /// Length of a scalar, in bits: the size of an integer in `[0, z)`
    /// where `z` is the group order.
    pub fn scalar_bits(&self) -> (r: usize)
        ensures
            r == 256,
    {
        match self {
            EccCurveType::K256 => 256,
            EccCurveType::P256 => 256,
        }
    }

    /// Length of a scalar, in bytes, rounded up.
    pub fn scalar_bytes(&self) -> (r: usize)
        ensures
            r == 32,
    {
        (self.scalar_bits() + 7) / 8
    }

    /// Length of the underlying field, in bits.
    pub fn field_bits(&self) -> (r: usize)
        ensures
            r == 256,
    {
        match self {
            EccCurveType::K256 => 256,
            EccCurveType::P256 => 256,
        }
    }

    /// Length of the underlying field, in bytes, rounded up.
    pub fn field_bytes(&self) -> (r: usize)
        ensures
            r == 32,
    {
        (self.field_bits() + 7) / 8
    }

    /// Security level of the curve, in bits.
    pub fn security_level(&self) -> (r: usize)
        ensures
            r == 128,
    {
        match self {
            EccCurveType::K256 => 128,
            EccCurveType::P256 => 128,
        }
    }

    /// Every available curve type, in a fixed order.
    pub fn all() -> (r: Vec<EccCurveType>)
        ensures
            r@ == seq![EccCurveType::K256, EccCurveType::P256],
    {
        let mut r: Vec<EccCurveType> = Vec::new();
        r.push(EccCurveType::K256);
        r.push(EccCurveType::P256);
        proof {
            assert(r@ =~= seq![EccCurveType::K256, EccCurveType::P256]);
        }
        r
    }
}

/// An elliptic curve, identified by its type.
#[derive(Clone, Copy, Debug, PartialEq, Eq, Structural)]
pub struct EccCurve {
    curve: EccCurveType,
}

impl EccCurve {
    /// The value the curve was created with.
    pub closed spec fn spec_curve_type(self) -> EccCurveType {
        self.curve
    }

    /// The curve's type.
    pub fn curve_type(&self) -> (r: EccCurveType)
        ensures
            r == self.spec_curve_type(),
    {
        self.curve
    }

    /// Create a curve of the given type.
    pub fn new(curve: EccCurveType) -> (r: Self)
        ensures
            r.spec_curve_type() == curve,
    {
        EccCurve { curve }
    }
}

} // verus!
