//! Concrete field descriptors and curve parameter sets over the 64-bit
//! scalar, for use as reference configurations and in tests.

use vstd::prelude::*;
use crate::affine;
use crate::curve::{Curve, PointVal};
use crate::element::FieldElement;
use crate::field::{montgomery_ok, Field};
use crate::mont::MontgomeryElement;

verus! {

/// The prime field of 19 elements, with Montgomery constants `R = 16` and
/// `R^-1 = 6`.
#[derive(Clone, Copy)]
pub struct Mod19Field;

impl Field for Mod19Field {
    type Value = u64;

    open spec fn modulus_spec() -> int {
        19
    }

    open spec fn r_spec() -> int {
        16
    }

    open spec fn r_inverse_spec() -> int {
        6
    }

    fn modulus() -> (r: u64) {
        19
    }

    fn r() -> (r: u64) {
        16
    }

    fn r_inverse() -> (r: u64) {
        6
    }
}

/// The Montgomery constants of the 19-element field are consistent.
pub proof fn lemma_mod19_montgomery_ok()
    ensures
        montgomery_ok::<Mod19Field>(),
{
    assert((16int * 6) % 19 == 1);
}

/// The prime field modulo `1125899839733759`, with Montgomery constants
/// `R = 1099511644160` and `R^-1 = 343597359104`.
#[derive(Clone, Copy)]
pub struct U64Field;

impl Field for U64Field {
    type Value = u64;

    open spec fn modulus_spec() -> int {
        1125899839733759
    }

    open spec fn r_spec() -> int {
        1099511644160
    }

    open spec fn r_inverse_spec() -> int {
        343597359104
    }

    fn modulus() -> (r: u64) {
        1125899839733759
    }

    fn r() -> (r: u64) {
        1099511644160
    }

    fn r_inverse() -> (r: u64) {
        343597359104
    }
}

/// The Montgomery constants of the large test field are consistent.
pub proof fn lemma_u64_field_montgomery_ok()
    ensures
        montgomery_ok::<U64Field>(),
{
    assert((1099511644160int * 343597359104) % 1125899839733759 == 1);
}

/// The curve `y^2 = x^3 + 7x + 14` over the field modulo
/// `1125899839733759`, with generator `(2, 6)`, in standard form.
#[derive(Clone, Copy)]
pub struct U64Curve;

impl Curve for U64Curve {
    type Value = FieldElement<U64Field>;

    open spec fn a_spec() -> int {
        7
    }

    open spec fn generator_spec() -> PointVal {
        PointVal::Finite { x: 2, y: 6 }
    }

    fn generator() -> (r: affine::Point<Self>) {
        affine::Point::Finite { x: FieldElement::from_value(2), y: FieldElement::from_value(6) }
    }

    fn a() -> (r: Self::Value) {
        FieldElement::from_value(7)
    }
}


/// The Koblitz-style curve `y^2 = x^3 + 41` (coefficient `a = 0`) over the
/// field modulo `1125899839733759`, with generator `(2, 7)`.
#[derive(Clone, Copy)]
pub struct U64KoblitzCurve;

impl Curve for U64KoblitzCurve {
    type Value = FieldElement<U64Field>;

    open spec fn a_spec() -> int {
        0
    }

    open spec fn generator_spec() -> PointVal {
        PointVal::Finite { x: 2, y: 7 }
    }

    fn generator() -> (r: affine::Point<Self>) {
        affine::Point::Finite { x: FieldElement::from_value(2), y: FieldElement::from_value(7) }
    }

    fn a() -> (r: Self::Value) {
        FieldElement::from_value(0)
    }
}

/// The curve `y^2 = x^3 + 7x + 14` over the field modulo
/// `1125899839733759`, computing in Montgomery form.
#[derive(Clone, Copy)]
pub struct U64MontgomeryCurve;

impl Curve for U64MontgomeryCurve {
    type Value = MontgomeryElement<U64Field>;

    open spec fn a_spec() -> int {
        7
    }

    open spec fn generator_spec() -> PointVal {
        PointVal::Finite { x: 2, y: 6 }
    }

    fn generator() -> (r: affine::Point<Self>) {
        affine::Point::Finite {
            x: MontgomeryElement::from_value(2),
            y: MontgomeryElement::from_value(6),
        }
    }

    fn a() -> (r: Self::Value) {
        MontgomeryElement::from_value(7)
    }
}

} // verus!
