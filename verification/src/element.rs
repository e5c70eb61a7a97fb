//! Field element in standard (non-Montgomery) representation.

use vstd::prelude::*;
use crate::arith::{ModAdd, ModInv, ModMul, ModNeg, Scalar};
use crate::field::{field_ok, Field, FieldValue};
use vstd::arithmetic::div_mod::{lemma_add_mod_noop_right, lemma_mod_bound, lemma_mod_twice};

verus! {

/// Field element on the field `F`: a scalar held as a canonical residue
/// in `[0, MODULUS)`. Every constructor reduces, every operation keeps
/// the invariant.
#[derive(Clone, Copy)]
pub struct FieldElement<F: Field> {
    value: F::Value,
}

impl<F: Field> FieldElement<F> {
    /// Construct an element from a raw scalar, reducing it modulo the
    /// field modulus.
    pub fn from_value(value: F::Value) -> (r: Self)
        requires
            field_ok::<F>(),
        ensures
            r.valid(),
            r.lv() == value.sc() % F::modulus_spec(),
    {
        let m = F::modulus();
        let z = <F::Value as Scalar>::zero();
        proof {
            lemma_mod_bound(value.sc(), F::modulus_spec());
        }
        FieldElement { value: value.add(z, m) }
    }

    /// Deconstruct and return the raw value.
    pub fn into_value(self) -> (r: F::Value)
        ensures
            r.sc() == self.lv(),
    {
        self.value
    }
}

impl<F: Field> FieldValue for FieldElement<F> {
    type Value = F::Value;

    open spec fn fm() -> int {
        F::modulus_spec()
    }

    open spec fn fok() -> bool {
        field_ok::<F>()
    }

    closed spec fn lv(self) -> int {
        self.value.sc()
    }

    closed spec fn valid(self) -> bool {
        0 <= self.value.sc() < F::modulus_spec()
    }

    proof fn lemma_fok_modulus() {
    }

    proof fn lemma_valid_range(self) {
    }

    fn add(self, other: Self) -> (r: Self) {
        let m = F::modulus();
        proof {
            lemma_mod_bound(self.value.sc() + other.value.sc(), F::modulus_spec());
        }
        FieldElement { value: self.value.add(other.value, m) }
    }

    fn sub(self, other: Self) -> (r: Self) {
        let m = F::modulus();
        let nv = self.value.add(other.value.neg(m), m);
        proof {
            // Adding the possibly-unreduced negation is the same residue as
            // adding the reduced one.
            lemma_mod_bound(self.value.sc() + (F::modulus_spec() - other.value.sc() % F::modulus_spec()), F::modulus_spec());
            lemma_add_mod_noop_right(
                self.value.sc(),
                F::modulus_spec() - other.value.sc() % F::modulus_spec(),
                F::modulus_spec(),
            );
            lemma_mod_twice(F::modulus_spec() - other.value.sc() % F::modulus_spec(), F::modulus_spec());
        }
        FieldElement { value: nv }
    }

    fn neg(self) -> (r: Self) {
        let m = F::modulus();
        proof {
            lemma_mod_bound(self.value.sc(), F::modulus_spec());
        }
        Self::from_value(self.value.neg(m))
    }

    fn mul(self, other: Self) -> (r: Self) {
        let m = F::modulus();
        proof {
            lemma_mod_bound(self.value.sc() * other.value.sc(), F::modulus_spec());
        }
        FieldElement { value: self.value.mul(other.value, m) }
    }

    fn mul_scalar(self, other: u32) -> (r: Self) {
        let m = F::modulus();
        proof {
            lemma_mod_bound(self.value.sc() * other as int, F::modulus_spec());
        }
        FieldElement { value: self.value.mul_small(other, m) }
    }

    fn div(self, other: Self) -> (r: Self) {
        let m = F::modulus();
        let i = other.value.inv(m);
        proof {
            lemma_mod_bound(self.value.sc() * i.sc(), F::modulus_spec());
        }
        FieldElement { value: self.value.mul(i, m) }
    }

    fn one() -> (r: Self) {
        FieldElement { value: <F::Value as Scalar>::one() }
    }

    fn zero() -> (r: Self) {
        FieldElement { value: <F::Value as Scalar>::zero() }
    }

    fn equals(self, other: Self) -> (b: bool) {
        self.value.equals(other.value)
    }
}

} // verus!
