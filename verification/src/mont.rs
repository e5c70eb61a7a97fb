//! Field element held in Montgomery representation.
//!
//! A stored value `s` represents the residue `s * R_INVERSE mod M`; the
//! element logically equal to `x` is stored as `x * R mod M`. Addition and
//! subtraction work on stored values unchanged; multiplication uses the
//! multiply-then-rescale primitive, keeping the scale factor invariant.

use vstd::prelude::*;
use crate::arith::{
    f_add, f_div, f_inv, f_mul, f_neg, f_sub, invertible, lemma_f_inv_is, lemma_f_sub_is_mod,
    lemma_f_neg_is_mod, lemma_invertible_mul, lemma_scale_add, lemma_scale_small, ModAdd, ModInv,
    ModMul, ModNeg, MulReduce, Scalar,
};
use crate::element::FieldElement;
use crate::field::{field_ok, montgomery_ok, Field, FieldValue};
use vstd::arithmetic::div_mod::{
    lemma_add_mod_noop, lemma_add_mod_noop_right, lemma_mod_bound, lemma_mod_twice,
    lemma_mul_mod_noop_left, lemma_mul_mod_noop_right, lemma_small_mod, lemma_sub_mod_noop,
};
use vstd::arithmetic::mul::{
    lemma_mul_is_associative, lemma_mul_is_commutative, lemma_mul_is_distributive_add_other_way,
    lemma_mul_is_distributive_sub_other_way, lemma_mul_unary_negation,
};

verus! {

/// Scaling by a constant distributes over modular subtraction.
proof fn lemma_scale_sub(s1: int, s2: int, t: int, m: int)
    requires
        m >= 1,
    ensures
        f_mul(f_sub(s1, s2, m), t, m) == f_sub(f_mul(s1, t, m), f_mul(s2, t, m), m),
{
    lemma_f_sub_is_mod(s1, s2, m);
    lemma_f_sub_is_mod(f_mul(s1, t, m), f_mul(s2, t, m), m);
    assert((((s1 - s2) % m) * t) % m == ((s1 - s2) * t) % m) by {
        lemma_mul_mod_noop_left(s1 - s2, t, m);
    }
    lemma_mul_is_distributive_sub_other_way(t, s1, s2);
    lemma_sub_mod_noop(s1 * t, s2 * t, m);
}

/// Scaling by a constant commutes with modular negation.
proof fn lemma_scale_neg(s1: int, t: int, m: int)
    requires
        m >= 1,
    ensures
        f_mul(f_neg(s1, m), t, m) == f_neg(f_mul(s1, t, m), m),
{
    lemma_f_neg_is_mod(s1, m);
    lemma_f_neg_is_mod(f_mul(s1, t, m), m);
    assert((((-s1) % m) * t) % m == ((-s1) * t) % m) by {
        lemma_mul_mod_noop_left(-s1, t, m);
    }
    assert((-s1) * t == -(s1 * t)) by {
        lemma_mul_unary_negation(s1, t);
    }
    assert((-((s1 * t) % m)) % m == (-(s1 * t)) % m) by {
        lemma_sub_mod_noop(0, s1 * t, m);
        lemma_small_mod(0, m as nat);
    }
}

/// The Montgomery round trip: scaling a reduced residue by `R` and then by
/// `R_INVERSE` gives the residue back.
pub proof fn lemma_montgomery_round_trip(x: int, rr: int, t: int, m: int)
    requires
        m >= 2,
        0 <= x < m,
        f_mul(rr, t, m) == 1,
    ensures
        f_mul(f_mul(x, rr, m), t, m) == x,
{
    assert((((x * rr) % m) * t) % m == ((x * rr) * t) % m) by {
        lemma_mul_mod_noop_left(x * rr, t, m);
    }
    assert((x * rr) * t == x * (rr * t)) by {
        lemma_mul_is_associative(x, rr, t);
    }
    assert((x * (rr * t)) % m == (x * ((rr * t) % m)) % m) by {
        lemma_mul_mod_noop_right(x, rr * t, m);
    }
    lemma_small_mod(x as nat, m as nat);
}

/// Montgomery multiplication is multiplication of the represented values:
/// one rescale cancels one of the two scale factors.
proof fn lemma_mont_mul(s1: int, s2: int, t: int, m: int)
    requires
        m >= 1,
    ensures
        f_mul(f_mul(f_mul(s1, s2, m), t, m), t, m) == f_mul(f_mul(s1, t, m), f_mul(s2, t, m), m),
{
    let a = s1 * s2;
    assert(f_mul(f_mul(f_mul(s1, s2, m), t, m), t, m) == (a * (t * t)) % m) by {
        lemma_mul_mod_noop_left(a, t, m);
        lemma_mul_mod_noop_left(a % m * t, t, m);
        lemma_mul_mod_noop_left(a, t * t, m);
        lemma_mul_mod_noop_left(a % m, t * t, m);
        lemma_mul_is_associative(a % m, t, t);
        lemma_mul_is_associative(a, t, t);
    }
    assert(f_mul(f_mul(s1, t, m), f_mul(s2, t, m), m) == ((s1 * t) * (s2 * t)) % m) by {
        vstd::arithmetic::div_mod::lemma_mul_mod_noop_general(s1 * t, s2 * t, m);
    }
    assert((s1 * t) * (s2 * t) == a * (t * t)) by {
        lemma_mul_is_associative(s1 * t, s2, t);
        lemma_mul_is_associative(s1, t, s2);
        lemma_mul_is_commutative(t, s2);
        lemma_mul_is_associative(s1, s2, t);
        lemma_mul_is_associative(s1 * s2, t, t);
    }
}

/// Cancellation: equal scaled values have equal stored values when the
/// scale factor has an inverse.
proof fn lemma_scale_cancel(s1: int, s2: int, rr: int, t: int, m: int)
    requires
        m >= 2,
        0 <= s1 < m,
        0 <= s2 < m,
        f_mul(rr, t, m) == 1,
        f_mul(s1, t, m) == f_mul(s2, t, m),
    ensures
        s1 == s2,
{
    lemma_mul_is_commutative(rr, t);
    lemma_montgomery_round_trip(s1, t, rr, m);
    lemma_montgomery_round_trip(s2, t, rr, m);
}

/// Montgomery division: dividing stored values with the `R` rescale yields
/// the quotient of the represented values.
proof fn lemma_mont_div(s1: int, s2: int, rr: int, t: int, m: int)
    requires
        m >= 2,
        0 <= s2 < m,
        0 <= rr < m,
        0 <= t < m,
        f_mul(rr, t, m) == 1,
        invertible(f_mul(s2, t, m), m),
    ensures
        invertible(s2, m),
        f_mul(f_mul(f_mul(s1, f_inv(s2, m), m), rr, m), t, m) == f_div(
            f_mul(s1, t, m),
            f_mul(s2, t, m),
            m,
        ),
{
    let lv2 = f_mul(s2, t, m);
    lemma_small_mod(1, m as nat);
    lemma_mul_is_commutative(rr, t);
    // t and R invert each other.
    lemma_f_inv_is(t, m, rr);
    lemma_f_inv_is(rr, m, t);
    // The stored divisor is the scaled one times R.
    lemma_montgomery_round_trip(s2, t, rr, m);
    assert(f_mul(lv2, rr, m) == s2);
    lemma_invertible_mul(lv2, rr, m);
    assert(invertible(s2, m));
    let ilv = f_inv(lv2, m);
    assert(f_inv(s2, m) == f_mul(ilv, t, m));
    // Both sides are s1 * ilv * t modulo m.
    let q = f_mul(s1, f_inv(s2, m), m);
    lemma_mod_bound(s1 * f_inv(s2, m), m);
    lemma_montgomery_round_trip(q, rr, t, m);
    assert(f_mul(f_mul(q, rr, m), t, m) == q);
    assert(q == (s1 * ((ilv * t) % m)) % m);
    assert(q == (s1 * (ilv * t)) % m) by {
        lemma_mul_mod_noop_right(s1, ilv * t, m);
    }
    assert(f_div(f_mul(s1, t, m), lv2, m) == (((s1 * t) % m) * ilv) % m);
    assert(f_div(f_mul(s1, t, m), lv2, m) == ((s1 * t) * ilv) % m) by {
        lemma_mul_mod_noop_left(s1 * t, ilv, m);
    }
    assert(s1 * (ilv * t) == (s1 * t) * ilv) by {
        lemma_mul_is_associative(s1, ilv, t);
        lemma_mul_is_commutative(ilv, t);
        lemma_mul_is_associative(s1, t, ilv);
    }
}

/// Field element on the field `F`, held in Montgomery representation.
#[derive(Clone, Copy)]
pub struct MontgomeryElement<F: Field> {
    value: F::Value,
}

impl<F: Field> MontgomeryElement<F> {
    /// The stored, still-scaled value.
    pub closed spec fn sv(self) -> int {
        self.value.sc()
    }

    /// The represented residue is the stored value unscaled: the
    /// representation invariant read one way.
    pub proof fn lemma_lv_is_unscaled(self)
        ensures
            self.lv() == f_mul(self.sv(), F::r_inverse_spec(), F::modulus_spec()),
    {
    }

    /// The stored value of a valid element is the represented residue
    /// scaled by `R`: the representation invariant read the other way.
    pub proof fn lemma_sv_is_scaled(self)
        requires
            montgomery_ok::<F>(),
            self.valid(),
        ensures
            self.sv() == f_mul(self.lv(), F::r_spec(), F::modulus_spec()),
    {
        lemma_mul_is_commutative(F::r_spec(), F::r_inverse_spec());
        lemma_montgomery_round_trip(
            self.sv(),
            F::r_inverse_spec(),
            F::r_spec(),
            F::modulus_spec(),
        );
    }

    /// New element from regular form: scales by `R` on entry.
    pub fn from_element(t: FieldElement<F>) -> (r: Self)
        requires
            montgomery_ok::<F>(),
            t.valid(),
        ensures
            r.valid(),
            r.lv() == t.lv(),
            r.sv() == f_mul(t.lv(), F::r_spec(), F::modulus_spec()),
    {
        proof {
            t.lemma_valid_range();
            lemma_mod_bound(t.lv() * F::r_spec(), F::modulus_spec());
            lemma_montgomery_round_trip(
                t.lv(),
                F::r_spec(),
                F::r_inverse_spec(),
                F::modulus_spec(),
            );
        }
        let m = F::modulus();
        MontgomeryElement { value: t.into_value().mul(F::r(), m) }
    }

    /// Convert back to regular form: unscales by `R_INVERSE`.
    pub fn into_element(self) -> (r: FieldElement<F>)
        requires
            montgomery_ok::<F>(),
            self.valid(),
        ensures
            r.valid(),
            r.lv() == self.lv(),
    {
        let v = self.into_reduced_value();
        proof {
            self.lemma_valid_range();
            lemma_mod_bound(self.sv() * F::r_inverse_spec(), F::modulus_spec());
            lemma_small_mod(self.lv() as nat, F::modulus_spec() as nat);
        }
        FieldElement::from_value(v)
    }

    /// Deconstruct and return the raw stored value (still scaled).
    pub fn into_value(self) -> (r: F::Value)
        ensures
            r.sc() == self.sv(),
    {
        self.value
    }

    /// Deconstruct and return the represented residue (unscaled).
    pub fn into_reduced_value(self) -> (r: F::Value)
        requires
            montgomery_ok::<F>(),
        ensures
            r.sc() == self.lv(),
            r.sc() == f_mul(self.sv(), F::r_inverse_spec(), F::modulus_spec()),
    {
        let m = F::modulus();
        self.value.mul(F::r_inverse(), m)
    }

    /// Construct from a raw stored value, reducing it into range.
    pub fn from_raw(val: F::Value) -> (r: Self)
        requires
            field_ok::<F>(),
        ensures
            r.valid(),
            r.sv() == val.sc() % F::modulus_spec(),
    {
        let m = F::modulus();
        let z = <F::Value as Scalar>::zero();
        proof {
            lemma_mod_bound(val.sc(), F::modulus_spec());
        }
        MontgomeryElement { value: val.add(z, m) }
    }

    /// Construct the element representing `val`: scales by `R`.
    pub fn from_value(val: F::Value) -> (r: Self)
        requires
            montgomery_ok::<F>(),
        ensures
            r.valid(),
            r.lv() == val.sc() % F::modulus_spec(),
            r.sv() == f_mul(val.sc(), F::r_spec(), F::modulus_spec()),
    {
        let m = F::modulus();
        let ghost v = val.sc();
        let ghost t = F::r_inverse_spec();
        let ghost rr = F::r_spec();
        let ghost mi = F::modulus_spec();
        proof {
            lemma_mod_bound(v * rr, mi);
            assert((((v * rr) % mi) * t) % mi == ((v * rr) * t) % mi) by {
                lemma_mul_mod_noop_left(v * rr, t, mi);
            }
            assert((v * rr) * t == v * (rr * t)) by {
                lemma_mul_is_associative(v, rr, t);
            }
            assert((v * (rr * t)) % mi == (v * ((rr * t) % mi)) % mi) by {
                lemma_mul_mod_noop_right(v, rr * t, mi);
            }
        }
        MontgomeryElement { value: val.mul(F::r(), m) }
    }
}

impl<F: Field> FieldValue for MontgomeryElement<F> {
    type Value = F::Value;

    open spec fn fm() -> int {
        F::modulus_spec()
    }

    open spec fn fok() -> bool {
        montgomery_ok::<F>()
    }

    closed spec fn lv(self) -> int {
        f_mul(self.value.sc(), F::r_inverse_spec(), F::modulus_spec())
    }

    closed spec fn valid(self) -> bool {
        0 <= self.value.sc() < F::modulus_spec()
    }

    proof fn lemma_fok_modulus() {
    }

    proof fn lemma_valid_range(self) {
        lemma_mod_bound(self.value.sc() * F::r_inverse_spec(), F::modulus_spec());
    }

    fn add(self, other: Self) -> (r: Self) {
        let m = F::modulus();
        proof {
            lemma_mod_bound(self.sv() + other.sv(), F::modulus_spec());
            lemma_scale_add(self.sv(), other.sv(), F::r_inverse_spec(), F::modulus_spec());
        }
        MontgomeryElement { value: self.value.add(other.value, m) }
    }

    fn sub(self, other: Self) -> (r: Self) {
        let m = F::modulus();
        let nv = self.value.add(other.value.neg(m), m);
        proof {
            let mi = F::modulus_spec();
            lemma_mod_bound(self.sv() + (mi - other.sv() % mi), mi);
            lemma_add_mod_noop_right(self.sv(), mi - other.sv() % mi, mi);
            lemma_mod_twice(mi - other.sv() % mi, mi);
            lemma_scale_sub(self.sv(), other.sv(), F::r_inverse_spec(), mi);
        }
        MontgomeryElement { value: nv }
    }

    fn neg(self) -> (r: Self) {
        let m = F::modulus();
        let r = Self::from_raw(self.value.neg(m));
        proof {
            let mi = F::modulus_spec();
            lemma_mod_twice(mi - self.sv() % mi, mi);
            lemma_scale_neg(self.sv(), F::r_inverse_spec(), mi);
        }
        r
    }

    fn mul(self, other: Self) -> (r: Self) {
        let m = F::modulus();
        let ri = F::r_inverse();
        proof {
            let mi = F::modulus_spec();
            lemma_mod_bound(f_mul(self.sv(), other.sv(), mi) * F::r_inverse_spec(), mi);
            lemma_mont_mul(self.sv(), other.sv(), F::r_inverse_spec(), mi);
        }
        MontgomeryElement { value: self.value.mul_reduce(other.value, m, ri) }
    }

    fn mul_scalar(self, other: u32) -> (r: Self)
        ensures
            r.sv() == f_mul(self.sv(), other as int, F::modulus_spec()),
    {
        let m = F::modulus();
        proof {
            let mi = F::modulus_spec();
            lemma_mod_bound(self.sv() * other as int, mi);
            lemma_scale_small(self.sv(), other as int, F::r_inverse_spec(), mi);
        }
        MontgomeryElement { value: self.value.mul_small(other, m) }
    }

    fn div(self, other: Self) -> (r: Self) {
        let m = F::modulus();
        let rr = F::r();
        let iv = other.value.inv(m);
        proof {
            let mi = F::modulus_spec();
            if invertible(other.lv(), mi) {
                lemma_mont_div(
                    self.sv(),
                    other.sv(),
                    F::r_spec(),
                    F::r_inverse_spec(),
                    mi,
                );
            }
            lemma_mod_bound(self.sv() * iv.sc(), mi);
            lemma_mod_bound(f_mul(self.sv(), iv.sc(), mi) * F::r_spec(), mi);
            lemma_mod_bound(f_mul(f_mul(self.sv(), iv.sc(), mi), F::r_spec(), mi)
                * F::r_inverse_spec(), mi);
        }
        MontgomeryElement { value: self.value.mul_reduce(iv, m, rr) }
    }

    fn one() -> (r: Self)
        ensures
            r.sv() == F::r_spec(),
    {
        MontgomeryElement { value: F::r() }
    }

    fn zero() -> (r: Self)
        ensures
            r.sv() == 0,
    {
        proof {
            lemma_small_mod(0, F::modulus_spec() as nat);
        }
        MontgomeryElement { value: <F::Value as Scalar>::zero() }
    }

    fn equals(self, other: Self) -> (b: bool) {
        proof {
            if montgomery_ok::<F>() && self.valid() && other.valid() && self.lv() == other.lv() {
                lemma_scale_cancel(
                    self.sv(),
                    other.sv(),
                    F::r_spec(),
                    F::r_inverse_spec(),
                    F::modulus_spec(),
                );
            }
        }
        self.value.equals(other.value)
    }
}

} // verus!
