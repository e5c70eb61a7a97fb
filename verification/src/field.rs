//! Field descriptors and the abstract field-element interface.

use vstd::prelude::*;
use crate::arith::{
    f_add, f_div, f_mul, f_neg, f_pow, f_sub, invertible, lemma_f_div_one, lemma_f_pow_step,
    lemma_f_pow_zero, ModAdd, ModInv, ModMul, ModNeg, MulReduce, Scalar,
};
use vstd::arithmetic::div_mod::{
    lemma_basic_div, lemma_div_basics, lemma_div_denominator, lemma_fundamental_div_mod,
    lemma_mod_bound, lemma_small_mod,
};
use vstd::arithmetic::power2::{lemma_pow2_adds, lemma_pow2_pos, lemma2_to64, pow2};

verus! {

/// Failure of a checked field operation.
#[derive(Clone, Copy, Debug, PartialEq, Eq, Structural)]
pub enum FieldError {
    /// Division by a value with no multiplicative inverse.
    InverseOfZero,
}

/// A field descriptor: an immutable triple of modulus and Montgomery
/// constants, bound to a scalar representation.
///
/// `R` and `R_INVERSE` matter only when Montgomery form is used; a
/// descriptor used only in standard form may leave them at any value.
pub trait Field: Sized + Clone + Copy {
    /// Scalar representation of the field's values.
    type Value: ModAdd + ModMul + ModNeg + ModInv + MulReduce;

    /// The field modulus, as a mathematical value.
    spec fn modulus_spec() -> int;

    /// The Montgomery scale constant `R`, as a mathematical value.
    spec fn r_spec() -> int;

    /// The inverse of `R` modulo the modulus, as a mathematical value.
    spec fn r_inverse_spec() -> int;

    /// The field modulus.
    fn modulus() -> (r: Self::Value)
        ensures
            r.sc() == Self::modulus_spec(),
    ;

    /// The Montgomery scale constant `R`.
    fn r() -> (r: Self::Value)
        ensures
            r.sc() == Self::r_spec(),
    ;

    /// The inverse of `R` modulo the modulus.
    fn r_inverse() -> (r: Self::Value)
        ensures
            r.sc() == Self::r_inverse_spec(),
    ;
}

/// The descriptor is usable at all: the modulus is a real modulus.
/// A descriptor that fails this is misconfigured, and no element
/// operation promises anything for it.
pub open spec fn field_ok<F: Field>() -> bool {
    F::modulus_spec() >= 2
}

/// The Montgomery constants are consistent: both are reduced residues and
/// `R * R_INVERSE` is the multiplicative identity, which requires
/// `gcd(modulus, R) == 1`.
pub open spec fn montgomery_ok<F: Field>() -> bool {
    &&& field_ok::<F>()
    &&& 0 <= F::r_spec() < F::modulus_spec()
    &&& 0 <= F::r_inverse_spec() < F::modulus_spec()
    &&& f_mul(F::r_spec(), F::r_inverse_spec(), F::modulus_spec()) == 1
}

/// Runtime validation of a field descriptor: a misconfigured descriptor
/// (modulus zero or one) is caught here, at the boundary, rather than
/// surfacing as wrong arithmetic later.
pub fn field_consistent<F: Field>() -> (b: bool)
    ensures
        b == field_ok::<F>(),
{
    let m = F::modulus();
    let z = <F::Value as Scalar>::zero();
    let one = <F::Value as Scalar>::one();
    proof {
        m.sc_in_range();
    }
    !m.equals(z) && !m.equals(one)
}

/// Runtime validation of a field descriptor together with its Montgomery
/// constants: both must be reduced residues and multiply to the identity.
pub fn montgomery_consistent<F: Field>() -> (b: bool)
    ensures
        b == montgomery_ok::<F>(),
{
    if !field_consistent::<F>() {
        return false;
    }
    let m = F::modulus();
    let z = <F::Value as Scalar>::zero();
    let one = <F::Value as Scalar>::one();
    let r = F::r();
    let rinv = F::r_inverse();
    proof {
        r.sc_in_range();
        rinv.sc_in_range();
        lemma_mod_bound(r.sc(), m.sc());
        lemma_mod_bound(rinv.sc(), m.sc());
        if r.sc() < m.sc() {
            lemma_small_mod(r.sc() as nat, m.sc() as nat);
        }
        if rinv.sc() < m.sc() {
            lemma_small_mod(rinv.sc() as nat, m.sc() as nat);
        }
    }
    // A value equal to its own reduction is a reduced residue.
    if !r.add(z, m).equals(r) || !rinv.add(z, m).equals(rinv) {
        return false;
    }
    r.mul(rinv, m).equals(one)
}

/// Generalization of a field element: the capability set every element
/// representation offers, with contracts over the represented residue.
pub trait FieldValue: Sized + Copy {
    /// Scalar representation underlying this element type.
    type Value: ModAdd + ModMul + ModNeg + ModInv + MulReduce;

    /// The modulus of the field the elements live in.
    spec fn fm() -> int;

    /// The field descriptor behind this element type is well formed.
    spec fn fok() -> bool;

    /// The residue in `[0, fm())` that this element represents.
    spec fn lv(self) -> int;

    /// The stored representation is well formed.
    spec fn valid(self) -> bool;

    /// A well-formed descriptor has a modulus of at least two.
    proof fn lemma_fok_modulus()
        ensures
            Self::fok() ==> Self::fm() >= 2,
    ;

    /// A valid element represents a reduced residue.
    proof fn lemma_valid_range(self)
        requires
            Self::fok(),
            self.valid(),
        ensures
            0 <= self.lv() < Self::fm(),
    ;

    /// Field addition.
    fn add(self, other: Self) -> (r: Self)
        requires
            Self::fok(),
            self.valid(),
            other.valid(),
        ensures
            r.valid(),
            r.lv() == f_add(self.lv(), other.lv(), Self::fm()),
    ;

    /// Field subtraction.
    fn sub(self, other: Self) -> (r: Self)
        requires
            Self::fok(),
            self.valid(),
            other.valid(),
        ensures
            r.valid(),
            r.lv() == f_sub(self.lv(), other.lv(), Self::fm()),
    ;

    /// Additive inverse.
    fn neg(self) -> (r: Self)
        requires
            Self::fok(),
            self.valid(),
        ensures
            r.valid(),
            r.lv() == f_neg(self.lv(), Self::fm()),
    ;

    /// Field multiplication.
    fn mul(self, other: Self) -> (r: Self)
        requires
            Self::fok(),
            self.valid(),
            other.valid(),
        ensures
            r.valid(),
            r.lv() == f_mul(self.lv(), other.lv(), Self::fm()),
    ;

    /// Multiplication by a small integer constant.
    fn mul_scalar(self, other: u32) -> (r: Self)
        requires
            Self::fok(),
            self.valid(),
        ensures
            r.valid(),
            r.lv() == f_mul(self.lv(), other as int, Self::fm()),
    ;

    /// Field division: multiplication by the divisor's inverse. The result
    /// is pinned down whenever the divisor is invertible; division by a
    /// non-invertible divisor is a contract violation whose result is some
    /// valid element (see `checked_div` for the checked boundary).
    fn div(self, other: Self) -> (r: Self)
        requires
            Self::fok(),
            self.valid(),
            other.valid(),
        ensures
            r.valid(),
            invertible(other.lv(), Self::fm()) ==> r.lv() == f_div(
                self.lv(),
                other.lv(),
                Self::fm(),
            ),
    ;

    /// Multiplicative identity.
    fn one() -> (r: Self)
        requires
            Self::fok(),
        ensures
            r.valid(),
            r.lv() == 1,
    ;

    /// Additive identity.
    fn zero() -> (r: Self)
        requires
            Self::fok(),
        ensures
            r.valid(),
            r.lv() == 0,
    ;

    /// Equality of the represented residues.
    fn equals(self, other: Self) -> (b: bool)
        ensures
            (Self::fok() && self.valid() && other.valid()) ==> b == (self.lv() == other.lv()),
    ;

    /// The square of this element.
    fn squared(self) -> (r: Self)
        requires
            Self::fok(),
            self.valid(),
        ensures
            r.valid(),
            r.lv() == f_mul(self.lv(), self.lv(), Self::fm()),
    {
        self.mul(self)
    }

    /// Checked field division: division is refused, rather than undefined,
    /// when the divisor has no inverse (in particular when it is zero).
    fn checked_div(self, other: Self) -> (r: Result<Self, FieldError>)
        requires
            Self::fok(),
            self.valid(),
            other.valid(),
        ensures
            match r {
                Ok(v) => invertible(other.lv(), Self::fm()) && v.valid() && v.lv() == f_div(
                    self.lv(),
                    other.lv(),
                    Self::fm(),
                ),
                Err(e) => !invertible(other.lv(), Self::fm()) && e == FieldError::InverseOfZero,
            },
    {
        proof {
            Self::lemma_fok_modulus();
            other.lemma_valid_range();
        }
        let one = Self::one();
        let cand = one.div(other);
        let check = other.mul(cand);
        if check.equals(one) {
            proof {
                // The exhibited product pins invertibility down.
                cand.lemma_valid_range();
                lemma_small_mod(1, Self::fm() as nat);
                assert(f_mul(other.lv(), cand.lv(), Self::fm()) == 1int % Self::fm());
                assert(invertible(other.lv(), Self::fm()));
            }
            Ok(self.div(other))
        } else {
            proof {
                if invertible(other.lv(), Self::fm()) {
                    // An invertible divisor would have passed the check.
                    lemma_f_div_one(other.lv(), Self::fm());
                    crate::arith::lemma_f_inv_in_range(other.lv(), Self::fm());
                    lemma_small_mod(1, Self::fm() as nat);
                    assert(false);
                }
            }
            Err(FieldError::InverseOfZero)
        }
    }

    /// Exponentiation by square-and-multiply over the exponent's binary
    /// expansion, most significant bit first.
    fn pow(self, other: Self::Value) -> (r: Self)
        requires
            Self::fok(),
            self.valid(),
        ensures
            r.valid(),
            r.lv() == f_pow(self.lv(), other.sc() as nat, Self::fm()),
    {
        proof {
            Self::lemma_fok_modulus();
            other.sc_in_range();
        }
        let mut res = Self::one();
        let nb: usize = <Self::Value as Scalar>::max_bits();
        let ghost b = self.lv();
        let ghost m = Self::fm();
        let ghost v = other.sc();
        proof {
            lemma_pow2_pos((nb as nat));
            lemma_basic_div(v, pow2(nb as nat) as int);
            lemma_f_pow_zero(b, m);
        }
        let mut i: usize = 0;
        while i < nb
            invariant
                Self::fok(),
                self.valid(),
                res.valid(),
                b == self.lv(),
                m == Self::fm(),
                m >= 2,
                v == other.sc(),
                0 <= v < pow2(nb as nat),
                nb == <Self::Value as Scalar>::max_bits_spec(),
                0 <= i <= nb,
                res.lv() == f_pow(b, (v / pow2((nb - i) as nat) as int) as nat, m),
            decreases nb - i,
        {
            let ghost e = v / pow2((nb - i) as nat) as int;
            res = res.squared();
            let c = other.bit(nb - 1 - i);
            if c {
                res = self.mul(res);
            }
            proof {
                let j = (nb - 1 - i) as nat;
                lemma_pow2_pos(j);
                lemma_pow2_adds(j, 1);
                lemma2_to64();
                let vj = v / pow2(j) as int;
                // Splitting off the top bit: v / 2^(j+1) is vj / 2, and the
                // examined bit is vj's parity.
                lemma_div_denominator(v, pow2(j) as int, 2);
                assert(e == vj / 2);
                lemma_fundamental_div_mod(vj, 2);
                vstd::arithmetic::div_mod::lemma_mod_bound(vj, 2);
                assert(vj == 2 * e + (if c { 1int } else { 0int }));
                lemma_f_pow_step(b, e as nat, c, m);
            }
            i = i + 1;
        }
        proof {
            assert(pow2(0) == 1) by {
                lemma2_to64();
            }
            lemma_div_basics(v);
        }
        res
    }
}

} // verus!
