//! Affine point on a curve: the group law and scalar multiplication.

use vstd::prelude::*;
use crate::arith::{
    f_add, f_div, f_inv, f_mul, f_neg, f_sub, invertible, lemma_cong_neg,
    lemma_f_div_mul, lemma_f_inv_in_range, lemma_f_inv_is, lemma_f_neg_is_mod,
    lemma_f_sub_is_mod, lemma_invertible_mul, lemma_invertible_neg, lemma_prime_invertible,
    odd_prime, Scalar,
};
use vstd::arithmetic::div_mod::{
    lemma_div_basics, lemma_div_denominator, lemma_mod_bound, lemma_mod_equivalence,
    lemma_mod_twice, lemma_mul_mod_noop_general, lemma_mul_mod_noop_right, lemma_small_mod,
    lemma_sub_mod_noop,
};
use vstd::arithmetic::mul::{
    lemma_mul_is_commutative, lemma_mul_is_distributive_sub, lemma_mul_unary_negation,
};
use vstd::arithmetic::power2::{lemma_pow2_adds, lemma_pow2_pos, lemma2_to64, pow2};
use crate::curve::{pt_valid, Curve, PointVal};
use crate::field::FieldValue;
use crate::jacobian::{affine_to_jac, JacVal};

verus! {

/// Horizontal coordinate of a spec-level point; the identity reads as the
/// sentinel coordinate zero.
pub open spec fn px(p: PointVal) -> int {
    match p {
        PointVal::Infinity => 0,
        PointVal::Finite { x, y } => x,
    }
}

/// Vertical coordinate of a spec-level point; the identity reads as the
/// sentinel coordinate zero.
pub open spec fn py(p: PointVal) -> int {
    match p {
        PointVal::Infinity => 0,
        PointVal::Finite { x, y } => y,
    }
}

/// The affine group law on spec-level points, for the curve
/// `y^2 = x^3 + a*x + b` over the field modulo `m`:
/// the identity absorbs; opposite points and the doubling of a 2-torsion
/// point give the identity; otherwise the chord (or tangent) slope builds
/// the sum.
pub open spec fn affine_add(a: int, m: int, p: PointVal, q: PointVal) -> PointVal {
    match (p, q) {
        (PointVal::Infinity, PointVal::Infinity) => PointVal::Infinity,
        (PointVal::Infinity, _) => q,
        (_, PointVal::Infinity) => p,
        (PointVal::Finite { x: x1, y: y1 }, PointVal::Finite { x: x2, y: y2 }) => {
            if x1 == x2 {
                if y1 != y2 {
                    PointVal::Infinity
                } else if y1 == 0 {
                    PointVal::Infinity
                } else {
                    let l = f_div(
                        f_add(f_mul(f_mul(x1, x1, m), 3, m), a, m),
                        f_mul(y1, 2, m),
                        m,
                    );
                    let x3 = f_sub(f_mul(l, l, m), f_mul(x1, 2, m), m);
                    let y3 = f_sub(f_mul(l, f_sub(x1, x3, m), m), y1, m);
                    PointVal::Finite { x: x3, y: y3 }
                }
            } else {
                let l = f_div(f_sub(y2, y1, m), f_sub(x2, x1, m), m);
                let x3 = f_sub(f_sub(f_mul(l, l, m), x1, m), x2, m);
                let y3 = f_sub(f_mul(l, f_sub(x1, x3, m), m), y1, m);
                PointVal::Finite { x: x3, y: y3 }
            }
        },
    }
}

/// The slope divisor of `affine_add` is invertible (or no division is
/// needed), so the sum is pinned down.
pub open spec fn affine_add_defined(a: int, m: int, p: PointVal, q: PointVal) -> bool {
    match (p, q) {
        (PointVal::Finite { x: x1, y: y1 }, PointVal::Finite { x: x2, y: y2 }) => {
            if x1 == x2 {
                if y1 != y2 || y1 == 0 {
                    true
                } else {
                    invertible(f_mul(y1, 2, m), m)
                }
            } else {
                invertible(f_sub(x2, x1, m), m)
            }
        },
        _ => true,
    }
}

/// Double-and-add over the low `n` bits of `k`, least significant first:
/// the accumulator collects the doublings of `base` at the set bits.
pub open spec fn affine_smul(a: int, m: int, acc: PointVal, base: PointVal, k: int, n: nat) -> PointVal
    decreases n,
{
    if n == 0 {
        acc
    } else {
        affine_smul(
            a,
            m,
            if k % 2 == 1 {
                affine_add(a, m, acc, base)
            } else {
                acc
            },
            affine_add(a, m, base, base),
            k / 2,
            (n - 1) as nat,
        )
    }
}

/// Every addition that can influence the double-and-add accumulator is
/// defined: the accumulator additions at set bits, and the base doublings
/// while set bits remain. Once the remaining exponent is zero the base's
/// further values cannot reach the result, so nothing more is required.
pub open spec fn affine_smul_defined(
    a: int,
    m: int,
    acc: PointVal,
    base: PointVal,
    k: int,
    n: nat,
) -> bool
    decreases n,
{
    if n == 0 || k == 0 {
        true
    } else {
        &&& (k % 2 == 1 ==> affine_add_defined(a, m, acc, base))
        &&& (k / 2 != 0 ==> affine_add_defined(a, m, base, base))
        &&& affine_smul_defined(
            a,
            m,
            if k % 2 == 1 {
                affine_add(a, m, acc, base)
            } else {
                acc
            },
            affine_add(a, m, base, base),
            k / 2,
            (n - 1) as nat,
        )
    }
}

/// Affine point on the curve `C`. The group identity is an explicit
/// variant rather than a sentinel coordinate pair, so it can never collide
/// with a finite point of a curve whose `b` coefficient is zero.
#[derive(Clone, Copy)]
pub enum Point<C: Curve> {
    /// The point at infinity.
    Infinity,
    /// A finite point with coordinates on the curve's field.
    Finite {
        /// Horizontal coordinate.
        x: C::Value,
        /// Vertical coordinate.
        y: C::Value,
    },
}

impl<C: Curve> Point<C> {
    /// The spec-level value of this point.
    pub open spec fn pt(self) -> PointVal {
        match self {
            Point::Infinity => PointVal::Infinity,
            Point::Finite { x, y } => PointVal::Finite { x: x.lv(), y: y.lv() },
        }
    }

    /// Both coordinates are well-formed elements.
    pub open spec fn wf(self) -> bool {
        match self {
            Point::Infinity => true,
            Point::Finite { x, y } => x.valid() && y.valid(),
        }
    }

    /// The coordinates of a well-formed point are reduced residues.
    pub proof fn lemma_wf_pt_valid(self)
        requires
            <C::Value as FieldValue>::fok(),
            self.wf(),
        ensures
            pt_valid(self.pt(), <C::Value as FieldValue>::fm()),
    {
        match self {
            Point::Infinity => {},
            Point::Finite { x, y } => {
                x.lemma_valid_range();
                y.lemma_valid_range();
            },
        }
    }

    /// Point at infinity.
    pub fn infinity() -> (r: Self)
        ensures
            r.wf(),
            r.pt() == PointVal::Infinity,
    {
        Point::Infinity
    }

    /// Test if point is at infinity.
    pub fn is_infinity(&self) -> (b: bool)
        ensures
            b == (self.pt() == PointVal::Infinity),
    {
        match self {
            Point::Infinity => true,
            Point::Finite { .. } => false,
        }
    }

    /// New finite point from two field elements.
    pub fn new(x: C::Value, y: C::Value) -> (r: Self)
        ensures
            r.pt() == (PointVal::Finite { x: x.lv(), y: y.lv() }),
            x.valid() && y.valid() ==> r.wf(),
    {
        Point::Finite { x, y }
    }

    /// Field element of the X coordinate (the sentinel zero at infinity).
    pub fn x(&self) -> (r: C::Value)
        requires
            <C::Value as FieldValue>::fok(),
        ensures
            r.lv() == px(self.pt()),
            self.wf() ==> r.valid(),
    {
        match self {
            Point::Infinity => <C::Value as FieldValue>::zero(),
            Point::Finite { x, .. } => *x,
        }
    }

    /// Field element of the Y coordinate (the sentinel zero at infinity).
    pub fn y(&self) -> (r: C::Value)
        requires
            <C::Value as FieldValue>::fok(),
        ensures
            r.lv() == py(self.pt()),
            self.wf() ==> r.valid(),
    {
        match self {
            Point::Infinity => <C::Value as FieldValue>::zero(),
            Point::Finite { y, .. } => *y,
        }
    }

    /// Deconstruct the point into field elements `(X, Y)`.
    pub fn into_parts(self) -> (r: (C::Value, C::Value))
        requires
            <C::Value as FieldValue>::fok(),
        ensures
            r.0.lv() == px(self.pt()),
            r.1.lv() == py(self.pt()),
            self.wf() ==> r.0.valid() && r.1.valid(),
    {
        match self {
            Point::Infinity => (
                <C::Value as FieldValue>::zero(),
                <C::Value as FieldValue>::zero(),
            ),
            Point::Finite { x, y } => (x, y),
        }
    }

    /// Equality of points as group elements.
    pub fn equals(&self, other: &Self) -> (b: bool)
        requires
            <C::Value as FieldValue>::fok(),
        ensures
            (self.wf() && other.wf()) ==> b == (self.pt() == other.pt()),
    {
        match (self, other) {
            (Point::Infinity, Point::Infinity) => true,
            (Point::Finite { x: x1, y: y1 }, Point::Finite { x: x2, y: y2 }) => {
                x1.equals(*x2) && y1.equals(*y2)
            },
            _ => false,
        }
    }

    /// The group law: identity cases, inverse and 2-torsion cases, and the
    /// chord-or-tangent construction.
    pub fn add(self, other: Self) -> (r: Self)
        requires
            <C::Value as FieldValue>::fok(),
            self.wf(),
            other.wf(),
        ensures
            r.wf(),
            affine_add_defined(
                C::a_spec(),
                <C::Value as FieldValue>::fm(),
                self.pt(),
                other.pt(),
            ) ==> r.pt() == affine_add(
                C::a_spec(),
                <C::Value as FieldValue>::fm(),
                self.pt(),
                other.pt(),
            ),
    {
        match (self, other) {
            (Point::Infinity, Point::Infinity) => Point::Infinity,
            (Point::Infinity, q) => q,
            (p, Point::Infinity) => p,
            (Point::Finite { x: x1, y: y1 }, Point::Finite { x: x2, y: y2 }) => {
                let z = <C::Value as FieldValue>::zero();
                if x1.equals(x2) {
                    if !y1.equals(y2) {
                        Point::Infinity
                    } else if y1.equals(z) {
                        Point::Infinity
                    } else {
                        let l = x1.squared().mul_scalar(3).add(C::a()).div(y1.mul_scalar(2));
                        let x3 = l.squared().sub(x1.mul_scalar(2));
                        let y3 = l.mul(x1.sub(x3)).sub(y1);
                        Point::Finite { x: x3, y: y3 }
                    }
                } else {
                    let l = y2.sub(y1).div(x2.sub(x1));
                    let x3 = l.squared().sub(x1).sub(x2);
                    let y3 = l.mul(x1.sub(x3)).sub(y1);
                    Point::Finite { x: x3, y: y3 }
                }
            },
        }
    }

    /// Scalar multiplication by binary double-and-add over the scalar's
    /// bits, least significant first.
    pub fn mul<I: Scalar>(self, other: I) -> (r: Self)
        requires
            <C::Value as FieldValue>::fok(),
            self.wf(),
        ensures
            r.wf(),
            affine_smul_defined(
                C::a_spec(),
                <C::Value as FieldValue>::fm(),
                PointVal::Infinity,
                self.pt(),
                other.sc(),
                I::max_bits_spec(),
            ) ==> r.pt() == affine_smul(
                C::a_spec(),
                <C::Value as FieldValue>::fm(),
                PointVal::Infinity,
                self.pt(),
                other.sc(),
                I::max_bits_spec(),
            ),
            odd_prime(<C::Value as FieldValue>::fm()) ==> r.pt() == affine_smul(
                C::a_spec(),
                <C::Value as FieldValue>::fm(),
                PointVal::Infinity,
                self.pt(),
                other.sc(),
                I::max_bits_spec(),
            ),
    {
        let ghost a = C::a_spec();
        let ghost m = <C::Value as FieldValue>::fm();
        let ghost k = other.sc();
        let ghost p0 = self.pt();
        proof {
            other.sc_in_range();
            lemma2_to64();
            lemma_div_basics(k);
        }
        let mut r0 = Self::infinity();
        let mut r1 = self;
        let nb: usize = I::max_bits();
        let mut i: usize = 0;
        while i < nb
            invariant
                <C::Value as FieldValue>::fok(),
                r0.wf(),
                r1.wf(),
                0 <= i <= nb,
                nb == I::max_bits_spec(),
                a == C::a_spec(),
                m == <C::Value as FieldValue>::fm(),
                k == other.sc(),
                k >= 0,
                p0 == self.pt(),
                affine_smul_defined(a, m, PointVal::Infinity, p0, k, nb as nat) ==> (
                affine_smul(a, m, PointVal::Infinity, p0, k, nb as nat) == affine_smul(
                    a,
                    m,
                    r0.pt(),
                    r1.pt(),
                    k / pow2(i as nat) as int,
                    (nb - i) as nat,
                ) && affine_smul_defined(
                    a,
                    m,
                    r0.pt(),
                    r1.pt(),
                    k / pow2(i as nat) as int,
                    (nb - i) as nat,
                )),
            decreases nb - i,
        {
            let ghost old_r0 = r0;
            let ghost old_r1 = r1;
            let b = other.bit(i);
            if b {
                r0 = r0.add(r1);
            }
            r1 = r1.add(r1);
            proof {
                if affine_smul_defined(a, m, PointVal::Infinity, p0, k, nb as nat) {
                    let kk = k / pow2(i as nat) as int;
                    let n = (nb - i) as nat;
                    lemma_pow2_adds(i as nat, 1);
                    lemma2_to64();
                    lemma_pow2_pos(i as nat);
                    lemma_div_denominator(k, pow2(i as nat) as int, 2);
                    if kk == 0 {
                        // No set bits remain: both sides stay at the
                        // accumulator, whatever happens to the base.
                        lemma_affine_smul_zero(a, m, old_r0.pt(), old_r1.pt(), n);
                        lemma_affine_smul_zero(a, m, r0.pt(), r1.pt(), (n - 1) as nat);
                    } else {
                        // One unfolding of the definedness chain pins the
                        // additions the accumulator can see.
                        let sacc = if kk % 2 == 1 {
                            affine_add(a, m, old_r0.pt(), old_r1.pt())
                        } else {
                            old_r0.pt()
                        };
                        let sbase = affine_add(a, m, old_r1.pt(), old_r1.pt());
                        assert(r0.pt() == sacc);
                        if kk / 2 == 0 {
                            // The base's further values cannot reach the
                            // result any more.
                            lemma_affine_smul_zero(a, m, sacc, sbase, (n - 1) as nat);
                            lemma_affine_smul_zero(a, m, r0.pt(), r1.pt(), (n - 1) as nat);
                        } else {
                            assert(r1.pt() == sbase);
                        }
                    }
                }
            }
            i = i + 1;
        }
        proof {
            if odd_prime(m) {
                self.lemma_wf_pt_valid();
                lemma_odd_prime_smul_defined(a, m, PointVal::Infinity, p0, k, nb as nat);
            }
        }
        r0
    }
}

/// Over an odd prime modulus the whole double-and-add chain is defined,
/// whatever the exponent.
pub proof fn lemma_odd_prime_smul_defined(
    a: int,
    m: int,
    acc: PointVal,
    base: PointVal,
    k: int,
    n: nat,
)
    requires
        odd_prime(m),
        pt_valid(acc, m),
        pt_valid(base, m),
    ensures
        affine_smul_defined(a, m, acc, base, k, n),
    decreases n,
{
    if n != 0 && k != 0 {
        lemma_odd_prime_add_defined(a, m, acc, base);
        lemma_odd_prime_add_defined(a, m, base, base);
        lemma_affine_add_valid(a, m, acc, base);
        lemma_affine_add_valid(a, m, base, base);
        lemma_odd_prime_smul_defined(
            a,
            m,
            if k % 2 == 1 {
                affine_add(a, m, acc, base)
            } else {
                acc
            },
            affine_add(a, m, base, base),
            k / 2,
            (n - 1) as nat,
        );
    }
}

/// For exponent one the double-and-add chain is defined unconditionally:
/// the single accumulator addition has an identity operand, and no
/// doubling can reach the result.
pub proof fn lemma_smul_defined_one(a: int, m: int, p: PointVal, n: nat)
    ensures
        affine_smul_defined(a, m, PointVal::Infinity, p, 1, n),
{
    if n != 0 {
        assert(affine_add_defined(a, m, PointVal::Infinity, p));
        assert(affine_smul_defined(
            a,
            m,
            affine_add(a, m, PointVal::Infinity, p),
            affine_add(a, m, p, p),
            0,
            (n - 1) as nat,
        ));
    }
}

/// For exponent two the double-and-add chain is defined exactly when the
/// point's own doubling is.
pub proof fn lemma_smul_defined_two(a: int, m: int, p: PointVal, n: nat)
    requires
        affine_add_defined(a, m, p, p),
    ensures
        affine_smul_defined(a, m, PointVal::Infinity, p, 2, n),
{
    if n != 0 {
        lemma_smul_defined_one(a, m, affine_add(a, m, p, p), (n - 1) as nat);
    }
}

/// The affine point a Jacobian triple stands for: `(X/Z^2, Y/Z^3)`, or
/// the identity when `Z` is zero.
pub open spec fn jac_to_affine(j: JacVal, m: int) -> PointVal {
    if j.z == 0 {
        PointVal::Infinity
    } else {
        PointVal::Finite {
            x: f_div(j.x, f_mul(j.z, j.z, m), m),
            y: f_div(j.y, f_mul(f_mul(j.z, j.z, m), j.z, m), m),
        }
    }
}

impl<C: Curve> Point<C> {
    /// Convert a Jacobian point to affine form; this is where the single
    /// deferred field inversion happens.
    pub fn from_jacobian(p: crate::jacobian::Point<C>) -> (r: Self)
        requires
            <C::Value as FieldValue>::fok(),
            p.wf(),
        ensures
            r.wf(),
            (p.pt().z == 0 || invertible(p.pt().z, <C::Value as FieldValue>::fm()))
                ==> r.pt() == jac_to_affine(p.pt(), <C::Value as FieldValue>::fm()),
    {
        let (x, y, z) = p.into_parts();
        let zero = <C::Value as FieldValue>::zero();
        if z.equals(zero) {
            return Self::infinity();
        }
        let z2 = z.squared();
        let z3 = z2.mul(z);
        proof {
            let m = <C::Value as FieldValue>::fm();
            if invertible(z.lv(), m) {
                <C::Value as FieldValue>::lemma_fok_modulus();
                lemma_invertible_mul(z.lv(), z.lv(), m);
                lemma_invertible_mul(f_mul(z.lv(), z.lv(), m), z.lv(), m);
            }
        }
        Point::Finite { x: x.div(z2), y: y.div(z3) }
    }
}

/// Lifting an affine point to Jacobian coordinates and converting back
/// returns the point unchanged.
pub proof fn lemma_affine_jacobian_round_trip(p: PointVal, m: int)
    requires
        m >= 2,
        pt_valid(p, m),
    ensures
        jac_to_affine(affine_to_jac(p), m) == p,
{
    match p {
        PointVal::Infinity => {},
        PointVal::Finite { x, y } => {
            lemma_small_mod(1, m as nat);
            assert(f_mul(1, 1, m) == 1int % m);
            lemma_f_inv_is(1, m, 1);
            assert(f_mul(1, 1, m) == 1);
            assert(f_div(x, 1, m) == (x * 1) % m);
            assert(f_div(y, 1, m) == (y * 1) % m);
            lemma_small_mod(x as nat, m as nat);
            lemma_small_mod(y as nat, m as nat);
        },
    }
}

/// The affine sum of reduced points has reduced coordinates.
pub proof fn lemma_affine_add_valid(a: int, m: int, p: PointVal, q: PointVal)
    requires
        m >= 1,
        pt_valid(p, m),
        pt_valid(q, m),
    ensures
        pt_valid(affine_add(a, m, p, q), m),
{
    match (p, q) {
        (PointVal::Finite { x: x1, y: y1 }, PointVal::Finite { x: x2, y: y2 }) => {
            match affine_add(a, m, p, q) {
                PointVal::Infinity => {},
                PointVal::Finite { x: x3, y: y3 } => {
                    lemma_mod_bound(x3, m);
                    lemma_mod_bound(y3, m);
                    assert(pt_valid(affine_add(a, m, p, q), m)) by {
                        lemma_mod_bound(
                            f_sub(f_mul(affine_slope(a, m, p, q), f_sub(x1, affine_sum_x(a, m, p, q), m), m), y1, m),
                            m,
                        );
                    }
                },
            }
        },
        _ => {},
    }
}

/// The chord-or-tangent slope used by `affine_add` in its finite cases.
pub open spec fn affine_slope(a: int, m: int, p: PointVal, q: PointVal) -> int {
    match (p, q) {
        (PointVal::Finite { x: x1, y: y1 }, PointVal::Finite { x: x2, y: y2 }) => {
            if x1 == x2 {
                f_div(f_add(f_mul(f_mul(x1, x1, m), 3, m), a, m), f_mul(y1, 2, m), m)
            } else {
                f_div(f_sub(y2, y1, m), f_sub(x2, x1, m), m)
            }
        },
        _ => 0,
    }
}

/// The X coordinate produced by `affine_add` in its finite cases.
pub open spec fn affine_sum_x(a: int, m: int, p: PointVal, q: PointVal) -> int {
    match (p, q) {
        (PointVal::Finite { x: x1, y: y1 }, PointVal::Finite { x: x2, y: y2 }) => {
            let l = affine_slope(a, m, p, q);
            if x1 == x2 {
                f_sub(f_mul(l, l, m), f_mul(x1, 2, m), m)
            } else {
                f_sub(f_sub(f_mul(l, l, m), x1, m), x2, m)
            }
        },
        _ => 0,
    }
}

/// Point addition is commutative: the group law does not depend on the
/// order of its arguments.
pub proof fn lemma_affine_add_comm(a: int, m: int, p: PointVal, q: PointVal)
    requires
        m >= 2,
        pt_valid(p, m),
        pt_valid(q, m),
        affine_add_defined(a, m, p, q),
    ensures
        affine_add_defined(a, m, q, p),
        affine_add(a, m, p, q) == affine_add(a, m, q, p),
{
    match (p, q) {
        (PointVal::Finite { x: x1, y: y1 }, PointVal::Finite { x: x2, y: y2 }) => {
            if x1 != x2 {
                let d = f_sub(x2, x1, m);
                let s = f_sub(y2, y1, m);
                let db = f_sub(x1, x2, m);
                let sb = f_sub(y1, y2, m);
                lemma_f_sub_is_mod(x2, x1, m);
                lemma_f_sub_is_mod(y2, y1, m);
                lemma_f_sub_is_mod(x1, x2, m);
                lemma_f_sub_is_mod(y1, y2, m);
                // The reversed differences are the negated ones.
                assert(db == f_neg(d, m)) by {
                    lemma_f_neg_is_mod(d, m);
                    lemma_mod_twice(x2 - x1, m);
                    lemma_cong_neg((x2 - x1) % m, x2 - x1, m);
                }
                assert(sb == f_neg(s, m)) by {
                    lemma_f_neg_is_mod(s, m);
                    lemma_mod_twice(y2 - y1, m);
                    lemma_cong_neg((y2 - y1) % m, y2 - y1, m);
                }
                lemma_invertible_neg(d, m);
                assert(affine_add_defined(a, m, q, p));
                // The slopes agree: negating numerator and denominator cancels.
                let i = f_inv(d, m);
                lemma_f_inv_in_range(d, m);
                let l = affine_slope(a, m, p, q);
                let lb = affine_slope(a, m, q, p);
                assert(lb == f_mul(f_neg(s, m), f_neg(i, m), m));
                assert(lb == ((-s) * (-i)) % m) by {
                    lemma_f_neg_is_mod(s, m);
                    lemma_f_neg_is_mod(i, m);
                    lemma_mul_mod_noop_general(-s, -i, m);
                }
                assert((-s) * (-i) == s * i) by {
                    lemma_mul_unary_negation(s, -i);
                    lemma_mul_is_commutative(s, -i);
                    lemma_mul_unary_negation(i, s);
                    lemma_mul_is_commutative(i, s);
                }
                assert(lb == l);
                // The X coordinates agree: the slope square minus both Xs.
                let l2 = f_mul(l, l, m);
                let x3 = affine_sum_x(a, m, p, q);
                let x3b = affine_sum_x(a, m, q, p);
                assert(x3 == (l2 - x1 - x2) % m) by {
                    lemma_f_sub_is_mod(l2, x1, m);
                    lemma_f_sub_is_mod(f_sub(l2, x1, m), x2, m);
                    lemma_sub_mod_noop(l2 - x1, x2, m);
                    lemma_small_mod(x2 as nat, m as nat);
                    lemma_mod_twice(l2 - x1, m);
                }
                assert(x3b == (l2 - x2 - x1) % m) by {
                    lemma_f_sub_is_mod(l2, x2, m);
                    lemma_f_sub_is_mod(f_sub(l2, x2, m), x1, m);
                    lemma_sub_mod_noop(l2 - x2, x1, m);
                    lemma_small_mod(x1 as nat, m as nat);
                    lemma_mod_twice(l2 - x2, m);
                }
                assert(x3 == x3b);
                // The Y coordinates agree because the slope satisfies the
                // chord equation: l * (x2 - x1) is congruent to y2 - y1.
                let y3 = f_sub(f_mul(l, f_sub(x1, x3, m), m), y1, m);
                let y3b = f_sub(f_mul(l, f_sub(x2, x3, m), m), y2, m);
                assert(y3 == (l * (x1 - x3) - y1) % m) by {
                    lemma_f_sub_is_mod(x1, x3, m);
                    lemma_mul_mod_noop_right(l, x1 - x3, m);
                    lemma_f_sub_is_mod(f_mul(l, f_sub(x1, x3, m), m), y1, m);
                    lemma_sub_mod_noop(l * (x1 - x3), y1, m);
                    lemma_small_mod(y1 as nat, m as nat);
                    lemma_mod_twice(l * (x1 - x3), m);
                }
                assert(y3b == (l * (x2 - x3) - y2) % m) by {
                    lemma_f_sub_is_mod(x2, x3, m);
                    lemma_mul_mod_noop_right(l, x2 - x3, m);
                    lemma_f_sub_is_mod(f_mul(l, f_sub(x2, x3, m), m), y2, m);
                    lemma_sub_mod_noop(l * (x2 - x3), y2, m);
                    lemma_small_mod(y2 as nat, m as nat);
                    lemma_mod_twice(l * (x2 - x3), m);
                }
                // l * d is congruent to y2 - y1.
                lemma_f_div_mul(s, d, m);
                assert(f_mul(l, d, m) == s % m);
                assert((l * (x2 - x1)) % m == (y2 - y1) % m) by {
                    lemma_mul_mod_noop_right(l, x2 - x1, m);
                    lemma_mod_twice(y2 - y1, m);
                }
                assert(((l * (x2 - x1)) - (y2 - y1)) % m == 0) by {
                    lemma_mod_equivalence(l * (x2 - x1), y2 - y1, m);
                }
                let dd = (l * (x1 - x3) - y1) - (l * (x2 - x3) - y2);
                assert(dd == -((l * (x2 - x1)) - (y2 - y1))) by {
                    lemma_mul_is_distributive_sub(l, x1 - x3, x2 - x3);
                    lemma_mul_is_distributive_sub(l, x2 - x1, x1 - x2);
                    lemma_mul_is_distributive_sub(l, x1, x3);
                    lemma_mul_is_distributive_sub(l, x2, x3);
                    lemma_mul_is_distributive_sub(l, x2, x1);
                }
                assert(dd % m == 0) by {
                    lemma_small_mod(0, m as nat);
                    lemma_cong_neg((l * (x2 - x1)) - (y2 - y1), 0, m);
                }
                assert(y3 == y3b) by {
                    lemma_mod_equivalence(l * (x1 - x3) - y1, l * (x2 - x3) - y2, m);
                }
                assert(affine_add(a, m, p, q) == affine_add(a, m, q, p));
            } else {
                // Equal X: either the points are equal, or both orders give
                // the identity.
                if y1 == y2 {
                    assert(p == q);
                }
            }
        },
        _ => {},
    }
}

/// Adding a doubled point on either side gives the same sum: the special
/// associativity instance `(P+P)+P == P+(P+P)`.
pub proof fn lemma_affine_double_add_assoc(a: int, m: int, p: PointVal)
    requires
        m >= 2,
        pt_valid(p, m),
        affine_add_defined(a, m, affine_add(a, m, p, p), p),
    ensures
        affine_add(a, m, affine_add(a, m, p, p), p) == affine_add(a, m, p, affine_add(a, m, p, p)),
{
    let d = affine_add(a, m, p, p);
    lemma_affine_add_valid(a, m, p, p);
    lemma_affine_add_comm(a, m, d, p);
}

/// A zero exponent leaves the accumulator untouched.
pub proof fn lemma_affine_smul_zero(a: int, m: int, acc: PointVal, base: PointVal, n: nat)
    ensures
        affine_smul(a, m, acc, base, 0, n) == acc,
    decreases n,
{
    if n > 0 {
        lemma_affine_smul_zero(a, m, acc, affine_add(a, m, base, base), (n - 1) as nat);
    }
}

/// Scalar multiplication by one is the identity map.
pub proof fn lemma_affine_smul_one(a: int, m: int, p: PointVal, n: nat)
    requires
        n >= 1,
    ensures
        affine_smul(a, m, PointVal::Infinity, p, 1, n) == p,
{
    assert(affine_add(a, m, PointVal::Infinity, p) == p);
    lemma_affine_smul_zero(a, m, p, affine_add(a, m, p, p), (n - 1) as nat);
}

/// Scalar multiplication by two is one explicit doubling.
pub proof fn lemma_affine_smul_two(a: int, m: int, p: PointVal, n: nat)
    requires
        n >= 2,
    ensures
        affine_smul(a, m, PointVal::Infinity, p, 2, n) == affine_add(a, m, p, p),
{
    let d = affine_add(a, m, p, p);
    assert(affine_smul(a, m, PointVal::Infinity, p, 2, n) == affine_smul(
        a,
        m,
        PointVal::Infinity,
        d,
        1,
        (n - 1) as nat,
    ));
    assert(affine_add(a, m, PointVal::Infinity, d) == d);
    assert(affine_smul(a, m, PointVal::Infinity, d, 1, (n - 1) as nat) == affine_smul(
        a,
        m,
        d,
        affine_add(a, m, d, d),
        0,
        (n - 2) as nat,
    ));
    lemma_affine_smul_zero(a, m, d, affine_add(a, m, d, d), (n - 2) as nat);
}

/// Over an odd prime modulus every point addition is defined: the slope
/// divisor, where one is needed, is a nonzero residue, hence invertible.
pub proof fn lemma_odd_prime_add_defined(a: int, m: int, p: PointVal, q: PointVal)
    requires
        odd_prime(m),
        pt_valid(p, m),
        pt_valid(q, m),
    ensures
        affine_add_defined(a, m, p, q),
{
    match (p, q) {
        (PointVal::Finite { x: x1, y: y1 }, PointVal::Finite { x: x2, y: y2 }) => {
            if x1 == x2 {
                if y1 == y2 && y1 != 0 {
                    lemma_small_mod(y1 as nat, m as nat);
                    lemma_prime_invertible(y1, m);
                    lemma_small_mod(2, m as nat);
                    lemma_prime_invertible(2, m);
                    lemma_invertible_mul(y1, 2, m);
                }
            } else {
                lemma_f_sub_is_mod(x2, x1, m);
                let d = (x2 - x1) % m;
                if x2 > x1 {
                    lemma_small_mod((x2 - x1) as nat, m as nat);
                } else {
                    crate::arith::lemma_cong_add_multiple(x2 - x1, 1, m);
                    lemma_small_mod((x2 - x1 + m) as nat, m as nat);
                }
                lemma_small_mod(d as nat, m as nat);
                lemma_prime_invertible(d, m);
            }
        },
        _ => {},
    }
}

} // verus!
