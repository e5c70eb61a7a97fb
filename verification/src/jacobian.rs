//! Point on a curve in Jacobian (projective) representation.
//!
//! A triple `(X, Y, Z)` stands for the affine point `(X/Z^2, Y/Z^3)`;
//! `Z == 0` is the point at infinity. Addition and doubling need no field
//! inversion; the single inversion is deferred to the final conversion
//! back to affine coordinates.

use vstd::prelude::*;
use crate::arith::{f_add, f_mul, f_sub, Scalar};
use crate::curve::{Curve, PointVal};
use crate::field::FieldValue;
use vstd::arithmetic::div_mod::{lemma_div_basics, lemma_div_denominator};
use vstd::arithmetic::power2::{lemma_pow2_adds, lemma_pow2_pos, lemma2_to64, pow2};

verus! {

/// Spec-level value of a Jacobian point: the coordinate triple as
/// mathematical residues.
pub struct JacVal {
    /// Projective X coordinate.
    pub x: int,
    /// Projective Y coordinate.
    pub y: int,
    /// Projective Z coordinate; zero means the point at infinity.
    pub z: int,
}

/// The coordinates of a spec-level Jacobian point are reduced residues.
pub open spec fn jac_valid(p: JacVal, m: int) -> bool {
    0 <= p.x < m && 0 <= p.y < m && 0 <= p.z < m
}

/// The spec-level Jacobian point standing for an affine point.
pub open spec fn affine_to_jac(p: PointVal) -> JacVal {
    match p {
        PointVal::Infinity => JacVal { x: 0, y: 1, z: 0 },
        PointVal::Finite { x, y } => JacVal { x: x, y: y, z: 1 },
    }
}

/// The Jacobian group law on spec-level points: the identity absorbs,
/// opposite points give the identity, and the standard division-free
/// doubling and chord formulas build the sum.
pub open spec fn jac_add(a: int, m: int, p: JacVal, q: JacVal) -> JacVal {
    if p.z == 0 && q.z == 0 {
        JacVal { x: 0, y: 1, z: 0 }
    } else if p.z == 0 {
        q
    } else if q.z == 0 {
        p
    } else {
        let u1 = f_mul(p.x, f_mul(q.z, q.z, m), m);
        let u2 = f_mul(q.x, f_mul(p.z, p.z, m), m);
        let s1 = f_mul(p.y, f_mul(f_mul(q.z, q.z, m), q.z, m), m);
        let s2 = f_mul(q.y, f_mul(f_mul(p.z, p.z, m), p.z, m), m);
        if u1 == u2 {
            if s1 != s2 {
                JacVal { x: 0, y: 1, z: 0 }
            } else {
                let s = f_mul(f_mul(p.x, 4, m), f_mul(p.y, p.y, m), m);
                let w = f_add(
                    f_mul(f_mul(p.x, p.x, m), 3, m),
                    f_mul(a, f_mul(f_mul(p.z, p.z, m), f_mul(p.z, p.z, m), m), m),
                    m,
                );
                let x3 = f_sub(f_mul(w, w, m), f_mul(s, 2, m), m);
                let y3 = f_sub(
                    f_mul(w, f_sub(s, x3, m), m),
                    f_mul(f_mul(f_mul(p.y, p.y, m), f_mul(p.y, p.y, m), m), 8, m),
                    m,
                );
                let z3 = f_mul(f_mul(p.y, p.z, m), 2, m);
                JacVal { x: x3, y: y3, z: z3 }
            }
        } else {
            let h = f_sub(u2, u1, m);
            let r = f_sub(s2, s1, m);
            let h2 = f_mul(h, h, m);
            let h3 = f_mul(h2, h, m);
            let x3 = f_sub(f_sub(f_mul(r, r, m), h3, m), f_mul(u1, f_mul(h2, 2, m), m), m);
            let y3 = f_sub(
                f_mul(r, f_sub(f_mul(u1, h2, m), x3, m), m),
                f_mul(s1, h3, m),
                m,
            );
            let z3 = f_mul(f_mul(h, p.z, m), q.z, m);
            JacVal { x: x3, y: y3, z: z3 }
        }
    }
}

/// Double-and-add over the low `n` bits of `k`, least significant first,
/// entirely in Jacobian coordinates.
pub open spec fn jac_smul(a: int, m: int, acc: JacVal, base: JacVal, k: int, n: nat) -> JacVal
    decreases n,
{
    if n == 0 {
        acc
    } else {
        jac_smul(
            a,
            m,
            if k % 2 == 1 {
                jac_add(a, m, acc, base)
            } else {
                acc
            },
            jac_add(a, m, base, base),
            k / 2,
            (n - 1) as nat,
        )
    }
}

/// A zero exponent leaves the accumulator untouched.
pub proof fn lemma_jac_smul_zero(a: int, m: int, acc: JacVal, base: JacVal, n: nat)
    ensures
        jac_smul(a, m, acc, base, 0, n) == acc,
    decreases n,
{
    if n > 0 {
        lemma_jac_smul_zero(a, m, acc, jac_add(a, m, base, base), (n - 1) as nat);
    }
}

/// Scalar multiplication by one is the identity map, for points that are
/// finite or the canonical identity triple (a zero-`Z` triple with other
/// coordinates is normalized by the addition's identity case).
pub proof fn lemma_jac_smul_one(a: int, m: int, p: JacVal, n: nat)
    requires
        n >= 1,
        p.z != 0 || p == (JacVal { x: 0, y: 1, z: 0 }),
    ensures
        jac_smul(a, m, JacVal { x: 0, y: 1, z: 0 }, p, 1, n) == p,
{
    let inf = JacVal { x: 0, y: 1, z: 0 };
    assert(jac_add(a, m, inf, p) == p);
    lemma_jac_smul_zero(a, m, p, jac_add(a, m, p, p), (n - 1) as nat);
}

/// Scalar multiplication by two is one explicit doubling, whenever that
/// doubling is finite or the canonical identity triple.
pub proof fn lemma_jac_smul_two(a: int, m: int, p: JacVal, n: nat)
    requires
        n >= 2,
        jac_add(a, m, p, p).z != 0 || jac_add(a, m, p, p) == (JacVal { x: 0, y: 1, z: 0 }),
    ensures
        jac_smul(a, m, JacVal { x: 0, y: 1, z: 0 }, p, 2, n) == jac_add(a, m, p, p),
{
    let inf = JacVal { x: 0, y: 1, z: 0 };
    let d = jac_add(a, m, p, p);
    assert(jac_smul(a, m, inf, p, 2, n) == jac_smul(a, m, inf, d, 1, (n - 1) as nat));
    assert(jac_add(a, m, inf, d) == d);
    assert(jac_smul(a, m, inf, d, 1, (n - 1) as nat) == jac_smul(
        a,
        m,
        d,
        jac_add(a, m, d, d),
        0,
        (n - 2) as nat,
    ));
    lemma_jac_smul_zero(a, m, d, jac_add(a, m, d, d), (n - 2) as nat);
}

/// Point on the curve `C` in Jacobian representation.
#[derive(Clone, Copy)]
pub struct Point<C: Curve> {
    x: C::Value,
    y: C::Value,
    z: C::Value,
}

impl<C: Curve> Point<C> {
    /// The spec-level value of this point.
    pub closed spec fn pt(self) -> JacVal {
        JacVal { x: self.x.lv(), y: self.y.lv(), z: self.z.lv() }
    }

    /// All three coordinates are well-formed elements.
    pub closed spec fn wf(self) -> bool {
        self.x.valid() && self.y.valid() && self.z.valid()
    }

    /// The coordinates of a well-formed point are reduced residues.
    pub proof fn lemma_wf_jac_valid(self)
        requires
            <C::Value as FieldValue>::fok(),
            self.wf(),
        ensures
            jac_valid(self.pt(), <C::Value as FieldValue>::fm()),
    {
        self.x.lemma_valid_range();
        self.y.lemma_valid_range();
        self.z.lemma_valid_range();
    }

    /// New point at infinity.
    pub fn infinity() -> (r: Self)
        requires
            <C::Value as FieldValue>::fok(),
        ensures
            r.wf(),
            r.pt() == (JacVal { x: 0, y: 1, z: 0 }),
    {
        Point {
            x: <C::Value as FieldValue>::zero(),
            y: <C::Value as FieldValue>::one(),
            z: <C::Value as FieldValue>::zero(),
        }
    }

    /// Test if point is at infinity.
    pub fn is_infinity(&self) -> (b: bool)
        requires
            <C::Value as FieldValue>::fok(),
        ensures
            self.wf() ==> b == (self.pt().z == 0),
    {
        let z = <C::Value as FieldValue>::zero();
        self.z.equals(z)
    }

    /// Lift an affine point into Jacobian coordinates.
    pub fn from_affine(p: crate::affine::Point<C>) -> (r: Self)
        requires
            <C::Value as FieldValue>::fok(),
            p.wf(),
        ensures
            r.wf(),
            r.pt() == affine_to_jac(p.pt()),
    {
        match p {
            crate::affine::Point::Infinity => Self::infinity(),
            crate::affine::Point::Finite { x, y } => Point {
                x,
                y,
                z: <C::Value as FieldValue>::one(),
            },
        }
    }

    /// Deconstruct the point into field elements `(X, Y, Z)`.
    pub fn into_parts(self) -> (r: (C::Value, C::Value, C::Value))
        ensures
            r.0.lv() == self.pt().x,
            r.1.lv() == self.pt().y,
            r.2.lv() == self.pt().z,
            self.wf() ==> r.0.valid() && r.1.valid() && r.2.valid(),
    {
        (self.x, self.y, self.z)
    }

    /// The group law in Jacobian coordinates: no field inversion occurs.
    pub fn add(self, other: Self) -> (r: Self)
        requires
            <C::Value as FieldValue>::fok(),
            self.wf(),
            other.wf(),
        ensures
            r.wf(),
            r.pt() == jac_add(
                C::a_spec(),
                <C::Value as FieldValue>::fm(),
                self.pt(),
                other.pt(),
            ),
    {
        let z = <C::Value as FieldValue>::zero();
        if self.z.equals(z) && other.z.equals(z) {
            return Self::infinity();
        }
        if self.z.equals(z) {
            return other;
        }
        if other.z.equals(z) {
            return self;
        }
        let (x1, y1, z1) = (self.x, self.y, self.z);
        let (x2, y2, z2) = (other.x, other.y, other.z);

        let u1 = x1.mul(z2.squared());
        let u2 = x2.mul(z1.squared());
        let s1 = y1.mul(z2.squared().mul(z2));
        let s2 = y2.mul(z1.squared().mul(z1));

        if u1.equals(u2) {
            if !s1.equals(s2) {
                return Self::infinity();
            }
            let s = x1.mul_scalar(4).mul(y1.squared());
            let w = x1.squared().mul_scalar(3).add(C::a().mul(z1.squared().squared()));
            let x3 = w.squared().sub(s.mul_scalar(2));
            let y3 = w.mul(s.sub(x3)).sub(y1.squared().squared().mul_scalar(8));
            let z3 = y1.mul(z1).mul_scalar(2);
            Point { x: x3, y: y3, z: z3 }
        } else {
            let h = u2.sub(u1);
            let r = s2.sub(s1);
            let h2 = h.squared();
            let h3 = h2.mul(h);
            let x3 = r.squared().sub(h3).sub(u1.mul(h2.mul_scalar(2)));
            let y3 = r.mul(u1.mul(h2).sub(x3)).sub(s1.mul(h3));
            let z3 = h.mul(z1).mul(z2);
            Point { x: x3, y: y3, z: z3 }
        }
    }

    /// Scalar multiplication by binary double-and-add, staying in Jacobian
    /// form throughout.
    pub fn mul<I: Scalar>(self, other: I) -> (r: Self)
        requires
            <C::Value as FieldValue>::fok(),
            self.wf(),
        ensures
            r.wf(),
            r.pt() == jac_smul(
                C::a_spec(),
                <C::Value as FieldValue>::fm(),
                JacVal { x: 0, y: 1, z: 0 },
                self.pt(),
                other.sc(),
                I::max_bits_spec(),
            ),
    {
        let ghost a = C::a_spec();
        let ghost m = <C::Value as FieldValue>::fm();
        let ghost k = other.sc();
        proof {
            other.sc_in_range();
            lemma2_to64();
            lemma_div_basics(k);
        }
        let mut r0 = Self::infinity();
        let mut r1 = self;
        let nb: usize = I::max_bits();
        let mut i: usize = 0;
        while i < nb
            invariant
                <C::Value as FieldValue>::fok(),
                r0.wf(),
                r1.wf(),
                0 <= i <= nb,
                nb == I::max_bits_spec(),
                a == C::a_spec(),
                m == <C::Value as FieldValue>::fm(),
                k == other.sc(),
                k >= 0,
                jac_smul(a, m, JacVal { x: 0, y: 1, z: 0 }, self.pt(), k, nb as nat) == jac_smul(
                    a,
                    m,
                    r0.pt(),
                    r1.pt(),
                    k / pow2(i as nat) as int,
                    (nb - i) as nat,
                ),
            decreases nb - i,
        {
            let ghost old_r0 = r0;
            let ghost old_r1 = r1;
            let b = other.bit(i);
            if b {
                r0 = r0.add(r1);
            }
            r1 = r1.add(r1);
            proof {
                let kk = k / pow2(i as nat) as int;
                lemma_pow2_adds(i as nat, 1);
                lemma2_to64();
                lemma_pow2_pos(i as nat);
                lemma_div_denominator(k, pow2(i as nat) as int, 2);
                assert(jac_smul(a, m, old_r0.pt(), old_r1.pt(), kk, (nb - i) as nat) == jac_smul(
                    a,
                    m,
                    r0.pt(),
                    r1.pt(),
                    kk / 2,
                    (nb - i - 1) as nat,
                ));
            }
            i = i + 1;
        }
        r0
    }
}

} // verus!
