//! Generalization of a short Weierstrass curve `y^2 = x^3 + a*x + b`.

use vstd::prelude::*;
use crate::field::FieldValue;

verus! {

/// Spec-level value of an affine curve point: the group identity or a
/// finite point, with coordinates as mathematical residues.
pub enum PointVal {
    /// The point at infinity, the identity of the curve group.
    Infinity,
    /// A finite point with affine coordinates.
    Finite { x: int, y: int },
}

/// The coordinates of a spec-level point are reduced residues.
pub open spec fn pt_valid(p: PointVal, m: int) -> bool {
    match p {
        PointVal::Infinity => true,
        PointVal::Finite { x, y } => 0 <= x < m && 0 <= y < m,
    }
}

/// A curve descriptor: static configuration tying a field-element type to
/// a generator point and the curve coefficient `a`.
///
/// The generator is caller-supplied configuration: that it satisfies the
/// curve equation for the implicit coefficient `b` is the supplier's
/// responsibility and is not checked at runtime.
pub trait Curve: Sized + Clone + Copy {
    /// Field element type of the curve.
    type Value: FieldValue;

    /// The curve coefficient `a`, as a mathematical residue.
    spec fn a_spec() -> int;

    /// The generator point, as a spec-level value.
    spec fn generator_spec() -> PointVal;

    /// Generator point of the curve: a well-formed point whose value is
    /// `generator_spec()`. (The clause is spelled variant by variant: a
    /// clause calling the point type's own spec functions would tie this
    /// trait's definition to the type that is parameterized by it.)
    fn generator() -> (r: crate::affine::Point<Self>)
        requires
            <Self::Value as FieldValue>::fok(),
        ensures
            (match r {
                crate::affine::Point::Infinity => Self::generator_spec() == PointVal::Infinity,
                crate::affine::Point::Finite { x, y } => x.valid() && y.valid()
                    && Self::generator_spec() == (PointVal::Finite { x: x.lv(), y: y.lv() }),
            }),
    ;

    /// The `a` parameter of the curve.
    fn a() -> (r: Self::Value)
        requires
            <Self::Value as FieldValue>::fok(),
        ensures
            r.valid(),
            r.lv() == Self::a_spec(),
    ;
}

} // verus!
