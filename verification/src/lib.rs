//! Finite-field arithmetic and elliptic-curve group operations.
//!
//! The crate is organised leaf-first: modular arithmetic on raw scalars
//! (`arith`), field descriptors and elements in standard and Montgomery
//! form (`field`, `element`, `mont`), the curve group law in affine and
//! Jacobian coordinates (`curve`, `affine`, `jacobian`), polynomials with
//! Lagrange interpolation over a field (`polynomial`), and concrete
//! parameter sets (`params`).

pub mod arith;
pub mod field;
pub mod element;
pub mod mont;
pub mod curve;
pub mod affine;
pub mod jacobian;
pub mod polynomial;
pub mod params;
