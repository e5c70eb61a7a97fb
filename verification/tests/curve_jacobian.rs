use pcurve::affine::Point as AffinePoint;
use pcurve::curve::Curve;
use pcurve::element::FieldElement;
use pcurve::jacobian::Point as JacobianPoint;
use pcurve::mont::MontgomeryElement;
use pcurve::params::{U64Curve, U64MontgomeryCurve};

fn pt(x: u64, y: u64) -> AffinePoint<U64Curve> {
    AffinePoint::new(FieldElement::from_value(x), FieldElement::from_value(y))
}

fn ptm(x: u64, y: u64) -> AffinePoint<U64MontgomeryCurve> {
    AffinePoint::new(
        MontgomeryElement::from_value(x),
        MontgomeryElement::from_value(y),
    )
}

#[test]
fn jacobian_double() {
    let jp = JacobianPoint::from_affine(U64Curve::generator());
    let dp = AffinePoint::from_jacobian(jp.add(jp));

    assert!(dp.equals(&pt(570768668753918, 222182780873386)));
}

#[test]
fn jacobian_add() {
    let jp = JacobianPoint::from_affine(U64Curve::generator());
    let djp = jp.add(jp);
    let np = AffinePoint::from_jacobian(djp.add(jp));

    assert!(np.equals(&pt(537613624567015, 945163207984607)));
}

#[test]
fn jacobian_mul() {
    let jp = JacobianPoint::from_affine(U64Curve::generator());
    let dp = AffinePoint::from_jacobian(jp.mul(2u64));
    assert!(dp.equals(&pt(570768668753918, 222182780873386)));
    let bp = AffinePoint::from_jacobian(jp.mul(570768668753918u64));
    assert!(bp.equals(&pt(210159848059198, 473433224346301)));
}

#[test]
fn mul_mont() {
    let jp = JacobianPoint::from_affine(U64MontgomeryCurve::generator());
    let dp = AffinePoint::from_jacobian(jp.mul(2u64));
    assert!(dp.equals(&ptm(570768668753918, 222182780873386)));
    let bp = AffinePoint::from_jacobian(jp.mul(570768668753918u64));
    assert!(bp.equals(&ptm(210159848059198, 473433224346301)));
}

#[test]
fn jacobian_affine_round_trip() {
    // Lifting to Jacobian coordinates and converting back is the identity,
    // for finite points and for the identity itself.
    let g = U64Curve::generator();
    assert!(AffinePoint::from_jacobian(JacobianPoint::from_affine(g)).equals(&g));

    let q = pt(570768668753918, 222182780873386);
    assert!(AffinePoint::from_jacobian(JacobianPoint::from_affine(q)).equals(&q));

    let inf = AffinePoint::<U64Curve>::infinity();
    assert!(AffinePoint::from_jacobian(JacobianPoint::from_affine(inf)).is_infinity());
}

#[test]
fn jacobian_identity_cases() {
    let jp = JacobianPoint::from_affine(U64Curve::generator());
    let inf = JacobianPoint::<U64Curve>::infinity();

    assert!(inf.is_infinity());
    assert!(!jp.is_infinity());
    assert!(AffinePoint::from_jacobian(inf.add(jp)).equals(&U64Curve::generator()));
    assert!(AffinePoint::from_jacobian(jp.add(inf)).equals(&U64Curve::generator()));
    assert!(inf.add(inf).is_infinity());
    assert!(jp.mul(0u64).is_infinity());

    let (_, y, z) = inf.into_parts();
    assert_eq!(y.into_value(), 1);
    assert_eq!(z.into_value(), 0);
}

#[test]
fn jacobian_matches_affine_arithmetic() {
    // The two coordinate systems agree after conversion.
    let g = U64Curve::generator();
    let jg = JacobianPoint::from_affine(g);
    for &k in &[3u64, 7, 1000, 344663216245025] {
        assert!(AffinePoint::from_jacobian(jg.mul(k)).equals(&g.mul(k)));
    }
}
