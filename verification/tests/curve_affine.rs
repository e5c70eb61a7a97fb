use pcurve::affine::Point;
use pcurve::curve::Curve;
use pcurve::element::FieldElement;
use pcurve::field::FieldValue;
use pcurve::mont::MontgomeryElement;
use pcurve::params::{U64Curve, U64KoblitzCurve, U64MontgomeryCurve};

fn pt(x: u64, y: u64) -> Point<U64Curve> {
    Point::new(FieldElement::from_value(x), FieldElement::from_value(y))
}

fn ptk(x: u64, y: u64) -> Point<U64KoblitzCurve> {
    Point::new(FieldElement::from_value(x), FieldElement::from_value(y))
}

fn ptm(x: u64, y: u64) -> Point<U64MontgomeryCurve> {
    Point::new(
        MontgomeryElement::from_value(x),
        MontgomeryElement::from_value(y),
    )
}

#[test]
fn affine_double() {
    let p = U64Curve::generator();
    let dp = p.add(p);

    assert!(dp.equals(&pt(570768668753918, 222182780873386)));
}

#[test]
fn affine_add() {
    let p = U64Curve::generator().add(U64Curve::generator());
    let np = p.add(U64Curve::generator());

    assert!(np.equals(&pt(537613624567015, 945163207984607)));
}

#[test]
fn double_mont() {
    let p = U64MontgomeryCurve::generator().add(U64MontgomeryCurve::generator());

    assert!(p.equals(&ptm(570768668753918, 222182780873386)));
}

#[test]
fn affine_mul() {
    let p = U64Curve::generator();
    let dp = p.mul(2u64);
    assert!(dp.equals(&pt(570768668753918, 222182780873386)));
    let bp = p.mul(570768668753918u64);
    assert!(bp.equals(&pt(210159848059198, 473433224346301)));
}

#[test]
fn mul_montgomery() {
    let p = U64MontgomeryCurve::generator();

    let dp = p.mul(2u64);
    assert!(dp.equals(&ptm(570768668753918, 222182780873386)));

    let bp = p.mul(570768668753918u64);
    assert!(bp.equals(&ptm(210159848059198, 473433224346301)));
}

#[test]
fn koblitz() {
    let p = U64KoblitzCurve::generator();

    let dp = p.mul(2u64);
    assert!(dp.equals(&ptk(344663216245025, 347945723066407)));

    let tp = p.mul(3u64);
    assert!(tp.equals(&ptk(229631876453125, 156063304284707)));

    let bp = p.mul(344663216245025u64);
    assert!(bp.equals(&ptk(571162074095689, 745841699023671)));
}

#[test]
fn special_associativity() {
    // (P+P)+P equals P+(P+P), on both fixture curves.
    let p = U64Curve::generator();
    let d = p.add(p);
    assert!(d.add(p).equals(&p.add(d)));

    let k = U64KoblitzCurve::generator();
    let dk = k.add(k);
    assert!(dk.add(k).equals(&k.add(dk)));
}

#[test]
fn scalar_mul_matches_doubling_and_identity() {
    let p = U64Curve::generator();
    assert!(p.mul(2u64).equals(&p.add(p)));
    assert!(p.mul(1u64).equals(&p));

    let k = U64KoblitzCurve::generator();
    assert!(k.mul(2u64).equals(&k.add(k)));
    assert!(k.mul(1u64).equals(&k));
}

#[test]
fn identity_cases() {
    let p = U64Curve::generator();
    let inf = Point::<U64Curve>::infinity();

    assert!(inf.is_infinity());
    assert!(!p.is_infinity());
    assert!(inf.add(p).equals(&p));
    assert!(p.add(inf).equals(&p));
    assert!(inf.add(inf).is_infinity());
    assert!(p.mul(0u64).is_infinity());

    // Adding a point to its reflection gives the identity.
    let minus_p = Point::new(p.x(), p.y().neg());
    assert!(p.add(minus_p).is_infinity());
}

#[test]
fn generator_fixtures() {
    let g = U64Curve::generator();
    assert_eq!(g.x().into_value(), 2);
    assert_eq!(g.y().into_value(), 6);
    let k = U64KoblitzCurve::generator();
    assert_eq!(k.x().into_value(), 2);
    assert_eq!(k.y().into_value(), 7);
    let m = U64MontgomeryCurve::generator();
    assert_eq!(m.x().into_element().into_value(), 2);
    assert_eq!(m.y().into_element().into_value(), 6);
}

#[test]
fn accessors() {
    let p = pt(2, 6);
    assert_eq!(p.x().into_value(), 2);
    assert_eq!(p.y().into_value(), 6);
    let (x, y) = p.into_parts();
    assert_eq!(x.into_value(), 2);
    assert_eq!(y.into_value(), 6);
    // An explicitly tagged identity never collides with a finite origin
    // point, even one with both coordinates zero.
    let z = pt(0, 0);
    assert!(!z.is_infinity());
    assert!(!z.equals(&Point::infinity()));
}
