use pcurve::element::FieldElement;
use pcurve::field::FieldValue;
use pcurve::params::U64Field;
use pcurve::polynomial::Polynomial;

type TestPolynomial = Polynomial<FieldElement<U64Field>>;

fn fe(v: u64) -> FieldElement<U64Field> {
    FieldElement::from_value(v)
}

fn poly(coefs: &[u64]) -> TestPolynomial {
    let mut v = Vec::new();
    for &c in coefs {
        v.push(fe(c));
    }
    Polynomial::new(v)
}

#[test]
fn lib_mul() {
    // (x + 5) * (x + 1) = x^2 + 6x + 5
    let p1 = poly(&[5, 1]);
    let p2 = poly(&[1, 1]);

    let pn = p1.mul(p2);

    // f(1) = 12
    assert!(pn.eval(fe(1)).equals(fe(12)));

    // f(2) = 21
    assert!(pn.eval(fe(2)).equals(fe(21)));
}

#[test]
fn lib_add() {
    // (x + 5) + (x + 1) = 2x + 6
    let p1 = poly(&[5, 1]);
    let p2 = poly(&[1, 1]);

    let pn = p1.add(p2);

    // f(1) = 8
    assert!(pn.eval(fe(1)).equals(fe(8)));

    // f(101) = 208
    assert!(pn.eval(fe(101)).equals(fe(208)));
}

#[test]
fn interpolation() {
    let p: TestPolynomial = Polynomial::interpolate(&vec![(fe(5), fe(2))]);
    assert!(p.eval(fe(5)).equals(fe(2)));

    let p: TestPolynomial = Polynomial::interpolate(&vec![(fe(13), fe(5)), (fe(7), fe(2))]);
    assert!(p.eval(fe(13)).equals(fe(5)));
    assert!(p.eval(fe(7)).equals(fe(2)));
}

#[test]
fn interpolation_more_nodes() {
    // Three nodes of the polynomial x^2 + 1.
    let pts = vec![(fe(1), fe(2)), (fe(2), fe(5)), (fe(3), fe(10))];
    let p: TestPolynomial = Polynomial::interpolate(&pts);
    assert!(p.eval(fe(1)).equals(fe(2)));
    assert!(p.eval(fe(2)).equals(fe(5)));
    assert!(p.eval(fe(3)).equals(fe(10)));
    assert!(p.eval(fe(10)).equals(fe(101)));
}

#[test]
fn ring_identities() {
    let p = poly(&[5, 1]);

    let with_one = p.clone().mul(Polynomial::one());
    assert!(with_one.eval(fe(4)).equals(fe(9)));

    let with_zero = p.clone().add(Polynomial::zero());
    assert!(with_zero.eval(fe(4)).equals(fe(9)));

    let z: TestPolynomial = Polynomial::zero();
    assert!(z.eval(fe(123)).equals(fe(0)));
    assert!(Polynomial::<FieldElement<U64Field>>::one().eval(fe(123)).equals(fe(1)));
}

#[test]
fn coefficient_round_trip() {
    let p = poly(&[7, 0, 3]);
    let coefs = p.into_coefs();
    assert_eq!(coefs.len(), 3);
    assert!(coefs[0].equals(fe(7)));
    assert!(coefs[1].equals(fe(0)));
    assert!(coefs[2].equals(fe(3)));
}

#[test]
fn scale_by_element() {
    // 3 * (x + 5) = 3x + 15
    let p = poly(&[5, 1]).scale(fe(3));
    assert!(p.eval(fe(1)).equals(fe(18)));
    assert!(p.eval(fe(2)).equals(fe(21)));
}
