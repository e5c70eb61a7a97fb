use pcurve::arith::{ModInv, ModNeg, Scalar};
use pcurve::element::FieldElement;
use pcurve::field::{field_consistent, montgomery_consistent, FieldError, FieldValue};
use pcurve::mont::MontgomeryElement;
use pcurve::params::{Mod19Field, U64Field};

fn fe19(v: u64) -> FieldElement<Mod19Field> {
    FieldElement::from_value(v)
}

fn me19(v: u64) -> MontgomeryElement<Mod19Field> {
    MontgomeryElement::from_value(v)
}

fn fe(v: u64) -> FieldElement<U64Field> {
    FieldElement::from_value(v)
}

#[test]
fn element_smoky() {
    let elem1 = fe19(6);
    let elem2 = fe19(16);

    assert!(elem1.add(elem2).equals(fe19(3)));
    assert!(elem2.add(elem1).equals(fe19(3)));

    assert!(elem1.sub(elem2).equals(fe19(9)));
    assert!(elem2.sub(elem1).equals(fe19(10)));

    assert!(elem1.neg().equals(fe19(13)));
    assert!(elem2.neg().equals(fe19(3)));

    assert!(elem1.mul(elem2).equals(fe19(1)));
    assert!(elem2.mul(elem1).equals(fe19(1)));

    assert!(elem2.div(elem1).equals(fe19(9)));
    assert!(elem1.div(elem2).equals(fe19(17)));

    assert!(elem1.pow(20).equals(fe19(17)));
    assert!(elem2.pow(10).equals(fe19(16)));
}

#[test]
fn mont_smoky() {
    let elem1 = me19(6);
    assert_eq!(elem1.into_value(), 1);

    let elem2 = me19(16);
    assert_eq!(elem2.into_value(), 9);

    assert!(elem1.add(elem2).equals(me19(3)));
    assert!(elem2.add(elem1).equals(me19(3)));

    assert!(elem1.sub(elem2).equals(me19(9)));
    assert!(elem2.sub(elem1).equals(me19(10)));

    assert!(elem1.neg().equals(me19(13)));
    assert!(elem2.neg().equals(me19(3)));

    assert!(elem1.mul(elem2).equals(me19(1)));
    assert!(elem2.mul(elem1).equals(me19(1)));

    assert!(elem2.div(elem1).equals(me19(9)));
    assert!(elem1.div(elem2).equals(me19(17)));

    assert!(elem1.pow(20).equals(me19(17)));
    assert!(elem2.pow(10).equals(me19(16)));
}

#[test]
fn mul_scalar() {
    let elem1 = me19(6);
    assert_eq!(elem1.into_value(), 1);
    assert_eq!(elem1.mul_scalar(2).into_value(), 2);
}

#[test]
fn division_by_self_and_inverse() {
    // Over the large prime field, x / x is one and 1 / x is the modular
    // inverse of x, for a handful of nonzero values.
    for &x in &[1u64, 2, 123456, 570768668753918, 1125899839733758] {
        let xe = fe(x);
        assert!(xe.div(xe).equals(fe(1)));
        let inv = x.inv(1125899839733759);
        assert!(fe(1).div(xe).into_value() == inv);
        assert_eq!(((x as u128 * inv as u128) % 1125899839733759u128) as u64, 1);
    }
}

#[test]
fn field_ring_laws_concrete() {
    let a = fe(570768668753918);
    let b = fe(222182780873386);
    let c = fe(98765432101112);

    assert!(a.add(b).equals(b.add(a)));
    assert!(a.mul(b).equals(b.mul(a)));
    assert!(a.add(b).add(c).equals(a.add(b.add(c))));
    assert!(a.mul(b).mul(c).equals(a.mul(b.mul(c))));
    assert!(a.mul(b.add(c)).equals(a.mul(b).add(a.mul(c))));
}

#[test]
fn montgomery_round_trip() {
    for &x in &[0u64, 1, 6, 18, 123456, 1125899839733758] {
        let e = fe(x);
        assert!(MontgomeryElement::from_element(e).into_element().equals(e));
        let e19 = fe19(x);
        assert!(MontgomeryElement::from_element(e19).into_element().equals(e19));
    }
}

#[test]
fn montgomery_matches_standard_form() {
    let a = fe(570768668753918);
    let b = fe(222182780873386);
    let ma = MontgomeryElement::from_element(a);
    let mb = MontgomeryElement::from_element(b);

    assert!(ma.mul(mb).into_element().equals(a.mul(b)));
    assert!(ma.add(mb).into_element().equals(a.add(b)));
    assert!(ma.sub(mb).into_element().equals(a.sub(b)));
    assert!(ma.div(mb).into_element().equals(a.div(b)));
    assert!(ma.neg().into_element().equals(a.neg()));
}

#[test]
fn checked_division_refuses_zero() {
    let x = fe(42);
    match x.checked_div(fe(0)) {
        Err(e) => assert_eq!(e, FieldError::InverseOfZero),
        Ok(_) => panic!("division by zero was not refused"),
    }
    let m19 = me19(7);
    match m19.checked_div(me19(0)) {
        Err(e) => assert_eq!(e, FieldError::InverseOfZero),
        Ok(_) => panic!("division by zero was not refused"),
    }
    match x.checked_div(fe(6)) {
        Ok(q) => assert!(q.equals(x.div(fe(6)))),
        Err(_) => panic!("division by an invertible value was refused"),
    }
}

#[test]
fn negation_of_zero_is_zero() {
    // Construction canonicalizes: negating the additive identity stays
    // inside the reduced range rather than landing on the modulus.
    assert!(fe(0).neg().equals(fe(0)));
    assert_eq!(fe(0).neg().into_value(), 0);
    assert_eq!(me19(0).neg().into_value(), 0);
    // The raw scalar primitive itself returns the modulus there.
    assert_eq!(0u64.neg(19), 19);
}

#[test]
fn descriptor_validation() {
    assert!(field_consistent::<Mod19Field>());
    assert!(montgomery_consistent::<Mod19Field>());
    assert!(field_consistent::<U64Field>());
    assert!(montgomery_consistent::<U64Field>());
}

#[test]
fn scalar_bits() {
    let v = 5u64.bits();
    assert_eq!(v.len(), 64);
    // Most significant first: the three lowest bits sit at the end.
    assert!(v[63]);
    assert!(!v[62]);
    assert!(v[61]);
    assert!(v[..61].iter().all(|&b| !b));
    assert!(5u64.bit(0));
    assert!(!5u64.bit(1));
    assert!(5u64.bit(2));
    assert_eq!(u64::max_bits(), 64);
    assert_eq!(<u64 as Scalar>::one(), 1);
    assert_eq!(<u64 as Scalar>::zero(), 0);
}

#[test]
fn pow_edges() {
    let x = fe(123456789);
    assert!(x.pow(0).equals(fe(1)));
    assert!(x.pow(1).equals(x));
    assert!(x.squared().equals(x.mul(x)));
    assert!(fe(0).pow(5).equals(fe(0)));
}
