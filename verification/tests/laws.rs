//! Concrete instances of the algebraic laws, the documented boundary
//! scenarios, and one input for each reachable error kind.

use ecc_core::field_element::{mod_exp, FieldElement};
use ecc_core::point::Point;
use ecc_core::EccError;

fn fe(num: i128, prime: u64) -> FieldElement {
    FieldElement::new(num, prime).unwrap()
}

fn infinity(a: FieldElement, b: FieldElement) -> Point {
    Point::new(None, None, a, b).unwrap()
}

#[test]
fn field_closure_stays_in_range() {
    let a = fe(29, 31);
    let b = fe(17, 31);
    for r in [
        a.field_addition(&b).unwrap(),
        a.field_subtraction(&b).unwrap(),
        a.multiply(&b).unwrap(),
        a.field_division(&b).unwrap(),
    ] {
        assert!(r.num < 31);
        assert_eq!(r.prime, 31);
    }
}

#[test]
fn additive_inverse_sums_to_zero() {
    for num in [0, 1, 17, 30] {
        let a = fe(num, 31);
        let neg = fe((31 - num) % 31, 31);
        assert_eq!(a.field_addition(&neg).unwrap().num, 0);
    }
}

#[test]
fn multiplicative_inverse_via_power() {
    // inverse(a) = a^(prime - 2)
    let a = fe(24, 31);
    let inv = a.field_power(31 - 2).unwrap();
    assert_eq!(a.multiply(&inv).unwrap().num, 1);

    let a = fe(105, 223);
    let inv = a.field_power(223 - 2).unwrap();
    assert_eq!(a.multiply(&inv).unwrap().num, 1);
}

#[test]
fn fermat_wraparound_yields_one() {
    assert_eq!(fe(5, 31).field_power(30).unwrap().num, 1);
    assert_eq!(fe(30, 31).field_power(30).unwrap().num, 1);
    assert_eq!(fe(222, 223).field_power(222).unwrap().num, 1);
}

#[test]
fn division_matches_inverse_power() {
    let a = fe(3, 31);
    let b = fe(24, 31);
    let via_division = a.field_division(&b).unwrap();
    let via_inverse = a.multiply(&b.field_power(-1).unwrap()).unwrap();
    assert_eq!(via_division, via_inverse);
    assert_eq!(via_division.num, 4);
}

#[test]
fn negative_exponent_wraps() {
    let a = fe(17, 31);
    assert_eq!(a.field_power(-1).unwrap(), a.field_power(29).unwrap());
    assert_eq!(a.field_power(-3).unwrap(), a.field_power(27).unwrap());
}

#[test]
fn mod_exp_exact_values() {
    assert_eq!(mod_exp(2, 10, 1000), 24);
    assert_eq!(mod_exp(3, 4, 5), 1);
    assert_eq!(mod_exp(7, 0, 13), 1);
}

#[test]
fn residue_boundary() {
    let ok = FieldElement::new(192, 223).unwrap();
    assert_eq!(ok.num, 192);
    assert_eq!(FieldElement::new(223, 223), Err(EccError::OutOfRange));
    assert_eq!(FieldElement::new(5, 1), Err(EccError::OutOfRange));
    assert_eq!(FieldElement::new(5, 0), Err(EccError::OutOfRange));
}

#[test]
fn field_mismatch_is_reported() {
    let a = fe(1, 13);
    let b = fe(1, 17);
    assert_eq!(a.field_addition(&b), Err(EccError::FieldMismatch));
    assert_eq!(a.field_subtraction(&b), Err(EccError::FieldMismatch));
    assert_eq!(a.multiply(&b), Err(EccError::FieldMismatch));
    assert_eq!(a.field_division(&b), Err(EccError::FieldMismatch));
    // An entry at or above the modulus does not belong to the field.
    assert_eq!(
        fe(5, 13).field_multiplication(&vec![13]),
        Err(EccError::FieldMismatch)
    );
}

#[test]
fn division_by_zero_is_reported() {
    let a = fe(3, 31);
    let zero = fe(0, 31);
    assert_eq!(a.field_division(&zero), Err(EccError::DivisionByZero));
}

#[test]
fn curve_membership_roundtrip() {
    let a = fe(0, 223);
    let b = fe(7, 223);
    // (192, 105) satisfies y^2 = x^3 + 7 ...
    let p = Point::new(Some(fe(192, 223)), Some(fe(105, 223)), a, b);
    assert!(p.is_ok());
    // ... and perturbing y by one makes construction fail.
    let q = Point::new(Some(fe(192, 223)), Some(fe(106, 223)), a, b);
    assert_eq!(q, Err(EccError::NotOnCurve));
    // The one perturbation that still lands on the curve is -2y, which
    // flips the point to its opposite.
    let r = Point::new(Some(fe(192, 223)), Some(fe(105 - 2 * 105, 223)), a, b);
    assert!(r.is_ok());
}

#[test]
fn group_identity_law() {
    let a = fe(0, 223);
    let b = fe(7, 223);
    let p = Point::new(Some(fe(192, 223)), Some(fe(105, 223)), a, b).unwrap();
    let inf = infinity(a, b);
    assert_eq!(p.add(inf), Ok(p));
    assert_eq!(inf.add(p), Ok(p));
    assert_eq!(inf.add(inf), Ok(inf));
}

#[test]
fn addition_commutes() {
    let a = fe(0, 223);
    let b = fe(7, 223);
    let p = Point::new(Some(fe(192, 223)), Some(fe(105, 223)), a, b).unwrap();
    let q = Point::new(Some(fe(17, 223)), Some(fe(56, 223)), a, b).unwrap();
    assert_eq!(p.add(q), q.add(p));

    let r = Point::new(Some(fe(170, 223)), Some(fe(142, 223)), a, b).unwrap();
    assert_eq!(p.add(r), r.add(p));
    assert_eq!(q.add(r), r.add(q));
}

#[test]
fn additive_inverses_sum_to_infinity() {
    let a = fe(0, 223);
    let b = fe(7, 223);
    // (192, 105) and (192, 118) share x and have opposite y.
    let p = Point::new(Some(fe(192, 223)), Some(fe(105, 223)), a, b).unwrap();
    let q = Point::new(Some(fe(192, 223)), Some(fe(118, 223)), a, b).unwrap();
    assert_eq!(p.add(q), Ok(infinity(a, b)));
}

#[test]
fn self_inverse_point_of_order_two() {
    // (1, 0) lies on y^2 = x^3 + 222 over the 223-element field; doubling
    // a point with y = 0 meets a vertical tangent.
    let a = fe(0, 223);
    let b = fe(222, 223);
    let p = Point::new(Some(fe(1, 223)), Some(fe(0, 223)), a, b).unwrap();
    assert_eq!(p.add(p), Ok(infinity(a, b)));
}

#[test]
fn doubling_over_two_element_field_fails() {
    // Over the two-element field 2*y reduces to zero for every y, so the
    // tangent slope of a point with y = 1 cannot be computed.
    let a = fe(0, 2);
    let b = fe(1, 2);
    let p = Point::new(Some(fe(0, 2)), Some(fe(1, 2)), a, b).unwrap();
    assert_eq!(p.add(p), Err(EccError::DivisionByZero));
}

#[test]
fn curve_mismatch_is_reported() {
    let p = Point::new(
        Some(fe(18, 223)),
        Some(fe(77, 223)),
        fe(5, 223),
        fe(7, 223),
    )
    .unwrap();
    let q = Point::new(
        Some(fe(192, 223)),
        Some(fe(105, 223)),
        fe(0, 223),
        fe(7, 223),
    )
    .unwrap();
    assert_eq!(p.add(q), Err(EccError::CurveMismatch));
}

#[test]
fn associativity_spot_check() {
    let a = fe(0, 223);
    let b = fe(7, 223);
    let p = Point::new(Some(fe(192, 223)), Some(fe(105, 223)), a, b).unwrap();
    let q = Point::new(Some(fe(17, 223)), Some(fe(56, 223)), a, b).unwrap();
    let r = Point::new(Some(fe(170, 223)), Some(fe(142, 223)), a, b).unwrap();

    let left = p.add(q).unwrap().add(r).unwrap();
    let right = p.add(q.add(r).unwrap()).unwrap();
    assert_eq!(left, right);

    let s = Point::new(Some(fe(60, 223)), Some(fe(139, 223)), a, b).unwrap();
    let left = q.add(r).unwrap().add(s).unwrap();
    let right = q.add(r.add(s).unwrap()).unwrap();
    assert_eq!(left, right);
}

#[test]
fn three_point_chain_scenarios() {
    let a = fe(0, 223);
    let b = fe(7, 223);
    let sum1 = Point::new(Some(fe(192, 223)), Some(fe(105, 223)), a, b)
        .unwrap()
        .add(Point::new(Some(fe(17, 223)), Some(fe(56, 223)), a, b).unwrap())
        .unwrap();
    assert_eq!(
        sum1,
        Point::new(Some(fe(170, 223)), Some(fe(142, 223)), a, b).unwrap()
    );

    let sum2 = sum1
        .add(Point::new(Some(fe(60, 223)), Some(fe(139, 223)), a, b).unwrap())
        .unwrap();
    assert_eq!(
        sum2,
        Point::new(Some(fe(220, 223)), Some(fe(181, 223)), a, b).unwrap()
    );

    let sum3 = Point::new(Some(fe(47, 223)), Some(fe(71, 223)), a, b)
        .unwrap()
        .add(Point::new(Some(fe(17, 223)), Some(fe(56, 223)), a, b).unwrap())
        .unwrap();
    assert_eq!(
        sum3,
        Point::new(Some(fe(215, 223)), Some(fe(68, 223)), a, b).unwrap()
    );
}

#[test]
fn rendering_never_panics() {
    let a = fe(0, 223);
    let b = fe(7, 223);
    let p = Point::new(Some(fe(17, 223)), Some(fe(56, 223)), a, b).unwrap();
    assert_eq!(p.to_string(), "(17, 56, 0, 7)");
    assert_eq!(infinity(a, b).to_string(), "infinity");
    assert_eq!(fe(105, 223).to_string(), "105");
    assert_eq!(fe(0, 223).to_string(), "0");
}

#[test]
fn field_scenarios_exact() {
    // 3 / 24 == 4 in the 31-element field.
    assert_eq!(
        fe(3, 31).field_division(&fe(24, 31)).unwrap(),
        fe(4, 31)
    );
    // 95 * 45 * 31 == 23 in the 97-element field.
    assert_eq!(fe(95, 97).field_multiplication(&vec![45, 31]), Ok(23));
}
