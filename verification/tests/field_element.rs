use ecc_core::field_element::{mod_exp, FieldElement};

#[test]
fn field_element_basic() {
    let a = FieldElement::new(7, 13);
    let b = FieldElement::new(6, 13);

    assert_eq!(a, a);
    assert_ne!(a, b);
}

#[test]
fn field_element_field_addition() {
    let a = FieldElement::new(9, 13).unwrap();
    let b = FieldElement::new(10, 13).unwrap();

    let c = a.field_addition(&b);

    assert!(c.is_ok());
    assert_eq!(c.unwrap().num, 6);

    let a = FieldElement::new(-27, 13).unwrap();
    let b = FieldElement::new(-42, 13).unwrap();

    let c = a.field_addition(&b);

    assert!(c.is_ok());
    assert_eq!(c.unwrap().num, 9);
}

#[test]
fn field_element_field_subtraction() {
    let a = FieldElement::new(52, 57).unwrap();
    let b = FieldElement::new(30, 57).unwrap();

    let c = a.field_subtraction(&b);

    assert!(c.is_ok());
    assert_eq!(c.clone().unwrap().num, 22);

    let d = FieldElement::new(38, 57).unwrap();

    let e = c.unwrap().field_subtraction(&d);

    assert!(e.is_ok());
    assert_eq!(e.unwrap().num, 41);
}

#[test]
fn field_element_multiplication() {
    let a = FieldElement::new(95, 97).unwrap();
    let res = a.field_multiplication(&vec![45, 31]);

    assert!(res.is_ok());
    assert_eq!(res.unwrap(), 23);

    let b = FieldElement::new(45, 97).unwrap();
    let c = FieldElement::new(31, 97).unwrap();
    let res = a.multiply(&b).unwrap().multiply(&c);

    assert!(res.is_ok());
    assert_eq!(res.unwrap().num, 23);

    let a = FieldElement::new(17, 97).unwrap();
    let res = a.field_multiplication(&vec![13, 19, 44]);

    assert!(res.is_ok());
    assert_eq!(res.unwrap(), 68);

    let a = FieldElement::new(mod_exp(12, 7, 97) as i128, 97).unwrap();
    let res = a.field_multiplication(&vec![mod_exp(77, 49, 97) as i128]);

    assert!(res.is_ok());
    assert_eq!(res.unwrap(), 63);
}

#[test]
fn field_element_division() {
    let a = FieldElement::new(3, 31).unwrap();
    let b = FieldElement::new(24, 31).unwrap();

    assert_eq!(a.field_division(&b).unwrap().num, 4);

    let a = FieldElement::new(1, 31).unwrap();
    let b = FieldElement::new(mod_exp(17, 3, 31) as i128, 31).unwrap();

    assert_eq!(a.field_division(&b).unwrap().num, 29);

    let a = FieldElement::new(11, 31).unwrap();
    let b = FieldElement::new(mod_exp(4, 4, 31) as i128, 31).unwrap();

    assert_eq!(a.field_division(&b).unwrap().num, 13);
}
