use ecc_core::field_element::FieldElement;
use ecc_core::point::Point;

fn fe(num: i128, prime: u64) -> FieldElement {
    FieldElement::new(num, prime).unwrap()
}

#[test]
fn point_setup() {
    let prime = 223;
    let a = fe(5, prime);
    let b = fe(7, prime);

    let x1 = Some(fe(-1, prime));
    let y1 = Some(fe(-1, prime));

    let x2 = Some(fe(-1, prime));
    let y2 = Some(fe(-2, prime));

    let p1 = Point::new(x1, y1, a, b);
    let p2 = Point::new(x2, y2, a, b);

    assert!(p1.is_ok());
    assert!(p2.is_err());

    let x1 = Some(fe(2, prime));
    let y1 = Some(fe(4, prime));

    let x2 = Some(fe(-1, prime));
    let y2 = Some(fe(-1, prime));

    let x3 = Some(fe(18, prime));
    let y3 = Some(fe(77, prime));

    let x4 = Some(fe(5, prime));
    let y4 = Some(fe(7, prime));

    let p1 = Point::new(x1, y1, a, b);
    let p2 = Point::new(x2, y2, a, b);
    let p3 = Point::new(x3, y3, a, b);
    let p4 = Point::new(x4, y4, a, b);

    assert!(p1.is_err());
    assert!(p2.is_ok());
    assert!(p3.is_ok());
    assert!(p4.is_err());
}

#[test]
fn point_addition() {
    let prime = 223;
    let a = fe(5, prime);
    let b = fe(7, prime);

    // p1.x != p2.x

    let x1 = Some(fe(2, prime));
    let y1 = Some(fe(5, prime));

    let x2 = Some(fe(-1, prime));
    let y2 = Some(fe(-1, prime));

    let p1 = Point::new(x1, y1, a, b).unwrap();
    let p2 = Point::new(x2, y2, a, b).unwrap();
    assert_eq!(p1.add(p2).unwrap().to_string(), "(3, 216, 5, 7)");

    // p1 == p2
    let x1 = Some(fe(-1, prime));
    let y1 = Some(fe(-1, prime));

    let x2 = Some(fe(-1, prime));
    let y2 = Some(fe(-1, prime));

    let p1 = Point::new(x1, y1, a, b).unwrap();
    let p2 = Point::new(x2, y2, a, b).unwrap();
    assert_eq!(p1.add(p2).unwrap().to_string(), "(18, 77, 5, 7)");
}

#[test]
fn test_on_curve() {
    let prime = 223;
    let a = fe(0, prime);
    let b = fe(7, prime);

    let valid_points = vec![(192, 105), (17, 56), (1, 193)];
    let invalid_points = vec![(200, 119), (42, 99)];

    for (x, y) in valid_points {
        let x = fe(x, prime);
        let y = fe(y, prime);

        let p = Point::new(Some(x), Some(y), a, b);

        assert!(p.is_ok());
    }

    for (x, y) in invalid_points {
        let x = fe(x, prime);
        let y = fe(y, prime);

        let p = Point::new(Some(x), Some(y), a, b);
        assert!(p.is_err());
    }
}

#[test]
fn point_addition_over_finite_field() {
    let prime = 223;

    let a = fe(0, prime);
    let b = fe(7, prime);

    let x1 = fe(192, prime);
    let y1 = fe(105, prime);
    let x2 = fe(17, prime);
    let y2 = fe(56, prime);

    let p1 = Point::new(Some(x1), Some(y1), a, b).unwrap();
    let p2 = Point::new(Some(x2), Some(y2), a, b).unwrap();

    assert_eq!(p1.add(p2).unwrap().to_string(), "(170, 142, 0, 7)");

    let x1 = fe(170, prime);
    let y1 = fe(142, prime);
    let x2 = fe(60, prime);
    let y2 = fe(139, prime);

    let p1 = Point::new(Some(x1), Some(y1), a, b).unwrap();
    let p2 = Point::new(Some(x2), Some(y2), a, b).unwrap();

    assert_eq!(p1.add(p2).unwrap().to_string(), "(220, 181, 0, 7)");

    let x1 = fe(47, prime);
    let y1 = fe(71, prime);
    let x2 = fe(17, prime);
    let y2 = fe(56, prime);

    let p1 = Point::new(Some(x1), Some(y1), a, b).unwrap();
    let p2 = Point::new(Some(x2), Some(y2), a, b).unwrap();

    assert_eq!(p1.add(p2).unwrap().to_string(), "(215, 68, 0, 7)");

    let x1 = fe(143, prime);
    let y1 = fe(98, prime);
    let x2 = fe(76, prime);
    let y2 = fe(66, prime);

    let p1 = Point::new(Some(x1), Some(y1), a, b).unwrap();
    let p2 = Point::new(Some(x2), Some(y2), a, b).unwrap();

    assert_eq!(p1.add(p2).unwrap().to_string(), "(47, 71, 0, 7)");
}
