use blobber::math::point::Point;

#[test]
fn test_add() {
    let p1 = Point { x: 1, y: 4 };
    let p2 = Point { x: 7, y: 2 };
    assert_eq!(p1.add(&p2), Point { x: 8, y: 6 });
    assert_eq!((&p1).add(&p2), Point { x: 8, y: 6 });
}

#[test]
fn test_sub() {
    let p1 = Point { x: 1, y: 3 };
    let p2 = Point { x: 7, y: 2 };
    assert_eq!(p1.sub(&p2), Point { x: -6, y: 1 });
    assert_eq!((&p1).sub(&p2), Point { x: -6, y: 1 });
}

#[test]
fn test_add_assign() {
    let mut p1 = Point { x: 1, y: 4 };
    let p2 = Point { x: 7, y: 2 };

    p1.add_assign(&p2);
    assert_eq!(p1, Point { x: 8, y: 6 });

    let p3 = Point { x: -2, y: 4 };
    p1.add_assign(&p3);
    assert_eq!(p1, Point { x: 6, y: 10 });
}

#[test]
fn test_sub_assign() {
    let mut p1 = Point { x: 1, y: 3 };
    let p2 = Point { x: 7, y: 2 };

    p1.sub_assign(&p2);
    assert_eq!(p1, Point { x: -6, y: 1 });

    let p3 = Point { x: 5, y: -3 };
    p1.sub_assign(&p3);
    assert_eq!(p1, Point { x: -11, y: 4 });
}

#[test]
fn test_dot_and_magnitude() {
    let p = Point::new(3, 4);
    assert_eq!(p.dot(&p), 25);
    assert_eq!(p.magnitude(), 5);
    assert_eq!(Point::new(0, 0).magnitude(), 0);
    // the length rounds down between perfect squares
    assert_eq!(Point::new(3, 5).magnitude(), 5);
    assert_eq!(Point::new(1, 1).dot(&Point::new(-2, 7)), 5);
}

#[test]
fn test_mul_div() {
    let p = Point::new(3, -4);
    assert_eq!(p.mul(5), Point { x: 15, y: -20 });
    // division rounds toward zero on both signs
    assert_eq!(Point::new(7, -7).div(2), Point { x: 3, y: -3 });
    assert_eq!(Point::new(7, -7).div(-2), Point { x: -3, y: 3 });
}
