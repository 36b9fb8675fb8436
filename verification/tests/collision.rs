use blobber::math::circle::Circle;
use blobber::math::collision::{
    collides, collides_before, collides_circle, collides_rect, may_collide,
};
use blobber::math::num::Ratio;
use blobber::math::point::Point;
use blobber::math::rect::{Line, Rect};

#[test]
fn test_collides() {
    {
        let circle = Circle::new(30, -10, 30);
        let line1 = Line::through(Point::new(-20, 30), Point::new(30, 25));
        let line2 = Line::through(Point::new(-20, 30), Point::new(-5, -20));
        let line3 = Line::through(Point::new(50, -50), Point::new(60, -30));

        assert_eq!(collides(&circle, &line1), None);
        assert_eq!(collides(&circle, &line2), None);
        assert_eq!(collides(&circle, &line3), None);
    }

    {
        let circle = Circle::new(20, 10, 15);
        let line1 = Line::through(Point::new(-10, 25), Point::new(10, 25));
        let line2 = Line::through(Point::new(-10, 0), Point::new(5, 10));
        let line3 = Line::through(Point::new(30, -30), Point::new(30, -6));

        // tangent case: the discriminant is exactly zero, one stable root
        let t1 = collides(&circle, &line1).unwrap();
        assert_eq!(t1, Ratio { num: 1200, den: 800 });
        assert!(t1.same_value(&Ratio::new(3, 2)));

        let t2 = collides(&circle, &line2).unwrap();
        assert!(t2.same_value(&Ratio::whole(1)));

        let t3 = collides(&circle, &line3).unwrap();
        assert_eq!(t3, Ratio { num: 1384, den: 1152 });
    }

    {
        let circle = Circle::new(20, 10, 15);
        let line1 = Line::through(Point::new(10, 25), Point::new(-10, 25));
        let line2 = Line::through(Point::new(5, 10), Point::new(-10, 0));
        let line3 = Line::through(Point::new(30, -6), Point::new(30, -30));

        let t1 = collides(&circle, &line1).unwrap();
        assert!(t1.same_value(&Ratio::new(-1, 2)));

        let t2 = collides(&circle, &line2).unwrap();
        assert!(t2.same_value(&Ratio::whole(0)));

        let t3 = collides(&circle, &line3).unwrap();
        assert_eq!(t3, Ratio { num: -232, den: 1152 });
    }
}

#[test]
fn test_collides_before() {
    // the circles' boundaries are 5 units apart along the x axis
    let circle1 = Circle::new(20, -20, 15);
    let circle2 = Circle::new(65, -20, 25);

    assert_eq!(
        collides_before(
            (&circle1, &Point::new(0, 0)),
            (&circle2, &Point::new(0, 0)),
            Ratio::whole(10),
        ),
        None
    );

    assert_eq!(
        collides_before(
            (&circle1, &Point::new(-10, 0)),
            (&circle2, &Point::new(10, 0)),
            Ratio::whole(10),
        ),
        None
    );

    assert_eq!(
        collides_before(
            (&circle1, &Point::new(-10, 20)),
            (&circle2, &Point::new(10, -20)),
            Ratio::whole(10),
        ),
        None
    );

    assert_eq!(
        collides_before(
            (&circle1, &Point::new(10, 0)),
            (&circle2, &Point::new(10, 0)),
            Ratio::whole(10),
        ),
        None
    );

    assert_eq!(
        collides_before(
            (&circle1, &Point::new(5, 0)),
            (&circle2, &Point::new(0, 0)),
            Ratio::new(1, 2),
        ),
        None
    );

    let t = collides_before(
        (&circle1, &Point::new(10, 0)),
        (&circle2, &Point::new(0, 0)),
        Ratio::whole(1),
    )
    .unwrap();
    assert!(t.same_value(&Ratio::new(1, 2)));

    let t = collides_before(
        (&circle1, &Point::new(5, 0)),
        (&circle2, &Point::new(0, 0)),
        Ratio::whole(1),
    )
    .unwrap();
    assert!(t.same_value(&Ratio::whole(1)));

    let t = collides_before(
        (&circle1, &Point::new(5, 0)),
        (&circle2, &Point::new(-5, 0)),
        Ratio::whole(1),
    )
    .unwrap();
    assert!(t.same_value(&Ratio::new(1, 2)));
}

#[test]
fn test_collides_circle_matches_minkowski() {
    let circle1 = Circle::new(20, -20, 15);
    let circle2 = Circle::new(65, -20, 25);
    let t = collides_circle((&circle1, &Point::new(10, 0)), (&circle2, &Point::new(0, 0)))
        .unwrap();
    assert!(t.same_value(&Ratio::new(1, 2)));
}

#[test]
fn test_may_collide() {
    let circle1 = Circle::new(0, 0, 10);
    let circle2 = Circle::new(100, 0, 10);
    // heading toward each other: the swept boxes meet within the budget
    assert!(may_collide(
        (&circle1, &Point::new(50, 0)),
        (&circle2, &Point::new(-50, 0)),
        Ratio::whole(1),
    ));
    // standing still and far apart: they cannot
    assert!(!may_collide(
        (&circle1, &Point::new(0, 0)),
        (&circle2, &Point::new(0, 0)),
        Ratio::whole(1),
    ));
}

#[test]
fn test_collides_rect() {
    let rect = Rect::new(Point::new(0, 0), Point::new(45, 100));
    // touching counts: the closest point of the box is exactly one radius away
    assert!(collides_rect(&Circle::new(50, 50, 5), &rect));
    assert!(!collides_rect(&Circle::new(51, 50, 5), &rect));
    assert!(collides_rect(&Circle::new(20, 20, 5), &rect));
    // corner case: nearest point is the box corner
    assert!(collides_rect(&Circle::new(48, 103, 5), &rect));
    assert!(!collides_rect(&Circle::new(49, 104, 5), &rect));
}
