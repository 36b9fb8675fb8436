use blobber::math::circle::Circle;
use blobber::math::point::Point;

#[test]
fn test_contains() {
    {
        let c1 = Circle { pos: Point { x: 10, y: 20 }, radius: 30 };
        let c2 = Circle { pos: Point { x: 10, y: 20 }, radius: 20 };

        assert!(c1.contains(&c2));
        assert!(!c2.contains(&c1));
        assert!(!c1.contains(&c1));
    }

    {
        let c1 = Circle { pos: Point { x: 10, y: 20 }, radius: 30 };
        let c2 = Circle { pos: Point { x: -10, y: 20 }, radius: 20 };

        assert!(!c1.contains(&c2));
    }

    {
        let c1 = Circle { pos: Point { x: 10, y: 15 }, radius: 30 };
        let c2 = Circle { pos: Point { x: -10, y: -20 }, radius: 80 };
        let c3 = Circle { pos: Point { x: -10, y: -20 }, radius: 70 };
        assert!(c2.contains(&c1));
        assert!(!c3.contains(&c1));
    }
}

#[test]
fn test_contains_pos() {
    let c = Circle { pos: Point::new(10, 20), radius: 30 };

    assert!(c.contains_pos(&Point::new(10, 20)));
    assert!(c.contains_pos(&Point::new(-8, 38)));

    assert!(!c.contains_pos(&Point::new(-12, 42)));
}

#[test]
fn test_collides_is_separation() {
    // `collides` is a separation test: true when the circles are at least
    // the two radii apart (or exactly touching), not an overlap test.
    let a = Circle::new(0, 0, 10);
    let far = Circle::new(100, 0, 10);
    let touching = Circle::new(20, 0, 10);
    let overlapping = Circle::new(5, 0, 10);
    assert!(a.collides(&far));
    assert!(a.collides(&touching));
    assert!(!a.collides(&overlapping));
}
