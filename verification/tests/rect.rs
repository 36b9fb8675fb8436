use blobber::math::point::Point;
use blobber::math::rect::{Line, Rect};

#[test]
fn test_merge_is_union() {
    let mut a = Rect::new(Point::new(0, 0), Point::new(10, 5));
    let b = Rect::new(Point::new(-3, 2), Point::new(4, 9));
    a.merge(&b);
    // tight on every edge: each bound comes from one of the operands
    assert_eq!(a, Rect::new(Point::new(-3, 0), Point::new(10, 9)));
}

#[test]
fn test_merge_empty_absorbs() {
    let mut e = Rect::new_empty();
    let b = Rect::new(Point::new(2, 3), Point::new(7, 8));
    e.merge(&b);
    assert_eq!(e, b);
}

#[test]
fn test_empty_collides_nothing() {
    let e = Rect::new_empty();
    let b = Rect::new(Point::new(-1000, -1000), Point::new(1000, 1000));
    assert!(!e.collides(&b));
    assert!(!b.collides(&e));
}

#[test]
fn test_collides_symmetry_and_touching() {
    let a = Rect::new(Point::new(0, 0), Point::new(10, 10));
    let b = Rect::new(Point::new(10, 3), Point::new(20, 7));
    // shared edge of zero width still counts
    assert!(a.collides(&b));
    assert!(b.collides(&a));

    let c = Rect::new(Point::new(11, 3), Point::new(20, 7));
    assert!(!a.collides(&c));
    assert!(!c.collides(&a));

    let d = Rect::new(Point::new(5, -20), Point::new(6, 20));
    assert!(a.collides(&d));
    assert!(d.collides(&a));
}

#[test]
fn test_new_valid_orders_corners() {
    let r = Rect::new_valid(Point::new(10, -2), Point::new(3, 7));
    assert_eq!(r, Rect::new(Point::new(3, -2), Point::new(10, 7)));
}

#[test]
fn test_grow_size_accessors() {
    let mut r = Rect::new(Point::new(2, 3), Point::new(10, 7));
    assert_eq!(r.size(), Point::new(8, 4));
    assert_eq!(r.top_left(), Point::new(2, 7));
    assert_eq!(r.bottom_right(), Point::new(10, 3));
    assert_eq!(r.center(), Point::new(6, 5));
    r.grow(1, 2);
    assert_eq!(r, Rect::new(Point::new(1, 1), Point::new(11, 9)));
}

#[test]
fn test_line_through() {
    let l = Line::through(Point::new(1, 2), Point::new(4, 0));
    assert_eq!(l.pos, Point::new(1, 2));
    assert_eq!(l.direction, Point::new(3, -2));
    let m = Line::new(Point::new(5, 5), Point::new(0, 1));
    assert_eq!(m.pos, Point::new(5, 5));
    assert_eq!(m.direction, Point::new(0, 1));
}
