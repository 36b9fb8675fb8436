use blobber::math::point::Point;
use blobber::math::rect::Rect;
use blobber::simulation::blob::{Blob, DEFAULT_MASS};

#[test]
fn test_new_blob() {
    let b = Blob::new(100, 100, 10, 7);
    assert_eq!(b.id, 7);
    assert_eq!(b.circle.pos, Point::new(100, 100));
    assert_eq!(b.circle.radius, 10);
    assert_eq!(b.mass, DEFAULT_MASS);
    assert_eq!(b.velocity, Point::new(0, 0));
    assert_eq!(b.collision_aabb, Rect::new_empty());
}

#[test]
fn test_update_applies_force_exactly() {
    let mut b = Blob::new(0, 0, 10, 0);
    b.force = Point::new(13000, 0);
    b.update(100);
    // acceleration 1000 over a tenth of a second: velocity 100, and the
    // body then moves 10 units within the same step
    assert_eq!(b.velocity, Point::new(100, 0));
    assert_eq!(b.circle.pos, Point::new(10, 0));
    // the swept box covers the start and end, padded by the radius,
    // and was computed before the move
    assert_eq!(
        b.collision_aabb,
        Rect::new(Point::new(-10, -10), Point::new(20, 10))
    );
    assert_eq!(b.rotation, 0);
}

#[test]
fn test_force_reset() {
    let mut b = Blob::new(0, 0, 10, 0);
    b.force = Point::new(987654, -321);
    b.angular_force = 55555;
    b.update(16);
    assert_eq!(b.force, Point::new(0, 0));
    assert_eq!(b.angular_force, 0);

    let mut c = Blob::new(0, 0, 10, 1);
    c.force = Point::new(-1, 1);
    c.angular_force = -99;
    c.update(0);
    assert_eq!(c.force, Point::new(0, 0));
    assert_eq!(c.angular_force, 0);
}

#[test]
fn test_drag_slows_monotonically() {
    let mut b = Blob::new(0, 0, 10, 0);
    b.velocity = Point::new(10000, 0);
    let mut previous = 10000i64;
    let expected = [4880i64, 3661, 2975, 2522];
    for speed in expected {
        b.update(16);
        // drag never increases speed nor flips the velocity's sign
        assert_eq!(b.velocity.x, speed);
        assert!(0 <= b.velocity.x && b.velocity.x <= previous);
        previous = b.velocity.x;
    }
}

#[test]
fn test_angular_drag_only_positive() {
    let mut b = Blob::new(0, 0, 10, 0);
    b.angular_velocity = 1000;
    b.update(100);
    // positive spin is damped: the drag is w*w*dt/1000 = 100000, giving
    // acceleration -7692 and a spin 769 lower after a tenth of a second
    assert_eq!(b.angular_velocity, 1000 - 769);

    let mut c = Blob::new(0, 0, 10, 1);
    c.angular_velocity = -1000;
    c.update(100);
    // negative spin is deliberately left undamped
    assert_eq!(c.angular_velocity, -1000);
}
