use blobber::logic::loose_grid::{LooseGrid, Particle};
use blobber::math::point::Point;
use blobber::math::rect::Rect;

fn particle(x: i64, y: i64, radius: i64, alive: bool) -> Particle {
    Particle { pos: Point::new(x, y), radius, alive }
}

fn same_elements(found: &Vec<Particle>, expected: &Vec<Particle>) {
    assert_eq!(found.len(), expected.len());
    for f in found {
        assert!(expected.contains(f));
    }
    for e in expected {
        assert!(found.contains(e));
    }
}

#[test]
fn test_remove_if() {
    let mut grid = LooseGrid::<Particle>::new(
        &Rect::new(Point::new(0, 0), Point::new(100, 100)),
        10,
        20,
    );

    grid.remove_if(|object: &Particle| !object.alive);

    // two bodies share a cell, one of them dead; a third dead body sits in
    // another cell
    let live = particle(15, 20, 5, true);
    grid.add(live);
    grid.add(particle(15, 21, 5, false));
    grid.add(particle(35, 37, 5, false));

    grid.remove_if(|object: &Particle| !object.alive);
    grid.update();

    let found = grid.for_objects(&Rect::new(Point::new(0, 0), Point::new(100, 100)));
    assert_eq!(found.len(), 1);
    assert_eq!(found[0], live);
}

#[test]
fn test_for_objects() {
    let mut grid = LooseGrid::<Particle>::new(
        &Rect::new(Point::new(0, 0), Point::new(100, 100)),
        4,
        5,
    );
    grid.update();

    let none = grid.for_objects(&Rect::new(Point::new(0, 0), Point::new(100, 100)));
    assert_eq!(none.len(), 0);

    let objects = vec![
        particle(45, 80, 5, true),
        particle(46, 75, 5, false),
        particle(15, 90, 5, false),
    ];

    for obj in &objects {
        grid.add(*obj);
    }

    grid.update();

    {
        let found = grid.for_objects(&Rect::new(Point::new(0, 0), Point::new(100, 100)));
        same_elements(&found, &objects);
    }

    {
        let expected = vec![objects[0]];
        let found = grid.for_objects(&Rect::new(Point::new(25, 70), Point::new(40, 90)));
        same_elements(&found, &expected);
    }

    {
        let expected = Vec::<Particle>::new();
        let found = grid.for_objects(&Rect::new(Point::new(0, 0), Point::new(20, 20)));
        same_elements(&found, &expected);
    }
}

#[test]
fn test_query_after_update() {
    // the canonical regression scenario: three bodies, a half-plane query,
    // and exactly the circles overlapping the region come back
    let mut grid = LooseGrid::<Particle>::new(
        &Rect::new(Point::new(0, 0), Point::new(100, 100)),
        10,
        20,
    );
    let a = particle(45, 80, 5, true);
    let b = particle(46, 75, 5, true);
    let c = particle(15, 90, 5, true);
    grid.add(a);
    grid.add(b);
    grid.add(c);
    grid.update();

    let found = grid.for_objects(&Rect::new(Point::new(0, 0), Point::new(45, 100)));
    // (45,80) touches the region edge; (46,75) is one unit past it but its
    // circle still reaches; (15,90) lies inside
    same_elements(&found, &vec![a, b, c]);

    // one unit narrower: (45,80) still touches at distance five, (46,75)
    // is now six away and drops out
    let found = grid.for_objects(&Rect::new(Point::new(0, 0), Point::new(40, 100)));
    same_elements(&found, &vec![a, c]);

    let found = grid.for_objects(&Rect::new(Point::new(0, 0), Point::new(39, 100)));
    same_elements(&found, &vec![c]);
}

#[test]
fn test_for_objects_mut_marks_matches() {
    let mut grid = LooseGrid::<Particle>::new(
        &Rect::new(Point::new(0, 0), Point::new(100, 100)),
        4,
        5,
    );
    grid.add(particle(45, 80, 5, true));
    grid.add(particle(15, 90, 5, true));
    grid.update();

    // mark only the members overlapping the region, in place
    grid.for_objects_mut(
        &Rect::new(Point::new(25, 70), Point::new(40, 90)),
        |p: &Particle| Particle { alive: false, ..*p },
    );
    grid.update();

    let dead = grid.for_objects(&Rect::new(Point::new(0, 0), Point::new(100, 100)));
    assert_eq!(dead.len(), 2);
    for p in &dead {
        if p.pos == Point::new(45, 80) {
            assert!(!p.alive);
        } else {
            assert!(p.alive);
        }
    }
}

#[test]
fn test_moved_objects_rehomed() {
    let mut grid = LooseGrid::<Particle>::new(
        &Rect::new(Point::new(0, 0), Point::new(100, 100)),
        10,
        10,
    );
    grid.add(particle(5, 5, 2, true));
    grid.update();

    // the same grid after replacing the member with a moved copy: the
    // queries must follow the new position once update has re-homed it
    grid.remove_if(|_: &Particle| true);
    grid.add(particle(95, 95, 2, true));
    grid.update();

    let near_origin = grid.for_objects(&Rect::new(Point::new(0, 0), Point::new(10, 10)));
    assert_eq!(near_origin.len(), 0);
    let far_corner = grid.for_objects(&Rect::new(Point::new(90, 90), Point::new(100, 100)));
    assert_eq!(far_corner.len(), 1);
}
