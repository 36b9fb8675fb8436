use blobber::logic::aabb_grid::AabbGrid;
use blobber::math::point::Point;
use blobber::math::rect::Rect;
use blobber::simulation::world::SweepBlob;

fn sweep(id: u32, x1: i64, y1: i64, x2: i64, y2: i64) -> SweepBlob {
    SweepBlob { id, aabb: Rect::new(Point::new(x1, y1), Point::new(x2, y2)) }
}

fn same_elements(found: &Vec<SweepBlob>, expected: &Vec<SweepBlob>) {
    assert_eq!(found.len(), expected.len());
    for f in found {
        assert!(expected.contains(f));
    }
    for e in expected {
        assert!(found.contains(e));
    }
}

#[test]
fn test_foo() {
    let objects = vec![
        sweep(0, 45, 80, 50, 85),
        sweep(1, 46, 75, 51, 80),
        sweep(2, 15, 90, 20, 95),
    ];

    let grid = AabbGrid::<SweepBlob>::new_with_objects(
        &Rect::new(Point::new(0, 0), Point::new(100, 100)),
        10,
        20,
        objects.clone(),
    );

    {
        let found = grid.for_objects(&Rect::new(Point::new(0, 0), Point::new(100, 100)));
        same_elements(&found, &objects);
    }

    {
        let expected = vec![objects[0], objects[2]];
        let found = grid.for_objects(&Rect::new(Point::new(0, 0), Point::new(45, 100)));
        same_elements(&found, &expected);
    }
}

#[test]
fn test_for_objects_mut_rewrites_boxes() {
    let objects = vec![
        sweep(0, 45, 80, 50, 85),
        sweep(1, 46, 75, 51, 80),
        sweep(2, 15, 90, 20, 95),
    ];
    let mut grid = AabbGrid::<SweepBlob>::new_with_objects(
        &Rect::new(Point::new(0, 0), Point::new(100, 100)),
        10,
        20,
        objects,
    );

    // renumber only the members overlapping the left half, box unchanged
    grid.for_objects_mut(
        &Rect::new(Point::new(0, 0), Point::new(45, 100)),
        |s: &SweepBlob| SweepBlob { id: s.id + 100, aabb: s.aabb },
    );

    let all = grid.for_objects(&Rect::new(Point::new(0, 0), Point::new(100, 100)));
    let mut ids: Vec<u32> = all.iter().map(|s| s.id).collect();
    ids.sort();
    assert_eq!(ids, vec![1, 100, 102]);
}

#[test]
fn test_empty_grid_answers_nothing() {
    let grid = AabbGrid::<SweepBlob>::new(
        &Rect::new(Point::new(0, 0), Point::new(100, 100)),
        10,
        20,
    );
    let found = grid.for_objects(&Rect::new(Point::new(0, 0), Point::new(100, 100)));
    assert_eq!(found.len(), 0);
}
