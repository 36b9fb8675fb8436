use blobber::logic::grid_pos::GridPos;
use blobber::math::point::Point;
use blobber::math::rect::Rect;

#[test]
fn test_cell_for_round_trip() {
    let gp = GridPos::new(&Rect::new(Point::new(0, 0), Point::new(100, 100)), 4, 5);
    // cells are 25 wide and 20 tall
    assert_eq!(gp.cell.x, 25);
    assert_eq!(gp.cell.y, 20);
    assert_eq!(gp.cell_for(&Point::new(45, 80)), (1, 4));
    assert_eq!(gp.cell_for(&Point::new(0, 0)), (0, 0));
    assert_eq!(gp.cell_for(&Point::new(24, 19)), (0, 0));
    assert_eq!(gp.cell_for(&Point::new(25, 20)), (1, 1));
}

#[test]
fn test_cell_for_near_edge() {
    // the same region scaled ten-fold: a position just inside the far
    // corner maps to the last cell
    let gp = GridPos::new(&Rect::new(Point::new(0, 0), Point::new(1000, 1000)), 4, 5);
    assert_eq!(gp.cell_for(&Point::new(999, 999)), (3, 4));
    assert_eq!(gp.cell_for(&Point::new(450, 800)), (1, 4));
}

#[test]
fn test_cell_for_clamps_outside() {
    let gp = GridPos::new(&Rect::new(Point::new(0, 0), Point::new(100, 100)), 4, 5);
    // out-of-region positions clamp to the nearest edge cell
    assert_eq!(gp.cell_for(&Point::new(-30, 50)), (0, 2));
    assert_eq!(gp.cell_for(&Point::new(130, 120)), (3, 4));
}
