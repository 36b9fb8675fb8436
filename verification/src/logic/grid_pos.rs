use vstd::prelude::*;

use crate::math::num::{div_i64_trunc, div_trunc_spec};
use crate::math::point::{coord_bounded, Point};
use crate::math::rect::Rect;

verus! {

/// Maps world positions to the cell coordinates of a fixed grid: an origin,
/// a per-cell size, and the grid's extent on each axis.
///
/// Out-of-region positions are clamped to the nearest edge cell, so every
/// position maps to some cell; within the region the mapping is plain
/// truncated division of the offset from the origin.
#[derive(Debug, Clone, Copy, PartialEq, Eq, Structural)]
pub struct GridPos {
    pub origin: Point,
    pub cell: Point,
    pub n_x: u32,
    pub n_y: u32,
}

impl GridPos {
    /// Positive cell sizes, at least one cell per axis, and an origin within
    /// the coordinate range.
    pub open spec fn wf(&self) -> bool {
        self.cell.x >= 1 && self.cell.y >= 1 && self.n_x >= 1 && self.n_y >= 1 && coord_bounded(
            self.origin,
        )
    }

    /// One axis of the mapping: the offset from the origin divided by the
    /// cell size, truncated toward zero, then clamped into `[0, n - 1]`.
    pub open spec fn spec_axis(pos: i64, origin: i64, cell: i64, n: u32) -> int {
        let q = div_trunc_spec(pos - origin, cell as int);
        if q < 0 {
            0
        } else if q > n - 1 {
            n - 1
        } else {
            q
        }
    }

    /// The cell that `pos` maps to.
    pub open spec fn spec_cell_for(&self, pos: Point) -> (int, int) {
        (
            GridPos::spec_axis(pos.x, self.origin.x, self.cell.x, self.n_x),
            GridPos::spec_axis(pos.y, self.origin.y, self.cell.y, self.n_y),
        )
    }

    /// The mapper that `new` builds over `rect` with `n_x` by `n_y` cells.
    pub open spec fn spec_new_from(rect: Rect, n_x: u32, n_y: u32) -> GridPos {
        GridPos {
            origin: rect.bottom_left,
            cell: Point {
                x: ((rect.top_right.x - rect.bottom_left.x) as int / n_x as int) as i64,
                y: ((rect.top_right.y - rect.bottom_left.y) as int / n_y as int) as i64,
            },
            n_x,
            n_y,
        }
    }

    /// A mapper over `rect` split evenly into `n_x` by `n_y` cells; the cell
    /// size is the region size divided by the cell count, rounded down, so a
    /// remainder widens the edge cells (through clamping).
    pub fn new(rect: &Rect, n_x: u32, n_y: u32) -> (r: GridPos)
        requires
            rect.is_valid(),
            coord_bounded(rect.bottom_left),
            coord_bounded(rect.top_right),
            n_x >= 1,
            n_y >= 1,
            rect.top_right.x - rect.bottom_left.x >= n_x,
            rect.top_right.y - rect.bottom_left.y >= n_y,
        ensures
            r == GridPos::spec_new_from(*rect, n_x, n_y),
            r.origin == rect.bottom_left,
            r.cell.x == (rect.top_right.x - rect.bottom_left.x) as int / n_x as int,
            r.cell.y == (rect.top_right.y - rect.bottom_left.y) as int / n_y as int,
            r.n_x == n_x,
            r.n_y == n_y,
            r.wf(),
    {
        let size = rect.size();
        let cell_x = size.x / (n_x as i64);
        let cell_y = size.y / (n_y as i64);
        proof {
            vstd::arithmetic::div_mod::lemma_div_pos_is_pos(size.x as int, n_x as int);
            vstd::arithmetic::div_mod::lemma_div_pos_is_pos(size.y as int, n_y as int);
            assert(size.x as int / n_x as int >= 1) by (nonlinear_arith)
                requires
                    size.x as int >= n_x as int,
                    n_x as int >= 1,
            ;
            assert(size.y as int / n_y as int >= 1) by (nonlinear_arith)
                requires
                    size.y as int >= n_y as int,
                    n_y as int >= 1,
            ;
        }
        GridPos {
            origin: rect.bottom_left,
            cell: Point { x: cell_x, y: cell_y },
            n_x,
            n_y,
        }
    }

    /// The cell that `pos` falls in, clamped to the grid's edge for
    /// positions outside the region.
    pub fn cell_for(&self, pos: &Point) -> (r: (u32, u32))
        requires
            self.wf(),
            coord_bounded(*pos),
        ensures
            (r.0 as int, r.1 as int) == self.spec_cell_for(*pos),
            r.0 < self.n_x,
            r.1 < self.n_y,
    {
        let dx = pos.x - self.origin.x;
        let dy = pos.y - self.origin.y;
        let qx = div_i64_trunc(dx, self.cell.x);
        let qy = div_i64_trunc(dy, self.cell.y);
        let cx: u32 = if qx < 0 {
            0
        } else if qx > (self.n_x - 1) as i64 {
            self.n_x - 1
        } else {
            qx as u32
        };
        let cy: u32 = if qy < 0 {
            0
        } else if qy > (self.n_y - 1) as i64 {
            self.n_y - 1
        } else {
            qy as u32
        };
        (cx, cy)
    }
}

} // verus!
