use vstd::multiset::Multiset;
use vstd::prelude::*;

use crate::logic::grid_pos::GridPos;
use crate::logic::seqs::{
    lemma_filter_multiset_count, lemma_filter_none, lemma_filter_push, lemma_swap_remove_multiset,
    lemma_take_all, lemma_take_step,
};
use crate::logic::vec2d::Vec2d;
use crate::math::point::{coord_bounded, Point, COORD_LIMIT};
use crate::math::rect::{lemma_collides_through_container, lemma_merge_is_union, Rect};

verus! {

broadcast use {
    vstd::seq_lib::group_to_multiset_ensures,
    vstd::multiset::group_multiset_axioms,
};

/// Capability of this grid's contents: each object exposes a center
/// position and a radius.
pub trait GridObject: Sized {
    /// The position, as contracts see it.
    spec fn spec_pos(&self) -> Point;

    /// The radius, as contracts see it.
    spec fn spec_radius(&self) -> i64;

    /// The object's current center position.
    fn pos(&self) -> (r: Point)
        ensures
            r == self.spec_pos(),
    ;

    /// The object's radius.
    fn radius(&self) -> (r: i64)
        ensures
            r == self.spec_radius(),
    ;
}

/// A minimal circular occupant: a center, a radius, and a liveness flag for
/// predicate-based removal.
#[derive(Debug, Clone, Copy, PartialEq, Eq, Structural)]
pub struct Particle {
    pub pos: Point,
    pub radius: i64,
    pub alive: bool,
}

impl GridObject for Particle {
    open spec fn spec_pos(&self) -> Point {
        self.pos
    }

    open spec fn spec_radius(&self) -> i64 {
        self.radius
    }

    fn pos(&self) -> (r: Point) {
        self.pos
    }

    fn radius(&self) -> (r: i64) {
        self.radius
    }
}

/// One bucket of the grid: the loose union box of its members, and the
/// members themselves, in no guaranteed order.
struct Quad<T> {
    object_bounds: Rect,
    objects: Vec<T>,
}

/// A mutable spatial index over a fixed region split into cells. Objects
/// are bucketed by the cell their center maps to; moving objects are
/// re-bucketed incrementally by `update`, which also refreshes each cell's
/// loose union box of member circles, the bound the queries prune with.
pub struct LooseGrid<T> {
    grid_pos: GridPos,
    grid: Vec2d<Quad<T>>,
}

impl<T: GridObject + Copy> LooseGrid<T> {
    /// An object the grid accepts: center and radius in the coordinate
    /// range, radius not negative.
    pub open spec fn item_ok(t: T) -> bool {
        coord_bounded(t.spec_pos()) && 0 <= t.spec_radius() <= COORD_LIMIT
    }

    /// The tight box around an object's circle.
    pub open spec fn item_box(t: T) -> Rect {
        Rect {
            bottom_left: Point {
                x: (t.spec_pos().x - t.spec_radius()) as i64,
                y: (t.spec_pos().y - t.spec_radius()) as i64,
            },
            top_right: Point {
                x: (t.spec_pos().x + t.spec_radius()) as i64,
                y: (t.spec_pos().y + t.spec_radius()) as i64,
            },
        }
    }

    /// The circle overlap test the queries apply to each member.
    pub open spec fn match_pred(rect: Rect) -> spec_fn(T) -> bool {
        |t: T|
            crate::math::collision::spec_collides_rect(
                crate::math::circle::Circle { pos: t.spec_pos(), radius: t.spec_radius() },
                rect,
            )
    }

    /// The cell an object belongs in: the cell its center maps to.
    pub open spec fn spec_home(gp: GridPos, t: T) -> (int, int) {
        gp.spec_cell_for(t.spec_pos())
    }

    /// The bucketing predicate: the object's home cell is `(x, y)`.
    pub open spec fn home_pred(gp: GridPos, x: int, y: int) -> spec_fn(T) -> bool {
        |t: T| Self::spec_home(gp, t) == (x, y)
    }

    /// The displacement predicate: the object no longer belongs in `(x, y)`.
    pub open spec fn stray_pred(gp: GridPos, x: int, y: int) -> spec_fn(T) -> bool {
        |t: T| Self::spec_home(gp, t) != (x, y)
    }

    /// The union of the circle boxes of a run of objects, folded left to
    /// right from the empty sentinel.
    pub open spec fn bounds_of(s: Seq<T>) -> Rect
        decreases s.len(),
    {
        if s.len() == 0 {
            Rect::spec_empty()
        } else {
            Rect::spec_merge(Self::bounds_of(s.drop_last()), Self::item_box(s.last()))
        }
    }

    /// The coordinate mapper the grid was built with.
    pub closed spec fn spec_grid_pos(&self) -> GridPos {
        self.grid_pos
    }

    /// The grid's extent on each axis.
    pub closed spec fn spec_shape(&self) -> (u32, u32) {
        (self.grid.spec_shape().0, self.grid.spec_shape().1)
    }

    /// `(x, y)` addresses a cell.
    pub open spec fn in_range(&self, x: int, y: int) -> bool {
        0 <= x < self.spec_shape().0 && 0 <= y < self.spec_shape().1
    }

    /// The members of cell `(x, y)`, in storage order.
    pub closed spec fn cell_objects(&self, x: int, y: int) -> Seq<T> {
        self.grid.cell(x, y).objects@
    }

    /// The loose union box of cell `(x, y)`.
    pub closed spec fn cell_bounds(&self, x: int, y: int) -> Rect {
        self.grid.cell(x, y).object_bounds
    }

    /// Structural well-formedness: the mapper and the cell array agree on
    /// the shape and every member is acceptable.
    pub closed spec fn wf(&self) -> bool {
        &&& self.grid_pos.wf()
        &&& self.grid.wf()
        &&& self.grid.spec_shape() == (self.grid_pos.n_x, self.grid_pos.n_y)
        &&& forall|x: int, y: int| self.in_range(x, y) ==> #[trigger] self.cell_items_ok(x, y)
    }

    /// Every member of cell `(x, y)` is acceptable.
    pub closed spec fn cell_items_ok(&self, x: int, y: int) -> bool {
        forall|i: int|
            0 <= i < self.cell_objects(x, y).len() ==> Self::item_ok(
                #[trigger] self.cell_objects(x, y)[i],
            )
    }

    /// Each cell's loose box contains every member's circle box, so a query
    /// may prune by the loose box. `update` establishes this; `add` breaks
    /// it until the next `update`, as the loose box is deliberately not
    /// recomputed on insertion.
    pub closed spec fn bounds_cover(&self) -> bool {
        forall|x: int, y: int|
            self.in_range(x, y) ==> #[trigger] self.cell_covered(x, y)
    }

    /// The loose box of cell `(x, y)` contains its members' circle boxes.
    pub closed spec fn cell_covered(&self, x: int, y: int) -> bool {
        forall|i: int|
            0 <= i < self.cell_objects(x, y).len() ==> Rect::spec_contains(
                self.cell_bounds(x, y),
                Self::item_box(#[trigger] self.cell_objects(x, y)[i]),
            )
    }

    /// An empty grid over `rect`, split into `n_x` by `n_y` cells.
    pub fn new(rect: &Rect, n_x: u32, n_y: u32) -> (r: LooseGrid<T>)
        requires
            rect.is_valid(),
            coord_bounded(rect.bottom_left),
            coord_bounded(rect.top_right),
            n_x >= 1,
            n_y >= 1,
            n_x * n_y <= u32::MAX,
            rect.top_right.x - rect.bottom_left.x >= n_x,
            rect.top_right.y - rect.bottom_left.y >= n_y,
        ensures
            r.wf(),
            r.bounds_cover(),
            r.spec_shape() == (n_x, n_y),
            r.spec_grid_pos() == GridPos::spec_new_from(*rect, n_x, n_y),
            forall|x: int, y: int|
                r.in_range(x, y) ==> #[trigger] r.cell_objects(x, y) == Seq::<T>::empty(),
            forall|x: int, y: int|
                r.in_range(x, y) ==> #[trigger] r.cell_bounds(x, y) == Rect::spec_empty(),
    {
        let grid_pos = GridPos::new(rect, n_x, n_y);
        let creator = |x: u32, y: u32| -> (q: Quad<T>)
            ensures
                q.object_bounds == Rect::spec_empty(),
                q.objects@ == Seq::<T>::empty(),
            {
                let q = Quad { object_bounds: Rect::new_empty(), objects: Vec::new() };
                proof {
                    assert(q.objects@ =~= Seq::<T>::empty());
                }
                q
            };
        let grid = Vec2d::new_with_creator(n_x, n_y, creator);
        LooseGrid { grid_pos, grid }
    }

    /// The members of the cells before flat position `k`, pooled as one
    /// multiset.
    pub closed spec fn objects_prefix(&self, k: int) -> Multiset<T>
        decreases k,
    {
        if k <= 0 {
            Multiset::empty()
        } else {
            self.objects_prefix(k - 1).add(self.grid@[k - 1].objects@.to_multiset())
        }
    }

    /// Every member of the grid, as one multiset.
    pub open spec fn spec_objects(&self) -> Multiset<T> {
        self.objects_prefix(self.spec_shape().0 * self.spec_shape().1)
    }

    /// The members of the cells before flat position `k` that no longer
    /// belong in the cell holding them.
    pub closed spec fn stray_prefix(&self, k: int) -> Multiset<T>
        decreases k,
    {
        if k <= 0 {
            Multiset::empty()
        } else {
            let n_y = self.spec_shape().1 as int;
            self.stray_prefix(k - 1).add(
                self.grid@[k - 1].objects@.filter(
                    Self::stray_pred(self.spec_grid_pos(), (k - 1) / n_y, (k - 1) % n_y),
                ).to_multiset(),
            )
        }
    }

    /// All members that sit in the wrong cell.
    pub open spec fn spec_strays(&self) -> Multiset<T> {
        self.stray_prefix(self.spec_shape().0 * self.spec_shape().1)
    }

    /// Scans every cell and removes each member whose current position maps
    /// to a different cell (by swap-removal, so member order within a cell
    /// is not preserved), handing the displaced members back for
    /// re-insertion. Cells keep exactly their correctly-homed members;
    /// loose boxes are untouched.
    pub fn moved_new_quads(&mut self) -> (r: Vec<T>)
        requires
            old(self).wf(),
        ensures
            final(self).wf(),
            final(self).spec_shape() == old(self).spec_shape(),
            final(self).spec_grid_pos() == old(self).spec_grid_pos(),
            forall|x: int, y: int|
                old(self).in_range(x, y) ==> #[trigger] final(self).cell_objects(x, y)
                    .to_multiset() == old(self).cell_objects(x, y).filter(
                    Self::home_pred(old(self).spec_grid_pos(), x, y),
                ).to_multiset(),
            forall|x: int, y: int, i: int|
                old(self).in_range(x, y) && 0 <= i < final(self).cell_objects(x, y).len()
                    ==> Self::spec_home(
                    old(self).spec_grid_pos(),
                    #[trigger] final(self).cell_objects(x, y)[i],
                ) == (x, y),
            forall|x: int, y: int|
                old(self).in_range(x, y) ==> #[trigger] final(self).cell_bounds(x, y) == old(
                    self,
                ).cell_bounds(x, y),
            r@.to_multiset() == old(self).spec_strays(),
            forall|i: int| 0 <= i < r@.len() ==> Self::item_ok(#[trigger] r@[i]),
    {
        let ghost gp = self.grid_pos;
        let mut result: Vec<T> = Vec::new();
        let (n_x, n_y) = self.grid.shape();
        proof {
            assert(result@.to_multiset() =~= Multiset::<T>::empty());
        }
        let mut x: u32 = 0;
        while x < n_x
            invariant
                self.wf(),
                old(self).wf(),
                self.spec_grid_pos() == gp,
                gp == old(self).spec_grid_pos(),
                self.spec_shape() == old(self).spec_shape(),
                (n_x, n_y) == self.spec_shape(),
                x <= n_x,
                forall|a: int, b: int|
                    self.in_range(a, b) && a < x ==> #[trigger] self.cell_objects(a, b)
                        .to_multiset() == old(self).cell_objects(a, b).filter(
                        Self::home_pred(gp, a, b),
                    ).to_multiset(),
                forall|a: int, b: int, i: int|
                    self.in_range(a, b) && a < x && 0 <= i < self.cell_objects(a, b).len()
                        ==> Self::spec_home(gp, #[trigger] self.cell_objects(a, b)[i]) == (a, b),
                forall|a: int, b: int|
                    self.in_range(a, b) && a >= x ==> #[trigger] self.cell_objects(a, b) == old(
                        self,
                    ).cell_objects(a, b),
                forall|a: int, b: int|
                    self.in_range(a, b) ==> #[trigger] self.cell_bounds(a, b) == old(
                        self,
                    ).cell_bounds(a, b),
                result@.to_multiset() == old(self).stray_prefix(x as int * n_y),
                forall|i: int| 0 <= i < result@.len() ==> Self::item_ok(#[trigger] result@[i]),
            decreases n_x - x,
        {
            let mut y: u32 = 0;
            while y < n_y
                invariant
                    self.wf(),
                    old(self).wf(),
                    self.spec_grid_pos() == gp,
                    gp == old(self).spec_grid_pos(),
                    self.spec_shape() == old(self).spec_shape(),
                    (n_x, n_y) == self.spec_shape(),
                    x < n_x,
                    y <= n_y,
                    forall|a: int, b: int|
                        self.in_range(a, b) && (a < x || (a == x && b < y))
                            ==> #[trigger] self.cell_objects(a, b).to_multiset() == old(
                            self,
                        ).cell_objects(a, b).filter(Self::home_pred(gp, a, b)).to_multiset(),
                    forall|a: int, b: int, i: int|
                        self.in_range(a, b) && (a < x || (a == x && b < y)) && 0 <= i
                            < self.cell_objects(a, b).len() ==> Self::spec_home(
                            gp,
                            #[trigger] self.cell_objects(a, b)[i],
                        ) == (a, b),
                    forall|a: int, b: int|
                        self.in_range(a, b) && (a > x || (a == x && b >= y))
                            ==> #[trigger] self.cell_objects(a, b) == old(self).cell_objects(
                            a,
                            b,
                        ),
                    forall|a: int, b: int|
                        self.in_range(a, b) ==> #[trigger] self.cell_bounds(a, b) == old(
                            self,
                        ).cell_bounds(a, b),
                    result@.to_multiset() == old(self).stray_prefix(x as int * n_y + y),
                    forall|i: int| 0 <= i < result@.len() ==> Self::item_ok(#[trigger] result@[i]),
                decreases n_y - y,
            {
                let ghost flat = x as int * n_y + y;
                let ghost start = result@.len() as int;
                let ghost saved = result@;
                let ghost entry_state = *self;
                let ghost entry_objs = self.cell_objects(x as int, y as int);
                let ghost entry_bounds = self.cell_bounds(x as int, y as int);
                let empty_quad = Quad { object_bounds: Rect::new_empty(), objects: Vec::new() };
                let mut q = self.grid.replace(x, y, empty_quad);
                let ghost orig = q.objects@;
                proof {
                    assert(entry_objs == old(self).cell_objects(x as int, y as int));
                    assert(orig == entry_objs);
                    assert(old(self).cell_items_ok(x as int, y as int));
                    assert(q.objects@.to_multiset().add(result@.skip(start).to_multiset())
                        =~= orig.to_multiset()) by {
                        assert(result@.skip(start) =~= Seq::<T>::empty());
                    }
                    assert forall|a: int, b: int| self.in_range(a, b) implies #[trigger] self
                        .cell_items_ok(a, b) by {
                        if a == x as int && b == y as int {
                            assert(self.cell_objects(a, b) == empty_quad.objects@);
                        } else {
                            assert(entry_state.cell_items_ok(a, b));
                            assert(self.cell_objects(a, b) == entry_state.cell_objects(a, b));
                        }
                    }
                }
                let mut i: usize = 0;
                while i < q.objects.len()
                    invariant
                        self.wf(),
                        old(self).wf(),
                        self.grid_pos == gp,
                        gp.wf(),
                        x < n_x,
                        y < n_y,
                        (n_x, n_y) == self.spec_shape(),
                        self.spec_shape() == old(self).spec_shape(),
                        i <= q.objects@.len(),
                        q.object_bounds == entry_bounds,
                        entry_bounds == old(self).cell_bounds(x as int, y as int),
                        orig == old(self).cell_objects(x as int, y as int),
                        old(self).cell_items_ok(x as int, y as int),
                        forall|j: int|
                            0 <= j < orig.len() ==> Self::item_ok(#[trigger] orig[j]),
                        forall|j: int|
                            0 <= j < i ==> Self::spec_home(gp, #[trigger] q.objects@[j]) == (
                                x as int,
                                y as int,
                            ),
                        forall|j: int|
                            0 <= j < q.objects@.len() ==> Self::item_ok(
                                #[trigger] q.objects@[j],
                            ),
                        result@.len() >= start >= 0,
                        result@.take(start) == saved,
                        forall|j: int|
                            start <= j < result@.len() ==> Self::spec_home(
                                gp,
                                #[trigger] result@[j],
                            ) != (x as int, y as int),
                        forall|j: int|
                            0 <= j < result@.len() ==> Self::item_ok(#[trigger] result@[j]),
                        q.objects@.to_multiset().add(result@.skip(start).to_multiset())
                            == orig.to_multiset(),
                    decreases q.objects@.len() - i,
                {
                    let p = q.objects[i].pos();
                    let home = self.grid_pos.cell_for(&p);
                    if home.0 != x || home.1 != y {
                        let ghost before = q.objects@;
                        let ghost before_res = result@;
                        let item = q.objects.swap_remove(i);
                        result.push(item);
                        proof {
                            lemma_swap_remove_multiset(before, i as int);
                            assert(result@.take(start) =~= before_res.take(start));
                            assert(result@.skip(start) =~= before_res.skip(start).push(item));
                            assert(q.objects@.to_multiset().add(result@.skip(start).to_multiset())
                                =~= orig.to_multiset());
                        }
                    } else {
                        i = i + 1;
                    }
                }
                self.grid.set(x, y, q);
                proof {
                    lemma_take_all(q.objects@);
                    let xi = x as int;
                    let yi = y as int;
                    let kept = self.cell_objects(xi, yi);
                    assert(kept == q.objects@);
                    let removed = result@.skip(start);
                    // a member of the removed run is never homed here, and a
                    // kept member always is
                    assert forall|t: T|
                        #[trigger] Self::spec_home(gp, t) == (xi, yi) implies removed
                        .to_multiset().count(t) == 0 by {
                        if removed.to_multiset().count(t) > 0 {
                            assert(removed.contains(t));
                            let j = choose|j: int| 0 <= j < removed.len() && removed[j] == t;
                            assert(result@[start + j] == t);
                            assert(false);
                        }
                    }
                    assert forall|t: T|
                        #[trigger] Self::spec_home(gp, t) != (xi, yi) implies kept
                        .to_multiset().count(t) == 0 by {
                        if kept.to_multiset().count(t) > 0 {
                            assert(kept.contains(t));
                            let j = choose|j: int| 0 <= j < kept.len() && kept[j] == t;
                            assert(Self::spec_home(gp, q.objects@[j]) == (xi, yi));
                            assert(false);
                        }
                    }
                    // the kept members are exactly the correctly-homed ones
                    assert(kept.to_multiset() =~= old(self).cell_objects(xi, yi).filter(
                        Self::home_pred(gp, xi, yi),
                    ).to_multiset()) by {
                        assert forall|t: T| #[trigger] kept.to_multiset().count(t) == old(
                            self,
                        ).cell_objects(xi, yi).filter(
                            Self::home_pred(gp, xi, yi),
                        ).to_multiset().count(t) by {
                            lemma_filter_multiset_count(orig, Self::home_pred(gp, xi, yi), t);
                        }
                    }
                    // the removed members are exactly the strays of this cell
                    assert(removed.to_multiset() =~= orig.filter(
                        Self::stray_pred(gp, xi, yi),
                    ).to_multiset()) by {
                        assert forall|t: T| #[trigger] removed.to_multiset().count(t) == orig
                            .filter(Self::stray_pred(gp, xi, yi)).to_multiset().count(t) by {
                            lemma_filter_multiset_count(orig, Self::stray_pred(gp, xi, yi), t);
                        }
                    }
                    // step the stray prefix forward by this cell
                    assert(flat >= 0) by (nonlinear_arith)
                        requires
                            flat == x as int * n_y + y,
                            x >= 0,
                            y >= 0,
                            n_y >= 0,
                    ;
                    vstd::arithmetic::div_mod::lemma_fundamental_div_mod_converse(
                        flat,
                        n_y as int,
                        xi,
                        yi,
                    );
                    old(self).grid.lemma_view_cell(xi, yi);
                    assert(old(self).grid@[flat].objects@ == orig);
                    assert(old(self).stray_prefix(flat + 1) == old(self).stray_prefix(flat).add(
                        old(self).grid@[flat].objects@.filter(
                            Self::stray_pred(gp, xi, yi),
                        ).to_multiset(),
                    ));
                    assert(saved + removed =~= result@);
                    assert(result@.to_multiset() == saved.to_multiset().add(
                        removed.to_multiset(),
                    )) by {
                        vstd::seq_lib::lemma_multiset_commutative(saved, removed);
                    }
                    // member flags for the rebuilt cell
                    assert forall|i2: int|
                        0 <= i2 < kept.len() implies Self::item_ok(#[trigger] kept[i2])
                            && Self::spec_home(gp, kept[i2]) == (xi, yi) by {
                        assert(kept[i2] == q.objects@[i2]);
                    }
                    assert forall|a: int, b: int| self.in_range(a, b) implies #[trigger] self
                        .cell_items_ok(a, b) by {
                        if !(a == xi && b == yi) {
                            assert(entry_state.cell_items_ok(a, b));
                            assert(self.cell_objects(a, b) == entry_state.cell_objects(a, b));
                        }
                    }
                    // carry the per-cell facts of this iteration forward
                    assert(self.cell_bounds(xi, yi) == entry_bounds);
                    assert forall|a: int, b: int| self.in_range(a, b) implies #[trigger] self
                        .cell_bounds(a, b) == old(self).cell_bounds(a, b) by {
                        if !(a == xi && b == yi) {
                            assert(self.cell_bounds(a, b) == entry_state.cell_bounds(a, b));
                        }
                    }
                    assert forall|a: int, b: int|
                        self.in_range(a, b) && !(a == xi && b == yi) implies #[trigger] self
                        .cell_objects(a, b) == entry_state.cell_objects(a, b) by {}
                    assert forall|a: int, b: int|
                        self.in_range(a, b) && (a < x as int || (a == x as int && b < y + 1))
                            implies #[trigger] self.cell_objects(a, b).to_multiset() == old(
                        self,
                    ).cell_objects(a, b).filter(Self::home_pred(gp, a, b)).to_multiset() by {
                        if !(a == xi && b == yi) {
                            assert(self.cell_objects(a, b) == entry_state.cell_objects(a, b));
                        }
                    }
                    assert forall|a: int, b: int, i2: int|
                        self.in_range(a, b) && (a < x as int || (a == x as int && b < y + 1)) && 0
                            <= i2 < self.cell_objects(a, b).len() implies Self::spec_home(
                        gp,
                        #[trigger] self.cell_objects(a, b)[i2],
                    ) == (a, b) by {
                        if !(a == xi && b == yi) {
                            assert(self.cell_objects(a, b) == entry_state.cell_objects(a, b));
                        } else {
                            assert(self.cell_objects(a, b)[i2] == kept[i2]);
                        }
                    }
                }
                y = y + 1;
            }
            proof {
                assert((x + 1) as int * n_y == x as int * n_y + n_y) by (nonlinear_arith);
            }
            x = x + 1;
        }
        result
    }

    /// Re-homes every displaced member, then recomputes every cell's loose
    /// union box from its current members. This must run once per tick,
    /// after positions have changed and before any query; queries would
    /// otherwise prune with stale boxes.
    pub fn update(&mut self)
        requires
            old(self).wf(),
        ensures
            final(self).wf(),
            final(self).bounds_cover(),
            final(self).spec_shape() == old(self).spec_shape(),
            final(self).spec_grid_pos() == old(self).spec_grid_pos(),
            forall|x: int, y: int, i: int|
                old(self).in_range(x, y) && 0 <= i < final(self).cell_objects(x, y).len()
                    ==> Self::spec_home(
                    old(self).spec_grid_pos(),
                    #[trigger] final(self).cell_objects(x, y)[i],
                ) == (x, y),
            forall|x: int, y: int, t: T|
                old(self).in_range(x, y) ==> #[trigger] final(self).cell_objects(
                    x,
                    y,
                ).to_multiset().count(t) == if Self::spec_home(old(self).spec_grid_pos(), t) == (
                    x,
                    y,
                ) {
                    old(self).spec_objects().count(t) as int
                } else {
                    0
                },
            forall|x: int, y: int|
                old(self).in_range(x, y) ==> #[trigger] final(self).cell_bounds(x, y)
                    == Self::bounds_of(final(self).cell_objects(x, y)),
    {
        let ghost gp = self.grid_pos;
        let strays = self.moved_new_quads();
        let ghost s1 = *self;
        proof {
            assert forall|x: int, y: int, t: T| self.in_range(x, y) implies #[trigger] self
                .cell_objects(x, y).to_multiset().count(t) == s1.cell_objects(
                x,
                y,
            ).to_multiset().count(t) + (if Self::spec_home(gp, t) == (x, y) {
                strays@.take(0).to_multiset().count(t) as int
            } else {
                0
            }) by {
                assert(strays@.take(0) =~= Seq::<T>::empty());
            }
        }
        let mut i: usize = 0;
        while i < strays.len()
            invariant
                self.wf(),
                s1.wf(),
                old(self).wf(),
                self.spec_grid_pos() == gp,
                s1.spec_grid_pos() == gp,
                gp == old(self).spec_grid_pos(),
                self.spec_shape() == old(self).spec_shape(),
                s1.spec_shape() == self.spec_shape(),
                i <= strays@.len(),
                forall|j: int| 0 <= j < strays@.len() ==> Self::item_ok(#[trigger] strays@[j]),
                strays@.to_multiset() == old(self).spec_strays(),
                forall|x: int, y: int|
                    self.in_range(x, y) ==> #[trigger] s1.cell_objects(x, y).to_multiset() == old(
                        self,
                    ).cell_objects(x, y).filter(Self::home_pred(gp, x, y)).to_multiset(),
                forall|x: int, y: int, t: T|
                    self.in_range(x, y) ==> #[trigger] self.cell_objects(x, y).to_multiset().count(
                        t,
                    ) == s1.cell_objects(x, y).to_multiset().count(t) + (if Self::spec_home(
                        gp,
                        t,
                    ) == (x, y) {
                        strays@.take(i as int).to_multiset().count(t) as int
                    } else {
                        0
                    }),
                forall|x: int, y: int, j: int|
                    self.in_range(x, y) && 0 <= j < s1.cell_objects(x, y).len()
                        ==> Self::spec_home(gp, #[trigger] s1.cell_objects(x, y)[j]) == (x, y),
                forall|x: int, y: int, j: int|
                    self.in_range(x, y) && 0 <= j < self.cell_objects(x, y).len()
                        ==> Self::spec_home(gp, #[trigger] self.cell_objects(x, y)[j]) == (x, y),
            decreases strays@.len() - i,
        {
            let ghost prev = *self;
            let item = strays[i];
            self.add(item);
            i = i + 1;
            proof {
                let (hx, hy) = Self::spec_home(gp, item);
                lemma_take_step(strays@, i - 1);
                assert forall|x: int, y: int, t: T| self.in_range(x, y) implies #[trigger] self
                    .cell_objects(x, y).to_multiset().count(t) == s1.cell_objects(
                    x,
                    y,
                ).to_multiset().count(t) + (if Self::spec_home(gp, t) == (x, y) {
                    strays@.take(i as int).to_multiset().count(t) as int
                } else {
                    0
                }) by {
                    if x == hx && y == hy {
                        assert(self.cell_objects(x, y) == prev.cell_objects(x, y).push(item));
                    } else {
                        assert(self.cell_objects(x, y) == prev.cell_objects(x, y));
                    }
                }
                assert forall|x: int, y: int, j: int|
                    self.in_range(x, y) && 0 <= j < self.cell_objects(x, y).len()
                        implies Self::spec_home(gp, #[trigger] self.cell_objects(x, y)[j]) == (
                    x,
                    y,
                ) by {
                    if x == hx && y == hy {
                        assert(self.cell_objects(x, y) == prev.cell_objects(x, y).push(item));
                        if j < self.cell_objects(x, y).len() - 1 {
                            assert(self.cell_objects(x, y)[j] == prev.cell_objects(x, y)[j]);
                        }
                    } else {
                        assert(self.cell_objects(x, y) == prev.cell_objects(x, y));
                    }
                }
            }
        }
        proof {
            lemma_take_all(strays@);
            let n: int = self.spec_shape().0 * self.spec_shape().1;
            assert(n >= 0) by (nonlinear_arith)
                requires
                    n == self.spec_shape().0 * self.spec_shape().1,
            ;
            assert forall|x: int, y: int, t: T| self.in_range(x, y) implies #[trigger] self
                .cell_objects(x, y).to_multiset().count(t) == (if Self::spec_home(gp, t) == (
                x,
                y,
            ) {
                old(self).spec_objects().count(t) as int
            } else {
                0
            }) by {
                let (hx, hy) = Self::spec_home(gp, t);
                old(self).lemma_home_in_range(t);
                assert(hx * self.spec_shape().1 + hy < n) by (nonlinear_arith)
                    requires
                        n == self.spec_shape().0 * self.spec_shape().1,
                        0 <= hx < self.spec_shape().0,
                        0 <= hy < self.spec_shape().1,
                ;
                old(self).lemma_stray_prefix_count(n, t);
                lemma_filter_multiset_count(
                    old(self).cell_objects(x, y),
                    Self::home_pred(gp, x, y),
                    t,
                );
                if Self::spec_home(gp, t) == (x, y) {
                    assert(s1.cell_objects(x, y).to_multiset() == old(self).cell_objects(
                        x,
                        y,
                    ).filter(Self::home_pred(gp, x, y)).to_multiset());
                } else {
                    assert(s1.cell_objects(x, y).to_multiset() == old(self).cell_objects(
                        x,
                        y,
                    ).filter(Self::home_pred(gp, x, y)).to_multiset());
                }
            }
        }
        // refresh every cell's loose box from its current members
        let ghost s2 = *self;
        let (n_x, n_y) = self.grid.shape();
        let mut x: u32 = 0;
        while x < n_x
            invariant
                self.wf(),
                s2.wf(),
                self.spec_grid_pos() == gp,
                s2.spec_grid_pos() == gp,
                self.spec_shape() == s2.spec_shape(),
                (n_x, n_y) == self.spec_shape(),
                x <= n_x,
                forall|a: int, b: int|
                    self.in_range(a, b) ==> #[trigger] self.cell_objects(a, b)
                        == s2.cell_objects(a, b),
                forall|a: int, b: int|
                    self.in_range(a, b) && a < x ==> #[trigger] self.cell_bounds(a, b)
                        == Self::bounds_of(self.cell_objects(a, b)),
            decreases n_x - x,
        {
            let mut y: u32 = 0;
            while y < n_y
                invariant
                    self.wf(),
                    s2.wf(),
                    self.spec_grid_pos() == gp,
                    s2.spec_grid_pos() == gp,
                    self.spec_shape() == s2.spec_shape(),
                    (n_x, n_y) == self.spec_shape(),
                    x < n_x,
                    y <= n_y,
                    forall|a: int, b: int|
                        self.in_range(a, b) ==> #[trigger] self.cell_objects(a, b)
                            == s2.cell_objects(a, b),
                    forall|a: int, b: int|
                        self.in_range(a, b) && (a < x || (a == x && b < y))
                            ==> #[trigger] self.cell_bounds(a, b) == Self::bounds_of(
                            self.cell_objects(a, b),
                        ),
                decreases n_y - y,
            {
                let ghost entry_state = *self;
                let quad = self.grid.get(x, y);
                let mut acc = Rect::new_empty();
                proof {
                    assert(quad.objects@.take(0) =~= Seq::<T>::empty());
                    assert(self.cell_items_ok(x as int, y as int));
                    assert(quad.objects@ == self.cell_objects(x as int, y as int));
                    assert forall|k: int|
                        0 <= k < quad.objects@.len() implies Self::item_ok(
                        #[trigger] quad.objects@[k],
                    ) by {
                        assert(quad.objects@[k] == self.cell_objects(x as int, y as int)[k]);
                    }
                }
                let mut j: usize = 0;
                while j < quad.objects.len()
                    invariant
                        j <= quad.objects@.len(),
                        forall|k: int|
                            0 <= k < quad.objects@.len() ==> Self::item_ok(
                                #[trigger] quad.objects@[k],
                            ),
                        acc == Self::bounds_of(quad.objects@.take(j as int)),
                    decreases quad.objects@.len() - j,
                {
                    let item = &quad.objects[j];
                    let p = item.pos();
                    let rad = item.radius();
                    let bx = Rect::new(
                        Point { x: p.x - rad, y: p.y - rad },
                        Point { x: p.x + rad, y: p.y + rad },
                    );
                    acc.merge(&bx);
                    proof {
                        lemma_take_step(quad.objects@, j as int);
                        Self::lemma_bounds_push(
                            quad.objects@.take(j as int),
                            quad.objects@[j as int],
                        );
                        assert(bx == Self::item_box(quad.objects@[j as int]));
                    }
                    j = j + 1;
                }
                proof {
                    lemma_take_all(quad.objects@);
                }
                let empty_quad = Quad { object_bounds: Rect::new_empty(), objects: Vec::new() };
                let mut q = self.grid.replace(x, y, empty_quad);
                q.object_bounds = acc;
                self.grid.set(x, y, q);
                proof {
                    let xi = x as int;
                    let yi = y as int;
                    assert(self.cell_objects(xi, yi) == entry_state.cell_objects(xi, yi));
                    assert(self.cell_bounds(xi, yi) == Self::bounds_of(
                        self.cell_objects(xi, yi),
                    ));
                    assert forall|a: int, b: int|
                        self.in_range(a, b) && !(a == xi && b == yi) implies #[trigger] self
                        .cell_objects(a, b) == entry_state.cell_objects(a, b)
                            && self.cell_bounds(a, b) == entry_state.cell_bounds(a, b) by {}
                    assert forall|a: int, b: int| self.in_range(a, b) implies #[trigger] self
                        .cell_items_ok(a, b) by {
                        assert(entry_state.cell_items_ok(a, b));
                        assert(self.cell_objects(a, b) == entry_state.cell_objects(a, b));
                    }
                }
                y = y + 1;
            }
            x = x + 1;
        }
        proof {
            assert forall|x: int, y: int| self.in_range(x, y) implies #[trigger] self.cell_covered(
                x,
                y,
            ) by {
                assert(self.cell_bounds(x, y) == Self::bounds_of(self.cell_objects(x, y)));
                assert forall|i2: int|
                    0 <= i2 < self.cell_objects(x, y).len() implies Rect::spec_contains(
                    self.cell_bounds(x, y),
                    Self::item_box(#[trigger] self.cell_objects(x, y)[i2]),
                ) by {
                    Self::lemma_bounds_of_covers(self.cell_objects(x, y), i2);
                }
            }
        }
    }

    /// Removes from every cell each member the predicate holds of,
    /// keeping the remaining members in order; loose boxes are untouched.
    /// A run of flags per cell witnesses, member by member, what the
    /// predicate answered: a member is kept exactly when it answered false.
    pub fn remove_if<F: Fn(&T) -> bool>(&mut self, predicate: F)
        requires
            old(self).wf(),
            forall|t: &T| #[trigger] call_requires(predicate, (t,)),
        ensures
            final(self).wf(),
            final(self).spec_shape() == old(self).spec_shape(),
            final(self).spec_grid_pos() == old(self).spec_grid_pos(),
            forall|x: int, y: int|
                old(self).in_range(x, y) ==> #[trigger] final(self).cell_bounds(x, y) == old(
                    self,
                ).cell_bounds(x, y),
            exists|keeps: Map<(int, int), Seq<bool>>|
                #[trigger] Self::removal_witnessed(*old(self), *final(self), predicate, keeps),
    {
        let ghost mut keeps: Map<(int, int), Seq<bool>> = Map::empty();
        let (n_x, n_y) = self.grid.shape();
        let mut x: u32 = 0;
        while x < n_x
            invariant
                self.wf(),
                old(self).wf(),
                self.spec_grid_pos() == old(self).spec_grid_pos(),
                self.spec_shape() == old(self).spec_shape(),
                (n_x, n_y) == self.spec_shape(),
                x <= n_x,
                forall|t: &T| #[trigger] call_requires(predicate, (t,)),
                forall|a: int, b: int|
                    self.in_range(a, b) ==> #[trigger] self.cell_bounds(a, b) == old(
                        self,
                    ).cell_bounds(a, b),
                forall|a: int, b: int|
                    self.in_range(a, b) && a >= x ==> #[trigger] self.cell_objects(a, b) == old(
                        self,
                    ).cell_objects(a, b),
                forall|a: int, b: int|
                    self.in_range(a, b) && a < x ==> #[trigger] Self::cell_witnessed(
                        *old(self),
                        *self,
                        predicate,
                        keeps,
                        a,
                        b,
                    ),
            decreases n_x - x,
        {
            let mut y: u32 = 0;
            while y < n_y
                invariant
                    self.wf(),
                    old(self).wf(),
                    self.spec_grid_pos() == old(self).spec_grid_pos(),
                    self.spec_shape() == old(self).spec_shape(),
                    (n_x, n_y) == self.spec_shape(),
                    x < n_x,
                    y <= n_y,
                    forall|t: &T| #[trigger] call_requires(predicate, (t,)),
                    forall|a: int, b: int|
                        self.in_range(a, b) ==> #[trigger] self.cell_bounds(a, b) == old(
                            self,
                        ).cell_bounds(a, b),
                    forall|a: int, b: int|
                        self.in_range(a, b) && (a > x || (a == x && b >= y))
                            ==> #[trigger] self.cell_objects(a, b) == old(self).cell_objects(
                            a,
                            b,
                        ),
                    forall|a: int, b: int|
                        self.in_range(a, b) && (a < x || (a == x && b < y))
                            ==> #[trigger] Self::cell_witnessed(
                            *old(self),
                            *self,
                            predicate,
                            keeps,
                            a,
                            b,
                        ),
                decreases n_y - y,
            {
                let ghost entry_state = *self;
                let ghost entry_keeps = keeps;
                let empty_quad = Quad { object_bounds: Rect::new_empty(), objects: Vec::new() };
                let mut q = self.grid.replace(x, y, empty_quad);
                let ghost orig = q.objects@;
                let mut retained: Vec<T> = Vec::new();
                let ghost mut keep: Seq<bool> = Seq::empty();
                proof {
                    assert(orig == entry_state.cell_objects(x as int, y as int));
                    assert(orig == old(self).cell_objects(x as int, y as int));
                    assert(old(self).cell_items_ok(x as int, y as int));
                    assert(orig.take(0) =~= Seq::<T>::empty());
                    assert(retained@ =~= Seq::<T>::empty());
                }
                let mut j: usize = 0;
                while j < q.objects.len()
                    invariant
                        j <= q.objects@.len(),
                        q.objects@ == orig,
                        q.object_bounds == entry_state.cell_bounds(x as int, y as int),
                        orig == old(self).cell_objects(x as int, y as int),
                        old(self).cell_items_ok(x as int, y as int),
                        forall|t: &T| #[trigger] call_requires(predicate, (t,)),
                        keep.len() == j,
                        retained@ == crate::logic::seqs::mask_filter(orig.take(j as int), keep),
                        forall|i: int|
                            0 <= i < keep.len() ==> call_ensures(
                                predicate,
                                (&orig[i],),
                                !(#[trigger] keep[i]),
                            ),
                        forall|i: int|
                            0 <= i < retained@.len() ==> Self::item_ok(#[trigger] retained@[i]),
                    decreases q.objects@.len() - j,
                {
                    let item = &q.objects[j];
                    let verdict = predicate(item);
                    proof {
                        lemma_take_step(orig, j as int);
                        crate::logic::seqs::lemma_mask_filter_push(
                            orig.take(j as int),
                            keep,
                            orig[j as int],
                            !verdict,
                        );
                        assert(Self::item_ok(orig[j as int]));
                    }
                    if !verdict {
                        retained.push(*item);
                    }
                    proof {
                        keep = keep.push(!verdict);
                    }
                    j = j + 1;
                }
                proof {
                    lemma_take_all(orig);
                }
                q.objects = retained;
                self.grid.set(x, y, q);
                proof {
                    let xi = x as int;
                    let yi = y as int;
                    keeps = keeps.insert((xi, yi), keep);
                    assert forall|a: int, b: int|
                        self.in_range(a, b) && !(a == xi && b == yi) implies #[trigger] self
                        .cell_objects(a, b) == entry_state.cell_objects(a, b) && self.cell_bounds(
                        a,
                        b,
                    ) == entry_state.cell_bounds(a, b) by {}
                    assert(self.cell_bounds(xi, yi) == entry_state.cell_bounds(xi, yi));
                    assert forall|a: int, b: int| self.in_range(a, b) implies #[trigger] self
                        .cell_bounds(a, b) == old(self).cell_bounds(a, b) by {
                        if !(a == xi && b == yi) {
                            assert(self.cell_bounds(a, b) == entry_state.cell_bounds(a, b));
                        }
                    }
                    assert(Self::cell_witnessed(*old(self), *self, predicate, keeps, xi, yi));
                    assert forall|a: int, b: int|
                        self.in_range(a, b) && (a < x as int || (a == x as int && b < y + 1))
                            implies #[trigger] Self::cell_witnessed(
                        *old(self),
                        *self,
                        predicate,
                        keeps,
                        a,
                        b,
                    ) by {
                        if !(a == xi && b == yi) {
                            assert(Self::cell_witnessed(
                                *old(self),
                                entry_state,
                                predicate,
                                entry_keeps,
                                a,
                                b,
                            ));
                            assert(keeps[(a, b)] == entry_keeps[(a, b)]);
                            assert(self.cell_objects(a, b) == entry_state.cell_objects(a, b));
                        }
                    }
                    assert forall|a: int, b: int| self.in_range(a, b) implies #[trigger] self
                        .cell_items_ok(a, b) by {
                        if a == xi && b == yi {
                            assert(self.cell_objects(a, b) == retained@);
                        } else {
                            assert(entry_state.cell_items_ok(a, b));
                            assert(self.cell_objects(a, b) == entry_state.cell_objects(a, b));
                        }
                    }
                }
                y = y + 1;
            }
            x = x + 1;
        }
        proof {
            assert(Self::removal_witnessed(*old(self), *self, predicate, keeps));
        }
    }

    /// The flag run `keeps[(x, y)]` records, member by member, what the
    /// predicate answered in cell `(x, y)`: the cell kept exactly the
    /// members whose flag is set, in order.
    pub open spec fn cell_witnessed<F: Fn(&T) -> bool>(
        before: Self,
        after: Self,
        predicate: F,
        keeps: Map<(int, int), Seq<bool>>,
        x: int,
        y: int,
    ) -> bool {
        let orig = before.cell_objects(x, y);
        let keep = keeps[(x, y)];
        &&& keep.len() == orig.len()
        &&& after.cell_objects(x, y) == crate::logic::seqs::mask_filter(orig, keep)
        &&& forall|i: int|
            0 <= i < keep.len() ==> call_ensures(predicate, (&orig[i],), !(#[trigger] keep[i]))
    }

    /// Every cell's removal is witnessed by its flag run.
    pub open spec fn removal_witnessed<F: Fn(&T) -> bool>(
        before: Self,
        after: Self,
        predicate: F,
        keeps: Map<(int, int), Seq<bool>>,
    ) -> bool {
        forall|x: int, y: int|
            before.in_range(x, y) ==> #[trigger] Self::cell_witnessed(
                before,
                after,
                predicate,
                keeps,
                x,
                y,
            )
    }

    /// The matching members of the cells before flat position `k`, cell by
    /// cell in storage order.
    pub closed spec fn query_prefix(&self, rect: Rect, k: int) -> Seq<T>
        decreases k,
    {
        if k <= 0 {
            Seq::empty()
        } else {
            self.query_prefix(rect, k - 1) + self.grid@[k - 1].objects@.filter(
                Self::match_pred(rect),
            )
        }
    }

    /// Every member whose circle overlaps `rect`, cell by cell in storage
    /// order, within each cell in storage order.
    pub open spec fn spec_query(&self, rect: Rect) -> Seq<T> {
        self.query_prefix(rect, self.spec_shape().0 * self.spec_shape().1)
    }

    /// Collects every member whose circle overlaps `rect`, skipping in one
    /// comparison each cell whose loose box already misses `rect`. The
    /// loose boxes must be fresh: run `update` after any movement first.
    pub fn for_objects(&self, rect: &Rect) -> (r: Vec<T>)
        requires
            self.wf(),
            self.bounds_cover(),
            rect.is_valid(),
            coord_bounded(rect.bottom_left),
            coord_bounded(rect.top_right),
        ensures
            r@ == self.spec_query(*rect),
    {
        let mut result: Vec<T> = Vec::new();
        let (n_x, n_y) = self.grid.shape();
        proof {
            assert(result@ =~= Seq::<T>::empty());
        }
        let mut x: u32 = 0;
        while x < n_x
            invariant
                self.wf(),
                self.bounds_cover(),
                rect.is_valid(),
                coord_bounded(rect.bottom_left),
                coord_bounded(rect.top_right),
                (n_x, n_y) == self.spec_shape(),
                x <= n_x,
                result@ == self.query_prefix(*rect, x as int * n_y),
            decreases n_x - x,
        {
            let mut y: u32 = 0;
            while y < n_y
                invariant
                    self.wf(),
                    self.bounds_cover(),
                    rect.is_valid(),
                    coord_bounded(rect.bottom_left),
                    coord_bounded(rect.top_right),
                    (n_x, n_y) == self.spec_shape(),
                    x < n_x,
                    y <= n_y,
                    result@ == self.query_prefix(*rect, x as int * n_y + y),
                decreases n_y - y,
            {
                proof {
                    self.grid.lemma_view_cell(x as int, y as int);
                    assert(self.cell_items_ok(x as int, y as int));
                    assert(self.cell_covered(x as int, y as int));
                }
                let ghost flat = x as int * n_y + y;
                let quad = self.grid.get(x, y);
                if rect.collides(&quad.object_bounds) {
                    let mut j: usize = 0;
                    while j < quad.objects.len()
                        invariant
                            self.wf(),
                            rect.is_valid(),
                            coord_bounded(rect.bottom_left),
                            coord_bounded(rect.top_right),
                            (n_x, n_y) == self.spec_shape(),
                            x < n_x,
                            y < n_y,
                            j <= quad.objects@.len(),
                            *quad == self.grid.cell(x as int, y as int),
                            self.cell_items_ok(x as int, y as int),
                            result@ == self.query_prefix(*rect, x as int * n_y + y)
                                + quad.objects@.take(j as int).filter(Self::match_pred(*rect)),
                        decreases quad.objects@.len() - j,
                    {
                        proof {
                            assert(quad.objects@[j as int] == self.cell_objects(
                                x as int,
                                y as int,
                            )[j as int]);
                            lemma_take_step(quad.objects@, j as int);
                            lemma_filter_push(
                                quad.objects@.take(j as int),
                                quad.objects@[j as int],
                                Self::match_pred(*rect),
                            );
                        }
                        let item = &quad.objects[j];
                        let circle = crate::math::circle::Circle::new_from_pos(
                            item.pos(),
                            item.radius(),
                        );
                        if crate::math::collision::collides_rect(&circle, rect) {
                            result.push(*item);
                        }
                        j = j + 1;
                    }
                    proof {
                        lemma_take_all(quad.objects@);
                    }
                } else {
                    proof {
                        assert forall|k: int|
                            0 <= k < quad.objects@.len() implies !(Self::match_pred(*rect)(
                            #[trigger] quad.objects@[k],
                        )) by {
                            let t = quad.objects@[k];
                            assert(t == self.cell_objects(x as int, y as int)[k]);
                            assert(Rect::spec_contains(
                                self.cell_bounds(x as int, y as int),
                                Self::item_box(t),
                            ));
                            assert(Self::item_ok(t));
                            if Self::match_pred(*rect)(t) {
                                crate::math::collision::lemma_collides_rect_within_box(
                                    crate::math::circle::Circle {
                                        pos: t.spec_pos(),
                                        radius: t.spec_radius(),
                                    },
                                    *rect,
                                );
                                lemma_collides_through_container(
                                    quad.object_bounds,
                                    Self::item_box(t),
                                    *rect,
                                );
                            }
                        }
                        lemma_filter_none(quad.objects@, Self::match_pred(*rect));
                        assert(result@ + Seq::<T>::empty() =~= result@);
                    }
                }
                proof {
                    assert(self.query_prefix(*rect, flat + 1) == self.query_prefix(*rect, flat)
                        + self.grid@[flat].objects@.filter(Self::match_pred(*rect)));
                }
                y = y + 1;
            }
            proof {
                assert((x + 1) as int * n_y == x as int * n_y + n_y) by (nonlinear_arith);
            }
            x = x + 1;
        }
        result
    }

    /// Rewrites, in place, every member whose circle overlaps `rect` with
    /// `func` of it, skipping in one comparison each cell whose loose box
    /// misses `rect`; the loose boxes themselves are untouched. The final
    /// two clauses say when the grid stays usable: it stays well-formed
    /// when `func` yields acceptable objects, and the loose boxes stay
    /// covering when `func` also preserves each member's circle box.
    pub fn for_objects_mut<F: Fn(&T) -> T>(&mut self, rect: &Rect, func: F)
        requires
            old(self).wf(),
            old(self).bounds_cover(),
            rect.is_valid(),
            coord_bounded(rect.bottom_left),
            coord_bounded(rect.top_right),
            forall|t: &T| #[trigger] call_requires(func, (t,)),
        ensures
            final(self).spec_shape() == old(self).spec_shape(),
            final(self).spec_grid_pos() == old(self).spec_grid_pos(),
            forall|x: int, y: int|
                old(self).in_range(x, y) ==> #[trigger] final(self).cell_bounds(x, y) == old(
                    self,
                ).cell_bounds(x, y),
            forall|x: int, y: int|
                old(self).in_range(x, y) ==> #[trigger] final(self).cell_objects(x, y).len()
                    == old(self).cell_objects(x, y).len(),
            forall|x: int, y: int, k: int|
                old(self).in_range(x, y) && 0 <= k < old(self).cell_objects(x, y).len() ==> (
                if Self::match_pred(*rect)(old(self).cell_objects(x, y)[k]) {
                    call_ensures(
                        func,
                        (&old(self).cell_objects(x, y)[k],),
                        #[trigger] final(self).cell_objects(x, y)[k],
                    )
                } else {
                    final(self).cell_objects(x, y)[k] == old(self).cell_objects(x, y)[k]
                }),
            (forall|t: &T, r: T| #[trigger] call_ensures(func, (t,), r) ==> Self::item_ok(r))
                ==> final(self).wf(),
            ((forall|t: &T, r: T| #[trigger] call_ensures(func, (t,), r) ==> Self::item_ok(r))
                && (forall|t: &T, r: T|
                #[trigger] call_ensures(func, (t,), r) ==> Self::item_box(r) == Self::item_box(
                    *t,
                ))) ==> final(self).bounds_cover(),
    {
        let (n_x, n_y) = self.grid.shape();
        let mut x: u32 = 0;
        while x < n_x
            invariant
                self.grid_pos == old(self).grid_pos,
                self.grid.wf(),
                old(self).wf(),
                old(self).bounds_cover(),
                rect.is_valid(),
                coord_bounded(rect.bottom_left),
                coord_bounded(rect.top_right),
                self.grid.spec_shape() == old(self).grid.spec_shape(),
                (n_x, n_y) == self.spec_shape(),
                x <= n_x,
                forall|t: &T| #[trigger] call_requires(func, (t,)),
                forall|a: int, b: int|
                    self.in_range(a, b) ==> #[trigger] self.cell_bounds(a, b) == old(
                        self,
                    ).cell_bounds(a, b),
                forall|a: int, b: int|
                    self.in_range(a, b) && a >= x ==> #[trigger] self.cell_objects(a, b) == old(
                        self,
                    ).cell_objects(a, b),
                forall|a: int, b: int|
                    self.in_range(a, b) ==> #[trigger] self.cell_objects(a, b).len() == old(
                        self,
                    ).cell_objects(a, b).len(),
                forall|a: int, b: int, k: int|
                    self.in_range(a, b) && a < x && 0 <= k < old(self).cell_objects(a, b).len()
                        ==> (if Self::match_pred(*rect)(old(self).cell_objects(a, b)[k]) {
                        call_ensures(
                            func,
                            (&old(self).cell_objects(a, b)[k],),
                            #[trigger] self.cell_objects(a, b)[k],
                        )
                    } else {
                        self.cell_objects(a, b)[k] == old(self).cell_objects(a, b)[k]
                    }),
            decreases n_x - x,
        {
            let mut y: u32 = 0;
            while y < n_y
                invariant
                    self.grid_pos == old(self).grid_pos,
                    self.grid.wf(),
                    old(self).wf(),
                    old(self).bounds_cover(),
                    rect.is_valid(),
                    coord_bounded(rect.bottom_left),
                    coord_bounded(rect.top_right),
                    self.grid.spec_shape() == old(self).grid.spec_shape(),
                    (n_x, n_y) == self.spec_shape(),
                    x < n_x,
                    y <= n_y,
                    forall|t: &T| #[trigger] call_requires(func, (t,)),
                    forall|a: int, b: int|
                        self.in_range(a, b) ==> #[trigger] self.cell_bounds(a, b) == old(
                            self,
                        ).cell_bounds(a, b),
                    forall|a: int, b: int|
                        self.in_range(a, b) && (a > x || (a == x && b >= y))
                            ==> #[trigger] self.cell_objects(a, b) == old(self).cell_objects(
                            a,
                            b,
                        ),
                    forall|a: int, b: int|
                        self.in_range(a, b) ==> #[trigger] self.cell_objects(a, b).len() == old(
                            self,
                        ).cell_objects(a, b).len(),
                    forall|a: int, b: int, k: int|
                        self.in_range(a, b) && (a < x || (a == x && b < y)) && 0 <= k < old(
                            self,
                        ).cell_objects(a, b).len() ==> (if Self::match_pred(*rect)(
                            old(self).cell_objects(a, b)[k],
                        ) {
                            call_ensures(
                                func,
                                (&old(self).cell_objects(a, b)[k],),
                                #[trigger] self.cell_objects(a, b)[k],
                            )
                        } else {
                            self.cell_objects(a, b)[k] == old(self).cell_objects(a, b)[k]
                        }),
                decreases n_y - y,
            {
                let ghost entry_state = *self;
                let ghost xi = x as int;
                let ghost yi = y as int;
                let visit = rect.collides(&self.grid.get(x, y).object_bounds);
                proof {
                    assert(visit == Rect::spec_collides(*rect, entry_state.cell_bounds(xi, yi)));
                    assert(entry_state.cell_bounds(xi, yi) == old(self).cell_bounds(xi, yi));
                }
                if visit {
                    let empty_quad = Quad {
                        object_bounds: Rect::new_empty(),
                        objects: Vec::new(),
                    };
                    let mut q = self.grid.replace(x, y, empty_quad);
                    let ghost orig = q.objects@;
                    proof {
                        assert(orig == entry_state.cell_objects(xi, yi));
                        assert(orig == old(self).cell_objects(xi, yi));
                        assert(old(self).cell_items_ok(xi, yi));
                    }
                    let mut j: usize = 0;
                    while j < q.objects.len()
                        invariant
                            j <= q.objects@.len(),
                            q.objects@.len() == orig.len(),
                            q.object_bounds == entry_state.cell_bounds(xi, yi),
                            orig == old(self).cell_objects(xi, yi),
                            old(self).cell_items_ok(xi, yi),
                            rect.is_valid(),
                            coord_bounded(rect.bottom_left),
                            coord_bounded(rect.top_right),
                            forall|t: &T| #[trigger] call_requires(func, (t,)),
                            forall|k: int| j <= k < orig.len() ==> q.objects@[k] == orig[k],
                            forall|k: int|
                                0 <= k < j ==> (if Self::match_pred(*rect)(orig[k]) {
                                    call_ensures(
                                        func,
                                        (&orig[k],),
                                        #[trigger] q.objects@[k],
                                    )
                                } else {
                                    q.objects@[k] == orig[k]
                                }),
                        decreases q.objects@.len() - j,
                    {
                        proof {
                            assert(Self::item_ok(orig[j as int]));
                        }
                        let circle = crate::math::circle::Circle::new_from_pos(
                            q.objects[j].pos(),
                            q.objects[j].radius(),
                        );
                        if crate::math::collision::collides_rect(&circle, rect) {
                            let updated = func(&q.objects[j]);
                            q.objects.set(j, updated);
                        }
                        j = j + 1;
                    }
                    self.grid.set(x, y, q);
                    proof {
                        assert(self.cell_bounds(xi, yi) == entry_state.cell_bounds(xi, yi));
                        assert(self.cell_objects(xi, yi) == q.objects@);
                    }
                } else {
                    proof {
                        assert(self.cell_objects(xi, yi) == old(self).cell_objects(xi, yi));
                        assert forall|k: int|
                            0 <= k < old(self).cell_objects(xi, yi).len() implies !(
                        Self::match_pred(*rect)(
                            #[trigger] old(self).cell_objects(xi, yi)[k],
                        )) by {
                            let t = old(self).cell_objects(xi, yi)[k];
                            assert(old(self).cell_covered(xi, yi));
                            assert(old(self).cell_items_ok(xi, yi));
                            assert(Rect::spec_contains(
                                old(self).cell_bounds(xi, yi),
                                Self::item_box(t),
                            ));
                            assert(Self::item_ok(t));
                            if Self::match_pred(*rect)(t) {
                                crate::math::collision::lemma_collides_rect_within_box(
                                    crate::math::circle::Circle {
                                        pos: t.spec_pos(),
                                        radius: t.spec_radius(),
                                    },
                                    *rect,
                                );
                                lemma_collides_through_container(
                                    old(self).cell_bounds(xi, yi),
                                    Self::item_box(t),
                                    *rect,
                                );
                            }
                        }
                    }
                }
                proof {
                    assert forall|a: int, b: int|
                        self.in_range(a, b) && !(a == xi && b == yi) implies #[trigger] self
                        .cell_objects(a, b) == entry_state.cell_objects(a, b) && self.cell_bounds(
                        a,
                        b,
                    ) == entry_state.cell_bounds(a, b) by {}
                    assert forall|a: int, b: int| self.in_range(a, b) implies #[trigger] self
                        .cell_bounds(a, b) == old(self).cell_bounds(a, b) by {
                        if !(a == xi && b == yi) {
                            assert(self.cell_bounds(a, b) == entry_state.cell_bounds(a, b));
                        }
                    }
                }
                y = y + 1;
            }
            x = x + 1;
        }
        proof {
            if forall|t: &T, r: T| #[trigger] call_ensures(func, (t,), r) ==> Self::item_ok(r) {
                assert forall|a: int, b: int| self.in_range(a, b) implies #[trigger] self
                    .cell_items_ok(a, b) by {
                    assert(old(self).cell_items_ok(a, b));
                    assert forall|k: int|
                        0 <= k < self.cell_objects(a, b).len() implies Self::item_ok(
                        #[trigger] self.cell_objects(a, b)[k],
                    ) by {
                        let old_t = old(self).cell_objects(a, b)[k];
                        assert(Self::item_ok(old_t));
                        if Self::match_pred(*rect)(old_t) {
                            assert(call_ensures(
                                func,
                                (&old(self).cell_objects(a, b)[k],),
                                self.cell_objects(a, b)[k],
                            ));
                        }
                    }
                }
                assert(self.wf());
                if forall|t: &T, r: T|
                    #[trigger] call_ensures(func, (t,), r) ==> Self::item_box(r)
                        == Self::item_box(*t) {
                    assert forall|a: int, b: int| self.in_range(a, b) implies #[trigger] self
                        .cell_covered(a, b) by {
                        assert(old(self).cell_covered(a, b));
                        assert forall|k: int|
                            0 <= k < self.cell_objects(a, b).len() implies Rect::spec_contains(
                            self.cell_bounds(a, b),
                            Self::item_box(#[trigger] self.cell_objects(a, b)[k]),
                        ) by {
                            let old_t = old(self).cell_objects(a, b)[k];
                            assert(Rect::spec_contains(
                                old(self).cell_bounds(a, b),
                                Self::item_box(old_t),
                            ));
                            if Self::match_pred(*rect)(old_t) {
                                assert(call_ensures(
                                    func,
                                    (&old(self).cell_objects(a, b)[k],),
                                    self.cell_objects(a, b)[k],
                                ));
                                assert(Self::item_box(self.cell_objects(a, b)[k])
                                    == Self::item_box(old_t));
                            }
                        }
                    }
                    assert(self.bounds_cover());
                }
            }
        }
    }

    /// The home cell of any object lies within the grid.
    proof fn lemma_home_in_range(&self, t: T)
        requires
            self.grid_pos.wf(),
            self.grid.spec_shape() == (self.grid_pos.n_x, self.grid_pos.n_y),
        ensures
            ({
                let (hx, hy) = Self::spec_home(self.spec_grid_pos(), t);
                0 <= hx < self.spec_shape().0 && 0 <= hy < self.spec_shape().1
            }),
    {
    }

    /// Within the first `k` cells, the strays of `t` are all of `t`'s
    /// occurrences except those sitting in `t`'s home cell.
    proof fn lemma_stray_prefix_count(&self, k: int, t: T)
        requires
            self.wf(),
            0 <= k <= self.spec_shape().0 * self.spec_shape().1,
        ensures
            ({
                let (hx, hy) = Self::spec_home(self.spec_grid_pos(), t);
                let n_y = self.spec_shape().1 as int;
                let hflat = hx * n_y + hy;
                self.stray_prefix(k).count(t) == self.objects_prefix(k).count(t) - (
                if hflat < k {
                    self.cell_objects(hx, hy).to_multiset().count(t) as int
                } else {
                    0
                })
            }),
        decreases k,
    {
        let gp = self.spec_grid_pos();
        let (hx, hy) = Self::spec_home(gp, t);
        let n_y = self.spec_shape().1 as int;
        let hflat = hx * n_y + hy;
        self.lemma_home_in_range(t);
        assert(hflat >= 0 && hy < n_y) by (nonlinear_arith)
            requires
                hflat == hx * n_y + hy,
                0 <= hx,
                0 <= hy < n_y,
        ;
        if k <= 0 {
            assert(self.stray_prefix(k).count(t) == 0);
            assert(self.objects_prefix(k).count(t) == 0);
        } else {
            self.lemma_stray_prefix_count(k - 1, t);
            let c = k - 1;
            vstd::arithmetic::div_mod::lemma_fundamental_div_mod(c, n_y);
            vstd::arithmetic::div_mod::lemma_mod_bound(c, n_y);
            let cx = c / n_y;
            let cy = c % n_y;
            vstd::arithmetic::div_mod::lemma_div_pos_is_pos(c, n_y);
            assert(cx < self.spec_shape().0) by (nonlinear_arith)
                requires
                    n_y * cx + cy == c,
                    0 <= cy,
                    c < self.spec_shape().0 * n_y,
                    n_y > 0,
                    cx >= 0,
            ;
            self.grid.lemma_view_cell(cx, cy);
            assert(self.grid@[c].objects@ == self.cell_objects(cx, cy)) by {
                assert(cx * n_y + cy == c) by (nonlinear_arith)
                    requires
                        n_y * cx + cy == c,
                ;
            }
            lemma_filter_multiset_count(self.grid@[c].objects@, Self::stray_pred(gp, cx, cy), t);
            if hx == cx && hy == cy {
                assert(hflat == c) by (nonlinear_arith)
                    requires
                        hflat == hx * n_y + hy,
                        n_y * cx + cy == c,
                        hx == cx,
                        hy == cy,
                ;
            } else {
                assert(hflat != c) by {
                    if hflat == c {
                        vstd::arithmetic::div_mod::lemma_fundamental_div_mod_converse(
                            c,
                            n_y,
                            hx,
                            hy,
                        );
                    }
                }
            }
        }
    }

    /// When `t` occurs only in cell `(hx, hy)`, the pooled count of `t` is
    /// that one cell's count.
    proof fn lemma_objects_prefix_single(&self, k: int, t: T, hx: int, hy: int)
        requires
            self.wf(),
            0 <= k <= self.spec_shape().0 * self.spec_shape().1,
            self.in_range(hx, hy),
            forall|a: int, b: int|
                self.in_range(a, b) && !(a == hx && b == hy)
                    ==> #[trigger] self.cell_objects(a, b).to_multiset().count(t) == 0,
        ensures
            self.objects_prefix(k).count(t) == if hx * self.spec_shape().1 + hy < k {
                self.cell_objects(hx, hy).to_multiset().count(t) as int
            } else {
                0
            },
        decreases k,
    {
        let n_y = self.spec_shape().1 as int;
        let hflat = hx * n_y + hy;
        assert(hflat >= 0) by (nonlinear_arith)
            requires
                hflat == hx * n_y + hy,
                0 <= hx,
                0 <= hy,
                n_y >= 0,
        ;
        if k <= 0 {
        } else {
            self.lemma_objects_prefix_single(k - 1, t, hx, hy);
            let c = k - 1;
            vstd::arithmetic::div_mod::lemma_fundamental_div_mod(c, n_y);
            vstd::arithmetic::div_mod::lemma_mod_bound(c, n_y);
            let cx = c / n_y;
            let cy = c % n_y;
            vstd::arithmetic::div_mod::lemma_div_pos_is_pos(c, n_y);
            assert(cx < self.spec_shape().0) by (nonlinear_arith)
                requires
                    n_y * cx + cy == c,
                    0 <= cy,
                    c < self.spec_shape().0 * n_y,
                    n_y > 0,
                    cx >= 0,
            ;
            self.grid.lemma_view_cell(cx, cy);
            assert(self.grid@[c].objects@ == self.cell_objects(cx, cy)) by {
                assert(cx * n_y + cy == c) by (nonlinear_arith)
                    requires
                        n_y * cx + cy == c,
                ;
            }
            if hx == cx && hy == cy {
                assert(hflat == c) by (nonlinear_arith)
                    requires
                        hflat == hx * n_y + hy,
                        n_y * cx + cy == c,
                        hx == cx,
                        hy == cy,
                ;
            } else {
                assert(hflat != c) by {
                    if hflat == c {
                        vstd::arithmetic::div_mod::lemma_fundamental_div_mod_converse(
                            c,
                            n_y,
                            hx,
                            hy,
                        );
                    }
                }
                assert(self.cell_objects(cx, cy).to_multiset().count(t) == 0);
            }
        }
    }

    /// The folded union box contains every contributing member's box.
    proof fn lemma_bounds_of_covers(s: Seq<T>, i: int)
        requires
            0 <= i < s.len(),
        ensures
            Rect::spec_contains(Self::bounds_of(s), Self::item_box(s[i])),
        decreases s.len(),
    {
        let rest = s.drop_last();
        assert(Self::bounds_of(s) == Rect::spec_merge(
            Self::bounds_of(rest),
            Self::item_box(s.last()),
        ));
        lemma_merge_is_union(Self::bounds_of(rest), Self::item_box(s.last()));
        if i < s.len() - 1 {
            Self::lemma_bounds_of_covers(rest, i);
        }
    }

    /// Appending an object extends the folded union box by its circle box.
    proof fn lemma_bounds_push(s: Seq<T>, e: T)
        ensures
            Self::bounds_of(s.push(e)) == Rect::spec_merge(Self::bounds_of(s), Self::item_box(e)),
    {
        let u = s.push(e);
        assert(u.drop_last() =~= s);
        assert(Self::bounds_of(u) == Rect::spec_merge(
            Self::bounds_of(u.drop_last()),
            Self::item_box(u.last()),
        ));
    }

    /// Appends `item` to its home cell. Neither that cell's loose box nor
    /// any other is recomputed: callers must run `update` before querying.
    pub fn add(&mut self, item: T)
        requires
            old(self).wf(),
            Self::item_ok(item),
        ensures
            final(self).wf(),
            final(self).spec_shape() == old(self).spec_shape(),
            final(self).spec_grid_pos() == old(self).spec_grid_pos(),
            ({
                let (hx, hy) = Self::spec_home(old(self).spec_grid_pos(), item);
                &&& final(self).cell_objects(hx, hy) == old(self).cell_objects(hx, hy).push(item)
                &&& forall|x: int, y: int|
                    old(self).in_range(x, y) && !(x == hx && y == hy)
                        ==> #[trigger] final(self).cell_objects(x, y) == old(self).cell_objects(
                        x,
                        y,
                    )
            }),
            forall|x: int, y: int|
                old(self).in_range(x, y) ==> #[trigger] final(self).cell_bounds(x, y) == old(
                    self,
                ).cell_bounds(x, y),
    {
        let p = item.pos();
        let home = self.grid_pos.cell_for(&p);
        let empty_quad = Quad { object_bounds: Rect::new_empty(), objects: Vec::new() };
        let mut q = self.grid.replace(home.0, home.1, empty_quad);
        q.objects.push(item);
        self.grid.set(home.0, home.1, q);
        proof {
            let hx = home.0 as int;
            let hy = home.1 as int;
            assert forall|x: int, y: int| self.in_range(x, y) implies #[trigger] self
                .cell_items_ok(x, y) by {
                assert(old(self).cell_items_ok(x, y));
                if x == hx && y == hy {
                    assert forall|i: int|
                        0 <= i < self.cell_objects(x, y).len() implies Self::item_ok(
                        #[trigger] self.cell_objects(x, y)[i],
                    ) by {
                        if i < self.cell_objects(x, y).len() - 1 {
                            assert(self.cell_objects(x, y)[i] == old(self).cell_objects(x, y)[i]);
                        }
                    }
                }
            }
        }
    }
}

} // verus!
