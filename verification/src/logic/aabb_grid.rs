use vstd::prelude::*;

use crate::logic::grid_pos::GridPos;
use crate::logic::seqs::{lemma_filter_none, lemma_filter_push, lemma_take_all, lemma_take_step};
use crate::logic::vec2d::Vec2d;
use crate::math::num::lemma_div_trunc_range;
use crate::math::point::{coord_bounded, Point};
use crate::math::rect::{lemma_collides_through_container, lemma_merge_is_union, Rect};

verus! {

/// Capability of this grid's contents: each object exposes a bounding box.
pub trait AabbObject: Sized {
    /// The bounding box, as contracts see it.
    spec fn spec_aabb(&self) -> Rect;

    /// The object's bounding box.
    fn aabb(&self) -> (r: Rect)
        ensures
            r == self.spec_aabb(),
    ;
}

/// One bucket of the grid: the union box of its members and the members.
struct Quad<T> {
    object_bounds: Rect,
    objects: Vec<T>,
}

/// A read-mostly broad-phase index, rebuilt each tick from a snapshot of
/// box-bearing objects. Each object is bucketed by the cell of its box's
/// center; a cell remembers the union of its members' full boxes, so a
/// query can skip whole cells in one comparison.
pub struct AabbGrid<T> {
    grid_pos: GridPos,
    grid: Vec2d<Quad<T>>,
}

impl<T: AabbObject + Copy> AabbGrid<T> {
    /// An object the grid accepts: a valid box within the coordinate range.
    pub open spec fn item_ok(t: T) -> bool {
        t.spec_aabb().is_valid() && coord_bounded(t.spec_aabb().bottom_left) && coord_bounded(
            t.spec_aabb().top_right,
        )
    }

    /// The union of the boxes of a run of objects, folded left to right
    /// from the empty sentinel.
    pub open spec fn bounds_of(s: Seq<T>) -> Rect
        decreases s.len(),
    {
        if s.len() == 0 {
            Rect::spec_empty()
        } else {
            Rect::spec_merge(Self::bounds_of(s.drop_last()), s.last().spec_aabb())
        }
    }

    /// The cell an object is bucketed into: the cell of its box's center.
    pub open spec fn spec_home(gp: GridPos, t: T) -> (int, int) {
        gp.spec_cell_for(Rect::spec_center(t.spec_aabb()))
    }

    /// The coordinate mapper the grid was built with.
    pub closed spec fn spec_grid_pos(&self) -> GridPos {
        self.grid_pos
    }

    /// The grid's extent on each axis.
    pub closed spec fn spec_shape(&self) -> (u32, u32) {
        (self.grid.spec_shape().0, self.grid.spec_shape().1)
    }

    /// `(x, y)` addresses a cell.
    pub open spec fn in_range(&self, x: int, y: int) -> bool {
        0 <= x < self.spec_shape().0 && 0 <= y < self.spec_shape().1
    }

    /// The members of cell `(x, y)`, in insertion order.
    pub closed spec fn cell_objects(&self, x: int, y: int) -> Seq<T> {
        self.grid.cell(x, y).objects@
    }

    /// The loose union box of cell `(x, y)`.
    pub closed spec fn cell_bounds(&self, x: int, y: int) -> Rect {
        self.grid.cell(x, y).object_bounds
    }

    /// Structural well-formedness: the mapper and the cell array agree on
    /// the shape, every member is acceptable, and each cell's union box
    /// contains every member's box.
    pub closed spec fn wf(&self) -> bool {
        &&& self.grid_pos.wf()
        &&& self.grid.wf()
        &&& self.grid.spec_shape() == (self.grid_pos.n_x, self.grid_pos.n_y)
        &&& forall|x: int, y: int|
            self.in_range(x, y) ==> #[trigger] self.cell_wf(x, y)
    }

    /// Every member of cell `(x, y)` is acceptable and inside the cell's
    /// union box.
    pub closed spec fn cell_wf(&self, x: int, y: int) -> bool {
        forall|i: int|
            0 <= i < self.cell_objects(x, y).len() ==> {
                &&& Self::item_ok(#[trigger] self.cell_objects(x, y)[i])
                &&& Rect::spec_contains(
                    self.cell_bounds(x, y),
                    self.cell_objects(x, y)[i].spec_aabb(),
                )
            }
    }

    /// The bucketing predicate: the object's home cell is `(x, y)`.
    pub open spec fn home_pred(gp: GridPos, x: int, y: int) -> spec_fn(T) -> bool {
        |t: T| Self::spec_home(gp, t) == (x, y)
    }

    /// The query predicate: the object's own box overlaps `rect`.
    pub open spec fn match_pred(rect: Rect) -> spec_fn(T) -> bool {
        |t: T| Rect::spec_collides(t.spec_aabb(), rect)
    }

    /// Appending an object extends the folded union box by its box.
    proof fn lemma_bounds_push(s: Seq<T>, e: T)
        ensures
            Self::bounds_of(s.push(e)) == Rect::spec_merge(Self::bounds_of(s), e.spec_aabb()),
    {
        let t = s.push(e);
        assert(t.drop_last() =~= s);
        assert(Self::bounds_of(t) == Rect::spec_merge(
            Self::bounds_of(t.drop_last()),
            t.last().spec_aabb(),
        ));
    }

    /// An empty grid over `rect`, split into `n_x` by `n_y` cells.
    pub fn new(rect: &Rect, n_x: u32, n_y: u32) -> (r: AabbGrid<T>)
        requires
            rect.is_valid(),
            coord_bounded(rect.bottom_left),
            coord_bounded(rect.top_right),
            n_x >= 1,
            n_y >= 1,
            n_x * n_y <= u32::MAX,
            rect.top_right.x - rect.bottom_left.x >= n_x,
            rect.top_right.y - rect.bottom_left.y >= n_y,
        ensures
            r.wf(),
            r.spec_shape() == (n_x, n_y),
            r.spec_grid_pos() == GridPos::spec_new_from(*rect, n_x, n_y),
            forall|x: int, y: int|
                r.in_range(x, y) ==> #[trigger] r.cell_objects(x, y) == Seq::<T>::empty(),
            forall|x: int, y: int|
                r.in_range(x, y) ==> #[trigger] r.cell_bounds(x, y) == Rect::spec_empty(),
    {
        let grid_pos = GridPos::new(rect, n_x, n_y);
        let creator = |x: u32, y: u32| -> (q: Quad<T>)
            ensures
                q.object_bounds == Rect::spec_empty(),
                q.objects@ == Seq::<T>::empty(),
            {
                let q = Quad { object_bounds: Rect::new_empty(), objects: Vec::new() };
                proof {
                    assert(q.objects@ =~= Seq::<T>::empty());
                }
                q
            };
        let grid = Vec2d::new_with_creator(n_x, n_y, creator);
        AabbGrid { grid_pos, grid }
    }

    /// The grid over `rect` holding `objects`: each object is bucketed by
    /// the cell of its box's center, in input order, and every cell's union
    /// box is the fold of its members' full boxes.
    pub fn new_with_objects(rect: &Rect, n_x: u32, n_y: u32, objects: Vec<T>) -> (r: AabbGrid<
        T,
    >)
        requires
            rect.is_valid(),
            coord_bounded(rect.bottom_left),
            coord_bounded(rect.top_right),
            n_x >= 1,
            n_y >= 1,
            n_x * n_y <= u32::MAX,
            rect.top_right.x - rect.bottom_left.x >= n_x,
            rect.top_right.y - rect.bottom_left.y >= n_y,
            forall|i: int| 0 <= i < objects@.len() ==> Self::item_ok(#[trigger] objects@[i]),
        ensures
            r.wf(),
            r.spec_shape() == (n_x, n_y),
            r.spec_grid_pos() == GridPos::spec_new_from(*rect, n_x, n_y),
            forall|x: int, y: int|
                r.in_range(x, y) ==> #[trigger] r.cell_objects(x, y) == objects@.filter(
                    Self::home_pred(GridPos::spec_new_from(*rect, n_x, n_y), x, y),
                ),
            forall|x: int, y: int|
                r.in_range(x, y) ==> #[trigger] r.cell_bounds(x, y) == Self::bounds_of(
                    r.cell_objects(x, y),
                ),
            r.is_index_of(objects@),
    {
        let mut grid = Self::new(rect, n_x, n_y);
        let ghost gp = grid.spec_grid_pos();
        proof {
            assert forall|x: int, y: int| grid.in_range(x, y) implies #[trigger] grid.cell_objects(
                x,
                y,
            ) == objects@.take(0).filter(Self::home_pred(gp, x, y)) by {
                lemma_filter_none(objects@.take(0), Self::home_pred(gp, x, y));
                assert(objects@.take(0) =~= Seq::<T>::empty());
                lemma_filter_none(Seq::<T>::empty(), Self::home_pred(gp, x, y));
            }
            assert forall|x: int, y: int| grid.in_range(x, y) implies #[trigger] grid.cell_bounds(
                x,
                y,
            ) == Self::bounds_of(grid.cell_objects(x, y)) by {
                assert(Self::bounds_of(grid.cell_objects(x, y)) == Rect::spec_empty());
            }
        }
        let mut i: usize = 0;
        while i < objects.len()
            invariant
                grid.wf(),
                grid.spec_shape() == (n_x, n_y),
                grid.spec_grid_pos() == gp,
                gp == GridPos::spec_new_from(*rect, n_x, n_y),
                i <= objects@.len(),
                forall|j: int| 0 <= j < objects@.len() ==> Self::item_ok(#[trigger] objects@[j]),
                forall|x: int, y: int|
                    grid.in_range(x, y) ==> #[trigger] grid.cell_objects(x, y)
                        == objects@.take(i as int).filter(Self::home_pred(gp, x, y)),
                forall|x: int, y: int|
                    grid.in_range(x, y) ==> #[trigger] grid.cell_bounds(x, y) == Self::bounds_of(
                        grid.cell_objects(x, y),
                    ),
            decreases objects@.len() - i,
        {
            let ghost prev = grid;
            let item = objects[i];
            let aabb = item.aabb();
            let center = aabb.center();
            proof {
                assert(coord_bounded(center));
            }
            let home = grid.grid_pos.cell_for(&center);
            let empty_quad = Quad { object_bounds: Rect::new_empty(), objects: Vec::new() };
            let mut q = grid.grid.replace(home.0, home.1, empty_quad);
            q.object_bounds.merge(&aabb);
            q.objects.push(item);
            grid.grid.set(home.0, home.1, q);
            i = i + 1;
            proof {
                let hx = home.0 as int;
                let hy = home.1 as int;
                assert(Self::spec_home(gp, item) == (hx, hy));
                lemma_take_step(objects@, i - 1);
                assert forall|x: int, y: int| grid.in_range(x, y) implies {
                    &&& #[trigger] grid.cell_objects(x, y) == objects@.take(i as int).filter(
                        Self::home_pred(gp, x, y),
                    )
                    &&& grid.cell_bounds(x, y) == Self::bounds_of(grid.cell_objects(x, y))
                    &&& grid.cell_wf(x, y)
                } by {
                    lemma_filter_push(objects@.take(i - 1), item, Self::home_pred(gp, x, y));
                    if x == hx && y == hy {
                        assert(grid.cell_objects(x, y) == prev.cell_objects(x, y).push(item));
                        Self::lemma_bounds_push(prev.cell_objects(x, y), item);
                        lemma_merge_is_union(prev.cell_bounds(x, y), item.spec_aabb());
                        assert(grid.cell_bounds(x, y) == Rect::spec_merge(
                            prev.cell_bounds(x, y),
                            item.spec_aabb(),
                        ));
                        assert(prev.cell_wf(x, y));
                        assert forall|k: int|
                            0 <= k < grid.cell_objects(x, y).len() implies {
                            &&& Self::item_ok(#[trigger] grid.cell_objects(x, y)[k])
                            &&& Rect::spec_contains(
                                grid.cell_bounds(x, y),
                                grid.cell_objects(x, y)[k].spec_aabb(),
                            )
                        } by {
                            if k < grid.cell_objects(x, y).len() - 1 {
                                assert(grid.cell_objects(x, y)[k] == prev.cell_objects(x, y)[k]);
                            }
                        }
                        assert(grid.cell_wf(x, y));
                    } else {
                        assert(!(Self::home_pred(gp, x, y)(item)));
                        assert(grid.cell_objects(x, y) == prev.cell_objects(x, y));
                        assert(grid.cell_bounds(x, y) == prev.cell_bounds(x, y));
                        assert(prev.cell_wf(x, y));
                        assert(grid.cell_wf(x, y));
                    }
                }
            }
        }
        proof {
            lemma_take_all(objects@);
        }
        grid
    }

    /// The matching members of the cells before flat position `k`, cell by
    /// cell in storage order.
    pub closed spec fn query_prefix(&self, rect: Rect, k: int) -> Seq<T>
        decreases k,
    {
        if k <= 0 {
            Seq::empty()
        } else {
            self.query_prefix(rect, k - 1) + self.grid@[k - 1].objects@.filter(
                Self::match_pred(rect),
            )
        }
    }

    /// Every member whose own box overlaps `rect`, cell by cell in storage
    /// order, within each cell in insertion order.
    pub open spec fn spec_query(&self, rect: Rect) -> Seq<T> {
        self.query_prefix(rect, self.spec_shape().0 * self.spec_shape().1)
    }

    /// Rewrites, in place, every member whose own box overlaps `rect` with
    /// `func` of it, skipping in one comparison each cell whose union box
    /// misses `rect`. The union boxes are not recomputed, so the grid
    /// stays well-formed only when `func` preserves each member's box —
    /// the final clause states exactly that.
    pub fn for_objects_mut<F: Fn(&T) -> T>(&mut self, rect: &Rect, func: F)
        requires
            old(self).wf(),
            forall|t: &T| #[trigger] call_requires(func, (t,)),
        ensures
            final(self).spec_shape() == old(self).spec_shape(),
            final(self).spec_grid_pos() == old(self).spec_grid_pos(),
            forall|x: int, y: int|
                old(self).in_range(x, y) ==> #[trigger] final(self).cell_bounds(x, y) == old(
                    self,
                ).cell_bounds(x, y),
            forall|x: int, y: int|
                old(self).in_range(x, y) ==> #[trigger] final(self).cell_objects(x, y).len()
                    == old(self).cell_objects(x, y).len(),
            forall|x: int, y: int, k: int|
                old(self).in_range(x, y) && 0 <= k < old(self).cell_objects(x, y).len() ==> (
                if Self::match_pred(*rect)(old(self).cell_objects(x, y)[k]) {
                    call_ensures(
                        func,
                        (&old(self).cell_objects(x, y)[k],),
                        #[trigger] final(self).cell_objects(x, y)[k],
                    )
                } else {
                    final(self).cell_objects(x, y)[k] == old(self).cell_objects(x, y)[k]
                }),
            (forall|t: &T, r: T|
                #[trigger] call_ensures(func, (t,), r) ==> r.spec_aabb() == t.spec_aabb())
                ==> final(self).wf(),
    {
        let (n_x, n_y) = self.grid.shape();
        let mut x: u32 = 0;
        while x < n_x
            invariant
                self.grid_pos == old(self).grid_pos,
                self.grid.wf(),
                old(self).wf(),
                self.grid.spec_shape() == old(self).grid.spec_shape(),
                (n_x, n_y) == self.spec_shape(),
                x <= n_x,
                forall|t: &T| #[trigger] call_requires(func, (t,)),
                forall|a: int, b: int|
                    self.in_range(a, b) ==> #[trigger] self.cell_bounds(a, b) == old(
                        self,
                    ).cell_bounds(a, b),
                forall|a: int, b: int|
                    self.in_range(a, b) && a >= x ==> #[trigger] self.cell_objects(a, b) == old(
                        self,
                    ).cell_objects(a, b),
                forall|a: int, b: int|
                    self.in_range(a, b) ==> #[trigger] self.cell_objects(a, b).len() == old(
                        self,
                    ).cell_objects(a, b).len(),
                forall|a: int, b: int, k: int|
                    self.in_range(a, b) && a < x && 0 <= k < old(self).cell_objects(a, b).len()
                        ==> (if Self::match_pred(*rect)(old(self).cell_objects(a, b)[k]) {
                        call_ensures(
                            func,
                            (&old(self).cell_objects(a, b)[k],),
                            #[trigger] self.cell_objects(a, b)[k],
                        )
                    } else {
                        self.cell_objects(a, b)[k] == old(self).cell_objects(a, b)[k]
                    }),
            decreases n_x - x,
        {
            let mut y: u32 = 0;
            while y < n_y
                invariant
                    self.grid_pos == old(self).grid_pos,
                    self.grid.wf(),
                    old(self).wf(),
                    self.grid.spec_shape() == old(self).grid.spec_shape(),
                    (n_x, n_y) == self.spec_shape(),
                    x < n_x,
                    y <= n_y,
                    forall|t: &T| #[trigger] call_requires(func, (t,)),
                    forall|a: int, b: int|
                        self.in_range(a, b) ==> #[trigger] self.cell_bounds(a, b) == old(
                            self,
                        ).cell_bounds(a, b),
                    forall|a: int, b: int|
                        self.in_range(a, b) && (a > x || (a == x && b >= y))
                            ==> #[trigger] self.cell_objects(a, b) == old(self).cell_objects(
                            a,
                            b,
                        ),
                    forall|a: int, b: int|
                        self.in_range(a, b) ==> #[trigger] self.cell_objects(a, b).len() == old(
                            self,
                        ).cell_objects(a, b).len(),
                    forall|a: int, b: int, k: int|
                        self.in_range(a, b) && (a < x || (a == x && b < y)) && 0 <= k < old(
                            self,
                        ).cell_objects(a, b).len() ==> (if Self::match_pred(*rect)(
                            old(self).cell_objects(a, b)[k],
                        ) {
                            call_ensures(
                                func,
                                (&old(self).cell_objects(a, b)[k],),
                                #[trigger] self.cell_objects(a, b)[k],
                            )
                        } else {
                            self.cell_objects(a, b)[k] == old(self).cell_objects(a, b)[k]
                        }),
                decreases n_y - y,
            {
                let ghost entry_state = *self;
                let ghost xi = x as int;
                let ghost yi = y as int;
                let visit = rect.collides(&self.grid.get(x, y).object_bounds);
                proof {
                    assert(visit == Rect::spec_collides(*rect, entry_state.cell_bounds(xi, yi)));
                    assert(entry_state.cell_bounds(xi, yi) == old(self).cell_bounds(xi, yi));
                }
                if visit {
                    let empty_quad = Quad {
                        object_bounds: Rect::new_empty(),
                        objects: Vec::new(),
                    };
                    let mut q = self.grid.replace(x, y, empty_quad);
                    let ghost orig = q.objects@;
                    proof {
                        assert(orig == entry_state.cell_objects(xi, yi));
                        assert(orig == old(self).cell_objects(xi, yi));
                    }
                    let mut j: usize = 0;
                    while j < q.objects.len()
                        invariant
                            j <= q.objects@.len(),
                            q.objects@.len() == orig.len(),
                            q.object_bounds == entry_state.cell_bounds(xi, yi),
                            orig == old(self).cell_objects(xi, yi),
                            forall|t: &T| #[trigger] call_requires(func, (t,)),
                            forall|k: int| j <= k < orig.len() ==> q.objects@[k] == orig[k],
                            forall|k: int|
                                0 <= k < j ==> (if Self::match_pred(*rect)(orig[k]) {
                                    call_ensures(
                                        func,
                                        (&orig[k],),
                                        #[trigger] q.objects@[k],
                                    )
                                } else {
                                    q.objects@[k] == orig[k]
                                }),
                        decreases q.objects@.len() - j,
                    {
                        let ab = q.objects[j].aabb();
                        if ab.collides(rect) {
                            let updated = func(&q.objects[j]);
                            q.objects.set(j, updated);
                        }
                        j = j + 1;
                    }
                    self.grid.set(x, y, q);
                    proof {
                        assert(self.cell_bounds(xi, yi) == entry_state.cell_bounds(xi, yi));
                        assert(self.cell_objects(xi, yi) == q.objects@);
                    }
                } else {
                    proof {
                        assert(self.cell_objects(xi, yi) == old(self).cell_objects(xi, yi));
                        assert forall|k: int|
                            0 <= k < old(self).cell_objects(xi, yi).len() implies !(
                        Self::match_pred(*rect)(
                            #[trigger] old(self).cell_objects(xi, yi)[k],
                        )) by {
                            assert(old(self).cell_wf(xi, yi));
                            if Rect::spec_collides(
                                old(self).cell_objects(xi, yi)[k].spec_aabb(),
                                *rect,
                            ) {
                                lemma_collides_through_container(
                                    old(self).cell_bounds(xi, yi),
                                    old(self).cell_objects(xi, yi)[k].spec_aabb(),
                                    *rect,
                                );
                            }
                        }
                    }
                }
                proof {
                    assert forall|a: int, b: int|
                        self.in_range(a, b) && !(a == xi && b == yi) implies #[trigger] self
                        .cell_objects(a, b) == entry_state.cell_objects(a, b) && self.cell_bounds(
                        a,
                        b,
                    ) == entry_state.cell_bounds(a, b) by {}
                    assert forall|a: int, b: int| self.in_range(a, b) implies #[trigger] self
                        .cell_bounds(a, b) == old(self).cell_bounds(a, b) by {
                        if !(a == xi && b == yi) {
                            assert(self.cell_bounds(a, b) == entry_state.cell_bounds(a, b));
                        }
                    }
                }
                y = y + 1;
            }
            x = x + 1;
        }
        proof {
            if forall|t: &T, r: T|
                #[trigger] call_ensures(func, (t,), r) ==> r.spec_aabb() == t.spec_aabb() {
                assert forall|a: int, b: int| self.in_range(a, b) implies #[trigger] self.cell_wf(
                    a,
                    b,
                ) by {
                    assert(old(self).cell_wf(a, b));
                    assert forall|k: int|
                        0 <= k < self.cell_objects(a, b).len() implies {
                        &&& Self::item_ok(#[trigger] self.cell_objects(a, b)[k])
                        &&& Rect::spec_contains(
                            self.cell_bounds(a, b),
                            self.cell_objects(a, b)[k].spec_aabb(),
                        )
                    } by {
                        let old_t = old(self).cell_objects(a, b)[k];
                        assert(Self::item_ok(old_t));
                        if Self::match_pred(*rect)(old_t) {
                            assert(call_ensures(
                                func,
                                (&old(self).cell_objects(a, b)[k],),
                                self.cell_objects(a, b)[k],
                            ));
                            assert(self.cell_objects(a, b)[k].spec_aabb() == old_t.spec_aabb());
                        }
                    }
                }
                assert(self.wf());
            }
        }
    }

    /// The grid's cells hold exactly `objects`, split by home cell — the
    /// state `new_with_objects` ensures.
    pub open spec fn is_index_of(&self, objects: Seq<T>) -> bool {
        forall|x: int, y: int|
            self.in_range(x, y) ==> #[trigger] self.cell_objects(x, y) == objects.filter(
                Self::home_pred(self.spec_grid_pos(), x, y),
            )
    }

    /// Every element of a query prefix came from some cell's filtered run.
    proof fn lemma_query_prefix_member(&self, objects: Seq<T>, rect: Rect, k: int, j: int)
        requires
            self.wf(),
            self.is_index_of(objects),
            0 <= k <= self.spec_shape().0 * self.spec_shape().1,
            0 <= j < self.query_prefix(rect, k).len(),
        ensures
            objects.contains(self.query_prefix(rect, k)[j]),
            Rect::spec_collides(self.query_prefix(rect, k)[j].spec_aabb(), rect),
        decreases k,
    {
        broadcast use vstd::seq_lib::group_filter_ensures;

        if k <= 0 {
        } else {
            let prev = self.query_prefix(rect, k - 1);
            let cell = self.grid@[k - 1].objects@;
            let tail = cell.filter(Self::match_pred(rect));
            assert(self.query_prefix(rect, k) == prev + tail);
            if j < prev.len() {
                self.lemma_query_prefix_member(objects, rect, k - 1, j);
            } else {
                let t = tail[j - prev.len()];
                assert(self.query_prefix(rect, k)[j] == t);
                assert(Self::match_pred(rect)(t));
                assert(tail.contains(t));
                cell.lemma_filter_contains_rev(Self::match_pred(rect), t);
                assert(cell.contains(t));
                let n_y = self.spec_shape().1 as int;
                let c = k - 1;
                vstd::arithmetic::div_mod::lemma_fundamental_div_mod(c, n_y);
                vstd::arithmetic::div_mod::lemma_mod_bound(c, n_y);
                let cx = c / n_y;
                let cy = c % n_y;
                vstd::arithmetic::div_mod::lemma_div_pos_is_pos(c, n_y);
                assert(cx < self.spec_shape().0) by (nonlinear_arith)
                    requires
                        n_y * cx + cy == c,
                        0 <= cy,
                        c < self.spec_shape().0 * n_y,
                        n_y > 0,
                        cx >= 0,
                ;
                self.grid.lemma_view_cell(cx, cy);
                assert(cell == self.cell_objects(cx, cy)) by {
                    assert(cx * n_y + cy == c) by (nonlinear_arith)
                        requires
                            n_y * cx + cy == c,
                    ;
                }
                assert(cell == objects.filter(Self::home_pred(self.spec_grid_pos(), cx, cy)));
                objects.lemma_filter_contains_rev(
                    Self::home_pred(self.spec_grid_pos(), cx, cy),
                    t,
                );
                assert(objects.contains(t));
            }
        }
    }

    /// An object of the indexed set whose box overlaps `rect` appears in
    /// every query prefix that has passed its home cell.
    proof fn lemma_query_prefix_complete(&self, objects: Seq<T>, rect: Rect, k: int, t: T)
        requires
            self.wf(),
            self.is_index_of(objects),
            0 <= k <= self.spec_shape().0 * self.spec_shape().1,
            objects.contains(t),
            Rect::spec_collides(t.spec_aabb(), rect),
            ({
                let (hx, hy) = Self::spec_home(self.spec_grid_pos(), t);
                hx * self.spec_shape().1 + hy < k
            }),
        ensures
            self.query_prefix(rect, k).contains(t),
        decreases k,
    {
        broadcast use vstd::seq_lib::group_filter_ensures;

        let gp = self.spec_grid_pos();
        let (hx, hy) = Self::spec_home(gp, t);
        let n_y = self.spec_shape().1 as int;
        let hflat = hx * n_y + hy;
        assert(0 <= hx < self.spec_shape().0 && 0 <= hy < n_y);
        assert(hflat >= 0) by (nonlinear_arith)
            requires
                hflat == hx * n_y + hy,
                0 <= hx,
                0 <= hy,
                n_y >= 0,
        ;
        let prev = self.query_prefix(rect, k - 1);
        let cell = self.grid@[k - 1].objects@;
        let tail = cell.filter(Self::match_pred(rect));
        assert(self.query_prefix(rect, k) == prev + tail);
        if hflat < k - 1 {
            self.lemma_query_prefix_complete(objects, rect, k - 1, t);
            let j = choose|j: int| 0 <= j < prev.len() && prev[j] == t;
            assert((prev + tail)[j] == t);
        } else {
            vstd::arithmetic::div_mod::lemma_fundamental_div_mod_converse(k - 1, n_y, hx, hy);
            self.grid.lemma_view_cell(hx, hy);
            assert(hx * n_y + hy == k - 1);
            assert(cell == self.cell_objects(hx, hy));
            assert(cell == objects.filter(Self::home_pred(gp, hx, hy)));
            let i = choose|i: int| 0 <= i < objects.len() && objects[i] == t;
            assert(Self::home_pred(gp, hx, hy)(objects[i]));
            assert(cell.contains(objects[i]));
            let j = choose|j: int| 0 <= j < cell.len() && cell[j] == t;
            assert(Self::match_pred(rect)(cell[j]));
            assert(tail.contains(cell[j]));
            let j2 = choose|j2: int| 0 <= j2 < tail.len() && tail[j2] == t;
            assert((prev + tail)[prev.len() + j2] == t);
        }
    }

    /// Law: a query over a freshly built index answers exactly the objects
    /// whose boxes overlap the queried region — every answer is such an
    /// object, and every such object is answered.
    pub proof fn lemma_query_exact(&self, objects: Seq<T>, rect: Rect, t: T)
        requires
            self.wf(),
            self.is_index_of(objects),
        ensures
            self.spec_query(rect).contains(t) <==> objects.contains(t) && Rect::spec_collides(
                t.spec_aabb(),
                rect,
            ),
    {
        let n: int = self.spec_shape().0 * self.spec_shape().1;
        assert(n >= 0) by (nonlinear_arith)
            requires
                n == self.spec_shape().0 * self.spec_shape().1,
        ;
        if self.spec_query(rect).contains(t) {
            let j = choose|j: int| 0 <= j < self.spec_query(rect).len() && self.spec_query(
                rect,
            )[j] == t;
            self.lemma_query_prefix_member(objects, rect, n, j);
        }
        if objects.contains(t) && Rect::spec_collides(t.spec_aabb(), rect) {
            let gp = self.spec_grid_pos();
            let (hx, hy) = Self::spec_home(gp, t);
            assert(hx * self.spec_shape().1 + hy < n) by (nonlinear_arith)
                requires
                    n == self.spec_shape().0 * self.spec_shape().1,
                    0 <= hx < self.spec_shape().0,
                    0 <= hy < self.spec_shape().1,
            ;
            self.lemma_query_prefix_complete(objects, rect, n, t);
        }
    }

    /// Collects every member whose own box overlaps `rect`, skipping in one
    /// comparison each cell whose union box already misses `rect`.
    pub fn for_objects(&self, rect: &Rect) -> (r: Vec<T>)
        requires
            self.wf(),
        ensures
            r@ == self.spec_query(*rect),
    {
        let mut result: Vec<T> = Vec::new();
        let (n_x, n_y) = self.grid.shape();
        proof {
            assert(result@ =~= Seq::<T>::empty());
        }
        let mut x: u32 = 0;
        while x < n_x
            invariant
                self.wf(),
                (n_x, n_y) == self.spec_shape(),
                x <= n_x,
                result@ == self.query_prefix(*rect, x as int * n_y),
            decreases n_x - x,
        {
            let mut y: u32 = 0;
            while y < n_y
                invariant
                    self.wf(),
                    (n_x, n_y) == self.spec_shape(),
                    x < n_x,
                    y <= n_y,
                    result@ == self.query_prefix(*rect, x as int * n_y + y),
                decreases n_y - y,
            {
                proof {
                    self.grid.lemma_view_cell(x as int, y as int);
                }
                let ghost flat = x as int * n_y + y;
                let quad = self.grid.get(x, y);
                if rect.collides(&quad.object_bounds) {
                    let mut j: usize = 0;
                    while j < quad.objects.len()
                        invariant
                            self.wf(),
                            (n_x, n_y) == self.spec_shape(),
                            x < n_x,
                            y < n_y,
                            j <= quad.objects@.len(),
                            *quad == self.grid.cell(x as int, y as int),
                            result@ == self.query_prefix(*rect, x as int * n_y + y)
                                + quad.objects@.take(j as int).filter(Self::match_pred(*rect)),
                        decreases quad.objects@.len() - j,
                    {
                        proof {
                            lemma_take_step(quad.objects@, j as int);
                            lemma_filter_push(
                                quad.objects@.take(j as int),
                                quad.objects@[j as int],
                                Self::match_pred(*rect),
                            );
                        }
                        let item = &quad.objects[j];
                        let ab = item.aabb();
                        if ab.collides(rect) {
                            result.push(*item);
                        }
                        j = j + 1;
                    }
                    proof {
                        lemma_take_all(quad.objects@);
                    }
                } else {
                    proof {
                        assert forall|k: int|
                            0 <= k < quad.objects@.len() implies !(Self::match_pred(*rect)(
                            #[trigger] quad.objects@[k],
                        )) by {
                            assert(self.cell_wf(x as int, y as int));
                            assert(quad.objects@ == self.cell_objects(x as int, y as int));
                            assert(Rect::spec_contains(
                                self.cell_bounds(x as int, y as int),
                                self.cell_objects(x as int, y as int)[k].spec_aabb(),
                            ));
                            if Rect::spec_collides(quad.objects@[k].spec_aabb(), *rect) {
                                lemma_collides_through_container(
                                    quad.object_bounds,
                                    quad.objects@[k].spec_aabb(),
                                    *rect,
                                );
                            }
                        }
                        lemma_filter_none(quad.objects@, Self::match_pred(*rect));
                        assert(result@ + Seq::<T>::empty() =~= result@);
                    }
                }
                proof {
                    assert(self.query_prefix(*rect, flat + 1) == self.query_prefix(*rect, flat)
                        + self.grid@[flat].objects@.filter(Self::match_pred(*rect)));
                }
                y = y + 1;
            }
            proof {
                assert((x + 1) as int * n_y == x as int * n_y + n_y) by (nonlinear_arith);
            }
            x = x + 1;
        }
        result
    }
}

} // verus!
