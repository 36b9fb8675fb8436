use vstd::prelude::*;

verus! {

/// Row-major flattening stays inside the cell count.
proof fn lemma_flat_range(x: int, y: int, n_x: int, n_y: int)
    by (nonlinear_arith)
    requires
        0 <= x < n_x,
        0 <= y < n_y,
    ensures
        0 <= x * n_y + y,
        x * n_y + y < n_x * n_y,
{
}

/// Distinct coordinates flatten to distinct positions.
proof fn lemma_flat_injective(a: int, b: int, x: int, y: int, n_y: int)
    by (nonlinear_arith)
    requires
        0 <= b < n_y,
        0 <= y < n_y,
        a >= 0,
        x >= 0,
        a * n_y + b == x * n_y + y,
    ensures
        a == x,
        b == y,
{
}

/// A fixed-shape 2-D array of cells, stored contiguously in row-major order:
/// cell `(x, y)` lives at flattened position `x * n_y + y`.
pub struct Vec2d<T> {
    n_x: u32,
    n_y: u32,
    data: Vec<T>,
}

impl<T> View for Vec2d<T> {
    type V = Seq<T>;

    closed spec fn view(&self) -> Seq<T> {
        self.data@
    }
}

impl<T> Vec2d<T> {
    /// The backing vector holds exactly one slot per cell, and the cell
    /// count fits the 32-bit index arithmetic.
    pub closed spec fn wf(&self) -> bool {
        self.data@.len() == self.n_x * self.n_y && self.n_x * self.n_y <= u32::MAX
    }

    /// The grid's extent on each axis.
    pub closed spec fn spec_shape(&self) -> (u32, u32) {
        (self.n_x, self.n_y)
    }

    /// The cell at `(x, y)`.
    pub closed spec fn cell(&self, x: int, y: int) -> T {
        self.data@[x * self.n_y + y]
    }

    /// `(x, y)` addresses a cell of the grid.
    pub open spec fn in_range(&self, x: int, y: int) -> bool {
        0 <= x < self.spec_shape().0 && 0 <= y < self.spec_shape().1
    }

    /// Bridges the per-cell accessor and the flattened view.
    pub proof fn lemma_view_cell(&self, x: int, y: int)
        requires
            self.wf(),
            self.in_range(x, y),
        ensures
            self@.len() == self.spec_shape().0 * self.spec_shape().1,
            0 <= x * self.spec_shape().1 + y < self@.len(),
            self.cell(x, y) == self@[x * self.spec_shape().1 + y],
    {
        lemma_flat_range(x, y, self.n_x as int, self.n_y as int);
    }

    /// The flattened position of cell `(x, y)`.
    fn index(&self, x: u32, y: u32) -> (r: usize)
        requires
            self.wf(),
            self.in_range(x as int, y as int),
        ensures
            r == x * self.spec_shape().1 + y,
            r < self@.len(),
    {
        proof {
            lemma_flat_range(x as int, y as int, self.n_x as int, self.n_y as int);
        }
        (x * self.n_y + y) as usize
    }

    /// A grid of the given shape with every cell set to `value`.
    pub fn new(n_x: u32, n_y: u32, value: T) -> (r: Vec2d<T>) where T: Copy
        requires
            n_x * n_y <= u32::MAX,
        ensures
            r.wf(),
            r.spec_shape() == (n_x, n_y),
            forall|x: int, y: int| r.in_range(x, y) ==> r.cell(x, y) == value,
    {
        let total: usize = (n_x * n_y) as usize;
        let mut data: Vec<T> = Vec::new();
        let mut i: usize = 0;
        while i < total
            invariant
                i == data@.len() <= total,
                forall|j: int| 0 <= j < i ==> data@[j] == value,
            decreases total - i,
        {
            data.push(value);
            i = i + 1;
        }
        let r = Vec2d { n_x, n_y, data };
        proof {
            assert forall|x: int, y: int| r.in_range(x, y) implies r.cell(x, y) == value by {
                lemma_flat_range(x, y, n_x as int, n_y as int);
            }
        }
        r
    }

    /// A grid whose cell `(x, y)` starts as `creator(x, y)`.
    pub fn new_with_creator<F: Fn(u32, u32) -> T>(n_x: u32, n_y: u32, creator: F) -> (r: Vec2d<
        T,
    >)
        requires
            n_x * n_y <= u32::MAX,
            forall|x: u32, y: u32|
                x < n_x && y < n_y ==> #[trigger] call_requires(creator, (x, y)),
        ensures
            r.wf(),
            r.spec_shape() == (n_x, n_y),
            forall|x: u32, y: u32|
                x < n_x && y < n_y ==> call_ensures(
                    creator,
                    (x, y),
                    #[trigger] r.cell(x as int, y as int),
                ),
    {
        let mut data: Vec<T> = Vec::new();
        let mut x: u32 = 0;
        while x < n_x
            invariant
                x <= n_x,
                n_x * n_y <= u32::MAX,
                data@.len() == x * n_y,
                forall|a: u32, b: u32|
                    a < n_x && b < n_y ==> #[trigger] call_requires(creator, (a, b)),
                forall|a: u32, b: u32|
                    a < x && b < n_y ==> call_ensures(
                        creator,
                        (a, b),
                        #[trigger] data@[a as int * n_y + b],
                    ),
            decreases n_x - x,
        {
            let mut y: u32 = 0;
            while y < n_y
                invariant
                    x < n_x,
                    y <= n_y,
                    n_x * n_y <= u32::MAX,
                    data@.len() == x * n_y + y,
                    forall|a: u32, b: u32|
                        a < n_x && b < n_y ==> #[trigger] call_requires(creator, (a, b)),
                    forall|a: u32, b: u32|
                        (a < x && b < n_y) || (a == x && b < y) ==> call_ensures(
                            creator,
                            (a, b),
                            #[trigger] data@[a as int * n_y + b],
                        ),
                decreases n_y - y,
            {
                proof {
                    lemma_flat_range(x as int, y as int, n_x as int, n_y as int);
                }
                let item = creator(x, y);
                data.push(item);
                y = y + 1;
                proof {
                    assert forall|a: u32, b: u32|
                        (a < x && b < n_y) || (a == x && b < y) implies call_ensures(
                        creator,
                        (a, b),
                        #[trigger] data@[a as int * n_y + b],
                    ) by {
                        if a < x {
                            lemma_flat_range(a as int, b as int, x as int, n_y as int);
                        }
                    }
                }
            }
            proof {
                assert((x + 1) * n_y == x * n_y + n_y) by (nonlinear_arith);
            }
            x = x + 1;
        }
        let r = Vec2d { n_x, n_y, data };
        proof {
            assert forall|a: u32, b: u32| a < n_x && b < n_y implies call_ensures(
                creator,
                (a, b),
                #[trigger] r.cell(a as int, b as int),
            ) by {
                lemma_flat_range(a as int, b as int, n_x as int, n_y as int);
            }
        }
        r
    }

    /// The total number of cells.
    pub fn len(&self) -> (r: usize)
        ensures
            r == self@.len(),
    {
        self.data.len()
    }

    /// The extents on the two axes.
    pub fn shape(&self) -> (r: (u32, u32))
        ensures
            r == self.spec_shape(),
    {
        (self.n_x, self.n_y)
    }

    /// Borrows the cell at `(x, y)`.
    pub fn get(&self, x: u32, y: u32) -> (r: &T)
        requires
            self.wf(),
            self.in_range(x as int, y as int),
        ensures
            *r == self.cell(x as int, y as int),
    {
        let i = self.index(x, y);
        &self.data[i]
    }

    /// Overwrites the cell at `(x, y)`.
    pub fn set(&mut self, x: u32, y: u32, value: T)
        requires
            old(self).wf(),
            old(self).in_range(x as int, y as int),
        ensures
            final(self).wf(),
            final(self).spec_shape() == old(self).spec_shape(),
            final(self).cell(x as int, y as int) == value,
            forall|a: int, b: int|
                old(self).in_range(a, b) && !(a == x && b == y) ==> final(self).cell(a, b)
                    == old(self).cell(a, b),
    {
        let i = self.index(x, y);
        self.data.set(i, value);
        proof {
            assert forall|a: int, b: int|
                old(self).in_range(a, b) && !(a == x && b == y) implies self.cell(a, b) == old(
                self,
            ).cell(a, b) by {
                lemma_flat_range(a, b, self.n_x as int, self.n_y as int);
                if a * self.n_y + b == x as int * self.n_y + y {
                    lemma_flat_injective(a, b, x as int, y as int, self.n_y as int);
                }
            }
        }
    }

    /// The value of the cell at `(x, y)`.
    pub fn value(&self, x: u32, y: u32) -> (r: T) where T: Copy
        requires
            self.wf(),
            self.in_range(x as int, y as int),
        ensures
            r == self.cell(x as int, y as int),
    {
        *self.get(x, y)
    }

    /// Swaps `value` into the cell at `(x, y)` and hands back what was there.
    pub fn replace(&mut self, x: u32, y: u32, value: T) -> (r: T)
        requires
            old(self).wf(),
            old(self).in_range(x as int, y as int),
        ensures
            final(self).wf(),
            final(self).spec_shape() == old(self).spec_shape(),
            final(self).cell(x as int, y as int) == value,
            r == old(self).cell(x as int, y as int),
            forall|a: int, b: int|
                old(self).in_range(a, b) && !(a == x && b == y) ==> final(self).cell(a, b)
                    == old(self).cell(a, b),
    {
        let i = self.index(x, y);
        let mut out = value;
        self.data.set_and_swap(i, &mut out);
        proof {
            assert forall|a: int, b: int|
                old(self).in_range(a, b) && !(a == x && b == y) implies self.cell(a, b) == old(
                self,
            ).cell(a, b) by {
                lemma_flat_range(a, b, self.n_x as int, self.n_y as int);
                if a * self.n_y + b == x as int * self.n_y + y {
                    lemma_flat_injective(a, b, x as int, y as int, self.n_y as int);
                }
            }
        }
        out
    }

    /// Calls `func` on every cell with its coordinates, in row-major order.
    pub fn for_each<F: Fn(u32, u32, &T)>(&self, func: F)
        requires
            self.wf(),
            forall|x: u32, y: u32, t: &T|
                self.in_range(x as int, y as int) && *t == self.cell(x as int, y as int)
                    ==> #[trigger] call_requires(func, (x, y, t)),
    {
        let (n_x, n_y) = self.shape();
        let mut x: u32 = 0;
        while x < n_x
            invariant
                self.wf(),
                (n_x, n_y) == self.spec_shape(),
                forall|a: u32, b: u32, t: &T|
                    self.in_range(a as int, b as int) && *t == self.cell(a as int, b as int)
                        ==> #[trigger] call_requires(func, (a, b, t)),
            decreases n_x - x,
        {
            let mut y: u32 = 0;
            while y < n_y
                invariant
                    self.wf(),
                    x < n_x,
                    (n_x, n_y) == self.spec_shape(),
                    forall|a: u32, b: u32, t: &T|
                        self.in_range(a as int, b as int) && *t == self.cell(a as int, b as int)
                            ==> #[trigger] call_requires(func, (a, b, t)),
                decreases n_y - y,
            {
                let r = self.get(x, y);
                func(x, y, r);
                y = y + 1;
            }
            x = x + 1;
        }
    }

    /// Replaces every cell with `func` of its coordinates and current value,
    /// visiting cells in row-major order.
    pub fn for_each_mut<F: Fn(u32, u32, &T) -> T>(&mut self, func: F)
        requires
            old(self).wf(),
            forall|x: u32, y: u32, t: &T|
                old(self).in_range(x as int, y as int) && *t == old(self).cell(
                    x as int,
                    y as int,
                ) ==> #[trigger] call_requires(func, (x, y, t)),
        ensures
            final(self).wf(),
            final(self).spec_shape() == old(self).spec_shape(),
            forall|x: u32, y: u32|
                old(self).in_range(x as int, y as int) ==> call_ensures(
                    func,
                    (x, y, &old(self).cell(x as int, y as int)),
                    #[trigger] final(self).cell(x as int, y as int),
                ),
    {
        let (n_x, n_y) = self.shape();
        let mut x: u32 = 0;
        while x < n_x
            invariant
                self.wf(),
                (n_x, n_y) == self.spec_shape(),
                self.spec_shape() == old(self).spec_shape(),
                forall|a: u32, b: u32, t: &T|
                    old(self).in_range(a as int, b as int) && *t == old(self).cell(
                        a as int,
                        b as int,
                    ) ==> #[trigger] call_requires(func, (a, b, t)),
                forall|a: u32, b: u32|
                    a < n_x && b < n_y && !(a < x) ==> self.cell(a as int, b as int) == old(
                        self,
                    ).cell(a as int, b as int),
                forall|a: u32, b: u32|
                    a < x && b < n_y ==> call_ensures(
                        func,
                        (a, b, &old(self).cell(a as int, b as int)),
                        #[trigger] self.cell(a as int, b as int),
                    ),
            decreases n_x - x,
        {
            let mut y: u32 = 0;
            while y < n_y
                invariant
                    self.wf(),
                    x < n_x,
                    y <= n_y,
                    (n_x, n_y) == self.spec_shape(),
                    self.spec_shape() == old(self).spec_shape(),
                    forall|a: u32, b: u32, t: &T|
                        old(self).in_range(a as int, b as int) && *t == old(self).cell(
                            a as int,
                            b as int,
                        ) ==> #[trigger] call_requires(func, (a, b, t)),
                    forall|a: u32, b: u32|
                        a < n_x && b < n_y && (a > x || (a == x && b >= y)) ==> self.cell(
                            a as int,
                            b as int,
                        ) == old(self).cell(a as int, b as int),
                    forall|a: u32, b: u32|
                        (a < x && b < n_y) || (a == x && b < y) ==> call_ensures(
                            func,
                            (a, b, &old(self).cell(a as int, b as int)),
                            #[trigger] self.cell(a as int, b as int),
                        ),
                decreases n_y - y,
            {
                let cur = self.get(x, y);
                let updated = func(x, y, cur);
                self.set(x, y, updated);
                y = y + 1;
            }
            x = x + 1;
        }
    }

    /// An iterator-style cursor over the cells in storage order.
    pub fn iter(&self) -> (r: Vec2dIter<'_, T>)
        ensures
            r.index == 0,
            *r.parent == *self,
    {
        Vec2dIter { index: 0, parent: self }
    }
}

/// Walks the cells of a `Vec2d` in storage order; `next` yields a reference
/// to each cell in turn and then `None`.
pub struct Vec2dIter<'a, T> {
    pub index: usize,
    pub parent: &'a Vec2d<T>,
}

impl<'a, T> Vec2dIter<'a, T> {
    /// The next cell in storage order, or `None` after the last.
    pub fn next(&mut self) -> (r: Option<&'a T>)
        ensures
            final(self).parent == old(self).parent,
            old(self).index < old(self).parent@.len() ==> {
                &&& final(self).index == old(self).index + 1
                &&& r is Some
                &&& *r->0 == old(self).parent@[old(self).index as int]
            },
            old(self).index >= old(self).parent@.len() ==> {
                &&& final(self).index == old(self).index
                &&& r is None
            },
    {
        if self.index < self.parent.data.len() {
            let i = self.index;
            self.index = i + 1;
            Some(&self.parent.data[i])
        } else {
            None
        }
    }
}

} // verus!
