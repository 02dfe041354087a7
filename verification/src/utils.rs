use vstd::pervasive::runtime_assert;
use vstd::prelude::*;

verus! {

/// A dense two-dimensional array, stored row by row in one vector.
pub struct TwoDimensionalMap<T: Default + Clone> {
    width: usize,
    height: usize,
    vals: Vec<T>,
}

/// The position of cell `(x, y)` in the row-major storage of a table `width` wide.
pub open spec fn flat_index(x: int, y: int, width: int) -> int {
    y * width + x
}

/// Every cell of a `width` by `height` table has a storage position of its own.
pub proof fn lemma_flat_index_in_range(x: int, y: int, width: int, height: int)
    requires
        0 <= x < width,
        0 <= y < height,
    ensures
        0 <= y * width <= flat_index(x, y, width) < width * height,
{
    assert(0 <= y * width && y * width + width <= width * height) by (nonlinear_arith)
        requires
            0 <= width,
            0 <= y < height,
    ;
}

/// Two cells of a table share a storage position only if they are the same cell.
pub proof fn lemma_flat_index_injective(x1: int, y1: int, x2: int, y2: int, width: int)
    requires
        0 <= x1 < width,
        0 <= x2 < width,
        0 <= y1,
        0 <= y2,
        flat_index(x1, y1, width) == flat_index(x2, y2, width),
    ensures
        x1 == x2,
        y1 == y2,
{
    if y1 < y2 {
        assert(y1 * width + width <= y2 * width) by (nonlinear_arith)
            requires
                y1 < y2,
                0 <= width,
        ;
    } else if y2 < y1 {
        assert(y2 * width + width <= y1 * width) by (nonlinear_arith)
            requires
                y2 < y1,
                0 <= width,
        ;
    }
}

/// What a freshly allocated cell holds: a clone of the type's default value.
pub open spec fn is_default_cell<T: Default + Clone>(v: T) -> bool {
    exists|d: T| call_ensures(T::default, (), d) && cloned(d, v)
}

impl<T: Default + Clone> TwoDimensionalMap<T> {
    /// Number of columns.
    pub closed spec fn width(&self) -> int {
        self.width as int
    }

    /// Number of rows.
    pub closed spec fn height(&self) -> int {
        self.height as int
    }

    /// The storage holds exactly one value per cell.
    pub closed spec fn wf(&self) -> bool {
        &&& self.vals@.len() == self.width * self.height
        &&& self.width * self.height <= usize::MAX
    }

    /// The value stored for column `x` of row `y`.
    pub closed spec fn at(&self, x: int, y: int) -> T {
        self.vals@[flat_index(x, y, self.width as int)]
    }

    /// `(x, y)` names a cell of this table.
    pub open spec fn in_bounds(&self, x: int, y: int) -> bool {
        0 <= x < self.width() && 0 <= y < self.height()
    }

    /// `other` has the same shape as `self` and differs from it at most at `(x, y)`.
    pub open spec fn same_except(&self, other: &Self, x: int, y: int) -> bool {
        &&& other.wf()
        &&& other.width() == self.width()
        &&& other.height() == self.height()
        &&& forall|i: int, j: int|
            self.in_bounds(i, j) && !(i == x && j == y) ==> #[trigger] other.at(i, j) == self.at(i, j)
    }

    /// Allocates a `width` by `height` table with every cell at the default value.
    pub fn new(width: usize, height: usize) -> (m: TwoDimensionalMap<T>)
        requires
            width * height <= usize::MAX,
        ensures
            m.wf(),
            m.width() == width,
            m.height() == height,
            forall|x: int, y: int| m.in_bounds(x, y) ==> is_default_cell(#[trigger] m.at(x, y)),
    {
        let d: T = Default::default();
        let m = TwoDimensionalMap { width: width, height: height, vals: vec![d; width * height] };
        assert forall|x: int, y: int| m.in_bounds(x, y) implies is_default_cell(
            #[trigger] m.at(x, y),
        ) by {
            lemma_flat_index_in_range(x, y, width as int, height as int);
            assert(cloned(d, m.vals@[flat_index(x, y, width as int)]));
        }
        m
    }

    /// Overwrites the cell at `coords`, leaving every other cell as it was.
    pub fn set(&mut self, coords: (usize, usize), val: T)
        requires
            old(self).wf(),
            old(self).in_bounds(coords.0 as int, coords.1 as int),
        ensures
            old(self).same_except(final(self), coords.0 as int, coords.1 as int),
            final(self).at(coords.0 as int, coords.1 as int) == val,
    {
        let x = coords.0;
        let y = coords.1;

        runtime_assert(x < self.width);
        runtime_assert(y < self.height);
        proof {
            lemma_flat_index_in_range(x as int, y as int, self.width as int, self.height as int);
            self.lemma_other_cells_elsewhere(x as int, y as int);
        }
        self.vals[y * self.width + x] = val;
    }

    /// A well-formed table has no more cells than a `usize` can count.
    pub proof fn lemma_capacity(&self)
        requires
            self.wf(),
        ensures
            self.width() * self.height() <= usize::MAX,
            0 <= self.width(),
            0 <= self.height(),
    {
    }

    /// Every cell other than `(x, y)` is stored at a valid position other than that of `(x, y)`.
    proof fn lemma_other_cells_elsewhere(&self, x: int, y: int)
        requires
            self.wf(),
            self.in_bounds(x, y),
        ensures
            forall|i: int, j: int|
                self.in_bounds(i, j) && !(i == x && j == y) ==> {
                    &&& 0 <= #[trigger] flat_index(i, j, self.width as int) < self.vals@.len()
                    &&& flat_index(i, j, self.width as int) != flat_index(x, y, self.width as int)
                },
    {
        assert forall|i: int, j: int| self.in_bounds(i, j) && !(i == x && j == y) implies {
            &&& 0 <= #[trigger] flat_index(i, j, self.width as int) < self.vals@.len()
            &&& flat_index(i, j, self.width as int) != flat_index(x, y, self.width as int)
        } by {
            lemma_flat_index_in_range(i, j, self.width as int, self.height as int);
            if flat_index(i, j, self.width as int) == flat_index(x, y, self.width as int) {
                lemma_flat_index_injective(i, j, x, y, self.width as int);
            }
        }
    }
}

impl<T: Default + Clone> vstd::std_specs::core::IndexSpecImpl<(usize, usize)> for TwoDimensionalMap<T> {
    open spec fn index_req(&self, index: &(usize, usize)) -> bool {
        self.wf() && self.in_bounds(index.0 as int, index.1 as int)
    }
}

impl<T: Default + Clone> std::ops::Index<(usize, usize)> for TwoDimensionalMap<T> {
    type Output = T;

    /// Reads the cell at `coords`, which must lie inside the table. A caller that has
    /// not been verified and asks for a cell outside it is stopped.
    fn index(&self, coords: (usize, usize)) -> (r: &T)
        ensures
            *r == self.at(coords.0 as int, coords.1 as int),
    {
        let x = coords.0;
        let y = coords.1;

        runtime_assert(x < self.width);
        runtime_assert(y < self.height);
        proof {
            lemma_flat_index_in_range(x as int, y as int, self.width as int, self.height as int);
        }
        &self.vals[y * self.width + x]
    }
}

impl<T: Default + Clone> std::ops::IndexMut<(usize, usize)> for TwoDimensionalMap<T> {
    /// Borrows the cell at `coords`, which must lie inside the table, for writing. A
    /// caller that has not been verified and asks for a cell outside it is stopped.
    fn index_mut(&mut self, coords: (usize, usize)) -> (r: &mut T)
        requires
            old(self).wf(),
            old(self).in_bounds(coords.0 as int, coords.1 as int),
        ensures
            *r == old(self).at(coords.0 as int, coords.1 as int),
            old(self).same_except(final(self), coords.0 as int, coords.1 as int),
            final(self).at(coords.0 as int, coords.1 as int) == *final(r),
    {
        let x = coords.0;
        let y = coords.1;

        runtime_assert(x < self.width);
        runtime_assert(y < self.height);
        proof {
            lemma_flat_index_in_range(x as int, y as int, self.width as int, self.height as int);
            self.lemma_other_cells_elsewhere(x as int, y as int);
        }
        &mut self.vals[y * self.width + x]
    }
}

} // verus!
