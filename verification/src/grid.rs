//! Dense two-dimensional grids of fixed-point values, addressed row-major
//! by a flattened index. Bounds are checked only at the boundary helpers
//! `to_index` / `from_index` / `is_valid`, as the search itself works on
//! flattened indices.

use vstd::prelude::*;
use vstd::std_specs::vec::spec_vec_len;

verus! {

/// Largest accepted side length of a grid. Keeps every index and distance
/// computation comfortably inside the machine integer ranges.
pub const DIM_LIMIT: usize = 65536;

/// A dense `rows x cols` grid of fixed-point values, stored row-major.
pub struct Grid {
    pub rows: usize,
    pub cols: usize,
    pub data: Vec<i64>,
}

impl Grid {
    /// Shape well-formedness: bounded sides, storage of exactly
    /// `rows * cols` entries.
    pub open spec fn wf(self) -> bool {
        &&& self.rows <= DIM_LIMIT
        &&& self.cols <= DIM_LIMIT
        &&& self.data@.len() == self.rows * self.cols
    }

    /// The value stored at row `r`, column `c`.
    pub open spec fn at(self, r: int, c: int) -> int {
        self.data@[r * self.cols + c] as int
    }

    /// Every cell value lies between `lo` and `hi` inclusive.
    pub open spec fn values_in(self, lo: int, hi: int) -> bool {
        forall|r: int, c: int|
            0 <= r < self.rows && 0 <= c < self.cols ==> lo <= #[trigger] self.at(r, c) <= hi
    }

    /// A well-formed grid's area fits in a machine word.
    pub proof fn lemma_area_fits(&self)
        requires
            self.wf(),
        ensures
            self.rows * self.cols <= usize::MAX,
    {
        assert(spec_vec_len(&self.data) == self.data@.len());
    }

    /// A grid holding `v` in every cell.
    pub fn new_fill(rows: usize, cols: usize, v: i64) -> (g: Grid)
        requires
            rows <= DIM_LIMIT,
            cols <= DIM_LIMIT,
            rows * cols <= usize::MAX,
        ensures
            g.rows == rows,
            g.cols == cols,
            g.wf(),
            forall|r: int, c: int|
                0 <= r < rows && 0 <= c < cols ==> #[trigger] g.at(r, c) == v,
    {
        proof {
            assert(rows * cols >= 0) by (nonlinear_arith)
                requires rows >= 0, cols >= 0
            ;
        }
        let data: Vec<i64> = vec![v; rows * cols];
        let g = Grid { rows, cols, data };
        proof {
            assert forall|r: int, c: int|
                0 <= r < rows && 0 <= c < cols implies #[trigger] g.at(r, c) == v by {
                lemma_flat_index_bounds(r, c, rows as int, cols as int);
            }
        }
        g
    }

    /// Wraps row-major data as a grid.
    pub fn from_data(rows: usize, cols: usize, data: Vec<i64>) -> (g: Grid)
        requires
            rows <= DIM_LIMIT,
            cols <= DIM_LIMIT,
            data@.len() == rows * cols,
        ensures
            g.rows == rows,
            g.cols == cols,
            g.data == data,
            g.wf(),
    {
        Grid { rows, cols, data }
    }

    /// Reads the value at row `r`, column `c`.
    pub fn get(&self, r: usize, c: usize) -> (v: i64)
        requires
            self.wf(),
            r < self.rows,
            c < self.cols,
        ensures
            v == self.at(r as int, c as int),
    {
        proof {
            lemma_flat_index_bounds(r as int, c as int, self.rows as int, self.cols as int);
            assert(spec_vec_len(&self.data) == self.data@.len());
        }
        self.data[r * self.cols + c]
    }

    /// Writes `v` at row `r`, column `c`.
    pub fn set(&mut self, r: usize, c: usize, v: i64)
        requires
            old(self).wf(),
            r < old(self).rows,
            c < old(self).cols,
        ensures
            final(self).rows == old(self).rows,
            final(self).cols == old(self).cols,
            final(self).wf(),
            final(self).at(r as int, c as int) == v,
            forall|r2: int, c2: int|
                0 <= r2 < old(self).rows && 0 <= c2 < old(self).cols
                    && !(r2 == r && c2 == c)
                    ==> #[trigger] final(self).at(r2, c2) == old(self).at(r2, c2),
    {
        proof {
            lemma_flat_index_bounds(r as int, c as int, self.rows as int, self.cols as int);
            assert(spec_vec_len(&self.data) == self.data@.len());
        }
        let idx: usize = r * self.cols + c;
        self.data[idx] = v;
        proof {
            assert forall|r2: int, c2: int|
                0 <= r2 < old(self).rows && 0 <= c2 < old(self).cols
                    && !(r2 == r && c2 == c)
                    implies #[trigger] final(self).at(r2, c2) == old(self).at(r2, c2) by {
                lemma_flat_index_bounds(r2, c2, old(self).rows as int, old(self).cols as int);
                lemma_flat_index_injective(r as int, c as int, r2, c2, old(self).cols as int);
            }
        }
    }
}

/// A flattened index of an in-bounds cell lies inside the storage.
pub proof fn lemma_flat_index_bounds(r: int, c: int, rows: int, cols: int)
    requires
        0 <= r < rows,
        0 <= c < cols,
    ensures
        0 <= r * cols + c < rows * cols,
{
    assert(r * cols + c < rows * cols) by (nonlinear_arith)
        requires 0 <= r < rows, 0 <= c < cols
    ;
    assert(r * cols >= 0) by (nonlinear_arith)
        requires r >= 0, cols >= 0
    ;
}

/// Distinct in-bounds cells have distinct flattened indices.
pub proof fn lemma_flat_index_injective(r1: int, c1: int, r2: int, c2: int, cols: int)
    requires
        0 <= c1 < cols,
        0 <= c2 < cols,
        r1 >= 0,
        r2 >= 0,
        !(r1 == r2 && c1 == c2),
    ensures
        r1 * cols + c1 != r2 * cols + c2,
{
    if r1 == r2 {
    } else {
        assert(r1 * cols + c1 != r2 * cols + c2) by (nonlinear_arith)
            requires 0 <= c1 < cols, 0 <= c2 < cols, r1 >= 0, r2 >= 0, r1 != r2
        ;
    }
}

/// Flattens a (row, column) pair into a row-major index.
pub fn to_index(row: usize, col: usize, cols: usize) -> (idx: usize)
    requires
        row * cols + col <= usize::MAX,
    ensures
        idx == row * cols + col,
{
    proof {
        assert(row * cols >= 0) by (nonlinear_arith)
            requires row >= 0, cols >= 0
        ;
    }
    row * cols + col
}

/// Recovers the (row, column) pair from a row-major index.
pub fn from_index(index: usize, cols: usize) -> (cell: (usize, usize))
    requires
        cols > 0,
    ensures
        cell.0 == index as int / cols as int,
        cell.1 == index as int % cols as int,
        cell.0 * cols + cell.1 == index,
{
    proof {
        assert((index as int / cols as int) * cols as int + index as int % cols as int
            == index as int) by (nonlinear_arith)
            requires cols > 0, index >= 0
        ;
        assert(index as int / cols as int >= 0) by (nonlinear_arith)
            requires cols > 0, index >= 0
        ;
        assert(index as int / cols as int <= index as int) by (nonlinear_arith)
            requires cols > 0, index >= 0
        ;
    }
    (index / cols, index % cols)
}

/// `from_index` lands inside the grid whenever the flat index does.
pub proof fn lemma_from_index_in_bounds(index: int, rows: int, cols: int)
    requires
        cols > 0,
        rows >= 0,
        0 <= index < rows * cols,
    ensures
        0 <= index / cols < rows,
        0 <= index % cols < cols,
{
    assert(0 <= index / cols < rows && 0 <= index % cols < cols) by (nonlinear_arith)
        requires cols > 0, rows >= 0, 0 <= index < rows * cols
    ;
}

/// Signed bounds test: is `(row, col)` a cell of a `rows x cols` grid?
pub fn is_valid(row: isize, col: isize, rows: usize, cols: usize) -> (r: bool)
    ensures
        r == (0 <= row && (row as int) < rows && 0 <= col && (col as int) < cols),
{
    row >= 0 && (row as usize) < rows && col >= 0 && (col as usize) < cols
}

} // verus!
