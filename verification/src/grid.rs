//! Raster cells with holes, independent of the sample type.

use vstd::arithmetic::div_mod::{
    lemma_fundamental_div_mod, lemma_fundamental_div_mod_converse,
};
use vstd::prelude::*;

verus! {

/// `a / b`, rounded up.
pub open spec fn ceil_div(a: int, b: int) -> int {
    (a + b - 1) / b
}

/// Rounding up gives the least multiple that reaches `a`.
pub proof fn lemma_ceil_div(a: int, b: int)
    requires
        a >= 0,
        b > 0,
    ensures
        ceil_div(a, b) * b >= a,
        a > 0 ==> (ceil_div(a, b) - 1) * b < a,
        0 <= ceil_div(a, b) <= a,
        a > 0 ==> ceil_div(a, b) >= 1,
{
    let q = ceil_div(a, b);
    lemma_fundamental_div_mod(a + b - 1, b);
    assert(b * q == q * b) by (nonlinear_arith);
    assert((q - 1) * b == q * b - b) by (nonlinear_arith);
    if a == 0 {
        lemma_fundamental_div_mod_converse(b - 1, b, 0, b - 1);
    } else {
        assert(q >= 1) by (nonlinear_arith)
            requires
                q * b >= a,
                a > 0,
                b > 0,
        ;
        assert(q <= a) by (nonlinear_arith)
            requires
                q * b - b < a,
                b > 0,
                a >= 1,
        ;
    }
}

/// `a / b`, rounded up.
pub fn div_ceil(a: usize, b: usize) -> (q: usize)
    requires
        b > 0,
    ensures
        q == ceil_div(a as int, b as int),
{
    let q: usize = a / b;
    proof {
        lemma_ceil_div(a as int, b as int);
        let p = a as int / b as int;
        let r = a as int % b as int;
        lemma_fundamental_div_mod(a as int, b as int);
        if r == 0 {
            lemma_fundamental_div_mod_converse(a + b - 1, b as int, p, b - 1);
        } else {
            assert(b * (p + 1) == b * p + b) by (nonlinear_arith);
            lemma_fundamental_div_mod_converse(a + b - 1, b as int, p + 1, r - 1);
        }
    }
    if a % b == 0 {
        q
    } else {
        q + 1
    }
}

/// Row and column are found back from a row-major position.
pub proof fn lemma_position(row: int, col: int, rows: int, cols: int)
    requires
        0 <= row < rows,
        0 <= col < cols,
    ensures
        0 <= row * cols + col < rows * cols,
        (row * cols + col) / cols == row,
        (row * cols + col) % cols == col,
{
    assert(row * cols >= 0) by (nonlinear_arith)
        requires
            row >= 0,
            cols > 0,
    ;
    assert(row * cols + cols <= rows * cols) by (nonlinear_arith)
        requires
            row + 1 <= rows,
            cols > 0,
    ;
    lemma_fundamental_div_mod_converse(row * cols + col, cols, row, col);
}

/// Every row-major position belongs to a row and a column.
pub proof fn lemma_row_col(k: int, rows: int, cols: int)
    requires
        0 <= k < rows * cols,
        0 <= rows,
        0 <= cols,
    ensures
        0 <= k / cols < rows,
        0 <= k % cols < cols,
        (k / cols) * cols + k % cols == k,
{
    assert(cols > 0) by (nonlinear_arith)
        requires
            0 <= k < rows * cols,
            0 <= cols,
    ;
    lemma_fundamental_div_mod(k, cols);
    let q = k / cols;
    assert(cols * q == q * cols) by (nonlinear_arith);
    assert(q < rows) by (nonlinear_arith)
        requires
            q * cols <= k,
            k < rows * cols,
            cols > 0,
    ;
    assert(q >= 0) by (nonlinear_arith)
        requires
            q * cols + (k % cols) == k,
            k >= 0,
            k % cols < cols,
            cols > 0,
    ;
}

/// A raster band: `rows` x `cols` cells in row-major order. A cell without a
/// valid sample is `None`.
pub struct Grid<T> {
    pub rows: usize,
    pub cols: usize,
    pub cells: Vec<Option<T>>,
}

impl<T: Copy> Grid<T> {
    /// The cells fill the rectangle exactly.
    pub open spec fn wf(&self) -> bool {
        self.cells@.len() == self.rows * self.cols
    }

    /// The sample at a row and column; `None` outside the grid.
    pub open spec fn cell(&self, row: int, col: int) -> Option<T> {
        if 0 <= row < self.rows && 0 <= col < self.cols {
            self.cells@[row * self.cols + col]
        } else {
            None
        }
    }

    /// A grid of the given shape, or `None` if the cells do not fill it.
    pub fn new(rows: usize, cols: usize, cells: Vec<Option<T>>) -> (grid: Option<Grid<T>>)
        ensures
            grid is Some <==> cells@.len() == rows * cols,
            grid matches Some(g) ==> g.wf() && g.rows == rows && g.cols == cols && g.cells@
                == cells@,
    {
        let have: usize = cells.len();
        if rows.checked_mul(cols) == Some(have) {
            Some(Grid { rows, cols, cells })
        } else {
            None
        }
    }

    /// The sample at a row and column; `None` outside the grid.
    pub fn get(&self, row: usize, col: usize) -> (cell: Option<T>)
        requires
            self.wf(),
        ensures
            cell == self.cell(row as int, col as int),
    {
        let have: usize = self.cells.len();
        if row < self.rows && col < self.cols {
            proof {
                lemma_position(row as int, col as int, self.rows as int, self.cols as int);
                assert(row * self.cols + col < have);
            }
            self.cells[row * self.cols + col]
        } else {
            None
        }
    }
}

/// The cells of a grid stand row by row, and there is none outside it.
pub proof fn cells_stand_row_by_row<T: Copy>(grid: Grid<T>, row: int, col: int)
    requires
        grid.wf(),
    ensures
        0 <= row < grid.rows && 0 <= col < grid.cols ==> 0 <= row * grid.cols + col
            < grid.cells@.len() && grid.cell(row, col) == grid.cells@[row * grid.cols + col],
        row < 0 || row >= grid.rows || col < 0 || col >= grid.cols ==> grid.cell(row, col) is None,
{
    if 0 <= row < grid.rows && 0 <= col < grid.cols {
        lemma_position(row, col, grid.rows as int, grid.cols as int);
    }
}

/// Rounding up gives the least number of blocks that hold all: `n` of them do, and
/// one less does not.
pub proof fn blocks_hold_all(a: int, b: int, n: int)
    requires
        a >= 0,
        b > 0,
    ensures
        n * b >= a ==> n >= ceil_div(a, b),
        ceil_div(a, b) * b >= a,
{
    lemma_ceil_div(a, b);
    let q = ceil_div(a, b);
    if a > 0 && n < q {
        assert(n * b <= (q - 1) * b) by (nonlinear_arith)
            requires
                n <= q - 1,
                b > 0,
        ;
    }
    if a == 0 && n * b >= a {
        assert(n >= 0) by (nonlinear_arith)
            requires
                n * b >= 0,
                b > 0,
        ;
    }
}

} // verus!
