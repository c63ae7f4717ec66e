//! Row-major positions.
use vstd::prelude::*;

verus! {

/// Position of cell `(i, j)` in a row-major array with `cols` columns.
pub open spec fn cell(i: int, j: int, cols: int) -> int {
    i * cols + j
}

/// Cells lie one after the other along a row, and a row apart along a column,
/// from position zero on.
pub proof fn cells_run_row_by_row(i: int, j: int, cols: int)
    ensures
        cell(0, 0, cols) == 0,
        cell(i, j + 1, cols) == cell(i, j, cols) + 1,
        cell(i + 1, j, cols) == cell(i, j, cols) + cols,
        cell(i, j, cols) == i * cols + j,
{
    assert((i + 1) * cols == i * cols + cols) by (nonlinear_arith);
    assert(0 * cols == 0);
}

/// A cell inside the array has a position inside it.
pub proof fn lemma_cell_bound(i: int, j: int, rows: int, cols: int)
    requires
        0 <= i < rows,
        0 <= j < cols,
    ensures
        0 <= i * cols <= cell(i, j, cols) < rows * cols,
        (i + 1) * cols <= rows * cols,
{
    assert(0 <= i * cols && (i + 1) * cols <= rows * cols && (i + 1) * cols == i * cols + cols)
        by (nonlinear_arith)
        requires
            0 <= i < rows,
            0 <= cols,
    ;
}

/// Different cells have different positions, in the order of rows first.
pub proof fn lemma_cell_order(i: int, j: int, k: int, l: int, cols: int)
    requires
        0 <= j < cols,
        0 <= l < cols,
    ensures
        cell(i, j, cols) == cell(k, l, cols) <==> (i == k && j == l),
        cell(i, j, cols) < cell(k, l, cols) <==> (i < k || (i == k && j < l)),
{
    if i < k {
        assert(i * cols + cols <= k * cols) by (nonlinear_arith)
            requires
                i < k,
                0 < cols,
        ;
    } else if k < i {
        assert(k * cols + cols <= i * cols) by (nonlinear_arith)
            requires
                k < i,
                0 < cols,
        ;
    }
}

/// Every position inside the array is the cell of its quotient and remainder.
pub proof fn lemma_cell_split(pos: int, rows: int, cols: int)
    requires
        0 <= pos < rows * cols,
        0 <= rows,
        0 <= cols,
    ensures
        0 < rows,
        0 < cols,
        0 <= pos / cols < rows,
        0 <= pos % cols < cols,
        cell(pos / cols, pos % cols, cols) == pos,
{
    assert(0 < rows && 0 < cols) by (nonlinear_arith)
        requires
            0 <= pos < rows * cols,
            0 <= rows,
            0 <= cols,
    ;
    vstd::arithmetic::div_mod::lemma_fundamental_div_mod(pos, cols);
    vstd::arithmetic::div_mod::lemma_mod_bound(pos, cols);
    let q = pos / cols;
    let r = pos % cols;
    assert(pos == q * cols + r) by (nonlinear_arith)
        requires
            pos == cols * q + r,
    ;
    assert(0 <= q < rows) by (nonlinear_arith)
        requires
            pos == q * cols + r,
            0 <= r < cols,
            0 <= pos < rows * cols,
    ;
}

} // verus!
