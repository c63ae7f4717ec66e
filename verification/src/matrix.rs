//! Dense row-major matrices of 64-bit numbers.
use vstd::prelude::*;

use crate::ieee::Double;

verus! {

/// A dense matrix, row by row.
#[derive(Clone, Debug, PartialEq, Eq)]
pub struct Matrix {
    /// Number of rows.
    pub rows: usize,
    /// Number of columns.
    pub cols: usize,
    /// The cells, row by row.
    pub cells: Vec<Double>,
}

impl Matrix {
    /// One cell for each row and column.
    pub open spec fn wf(self) -> bool {
        self.cells@.len() == self.rows * self.cols
    }

    /// The cell in row `i` and column `j`.
    pub open spec fn at(self, i: int, j: int) -> Double {
        self.cells@[crate::index::cell(i, j, self.cols as int)]
    }

    /// Column `j` of row `i` holds an edge: a number above zero.
    pub open spec fn edge(self, i: int, j: int) -> bool {
        self.at(i, j).positive()
    }

    /// The two matrices have one shape and the same edges.
    pub open spec fn same_edges(self, other: Matrix) -> bool {
        &&& self.rows == other.rows
        &&& self.cols == other.cols
        &&& forall|i: int, j: int|
            0 <= i < self.rows && 0 <= j < self.cols ==> #[trigger] self.edge(i, j) == other.edge(
                i,
                j,
            )
    }

    /// The columns of row `i` that hold an edge, in ascending order.
    pub open spec fn row_neighbors(self, i: int) -> Seq<usize> {
        crate::select::selected(self.cols as nat, |j: int| self.edge(i, j))
    }

    /// The matrix as neighbor lists, one per row.
    pub open spec fn neighbor_lists(self) -> Seq<Seq<usize>> {
        Seq::new(self.rows as nat, |i: int| self.row_neighbors(i))
    }

    /// A matrix of positive zeros.
    pub fn zeros(rows: usize, cols: usize) -> (m: Matrix)
        requires
            rows * cols <= usize::MAX,
        ensures
            m.wf(),
            m.rows == rows,
            m.cols == cols,
            forall|p: int| 0 <= p < m.cells@.len() ==> (#[trigger] m.cells@[p]).bits == 0,
    {
        let total: usize = rows * cols;
        let mut cells: Vec<Double> = Vec::with_capacity(total);
        while cells.len() < total
            invariant
                cells@.len() <= total,
                forall|p: int| 0 <= p < cells@.len() ==> (#[trigger] cells@[p]).bits == 0,
            decreases total - cells@.len(),
        {
            cells.push(Double::zero());
        }
        Matrix { rows, cols, cells }
    }

    /// Position of the cell in row `i` and column `j`.
    fn position(&self, i: usize, j: usize) -> (p: usize)
        requires
            self.wf(),
            i < self.rows,
            j < self.cols,
        ensures
            p == crate::index::cell(i as int, j as int, self.cols as int),
            p < self.cells@.len(),
    {
        proof {
            crate::index::lemma_cell_bound(
                i as int,
                j as int,
                self.rows as int,
                self.cols as int,
            );
            assert(self.cells@.len() == self.cells.len());
        }
        i * self.cols + j
    }

    /// Reads the cell in row `i` and column `j`.
    pub fn get(&self, i: usize, j: usize) -> (r: Double)
        requires
            self.wf(),
            i < self.rows,
            j < self.cols,
        ensures
            r == self.at(i as int, j as int),
    {
        self.cells[self.position(i, j)]
    }

    /// Writes the cell in row `i` and column `j`; every other cell stays.
    pub fn set(&mut self, i: usize, j: usize, value: Double)
        requires
            old(self).wf(),
            i < old(self).rows,
            j < old(self).cols,
        ensures
            final(self).wf(),
            final(self).rows == old(self).rows,
            final(self).cols == old(self).cols,
            final(self).at(i as int, j as int) == value,
            forall|k: int, l: int|
                0 <= k < old(self).rows && 0 <= l < old(self).cols && !(k == i && l == j)
                    ==> #[trigger] final(self).at(k, l) == old(self).at(k, l),
    {
        proof {
            assert forall|k: int, l: int| 0 <= k < self.rows && 0 <= l < self.cols implies ({
                &&& 0 <= #[trigger] crate::index::cell(k, l, self.cols as int) < self.cells@.len()
                &&& crate::index::cell(k, l, self.cols as int) == crate::index::cell(
                    i as int,
                    j as int,
                    self.cols as int,
                ) <==> (k == i && l == j)
            }) by {
                crate::index::lemma_cell_bound(k, l, self.rows as int, self.cols as int);
                crate::index::lemma_cell_order(k, l, i as int, j as int, self.cols as int);
            }
        }
        let pos: usize = self.position(i, j);
        self.cells.set(pos, value);
    }

    /// The columns of row `i` that hold an edge, in ascending order.
    pub fn neighbors(&self, i: usize) -> (list: Vec<usize>)
        requires
            self.wf(),
            i < self.rows,
        ensures
            list@ == self.row_neighbors(i as int),
    {
        let mut list: Vec<usize> = Vec::new();
        let ghost keep = |j: int| self.edge(i as int, j);
        let mut j: usize = 0;
        while j < self.cols
            invariant
                self.wf(),
                i < self.rows,
                j <= self.cols,
                keep == (|j: int| self.edge(i as int, j)),
                list@ == crate::select::selected(j as nat, keep),
            decreases self.cols - j,
        {
            if self.get(i, j).gt_zero() {
                list.push(j);
            }
            j = j + 1;
        }
        list
    }
}

/// The neighbor lists hold exactly the edges of the matrix.
pub proof fn lemma_neighbor_lists(m: Matrix, i: int)
    requires
        0 <= i < m.rows,
    ensures
        m.neighbor_lists().len() == m.rows,
        m.neighbor_lists()[i] == m.row_neighbors(i),
        forall|j: usize|
            #[trigger] m.neighbor_lists()[i].contains(j) <==> j < m.cols && m.edge(i, j as int),
{
    crate::select::lemma_selected(m.cols as nat, |j: int| m.edge(i, j));
}

/// The neighbor lists depend on the edges alone.
pub proof fn lemma_same_edges(a: Matrix, b: Matrix)
    requires
        a.same_edges(b),
    ensures
        a.neighbor_lists() == b.neighbor_lists(),
{
    assert forall|i: int| 0 <= i < a.rows implies a.row_neighbors(i) == b.row_neighbors(i) by {
        crate::select::lemma_selected_agree(
            a.cols as nat,
            |j: int| a.edge(i, j),
            |j: int| b.edge(i, j),
        );
    }
    assert(a.neighbor_lists() =~= b.neighbor_lists());
}

/// The neighbor list of row `i` names the columns whose cell, in row-major order,
/// is a pattern above zero, each once and in ascending order.
pub proof fn neighbors_by_cells(m: Matrix, i: int)
    requires
        0 <= i < m.rows,
    ensures
        m.neighbor_lists().len() == m.rows,
        forall|j: usize| #[trigger]
            m.neighbor_lists()[i].contains(j) <==> j < m.cols && 0 < m.cells@[i * m.cols + j].bits
                <= 0x7ff0_0000_0000_0000,
        forall|k: int, l: int|
            0 <= k < l < m.neighbor_lists()[i].len() ==> m.neighbor_lists()[i][k]
                < m.neighbor_lists()[i][l],
{
    lemma_neighbor_lists(m, i);
    crate::select::lemma_selected(m.cols as nat, |j: int| m.edge(i, j));
    assert forall|j: usize| #[trigger]
        m.neighbor_lists()[i].contains(j) <==> j < m.cols && 0 < m.cells@[i * m.cols + j].bits
            <= 0x7ff0_0000_0000_0000 by {
        crate::ieee::double_by_bits(m.at(i, j as int));
    }
}

/// An edge is a cell, in row-major order, whose pattern is above zero.
pub proof fn edges_by_cells(m: Matrix, i: int, j: int)
    ensures
        m.at(i, j) == m.cells@[i * m.cols + j],
        m.edge(i, j) <==> 0 < m.cells@[i * m.cols + j].bits <= 0x7ff0_0000_0000_0000,
{
    crate::ieee::double_by_bits(m.at(i, j));
}

} // verus!
