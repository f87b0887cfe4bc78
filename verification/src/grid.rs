//! A fixed-size rectangular container of cells, indexed by column-staggered
//! [`Position`] coordinates in row-major order.

use vstd::prelude::*;

use crate::hex::Position;

verus! {

use vstd::pervasive::VecAdditionalExecFns;
use vstd::arithmetic::div_mod::lemma_fundamental_div_mod_converse;

/// A hexagonal grid that is indexed by column-staggered coordinates.
#[derive(Debug, Clone)]
pub struct HexGrid<T> {
    cols: u16,
    rows: u16,
    cells: Vec<T>,
}

impl<T> View for HexGrid<T> {
    type V = Seq<T>;

    closed spec fn view(&self) -> Seq<T> {
        self.cells@
    }
}

impl<T> HexGrid<T> {
    /// The number of columns, as a mathematical integer.
    pub closed spec fn spec_cols(&self) -> int {
        self.cols as int
    }

    /// The number of rows, as a mathematical integer.
    pub closed spec fn spec_rows(&self) -> int {
        self.rows as int
    }

    /// Well-formedness: the cell store matches the dimensions, and the
    /// dimensions leave every cell's staggered coordinate representable.
    pub open spec fn wf(&self) -> bool {
        &&& 0 <= self.spec_cols() < 0x8000
        &&& 0 <= self.spec_rows() < 0x4000
        &&& self@.len() == self.spec_cols() * self.spec_rows()
    }

    /// Whether `p` lies within the bounds of this grid.
    pub open spec fn spec_contains(&self, p: Position) -> bool {
        &&& 0 <= p.col < self.spec_cols()
        &&& 0 <= p.row < self.spec_rows()
    }

    /// The row-major index of a position within the cell store.
    pub open spec fn index_of(&self, p: Position) -> int {
        p.row * self.spec_cols() + p.col
    }

    /// The cell stored at position `p`.
    pub open spec fn spec_at(&self, p: Position) -> T {
        self@[self.index_of(p)]
    }

    /// An empty grid: zero columns, zero rows, no cells.
    pub fn empty() -> (g: HexGrid<T>)
        ensures
            g.wf(),
            g.spec_cols() == 0,
            g.spec_rows() == 0,
            g@.len() == 0,
    {
        HexGrid { cols: 0, rows: 0, cells: Vec::new() }
    }

    /// Whether the grid holds no cells at all.
    pub fn is_empty(&self) -> (r: bool)
        ensures
            r == (self.spec_cols() == 0 || self.spec_rows() == 0),
    {
        self.cols == 0 || self.rows == 0
    }

    /// The number of columns.
    pub fn cols(&self) -> (r: u16)
        ensures
            r as int == self.spec_cols(),
    {
        self.cols
    }

    /// The number of rows.
    pub fn rows(&self) -> (r: u16)
        ensures
            r as int == self.spec_rows(),
    {
        self.rows
    }

    /// Bounds check for a position.
    pub fn contains(&self, p: Position) -> (r: bool)
        ensures
            r == self.spec_contains(p),
    {
        p.col >= 0 && (p.col as i32) < (self.cols as i32) && p.row >= 0 && (p.row as i32) < (
        self.rows as i32)
    }

    /// A reference to the cell at `p`, or `None` exactly when `p` is out of
    /// bounds.
    pub fn get(&self, p: Position) -> (r: Option<&T>)
        requires
            self.wf(),
        ensures
            match r {
                Some(t) => self.spec_contains(p) && *t == self.spec_at(p),
                None => !self.spec_contains(p),
            },
    {
        if self.contains(p) {
            proof {
                lemma_grid_size_bound(self.spec_cols(), self.spec_rows());
                lemma_grid_index_in_bounds(self.spec_cols(), self.spec_rows(), p);
            }
            let idx: usize = (p.row as usize) * (self.cols as usize) + (p.col as usize);
            Some(&self.cells[idx])
        } else {
            None
        }
    }

    /// A mutable reference to the cell at `p`, or `None` exactly when `p` is
    /// out of bounds.
    pub fn get_mut(&mut self, p: Position) -> (r: Option<&mut T>)
        requires
            old(self).wf(),
        ensures
            match r {
                Some(t) => old(self).spec_contains(p) && *t == old(self).spec_at(p)
                    && final(self)@ == old(self)@.update(old(self).index_of(p), *final(t))
                    && final(self).spec_cols() == old(self).spec_cols()
                    && final(self).spec_rows() == old(self).spec_rows(),
                None => !old(self).spec_contains(p) && *final(self) == *old(self),
            },
            final(self).wf(),
    {
        if self.contains(p) {
            proof {
                lemma_grid_size_bound(self.spec_cols(), self.spec_rows());
                lemma_grid_index_in_bounds(self.spec_cols(), self.spec_rows(), p);
            }
            let idx: usize = (p.row as usize) * (self.cols as usize) + (p.col as usize);
            Some(&mut self.cells[idx])
        } else {
            None
        }
    }

    /// The cell at `p` by reference; the position must be in bounds. This is
    /// the direct index used where the caller has already range-checked.
    pub fn at(&self, p: Position) -> (t: &T)
        requires
            self.wf(),
            self.spec_contains(p),
        ensures
            *t == self.spec_at(p),
    {
        proof {
            lemma_grid_size_bound(self.spec_cols(), self.spec_rows());
            lemma_grid_index_in_bounds(self.spec_cols(), self.spec_rows(), p);
        }
        let idx: usize = (p.row as usize) * (self.cols as usize) + (p.col as usize);
        &self.cells[idx]
    }

    /// Overwrites the cell at `p`.
    pub fn set(&mut self, p: Position, value: T)
        requires
            old(self).wf(),
            old(self).spec_contains(p),
        ensures
            final(self).wf(),
            final(self).spec_cols() == old(self).spec_cols(),
            final(self).spec_rows() == old(self).spec_rows(),
            final(self)@ == old(self)@.update(old(self).index_of(p), value),
    {
        proof {
            lemma_grid_size_bound(self.spec_cols(), self.spec_rows());
            lemma_grid_index_in_bounds(self.spec_cols(), self.spec_rows(), p);
        }
        let idx: usize = (p.row as usize) * (self.cols as usize) + (p.col as usize);
        self.cells.set(idx, value);
    }
}

impl<T: Copy> HexGrid<T> {
    /// A `cols x rows` grid with every cell set to `value`.
    pub fn new_with(cols: u16, rows: u16, value: T) -> (g: HexGrid<T>)
        requires
            cols < 0x8000,
            rows < 0x4000,
        ensures
            g.wf(),
            g.spec_cols() == cols as int,
            g.spec_rows() == rows as int,
            forall|i: int| 0 <= i < g@.len() ==> g@[i] == value,
    {
        proof {
            lemma_grid_size_bound(cols as int, rows as int);
        }
        let n: usize = (cols as usize) * (rows as usize);
        let mut cells: Vec<T> = Vec::new();
        while cells.len() < n
            invariant
                cells@.len() <= n,
                forall|i: int| 0 <= i < cells@.len() ==> cells@[i] == value,
            decreases n - cells@.len(),
        {
            cells.push(value);
        }
        HexGrid { cols, rows, cells }
    }

    /// Replaces this grid's dimensions and contents with `other`'s.
    pub fn copy_from(&mut self, other: &HexGrid<T>)
        requires
            other.wf(),
        ensures
            final(self).wf(),
            final(self).spec_cols() == other.spec_cols(),
            final(self).spec_rows() == other.spec_rows(),
            final(self)@ == other@,
    {
        self.cols = other.cols;
        self.rows = other.rows;
        self.cells.clear();
        let n: usize = other.cells.len();
        while self.cells.len() < n
            invariant
                n == other@.len(),
                self.cells@.len() <= n,
                self.cols == other.cols,
                self.rows == other.rows,
                forall|i: int| 0 <= i < self.cells@.len() ==> self.cells@[i] == other@[i],
            decreases n - self.cells@.len(),
        {
            let i: usize = self.cells.len();
            self.cells.push(other.cells[i]);
        }
        proof {
            assert(self.cells@ =~= other@);
        }
    }

    /// Every valid position, each exactly once: all of column 0 from row 0
    /// down, then column 1, and so on.
    pub fn indices(&self) -> (r: Vec<Position>)
        requires
            self.wf(),
        ensures
            r@.len() == self.spec_cols() * self.spec_rows(),
            forall|i: int|
                0 <= i < r@.len() ==> #[trigger] r@[i] == (Position {
                    col: (i / self.spec_rows()) as i16,
                    row: (i % self.spec_rows()) as i16,
                }),
            forall|p: Position| self.spec_contains(p) ==> #[trigger] r@.contains(p),
    {
        let mut out: Vec<Position> = Vec::new();
        let cols: u16 = self.cols;
        let rows: u16 = self.rows;
        proof {
            lemma_grid_size_bound(cols as int, rows as int);
        }
        let mut col: u16 = 0;
        while col < cols
            invariant
                cols == self.spec_cols(),
                rows == self.spec_rows(),
                col <= cols,
                out@.len() == col as int * rows as int,
                forall|i: int|
                    0 <= i < out@.len() ==> #[trigger] out@[i] == (Position {
                        col: (i / rows as int) as i16,
                        row: (i % rows as int) as i16,
                    }),
            decreases cols - col,
        {
            let mut row: u16 = 0;
            while row < rows
                invariant
                    cols == self.spec_cols(),
                    rows == self.spec_rows(),
                    col < cols,
                    row <= rows,
                    out@.len() == col as int * rows as int + row as int,
                    forall|i: int|
                        0 <= i < out@.len() ==> #[trigger] out@[i] == (Position {
                            col: (i / rows as int) as i16,
                            row: (i % rows as int) as i16,
                        }),
                decreases rows - row,
            {
                proof {
                    lemma_fundamental_div_mod_converse(
                        col as int * rows as int + row as int,
                        rows as int,
                        col as int,
                        row as int,
                    );
                }
                out.push(Position { col: col as i16, row: row as i16 });
                row = row + 1;
            }
            col = col + 1;
            proof {
                assert(col as int * rows as int == (col - 1) as int * rows as int + rows as int)
                    by (nonlinear_arith);
            }
        }
        proof {
            assert forall|p: Position| self.spec_contains(p) implies #[trigger] out@.contains(
                p,
            ) by {
                let i = p.col as int * rows as int + p.row as int;
                lemma_grid_index_in_bounds(self.spec_rows(), self.spec_cols(), Position {
                    col: p.row,
                    row: p.col,
                });
                lemma_fundamental_div_mod_converse(i, rows as int, p.col as int, p.row as int);
                assert(out@.len() == self.spec_cols() * self.spec_rows());
                assert(self.spec_rows() * self.spec_cols() == self.spec_cols()
                    * self.spec_rows()) by (nonlinear_arith);
                assert(0 <= i < out@.len());
                assert(i / rows as int == p.col as int);
                assert(i % rows as int == p.row as int);
                assert(out@[i] == p);
            }
        }
        out
    }
}

/// The dimension bounds keep the total cell count well under `usize::MAX`.
pub proof fn lemma_grid_size_bound(cols: int, rows: int)
    requires
        0 <= cols < 0x8000,
        0 <= rows < 0x4000,
    ensures
        0 <= cols * rows < 0x2000_0000,
{
    assert(0 <= cols * rows < 0x2000_0000) by (nonlinear_arith)
        requires
            0 <= cols < 0x8000,
            0 <= rows < 0x4000,
    ;
}

/// The row-major index of an in-bounds position lies within the cell store.
pub proof fn lemma_grid_index_in_bounds(cols: int, rows: int, p: Position)
    requires
        0 <= p.col < cols,
        0 <= p.row < rows,
    ensures
        0 <= p.row * cols + p.col < cols * rows,
{
    assert(0 <= p.row * cols + p.col < cols * rows) by (nonlinear_arith)
        requires
            0 <= p.col < cols,
            0 <= p.row < rows,
    ;
}

/// Distinct in-bounds positions occupy distinct slots of the cell store.
pub proof fn lemma_grid_index_injective(cols: int, rows: int, p: Position, q: Position)
    requires
        0 <= p.col < cols,
        0 <= p.row < rows,
        0 <= q.col < cols,
        0 <= q.row < rows,
    ensures
        p.row * cols + p.col == q.row * cols + q.col ==> p == q,
{
    if p.row * cols + p.col == q.row * cols + q.col {
        assert(p.row == q.row && p.col == q.col) by (nonlinear_arith)
            requires
                0 <= p.col < cols,
                0 <= p.row < rows,
                0 <= q.col < cols,
                0 <= q.row < rows,
                p.row * cols + p.col == q.row * cols + q.col,
        ;
    }
}

} // verus!
