//! The maze model: a grid of cells, each holding three wall flags and a
//! display color.
//!
//! Each cell owns only its north-east, south, and north-west walls; the other
//! three walls belong to the appropriate neighbor (`north` to the northern
//! neighbor's `south`, and so on), so every wall between two cells is stored
//! exactly once. The boundary between an in-grid cell and an out-of-grid
//! location is always walled and is not stored.

use vstd::prelude::*;

use crate::grid::HexGrid;
use crate::grid::lemma_grid_index_in_bounds;
use crate::grid::lemma_grid_index_injective;
use crate::hex::Position;
use crate::hex::Vector;
use crate::hex::lemma_vector_round_trip;

verus! {

pub const BLACK: u8 = 0;

pub const RED: u8 = 1;

pub const GREEN: u8 = 2;

pub const BLUE: u8 = 4;

pub const LIGHT_GREY: u8 = 7;

/// The "no color" sentinel for a cell background.
pub const CLEAR_COLOR: u8 = 16;

/// One maze cell: the three wall flags it owns, plus its display color.
#[derive(Debug, Clone, Copy, PartialEq, Eq, Structural)]
pub struct Cell {
    pub north_east: bool,
    pub south: bool,
    pub north_west: bool,
    pub background: u8,
}

/// Which of the three stored walls of a cell a wall query resolves to.
#[derive(Debug, Clone, Copy, PartialEq, Eq, Structural)]
pub enum WallSide {
    NorthEast,
    South,
    NorthWest,
}

/// The stored flag of `c` for side `s`.
pub open spec fn side_flag(c: Cell, s: WallSide) -> bool {
    match s {
        WallSide::NorthEast => c.north_east,
        WallSide::South => c.south,
        WallSide::NorthWest => c.north_west,
    }
}

/// `c` with the flag for side `s` replaced by `v`.
pub open spec fn with_side(c: Cell, s: WallSide, v: bool) -> Cell {
    match s {
        WallSide::NorthEast => Cell { north_east: v, ..c },
        WallSide::South => Cell { south: v, ..c },
        WallSide::NorthWest => Cell { north_west: v, ..c },
    }
}

/// Two cells agree on all three wall flags.
pub open spec fn flags_eq(c1: Cell, c2: Cell) -> bool {
    c1.north_east == c2.north_east && c1.south == c2.south && c1.north_west == c2.north_west
}

/// Which cell stores the wall between `a` and `b`, and on which side, when
/// `b - a` is one of the six direction constants; `None` for any other
/// offset.
pub open spec fn wall_owner(a: Vector, b: Vector) -> Option<(Vector, WallSide)> {
    let dc = b.col - a.col;
    let dh = b.half_row - a.half_row;
    if dc == 0 && dh == -2 {
        Some((b, WallSide::South))  // b is the northern neighbor of a
    } else if dc == 1 && dh == -1 {
        Some((a, WallSide::NorthEast))
    } else if dc == 1 && dh == 1 {
        Some((b, WallSide::NorthWest))  // b is the south-eastern neighbor of a
    } else if dc == 0 && dh == 2 {
        Some((a, WallSide::South))
    } else if dc == -1 && dh == 1 {
        Some((b, WallSide::NorthEast))  // b is the south-western neighbor of a
    } else if dc == -1 && dh == -1 {
        Some((a, WallSide::NorthWest))
    } else {
        None
    }
}

/// The state of a fresh cell: all three owned walls present, no color.
pub open spec fn default_cell() -> Cell {
    Cell { north_east: true, south: true, north_west: true, background: CLEAR_COLOR }
}

/// A maze: a grid of wall-flag cells.
#[derive(Debug, Clone)]
pub struct Maze {
    cells: HexGrid<Cell>,
}

impl View for Maze {
    type V = Seq<Cell>;

    closed spec fn view(&self) -> Seq<Cell> {
        self.cells@
    }
}

impl Maze {
    /// The number of columns, as a mathematical integer.
    pub closed spec fn spec_cols(&self) -> int {
        self.cells.spec_cols()
    }

    /// The number of rows, as a mathematical integer.
    pub closed spec fn spec_rows(&self) -> int {
        self.cells.spec_rows()
    }

    /// Well-formedness: the cell store matches the dimensions.
    pub open spec fn wf(&self) -> bool {
        &&& 0 <= self.spec_cols() < 0x8000
        &&& 0 <= self.spec_rows() < 0x4000
        &&& self@.len() == self.spec_cols() * self.spec_rows()
    }

    /// Whether a position lies within the grid.
    pub open spec fn pos_in(&self, p: Position) -> bool {
        &&& 0 <= p.col < self.spec_cols()
        &&& 0 <= p.row < self.spec_rows()
    }

    /// The row-major index of a position within the cell store.
    pub open spec fn index_of(&self, p: Position) -> int {
        p.row * self.spec_cols() + p.col
    }

    /// The cell at position `p`.
    pub open spec fn cell_at(&self, p: Position) -> Cell {
        self@[self.index_of(p)]
    }

    /// Whether the position denoted by `v` lies within the grid.
    pub open spec fn vec_in(&self, v: Vector) -> bool {
        self.pos_in(Position::spec_from_vector(v))
    }

    /// The cell at the position denoted by `v`.
    pub open spec fn cell_at_vec(&self, v: Vector) -> Cell {
        self.cell_at(Position::spec_from_vector(v))
    }

    /// Whether a wall separates `a` from `b`: `false` when neither is
    /// in-grid, `true` when exactly one is (the boundary is always walled),
    /// and the stored flag when both are and `b - a` is one of the six
    /// directions. Any other offset has no wall concept and yields `false`.
    pub open spec fn spec_wall_between(&self, a: Vector, b: Vector) -> bool {
        let a_in = self.vec_in(a);
        let b_in = self.vec_in(b);
        if !a_in && !b_in {
            false
        } else if a_in != b_in {
            true
        } else {
            match wall_owner(a, b) {
                Some((o, side)) => side_flag(self.cell_at_vec(o), side),
                None => false,
            }
        }
    }

    /// An empty maze: no cells at all.
    pub fn empty() -> (m: Maze)
        ensures
            m.wf(),
            m.spec_cols() == 0,
            m.spec_rows() == 0,
            m@.len() == 0,
    {
        Maze { cells: HexGrid::empty() }
    }

    /// The maze for a terminal of the given size: the renderer reserves a
    /// fixed glyph footprint per hex cell, so a `w x h` terminal holds
    /// `(w-3)/8` columns and `(h-3)/4` rows of cells. A terminal too small
    /// for even one cell yields the empty maze. Every cell starts with all
    /// three owned walls present and no color.
    pub fn new(term_width: u16, term_height: u16) -> (m: Maze)
        ensures
            m.wf(),
            term_width >= 11 && term_height >= 7 ==> {
                &&& m.spec_cols() == (term_width - 3) as int / 8
                &&& m.spec_rows() == (term_height - 3) as int / 4
            },
            !(term_width >= 11 && term_height >= 7) ==> m.spec_cols() == 0 && m.spec_rows() == 0,
            forall|i: int| 0 <= i < m@.len() ==> m@[i] == default_cell(),
    {
        if term_width < 11 || term_height < 7 {
            Maze::empty()
        } else {
            let cols: u16 = (term_width - 3) / 8;
            let rows: u16 = (term_height - 3) / 4;
            Maze {
                cells: HexGrid::new_with(
                    cols,
                    rows,
                    Cell { north_east: true, south: true, north_west: true, background: CLEAR_COLOR },
                ),
            }
        }
    }

    /// The number of columns.
    pub fn cols(&self) -> (r: u16)
        ensures
            r as int == self.spec_cols(),
    {
        self.cells.cols()
    }

    /// The number of rows.
    pub fn rows(&self) -> (r: u16)
        ensures
            r as int == self.spec_rows(),
    {
        self.cells.rows()
    }

    /// Whether the maze holds no cells.
    pub fn is_empty(&self) -> (r: bool)
        ensures
            r == (self.spec_cols() == 0 || self.spec_rows() == 0),
    {
        self.cells.is_empty()
    }

    /// Replaces this maze's dimensions and contents with `other`'s.
    pub fn copy_from(&mut self, other: &Maze)
        requires
            other.wf(),
        ensures
            final(self).wf(),
            final(self).spec_cols() == other.spec_cols(),
            final(self).spec_rows() == other.spec_rows(),
            final(self)@ == other@,
    {
        self.cells.copy_from(&other.cells);
    }

    /// Whether the position denoted by `coords` lies within the grid.
    pub fn contains(&self, coords: Vector) -> (r: bool)
        ensures
            r == self.vec_in(coords),
    {
        let p = Position::from_vector(coords);
        self.cells.contains(p)
    }

    /// The background color of the cell denoted by `coords`, or `None`
    /// exactly when `coords` lies outside the grid.
    pub fn background_at(&self, coords: Vector) -> (r: Option<u8>)
        requires
            self.wf(),
        ensures
            match r {
                Some(c) => self.vec_in(coords) && c == self.cell_at_vec(coords).background,
                None => !self.vec_in(coords),
            },
    {
        let p = Position::from_vector(coords);
        if self.cells.contains(p) {
            Some(self.cells.at(p).background)
        } else {
            None
        }
    }

    /// Whether a wall separates `a` from `b`; see
    /// [`Maze::spec_wall_between`].
    pub fn wall_between(&self, a: Vector, b: Vector) -> (r: bool)
        requires
            self.wf(),
        ensures
            r == self.spec_wall_between(a, b),
    {
        let a_inside = self.contains(a);
        let b_inside = self.contains(b);
        if !a_inside && !b_inside {
            return false;
        }
        if a_inside != b_inside {
            return true;
        }

        let dc: i32 = b.col as i32 - a.col as i32;
        let dh: i32 = b.half_row as i32 - a.half_row as i32;
        if dc == 0 && dh == -2 {
            self.cells.at(Position::from_vector(b)).south
        } else if dc == 1 && dh == -1 {
            self.cells.at(Position::from_vector(a)).north_east
        } else if dc == 1 && dh == 1 {
            self.cells.at(Position::from_vector(b)).north_west
        } else if dc == 0 && dh == 2 {
            self.cells.at(Position::from_vector(a)).south
        } else if dc == -1 && dh == 1 {
            self.cells.at(Position::from_vector(b)).north_east
        } else if dc == -1 && dh == -1 {
            self.cells.at(Position::from_vector(a)).north_west
        } else {
            false
        }
    }

    /// Sets or clears the wall between `a` and `b`. Mutating a boundary
    /// (one side out of grid) or a non-adjacent pair is a no-op. When both
    /// cells are in-grid and adjacent, only the owning cell's flag for that
    /// one wall changes: every background, and every wall between any other
    /// pair of cells, is left as it was.
    pub fn set_wall_between(&mut self, a: Vector, b: Vector, present: bool)
        requires
            old(self).wf(),
        ensures
            final(self).wf(),
            final(self).spec_cols() == old(self).spec_cols(),
            final(self).spec_rows() == old(self).spec_rows(),
            match wall_owner(a, b) {
                Some((o, side)) => {
                    if old(self).vec_in(a) && old(self).vec_in(b) {
                        final(self)@ == old(self)@.update(
                            old(self).index_of(Position::spec_from_vector(o)),
                            with_side(old(self).cell_at_vec(o), side, present),
                        )
                    } else {
                        final(self)@ == old(self)@
                    }
                },
                None => final(self)@ == old(self)@,
            },
            old(self).vec_in(a) && old(self).vec_in(b) && wall_owner(a, b) is Some
                ==> final(self).spec_wall_between(a, b) == present,
            forall|i: int|
                0 <= i < old(self)@.len()
                    ==> #[trigger] final(self)@[i].background == old(self)@[i].background,
            a.spec_on_grid() && b.spec_on_grid() ==> forall|x: Vector, y: Vector|
                x.spec_on_grid() && y.spec_on_grid() && !(x == a && y == b) && !(x == b && y == a)
                    ==> #[trigger] final(self).spec_wall_between(x, y)
                        == old(self).spec_wall_between(x, y),
    {
        let a_inside = self.contains(a);
        let b_inside = self.contains(b);
        if a_inside && b_inside {
            let dc: i32 = b.col as i32 - a.col as i32;
            let dh: i32 = b.half_row as i32 - a.half_row as i32;
            if dc == 0 && dh == -2 {
                let p = Position::from_vector(b);
                let c = *self.cells.at(p);
                self.cells.set(p, Cell { south: present, ..c });
            } else if dc == 1 && dh == -1 {
                let p = Position::from_vector(a);
                let c = *self.cells.at(p);
                self.cells.set(p, Cell { north_east: present, ..c });
            } else if dc == 1 && dh == 1 {
                let p = Position::from_vector(b);
                let c = *self.cells.at(p);
                self.cells.set(p, Cell { north_west: present, ..c });
            } else if dc == 0 && dh == 2 {
                let p = Position::from_vector(a);
                let c = *self.cells.at(p);
                self.cells.set(p, Cell { south: present, ..c });
            } else if dc == -1 && dh == 1 {
                let p = Position::from_vector(b);
                let c = *self.cells.at(p);
                self.cells.set(p, Cell { north_east: present, ..c });
            } else if dc == -1 && dh == -1 {
                let p = Position::from_vector(a);
                let c = *self.cells.at(p);
                self.cells.set(p, Cell { north_west: present, ..c });
            }
        }
        proof {
            if old(self).vec_in(a) && old(self).vec_in(b) && wall_owner(a, b) is Some {
                let (o, side) = wall_owner(a, b)->Some_0;
                lemma_grid_index_in_bounds(
                    old(self).spec_cols(),
                    old(self).spec_rows(),
                    Position::spec_from_vector(o),
                );
            }
            self.lemma_set_wall_frame(*old(self), a, b, present);
        }
    }

    /// The frame argument for `set_wall_between`: on-grid wall queries other
    /// than the pair written go to a different slot of the cell store.
    #[verifier::rlimit(50)]
    proof fn lemma_set_wall_frame(&self, prev: Maze, a: Vector, b: Vector, present: bool)
        requires
            prev.wf(),
            self.wf(),
            self.spec_cols() == prev.spec_cols(),
            self.spec_rows() == prev.spec_rows(),
            match wall_owner(a, b) {
                Some((o, side)) => {
                    if prev.vec_in(a) && prev.vec_in(b) {
                        self@ == prev@.update(
                            prev.index_of(Position::spec_from_vector(o)),
                            with_side(prev.cell_at_vec(o), side, present),
                        )
                    } else {
                        self@ == prev@
                    }
                },
                None => self@ == prev@,
            },
        ensures
            a.spec_on_grid() && b.spec_on_grid() ==> forall|x: Vector, y: Vector|
                x.spec_on_grid() && y.spec_on_grid() && !(x == a && y == b) && !(x == b && y == a)
                    ==> #[trigger] self.spec_wall_between(x, y) == prev.spec_wall_between(x, y),
    {
        if a.spec_on_grid() && b.spec_on_grid() {
            assert forall|x: Vector, y: Vector|
                x.spec_on_grid() && y.spec_on_grid() && !(x == a && y == b) && !(x == b && y == a)
                    implies #[trigger] self.spec_wall_between(x, y) == prev.spec_wall_between(
                x,
                y,
            ) by {
                if prev.vec_in(a) && prev.vec_in(b) && wall_owner(a, b) is Some {
                    let (o, side) = wall_owner(a, b)->Some_0;
                    let po = Position::spec_from_vector(o);
                    lemma_vector_round_trip(a);
                    lemma_vector_round_trip(b);
                    lemma_grid_index_in_bounds(prev.spec_cols(), prev.spec_rows(), po);
                    if prev.vec_in(x) && prev.vec_in(y) {
                        let px = Position::spec_from_vector(x);
                        let py = Position::spec_from_vector(y);
                        lemma_vector_round_trip(x);
                        lemma_vector_round_trip(y);
                        lemma_grid_index_in_bounds(prev.spec_cols(), prev.spec_rows(), px);
                        lemma_grid_index_in_bounds(prev.spec_cols(), prev.spec_rows(), py);
                        lemma_grid_index_injective(prev.spec_cols(), prev.spec_rows(), px, po);
                        lemma_grid_index_injective(prev.spec_cols(), prev.spec_rows(), py, po);
                    }
                }
            }
        }
    }

    /// Recolors the cell denoted by `coords`. No wall changes.
    pub fn set_background(&mut self, coords: Vector, color: u8)
        requires
            old(self).wf(),
            old(self).vec_in(coords),
        ensures
            final(self).wf(),
            final(self).spec_cols() == old(self).spec_cols(),
            final(self).spec_rows() == old(self).spec_rows(),
            final(self)@ == old(self)@.update(
                old(self).index_of(Position::spec_from_vector(coords)),
                Cell { background: color, ..old(self).cell_at_vec(coords) },
            ),
            forall|x: Vector, y: Vector| #[trigger]
                final(self).spec_wall_between(x, y) == old(self).spec_wall_between(x, y),
    {
        let p = Position::from_vector(coords);
        let c = *self.cells.at(p);
        self.cells.set(p, Cell { background: color, ..c });
        proof {
            lemma_grid_index_in_bounds(self.spec_cols(), self.spec_rows(), p);
            lemma_walls_depend_on_flags(*old(self), *self);
        }
    }

    /// Recolors every cell. No wall changes.
    pub fn fill_background(&mut self, color: u8)
        requires
            old(self).wf(),
        ensures
            final(self).wf(),
            final(self).spec_cols() == old(self).spec_cols(),
            final(self).spec_rows() == old(self).spec_rows(),
            final(self)@.len() == old(self)@.len(),
            forall|i: int|
                0 <= i < old(self)@.len() ==> #[trigger] final(self)@[i] == (Cell {
                    background: color,
                    ..old(self)@[i]
                }),
            forall|x: Vector, y: Vector| #[trigger]
                final(self).spec_wall_between(x, y) == old(self).spec_wall_between(x, y),
    {
        let cols: u16 = self.cells.cols();
        let rows: u16 = self.cells.rows();
        let mut row: u16 = 0;
        while row < rows
            invariant
                old(self).wf(),
                self.wf(),
                cols == self.spec_cols(),
                rows == self.spec_rows(),
                self.spec_cols() == old(self).spec_cols(),
                self.spec_rows() == old(self).spec_rows(),
                self@.len() == old(self)@.len(),
                row <= rows,
                forall|i: int|
                    0 <= i < row as int * cols as int ==> #[trigger] self@[i] == (Cell {
                        background: color,
                        ..old(self)@[i]
                    }),
                forall|i: int|
                    row as int * cols as int <= i < self@.len()
                        ==> #[trigger] self@[i] == old(self)@[i],
            decreases rows - row,
        {
            let mut col: u16 = 0;
            while col < cols
                invariant
                    old(self).wf(),
                    self.wf(),
                    cols == self.spec_cols(),
                    rows == self.spec_rows(),
                    self.spec_cols() == old(self).spec_cols(),
                    self.spec_rows() == old(self).spec_rows(),
                    self@.len() == old(self)@.len(),
                    row < rows,
                    col <= cols,
                    forall|i: int|
                        0 <= i < row as int * cols as int + col as int ==> #[trigger] self@[i] == (
                        Cell { background: color, ..old(self)@[i] }),
                    forall|i: int|
                        row as int * cols as int + col as int <= i < self@.len()
                        ==> #[trigger] self@[i] == old(self)@[i],
                decreases cols - col,
            {
                let p = Position { col: col as i16, row: row as i16 };
                proof {
                    lemma_grid_index_in_bounds(self.spec_cols(), self.spec_rows(), p);
                }
                let c = *self.cells.at(p);
                self.cells.set(
                    p,
                    Cell {
                        north_east: c.north_east,
                        south: c.south,
                        north_west: c.north_west,
                        background: color,
                    },
                );
                col = col + 1;
            }
            row = row + 1;
            proof {
                assert(row as int * cols as int == (row - 1) as int * cols as int + cols as int)
                    by (nonlinear_arith);
            }
        }
        proof {
            assert(rows as int * cols as int == self.spec_cols() * self.spec_rows())
                by (nonlinear_arith)
                requires
                    rows as int == self.spec_rows(),
                    cols as int == self.spec_cols(),
            ;
            lemma_walls_depend_on_flags(*old(self), *self);
        }
    }

    /// Whether a wall crosses the horizontal probe at `coords`: the wall
    /// between `coords` and its northern neighbor. Used by renderers.
    pub fn horizontal_wall_at(&self, coords: Vector) -> (r: bool)
        requires
            self.wf(),
            i16::MIN + 2 <= coords.half_row,
        ensures
            r == self.spec_wall_between(
                Vector { col: coords.col, half_row: (coords.half_row - 2) as i16 },
                coords,
            ),
    {
        let above = Vector { col: coords.col, half_row: coords.half_row - 2 };
        self.wall_between(above, coords)
    }

    /// Whether a wall crosses the vertical probe at `coords`: an on-grid
    /// probe asks about the cell's north-west edge, an off-grid probe about
    /// the south-west edge of its `nearest_north` cell. Used by renderers.
    pub fn vertical_wall_at(&self, coords: Vector) -> (r: bool)
        requires
            self.wf(),
            i16::MIN < coords.col,
            i16::MIN + 2 <= coords.half_row,
        ensures
            coords.spec_on_grid() ==> r == self.spec_wall_between(
                Vector { col: (coords.col - 1) as i16, half_row: (coords.half_row - 1) as i16 },
                coords,
            ),
            !coords.spec_on_grid() ==> r == self.spec_wall_between(
                Vector { col: (coords.col - 1) as i16, half_row: coords.half_row },
                Vector { col: coords.col, half_row: (coords.half_row - 1) as i16 },
            ),
    {
        if coords.on_grid() {
            let left = Vector { col: coords.col - 1, half_row: coords.half_row - 1 };
            self.wall_between(left, coords)
        } else {
            let north = coords.nearest_north();
            let left = Vector { col: north.col - 1, half_row: north.half_row + 1 };
            self.wall_between(left, north)
        }
    }

    /// Whether any wall meets the vertex probe at `coords`: the three walls
    /// around the vertex between the probe's cell, its north-western or
    /// south-western neighbor location, and the one above. Used by
    /// renderers.
    pub fn vertex_wall_at(&self, coords: Vector) -> (r: bool)
        requires
            self.wf(),
            i16::MIN < coords.col,
            i16::MIN + 2 <= coords.half_row,
        ensures
            coords.spec_on_grid() ==> r == {
                let b = Vector { col: (coords.col - 1) as i16, half_row: (coords.half_row - 1) as i16 };
                let c = Vector { col: coords.col, half_row: (coords.half_row - 2) as i16 };
                self.spec_wall_between(coords, b) || self.spec_wall_between(b, c)
                    || self.spec_wall_between(c, coords)
            },
            !coords.spec_on_grid() ==> r == {
                let a = Vector { col: coords.col, half_row: (coords.half_row - 1) as i16 };
                let b = Vector { col: (coords.col - 1) as i16, half_row: coords.half_row };
                let c = Vector { col: (coords.col - 1) as i16, half_row: (coords.half_row - 2) as i16 };
                self.spec_wall_between(a, b) || self.spec_wall_between(b, c)
                    || self.spec_wall_between(c, a)
            },
    {
        let (a, b, c) = if coords.on_grid() {
            (
                coords,
                Vector { col: coords.col - 1, half_row: coords.half_row - 1 },
                Vector { col: coords.col, half_row: coords.half_row - 2 },
            )
        } else {
            let n = coords.nearest_north();
            (
                n,
                Vector { col: n.col - 1, half_row: n.half_row + 1 },
                Vector { col: n.col - 1, half_row: n.half_row - 1 },
            )
        };
        self.wall_between(a, b) || self.wall_between(b, c) || self.wall_between(c, a)
    }
}

/// How many of the three stored walls of `c` are open (absent).
pub open spec fn open_flags(c: Cell) -> int {
    (if !c.north_east {
        1int
    } else {
        0int
    }) + (if !c.south {
        1int
    } else {
        0int
    }) + (if !c.north_west {
        1int
    } else {
        0int
    })
}

/// `open_flags` as a function value, for summation.
pub open spec fn open_flags_fn() -> spec_fn(Cell) -> int {
    |c: Cell| open_flags(c)
}

/// The total number of open stored walls of a maze's cell sequence. While
/// every flag whose far side lies out of the grid is still set (as the
/// generator keeps it), this is exactly the number of open adjacent in-grid
/// pairs, each counted once at its owning cell.
pub open spec fn open_wall_sum(s: Seq<Cell>) -> int {
    crate::count::sum_by(s, open_flags_fn())
}

/// `c1`'s walls are open wherever `c2`'s are: `c1` has at most the walls of
/// `c2`.
pub open spec fn flags_le(c1: Cell, c2: Cell) -> bool {
    &&& (c1.north_east ==> c2.north_east)
    &&& (c1.south ==> c2.south)
    &&& (c1.north_west ==> c2.north_west)
}

/// Wall queries are monotone in the flags: a maze whose cells have at most
/// the walls of another's has at most its walls, location by location.
pub proof fn lemma_walls_monotone(m1: Maze, m2: Maze)
    requires
        m1.wf(),
        m2.wf(),
        m1.spec_cols() == m2.spec_cols(),
        m1.spec_rows() == m2.spec_rows(),
        m1@.len() == m2@.len(),
        forall|i: int| 0 <= i < m1@.len() ==> flags_le(#[trigger] m1@[i], m2@[i]),
    ensures
        forall|x: Vector, y: Vector|
            #[trigger] m1.spec_wall_between(x, y) ==> m2.spec_wall_between(x, y),
{
    assert forall|x: Vector, y: Vector| #[trigger]
        m1.spec_wall_between(x, y) implies m2.spec_wall_between(x, y) by {
        if m1.vec_in(x) && m1.vec_in(y) && wall_owner(x, y) is Some {
            let (o, side) = wall_owner(x, y)->Some_0;
            let po = Position::spec_from_vector(o);
            lemma_grid_index_in_bounds(m1.spec_cols(), m1.spec_rows(), po);
            assert(flags_le(m1@[m1.index_of(po)], m2@[m1.index_of(po)]));
        }
    }
}

/// Wall queries read only wall flags: two mazes of the same dimensions whose
/// cells agree on all three flags agree on every wall.
pub proof fn lemma_walls_depend_on_flags(m1: Maze, m2: Maze)
    requires
        m1.wf(),
        m2.wf(),
        m1.spec_cols() == m2.spec_cols(),
        m1.spec_rows() == m2.spec_rows(),
        m1@.len() == m2@.len(),
        forall|i: int| 0 <= i < m1@.len() ==> flags_eq(#[trigger] m1@[i], m2@[i]),
    ensures
        forall|x: Vector, y: Vector| #[trigger]
            m1.spec_wall_between(x, y) == m2.spec_wall_between(x, y),
{
    assert forall|x: Vector, y: Vector| #[trigger]
        m1.spec_wall_between(x, y) == m2.spec_wall_between(x, y) by {
        if m1.vec_in(x) && m1.vec_in(y) && wall_owner(x, y) is Some {
            let (o, side) = wall_owner(x, y)->Some_0;
            let po = Position::spec_from_vector(o);
            lemma_grid_index_in_bounds(m1.spec_cols(), m1.spec_rows(), po);
            assert(flags_eq(m1@[m1.index_of(po)], m2@[m1.index_of(po)]));
        }
    }
}

/// Every step of `path` moves to an adjacent cell, and none is blocked by
/// a wall of `m`: said of the last step, and then of the rest.
pub open spec fn path_steps_ok(m: Maze, path: Seq<Vector>) -> bool
    decreases path.len(),
{
    path.len() <= 1 || {
        let last = path.last();
        let prev = path[path.len() - 2];
        &&& (exists|i: int| 0 <= i < 6 && last == #[trigger] prev.spec_neighbor(i))
        &&& !m.spec_wall_between(prev, last)
        &&& path_steps_ok(m, path.drop_last())
    }
}

/// `v` can be reached from the origin cell by steps through open walls.
#[verifier::opaque]
pub open spec fn connected_to_origin(m: Maze, v: Vector) -> bool {
    exists|path: Seq<Vector>|
        {
            &&& #[trigger] path_steps_ok(m, path)
            &&& path.len() >= 1
            &&& path[0] == (Vector { col: 0i16, half_row: 0i16 })
            &&& path.last() == v
        }
}

/// Appending an adjacent, unblocked cell to an adjacent, unblocked path
/// keeps it one.
pub proof fn lemma_path_extend(m: Maze, pv: Seq<Vector>, n: Vector)
    requires
        pv.len() >= 1,
        path_steps_ok(m, pv),
        exists|i: int| 0 <= i < 6 && n == #[trigger] pv.last().spec_neighbor(i),
        !m.spec_wall_between(pv.last(), n),
    ensures
        path_steps_ok(m, pv.push(n)),
{
    assert(pv.push(n).drop_last() =~= pv);
    assert(pv.push(n).last() == n);
    assert(pv.push(n)[pv.push(n).len() - 2] == pv.last());
}

/// A path whose steps are unblocked stays unblocked in a maze with no more
/// walls.
pub proof fn lemma_path_steps_fewer_walls(m1: Maze, m2: Maze, path: Seq<Vector>)
    requires
        path_steps_ok(m1, path),
        forall|x: Vector, y: Vector|
            #[trigger] m2.spec_wall_between(x, y) ==> m1.spec_wall_between(x, y),
    ensures
        path_steps_ok(m2, path),
    decreases path.len(),
{
    if path.len() > 1 {
        lemma_path_steps_fewer_walls(m1, m2, path.drop_last());
    }
}

/// `v` can be reached from the origin cell by a wall-free walk of exactly
/// cost `c`: every step costs 2.
#[verifier::opaque]
pub open spec fn reachable_at_cost(m: Maze, v: Vector, c: int) -> bool {
    exists|path: Seq<Vector>|
        {
            &&& #[trigger] path_steps_ok(m, path)
            &&& path.len() >= 1
            &&& path[0] == (Vector { col: 0i16, half_row: 0i16 })
            &&& path.last() == v
            &&& c == 2 * (path.len() - 1)
        }
}

/// The origin is reached at cost zero by the empty walk.
pub proof fn lemma_reachable_origin(m: Maze)
    ensures
        reachable_at_cost(m, (Vector { col: 0i16, half_row: 0i16 }), 0),
{
    reveal(reachable_at_cost);
    let path = seq![Vector { col: 0i16, half_row: 0i16 }];
    assert(path_steps_ok(m, path));
    assert(path.len() >= 1 && path[0] == (Vector { col: 0i16, half_row: 0i16 }) && path.last()
        == (Vector { col: 0i16, half_row: 0i16 }) && 0 == 2 * (path.len() - 1));
}

/// A cell reached at cost `c` reaches each neighbor behind an open wall at
/// cost `c + 2`.
pub proof fn lemma_reachable_extend(m: Maze, v: Vector, n: Vector, i: int, c: int)
    requires
        reachable_at_cost(m, v, c),
        0 <= i < 6,
        n == v.spec_neighbor(i),
        !m.spec_wall_between(v, n),
    ensures
        reachable_at_cost(m, n, c + 2),
{
    reveal(reachable_at_cost);
    let path = choose|path: Seq<Vector>|
        {
            &&& #[trigger] path_steps_ok(m, path)
            &&& path.len() >= 1
            &&& path[0] == (Vector { col: 0i16, half_row: 0i16 })
            &&& path.last() == v
            &&& c == 2 * (path.len() - 1)
        };
    assert(n == path.last().spec_neighbor(i));
    lemma_path_extend(m, path, n);
    assert(path_steps_ok(m, path.push(n)));
    assert(path.push(n)[0] == path[0]);
    assert(path.push(n).last() == n);
    assert(c + 2 == 2 * (path.push(n).len() - 1));
}

/// A cell reached at some cost stays reached at that cost in a maze with
/// no more walls.
pub proof fn lemma_reachable_fewer_walls(m1: Maze, m2: Maze, v: Vector, c: int)
    requires
        reachable_at_cost(m1, v, c),
        forall|x: Vector, y: Vector|
            #[trigger] m2.spec_wall_between(x, y) ==> m1.spec_wall_between(x, y),
    ensures
        reachable_at_cost(m2, v, c),
{
    reveal(reachable_at_cost);
    let path = choose|path: Seq<Vector>|
        {
            &&& #[trigger] path_steps_ok(m1, path)
            &&& path.len() >= 1
            &&& path[0] == (Vector { col: 0i16, half_row: 0i16 })
            &&& path.last() == v
            &&& c == 2 * (path.len() - 1)
        };
    lemma_path_steps_fewer_walls(m1, m2, path);
    assert(path_steps_ok(m2, path));
}

/// The origin is joined to itself by the empty walk.
pub proof fn lemma_connected_origin(m: Maze)
    ensures
        connected_to_origin(m, (Vector { col: 0i16, half_row: 0i16 })),
{
    reveal(connected_to_origin);
    let path = seq![Vector { col: 0i16, half_row: 0i16 }];
    assert(path_steps_ok(m, path));
    assert(path.len() >= 1 && path[0] == (Vector { col: 0i16, half_row: 0i16 }) && path.last()
        == (Vector { col: 0i16, half_row: 0i16 }));
}

/// A cell joined to the origin stays joined in a maze with no more walls.
pub proof fn lemma_connected_fewer_walls(m1: Maze, m2: Maze, v: Vector)
    requires
        connected_to_origin(m1, v),
        forall|x: Vector, y: Vector|
            #[trigger] m2.spec_wall_between(x, y) ==> m1.spec_wall_between(x, y),
    ensures
        connected_to_origin(m2, v),
{
    reveal(connected_to_origin);
    let path = choose|path: Seq<Vector>|
        {
            &&& #[trigger] path_steps_ok(m1, path)
            &&& path.len() >= 1
            &&& path[0] == (Vector { col: 0i16, half_row: 0i16 })
            &&& path.last() == v
        };
    lemma_path_steps_fewer_walls(m1, m2, path);
    assert(path_steps_ok(m2, path));
}

/// A cell joined to the origin joins each neighbor behind an open wall.
pub proof fn lemma_connected_extend(m: Maze, v: Vector, n: Vector, i: int)
    requires
        connected_to_origin(m, v),
        0 <= i < 6,
        n == v.spec_neighbor(i),
        !m.spec_wall_between(v, n),
    ensures
        connected_to_origin(m, n),
{
    reveal(connected_to_origin);
    let path = choose|path: Seq<Vector>|
        {
            &&& #[trigger] path_steps_ok(m, path)
            &&& path.len() >= 1
            &&& path[0] == (Vector { col: 0i16, half_row: 0i16 })
            &&& path.last() == v
        };
    assert(n == path.last().spec_neighbor(i));
    lemma_path_extend(m, path, n);
    assert(path_steps_ok(m, path.push(n)));
    assert(path.push(n)[0] == path[0]);
    assert(path.push(n).last() == n);
}

/// Wall symmetry: the wall between `a` and `b` is the wall between `b` and
/// `a`, whatever the two locations are.
pub proof fn lemma_wall_symmetric(m: Maze, a: Vector, b: Vector)
    ensures
        m.spec_wall_between(a, b) == m.spec_wall_between(b, a),
{
}

/// Boundary walls: an in-grid cell is always walled off from an out-of-grid
/// location.
pub proof fn lemma_boundary_wall(m: Maze, a: Vector, b: Vector)
    requires
        m.vec_in(a),
        !m.vec_in(b),
    ensures
        m.spec_wall_between(a, b),
{
}

} // verus!
