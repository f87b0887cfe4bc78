//! The two coordinate systems of the hexagonal grid.
//!
//! A [`Vector`] measures displacements and absolute locations in
//! "column + half-row" units: adjacent hexagon rows sit one half-row apart,
//! so every neighbor direction is a small integer vector. A [`Position`]
//! indexes the rectangular cell array directly. A `Vector` denotes an actual
//! cell exactly when `col + half_row` is even ("on-grid"); off-grid vectors
//! denote wall midpoints and vertices.

use vstd::prelude::*;

verus! {

use vstd::math::abs;

/// A vector in orthogonal coordinates: a column and a half-row count.
#[derive(Debug, Clone, Copy, PartialEq, Eq, Structural)]
pub struct Vector {
    pub col: i16,
    pub half_row: i16,
}

/// A position in column-staggered coordinates: `row` counts the actual
/// cells of a column, independent of the half-row stagger.
#[derive(Debug, Clone, Copy, PartialEq, Eq, Structural)]
pub struct Position {
    pub col: i16,
    pub row: i16,
}

impl Vector {
    /// The origin: the cell in the upper-left corner of the grid.
    pub open spec fn zero() -> Vector {
        Vector { col: 0, half_row: 0 }
    }

    /// The six legal single-step offsets between two on-grid vectors,
    /// in their fixed enumeration order.
    pub open spec fn direction(i: int) -> Vector {
        if i == 0 {
            Vector { col: 0i16, half_row: -2i16 }  // north
        } else if i == 1 {
            Vector { col: 1i16, half_row: -1i16 }  // north-east
        } else if i == 2 {
            Vector { col: 1i16, half_row: 1i16 }  // south-east
        } else if i == 3 {
            Vector { col: 0i16, half_row: 2i16 }  // south
        } else if i == 4 {
            Vector { col: -1i16, half_row: 1i16 }  // south-west
        } else {
            Vector { col: -1i16, half_row: -1i16 }  // north-west
        }
    }

    /// The origin cell.
    pub fn origin() -> (v: Vector)
        ensures
            v == Vector::zero(),
    {
        Vector { col: 0, half_row: 0 }
    }

    /// The `i`-th of the six neighbor directions.
    pub fn direction_at(i: usize) -> (v: Vector)
        requires
            i < 6,
        ensures
            v == Vector::direction(i as int),
    {
        match i {
            0 => Vector { col: 0, half_row: -2 },
            1 => Vector { col: 1, half_row: -1 },
            2 => Vector { col: 1, half_row: 1 },
            3 => Vector { col: 0, half_row: 2 },
            4 => Vector { col: -1, half_row: 1 },
            _ => Vector { col: -1, half_row: -1 },
        }
    }

    /// The componentwise sum; exact whenever the sums fit the component
    /// type, as [`Vector::add`] requires.
    pub open spec fn spec_add(self, other: Vector) -> Vector {
        Vector {
            col: (self.col + other.col) as i16,
            half_row: (self.half_row + other.half_row) as i16,
        }
    }

    /// Vector addition. The component sums must fit the component type.
    pub fn add(self, other: Vector) -> (r: Vector)
        requires
            i16::MIN <= self.col + other.col <= i16::MAX,
            i16::MIN <= self.half_row + other.half_row <= i16::MAX,
        ensures
            r == self.spec_add(other),
            r.col == self.col + other.col,
            r.half_row == self.half_row + other.half_row,
    {
        Vector { col: self.col + other.col, half_row: self.half_row + other.half_row }
    }

    /// The componentwise difference; exact whenever the differences fit
    /// the component type, as [`Vector::sub`] requires.
    pub open spec fn spec_sub(self, other: Vector) -> Vector {
        Vector {
            col: (self.col - other.col) as i16,
            half_row: (self.half_row - other.half_row) as i16,
        }
    }

    /// Vector subtraction. The component differences must fit the component type.
    pub fn sub(self, other: Vector) -> (r: Vector)
        requires
            i16::MIN <= self.col - other.col <= i16::MAX,
            i16::MIN <= self.half_row - other.half_row <= i16::MAX,
        ensures
            r == self.spec_sub(other),
            r.col == self.col - other.col,
            r.half_row == self.half_row - other.half_row,
    {
        Vector { col: self.col - other.col, half_row: self.half_row - other.half_row }
    }

    /// Vector negation. The negated components must fit the component type.
    pub fn neg(self) -> (r: Vector)
        requires
            self.col != i16::MIN,
            self.half_row != i16::MIN,
        ensures
            r.col == -self.col,
            r.half_row == -self.half_row,
    {
        Vector { col: -self.col, half_row: -self.half_row }
    }

    /// Whether this vector denotes an actual grid cell: the column and the
    /// half-row must have the same parity.
    pub open spec fn spec_on_grid(self) -> bool {
        (self.col + self.half_row) % 2 == 0
    }

    pub fn on_grid(&self) -> (r: bool)
        ensures
            r == self.spec_on_grid(),
    {
        let s: i32 = self.col as i32 + self.half_row as i32;
        s % 2 == 0
    }

    /// The vector itself if on-grid, else the vector one half-row to the
    /// north: maps an off-grid wall or vertex probe to its owning cell.
    pub open spec fn spec_nearest_north(self) -> Vector {
        if self.spec_on_grid() {
            self
        } else {
            Vector { col: self.col, half_row: (self.half_row - 1) as i16 }
        }
    }

    pub fn nearest_north(&self) -> (r: Vector)
        requires
            !self.spec_on_grid() ==> self.half_row != i16::MIN,
        ensures
            r == self.spec_nearest_north(),
            r.spec_on_grid(),
    {
        if self.on_grid() {
            *self
        } else {
            Vector { col: self.col, half_row: self.half_row - 1 }
        }
    }

    /// The cost metric shared by the maze's edge weights and the search
    /// heuristic: twice the number of hexagon steps needed to cover the
    /// displacement when no wall stands in the way. Every single direction
    /// has length 2.
    pub open spec fn spec_length(self) -> int {
        let c = abs(self.col as int) as int;
        let h = abs(self.half_row as int) as int;
        if h <= c {
            2 * c
        } else {
            c + h
        }
    }

    pub fn length(&self) -> (r: i32)
        ensures
            r == self.spec_length(),
            0 <= r <= 0x20000,
    {
        let c: i32 = if self.col >= 0 {
            self.col as i32
        } else {
            -(self.col as i32)
        };
        let h: i32 = if self.half_row >= 0 {
            self.half_row as i32
        } else {
            -(self.half_row as i32)
        };
        if h <= c {
            2 * c
        } else {
            c + h
        }
    }
}

impl Position {
    /// The staggered coordinate of a cell position: columns with an odd
    /// index sit one half-row lower than columns with an even index.
    pub open spec fn spec_to_vector(self) -> Vector {
        if self.col % 2 == 0 {
            Vector { col: self.col, half_row: (2 * self.row) as i16 }
        } else {
            Vector { col: self.col, half_row: (2 * self.row + 1) as i16 }
        }
    }

    /// Converts a position to its vector. The doubled row must fit the
    /// component type.
    pub fn to_vector(self) -> (v: Vector)
        requires
            -0x4000 <= self.row < 0x4000,
        ensures
            v == self.spec_to_vector(),
            v.col == self.col,
            v.spec_on_grid(),
    {
        let half_row: i16 = if self.col % 2 == 0 {
            2 * self.row
        } else {
            proof {
                lemma_parity_i16(self.col as int);
            }
            2 * self.row + 1
        };
        proof {
            lemma_parity_i16(self.col as int);
        }
        Vector { col: self.col, half_row }
    }

    /// The cell position denoted by a vector: the inverse of
    /// [`Position::spec_to_vector`] on on-grid vectors. The row is the
    /// half-row halved, rounded toward negative infinity.
    pub open spec fn spec_from_vector(v: Vector) -> Position {
        if v.col % 2 == 0 {
            Position { col: v.col, row: (v.half_row as int / 2) as i16 }
        } else {
            Position { col: v.col, row: ((v.half_row - 1) as int / 2) as i16 }
        }
    }

    pub fn from_vector(v: Vector) -> (p: Position)
        ensures
            p == Position::spec_from_vector(v),
            p.col == v.col,
    {
        let hr: i32 = v.half_row as i32;
        let halved: i32 = if v.col % 2 == 0 {
            floor_half(hr)
        } else {
            floor_half(hr - 1)
        };
        proof {
            lemma_parity_i16(v.col as int);
            lemma_half_bounds(v.half_row as int);
            lemma_half_bounds(v.half_row - 1);
        }
        Position { col: v.col, row: halved as i16 }
    }
}

/// `x` halved, rounded toward negative infinity.
fn floor_half(x: i32) -> (r: i32)
    requires
        i32::MIN < x,
    ensures
        r == x as int / 2,
{
    if x >= 0 {
        x / 2
    } else {
        (x - 1) / 2
    }
}

/// Euclidean halving of `y` stays within any bound on `y` itself.
proof fn lemma_half_bounds(y: int)
    ensures
        y >= 0 ==> 0 <= y / 2 <= y,
        y < 0 ==> y <= y / 2 <= 0,
{
    if y >= 0 {
        assert(0 <= y / 2 <= y) by (nonlinear_arith)
            requires
                y >= 0,
        ;
    } else {
        assert(y <= y / 2 <= 0) by (nonlinear_arith)
            requires
                y < 0,
        ;
    }
}

/// Exec-mode remainder classifies parity the same way as the Euclidean
/// remainder of the mathematical integers.
proof fn lemma_parity_i16(c: int)
    requires
        i16::MIN <= c <= i16::MAX,
    ensures
        c % 2 == 0 <==> (if c >= 0 {
            c % 2
        } else {
            -((-c) % 2)
        }) == 0,
{
}

impl Vector {
    /// The neighbor of `self` one step in the `i`-th direction.
    pub open spec fn spec_neighbor(self, i: int) -> Vector {
        self.spec_add(Vector::direction(i))
    }
}

/// The position of the neighbor of the cell at `p` one step in the `i`-th
/// direction: north and south change only the row, while the four diagonal
/// directions change the column by one and land a row up or down depending
/// on the column's stagger.
pub open spec fn neighbor_position(p: Position, i: int) -> Position {
    let dcol: int = if i == 1 || i == 2 {
        1
    } else if i == 4 || i == 5 {
        -1
    } else {
        0
    };
    let drow: int = if i == 0 {
        -1
    } else if i == 3 {
        1
    } else if p.col % 2 == 0 {
        if i == 1 || i == 5 {
            -1
        } else {
            0
        }
    } else {
        if i == 2 || i == 4 {
            1
        } else {
            0
        }
    };
    Position { col: (p.col + dcol) as i16, row: (p.row + drow) as i16 }
}

/// Stepping an on-grid vector in any direction moves its position to the
/// neighboring position, stays on-grid, and keeps the column parity rules.
pub proof fn lemma_neighbor_position(v: Vector, i: int)
    requires
        v.spec_on_grid(),
        0 <= i < 6,
        i16::MIN < v.col < i16::MAX,
        i16::MIN + 2 <= v.half_row <= i16::MAX - 2,
    ensures
        v.spec_neighbor(i).spec_on_grid(),
        Position::spec_from_vector(v.spec_neighbor(i)) == neighbor_position(
            Position::spec_from_vector(v),
            i,
        ),
{
    let p = Position::spec_from_vector(v);
    let n = v.spec_neighbor(i);
    if v.col % 2 == 0 {
        assert(v.half_row % 2 == 0);
        let r = v.half_row as int / 2;
        vstd::arithmetic::div_mod::lemma_fundamental_div_mod(v.half_row as int, 2);
        assert(v.half_row == 2 * r);
        if i == 0 {
            lemma_exact_half(r - 1);
        } else if i == 1 {
            lemma_exact_half(r - 1);
        } else if i == 2 {
            lemma_exact_half(r);
        } else if i == 3 {
            lemma_exact_half(r + 1);
        } else if i == 4 {
            lemma_exact_half(r);
        } else {
            lemma_exact_half(r - 1);
        }
    } else {
        assert(v.half_row % 2 != 0);
        let r = (v.half_row - 1) as int / 2;
        vstd::arithmetic::div_mod::lemma_fundamental_div_mod((v.half_row - 1) as int, 2);
        assert((v.half_row - 1) % 2 == 0);
        assert(v.half_row == 2 * r + 1);
        if i == 0 {
            lemma_exact_half(r);
        } else if i == 1 {
            lemma_exact_half(r);
        } else if i == 2 {
            lemma_exact_half(r + 1);
        } else if i == 3 {
            lemma_exact_half(r + 1);
        } else if i == 4 {
            lemma_exact_half(r + 1);
        } else {
            lemma_exact_half(r);
        }
    }
}

/// Halving an exactly doubled value recovers it.
proof fn lemma_exact_half(r: int)
    ensures
        (2 * r) / 2 == r,
        (2 * r + 1 - 1) / 2 == r,
{
    vstd::arithmetic::div_mod::lemma_fundamental_div_mod_converse(2 * r, 2, r, 0);
}

/// Different directions from one cell land on different positions.
pub proof fn lemma_neighbor_positions_distinct(v: Vector, i: int, j: int)
    requires
        v.spec_on_grid(),
        0 <= i < 6,
        0 <= j < 6,
        i != j,
        0 <= v.col < 0x7fff,
        0 <= v.half_row < 0x7ffe,
    ensures
        Position::spec_from_vector(v.spec_neighbor(i)) != Position::spec_from_vector(
            v.spec_neighbor(j),
        ),
{
    lemma_neighbor_position(v, i);
    lemma_neighbor_position(v, j);
    lemma_half_bounds(v.half_row as int);
    lemma_half_bounds(v.half_row - 1);
}

/// A position's vector is on-grid, and shares its column.
pub proof fn lemma_to_vector_on_grid(p: Position)
    requires
        -0x4000 <= p.row < 0x4000,
    ensures
        p.spec_to_vector().spec_on_grid(),
        p.spec_to_vector().col == p.col,
{
}

/// Coordinate round-trip, one direction: converting a position to its
/// vector and back yields the position itself.
pub proof fn lemma_position_round_trip(p: Position)
    requires
        -0x4000 <= p.row < 0x4000,
    ensures
        Position::spec_from_vector(p.spec_to_vector()) == p,
{
    if p.col % 2 == 0 {
        assert(2 * p.row / 2 == p.row as int) by (nonlinear_arith);
    } else {
        assert((2 * p.row + 1 - 1) / 2 == p.row as int) by (nonlinear_arith);
    }
}

/// Coordinate round-trip, the other direction: converting an on-grid
/// vector to its position and back yields the vector itself.
pub proof fn lemma_vector_round_trip(v: Vector)
    requires
        v.spec_on_grid(),
    ensures
        Position::spec_from_vector(v).spec_to_vector() == v,
{
    if v.col % 2 == 0 {
        assert(v.half_row % 2 == 0);
        assert(2 * (v.half_row as int / 2) == v.half_row as int);
    } else {
        assert((v.half_row - 1) % 2 == 0);
        assert(2 * ((v.half_row - 1) as int / 2) == v.half_row - 1);
    }
}

/// Adding any of the six direction constants to an on-grid vector yields
/// an on-grid vector: every neighbor of a cell is a cell location.
pub proof fn lemma_direction_preserves_parity(v: Vector, i: int)
    requires
        v.spec_on_grid(),
        0 <= i < 6,
        i16::MIN <= v.col + Vector::direction(i).col <= i16::MAX,
        i16::MIN <= v.half_row + Vector::direction(i).half_row <= i16::MAX,
    ensures
        v.spec_add(Vector::direction(i)).spec_on_grid(),
{
}

} // verus!
