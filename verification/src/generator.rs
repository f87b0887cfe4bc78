//! Randomized depth-first-search maze carving, stepped one cell at a time.
//!
//! The generator walks the grid from the origin, opening a wall only when it
//! moves into a cell never visited before, and backtracking along its `tail`
//! stack when the current `head` has no unvisited neighbor. Because every
//! opened wall leads into a fresh cell, the open walls always form a tree on
//! the cells reached so far; once the walk is done they form a spanning tree
//! of the whole grid (a perfect maze).

use vstd::prelude::*;

use crate::count::lemma_sum_by_full;
use crate::count::lemma_sum_by_pointwise_eq;
use crate::count::lemma_sum_by_update;
use crate::count::lemma_sum_by_zero;
use crate::count::sum_by;
use crate::grid::HexGrid;
use crate::grid::lemma_grid_index_in_bounds;
use crate::hex::Position;
use crate::hex::Vector;
use crate::hex::lemma_neighbor_position;
use crate::hex::lemma_position_round_trip;
use crate::hex::lemma_vector_round_trip;
use crate::hex::neighbor_position;
use crate::maze::BLUE;
use crate::maze::CLEAR_COLOR;
use crate::maze::LIGHT_GREY;
use crate::maze::Maze;
use crate::maze::connected_to_origin;
use crate::maze::flags_eq;
use crate::maze::flags_le;
use crate::maze::lemma_connected_extend;
use crate::maze::lemma_connected_fewer_walls;
use crate::maze::lemma_connected_origin;
use crate::maze::lemma_walls_depend_on_flags;
use crate::maze::lemma_walls_monotone;
use crate::maze::open_flags_fn;
use crate::maze::open_wall_sum;
use crate::maze::side_flag;
use crate::maze::wall_owner;
use crate::maze::with_side;

verus! {

/// Counts a `true` as 1, for summing how many cells are visited.
pub open spec fn bool_one_fn() -> spec_fn(bool) -> int {
    |b: bool|
        if b {
            1int
        } else {
            0int
        }
}

/// Relies on `rand::Rng::gen_range` over `0..len`: the result is a
/// uniformly random index strictly below `len`, which must be positive.
#[verifier::external_body]
fn random_index(len: usize) -> (r: usize)
    requires
        len > 0,
    ensures
        r < len,
{
    rand::Rng::gen_range(&mut rand::thread_rng(), 0..len)
}

/// The randomized depth-first-search maze carver.
pub struct Generator {
    pub maze: Maze,
    head: Vector,
    tail: Vec<Vector>,
    visited: HexGrid<bool>,
}

impl Generator {
    /// The maze as carved so far, for contracts.
    pub closed spec fn spec_maze(&self) -> Maze {
        self.maze
    }

    /// Whether the maze has any cell at all.
    pub closed spec fn nonempty(&self) -> bool {
        self.maze.spec_cols() > 0 && self.maze.spec_rows() > 0
    }

    /// The walk's current head cell, for contracts.
    pub closed spec fn head_vec(&self) -> Vector {
        self.head
    }

    /// Whether the cell denoted by `v` has been visited by the walk.
    pub closed spec fn visited_at(&self, v: Vector) -> bool {
        self.visited.spec_at(Position::spec_from_vector(v))
    }

    /// How many cells the walk has visited.
    pub closed spec fn count_visited(&self) -> int {
        sum_by(self.visited@, bool_one_fn())
    }

    /// The size of the visited region including the head, which is only
    /// marked visited at the start of the next step.
    pub closed spec fn v_size(&self) -> int {
        self.count_visited() + if self.nonempty() && !self.visited_at(self.head) {
            1int
        } else {
            0int
        }
    }

    /// Whether direction `i` leads from `v` to an unvisited in-grid cell.
    pub closed spec fn candidate_from(&self, v: Vector, i: int) -> bool {
        self.maze.vec_in(v.spec_neighbor(i)) && !self.visited_at(v.spec_neighbor(i))
    }

    /// The backtracking stack of previously visited cells, oldest first.
    pub closed spec fn tail_seq(&self) -> Seq<Vector> {
        self.tail@
    }

    /// A measure that every step of an unfinished walk strictly shrinks:
    /// twice the number of cells not yet part of the walk, plus the cells
    /// still to backtrack through.
    pub closed spec fn progress_measure(&self) -> int {
        2 * (self.maze.spec_cols() * self.maze.spec_rows() - self.v_size()) + self.tail@.len()
    }

    /// The grids agree in size and the head and tail lie on the grid.
    closed spec fn shape_ok(&self) -> bool {
        &&& self.maze.wf()
        &&& self.visited.wf()
        &&& self.visited.spec_cols() == self.maze.spec_cols()
        &&& self.visited.spec_rows() == self.maze.spec_rows()
        &&& self.head.spec_on_grid()
        &&& (self.nonempty() ==> self.maze.vec_in(self.head))
        &&& (!self.nonempty() ==> self.head == Vector::zero() && self.tail@.len() == 0)
        &&& forall|i: int|
            0 <= i < self.tail@.len() ==> (#[trigger] self.tail@[i]).spec_on_grid()
                && self.maze.vec_in(self.tail@[i]) && self.visited_at(self.tail@[i])
    }

    /// The open walls always number one less than the visited region: they
    /// form a tree on it.
    closed spec fn counts_ok(&self) -> bool {
        &&& (self.nonempty() ==> open_wall_sum(self.maze@) == self.v_size() - 1)
        &&& (!self.nonempty() ==> open_wall_sum(self.maze@) == 0)
        &&& (self.count_visited() == 0 ==> self.head == Vector::zero() && self.tail@.len() == 0)
        &&& (self.count_visited() >= 1 && self.nonempty() ==> self.visited.spec_at(
            Position { col: 0i16, row: 0i16 },
        ))
    }

    /// Every visited cell off the walk's current path has no unvisited
    /// in-grid neighbor: the walk only ever extends at the head.
    closed spec fn closure_ok(&self) -> bool {
        forall|v: Vector, i: int|
            0 <= i < 6 && v.spec_on_grid() && self.maze.vec_in(v) && self.visited_at(v) && v
                != self.head && !self.tail@.contains(v) && self.maze.vec_in(
                #[trigger] v.spec_neighbor(i),
            ) ==> self.visited_at(v.spec_neighbor(i))
    }

    /// Every unvisited cell other than the head still has all six of its
    /// walls: walls are only ever opened into the head's candidate.
    closed spec fn sealed_ok(&self) -> bool {
        forall|v: Vector, i: int|
            0 <= i < 6 && v.spec_on_grid() && self.maze.vec_in(v) && !self.visited_at(v) && v
                != self.head ==> self.maze.spec_wall_between(v, #[trigger] v.spec_neighbor(i))
    }

    /// Every stored wall flag whose far side lies out of the grid is still
    /// set: the boundary is never carved.
    closed spec fn boundary_ok(&self) -> bool {
        &&& forall|v: Vector|
            v.spec_on_grid() && self.maze.vec_in(v) && !self.maze.vec_in(
                #[trigger] v.spec_neighbor(1),
            ) ==> self.maze.cell_at_vec(v).north_east
        &&& forall|v: Vector|
            v.spec_on_grid() && self.maze.vec_in(v) && !self.maze.vec_in(
                #[trigger] v.spec_neighbor(3),
            ) ==> self.maze.cell_at_vec(v).south
        &&& forall|v: Vector|
            v.spec_on_grid() && self.maze.vec_in(v) && !self.maze.vec_in(
                #[trigger] v.spec_neighbor(5),
            ) ==> self.maze.cell_at_vec(v).north_west
    }

    /// Every cell the walk has touched is joined to the origin by steps
    /// through open walls: the open walls connect the visited region.
    closed spec fn tree_ok(&self) -> bool {
        forall|v: Vector|
            v.spec_on_grid() && self.maze.vec_in(v) && (self.visited_at(v) || v == self.head)
                ==> #[trigger] connected_to_origin(self.maze, v)
    }

    /// The generator's invariant, established by `new` and kept by `step`.
    pub closed spec fn wf(&self) -> bool {
        &&& self.shape_ok()
        &&& self.counts_ok()
        &&& self.closure_ok()
        &&& self.sealed_ok()
        &&& self.boundary_ok()
        &&& self.tree_ok()
    }

    /// The walk is complete: nothing to backtrack to and no unvisited
    /// neighbor at the head.
    pub closed spec fn spec_is_done(&self) -> bool {
        self.tail@.len() == 0 && forall|i: int|
            0 <= i < 6 ==> !self.candidate_from(self.head, i)
    }

    /// A fresh generator for a terminal of the given size: a maze with all
    /// walls present (see [`Maze::new`]), the head at the origin, the tail
    /// empty, and no cell visited.
    pub fn new(term_width: u16, term_height: u16) -> (g: Generator)
        ensures
            g.wf(),
            g.spec_maze().wf(),
            term_width >= 11 && term_height >= 7 ==> {
                &&& g.spec_maze().spec_cols() == (term_width - 3) as int / 8
                &&& g.spec_maze().spec_rows() == (term_height - 3) as int / 4
            },
            !(term_width >= 11 && term_height >= 7) ==> g.spec_maze().spec_cols() == 0
                && g.spec_maze().spec_rows() == 0,
            forall|x: Vector, y: Vector|
                #[trigger] g.spec_maze().spec_wall_between(x, y) == (g.spec_maze().vec_in(x)
                    != g.spec_maze().vec_in(y) || (g.spec_maze().vec_in(x) && g.spec_maze().vec_in(
                    y,
                ) && wall_owner(x, y) is Some)),
            forall|i: int|
                0 <= i < g.spec_maze()@.len() ==> g.spec_maze()@[i]
                    == crate::maze::default_cell(),
            g.head_vec() == Vector::zero(),
            g.tail_seq() =~= Seq::<Vector>::empty(),
            g.count_visited() == 0,
            forall|v: Vector|
                v.spec_on_grid() && g.spec_maze().vec_in(v) ==> !(#[trigger] g.visited_at(v)),
            g.spec_maze().spec_cols() == 0 || g.spec_maze().spec_rows() == 0
                ==> g.spec_is_done(),
    {
        let maze = Maze::new(term_width, term_height);
        let cols = maze.cols();
        let rows = maze.rows();
        let visited: HexGrid<bool> = HexGrid::new_with(cols, rows, false);
        let g = Generator {
            maze,
            head: Vector { col: 0, half_row: 0 },
            tail: Vec::new(),
            visited,
        };
        proof {
            lemma_sum_by_zero(g.maze@, open_flags_fn());
            lemma_sum_by_zero(g.visited@, bool_one_fn());
            assert forall|x: Vector, y: Vector| #[trigger]
                g.maze.spec_wall_between(x, y) == (g.maze.vec_in(x) != g.maze.vec_in(y) || (
                g.maze.vec_in(x) && g.maze.vec_in(y) && wall_owner(x, y) is Some)) by {
                if g.maze.vec_in(x) && g.maze.vec_in(y) && wall_owner(x, y) is Some {
                    let (o, side) = wall_owner(x, y)->Some_0;
                    let po = Position::spec_from_vector(o);
                    lemma_grid_index_in_bounds(g.maze.spec_cols(), g.maze.spec_rows(), po);
                }
            }
            assert(g.shape_ok());
            assert(g.counts_ok()) by {
                if g.nonempty() {
                    lemma_grid_index_in_bounds(
                        g.maze.spec_cols(),
                        g.maze.spec_rows(),
                        Position { col: 0i16, row: 0i16 },
                    );
                }
            }
            assert(g.closure_ok()) by {
                assert forall|v: Vector, i: int|
                    0 <= i < 6 && v.spec_on_grid() && g.maze.vec_in(v) && g.visited_at(v) && v
                        != g.head && !g.tail@.contains(v) && g.maze.vec_in(
                        #[trigger] v.spec_neighbor(i),
                    ) implies g.visited_at(v.spec_neighbor(i)) by {
                    lemma_grid_index_in_bounds(
                        g.maze.spec_cols(),
                        g.maze.spec_rows(),
                        Position::spec_from_vector(v),
                    );
                }
            }
            assert forall|v: Vector|
                v.spec_on_grid() && g.spec_maze().vec_in(v) implies !(
            #[trigger] g.visited_at(v)) by {
                lemma_grid_index_in_bounds(
                    g.maze.spec_cols(),
                    g.maze.spec_rows(),
                    Position::spec_from_vector(v),
                );
            }
            if g.maze.spec_cols() == 0 || g.maze.spec_rows() == 0 {
                assert forall|i: int| 0 <= i < 6 implies !g.candidate_from(g.head, i) by {
                    assert(!g.maze.vec_in(g.head.spec_neighbor(i)));
                }
            }
            assert(g.tree_ok()) by {
                assert forall|v: Vector|
                    v.spec_on_grid() && g.maze.vec_in(v) && (g.visited_at(v) || v
                        == g.head) implies #[trigger] connected_to_origin(g.maze, v) by {
                    lemma_grid_index_in_bounds(
                        g.maze.spec_cols(),
                        g.maze.spec_rows(),
                        Position::spec_from_vector(v),
                    );
                    assert(!g.visited_at(v));
                    assert(v == (Vector { col: 0i16, half_row: 0i16 }));
                    lemma_connected_origin(g.maze);
                }
            }
            assert(g.boundary_ok()) by {
                assert forall|v: Vector| v.spec_on_grid() && g.maze.vec_in(v) implies flags_eq(
                    #[trigger] g.maze.cell_at_vec(v),
                    crate::maze::default_cell(),
                ) by {
                    lemma_grid_index_in_bounds(
                        g.maze.spec_cols(),
                        g.maze.spec_rows(),
                        Position::spec_from_vector(v),
                    );
                }
            }
            assert(g.sealed_ok()) by {
                assert forall|v: Vector, i: int|
                    0 <= i < 6 && v.spec_on_grid() && g.maze.vec_in(v) && !g.visited_at(v) && v
                        != g.head implies g.maze.spec_wall_between(
                    v,
                    #[trigger] v.spec_neighbor(i),
                ) by {
                    let n = v.spec_neighbor(i);
                    if g.maze.vec_in(n) {
                        let po = Position::spec_from_vector(
                            wall_owner(v, n)->Some_0.0,
                        );
                        assert(wall_owner(v, n) is Some);
                        lemma_grid_index_in_bounds(g.maze.spec_cols(), g.maze.spec_rows(), po);
                    }
                }
            }
        }
        g
    }

    /// Whether some direction leads from the head to an unvisited in-grid
    /// cell.
    fn has_candidate(&self) -> (r: bool)
        requires
            self.wf(),
        ensures
            r == exists|i: int| 0 <= i < 6 && self.candidate_from(self.head, i),
    {
        let mut i: usize = 0;
        while i < 6
            invariant
                self.wf(),
                i <= 6,
                forall|j: int| 0 <= j < i as int ==> !self.candidate_from(self.head, j),
            decreases 6 - i,
        {
            let d = Vector::direction_at(i);
            let n = self.head.add(d);
            if self.maze.contains(n) {
                let np = Position::from_vector(n);
                if !*self.visited.at(np) {
                    proof {
                        assert(self.candidate_from(self.head, i as int));
                    }
                    return true;
                }
            }
            i = i + 1;
        }
        false
    }

    /// Whether the walk is complete; see [`Generator::spec_is_done`].
    pub fn is_done(&self) -> (r: bool)
        requires
            self.wf(),
        ensures
            r == self.spec_is_done(),
    {
        self.tail.len() == 0 && !self.has_candidate()
    }

    /// All in-grid unvisited neighbors of the head, in direction order;
    /// picks one uniformly at random, or `None` when there is none.
    pub fn pick_next_cell(&self) -> (r: Option<Vector>)
        requires
            self.wf(),
        ensures
            match r {
                Some(v) => {
                    &&& v.spec_on_grid()
                    &&& self.spec_maze().vec_in(v)
                    &&& !self.visited_at(v)
                    &&& exists|i: int| 0 <= i < 6 && self.candidate_from(self.head_vec(), i) && v
                        == self.head_vec().spec_neighbor(i)
                },
                None => forall|i: int| 0 <= i < 6 ==> !self.candidate_from(self.head_vec(), i),
            },
    {
        let mut candidates: Vec<Vector> = Vec::new();
        let mut i: usize = 0;
        while i < 6
            invariant
                self.wf(),
                i <= 6,
                forall|k: int|
                    0 <= k < candidates@.len() ==> {
                        let v = #[trigger] candidates@[k];
                        &&& v.spec_on_grid()
                        &&& self.maze.vec_in(v)
                        &&& !self.visited_at(v)
                        &&& exists|j: int|
                            0 <= j < 6 && self.candidate_from(self.head, j) && v
                                == self.head.spec_neighbor(j)
                    },
                forall|j: int|
                    0 <= j < i as int && self.candidate_from(self.head, j) ==> candidates@.len()
                        > 0,
            decreases 6 - i,
        {
            let d = Vector::direction_at(i);
            let n = self.head.add(d);
            proof {
                if self.nonempty() {
                    lemma_neighbor_position(self.head, i as int);
                }
            }
            if self.maze.contains(n) {
                let np = Position::from_vector(n);
                if !*self.visited.at(np) {
                    candidates.push(n);
                }
            }
            i = i + 1;
        }
        if candidates.len() == 0 {
            None
        } else {
            let k = random_index(candidates.len());
            proof {
                let v = candidates@[k as int];
                assert(v.spec_on_grid());
                assert(self.spec_maze().vec_in(v));
                assert(!self.visited_at(v));
                let j = choose|j: int|
                    0 <= j < 6 && self.candidate_from(self.head, j) && v
                        == self.head.spec_neighbor(j);
                assert(0 <= j < 6 && self.candidate_from(self.head_vec(), j) && v
                    == self.head_vec().spec_neighbor(j));
            }
            Some(candidates[k])
        }
    }

    /// One step of the walk: mark the head visited; then either carve into
    /// a randomly chosen unvisited neighbor, or backtrack one cell, or, when
    /// neither is possible, do nothing (the walk is done and stays done).
    /// Finally recolor the overlay: the tail grey, the head blue. A step
    /// never closes a wall, and once the walk is done the walls never change
    /// again.
    pub fn step(&mut self)
        requires
            old(self).wf(),
        ensures
            final(self).wf(),
            final(self).spec_maze().spec_cols() == old(self).spec_maze().spec_cols(),
            final(self).spec_maze().spec_rows() == old(self).spec_maze().spec_rows(),
            forall|x: Vector, y: Vector| #[trigger]
                final(self).spec_maze().spec_wall_between(x, y) ==> old(
                    self,
                ).spec_maze().spec_wall_between(x, y),
            old(self).spec_is_done() ==> final(self).spec_is_done(),
            old(self).spec_is_done() ==> forall|x: Vector, y: Vector| #[trigger]
                final(self).spec_maze().spec_wall_between(x, y) == old(
                    self,
                ).spec_maze().spec_wall_between(x, y),
            old(self).spec_is_done() ==> final(self).head_vec() == old(self).head_vec()
                && final(self).tail_seq() =~= old(self).tail_seq(),
            // an empty maze is left entirely untouched
            !(old(self).spec_maze().spec_cols() > 0 && old(self).spec_maze().spec_rows() > 0)
                ==> *final(self) == *old(self),
            // the head is marked visited, and no other cell's mark changes
            old(self).spec_maze().spec_cols() > 0 && old(self).spec_maze().spec_rows() > 0
                ==> final(self).visited_at(old(self).head_vec()),
            forall|v: Vector|
                v.spec_on_grid() && old(self).spec_maze().vec_in(v) && v != old(self).head_vec()
                    ==> #[trigger] final(self).visited_at(v) == old(self).visited_at(v),
            // carve: when some direction leads to an unvisited in-grid cell,
            // one such direction is taken: the head moves there, the one
            // wall between them opens, the old head joins the tail, and
            // every other wall stands as before
            old(self).spec_maze().spec_cols() > 0 && old(self).spec_maze().spec_rows() > 0 && (
            exists|i: int| 0 <= i < 6 && old(self).candidate_from(old(self).head_vec(), i))
                ==> exists|i: int|
                {
                    &&& 0 <= i < 6
                    &&& old(self).candidate_from(old(self).head_vec(), i)
                    &&& final(self).head_vec() == old(self).head_vec().spec_neighbor(i)
                    &&& !final(self).spec_maze().spec_wall_between(
                        old(self).head_vec(),
                        old(self).head_vec().spec_neighbor(i),
                    )
                    &&& final(self).tail_seq() =~= old(self).tail_seq().push(
                        old(self).head_vec(),
                    )
                    &&& forall|x: Vector, y: Vector|
                        x.spec_on_grid() && y.spec_on_grid() && !(x == old(self).head_vec() && y
                            == old(self).head_vec().spec_neighbor(i)) && !(x == old(
                            self,
                        ).head_vec().spec_neighbor(i) && y == old(self).head_vec())
                            ==> #[trigger] final(self).spec_maze().spec_wall_between(x, y) == old(
                            self,
                        ).spec_maze().spec_wall_between(x, y)
                },
            // backtrack: with no candidate but cells left on the tail, the
            // head returns to the last tail cell and no wall changes
            old(self).spec_maze().spec_cols() > 0 && old(self).spec_maze().spec_rows() > 0 && (
            forall|i: int| 0 <= i < 6 ==> !old(self).candidate_from(old(self).head_vec(), i))
                && old(self).tail_seq().len() > 0 ==> {
                &&& forall|x: Vector, y: Vector| #[trigger]
                    final(self).spec_maze().spec_wall_between(x, y) == old(
                        self,
                    ).spec_maze().spec_wall_between(x, y)
                &&& final(self).head_vec() == old(self).tail_seq().last()
                &&& final(self).tail_seq() =~= old(self).tail_seq().drop_last()
            },
            // an unfinished walk makes progress
            !old(self).spec_is_done() ==> final(self).progress_measure() < old(
                self,
            ).progress_measure(),
            0 <= final(self).progress_measure(),
    {
        if self.maze.is_empty() {
            proof {
                assert forall|i: int| 0 <= i < 6 implies !self.candidate_from(self.head, i) by {
                    assert(!self.maze.vec_in(self.head.spec_neighbor(i)));
                }
                assert(self.spec_is_done());
                self.lemma_measure_nonneg();
            }
            return ;
        }
        let ghost orig = *old(self);

        // Mark the head visited.
        let hp = Position::from_vector(self.head);
        let ghost pre_mark = *self;
        proof {
            lemma_grid_index_in_bounds(self.maze.spec_cols(), self.maze.spec_rows(), hp);
            lemma_sum_by_update(
                self.visited@,
                bool_one_fn(),
                self.visited.index_of(hp),
                true,
            );
        }
        self.visited.set(hp, true);
        proof {
            self.lemma_mark_preserves(pre_mark);
            assert forall|i: int| 0 <= i < 6 implies self.candidate_from(self.head, i)
                == orig.candidate_from(orig.head, i) by {
                self.lemma_mark_keeps_candidate(orig, i);
            }
        }
        let ghost marked = *self;

        match self.pick_next_cell() {
            Some(next) => {
                let ghost i = choose|i: int|
                    0 <= i < 6 && marked.candidate_from(marked.head, i) && next
                        == marked.head.spec_neighbor(i);
                proof {
                    self.lemma_wall_present_before_carve(next, i);
                }
                let ghost owner = wall_owner(self.head, next)->Some_0;
                proof {
                    lemma_vector_round_trip(self.head);
                    lemma_vector_round_trip(next);
                    lemma_grid_index_in_bounds(
                        self.maze.spec_cols(),
                        self.maze.spec_rows(),
                        Position::spec_from_vector(owner.0),
                    );
                    lemma_sum_by_update(
                        self.maze@,
                        open_flags_fn(),
                        self.maze.index_of(Position::spec_from_vector(owner.0)),
                        with_side(self.maze.cell_at_vec(owner.0), owner.1, false),
                    );
                }
                self.maze.set_wall_between(self.head, next, false);
                self.tail.push(self.head);
                self.head = next;
                proof {
                    self.lemma_carve_preserves(marked, next, i);
                    assert(!orig.spec_is_done()) by {
                        lemma_neighbor_position(orig.head, i);
                        assert(marked.candidate_from(marked.head, i));
                        assert(orig.candidate_from(orig.head, i));
                    }
                }
            },
            None => {
                proof {
                    assert forall|i: int| 0 <= i < 6 implies !marked.candidate_from(
                        marked.head,
                        i,
                    ) by {
                        assert(!marked.candidate_from(marked.head_vec(), i));
                    }
                }
                let popped = self.tail.pop();
                match popped {
                    Some(prev) => {
                        self.head = prev;
                        proof {
                            self.lemma_backtrack_preserves(marked, prev);
                            assert(!orig.spec_is_done());
                        }
                    },
                    None => {
                    },
                }
            },
        }

        // Recolor the overlay: everything clear, the tail grey, the head
        // blue. This never changes a wall.
        let ghost mid = *self;
        self.maze.fill_background(CLEAR_COLOR);
        let mut k: usize = 0;
        while k < self.tail.len()
            invariant
                mid.wf(),
                self.head == mid.head,
                self.tail@ == mid.tail@,
                self.visited == mid.visited,
                self.maze.wf(),
                self.maze.spec_cols() == mid.maze.spec_cols(),
                self.maze.spec_rows() == mid.maze.spec_rows(),
                self.maze@.len() == mid.maze@.len(),
                forall|j: int|
                    0 <= j < self.maze@.len() ==> flags_eq(#[trigger] self.maze@[j], mid.maze@[j]),
            decreases self.tail@.len() - k,
        {
            let t = self.tail[k];
            proof {
                assert(mid.maze.vec_in(t));
                lemma_grid_index_in_bounds(
                    self.maze.spec_cols(),
                    self.maze.spec_rows(),
                    Position::spec_from_vector(t),
                );
            }
            self.maze.set_background(t, LIGHT_GREY);
            k = k + 1;
        }
        proof {
            assert(self.maze.vec_in(self.head)) by {
                assert(mid.maze.vec_in(mid.head));
            }
            lemma_grid_index_in_bounds(
                self.maze.spec_cols(),
                self.maze.spec_rows(),
                Position::spec_from_vector(self.head),
            );
        }
        self.maze.set_background(self.head, BLUE);
        proof {
            self.lemma_recolor_preserves(mid);
            lemma_walls_depend_on_flags(mid.maze, self.maze);

            // A step never closes a wall.
            assert forall|j: int| 0 <= j < self.maze@.len() implies flags_le(
                #[trigger] self.maze@[j],
                orig.maze@[j],
            ) by {
                assert(flags_eq(self.maze@[j], mid.maze@[j]));
                assert(flags_le(mid.maze@[j], orig.maze@[j]));
            }
            lemma_walls_monotone(self.maze, orig.maze);

            // Once done, always done, with the walls untouched.
            if orig.spec_is_done() {
                assert forall|i: int| 0 <= i < 6 implies !self.candidate_from(
                    self.head,
                    i,
                ) by {
                    assert(!orig.candidate_from(orig.head, i));
                    if orig.maze.vec_in(orig.head.spec_neighbor(i)) {
                        lemma_neighbor_position(orig.head, i);
                        assert(marked.visited_at(orig.head.spec_neighbor(i)));
                    }
                }
                assert(self.spec_is_done());
                assert(mid.maze == orig.maze);
                assert forall|x: Vector, y: Vector| #[trigger]
                    self.maze.spec_wall_between(x, y) == orig.maze.spec_wall_between(x, y) by {
                    assert(self.maze.spec_wall_between(x, y) == mid.maze.spec_wall_between(
                        x,
                        y,
                    ));
                }
            }

            // The transition conclusions: what the step did to the walk.
            self.lemma_measure_nonneg();
            assert(self.visited_at(orig.head_vec())) by {
                assert(marked.visited_at(marked.head));
            }
            assert forall|v: Vector|
                v.spec_on_grid() && orig.maze.vec_in(v) && v != orig.head_vec()
                    implies #[trigger] self.visited_at(v) == orig.visited_at(v) by {
                assert(marked.visited_at(v) == (orig.visited_at(v) || v == orig.head));
            }
            if exists|i: int| 0 <= i < 6 && orig.candidate_from(orig.head_vec(), i) {
                // only the carve branch is consistent with a candidate
                let j = choose|j: int|
                    0 <= j < 6 && marked.candidate_from(marked.head, j) && self.head
                        == marked.head.spec_neighbor(j);
                assert(orig.candidate_from(orig.head_vec(), j));
                assert(self.head_vec() == orig.head_vec().spec_neighbor(j));
                assert(!self.maze.spec_wall_between(
                    orig.head_vec(),
                    orig.head_vec().spec_neighbor(j),
                )) by {
                    assert(self.maze.spec_wall_between(orig.head, self.head)
                        == mid.maze.spec_wall_between(orig.head, self.head));
                }
                assert(self.tail_seq() =~= orig.tail_seq().push(orig.head_vec()));
                assert forall|x: Vector, y: Vector|
                    x.spec_on_grid() && y.spec_on_grid() && !(x == orig.head_vec() && y
                        == orig.head_vec().spec_neighbor(j)) && !(x == orig.head_vec(
                    ).spec_neighbor(j) && y == orig.head_vec())
                        implies #[trigger] self.maze.spec_wall_between(x, y)
                        == orig.maze.spec_wall_between(x, y) by {
                    assert(self.maze.spec_wall_between(x, y) == mid.maze.spec_wall_between(
                        x,
                        y,
                    ));
                }
                // progress: the walk grew by one cell
                assert(self.count_visited() == marked.count_visited());
                assert(!self.visited_at(self.head)) by {
                    assert(!marked.visited_at(self.head));
                }
                assert(self.v_size() == orig.v_size() + 1);
                assert(self.progress_measure() < orig.progress_measure());
            }
            if (forall|i: int| 0 <= i < 6 ==> !orig.candidate_from(orig.head_vec(), i))
                && orig.tail_seq().len() > 0 {
                // only the backtrack branch is consistent here
                assert(mid.maze == orig.maze);
                assert forall|x: Vector, y: Vector| #[trigger]
                    self.maze.spec_wall_between(x, y) == orig.maze.spec_wall_between(x, y) by {
                    assert(self.maze.spec_wall_between(x, y) == mid.maze.spec_wall_between(
                        x,
                        y,
                    ));
                }
                assert(self.head_vec() == orig.tail_seq().last());
                assert(self.tail_seq() =~= orig.tail_seq().drop_last());
                // progress: one cell fewer to backtrack through
                assert(self.count_visited() == marked.count_visited());
                assert(self.visited_at(self.head)) by {
                    assert(marked.visited_at(marked.tail@.last()));
                }
                assert(self.v_size() == orig.v_size());
                assert(self.progress_measure() < orig.progress_measure());
            }
        }
    }

    /// Marking the head visited preserves the invariant: the visited region
    /// including the head does not change.
    proof fn lemma_mark_preserves(&self, pre: Generator)
        requires
            pre.wf(),
            pre.nonempty(),
            self.maze == pre.maze,
            self.head == pre.head,
            self.tail == pre.tail,
            self.visited.spec_cols() == pre.visited.spec_cols(),
            self.visited.spec_rows() == pre.visited.spec_rows(),
            self.visited@ == pre.visited@.update(
                pre.visited.index_of(Position::spec_from_vector(pre.head)),
                true,
            ),
            self.visited.wf(),
            sum_by(self.visited@, bool_one_fn()) == sum_by(pre.visited@, bool_one_fn())
                - bool_one_fn()(
                pre.visited@[pre.visited.index_of(Position::spec_from_vector(pre.head))],
            ) + 1,
        ensures
            self.wf(),
            self.count_visited() >= 1,
            forall|v: Vector|
                v.spec_on_grid() && self.maze.vec_in(v) ==> (#[trigger] self.visited_at(v) == (
                pre.visited_at(v) || v == pre.head)),
            self.visited_at(self.head),
            self.v_size() == pre.v_size(),
    {
        let hp = Position::spec_from_vector(pre.head);
        lemma_grid_index_in_bounds(self.maze.spec_cols(), self.maze.spec_rows(), hp);
        assert forall|v: Vector| v.spec_on_grid() && self.maze.vec_in(v) implies (
        #[trigger] self.visited_at(v) == (pre.visited_at(v) || v == pre.head)) by {
            let pv = Position::spec_from_vector(v);
            lemma_grid_index_in_bounds(self.maze.spec_cols(), self.maze.spec_rows(), pv);
            crate::grid::lemma_grid_index_injective(
                self.maze.spec_cols(),
                self.maze.spec_rows(),
                pv,
                hp,
            );
            lemma_vector_round_trip(v);
            lemma_vector_round_trip(pre.head);
        }
        assert(self.visited_at(self.head));
        assert(self.count_visited() >= 1) by {
            if pre.visited@[pre.visited.index_of(hp)] {
                lemma_sum_by_nonneg_at(pre.visited@, pre.visited.index_of(hp));
            } else {
                crate::count::lemma_sum_by_nonneg(pre.visited@, bool_one_fn());
            }
        }
        assert(self.shape_ok());
        assert(self.counts_ok()) by {
            if self.nonempty() && sum_by(pre.visited@, bool_one_fn()) == 0 {
                assert(pre.head == Vector::zero());
                assert(self.visited.spec_at(Position { col: 0i16, row: 0i16 }));
            } else {
                if self.nonempty() && sum_by(pre.visited@, bool_one_fn()) >= 1 {
                    lemma_grid_index_in_bounds(
                        self.maze.spec_cols(),
                        self.maze.spec_rows(),
                        Position { col: 0i16, row: 0i16 },
                    );
                }
            }
        }
        assert(self.closure_ok()) by {
            assert forall|v: Vector, i: int|
                0 <= i < 6 && v.spec_on_grid() && self.maze.vec_in(v) && self.visited_at(v) && v
                    != self.head && !self.tail@.contains(v) && self.maze.vec_in(
                    #[trigger] v.spec_neighbor(i),
                ) implies self.visited_at(v.spec_neighbor(i)) by {
                lemma_neighbor_position(v, i);
                assert(pre.visited_at(v));
                assert(pre.visited_at(v.spec_neighbor(i)) || v.spec_neighbor(i) == pre.head);
            }
        }
        assert(self.sealed_ok()) by {
            assert forall|v: Vector, i: int|
                0 <= i < 6 && v.spec_on_grid() && self.maze.vec_in(v) && !self.visited_at(v) && v
                    != self.head implies self.maze.spec_wall_between(
                v,
                #[trigger] v.spec_neighbor(i),
            ) by {
                assert(!pre.visited_at(v));
            }
        }
        assert(self.boundary_ok());
        assert(self.tree_ok()) by {
            assert forall|v: Vector|
                v.spec_on_grid() && self.maze.vec_in(v) && (self.visited_at(v) || v
                    == self.head) implies #[trigger] connected_to_origin(self.maze, v) by {
                assert(pre.visited_at(v) || v == pre.head);
                assert(connected_to_origin(pre.maze, v));
            }
        }
    }

    /// Marking the head changes no other cell's mark, so it changes no
    /// candidacy: a neighbor of the head is never the head itself.
    proof fn lemma_mark_keeps_candidate(&self, pre: Generator, i: int)
        requires
            pre.wf(),
            pre.nonempty(),
            0 <= i < 6,
            self.maze == pre.maze,
            self.head == pre.head,
            forall|v: Vector|
                v.spec_on_grid() && self.maze.vec_in(v) ==> (#[trigger] self.visited_at(v) == (
                pre.visited_at(v) || v == pre.head)),
        ensures
            self.candidate_from(self.head, i) == pre.candidate_from(pre.head, i),
    {
        let n = self.head.spec_neighbor(i);
        if self.maze.vec_in(n) {
            lemma_neighbor_position(self.head, i);
            lemma_vector_round_trip(self.head);
            lemma_vector_round_trip(n);
            assert(Position::spec_from_vector(n) != Position::spec_from_vector(self.head));
            assert(n != self.head);
        }
    }

    /// The measure is never negative: the walk's region fits the grid.
    proof fn lemma_measure_nonneg(&self)
        requires
            self.wf(),
        ensures
            0 <= self.progress_measure(),
    {
        assert forall|k: int| 0 <= k < self.visited@.len() implies bool_one_fn()(
            #[trigger] self.visited@[k],
        ) <= 1 by {}
        crate::count::lemma_sum_by_le_len(self.visited@, bool_one_fn());
        if self.nonempty() && !self.visited_at(self.head) {
            let hp = Position::spec_from_vector(self.head);
            lemma_grid_index_in_bounds(self.maze.spec_cols(), self.maze.spec_rows(), hp);
            crate::count::lemma_sum_by_short_at(
                self.visited@,
                bool_one_fn(),
                self.visited.index_of(hp),
            );
        }
    }

    /// The wall about to be carved is still present: the candidate has
    /// never been entered, so all its walls stand.
    proof fn lemma_wall_present_before_carve(&self, next: Vector, i: int)
        requires
            self.wf(),
            self.nonempty(),
            self.visited_at(self.head),
            0 <= i < 6,
            self.candidate_from(self.head, i),
            next == self.head.spec_neighbor(i),
        ensures
            self.maze.spec_wall_between(self.head, next),
            wall_owner(self.head, next) is Some,
            ({
                let (o, side) = wall_owner(self.head, next)->Some_0;
                side_flag(self.maze.cell_at_vec(o), side)
            }),
            next != self.head,
            next.spec_on_grid(),
    {
        lemma_neighbor_position(self.head, i);
        let j: int = if i < 3 {
            i + 3
        } else {
            i - 3
        };
        lemma_neighbor_position(next, j);
        assert(next.spec_neighbor(j) == self.head);
        assert(next != self.head);
        assert(self.maze.spec_wall_between(next, self.head));
        crate::maze::lemma_wall_symmetric(self.maze, self.head, next);
        let (o, side) = wall_owner(self.head, next)->Some_0;
        lemma_grid_index_in_bounds(
            self.maze.spec_cols(),
            self.maze.spec_rows(),
            Position::spec_from_vector(o),
        );
    }

    /// Carving into the chosen candidate and stepping onto it preserves the
    /// invariant: the tree gains one cell and one open wall.
    proof fn lemma_carve_preserves(&self, pre: Generator, next: Vector, i: int)
        requires
            pre.wf(),
            pre.nonempty(),
            pre.visited_at(pre.head),
            0 <= i < 6,
            pre.candidate_from(pre.head, i),
            next == pre.head.spec_neighbor(i),
            self.visited == pre.visited,
            self.head == next,
            self.tail@ == pre.tail@.push(pre.head),
            self.maze.wf(),
            self.maze.spec_cols() == pre.maze.spec_cols(),
            self.maze.spec_rows() == pre.maze.spec_rows(),
            wall_owner(pre.head, next) is Some,
            ({
                let (o, side) = wall_owner(pre.head, next)->Some_0;
                &&& side_flag(pre.maze.cell_at_vec(o), side)
                &&& self.maze@ == pre.maze@.update(
                    pre.maze.index_of(Position::spec_from_vector(o)),
                    with_side(pre.maze.cell_at_vec(o), side, false),
                )
            }),
            forall|x: Vector, y: Vector|
                x.spec_on_grid() && y.spec_on_grid() && !(x == pre.head && y == next) && !(x == next
                    && y == pre.head) ==> #[trigger] self.maze.spec_wall_between(x, y)
                    == pre.maze.spec_wall_between(x, y),
        ensures
            self.wf(),
    {
        let (o, side) = wall_owner(pre.head, next)->Some_0;
        let po = Position::spec_from_vector(o);
        let oidx = pre.maze.index_of(po);
        lemma_neighbor_position(pre.head, i);
        let j: int = if i < 3 {
            i + 3
        } else {
            i - 3
        };
        lemma_neighbor_position(next, j);
        assert(next.spec_neighbor(j) == pre.head);
        lemma_vector_round_trip(pre.head);
        lemma_vector_round_trip(next);
        lemma_grid_index_in_bounds(pre.maze.spec_cols(), pre.maze.spec_rows(), po);
        lemma_sum_by_update(
            pre.maze@,
            open_flags_fn(),
            oidx,
            with_side(pre.maze.cell_at_vec(o), side, false),
        );
        assert(open_wall_sum(self.maze@) == open_wall_sum(pre.maze@) + 1);
        let ph = Position::spec_from_vector(pre.head);
        lemma_grid_index_in_bounds(pre.maze.spec_cols(), pre.maze.spec_rows(), ph);
        lemma_sum_by_nonneg_at(self.visited@, self.visited.index_of(ph));

        assert(self.shape_ok()) by {
            assert forall|k: int| 0 <= k < self.tail@.len() implies (
            #[trigger] self.tail@[k]).spec_on_grid() && self.maze.vec_in(self.tail@[k])
                && self.visited_at(self.tail@[k]) by {
                if k < pre.tail@.len() {
                    assert(self.tail@[k] == pre.tail@[k]);
                } else {
                    assert(self.tail@[k] == pre.head);
                }
            }
        }
        assert(self.counts_ok());
        assert(self.closure_ok()) by {
            assert forall|v: Vector, m: int|
                0 <= m < 6 && v.spec_on_grid() && self.maze.vec_in(v) && self.visited_at(v) && v
                    != self.head && !self.tail@.contains(v) && self.maze.vec_in(
                    #[trigger] v.spec_neighbor(m),
                ) implies self.visited_at(v.spec_neighbor(m)) by {
                assert(!pre.tail@.contains(v) && v != pre.head) by {
                    if pre.tail@.contains(v) {
                        let k = choose|k: int| 0 <= k < pre.tail@.len() && pre.tail@[k] == v;
                        assert(self.tail@[k] == v);
                        assert(false);
                    }
                    if v == pre.head {
                        assert(self.tail@[pre.tail@.len() as int] == v);
                        assert(false);
                    }
                }
            }
        }
        assert(self.sealed_ok()) by {
            assert forall|v: Vector, m: int|
                0 <= m < 6 && v.spec_on_grid() && self.maze.vec_in(v) && !self.visited_at(v) && v
                    != self.head implies self.maze.spec_wall_between(
                v,
                #[trigger] v.spec_neighbor(m),
            ) by {
                lemma_neighbor_position(v, m);
                let n = v.spec_neighbor(m);
                assert(v != pre.head);
                assert(pre.maze.spec_wall_between(v, n));
                assert(!(v == pre.head && n == next) && !(v == next && n == pre.head));
            }
        }
        assert(self.tree_ok()) by {
            assert forall|x: int| 0 <= x < self.maze@.len() implies flags_le(
                #[trigger] self.maze@[x],
                pre.maze@[x],
            ) by {}
            lemma_walls_monotone(self.maze, pre.maze);
            assert forall|v: Vector|
                v.spec_on_grid() && self.maze.vec_in(v) && (self.visited_at(v) || v
                    == self.head) implies #[trigger] connected_to_origin(self.maze, v) by {
                if v == next {
                    assert(connected_to_origin(pre.maze, pre.head));
                    lemma_connected_fewer_walls(pre.maze, self.maze, pre.head);
                    assert(!self.maze.spec_wall_between(pre.head, next));
                    lemma_connected_extend(self.maze, pre.head, next, i);
                } else {
                    assert(pre.visited_at(v));
                    assert(connected_to_origin(pre.maze, v));
                    lemma_connected_fewer_walls(pre.maze, self.maze, v);
                }
            }
        }
        assert(self.boundary_ok()) by {
            assert forall|v: Vector|
                v.spec_on_grid() && self.maze.vec_in(v) && !self.maze.vec_in(
                    #[trigger] v.spec_neighbor(1),
                ) implies self.maze.cell_at_vec(v).north_east by {
                self.lemma_boundary_case(pre, next, i, v, 1);
            }
            assert forall|v: Vector|
                v.spec_on_grid() && self.maze.vec_in(v) && !self.maze.vec_in(
                    #[trigger] v.spec_neighbor(3),
                ) implies self.maze.cell_at_vec(v).south by {
                self.lemma_boundary_case(pre, next, i, v, 3);
            }
            assert forall|v: Vector|
                v.spec_on_grid() && self.maze.vec_in(v) && !self.maze.vec_in(
                    #[trigger] v.spec_neighbor(5),
                ) implies self.maze.cell_at_vec(v).north_west by {
                self.lemma_boundary_case(pre, next, i, v, 5);
            }
        }
    }

    /// One stored flag of the carved maze, seen from a cell whose far side
    /// is out of the grid, is still set: the carved wall has both sides in
    /// the grid.
    #[verifier::rlimit(50)]
    proof fn lemma_boundary_case(&self, pre: Generator, next: Vector, i: int, v: Vector, s: int)
        requires
            pre.wf(),
            pre.nonempty(),
            0 <= i < 6,
            pre.candidate_from(pre.head, i),
            next == pre.head.spec_neighbor(i),
            self.maze.wf(),
            self.maze.spec_cols() == pre.maze.spec_cols(),
            self.maze.spec_rows() == pre.maze.spec_rows(),
            wall_owner(pre.head, next) is Some,
            self.maze@ == pre.maze@.update(
                pre.maze.index_of(
                    Position::spec_from_vector(wall_owner(pre.head, next)->Some_0.0),
                ),
                with_side(
                    pre.maze.cell_at_vec(wall_owner(pre.head, next)->Some_0.0),
                    wall_owner(pre.head, next)->Some_0.1,
                    false,
                ),
            ),
            s == 1 || s == 3 || s == 5,
            v.spec_on_grid(),
            self.maze.vec_in(v),
            !self.maze.vec_in(v.spec_neighbor(s)),
        ensures
            s == 1 ==> self.maze.cell_at_vec(v).north_east,
            s == 3 ==> self.maze.cell_at_vec(v).south,
            s == 5 ==> self.maze.cell_at_vec(v).north_west,
    {
        let o = wall_owner(pre.head, next)->Some_0.0;
        let side = wall_owner(pre.head, next)->Some_0.1;
        let po = Position::spec_from_vector(o);
        let pv = Position::spec_from_vector(v);
        lemma_neighbor_position(pre.head, i);
        lemma_neighbor_position(v, s);
        lemma_vector_round_trip(v);
        lemma_vector_round_trip(pre.head);
        lemma_vector_round_trip(next);
        lemma_grid_index_in_bounds(pre.maze.spec_cols(), pre.maze.spec_rows(), po);
        lemma_grid_index_in_bounds(pre.maze.spec_cols(), pre.maze.spec_rows(), pv);
        crate::grid::lemma_grid_index_injective(
            pre.maze.spec_cols(),
            pre.maze.spec_rows(),
            pv,
            po,
        );
        if pre.maze.index_of(pv) == pre.maze.index_of(po) {
            // `v` owns the carved wall; the carved side faces an in-grid
            // cell, so it is not the side whose far side is out of grid.
            assert(v == o);
            let other: Vector = if o == pre.head {
                next
            } else {
                pre.head
            };
            let d: int = match side {
                crate::maze::WallSide::NorthEast => 1,
                crate::maze::WallSide::South => 3,
                crate::maze::WallSide::NorthWest => 5,
            };
            lemma_neighbor_position(o, d);
            assert(o.spec_neighbor(d) == other);
            assert(self.maze.vec_in(other));
        }
    }

    /// Backtracking onto the last tail cell preserves the invariant.
    proof fn lemma_backtrack_preserves(&self, pre: Generator, prev: Vector)
        requires
            pre.wf(),
            pre.nonempty(),
            pre.visited_at(pre.head),
            forall|i: int| 0 <= i < 6 ==> !pre.candidate_from(pre.head, i),
            pre.tail@.len() > 0,
            prev == pre.tail@.last(),
            self.maze == pre.maze,
            self.visited == pre.visited,
            self.head == prev,
            self.tail@ == pre.tail@.drop_last(),
        ensures
            self.wf(),
    {
        assert(self.shape_ok()) by {
            assert(pre.tail@[pre.tail@.len() - 1] == prev);
            assert forall|k: int| 0 <= k < self.tail@.len() implies (
            #[trigger] self.tail@[k]).spec_on_grid() && self.maze.vec_in(self.tail@[k])
                && self.visited_at(self.tail@[k]) by {
                assert(self.tail@[k] == pre.tail@[k]);
            }
        }
        assert(self.counts_ok());
        assert(self.closure_ok()) by {
            assert forall|v: Vector, m: int|
                0 <= m < 6 && v.spec_on_grid() && self.maze.vec_in(v) && self.visited_at(v) && v
                    != self.head && !self.tail@.contains(v) && self.maze.vec_in(
                    #[trigger] v.spec_neighbor(m),
                ) implies self.visited_at(v.spec_neighbor(m)) by {
                if v == pre.head {
                    lemma_neighbor_position(v, m);
                    assert(!pre.candidate_from(pre.head, m));
                } else {
                    assert(!pre.tail@.contains(v)) by {
                        if pre.tail@.contains(v) {
                            let k = choose|k: int|
                                0 <= k < pre.tail@.len() && pre.tail@[k] == v;
                            if k < pre.tail@.len() - 1 {
                                assert(self.tail@[k] == v);
                                assert(false);
                            } else {
                                assert(v == prev);
                                assert(false);
                            }
                        }
                    }
                }
            }
        }
        assert(self.sealed_ok()) by {
            assert forall|v: Vector, m: int|
                0 <= m < 6 && v.spec_on_grid() && self.maze.vec_in(v) && !self.visited_at(v) && v
                    != self.head implies self.maze.spec_wall_between(
                v,
                #[trigger] v.spec_neighbor(m),
            ) by {
                assert(v != pre.head);
            }
        }
        assert(self.boundary_ok());
        assert(self.tree_ok()) by {
            assert forall|v: Vector|
                v.spec_on_grid() && self.maze.vec_in(v) && (self.visited_at(v) || v
                    == self.head) implies #[trigger] connected_to_origin(self.maze, v) by {
                assert(pre.visited_at(v));
                assert(connected_to_origin(pre.maze, v));
            }
        }
    }

    /// Recoloring cells changes no wall flag, no dimension, and none of the
    /// walk's bookkeeping, so it preserves the invariant.
    proof fn lemma_recolor_preserves(&self, pre: Generator)
        requires
            pre.wf(),
            self.head == pre.head,
            self.tail@ == pre.tail@,
            self.visited == pre.visited,
            self.maze.wf(),
            self.maze.spec_cols() == pre.maze.spec_cols(),
            self.maze.spec_rows() == pre.maze.spec_rows(),
            self.maze@.len() == pre.maze@.len(),
            forall|j: int| 0 <= j < self.maze@.len() ==> flags_eq(#[trigger] self.maze@[j], pre.maze@[j]),
        ensures
            self.wf(),
            forall|x: Vector, y: Vector| #[trigger]
                self.maze.spec_wall_between(x, y) == pre.maze.spec_wall_between(x, y),
    {
        lemma_walls_depend_on_flags(pre.maze, self.maze);
        assert(open_wall_sum(self.maze@) == open_wall_sum(pre.maze@)) by {
            assert forall|j: int| 0 <= j < self.maze@.len() implies open_flags_fn()(
                #[trigger] self.maze@[j],
            ) == open_flags_fn()(pre.maze@[j]) by {
                assert(flags_eq(self.maze@[j], pre.maze@[j]));
            }
            lemma_sum_by_pointwise_eq(self.maze@, pre.maze@, open_flags_fn());
        }
        assert(self.shape_ok());
        assert(self.counts_ok());
        assert(self.closure_ok());
        assert(self.sealed_ok()) by {
            assert forall|v: Vector, m: int|
                0 <= m < 6 && v.spec_on_grid() && self.maze.vec_in(v) && !self.visited_at(v) && v
                    != self.head implies self.maze.spec_wall_between(
                v,
                #[trigger] v.spec_neighbor(m),
            ) by {
                assert(pre.maze.spec_wall_between(v, v.spec_neighbor(m)));
            }
        }
        assert(self.boundary_ok()) by {
            assert forall|v: Vector| v.spec_on_grid() && self.maze.vec_in(v) implies flags_eq(
                #[trigger] self.maze.cell_at_vec(v),
                pre.maze.cell_at_vec(v),
            ) by {
                lemma_grid_index_in_bounds(
                    self.maze.spec_cols(),
                    self.maze.spec_rows(),
                    Position::spec_from_vector(v),
                );
            }
        }
        assert(self.tree_ok()) by {
            assert forall|v: Vector|
                v.spec_on_grid() && self.maze.vec_in(v) && (self.visited_at(v) || v
                    == self.head) implies #[trigger] connected_to_origin(self.maze, v) by {
                assert(pre.visited_at(v) || v == pre.head);
                assert(connected_to_origin(pre.maze, v));
                lemma_connected_fewer_walls(pre.maze, self.maze, v);
            }
        }
    }
}

/// Once the walk is done, every cell of a nonempty grid with at least one
/// visited cell has been visited: the visited set is closed under adjacency
/// and the grid is connected through the origin.
proof fn lemma_all_visited(g: &Generator, p: Position)
    requires
        g.wf(),
        g.spec_is_done(),
        g.nonempty(),
        g.count_visited() >= 1,
        g.maze.pos_in(p),
    ensures
        g.visited.spec_at(p),
    decreases p.col + p.row,
{
    if p.col == 0 && p.row == 0 {
        assert(g.visited.spec_at(Position { col: 0i16, row: 0i16 }));
    } else {
        let (pp, j): (Position, int) = if p.col > 0 {
            let pp = Position { col: (p.col - 1) as i16, row: p.row };
            (
                pp,
                if pp.col % 2 == 0 {
                    2int
                } else {
                    1int
                },
            )
        } else {
            (Position { col: p.col, row: (p.row - 1) as i16 }, 3int)
        };
        lemma_all_visited(g, pp);
        let vp = pp.spec_to_vector();
        crate::hex::lemma_to_vector_on_grid(pp);
        lemma_position_round_trip(pp);
        lemma_neighbor_position(vp, j);
        let n = vp.spec_neighbor(j);
        assert(Position::spec_from_vector(n) == p);
        assert(g.maze.vec_in(n));
        assert(g.visited_at(vp));
        if vp == g.head {
            assert(!g.candidate_from(g.head, j));
            assert(g.visited_at(n));
        } else {
            assert(!g.tail@.contains(vp));
            assert(g.visited_at(n));
        }
    }
}

/// The spanning-tree count: once the walk on a nonempty grid is done, the
/// number of open walls — equally, of adjacent cell pairs not separated by
/// a wall — is exactly one less than the number of cells. Together with the
/// step invariant that open walls only ever join the visited region one
/// fresh cell at a time, the open walls form a spanning tree of the grid:
/// the maze is perfect.
pub proof fn lemma_spanning_tree_count(g: &Generator)
    requires
        g.wf(),
        g.spec_is_done(),
        g.spec_maze().spec_cols() > 0,
        g.spec_maze().spec_rows() > 0,
    ensures
        open_wall_sum(g.spec_maze()@) == g.spec_maze().spec_cols() * g.spec_maze().spec_rows()
            - 1,
{
    let cols = g.maze.spec_cols();
    let rows = g.maze.spec_rows();
    if g.count_visited() == 0 {
        // Nothing was ever visited, yet the walk is done: the origin has no
        // in-grid neighbor at all, so the grid is a single cell.
        assert forall|v: Vector| g.maze.vec_in(v) implies !g.visited_at(v) by {
            lemma_grid_index_in_bounds(cols, rows, Position::spec_from_vector(v));
            if g.visited_at(v) {
                lemma_sum_by_nonneg_at(
                    g.visited@,
                    g.visited.index_of(Position::spec_from_vector(v)),
                );
            }
        }
        let zero = Vector { col: 0i16, half_row: 0i16 };
        assert(g.head == zero);
        lemma_neighbor_position(zero, 2);
        lemma_neighbor_position(zero, 3);
        assert(!g.candidate_from(zero, 2));
        assert(!g.candidate_from(zero, 3));
        assert(Position::spec_from_vector(zero) == Position { col: 0i16, row: 0i16 });
        assert(neighbor_position(Position { col: 0i16, row: 0i16 }, 2) == Position {
            col: 1i16,
            row: 0i16,
        });
        assert(neighbor_position(Position { col: 0i16, row: 0i16 }, 3) == Position {
            col: 0i16,
            row: 1i16,
        });
        assert(cols == 1 && rows == 1);
        assert(!g.visited_at(g.head)) by {
            lemma_grid_index_in_bounds(cols, rows, Position { col: 0i16, row: 0i16 });
        }
        assert(open_wall_sum(g.maze@) == 0);
        assert(cols * rows == 1) by (nonlinear_arith)
            requires
                cols == 1,
                rows == 1,
        ;
        assert(open_wall_sum(g.spec_maze()@) == g.spec_maze().spec_cols()
            * g.spec_maze().spec_rows() - 1);
    } else {
        // Every cell was visited, so the tree on the visited region spans
        // the whole grid.
        crate::count::lemma_sum_by_nonneg(g.visited@, bool_one_fn());
        assert(g.count_visited() >= 1);
        assert forall|i: int| 0 <= i < g.visited@.len() implies bool_one_fn()(
            #[trigger] g.visited@[i],
        ) == 1 by {
            let q = i / cols;
            let r = i % cols;
            vstd::arithmetic::div_mod::lemma_fundamental_div_mod(i, cols);
            vstd::arithmetic::div_mod::lemma_mod_bound(i, cols);
            assert(q >= 0) by (nonlinear_arith)
                requires
                    i >= 0,
                    cols > 0,
                    i == q * cols + r,
                    0 <= r < cols,
            ;
            assert(q < rows) by (nonlinear_arith)
                requires
                    i < cols * rows,
                    cols > 0,
                    i == q * cols + r,
                    0 <= r < cols,
            ;
            let p = Position { col: r as i16, row: q as i16 };
            lemma_all_visited(g, p);
            assert(g.visited.index_of(p) == i);
        }
        lemma_sum_by_full(g.visited@, bool_one_fn());
        assert(g.count_visited() == cols * rows);
        assert(g.visited_at(g.head)) by {
            lemma_all_visited(g, Position::spec_from_vector(g.head));
        }
        assert(open_wall_sum(g.maze@) == g.v_size() - 1);
        assert(g.v_size() == cols * rows);
        assert(open_wall_sum(g.spec_maze()@) == g.spec_maze().spec_cols()
            * g.spec_maze().spec_rows() - 1);
    }
}

/// What candidacy means, in public terms: direction `i` from `v` leads to
/// an in-grid cell the walk has not visited.
pub proof fn lemma_candidate_meaning(g: &Generator, v: Vector, i: int)
    ensures
        g.candidate_from(v, i) == (g.spec_maze().vec_in(v.spec_neighbor(i)) && !g.visited_at(
            v.spec_neighbor(i),
        )),
{
}

/// What being done means, in public terms: nothing left to backtrack to
/// and no candidate at the head.
pub proof fn lemma_done_meaning(g: &Generator)
    ensures
        g.spec_is_done() == (g.tail_seq().len() == 0 && forall|i: int|
            0 <= i < 6 ==> !g.candidate_from(g.head_vec(), i)),
{
    if g.spec_is_done() {
        assert forall|i: int| 0 <= i < 6 implies !g.candidate_from(g.head_vec(), i) by {
            assert(!g.candidate_from(g.head, i));
        }
    }
    if g.tail_seq().len() == 0 && (forall|i: int|
        0 <= i < 6 ==> !g.candidate_from(g.head_vec(), i)) {
        assert forall|i: int| 0 <= i < 6 implies !g.candidate_from(g.head, i) by {
            assert(!g.candidate_from(g.head_vec(), i));
        }
    }
}

/// The walk's standing invariant, in public terms: the open walls number
/// one less than the cells the walk has touched (visited cells plus the
/// head where it is not yet marked); every open wall joins two touched
/// cells; and every touched cell is joined to the origin through open
/// walls. The open walls thus always form a tree on the touched region.
pub proof fn lemma_walk_invariant(g: &Generator)
    requires
        g.wf(),
        g.spec_maze().spec_cols() > 0,
        g.spec_maze().spec_rows() > 0,
    ensures
        open_wall_sum(g.spec_maze()@) == g.v_size() - 1,
        forall|v: Vector, i: int|
            0 <= i < 6 && v.spec_on_grid() && g.spec_maze().vec_in(v)
                && !g.spec_maze().spec_wall_between(v, #[trigger] v.spec_neighbor(i)) ==> (
            g.visited_at(v) || v == g.head_vec()) && (g.visited_at(v.spec_neighbor(i))
                || v.spec_neighbor(i) == g.head_vec()),
        forall|v: Vector|
            v.spec_on_grid() && g.spec_maze().vec_in(v) && (#[trigger] g.visited_at(v) || v
                == g.head_vec()) ==> connected_to_origin(g.spec_maze(), v),
{
    assert forall|v: Vector, i: int|
        0 <= i < 6 && v.spec_on_grid() && g.spec_maze().vec_in(v)
            && !g.spec_maze().spec_wall_between(v, #[trigger] v.spec_neighbor(i)) implies (
    g.visited_at(v) || v == g.head_vec()) && (g.visited_at(v.spec_neighbor(i))
        || v.spec_neighbor(i) == g.head_vec()) by {
        let n = v.spec_neighbor(i);
        lemma_vector_round_trip(v);
        lemma_neighbor_position(v, i);
        assert(g.maze.vec_in(n)) by {
            if !g.maze.vec_in(n) {
                assert(g.maze.spec_wall_between(v, n));
            }
        }
        if !g.visited_at(v) && v != g.head {
            assert(g.maze.spec_wall_between(v, n));
        }
        if !g.visited_at(n) && n != g.head {
            let j: int = if i < 3 {
                i + 3
            } else {
                i - 3
            };
            lemma_neighbor_position(n, j);
            assert(n.spec_neighbor(j) == v);
            assert(g.maze.spec_wall_between(n, v));
            crate::maze::lemma_wall_symmetric(g.maze, n, v);
        }
    }
}

/// The spanning-tree connectivity: once the walk on a nonempty grid is
/// done, every cell is joined to the origin by steps through open walls.
/// With [`lemma_spanning_tree_count`], the open walls form a connected
/// graph with one edge less than it has vertices: a spanning tree, so the
/// maze is perfect — acyclic, with exactly one path between any two cells.
pub proof fn lemma_spanning_tree_connected(g: &Generator)
    requires
        g.wf(),
        g.spec_is_done(),
        g.spec_maze().spec_cols() > 0,
        g.spec_maze().spec_rows() > 0,
    ensures
        forall|p: Position|
            g.spec_maze().pos_in(p) ==> connected_to_origin(
                g.spec_maze(),
                #[trigger] p.spec_to_vector(),
            ),
{
    let cols = g.maze.spec_cols();
    let rows = g.maze.spec_rows();
    if g.count_visited() == 0 {
        // As in the counting argument: the grid is a single cell, and that
        // cell is the origin, where the walk still stands.
        assert forall|v: Vector| g.maze.vec_in(v) implies !g.visited_at(v) by {
            lemma_grid_index_in_bounds(cols, rows, Position::spec_from_vector(v));
            if g.visited_at(v) {
                lemma_sum_by_nonneg_at(
                    g.visited@,
                    g.visited.index_of(Position::spec_from_vector(v)),
                );
            }
        }
        let zero = Vector { col: 0i16, half_row: 0i16 };
        assert(g.head == zero);
        lemma_neighbor_position(zero, 2);
        lemma_neighbor_position(zero, 3);
        assert(!g.candidate_from(zero, 2));
        assert(!g.candidate_from(zero, 3));
        assert(cols == 1 && rows == 1);
        assert forall|p: Position| g.spec_maze().pos_in(p) implies connected_to_origin(
            g.spec_maze(),
            #[trigger] p.spec_to_vector(),
        ) by {
            assert(p == Position { col: 0i16, row: 0i16 });
            lemma_connected_origin(g.maze);
        }
    } else {
        crate::count::lemma_sum_by_nonneg(g.visited@, bool_one_fn());
        assert forall|p: Position| g.spec_maze().pos_in(p) implies connected_to_origin(
            g.spec_maze(),
            #[trigger] p.spec_to_vector(),
        ) by {
            lemma_all_visited(g, p);
            let v = p.spec_to_vector();
            crate::hex::lemma_to_vector_on_grid(p);
            lemma_position_round_trip(p);
            assert(g.visited_at(v));
            assert(g.maze.vec_in(v));
        }
    }
}

/// The sum of 0/1 measures over a sequence with a known `true` at `i` is at
/// least 1.
proof fn lemma_sum_by_nonneg_at(s: Seq<bool>, i: int)
    requires
        0 <= i < s.len(),
        s[i],
    ensures
        sum_by(s, bool_one_fn()) >= 1,
    decreases s.len(),
{
    if i == s.len() - 1 {
        crate::count::lemma_sum_by_nonneg(s.drop_last(), bool_one_fn());
    } else {
        lemma_sum_by_nonneg_at(s.drop_last(), i);
    }
}

} // verus!
