//! A* shortest-path search over a carved maze, stepped one frontier pop at
//! a time.
//!
//! The solver owns its own copy of the maze, keeps the best known path cost
//! per cell in `distances` (`i32::MAX` standing for "not reached"), and a
//! frontier of candidate cells ordered by `(score, distance, position)`,
//! where `score` adds an admissible straight-line heuristic. Duplicate
//! frontier entries for one cell are allowed; stale ones lose every later
//! comparison and are discarded by doing nothing. When the goal is popped,
//! a single backtrace pass walks from the goal down the strictly falling
//! distances to the start and records the path, goal first.

use vstd::prelude::*;

use crate::count::lemma_sum_by_le_len;
use crate::count::lemma_sum_by_update;
use crate::count::sum_by;
use crate::grid::HexGrid;
use crate::grid::lemma_grid_index_in_bounds;
use crate::grid::lemma_grid_size_bound;
use crate::hex::Position;
use crate::hex::Vector;
use crate::hex::lemma_neighbor_position;
use crate::hex::lemma_position_round_trip;
use crate::hex::lemma_to_vector_on_grid;
use crate::hex::lemma_vector_round_trip;
use crate::maze::CLEAR_COLOR;
use crate::maze::GREEN;
use crate::maze::Maze;
use crate::maze::RED;
use crate::maze::lemma_path_extend;
use crate::maze::lemma_reachable_extend;
use crate::maze::lemma_reachable_fewer_walls;
use crate::maze::lemma_reachable_origin;
use crate::maze::reachable_at_cost;
use crate::maze::lemma_wall_symmetric;
use crate::maze::path_steps_ok;

verus! {

/// A recorded cost as a mathematical integer, for summation.
pub open spec fn dist_int_fn() -> spec_fn(i32) -> int {
    |d: i32| d as int
}

/// Counts a reached cell (any best cost other than the sentinel) as 1.
pub open spec fn reached_one_fn() -> spec_fn(i32) -> int {
    |d: i32|
        if d != i32::MAX {
            1int
        } else {
            0int
        }
}

/// A frontier entry: a cell with the path cost it was reached at and its
/// A* score (that cost plus the straight-line heuristic to the goal).
#[derive(Clone, Copy)]
pub struct Unvisited {
    pub score: i32,
    pub distance: i32,
    pub position: Vector,
}

/// Direction `j` leads from the cell at `p` through a wall-free edge of
/// `m` to a cell whose cost in `d` is at least two cheaper.
#[verifier::opaque]
spec fn step_down(m: Maze, d: HexGrid<i32>, p: Position, j: int) -> bool {
    let n = p.spec_to_vector().spec_neighbor(j);
    &&& m.vec_in(n)
    &&& !m.spec_wall_between(p.spec_to_vector(), n)
    &&& d.spec_at(Position::spec_from_vector(n)) != i32::MAX
    &&& d.spec_at(Position::spec_from_vector(n)) + 2 <= d.spec_at(p)
}

/// A path from `goal` back to `start`: nonempty, each step moves to an
/// adjacent cell, and no step is blocked by a wall.
pub open spec fn path_ok(m: Maze, path: Seq<Vector>, goal: Vector, start: Vector) -> bool {
    &&& path.len() >= 1
    &&& path[0] == goal
    &&& path.last() == start
    &&& path_steps_ok(m, path)
}

/// Solves a maze using A*.
pub struct Solver {
    pub maze: Maze,
    pub is_done: bool,
    pub path: Vec<Vector>,
    goal: Vector,
    unvisited: Vec<Unvisited>,
    distances: HexGrid<i32>,
}

impl Solver {
    /// The solver's copy of the maze, for contracts.
    pub closed spec fn spec_maze(&self) -> Maze {
        self.maze
    }

    /// Whether the search has finished, for contracts.
    pub closed spec fn spec_done(&self) -> bool {
        self.is_done
    }

    /// The reconstructed path, goal first, for contracts.
    pub closed spec fn spec_path(&self) -> Seq<Vector> {
        self.path@
    }

    /// The goal cell: the corner opposite the start, for contracts.
    pub closed spec fn spec_goal(&self) -> Vector {
        self.goal
    }

    /// Whether the maze has any cell at all.
    pub closed spec fn nonempty(&self) -> bool {
        self.maze.spec_cols() > 0 && self.maze.spec_rows() > 0
    }

    /// The best known path cost to the cell at `p`; `i32::MAX` stands for
    /// "not reached".
    pub closed spec fn dist_at(&self, p: Position) -> i32 {
        self.distances.spec_at(p)
    }

    /// The frontier of candidate entries, in storage order.
    pub closed spec fn spec_frontier(&self) -> Seq<Unvisited> {
        self.unvisited@
    }

    /// The sum of all recorded costs: it falls with every relaxation, and
    /// with the frontier length it measures the search's progress.
    pub closed spec fn cost_sum(&self) -> int {
        sum_by(self.distances@, dist_int_fn())
    }

    /// How many cells have been reached at any cost.
    closed spec fn count_reached(&self) -> int {
        sum_by(self.distances@, reached_one_fn())
    }

    /// The grids agree in size, and the goal is the far corner.
    closed spec fn shape_ok(&self) -> bool {
        &&& self.maze.wf()
        &&& self.distances.wf()
        &&& self.distances.spec_cols() == self.maze.spec_cols()
        &&& self.distances.spec_rows() == self.maze.spec_rows()
        &&& (!self.nonempty() ==> self.is_done)
        &&& (self.nonempty() ==> {
            let corner = Position {
                col: (self.maze.spec_cols() - 1) as i16,
                row: (self.maze.spec_rows() - 1) as i16,
            };
            &&& self.goal == corner.spec_to_vector()
            &&& self.goal.spec_on_grid()
            &&& self.maze.vec_in(self.goal)
        })
    }

    /// Every recorded cost is nonnegative, bounded by twice the reached
    /// count, zero exactly at the start, and, unless at the start, witnessed
    /// by an unblocked neighbor reached at least two cheaper: the costs fall
    /// strictly toward the start.
    closed spec fn dist_ok(&self) -> bool {
        &&& (self.nonempty() ==> {
            &&& self.dist_at(Position { col: 0i16, row: 0i16 }) == 0
            &&& self.count_reached() >= 1
        })
        &&& forall|p: Position|
            #![trigger self.distances.spec_at(p)]
            self.maze.pos_in(p) && self.dist_at(p) != i32::MAX ==> {
                &&& 0 <= self.dist_at(p) <= 2 * self.count_reached() - 2
                &&& (self.dist_at(p) == 0 ==> p == Position { col: 0i16, row: 0i16 })
            }
        &&& forall|p: Position|
            #![trigger self.distances.spec_at(p)]
            self.maze.pos_in(p) && self.dist_at(p) != i32::MAX && self.dist_at(p) > 0
                ==> exists|j: int| 0 <= j < 6 && #[trigger] step_down(
                    self.maze,
                    self.distances,
                    p,
                    j,
                )
        &&& forall|p: Position|
            #![trigger self.distances.spec_at(p)]
            self.maze.pos_in(p) && self.dist_at(p) != i32::MAX ==> reachable_at_cost(
                self.maze,
                p.spec_to_vector(),
                self.dist_at(p) as int,
            )
    }

    /// Every frontier entry names an in-grid cell already reached, at a
    /// recorded cost no better than the entry's, within the global bound.
    closed spec fn frontier_ok(&self) -> bool {
        self.nonempty() ==> forall|k: int|
            0 <= k < self.unvisited@.len() ==> {
                let e = #[trigger] self.unvisited@[k];
                &&& e.position.spec_on_grid()
                &&& self.maze.vec_in(e.position)
                &&& self.dist_at(Position::spec_from_vector(e.position)) != i32::MAX
                &&& self.dist_at(Position::spec_from_vector(e.position)) <= e.distance
                &&& e.distance <= 2 * self.count_reached() - 2
                &&& reachable_at_cost(self.maze, e.position, e.distance as int)
            }
    }

    /// Before the goal is popped the path is untouched; after, it is a
    /// valid unblocked path from the goal back to the start.
    closed spec fn path_state_ok(&self) -> bool {
        &&& (!self.is_done ==> self.path@.len() == 0)
        &&& (self.is_done && self.nonempty() ==> path_ok(
            self.maze,
            self.path@,
            self.goal,
            Vector { col: 0i16, half_row: 0i16 },
        ))
    }

    /// The solver's invariant, established by `new` and kept by `step`.
    pub closed spec fn wf(&self) -> bool {
        &&& self.shape_ok()
        &&& self.dist_ok()
        &&& self.frontier_ok()
        &&& self.path_state_ok()
    }

    /// A fresh solver owning `maze`: the start seeded at cost zero, the
    /// goal at the opposite corner, the path empty. A maze with no cells is
    /// already solved, with an empty path.
    pub fn new(maze: Maze) -> (s: Solver)
        requires
            maze.wf(),
        ensures
            s.wf(),
            s.spec_maze() == maze,
            s.spec_done() == (maze.spec_cols() == 0 || maze.spec_rows() == 0),
            s.spec_path() =~= Seq::<Vector>::empty(),
            maze.spec_cols() > 0 && maze.spec_rows() > 0 ==> s.spec_goal() == (Position {
                col: (maze.spec_cols() - 1) as i16,
                row: (maze.spec_rows() - 1) as i16,
            }).spec_to_vector(),
            s.spec_frontier() =~= seq![
                (Unvisited { score: 0, distance: 0, position: Vector { col: 0i16, half_row: 0i16 } }),
            ],
            maze.spec_cols() > 0 && maze.spec_rows() > 0 ==> s.dist_at(
                Position { col: 0i16, row: 0i16 },
            ) == 0,
            forall|p: Position|
                maze.pos_in(p) && p != (Position { col: 0i16, row: 0i16 })
                    ==> #[trigger] s.dist_at(p) == i32::MAX,
    {
        let cols = maze.cols();
        let rows = maze.rows();
        let empty = cols == 0 || rows == 0;
        let goal_pos = if empty {
            Position { col: 0, row: 0 }
        } else {
            Position { col: (cols - 1) as i16, row: (rows - 1) as i16 }
        };
        let goal = goal_pos.to_vector();
        let position = Vector { col: 0, half_row: 0 };

        let mut unvisited: Vec<Unvisited> = Vec::new();
        unvisited.push(Unvisited { score: 0, distance: 0, position });

        let mut distances: HexGrid<i32> = HexGrid::new_with(cols, rows, i32::MAX);
        let origin = Position { col: 0, row: 0 };
        let ghost pre = distances;
        if !empty {
            proof {
                lemma_grid_index_in_bounds(cols as int, rows as int, origin);
                lemma_sum_by_update(pre@, reached_one_fn(), pre.index_of(origin), 0i32);
            }
            distances.set(origin, 0);
        }

        let s = Solver { maze, is_done: empty, path: Vec::new(), goal, unvisited, distances };
        proof {
            if !empty {
                lemma_to_vector_on_grid(goal_pos);
                lemma_position_round_trip(goal_pos);
                crate::count::lemma_sum_by_zero(pre@, reached_one_fn());
                lemma_position_round_trip(origin);
                assert(s.count_reached() == 1);
                lemma_reachable_origin(s.maze);
                assert(s.dist_ok()) by {
                    assert forall|p: Position|
                        #![trigger s.distances.spec_at(p)]
                        s.maze.pos_in(p) && s.dist_at(p) != i32::MAX implies {
                        &&& 0 <= s.dist_at(p) <= 2 * s.count_reached() - 2
                        &&& (s.dist_at(p) == 0 ==> p == Position { col: 0i16, row: 0i16 })
                    } by {
                        lemma_grid_index_in_bounds(cols as int, rows as int, p);
                        crate::grid::lemma_grid_index_injective(
                            cols as int,
                            rows as int,
                            p,
                            origin,
                        );
                    }
                    assert forall|p: Position|
                        #![trigger s.distances.spec_at(p)]
                        s.maze.pos_in(p) && s.dist_at(p) != i32::MAX implies reachable_at_cost(
                        s.maze,
                        p.spec_to_vector(),
                        s.dist_at(p) as int,
                    ) by {
                        lemma_grid_index_in_bounds(cols as int, rows as int, p);
                        crate::grid::lemma_grid_index_injective(
                            cols as int,
                            rows as int,
                            p,
                            origin,
                        );
                        assert(p == origin);
                    }
                    assert forall|p: Position|
                        #![trigger s.distances.spec_at(p)]
                        s.maze.pos_in(p) && s.dist_at(p) != i32::MAX && s.dist_at(p)
                            > 0 implies exists|j: int| 0 <= j < 6 && #[trigger] step_down(
                        s.maze,
                        s.distances,
                        p,
                        j,
                    ) by {
                        lemma_grid_index_in_bounds(cols as int, rows as int, p);
                        crate::grid::lemma_grid_index_injective(
                            cols as int,
                            rows as int,
                            p,
                            origin,
                        );
                    }
                }
                assert(s.frontier_ok()) by {
                    lemma_position_round_trip(origin);
                    assert(reachable_at_cost(
                        s.maze,
                        (Vector { col: 0i16, half_row: 0i16 }),
                        0,
                    ));
                }
            } else {
                crate::count::lemma_sum_by_zero(s.distances@, reached_one_fn());
            }
        }
        s
    }
}

impl Solver {
    /// Whether the search has finished; see [`Solver::spec_done`].
    pub fn is_done(&self) -> (r: bool)
        ensures
            r == self.spec_done(),
    {
        self.is_done
    }

    /// One frontier pop of the search: remove the least-scored entry; if it
    /// is the goal, reconstruct the path and finish; otherwise offer every
    /// neighbor not blocked by a wall a cost two higher, recording it and
    /// pushing the neighbor whenever it beats the best known. Then recolor
    /// the overlay: the goal red, the frontier green. A step never changes
    /// a wall, and a solver already done stays exactly as it is.
    #[verifier::rlimit(100)]
    pub fn step(&mut self)
        requires
            old(self).wf(),
        ensures
            final(self).wf(),
            final(self).spec_maze().spec_cols() == old(self).spec_maze().spec_cols(),
            final(self).spec_maze().spec_rows() == old(self).spec_maze().spec_rows(),
            forall|x: Vector, y: Vector| #[trigger]
                final(self).spec_maze().spec_wall_between(x, y) == old(
                    self,
                ).spec_maze().spec_wall_between(x, y),
            final(self).spec_goal() == old(self).spec_goal(),
            old(self).spec_done() ==> *final(self) == *old(self),
            old(self).spec_done() ==> final(self).spec_done(),
            final(self).spec_done() && final(self).spec_maze().spec_cols() > 0 && final(self).spec_maze().spec_rows() > 0 ==> path_ok(
                final(self).spec_maze(),
                final(self).spec_path(),
                final(self).spec_goal(),
                (Vector { col: 0i16, half_row: 0i16 }),
            ),
            // the reconstructed path never revisits a cell
            !old(self).spec_done() && final(self).spec_done() ==> forall|j: int, k: int|
                #![trigger final(self).spec_path()[j], final(self).spec_path()[k]]
                0 <= j < k < final(self).spec_path().len() ==> final(self).spec_path()[j]
                    != final(self).spec_path()[k],
            // recorded costs never rise
            forall|p: Position|
                old(self).spec_maze().pos_in(p) ==> #[trigger] final(self).dist_at(p) as int
                    <= old(self).dist_at(p) as int,
            // an empty frontier leaves the search state alone
            !old(self).spec_done() && old(self).spec_frontier().len() == 0 ==> {
                &&& !final(self).spec_done()
                &&& final(self).spec_frontier() =~= old(self).spec_frontier()
                &&& final(self).spec_path() == old(self).spec_path()
                &&& forall|p: Position|
                    old(self).spec_maze().pos_in(p) ==> #[trigger] final(self).dist_at(p) == old(
                        self,
                    ).dist_at(p)
            },
            // otherwise the least entry is popped: on the goal the search
            // finishes with the path; elsewhere every unblocked neighbor's
            // record becomes the minimum of its old record and the popped
            // cost plus one edge, and nothing else changes
            !old(self).spec_done() && old(self).spec_frontier().len() > 0 ==> exists|u: Unvisited|
                {
                    &&& (exists|j: int|
                        0 <= j < old(self).spec_frontier().len() && old(self).spec_frontier()[j]
                            == u)
                    &&& (forall|k: int|
                        0 <= k < old(self).spec_frontier().len() ==> spec_entry_le(
                            u,
                            #[trigger] old(self).spec_frontier()[k],
                        ))
                    &&& (u.position == old(self).spec_goal() ==> final(self).spec_done() && forall|
                        p: Position,
                    |
                        old(self).spec_maze().pos_in(p) ==> #[trigger] final(self).dist_at(p)
                            == old(self).dist_at(p))
                    &&& (u.position != old(self).spec_goal() ==> {
                        &&& !final(self).spec_done()
                        &&& final(self).spec_path() == old(self).spec_path()
                        &&& forall|i: int|
                            0 <= i < 6 && !old(self).spec_maze().spec_wall_between(
                                u.position,
                                #[trigger] u.position.spec_neighbor(i),
                            ) ==> {
                                let np = Position::spec_from_vector(u.position.spec_neighbor(i));
                                final(self).dist_at(np) == if old(self).dist_at(np) as int
                                    <= u.distance + 2 {
                                    old(self).dist_at(np)
                                } else {
                                    ((u.distance + 2) as i32)
                                }
                            }
                        &&& forall|p: Position|
                            old(self).spec_maze().pos_in(p) && #[trigger] final(self).dist_at(p)
                                != old(self).dist_at(p) ==> exists|i: int|
                                0 <= i < 6 && !old(self).spec_maze().spec_wall_between(
                                    u.position,
                                    #[trigger] u.position.spec_neighbor(i),
                                ) && p == Position::spec_from_vector(u.position.spec_neighbor(i))
                    })
                },
            // the search makes progress until it is done
            !old(self).spec_done() && old(self).spec_frontier().len() > 0 && !final(self).spec_done() ==> final(self).cost_sum() < old(self).cost_sum() || (final(self).cost_sum() == old(self).cost_sum() && final(self).spec_frontier().len() < old(
                self,
            ).spec_frontier().len()),
    {
        if self.is_done {
            return ;
        }
        let ghost orig = *old(self);
        assert(self.nonempty());

        let ghost fr = self.unvisited@;
        let popped = pop_min(&mut self.unvisited);
        let ghost taken = popped;
        proof {
            assert(fr == orig.spec_frontier());
        }
        proof {
            assert forall|k: int| 0 <= k < self.unvisited@.len() implies {
                let e = #[trigger] self.unvisited@[k];
                &&& e.position.spec_on_grid()
                &&& self.maze.vec_in(e.position)
                &&& self.dist_at(Position::spec_from_vector(e.position)) != i32::MAX
                &&& self.dist_at(Position::spec_from_vector(e.position)) <= e.distance
                &&& e.distance <= 2 * self.count_reached() - 2
                &&& reachable_at_cost(self.maze, e.position, e.distance as int)
            } by {
                if popped is Some {
                    let j = choose|j: int|
                        0 <= j < orig.unvisited@.len() && self.unvisited@[k]
                            == orig.unvisited@[j];
                    assert(orig.unvisited@[j] == self.unvisited@[k]);
                }
            }
        }
        match popped {
            Some(u) => {
                proof {
                    let j = choose|j: int|
                        0 <= j < orig.unvisited@.len() && orig.unvisited@[j] == u;
                    assert(orig.unvisited@[j] == u);
                    assert(reachable_at_cost(orig.maze, u.position, u.distance as int));
                }
                if u.position == self.goal {
                    self.fill_path();
                    self.is_done = true;
                    proof {
                        let j = choose|j: int| 0 <= j < fr.len() && fr[j] == u;
                        assert(orig.spec_frontier()[j] == u);
                        assert(exists|j: int|
                            0 <= j < orig.spec_frontier().len() && orig.spec_frontier()[j] == u);
                        assert forall|k: int|
                            0 <= k < orig.spec_frontier().len() implies spec_entry_le(
                            u,
                            #[trigger] orig.spec_frontier()[k],
                        ) by {
                            assert(spec_entry_le(u, fr[k]));
                        }
                        assert(u.position == orig.spec_goal());
                        assert(forall|p: Position|
                            orig.maze.pos_in(p) ==> #[trigger] self.dist_at(p) == orig.dist_at(
                                p,
                            ));
                    }
                    return ;
                }
                let ghost entry_pos = u.position;
                let mut i: usize = 0;
                while i < 6
                    invariant
                        self.wf(),
                        !self.is_done,
                        self.nonempty(),
                        i <= 6,
                        self.maze == orig.maze,
                        self.goal == orig.goal,
                        self.path@ == orig.path@,
                        u.position.spec_on_grid(),
                        self.maze.vec_in(u.position),
                        self.dist_at(Position::spec_from_vector(u.position)) != i32::MAX,
                        self.dist_at(Position::spec_from_vector(u.position)) <= u.distance,
                        0 <= u.distance <= 2 * self.count_reached() - 2,
                        reachable_at_cost(orig.maze, u.position, u.distance as int),
                        forall|j: int|
                            0 <= j < i as int && !orig.maze.spec_wall_between(
                                u.position,
                                #[trigger] u.position.spec_neighbor(j),
                            ) ==> {
                                let np = Position::spec_from_vector(u.position.spec_neighbor(j));
                                self.dist_at(np) == if orig.dist_at(np) as int <= u.distance
                                    + 2 {
                                    orig.dist_at(np)
                                } else {
                                    ((u.distance + 2) as i32)
                                }
                            },
                        forall|p: Position|
                            orig.maze.pos_in(p) && #[trigger] self.dist_at(p) != orig.dist_at(p)
                                ==> exists|j: int|
                                0 <= j < i as int && !orig.maze.spec_wall_between(
                                    u.position,
                                    #[trigger] u.position.spec_neighbor(j),
                                ) && p == Position::spec_from_vector(u.position.spec_neighbor(j)),
                        forall|p: Position|
                            orig.maze.pos_in(p) ==> #[trigger] self.dist_at(p) as int
                                <= orig.dist_at(p) as int,
                        self.cost_sum() <= orig.cost_sum(),
                        self.cost_sum() == orig.cost_sum() ==> self.unvisited@.len()
                            == orig.unvisited@.len() - 1,
                        self.unvisited@.len() >= orig.unvisited@.len() - 1,
                    decreases 6 - i,
                {
                    let d = Vector::direction_at(i);
                    let n = self.vec_add_dir(u.position, i);
                    proof {
                        lemma_vector_round_trip(u.position);
                        lemma_position_round_trip(Position::spec_from_vector(u.position));
                    }
                    if !self.maze.wall_between(u.position, n) {
                        proof {
                            assert(self.maze.vec_in(n));
                        }
                        let np = Position::from_vector(n);
                        proof {
                            self.lemma_cost_headroom(u.distance);
                        }
                        let nd = u.distance + 2;
                        let cur = *self.distances.at(np);
                        let ghost before = *self;
                        proof {
                            if before.dist_at(np) != orig.dist_at(np) {
                                let j = choose|j: int|
                                    0 <= j < i as int && !orig.maze.spec_wall_between(
                                        u.position,
                                        #[trigger] u.position.spec_neighbor(j),
                                    ) && np == Position::spec_from_vector(
                                        u.position.spec_neighbor(j),
                                    );
                                crate::hex::lemma_neighbor_positions_distinct(
                                    u.position,
                                    j,
                                    i as int,
                                );
                                assert(false);
                            }
                        }
                        if nd < cur {
                            self.relax(u, n, np, nd, i);
                        }
                        proof {
                            assert forall|j: int|
                                0 <= j < i as int && !orig.maze.spec_wall_between(
                                    u.position,
                                    #[trigger] u.position.spec_neighbor(j),
                                ) implies {
                                let npj = Position::spec_from_vector(u.position.spec_neighbor(j));
                                self.dist_at(npj) == if orig.dist_at(npj) as int <= u.distance
                                    + 2 {
                                    orig.dist_at(npj)
                                } else {
                                    ((u.distance + 2) as i32)
                                }
                            } by {
                                crate::hex::lemma_neighbor_positions_distinct(
                                    u.position,
                                    j,
                                    i as int,
                                );
                                let npj = Position::spec_from_vector(u.position.spec_neighbor(j));
                                lemma_neighbor_position(u.position, j);
                                assert(orig.maze.pos_in(npj)) by {
                                    assert(!orig.maze.spec_wall_between(
                                        u.position,
                                        u.position.spec_neighbor(j),
                                    ));
                                }
                                assert(self.dist_at(npj) == before.dist_at(npj));
                            }
                        }
                    }
                    i = i + 1;
                }
            },
            None => {
            },
        }

        // Recolor the overlay: the goal red, the frontier green.
        let ghost mid = *self;
        self.maze.fill_background(CLEAR_COLOR);
        self.maze.set_background(self.goal, RED);
        let mut k: usize = 0;
        while k < self.unvisited.len()
            invariant
                mid.wf(),
                !mid.is_done,
                mid.nonempty(),
                self.is_done == mid.is_done,
                self.path@ == mid.path@,
                self.goal == mid.goal,
                self.unvisited == mid.unvisited,
                self.distances == mid.distances,
                self.maze.wf(),
                self.maze.spec_cols() == mid.maze.spec_cols(),
                self.maze.spec_rows() == mid.maze.spec_rows(),
                forall|x: Vector, y: Vector| #[trigger]
                    self.maze.spec_wall_between(x, y) == mid.maze.spec_wall_between(x, y),
            decreases self.unvisited@.len() - k,
        {
            let p = self.unvisited[k].position;
            proof {
                assert(mid.maze.vec_in(p));
            }
            self.maze.set_background(p, GREEN);
            k = k + 1;
        }
        proof {
            self.lemma_recolor_wf(mid);
            assert(mid.maze == orig.maze);

            // The transition conclusions: what the step did to the search.
            if taken is None {
                assert(orig.spec_frontier().len() == 0);
                assert(self.spec_frontier() =~= orig.spec_frontier());
                assert(self.spec_path() == orig.spec_path());
                assert forall|p: Position| orig.maze.pos_in(p) implies #[trigger] self.dist_at(
                    p,
                ) == orig.dist_at(p) by {
                    assert(mid.dist_at(p) == orig.dist_at(p));
                }
            } else {
                let u = taken->Some_0;
                let j = choose|j: int| 0 <= j < fr.len() && fr[j] == u;
                assert(orig.spec_frontier()[j] == u);
                assert(exists|j: int|
                    0 <= j < orig.spec_frontier().len() && orig.spec_frontier()[j] == u);
                assert forall|k: int|
                    0 <= k < orig.spec_frontier().len() implies spec_entry_le(
                    u,
                    #[trigger] orig.spec_frontier()[k],
                ) by {
                    assert(spec_entry_le(u, fr[k]));
                }
                assert(u.position != orig.spec_goal());
                assert(!self.spec_done());
                assert(self.spec_path() == orig.spec_path());
                assert forall|i: int|
                    0 <= i < 6 && !orig.maze.spec_wall_between(
                        u.position,
                        #[trigger] u.position.spec_neighbor(i),
                    ) implies {
                    let np = Position::spec_from_vector(u.position.spec_neighbor(i));
                    self.dist_at(np) == if orig.dist_at(np) as int <= u.distance + 2 {
                        orig.dist_at(np)
                    } else {
                        ((u.distance + 2) as i32)
                    }
                } by {
                    let np = Position::spec_from_vector(u.position.spec_neighbor(i));
                    assert(self.dist_at(np) == mid.dist_at(np));
                }
                assert forall|p: Position|
                    orig.maze.pos_in(p) && #[trigger] self.dist_at(p) != orig.dist_at(p)
                        implies exists|i: int|
                        0 <= i < 6 && !orig.maze.spec_wall_between(
                            u.position,
                            #[trigger] u.position.spec_neighbor(i),
                        ) && p == Position::spec_from_vector(u.position.spec_neighbor(i)) by {
                    assert(mid.dist_at(p) == self.dist_at(p));
                    assert(mid.dist_at(p) != orig.dist_at(p));
                }
                assert(self.cost_sum() == mid.cost_sum());
                assert(self.cost_sum() < orig.cost_sum() || (self.cost_sum() == orig.cost_sum()
                    && self.spec_frontier().len() < orig.spec_frontier().len()));
            }
            assert forall|p: Position| orig.maze.pos_in(p) implies #[trigger] self.dist_at(
                p,
            ) as int <= orig.dist_at(p) as int by {
                assert(self.dist_at(p) == mid.dist_at(p));
            }
        }
    }

    /// The start keeps its seeded cost of zero throughout the search.
    pub proof fn lemma_start_cost_zero(&self)
        requires
            self.wf(),
            self.spec_maze().spec_cols() > 0,
            self.spec_maze().spec_rows() > 0,
        ensures
            self.dist_at(Position { col: 0i16, row: 0i16 }) == 0,
    {
    }

    /// Every finite recorded cost is an achieved cost: some wall-free walk
    /// from the start reaches the cell at exactly that cost.
    pub proof fn lemma_costs_achieved(&self, p: Position)
        requires
            self.wf(),
            self.spec_maze().pos_in(p),
            self.dist_at(p) != i32::MAX,
        ensures
            reachable_at_cost(self.spec_maze(), p.spec_to_vector(), self.dist_at(p) as int),
    {
        assert(self.distances.spec_at(p) == self.dist_at(p));
    }

    /// The head start plus one edge stays well under the cost sentinel.
    proof fn lemma_cost_headroom(&self, d: i32)
        requires
            self.wf(),
            self.nonempty(),
            0 <= d <= 2 * self.count_reached() - 2,
        ensures
            d + 2 < 0x4100_0000,
            2 * self.count_reached() <= 2 * self.distances@.len(),
    {
        lemma_sum_by_le_len(self.distances@, reached_one_fn());
        lemma_grid_size_bound(self.maze.spec_cols(), self.maze.spec_rows());
    }

    /// Adds direction `i` to an in-grid cell, staying in arithmetic range.
    fn vec_add_dir(&self, v: Vector, i: usize) -> (n: Vector)
        requires
            self.spec_maze().wf(),
            i < 6,
            v.spec_on_grid(),
            self.spec_maze().vec_in(v),
        ensures
            n == v.spec_neighbor(i as int),
            n.spec_on_grid(),
    {
        proof {
            lemma_neighbor_position(v, i as int);
        }
        v.add(Vector::direction_at(i))
    }

    /// Records the improved cost `nd` for the neighbor `n` of the popped
    /// entry `u` and pushes it onto the frontier, keeping the invariant.
    #[verifier::rlimit(100)]
    fn relax(&mut self, u: Unvisited, n: Vector, np: Position, nd: i32, i: usize)
        requires
            old(self).wf(),
            !old(self).is_done,
            old(self).nonempty(),
            i < 6,
            u.position.spec_on_grid(),
            old(self).spec_maze().vec_in(u.position),
            old(self).dist_at(Position::spec_from_vector(u.position)) != i32::MAX,
            old(self).dist_at(Position::spec_from_vector(u.position)) <= u.distance,
            0 <= u.distance <= 2 * old(self).count_reached() - 2,
            n == u.position.spec_neighbor(i as int),
            n.spec_on_grid(),
            old(self).spec_maze().vec_in(n),
            !old(self).spec_maze().spec_wall_between(u.position, n),
            np == Position::spec_from_vector(n),
            nd == u.distance + 2,
            nd < old(self).dist_at(np),
            reachable_at_cost(old(self).spec_maze(), u.position, u.distance as int),
        ensures
            final(self).wf(),
            !final(self).is_done,
            final(self).maze == old(self).maze,
            final(self).goal == old(self).goal,
            final(self).path@ == old(self).path@,
            final(self).dist_at(Position::spec_from_vector(u.position)) != i32::MAX,
            final(self).dist_at(Position::spec_from_vector(u.position)) <= u.distance,
            0 <= u.distance <= 2 * final(self).count_reached() - 2,
            final(self).nonempty(),
            final(self).dist_at(np) == nd,
            forall|p: Position|
                old(self).spec_maze().pos_in(p) && p != np ==> #[trigger] final(self).dist_at(p)
                    == old(self).dist_at(p),
            final(self).spec_frontier().len() == old(self).spec_frontier().len() + 1,
            final(self).cost_sum() < old(self).cost_sum(),
    {
        let ghost pre = *old(self);
        let ghost idx = self.distances.index_of(np);
        proof {
            lemma_grid_index_in_bounds(
                self.distances.spec_cols(),
                self.distances.spec_rows(),
                np,
            );
            lemma_sum_by_update(self.distances@, reached_one_fn(), idx, nd);
            lemma_sum_by_update(self.distances@, dist_int_fn(), idx, nd);
            self.lemma_cost_headroom(u.distance);
        }
        self.distances.set(np, nd);
        proof {
            self.lemma_relax_preserves(pre, u, n, np, nd, i as int);
        }
        let h = n.sub(self.goal).length();
        let score = nd + h;
        self.unvisited.push(Unvisited { score, distance: nd, position: n });
        proof {
            assert forall|k: int| 0 <= k < self.unvisited@.len() implies {
                let e = #[trigger] self.unvisited@[k];
                &&& e.position.spec_on_grid()
                &&& self.maze.vec_in(e.position)
                &&& self.dist_at(Position::spec_from_vector(e.position)) != i32::MAX
                &&& self.dist_at(Position::spec_from_vector(e.position)) <= e.distance
                &&& e.distance <= 2 * self.count_reached() - 2
                &&& reachable_at_cost(self.maze, e.position, e.distance as int)
            } by {
                if k < self.unvisited@.len() - 1 {
                    assert(self.unvisited@[k] == pre.unvisited@[k]);
                } else {
                    assert(self.unvisited@[k].position == n);
                    assert(self.distances.spec_at(np) == nd);
                }
            }
            assert forall|p: Position|
                pre.maze.pos_in(p) && p != np implies #[trigger] self.dist_at(p) == pre.dist_at(
                p,
            ) by {
                lemma_grid_index_in_bounds(pre.maze.spec_cols(), pre.maze.spec_rows(), p);
                crate::grid::lemma_grid_index_injective(
                    pre.maze.spec_cols(),
                    pre.maze.spec_rows(),
                    p,
                    np,
                );
            }
        }
    }

    /// Writing the improved cost preserves the cost invariants: the new
    /// record is witnessed by the popped cell it was reached from, and
    /// every older record keeps its witness because costs only fall.
    #[verifier::rlimit(100)]
    proof fn lemma_relax_preserves(
        &self,
        pre: Solver,
        u: Unvisited,
        n: Vector,
        np: Position,
        nd: i32,
        i: int,
    )
        requires
            pre.wf(),
            !pre.is_done,
            pre.nonempty(),
            0 <= i < 6,
            u.position.spec_on_grid(),
            pre.maze.vec_in(u.position),
            pre.dist_at(Position::spec_from_vector(u.position)) != i32::MAX,
            pre.dist_at(Position::spec_from_vector(u.position)) <= u.distance,
            0 <= u.distance <= 2 * pre.count_reached() - 2,
            n == u.position.spec_neighbor(i),
            n.spec_on_grid(),
            pre.maze.vec_in(n),
            !pre.maze.spec_wall_between(u.position, n),
            np == Position::spec_from_vector(n),
            nd == u.distance + 2,
            nd < pre.dist_at(np),
            reachable_at_cost(pre.maze, u.position, u.distance as int),
            self.maze == pre.maze,
            self.goal == pre.goal,
            self.is_done == pre.is_done,
            self.path == pre.path,
            self.unvisited == pre.unvisited,
            self.distances.wf(),
            self.distances.spec_cols() == pre.distances.spec_cols(),
            self.distances.spec_rows() == pre.distances.spec_rows(),
            self.distances@ == pre.distances@.update(pre.distances.index_of(np), nd),
            sum_by(self.distances@, reached_one_fn()) == sum_by(pre.distances@, reached_one_fn())
                - reached_one_fn()(pre.distances@[pre.distances.index_of(np)])
                + reached_one_fn()(nd),
        ensures
            self.wf(),
            self.dist_at(Position::spec_from_vector(u.position)) != i32::MAX,
            self.dist_at(Position::spec_from_vector(u.position)) <= u.distance,
            u.distance <= 2 * self.count_reached() - 2,
    {
        let cols = self.maze.spec_cols();
        let rows = self.maze.spec_rows();
        let idx = pre.distances.index_of(np);
        let origin = Position { col: 0i16, row: 0i16 };
        lemma_grid_index_in_bounds(cols, rows, np);
        lemma_grid_index_in_bounds(cols, rows, origin);
        lemma_vector_round_trip(n);
        lemma_vector_round_trip(u.position);
        lemma_neighbor_position(u.position, i);
        let j: int = if i < 3 {
            i + 3
        } else {
            i - 3
        };
        lemma_neighbor_position(n, j);
        assert(n.spec_neighbor(j) == u.position);
        let pu = Position::spec_from_vector(u.position);
        lemma_grid_index_in_bounds(cols, rows, pu);

        // Cell values at distinct positions sit at distinct indices.
        assert forall|p: Position| self.maze.pos_in(p) && p != np implies self.dist_at(p)
            == pre.dist_at(p) by {
            lemma_grid_index_in_bounds(cols, rows, p);
            crate::grid::lemma_grid_index_injective(cols, rows, p, np);
        }
        assert(np != origin) by {
            if np == origin {
                assert(pre.dist_at(np) == 0);
            }
        }
        assert(self.count_reached() >= pre.count_reached());
        assert(self.dist_at(Position { col: 0i16, row: 0i16 }) == 0);

        assert forall|p: Position|
            #![trigger self.distances.spec_at(p)]
            self.maze.pos_in(p) && self.dist_at(p) != i32::MAX implies {
            &&& 0 <= self.dist_at(p) <= 2 * self.count_reached() - 2
            &&& (self.dist_at(p) == 0 ==> p == Position { col: 0i16, row: 0i16 })
        } by {
            lemma_grid_index_in_bounds(cols, rows, p);
            crate::grid::lemma_grid_index_injective(cols, rows, p, np);
            if p == np {
                if pre.dist_at(np) == i32::MAX {
                    assert(self.count_reached() == pre.count_reached() + 1);
                } else {
                    assert(pre.dist_at(np) <= 2 * pre.count_reached() - 2);
                }
            }
        }

        assert forall|p: Position|
            #![trigger self.distances.spec_at(p)]
            self.maze.pos_in(p) && self.dist_at(p) != i32::MAX && self.dist_at(p) > 0
                implies exists|m: int| 0 <= m < 6 && #[trigger] step_down(
                self.maze,
                self.distances,
                p,
                m,
            ) by {
            lemma_grid_index_in_bounds(cols, rows, p);
            crate::grid::lemma_grid_index_injective(cols, rows, p, np);
            if p == np {
                lemma_position_round_trip(np);
                crate::maze::lemma_wall_symmetric(self.maze, u.position, n);
                crate::grid::lemma_grid_index_injective(cols, rows, pu, np);
                assert(pu != np);
                assert(self.dist_at(pu) == pre.dist_at(pu));
                assert(step_down(self.maze, self.distances, np, j)) by {
                    reveal(step_down);
                }
            } else {
                assert(pre.dist_at(p) == self.dist_at(p));
                let m = choose|m: int|
                    0 <= m < 6 && step_down(pre.maze, pre.distances, p, m);
                assert(step_down(pre.maze, pre.distances, p, m));
                assert(step_down(self.maze, self.distances, p, m)) by {
                    reveal(step_down);
                    let nm = p.spec_to_vector().spec_neighbor(m);
                    let pm = Position::spec_from_vector(nm);
                    lemma_grid_index_in_bounds(cols, rows, pm);
                    crate::grid::lemma_grid_index_injective(cols, rows, pm, np);
                }
            }
        }

        assert forall|k: int| 0 <= k < self.unvisited@.len() implies {
            let e = #[trigger] self.unvisited@[k];
            &&& e.position.spec_on_grid()
            &&& self.maze.vec_in(e.position)
            &&& self.dist_at(Position::spec_from_vector(e.position)) != i32::MAX
            &&& self.dist_at(Position::spec_from_vector(e.position)) <= e.distance
            &&& e.distance <= 2 * self.count_reached() - 2
            &&& reachable_at_cost(self.maze, e.position, e.distance as int)
        } by {
            let e = self.unvisited@[k];
            let pe = Position::spec_from_vector(e.position);
            lemma_grid_index_in_bounds(cols, rows, pe);
            crate::grid::lemma_grid_index_injective(cols, rows, pe, np);
            assert(reachable_at_cost(pre.maze, e.position, e.distance as int));
        }

        assert forall|p: Position|
            #![trigger self.distances.spec_at(p)]
            self.maze.pos_in(p) && self.dist_at(p) != i32::MAX implies reachable_at_cost(
            self.maze,
            p.spec_to_vector(),
            self.dist_at(p) as int,
        ) by {
            lemma_grid_index_in_bounds(cols, rows, p);
            crate::grid::lemma_grid_index_injective(cols, rows, p, np);
            if p == np {
                lemma_position_round_trip(np);
                lemma_reachable_extend(pre.maze, u.position, n, i, u.distance as int);
            } else {
                assert(pre.dist_at(p) == self.dist_at(p));
                assert(reachable_at_cost(pre.maze, p.spec_to_vector(), pre.dist_at(p) as int));
            }
        }
    }

    /// Recoloring cells leaves every wall, and with it the whole search
    /// state, as it was.
    proof fn lemma_recolor_wf(&self, pre: Solver)
        requires
            pre.wf(),
            !pre.is_done,
            pre.nonempty(),
            self.is_done == pre.is_done,
            self.path@ == pre.path@,
            self.goal == pre.goal,
            self.unvisited == pre.unvisited,
            self.distances == pre.distances,
            self.maze.wf(),
            self.maze.spec_cols() == pre.maze.spec_cols(),
            self.maze.spec_rows() == pre.maze.spec_rows(),
            forall|x: Vector, y: Vector| #[trigger]
                self.maze.spec_wall_between(x, y) == pre.maze.spec_wall_between(x, y),
        ensures
            self.wf(),
    {
        assert(self.shape_ok());
        assert forall|p: Position|
            #![trigger self.distances.spec_at(p)]
            self.maze.pos_in(p) && self.dist_at(p) != i32::MAX && self.dist_at(p) > 0
                implies exists|j: int| 0 <= j < 6 && #[trigger] step_down(
                self.maze,
                self.distances,
                p,
                j,
            ) by {
            assert(pre.dist_at(p) == self.dist_at(p));
            let j = choose|j: int| 0 <= j < 6 && step_down(pre.maze, pre.distances, p, j);
            assert(step_down(pre.maze, pre.distances, p, j));
            assert(step_down(self.maze, self.distances, p, j)) by {
                reveal(step_down);
            }
        }
        assert forall|p: Position|
            #![trigger self.distances.spec_at(p)]
            self.maze.pos_in(p) && self.dist_at(p) != i32::MAX implies reachable_at_cost(
            self.maze,
            p.spec_to_vector(),
            self.dist_at(p) as int,
        ) by {
            assert(pre.dist_at(p) == self.dist_at(p));
            assert(reachable_at_cost(pre.maze, p.spec_to_vector(), pre.dist_at(p) as int));
            lemma_reachable_fewer_walls(
                pre.maze,
                self.maze,
                p.spec_to_vector(),
                self.dist_at(p) as int,
            );
        }
        assert(self.dist_ok());
        assert forall|k: int| 0 <= k < self.unvisited@.len() implies {
            let e = #[trigger] self.unvisited@[k];
            &&& e.position.spec_on_grid()
            &&& self.maze.vec_in(e.position)
            &&& self.dist_at(Position::spec_from_vector(e.position)) != i32::MAX
            &&& self.dist_at(Position::spec_from_vector(e.position)) <= e.distance
            &&& e.distance <= 2 * self.count_reached() - 2
            &&& reachable_at_cost(self.maze, e.position, e.distance as int)
        } by {
            let e = self.unvisited@[k];
            assert(reachable_at_cost(pre.maze, e.position, e.distance as int));
            lemma_reachable_fewer_walls(pre.maze, self.maze, e.position, e.distance as int);
        }
        assert(self.frontier_ok());
        assert(self.path_state_ok());
    }

    /// Walks from the goal down the strictly falling recorded costs to the
    /// start, appending each cell: the result is an unblocked adjacent path
    /// from the goal back to the start.
    #[verifier::rlimit(100)]
    fn fill_path(&mut self)
        requires
            old(self).wf(),
            old(self).nonempty(),
            !old(self).is_done,
            old(self).dist_at(Position::spec_from_vector(old(self).goal)) != i32::MAX,
        ensures
            final(self).maze == old(self).maze,
            final(self).is_done == old(self).is_done,
            final(self).goal == old(self).goal,
            final(self).unvisited == old(self).unvisited,
            final(self).distances == old(self).distances,
            path_ok(
                final(self).maze,
                final(self).path@,
                final(self).goal,
                (Vector { col: 0i16, half_row: 0i16 }),
            ),
            forall|j: int, k: int|
                #![trigger final(self).path@[j], final(self).path@[k]]
                0 <= j < k < final(self).path@.len() ==> final(self).path@[j] != final(self).path@[k],
    {
        let mut position = self.goal;
        self.path.push(position);
        proof {
            assert(self.path@.len() == 1);
        }
        while *self.distances.at(Position::from_vector(position)) > 0
            invariant
                self.shape_ok(),
                self.dist_ok(),
                self.nonempty(),
                !self.is_done,
                self.maze == old(self).maze,
                self.goal == old(self).goal,
                self.unvisited == old(self).unvisited,
                self.distances == old(self).distances,
                position.spec_on_grid(),
                self.maze.vec_in(position),
                self.dist_at(Position::spec_from_vector(position)) != i32::MAX,
                self.path@.len() >= 1,
                self.path@[0] == self.goal,
                self.path@.last() == position,
                path_steps_ok(self.maze, self.path@),
                forall|j: int, k: int|
                    #![trigger self.path@[j], self.path@[k]]
                    0 <= j < k < self.path@.len() ==> self.dist_at(
                        Position::spec_from_vector(self.path@[j]),
                    ) as int > self.dist_at(Position::spec_from_vector(self.path@[k])) as int,
            decreases self.dist_at(Position::spec_from_vector(position)),
        {
            let pp = Position::from_vector(position);
            let n = self.pick_down(position, pp);
            let ghost pv = self.path@;
            self.path.push(n);
            proof {
                lemma_path_extend(self.maze, pv, n);
                assert(self.path@ == pv.push(n));
                // costs fall strictly along the path, so no cell repeats
                assert forall|j: int, k: int|
                    #![trigger self.path@[j], self.path@[k]]
                    0 <= j < k < self.path@.len() implies self.dist_at(
                    Position::spec_from_vector(self.path@[j]),
                ) as int > self.dist_at(Position::spec_from_vector(self.path@[k])) as int by {
                    assert(self.path@[j] == pv[j]);
                    if k < self.path@.len() - 1 {
                        assert(self.path@[k] == pv[k]);
                    } else {
                        assert(self.path@[k] == n);
                        assert(pv[pv.len() - 1] == position);
                        if j < pv.len() - 1 {
                            assert(self.dist_at(Position::spec_from_vector(pv[j])) as int
                                > self.dist_at(Position::spec_from_vector(position)) as int);
                        }
                    }
                }
            }
            position = n;
        }
        proof {
            let pp = Position::spec_from_vector(position);
            assert(self.dist_at(pp) == 0);
            assert(pp == Position { col: 0i16, row: 0i16 });
            lemma_vector_round_trip(position);
            assert(position == (Vector { col: 0i16, half_row: 0i16 }));
        }
    }

    /// The neighbor of `position` with the cheapest recorded cost among
    /// those not blocked by a wall: it is strictly cheaper than `position`
    /// itself, because some unblocked neighbor is.
    fn pick_down(&self, position: Vector, pp: Position) -> (n: Vector)
        requires
            self.shape_ok(),
            self.dist_ok(),
            self.nonempty(),
            position.spec_on_grid(),
            self.spec_maze().vec_in(position),
            pp == Position::spec_from_vector(position),
            self.distances.spec_at(pp) != i32::MAX,
            self.distances.spec_at(pp) > 0,
        ensures
            n.spec_on_grid(),
            self.spec_maze().vec_in(n),
            !self.spec_maze().spec_wall_between(position, n),
            exists|i: int| 0 <= i < 6 && n == #[trigger] position.spec_neighbor(i),
            self.distances.spec_at(Position::spec_from_vector(n)) != i32::MAX,
            self.distances.spec_at(Position::spec_from_vector(n)) < self.distances.spec_at(pp),
    {
        proof {
            lemma_position_round_trip(pp);
            lemma_vector_round_trip(position);
        }
        let mut best_v: Vector = position;
        let mut best_d: i32 = i32::MAX;
        let mut found = false;
        let mut i: usize = 0;
        while i < 6
            invariant
                self.shape_ok(),
                self.nonempty(),
                position.spec_on_grid(),
                self.maze.vec_in(position),
                pp == Position::spec_from_vector(position),
                position == pp.spec_to_vector(),
                i <= 6,
                found ==> {
                    &&& best_v.spec_on_grid()
                    &&& self.maze.vec_in(best_v)
                    &&& !self.maze.spec_wall_between(position, best_v)
                    &&& exists|m: int|
                        0 <= m < 6 && best_v == #[trigger] position.spec_neighbor(m)
                    &&& best_d == self.distances.spec_at(Position::spec_from_vector(best_v))
                },
                forall|m: int|
                    0 <= m < i as int && !self.maze.spec_wall_between(
                        position,
                        #[trigger] position.spec_neighbor(m),
                    ) && self.maze.vec_in(position.spec_neighbor(m)) ==> found && best_d
                        <= self.distances.spec_at(
                        Position::spec_from_vector(position.spec_neighbor(m)),
                    ),
            decreases 6 - i,
        {
            let n = self.vec_add_dir(position, i);
            if !self.maze.wall_between(position, n) {
                proof {
                    assert(self.maze.vec_in(n));
                }
                let d = *self.distances.at(Position::from_vector(n));
                if !found || d < best_d {
                    found = true;
                    best_v = n;
                    best_d = d;
                    proof {
                        assert(best_v == position.spec_neighbor(i as int));
                    }
                }
            }
            i = i + 1;
        }
        proof {
            let m = choose|m: int|
                0 <= m < 6 && #[trigger] step_down(self.maze, self.distances, pp, m);
            assert(step_down(self.maze, self.distances, pp, m)) by {
                assert(self.distances.spec_at(pp) != i32::MAX && self.distances.spec_at(pp)
                    > 0);
            }
            assert((self.maze.vec_in(position.spec_neighbor(m))
                && !self.maze.spec_wall_between(position, position.spec_neighbor(m))
                && self.distances.spec_at(
                Position::spec_from_vector(position.spec_neighbor(m)),
            ) != i32::MAX && self.distances.spec_at(
                Position::spec_from_vector(position.spec_neighbor(m)),
            ) + 2 <= self.distances.spec_at(pp))) by {
                reveal(step_down);
            }
            assert(found);
            assert(best_d <= self.distances.spec_at(
                Position::spec_from_vector(position.spec_neighbor(m)),
            ));
        }
        best_v
    }
}

/// Frontier order: by score, then recorded cost, then position, each
/// ascending.
pub open spec fn spec_entry_le(a: Unvisited, b: Unvisited) -> bool {
    if a.score != b.score {
        a.score < b.score
    } else if a.distance != b.distance {
        a.distance < b.distance
    } else if a.position.col != b.position.col {
        a.position.col < b.position.col
    } else {
        a.position.half_row <= b.position.half_row
    }
}

/// Strict frontier order; see [`spec_entry_le`].
fn entry_less(a: &Unvisited, b: &Unvisited) -> (r: bool)
    ensures
        r == (spec_entry_le(*a, *b) && !spec_entry_le(*b, *a)),
{
    if a.score != b.score {
        a.score < b.score
    } else if a.distance != b.distance {
        a.distance < b.distance
    } else if a.position.col != b.position.col {
        a.position.col < b.position.col
    } else {
        a.position.half_row < b.position.half_row
    }
}

/// Removes and returns the least frontier entry, or `None` when the
/// frontier is empty.
fn pop_min(q: &mut Vec<Unvisited>) -> (r: Option<Unvisited>)
    ensures
        match r {
            Some(u) => {
                &&& old(q)@.len() > 0
                &&& exists|j: int| 0 <= j < old(q)@.len() && old(q)@[j] == u
                &&& forall|j: int| 0 <= j < old(q)@.len() ==> spec_entry_le(u, #[trigger] old(q)@[j])
                &&& final(q)@.len() == old(q)@.len() - 1
                &&& forall|k: int|
                    0 <= k < final(q)@.len() ==> exists|j: int|
                        0 <= j < old(q)@.len() && #[trigger] final(q)@[k] == old(q)@[j]
            },
            None => old(q)@.len() == 0 && final(q)@ == old(q)@,
        },
{
    if q.len() == 0 {
        return None;
    }
    let mut best: usize = 0;
    let mut i: usize = 1;
    while i < q.len()
        invariant
            q@.len() > 0,
            best < q@.len(),
            i <= q@.len(),
            forall|j: int| 0 <= j < i as int ==> spec_entry_le(q@[best as int], #[trigger] q@[j]),
        decreases q@.len() - i,
    {
        if entry_less(&q[i], &q[best]) {
            best = i;
        }
        i = i + 1;
    }
    let u = q.swap_remove(best);
    proof {
        assert forall|k: int| 0 <= k < q@.len() implies exists|j: int|
            0 <= j < old(q)@.len() && #[trigger] q@[k] == old(q)@[j] by {
            if k == best {
                assert(q@[k] == old(q)@[old(q)@.len() - 1]);
            } else {
                assert(q@[k] == old(q)@[k]);
            }
        }
    }
    Some(u)
}

} // verus!
