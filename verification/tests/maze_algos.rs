//! Tests of the grid container, the wall model, the carving walk, and the
//! search.

use hex_maze::generator::Generator;
use hex_maze::grid::HexGrid;
use hex_maze::hex::{Position, Vector};
use hex_maze::maze::{Maze, CLEAR_COLOR};
use hex_maze::solver::Solver;

/// The six neighbor directions, in the library's enumeration order.
fn directions() -> [Vector; 6] {
    [
        Vector { col: 0, half_row: -2 },
        Vector { col: 1, half_row: -1 },
        Vector { col: 1, half_row: 1 },
        Vector { col: 0, half_row: 2 },
        Vector { col: -1, half_row: 1 },
        Vector { col: -1, half_row: -1 },
    ]
}

/// A terminal size whose maze has exactly `cols x rows` cells.
fn term_for(cols: u16, rows: u16) -> (u16, u16) {
    (cols * 8 + 3, rows * 4 + 3)
}

/// Runs the carving walk to completion and returns the finished maze.
fn generate(cols: u16, rows: u16) -> Maze {
    let (w, h) = term_for(cols, rows);
    let mut gen = Generator::new(w, h);
    let mut steps = 0usize;
    while !gen.is_done() {
        gen.step();
        steps += 1;
        assert!(steps <= 8 * (cols as usize) * (rows as usize) + 8);
    }
    gen.maze.clone()
}

/// Counts the open walls between adjacent in-grid cells, each pair once.
fn open_pairs(m: &Maze) -> usize {
    let mut count = 0usize;
    for col in 0..m.cols() as i16 {
        for row in 0..m.rows() as i16 {
            let v = Position { col, row }.to_vector();
            // The north-east, south, and north-west walls are each stored
            // at this cell, so each adjacent pair is counted exactly once.
            for d in [directions()[1], directions()[3], directions()[5]] {
                let n = v.add(d);
                if m.contains(n) && !m.wall_between(v, n) {
                    count += 1;
                }
            }
        }
    }
    count
}

/// Breadth-first search over open walls; returns the number of reachable
/// cells and the distance (in steps) from the origin to `to`.
fn bfs(m: &Maze, from: Vector, to: Vector) -> (usize, Option<usize>) {
    let mut dist: std::collections::HashMap<(i16, i16), usize> = std::collections::HashMap::new();
    let mut queue: std::collections::VecDeque<Vector> = std::collections::VecDeque::new();
    dist.insert((from.col, from.half_row), 0);
    queue.push_back(from);
    while let Some(v) = queue.pop_front() {
        let d = dist[&(v.col, v.half_row)];
        for dir in directions() {
            let n = v.add(dir);
            if m.contains(n) && !m.wall_between(v, n) && !dist.contains_key(&(n.col, n.half_row))
            {
                dist.insert((n.col, n.half_row), d + 1);
                queue.push_back(n);
            }
        }
    }
    (dist.len(), dist.get(&(to.col, to.half_row)).copied())
}

#[test]
fn test_grid_basics() {
    let mut g: HexGrid<u8> = HexGrid::new_with(3, 2, 7);
    assert_eq!(g.cols(), 3);
    assert_eq!(g.rows(), 2);
    assert!(!g.is_empty());
    assert!(g.contains(Position { col: 2, row: 1 }));
    assert!(!g.contains(Position { col: 3, row: 0 }));
    assert!(!g.contains(Position { col: 0, row: -1 }));
    assert_eq!(g.get(Position { col: 1, row: 1 }), Some(&7));
    assert_eq!(g.get(Position { col: 3, row: 0 }), None);
    g.set(Position { col: 1, row: 1 }, 9);
    assert_eq!(*g.at(Position { col: 1, row: 1 }), 9);
    assert_eq!(*g.at(Position { col: 0, row: 0 }), 7);
    if let Some(cell) = g.get_mut(Position { col: 2, row: 0 }) {
        *cell = 5;
    }
    assert_eq!(g.get(Position { col: 2, row: 0 }), Some(&5));

    let empty: HexGrid<u8> = HexGrid::empty();
    assert!(empty.is_empty());
    assert_eq!(empty.cols(), 0);

    let mut other: HexGrid<u8> = HexGrid::empty();
    other.copy_from(&g);
    assert_eq!(other.get(Position { col: 1, row: 1 }), Some(&9));
    assert_eq!(other.cols(), 3);
    assert_eq!(other.rows(), 2);
}

#[test]
fn test_grid_indices() {
    let g: HexGrid<bool> = HexGrid::new_with(2, 3, false);
    let all = g.indices();
    assert_eq!(all.len(), 6);
    // Column 0 first, then column 1, rows in order within each.
    assert_eq!(all[0], Position { col: 0, row: 0 });
    assert_eq!(all[1], Position { col: 0, row: 1 });
    assert_eq!(all[2], Position { col: 0, row: 2 });
    assert_eq!(all[3], Position { col: 1, row: 0 });
    assert_eq!(all[5], Position { col: 1, row: 2 });
}

#[test]
fn test_maze_new_dimensions() {
    let m = Maze::new(35, 15);
    assert_eq!(m.cols(), 4);
    assert_eq!(m.rows(), 3);
    // A terminal too small for one cell yields the empty maze.
    let small = Maze::new(10, 40);
    assert!(small.is_empty());
    let short = Maze::new(40, 6);
    assert!(short.is_empty());
}

#[test]
fn test_fresh_maze_all_walls() {
    let m = Maze::new(35, 15);
    for col in 0..m.cols() as i16 {
        for row in 0..m.rows() as i16 {
            let v = Position { col, row }.to_vector();
            for d in directions() {
                assert!(m.wall_between(v, v.add(d)));
            }
        }
    }
}

#[test]
fn test_wall_symmetry() {
    let m = generate(4, 3);
    for col in 0..m.cols() as i16 {
        for row in 0..m.rows() as i16 {
            let v = Position { col, row }.to_vector();
            for d in directions() {
                let n = v.add(d);
                assert_eq!(m.wall_between(v, n), m.wall_between(n, v));
            }
        }
    }
}

#[test]
fn test_boundary_always_walled() {
    let m = generate(3, 2);
    for col in 0..m.cols() as i16 {
        for row in 0..m.rows() as i16 {
            let v = Position { col, row }.to_vector();
            for d in directions() {
                let n = v.add(d);
                if !m.contains(n) {
                    assert!(m.wall_between(v, n));
                }
            }
        }
    }
    // Two out-of-grid locations are never separated by a maze wall.
    let far_a = Vector { col: -2, half_row: 0 };
    let far_b = Vector { col: -2, half_row: 2 };
    assert!(!m.wall_between(far_a, far_b));
}

#[test]
fn test_set_wall_between() {
    let mut m = Maze::new(35, 15);
    let a = Position { col: 1, row: 1 }.to_vector();
    let b = a.add(directions()[3]);
    assert!(m.wall_between(a, b));
    m.set_wall_between(a, b, false);
    assert!(!m.wall_between(a, b));
    assert!(!m.wall_between(b, a));
    // Every other wall of `a` still stands.
    for d in [directions()[0], directions()[1], directions()[2], directions()[4], directions()[5]] {
        assert!(m.wall_between(a, a.add(d)));
    }
    m.set_wall_between(a, b, true);
    assert!(m.wall_between(a, b));
    // Mutating a boundary pair is ignored: the boundary stays walled.
    let origin = Vector { col: 0, half_row: 0 };
    let outside = origin.add(directions()[0]);
    m.set_wall_between(origin, outside, false);
    assert!(m.wall_between(origin, outside));
}

#[test]
fn test_spanning_tree() {
    for (cols, rows) in [(1u16, 1u16), (2, 1), (1, 4), (5, 4), (7, 3)] {
        let m = generate(cols, rows);
        let cells = cols as usize * rows as usize;
        // Exactly one less open wall than cells...
        assert_eq!(open_pairs(&m), cells - 1);
        // ...and everything reachable: connected with |E| = |V| - 1, so
        // the open-wall graph is a spanning tree (connected and acyclic).
        let (reached, _) = bfs(&m, Vector { col: 0, half_row: 0 }, Vector { col: 0, half_row: 0 });
        assert_eq!(reached, cells);
    }
}

#[test]
fn test_generator_done_is_idempotent() {
    let (w, h) = term_for(3, 3);
    let mut gen = Generator::new(w, h);
    while !gen.is_done() {
        gen.step();
    }
    let before = gen.maze.clone();
    gen.step();
    gen.step();
    assert!(gen.is_done());
    for col in 0..before.cols() as i16 {
        for row in 0..before.rows() as i16 {
            let v = Position { col, row }.to_vector();
            for d in directions() {
                let n = v.add(d);
                assert_eq!(gen.maze.wall_between(v, n), before.wall_between(v, n));
            }
        }
    }
}

#[test]
fn test_generator_empty_grid() {
    let mut gen = Generator::new(5, 5);
    assert!(gen.maze.is_empty());
    assert!(gen.is_done());
    gen.step();
    assert!(gen.is_done());
}

#[test]
fn test_solver_empty_grid() {
    let m = Maze::empty();
    let mut s = Solver::new(m);
    assert!(s.is_done);
    assert!(s.path.is_empty());
    s.step();
    assert!(s.is_done);
    assert!(s.path.is_empty());
}

#[test]
fn test_two_cell_scenario() {
    // A 2x1 grid: the generator must open exactly the one wall between
    // the two cells within at most 2 steps and reach its terminal state.
    let (w, h) = term_for(2, 1);
    let mut gen = Generator::new(w, h);
    gen.step();
    if !gen.is_done() {
        gen.step();
    }
    assert!(gen.is_done());
    let a = Position { col: 0, row: 0 }.to_vector();
    let b = Position { col: 1, row: 0 }.to_vector();
    assert!(!gen.maze.wall_between(a, b));
    assert_eq!(open_pairs(&gen.maze), 1);

    // The solver pops the start, which is already adjacent to the goal,
    // then pops the goal: done with the two cells on the path.
    let mut solver = Solver::new(gen.maze.clone());
    let mut pops = 0usize;
    while !solver.is_done {
        solver.step();
        pops += 1;
    }
    assert_eq!(pops, 2);
    assert_eq!(solver.path, vec![b, a]);
}

#[test]
fn test_solver_finds_unblocked_optimal_path() {
    for (cols, rows) in [(2u16, 2u16), (4, 3), (6, 2), (3, 5)] {
        let m = generate(cols, rows);
        let start = Vector { col: 0, half_row: 0 };
        let goal = Position { col: cols as i16 - 1, row: rows as i16 - 1 }.to_vector();
        let mut solver = Solver::new(m.clone());
        let mut steps = 0usize;
        while !solver.is_done {
            solver.step();
            steps += 1;
            assert!(steps <= 64 * (cols as usize) * (rows as usize) + 64);
        }
        let path = solver.path.clone();
        assert!(path.len() >= 1);
        assert_eq!(path[0], goal);
        assert_eq!(*path.last().unwrap(), start);
        // Every step is between adjacent cells and unblocked.
        for k in 0..path.len() - 1 {
            let d = path[k + 1].sub(path[k]);
            assert!(directions().contains(&d));
            assert!(!m.wall_between(path[k], path[k + 1]));
        }
        // In a perfect maze the unique path is the shortest one: the
        // reconstructed path's cost matches the true distance.
        let (_, found) = bfs(&m, start, goal);
        let true_steps = found.expect("goal must be reachable");
        assert_eq!(2 * (path.len() - 1), 2 * true_steps);
    }
}

#[test]
fn test_solver_done_is_idempotent() {
    let m = generate(3, 2);
    let mut solver = Solver::new(m);
    while !solver.is_done {
        solver.step();
    }
    let path_before = solver.path.clone();
    let maze_before = solver.maze.clone();
    solver.step();
    solver.step();
    assert!(solver.is_done);
    assert_eq!(solver.path, path_before);
    for col in 0..maze_before.cols() as i16 {
        for row in 0..maze_before.rows() as i16 {
            let v = Position { col, row }.to_vector();
            for d in directions() {
                let n = v.add(d);
                assert_eq!(solver.maze.wall_between(v, n), maze_before.wall_between(v, n));
            }
        }
    }
}

#[test]
fn test_maze_copy_from_and_background() {
    let mut m = generate(3, 2);
    let v = Position { col: 1, row: 1 }.to_vector();
    m.set_background(v, 4);
    assert_eq!(m.background_at(v), Some(4));
    let outside = Vector { col: -1, half_row: 1 };
    assert_eq!(m.background_at(outside), None);
    m.fill_background(CLEAR_COLOR);
    assert_eq!(m.background_at(v), Some(CLEAR_COLOR));

    let mut copy = Maze::empty();
    copy.copy_from(&m);
    assert_eq!(copy.cols(), m.cols());
    assert_eq!(copy.rows(), m.rows());
    for col in 0..m.cols() as i16 {
        for row in 0..m.rows() as i16 {
            let a = Position { col, row }.to_vector();
            for d in directions() {
                assert_eq!(copy.wall_between(a, a.add(d)), m.wall_between(a, a.add(d)));
            }
        }
    }
}

#[test]
fn test_pick_next_cell_gives_valid_candidate() {
    // On a fresh 2x1 maze the only candidate from the origin is the other
    // cell, whatever the random choice does.
    let (w, h) = term_for(2, 1);
    let gen = Generator::new(w, h);
    let next = gen.pick_next_cell().expect("a fresh 2x1 grid has a candidate");
    assert_eq!(next, Position { col: 1, row: 0 }.to_vector());
}

#[test]
fn test_render_probes() {
    // A single cell: its position is (0,0), staggered coordinate (0,0).
    let m = Maze::new(11, 7);
    assert_eq!(m.cols(), 1);
    assert_eq!(m.rows(), 1);
    let cell = Vector { col: 0, half_row: 0 };
    // The probe above the cell sees the boundary wall to the north.
    assert!(m.horizontal_wall_at(cell));
    // The probe at the cell sees its north-west boundary edge.
    assert!(m.vertical_wall_at(cell));
    // The vertex above the cell touches boundary walls.
    assert!(m.vertex_wall_at(cell));
    // A probe far outside the grid meets no wall at all.
    let far = Vector { col: 5, half_row: 9 };
    assert!(!m.horizontal_wall_at(far));
    assert!(!m.vertical_wall_at(far));
    assert!(!m.vertex_wall_at(far));
}
