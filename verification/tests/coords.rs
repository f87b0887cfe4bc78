//! Tests of the two coordinate systems and their conversions.

use hex_maze::hex::{Position, Vector};

#[test]
fn test_position_from_vector() {
    assert_eq!(
        Position::from_vector(Vector { col: 0, half_row: 0 }),
        Position { col: 0, row: 0 }
    );
    assert_eq!(
        Position::from_vector(Vector { col: 1, half_row: 1 }),
        Position { col: 1, row: 0 }
    );
    assert_eq!(
        Position::from_vector(Vector { col: 2, half_row: 0 }),
        Position { col: 2, row: 0 }
    );
    assert_eq!(
        Position::from_vector(Vector { col: 3, half_row: 1 }),
        Position { col: 3, row: 0 }
    );
    assert_eq!(
        Position::from_vector(Vector { col: 0, half_row: 2 }),
        Position { col: 0, row: 1 }
    );
    assert_eq!(
        Position::from_vector(Vector { col: 1, half_row: 3 }),
        Position { col: 1, row: 1 }
    );
    assert_eq!(
        Position::from_vector(Vector { col: 2, half_row: 2 }),
        Position { col: 2, row: 1 }
    );
    assert_eq!(
        Position::from_vector(Vector { col: 3, half_row: 3 }),
        Position { col: 3, row: 1 }
    );
}

#[test]
fn test_vector_from_position() {
    assert_eq!(
        Position { col: 0, row: 0 }.to_vector(),
        Vector { col: 0, half_row: 0 },
    );
    assert_eq!(
        Position { col: 1, row: 0 }.to_vector(),
        Vector { col: 1, half_row: 1 },
    );
    assert_eq!(
        Position { col: 2, row: 0 }.to_vector(),
        Vector { col: 2, half_row: 0 },
    );
    assert_eq!(
        Position { col: 3, row: 0 }.to_vector(),
        Vector { col: 3, half_row: 1 },
    );
}

#[test]
fn test_round_trip_identity() {
    for col in -4i16..5 {
        for row in -4i16..5 {
            let p = Position { col, row };
            assert_eq!(Position::from_vector(p.to_vector()), p);
        }
    }
    for col in -4i16..5 {
        for half_row in -4i16..5 {
            let v = Vector { col, half_row };
            if v.on_grid() {
                assert_eq!(Position::from_vector(v).to_vector(), v);
            }
        }
    }
}

#[test]
fn test_from_vector_rounds_toward_north() {
    // Off-grid probes land on the cell a half-row up, even below zero.
    assert_eq!(
        Position::from_vector(Vector { col: 0, half_row: -1 }),
        Position { col: 0, row: -1 }
    );
    assert_eq!(
        Position::from_vector(Vector { col: 0, half_row: -2 }),
        Position { col: 0, row: -1 }
    );
    assert_eq!(
        Position::from_vector(Vector { col: 1, half_row: 0 }),
        Position { col: 1, row: -1 }
    );
}

#[test]
fn test_directions_stay_on_grid() {
    let starts = [
        Vector { col: 0, half_row: 0 },
        Vector { col: 1, half_row: 1 },
        Vector { col: 2, half_row: 4 },
        Vector { col: 5, half_row: -3 },
    ];
    for v in starts {
        assert!(v.on_grid());
        for i in 0..6 {
            let d = Vector::direction_at(i);
            assert!(v.add(d).on_grid());
        }
    }
}

#[test]
fn test_direction_lengths() {
    for i in 0..6 {
        assert_eq!(Vector::direction_at(i).length(), 2);
    }
    // North/south displacement costs one step per two half-rows.
    assert_eq!(Vector { col: 0, half_row: 6 }.length(), 6);
    // A pure diagonal walk costs one step per column.
    assert_eq!(Vector { col: 3, half_row: 3 }.length(), 6);
    // A wide displacement is dominated by its columns.
    assert_eq!(Vector { col: 4, half_row: 2 }.length(), 8);
    assert_eq!(Vector { col: 0, half_row: 0 }.length(), 0);
    assert_eq!(Vector { col: -3, half_row: -5 }.length(), 8);
}

#[test]
fn test_vector_arithmetic() {
    assert_eq!(Vector::origin(), Vector { col: 0, half_row: 0 });
    let a = Vector { col: 3, half_row: -2 };
    let b = Vector { col: -1, half_row: 5 };
    assert_eq!(a.add(b), Vector { col: 2, half_row: 3 });
    assert_eq!(a.sub(b), Vector { col: 4, half_row: -7 });
    assert_eq!(a.neg(), Vector { col: -3, half_row: 2 });
}

#[test]
fn test_nearest_north() {
    let on = Vector { col: 2, half_row: 4 };
    assert_eq!(on.nearest_north(), on);
    let off = Vector { col: 2, half_row: 3 };
    assert_eq!(off.nearest_north(), Vector { col: 2, half_row: 2 });
}
