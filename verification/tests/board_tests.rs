use peg_solitaire::board::{InitialHole, PegState, SolverError, TriangleBoard};
use peg_solitaire::moves::{Coord, Move};

fn count_state(b: &TriangleBoard, s: PegState) -> usize {
    let size = b.size();
    let mut n = 0;
    for i in 0..size {
        for j in 0..size {
            if b.cell(i, j) == s {
                n += 1;
            }
        }
    }
    n
}

#[test]
fn new_center_size5_layout() {
    let b = TriangleBoard::new(5, InitialHole::Center).unwrap();
    assert_eq!(b.size(), 5);
    // Row spans: row 0 -> col 2; row 1 -> 1..=2; row 2 -> 1..=3;
    // row 3 -> 0..=3; row 4 -> 0..=4.
    let spans = [(0usize, 2usize, 2usize), (1, 1, 2), (2, 1, 3), (3, 0, 3), (4, 0, 4)];
    for &(i, lo, hi) in spans.iter() {
        for j in 0..5 {
            let c = b.cell(i, j);
            if i == 2 && j == 2 {
                assert_eq!(c, PegState::Empty);
            } else if j >= lo && j <= hi {
                assert_eq!(c, PegState::Occupied);
            } else {
                assert_eq!(c, PegState::Invalid);
            }
        }
    }
}

#[test]
fn playable_count_formula_small_sizes() {
    for size in 1..9usize {
        let b = TriangleBoard::new(size, InitialHole::Center).unwrap();
        let playable = count_state(&b, PegState::Occupied) + count_state(&b, PegState::Empty);
        assert_eq!(playable, size * (size + 1) / 2);
        assert_eq!(count_state(&b, PegState::Empty), 1);
        assert_eq!(b.occupied_count(), size * (size + 1) / 2 - 1);
    }
}

#[test]
fn new_rejects_zero_size() {
    assert_eq!(
        TriangleBoard::new(0, InitialHole::Center).unwrap_err(),
        SolverError::Configuration
    );
}

#[test]
fn new_rejects_unplayable_hole() {
    // (0, 0) is padding on a board of side 5: row 0 only holds column 2.
    assert_eq!(
        TriangleBoard::new(5, InitialHole::At(0, 0)).unwrap_err(),
        SolverError::Configuration
    );
    assert_eq!(
        TriangleBoard::new(5, InitialHole::At(9, 9)).unwrap_err(),
        SolverError::Configuration
    );
}

#[test]
fn new_explicit_hole() {
    let b = TriangleBoard::new(5, InitialHole::At(2, 1)).unwrap();
    assert_eq!(b.cell(2, 1), PegState::Empty);
    assert_eq!(b.occupied_count(), 14);
}

#[test]
fn apply_move_drops_one_peg_keeps_footprint() {
    let mut b = TriangleBoard::new(5, InitialHole::Center).unwrap();
    let playable_before = count_state(&b, PegState::Occupied) + count_state(&b, PegState::Empty);
    let moves = b.find_valid_moves();
    assert!(!moves.is_empty());
    let occ_before = b.occupied_count();
    b.execute_move(&moves[0]);
    assert_eq!(b.occupied_count(), occ_before - 1);
    let playable_after = count_state(&b, PegState::Occupied) + count_state(&b, PegState::Empty);
    assert_eq!(playable_before, playable_after);
}

#[test]
fn generator_order_is_row_major() {
    let b = TriangleBoard::new(5, InitialHole::Center).unwrap();
    let moves = b.find_valid_moves();
    let expected = vec![
        Move {
            from: Coord { row: 4, col: 1 },
            to: Coord { row: 2, col: 2 },
            eliminate: Coord { row: 3, col: 1 },
        },
        Move {
            from: Coord { row: 4, col: 3 },
            to: Coord { row: 2, col: 2 },
            eliminate: Coord { row: 3, col: 2 },
        },
    ];
    assert_eq!(moves, expected);
}

#[test]
fn generator_empty_on_stuck_board() {
    // Side 2: three playable cells, no cell has room for any jump.
    let b = TriangleBoard::new(2, InitialHole::Center).unwrap();
    assert_eq!(b.occupied_count(), 2);
    assert!(!b.is_terminal());
    assert!(b.find_valid_moves().is_empty());
}

#[test]
fn render_draws_triangle_with_offset_rows() {
    let b = TriangleBoard::new(2, InitialHole::Center).unwrap();
    let lines = b.render_lines();
    assert_eq!(lines.len(), 2);
    assert_eq!(lines[0], "   o");
    assert_eq!(lines[1], "  o \u{b7}");
    let b5 = TriangleBoard::new(5, InitialHole::Center).unwrap();
    let lines5 = b5.render_lines();
    assert_eq!(lines5.len(), 5);
    // Even rows are 10 glyph characters, odd rows carry one extra space.
    for (i, line) in lines5.iter().enumerate() {
        assert_eq!(line.chars().count(), 10 + i % 2);
    }
    assert_eq!(lines5[0], "     o    ");
}

#[test]
fn mirror_of_move_generation() {
    // Hole at (2, 1) against hole at the mirrored column (2, 3): the legal
    // moves of one board are the left-right mirror images of the other's.
    let size = 5usize;
    let b1 = TriangleBoard::new(size, InitialHole::At(2, 1)).unwrap();
    let b2 = TriangleBoard::new(size, InitialHole::At(2, 3)).unwrap();
    let mirror_coord = |c: Coord| -> Coord {
        let base = 2 * (size / 2) - (c.row % 2);
        Coord { row: c.row, col: base - c.col }
    };
    let mirror_move =
        |m: &Move| -> Move {
            Move {
                from: mirror_coord(m.from),
                to: mirror_coord(m.to),
                eliminate: mirror_coord(m.eliminate),
            }
        };
    let m1 = b1.find_valid_moves();
    let m2 = b2.find_valid_moves();
    assert_eq!(m1.len(), m2.len());
    for m in m1.iter() {
        assert!(m2.contains(&mirror_move(m)));
    }
    for m in m2.iter() {
        assert!(m1.contains(&mirror_move(m)));
    }
}
