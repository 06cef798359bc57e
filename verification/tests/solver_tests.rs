use peg_solitaire::board::{InitialHole, PegState, SolverError, TriangleBoard};
use peg_solitaire::moves::{Coord, Move};
use peg_solitaire::solver::{Board, EnglishBoard, Solution, SolutionSet};

fn center_board(size: usize) -> Board {
    Board::Triangle(TriangleBoard::new(size, InitialHole::Center).unwrap())
}

fn sets_equal(a: &SolutionSet, b: &SolutionSet) -> bool {
    if a.len() != b.len() {
        return false;
    }
    for k in 0..a.len() {
        if !b.contains_moves(a.get(k).moves()) {
            return false;
        }
    }
    true
}

#[test]
fn solve_size5_center_reference_count_parallel() {
    let out = center_board(5).solve().unwrap();
    assert_eq!(out.len(), 1550);
}

#[test]
fn solve_size5_center_reference_count_sequential() {
    let out = center_board(5).solve_sequential().unwrap();
    assert_eq!(out.len(), 1550);
}

#[test]
fn sequential_and_parallel_modes_agree() {
    let board = center_board(5);
    let par = board.solve().unwrap();
    let seq = board.solve_sequential().unwrap();
    assert!(sets_equal(&par, &seq));
    assert!(sets_equal(&seq, &par));
}

#[test]
fn solve_is_idempotent() {
    let board = center_board(5);
    let first = board.solve_sequential().unwrap();
    let second = board.solve_sequential().unwrap();
    assert!(sets_equal(&first, &second));
    let par_first = board.solve().unwrap();
    let par_second = board.solve().unwrap();
    assert!(sets_equal(&par_first, &par_second));
}

#[test]
fn stuck_board_yields_empty_solution_set() {
    // Side 2 with the center hole: two pegs, no legal first move, not
    // terminal.
    let board = center_board(2);
    assert_eq!(board.is_solved(), Ok(false));
    let out = board.solve().unwrap();
    assert_eq!(out.len(), 0);
    let out_seq = board.solve_sequential().unwrap();
    assert_eq!(out_seq.len(), 0);
}

#[test]
fn terminal_board_yields_one_empty_solution() {
    // A side-1 board whose only cell still holds its peg.
    let tri = TriangleBoard { size: 1, cells: vec![PegState::Occupied] };
    assert!(tri.is_terminal());
    let board = Board::Triangle(tri);
    assert_eq!(board.is_solved(), Ok(true));
    let out = board.solve().unwrap();
    assert_eq!(out.len(), 1);
    assert!(out.get(0).moves().is_empty());
    let out_seq = board.solve_sequential().unwrap();
    assert_eq!(out_seq.len(), 1);
    assert!(out_seq.get(0).moves().is_empty());
}

#[test]
fn every_solution_replays_to_one_peg() {
    let out = center_board(5).solve_sequential().unwrap();
    assert!(out.len() > 0);
    for k in 0..out.len() {
        let sol = out.get(k);
        let mut board = center_board(5);
        for m in sol.moves().iter() {
            let legal = board.find_valid_moves().unwrap();
            assert!(legal.contains(m));
            assert_eq!(board.execute_move(m), Ok(()));
        }
        assert_eq!(board.is_solved(), Ok(true));
        assert_eq!(board.occupied_count(), Ok(1));
    }
}

#[test]
fn sequential_discovery_order_is_stable() {
    let board = center_board(5);
    let first = board.solve_sequential().unwrap();
    let second = board.solve_sequential().unwrap();
    assert_eq!(first.len(), second.len());
    for k in 0..first.len() {
        assert_eq!(first.get(k).moves(), second.get(k).moves());
    }
}

#[test]
fn english_variant_is_unsupported() {
    let mut board = Board::English(EnglishBoard::default());
    assert_eq!(board.solve().map(|s| s.len()), Err(SolverError::UnsupportedVariant));
    assert_eq!(board.solve_sequential().map(|s| s.len()), Err(SolverError::UnsupportedVariant));
    assert_eq!(board.is_solved(), Err(SolverError::UnsupportedVariant));
    assert_eq!(board.occupied_count(), Err(SolverError::UnsupportedVariant));
    assert_eq!(board.find_valid_moves().map(|v| v.len()), Err(SolverError::UnsupportedVariant));
    assert_eq!(board.render_lines().map(|v| v.len()), Err(SolverError::UnsupportedVariant));
    let m = Move {
        from: Coord { row: 0, col: 0 },
        to: Coord { row: 0, col: 2 },
        eliminate: Coord { row: 0, col: 1 },
    };
    assert_eq!(board.execute_move(&m), Err(SolverError::UnsupportedVariant));
}

#[test]
fn solution_set_dedupes_by_full_sequence() {
    let m1 = Move {
        from: Coord { row: 4, col: 1 },
        to: Coord { row: 2, col: 2 },
        eliminate: Coord { row: 3, col: 1 },
    };
    let m2 = Move {
        from: Coord { row: 4, col: 3 },
        to: Coord { row: 2, col: 2 },
        eliminate: Coord { row: 3, col: 2 },
    };
    let mut set = SolutionSet::new();
    assert_eq!(set.len(), 0);
    set.insert(Solution::new(vec![m1]));
    set.insert(Solution::new(vec![m1]));
    assert_eq!(set.len(), 1);
    set.insert(Solution::new(vec![m1, m2]));
    set.insert(Solution::new(vec![m2, m1]));
    set.insert(Solution::new(vec![m1, m2]));
    assert_eq!(set.len(), 3);
    assert!(set.contains_moves(&vec![m1]));
    assert!(set.contains_moves(&vec![m1, m2]));
    assert!(set.contains_moves(&vec![m2, m1]));
    assert!(!set.contains_moves(&vec![m2]));
    assert_eq!(set.get(0).moves(), &vec![m1]);
}

#[test]
fn solution_round_trip() {
    let m1 = Move {
        from: Coord { row: 4, col: 1 },
        to: Coord { row: 2, col: 2 },
        eliminate: Coord { row: 3, col: 1 },
    };
    let sol = Solution::new(vec![m1]);
    assert_eq!(sol.moves(), &vec![m1]);
    let copy = sol.duplicate();
    assert_eq!(copy.moves(), sol.moves());
}
