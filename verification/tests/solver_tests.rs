use std::str::FromStr;

use sudoku_solver::board::{Board, Entry};
use sudoku_solver::graphics::SolvingStatus;
use sudoku_solver::solver::{solve, solve_by_steps, Solver, StepResult};

/// A fully solved, valid grid.
const SOLVED_GRID: &str = "123456789\
                           456789123\
                           789123456\
                           234567891\
                           567891234\
                           891234567\
                           345678912\
                           678912345\
                           912345678";

fn example_puzzle() -> Board {
    Board::from_str(
        r"+-------+-------+-------+
          | 1 6 _ | 9 _ _ | _ _ 5 |
          | 2 _ _ | _ 4 5 | 6 _ 9 |
          | _ 9 _ | _ 3 _ | 7 _ 2 |
          +-------+-------+-------+
          | 6 _ _ | _ _ 7 | _ 9 3 |
          | 9 _ _ | _ 1 _ | _ _ 7 |
          | 4 7 _ | 3 _ 9 | _ _ 8 |
          +-------+-------+-------+
          | 7 _ 2 | _ 8 _ | 9 5 6 |
          | _ _ 6 | 2 9 _ | _ _ 4 |
          | _ _ 9 | _ _ _ | _ _ 1 |
          +-------+-------+-------+",
    )
    .unwrap()
}

fn cells_of(board: &Board) -> Vec<Option<Entry>> {
    (0..81).map(|i| board.get_cell_index(i)).collect()
}

fn render(board: &Board) -> String {
    (0..81)
        .map(|i| match board.get_cell_index(i) {
            Some(e) => char::from_digit(e.number() as u32, 10).unwrap(),
            None => '_',
        })
        .collect()
}

/// Step a fresh solver until it reports something other than `Searching`,
/// with a generous cap so an accidental loop fails the test instead of
/// hanging it.
fn step_to_completion(board: &mut Board) -> StepResult {
    let mut solver = Solver::new();
    for _ in 0..2_000_000 {
        match solver.step(board) {
            StepResult::Searching => continue,
            done => return done,
        }
    }
    panic!("the stepped search did not terminate within the step budget");
}

#[test]
fn test_solve_example_puzzle() {
    let original = example_puzzle();
    let mut board = example_puzzle();
    assert!(solve(&mut board));
    assert!(board.is_valid());
    assert_eq!(board.first_unfilled_index(), None);
    // every clue of the puzzle is kept
    for i in 0..81 {
        if original.get_cell_index(i).is_some() {
            assert_eq!(board.get_cell_index(i), original.get_cell_index(i));
        }
    }
}

#[test]
fn test_solve_round_trip_on_solved_board() {
    let mut board = Board::from_text(SOLVED_GRID);
    assert!(board.is_valid());
    assert_eq!(board.first_unfilled_index(), None);
    let before = cells_of(&board);

    // render the solved board back to text, parse it, and solve again
    let mut reparsed = Board::from_text(&render(&board));
    assert_eq!(cells_of(&reparsed), before);
    assert!(solve(&mut reparsed));
    assert_eq!(cells_of(&reparsed), before);

    // solving the board itself changes nothing either
    assert!(solve(&mut board));
    assert_eq!(cells_of(&board), before);
}

#[test]
fn test_step_reports_solved_without_mutation() {
    let mut board = Board::from_text(SOLVED_GRID);
    let before = cells_of(&board);
    let mut solver = Solver::new();
    assert_eq!(solver.step(&mut board), StepResult::Solved);
    assert_eq!(cells_of(&board), before);
    // the very next call reports solved again
    assert_eq!(solver.step(&mut board), StepResult::Solved);
    assert_eq!(cells_of(&board), before);
}

#[test]
fn test_stepping_matches_one_shot_solve() {
    // blank a scattering of cells out of a solved grid
    let mut text: Vec<char> = SOLVED_GRID.chars().collect();
    for &i in &[0usize, 5, 12, 27, 40, 44, 60, 71, 80] {
        text[i] = '_';
    }
    let text: String = text.into_iter().collect();

    let mut one_shot = Board::from_text(&text);
    assert!(solve(&mut one_shot));

    let mut stepped = Board::from_text(&text);
    assert_eq!(step_to_completion(&mut stepped), StepResult::Solved);

    let mut by_steps = Board::from_text(&text);
    assert!(solve_by_steps(&mut by_steps));

    assert_eq!(cells_of(&stepped), cells_of(&one_shot));
    assert_eq!(cells_of(&by_steps), cells_of(&one_shot));
}

#[test]
fn test_solve_by_steps_on_unsolvable_board_restores_it() {
    let mut board = Board::from_text(
        "12345678_\
         ______9__",
    );
    let before = cells_of(&board);
    assert!(!solve_by_steps(&mut board));
    assert_eq!(cells_of(&board), before);
}

#[test]
fn test_step_on_invalid_board_reports_unsolvable() {
    // two identical digits fixed in the same row from the start
    let mut board = Board::from_text("11");
    assert!(!board.is_valid());
    let before = cells_of(&board);
    let mut solver = Solver::new();
    for _ in 0..10 {
        assert_eq!(solver.step(&mut board), StepResult::Unsolvable);
        assert_eq!(cells_of(&board), before);
    }
}

#[test]
fn test_step_on_unsolvable_board_terminates() {
    // row 0 lacks only a 9 at its last cell, but the 9 in the box below
    // makes that placement impossible: the board is valid yet unsolvable
    let mut board = Board::from_text(
        "12345678_\
         ______9__",
    );
    assert!(board.is_valid());
    let mut solver = Solver::new();
    let mut outcome = StepResult::Searching;
    for _ in 0..10_000 {
        outcome = solver.step(&mut board);
        assert_ne!(outcome, StepResult::Solved);
        if outcome == StepResult::Unsolvable {
            break;
        }
    }
    assert_eq!(outcome, StepResult::Unsolvable);
}

#[test]
fn test_solve_on_unsolvable_board_restores_it() {
    let mut board = Board::from_text(
        "12345678_\
         ______9__",
    );
    let before = cells_of(&board);
    assert!(!solve(&mut board));
    assert_eq!(cells_of(&board), before);
}

#[test]
fn test_solving_status_toggled() {
    assert_eq!(SolvingStatus::Going.toggled(), SolvingStatus::Stopped);
    assert_eq!(SolvingStatus::Stopped.toggled(), SolvingStatus::Going);
    assert_eq!(SolvingStatus::Going.toggled().toggled(), SolvingStatus::Going);
}
