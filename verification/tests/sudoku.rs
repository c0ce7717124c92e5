use sat_puzzles::find_all_solutions;
use sat_puzzles::sudoku_sat::{
    coords_to_var, decode_solution, generate_clauses, var_to_coords, SudokuGrid, SudokuParseError,
};

const EASY: &str = "
            ..3.2.6..
            9..3.5..1
            ..18.64..
            ..81.29..
            7.......8
            ..67.82..
            ..26.95..
            8..2.3..9
            ..5.1.3..";

#[test]
fn test_from_text_with_dots() {
    let input = "
            ..3.2.6..
            9..3.5..1
            ..18.64..
            ..81.29..
            7.......8
            ..67.82..
            ..26.95..
            8..2.3..9
            ..5.1.3..";
    let result = SudokuGrid::from_text(input);
    assert!(result.is_ok());
}

#[test]
fn sudoku_from_text_reads_digits_dots_and_zeros() {
    let grid = SudokuGrid::from_text(EASY).unwrap();
    assert_eq!(grid.cell(0, 0), 0);
    assert_eq!(grid.cell(0, 2), 3);
    assert_eq!(grid.cell(1, 0), 9);
    assert_eq!(grid.cell(8, 6), 3);
    let mut text = String::new();
    for i in 0..81 {
        text.push_str(if i % 2 == 0 { "0 " } else { "7|" });
    }
    let grid = SudokuGrid::from_text(&text).unwrap();
    assert_eq!(grid.cell(0, 0), 0);
    assert_eq!(grid.cell(0, 1), 7);
    assert_eq!(grid.cell(8, 8), 0);
}

#[test]
fn sudoku_from_text_counts_cells() {
    let short = &EASY[..EASY.len() - 1];
    match SudokuGrid::from_text(short) {
        Err(SudokuParseError::InvalidFormat(msg)) => {
            assert_eq!(msg, "Expected 81 cells, found 80");
        }
        _ => panic!("a grid of 80 cells was read"),
    }
    match SudokuGrid::from_text("") {
        Err(SudokuParseError::InvalidFormat(msg)) => {
            assert_eq!(msg, "Expected 81 cells, found 0");
        }
        _ => panic!("an empty grid was read"),
    }
    let long = format!("{EASY}12345");
    match SudokuGrid::from_text(&long) {
        Err(SudokuParseError::InvalidFormat(msg)) => {
            assert_eq!(msg, "Expected 81 cells, found 86");
        }
        _ => panic!("a grid of 86 cells was read"),
    }
}

#[test]
fn sudoku_io_error_wraps() {
    let e = std::io::Error::new(std::io::ErrorKind::NotFound, "gone");
    match SudokuParseError::from(e) {
        SudokuParseError::IoError(inner) => {
            assert_eq!(inner.kind(), std::io::ErrorKind::NotFound)
        }
        _ => panic!("an i/o error became another error"),
    }
}

#[test]
fn sudoku_numbering_round_trip() {
    assert_eq!(coords_to_var(0, 0, 1), 1);
    assert_eq!(coords_to_var(0, 0, 9), 9);
    assert_eq!(coords_to_var(0, 1, 1), 10);
    assert_eq!(coords_to_var(1, 0, 1), 82);
    assert_eq!(coords_to_var(8, 8, 9), 729);
    for r in 0..9 {
        for c in 0..9 {
            for d in 1..=9 {
                let v = coords_to_var(r, c, d);
                assert_eq!(v, (r * 81 + c * 9 + d) as isize);
                assert_eq!(var_to_coords(v as usize), (r, c, d));
            }
        }
    }
}

#[test]
fn sudoku_clauses_have_the_stated_shape() {
    let grid = SudokuGrid::from_text(EASY).unwrap();
    let clauses = generate_clauses(&grid);
    let givens = 32;
    assert_eq!(clauses.len(), 81 + 4 * 81 * 36 + givens);
    assert_eq!(clauses[0], vec![1, 2, 3, 4, 5, 6, 7, 8, 9]);
    assert_eq!(clauses[80], vec![721, 722, 723, 724, 725, 726, 727, 728, 729]);
    // No two digits in the first cell.
    assert_eq!(clauses[81], vec![-1, -2]);
    assert_eq!(clauses[82], vec![-1, -3]);
    assert_eq!(clauses[81 + 35], vec![-8, -9]);
    // Digit 1 not twice in the first row.
    let rows = 81 + 81 * 36;
    assert_eq!(clauses[rows], vec![-1, -10]);
    assert_eq!(clauses[rows + 35], vec![-64, -73]);
    // Digit 1 not twice in the first column.
    let cols = rows + 81 * 36;
    assert_eq!(clauses[cols], vec![-1, -82]);
    // Digit 1 not twice in the first box, its cells row by row.
    let boxes = cols + 81 * 36;
    assert_eq!(clauses[boxes], vec![-1, -10]);
    assert_eq!(clauses[boxes + 2], vec![-1, -82]);
    assert_eq!(clauses[boxes + 36], vec![-28, -37]);
    // The given digits, row by row.
    let seed = boxes + 81 * 36;
    assert_eq!(clauses[seed], vec![coords_to_var(0, 2, 3)]);
    assert_eq!(clauses[seed + 1], vec![coords_to_var(0, 4, 2)]);
    assert_eq!(clauses[clauses.len() - 1], vec![coords_to_var(8, 6, 3)]);
}

fn assert_solved(grid: &SudokuGrid) {
    for u in 0..9 {
        let mut row = [false; 10];
        let mut col = [false; 10];
        let mut boxed = [false; 10];
        for k in 0..9 {
            let in_row = grid.cell(u, k) as usize;
            let in_col = grid.cell(k, u) as usize;
            let in_box = grid.cell((u / 3) * 3 + k / 3, (u % 3) * 3 + k % 3) as usize;
            assert!((1..=9).contains(&in_row));
            assert!(!row[in_row] && !col[in_col] && !boxed[in_box]);
            row[in_row] = true;
            col[in_col] = true;
            boxed[in_box] = true;
        }
    }
}

#[test]
fn sudoku_models_are_finished_grids_that_keep_the_seed() {
    let seed = SudokuGrid::from_text(EASY).unwrap();
    let clauses = generate_clauses(&seed);
    let mut models = find_all_solutions(&clauses).unwrap();
    let solutions = models.take(5);
    assert_eq!(solutions.len(), 1);
    assert!(models.is_exhausted());
    let grid = decode_solution(&solutions[0]);
    assert_solved(&grid);
    for r in 0..9 {
        for c in 0..9 {
            if seed.cell(r, c) != 0 {
                assert_eq!(grid.cell(r, c), seed.cell(r, c));
            }
        }
    }
    let first_row: Vec<u8> = (0..9).map(|c| grid.cell(0, c)).collect();
    assert_eq!(first_row, vec![4, 8, 3, 9, 2, 1, 6, 5, 7]);
}

#[test]
fn sudoku_with_clashing_givens_has_no_model() {
    let mut text = String::from("11");
    for _ in 0..79 {
        text.push('.');
    }
    let seed = SudokuGrid::from_text(&text).unwrap();
    let mut models = find_all_solutions(&generate_clauses(&seed)).unwrap();
    assert!(models.next().is_none());
    assert!(models.is_exhausted());
    assert!(!models.has_failed());
}

#[test]
fn sudoku_decode_passes_over_what_is_no_cell() {
    let grid = decode_solution(&[5, -6, 730, 0, 729, 12, 10]);
    assert_eq!(grid.cell(0, 0), 5);
    assert_eq!(grid.cell(8, 8), 9);
    // Variables 12 and 10 both speak of the second cell; the later one stays.
    assert_eq!(grid.cell(0, 1), 1);
    let mut filled = 0;
    for r in 0..9 {
        for c in 0..9 {
            if grid.cell(r, c) != 0 {
                filled += 1;
            }
        }
    }
    assert_eq!(filled, 3);
}
