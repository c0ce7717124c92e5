use sat_puzzles::find_all_solutions;
use sat_puzzles::minesweeper_sat::{
    cells_outside_sea, decode_solution, generate_clauses, generate_clauses_combinatorial, variables_needed,
    Constraint, MinefieldSolution,
};
use std::collections::HashMap;

/// The board
///
/// ```text
/// .*.
/// ...
/// ...
/// ```
///
/// after its upper left cell was revealed: the cell shows a 1, the three
/// cells around it are the unknown cells, and the other five are the sea.
fn revealed_corner() -> (Vec<usize>, Vec<Constraint>, usize, usize) {
    let covered: Vec<usize> = vec![1, 2, 3, 4, 5, 6, 7, 8];
    let sea_of_unknown: Vec<usize> = vec![2, 5, 6, 7, 8];
    let unknown_indices: Vec<usize> = cells_outside_sea(&covered, &sea_of_unknown);
    assert_eq!(unknown_indices, vec![1, 3, 4]);
    let local_constraints = vec![Constraint { cells: vec![1, 3, 4], count: 1 }];
    (unknown_indices, local_constraints, 3, 3)
}

#[test]
fn test_simple_solver() {
    let (unknown_indices, local_constraints, width, height) = revealed_corner();

    let (clauses, var_map) = generate_clauses(&unknown_indices, &local_constraints);

    let mut raw_solutions_iterator = find_all_solutions(&clauses).unwrap();

    let mut solutions: Vec<MinefieldSolution> = Vec::new();
    while let Some(model) = raw_solutions_iterator.next() {
        solutions.push(decode_solution(&model, width, height, &var_map));
    }

    assert_eq!(solutions.len(), 3);

    let has_expected_solution = solutions.iter().any(|s| {
        s.mines[1] == true && // Mine at (1, 0)
        s.mines[3] == false && // No mine at (0, 1)
        s.mines[4] == false // No mine at (1, 1)
    });
    assert!(has_expected_solution);
}

#[test]
fn minesweeper_numbers_the_unknown_cells() {
    let (_, var_map) = generate_clauses(&[7, 2, 9], &[]);
    let expected: HashMap<usize, isize> = [(7, 1), (2, 2), (9, 3)].into_iter().collect();
    assert_eq!(var_map, expected);
    let (_, var_map) = generate_clauses_combinatorial(&[7, 2, 7], &[]);
    let expected: HashMap<usize, isize> = [(7, 3), (2, 2)].into_iter().collect();
    assert_eq!(var_map, expected);
}

#[test]
fn minesweeper_sequential_clauses_of_one_constraint() {
    // Cells 5 and 8 get the variables 1 and 2; the counter for "exactly one of
    // them" takes the variables 3 to 6.
    let (clauses, _) =
        generate_clauses(&[5, 8], &[Constraint { cells: vec![8, 6, 5], count: 1 }]);
    let expected: Vec<Vec<isize>> = vec![
        vec![-2, 3],
        vec![2, -3],
        vec![-4],
        vec![-3, 5],
        vec![-1, 5],
        vec![3, 1, -5],
        vec![-4, 6],
        vec![-1, -3, 6],
        vec![4, 1, -6],
        vec![4, 3, -6],
        vec![5],
        vec![-6],
    ];
    assert_eq!(clauses, expected);
}

#[test]
fn minesweeper_constraints_take_auxiliary_variables_in_turn() {
    let constraints = vec![
        Constraint { cells: vec![0, 1], count: 2 },
        Constraint { cells: vec![1, 2], count: 0 },
        Constraint { cells: vec![2], count: 1 },
    ];
    let (clauses, _) = generate_clauses(&[0, 1, 2], &constraints);
    // The first constraint takes 2 * 3 variables from 4 on, the second none,
    // the third 1 * 2 from 10 on.
    assert_eq!(clauses[0], vec![-1, 4]);
    let third: Vec<Vec<isize>> = clauses[clauses.len() - 4..].to_vec();
    assert_eq!(third, vec![vec![-3, 10], vec![3, -10], vec![-11], vec![10]]);
    let units: Vec<Vec<isize>> = clauses[clauses.len() - 6..clauses.len() - 4].to_vec();
    assert_eq!(units, vec![vec![-2], vec![-3]]);
}

#[test]
fn minesweeper_combinatorial_clauses_of_one_constraint() {
    let (clauses, _) = generate_clauses_combinatorial(
        &[4, 5, 6],
        &[Constraint { cells: vec![4, 5, 6], count: 1 }],
    );
    let expected: Vec<Vec<isize>> =
        vec![vec![-1, -2], vec![-1, -3], vec![-2, -3], vec![1, 2, 3]];
    assert_eq!(clauses, expected);
}

#[test]
fn minesweeper_more_mines_than_cells_cannot_be() {
    let constraint = || vec![Constraint { cells: vec![0, 1], count: 3 }];
    let (clauses, _) = generate_clauses(&[0, 1], &constraint());
    assert_eq!(clauses, vec![Vec::<isize>::new()]);
    assert!(find_all_solutions(&clauses).unwrap().next().is_none());
    let (clauses, _) = generate_clauses_combinatorial(&[0, 1], &constraint());
    assert_eq!(clauses, vec![Vec::<isize>::new()]);
    assert!(find_all_solutions(&clauses).unwrap().next().is_none());
    // A number with no unknown cell around it that still asks for a mine.
    let (clauses, _) = generate_clauses(&[0, 1], &[Constraint { cells: vec![5], count: 1 }]);
    assert_eq!(clauses, vec![Vec::<isize>::new()]);
    let (clauses, _) = generate_clauses(&[0, 1], &[Constraint { cells: vec![5], count: 0 }]);
    assert!(clauses.is_empty());
}

#[test]
fn minesweeper_both_encodings_lay_the_same_mines() {
    let unknown: Vec<usize> = vec![0, 1, 2, 3, 4, 5];
    let constraints = || {
        vec![
            Constraint { cells: vec![0, 1, 2], count: 1 },
            Constraint { cells: vec![1, 2, 3, 4], count: 2 },
            Constraint { cells: vec![4, 5], count: 1 },
        ]
    };
    let layouts = |clauses: Vec<Vec<isize>>, var_map: HashMap<usize, isize>| {
        let mut models = find_all_solutions(&clauses).unwrap();
        let mut found: Vec<Vec<bool>> = Vec::new();
        while let Some(model) = models.next() {
            found.push(decode_solution(&model, 3, 2, &var_map).mines);
        }
        found.sort();
        found
    };
    let (clauses, var_map) = generate_clauses(&unknown, &constraints());
    let sequential = layouts(clauses, var_map);
    let (clauses, var_map) = generate_clauses_combinatorial(&unknown, &constraints());
    let combinatorial = layouts(clauses, var_map);
    assert_eq!(sequential, combinatorial);
    assert!(!sequential.is_empty());
    for mines in &sequential {
        for c in constraints() {
            let laid = c.cells.iter().filter(|&&cell| mines[cell]).count();
            assert_eq!(laid, c.count);
        }
    }
}

#[test]
fn minesweeper_decode_marks_asserted_cells_only() {
    let var_map: HashMap<usize, isize> = [(1, 1), (3, 2), (4, 3), (20, 4)].into_iter().collect();
    // Variable 2 is asserted, 1 and 3 are denied, 4 belongs to a cell beyond
    // the board and 9 to no cell.
    let solution = decode_solution(&[-1, 2, -3, 4, 9], 3, 2, &var_map);
    assert_eq!(solution.width, 3);
    assert_eq!(solution.height, 2);
    assert_eq!(solution.mines, vec![false, false, false, true, false, false]);
}

#[test]
fn minesweeper_counts_the_variables_it_takes() {
    let constraints = vec![
        Constraint { cells: vec![0, 1], count: 2 },
        Constraint { cells: vec![1, 2], count: 0 },
        Constraint { cells: vec![2], count: 1 },
        Constraint { cells: vec![0, 1, 2], count: 4 },
    ];
    // Three cells, two times three and one times two auxiliary variables.
    assert_eq!(variables_needed(&[0, 1, 2], &constraints), Some(11));
    assert_eq!(variables_needed(&[], &[]), Some(0));
    let (clauses, _) = generate_clauses(&[0, 1, 2], &constraints);
    assert_eq!(sat_puzzles::num_vars(&clauses), 11);
}

#[test]
fn minesweeper_leaves_the_sea_out() {
    assert_eq!(cells_outside_sea(&[4, 1, 9, 1, 7], &[9, 3, 9, 4]), vec![1, 1, 7]);
    assert_eq!(cells_outside_sea(&[4, 1], &[]), vec![4, 1]);
    assert!(cells_outside_sea(&[], &[1]).is_empty());
    assert!(cells_outside_sea(&[2, 2], &[2]).is_empty());
}
