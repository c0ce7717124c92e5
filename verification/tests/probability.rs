use sat_puzzles::find_all_solutions;
use sat_puzzles::minesweeper_sat::{generate_clauses, Constraint};
use sat_puzzles::probability::{combinations, count_mines, tally_models, MineTally, TallyError};

#[test]
fn combinations_are_binomial_coefficients() {
    assert_eq!(combinations(0, 0), Some(1));
    assert_eq!(combinations(5, 0), Some(1));
    assert_eq!(combinations(5, 5), Some(1));
    assert_eq!(combinations(5, 2), Some(10));
    assert_eq!(combinations(5, 3), Some(10));
    assert_eq!(combinations(10, 3), Some(120));
    assert_eq!(combinations(10, 7), Some(120));
    assert_eq!(combinations(3, 5), Some(0));
    assert_eq!(combinations(0, 1), Some(0));
    assert_eq!(combinations(52, 5), Some(2598960));
    assert_eq!(combinations(100, 50), Some(100891344545564193334812497256));
    assert_eq!(combinations(120, 60), Some(96614908840363322603893139521372656));
    assert_eq!(combinations(1000, 1), Some(1000));
    assert_eq!(combinations(1000, 999), Some(1000));
}

#[test]
fn combinations_give_up_beyond_their_range() {
    // The coefficient itself would fit, the last product before the last
    // division does not.
    assert_eq!(combinations(130, 65), None);
    assert_eq!(combinations(126, 63), None);
    assert_eq!(combinations(124, 62), Some(1520803477811874490019821888415218656));
    assert_eq!(combinations(480, 99), None);
    assert_eq!(combinations(480, 381), None);
}

#[test]
fn count_mines_counts() {
    assert_eq!(count_mines(&[]), 0);
    assert_eq!(count_mines(&[false, true, true, false, true]), 3);
}

#[test]
fn tally_weighs_a_model_by_the_layouts_of_the_sea() {
    // Four cells, two of them in the sea, and two mines.
    let mut tally = MineTally::new(4, 2, 2);
    assert!(tally.no_solutions());
    assert_eq!(tally.cells(), 4);
    assert_eq!(tally.sea(), 2);
    // One mine near the numbers leaves one for the sea: two layouts.
    assert_eq!(tally.add_model(&[true, false, false, false]), Ok(()));
    assert_eq!(tally.total(), 2);
    assert_eq!(tally.cell_weight(0), 2);
    assert_eq!(tally.cell_weight(1), 0);
    assert_eq!(tally.sea_mass(), 2);
    // Two mines near the numbers leave none for the sea: one layout.
    assert_eq!(tally.add_model(&[true, true, false, false]), Ok(()));
    assert_eq!(tally.total(), 3);
    assert_eq!(tally.cell_weight(0), 3);
    assert_eq!(tally.cell_weight(1), 1);
    assert_eq!(tally.sea_mass(), 2);
    // No mine near the numbers leaves two for the sea: one layout.
    assert_eq!(tally.add_model(&[false, false, false, false]), Ok(()));
    assert_eq!(tally.total(), 4);
    assert_eq!(tally.sea_mass(), 4);
    assert_eq!(tally.models(), 3);
    assert!(!tally.no_solutions());
    let cells: u128 = (0..4).map(|i| tally.cell_weight(i)).sum();
    assert_eq!(cells + tally.sea_mass(), 2 * tally.total());
}

#[test]
fn tally_gives_no_weight_to_what_cannot_be() {
    // More mines near the numbers than the board has.
    let mut tally = MineTally::new(3, 1, 1);
    assert_eq!(tally.add_model(&[true, true, false]), Ok(()));
    assert_eq!(tally.models(), 1);
    assert_eq!(tally.total(), 0);
    assert_eq!(tally.cell_weight(0), 0);
    assert!(tally.no_solutions());
    // More mines left over than the sea has cells.
    let mut tally = MineTally::new(3, 1, 3);
    assert_eq!(tally.add_model(&[true, false, false]), Ok(()));
    assert_eq!(tally.total(), 0);
    assert!(tally.no_solutions());
    // An empty sea that is left no mine.
    let mut tally = MineTally::new(2, 0, 1);
    assert_eq!(tally.add_model(&[false, true]), Ok(()));
    assert_eq!(tally.total(), 1);
    assert_eq!(tally.sea_mass(), 0);
    // An empty sea that is left a mine.
    assert_eq!(tally.add_model(&[false, false]), Ok(()));
    assert_eq!(tally.total(), 1);
    assert_eq!(tally.models(), 2);
}

#[test]
fn tally_refuses_a_layout_of_another_size() {
    let mut tally = MineTally::new(3, 1, 1);
    assert_eq!(tally.add_model(&[true, false]), Err(TallyError::WrongSize));
    assert_eq!(tally.add_model(&[true, false, false, false]), Err(TallyError::WrongSize));
    assert_eq!(tally.models(), 0);
    assert_eq!(tally.total(), 0);
}

#[test]
fn tally_refuses_what_leaves_its_range() {
    let mut tally = MineTally::new(2, 480, 100);
    assert_eq!(tally.add_model(&[true, false]), Err(TallyError::Overflow));
    assert_eq!(tally.models(), 0);
    assert_eq!(tally.total(), 0);
    assert_eq!(tally.cell_weight(0), 0);
    // Each weight fits, and so do the first sums.
    let weight: u128 = 96614908840363322603893139521372656;
    let room = (u128::MAX / (weight * 60)) as usize;
    let mut tally = MineTally::new(1, 120, 60);
    for _ in 0..room {
        assert_eq!(tally.add_model(&[false]), Ok(()));
    }
    assert_eq!(tally.add_model(&[false]), Err(TallyError::Overflow));
    assert_eq!(tally.models(), room);
    assert_eq!(tally.total(), weight * room as u128);
    assert_eq!(tally.sea_mass(), weight * 60 * room as u128);
}

/// The board of `tests/minesweeper.rs`: three unknown cells around a 1, five
/// cells in the sea, one mine.
#[test]
fn chances_add_up_to_the_number_of_mines() {
    let (clauses, var_map) =
        generate_clauses(&[1, 3, 4], &[Constraint { cells: vec![1, 3, 4], count: 1 }]);
    let mut models = find_all_solutions(&clauses).unwrap();
    let found = models.collect();
    assert!(models.is_exhausted());
    let tally = tally_models(&found, 3, 3, &var_map, 5, 1).unwrap();
    assert_eq!(tally.models(), 3);
    assert_eq!(tally.total(), 3);
    assert_eq!(tally.sea_mass(), 0);
    let weights: Vec<u128> = (0..9).map(|i| tally.cell_weight(i)).collect();
    assert_eq!(weights, vec![0, 1, 0, 1, 1, 0, 0, 0, 0]);
    let total = tally.total() as f64;
    let near: f64 = weights.iter().map(|&w| w as f64 / total).sum();
    let sea = tally.sea_mass() as f64 / total;
    assert!((near + sea - 1.0).abs() < 1e-9);
}

#[test]
fn chances_add_up_with_mines_left_for_the_sea() {
    // Two numbers over six unknown cells, a sea of ten cells, four mines.
    let unknown: Vec<usize> = vec![0, 1, 2, 3, 4, 5];
    let constraints = vec![
        Constraint { cells: vec![0, 1, 2], count: 1 },
        Constraint { cells: vec![2, 3, 4, 5], count: 2 },
    ];
    let mines_total = 4;
    let sea = 10;
    let (clauses, var_map) = generate_clauses(&unknown, &constraints);
    let found = find_all_solutions(&clauses).unwrap().collect();
    let tally = tally_models(&found, 4, 4, &var_map, sea, mines_total).unwrap();
    // The shared cell holds a mine in three models, which leave two mines
    // for the sea; in the other six, three mines lie near the numbers.
    assert_eq!(tally.models(), 9);
    assert_eq!(tally.total(), 3 * 45 + 6 * 10);
    let cells: u128 = (0..16).map(|i| tally.cell_weight(i)).sum();
    assert_eq!(tally.cell_weight(2), 3 * 45);
    assert_eq!(tally.sea_mass(), 3 * 45 * 2 + 6 * 10);
    assert_eq!(cells + tally.sea_mass(), mines_total as u128 * tally.total());
    let total = tally.total() as f64;
    let mut sum = 0.0;
    for i in 0..16 {
        sum += tally.cell_weight(i) as f64 / total;
    }
    let each_of_the_sea = tally.sea_mass() as f64 / total / sea as f64;
    sum += each_of_the_sea * sea as f64;
    assert!((sum - mines_total as f64).abs() < 1e-9);
}

#[test]
fn tally_of_a_board_without_solution() {
    let (clauses, var_map) =
        generate_clauses(&[0, 1], &[Constraint { cells: vec![0, 1], count: 3 }]);
    let found = find_all_solutions(&clauses).unwrap().collect();
    let tally = tally_models(&found, 2, 1, &var_map, 0, 3).unwrap();
    assert_eq!(tally.models(), 0);
    assert!(tally.no_solutions());
}

#[test]
fn tally_of_given_models() {
    let var_map: std::collections::HashMap<usize, isize> =
        [(0, 1), (1, 2), (5, 3)].into_iter().collect();
    // Cell 5 lies beyond the board of two by two; variable 4 belongs to no
    // cell.
    let models: Vec<Vec<isize>> = vec![vec![1, -2, 3, 4], vec![-1, 2, -3, -4], vec![1, 2]];
    let tally = tally_models(&models, 2, 2, &var_map, 2, 2).unwrap();
    assert_eq!(tally.models(), 3);
    // One mine leaves one for the sea of two cells, twice; two leave none.
    assert_eq!(tally.total(), 2 + 2 + 1);
    assert_eq!(tally.cell_weight(0), 2 + 1);
    assert_eq!(tally.cell_weight(1), 2 + 1);
    assert_eq!(tally.cell_weight(2), 0);
    assert_eq!(tally.sea_mass(), 2 + 2);
    let none: Vec<Vec<isize>> = Vec::new();
    assert!(tally_models(&none, 2, 2, &var_map, 2, 2).unwrap().no_solutions());
    let too_many = tally_models(&models, 2, 2, &var_map, 480, 101);
    assert_eq!(too_many.err(), Some(TallyError::Overflow));
}
