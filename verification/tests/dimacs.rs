use sat_puzzles::dimacs::to_dimacs;
use sat_puzzles::nqueens::generate_clauses;

#[test]
fn dimacs_of_a_small_formula() {
    let clauses: Vec<Vec<isize>> = vec![vec![1, -2], vec![], vec![-30, 4, 105]];
    assert_eq!(to_dimacs(&clauses), "p cnf 105 3\n1 -2 0\n0\n-30 4 105 0\n");
}

#[test]
fn dimacs_of_the_empty_formula() {
    assert_eq!(to_dimacs(&[]), "p cnf 0 0\n");
}

#[test]
fn dimacs_counts_the_variables_that_are_named() {
    // The board of two has four squares, and the formula names them all.
    assert_eq!(
        to_dimacs(&generate_clauses(2)),
        "p cnf 4 8\n1 2 0\n3 4 0\n-1 -2 0\n-3 -4 0\n-1 -3 0\n-2 -4 0\n-1 -4 0\n-2 -3 0\n"
    );
    assert_eq!(to_dimacs(&[vec![2], vec![-1000000]]), "p cnf 1000000 2\n2 0\n-1000000 0\n");
}

#[test]
fn dimacs_writes_every_digit() {
    let clauses: Vec<Vec<isize>> = vec![vec![1234567890, -9876543210]];
    assert_eq!(to_dimacs(&clauses), "p cnf 9876543210 1\n1234567890 -9876543210 0\n");
}
