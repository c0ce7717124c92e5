use sat_puzzles::find_all_solutions;
use sat_puzzles::nqueens::{coords_to_var, decode_solution, generate_clauses, var_to_coords, Queens};

#[test]
fn test_find_all() {
    for (n, num_solutions) in [
        (1, 1),
        (2, 0),
        (3, 0),
        (4, 2),
        (5, 10),
        (6, 4),
        (7, 40),
        (8, 92),
        (9, 352),
    ] {
        let clauses = generate_clauses(n);
        let mut raw_solutions_iterator = find_all_solutions(&clauses).unwrap();
        let mut solutions: Vec<Queens> = Vec::new();
        while let Some(model) = raw_solutions_iterator.next() {
            solutions.push(decode_solution(&model, n));
        }
        assert_eq!(solutions.len(), num_solutions);
    }
}

#[test]
fn queens_clauses_for_a_board_of_two() {
    let expected: Vec<Vec<isize>> = vec![
        vec![1, 2],
        vec![3, 4],
        vec![-1, -2],
        vec![-3, -4],
        vec![-1, -3],
        vec![-2, -4],
        vec![-1, -4],
        vec![-2, -3],
    ];
    assert_eq!(generate_clauses(2), expected);
}

#[test]
fn queens_clauses_for_the_empty_board() {
    assert_eq!(generate_clauses(0), Vec::<Vec<isize>>::new());
}

#[test]
fn queens_diagonals_look_forward_only() {
    let clauses = generate_clauses(3);
    // Rows, then pairs in rows, then pairs in columns: 3 + 9 + 9 clauses.
    let diagonals: Vec<Vec<isize>> = clauses[21..].to_vec();
    let expected: Vec<Vec<isize>> = vec![
        vec![-1, -5],
        vec![-1, -9],
        vec![-2, -6],
        vec![-2, -4],
        vec![-3, -5],
        vec![-3, -7],
        vec![-4, -8],
        vec![-5, -9],
        vec![-5, -7],
        vec![-6, -8],
    ];
    assert_eq!(diagonals, expected);
}

#[test]
fn queens_numbering_round_trip() {
    let n = 5;
    for r in 0..n {
        for c in 0..n {
            let v = coords_to_var(r, c, n);
            assert_eq!(v, (r * n + c + 1) as isize);
            assert_eq!(var_to_coords(v as usize, n), (r, c));
        }
    }
    assert_eq!(coords_to_var(2, 3, 8), 20);
    assert_eq!(var_to_coords(20, 8), (2, 3));
}

#[test]
fn queens_decode_sorts_and_passes_over() {
    // Variables 12 and 7 and 2 of a board of four; 17 lies beyond the board,
    // -1 is denied.
    let queens = decode_solution(&[12, -1, 7, 17, 2, -16], 4);
    assert_eq!(queens.squares(), &vec![(0, 1), (1, 2), (2, 3)]);
    let none = decode_solution(&[1, 2, 3], 0);
    assert!(none.squares().is_empty());
}

#[test]
fn queens_solutions_are_placements() {
    let n = 6;
    let clauses = generate_clauses(n);
    let mut models = find_all_solutions(&clauses).unwrap();
    let mut seen = 0;
    while let Some(model) = models.next() {
        let queens = decode_solution(&model, n);
        let squares = queens.squares();
        assert_eq!(squares.len(), n);
        for (i, a) in squares.iter().enumerate() {
            for b in squares.iter().skip(i + 1) {
                assert_ne!(a.0, b.0);
                assert_ne!(a.1, b.1);
                assert_ne!(a.0 + b.1, b.0 + a.1);
                assert_ne!(a.0 + a.1, b.0 + b.1);
            }
        }
        seen += 1;
    }
    assert_eq!(seen, 4);
}
