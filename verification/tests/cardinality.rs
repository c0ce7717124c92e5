use sat_puzzles::cardinality::{
    add_combinatorial_encoding_clauses, add_sequential_encoding_clauses, negated_clause,
};
use sat_puzzles::find_all_solutions;

fn inputs(n: usize) -> Vec<isize> {
    (1..=n as isize).collect()
}

fn sequential(n: usize, k: usize) -> Vec<Vec<isize>> {
    let mut clauses = Vec::new();
    let mut next_var = n as isize + 1;
    add_sequential_encoding_clauses(&mut clauses, &mut next_var, &inputs(n), k);
    clauses
}

fn combinatorial(n: usize, k: usize) -> Vec<Vec<isize>> {
    let mut clauses = Vec::new();
    add_combinatorial_encoding_clauses(&mut clauses, &inputs(n), k);
    clauses
}

/// The models of `clauses`, each cut down to the inputs that it asserts.
fn chosen_inputs(clauses: &[Vec<isize>], n: usize) -> Vec<Vec<isize>> {
    let mut models = find_all_solutions(clauses).unwrap();
    let mut found = Vec::new();
    while let Some(model) = models.next() {
        let chosen: Vec<isize> =
            model.into_iter().filter(|&l| l >= 1 && l <= n as isize).collect();
        found.push(chosen);
    }
    found.sort();
    found
}

fn binomial(n: usize, k: usize) -> usize {
    if k > n {
        return 0;
    }
    let mut row = vec![0usize; k + 1];
    row[0] = 1;
    for _ in 0..n {
        for j in (1..=k).rev() {
            row[j] += row[j - 1];
        }
    }
    row[k]
}

#[test]
fn sequential_counter_of_two_inputs() {
    let mut clauses = vec![vec![9]];
    let mut next_var: isize = 3;
    add_sequential_encoding_clauses(&mut clauses, &mut next_var, &[1, 2], 1);
    let expected: Vec<Vec<isize>> = vec![
        vec![9],
        vec![-1, 3],
        vec![1, -3],
        vec![-4],
        vec![-3, 5],
        vec![-2, 5],
        vec![3, 2, -5],
        vec![-4, 6],
        vec![-2, -3, 6],
        vec![4, 2, -6],
        vec![4, 3, -6],
        vec![5],
        vec![-6],
    ];
    assert_eq!(clauses, expected);
    assert_eq!(next_var, 7);
}

#[test]
fn sequential_counter_asking_for_all() {
    let mut clauses = Vec::new();
    let mut next_var: isize = 10;
    add_sequential_encoding_clauses(&mut clauses, &mut next_var, &[1, 2], 2);
    // Three auxiliary variables for each input, and no clause for "at most".
    assert_eq!(next_var, 16);
    assert_eq!(clauses.len(), 4 + 11 + 1);
    assert_eq!(clauses[clauses.len() - 1], vec![14]);
}

#[test]
fn sequential_counter_edge_cases() {
    let mut clauses = Vec::new();
    let mut next_var: isize = 4;
    add_sequential_encoding_clauses(&mut clauses, &mut next_var, &[1, 2, 3], 4);
    assert_eq!(clauses, vec![Vec::<isize>::new()]);
    assert_eq!(next_var, 4);

    let mut clauses = Vec::new();
    add_sequential_encoding_clauses(&mut clauses, &mut next_var, &[], 1);
    assert_eq!(clauses, vec![Vec::<isize>::new()]);
    assert_eq!(next_var, 4);

    let mut clauses = Vec::new();
    add_sequential_encoding_clauses(&mut clauses, &mut next_var, &[], 0);
    assert!(clauses.is_empty());
    assert_eq!(next_var, 4);

    let mut clauses = Vec::new();
    add_sequential_encoding_clauses(&mut clauses, &mut next_var, &[1, -2, 3], 0);
    assert_eq!(clauses, vec![vec![-1], vec![2], vec![-3]]);
    assert_eq!(next_var, 4);
}

#[test]
fn combinatorial_encoding_of_four_inputs() {
    let mut clauses = vec![vec![9]];
    add_combinatorial_encoding_clauses(&mut clauses, &[1, 2, 3, 4], 2);
    let expected: Vec<Vec<isize>> = vec![
        vec![9],
        vec![-1, -2, -3],
        vec![-1, -2, -4],
        vec![-1, -3, -4],
        vec![-2, -3, -4],
        vec![1, 2, 3],
        vec![1, 2, 4],
        vec![1, 3, 4],
        vec![2, 3, 4],
    ];
    assert_eq!(clauses, expected);
}

#[test]
fn combinatorial_encoding_edge_cases() {
    assert_eq!(combinatorial(3, 4), vec![Vec::<isize>::new()]);
    assert_eq!(combinatorial(0, 1), vec![Vec::<isize>::new()]);
    assert!(combinatorial(0, 0).is_empty());
    assert_eq!(combinatorial(3, 0), vec![vec![-1], vec![-2], vec![-3]]);
    assert_eq!(combinatorial(3, 3), vec![vec![1], vec![2], vec![3]]);
}

#[test]
fn negated_clause_negates_each_literal() {
    assert_eq!(negated_clause(&[1, -2, 3]), vec![-1, 2, -3]);
    assert!(negated_clause(&[]).is_empty());
}

#[test]
fn exactly_k_has_as_many_models_as_there_are_subsets() {
    for n in 0..=9 {
        for k in 0..=n {
            let by_counter = chosen_inputs(&sequential(n, k), n);
            let by_subsets = chosen_inputs(&combinatorial(n, k), n);
            assert_eq!(by_counter.len(), binomial(n, k));
            for chosen in &by_counter {
                assert_eq!(chosen.len(), k);
            }
            assert_eq!(by_counter, by_subsets);
        }
    }
}

#[test]
fn exactly_k_of_twelve() {
    for k in [0, 1, 5, 11, 12] {
        let by_counter = chosen_inputs(&sequential(12, k), 12);
        assert_eq!(by_counter.len(), binomial(12, k));
        assert!(by_counter.iter().all(|chosen| chosen.len() == k));
        assert_eq!(by_counter, chosen_inputs(&combinatorial(12, k), 12));
    }
}

#[test]
fn exactly_none_has_the_model_with_all_false() {
    for n in 1..=6 {
        assert_eq!(chosen_inputs(&sequential(n, 0), n), vec![Vec::<isize>::new()]);
        assert_eq!(chosen_inputs(&combinatorial(n, 0), n), vec![Vec::<isize>::new()]);
    }
}

#[test]
fn exactly_all_has_the_model_with_all_true() {
    for n in 1..=6 {
        assert_eq!(chosen_inputs(&sequential(n, n), n), vec![inputs(n)]);
        assert_eq!(chosen_inputs(&combinatorial(n, n), n), vec![inputs(n)]);
    }
}

#[test]
fn more_than_all_has_no_model() {
    for n in 0..=6 {
        for k in n + 1..=n + 3 {
            assert!(chosen_inputs(&sequential(n, k), n).is_empty());
            assert!(chosen_inputs(&combinatorial(n, k), n).is_empty());
        }
    }
}

#[test]
fn sequential_counter_fixes_its_auxiliary_variables() {
    // Each choice of the inputs comes once: the auxiliary variables add no
    // model of their own.
    let n = 5;
    let k = 2;
    let mut models = find_all_solutions(&sequential(n, k)).unwrap();
    let mut count = 0;
    while let Some(model) = models.next() {
        assert_eq!(model.len(), n + n * (k + 1));
        // s[i][j] says that at least j + 1 of the first i + 1 inputs are true.
        for i in 0..n {
            let so_far = model[..=i].iter().filter(|&&l| l > 0).count();
            for j in 0..=k {
                let aux = (n + i * (k + 1) + j + 1) as isize;
                assert_eq!(model.contains(&aux), so_far >= j + 1);
            }
        }
        count += 1;
    }
    assert_eq!(count, 10);
}
