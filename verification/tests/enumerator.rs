use sat_puzzles::{
    decide, find_all_solutions, find_invalid_literal, num_vars, Answer, InvalidLiteral,
};

fn satisfies(assignment: u32, clauses: &[Vec<isize>]) -> bool {
    clauses.iter().all(|clause| {
        clause.iter().any(|&l| {
            let bit = (assignment >> (l.unsigned_abs() - 1)) & 1 == 1;
            bit == (l > 0)
        })
    })
}

fn count_by_hand(clauses: &[Vec<isize>]) -> usize {
    let n = num_vars(clauses);
    (0..1u32 << n).filter(|&a| satisfies(a, clauses)).count()
}

/// A formula over the variables 1 to `n`, each of which it names.
fn some_formula(n: isize, clauses: usize, mut seed: u64) -> Vec<Vec<isize>> {
    let mut next = || {
        seed = seed.wrapping_mul(6364136223846793005).wrapping_add(1442695040888963407);
        (seed >> 33) as isize
    };
    let mut formula: Vec<Vec<isize>> = Vec::new();
    for v in 1..=n {
        let other = v % n + 1;
        formula.push(vec![v, -other, (other % n) + 1]);
    }
    for _ in 0..clauses {
        let mut clause = Vec::new();
        for _ in 0..3 {
            let v = next() % n + 1;
            clause.push(if next() % 2 == 0 { v } else { -v });
        }
        formula.push(clause);
    }
    formula
}

#[test]
fn enumerator_counts_as_counting_by_hand_does() {
    for (n, clauses, seed) in [(3, 2, 1), (5, 8, 2), (8, 20, 3), (10, 30, 4), (12, 40, 5), (14, 50, 6)]
    {
        let formula = some_formula(n, clauses, seed);
        let expected = count_by_hand(&formula);
        let mut models = find_all_solutions(&formula).unwrap();
        let mut seen: Vec<Vec<isize>> = Vec::new();
        while let Some(model) = models.next() {
            assert_eq!(model.len(), n as usize);
            for clause in &formula {
                assert!(clause.iter().any(|l| model.contains(l)));
            }
            seen.push(model);
        }
        assert_eq!(seen.len(), expected);
        seen.sort();
        seen.dedup();
        assert_eq!(seen.len(), expected);
    }
}

#[test]
fn enumerator_stays_exhausted() {
    let mut models = find_all_solutions(&[vec![1, 2], vec![-1, -2]]).unwrap();
    assert!(!models.is_exhausted());
    let mut count = 0;
    while let Some(_) = models.next() {
        count += 1;
    }
    assert_eq!(count, 2);
    assert!(models.is_exhausted());
    assert!(!models.has_failed());
    for _ in 0..5 {
        assert!(models.next().is_none());
        assert!(models.is_exhausted());
        assert!(!models.has_failed());
    }
    assert!(models.take(3).is_empty());
}

#[test]
fn enumerator_tells_no_model_from_no_more_models() {
    let mut none = find_all_solutions(&[vec![1], vec![-1]]).unwrap();
    assert!(none.take(10).is_empty());
    assert!(none.is_exhausted());
    let mut one = find_all_solutions(&[vec![1]]).unwrap();
    assert_eq!(one.take(10), vec![vec![1]]);
    assert!(one.is_exhausted());
}

#[test]
fn enumerator_of_the_empty_formula() {
    let mut models = find_all_solutions(&[]).unwrap();
    assert_eq!(models.next(), Some(vec![]));
    assert_eq!(models.next(), None);
    let mut models = find_all_solutions(&[vec![]]).unwrap();
    assert_eq!(models.next(), None);
}

#[test]
fn enumerator_is_lazy() {
    let formula: Vec<Vec<isize>> = vec![(1..=40).collect()];
    let mut models = find_all_solutions(&formula).unwrap();
    let first = models.take(5);
    assert_eq!(first.len(), 5);
    assert!(!models.is_exhausted());
    assert!(models.take(0).is_empty());
    let more = models.take(2);
    assert_eq!(more.len(), 2);
    for model in &more {
        assert!(!first.contains(model));
    }
}

#[test]
fn enumerator_blocks_each_model_it_hands_out() {
    let mut models = find_all_solutions(&[vec![1, 2, 3]]).unwrap();
    let found = models.take(100);
    assert_eq!(found.len(), 7);
    assert!(!found.contains(&vec![-1, -2, -3]));
    let mut distinct = found.clone();
    distinct.sort();
    distinct.dedup();
    assert_eq!(distinct.len(), 7);
}

#[test]
fn enumerator_refuses_what_is_no_literal() {
    let zero = InvalidLiteral { clause: 1, position: 2, literal: 0 };
    assert_eq!(find_invalid_literal(&[vec![1, 2], vec![3, -4, 0, 0]]), Some(zero));
    assert_eq!(find_all_solutions(&[vec![1, 2], vec![3, -4, 0, 0]]).err(), Some(zero));
    let beyond: isize = 0x1000_0001;
    let err = find_all_solutions(&[vec![-beyond]]).err().unwrap();
    assert_eq!(err, InvalidLiteral { clause: 0, position: 0, literal: -beyond });
    let err = find_all_solutions(&[vec![1], vec![isize::MIN]]).err().unwrap();
    assert_eq!(err, InvalidLiteral { clause: 1, position: 0, literal: isize::MIN });
    assert_eq!(find_invalid_literal(&[vec![0x1000_0000, -0x1000_0000]]), None);
}

#[test]
fn num_vars_is_the_largest_magnitude() {
    assert_eq!(num_vars(&[]), 0);
    assert_eq!(num_vars(&[vec![], vec![]]), 0);
    assert_eq!(num_vars(&[vec![1, -7, 3], vec![2], vec![-5, 6]]), 7);
    assert_eq!(num_vars(&[vec![4], vec![-2, 1]]), 4);
    assert_eq!(num_vars(&[vec![isize::MIN]]), isize::MIN.unsigned_abs());
}

#[test]
fn enumerator_collects_what_is_left() {
    let mut models = find_all_solutions(&[vec![1, 2, 3], vec![-1, -2]]).unwrap();
    let first = models.take(2);
    assert_eq!(first.len(), 2);
    let rest = models.collect();
    // Seven assignments satisfy the first clause; two of them assert both 1
    // and 2.
    assert_eq!(first.len() + rest.len(), 5);
    assert!(models.is_exhausted());
    assert!(!models.has_failed());
    for model in &rest {
        assert!(!first.contains(model));
    }
    assert!(models.collect().is_empty());
    let mut none = find_all_solutions(&[vec![]]).unwrap();
    assert!(none.collect().is_empty());
    assert!(none.is_exhausted());
}

#[test]
fn enumerator_collects_as_counting_by_hand_does() {
    let formula = some_formula(11, 35, 7);
    let found = find_all_solutions(&formula).unwrap().collect();
    assert_eq!(found.len(), count_by_hand(&formula));
}

#[test]
fn enumerator_names_every_variable_up_to_the_largest() {
    // Variables 1 and 2 stand in no clause; a model names them all the same.
    let found = find_all_solutions(&[vec![3]]).unwrap().collect();
    assert_eq!(found.len(), 4);
    for model in &found {
        assert_eq!(model.len(), 3);
        for (i, l) in model.iter().enumerate() {
            assert_eq!(l.unsigned_abs(), i + 1);
        }
        assert!(model.contains(&3));
    }
    let found = find_all_solutions(&[vec![-2, 4], vec![2, -2]]).unwrap().collect();
    assert_eq!(found.len(), 12);
    assert!(found.iter().all(|model| model.len() == 4));
}

#[test]
fn enumerator_of_one_clause_of_two() {
    let mut models = find_all_solutions(&[vec![1, 2]]).unwrap();
    let mut seen: Vec<Vec<isize>> = Vec::new();
    for _ in 0..3 {
        let model = models.next().unwrap();
        let asserted: Vec<isize> = model.iter().copied().filter(|&l| l > 0).collect();
        seen.push(asserted);
    }
    seen.sort();
    assert_eq!(seen, vec![vec![1], vec![1, 2], vec![2]]);
    assert_eq!(models.next(), None);
    assert_eq!(models.next(), None);
    assert!(models.is_exhausted());
    assert!(!models.has_failed());
}

#[test]
fn enumerator_decides_on_each_answer() {
    let step = decide(Answer::Model(vec![1, -2, 3]));
    assert_eq!(step.result, Some(vec![1, -2, 3]));
    assert_eq!(step.block, Some(vec![-1, 2, -3]));
    assert!(!step.exhausted && !step.failed);
    let step = decide(Answer::Model(vec![]));
    assert_eq!(step.result, Some(vec![]));
    assert_eq!(step.block, Some(vec![]));
    assert!(!step.exhausted && !step.failed);
    let step = decide(Answer::NoModel);
    assert_eq!(step.result, None);
    assert_eq!(step.block, None);
    assert!(step.exhausted && !step.failed);
    let step = decide(Answer::Failure);
    assert_eq!(step.result, None);
    assert_eq!(step.block, None);
    assert!(step.exhausted && step.failed);
}
