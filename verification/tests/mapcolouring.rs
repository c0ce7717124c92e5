use sat_puzzles::find_all_solutions;
use sat_puzzles::mapcolouring_sat::{
    decode_solution, generate_clauses, state_index, var_to_state_color,
};

fn names(list: &[&str]) -> Vec<String> {
    list.iter().map(|s| s.to_string()).collect()
}

fn australia() -> (Vec<String>, Vec<(String, Vec<String>)>) {
    let states = names(&["NSW", "NT", "Q", "SA", "T", "V", "WA"]);
    let borders: Vec<(&str, Vec<&str>)> = vec![
        ("NSW", vec!["Q", "SA", "V"]),
        ("NT", vec!["Q", "SA", "WA"]),
        ("Q", vec!["NSW", "NT", "SA"]),
        ("SA", vec!["NSW", "NT", "Q", "V", "WA"]),
        ("T", vec![]),
        ("V", vec!["NSW", "SA"]),
        ("WA", vec!["NT", "SA"]),
    ];
    let adjacencies = borders.into_iter().map(|(s, n)| (s.to_string(), names(&n))).collect();
    (states, adjacencies)
}

#[test]
fn colouring_clauses_of_two_regions() {
    let states = names(&["B", "A"]);
    let colors = names(&["red", "green"]);
    let adjacencies = vec![("B".to_string(), names(&["A"])), ("A".to_string(), names(&["B"]))];
    let expected: Vec<Vec<isize>> = vec![
        vec![1, 2],
        vec![3, 4],
        vec![-1, -2],
        vec![-3, -4],
        // The border is named from A, which comes first, though B is listed
        // first: A is region 1 and B region 0.
        vec![-3, -1],
        vec![-4, -2],
    ];
    assert_eq!(generate_clauses(&states, &colors, &adjacencies), expected);
}

#[test]
fn colouring_orders_names_as_strings_are_ordered() {
    let states = names(&["a", "Z", "ab", "É"]);
    let colors = names(&["c"]);
    let borders = |from: &str, to: &str| vec![(from.to_string(), names(&[to]))];
    let only_border =
        |from: &str, to: &str| generate_clauses(&states, &colors, &borders(from, to))[4..].to_vec();
    assert_eq!(only_border("Z", "a"), vec![vec![-2, -1]]);
    assert!(only_border("a", "Z").is_empty());
    assert_eq!(only_border("a", "ab"), vec![vec![-1, -3]]);
    assert!(only_border("ab", "a").is_empty());
    assert_eq!(only_border("ab", "É"), vec![vec![-3, -4]]);
    assert!(only_border("a", "a").is_empty());
}

#[test]
fn colouring_takes_the_last_region_of_a_name() {
    let states = names(&["A", "B", "A"]);
    assert_eq!(state_index(&states, &"A".to_string()), Some(2));
    assert_eq!(state_index(&states, &"B".to_string()), Some(1));
    assert_eq!(state_index(&states, &"C".to_string()), None);
    assert_eq!(state_index(&[], &"A".to_string()), None);
}

#[test]
fn colouring_variables_name_region_and_colour() {
    let states = names(&["WA", "NT", "SA"]);
    let colors = names(&["R", "G"]);
    assert_eq!(var_to_state_color(1, &states, &colors), (&states[0], &colors[0]));
    assert_eq!(var_to_state_color(2, &states, &colors), (&states[0], &colors[1]));
    assert_eq!(var_to_state_color(5, &states, &colors), (&states[2], &colors[0]));
    assert_eq!(var_to_state_color(6, &states, &colors), (&states[2], &colors[1]));
}

#[test]
fn colouring_decode_passes_over_what_is_no_colour() {
    let states = names(&["WA", "NT"]);
    let colors = names(&["R", "G", "B"]);
    let colouring = decode_solution(&[-1, 2, -3, 6, 7, 0, -5], &states, &colors);
    let expected =
        vec![("WA".to_string(), "G".to_string()), ("NT".to_string(), "B".to_string())];
    assert_eq!(colouring.0, expected);
    assert!(decode_solution(&[1, 2], &states, &[]).0.is_empty());
    assert!(decode_solution(&[1, 2], &[], &colors).0.is_empty());
}

#[test]
fn australia_with_three_colours() {
    let (states, adjacencies) = australia();
    let colors = names(&["R", "G", "B"]);
    let clauses = generate_clauses(&states, &colors, &adjacencies);
    assert_eq!(clauses.len(), 7 + 7 * 3 + 9 * 3);
    let mut models = find_all_solutions(&clauses).unwrap();
    let mut count = 0;
    while let Some(model) = models.next() {
        let colouring = decode_solution(&model, &states, &colors);
        assert_eq!(colouring.0.len(), states.len());
        let colour_of = |state: &String| {
            let found: Vec<&String> =
                colouring.0.iter().filter(|(s, _)| s == state).map(|(_, c)| c).collect();
            assert_eq!(found.len(), 1);
            found[0].clone()
        };
        for (state, neighbours) in &adjacencies {
            for neighbour in neighbours {
                assert_ne!(colour_of(state), colour_of(neighbour));
            }
        }
        count += 1;
    }
    // Six ways to colour the mainland, three for the island.
    assert_eq!(count, 18);
}

#[test]
fn australia_with_two_colours_cannot_be_coloured() {
    let (states, adjacencies) = australia();
    let colors = names(&["R", "G"]);
    let clauses = generate_clauses(&states, &colors, &adjacencies);
    assert!(find_all_solutions(&clauses).unwrap().next().is_none());
}

#[test]
fn a_border_is_named_from_its_first_region() {
    let states = names(&["A", "B"]);
    let colors = names(&["R", "G"]);
    let from_b = vec![("B".to_string(), names(&["A"]))];
    // Named from B only, the border gives no clause: the list has to name
    // each border from both sides.
    assert_eq!(generate_clauses(&states, &colors, &from_b).len(), 4);
    let from_a = vec![("A".to_string(), names(&["B"]))];
    assert_eq!(generate_clauses(&states, &colors, &from_a).len(), 6);
}
