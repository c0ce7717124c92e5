use sat_puzzles::find_all_solutions;
use sat_puzzles::mapcolouring_sat::generate_clauses;
use sat_puzzles::mapfile::{collect_names, insert_name, neighbours_of, parse_map};
use sat_puzzles::text::{chars_of, is_white_space, split_at, string_of, trimmed, words_of};

fn names(list: &[&str]) -> Vec<String> {
    list.iter().map(|s| s.to_string()).collect()
}

fn chars(s: &str) -> Vec<char> {
    s.chars().collect()
}

const AUSTRALIA: &str = "# The states of Australia
WA: NT SA
NT: SA Q

SA: Q NSW V
   # Queensland
Q:NSW
NSW : V
T:
";

#[test]
fn map_file_of_australia() {
    let map = parse_map(AUSTRALIA);
    assert_eq!(map.states, names(&["NSW", "NT", "Q", "SA", "T", "V", "WA"]));
    let expected: Vec<(String, Vec<String>)> = vec![
        ("NSW", vec!["Q", "SA", "V"]),
        ("NT", vec!["Q", "SA", "WA"]),
        ("Q", vec!["NSW", "NT", "SA"]),
        ("SA", vec!["NSW", "NT", "Q", "V", "WA"]),
        ("T", vec![]),
        ("V", vec!["NSW", "SA"]),
        ("WA", vec!["NT", "SA"]),
    ]
    .into_iter()
    .map(|(s, n)| (s.to_string(), names(&n)))
    .collect();
    assert_eq!(map.adjacencies, expected);
    assert!(map.skipped.is_empty());
}

#[test]
fn map_file_sets_aside_what_it_cannot_read() {
    let map = parse_map("A: B\nno colon here \n  C: D: E\n:\nB: A");
    assert_eq!(map.skipped, names(&["no colon here", "C: D: E"]));
    // The line `:` names the region without a name, with no neighbour.
    assert_eq!(map.states, names(&["", "A", "B"]));
    assert_eq!(map.adjacencies[1], ("A".to_string(), names(&["B"])));
}

#[test]
fn map_file_takes_the_last_line_of_a_region() {
    let map = parse_map("A: B C\nB: C\nA: D D");
    assert_eq!(map.states, names(&["A", "B", "C", "D"]));
    let around = |state: &str| {
        map.adjacencies.iter().find(|(s, _)| s == state).map(|(_, n)| n.clone()).unwrap()
    };
    assert_eq!(around("A"), names(&["D"]));
    assert_eq!(around("B"), names(&["C"]));
    assert_eq!(around("C"), names(&["B"]));
    assert_eq!(around("D"), names(&["A"]));
}

#[test]
fn map_file_reads_any_line_ending_and_white_space() {
    let map = parse_map("A:\tB\u{a0}C\r\n\u{3000}B :C  \r\n\r\n");
    assert_eq!(map.states, names(&["A", "B", "C"]));
    assert_eq!(map.adjacencies[0], ("A".to_string(), names(&["B", "C"])));
    assert_eq!(map.adjacencies[2], ("C".to_string(), names(&["A", "B"])));
    let empty = parse_map("");
    assert!(empty.states.is_empty() && empty.adjacencies.is_empty() && empty.skipped.is_empty());
}

#[test]
fn map_file_that_is_read_can_be_coloured() {
    let map = parse_map(AUSTRALIA);
    let clauses = generate_clauses(&map.states, &names(&["R", "G", "B"]), &map.adjacencies);
    let mut models = find_all_solutions(&clauses).unwrap();
    assert_eq!(models.take(100).len(), 18);
}

#[test]
fn names_are_kept_in_order_and_once() {
    let mut list: Vec<String> = Vec::new();
    for name in ["Q", "NSW", "WA", "Q", "A", "NT", "WA", "a", "Z"] {
        insert_name(&mut list, &name.to_string());
    }
    assert_eq!(list, names(&["A", "NSW", "NT", "Q", "WA", "Z", "a"]));
    let entries =
        vec![("B".to_string(), names(&["C", "A"])), ("A".to_string(), names(&["C"]))];
    assert_eq!(collect_names(&entries), names(&["A", "B", "C"]));
    assert_eq!(neighbours_of(&entries, &"C".to_string()), names(&["A", "B"]));
    assert_eq!(neighbours_of(&entries, &"A".to_string()), names(&["B", "C"]));
    assert!(neighbours_of(&entries, &"D".to_string()).is_empty());
}

#[test]
fn text_is_split_at_each_separator() {
    let pieces = |s: &str| -> Vec<String> {
        split_at(&chars(s), ':').iter().map(string_of).collect()
    };
    assert_eq!(pieces(""), names(&[""]));
    assert_eq!(pieces("a"), names(&["a"]));
    assert_eq!(pieces("a:b"), names(&["a", "b"]));
    assert_eq!(pieces(":a::b:"), names(&["", "a", "", "b", ""]));
}

#[test]
fn text_is_trimmed_at_both_ends() {
    let trim = |s: &str| -> String { string_of(&trimmed(&chars(s))) };
    assert_eq!(trim(""), "");
    assert_eq!(trim(" \t\r\n "), "");
    assert_eq!(trim("  a b  "), "a b");
    assert_eq!(trim("\u{2003}x\u{205f}"), "x");
    assert_eq!(trim("x"), "x");
    for s in [" a", "a ", "\u{85}a\u{1680}", "a\u{200b}"] {
        assert_eq!(trim(s), s.trim());
    }
}

#[test]
fn text_is_cut_into_words() {
    let words = |s: &str| -> Vec<String> { words_of(&chars(s)).iter().map(string_of).collect() };
    assert!(words("").is_empty());
    assert!(words("  \t ").is_empty());
    assert_eq!(words("a"), names(&["a"]));
    assert_eq!(words("  ab  c\td "), names(&["ab", "c", "d"]));
    assert_eq!(words("x y"), names(&["x", "y"]));
}

#[test]
fn white_space_is_what_the_language_calls_so() {
    for code in 0..0x3100u32 {
        if let Some(c) = char::from_u32(code) {
            assert_eq!(is_white_space(c), c.is_whitespace());
        }
    }
}

#[test]
fn characters_and_strings_turn_into_each_other() {
    assert_eq!(chars_of("a·b"), vec!['a', '·', 'b']);
    assert_eq!(string_of(&vec!['a', '·', 'b']), "a·b");
    assert!(chars_of("").is_empty());
}
