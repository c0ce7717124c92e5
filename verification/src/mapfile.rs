//! Maps written down line by line.
//!
//! A line `REGION: NEIGHBOUR NEIGHBOUR ...` names a region and the regions
//! that border it. Empty lines and lines that start with `#` say nothing.
//! A border counts from both sides, whichever side names it; where a region
//! stands on several lines, its last line counts.

use crate::mapcolouring_sat::{
    border_listed, borders_known, index_of, lemma_index_of, symmetric_borders,
};
use crate::text::{
    chars_of, lemma_lex_irreflexive, lemma_lex_total, lemma_lex_transitive, lex_less, pieces_view,
    split, split_at, str_less, string_of, trim, trimmed, words, words_of,
};
use vstd::prelude::*;

verus! {

/// What a line says.
pub enum Line {
    /// Nothing: the line is empty or a comment.
    Blank,
    /// Nothing that can be read: the line, trimmed, has not exactly one
    /// colon.
    Malformed(Seq<char>),
    /// A region and the regions that it lists as its neighbours.
    Entry(Seq<char>, Seq<Seq<char>>),
}

/// What the line `line` says.
pub open spec fn read_line(line: Seq<char>) -> Line {
    let t = trim(line);
    if t.len() == 0 || t[0] == '#' {
        Line::Blank
    } else if split(t, ':').len() != 2 {
        Line::Malformed(t)
    } else {
        Line::Entry(trim(split(t, ':')[0]), words(split(t, ':')[1]))
    }
}

/// The entries of the lines, in order.
pub open spec fn entries_of(lines: Seq<Seq<char>>) -> Seq<(Seq<char>, Seq<Seq<char>>)>
    decreases lines.len(),
{
    if lines.len() == 0 {
        Seq::empty()
    } else {
        match read_line(lines.last()) {
            Line::Entry(state, neighbours) => entries_of(lines.drop_last()).push(
                (state, neighbours),
            ),
            _ => entries_of(lines.drop_last()),
        }
    }
}

/// The lines that cannot be read, trimmed, in order.
pub open spec fn malformed_of(lines: Seq<Seq<char>>) -> Seq<Seq<char>>
    decreases lines.len(),
{
    if lines.len() == 0 {
        Seq::empty()
    } else {
        match read_line(lines.last()) {
            Line::Malformed(t) => malformed_of(lines.drop_last()).push(t),
            _ => malformed_of(lines.drop_last()),
        }
    }
}

/// The entries of a map file.
pub open spec fn map_entries(text: Seq<char>) -> Seq<(Seq<char>, Seq<Seq<char>>)> {
    entries_of(split(text, '\n'))
}

/// The names of a list of strings.
pub open spec fn names_view(names: Seq<String>) -> Seq<Seq<char>> {
    Seq::new(names.len(), |i: int| names[i]@)
}

/// The entries of a list of regions with their neighbours.
pub open spec fn entries_view(entries: Seq<(String, Vec<String>)>) -> Seq<
    (Seq<char>, Seq<Seq<char>>),
> {
    Seq::new(entries.len(), |i: int| (entries[i].0@, names_view(entries[i].1@)))
}

/// Names in ascending order, none of them twice.
pub open spec fn ascending_names(names: Seq<Seq<char>>) -> bool {
    forall|i: int, j: int| 0 <= i < j < names.len() ==> lex_less(names[i], names[j])
}

/// The entry names `x`, as its region or as a neighbour.
pub open spec fn entry_names(entry: (Seq<char>, Seq<Seq<char>>), x: Seq<char>) -> bool {
    entry.0 == x || entry.1.contains(x)
}

/// One of the first `upto` entries names `x`.
pub open spec fn named_upto(
    entries: Seq<(Seq<char>, Seq<Seq<char>>)>,
    upto: int,
    x: Seq<char>,
) -> bool {
    exists|i: int| 0 <= i < upto && #[trigger] entry_names(entries[i], x)
}

/// Some entry names `x`.
pub open spec fn named(entries: Seq<(Seq<char>, Seq<Seq<char>>)>, x: Seq<char>) -> bool {
    named_upto(entries, entries.len() as int, x)
}

/// No later entry is for the region of entry `i`.
pub open spec fn is_last(entries: Seq<(Seq<char>, Seq<Seq<char>>)>, i: int) -> bool {
    forall|j: int| i < j < entries.len() ==> (#[trigger] entries[j]).0 != entries[i].0
}

/// Entry `i` counts and puts a border between `s` and `x`: it is for one of
/// them and lists the other.
pub open spec fn links(
    entries: Seq<(Seq<char>, Seq<Seq<char>>)>,
    i: int,
    s: Seq<char>,
    x: Seq<char>,
) -> bool {
    is_last(entries, i) && ((entries[i].0 == s && entries[i].1.contains(x)) || (entries[i].0 == x
        && entries[i].1.contains(s)))
}

/// One of the first `upto` entries puts a border between `s` and `x`.
pub open spec fn borders_upto(
    entries: Seq<(Seq<char>, Seq<Seq<char>>)>,
    upto: int,
    s: Seq<char>,
    x: Seq<char>,
) -> bool {
    exists|i: int| 0 <= i < upto && #[trigger] links(entries, i, s, x)
}

/// The regions `s` and `x` border each other.
pub open spec fn borders(
    entries: Seq<(Seq<char>, Seq<Seq<char>>)>,
    s: Seq<char>,
    x: Seq<char>,
) -> bool {
    borders_upto(entries, entries.len() as int, s, x)
}

/// A map as its file describes it.
pub struct MapFile {
    /// The regions that the file names, in ascending order.
    pub states: Vec<String>,
    /// For each region, in the same order, the regions that border it, in
    /// ascending order.
    pub adjacencies: Vec<(String, Vec<String>)>,
    /// The lines that could not be read, trimmed.
    pub skipped: Vec<String>,
}

/// Whether `name` is one of `list`.
pub fn lists(list: &Vec<String>, name: &String) -> (b: bool)
    ensures
        b == names_view(list@).contains(name@),
{
    let mut i: usize = 0;
    while i < list.len()
        invariant
            i <= list@.len(),
            forall|t: int| 0 <= t < i ==> names_view(list@)[t] != name@,
        decreases list@.len() - i,
    {
        if list[i] == *name {
            assert(names_view(list@)[i as int] == name@);
            return true;
        }
        i += 1;
    }
    false
}

/// Puts `name` into the ascending list `names`, unless it is there.
pub fn insert_name(names: &mut Vec<String>, name: &String)
    requires
        ascending_names(names_view(old(names)@)),
    ensures
        ascending_names(names_view(final(names)@)),
        forall|x: Seq<char>|
            #![trigger names_view(final(names)@).contains(x)]
            #![trigger names_view(old(names)@).contains(x)]
            names_view(final(names)@).contains(x) <==> names_view(old(names)@).contains(x) || x
                == name@,
{
    let ghost before = names_view(names@);
    let mut at: usize = 0;
    while at < names.len() && str_less(&names[at], name)
        invariant
            at <= names@.len(),
            names@ == old(names)@,
            before == names_view(names@),
            forall|t: int| 0 <= t < at ==> lex_less(#[trigger] before[t], name@),
        decreases names@.len() - at,
    {
        assert(before[at as int] == names@[at as int]@);
        at += 1;
    }
    if at < names.len() && names[at] == *name {
        assert(before[at as int] == name@);
        return ;
    }
    names.insert(at, name.clone());
    proof {
        let after = names_view(names@);
        assert(after.len() == before.len() + 1);
        assert(after[at as int] == name@);
        assert forall|t: int| 0 <= t < at implies after[t] == before[t] by {}
        assert forall|t: int| at < t < after.len() implies after[t] == before[t - 1] by {}
        if at < before.len() {
            assert(before[at as int] == old(names)@[at as int]@);
            lemma_lex_total(before[at as int], name@);
        }
        assert forall|i: int, j: int| 0 <= i < j < after.len() implies lex_less(
            after[i],
            after[j],
        ) by {
            if j < at {
            } else if j == at {
            } else if i < at {
                lemma_lex_transitive(after[i], name@, before[at as int]);
                if j - 1 > at {
                    lemma_lex_transitive(after[i], before[at as int], before[j - 1]);
                }
            } else if i == at {
                if j - 1 > at {
                    lemma_lex_transitive(name@, before[at as int], before[j - 1]);
                }
            } else {
            }
        }
        assert forall|x: Seq<char>|
            #![trigger after.contains(x)]
            #![trigger before.contains(x)]
            after.contains(x) <==> before.contains(x) || x == name@ by {
            if after.contains(x) {
                let t = choose|t: int| 0 <= t < after.len() && after[t] == x;
                if t < at {
                    assert(before[t] == x);
                } else if t > at {
                    assert(before[t - 1] == x);
                }
            }
            if before.contains(x) {
                let t = choose|t: int| 0 <= t < before.len() && before[t] == x;
                if t < at {
                    assert(after[t] == x);
                } else {
                    assert(after[t + 1] == x);
                }
            }
        }
    }
}

/// The names that the entries name, in ascending order.
pub fn collect_names(entries: &Vec<(String, Vec<String>)>) -> (names: Vec<String>)
    ensures
        ascending_names(names_view(names@)),
        forall|x: Seq<char>|
            #![trigger names_view(names@).contains(x)]
            #![trigger named(entries_view(entries@), x)]
            names_view(names@).contains(x) <==> named(entries_view(entries@), x),
{
    let ghost ev = entries_view(entries@);
    let mut names: Vec<String> = Vec::new();
    let mut i: usize = 0;
    while i < entries.len()
        invariant
            i <= entries@.len(),
            ev == entries_view(entries@),
            ascending_names(names_view(names@)),
            forall|x: Seq<char>|
                #![trigger names_view(names@).contains(x)]
                #![trigger named_upto(ev, i as int, x)]
                names_view(names@).contains(x) <==> named_upto(ev, i as int, x),
        decreases entries@.len() - i,
    {
        let entry = &entries[i];
        let ghost listed = names_view(entry.1@);
        assert(ev[i as int] == (entry.0@, listed));
        insert_name(&mut names, &entry.0);
        assert(listed.take(0).len() == 0);
        let mut k: usize = 0;
        while k < entry.1.len()
            invariant
                k <= entry.1@.len(),
                i < entries@.len(),
                ev == entries_view(entries@),
                ev[i as int] == (entry.0@, listed),
                listed == names_view(entry.1@),
                ascending_names(names_view(names@)),
                forall|x: Seq<char>|
                    #![trigger names_view(names@).contains(x)]
                    names_view(names@).contains(x) <==> named_upto(ev, i as int, x) || x
                        == entry.0@ || listed.take(k as int).contains(x),
            decreases entry.1@.len() - k,
        {
            let ghost before = names_view(names@);
            insert_name(&mut names, &entry.1[k]);
            proof {
                assert(listed[k as int] == entry.1@[k as int]@);
                lemma_take_contains(listed, k as int);
                assert forall|x: Seq<char>|
                    #![trigger names_view(names@).contains(x)]
                    names_view(names@).contains(x) <==> named_upto(ev, i as int, x) || x
                        == entry.0@ || listed.take(k + 1).contains(x) by {
                    assert(names_view(names@).contains(x) <==> before.contains(x) || x
                        == listed[k as int]);
                    assert(listed.take(k + 1).contains(x) <==> listed.take(k as int).contains(x)
                        || x == listed[k as int]);
                }
            }
            k += 1;
        }
        proof {
            assert(listed.take(listed.len() as int) =~= listed);
            assert forall|x: Seq<char>|
                #![trigger names_view(names@).contains(x)]
                #![trigger named_upto(ev, i + 1, x)]
                names_view(names@).contains(x) <==> named_upto(ev, i + 1, x) by {
                let here = entry_names(ev[i as int], x);
                assert(here <==> x == entry.0@ || listed.contains(x));
                assert(names_view(names@).contains(x) <==> named_upto(ev, i as int, x) || here);
                if named_upto(ev, i + 1, x) {
                    let t = choose|t: int| 0 <= t < i + 1 && #[trigger] entry_names(ev[t], x);
                    if t < i {
                        assert(named_upto(ev, i as int, x));
                    }
                }
                if named_upto(ev, i as int, x) {
                    let t = choose|t: int| 0 <= t < i && #[trigger] entry_names(ev[t], x);
                    assert(0 <= t < i + 1 && entry_names(ev[t], x));
                }
            }
        }
        i += 1;
    }
    names
}

/// Whether no later entry is for the region of entry `i`.
pub fn last_of_its_state(entries: &Vec<(String, Vec<String>)>, i: usize) -> (b: bool)
    requires
        i < entries@.len(),
    ensures
        b == is_last(entries_view(entries@), i as int),
{
    let ghost ev = entries_view(entries@);
    let n = entries.len();
    let mut j: usize = i + 1;
    while j < entries.len()
        invariant
            i < j <= entries@.len(),
            ev == entries_view(entries@),
            forall|t: int| i < t < j ==> (#[trigger] ev[t]).0 != ev[i as int].0,
        decreases entries@.len() - j,
    {
        if entries[j].0 == entries[i].0 {
            assert(ev[j as int].0 == ev[i as int].0);
            return false;
        }
        j += 1;
    }
    true
}

/// The regions that border `state`, in ascending order.
pub fn neighbours_of(entries: &Vec<(String, Vec<String>)>, state: &String) -> (found: Vec<String>)
    ensures
        ascending_names(names_view(found@)),
        forall|x: Seq<char>|
            #![trigger names_view(found@).contains(x)]
            #![trigger borders(entries_view(entries@), state@, x)]
            names_view(found@).contains(x) <==> borders(entries_view(entries@), state@, x),
{
    let ghost ev = entries_view(entries@);
    let ghost s = state@;
    let mut found: Vec<String> = Vec::new();
    let mut i: usize = 0;
    while i < entries.len()
        invariant
            i <= entries@.len(),
            ev == entries_view(entries@),
            s == state@,
            ascending_names(names_view(found@)),
            forall|x: Seq<char>|
                #![trigger names_view(found@).contains(x)]
                #![trigger borders_upto(ev, i as int, s, x)]
                names_view(found@).contains(x) <==> borders_upto(ev, i as int, s, x),
        decreases entries@.len() - i,
    {
        let entry = &entries[i];
        let ghost listed = names_view(entry.1@);
        let ghost start = names_view(found@);
        assert(ev[i as int] == (entry.0@, listed));
        let counts = last_of_its_state(entries, i);
        let own = counts && entry.0 == *state;
        if own {
            assert(listed.take(0).len() == 0);
            let mut k: usize = 0;
            while k < entry.1.len()
                invariant
                    k <= entry.1@.len(),
                    listed == names_view(entry.1@),
                    ascending_names(names_view(found@)),
                    forall|x: Seq<char>|
                        #![trigger names_view(found@).contains(x)]
                        names_view(found@).contains(x) <==> start.contains(x) || listed.take(
                            k as int,
                        ).contains(x),
                decreases entry.1@.len() - k,
            {
                let ghost before = names_view(found@);
                insert_name(&mut found, &entry.1[k]);
                proof {
                    assert(listed[k as int] == entry.1@[k as int]@);
                    lemma_take_contains(listed, k as int);
                    assert forall|x: Seq<char>|
                        #![trigger names_view(found@).contains(x)]
                        names_view(found@).contains(x) <==> start.contains(x) || listed.take(
                            k + 1,
                        ).contains(x) by {
                        assert(names_view(found@).contains(x) <==> before.contains(x) || x
                            == listed[k as int]);
                        assert(listed.take(k + 1).contains(x) <==> listed.take(
                            k as int,
                        ).contains(x) || x == listed[k as int]);
                    }
                }
                k += 1;
            }
        }
        let ghost middle = names_view(found@);
        proof {
            assert(listed.take(0).len() == 0);
            assert(listed.take(listed.len() as int) =~= listed);
            assert forall|x: Seq<char>|
                #![trigger middle.contains(x)]
                middle.contains(x) <==> start.contains(x) || (own && listed.contains(x)) by {
                assert(!listed.take(0).contains(x));
            }
        }
        let other = counts && lists(&entry.1, state);
        if other {
            insert_name(&mut found, &entry.0);
        }
        proof {
            assert forall|x: Seq<char>|
                #![trigger names_view(found@).contains(x)]
                #![trigger borders_upto(ev, i + 1, s, x)]
                names_view(found@).contains(x) <==> borders_upto(ev, i + 1, s, x) by {
                let here = links(ev, i as int, s, x);
                assert(here <==> (own && listed.contains(x)) || (other && x == entry.0@));
                assert(names_view(found@).contains(x) <==> middle.contains(x) || (other && x
                    == entry.0@));
                assert(middle.contains(x) <==> start.contains(x) || (own && listed.contains(x)));
                assert(start.contains(x) <==> borders_upto(ev, i as int, s, x));
                if borders_upto(ev, i + 1, s, x) {
                    let t = choose|t: int| 0 <= t < i + 1 && #[trigger] links(ev, t, s, x);
                    if t < i {
                        assert(borders_upto(ev, i as int, s, x));
                    }
                }
                if borders_upto(ev, i as int, s, x) {
                    let t = choose|t: int| 0 <= t < i && #[trigger] links(ev, t, s, x);
                    assert(0 <= t < i + 1 && links(ev, t, s, x));
                }
            }
        }
        i += 1;
    }
    found
}

/// One more element of a list is among its first elements, or is the next.
proof fn lemma_take_contains(list: Seq<Seq<char>>, k: int)
    requires
        0 <= k < list.len(),
    ensures
        forall|x: Seq<char>|
            #![trigger list.take(k + 1).contains(x)]
            list.take(k + 1).contains(x) <==> list.take(k).contains(x) || x == list[k],
{
    assert forall|x: Seq<char>|
        #![trigger list.take(k + 1).contains(x)]
        list.take(k + 1).contains(x) <==> list.take(k).contains(x) || x == list[k] by {
        let more = list.take(k + 1);
        let fewer = list.take(k);
        if more.contains(x) {
            let t = choose|t: int| 0 <= t < more.len() && more[t] == x;
            if t < k {
                assert(fewer[t] == x);
            }
        }
        if fewer.contains(x) {
            let t = choose|t: int| 0 <= t < fewer.len() && fewer[t] == x;
            assert(more[t] == x);
        }
        if x == list[k] {
            assert(more[k] == x);
        }
    }
}

/// The strings of the pieces.
pub fn strings_of(pieces: &Vec<Vec<char>>) -> (names: Vec<String>)
    ensures
        names_view(names@) == pieces_view(pieces@),
{
    let mut names: Vec<String> = Vec::new();
    let mut i: usize = 0;
    while i < pieces.len()
        invariant
            i <= pieces@.len(),
            names@.len() == i,
            forall|t: int| 0 <= t < i ==> (#[trigger] names@[t])@ == pieces@[t]@,
        decreases pieces@.len() - i,
    {
        names.push(string_of(&pieces[i]));
        i += 1;
    }
    assert(names_view(names@) =~= pieces_view(pieces@));
    names
}

/// Reads a map.
///
/// The regions are those that stand on a line, before or after its colon.
/// Two regions border each other where the last line for one of them lists
/// the other. Lines that cannot be read are set aside.
pub fn parse_map(text: &str) -> (map: MapFile)
    ensures
        ascending_names(names_view(map.states@)),
        forall|x: Seq<char>|
            #![trigger names_view(map.states@).contains(x)]
            #![trigger named(map_entries(text@), x)]
            names_view(map.states@).contains(x) <==> named(map_entries(text@), x),
        map.adjacencies@.len() == map.states@.len(),
        forall|i: int|
            0 <= i < map.states@.len() ==> (#[trigger] map.adjacencies@[i]).0@
                == map.states@[i]@ && ascending_names(names_view(map.adjacencies@[i].1@)),
        forall|i: int, x: Seq<char>|
            0 <= i < map.states@.len() ==> (names_view(
                (#[trigger] map.adjacencies@[i]).1@,
            ).contains(x) <==> #[trigger] borders(map_entries(text@), map.states@[i]@, x)),
        names_view(map.skipped@) == malformed_of(split(text@, '\n')),
        borders_known(map.states@, map.adjacencies@),
        symmetric_borders(map.adjacencies@),
{
    let chars = chars_of(text);
    let lines = split_at(&chars, '\n');
    let ghost ls = pieces_view(lines@);
    let mut entries: Vec<(String, Vec<String>)> = Vec::new();
    let mut skipped: Vec<String> = Vec::new();
    let mut l: usize = 0;
    assert(ls.take(0) =~= Seq::<Seq<char>>::empty());
    assert(entries_view(entries@) =~= entries_of(ls.take(0)));
    assert(names_view(skipped@) =~= malformed_of(ls.take(0)));
    while l < lines.len()
        invariant
            l <= lines@.len(),
            ls == pieces_view(lines@),
            entries_view(entries@) == entries_of(ls.take(l as int)),
            names_view(skipped@) == malformed_of(ls.take(l as int)),
        decreases lines@.len() - l,
    {
        proof {
            let upto = ls.take(l + 1);
            assert(upto.drop_last() =~= ls.take(l as int));
            assert(upto.last() == lines@[l as int]@);
        }
        let ghost entries_before = entries_view(entries@);
        let ghost skipped_before = names_view(skipped@);
        let line = trimmed(&lines[l]);
        if line.len() > 0 && line[0] != '#' {
            let parts = split_at(&line, ':');
            if parts.len() != 2 {
                skipped.push(string_of(&line));
                assert(names_view(skipped@) =~= skipped_before.push(line@));
            } else {
                assert(pieces_view(parts@)[0] == parts@[0]@);
                assert(pieces_view(parts@)[1] == parts@[1]@);
                let state = string_of(&trimmed(&parts[0]));
                let neighbours = strings_of(&words_of(&parts[1]));
                let ghost entry = (state@, names_view(neighbours@));
                entries.push((state, neighbours));
                assert(entries_view(entries@) =~= entries_before.push(entry));
            }
        }
        l += 1;
    }
    assert(ls.take(lines@.len() as int) =~= ls);
    let ghost ev = entries_view(entries@);
    let states = collect_names(&entries);
    let mut adjacencies: Vec<(String, Vec<String>)> = Vec::new();
    let mut i: usize = 0;
    while i < states.len()
        invariant
            i <= states@.len(),
            ev == entries_view(entries@),
            adjacencies@.len() == i,
            forall|t: int|
                0 <= t < i ==> (#[trigger] adjacencies@[t]).0@ == states@[t]@ && ascending_names(
                    names_view(adjacencies@[t].1@),
                ),
            forall|t: int, x: Seq<char>|
                0 <= t < i ==> (names_view((#[trigger] adjacencies@[t]).1@).contains(x)
                    <==> #[trigger] borders(ev, states@[t]@, x)),
        decreases states@.len() - i,
    {
        let around = neighbours_of(&entries, &states[i]);
        adjacencies.push((states[i].clone(), around));
        i += 1;
    }
    proof {
        assert forall|e: int, k: int|
            #![trigger adjacencies@[e].1@[k]]
            0 <= e < adjacencies@.len() && 0 <= k < adjacencies@[e].1@.len() && lex_less(
                adjacencies@[e].0@,
                adjacencies@[e].1@[k]@,
            ) implies index_of(states@, adjacencies@[e].0@) >= 0 && index_of(
            states@,
            adjacencies@[e].1@[k]@,
        ) >= 0 by {
            let s = states@[e]@;
            let x = adjacencies@[e].1@[k]@;
            lemma_index_of(states@, s);
            lemma_index_of(states@, x);
            assert(names_view(adjacencies@[e].1@)[k] == x);
            assert(names_view(adjacencies@[e].1@).contains(x));
            assert(borders(ev, s, x));
            let t = choose|t: int| 0 <= t < ev.len() && #[trigger] links(ev, t, s, x);
            assert(entry_names(ev[t], x));
            assert(named(ev, x));
            assert(names_view(states@).contains(x));
            let u = choose|u: int| 0 <= u < states@.len() && names_view(states@)[u] == x;
            assert(states@[u]@ == x);
        }
    }
    proof {
        assert forall|a: Seq<char>, b: Seq<char>| #[trigger]
            border_listed(adjacencies@, a, b) implies border_listed(adjacencies@, b, a) by {
            let (e, k) = choose|e: int, k: int|
                0 <= e < adjacencies@.len() && 0 <= k < adjacencies@[e].1@.len()
                    && adjacencies@[e].0@ == a && (#[trigger] adjacencies@[e].1@[k])@ == b;
            assert(names_view(adjacencies@[e].1@)[k] == b);
            assert(names_view(adjacencies@[e].1@).contains(b));
            assert(borders(ev, states@[e]@, b));
            lemma_borders_symmetric(ev, a, b);
            let t = choose|t: int| 0 <= t < ev.len() && #[trigger] links(ev, t, a, b);
            assert(entry_names(ev[t], b));
            assert(named(ev, b));
            assert(names_view(states@).contains(b));
            let u = choose|u: int| 0 <= u < states@.len() && names_view(states@)[u] == b;
            assert(adjacencies@[u].0@ == states@[u]@);
            assert(borders(ev, states@[u]@, a));
            assert(names_view(adjacencies@[u].1@).contains(a));
            let k2 = choose|k2: int|
                0 <= k2 < names_view(adjacencies@[u].1@).len() && names_view(
                    adjacencies@[u].1@,
                )[k2] == a;
            assert(adjacencies@[u].1@[k2]@ == a);
        }
    }
    MapFile { states, adjacencies, skipped }
}

/// A border counts from both sides.
pub proof fn lemma_borders_symmetric(
    entries: Seq<(Seq<char>, Seq<Seq<char>>)>,
    s: Seq<char>,
    x: Seq<char>,
)
    ensures
        borders(entries, s, x) == borders(entries, x, s),
{
    if borders(entries, s, x) {
        let i = choose|i: int| 0 <= i < entries.len() && #[trigger] links(entries, i, s, x);
        assert(links(entries, i, x, s));
    }
    if borders(entries, x, s) {
        let i = choose|i: int| 0 <= i < entries.len() && #[trigger] links(entries, i, x, s);
        assert(links(entries, i, s, x));
    }
}

/// Names in ascending order are all different.
pub proof fn lemma_ascending_distinct(names: Seq<Seq<char>>)
    requires
        ascending_names(names),
    ensures
        names.no_duplicates(),
{
    assert forall|i: int, j: int| 0 <= i < names.len() && 0 <= j < names.len() && i != j implies names[i]
        != names[j] by {
        lemma_lex_irreflexive(names[i]);
        if i < j {
            assert(lex_less(names[i], names[j]));
        } else {
            assert(lex_less(names[j], names[i]));
        }
    }
}

} // verus!
