//! Map colouring as a satisfiability problem.
//!
//! Every region of a map gets one of the given colours, and no two regions
//! that border each other get the same. One variable for each region and
//! colour says that the region gets the colour.

use crate::cnf::{
    at_most_one, clause_holds, clause_view, concat_groups, formula_holds, formula_view, is_model,
    lemma_holds_concat, lemma_holds_groups, lemma_holds_pair, lemma_model_truth, lemma_negation,
    lemma_pairwise_exclusions, lit_holds, model_truth, pairwise_exclusions, push_clause,
    push_pair, push_pairwise_exclusions,
};
use crate::text::{lemma_lex_irreflexive, lemma_lex_total, lex_less, str_less};
use vstd::prelude::*;

verus! {

/// A colouring: pairs of a region and its colour.
pub struct Colouring(pub Vec<(String, String)>);

/// The place of the region `name` in `states`: the last one that bears the
/// name, or -1 where none does.
pub open spec fn index_of(states: Seq<String>, name: Seq<char>) -> int
    decreases states.len(),
{
    if states.len() == 0 {
        -1
    } else if states.last()@ == name {
        states.len() - 1
    } else {
        index_of(states.drop_last(), name)
    }
}

/// The place that `index_of` gives is one of the region.
pub proof fn lemma_index_of(states: Seq<String>, name: Seq<char>)
    ensures
        -1 <= index_of(states, name) < states.len(),
        index_of(states, name) >= 0 ==> states[index_of(states, name)]@ == name,
        index_of(states, name) < 0 ==> forall|i: int|
            0 <= i < states.len() ==> (#[trigger] states[i])@ != name,
    decreases states.len(),
{
    if states.len() > 0 && states.last()@ != name {
        let before = states.drop_last();
        lemma_index_of(before, name);
        if index_of(states, name) < 0 {
            assert forall|i: int| 0 <= i < states.len() implies (#[trigger] states[i])@ != name by {
                if i < before.len() {
                    assert(before[i] == states[i]);
                }
            }
        }
    }
}

/// The place of the region `name` in `states`: the last one that bears the
/// name.
pub fn state_index(states: &[String], name: &String) -> (r: Option<usize>)
    ensures
        match r {
            Some(i) => i == index_of(states@, name@),
            None => index_of(states@, name@) < 0,
        },
{
    let mut found: Option<usize> = None;
    let mut i: usize = 0;
    assert(states@.take(0) =~= Seq::<String>::empty());
    while i < states.len()
        invariant
            i <= states@.len(),
            match found {
                Some(at) => at == index_of(states@.take(i as int), name@),
                None => index_of(states@.take(i as int), name@) < 0,
            },
        decreases states@.len() - i,
    {
        proof {
            let upto = states@.take(i + 1);
            assert(upto.drop_last() =~= states@.take(i as int));
            assert(upto.last() == states@[i as int]);
        }
        if states[i] == *name {
            found = Some(i);
        }
        i += 1;
    }
    assert(states@.take(states@.len() as int) =~= states@);
    found
}

/// The variable that says "region `s` gets colour `c`", where there are `nc`
/// colours.
pub open spec fn colour_var(s: int, c: int, nc: int) -> int {
    s * nc + c + 1
}

/// The variables of the regions and colours lie between 1 and their number,
/// and each names its region and its colour.
pub proof fn lemma_colour_var(s: int, c: int, ns: int, nc: int)
    requires
        0 <= s < ns,
        0 <= c < nc,
    ensures
        1 <= colour_var(s, c, nc) <= ns * nc,
        (colour_var(s, c, nc) - 1) / nc == s,
        (colour_var(s, c, nc) - 1) % nc == c,
{
    assert(0 <= s * nc) by (nonlinear_arith)
        requires
            0 <= s,
            0 <= nc,
    ;
    assert(s * nc + nc <= ns * nc) by (nonlinear_arith)
        requires
            s + 1 <= ns,
            0 <= nc,
    ;
    vstd::arithmetic::div_mod::lemma_fundamental_div_mod_converse(s * nc + c, nc, s, c);
}

fn colour_variable(s: usize, c: usize, ns: usize, nc: usize) -> (v: isize)
    requires
        s < ns,
        c < nc,
        ns * nc <= isize::MAX,
    ensures
        v == colour_var(s as int, c as int, nc as int),
        1 <= v,
{
    proof {
        lemma_colour_var(s as int, c as int, ns as int, nc as int);
    }
    (s * nc + c + 1) as isize
}

/// The region and the colour that variable `var_dimacs` stands for.
pub fn var_to_state_color<'a>(var_dimacs: usize, states: &'a [String], colors: &'a [String]) -> (r:
    (&'a String, &'a String))
    requires
        1 <= var_dimacs,
        1 <= colors@.len(),
        (var_dimacs - 1) / (colors@.len() as int) < states@.len(),
    ensures
        *r.0 == states@[(var_dimacs - 1) / (colors@.len() as int)],
        *r.1 == colors@[(var_dimacs - 1) % (colors@.len() as int)],
{
    let num_colors = colors.len();
    let index = var_dimacs - 1;
    let state_idx = index / num_colors;
    let color_idx = index % num_colors;
    (&states[state_idx], &colors[color_idx])
}

/// The variables of region `s`, by colour.
pub open spec fn state_colours(s: int, nc: int) -> Seq<int> {
    Seq::new(nc as nat, |c: int| colour_var(s, c, nc))
}

/// Each of the first `upto` regions gets a colour.
pub open spec fn states_coloured(nc: int, upto: nat) -> Seq<Seq<int>> {
    Seq::new(upto, |s: int| state_colours(s, nc))
}

/// None of the first `upto` regions gets two colours.
pub open spec fn states_single(nc: int, upto: nat) -> Seq<Seq<int>> {
    concat_groups(upto, |s: int| pairwise_exclusions(state_colours(s, nc)))
}

/// The regions `s` and `t` do not both get one of the first `upto` colours.
pub open spec fn border_clauses(s: int, t: int, nc: int, upto: nat) -> Seq<Seq<int>> {
    Seq::new(upto, |c: int| seq![-colour_var(s, c, nc), -colour_var(t, c, nc)])
}

/// The clauses for the border between the region of `entry` and its `k`-th
/// neighbour. A border is named from its region that comes first in the
/// order of strings, so a border that is listed from both sides gives its
/// clauses once.
pub open spec fn neighbour_clauses(
    states: Seq<String>,
    nc: int,
    entry: (String, Vec<String>),
    k: int,
) -> Seq<Seq<int>> {
    if lex_less(entry.0@, entry.1@[k]@) {
        border_clauses(index_of(states, entry.0@), index_of(states, entry.1@[k]@), nc, nc as nat)
    } else {
        Seq::empty()
    }
}

/// The clauses for the first `upto` neighbours of `entry`.
pub open spec fn entry_clauses(
    states: Seq<String>,
    nc: int,
    entry: (String, Vec<String>),
    upto: nat,
) -> Seq<Seq<int>> {
    concat_groups(upto, |k: int| neighbour_clauses(states, nc, entry, k))
}

/// The clauses for the first `upto` entries of the list of borders.
pub open spec fn borders_clauses(
    states: Seq<String>,
    nc: int,
    adjacencies: Seq<(String, Vec<String>)>,
    upto: nat,
) -> Seq<Seq<int>> {
    concat_groups(upto, |e: int| entry_clauses(states, nc, adjacencies[e], adjacencies[e].1@.len()))
}

/// The formula of a map: a colour for every region, no two colours for a
/// region, and no colour on both sides of a border.
pub open spec fn colouring_clauses(
    states: Seq<String>,
    nc: int,
    adjacencies: Seq<(String, Vec<String>)>,
) -> Seq<Seq<int>> {
    states_coloured(nc, states.len()) + states_single(nc, states.len()) + borders_clauses(
        states,
        nc,
        adjacencies,
        adjacencies.len(),
    )
}

/// Every region that the list of borders names where a border is named from
/// is one of `states`.
pub open spec fn borders_known(states: Seq<String>, adjacencies: Seq<(String, Vec<String>)>) -> bool {
    forall|e: int, k: int|
        #![trigger adjacencies[e].1@[k]]
        0 <= e < adjacencies.len() && 0 <= k < adjacencies[e].1@.len() && lex_less(
            adjacencies[e].0@,
            adjacencies[e].1@[k]@,
        ) ==> index_of(states, adjacencies[e].0@) >= 0 && index_of(states, adjacencies[e].1@[k]@)
            >= 0
}

fn colour_group(s: usize, ns: usize, nc: usize) -> (g: Vec<isize>)
    requires
        s < ns,
        ns * nc <= isize::MAX,
    ensures
        clause_view(g@) == state_colours(s as int, nc as int),
        forall|i: int| 0 <= i < g@.len() ==> 1 <= #[trigger] g@[i],
{
    let mut g: Vec<isize> = Vec::new();
    let mut c: usize = 0;
    while c < nc
        invariant
            c <= nc,
            s < ns,
            ns * nc <= isize::MAX,
            g@.len() == c,
            forall|t: int| 0 <= t < c ==> #[trigger] g@[t] == colour_var(s as int, t, nc as int),
            forall|i: int| 0 <= i < g@.len() ==> 1 <= #[trigger] g@[i],
        decreases nc - c,
    {
        g.push(colour_variable(s, c, ns, nc));
        c += 1;
    }
    assert(clause_view(g@) =~= state_colours(s as int, nc as int));
    g
}

/// The formula of the map: its models are the ways to colour it.
///
/// `adjacencies` lists, for a region, the regions that border it. A region
/// that is named where a border is named from must be one of `states`.
pub fn generate_clauses(
    states: &[String],
    colors: &[String],
    adjacencies: &[(String, Vec<String>)],
) -> (clauses: Vec<Vec<isize>>)
    requires
        states@.len() * colors@.len() <= isize::MAX,
        borders_known(states@, adjacencies@),
    ensures
        formula_view(clauses@) == colouring_clauses(
            states@,
            colors@.len() as int,
            adjacencies@,
        ),
{
    let ns = states.len();
    let nc = colors.len();
    let ghost nci = nc as int;
    let mut clauses: Vec<Vec<isize>> = Vec::new();
    assert(formula_view(clauses@) =~= states_coloured(nci, 0));
    let mut s: usize = 0;
    while s < ns
        invariant
            s <= ns,
            nci == nc,
            ns * nc <= isize::MAX,
            formula_view(clauses@) =~= states_coloured(nci, s as nat),
        decreases ns - s,
    {
        push_clause(&mut clauses, colour_group(s, ns, nc));
        s += 1;
    }
    let ghost s1 = formula_view(clauses@);
    s = 0;
    while s < ns
        invariant
            s <= ns,
            nci == nc,
            ns * nc <= isize::MAX,
            formula_view(clauses@) =~= s1 + states_single(nci, s as nat),
        decreases ns - s,
    {
        let group = colour_group(s, ns, nc);
        push_pairwise_exclusions(&mut clauses, &group);
        s += 1;
    }
    let ghost s2 = formula_view(clauses@);
    let mut e: usize = 0;
    while e < adjacencies.len()
        invariant
            e <= adjacencies@.len(),
            nci == nc,
            ns == states@.len(),
            ns * nc <= isize::MAX,
            borders_known(states@, adjacencies@),
            formula_view(clauses@) =~= s2 + borders_clauses(states@, nci, adjacencies@, e as nat),
        decreases adjacencies@.len() - e,
    {
        let entry = &adjacencies[e];
        let ghost entry_start = formula_view(clauses@);
        let mut k: usize = 0;
        while k < entry.1.len()
            invariant
                k <= entry.1@.len(),
                e < adjacencies@.len(),
                *entry == adjacencies@[e as int],
                nci == nc,
                ns == states@.len(),
                ns * nc <= isize::MAX,
                borders_known(states@, adjacencies@),
                formula_view(clauses@) =~= entry_start + entry_clauses(
                    states@,
                    nci,
                    *entry,
                    k as nat,
                ),
            decreases entry.1@.len() - k,
        {
            let ghost neighbour_start = formula_view(clauses@);
            if str_less(&entry.0, &entry.1[k]) {
                proof {
                    assert(adjacencies@[e as int].1@[k as int] == entry.1@[k as int]);
                    lemma_index_of(states@, entry.0@);
                    lemma_index_of(states@, entry.1@[k as int]@);
                }
                let s1_idx = state_index(states, &entry.0).unwrap();
                let s2_idx = state_index(states, &entry.1[k]).unwrap();
                let mut c: usize = 0;
                while c < nc
                    invariant
                        c <= nc,
                        nci == nc,
                        s1_idx < ns,
                        s2_idx < ns,
                        ns * nc <= isize::MAX,
                        formula_view(clauses@) =~= neighbour_start + border_clauses(
                            s1_idx as int,
                            s2_idx as int,
                            nci,
                            c as nat,
                        ),
                    decreases nc - c,
                {
                    push_pair(
                        &mut clauses,
                        -colour_variable(s1_idx, c, ns, nc),
                        -colour_variable(s2_idx, c, ns, nc),
                    );
                    c += 1;
                }
            }
            assert(formula_view(clauses@) =~= neighbour_start + neighbour_clauses(
                states@,
                nci,
                *entry,
                k as int,
            ));
            k += 1;
        }
        e += 1;
    }
    clauses
}

/// Whether literal `l` asserts a colour for one of `ns` regions, where there
/// are `nc` colours.
pub open spec fn asserts_colour(l: int, ns: int, nc: int) -> bool {
    nc >= 1 && l >= 1 && (l - 1) / nc < ns
}

/// The pairs of a region and a colour that the literals of `m` assert, in
/// the order of `m`. Negative literals and variables beyond the regions are
/// passed over.
pub open spec fn asserted_colours(m: Seq<int>, states: Seq<String>, colors: Seq<String>) -> Seq<
    (String, String),
>
    decreases m.len(),
{
    if m.len() == 0 {
        Seq::empty()
    } else if asserts_colour(m.last(), states.len() as int, colors.len() as int) {
        asserted_colours(m.drop_last(), states, colors).push(
            (
                states[(m.last() - 1) / (colors.len() as int)],
                colors[(m.last() - 1) % (colors.len() as int)],
            ),
        )
    } else {
        asserted_colours(m.drop_last(), states, colors)
    }
}

/// The colouring that a model describes.
pub fn decode_solution(model: &[isize], states: &[String], colors: &[String]) -> (colouring:
    Colouring)
    ensures
        colouring.0@ == asserted_colours(clause_view(model@), states@, colors@),
{
    let ghost m = clause_view(model@);
    let mut pairs: Vec<(String, String)> = Vec::new();
    assert(m.take(0) =~= Seq::<int>::empty());
    let mut p: usize = 0;
    while p < model.len()
        invariant
            p <= model@.len(),
            m == clause_view(model@),
            pairs@ == asserted_colours(m.take(p as int), states@, colors@),
        decreases model@.len() - p,
    {
        let lit = model[p];
        proof {
            let upto = m.take(p + 1);
            assert(upto.drop_last() =~= m.take(p as int));
            assert(upto.last() == lit);
        }
        if colors.len() >= 1 && lit >= 1 && (lit as usize - 1) / colors.len() < states.len() {
            let (state, color) = var_to_state_color(lit as usize, states, colors);
            pairs.push((state.clone(), color.clone()));
        }
        p += 1;
    }
    assert(m.take(model@.len() as int) =~= m);
    Colouring(pairs)
}

/// Region `s` gets colour `c`.
pub open spec fn gets(truth: Set<int>, s: int, c: int, nc: int) -> bool {
    truth.contains(colour_var(s, c, nc))
}

/// Region `s` gets one of the `nc` colours.
pub open spec fn has_colour(truth: Set<int>, s: int, nc: int) -> bool {
    exists|c: int| 0 <= c < nc && #[trigger] gets(truth, s, c, nc)
}

/// Under every assignment that satisfies the formula of a map, each region
/// gets exactly one colour, and the two regions of a border that the list
/// names from its first region get different colours.
pub proof fn lemma_models_colour(
    truth: Set<int>,
    states: Seq<String>,
    nc: int,
    adjacencies: Seq<(String, Vec<String>)>,
)
    requires
        nc >= 0,
        borders_known(states, adjacencies),
        formula_holds(truth, colouring_clauses(states, nc, adjacencies)),
    ensures
        forall|s: int| 0 <= s < states.len() ==> #[trigger] has_colour(truth, s, nc),
        forall|s: int, c1: int, c2: int|
            0 <= s < states.len() && 0 <= c1 < c2 < nc ==> !(#[trigger] gets(truth, s, c1, nc)
                && #[trigger] gets(truth, s, c2, nc)),
        forall|e: int, k: int, c: int|
            #![trigger adjacencies[e].1@[k], gets(truth, index_of(states, adjacencies[e].0@), c, nc)]
            0 <= e < adjacencies.len() && 0 <= k < adjacencies[e].1@.len() && 0 <= c < nc
                && lex_less(adjacencies[e].0@, adjacencies[e].1@[k]@) ==> !(gets(
                truth,
                index_of(states, adjacencies[e].0@),
                c,
                nc,
            ) && gets(truth, index_of(states, adjacencies[e].1@[k]@), c, nc)),
{
    let ns = states.len();
    let f1 = states_coloured(nc, ns);
    let f2 = states_single(nc, ns);
    let f3 = borders_clauses(states, nc, adjacencies, adjacencies.len());
    lemma_holds_concat(truth, f1, f2);
    lemma_holds_concat(truth, f1 + f2, f3);
    assert forall|s: int| 0 <= s < ns implies #[trigger] has_colour(truth, s, nc) by {
        let vars = state_colours(s, nc);
        assert(f1[s] == vars);
        assert(clause_holds(truth, vars));
        let c = choose|c: int| 0 <= c < vars.len() && lit_holds(truth, #[trigger] vars[c]);
        lemma_colour_var(s, c, ns as int, nc);
        assert(gets(truth, s, c, nc));
    }
    let g2 = |s: int| pairwise_exclusions(state_colours(s, nc));
    lemma_holds_groups(truth, ns, g2);
    assert forall|s: int, c1: int, c2: int| 0 <= s < ns && 0 <= c1 < c2 < nc implies !(
    #[trigger] gets(truth, s, c1, nc) && #[trigger] gets(truth, s, c2, nc)) by {
        let vars = state_colours(s, nc);
        assert(formula_holds(truth, g2(s)));
        assert forall|i: int| 0 <= i < vars.len() implies vars[i] != 0 by {
            lemma_colour_var(s, i, ns as int, nc);
        }
        lemma_pairwise_exclusions(truth, vars);
        assert(at_most_one(truth, vars));
        lemma_colour_var(s, c1, ns as int, nc);
        lemma_colour_var(s, c2, ns as int, nc);
        assert(!(lit_holds(truth, vars[c1]) && lit_holds(truth, vars[c2])));
    }
    let g3 = |e: int| entry_clauses(states, nc, adjacencies[e], adjacencies[e].1@.len());
    lemma_holds_groups(truth, adjacencies.len(), g3);
    assert forall|e: int, k: int, c: int|
        #![trigger adjacencies[e].1@[k], gets(truth, index_of(states, adjacencies[e].0@), c, nc)]
        0 <= e < adjacencies.len() && 0 <= k < adjacencies[e].1@.len() && 0 <= c < nc && lex_less(
            adjacencies[e].0@,
            adjacencies[e].1@[k]@,
        ) implies !(gets(truth, index_of(states, adjacencies[e].0@), c, nc) && gets(
        truth,
        index_of(states, adjacencies[e].1@[k]@),
        c,
        nc,
    )) by {
        let entry = adjacencies[e];
        assert(formula_holds(truth, g3(e)));
        let g4 = |k: int| neighbour_clauses(states, nc, entry, k);
        lemma_holds_groups(truth, entry.1@.len(), g4);
        assert(formula_holds(truth, g4(k)));
        let s = index_of(states, entry.0@);
        let t = index_of(states, entry.1@[k]@);
        lemma_index_of(states, entry.0@);
        lemma_index_of(states, entry.1@[k]@);
        let border = border_clauses(s, t, nc, nc as nat);
        assert(clause_holds(truth, border[c]));
        lemma_colour_var(s, c, ns as int, nc);
        lemma_colour_var(t, c, ns as int, nc);
        lemma_holds_pair(truth, -colour_var(s, c, nc), -colour_var(t, c, nc));
        lemma_negation(truth, colour_var(s, c, nc));
        lemma_negation(truth, colour_var(t, c, nc));
    }
}


/// The list of borders names `b` among the neighbours of `a`.
pub open spec fn border_listed(
    adjacencies: Seq<(String, Vec<String>)>,
    a: Seq<char>,
    b: Seq<char>,
) -> bool {
    exists|e: int, k: int|
        0 <= e < adjacencies.len() && 0 <= k < adjacencies[e].1@.len() && adjacencies[e].0@ == a
            && (#[trigger] adjacencies[e].1@[k])@ == b
}

/// Every border is listed from both sides.
pub open spec fn symmetric_borders(adjacencies: Seq<(String, Vec<String>)>) -> bool {
    forall|a: Seq<char>, b: Seq<char>|
        #[trigger] border_listed(adjacencies, a, b) ==> border_listed(adjacencies, b, a)
}

/// Where every border is listed from both sides, every assignment that
/// satisfies the formula of the map gives different colours to the two
/// regions of every border that is listed.
pub proof fn lemma_borders_differ(
    truth: Set<int>,
    states: Seq<String>,
    nc: int,
    adjacencies: Seq<(String, Vec<String>)>,
    a: Seq<char>,
    b: Seq<char>,
    c: int,
)
    requires
        nc >= 0,
        borders_known(states, adjacencies),
        symmetric_borders(adjacencies),
        formula_holds(truth, colouring_clauses(states, nc, adjacencies)),
        border_listed(adjacencies, a, b),
        a != b,
        0 <= c < nc,
    ensures
        !(gets(truth, index_of(states, a), c, nc) && gets(truth, index_of(states, b), c, nc)),
{
    lemma_models_colour(truth, states, nc, adjacencies);
    lemma_lex_total(a, b);
    if lex_less(a, b) {
        let (e, k) = choose|e: int, k: int|
            0 <= e < adjacencies.len() && 0 <= k < adjacencies[e].1@.len() && adjacencies[e].0@
                == a && (#[trigger] adjacencies[e].1@[k])@ == b;
        assert(!(gets(truth, index_of(states, adjacencies[e].0@), c, nc) && gets(
            truth,
            index_of(states, adjacencies[e].1@[k]@),
            c,
            nc,
        )));
    } else {
        assert(border_listed(adjacencies, b, a));
        let (e, k) = choose|e: int, k: int|
            0 <= e < adjacencies.len() && 0 <= k < adjacencies[e].1@.len() && adjacencies[e].0@
                == b && (#[trigger] adjacencies[e].1@[k])@ == a;
        assert(!(gets(truth, index_of(states, adjacencies[e].0@), c, nc) && gets(
            truth,
            index_of(states, adjacencies[e].1@[k]@),
            c,
            nc,
        )));
    }
}

/// What the formula of a map asks of an assignment: a colour for every
/// region, no two colours for a region, and different colours on the two
/// sides of every border that the list names from its first region.
pub open spec fn proper_colouring(
    truth: Set<int>,
    states: Seq<String>,
    nc: int,
    adjacencies: Seq<(String, Vec<String>)>,
) -> bool {
    &&& forall|s: int| 0 <= s < states.len() ==> #[trigger] has_colour(truth, s, nc)
    &&& forall|s: int, c1: int, c2: int|
        0 <= s < states.len() && 0 <= c1 < c2 < nc ==> !(#[trigger] gets(truth, s, c1, nc)
            && #[trigger] gets(truth, s, c2, nc))
    &&& forall|e: int, k: int, c: int|
        #![trigger adjacencies[e].1@[k], gets(truth, index_of(states, adjacencies[e].0@), c, nc)]
        0 <= e < adjacencies.len() && 0 <= k < adjacencies[e].1@.len() && 0 <= c < nc && lex_less(
            adjacencies[e].0@,
            adjacencies[e].1@[k]@,
        ) ==> !(gets(truth, index_of(states, adjacencies[e].0@), c, nc) && gets(
            truth,
            index_of(states, adjacencies[e].1@[k]@),
            c,
            nc,
        ))
}

/// The models of the formula of a map are its proper colourings.
pub proof fn lemma_colouring_meaning(
    truth: Set<int>,
    states: Seq<String>,
    nc: int,
    adjacencies: Seq<(String, Vec<String>)>,
)
    requires
        nc >= 0,
        borders_known(states, adjacencies),
    ensures
        formula_holds(truth, colouring_clauses(states, nc, adjacencies)) <==> proper_colouring(
            truth,
            states,
            nc,
            adjacencies,
        ),
{
    if formula_holds(truth, colouring_clauses(states, nc, adjacencies)) {
        lemma_models_colour(truth, states, nc, adjacencies);
    }
    if proper_colouring(truth, states, nc, adjacencies) {
        let ns = states.len();
        let f1 = states_coloured(nc, ns);
        let f2 = states_single(nc, ns);
        let f3 = borders_clauses(states, nc, adjacencies, adjacencies.len());
        lemma_holds_concat(truth, f1, f2);
        lemma_holds_concat(truth, f1 + f2, f3);
        assert forall|s: int| 0 <= s < f1.len() implies clause_holds(truth, #[trigger] f1[s]) by {
            assert(has_colour(truth, s, nc));
            let c = choose|c: int| 0 <= c < nc && #[trigger] gets(truth, s, c, nc);
            lemma_colour_var(s, c, ns as int, nc);
            assert(lit_holds(truth, state_colours(s, nc)[c]));
        }
        let g2 = |s: int| pairwise_exclusions(state_colours(s, nc));
        lemma_holds_groups(truth, ns, g2);
        assert forall|s: int| 0 <= s < ns implies formula_holds(truth, #[trigger] g2(s)) by {
            let vars = state_colours(s, nc);
            assert forall|i: int| 0 <= i < vars.len() implies vars[i] != 0 by {
                lemma_colour_var(s, i, ns as int, nc);
            }
            assert forall|i: int, j: int| 0 <= i < j < vars.len() implies !(lit_holds(
                truth,
                #[trigger] vars[i],
            ) && lit_holds(truth, #[trigger] vars[j])) by {
                lemma_colour_var(s, i, ns as int, nc);
                lemma_colour_var(s, j, ns as int, nc);
                assert(!(gets(truth, s, i, nc) && gets(truth, s, j, nc)));
            }
            lemma_pairwise_exclusions(truth, vars);
        }
        let g3 = |e: int| entry_clauses(states, nc, adjacencies[e], adjacencies[e].1@.len());
        lemma_holds_groups(truth, adjacencies.len(), g3);
        assert forall|e: int| 0 <= e < adjacencies.len() implies formula_holds(
            truth,
            #[trigger] g3(e),
        ) by {
            let entry = adjacencies[e];
            let g4 = |k: int| neighbour_clauses(states, nc, entry, k);
            lemma_holds_groups(truth, entry.1@.len(), g4);
            assert forall|k: int| 0 <= k < entry.1@.len() implies formula_holds(
                truth,
                #[trigger] g4(k),
            ) by {
                if lex_less(entry.0@, entry.1@[k]@) {
                    let s = index_of(states, entry.0@);
                    let t = index_of(states, entry.1@[k]@);
                    assert(adjacencies[e].1@[k] == entry.1@[k]);
                    lemma_index_of(states, entry.0@);
                    lemma_index_of(states, entry.1@[k]@);
                    let border = border_clauses(s, t, nc, nc as nat);
                    assert forall|c: int| 0 <= c < border.len() implies clause_holds(
                        truth,
                        #[trigger] border[c],
                    ) by {
                        lemma_colour_var(s, c, ns as int, nc);
                        lemma_colour_var(t, c, ns as int, nc);
                        lemma_holds_pair(truth, -colour_var(s, c, nc), -colour_var(t, c, nc));
                        lemma_negation(truth, colour_var(s, c, nc));
                        lemma_negation(truth, colour_var(t, c, nc));
                        assert(!(gets(truth, index_of(states, adjacencies[e].0@), c, nc) && gets(
                            truth,
                            index_of(states, adjacencies[e].1@[k]@),
                            c,
                            nc,
                        )));
                    }
                }
            }
        }
    }
}

/// Every assignment that gives each region exactly one colour, and different
/// colours to the two regions of every border that is listed, satisfies the
/// formula of the map.
pub proof fn lemma_colourings_are_models(
    truth: Set<int>,
    states: Seq<String>,
    nc: int,
    adjacencies: Seq<(String, Vec<String>)>,
)
    requires
        nc >= 0,
        borders_known(states, adjacencies),
        forall|s: int| 0 <= s < states.len() ==> #[trigger] has_colour(truth, s, nc),
        forall|s: int, c1: int, c2: int|
            0 <= s < states.len() && 0 <= c1 < c2 < nc ==> !(#[trigger] gets(truth, s, c1, nc)
                && #[trigger] gets(truth, s, c2, nc)),
        forall|a: Seq<char>, b: Seq<char>, c: int|
            #![trigger border_listed(adjacencies, a, b), gets(truth, index_of(states, a), c, nc)]
            border_listed(adjacencies, a, b) && a != b && 0 <= c < nc ==> !(gets(
                truth,
                index_of(states, a),
                c,
                nc,
            ) && gets(truth, index_of(states, b), c, nc)),
    ensures
        formula_holds(truth, colouring_clauses(states, nc, adjacencies)),
{
    assert forall|e: int, k: int, c: int|
        #![trigger adjacencies[e].1@[k], gets(truth, index_of(states, adjacencies[e].0@), c, nc)]
        0 <= e < adjacencies.len() && 0 <= k < adjacencies[e].1@.len() && 0 <= c < nc && lex_less(
            adjacencies[e].0@,
            adjacencies[e].1@[k]@,
        ) implies !(gets(truth, index_of(states, adjacencies[e].0@), c, nc) && gets(
        truth,
        index_of(states, adjacencies[e].1@[k]@),
        c,
        nc,
    )) by {
        let a = adjacencies[e].0@;
        let b = adjacencies[e].1@[k]@;
        lemma_lex_irreflexive(a);
        assert(border_listed(adjacencies, a, b));
    }
    lemma_colouring_meaning(truth, states, nc, adjacencies);
}

/// The literals of `m` that assert a colour for one of `ns` regions, in the
/// order of `m`.
pub open spec fn asserting(m: Seq<int>, ns: int, nc: int) -> Seq<int>
    decreases m.len(),
{
    if m.len() == 0 {
        Seq::empty()
    } else if asserts_colour(m.last(), ns, nc) {
        asserting(m.drop_last(), ns, nc).push(m.last())
    } else {
        asserting(m.drop_last(), ns, nc)
    }
}

/// The asserting literals of a list are literals of the list, all of its
/// asserting literals, and as different as the literals of the list are. A
/// colouring holds their pairs, one for one.
pub proof fn lemma_asserting(m: Seq<int>, states: Seq<String>, colors: Seq<String>)
    ensures
        forall|p: int|
            0 <= p < asserting(m, states.len() as int, colors.len() as int).len()
                ==> asserts_colour(
                #[trigger] asserting(m, states.len() as int, colors.len() as int)[p],
                states.len() as int,
                colors.len() as int,
            ) && m.contains(asserting(m, states.len() as int, colors.len() as int)[p]),
        forall|q: int|
            0 <= q < m.len() && asserts_colour(
                #[trigger] m[q],
                states.len() as int,
                colors.len() as int,
            ) ==> asserting(m, states.len() as int, colors.len() as int).contains(m[q]),
        m.no_duplicates() ==> asserting(
            m,
            states.len() as int,
            colors.len() as int,
        ).no_duplicates(),
        asserted_colours(m, states, colors).len() == asserting(
            m,
            states.len() as int,
            colors.len() as int,
        ).len(),
        forall|p: int|
            0 <= p < asserted_colours(m, states, colors).len() ==> #[trigger] asserted_colours(
                m,
                states,
                colors,
            )[p] == (
                states[(asserting(m, states.len() as int, colors.len() as int)[p] - 1) / (
                colors.len() as int)],
                colors[(asserting(m, states.len() as int, colors.len() as int)[p] - 1) % (
                colors.len() as int)],
            ),
    decreases m.len(),
{
    let ns = states.len() as int;
    let nc = colors.len() as int;
    let all = asserting(m, ns, nc);
    let pairs = asserted_colours(m, states, colors);
    if m.len() > 0 {
        let before = m.drop_last();
        let l = m.last();
        let earlier = asserting(before, ns, nc);
        let fewer = asserted_colours(before, states, colors);
        lemma_asserting(before, states, colors);
        assert(m =~= before.push(l));
        assert forall|p: int| 0 <= p < all.len() implies asserts_colour(
            #[trigger] all[p],
            ns,
            nc,
        ) && m.contains(all[p]) by {
            if p < earlier.len() {
                assert(all[p] == earlier[p]);
                let q = choose|q: int| 0 <= q < before.len() && before[q] == earlier[p];
                assert(m[q] == all[p]);
            } else {
                assert(m[m.len() - 1] == all[p]);
            }
        }
        assert forall|q: int| 0 <= q < m.len() && asserts_colour(
            #[trigger] m[q],
            ns,
            nc,
        ) implies all.contains(m[q]) by {
            if q < before.len() {
                assert(before[q] == m[q]);
                let p = choose|p: int| 0 <= p < earlier.len() && earlier[p] == m[q];
                assert(all[p] == m[q]);
            } else {
                assert(all[all.len() - 1] == m[q]);
            }
        }
        if m.no_duplicates() {
            assert forall|i: int, j: int| 0 <= i < before.len() && 0 <= j < before.len() && i
                != j implies before[i] != before[j] by {
                assert(m[i] == before[i] && m[j] == before[j]);
            }
            assert forall|i: int, j: int| 0 <= i < all.len() && 0 <= j < all.len() && i
                != j implies all[i] != all[j] by {
                if i < earlier.len() && j < earlier.len() {
                    assert(all[i] == earlier[i] && all[j] == earlier[j]);
                } else if i < earlier.len() {
                    let q = choose|q: int| 0 <= q < before.len() && before[q] == earlier[i];
                    assert(m[q] != m[m.len() - 1]);
                } else if j < earlier.len() {
                    let q = choose|q: int| 0 <= q < before.len() && before[q] == earlier[j];
                    assert(m[q] != m[m.len() - 1]);
                }
            }
        }
        assert forall|p: int| 0 <= p < pairs.len() implies #[trigger] pairs[p] == (
            states[(all[p] - 1) / nc],
            colors[(all[p] - 1) % nc],
        ) by {
            if p < fewer.len() {
                assert(pairs[p] == fewer[p]);
                assert(all[p] == earlier[p]);
            }
        }
    } else {
        assert(all.len() == 0);
        assert(pairs.len() == 0);
    }
}

/// The region that the literal `l` speaks of.
pub open spec fn region_of(l: int, nc: int) -> int {
    (l - 1) / nc
}

/// One of the literals `list` speaks of the region `s`.
pub open spec fn speaks_of(list: Seq<int>, nc: int, s: int) -> bool {
    exists|p: int| 0 <= p < list.len() && #[trigger] region_of(list[p], nc) == s
}

/// In the colouring that a model of the formula of a map describes each
/// region occurs exactly once: the asserting literals of the model, whose
/// pairs the colouring holds, speak of every region, and no two of them of
/// the same.
pub proof fn lemma_one_colour_each(
    m: Seq<int>,
    states: Seq<String>,
    colors: Seq<String>,
    adjacencies: Seq<(String, Vec<String>)>,
)
    requires
        borders_known(states, adjacencies),
        m.no_duplicates(),
        is_model(m, colouring_clauses(states, colors.len() as int, adjacencies)),
    ensures
        forall|s: int|
            0 <= s < states.len() ==> #[trigger] speaks_of(
                asserting(m, states.len() as int, colors.len() as int),
                colors.len() as int,
                s,
            ),
        forall|earlier: int, later: int|
            0 <= earlier < later < asserting(m, states.len() as int, colors.len() as int).len()
                ==> #[trigger] region_of(
                asserting(m, states.len() as int, colors.len() as int)[earlier],
                colors.len() as int,
            ) != #[trigger] region_of(
                asserting(m, states.len() as int, colors.len() as int)[later],
                colors.len() as int,
            ),
{
    let ns = states.len() as int;
    let nc = colors.len() as int;
    let all = asserting(m, ns, nc);
    let truth = model_truth(m);
    lemma_model_truth(m, colouring_clauses(states, nc, adjacencies));
    lemma_models_colour(truth, states, nc, adjacencies);
    lemma_asserting(m, states, colors);
    assert forall|s: int| 0 <= s < ns implies #[trigger] speaks_of(all, nc, s) by {
        assert(has_colour(truth, s, nc));
        let c = choose|c: int| 0 <= c < nc && #[trigger] gets(truth, s, c, nc);
        let v = colour_var(s, c, nc);
        lemma_colour_var(s, c, ns, nc);
        assert(m.contains(v));
        let q = choose|q: int| 0 <= q < m.len() && m[q] == v;
        assert(asserts_colour(m[q], ns, nc));
        assert(all.contains(v));
        let p = choose|p: int| 0 <= p < all.len() && all[p] == v;
        assert(region_of(all[p], nc) == s);
    }
    assert forall|earlier: int, later: int| 0 <= earlier < later < all.len() implies #[trigger] region_of(
        all[earlier],
        nc,
    ) != #[trigger] region_of(all[later], nc) by {
        let l1 = all[earlier];
        let l2 = all[later];
        assert(asserts_colour(l1, ns, nc) && m.contains(l1));
        assert(asserts_colour(l2, ns, nc) && m.contains(l2));
        if region_of(l1, nc) == region_of(l2, nc) {
            let s = region_of(l1, nc);
            let c1 = (l1 - 1) % nc;
            let c2 = (l2 - 1) % nc;
            vstd::arithmetic::div_mod::lemma_fundamental_div_mod(l1 - 1, nc);
            vstd::arithmetic::div_mod::lemma_fundamental_div_mod(l2 - 1, nc);
            assert(nc * s == s * nc) by (nonlinear_arith);
            assert(0 <= s) by (nonlinear_arith)
                requires
                    s == (l1 - 1) / nc,
                    l1 - 1 >= 0,
                    nc >= 1,
            ;
            assert(l1 == colour_var(s, c1, nc));
            assert(l2 == colour_var(s, c2, nc));
            assert(gets(truth, s, c1, nc) && gets(truth, s, c2, nc));
            if c1 < c2 {
                assert(!(gets(truth, s, c1, nc) && gets(truth, s, c2, nc)));
            } else if c2 < c1 {
                assert(!(gets(truth, s, c2, nc) && gets(truth, s, c1, nc)));
            }
        }
    }
}

} // verus!
