//! Literals, clauses and formulas, and what it means to satisfy them.
//!
//! A literal is a nonzero signed integer: its magnitude names a variable
//! (counted from 1) and its sign says whether the variable is asserted or
//! denied. A clause is a disjunction of literals, a formula a conjunction of
//! clauses. An assignment is given by the set of variables it makes true.

use vstd::prelude::*;

verus! {

/// The largest variable number the solver behind the enumerator accepts.
pub const MAX_VARIABLE: isize = 0x1000_0000;

/// A clause read as a sequence of mathematical integers.
pub open spec fn clause_view(c: Seq<isize>) -> Seq<int> {
    Seq::new(c.len(), |i: int| c[i] as int)
}

/// A formula read as a sequence of integer sequences.
pub open spec fn formula_view(f: Seq<Vec<isize>>) -> Seq<Seq<int>> {
    Seq::new(f.len(), |j: int| clause_view(f[j]@))
}

/// The variable a literal speaks of.
pub open spec fn magnitude(l: int) -> nat {
    if l < 0 {
        (-l) as nat
    } else {
        l as nat
    }
}

/// Whether literal `l` is true when exactly the variables in `truth` are true.
/// The number 0 is no literal and is never true.
pub open spec fn lit_holds(truth: Set<int>, l: int) -> bool {
    if l > 0 {
        truth.contains(l)
    } else {
        l < 0 && !truth.contains(-l)
    }
}

/// A clause holds when one of its literals does.
pub open spec fn clause_holds(truth: Set<int>, c: Seq<int>) -> bool {
    exists|i: int| 0 <= i < c.len() && lit_holds(truth, #[trigger] c[i])
}

/// A formula holds when every clause does.
pub open spec fn formula_holds(truth: Set<int>, f: Seq<Seq<int>>) -> bool {
    forall|j: int| 0 <= j < f.len() ==> clause_holds(truth, #[trigger] f[j])
}

/// A formula that some assignment satisfies.
pub open spec fn satisfiable(f: Seq<Seq<int>>) -> bool {
    exists|truth: Set<int>| formula_holds(truth, f)
}

/// A list of literals that holds no literal together with its negation, and
/// not the number 0.
pub open spec fn consistent(m: Seq<int>) -> bool {
    forall|i: int, j: int| 0 <= i < m.len() && 0 <= j < m.len() ==> m[i] != -m[j]
}

/// Whether the list `m` holds a literal of clause `c`.
pub open spec fn touches(m: Seq<int>, c: Seq<int>) -> bool {
    exists|i: int| 0 <= i < c.len() && m.contains(#[trigger] c[i])
}

/// A model of `f` given as the list of the literals it makes true: a
/// consistent list that holds a literal of every clause.
pub open spec fn is_model(m: Seq<int>, f: Seq<Seq<int>>) -> bool {
    &&& consistent(m)
    &&& forall|j: int| 0 <= j < f.len() ==> touches(m, #[trigger] f[j])
}

/// The variables that a list of literals asserts.
pub open spec fn model_truth(m: Seq<int>) -> Set<int> {
    Set::new(|v: int| v > 0 && m.contains(v))
}

/// A model satisfies its formula, read as the assignment that makes true
/// exactly the variables it asserts.
pub proof fn lemma_model_truth(m: Seq<int>, f: Seq<Seq<int>>)
    requires
        is_model(m, f),
    ensures
        formula_holds(model_truth(m), f),
{
    let truth = model_truth(m);
    assert forall|j: int| 0 <= j < f.len() implies clause_holds(truth, #[trigger] f[j]) by {
        assert(touches(m, f[j]));
        let i = choose|i: int| 0 <= i < f[j].len() && m.contains(#[trigger] f[j][i]);
        let l = f[j][i];
        let p = choose|p: int| 0 <= p < m.len() && m[p] == l;
        if l < 0 {
            if m.contains(-l) {
                let q = choose|q: int| 0 <= q < m.len() && m[q] == -l;
                assert(m[p] == -m[q]);
            }
        } else {
            assert(m[p] != -m[p]);
        }
        assert(lit_holds(truth, l));
    }
}

/// The concatenation `group(0) + group(1) + ... + group(n - 1)`.
pub open spec fn concat_groups(n: nat, group: spec_fn(int) -> Seq<Seq<int>>) -> Seq<Seq<int>>
    decreases n,
{
    if n == 0 {
        Seq::empty()
    } else {
        concat_groups((n - 1) as nat, group) + group(n - 1)
    }
}

/// The clauses `[-vars[i], -vars[j]]` for all `i < j`, ordered by `i`, then `j`.
/// Together they say that at most one of `vars` is true.
pub open spec fn pairwise_exclusions(vars: Seq<int>) -> Seq<Seq<int>> {
    concat_groups(vars.len(), |i: int| exclusions_from(vars, i))
}

/// The clauses of `pairwise_exclusions` whose first literal denies `vars[i]`.
pub open spec fn exclusions_from(vars: Seq<int>, i: int) -> Seq<Seq<int>> {
    Seq::new((vars.len() - 1 - i) as nat, |d: int| seq![-vars[i], -vars[i + 1 + d]])
}

/// No two of `vars` are true together.
pub open spec fn at_most_one(truth: Set<int>, vars: Seq<int>) -> bool {
    forall|i: int, j: int|
        0 <= i < j < vars.len() ==> !(lit_holds(truth, #[trigger] vars[i]) && lit_holds(
            truth,
            #[trigger] vars[j],
        ))
}

/// A formula made of two parts holds exactly when both parts hold.
pub proof fn lemma_holds_concat(truth: Set<int>, a: Seq<Seq<int>>, b: Seq<Seq<int>>)
    ensures
        formula_holds(truth, a + b) <==> formula_holds(truth, a) && formula_holds(truth, b),
{
    if formula_holds(truth, a + b) {
        assert forall|j: int| 0 <= j < a.len() implies clause_holds(truth, #[trigger] a[j]) by {
            assert((a + b)[j] == a[j]);
        }
        assert forall|j: int| 0 <= j < b.len() implies clause_holds(truth, #[trigger] b[j]) by {
            assert((a + b)[a.len() + j] == b[j]);
        }
    }
    if formula_holds(truth, a) && formula_holds(truth, b) {
        assert forall|j: int| 0 <= j < (a + b).len() implies clause_holds(
            truth,
            #[trigger] (a + b)[j],
        ) by {
            if j < a.len() {
                assert((a + b)[j] == a[j]);
            } else {
                assert((a + b)[j] == b[j - a.len()]);
            }
        }
    }
}

/// A concatenation of groups holds exactly when every group holds.
pub proof fn lemma_holds_groups(truth: Set<int>, n: nat, group: spec_fn(int) -> Seq<Seq<int>>)
    ensures
        formula_holds(truth, concat_groups(n, group)) <==> forall|i: int|
            0 <= i < n ==> formula_holds(truth, #[trigger] group(i)),
    decreases n,
{
    if n > 0 {
        lemma_holds_groups(truth, (n - 1) as nat, group);
        lemma_holds_concat(truth, concat_groups((n - 1) as nat, group), group(n - 1));
    }
}

/// A negated literal holds exactly when the literal does not.
pub proof fn lemma_negation(truth: Set<int>, l: int)
    requires
        l != 0,
    ensures
        lit_holds(truth, -l) <==> !lit_holds(truth, l),
{
}

/// A clause given by its literals holds exactly when one of them holds.
pub proof fn lemma_holds_unit(truth: Set<int>, a: int)
    ensures
        clause_holds(truth, seq![a]) <==> lit_holds(truth, a),
{
    let c = seq![a];
    assert(c[0] == a);
}

/// See `lemma_holds_unit`.
pub proof fn lemma_holds_pair(truth: Set<int>, a: int, b: int)
    ensures
        clause_holds(truth, seq![a, b]) <==> lit_holds(truth, a) || lit_holds(truth, b),
{
    let c = seq![a, b];
    assert(c[0] == a && c[1] == b);
}

/// See `lemma_holds_unit`.
pub proof fn lemma_holds_triple(truth: Set<int>, a: int, b: int, c: int)
    ensures
        clause_holds(truth, seq![a, b, c]) <==> lit_holds(truth, a) || lit_holds(truth, b)
            || lit_holds(truth, c),
{
    let s = seq![a, b, c];
    assert(s[0] == a && s[1] == b && s[2] == c);
}

/// A formula of one clause holds exactly when the clause holds.
pub proof fn lemma_holds_one(truth: Set<int>, c: Seq<int>)
    ensures
        formula_holds(truth, seq![c]) <==> clause_holds(truth, c),
{
    let f = seq![c];
    assert(f[0] == c);
}

/// A formula given by its clauses holds exactly when each of them holds.
pub proof fn lemma_holds_two(truth: Set<int>, c0: Seq<int>, c1: Seq<int>)
    ensures
        formula_holds(truth, seq![c0, c1]) <==> clause_holds(truth, c0) && clause_holds(truth, c1),
{
    let f = seq![c0, c1];
    assert(f[0] == c0 && f[1] == c1);
}

/// See `lemma_holds_two`.
pub proof fn lemma_holds_three(truth: Set<int>, c0: Seq<int>, c1: Seq<int>, c2: Seq<int>)
    ensures
        formula_holds(truth, seq![c0, c1, c2]) <==> clause_holds(truth, c0) && clause_holds(
            truth,
            c1,
        ) && clause_holds(truth, c2),
{
    let f = seq![c0, c1, c2];
    assert(f[0] == c0 && f[1] == c1 && f[2] == c2);
}

/// See `lemma_holds_two`.
pub proof fn lemma_holds_four(
    truth: Set<int>,
    c0: Seq<int>,
    c1: Seq<int>,
    c2: Seq<int>,
    c3: Seq<int>,
)
    ensures
        formula_holds(truth, seq![c0, c1, c2, c3]) <==> clause_holds(truth, c0) && clause_holds(
            truth,
            c1,
        ) && clause_holds(truth, c2) && clause_holds(truth, c3),
{
    let f = seq![c0, c1, c2, c3];
    assert(f[0] == c0 && f[1] == c1 && f[2] == c2 && f[3] == c3);
}

/// The empty clause never holds.
pub proof fn lemma_empty_clause(truth: Set<int>)
    ensures
        !clause_holds(truth, Seq::<int>::empty()),
{
}

/// The pairwise exclusions over nonzero literals hold exactly when at most
/// one of the literals is true.
pub proof fn lemma_pairwise_exclusions(truth: Set<int>, vars: Seq<int>)
    requires
        forall|i: int| 0 <= i < vars.len() ==> vars[i] != 0,
    ensures
        formula_holds(truth, pairwise_exclusions(vars)) <==> at_most_one(truth, vars),
{
    let group = |i: int| exclusions_from(vars, i);
    lemma_holds_groups(truth, vars.len(), group);
    if formula_holds(truth, pairwise_exclusions(vars)) {
        assert forall|i: int, j: int| 0 <= i < j < vars.len() implies !(lit_holds(
            truth,
            #[trigger] vars[i],
        ) && lit_holds(truth, #[trigger] vars[j])) by {
            assert(formula_holds(truth, group(i)));
            let c = exclusions_from(vars, i)[j - i - 1];
            assert(clause_holds(truth, c));
            assert(c == seq![-vars[i], -vars[j]]);
            lemma_holds_pair(truth, -vars[i], -vars[j]);
            lemma_negation(truth, vars[i]);
            lemma_negation(truth, vars[j]);
        }
    }
    if at_most_one(truth, vars) {
        assert forall|i: int| 0 <= i < vars.len() implies formula_holds(
            truth,
            #[trigger] group(i),
        ) by {
            assert forall|d: int| 0 <= d < group(i).len() implies clause_holds(
                truth,
                #[trigger] group(i)[d],
            ) by {
                let j = i + 1 + d;
                assert(group(i)[d] == seq![-vars[i], -vars[j]]);
                lemma_holds_pair(truth, -vars[i], -vars[j]);
                lemma_negation(truth, vars[i]);
                lemma_negation(truth, vars[j]);
            }
        }
    }
}

/// Appending a clause to a formula appends its view to the formula's view.
pub proof fn lemma_view_push(f: Seq<Vec<isize>>, c: Vec<isize>)
    ensures
        formula_view(f.push(c)) == formula_view(f).push(clause_view(c@)),
{
    assert(formula_view(f.push(c)) =~= formula_view(f).push(clause_view(c@)));
}

/// Appends `clause` to the formula.
pub fn push_clause(clauses: &mut Vec<Vec<isize>>, clause: Vec<isize>)
    ensures
        final(clauses)@ == old(clauses)@.push(clause),
        formula_view(final(clauses)@) == formula_view(old(clauses)@).push(clause_view(clause@)),
{
    proof {
        lemma_view_push(clauses@, clause);
    }
    clauses.push(clause);
}

/// Appends the clause `[a]`.
pub fn push_unit(clauses: &mut Vec<Vec<isize>>, a: isize)
    ensures
        formula_view(final(clauses)@) == formula_view(old(clauses)@).push(seq![a as int]),
{
    let clause: Vec<isize> = vec![a];
    assert(clause_view(clause@) =~= seq![a as int]);
    push_clause(clauses, clause);
}

/// Appends the clause `[a, b]`.
pub fn push_pair(clauses: &mut Vec<Vec<isize>>, a: isize, b: isize)
    ensures
        formula_view(final(clauses)@) == formula_view(old(clauses)@).push(
            seq![a as int, b as int],
        ),
{
    let clause: Vec<isize> = vec![a, b];
    assert(clause_view(clause@) =~= seq![a as int, b as int]);
    push_clause(clauses, clause);
}

/// Appends the clause `[a, b, c]`.
pub fn push_triple(clauses: &mut Vec<Vec<isize>>, a: isize, b: isize, c: isize)
    ensures
        formula_view(final(clauses)@) == formula_view(old(clauses)@).push(
            seq![a as int, b as int, c as int],
        ),
{
    let clause: Vec<isize> = vec![a, b, c];
    assert(clause_view(clause@) =~= seq![a as int, b as int, c as int]);
    push_clause(clauses, clause);
}

/// Appends `[-vars[i], -vars[j]]` for all `i < j`.
pub fn push_pairwise_exclusions(clauses: &mut Vec<Vec<isize>>, vars: &Vec<isize>)
    requires
        forall|i: int| 0 <= i < vars@.len() ==> -isize::MAX <= #[trigger] vars@[i],
    ensures
        formula_view(final(clauses)@) == formula_view(old(clauses)@) + pairwise_exclusions(
            clause_view(vars@),
        ),
{
    let ghost x = clause_view(vars@);
    let ghost start = formula_view(clauses@);
    let n = vars.len();
    let mut i: usize = 0;
    while i < n
        invariant
            i <= n,
            n == vars@.len(),
            x == clause_view(vars@),
            forall|i: int| 0 <= i < vars@.len() ==> -isize::MAX <= #[trigger] vars@[i],
            formula_view(clauses@) =~= start + pairwise_prefix(x, i as nat),
        decreases n - i,
    {
        let ghost outer = formula_view(clauses@);
        let mut j: usize = i + 1;
        while j < n
            invariant
                i < j <= n,
                n == vars@.len(),
                x == clause_view(vars@),
                forall|i: int| 0 <= i < vars@.len() ==> -isize::MAX <= #[trigger] vars@[i],
                formula_view(clauses@) =~= outer + exclusions_from(x, i as int).take(
                    j - i - 1,
                ),
            decreases n - j,
        {
            push_pair(clauses, -vars[i], -vars[j]);
            j += 1;
        }
        assert(exclusions_from(x, i as int).take(n - i - 1)
            =~= exclusions_from(x, i as int));
        i += 1;
    }
}

/// The exclusions whose first literal is one of the first `upto` of `vars`.
pub open spec fn pairwise_prefix(vars: Seq<int>, upto: nat) -> Seq<Seq<int>> {
    concat_groups(upto, |i: int| exclusions_from(vars, i))
}

/// The absolute value of a literal.
pub fn literal_magnitude(l: isize) -> (r: usize)
    ensures
        r == magnitude(l as int),
{
    if l >= 0 {
        l as usize
    } else {
        (-(l + 1)) as usize + 1
    }
}

/// The largest magnitude among the literals of a clause, and 0 for the empty
/// clause.
pub open spec fn clause_max(c: Seq<int>) -> nat
    decreases c.len(),
{
    if c.len() == 0 {
        0
    } else if clause_max(c.drop_last()) >= magnitude(c.last()) {
        clause_max(c.drop_last())
    } else {
        magnitude(c.last())
    }
}

/// The number of variables of a formula: the largest magnitude among its
/// literals, and 0 for a formula without literals.
pub open spec fn variable_count(f: Seq<Seq<int>>) -> nat
    decreases f.len(),
{
    if f.len() == 0 {
        0
    } else if variable_count(f.drop_last()) >= clause_max(f.last()) {
        variable_count(f.drop_last())
    } else {
        clause_max(f.last())
    }
}

/// No literal of a clause is larger than `clause_max`, and one is as large
/// unless that is 0.
pub proof fn lemma_clause_max(c: Seq<int>)
    ensures
        forall|i: int| 0 <= i < c.len() ==> magnitude(#[trigger] c[i]) <= clause_max(c),
        clause_max(c) == 0 || exists|i: int|
            0 <= i < c.len() && magnitude(#[trigger] c[i]) == clause_max(c),
    decreases c.len(),
{
    if c.len() > 0 {
        let before = c.drop_last();
        lemma_clause_max(before);
        assert forall|i: int| 0 <= i < c.len() implies magnitude(#[trigger] c[i]) <= clause_max(
            c,
        ) by {
            if i < before.len() {
                assert(c[i] == before[i]);
            }
        }
        if clause_max(c) != 0 {
            if clause_max(before) >= magnitude(c.last()) {
                let i = choose|i: int|
                    0 <= i < before.len() && magnitude(#[trigger] before[i]) == clause_max(before);
                assert(c[i] == before[i]);
            } else {
                assert(magnitude(c[c.len() - 1]) == clause_max(c));
            }
        }
    }
}

/// No literal of a formula is larger than `variable_count`, and one is as
/// large unless that is 0.
pub proof fn lemma_variable_count(f: Seq<Seq<int>>)
    ensures
        forall|j: int, i: int|
            0 <= j < f.len() && 0 <= i < f[j].len() ==> magnitude(#[trigger] f[j][i])
                <= variable_count(f),
        variable_count(f) == 0 || exists|j: int, i: int|
            0 <= j < f.len() && 0 <= i < f[j].len() && magnitude(#[trigger] f[j][i])
                == variable_count(f),
    decreases f.len(),
{
    if f.len() > 0 {
        let before = f.drop_last();
        lemma_variable_count(before);
        lemma_clause_max(f.last());
        assert forall|j: int, i: int| 0 <= j < f.len() && 0 <= i < f[j].len() implies magnitude(
            #[trigger] f[j][i],
        ) <= variable_count(f) by {
            if j < before.len() {
                assert(f[j] == before[j]);
            }
        }
        if variable_count(f) != 0 {
            if variable_count(before) >= clause_max(f.last()) {
                let (j, i) = choose|j: int, i: int|
                    0 <= j < before.len() && 0 <= i < before[j].len() && magnitude(
                        #[trigger] before[j][i],
                    ) == variable_count(before);
                assert(f[j] == before[j]);
            } else {
                let i = choose|i: int|
                    0 <= i < f.last().len() && magnitude(#[trigger] f.last()[i]) == clause_max(
                        f.last(),
                    );
                assert(magnitude(f[f.len() - 1][i]) == variable_count(f));
            }
        }
    }
}

/// The number of variables of a formula: the largest magnitude among its
/// literals, and 0 for a formula without literals.
pub fn num_vars(clauses: &[Vec<isize>]) -> (r: usize)
    ensures
        r == variable_count(formula_view(clauses@)),
{
    let ghost f = formula_view(clauses@);
    let mut best: usize = 0;
    let mut j: usize = 0;
    assert(f.take(0) =~= Seq::<Seq<int>>::empty());
    while j < clauses.len()
        invariant
            j <= clauses@.len(),
            f == formula_view(clauses@),
            best == variable_count(f.take(j as int)),
        decreases clauses@.len() - j,
    {
        let clause = &clauses[j];
        let ghost c = clause_view(clause@);
        let mut top: usize = 0;
        let mut i: usize = 0;
        assert(c.take(0) =~= Seq::<int>::empty());
        while i < clause.len()
            invariant
                i <= clause@.len(),
                c == clause_view(clause@),
                top == clause_max(c.take(i as int)),
            decreases clause@.len() - i,
        {
            proof {
                let upto = c.take(i + 1);
                assert(upto.drop_last() =~= c.take(i as int));
                assert(upto.last() == clause@[i as int]);
            }
            let m = literal_magnitude(clause[i]);
            if m > top {
                top = m;
            }
            i += 1;
        }
        proof {
            assert(c.take(clause@.len() as int) =~= c);
            let upto = f.take(j + 1);
            assert(upto.drop_last() =~= f.take(j as int));
            assert(upto.last() == c);
        }
        if top > best {
            best = top;
        }
        j += 1;
    }
    assert(f.take(clauses@.len() as int) =~= f);
    best
}

/// The number of ways to choose the variables `next, ..., last`, the others
/// being as `truth` has them, so that the formula holds.
pub open spec fn count_models(f: Seq<Seq<int>>, truth: Set<int>, next: int, last: int) -> nat
    decreases last + 1 - next,
{
    if next > last {
        if formula_holds(truth, f) {
            1
        } else {
            0
        }
    } else {
        count_models(f, truth.remove(next), next + 1, last) + count_models(
            f,
            truth.insert(next),
            next + 1,
            last,
        )
    }
}

/// Two assignments that make the same variables true satisfy the same
/// formulas.
pub proof fn lemma_holds_agree(t1: Set<int>, t2: Set<int>, f: Seq<Seq<int>>)
    requires
        forall|v: int| v > 0 ==> (t1.contains(v) <==> t2.contains(v)),
    ensures
        formula_holds(t1, f) == formula_holds(t2, f),
{
    assert forall|j: int| 0 <= j < f.len() implies (clause_holds(t1, #[trigger] f[j])
        <==> clause_holds(t2, f[j])) by {
        let c = f[j];
        assert forall|i: int| 0 <= i < c.len() implies lit_holds(t1, #[trigger] c[i])
            == lit_holds(t2, c[i]) by {}
        if clause_holds(t1, c) {
            let i = choose|i: int| 0 <= i < c.len() && lit_holds(t1, #[trigger] c[i]);
            assert(lit_holds(t2, c[i]));
        }
        if clause_holds(t2, c) {
            let i = choose|i: int| 0 <= i < c.len() && lit_holds(t2, #[trigger] c[i]);
            assert(lit_holds(t1, c[i]));
        }
    }
}

/// The list `m` holds the variable `u`, asserted or denied.
pub open spec fn names(m: Seq<int>, u: int) -> bool {
    m.contains(u) || m.contains(-u)
}

/// The list `m` holds a literal for each of the variables `1, ..., v`, and
/// for no other.
pub open spec fn names_all(m: Seq<int>, v: nat) -> bool {
    &&& forall|i: int| 0 <= i < m.len() ==> 1 <= magnitude(#[trigger] m[i]) <= v
    &&& forall|u: int| 1 <= u <= v ==> #[trigger] names(m, u)
}

/// The assignments `t1` and `t2` choose alike every variable that is not one
/// of `next, ..., last`.
pub open spec fn agrees_outside(t1: Set<int>, t2: Set<int>, next: int, last: int) -> bool {
    forall|u: int| 0 < u && (u < next || u > last) ==> (t1.contains(u) <==> t2.contains(u))
}

/// The assignments `t1` and `t2` choose alike the variables `1, ..., last`.
pub open spec fn agrees_upto(t1: Set<int>, t2: Set<int>, last: int) -> bool {
    forall|u: int| 1 <= u <= last ==> (t1.contains(u) <==> t2.contains(u))
}

/// The clause `c` holds under every assignment but those that choose the
/// variables `1, ..., last` as `lost` does.
pub open spec fn breaks_only(c: Seq<int>, lost: Set<int>, last: int) -> bool {
    forall|t: Set<int>| #[trigger] clause_holds(t, c) || agrees_upto(t, lost, last)
}

/// A clause that holds whatever is chosen takes no model away.
pub proof fn lemma_count_same(f: Seq<Seq<int>>, c: Seq<int>, truth: Set<int>, next: int, last: int)
    requires
        forall|t: Set<int>| #[trigger] agrees_outside(t, truth, next, last) ==> clause_holds(t, c),
    ensures
        count_models(f.push(c), truth, next, last) == count_models(f, truth, next, last),
    decreases last + 1 - next,
{
    if next > last {
        assert(agrees_outside(truth, truth, next, last));
        assert(f.push(c) =~= f + seq![c]);
        lemma_holds_concat(truth, f, seq![c]);
        lemma_holds_one(truth, c);
    } else {
        let without = truth.remove(next);
        let with = truth.insert(next);
        assert forall|t: Set<int>| #[trigger]
            agrees_outside(t, without, next + 1, last) implies clause_holds(t, c) by {
            assert(agrees_outside(t, truth, next, last));
        }
        assert forall|t: Set<int>| #[trigger]
            agrees_outside(t, with, next + 1, last) implies clause_holds(t, c) by {
            assert(agrees_outside(t, truth, next, last));
        }
        lemma_count_same(f, c, without, next + 1, last);
        lemma_count_same(f, c, with, next + 1, last);
    }
}

/// A clause that breaks one model and no other takes exactly one model
/// away.
pub proof fn lemma_count_drops_one(
    f: Seq<Seq<int>>,
    c: Seq<int>,
    truth: Set<int>,
    next: int,
    last: int,
    lost: Set<int>,
)
    requires
        1 <= next,
        formula_holds(lost, f),
        !clause_holds(lost, c),
        agrees_outside(lost, truth, next, last),
        breaks_only(c, lost, last),
    ensures
        count_models(f.push(c), truth, next, last) + 1 == count_models(f, truth, next, last),
    decreases last + 1 - next,
{
    if next > last {
        assert(f.push(c) =~= f + seq![c]);
        lemma_holds_concat(truth, f, seq![c]);
        lemma_holds_one(truth, c);
        lemma_holds_agree(lost, truth, f);
        lemma_holds_agree(lost, truth, seq![c]);
        lemma_holds_one(lost, c);
    } else {
        let without = truth.remove(next);
        let with = truth.insert(next);
        if lost.contains(next) {
            lemma_count_drops_one(f, c, with, next + 1, last, lost);
            assert forall|t: Set<int>| #[trigger]
                agrees_outside(t, without, next + 1, last) implies clause_holds(t, c) by {
                if !clause_holds(t, c) {
                    assert(agrees_upto(t, lost, last));
                    assert(t.contains(next) <==> without.contains(next));
                }
            }
            lemma_count_same(f, c, without, next + 1, last);
        } else {
            lemma_count_drops_one(f, c, without, next + 1, last, lost);
            assert forall|t: Set<int>| #[trigger]
                agrees_outside(t, with, next + 1, last) implies clause_holds(t, c) by {
                if !clause_holds(t, c) {
                    assert(agrees_upto(t, lost, last));
                    assert(t.contains(next) <==> with.contains(next));
                }
            }
            lemma_count_same(f, c, with, next + 1, last);
        }
    }
}

/// A formula that no assignment satisfies has no model to count.
pub proof fn lemma_count_none(f: Seq<Seq<int>>, truth: Set<int>, next: int, last: int)
    requires
        !satisfiable(f),
    ensures
        count_models(f, truth, next, last) == 0,
    decreases last + 1 - next,
{
    if next > last {
        assert(!formula_holds(truth, f));
    } else {
        lemma_count_none(f, truth.remove(next), next + 1, last);
        lemma_count_none(f, truth.insert(next), next + 1, last);
    }
}

/// The list `m` holds one literal for each of the variables `1, ..., v`, in
/// their order, and nothing else.
pub open spec fn one_for_each(m: Seq<int>, v: nat) -> bool {
    &&& m.len() == v
    &&& forall|i: int| 0 <= i < m.len() ==> magnitude(#[trigger] m[i]) == i + 1
}

/// A list with one literal for each variable names them all, holds no
/// literal twice and none with its negation.
pub proof fn lemma_one_for_each(m: Seq<int>, v: nat)
    requires
        one_for_each(m, v),
    ensures
        names_all(m, v),
        consistent(m),
        m.no_duplicates(),
{
    assert forall|u: int| 1 <= u <= v implies #[trigger] names(m, u) by {
        let l = m[u - 1];
        assert(magnitude(l) == u);
        if l > 0 {
            assert(m[u - 1] == u);
        } else {
            assert(m[u - 1] == -u);
        }
    }
    assert forall|i: int, j: int| 0 <= i < m.len() && 0 <= j < m.len() implies m[i] != -m[j] by {
        assert(magnitude(m[i]) == i + 1);
        assert(magnitude(m[j]) == j + 1);
    }
    assert forall|i: int, j: int| 0 <= i < m.len() && 0 <= j < m.len() && i != j implies m[i]
        != m[j] by {
        assert(magnitude(m[i]) == i + 1);
        assert(magnitude(m[j]) == j + 1);
    }
}

/// Every literal of the formula names one of the variables `1, ..., hi`.
pub open spec fn literals_within(f: Seq<Seq<int>>, hi: int) -> bool {
    forall|j: int, i: int|
        0 <= j < f.len() && 0 <= i < f[j].len() ==> 1 <= magnitude(#[trigger] f[j][i]) <= hi
}

/// What holds of every clause of every group holds of every clause of their
/// concatenation.
pub proof fn lemma_groups_all(
    n: nat,
    group: spec_fn(int) -> Seq<Seq<int>>,
    holds: spec_fn(Seq<int>) -> bool,
)
    requires
        forall|i: int, j: int| 0 <= i < n && 0 <= j < group(i).len() ==> holds(#[trigger] group(i)[j]),
    ensures
        forall|j: int|
            0 <= j < concat_groups(n, group).len() ==> holds(#[trigger] concat_groups(n, group)[j]),
    decreases n,
{
    if n > 0 {
        let before = concat_groups((n - 1) as nat, group);
        lemma_groups_all((n - 1) as nat, group, holds);
        let all = concat_groups(n, group);
        assert forall|j: int| 0 <= j < all.len() implies holds(#[trigger] all[j]) by {
            if j < before.len() {
                assert(all[j] == before[j]);
            } else {
                assert(all[j] == group(n - 1)[j - before.len()]);
            }
        }
    }
}

/// Every clause of a group is a clause of the concatenation.
pub proof fn lemma_groups_contain(n: nat, group: spec_fn(int) -> Seq<Seq<int>>, i: int, j: int)
    requires
        0 <= i < n,
        0 <= j < group(i).len(),
    ensures
        concat_groups(n, group).contains(group(i)[j]),
    decreases n,
{
    let before = concat_groups((n - 1) as nat, group);
    let all = concat_groups(n, group);
    if i == n - 1 {
        assert(all[before.len() + j] == group(i)[j]);
    } else {
        lemma_groups_contain((n - 1) as nat, group, i, j);
        let p = choose|p: int| 0 <= p < before.len() && before[p] == group(i)[j];
        assert(all[p] == group(i)[j]);
    }
}

/// The literals of two parts lie within a bound where those of each do.
pub proof fn lemma_within_concat(a: Seq<Seq<int>>, b: Seq<Seq<int>>, hi: int)
    requires
        literals_within(a, hi),
        literals_within(b, hi),
    ensures
        literals_within(a + b, hi),
{
    let f = a + b;
    assert forall|j: int, i: int| 0 <= j < f.len() && 0 <= i < f[j].len() implies 1 <= magnitude(
        #[trigger] f[j][i],
    ) <= hi by {
        if j < a.len() {
            assert(f[j] == a[j]);
        } else {
            assert(f[j] == b[j - a.len()]);
        }
    }
}

/// The literals of a concatenation of groups lie within a bound where those
/// of each group do.
pub proof fn lemma_within_groups(n: nat, group: spec_fn(int) -> Seq<Seq<int>>, hi: int)
    requires
        forall|i: int| 0 <= i < n ==> literals_within(#[trigger] group(i), hi),
    ensures
        literals_within(concat_groups(n, group), hi),
    decreases n,
{
    if n > 0 {
        lemma_within_groups((n - 1) as nat, group, hi);
        lemma_within_concat(concat_groups((n - 1) as nat, group), group(n - 1), hi);
    }
}

/// The pairwise exclusions name the variables that they are made of.
pub proof fn lemma_within_pairwise(vars: Seq<int>, hi: int)
    requires
        forall|i: int| 0 <= i < vars.len() ==> 1 <= magnitude(#[trigger] vars[i]) <= hi,
    ensures
        literals_within(pairwise_exclusions(vars), hi),
{
    let group = |i: int| exclusions_from(vars, i);
    assert forall|i: int| 0 <= i < vars.len() implies literals_within(#[trigger] group(i), hi) by {
        let g = group(i);
        assert forall|j: int, t: int| 0 <= j < g.len() && 0 <= t < g[j].len() implies 1
            <= magnitude(#[trigger] g[j][t]) <= hi by {
            assert(g[j] == seq![-vars[i], -vars[i + 1 + j]]);
            assert(magnitude(vars[i]) <= hi);
            assert(magnitude(vars[i + 1 + j]) <= hi);
        }
    }
    lemma_within_groups(vars.len(), group, hi);
}

/// Two assignments that choose the variables of a formula alike satisfy it
/// alike.
pub proof fn lemma_holds_within(t1: Set<int>, t2: Set<int>, f: Seq<Seq<int>>, hi: int)
    requires
        literals_within(f, hi),
        agrees_upto(t1, t2, hi),
    ensures
        formula_holds(t1, f) == formula_holds(t2, f),
{
    assert forall|j: int| 0 <= j < f.len() implies (clause_holds(t1, #[trigger] f[j])
        <==> clause_holds(t2, f[j])) by {
        let c = f[j];
        assert forall|i: int| 0 <= i < c.len() implies lit_holds(t1, #[trigger] c[i])
            == lit_holds(t2, c[i]) by {
            assert(1 <= magnitude(f[j][i]) <= hi);
        }
        if clause_holds(t1, c) {
            let i = choose|i: int| 0 <= i < c.len() && lit_holds(t1, #[trigger] c[i]);
            assert(lit_holds(t2, c[i]));
        }
        if clause_holds(t2, c) {
            let i = choose|i: int| 0 <= i < c.len() && lit_holds(t2, #[trigger] c[i]);
            assert(lit_holds(t1, c[i]));
        }
    }
}

/// The number of clauses of one literal.
pub open spec fn unit_count(f: Seq<Seq<int>>) -> nat
    decreases f.len(),
{
    if f.len() == 0 {
        0
    } else {
        unit_count(f.drop_last()) + if f.last().len() == 1 {
            1nat
        } else {
            0nat
        }
    }
}

/// The unit clauses of two parts are those of the one and those of the
/// other.
pub proof fn lemma_unit_count_concat(a: Seq<Seq<int>>, b: Seq<Seq<int>>)
    ensures
        unit_count(a + b) == unit_count(a) + unit_count(b),
    decreases b.len(),
{
    if b.len() == 0 {
        assert(a + b =~= a);
    } else {
        lemma_unit_count_concat(a, b.drop_last());
        assert((a + b).drop_last() =~= a + b.drop_last());
        assert((a + b).last() == b.last());
    }
}

/// A formula without a clause of one literal has no unit clause to count.
pub proof fn lemma_unit_count_none(f: Seq<Seq<int>>)
    requires
        forall|j: int| 0 <= j < f.len() ==> (#[trigger] f[j]).len() != 1,
    ensures
        unit_count(f) == 0,
    decreases f.len(),
{
    if f.len() > 0 {
        let before = f.drop_last();
        assert forall|j: int| 0 <= j < before.len() implies (#[trigger] before[j]).len() != 1 by {
            assert(before[j] == f[j]);
        }
        lemma_unit_count_none(before);
        assert(f[f.len() - 1].len() != 1);
    }
}

/// Each pairwise exclusion has two literals.
pub proof fn lemma_pairwise_pairs(vars: Seq<int>)
    ensures
        forall|j: int|
            0 <= j < pairwise_exclusions(vars).len() ==> (#[trigger] pairwise_exclusions(
                vars,
            )[j]).len() == 2,
{
    let group = |i: int| exclusions_from(vars, i);
    let two = |c: Seq<int>| c.len() == 2;
    assert forall|i: int, j: int| 0 <= i < vars.len() && 0 <= j < group(i).len() implies two(
        #[trigger] group(i)[j],
    ) by {
        assert(group(i)[j] == seq![-vars[i], -vars[i + 1 + j]]);
    }
    lemma_groups_all(vars.len(), group, two);
    assert forall|j: int| 0 <= j < pairwise_exclusions(vars).len() implies (
    #[trigger] pairwise_exclusions(vars)[j]).len() == 2 by {
        assert(two(concat_groups(vars.len(), group)[j]));
    }
}

} // verus!
