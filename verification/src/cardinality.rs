//! Clauses that say "exactly `k` of these literals are true".
//!
//! Two encodings of the same constraint: one lists subsets of the literals and
//! needs no further variables, the other counts along the literals with
//! auxiliary variables and stays small.

use crate::cnf::{
    clause_view, concat_groups, formula_view, push_clause, push_pair, push_triple, push_unit,
};
use itertools::Itertools;
use vstd::prelude::*;

verus! {

/// The auxiliary variable `s[i][j]` of a counter whose variables start at
/// `base` and whose rows are `width` wide. It stands for "at least `j + 1` of
/// the first `i + 1` inputs are true".
pub open spec fn counter_var(base: int, width: int, i: int, j: int) -> int {
    base + i * width + j
}

/// How many auxiliary variables the sequential counter takes for `n` inputs
/// and the count `k`.
pub open spec fn counter_demand(n: nat, k: nat) -> nat {
    if 0 < k <= n {
        n * (k + 1)
    } else {
        0
    }
}

/// The clauses for the first input: `s[0][0]` is `x[0]`, and `s[0][j]` is
/// false for `j > 0`.
pub open spec fn counter_first(x: Seq<int>, width: int, base: int) -> Seq<Seq<int>> {
    seq![
        seq![-x[0], counter_var(base, width, 0, 0)],
        seq![x[0], -counter_var(base, width, 0, 0)],
    ] + Seq::new((width - 1) as nat, |d: int| seq![-counter_var(base, width, 0, d + 1)])
}

/// The clauses that define `s[i][0]` as `s[i-1][0] || x[i]`.
pub open spec fn counter_row_head(x: Seq<int>, width: int, base: int, i: int) -> Seq<Seq<int>> {
    seq![
        seq![-counter_var(base, width, i - 1, 0), counter_var(base, width, i, 0)],
        seq![-x[i], counter_var(base, width, i, 0)],
        seq![counter_var(base, width, i - 1, 0), x[i], -counter_var(base, width, i, 0)],
    ]
}

/// The clauses that define `s[i][j]` as `s[i-1][j] || (x[i] && s[i-1][j-1])`,
/// for `j > 0`.
pub open spec fn counter_cell(x: Seq<int>, width: int, base: int, i: int, j: int) -> Seq<
    Seq<int>,
> {
    seq![
        seq![-counter_var(base, width, i - 1, j), counter_var(base, width, i, j)],
        seq![-x[i], -counter_var(base, width, i - 1, j - 1), counter_var(base, width, i, j)],
        seq![counter_var(base, width, i - 1, j), x[i], -counter_var(base, width, i, j)],
        seq![
            counter_var(base, width, i - 1, j),
            counter_var(base, width, i - 1, j - 1),
            -counter_var(base, width, i, j),
        ],
    ]
}

/// The clauses of `counter_cell` for `j = 1, ..., upto`.
pub open spec fn counter_cells(x: Seq<int>, width: int, base: int, i: int, upto: nat) -> Seq<
    Seq<int>,
> {
    concat_groups(upto, |d: int| counter_cell(x, width, base, i, d + 1))
}

/// All clauses that define row `i > 0` of the counter.
pub open spec fn counter_row(x: Seq<int>, width: int, base: int, i: int) -> Seq<Seq<int>> {
    counter_row_head(x, width, base, i) + counter_cells(x, width, base, i, (width - 1) as nat)
}

/// The clauses of `counter_row` for the rows `1, ..., upto`.
pub open spec fn counter_rows(x: Seq<int>, width: int, base: int, upto: nat) -> Seq<Seq<int>> {
    concat_groups(upto, |t: int| counter_row(x, width, base, t + 1))
}

/// The clauses that fix the total: at least `k`, and, where fewer than all
/// inputs are asked for, not more than `k`.
pub open spec fn counter_goal(n: int, k: int, base: int) -> Seq<Seq<int>> {
    if k < n {
        seq![
            seq![counter_var(base, k + 1, n - 1, k - 1)],
            seq![-counter_var(base, k + 1, n - 1, k)],
        ]
    } else {
        seq![seq![counter_var(base, k + 1, n - 1, k - 1)]]
    }
}

/// The sequential-counter encoding of "exactly `k` of `x` are true", with its
/// auxiliary variables numbered from `base`.
///
/// Asking for more than there are inputs gives the single empty clause, which
/// nothing satisfies. Asking for none denies every input, without auxiliary
/// variables.
pub open spec fn sequential_counter(x: Seq<int>, k: nat, base: int) -> Seq<Seq<int>> {
    let n = x.len();
    if k > n {
        seq![Seq::<int>::empty()]
    } else if n == 0 {
        Seq::empty()
    } else if k == 0 {
        Seq::new(n, |i: int| seq![-x[i]])
    } else {
        counter_first(x, k as int + 1, base) + counter_rows(
            x,
            k as int + 1,
            base,
            (n - 1) as nat,
        )
            + counter_goal(n as int, k as int, base)
    }
}

pub(crate) proof fn lemma_flat_index(i: int, j: int, n: int, w: int)
    requires
        0 <= i < n,
        0 <= j < w,
    ensures
        0 <= i * w + j < n * w,
        i * w + w == (i + 1) * w,
        i * w + w <= n * w,
        0 <= i * w,
{
    assert(i * w + w == (i + 1) * w) by (nonlinear_arith);
    assert(0 <= i * w) by (nonlinear_arith)
        requires
            0 <= i,
            0 <= w,
    ;
    assert((i + 1) * w <= n * w) by (nonlinear_arith)
        requires
            i + 1 <= n,
            0 <= w,
    ;
}

/// Appends to `clauses` the sequential-counter encoding of "exactly `k` of
/// `sat_vars` are true" and moves `next_var` past the auxiliary variables it
/// took.
pub fn add_sequential_encoding_clauses(
    clauses: &mut Vec<Vec<isize>>,
    next_var: &mut isize,
    sat_vars: &[isize],
    k: usize,
)
    requires
        forall|i: int| 0 <= i < sat_vars@.len() ==> -isize::MAX <= #[trigger] sat_vars@[i],
        1 <= *old(next_var),
        *old(next_var) + counter_demand(sat_vars@.len(), k as nat) <= isize::MAX,
    ensures
        formula_view(final(clauses)@) == formula_view(old(clauses)@) + sequential_counter(
            clause_view(sat_vars@),
            k as nat,
            *old(next_var) as int,
        ),
        *final(next_var) == *old(next_var) + counter_demand(sat_vars@.len(), k as nat),
{
    let n = sat_vars.len();
    let ghost x = clause_view(sat_vars@);
    let ghost start = formula_view(clauses@);
    let ghost base = *next_var as int;
    if k > n {
        let empty: Vec<isize> = Vec::new();
        assert(clause_view(empty@) =~= Seq::<int>::empty());
        push_clause(clauses, empty);
        assert(formula_view(clauses@) =~= start + seq![Seq::<int>::empty()]);
        return ;
    }
    if n == 0 {
        assert(formula_view(clauses@) =~= start + Seq::<Seq<int>>::empty());
        return ;
    }
    if k == 0 {
        let mut i: usize = 0;
        while i < n
            invariant
                i <= n,
                n == sat_vars@.len(),
                x == clause_view(sat_vars@),
                forall|i: int| 0 <= i < sat_vars@.len() ==> -isize::MAX <= #[trigger] sat_vars@[i],
                formula_view(clauses@) =~= start + Seq::new(i as nat, |t: int| seq![-x[t]]),
            decreases n - i,
        {
            push_unit(clauses, -sat_vars[i]);
            i += 1;
        }
        return ;
    }
    proof {
        assert(n * (k + 1) == counter_demand(n as nat, k as nat));
        lemma_flat_index(0, 0, n as int, k as int + 1);
    }
    let width = k + 1;
    let ghost w = width as int;
    let total = n * width;
    let mut s: Vec<isize> = Vec::new();
    let mut t: usize = 0;
    while t < total
        invariant
            t <= total,
            s@.len() == t,
            base >= 1,
            base + total <= isize::MAX,
            *next_var == base + t,
            forall|u: int| 0 <= u < t ==> #[trigger] s@[u] == base + u,
        decreases total - t,
    {
        s.push(*next_var);
        *next_var += 1;
        t += 1;
    }
    // The first input.
    push_pair(clauses, -sat_vars[0], s[0]);
    push_pair(clauses, sat_vars[0], -s[0]);
    let mut j: usize = 1;
    while j < width
        invariant
            1 <= j <= width,
            width <= total,
            s@.len() == total,
            base >= 1,
            w == width,
            x == clause_view(sat_vars@),
            sat_vars@.len() == n,
            n >= 1,
            forall|u: int| 0 <= u < total ==> #[trigger] s@[u] == base + u,
            formula_view(clauses@) =~= start + seq![
                seq![-x[0], counter_var(base, w, 0, 0)],
                seq![x[0], -counter_var(base, w, 0, 0)],
            ] + Seq::new((j - 1) as nat, |d: int| seq![-counter_var(base, w, 0, d + 1)]),
        decreases width - j,
    {
        push_unit(clauses, -s[j]);
        j += 1;
    }
    assert(formula_view(clauses@) =~= start + counter_first(x, w, base));
    // One row for each further input.
    let mut i: usize = 1;
    while i < n
        invariant
            1 <= i <= n,
            n == sat_vars@.len(),
            x == clause_view(sat_vars@),
            width == k + 1,
            w == width,
            total == n * width,
            s@.len() == total,
            base >= 1,
            forall|i: int| 0 <= i < sat_vars@.len() ==> -isize::MAX <= #[trigger] sat_vars@[i],
            forall|u: int| 0 <= u < total ==> #[trigger] s@[u] == base + u,
            formula_view(clauses@) =~= start + counter_first(x, w, base) + counter_rows(
                x,
                w,
                base,
                (i - 1) as nat,
            ),
        decreases n - i,
    {
        proof {
            lemma_flat_index(i as int - 1, 0, n as int, w);
            lemma_flat_index(i as int, 0, n as int, w);
        }
        let prev = (i - 1) * width;
        let cur = i * width;
        assert(prev + width == cur);
        let ghost before = formula_view(clauses@);
        push_pair(clauses, -s[prev], s[cur]);
        push_pair(clauses, -sat_vars[i], s[cur]);
        push_triple(clauses, s[prev], sat_vars[i], -s[cur]);
        assert(formula_view(clauses@) =~= before + counter_row_head(x, w, base, i as int));
        let mut j: usize = 1;
        while j < width
            invariant
                1 <= j <= width,
                1 <= i < n,
                n == sat_vars@.len(),
                x == clause_view(sat_vars@),
                w == width,
                total == n * width,
                prev == (i - 1) * width,
                cur == i * width,
                prev + width == cur,
                cur + width <= total,
                s@.len() == total,
                base >= 1,
                forall|i: int| 0 <= i < sat_vars@.len() ==> -isize::MAX <= #[trigger] sat_vars@[i],
                forall|u: int| 0 <= u < total ==> #[trigger] s@[u] == base + u,
                formula_view(clauses@) =~= before + counter_row_head(x, w, base, i as int)
                    + counter_cells(x, w, base, i as int, (j - 1) as nat),
            decreases width - j,
        {
            let ghost inner = formula_view(clauses@);
            push_pair(clauses, -s[prev + j], s[cur + j]);
            push_triple(clauses, -sat_vars[i], -s[prev + (j - 1)], s[cur + j]);
            push_triple(clauses, s[prev + j], sat_vars[i], -s[cur + j]);
            push_triple(clauses, s[prev + j], s[prev + (j - 1)], -s[cur + j]);
            assert(formula_view(clauses@) =~= inner + counter_cell(x, w, base, i as int, j as int));
            j += 1;
        }
        i += 1;
    }
    // The total.
    proof {
        lemma_flat_index(n as int - 1, k as int, n as int, w);
    }
    let last = (n - 1) * width;
    let ghost before = formula_view(clauses@);
    push_unit(clauses, s[last + (k - 1)]);
    if k < n {
        push_unit(clauses, -s[last + k]);
    }
    assert(formula_view(clauses@) =~= before + counter_goal(n as int, k as int, base));
}

/// The selections of `r` elements from `x`, each in the order of `x`; those
/// that take an earlier element come first.
pub open spec fn selections(x: Seq<int>, r: nat) -> Seq<Seq<int>>
    decreases x.len(),
{
    if r == 0 {
        seq![Seq::<int>::empty()]
    } else if x.len() < r {
        Seq::empty()
    } else {
        with_first(x[0], selections(x.drop_first(), (r - 1) as nat)) + selections(
            x.drop_first(),
            r,
        )
    }
}

/// Each clause of `f` with `head` put in front.
pub open spec fn with_first(head: int, f: Seq<Seq<int>>) -> Seq<Seq<int>> {
    Seq::new(f.len(), |t: int| seq![head] + f[t])
}

/// The clause with every literal negated.
pub open spec fn negate_all(c: Seq<int>) -> Seq<int> {
    Seq::new(c.len(), |i: int| -c[i])
}

/// The formula with every literal of every clause negated.
pub open spec fn negate_each(f: Seq<Seq<int>>) -> Seq<Seq<int>> {
    Seq::new(f.len(), |t: int| negate_all(f[t]))
}

/// The subset encoding of "exactly `k` of `x` are true": among any `k + 1`
/// of them one is false, and among any `n - k + 1` of them one is true.
/// Asking for more than there are gives the single empty clause.
pub open spec fn combinatorial_exactly(x: Seq<int>, k: nat) -> Seq<Seq<int>> {
    let n = x.len();
    if k > n {
        seq![Seq::<int>::empty()]
    } else {
        negate_each(selections(x, k + 1)) + selections(x, (n - k + 1) as nat)
    }
}

/// The `r`-element combinations of `items`, by `Itertools::combinations`.
///
/// Trusted: the combinations come as the crate documents them, each in the
/// order of `items` and those that take an earlier item first, which is what
/// `selections` lists.
#[verifier::external_body]
fn combinations_of(items: &[isize], r: usize) -> (out: Vec<Vec<isize>>)
    requires
        1 <= r <= items@.len(),
    ensures
        formula_view(out@) == selections(clause_view(items@), r as nat),
{
    items.iter().copied().combinations(r).collect()
}

/// The clause with every literal negated.
pub fn negated_clause(clause: &[isize]) -> (out: Vec<isize>)
    requires
        forall|i: int| 0 <= i < clause@.len() ==> -isize::MAX <= #[trigger] clause@[i],
    ensures
        clause_view(out@) == negate_all(clause_view(clause@)),
{
    let mut out: Vec<isize> = Vec::new();
    let mut i: usize = 0;
    while i < clause.len()
        invariant
            i <= clause@.len(),
            out@.len() == i,
            forall|i: int| 0 <= i < clause@.len() ==> -isize::MAX <= #[trigger] clause@[i],
            forall|t: int| 0 <= t < i ==> #[trigger] out@[t] == -clause@[t],
        decreases clause@.len() - i,
    {
        out.push(-clause[i]);
        i += 1;
    }
    assert(clause_view(out@) =~= negate_all(clause_view(clause@)));
    out
}

/// Appends to `clauses` the subset encoding of "exactly `k` of `sat_vars` are
/// true". It takes no auxiliary variables, and as many clauses as there are
/// subsets of the two sizes.
pub fn add_combinatorial_encoding_clauses(
    clauses: &mut Vec<Vec<isize>>,
    sat_vars: &[isize],
    k: usize,
)
    requires
        forall|i: int| 0 <= i < sat_vars@.len() ==> -isize::MAX <= #[trigger] sat_vars@[i],
    ensures
        formula_view(final(clauses)@) == formula_view(old(clauses)@) + combinatorial_exactly(
            clause_view(sat_vars@),
            k as nat,
        ),
{
    let n = sat_vars.len();
    let ghost x = clause_view(sat_vars@);
    let ghost start = formula_view(clauses@);
    if k > n {
        let empty: Vec<isize> = Vec::new();
        assert(clause_view(empty@) =~= Seq::<int>::empty());
        push_clause(clauses, empty);
        assert(formula_view(clauses@) =~= start + seq![Seq::<int>::empty()]);
        return ;
    }
    if n > k {
        let combos = combinations_of(sat_vars, k + 1);
        let ghost chosen = selections(x, (k + 1) as nat);
        let mut t: usize = 0;
        while t < combos.len()
            invariant
                t <= combos@.len(),
                formula_view(combos@) == chosen,
                formula_view(clauses@) =~= start + negate_each(chosen).take(t as int),
                forall|i: int| 0 <= i < sat_vars@.len() ==> -isize::MAX <= #[trigger] sat_vars@[i],
                chosen == selections(clause_view(sat_vars@), (k + 1) as nat),
            decreases combos@.len() - t,
        {
            proof {
                lemma_selected_from(clause_view(sat_vars@), (k + 1) as nat, t as int);
                let picked = combos@[t as int]@;
                assert(chosen[t as int] == clause_view(picked));
                assert forall|i: int| 0 <= i < picked.len() implies -isize::MAX
                    <= #[trigger] picked[i] by {
                    let v = chosen[t as int][i];
                    assert(v == picked[i] as int);
                    assert(clause_view(sat_vars@).contains(v));
                    let u = choose|u: int|
                        0 <= u < sat_vars@.len() && clause_view(sat_vars@)[u] == v;
                    assert(sat_vars@[u] as int == v);
                }
            }
            let negated = negated_clause(combos[t].as_slice());
            push_clause(clauses, negated);
            assert(negate_each(chosen).take(t + 1) =~= negate_each(chosen).take(t as int).push(
                negate_all(chosen[t as int]),
            ));
            t += 1;
        }
        assert(negate_each(chosen).take(combos@.len() as int) =~= negate_each(chosen));
    } else {
        assert(selections(x, (k + 1) as nat) =~= Seq::<Seq<int>>::empty());
        assert(negate_each(Seq::<Seq<int>>::empty()) =~= Seq::<Seq<int>>::empty());
        assert(formula_view(clauses@) =~= start + negate_each(selections(x, (k + 1) as nat)));
    }
    let ghost middle = formula_view(clauses@);
    if k >= 1 {
        let mut combos = combinations_of(sat_vars, n - k + 1);
        let ghost chosen = formula_view(combos@);
        proof {
            lemma_view_append(clauses@, combos@);
        }
        clauses.append(&mut combos);
        assert(formula_view(clauses@) =~= middle + chosen);
    } else {
        assert(selections(x, (n - k + 1) as nat) =~= Seq::<Seq<int>>::empty());
        assert(formula_view(clauses@) =~= middle + selections(x, (n - k + 1) as nat));
    }
    assert(formula_view(clauses@) =~= start + (negate_each(selections(x, (k + 1) as nat))
        + selections(x, (n - k + 1) as nat)));
}

/// Every selected literal is one of the literals selected from.
proof fn lemma_selected_from(x: Seq<int>, r: nat, t: int)
    requires
        0 <= t < selections(x, r).len(),
    ensures
        forall|i: int|
            0 <= i < selections(x, r)[t].len() ==> x.contains(#[trigger] selections(x, r)[t][i]),
    decreases x.len(),
{
    if r == 0 {
    } else if x.len() < r {
    } else {
        let tail = x.drop_first();
        let s1 = selections(tail, (r - 1) as nat);
        let s2 = selections(tail, r);
        let c = selections(x, r)[t];
        if t < s1.len() {
            lemma_selected_from(tail, (r - 1) as nat, t);
            assert(c == seq![x[0]] + s1[t]);
            assert forall|i: int| 0 <= i < c.len() implies x.contains(#[trigger] c[i]) by {
                if i == 0 {
                    assert(x[0] == c[0]);
                } else {
                    assert(c[i] == s1[t][i - 1]);
                    assert(tail.contains(s1[t][i - 1]));
                    let u = choose|u: int| 0 <= u < tail.len() && tail[u] == s1[t][i - 1];
                    assert(x[u + 1] == c[i]);
                }
            }
        } else {
            lemma_selected_from(tail, r, t - s1.len());
            assert(c == s2[t - s1.len()]);
            assert forall|i: int| 0 <= i < c.len() implies x.contains(#[trigger] c[i]) by {
                assert(tail.contains(c[i]));
                let u = choose|u: int| 0 <= u < tail.len() && tail[u] == c[i];
                assert(x[u + 1] == c[i]);
            }
        }
    }
}

proof fn lemma_view_append(f: Seq<Vec<isize>>, g: Seq<Vec<isize>>)
    ensures
        formula_view(f + g) == formula_view(f) + formula_view(g),
{
    assert(formula_view(f + g) =~= formula_view(f) + formula_view(g));
}

} // verus!
