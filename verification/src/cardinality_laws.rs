//! What the two encodings of "exactly `k`" mean, and how many models they
//! have.

use crate::cardinality::{
    combinatorial_exactly, counter_cell, counter_cells, counter_demand, counter_first,
    counter_goal, counter_row, counter_row_head, counter_rows, counter_var, lemma_flat_index,
    negate_all, negate_each, selections, sequential_counter, with_first,
};
use crate::cnf::{
    clause_holds, count_models, formula_holds, lemma_empty_clause, lemma_holds_concat,
    lemma_holds_four, lemma_holds_groups, lemma_holds_one, lemma_holds_pair, lemma_holds_three,
    lemma_holds_triple, lemma_holds_two, lemma_holds_unit, lemma_within_concat,
    lemma_within_groups, lit_holds, literals_within, magnitude, satisfiable,
};
use crate::probability::{binomial, lemma_binomial_none};
use vstd::prelude::*;

verus! {

/// How many of the literals `x` are true.
pub open spec fn count_true(truth: Set<int>, x: Seq<int>) -> nat
    decreases x.len(),
{
    if x.len() == 0 {
        0
    } else {
        count_true(truth, x.drop_last()) + if lit_holds(truth, x.last()) {
            1nat
        } else {
            0nat
        }
    }
}

/// How many of the literals `x[0], ..., x[i]` are true.
pub open spec fn running_count(truth: Set<int>, x: Seq<int>, i: int) -> nat {
    count_true(truth, x.take(i + 1))
}

/// Whether the auxiliary variable `s[i][j]` is true.
pub open spec fn counter_on(truth: Set<int>, base: int, width: int, i: int, j: int) -> bool {
    truth.contains(counter_var(base, width, i, j))
}

/// Every auxiliary variable says what it stands for: `s[i][j]` is true exactly
/// when at least `j + 1` of `x[0], ..., x[i]` are.
pub open spec fn counter_tracks(truth: Set<int>, x: Seq<int>, width: int, base: int) -> bool {
    forall|i: int, j: int|
        0 <= i < x.len() && 0 <= j < width ==> (#[trigger] counter_on(truth, base, width, i, j)
            <==> running_count(truth, x, i) >= j + 1)
}

/// Every literal of `x` is one: none is 0.
pub open spec fn all_nonzero(x: Seq<int>) -> bool {
    forall|i: int| 0 <= i < x.len() ==> #[trigger] x[i] != 0
}

/// No more literals are true than there are.
pub proof fn lemma_count_bound(truth: Set<int>, x: Seq<int>)
    ensures
        count_true(truth, x) <= x.len(),
    decreases x.len(),
{
    if x.len() > 0 {
        lemma_count_bound(truth, x.drop_last());
    }
}

/// The running count grows by one at each true literal.
pub proof fn lemma_count_step(truth: Set<int>, x: Seq<int>, i: int)
    requires
        0 <= i < x.len(),
    ensures
        running_count(truth, x, i) == (if i == 0 {
            0nat
        } else {
            running_count(truth, x, i - 1)
        }) + (if lit_holds(truth, x[i]) {
            1nat
        } else {
            0nat
        }),
        running_count(truth, x, i) <= i + 1,
        i == x.len() - 1 ==> running_count(truth, x, i) == count_true(truth, x),
{
    let p = x.take(i + 1);
    assert(p.len() == i + 1);
    assert(p.drop_last() =~= x.take(i));
    assert(p.last() == x[i]);
    assert(count_true(truth, p) == count_true(truth, p.drop_last()) + if lit_holds(
        truth,
        p.last(),
    ) {
        1nat
    } else {
        0nat
    });
    if i == 0 {
        assert(x.take(0).len() == 0);
        assert(count_true(truth, x.take(0)) == 0);
    }
    lemma_count_bound(truth, p);
    if i == x.len() - 1 {
        assert(p =~= x);
    }
}

proof fn lemma_counter_var(truth: Set<int>, base: int, w: int, i: int, j: int)
    requires
        base >= 1,
        w >= 0,
        0 <= i,
        0 <= j,
    ensures
        counter_var(base, w, i, j) >= 1,
        lit_holds(truth, counter_var(base, w, i, j)) == counter_on(truth, base, w, i, j),
        lit_holds(truth, -counter_var(base, w, i, j)) == !counter_on(truth, base, w, i, j),
{
    assert(0 <= i * w) by (nonlinear_arith)
        requires
            0 <= i,
            0 <= w,
    ;
}

/// What the clauses for the first input say.
pub open spec fn first_defined(truth: Set<int>, x: Seq<int>, w: int, base: int) -> bool {
    &&& counter_on(truth, base, w, 0, 0) <==> lit_holds(truth, x[0])
    &&& forall|j: int| 1 <= j < w ==> !#[trigger] counter_on(truth, base, w, 0, j)
}

proof fn lemma_first(truth: Set<int>, x: Seq<int>, w: int, base: int)
    requires
        base >= 1,
        w >= 1,
        x.len() >= 1,
        x[0] != 0,
    ensures
        formula_holds(truth, counter_first(x, w, base)) <==> first_defined(truth, x, w, base),
{
    let s00 = counter_var(base, w, 0, 0);
    let a = seq![seq![-x[0], s00], seq![x[0], -s00]];
    let b = Seq::new((w - 1) as nat, |d: int| seq![-counter_var(base, w, 0, d + 1)]);
    lemma_holds_concat(truth, a, b);
    lemma_holds_two(truth, seq![-x[0], s00], seq![x[0], -s00]);
    lemma_holds_pair(truth, -x[0], s00);
    lemma_holds_pair(truth, x[0], -s00);
    lemma_counter_var(truth, base, w, 0, 0);
    if formula_holds(truth, b) {
        assert forall|j: int| 1 <= j < w implies !#[trigger] counter_on(truth, base, w, 0, j) by {
            assert(clause_holds(truth, b[j - 1]));
            lemma_holds_unit(truth, -counter_var(base, w, 0, j));
            lemma_counter_var(truth, base, w, 0, j);
        }
    }
    if forall|j: int| 1 <= j < w ==> !#[trigger] counter_on(truth, base, w, 0, j) {
        assert forall|d: int| 0 <= d < b.len() implies clause_holds(truth, #[trigger] b[d]) by {
            assert(!counter_on(truth, base, w, 0, d + 1));
            lemma_holds_unit(truth, -counter_var(base, w, 0, d + 1));
            lemma_counter_var(truth, base, w, 0, d + 1);
        }
    }
}

/// What the clauses for row `i > 0` say of its first variable.
pub open spec fn head_defined(truth: Set<int>, x: Seq<int>, w: int, base: int, i: int) -> bool {
    counter_on(truth, base, w, i, 0) <==> counter_on(truth, base, w, i - 1, 0) || lit_holds(
        truth,
        x[i],
    )
}

/// What the clauses for row `i > 0` say of its variable `j > 0`.
pub open spec fn cell_defined(truth: Set<int>, x: Seq<int>, w: int, base: int, i: int, j: int) -> bool {
    counter_on(truth, base, w, i, j) <==> counter_on(truth, base, w, i - 1, j) || (lit_holds(
        truth,
        x[i],
    ) && counter_on(truth, base, w, i - 1, j - 1))
}

/// What the clauses for row `i > 0` say.
pub open spec fn row_defined(truth: Set<int>, x: Seq<int>, w: int, base: int, i: int) -> bool {
    &&& head_defined(truth, x, w, base, i)
    &&& forall|j: int| 1 <= j < w ==> #[trigger] cell_defined(truth, x, w, base, i, j)
}

proof fn lemma_cell(truth: Set<int>, x: Seq<int>, w: int, base: int, i: int, j: int)
    requires
        base >= 1,
        w >= 1,
        1 <= i < x.len(),
        1 <= j,
        x[i] != 0,
    ensures
        formula_holds(truth, counter_cell(x, w, base, i, j)) <==> cell_defined(
            truth,
            x,
            w,
            base,
            i,
            j,
        ),
{
    let p = counter_var(base, w, i - 1, j);
    let q = counter_var(base, w, i - 1, j - 1);
    let c = counter_var(base, w, i, j);
    lemma_counter_var(truth, base, w, i - 1, j);
    lemma_counter_var(truth, base, w, i - 1, j - 1);
    lemma_counter_var(truth, base, w, i, j);
    lemma_holds_four(truth, seq![-p, c], seq![-x[i], -q, c], seq![p, x[i], -c], seq![p, q, -c]);
    lemma_holds_pair(truth, -p, c);
    lemma_holds_triple(truth, -x[i], -q, c);
    lemma_holds_triple(truth, p, x[i], -c);
    lemma_holds_triple(truth, p, q, -c);
}

proof fn lemma_row(truth: Set<int>, x: Seq<int>, w: int, base: int, i: int)
    requires
        base >= 1,
        w >= 1,
        1 <= i < x.len(),
        x[i] != 0,
    ensures
        formula_holds(truth, counter_row(x, w, base, i)) <==> row_defined(truth, x, w, base, i),
{
    let p = counter_var(base, w, i - 1, 0);
    let c = counter_var(base, w, i, 0);
    lemma_counter_var(truth, base, w, i - 1, 0);
    lemma_counter_var(truth, base, w, i, 0);
    let head = counter_row_head(x, w, base, i);
    let group = |d: int| counter_cell(x, w, base, i, d + 1);
    let cells = counter_cells(x, w, base, i, (w - 1) as nat);
    lemma_holds_concat(truth, head, cells);
    lemma_holds_three(truth, seq![-p, c], seq![-x[i], c], seq![p, x[i], -c]);
    lemma_holds_pair(truth, -p, c);
    lemma_holds_pair(truth, -x[i], c);
    lemma_holds_triple(truth, p, x[i], -c);
    lemma_holds_groups(truth, (w - 1) as nat, group);
    if formula_holds(truth, cells) {
        assert forall|j: int| 1 <= j < w implies #[trigger] cell_defined(
            truth,
            x,
            w,
            base,
            i,
            j,
        ) by {
            assert(formula_holds(truth, group(j - 1)));
            lemma_cell(truth, x, w, base, i, j);
        }
    }
    if forall|j: int| 1 <= j < w ==> #[trigger] cell_defined(truth, x, w, base, i, j) {
        assert forall|d: int| 0 <= d < w - 1 implies formula_holds(truth, #[trigger] group(d)) by {
            assert(cell_defined(truth, x, w, base, i, d + 1));
            lemma_cell(truth, x, w, base, i, d + 1);
        }
    }
}

/// The clauses for the first input and for every further row hold exactly
/// when every auxiliary variable says what it stands for.
proof fn lemma_rows(truth: Set<int>, x: Seq<int>, w: int, base: int)
    requires
        base >= 1,
        w >= 1,
        x.len() >= 1,
        all_nonzero(x),
    ensures
        formula_holds(truth, counter_first(x, w, base)) && formula_holds(
            truth,
            counter_rows(x, w, base, (x.len() - 1) as nat),
        ) <==> counter_tracks(truth, x, w, base),
{
    let n = x.len() as int;
    let group = |t: int| counter_row(x, w, base, t + 1);
    lemma_first(truth, x, w, base);
    lemma_holds_groups(truth, (n - 1) as nat, group);
    lemma_count_step(truth, x, 0);
    if formula_holds(truth, counter_first(x, w, base)) && formula_holds(
        truth,
        counter_rows(x, w, base, (n - 1) as nat),
    ) {
        assert forall|i: int| 1 <= i < n implies row_defined(truth, x, w, base, i) by {
            assert(formula_holds(truth, group(i - 1)));
            lemma_row(truth, x, w, base, i);
        }
        lemma_tracks_upto(truth, x, w, base, n - 1);
    }
    if counter_tracks(truth, x, w, base) {
        assert forall|j: int| 1 <= j < w implies !#[trigger] counter_on(truth, base, w, 0, j) by {}
        assert(first_defined(truth, x, w, base));
        assert forall|t: int| 0 <= t < n - 1 implies formula_holds(truth, #[trigger] group(t)) by {
            let i = t + 1;
            lemma_count_step(truth, x, i);
            assert(counter_on(truth, base, w, i, 0) <==> running_count(truth, x, i) >= 1);
            assert(counter_on(truth, base, w, i - 1, 0) <==> running_count(truth, x, i - 1) >= 1);
            assert forall|j: int| 1 <= j < w implies #[trigger] cell_defined(
                truth,
                x,
                w,
                base,
                i,
                j,
            ) by {
                assert(counter_on(truth, base, w, i, j) <==> running_count(truth, x, i) >= j + 1);
                assert(counter_on(truth, base, w, i - 1, j) <==> running_count(truth, x, i - 1)
                    >= j + 1);
                assert(counter_on(truth, base, w, i - 1, j - 1) <==> running_count(
                    truth,
                    x,
                    i - 1,
                ) >= j);
            }
            lemma_row(truth, x, w, base, i);
        }
    }
}

proof fn lemma_tracks_upto(truth: Set<int>, x: Seq<int>, w: int, base: int, upto: int)
    requires
        w >= 1,
        0 <= upto < x.len(),
        first_defined(truth, x, w, base),
        forall|i: int| 1 <= i < x.len() ==> row_defined(truth, x, w, base, i),
    ensures
        forall|i: int, j: int|
            0 <= i <= upto && 0 <= j < w ==> (#[trigger] counter_on(truth, base, w, i, j)
                <==> running_count(truth, x, i) >= j + 1),
    decreases upto,
{
    lemma_count_step(truth, x, upto);
    if upto > 0 {
        lemma_tracks_upto(truth, x, w, base, upto - 1);
        assert(row_defined(truth, x, w, base, upto));
        assert forall|j: int| 0 <= j < w implies (#[trigger] counter_on(truth, base, w, upto, j)
            <==> running_count(truth, x, upto) >= j + 1) by {
            assert(counter_on(truth, base, w, upto - 1, j) <==> running_count(truth, x, upto - 1)
                >= j + 1);
            if j > 0 {
                assert(cell_defined(truth, x, w, base, upto, j));
                assert(counter_on(truth, base, w, upto - 1, j - 1) <==> running_count(
                    truth,
                    x,
                    upto - 1,
                ) >= j);
            }
        }
    }
}

/// The models of the sequential counter are the assignments under which
/// exactly `k` of the inputs are true and, where it has auxiliary variables,
/// each of these says what it stands for.
pub proof fn lemma_sequential_counter(truth: Set<int>, x: Seq<int>, k: nat, base: int)
    requires
        all_nonzero(x),
        base >= 1,
    ensures
        formula_holds(truth, sequential_counter(x, k, base)) <==> count_true(truth, x) == k && (0
            < k <= x.len() ==> counter_tracks(truth, x, k as int + 1, base)),
{
    let n = x.len();
    lemma_count_bound(truth, x);
    if k > n {
        lemma_holds_one(truth, Seq::<int>::empty());
        lemma_empty_clause(truth);
    } else if n == 0 {
    } else if k == 0 {
        let f = Seq::new(n, |i: int| seq![-x[i]]);
        lemma_all_false(truth, x, n as int);
        assert(x.take(n as int) =~= x);
        if formula_holds(truth, f) {
            assert forall|i: int| 0 <= i < n implies !lit_holds(truth, #[trigger] x[i]) by {
                assert(clause_holds(truth, f[i]));
                lemma_holds_unit(truth, -x[i]);
            }
        }
        if count_true(truth, x) == 0 {
            assert forall|i: int| 0 <= i < n implies clause_holds(truth, #[trigger] f[i]) by {
                lemma_holds_unit(truth, -x[i]);
            }
        }
    } else {
        let w = k as int + 1;
        let first = counter_first(x, w, base);
        let rows = counter_rows(x, w, base, (n - 1) as nat);
        let goal = counter_goal(n as int, k as int, base);
        lemma_holds_concat(truth, first, rows);
        lemma_holds_concat(truth, first + rows, goal);
        lemma_rows(truth, x, w, base);
        lemma_count_step(truth, x, n - 1);
        let at_least = counter_var(base, w, n - 1, k - 1);
        let beyond = counter_var(base, w, n - 1, k as int);
        lemma_counter_var(truth, base, w, n - 1, k - 1);
        lemma_counter_var(truth, base, w, n - 1, k as int);
        lemma_holds_unit(truth, at_least);
        lemma_holds_unit(truth, -beyond);
        lemma_holds_one(truth, seq![at_least]);
        lemma_holds_two(truth, seq![at_least], seq![-beyond]);
        if counter_tracks(truth, x, w, base) {
            assert(counter_on(truth, base, w, n - 1, k - 1) <==> running_count(truth, x, n - 1)
                >= k);
            assert(counter_on(truth, base, w, n - 1, k as int) <==> running_count(
                truth,
                x,
                n - 1,
            ) >= k + 1);
        }
    }
}

proof fn lemma_all_false(truth: Set<int>, x: Seq<int>, upto: int)
    requires
        0 <= upto <= x.len(),
    ensures
        count_true(truth, x.take(upto)) == 0 <==> forall|i: int|
            0 <= i < upto ==> !lit_holds(truth, #[trigger] x[i]),
    decreases upto,
{
    if upto > 0 {
        lemma_all_false(truth, x, upto - 1);
        assert(x.take(upto).drop_last() =~= x.take(upto - 1));
        assert(x.take(upto).last() == x[upto - 1]);
    }
}

/// The assignment that agrees with `truth` outside the block of `x.len() * w`
/// variables from `base` on, and in which each auxiliary variable of that
/// block says what it stands for.
pub open spec fn with_counter(truth: Set<int>, x: Seq<int>, w: int, base: int) -> Set<int> {
    Set::new(
        |v: int|
            if base <= v < base + x.len() * w {
                exists|i: int, j: int|
                    0 <= i < x.len() && 0 <= j < w && v == #[trigger] counter_var(base, w, i, j)
                        && running_count(truth, x, i) >= j + 1
            } else {
                truth.contains(v)
            },
    )
}

/// Two assignments that agree on every literal of `x` count the same.
pub proof fn lemma_count_agrees(t1: Set<int>, t2: Set<int>, x: Seq<int>)
    requires
        forall|i: int| 0 <= i < x.len() ==> lit_holds(t1, #[trigger] x[i]) == lit_holds(t2, x[i]),
    ensures
        count_true(t1, x) == count_true(t2, x),
    decreases x.len(),
{
    if x.len() > 0 {
        lemma_count_agrees(t1, t2, x.drop_last());
    }
}

proof fn lemma_flat_unique(w: int, i: int, j: int, i2: int, j2: int)
    requires
        0 <= j < w,
        0 <= j2 < w,
        i * w + j == i2 * w + j2,
    ensures
        i == i2,
        j == j2,
{
    if i < i2 {
        assert((i + 1) * w <= i2 * w) by (nonlinear_arith)
            requires
                i + 1 <= i2,
                0 <= w,
        ;
        assert((i + 1) * w == i * w + w) by (nonlinear_arith);
    } else if i2 < i {
        assert((i2 + 1) * w <= i * w) by (nonlinear_arith)
            requires
                i2 + 1 <= i,
                0 <= w,
        ;
        assert((i2 + 1) * w == i2 * w + w) by (nonlinear_arith);
    }
}

/// Every assignment under which exactly `k` of the inputs are true extends
/// to a model of the sequential counter, provided the inputs speak of
/// variables below `base`: only the auxiliary variables change.
pub proof fn lemma_sequential_counter_extends(truth: Set<int>, x: Seq<int>, k: nat, base: int)
    requires
        all_nonzero(x),
        base >= 1,
        forall|i: int| 0 <= i < x.len() ==> magnitude(#[trigger] x[i]) < base,
        count_true(truth, x) == k,
    ensures
        formula_holds(with_counter(truth, x, k as int + 1, base), sequential_counter(x, k, base)),
{
    let w = k as int + 1;
    let ext = with_counter(truth, x, w, base);
    assert(0 <= x.len() * w) by (nonlinear_arith)
        requires
            0 <= w,
    ;
    assert forall|i: int| 0 <= i < x.len() implies lit_holds(ext, #[trigger] x[i]) == lit_holds(
        truth,
        x[i],
    ) by {
        assert(magnitude(x[i]) < base);
    }
    lemma_count_agrees(ext, truth, x);
    assert forall|i: int, j: int| 0 <= i < x.len() && 0 <= j < w implies (#[trigger] counter_on(
        ext,
        base,
        w,
        i,
        j,
    ) <==> running_count(ext, x, i) >= j + 1) by {
        let p = x.take(i + 1);
        assert forall|t: int| 0 <= t < p.len() implies lit_holds(ext, #[trigger] p[t])
            == lit_holds(truth, p[t]) by {
            assert(p[t] == x[t]);
        }
        lemma_count_agrees(ext, truth, p);
        lemma_flat_index(i, j, x.len() as int, w);
        let v = counter_var(base, w, i, j);
        if ext.contains(v) {
            let (i2, j2) = choose|i2: int, j2: int|
                0 <= i2 < x.len() && 0 <= j2 < w && v == #[trigger] counter_var(base, w, i2, j2)
                    && running_count(truth, x, i2) >= j2 + 1;
            lemma_flat_unique(w, i, j, i2, j2);
        }
    }
    lemma_sequential_counter(ext, x, k, base);
}

/// Counting from the front gives the same number.
pub proof fn lemma_count_front(truth: Set<int>, x: Seq<int>)
    requires
        x.len() > 0,
    ensures
        count_true(truth, x) == count_true(truth, x.drop_first()) + if lit_holds(truth, x[0]) {
            1nat
        } else {
            0nat
        },
    decreases x.len(),
{
    if x.len() == 1 {
        assert(x.drop_last() =~= x.drop_first());
        assert(x.drop_first().len() == 0);
    } else {
        lemma_count_front(truth, x.drop_last());
        assert(x.drop_last().drop_first() =~= x.drop_first().drop_last());
        assert(x.drop_first().last() == x.last());
        assert(x.drop_last()[0] == x[0]);
    }
}

/// Negating every literal turns the true ones into false ones.
pub proof fn lemma_count_negated(truth: Set<int>, x: Seq<int>)
    requires
        all_nonzero(x),
    ensures
        count_true(truth, negate_all(x)) == x.len() - count_true(truth, x),
    decreases x.len(),
{
    lemma_count_bound(truth, x);
    if x.len() > 0 {
        lemma_count_negated(truth, x.drop_last());
        assert(negate_all(x).drop_last() =~= negate_all(x.drop_last()));
        assert(negate_all(x).last() == -x.last());
        assert(x.last() != 0);
    }
}

/// Negating the selections is selecting from the negated literals.
pub proof fn lemma_negated_selections(x: Seq<int>, r: nat)
    ensures
        negate_each(selections(x, r)) == selections(negate_all(x), r),
    decreases x.len(),
{
    let y = negate_all(x);
    if r == 0 {
        assert(negate_all(Seq::<int>::empty()) =~= Seq::<int>::empty());
        assert(negate_each(selections(x, r)) =~= selections(y, r));
    } else if x.len() < r {
        assert(negate_each(selections(x, r)) =~= selections(y, r));
    } else {
        lemma_negated_selections(x.drop_first(), (r - 1) as nat);
        lemma_negated_selections(x.drop_first(), r);
        assert(y.drop_first() =~= negate_all(x.drop_first()));
        let s1 = selections(x.drop_first(), (r - 1) as nat);
        let s2 = selections(x.drop_first(), r);
        assert forall|t: int| 0 <= t < s1.len() implies negate_all(
            #[trigger] with_first(x[0], s1)[t],
        ) == with_first(y[0], negate_each(s1))[t] by {
            assert(negate_all(seq![x[0]] + s1[t]) =~= seq![-x[0]] + negate_all(s1[t]));
        }
        assert(negate_each(with_first(x[0], s1)) =~= with_first(y[0], negate_each(s1)));
        assert(negate_each(with_first(x[0], s1) + s2) =~= negate_each(with_first(x[0], s1))
            + negate_each(s2));
    }
}

proof fn lemma_holds_with_first(truth: Set<int>, head: int, f: Seq<Seq<int>>)
    ensures
        formula_holds(truth, with_first(head, f)) <==> lit_holds(truth, head) || formula_holds(
            truth,
            f,
        ),
{
    let g = with_first(head, f);
    assert forall|t: int| 0 <= t < f.len() implies (clause_holds(truth, #[trigger] g[t])
        <==> lit_holds(truth, head) || clause_holds(truth, f[t])) by {
        let c = f[t];
        let d = seq![head] + c;
        assert(g[t] == d);
        if clause_holds(truth, d) {
            let i = choose|i: int| 0 <= i < d.len() && lit_holds(truth, #[trigger] d[i]);
            if i > 0 {
                assert(d[i] == c[i - 1]);
            }
        }
        if lit_holds(truth, head) {
            assert(d[0] == head);
        }
        if clause_holds(truth, c) {
            let i = choose|i: int| 0 <= i < c.len() && lit_holds(truth, #[trigger] c[i]);
            assert(d[i + 1] == c[i]);
        }
    }
    if !lit_holds(truth, head) && formula_holds(truth, g) {
        assert forall|t: int| 0 <= t < f.len() implies clause_holds(truth, #[trigger] f[t]) by {
            assert(clause_holds(truth, g[t]));
        }
    }
}

/// Every selection of `r` literals holds a true one exactly when fewer than
/// `r` of the literals are false.
pub proof fn lemma_selections(truth: Set<int>, x: Seq<int>, r: nat)
    ensures
        formula_holds(truth, selections(x, r)) <==> x.len() - count_true(truth, x) < r,
    decreases x.len(),
{
    lemma_count_bound(truth, x);
    if r == 0 {
        lemma_holds_one(truth, Seq::<int>::empty());
        lemma_empty_clause(truth);
    } else if x.len() < r {
    } else {
        let tail = x.drop_first();
        let s1 = selections(tail, (r - 1) as nat);
        let s2 = selections(tail, r);
        lemma_selections(truth, tail, (r - 1) as nat);
        lemma_selections(truth, tail, r);
        lemma_holds_with_first(truth, x[0], s1);
        lemma_holds_concat(truth, with_first(x[0], s1), s2);
        lemma_count_front(truth, x);
    }
}

/// The models of the subset encoding are the assignments under which
/// exactly `k` of the literals are true.
pub proof fn lemma_combinatorial_exactly(truth: Set<int>, x: Seq<int>, k: nat)
    requires
        all_nonzero(x),
    ensures
        formula_holds(truth, combinatorial_exactly(x, k)) <==> count_true(truth, x) == k,
{
    let n = x.len();
    lemma_count_bound(truth, x);
    if k > n {
        lemma_holds_one(truth, Seq::<int>::empty());
        lemma_empty_clause(truth);
    } else {
        let upper = negate_each(selections(x, k + 1));
        let lower = selections(x, (n - k + 1) as nat);
        lemma_holds_concat(truth, upper, lower);
        lemma_negated_selections(x, k + 1);
        lemma_selections(truth, negate_all(x), k + 1);
        lemma_count_negated(truth, x);
        lemma_selections(truth, x, (n - k + 1) as nat);
    }
}

/// Both encodings admit the same assignments of the inputs: one satisfies
/// the subset encoding exactly when, with the auxiliary variables set as
/// they must be, it satisfies the sequential counter.
pub proof fn lemma_encodings_agree(truth: Set<int>, x: Seq<int>, k: nat, base: int)
    requires
        all_nonzero(x),
        base >= 1,
        forall|i: int| 0 <= i < x.len() ==> magnitude(#[trigger] x[i]) < base,
    ensures
        formula_holds(truth, combinatorial_exactly(x, k)) <==> formula_holds(
            with_counter(truth, x, k as int + 1, base),
            sequential_counter(x, k, base),
        ),
{
    let w = k as int + 1;
    let ext = with_counter(truth, x, w, base);
    lemma_combinatorial_exactly(truth, x, k);
    if count_true(truth, x) == k {
        lemma_sequential_counter_extends(truth, x, k, base);
    }
    if formula_holds(ext, sequential_counter(x, k, base)) {
        lemma_sequential_counter(ext, x, k, base);
        assert(0 <= x.len() * w) by (nonlinear_arith)
            requires
                0 <= w,
        ;
        assert forall|i: int| 0 <= i < x.len() implies lit_holds(ext, #[trigger] x[i])
            == lit_holds(truth, x[i]) by {
            assert(magnitude(x[i]) < base);
        }
        lemma_count_agrees(ext, truth, x);
    }
}

/// There are as many selections of `r` out of `n` literals as the binomial
/// coefficient says.
pub proof fn lemma_selections_len(x: Seq<int>, r: nat)
    ensures
        selections(x, r).len() == binomial(x.len(), r),
    decreases x.len(),
{
    if r == 0 {
    } else if x.len() < r {
        lemma_binomial_none(x.len(), r);
    } else {
        lemma_selections_len(x.drop_first(), (r - 1) as nat);
        lemma_selections_len(x.drop_first(), r);
    }
}

/// The subset encoding of "exactly `k` of `n`" has a clause for each subset
/// of `k + 1` and for each subset of `n - k + 1` of the literals.
pub proof fn lemma_combinatorial_len(x: Seq<int>, k: nat)
    requires
        k <= x.len(),
    ensures
        combinatorial_exactly(x, k).len() == binomial(x.len(), k + 1) + binomial(
            x.len(),
            (x.len() - k + 1) as nat,
        ),
{
    lemma_selections_len(x, k + 1);
    lemma_selections_len(x, (x.len() - k + 1) as nat);
}

/// The variables `1, ..., n`.
pub open spec fn first_variables(n: nat) -> Seq<int> {
    Seq::new(n, |i: int| i + 1)
}

/// How many of the variables `1, ..., upto` are true.
pub open spec fn true_below(truth: Set<int>, upto: int, n: nat) -> nat {
    count_true(truth, first_variables(n).take(upto))
}

proof fn lemma_true_below(truth: Set<int>, v: int, n: nat)
    requires
        1 <= v <= n,
    ensures
        true_below(truth.insert(v), v, n) == true_below(truth, v - 1, n) + 1,
        true_below(truth.remove(v), v, n) == true_below(truth, v - 1, n),
        true_below(truth, v, n) <= v,
{
    let x = first_variables(n);
    let upto = x.take(v);
    let before = x.take(v - 1);
    assert(upto.drop_last() =~= before);
    assert(upto.last() == v);
    assert forall|i: int| 0 <= i < before.len() implies lit_holds(
        truth.insert(v),
        #[trigger] before[i],
    ) == lit_holds(truth, before[i]) && lit_holds(truth.remove(v), before[i]) == lit_holds(
        truth,
        before[i],
    ) by {
        assert(before[i] == i + 1);
    }
    lemma_count_agrees(truth.insert(v), truth, before);
    lemma_count_agrees(truth.remove(v), truth, before);
    lemma_count_bound(truth, upto);
}

/// The number of ways to choose `k` out of `n`, and none where `k` is
/// negative.
pub open spec fn choices(n: int, k: int) -> nat {
    if 0 <= k && 0 <= n {
        binomial(n as nat, k as nat)
    } else {
        0
    }
}

proof fn lemma_choices(n: int, k: int)
    requires
        n >= 1,
    ensures
        choices(n, k) == choices(n - 1, k) + choices(n - 1, k - 1),
{
}

/// Where a formula has, over the variables from `n + 1` to `last`, one
/// model for each choice of the first `n` variables with exactly `k` of them
/// true, and none for any other, it has as many models over the variables
/// from `next` to `last` as there are ways to choose the true ones that are
/// still due.
proof fn lemma_count_chosen(
    f: Seq<Seq<int>>,
    truth: Set<int>,
    next: int,
    n: nat,
    k: nat,
    last: int,
)
    requires
        1 <= next <= n + 1,
        n <= last,
        forall|t: Set<int>|
            count_models(f, t, n as int + 1, last) == if #[trigger] count_true(
                t,
                first_variables(n),
            ) == k {
                1nat
            } else {
                0nat
            },
    ensures
        count_models(f, truth, next, last) == choices(
            n + 1 - next,
            k - true_below(truth, next - 1, n),
        ),
    decreases n + 1 - next,
{
    let x = first_variables(n);
    if next > n {
        assert(x.take(n as int) =~= x);
        assert(count_models(f, truth, n as int + 1, last) == if count_true(truth, x) == k {
            1nat
        } else {
            0nat
        });
    } else {
        let without = truth.remove(next);
        let with = truth.insert(next);
        lemma_count_chosen(f, without, next + 1, n, k, last);
        lemma_count_chosen(f, with, next + 1, n, k, last);
        lemma_true_below(truth, next, n);
        lemma_choices(n + 1 - next, k - true_below(truth, next - 1, n));
    }
}

/// The subset encoding of "exactly `k` of the variables `1, ..., n`" has as
/// many models as there are ways to choose `k` out of `n`.
pub proof fn lemma_exactly_k_count(n: nat, k: nat)
    ensures
        count_models(combinatorial_exactly(first_variables(n), k), Set::empty(), 1, n as int)
            == binomial(n, k),
{
    let x = first_variables(n);
    let f = combinatorial_exactly(x, k);
    assert forall|t: Set<int>|
        count_models(f, t, n as int + 1, n as int) == if #[trigger] count_true(t, x) == k {
            1nat
        } else {
            0nat
        } by {
        lemma_combinatorial_exactly(t, x, k);
    }
    lemma_count_chosen(f, Set::empty(), 1, n, k, n as int);
    assert(x.take(0) =~= Seq::<int>::empty());
}

/// Every auxiliary variable before `s[i][j]` says what it stands for.
pub open spec fn tracks_before(
    truth: Set<int>,
    x: Seq<int>,
    w: int,
    base: int,
    i: int,
    j: int,
) -> bool {
    forall|a: int, b: int|
        0 <= a < x.len() && 0 <= b < w && (a < i || (a == i && b < j)) ==> (
        #[trigger] counter_on(truth, base, w, a, b) <==> running_count(truth, x, a) >= b + 1)
}

/// The literals `x` are variables below `base`.
pub open spec fn positive_below(x: Seq<int>, base: int) -> bool {
    forall|t: int| 0 <= t < x.len() ==> 1 <= #[trigger] x[t] < base
}

proof fn lemma_aux_apart(truth: Set<int>, x: Seq<int>, base: int, w: int, i: int, j: int)
    requires
        0 <= i < x.len(),
        0 <= j < w,
        positive_below(x, base),
    ensures
        base <= counter_var(base, w, i, j) < base + x.len() * w,
        count_true(truth.insert(counter_var(base, w, i, j)), x) == count_true(
            truth,
            x,
        ),
        count_true(truth.remove(counter_var(base, w, i, j)), x) == count_true(
            truth,
            x,
        ),
        forall|a: int|
            0 <= a < x.len() ==> #[trigger] running_count(
                truth.insert(counter_var(base, w, i, j)),
                x,
                a,
            ) == running_count(truth, x, a),
        forall|a: int|
            0 <= a < x.len() ==> #[trigger] running_count(
                truth.remove(counter_var(base, w, i, j)),
                x,
                a,
            ) == running_count(truth, x, a),
        forall|a: int, b: int|
            0 <= a < x.len() && 0 <= b < w && (a != i || b != j) ==> #[trigger] counter_on(
                truth.insert(counter_var(base, w, i, j)),
                base,
                w,
                a,
                b,
            ) == counter_on(truth, base, w, a, b),
        forall|a: int, b: int|
            0 <= a < x.len() && 0 <= b < w && (a != i || b != j) ==> #[trigger] counter_on(
                truth.remove(counter_var(base, w, i, j)),
                base,
                w,
                a,
                b,
            ) == counter_on(truth, base, w, a, b),
{
    let v = counter_var(base, w, i, j);
    lemma_flat_index(i, j, x.len() as int, w);
    assert forall|t: int| 0 <= t < x.len() implies lit_holds(truth.insert(v), #[trigger] x[t])
        == lit_holds(truth, x[t]) && lit_holds(truth.remove(v), x[t]) == lit_holds(
        truth,
        x[t],
    ) by {
        assert(1 <= x[t] < base);
    }
    lemma_count_agrees(truth.insert(v), truth, x);
    lemma_count_agrees(truth.remove(v), truth, x);
    assert forall|a: int| 0 <= a < x.len() implies #[trigger] running_count(truth.insert(v), x, a)
        == running_count(truth, x, a) by {
        let p = x.take(a + 1);
        assert forall|t: int| 0 <= t < p.len() implies lit_holds(truth.insert(v), #[trigger] p[t])
            == lit_holds(truth, p[t]) by {
            assert(p[t] == x[t]);
            assert(1 <= x[t] < base);
        }
        lemma_count_agrees(truth.insert(v), truth, p);
    }
    assert forall|a: int| 0 <= a < x.len() implies #[trigger] running_count(truth.remove(v), x, a)
        == running_count(truth, x, a) by {
        let p = x.take(a + 1);
        assert forall|t: int| 0 <= t < p.len() implies lit_holds(truth.remove(v), #[trigger] p[t])
            == lit_holds(truth, p[t]) by {
            assert(p[t] == x[t]);
            assert(1 <= x[t] < base);
        }
        lemma_count_agrees(truth.remove(v), truth, p);
    }
    assert forall|a: int, b: int|
        0 <= a < x.len() && 0 <= b < w && (a != i || b != j) implies #[trigger] counter_on(
        truth.insert(v),
        base,
        w,
        a,
        b,
    ) == counter_on(truth, base, w, a, b) by {
        if counter_var(base, w, a, b) == v {
            lemma_flat_unique(w, a, b, i, j);
        }
    }
    assert forall|a: int, b: int|
        0 <= a < x.len() && 0 <= b < w && (a != i || b != j) implies #[trigger] counter_on(
        truth.remove(v),
        base,
        w,
        a,
        b,
    ) == counter_on(truth, base, w, a, b) by {
        if counter_var(base, w, a, b) == v {
            lemma_flat_unique(w, a, b, i, j);
        }
    }
}

/// The sequential counter has, over its auxiliary variables from `s[i][j]`
/// on, one model where exactly `k` inputs are true and the auxiliary
/// variables before `s[i][j]` say what they stand for, and none otherwise:
/// the inputs decide the auxiliary variables.
proof fn lemma_count_auxiliary(truth: Set<int>, x: Seq<int>, k: nat, base: int, i: int, j: int)
    requires
        0 < k <= x.len(),
        0 <= i <= x.len(),
        0 <= j <= k + 1,
        i == x.len() ==> j == 0,
        positive_below(x, base),
    ensures
        count_models(
            sequential_counter(x, k, base),
            truth,
            counter_var(base, k as int + 1, i, j),
            base + x.len() * (k + 1) - 1,
        ) == if count_true(truth, x) == k && tracks_before(
            truth,
            x,
            k as int + 1,
            base,
            i,
            j,
        ) {
            1nat
        } else {
            0nat
        },
    decreases x.len() - i, k + 1 - j,
{
    let w = k as int + 1;
    let n = x.len();
    let f = sequential_counter(x, k, base);
    let last = base + n * w - 1;
    let v = counter_var(base, w, i, j);
    if i == n {
        assert(v == last + 1);
        assert forall|t: int| 0 <= t < x.len() implies #[trigger] x[t] != 0 by {
            assert(1 <= x[t] < base);
        }
        assert(base >= 1) by {
            assert(1 <= x[0] < base);
        }
        lemma_sequential_counter(truth, x, k, base);
        assert(tracks_before(truth, x, w, base, i, j) == counter_tracks(truth, x, w, base));
    } else if j == w {
        assert(i * w + w == (i + 1) * w) by (nonlinear_arith);
        assert(v == counter_var(base, w, i + 1, 0));
        lemma_count_auxiliary(truth, x, k, base, i + 1, 0);
        assert(tracks_before(truth, x, w, base, i, j) == tracks_before(
            truth,
            x,
            w,
            base,
            i + 1,
            0,
        ));
    } else {
        let without = truth.remove(v);
        let with = truth.insert(v);
        lemma_aux_apart(truth, x, base, w, i, j);
        assert(v + 1 == counter_var(base, w, i, j + 1));
        lemma_count_auxiliary(without, x, k, base, i, j + 1);
        lemma_count_auxiliary(with, x, k, base, i, j + 1);
        let due = running_count(truth, x, i) >= j + 1;
        assert(!counter_on(without, base, w, i, j));
        assert(counter_on(with, base, w, i, j));
        assert(tracks_before(without, x, w, base, i, j + 1) == (tracks_before(
            truth,
            x,
            w,
            base,
            i,
            j,
        ) && !due)) by {
            if tracks_before(without, x, w, base, i, j + 1) {
                assert(counter_on(without, base, w, i, j) <==> running_count(without, x, i) >= j
                    + 1);
                assert forall|a: int, b: int|
                    0 <= a < x.len() && 0 <= b < w && (a < i || (a == i && b < j)) implies (
                #[trigger] counter_on(truth, base, w, a, b) <==> running_count(truth, x, a) >= b
                    + 1) by {
                    assert(counter_on(without, base, w, a, b) <==> running_count(without, x, a)
                        >= b + 1);
                }
            }
            if tracks_before(truth, x, w, base, i, j) && !due {
                assert forall|a: int, b: int|
                    0 <= a < x.len() && 0 <= b < w && (a < i || (a == i && b < j + 1)) implies (
                #[trigger] counter_on(without, base, w, a, b) <==> running_count(without, x, a)
                    >= b + 1) by {
                    if a != i || b != j {
                        assert(counter_on(truth, base, w, a, b) <==> running_count(truth, x, a)
                            >= b + 1);
                    }
                }
            }
        }
        assert(tracks_before(with, x, w, base, i, j + 1) == (tracks_before(
            truth,
            x,
            w,
            base,
            i,
            j,
        ) && due)) by {
            if tracks_before(with, x, w, base, i, j + 1) {
                assert(counter_on(with, base, w, i, j) <==> running_count(with, x, i) >= j + 1);
                assert forall|a: int, b: int|
                    0 <= a < x.len() && 0 <= b < w && (a < i || (a == i && b < j)) implies (
                #[trigger] counter_on(truth, base, w, a, b) <==> running_count(truth, x, a) >= b
                    + 1) by {
                    assert(counter_on(with, base, w, a, b) <==> running_count(with, x, a) >= b
                        + 1);
                }
            }
            if tracks_before(truth, x, w, base, i, j) && due {
                assert forall|a: int, b: int|
                    0 <= a < x.len() && 0 <= b < w && (a < i || (a == i && b < j + 1)) implies (
                #[trigger] counter_on(with, base, w, a, b) <==> running_count(with, x, a) >= b
                    + 1) by {
                    if a != i || b != j {
                        assert(counter_on(truth, base, w, a, b) <==> running_count(truth, x, a)
                            >= b + 1);
                    }
                }
            }
        }
    }
}

/// The sequential counter for "exactly `k` of the variables `1, ..., n`",
/// with its auxiliary variables behind them, has as many models as there are
/// ways to choose `k` out of `n`: as many as the subset encoding.
pub proof fn lemma_sequential_count(n: nat, k: nat)
    ensures
        count_models(
            sequential_counter(first_variables(n), k, n as int + 1),
            Set::empty(),
            1,
            n as int + counter_demand(n, k),
        ) == binomial(n, k),
{
    let x = first_variables(n);
    let f = sequential_counter(x, k, n as int + 1);
    let last = n as int + counter_demand(n, k);
    assert forall|t: int| 0 <= t < x.len() implies #[trigger] x[t] != 0 by {}
    assert forall|t: Set<int>|
        count_models(f, t, n as int + 1, last) == if #[trigger] count_true(t, x) == k {
            1nat
        } else {
            0nat
        } by {
        if 0 < k <= n {
            assert forall|u: int| 0 <= u < x.len() implies 1 <= #[trigger] x[u] < n + 1 by {}
            lemma_count_auxiliary(t, x, k, n as int + 1, 0, 0);
            assert(counter_var(n as int + 1, k as int + 1, 0, 0) == n + 1);
        } else {
            lemma_sequential_counter(t, x, k, n as int + 1);
        }
    }
    assert(0 <= counter_demand(n, k));
    lemma_count_chosen(f, Set::empty(), 1, n, k, last);
    assert(x.take(0) =~= Seq::<int>::empty());
}

/// The number of ways to choose the variables `vars[from], ...` and then the
/// variables `next, ..., last`, the others being as `truth` has them, so
/// that the formula holds.
pub open spec fn count_over(
    f: Seq<Seq<int>>,
    truth: Set<int>,
    vars: Seq<int>,
    from: int,
    next: int,
    last: int,
) -> nat
    decreases vars.len() - from,
{
    if from >= vars.len() || from < 0 {
        count_models(f, truth, next, last)
    } else {
        count_over(f, truth.remove(vars[from]), vars, from + 1, next, last) + count_over(
            f,
            truth.insert(vars[from]),
            vars,
            from + 1,
            next,
            last,
        )
    }
}

proof fn lemma_count_chosen_over(
    f: Seq<Seq<int>>,
    truth: Set<int>,
    x: Seq<int>,
    from: int,
    k: nat,
    next: int,
    last: int,
)
    requires
        0 <= from <= x.len(),
        x.no_duplicates(),
        forall|t: int| 0 <= t < x.len() ==> 1 <= #[trigger] x[t],
        forall|t: Set<int>|
            count_models(f, t, next, last) == if #[trigger] count_true(t, x) == k {
                1nat
            } else {
                0nat
            },
    ensures
        count_over(f, truth, x, from, next, last) == choices(
            x.len() - from,
            k - count_true(truth, x.take(from)),
        ),
    decreases x.len() - from,
{
    if from >= x.len() {
        assert(x.take(from) =~= x);
        assert(count_models(f, truth, next, last) == if count_true(truth, x) == k {
            1nat
        } else {
            0nat
        });
    } else {
        let v = x[from];
        let without = truth.remove(v);
        let with = truth.insert(v);
        lemma_count_chosen_over(f, without, x, from + 1, k, next, last);
        lemma_count_chosen_over(f, with, x, from + 1, k, next, last);
        let upto = x.take(from + 1);
        let before = x.take(from);
        assert(upto.drop_last() =~= before);
        assert(upto.last() == v);
        assert forall|i: int| 0 <= i < before.len() implies lit_holds(with, #[trigger] before[i])
            == lit_holds(truth, before[i]) && lit_holds(without, before[i]) == lit_holds(
            truth,
            before[i],
        ) by {
            assert(before[i] == x[i]);
            assert(x[i] != x[from]);
            assert(1 <= x[i]);
        }
        lemma_count_agrees(with, truth, before);
        lemma_count_agrees(without, truth, before);
        lemma_count_bound(truth, before);
        lemma_choices(x.len() - from, k - count_true(truth, before));
    }
}

/// The subset encoding of "exactly `k` of `x`", for different variables `x`,
/// has as many models as there are ways to choose `k` out of them.
pub proof fn lemma_combinatorial_count(x: Seq<int>, k: nat)
    requires
        x.no_duplicates(),
        forall|t: int| 0 <= t < x.len() ==> 1 <= #[trigger] x[t],
    ensures
        count_over(combinatorial_exactly(x, k), Set::empty(), x, 0, 1, 0) == binomial(x.len(), k),
{
    let f = combinatorial_exactly(x, k);
    assert forall|t: Set<int>|
        count_models(f, t, 1, 0) == if #[trigger] count_true(t, x) == k {
            1nat
        } else {
            0nat
        } by {
        lemma_combinatorial_exactly(t, x, k);
    }
    lemma_count_chosen_over(f, Set::empty(), x, 0, k, 1, 0);
    assert(x.take(0) =~= Seq::<int>::empty());
}

/// The sequential counter for "exactly `k` of `x`", for different variables
/// `x` below its auxiliary variables, has as many models over `x` and the
/// auxiliary variables as there are ways to choose `k` out of `x`.
pub proof fn lemma_sequential_count_over(x: Seq<int>, k: nat, base: int)
    requires
        x.no_duplicates(),
        positive_below(x, base),
        1 <= base,
    ensures
        count_over(
            sequential_counter(x, k, base),
            Set::empty(),
            x,
            0,
            base,
            base + counter_demand(x.len(), k) - 1,
        ) == binomial(x.len(), k),
{
    let f = sequential_counter(x, k, base);
    let last = base + counter_demand(x.len(), k) - 1;
    assert forall|t: int| 0 <= t < x.len() implies #[trigger] x[t] != 0 by {
        assert(1 <= x[t] < base);
    }
    assert forall|t: Set<int>|
        count_models(f, t, base, last) == if #[trigger] count_true(t, x) == k {
            1nat
        } else {
            0nat
        } by {
        if 0 < k <= x.len() {
            lemma_count_auxiliary(t, x, k, base, 0, 0);
            assert(counter_var(base, k as int + 1, 0, 0) == base);
        } else {
            lemma_sequential_counter(t, x, k, base);
        }
    }
    assert forall|t: int| 0 <= t < x.len() implies 1 <= #[trigger] x[t] by {
        assert(1 <= x[t] < base);
    }
    lemma_count_chosen_over(f, Set::empty(), x, 0, k, base, last);
    assert(x.take(0) =~= Seq::<int>::empty());
}

/// Two models of the sequential counter that choose the inputs alike choose
/// the auxiliary variables alike: the extension of a choice of the inputs to
/// a model is unique.
pub proof fn lemma_sequential_unique(t1: Set<int>, t2: Set<int>, x: Seq<int>, k: nat, base: int)
    requires
        all_nonzero(x),
        base >= 1,
        0 < k <= x.len(),
        formula_holds(t1, sequential_counter(x, k, base)),
        formula_holds(t2, sequential_counter(x, k, base)),
        forall|i: int| 0 <= i < x.len() ==> lit_holds(t1, #[trigger] x[i]) == lit_holds(t2, x[i]),
    ensures
        forall|i: int, j: int|
            0 <= i < x.len() && 0 <= j <= k ==> #[trigger] counter_on(
                t1,
                base,
                k as int + 1,
                i,
                j,
            ) == counter_on(t2, base, k as int + 1, i, j),
{
    let w = k as int + 1;
    lemma_sequential_counter(t1, x, k, base);
    lemma_sequential_counter(t2, x, k, base);
    assert forall|i: int, j: int| 0 <= i < x.len() && 0 <= j <= k implies #[trigger] counter_on(
        t1,
        base,
        w,
        i,
        j,
    ) == counter_on(t2, base, w, i, j) by {
        let p = x.take(i + 1);
        assert forall|t: int| 0 <= t < p.len() implies lit_holds(t1, #[trigger] p[t])
            == lit_holds(t2, p[t]) by {
            assert(p[t] == x[t]);
        }
        lemma_count_agrees(t1, t2, p);
        assert(counter_on(t1, base, w, i, j) <==> running_count(t1, x, i) >= j + 1);
        assert(counter_on(t2, base, w, i, j) <==> running_count(t2, x, i) >= j + 1);
    }
}

/// The assignments `t1` and `t2` choose alike every variable that is not one
/// of the `size` variables from `base` on.
pub open spec fn agrees_off_block(t1: Set<int>, t2: Set<int>, base: int, size: int) -> bool {
    forall|v: int| !(base <= v < base + size) ==> (t1.contains(v) <==> t2.contains(v))
}

/// The assignment `truth` can be changed on the auxiliary variables of the
/// counter so that the counter holds.
pub open spec fn extends_to_model(truth: Set<int>, x: Seq<int>, k: nat, base: int) -> bool {
    exists|ext: Set<int>|
        agrees_off_block(ext, truth, base, counter_demand(x.len(), k) as int)
            && #[trigger] formula_holds(ext, sequential_counter(x, k, base))
}

/// A choice of the inputs extends to a model of the sequential counter
/// exactly when it makes exactly `k` of the inputs true.
pub proof fn lemma_sequential_extension(truth: Set<int>, x: Seq<int>, k: nat, base: int)
    requires
        all_nonzero(x),
        base >= 1,
        forall|i: int| 0 <= i < x.len() ==> magnitude(#[trigger] x[i]) < base,
    ensures
        extends_to_model(truth, x, k, base) <==> count_true(truth, x) == k,
{
    let f = sequential_counter(x, k, base);
    let size = counter_demand(x.len(), k) as int;
    if count_true(truth, x) == k {
        lemma_count_bound(truth, x);
        if 0 < k <= x.len() {
            let ext = with_counter(truth, x, k as int + 1, base);
            lemma_sequential_counter_extends(truth, x, k, base);
            assert(agrees_off_block(ext, truth, base, size));
            assert(formula_holds(ext, f));
        } else {
            lemma_sequential_counter(truth, x, k, base);
            assert(agrees_off_block(truth, truth, base, size));
            assert(formula_holds(truth, f));
        }
    }
    if extends_to_model(truth, x, k, base) {
        let ext = choose|ext: Set<int>|
            agrees_off_block(ext, truth, base, size) && #[trigger] formula_holds(ext, f);
        lemma_sequential_counter(ext, x, k, base);
        assert forall|i: int| 0 <= i < x.len() implies lit_holds(ext, #[trigger] x[i])
            == lit_holds(truth, x[i]) by {
            assert(magnitude(x[i]) < base);
        }
        lemma_count_agrees(ext, truth, x);
    }
}

/// None of the literals counts exactly when each of them is false.
pub proof fn lemma_none_true(truth: Set<int>, x: Seq<int>)
    ensures
        count_true(truth, x) == 0 <==> forall|i: int|
            0 <= i < x.len() ==> !lit_holds(truth, #[trigger] x[i]),
{
    lemma_all_false(truth, x, x.len() as int);
    assert(x.take(x.len() as int) =~= x);
}

/// All of the literals count exactly when each of them is true.
pub proof fn lemma_all_true(truth: Set<int>, x: Seq<int>)
    ensures
        count_true(truth, x) == x.len() <==> forall|i: int|
            0 <= i < x.len() ==> lit_holds(truth, #[trigger] x[i]),
    decreases x.len(),
{
    if x.len() > 0 {
        let before = x.drop_last();
        lemma_all_true(truth, before);
        lemma_count_bound(truth, before);
        if count_true(truth, x) == x.len() {
            assert forall|i: int| 0 <= i < x.len() implies lit_holds(truth, #[trigger] x[i]) by {
                if i < before.len() {
                    assert(before[i] == x[i]);
                }
            }
        }
        if forall|i: int| 0 <= i < x.len() ==> lit_holds(truth, #[trigger] x[i]) {
            assert forall|i: int| 0 <= i < before.len() implies lit_holds(
                truth,
                #[trigger] before[i],
            ) by {
                assert(before[i] == x[i]);
            }
            assert(lit_holds(truth, x[x.len() - 1]));
        }
    }
}

/// To ask for more true literals than there are is to ask for what cannot
/// be: neither encoding has a model then.
pub proof fn lemma_more_than_all(x: Seq<int>, k: nat, base: int)
    requires
        k > x.len(),
    ensures
        !satisfiable(sequential_counter(x, k, base)),
        !satisfiable(combinatorial_exactly(x, k)),
{
    assert forall|truth: Set<int>| !formula_holds(truth, sequential_counter(x, k, base)) by {
        lemma_holds_one(truth, Seq::<int>::empty());
        lemma_empty_clause(truth);
    }
    assert forall|truth: Set<int>| !formula_holds(truth, combinatorial_exactly(x, k)) by {
        lemma_holds_one(truth, Seq::<int>::empty());
        lemma_empty_clause(truth);
    }
}

/// Every literal of the clause names one of the variables `1, ..., hi`.
pub open spec fn clause_within(c: Seq<int>, hi: int) -> bool {
    forall|i: int| 0 <= i < c.len() ==> 1 <= magnitude(#[trigger] c[i]) <= hi
}

proof fn lemma_within_each(f: Seq<Seq<int>>, hi: int)
    requires
        forall|j: int| 0 <= j < f.len() ==> clause_within(#[trigger] f[j], hi),
    ensures
        literals_within(f, hi),
{
    assert forall|j: int, i: int| 0 <= j < f.len() && 0 <= i < f[j].len() implies 1 <= magnitude(
        #[trigger] f[j][i],
    ) <= hi by {
        assert(clause_within(f[j], hi));
    }
}

/// The sequential counter names its inputs and its own auxiliary variables,
/// and no other variable.
pub proof fn lemma_counter_literals(x: Seq<int>, k: nat, base: int)
    requires
        base >= 1,
        forall|i: int| 0 <= i < x.len() ==> 1 <= magnitude(#[trigger] x[i]) < base,
    ensures
        literals_within(
            sequential_counter(x, k, base),
            base + counter_demand(x.len(), k) - 1,
        ),
{
    let n = x.len();
    let f = sequential_counter(x, k, base);
    let hi = base + counter_demand(n, k) - 1;
    if k > n {
        assert forall|j: int| 0 <= j < f.len() implies clause_within(#[trigger] f[j], hi) by {}
        lemma_within_each(f, hi);
    } else if n == 0 {
        lemma_within_each(f, hi);
    } else if k == 0 {
        assert forall|j: int| 0 <= j < f.len() implies clause_within(#[trigger] f[j], hi) by {
            assert(f[j] == seq![-x[j]]);
            assert(magnitude(x[j]) < base);
        }
        lemma_within_each(f, hi);
    } else {
        let w = k as int + 1;
        assert forall|i: int, j: int| 0 <= i < n && 0 <= j < w implies base <= #[trigger] counter_var(
            base,
            w,
            i,
            j,
        ) <= hi by {
            lemma_flat_index(i, j, n as int, w);
        }
        assert(magnitude(x[0]) < base);
        let first = counter_first(x, w, base);
        assert forall|j: int| 0 <= j < first.len() implies clause_within(
            #[trigger] first[j],
            hi,
        ) by {
            assert(base <= counter_var(base, w, 0, 0) <= hi);
            if j >= 2 {
                assert(first[j] == seq![-counter_var(base, w, 0, j - 1)]);
                assert(base <= counter_var(base, w, 0, j - 1) <= hi);
            } else if j == 0 {
                assert(first[j] == seq![-x[0], counter_var(base, w, 0, 0)]);
            } else {
                assert(first[j] == seq![x[0], -counter_var(base, w, 0, 0)]);
            }
        }
        lemma_within_each(first, hi);
        let rows_group = |t: int| counter_row(x, w, base, t + 1);
        assert forall|t: int| 0 <= t < n - 1 implies literals_within(
            #[trigger] rows_group(t),
            hi,
        ) by {
            let i = t + 1;
            assert(magnitude(x[i]) < base);
            assert(base <= counter_var(base, w, i, 0) <= hi);
            assert(base <= counter_var(base, w, i - 1, 0) <= hi);
            let head = counter_row_head(x, w, base, i);
            assert forall|j: int| 0 <= j < head.len() implies clause_within(
                #[trigger] head[j],
                hi,
            ) by {}
            lemma_within_each(head, hi);
            let cells_group = |d: int| counter_cell(x, w, base, i, d + 1);
            assert forall|d: int| 0 <= d < w - 1 implies literals_within(
                #[trigger] cells_group(d),
                hi,
            ) by {
                let j = d + 1;
                assert(base <= counter_var(base, w, i, j) <= hi);
                assert(base <= counter_var(base, w, i - 1, j) <= hi);
                assert(base <= counter_var(base, w, i - 1, j - 1) <= hi);
                let cell = counter_cell(x, w, base, i, j);
                assert forall|c: int| 0 <= c < cell.len() implies clause_within(
                    #[trigger] cell[c],
                    hi,
                ) by {}
                lemma_within_each(cell, hi);
            }
            lemma_within_groups((w - 1) as nat, cells_group, hi);
            lemma_within_concat(head, counter_cells(x, w, base, i, (w - 1) as nat), hi);
        }
        lemma_within_groups((n - 1) as nat, rows_group, hi);
        let goal = counter_goal(n as int, k as int, base);
        assert(base <= counter_var(base, w, n - 1, k - 1) <= hi);
        assert(base <= counter_var(base, w, n - 1, k as int) <= hi);
        assert forall|j: int| 0 <= j < goal.len() implies clause_within(#[trigger] goal[j], hi) by {}
        lemma_within_each(goal, hi);
        let rows = counter_rows(x, w, base, (n - 1) as nat);
        lemma_within_concat(first, rows, hi);
        lemma_within_concat(first + rows, goal, hi);
    }
}

} // verus!
