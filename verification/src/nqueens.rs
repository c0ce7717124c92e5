//! The N-Queens problem as a satisfiability problem.
//!
//! `n` queens stand on an `n`×`n` board so that no two share a row, a column
//! or a diagonal. One variable for each square says that a queen stands on
//! it.

use crate::cnf::{
    at_most_one, clause_holds, clause_view, concat_groups, formula_holds, formula_view,
    lemma_holds_concat, lemma_holds_groups, lemma_holds_pair, lemma_negation,
    lemma_pairwise_exclusions, lemma_within_concat, lemma_within_groups, lemma_within_pairwise,
    lit_holds, literals_within, magnitude, pairwise_exclusions, push_clause, push_pair,
    push_pairwise_exclusions,
};
use vstd::prelude::*;
use vstd::seq_lib::to_multiset_remove;

verus! {

/// The squares of the queens, in ascending order by row, then column.
pub struct Queens(Vec<(usize, usize)>);

impl View for Queens {
    type V = Seq<(usize, usize)>;

    closed spec fn view(&self) -> Seq<(usize, usize)> {
        self.0@
    }
}

impl Queens {
    /// The squares as `(row, column)`, in ascending order.
    pub fn squares(&self) -> (s: &Vec<(usize, usize)>)
        ensures
            s@ == self@,
    {
        &self.0
    }
}

/// The variable of the square in row `r`, column `c` of a board of side `n`.
pub open spec fn queens_var(r: int, c: int, n: int) -> int {
    r * n + c + 1
}

proof fn lemma_var_bounds(r: int, c: int, n: int)
    requires
        0 <= r < n,
        0 <= c < n,
    ensures
        1 <= queens_var(r, c, n) <= n * n,
        0 <= r * n,
        (queens_var(r, c, n) - 1) / n == r,
        (queens_var(r, c, n) - 1) % n == c,
{
    assert(0 <= r * n) by (nonlinear_arith)
        requires
            0 <= r,
            0 <= n,
    ;
    assert(r * n + n <= n * n) by (nonlinear_arith)
        requires
            r + 1 <= n,
            0 <= n,
    ;
    vstd::arithmetic::div_mod::lemma_fundamental_div_mod_converse(r * n + c, n, r, c);
}

/// The variable of the square in row `r`, column `c`, both counted from 0.
pub fn coords_to_var(r: usize, c: usize, n: usize) -> (v: isize)
    requires
        r < n,
        c < n,
        n * n <= isize::MAX,
    ensures
        v == queens_var(r as int, c as int, n as int),
        1 <= v <= n * n,
{
    proof {
        lemma_var_bounds(r as int, c as int, n as int);
    }
    (r * n + c + 1) as isize
}

/// The row and column of the square that variable `var` stands for: the
/// inverse of `coords_to_var`.
pub fn var_to_coords(var: usize, n: usize) -> (rc: (usize, usize))
    requires
        1 <= var,
        1 <= n,
    ensures
        rc.0 == (var - 1) / (n as int),
        rc.1 == (var - 1) % (n as int),
        rc.1 < n,
        queens_var(rc.0 as int, rc.1 as int, n as int) == var,
{
    let zero_based_var = var - 1;
    let r = zero_based_var / n;
    let c = zero_based_var % n;
    proof {
        vstd::arithmetic::div_mod::lemma_fundamental_div_mod(zero_based_var as int, n as int);
        assert(r * n == n * r) by (nonlinear_arith);
    }
    (r, c)
}

/// Both directions of the numbering undo each other on the board.
pub proof fn lemma_var_coords(r: int, c: int, n: int)
    requires
        0 <= r < n,
        0 <= c < n,
    ensures
        (queens_var(r, c, n) - 1) / n == r,
        (queens_var(r, c, n) - 1) % n == c,
        1 <= queens_var(r, c, n) <= n * n,
{
    lemma_var_bounds(r, c, n);
}

/// The variables of row `r`, by column.
pub open spec fn row_vars(r: int, n: int) -> Seq<int> {
    Seq::new(n as nat, |c: int| queens_var(r, c, n))
}

/// The variables of column `c`, by row.
pub open spec fn col_vars(c: int, n: int) -> Seq<int> {
    Seq::new(n as nat, |r: int| queens_var(r, c, n))
}

/// A queen in each of the first `upto` rows.
pub open spec fn rows_filled(n: int, upto: nat) -> Seq<Seq<int>> {
    Seq::new(upto, |r: int| row_vars(r, n))
}

/// No two queens in any of the first `upto` rows.
pub open spec fn rows_single(n: int, upto: nat) -> Seq<Seq<int>> {
    concat_groups(upto, |r: int| pairwise_exclusions(row_vars(r, n)))
}

/// No two queens in any of the first `upto` columns.
pub open spec fn cols_single(n: int, upto: nat) -> Seq<Seq<int>> {
    concat_groups(upto, |c: int| pairwise_exclusions(col_vars(c, n)))
}

/// How many squares lie below and to the right of `(r, c)` on its diagonal.
pub open spec fn down_right(r: int, c: int, n: int) -> int {
    if n - r <= n - c {
        n - r - 1
    } else {
        n - c - 1
    }
}

/// How many squares lie below and to the left of `(r, c)` on its diagonal.
pub open spec fn down_left(r: int, c: int, n: int) -> int {
    if n - r - 1 <= c {
        n - r - 1
    } else {
        c
    }
}

/// The first `upto` clauses that keep a second queen off the diagonal that
/// runs from `(r, c)` down to the right.
pub open spec fn main_diagonal(r: int, c: int, n: int, upto: nat) -> Seq<Seq<int>> {
    Seq::new(upto, |i: int| seq![-queens_var(r, c, n), -queens_var(r + i + 1, c + i + 1, n)])
}

/// The first `upto` clauses that keep a second queen off the diagonal that
/// runs from `(r, c)` down to the left.
pub open spec fn anti_diagonal(r: int, c: int, n: int, upto: nat) -> Seq<Seq<int>> {
    Seq::new(upto, |i: int| seq![-queens_var(r, c, n), -queens_var(r + i + 1, c - i - 1, n)])
}

/// No queen on either diagonal below the square `(r, c)`, if one stands on it.
pub open spec fn square_diagonals(r: int, c: int, n: int) -> Seq<Seq<int>> {
    main_diagonal(r, c, n, down_right(r, c, n) as nat) + anti_diagonal(
        r,
        c,
        n,
        down_left(r, c, n) as nat,
    )
}

/// The diagonal clauses of the first `upto` squares of row `r`.
pub open spec fn row_diagonals(r: int, n: int, upto: nat) -> Seq<Seq<int>> {
    concat_groups(upto, |c: int| square_diagonals(r, c, n))
}

/// The diagonal clauses of the first `upto` rows.
pub open spec fn diagonals(n: int, upto: nat) -> Seq<Seq<int>> {
    concat_groups(upto, |r: int| row_diagonals(r, n, n as nat))
}

/// The formula of the board of side `n`: a queen in every row, no two in a
/// row, no two in a column, no two on a diagonal. Every pair of squares on a
/// line is named once, from its upper square.
pub open spec fn queens_clauses(n: int) -> Seq<Seq<int>> {
    rows_filled(n, n as nat) + rows_single(n, n as nat) + cols_single(n, n as nat) + diagonals(
        n,
        n as nat,
    )
}

fn row_group(r: usize, n: usize) -> (g: Vec<isize>)
    requires
        r < n,
        n * n <= isize::MAX,
    ensures
        clause_view(g@) == row_vars(r as int, n as int),
        forall|i: int| 0 <= i < g@.len() ==> 1 <= #[trigger] g@[i],
{
    let mut g: Vec<isize> = Vec::new();
    let mut c: usize = 0;
    while c < n
        invariant
            c <= n,
            r < n,
            n * n <= isize::MAX,
            g@.len() == c,
            forall|t: int| 0 <= t < c ==> #[trigger] g@[t] == queens_var(r as int, t, n as int),
            forall|i: int| 0 <= i < g@.len() ==> 1 <= #[trigger] g@[i],
        decreases n - c,
    {
        g.push(coords_to_var(r, c, n));
        c += 1;
    }
    assert(clause_view(g@) =~= row_vars(r as int, n as int));
    g
}

fn col_group(c: usize, n: usize) -> (g: Vec<isize>)
    requires
        c < n,
        n * n <= isize::MAX,
    ensures
        clause_view(g@) == col_vars(c as int, n as int),
        forall|i: int| 0 <= i < g@.len() ==> 1 <= #[trigger] g@[i],
{
    let mut g: Vec<isize> = Vec::new();
    let mut r: usize = 0;
    while r < n
        invariant
            r <= n,
            c < n,
            n * n <= isize::MAX,
            g@.len() == r,
            forall|t: int| 0 <= t < r ==> #[trigger] g@[t] == queens_var(t, c as int, n as int),
            forall|i: int| 0 <= i < g@.len() ==> 1 <= #[trigger] g@[i],
        decreases n - r,
    {
        g.push(coords_to_var(r, c, n));
        r += 1;
    }
    assert(clause_view(g@) =~= col_vars(c as int, n as int));
    g
}

/// The formula of the board of side `n`: its models are the ways to place
/// `n` queens.
pub fn generate_clauses(n: usize) -> (clauses: Vec<Vec<isize>>)
    requires
        n * n <= isize::MAX,
    ensures
        formula_view(clauses@) == queens_clauses(n as int),
{
    let ghost ni = n as int;
    let mut clauses: Vec<Vec<isize>> = Vec::new();
    assert(formula_view(clauses@) =~= rows_filled(ni, 0));
    let mut r: usize = 0;
    while r < n
        invariant
            r <= n,
            ni == n,
            n * n <= isize::MAX,
            formula_view(clauses@) =~= rows_filled(ni, r as nat),
        decreases n - r,
    {
        push_clause(&mut clauses, row_group(r, n));
        r += 1;
    }
    let ghost s1 = formula_view(clauses@);
    r = 0;
    while r < n
        invariant
            r <= n,
            ni == n,
            n * n <= isize::MAX,
            formula_view(clauses@) =~= s1 + rows_single(ni, r as nat),
        decreases n - r,
    {
        let group = row_group(r, n);
        push_pairwise_exclusions(&mut clauses, &group);
        r += 1;
    }
    let ghost s2 = formula_view(clauses@);
    let mut c: usize = 0;
    while c < n
        invariant
            c <= n,
            ni == n,
            n * n <= isize::MAX,
            formula_view(clauses@) =~= s2 + cols_single(ni, c as nat),
        decreases n - c,
    {
        let group = col_group(c, n);
        push_pairwise_exclusions(&mut clauses, &group);
        c += 1;
    }
    let ghost s3 = formula_view(clauses@);
    let mut r1: usize = 0;
    while r1 < n
        invariant
            r1 <= n,
            ni == n,
            n * n <= isize::MAX,
            formula_view(clauses@) =~= s3 + diagonals(ni, r1 as nat),
        decreases n - r1,
    {
        let ghost row_start = formula_view(clauses@);
        let mut c1: usize = 0;
        while c1 < n
            invariant
                c1 <= n,
                r1 < n,
                ni == n,
                n * n <= isize::MAX,
                formula_view(clauses@) =~= row_start + row_diagonals(r1 as int, ni, c1 as nat),
            decreases n - c1,
        {
            let ghost square_start = formula_view(clauses@);
            let here = coords_to_var(r1, c1, n);
            let reach = if n - r1 <= n - c1 {
                n - r1
            } else {
                n - c1
            };
            let mut i: usize = 1;
            while i < reach
                invariant
                    1 <= i <= reach,
                    reach == down_right(r1 as int, c1 as int, ni) + 1,
                    r1 < n,
                    c1 < n,
                    ni == n,
                    n * n <= isize::MAX,
                    here == queens_var(r1 as int, c1 as int, ni),
                    formula_view(clauses@) =~= square_start + main_diagonal(
                        r1 as int,
                        c1 as int,
                        ni,
                        (i - 1) as nat,
                    ),
                decreases reach - i,
            {
                let r2 = r1 + i;
                let c2 = c1 + i;
                push_pair(&mut clauses, -here, -coords_to_var(r2, c2, n));
                i += 1;
            }
            let ghost anti_start = formula_view(clauses@);
            let back = if n - r1 - 1 <= c1 {
                n - r1 - 1
            } else {
                c1
            };
            i = 1;
            while i <= back
                invariant
                    1 <= i <= back + 1,
                    back == down_left(r1 as int, c1 as int, ni),
                    r1 < n,
                    c1 < n,
                    ni == n,
                    n * n <= isize::MAX,
                    here == queens_var(r1 as int, c1 as int, ni),
                    formula_view(clauses@) =~= anti_start + anti_diagonal(
                        r1 as int,
                        c1 as int,
                        ni,
                        (i - 1) as nat,
                    ),
                decreases back + 1 - i,
            {
                let r2 = r1 + i;
                let c2 = c1 - i;
                push_pair(&mut clauses, -here, -coords_to_var(r2, c2, n));
                i += 1;
            }
            assert(formula_view(clauses@) =~= square_start + square_diagonals(
                r1 as int,
                c1 as int,
                ni,
            ));
            c1 += 1;
        }
        r1 += 1;
    }
    clauses
}

/// Whether literal `l` asserts a square of the board of side `n`.
pub open spec fn asserts_square(l: int, n: int) -> bool {
    n >= 1 && l >= 1 && (l - 1) / n < n
}

/// The squares that the literals of `m` assert, in the order of `m`. Negative
/// literals and variables beyond the board are passed over.
pub open spec fn asserted_squares(m: Seq<int>, n: int) -> Seq<(usize, usize)>
    decreases m.len(),
{
    if m.len() == 0 {
        Seq::empty()
    } else if asserts_square(m.last(), n) {
        asserted_squares(m.drop_last(), n).push(
            (((m.last() - 1) / n) as usize, ((m.last() - 1) % n) as usize),
        )
    } else {
        asserted_squares(m.drop_last(), n)
    }
}

/// Whether square `a` comes before square `b`, or is `b`.
pub open spec fn square_le(a: (usize, usize), b: (usize, usize)) -> bool {
    a.0 < b.0 || (a.0 == b.0 && a.1 <= b.1)
}

/// Squares in ascending order by row, then column.
pub open spec fn ascending(s: Seq<(usize, usize)>) -> bool {
    forall|i: int, j: int| 0 <= i < j < s.len() ==> square_le(s[i], s[j])
}

fn insert_ascending(squares: &mut Vec<(usize, usize)>, square: (usize, usize))
    requires
        ascending(old(squares)@),
    ensures
        ascending(final(squares)@),
        final(squares)@.to_multiset() == old(squares)@.to_multiset().insert(square),
{
    let mut at: usize = 0;
    while at < squares.len() && (squares[at].0 < square.0 || (squares[at].0 == square.0
        && squares[at].1 <= square.1))
        invariant
            at <= squares@.len(),
            squares@ == old(squares)@,
            forall|t: int| 0 <= t < at ==> square_le(#[trigger] squares@[t], square),
        decreases squares@.len() - at,
    {
        at += 1;
    }
    squares.insert(at, square);
    proof {
        let before = old(squares)@;
        let after = squares@;
        assert(after.remove(at as int) =~= before);
        to_multiset_remove(after, at as int);
        assert(after.to_multiset().count(square) >= 1) by {
            after.to_multiset_ensures();
            assert(after.contains(after[at as int]));
        }
        assert(after.to_multiset() =~= before.to_multiset().insert(square));
        assert forall|i: int, j: int| 0 <= i < j < after.len() implies square_le(
            after[i],
            after[j],
        ) by {
            if j < at {
                assert(after[i] == before[i] && after[j] == before[j]);
            } else if j == at {
                assert(after[i] == before[i]);
            } else if i < at {
                assert(after[i] == before[i] && after[j] == before[j - 1]);
            } else if i == at {
                assert(after[j] == before[j - 1]);
                assert(!square_le(before[at as int], square));
                assert(square_le(before[at as int], before[j - 1]) || at == j - 1);
            } else {
                assert(after[i] == before[i - 1] && after[j] == before[j - 1]);
            }
        }
    }
}

/// The placement that a model describes: the squares it asserts, in
/// ascending order.
pub fn decode_solution(model: &[isize], n: usize) -> (queens: Queens)
    ensures
        ascending(queens@),
        queens@.to_multiset() == asserted_squares(clause_view(model@), n as int).to_multiset(),
{
    let ghost m = clause_view(model@);
    let mut squares: Vec<(usize, usize)> = Vec::new();
    assert(m.take(0) =~= Seq::<int>::empty());
    let mut p: usize = 0;
    while p < model.len()
        invariant
            p <= model@.len(),
            m == clause_view(model@),
            ascending(squares@),
            squares@.to_multiset() == asserted_squares(m.take(p as int), n as int).to_multiset(),
        decreases model@.len() - p,
    {
        let lit = model[p];
        proof {
            let upto = m.take(p + 1);
            assert(upto.drop_last() =~= m.take(p as int));
            assert(upto.last() == lit);
            asserted_squares(m.take(p as int), n as int).to_multiset_ensures();
        }
        if n >= 1 && lit >= 1 {
            let (r, c) = var_to_coords(lit as usize, n);
            if r < n {
                insert_ascending(&mut squares, (r, c));
            }
        }
        p += 1;
    }
    assert(m.take(model@.len() as int) =~= m);
    Queens(squares)
}


/// A queen stands on the square in row `r`, column `c`.
pub open spec fn queen_on(truth: Set<int>, r: int, c: int, n: int) -> bool {
    truth.contains(queens_var(r, c, n))
}

/// Two different squares in one row, one column or on one diagonal.
pub open spec fn in_line(r1: int, c1: int, r2: int, c2: int) -> bool {
    (r1 != r2 || c1 != c2) && (r1 == r2 || c1 == c2 || r1 - c1 == r2 - c2 || r1 + c1 == r2 + c2)
}

/// A queen stands in row `r`.
pub open spec fn row_taken(truth: Set<int>, r: int, n: int) -> bool {
    exists|c: int| 0 <= c < n && #[trigger] queen_on(truth, r, c, n)
}

/// A queen stands in every row, and no two queens stand in line.
pub open spec fn placement(truth: Set<int>, n: int) -> bool {
    &&& forall|r: int| 0 <= r < n ==> #[trigger] row_taken(truth, r, n)
    &&& forall|r1: int, c1: int, r2: int, c2: int|
        0 <= r1 < n && 0 <= c1 < n && 0 <= r2 < n && 0 <= c2 < n && in_line(r1, c1, r2, c2) ==> !(
        #[trigger] queen_on(truth, r1, c1, n) && #[trigger] queen_on(truth, r2, c2, n))
}

/// No queen stands below the square `(r, c)` on one of its diagonals, if one
/// stands on it.
pub open spec fn diagonals_free(truth: Set<int>, r: int, c: int, n: int) -> bool {
    &&& forall|i: int|
        0 <= i < down_right(r, c, n) ==> !(queen_on(truth, r, c, n) && #[trigger] queen_on(
            truth,
            r + i + 1,
            c + i + 1,
            n,
        ))
    &&& forall|i: int|
        0 <= i < down_left(r, c, n) ==> !(queen_on(truth, r, c, n) && #[trigger] queen_on(
            truth,
            r + i + 1,
            c - i - 1,
            n,
        ))
}

proof fn lemma_square_diagonals(truth: Set<int>, r: int, c: int, n: int)
    requires
        0 <= r < n,
        0 <= c < n,
    ensures
        formula_holds(truth, square_diagonals(r, c, n)) <==> diagonals_free(truth, r, c, n),
{
    let main = main_diagonal(r, c, n, down_right(r, c, n) as nat);
    let anti = anti_diagonal(r, c, n, down_left(r, c, n) as nat);
    lemma_holds_concat(truth, main, anti);
    lemma_var_bounds(r, c, n);
    lemma_negation(truth, queens_var(r, c, n));
    assert forall|i: int| 0 <= i < down_right(r, c, n) implies (clause_holds(
        truth,
        #[trigger] main[i],
    ) <==> !(queen_on(truth, r, c, n) && queen_on(truth, r + i + 1, c + i + 1, n))) by {
        lemma_var_bounds(r + i + 1, c + i + 1, n);
        lemma_holds_pair(truth, -queens_var(r, c, n), -queens_var(r + i + 1, c + i + 1, n));
        lemma_negation(truth, queens_var(r + i + 1, c + i + 1, n));
    }
    assert forall|i: int| 0 <= i < down_left(r, c, n) implies (clause_holds(
        truth,
        #[trigger] anti[i],
    ) <==> !(queen_on(truth, r, c, n) && queen_on(truth, r + i + 1, c - i - 1, n))) by {
        lemma_var_bounds(r + i + 1, c - i - 1, n);
        lemma_holds_pair(truth, -queens_var(r, c, n), -queens_var(r + i + 1, c - i - 1, n));
        lemma_negation(truth, queens_var(r + i + 1, c - i - 1, n));
    }
    if formula_holds(truth, main) && formula_holds(truth, anti) {
        assert forall|i: int| 0 <= i < down_right(r, c, n) implies !(queen_on(truth, r, c, n)
            && #[trigger] queen_on(truth, r + i + 1, c + i + 1, n)) by {
            assert(clause_holds(truth, main[i]));
        }
        assert forall|i: int| 0 <= i < down_left(r, c, n) implies !(queen_on(truth, r, c, n)
            && #[trigger] queen_on(truth, r + i + 1, c - i - 1, n)) by {
            assert(clause_holds(truth, anti[i]));
        }
    }
    if diagonals_free(truth, r, c, n) {
        assert forall|i: int| 0 <= i < main.len() implies clause_holds(truth, #[trigger] main[i]) by {
            assert(!(queen_on(truth, r, c, n) && queen_on(truth, r + i + 1, c + i + 1, n)));
        }
        assert forall|i: int| 0 <= i < anti.len() implies clause_holds(truth, #[trigger] anti[i]) by {
            assert(!(queen_on(truth, r, c, n) && queen_on(truth, r + i + 1, c - i - 1, n)));
        }
    }
}

/// What the formula of a board asks of an assignment, group by group.
pub open spec fn queens_meaning(truth: Set<int>, n: int) -> bool {
    &&& forall|r: int| 0 <= r < n ==> clause_holds(truth, #[trigger] row_vars(r, n))
    &&& forall|r: int| 0 <= r < n ==> at_most_one(truth, #[trigger] row_vars(r, n))
    &&& forall|c: int| 0 <= c < n ==> at_most_one(truth, #[trigger] col_vars(c, n))
    &&& forall|r: int, c: int|
        0 <= r < n && 0 <= c < n ==> #[trigger] diagonals_free(truth, r, c, n)
}

proof fn lemma_queens_groups(truth: Set<int>, n: int)
    requires
        0 <= n,
    ensures
        formula_holds(truth, queens_clauses(n)) <==> queens_meaning(truth, n),
{
    let f1 = rows_filled(n, n as nat);
    let f2 = rows_single(n, n as nat);
    let f3 = cols_single(n, n as nat);
    let f4 = diagonals(n, n as nat);
    lemma_holds_concat(truth, f1, f2);
    lemma_holds_concat(truth, f1 + f2, f3);
    lemma_holds_concat(truth, f1 + f2 + f3, f4);
    let g2 = |r: int| pairwise_exclusions(row_vars(r, n));
    let g3 = |c: int| pairwise_exclusions(col_vars(c, n));
    let g4 = |r: int| row_diagonals(r, n, n as nat);
    lemma_holds_groups(truth, n as nat, g2);
    lemma_holds_groups(truth, n as nat, g3);
    lemma_holds_groups(truth, n as nat, g4);
    assert forall|r: int| 0 <= r < n implies (formula_holds(truth, #[trigger] g2(r))
        <==> at_most_one(truth, row_vars(r, n))) by {
        assert forall|i: int| 0 <= i < row_vars(r, n).len() implies row_vars(r, n)[i] != 0 by {
            lemma_var_bounds(r, i, n);
        }
        lemma_pairwise_exclusions(truth, row_vars(r, n));
    }
    assert forall|c: int| 0 <= c < n implies (formula_holds(truth, #[trigger] g3(c))
        <==> at_most_one(truth, col_vars(c, n))) by {
        assert forall|i: int| 0 <= i < col_vars(c, n).len() implies col_vars(c, n)[i] != 0 by {
            lemma_var_bounds(i, c, n);
        }
        lemma_pairwise_exclusions(truth, col_vars(c, n));
    }
    assert forall|r: int| 0 <= r < n implies (formula_holds(truth, #[trigger] g4(r))
        <==> forall|c: int| 0 <= c < n ==> #[trigger] diagonals_free(truth, r, c, n)) by {
        let h = |c: int| square_diagonals(r, c, n);
        lemma_holds_groups(truth, n as nat, h);
        assert forall|c: int| 0 <= c < n implies (formula_holds(truth, #[trigger] h(c))
            <==> diagonals_free(truth, r, c, n)) by {
            lemma_square_diagonals(truth, r, c, n);
        }
        if formula_holds(truth, g4(r)) {
            assert forall|c: int| 0 <= c < n implies #[trigger] diagonals_free(truth, r, c, n) by {
                assert(formula_holds(truth, h(c)));
            }
        }
        if forall|c: int| 0 <= c < n ==> #[trigger] diagonals_free(truth, r, c, n) {
            assert forall|c: int| 0 <= c < n implies formula_holds(truth, #[trigger] h(c)) by {
                assert(diagonals_free(truth, r, c, n));
            }
        }
    }
    if formula_holds(truth, queens_clauses(n)) {
        assert forall|r: int| 0 <= r < n implies clause_holds(truth, #[trigger] row_vars(r, n)) by {
            assert(f1[r] == row_vars(r, n));
        }
        assert forall|r: int| 0 <= r < n implies at_most_one(truth, #[trigger] row_vars(r, n)) by {
            assert(formula_holds(truth, g2(r)));
        }
        assert forall|c: int| 0 <= c < n implies at_most_one(truth, #[trigger] col_vars(c, n)) by {
            assert(formula_holds(truth, g3(c)));
        }
        assert forall|r: int, c: int| 0 <= r < n && 0 <= c < n implies #[trigger] diagonals_free(
            truth,
            r,
            c,
            n,
        ) by {
            assert(formula_holds(truth, g4(r)));
        }
    }
    if queens_meaning(truth, n) {
        assert forall|r: int| 0 <= r < f1.len() implies clause_holds(truth, #[trigger] f1[r]) by {
            assert(clause_holds(truth, row_vars(r, n)));
        }
        assert forall|r: int| 0 <= r < n implies formula_holds(truth, #[trigger] g2(r)) by {
            assert(at_most_one(truth, row_vars(r, n)));
        }
        assert forall|c: int| 0 <= c < n implies formula_holds(truth, #[trigger] g3(c)) by {
            assert(at_most_one(truth, col_vars(c, n)));
        }
        assert forall|r: int| 0 <= r < n implies formula_holds(truth, #[trigger] g4(r)) by {
            assert forall|c: int| 0 <= c < n implies #[trigger] diagonals_free(truth, r, c, n) by {}
        }
    }
}

/// The models of the formula of a board are the placements of queens: an
/// assignment satisfies the formula exactly when a queen stands in every row
/// and no two queens stand in one row, one column or on one diagonal.
pub proof fn lemma_queens_placements(truth: Set<int>, n: int)
    requires
        0 <= n,
    ensures
        formula_holds(truth, queens_clauses(n)) <==> placement(truth, n),
{
    lemma_queens_groups(truth, n);
    if queens_meaning(truth, n) {
        assert forall|r: int| 0 <= r < n implies #[trigger] row_taken(truth, r, n) by {
            let vars = row_vars(r, n);
            assert(clause_holds(truth, vars));
            let c = choose|c: int| 0 <= c < vars.len() && lit_holds(truth, #[trigger] vars[c]);
            lemma_var_bounds(r, c, n);
            assert(queen_on(truth, r, c, n));
        }
        assert forall|r1: int, c1: int, r2: int, c2: int|
            0 <= r1 < n && 0 <= c1 < n && 0 <= r2 < n && 0 <= c2 < n && in_line(
                r1,
                c1,
                r2,
                c2,
            ) implies !(#[trigger] queen_on(truth, r1, c1, n) && #[trigger] queen_on(
            truth,
            r2,
            c2,
            n,
        )) by {
            lemma_var_bounds(r1, c1, n);
            lemma_var_bounds(r2, c2, n);
            if r1 == r2 {
                let vars = row_vars(r1, n);
                assert(at_most_one(truth, vars));
                if c1 < c2 {
                    assert(!(lit_holds(truth, vars[c1]) && lit_holds(truth, vars[c2])));
                } else {
                    assert(!(lit_holds(truth, vars[c2]) && lit_holds(truth, vars[c1])));
                }
            } else if c1 == c2 {
                let vars = col_vars(c1, n);
                assert(at_most_one(truth, vars));
                if r1 < r2 {
                    assert(!(lit_holds(truth, vars[r1]) && lit_holds(truth, vars[r2])));
                } else {
                    assert(!(lit_holds(truth, vars[r2]) && lit_holds(truth, vars[r1])));
                }
            } else if r1 < r2 {
                lemma_on_diagonal(truth, r1, c1, r2, c2, n);
            } else {
                lemma_on_diagonal(truth, r2, c2, r1, c1, n);
            }
        }
    }
    if placement(truth, n) {
        assert forall|r: int| 0 <= r < n implies clause_holds(truth, #[trigger] row_vars(r, n)) by {
            assert(row_taken(truth, r, n));
            let c = choose|c: int| 0 <= c < n && #[trigger] queen_on(truth, r, c, n);
            lemma_var_bounds(r, c, n);
            assert(lit_holds(truth, row_vars(r, n)[c]));
        }
        assert forall|r: int| 0 <= r < n implies at_most_one(truth, #[trigger] row_vars(r, n)) by {
            let vars = row_vars(r, n);
            assert forall|i: int, j: int| 0 <= i < j < vars.len() implies !(lit_holds(
                truth,
                #[trigger] vars[i],
            ) && lit_holds(truth, #[trigger] vars[j])) by {
                lemma_var_bounds(r, i, n);
                lemma_var_bounds(r, j, n);
                assert(in_line(r, i, r, j));
                assert(!(queen_on(truth, r, i, n) && queen_on(truth, r, j, n)));
            }
        }
        assert forall|c: int| 0 <= c < n implies at_most_one(truth, #[trigger] col_vars(c, n)) by {
            let vars = col_vars(c, n);
            assert forall|i: int, j: int| 0 <= i < j < vars.len() implies !(lit_holds(
                truth,
                #[trigger] vars[i],
            ) && lit_holds(truth, #[trigger] vars[j])) by {
                lemma_var_bounds(i, c, n);
                lemma_var_bounds(j, c, n);
                assert(in_line(i, c, j, c));
                assert(!(queen_on(truth, i, c, n) && queen_on(truth, j, c, n)));
            }
        }
        assert forall|r: int, c: int| 0 <= r < n && 0 <= c < n implies #[trigger] diagonals_free(
            truth,
            r,
            c,
            n,
        ) by {
            assert forall|i: int| 0 <= i < down_right(r, c, n) implies !(queen_on(truth, r, c, n)
                && #[trigger] queen_on(truth, r + i + 1, c + i + 1, n)) by {
                assert(in_line(r, c, r + i + 1, c + i + 1));
            }
            assert forall|i: int| 0 <= i < down_left(r, c, n) implies !(queen_on(truth, r, c, n)
                && #[trigger] queen_on(truth, r + i + 1, c - i - 1, n)) by {
                assert(in_line(r, c, r + i + 1, c - i - 1));
            }
        }
    }
}

proof fn lemma_on_diagonal(truth: Set<int>, r1: int, c1: int, r2: int, c2: int, n: int)
    requires
        0 <= r1 < r2 < n,
        0 <= c1 < n,
        0 <= c2 < n,
        r1 - c1 == r2 - c2 || r1 + c1 == r2 + c2,
        diagonals_free(truth, r1, c1, n),
    ensures
        !(queen_on(truth, r1, c1, n) && queen_on(truth, r2, c2, n)),
{
    let i = r2 - r1 - 1;
    if r1 - c1 == r2 - c2 {
        assert(0 <= i < down_right(r1, c1, n));
        assert(!(queen_on(truth, r1, c1, n) && queen_on(truth, r1 + i + 1, c1 + i + 1, n)));
    } else {
        assert(0 <= i < down_left(r1, c1, n));
        assert(!(queen_on(truth, r1, c1, n) && queen_on(truth, r1 + i + 1, c1 - i - 1, n)));
    }
}

/// The squares that a list of literals asserts are the squares of the board
/// whose variables it holds.
pub proof fn lemma_asserted_squares(m: Seq<int>, n: int, r: usize, c: usize)
    requires
        1 <= n,
        n * n <= usize::MAX,
    ensures
        asserted_squares(m, n).contains((r, c)) <==> r < n && c < n && m.contains(
            queens_var(r as int, c as int, n),
        ),
    decreases m.len(),
{
    let square = (r, c);
    let r = r as int;
    let c = c as int;
    if m.len() > 0 {
        let before = m.drop_last();
        let l = m.last();
        let all = asserted_squares(m, n);
        let earlier = asserted_squares(before, n);
        lemma_asserted_squares(before, n, square.0, square.1);
        assert(m =~= before.push(l));
        if asserts_square(l, n) {
            vstd::arithmetic::div_mod::lemma_fundamental_div_mod(l - 1, n);
            assert(n * ((l - 1) / n) == ((l - 1) / n) * n) by (nonlinear_arith);
            assert(0 <= (l - 1) / n) by (nonlinear_arith)
                requires
                    l - 1 >= 0,
                    n >= 1,
            ;
            assert(((l - 1) / n) * n <= n * n) by (nonlinear_arith)
                requires
                    0 <= (l - 1) / n < n,
                    n >= 1,
            ;
            assert(l == queens_var((l - 1) / n, (l - 1) % n, n));
            let rr = (l - 1) / n;
            let cc = (l - 1) % n;
            assert(0 <= rr < n && 0 <= cc < n);
            assert(n <= n * n) by (nonlinear_arith)
                requires
                    n >= 1,
            ;
            assert(all == earlier.push((rr as usize, cc as usize)));
            assert(all[all.len() - 1] == (rr as usize, cc as usize));
        } else {
            assert(all == earlier);
        }
        if r < n && c < n {
            lemma_var_bounds(r, c, n);
        }
        if all.contains(square) {
            let p = choose|p: int| 0 <= p < all.len() && all[p] == square;
            if p < earlier.len() {
                assert(earlier[p] == square);
                assert(earlier.contains(square));
                let q = choose|q: int| 0 <= q < before.len() && before[q] == queens_var(r, c, n);
                assert(m[q] == queens_var(r, c, n));
            } else {
                assert(m[m.len() - 1] == l);
                assert(asserts_square(l, n));
                assert(r == (l - 1) / n && c == (l - 1) % n);
            }
        }
        if r < n && c < n && m.contains(queens_var(r, c, n)) {
            let q = choose|q: int| 0 <= q < m.len() && m[q] == queens_var(r, c, n);
            if q < before.len() {
                assert(before[q] == queens_var(r, c, n));
                assert(before.contains(queens_var(r, c, n)));
                let p = choose|p: int| 0 <= p < earlier.len() && earlier[p] == square;
                assert(all[p] == square);
            } else {
                assert(l == queens_var(r, c, n));
                assert(asserts_square(l, n));
                assert(all[all.len() - 1] == square);
            }
        }
    } else {
        assert(asserted_squares(m, n).len() == 0);
    }
}

/// Every literal of the formula of a board names a square of the board: a
/// variable from 1 to `n * n`.
pub proof fn lemma_queens_literals(n: int)
    requires
        0 <= n,
    ensures
        literals_within(queens_clauses(n), n * n),
{
    let hi = n * n;
    let f1 = rows_filled(n, n as nat);
    let f2 = rows_single(n, n as nat);
    let f3 = cols_single(n, n as nat);
    let f4 = diagonals(n, n as nat);
    assert forall|j: int, i: int| 0 <= j < f1.len() && 0 <= i < f1[j].len() implies 1
        <= magnitude(#[trigger] f1[j][i]) <= hi by {
        lemma_var_bounds(j, i, n);
    }
    let g2 = |r: int| pairwise_exclusions(row_vars(r, n));
    assert forall|r: int| 0 <= r < n implies literals_within(#[trigger] g2(r), hi) by {
        assert forall|i: int| 0 <= i < row_vars(r, n).len() implies 1 <= magnitude(
            #[trigger] row_vars(r, n)[i],
        ) <= hi by {
            lemma_var_bounds(r, i, n);
        }
        lemma_within_pairwise(row_vars(r, n), hi);
    }
    lemma_within_groups(n as nat, g2, hi);
    let g3 = |c: int| pairwise_exclusions(col_vars(c, n));
    assert forall|c: int| 0 <= c < n implies literals_within(#[trigger] g3(c), hi) by {
        assert forall|i: int| 0 <= i < col_vars(c, n).len() implies 1 <= magnitude(
            #[trigger] col_vars(c, n)[i],
        ) <= hi by {
            lemma_var_bounds(i, c, n);
        }
        lemma_within_pairwise(col_vars(c, n), hi);
    }
    lemma_within_groups(n as nat, g3, hi);
    let g4 = |r: int| row_diagonals(r, n, n as nat);
    assert forall|r: int| 0 <= r < n implies literals_within(#[trigger] g4(r), hi) by {
        let h = |c: int| square_diagonals(r, c, n);
        assert forall|c: int| 0 <= c < n implies literals_within(#[trigger] h(c), hi) by {
            let main = main_diagonal(r, c, n, down_right(r, c, n) as nat);
            let anti = anti_diagonal(r, c, n, down_left(r, c, n) as nat);
            lemma_var_bounds(r, c, n);
            assert forall|j: int, i: int| 0 <= j < main.len() && 0 <= i < main[j].len() implies 1
                <= magnitude(#[trigger] main[j][i]) <= hi by {
                lemma_var_bounds(r + j + 1, c + j + 1, n);
            }
            assert forall|j: int, i: int| 0 <= j < anti.len() && 0 <= i < anti[j].len() implies 1
                <= magnitude(#[trigger] anti[j][i]) <= hi by {
                lemma_var_bounds(r + j + 1, c - j - 1, n);
            }
            lemma_within_concat(main, anti, hi);
        }
        lemma_within_groups(n as nat, h, hi);
    }
    lemma_within_groups(n as nat, g4, hi);
    lemma_within_concat(f1, f2, hi);
    lemma_within_concat(f1 + f2, f3, hi);
    lemma_within_concat(f1 + f2 + f3, f4, hi);
}

} // verus!
