//! Formulas written in the DIMACS CNF format.
//!
//! A header line `p cnf <variables> <clauses>`, then one line for each
//! clause: its literals in order, each followed by a blank, and a closing 0.

use crate::cnf::{clause_view, formula_view, num_vars, variable_count};
use crate::text::{decimal, push_decimal, push_signed_decimal, signed_decimal, string_push};
use vstd::prelude::*;

verus! {

/// The first `upto` literals of a clause as they are written, each followed
/// by a blank.
pub open spec fn literals_text(c: Seq<int>, upto: nat) -> Seq<char>
    decreases upto,
{
    if upto == 0 {
        Seq::empty()
    } else {
        literals_text(c, (upto - 1) as nat) + signed_decimal(c[upto - 1]) + seq![' ']
    }
}

/// The line of a clause: its literals, a 0 and a line feed.
pub open spec fn clause_line(c: Seq<int>) -> Seq<char> {
    literals_text(c, c.len()) + seq!['0', '\n']
}

/// The lines of the first `upto` clauses.
pub open spec fn clause_lines(f: Seq<Seq<int>>, upto: nat) -> Seq<char>
    decreases upto,
{
    if upto == 0 {
        Seq::empty()
    } else {
        clause_lines(f, (upto - 1) as nat) + clause_line(f[upto - 1])
    }
}

/// The header line of a formula.
pub open spec fn header_line(f: Seq<Seq<int>>) -> Seq<char> {
    "p cnf "@ + decimal(variable_count(f)) + seq![' '] + decimal(f.len()) + seq!['\n']
}

/// A formula in the DIMACS CNF format.
pub open spec fn dimacs_text(f: Seq<Seq<int>>) -> Seq<char> {
    header_line(f) + clause_lines(f, f.len())
}

/// The formula in the DIMACS CNF format. The number of variables in the
/// header is the largest variable that the formula names.
pub fn to_dimacs(clauses: &[Vec<isize>]) -> (text: String)
    ensures
        text@ == dimacs_text(formula_view(clauses@)),
{
    let ghost f = formula_view(clauses@);
    let mut text = String::from_str("p cnf ");
    push_decimal(&mut text, num_vars(clauses));
    string_push(&mut text, ' ');
    push_decimal(&mut text, clauses.len());
    string_push(&mut text, '\n');
    assert(text@ =~= header_line(f));
    let mut j: usize = 0;
    while j < clauses.len()
        invariant
            j <= clauses@.len(),
            f == formula_view(clauses@),
            text@ =~= header_line(f) + clause_lines(f, j as nat),
        decreases clauses@.len() - j,
    {
        let clause = &clauses[j];
        let ghost c = clause_view(clause@);
        let ghost line_start = text@;
        let mut i: usize = 0;
        while i < clause.len()
            invariant
                i <= clause@.len(),
                c == clause_view(clause@),
                text@ =~= line_start + literals_text(c, i as nat),
            decreases clause@.len() - i,
        {
            push_signed_decimal(&mut text, clause[i]);
            string_push(&mut text, ' ');
            i += 1;
        }
        string_push(&mut text, '0');
        string_push(&mut text, '\n');
        assert(text@ =~= line_start + clause_line(c));
        j += 1;
    }
    text
}

} // verus!
