//! Sudoku as a satisfiability problem.
//!
//! One variable for each cell and digit says that the cell holds the digit.
//! The clauses ask for a digit in every cell, for no two digits in a cell,
//! for no digit twice in a row, a column or a box, and for the given digits.

use crate::cnf::{
    at_most_one, clause_holds, clause_view, concat_groups, formula_holds, formula_view, is_model,
    lemma_groups_all, lemma_groups_contain, lemma_holds_concat, lemma_holds_groups,
    lemma_holds_one, lemma_holds_unit, lemma_model_truth, lemma_pairwise_exclusions,
    lemma_pairwise_pairs, lemma_unit_count_concat, lemma_unit_count_none, lit_holds, model_truth,
    pairwise_exclusions, push_clause, push_pairwise_exclusions, push_unit, unit_count,
};
use crate::text::{decimal, push_decimal};
use vstd::prelude::*;
use vstd::set_lib::{lemma_int_range, lemma_subset_equality, set_int_range};

verus! {

/// `std::io::Error`, carried through without looking inside.
#[verifier::external_type_specification]
#[verifier::external_body]
pub struct ExIoError(std::io::Error);

/// Why a puzzle could not be read.
#[derive(Debug)]
pub enum SudokuParseError {
    /// The text could not be fetched.
    IoError(std::io::Error),
    /// The text does not describe a grid.
    InvalidFormat(String),
}

impl From<std::io::Error> for SudokuParseError {
    fn from(error: std::io::Error) -> (r: Self) {
        SudokuParseError::IoError(error)
    }
}

impl vstd::std_specs::convert::FromSpecImpl<std::io::Error> for SudokuParseError {
    open spec fn obeys_from_spec() -> bool {
        true
    }

    open spec fn from_spec(error: std::io::Error) -> Self {
        SudokuParseError::IoError(error)
    }
}

/// A 9×9 grid of digits, row by row; 0 stands for an empty cell.
pub struct SudokuGrid {
    cells: Vec<u8>,
}

impl View for SudokuGrid {
    type V = Seq<u8>;

    /// The 81 cells, row by row.
    closed spec fn view(&self) -> Seq<u8> {
        self.cells@
    }
}

/// 81 cells, each empty or a digit.
pub open spec fn grid_shaped(cells: Seq<u8>) -> bool {
    &&& cells.len() == 81
    &&& forall|i: int| 0 <= i < 81 ==> #[trigger] cells[i] <= 9
}

/// A character that stands for a cell: a digit or a dot.
pub open spec fn is_cell_char(c: char) -> bool {
    ('0' <= c && c <= '9') || c == '.'
}

/// The digit a cell character stands for; a dot and `0` stand for empty.
pub open spec fn cell_value(c: char) -> u8 {
    if c == '1' {
        1
    } else if c == '2' {
        2
    } else if c == '3' {
        3
    } else if c == '4' {
        4
    } else if c == '5' {
        5
    } else if c == '6' {
        6
    } else if c == '7' {
        7
    } else if c == '8' {
        8
    } else if c == '9' {
        9
    } else {
        0
    }
}

/// The cells a text describes: its digits and dots in order, everything else
/// passed over.
pub open spec fn cells_of(text: Seq<char>) -> Seq<u8>
    decreases text.len(),
{
    if text.len() == 0 {
        Seq::empty()
    } else if is_cell_char(text.last()) {
        cells_of(text.drop_last()).push(cell_value(text.last()))
    } else {
        cells_of(text.drop_last())
    }
}

/// The message for a text with `found` cells where 81 are due.
pub open spec fn count_message(found: nat) -> Seq<char> {
    "Expected 81 cells, found "@ + decimal(found)
}

fn cell_char_value(c: char) -> (r: Option<u8>)
    ensures
        r is Some <==> is_cell_char(c),
        r matches Some(v) ==> v == cell_value(c) && v <= 9,
{
    if c >= '1' && c <= '9' {
        let v = (c as u32 - '0' as u32) as u8;
        assert(v == cell_value(c)) by {
            assert(c == '1' || c == '2' || c == '3' || c == '4' || c == '5' || c == '6' || c == '7'
                || c == '8' || c == '9');
        }
        Some(v)
    } else if c == '0' || c == '.' {
        Some(0)
    } else {
        None
    }
}

proof fn lemma_cells_bounded(text: Seq<char>)
    ensures
        forall|i: int| 0 <= i < cells_of(text).len() ==> #[trigger] cells_of(text)[i] <= 9,
    decreases text.len(),
{
    if text.len() > 0 {
        lemma_cells_bounded(text.drop_last());
        let before = cells_of(text.drop_last());
        assert(cell_value(text.last()) <= 9);
        assert forall|i: int| 0 <= i < cells_of(text).len() implies #[trigger] cells_of(text)[i]
            <= 9 by {
            if i < before.len() {
                assert(cells_of(text)[i] == before[i]);
            }
        }
    }
}

impl SudokuGrid {
    #[verifier::type_invariant]
    spec fn well_formed(&self) -> bool {
        grid_shaped(self.cells@)
    }

    /// Reads a puzzle from text. Digits and dots are cells, `0` and `.` the
    /// empty ones; all other characters are passed over. The text must hold
    /// exactly 81 cells.
    pub fn from_text(text: &str) -> (r: Result<SudokuGrid, SudokuParseError>)
        ensures
            match r {
                Ok(grid) => grid@ == cells_of(text@) && grid_shaped(grid@),
                Err(e) => cells_of(text@).len() != 81 && (e matches SudokuParseError::InvalidFormat(
                    msg,
                ) && msg@ == count_message(cells_of(text@).len())),
            },
    {
        let mut cells: Vec<u8> = Vec::new();
        proof {
            assert(text@.take(0) =~= Seq::<char>::empty());
        }
        for c in it: text.chars()
            invariant
                it.seq() == text@,
                cells@ == cells_of(text@.take(it.index() as int)),
        {
            proof {
                let upto = text@.take(it.index() + 1);
                assert(upto.drop_last() =~= text@.take(it.index() as int));
                assert(upto.last() == c);
            }
            match cell_char_value(c) {
                Some(v) => {
                    cells.push(v);
                },
                None => {},
            }
        }
        proof {
            assert(text@.take(text@.len() as int) =~= text@);
            lemma_cells_bounded(text@);
        }
        if cells.len() != 81 {
            let mut msg = String::from_str("Expected 81 cells, found ");
            push_decimal(&mut msg, cells.len());
            return Err(SudokuParseError::InvalidFormat(msg));
        }
        Ok(SudokuGrid { cells })
    }

    /// The digit in row `r`, column `c`, or 0 where the cell is empty.
    pub fn cell(&self, r: usize, c: usize) -> (d: u8)
        requires
            r < 9,
            c < 9,
        ensures
            d == self@[r * 9 + c],
            d <= 9,
    {
        proof {
            use_type_invariant(self);
        }
        self.cells[r * 9 + c]
    }
}

/// The variable that says "the cell in row `r`, column `c` holds `d`".
pub open spec fn sudoku_var(r: int, c: int, d: int) -> int {
    r * 81 + c * 9 + d
}

/// The variable for a cell counted row by row.
pub open spec fn cell_var(cell: int, d: int) -> int {
    cell * 9 + d
}

/// The variable for row `r`, column `c` and digit `d`; rows and columns are
/// counted from 0, digits from 1.
pub fn coords_to_var(r: usize, c: usize, d: usize) -> (v: isize)
    requires
        r < 9,
        c < 9,
        1 <= d <= 9,
    ensures
        v == sudoku_var(r as int, c as int, d as int),
        1 <= v <= 729,
{
    (r * 81 + c * 9 + (d - 1) + 1) as isize
}

/// The row, column and digit that variable `var` stands for: the inverse of
/// `coords_to_var`.
pub fn var_to_coords(var: usize) -> (rcd: (usize, usize, usize))
    requires
        1 <= var,
    ensures
        rcd.0 == (var - 1) / 81,
        rcd.1 == ((var - 1) / 9) % 9,
        rcd.2 == (var - 1) % 9 + 1,
        var <= 729 ==> rcd.0 < 9 && sudoku_var(rcd.0 as int, rcd.1 as int, rcd.2 as int) == var,
{
    let zero_based_var = var - 1;
    let r = zero_based_var / 81;
    let c = (zero_based_var / 9) % 9;
    let d = (zero_based_var % 9) + 1;
    (r, c, d)
}

/// Both directions of the numbering undo each other.
pub proof fn lemma_var_coords(r: int, c: int, d: int)
    requires
        0 <= r < 9,
        0 <= c < 9,
        1 <= d <= 9,
    ensures
        (sudoku_var(r, c, d) - 1) / 81 == r,
        ((sudoku_var(r, c, d) - 1) / 9) % 9 == c,
        (sudoku_var(r, c, d) - 1) % 9 + 1 == d,
        sudoku_var(r, c, d) == cell_var(r * 9 + c, d),
{
}

/// The nine variables of one cell, by digit.
pub open spec fn cell_vars(cell: int) -> Seq<int> {
    Seq::new(9, |k: int| cell_var(cell, k + 1))
}

/// The nine variables of digit `d` along row `r`.
pub open spec fn row_vars(r: int, d: int) -> Seq<int> {
    Seq::new(9, |c: int| sudoku_var(r, c, d))
}

/// The nine variables of digit `d` along column `c`.
pub open spec fn col_vars(c: int, d: int) -> Seq<int> {
    Seq::new(9, |r: int| sudoku_var(r, c, d))
}

/// The nine variables of digit `d` in the box in box row `br`, box column
/// `bc`, its cells taken row by row.
pub open spec fn box_vars(d: int, br: int, bc: int) -> Seq<int> {
    Seq::new(9, |k: int| sudoku_var(br * 3 + k / 3, bc * 3 + k % 3, d))
}

/// Every cell holds a digit.
pub open spec fn cells_filled() -> Seq<Seq<int>> {
    concat_groups(81, |cell: int| seq![cell_vars(cell)])
}

/// No cell holds two digits.
pub open spec fn cells_single() -> Seq<Seq<int>> {
    concat_groups(81, |cell: int| pairwise_exclusions(cell_vars(cell)))
}

/// No digit twice in a row: the rows in order, each digit by digit.
pub open spec fn rows_single() -> Seq<Seq<int>> {
    concat_groups(81, |t: int| pairwise_exclusions(row_vars(t / 9, t % 9 + 1)))
}

/// No digit twice in a column: the columns in order, each digit by digit.
pub open spec fn cols_single() -> Seq<Seq<int>> {
    concat_groups(81, |t: int| pairwise_exclusions(col_vars(t / 9, t % 9 + 1)))
}

/// No digit twice in a box: the digits in order, each box by box.
pub open spec fn boxes_single() -> Seq<Seq<int>> {
    concat_groups(81, |t: int| pairwise_exclusions(box_vars(t / 9 + 1, (t % 9) / 3, t % 3)))
}

/// The clause for the given digit of one cell, if it has one.
pub open spec fn given(seed: Seq<u8>, cell: int) -> Seq<Seq<int>> {
    if seed[cell] != 0 {
        seq![seq![cell_var(cell, seed[cell] as int)]]
    } else {
        Seq::empty()
    }
}

/// The given digits, as unit clauses.
pub open spec fn givens(seed: Seq<u8>) -> Seq<Seq<int>> {
    concat_groups(81, |cell: int| given(seed, cell))
}

/// The clauses of the first `upto` cells of `givens`.
pub open spec fn givens_upto(seed: Seq<u8>, upto: nat) -> Seq<Seq<int>> {
    concat_groups(upto, |cell: int| given(seed, cell))
}

/// The formula of a puzzle.
pub open spec fn sudoku_clauses(seed: Seq<u8>) -> Seq<Seq<int>> {
    cells_filled() + cells_single() + rows_single() + cols_single() + boxes_single() + givens(seed)
}


/// The clauses of the first `upto` groups of `cells_filled`.
pub open spec fn cells_filled_upto(upto: nat) -> Seq<Seq<int>> {
    concat_groups(upto, |cell: int| seq![cell_vars(cell)])
}

/// The clauses of the first `upto` groups of `cells_single`.
pub open spec fn cells_single_upto(upto: nat) -> Seq<Seq<int>> {
    concat_groups(upto, |cell: int| pairwise_exclusions(cell_vars(cell)))
}

/// The clauses of the first `upto` groups of `rows_single`.
pub open spec fn rows_single_upto(upto: nat) -> Seq<Seq<int>> {
    concat_groups(upto, |t: int| pairwise_exclusions(row_vars(t / 9, t % 9 + 1)))
}

/// The clauses of the first `upto` groups of `cols_single`.
pub open spec fn cols_single_upto(upto: nat) -> Seq<Seq<int>> {
    concat_groups(upto, |t: int| pairwise_exclusions(col_vars(t / 9, t % 9 + 1)))
}

/// The clauses of the first `upto` groups of `boxes_single`.
pub open spec fn boxes_single_upto(upto: nat) -> Seq<Seq<int>> {
    concat_groups(upto, |t: int| pairwise_exclusions(box_vars(t / 9 + 1, (t % 9) / 3, t % 3)))
}

fn cell_group(cell: usize) -> (g: Vec<isize>)
    requires
        cell < 81,
    ensures
        clause_view(g@) == cell_vars(cell as int),
        forall|i: int| 0 <= i < g@.len() ==> 1 <= #[trigger] g@[i] <= 729,
{
    let mut g: Vec<isize> = Vec::new();
    let mut k: usize = 0;
    while k < 9
        invariant
            k <= 9,
            cell < 81,
            g@.len() == k,
            forall|t: int| 0 <= t < k ==> #[trigger] g@[t] == cell_var(cell as int, t + 1),
        decreases 9 - k,
    {
        g.push(coords_to_var(cell / 9, cell % 9, k + 1));
        k += 1;
    }
    assert(clause_view(g@) =~= cell_vars(cell as int));
    g
}

fn row_group(r: usize, d: usize) -> (g: Vec<isize>)
    requires
        r < 9,
        1 <= d <= 9,
    ensures
        clause_view(g@) == row_vars(r as int, d as int),
        forall|i: int| 0 <= i < g@.len() ==> 1 <= #[trigger] g@[i] <= 729,
{
    let mut g: Vec<isize> = Vec::new();
    let mut c: usize = 0;
    while c < 9
        invariant
            c <= 9,
            r < 9,
            1 <= d <= 9,
            g@.len() == c,
            forall|t: int| 0 <= t < c ==> #[trigger] g@[t] == sudoku_var(r as int, t, d as int),
        decreases 9 - c,
    {
        g.push(coords_to_var(r, c, d));
        c += 1;
    }
    assert(clause_view(g@) =~= row_vars(r as int, d as int));
    g
}

fn col_group(c: usize, d: usize) -> (g: Vec<isize>)
    requires
        c < 9,
        1 <= d <= 9,
    ensures
        clause_view(g@) == col_vars(c as int, d as int),
        forall|i: int| 0 <= i < g@.len() ==> 1 <= #[trigger] g@[i] <= 729,
{
    let mut g: Vec<isize> = Vec::new();
    let mut r: usize = 0;
    while r < 9
        invariant
            r <= 9,
            c < 9,
            1 <= d <= 9,
            g@.len() == r,
            forall|t: int| 0 <= t < r ==> #[trigger] g@[t] == sudoku_var(t, c as int, d as int),
        decreases 9 - r,
    {
        g.push(coords_to_var(r, c, d));
        r += 1;
    }
    assert(clause_view(g@) =~= col_vars(c as int, d as int));
    g
}

fn box_group(d: usize, br: usize, bc: usize) -> (g: Vec<isize>)
    requires
        1 <= d <= 9,
        br < 3,
        bc < 3,
    ensures
        clause_view(g@) == box_vars(d as int, br as int, bc as int),
        forall|i: int| 0 <= i < g@.len() ==> 1 <= #[trigger] g@[i] <= 729,
{
    let mut g: Vec<isize> = Vec::new();
    let mut k: usize = 0;
    while k < 9
        invariant
            k <= 9,
            1 <= d <= 9,
            br < 3,
            bc < 3,
            g@.len() == k,
            forall|t: int|
                0 <= t < k ==> #[trigger] g@[t] == sudoku_var(
                    br * 3 + t / 3,
                    bc * 3 + t % 3,
                    d as int,
                ),
        decreases 9 - k,
    {
        g.push(coords_to_var(br * 3 + k / 3, bc * 3 + k % 3, d));
        k += 1;
    }
    assert(clause_view(g@) =~= box_vars(d as int, br as int, bc as int));
    g
}

/// The formula of the puzzle `initial_grid`: its models are the ways to fill
/// the grid.
pub fn generate_clauses(initial_grid: &SudokuGrid) -> (clauses: Vec<Vec<isize>>)
    ensures
        formula_view(clauses@) == sudoku_clauses(initial_grid@),
{
    proof {
        use_type_invariant(initial_grid);
    }
    let ghost seed = initial_grid@;
    let mut clauses: Vec<Vec<isize>> = Vec::new();
    assert(formula_view(clauses@) =~= Seq::<Seq<int>>::empty());
    let mut t: usize = 0;
    while t < 81
        invariant
            t <= 81,
            formula_view(clauses@) =~= cells_filled_upto(t as nat),
        decreases 81 - t,
    {
        push_clause(&mut clauses, cell_group(t));
        t += 1;
    }
    let ghost s1 = formula_view(clauses@);
    t = 0;
    while t < 81
        invariant
            t <= 81,
            formula_view(clauses@) =~= s1 + cells_single_upto(t as nat),
        decreases 81 - t,
    {
        let group = cell_group(t);
        push_pairwise_exclusions(&mut clauses, &group);
        t += 1;
    }
    let ghost s2 = formula_view(clauses@);
    t = 0;
    while t < 81
        invariant
            t <= 81,
            formula_view(clauses@) =~= s2 + rows_single_upto(t as nat),
        decreases 81 - t,
    {
        let group = row_group(t / 9, t % 9 + 1);
        push_pairwise_exclusions(&mut clauses, &group);
        t += 1;
    }
    let ghost s3 = formula_view(clauses@);
    t = 0;
    while t < 81
        invariant
            t <= 81,
            formula_view(clauses@) =~= s3 + cols_single_upto(t as nat),
        decreases 81 - t,
    {
        let group = col_group(t / 9, t % 9 + 1);
        push_pairwise_exclusions(&mut clauses, &group);
        t += 1;
    }
    let ghost s4 = formula_view(clauses@);
    t = 0;
    while t < 81
        invariant
            t <= 81,
            formula_view(clauses@) =~= s4 + boxes_single_upto(t as nat),
        decreases 81 - t,
    {
        let group = box_group(t / 9 + 1, (t % 9) / 3, t % 3);
        push_pairwise_exclusions(&mut clauses, &group);
        t += 1;
    }
    let ghost s5 = formula_view(clauses@);
    t = 0;
    while t < 81
        invariant
            t <= 81,
            seed == initial_grid@,
            grid_shaped(seed),
            formula_view(clauses@) =~= s5 + givens_upto(seed, t as nat),
        decreases 81 - t,
    {
        let d = initial_grid.cell(t / 9, t % 9);
        if d != 0 {
            push_unit(&mut clauses, coords_to_var(t / 9, t % 9, d as usize));
        }
        t += 1;
    }
    clauses
}

/// What a cell holds after the positive literals of `m` were read in order:
/// each one between 1 and 729 writes its digit into its cell; all other
/// literals are passed over.
pub open spec fn placed(m: Seq<int>) -> Seq<u8>
    decreases m.len(),
{
    if m.len() == 0 {
        Seq::new(81, |i: int| 0u8)
    } else if 1 <= m.last() <= 729 {
        placed(m.drop_last()).update((m.last() - 1) / 9, ((m.last() - 1) % 9 + 1) as u8)
    } else {
        placed(m.drop_last())
    }
}

/// The grid that a model describes.
pub fn decode_solution(model: &[isize]) -> (grid: SudokuGrid)
    ensures
        grid@ == placed(clause_view(model@)),
        grid_shaped(grid@),
{
    let ghost m = clause_view(model@);
    let mut cells: Vec<u8> = Vec::new();
    let mut i: usize = 0;
    while i < 81
        invariant
            i <= 81,
            cells@.len() == i,
            forall|t: int| 0 <= t < i ==> #[trigger] cells@[t] == 0,
        decreases 81 - i,
    {
        cells.push(0);
        i += 1;
    }
    assert(m.take(0) =~= Seq::<int>::empty());
    assert(cells@ =~= placed(m.take(0)));
    let mut p: usize = 0;
    while p < model.len()
        invariant
            p <= model@.len(),
            m == clause_view(model@),
            cells@ == placed(m.take(p as int)),
            grid_shaped(cells@),
        decreases model@.len() - p,
    {
        let lit = model[p];
        proof {
            let upto = m.take(p + 1);
            assert(upto.drop_last() =~= m.take(p as int));
            assert(upto.last() == lit);
        }
        if lit >= 1 && lit <= 729 {
            let (r, c, d) = var_to_coords(lit as usize);
            cells.set(r * 9 + c, d as u8);
        }
        p += 1;
    }
    assert(m.take(model@.len() as int) =~= m);
    SudokuGrid { cells }
}


/// The cell at place `k` of unit `u`. The units 0 to 8 are the rows, 9 to 17
/// the columns and 18 to 26 the boxes, each with nine places.
pub open spec fn unit_cell(u: int, k: int) -> int {
    if u < 9 {
        u * 9 + k
    } else if u < 18 {
        k * 9 + (u - 9)
    } else {
        (((u - 18) / 3) * 3 + k / 3) * 9 + ((u - 18) % 3) * 3 + k % 3
    }
}

/// Digit `d` stands somewhere in unit `u`.
pub open spec fn digit_in_unit(g: Seq<u8>, u: int, d: int) -> bool {
    exists|k: int| 0 <= k < 9 && g[#[trigger] unit_cell(u, k)] == d
}

/// A finished grid: every cell holds a digit from 1 to 9, and every row,
/// column and box holds each digit exactly once.
pub open spec fn solved(g: Seq<u8>) -> bool {
    &&& g.len() == 81
    &&& forall|cell: int| 0 <= cell < 81 ==> 1 <= #[trigger] g[cell] <= 9
    &&& forall|u: int, d: int| 0 <= u < 27 && 1 <= d <= 9 ==> #[trigger] digit_in_unit(g, u, d)
    &&& forall|u: int, k1: int, k2: int|
        0 <= u < 27 && 0 <= k1 < k2 < 9 ==> g[#[trigger] unit_cell(u, k1)] != g[#[trigger] unit_cell(
            u,
            k2,
        )]
}

/// Every given digit of `seed` stands in `g`.
pub open spec fn extends(g: Seq<u8>, seed: Seq<u8>) -> bool {
    forall|cell: int| 0 <= cell < 81 && seed[cell] != 0 ==> #[trigger] g[cell] == seed[cell]
}

/// The given digit of `cell`, if there is one, is chosen.
pub open spec fn given_chosen(truth: Set<int>, seed: Seq<u8>, cell: int) -> bool {
    seed[cell] != 0 ==> truth.contains(cell_var(cell, seed[cell] as int))
}

/// What the formula of a puzzle asks of an assignment.
pub open spec fn sudoku_meaning(truth: Set<int>, seed: Seq<u8>) -> bool {
    &&& forall|cell: int| 0 <= cell < 81 ==> clause_holds(truth, #[trigger] cell_vars(cell))
    &&& forall|cell: int| 0 <= cell < 81 ==> at_most_one(truth, #[trigger] cell_vars(cell))
    &&& forall|r: int, d: int|
        0 <= r < 9 && 1 <= d <= 9 ==> at_most_one(truth, #[trigger] row_vars(r, d))
    &&& forall|c: int, d: int|
        0 <= c < 9 && 1 <= d <= 9 ==> at_most_one(truth, #[trigger] col_vars(c, d))
    &&& forall|d: int, br: int, bc: int|
        1 <= d <= 9 && 0 <= br < 3 && 0 <= bc < 3 ==> at_most_one(
            truth,
            #[trigger] box_vars(d, br, bc),
        )
    &&& forall|cell: int| 0 <= cell < 81 ==> #[trigger] given_chosen(truth, seed, cell)
}

/// An assignment satisfies the formula of a puzzle exactly when it chooses
/// one digit for every cell, no digit twice in a row, column or box, and the
/// given digits.
pub proof fn lemma_sudoku_meaning(truth: Set<int>, seed: Seq<u8>)
    requires
        grid_shaped(seed),
    ensures
        formula_holds(truth, sudoku_clauses(seed)) <==> sudoku_meaning(truth, seed),
{
    let f1 = cells_filled();
    let f2 = cells_single();
    let f3 = rows_single();
    let f4 = cols_single();
    let f5 = boxes_single();
    let f6 = givens(seed);
    lemma_holds_concat(truth, f1, f2);
    lemma_holds_concat(truth, f1 + f2, f3);
    lemma_holds_concat(truth, f1 + f2 + f3, f4);
    lemma_holds_concat(truth, f1 + f2 + f3 + f4, f5);
    lemma_holds_concat(truth, f1 + f2 + f3 + f4 + f5, f6);
    let g1 = |cell: int| seq![cell_vars(cell)];
    let g2 = |cell: int| pairwise_exclusions(cell_vars(cell));
    let g3 = |t: int| pairwise_exclusions(row_vars(t / 9, t % 9 + 1));
    let g4 = |t: int| pairwise_exclusions(col_vars(t / 9, t % 9 + 1));
    let g5 = |t: int| pairwise_exclusions(box_vars(t / 9 + 1, (t % 9) / 3, t % 3));
    let g6 = |cell: int| given(seed, cell);
    lemma_holds_groups(truth, 81, g1);
    lemma_holds_groups(truth, 81, g2);
    lemma_holds_groups(truth, 81, g3);
    lemma_holds_groups(truth, 81, g4);
    lemma_holds_groups(truth, 81, g5);
    lemma_holds_groups(truth, 81, g6);
    assert forall|cell: int| 0 <= cell < 81 implies (formula_holds(truth, #[trigger] g1(cell))
        <==> clause_holds(truth, cell_vars(cell))) by {
        lemma_holds_one(truth, cell_vars(cell));
    }
    assert forall|cell: int| 0 <= cell < 81 implies (formula_holds(truth, #[trigger] g2(cell))
        <==> at_most_one(truth, cell_vars(cell))) by {
        lemma_pairwise_exclusions(truth, cell_vars(cell));
    }
    assert forall|t: int| 0 <= t < 81 implies (formula_holds(truth, #[trigger] g3(t))
        <==> at_most_one(truth, row_vars(t / 9, t % 9 + 1))) by {
        lemma_pairwise_exclusions(truth, row_vars(t / 9, t % 9 + 1));
    }
    assert forall|t: int| 0 <= t < 81 implies (formula_holds(truth, #[trigger] g4(t))
        <==> at_most_one(truth, col_vars(t / 9, t % 9 + 1))) by {
        lemma_pairwise_exclusions(truth, col_vars(t / 9, t % 9 + 1));
    }
    assert forall|t: int| 0 <= t < 81 implies (formula_holds(truth, #[trigger] g5(t))
        <==> at_most_one(truth, box_vars(t / 9 + 1, (t % 9) / 3, t % 3))) by {
        lemma_pairwise_exclusions(truth, box_vars(t / 9 + 1, (t % 9) / 3, t % 3));
    }
    assert forall|cell: int| 0 <= cell < 81 implies (formula_holds(truth, #[trigger] g6(cell))
        <==> given_chosen(truth, seed, cell)) by {
        if seed[cell] != 0 {
            let v = cell_var(cell, seed[cell] as int);
            lemma_holds_one(truth, seq![v]);
            lemma_holds_unit(truth, v);
        }
    }
    if formula_holds(truth, sudoku_clauses(seed)) {
        assert forall|cell: int| 0 <= cell < 81 implies clause_holds(
            truth,
            #[trigger] cell_vars(cell),
        ) by {
            assert(formula_holds(truth, g1(cell)));
        }
        assert forall|cell: int| 0 <= cell < 81 implies at_most_one(
            truth,
            #[trigger] cell_vars(cell),
        ) by {
            assert(formula_holds(truth, g2(cell)));
        }
        assert forall|r: int, d: int| 0 <= r < 9 && 1 <= d <= 9 implies at_most_one(
            truth,
            #[trigger] row_vars(r, d),
        ) by {
            let t = r * 9 + d - 1;
            assert(formula_holds(truth, g3(t)));
        }
        assert forall|c: int, d: int| 0 <= c < 9 && 1 <= d <= 9 implies at_most_one(
            truth,
            #[trigger] col_vars(c, d),
        ) by {
            let t = c * 9 + d - 1;
            assert(formula_holds(truth, g4(t)));
        }
        assert forall|d: int, br: int, bc: int|
            1 <= d <= 9 && 0 <= br < 3 && 0 <= bc < 3 implies at_most_one(
            truth,
            #[trigger] box_vars(d, br, bc),
        ) by {
            let t = (d - 1) * 9 + br * 3 + bc;
            assert(formula_holds(truth, g5(t)));
        }
        assert forall|cell: int| 0 <= cell < 81 implies #[trigger] given_chosen(
            truth,
            seed,
            cell,
        ) by {
            assert(formula_holds(truth, g6(cell)));
        }
    }
    if sudoku_meaning(truth, seed) {
        assert forall|cell: int| 0 <= cell < 81 implies formula_holds(truth, #[trigger] g1(cell)) by {
            assert(clause_holds(truth, cell_vars(cell)));
        }
        assert forall|cell: int| 0 <= cell < 81 implies formula_holds(truth, #[trigger] g2(cell)) by {
            assert(at_most_one(truth, cell_vars(cell)));
        }
        assert forall|t: int| 0 <= t < 81 implies formula_holds(truth, #[trigger] g3(t)) by {
            assert(at_most_one(truth, row_vars(t / 9, t % 9 + 1)));
        }
        assert forall|t: int| 0 <= t < 81 implies formula_holds(truth, #[trigger] g4(t)) by {
            assert(at_most_one(truth, col_vars(t / 9, t % 9 + 1)));
        }
        assert forall|t: int| 0 <= t < 81 implies formula_holds(truth, #[trigger] g5(t)) by {
            assert(at_most_one(truth, box_vars(t / 9 + 1, (t % 9) / 3, t % 3)));
        }
        assert forall|cell: int| 0 <= cell < 81 implies formula_holds(truth, #[trigger] g6(cell)) by {
            assert(given_chosen(truth, seed, cell));
        }
    }
}

/// A cell that came out empty had no digit asserted; one that came out
/// filled holds a digit that was asserted for it.
pub proof fn lemma_placed(m: Seq<int>, cell: int)
    requires
        0 <= cell < 81,
    ensures
        placed(m).len() == 81,
        placed(m)[cell] <= 9,
        placed(m)[cell] == 0 ==> forall|d: int|
            1 <= d <= 9 ==> !m.contains(#[trigger] cell_var(cell, d)),
        placed(m)[cell] != 0 ==> m.contains(cell_var(cell, placed(m)[cell] as int)),
    decreases m.len(),
{
    if m.len() > 0 {
        let before = m.drop_last();
        let l = m.last();
        lemma_placed(before, cell);
        assert(m =~= before.push(l));
        assert forall|v: int| before.contains(v) implies m.contains(v) by {
            let p = choose|p: int| 0 <= p < before.len() && before[p] == v;
            assert(m[p] == v);
        }
        assert(m[m.len() - 1] == l);
        if placed(m)[cell] == 0 {
            assert forall|d: int| 1 <= d <= 9 implies !m.contains(#[trigger] cell_var(cell, d)) by {
                if m.contains(cell_var(cell, d)) {
                    let p = choose|p: int| 0 <= p < m.len() && m[p] == cell_var(cell, d);
                    if p < before.len() {
                        assert(before[p] == cell_var(cell, d));
                        assert(before.contains(cell_var(cell, d)));
                    }
                }
            }
        }
    }
}

/// A list without repetition of as many numbers as lie between `lo` and
/// `hi` holds each of them.
proof fn lemma_all_present(s: Seq<int>, lo: int, hi: int)
    requires
        s.len() == hi - lo,
        s.no_duplicates(),
        forall|i: int| 0 <= i < s.len() ==> lo <= #[trigger] s[i] < hi,
    ensures
        forall|v: int| lo <= v < hi ==> s.contains(v),
{
    s.unique_seq_to_set();
    lemma_int_range(lo, hi);
    vstd::seq_lib::seq_to_set_is_finite(s);
    assert(s.to_set().subset_of(set_int_range(lo, hi))) by {
        assert forall|v: int| s.to_set().contains(v) implies set_int_range(lo, hi).contains(v) by {
            let p = choose|p: int| 0 <= p < s.len() && s[p] == v;
        }
    }
    lemma_subset_equality(s.to_set(), set_int_range(lo, hi));
    assert forall|v: int| lo <= v < hi implies s.contains(v) by {
        assert(set_int_range(lo, hi).contains(v));
        assert(s.to_set().contains(v));
    }
}

/// How the variables of a unit and a digit stand in the groups of the
/// formula.
proof fn lemma_unit_group(truth: Set<int>, seed: Seq<u8>, u: int, d: int)
    requires
        sudoku_meaning(truth, seed),
        0 <= u < 27,
        1 <= d <= 9,
    ensures
        forall|k1: int, k2: int|
            0 <= k1 < k2 < 9 ==> !(truth.contains(cell_var(#[trigger] unit_cell(u, k1), d))
                && truth.contains(cell_var(#[trigger] unit_cell(u, k2), d))),
{
    assert forall|k1: int, k2: int| 0 <= k1 < k2 < 9 implies !(truth.contains(
        cell_var(#[trigger] unit_cell(u, k1), d),
    ) && truth.contains(cell_var(#[trigger] unit_cell(u, k2), d))) by {
        if u < 9 {
            let vars = row_vars(u, d);
            assert(at_most_one(truth, vars));
            assert(vars[k1] == cell_var(unit_cell(u, k1), d));
            assert(vars[k2] == cell_var(unit_cell(u, k2), d));
            assert(!(lit_holds(truth, vars[k1]) && lit_holds(truth, vars[k2])));
        } else if u < 18 {
            let vars = col_vars(u - 9, d);
            assert(at_most_one(truth, vars));
            assert(vars[k1] == cell_var(unit_cell(u, k1), d));
            assert(vars[k2] == cell_var(unit_cell(u, k2), d));
            assert(!(lit_holds(truth, vars[k1]) && lit_holds(truth, vars[k2])));
        } else {
            let vars = box_vars(d, (u - 18) / 3, (u - 18) % 3);
            assert(at_most_one(truth, vars));
            assert(vars[k1] == cell_var(unit_cell(u, k1), d));
            assert(vars[k2] == cell_var(unit_cell(u, k2), d));
            assert(!(lit_holds(truth, vars[k1]) && lit_holds(truth, vars[k2])));
        }
    }
}

/// Every model of the formula of a puzzle describes a finished grid that
/// keeps the given digits.
pub proof fn lemma_models_solve(seed: Seq<u8>, m: Seq<int>)
    requires
        grid_shaped(seed),
        is_model(m, sudoku_clauses(seed)),
    ensures
        solved(placed(m)),
        extends(placed(m), seed),
{
    let truth = model_truth(m);
    let g = placed(m);
    lemma_model_truth(m, sudoku_clauses(seed));
    lemma_sudoku_meaning(truth, seed);
    lemma_placed(m, 0);
    // Each cell holds the one digit that the model chooses for it.
    assert forall|cell: int| 0 <= cell < 81 implies 1 <= #[trigger] g[cell] <= 9 && truth.contains(
        cell_var(cell, g[cell] as int),
    ) by {
        lemma_placed(m, cell);
        let vars = cell_vars(cell);
        assert(clause_holds(truth, vars));
        let k = choose|k: int| 0 <= k < vars.len() && lit_holds(truth, #[trigger] vars[k]);
        assert(vars[k] == cell_var(cell, k + 1));
        assert(m.contains(cell_var(cell, k + 1)));
    }
    assert forall|cell: int, d: int|
        0 <= cell < 81 && 1 <= d <= 9 && truth.contains(
            #[trigger] cell_var(cell, d),
        ) implies g[cell] == d by {
        let vars = cell_vars(cell);
        assert(at_most_one(truth, vars));
        let e = g[cell] as int;
        assert(vars[d - 1] == cell_var(cell, d));
        assert(vars[e - 1] == cell_var(cell, e));
        if e < d {
            assert(!(lit_holds(truth, vars[e - 1]) && lit_holds(truth, vars[d - 1])));
        } else if d < e {
            assert(!(lit_holds(truth, vars[d - 1]) && lit_holds(truth, vars[e - 1])));
        }
    }
    assert forall|cell: int| 0 <= cell < 81 && seed[cell] != 0 implies #[trigger] g[cell]
        == seed[cell] by {
        assert(given_chosen(truth, seed, cell));
        assert(truth.contains(cell_var(cell, seed[cell] as int)));
    }
    assert forall|u: int, k1: int, k2: int| 0 <= u < 27 && 0 <= k1 < k2 < 9 implies g[#[trigger] unit_cell(
        u,
        k1,
    )] != g[#[trigger] unit_cell(u, k2)] by {
        let c1 = unit_cell(u, k1);
        let c2 = unit_cell(u, k2);
        assert(0 <= c1 < 81 && 0 <= c2 < 81);
        if g[c1] == g[c2] {
            lemma_unit_group(truth, seed, u, g[c1] as int);
            assert(truth.contains(cell_var(c1, g[c1] as int)));
            assert(truth.contains(cell_var(c2, g[c2] as int)));
        }
    }
    assert forall|u: int, d: int| 0 <= u < 27 && 1 <= d <= 9 implies #[trigger] digit_in_unit(
        g,
        u,
        d,
    ) by {
        let digits = Seq::new(9, |k: int| g[unit_cell(u, k)] as int);
        assert forall|k: int| 0 <= k < 9 implies 1 <= #[trigger] digits[k] < 10 by {
            assert(0 <= unit_cell(u, k) < 81);
        }
        assert forall|k1: int, k2: int|
            0 <= k1 < digits.len() && 0 <= k2 < digits.len() && k1 != k2 implies digits[k1]
            != digits[k2] by {
            if k1 < k2 {
                assert(g[unit_cell(u, k1)] != g[unit_cell(u, k2)]);
            } else {
                assert(g[unit_cell(u, k2)] != g[unit_cell(u, k1)]);
            }
        }
        lemma_all_present(digits, 1, 10);
        assert(digits.contains(d));
        let k = choose|k: int| 0 <= k < digits.len() && digits[k] == d;
        assert(g[unit_cell(u, k)] == d);
    }
}


/// The assignment that a grid stands for: the variable of a cell and a digit
/// is true exactly where the cell holds the digit.
pub open spec fn grid_truth(g: Seq<u8>) -> Set<int> {
    Set::new(|v: int| 1 <= v <= 729 && g[(v - 1) / 9] == (v - 1) % 9 + 1)
}

/// Every finished grid that keeps the given digits of a puzzle satisfies the
/// puzzle's formula. With `lemma_models_solve`: the models of the formula
/// are the solutions of the puzzle.
pub proof fn lemma_solutions_are_models(seed: Seq<u8>, g: Seq<u8>)
    requires
        grid_shaped(seed),
        solved(g),
        extends(g, seed),
    ensures
        formula_holds(grid_truth(g), sudoku_clauses(seed)),
{
    let truth = grid_truth(g);
    assert forall|cell: int, d: int| 0 <= cell < 81 && 1 <= d <= 9 implies (truth.contains(
        #[trigger] cell_var(cell, d),
    ) <==> g[cell] == d) by {}
    assert forall|cell: int| 0 <= cell < 81 implies clause_holds(
        truth,
        #[trigger] cell_vars(cell),
    ) by {
        let vars = cell_vars(cell);
        let d = g[cell] as int;
        assert(vars[d - 1] == cell_var(cell, d));
        assert(lit_holds(truth, vars[d - 1]));
    }
    assert forall|cell: int| 0 <= cell < 81 implies at_most_one(
        truth,
        #[trigger] cell_vars(cell),
    ) by {
        let vars = cell_vars(cell);
        assert forall|i: int, j: int| 0 <= i < j < vars.len() implies !(lit_holds(
            truth,
            #[trigger] vars[i],
        ) && lit_holds(truth, #[trigger] vars[j])) by {
            assert(vars[i] == cell_var(cell, i + 1));
            assert(vars[j] == cell_var(cell, j + 1));
        }
    }
    assert forall|r: int, d: int| 0 <= r < 9 && 1 <= d <= 9 implies at_most_one(
        truth,
        #[trigger] row_vars(r, d),
    ) by {
        let vars = row_vars(r, d);
        assert forall|i: int, j: int| 0 <= i < j < vars.len() implies !(lit_holds(
            truth,
            #[trigger] vars[i],
        ) && lit_holds(truth, #[trigger] vars[j])) by {
            assert(vars[i] == cell_var(unit_cell(r, i), d));
            assert(vars[j] == cell_var(unit_cell(r, j), d));
            assert(g[unit_cell(r, i)] != g[unit_cell(r, j)]);
        }
    }
    assert forall|c: int, d: int| 0 <= c < 9 && 1 <= d <= 9 implies at_most_one(
        truth,
        #[trigger] col_vars(c, d),
    ) by {
        let vars = col_vars(c, d);
        assert forall|i: int, j: int| 0 <= i < j < vars.len() implies !(lit_holds(
            truth,
            #[trigger] vars[i],
        ) && lit_holds(truth, #[trigger] vars[j])) by {
            assert(vars[i] == cell_var(unit_cell(9 + c, i), d));
            assert(vars[j] == cell_var(unit_cell(9 + c, j), d));
            assert(g[unit_cell(9 + c, i)] != g[unit_cell(9 + c, j)]);
        }
    }
    assert forall|d: int, br: int, bc: int|
        1 <= d <= 9 && 0 <= br < 3 && 0 <= bc < 3 implies at_most_one(
        truth,
        #[trigger] box_vars(d, br, bc),
    ) by {
        let vars = box_vars(d, br, bc);
        let u = 18 + br * 3 + bc;
        assert forall|i: int, j: int| 0 <= i < j < vars.len() implies !(lit_holds(
            truth,
            #[trigger] vars[i],
        ) && lit_holds(truth, #[trigger] vars[j])) by {
            assert(vars[i] == cell_var(unit_cell(u, i), d));
            assert(vars[j] == cell_var(unit_cell(u, j), d));
            assert(g[unit_cell(u, i)] != g[unit_cell(u, j)]);
        }
    }
    assert forall|cell: int| 0 <= cell < 81 implies #[trigger] given_chosen(truth, seed, cell) by {
        if seed[cell] != 0 {
            assert(g[cell] == seed[cell]);
            assert(truth.contains(cell_var(cell, seed[cell] as int)));
        }
    }
    lemma_sudoku_meaning(truth, seed);
}

/// How many of the first `upto` cells hold a given digit.
pub open spec fn given_count(seed: Seq<u8>, upto: nat) -> nat
    decreases upto,
{
    if upto == 0 {
        0
    } else {
        given_count(seed, (upto - 1) as nat) + if seed[upto - 1] != 0 {
            1nat
        } else {
            0nat
        }
    }
}

proof fn lemma_no_units(truth_free: Seq<Seq<int>>, n: nat, group: spec_fn(int) -> Seq<Seq<int>>)
    requires
        truth_free == concat_groups(n, group),
        forall|i: int, j: int|
            0 <= i < n && 0 <= j < group(i).len() ==> (#[trigger] group(i)[j]).len() != 1,
    ensures
        unit_count(truth_free) == 0,
{
    let longer = |c: Seq<int>| c.len() != 1;
    assert forall|i: int, j: int| 0 <= i < n && 0 <= j < group(i).len() implies longer(
        #[trigger] group(i)[j],
    ) by {}
    lemma_groups_all(n, group, longer);
    assert forall|j: int| 0 <= j < truth_free.len() implies (#[trigger] truth_free[j]).len()
        != 1 by {
        assert(longer(concat_groups(n, group)[j]));
    }
    lemma_unit_count_none(truth_free);
}

proof fn lemma_givens_upto(seed: Seq<u8>, upto: nat)
    ensures
        unit_count(givens_upto(seed, upto)) == given_count(seed, upto),
    decreases upto,
{
    if upto > 0 {
        lemma_givens_upto(seed, (upto - 1) as nat);
        let before = givens_upto(seed, (upto - 1) as nat);
        let last = given(seed, upto - 1);
        lemma_unit_count_concat(before, last);
        if seed[upto - 1] != 0 {
            assert(last.drop_last().len() == 0);
            assert(last.last().len() == 1);
            assert(unit_count(last.drop_last()) == 0);
        } else {
            assert(last.len() == 0);
        }
    }
}

/// The formula of a puzzle holds one unit clause for each given digit, which
/// asserts the digit for its cell, and no other clause of one literal.
pub proof fn lemma_givens(seed: Seq<u8>)
    requires
        grid_shaped(seed),
    ensures
        unit_count(sudoku_clauses(seed)) == given_count(seed, 81),
        forall|cell: int|
            0 <= cell < 81 && seed[cell] != 0 ==> sudoku_clauses(seed).contains(
                seq![#[trigger] cell_var(cell, seed[cell] as int)],
            ),
{
    let f1 = cells_filled();
    let f2 = cells_single();
    let f3 = rows_single();
    let f4 = cols_single();
    let f5 = boxes_single();
    let f6 = givens(seed);
    let g1 = |cell: int| seq![cell_vars(cell)];
    let g2 = |cell: int| pairwise_exclusions(cell_vars(cell));
    let g3 = |t: int| pairwise_exclusions(row_vars(t / 9, t % 9 + 1));
    let g4 = |t: int| pairwise_exclusions(col_vars(t / 9, t % 9 + 1));
    let g5 = |t: int| pairwise_exclusions(box_vars(t / 9 + 1, (t % 9) / 3, t % 3));
    let g6 = |cell: int| given(seed, cell);
    assert forall|i: int, j: int| 0 <= i < 81 && 0 <= j < g1(i).len() implies (#[trigger] g1(
        i,
    )[j]).len() != 1 by {
        assert(g1(i)[j] == cell_vars(i));
    }
    lemma_no_units(f1, 81, g1);
    assert forall|i: int, j: int| 0 <= i < 81 && 0 <= j < g2(i).len() implies (#[trigger] g2(
        i,
    )[j]).len() != 1 by {
        lemma_pairwise_pairs(cell_vars(i));
    }
    lemma_no_units(f2, 81, g2);
    assert forall|i: int, j: int| 0 <= i < 81 && 0 <= j < g3(i).len() implies (#[trigger] g3(
        i,
    )[j]).len() != 1 by {
        lemma_pairwise_pairs(row_vars(i / 9, i % 9 + 1));
    }
    lemma_no_units(f3, 81, g3);
    assert forall|i: int, j: int| 0 <= i < 81 && 0 <= j < g4(i).len() implies (#[trigger] g4(
        i,
    )[j]).len() != 1 by {
        lemma_pairwise_pairs(col_vars(i / 9, i % 9 + 1));
    }
    lemma_no_units(f4, 81, g4);
    assert forall|i: int, j: int| 0 <= i < 81 && 0 <= j < g5(i).len() implies (#[trigger] g5(
        i,
    )[j]).len() != 1 by {
        lemma_pairwise_pairs(box_vars(i / 9 + 1, (i % 9) / 3, i % 3));
    }
    lemma_no_units(f5, 81, g5);
    lemma_givens_upto(seed, 81);
    lemma_unit_count_concat(f1, f2);
    lemma_unit_count_concat(f1 + f2, f3);
    lemma_unit_count_concat(f1 + f2 + f3, f4);
    lemma_unit_count_concat(f1 + f2 + f3 + f4, f5);
    lemma_unit_count_concat(f1 + f2 + f3 + f4 + f5, f6);
    let head = f1 + f2 + f3 + f4 + f5;
    assert forall|cell: int| 0 <= cell < 81 && seed[cell] != 0 implies sudoku_clauses(
        seed,
    ).contains(seq![#[trigger] cell_var(cell, seed[cell] as int)]) by {
        let unit = seq![cell_var(cell, seed[cell] as int)];
        assert(g6(cell)[0] == unit);
        lemma_groups_contain(81, g6, cell, 0);
        let p = choose|p: int| 0 <= p < f6.len() && f6[p] == unit;
        assert((head + f6)[head.len() + p] == unit);
    }
}

} // verus!
