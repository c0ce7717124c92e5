//! Minesweeper as a satisfiability problem.
//!
//! One variable for each covered cell that borders a revealed number says
//! that the cell hides a mine. Each revealed number gives a constraint:
//! exactly that many of the covered cells around it hide a mine.

use crate::cardinality::{
    add_combinatorial_encoding_clauses, add_sequential_encoding_clauses, combinatorial_exactly,
    counter_demand, sequential_counter,
};
use crate::cardinality_laws::{
    all_nonzero, count_true, lemma_combinatorial_exactly, lemma_count_agrees,
    lemma_counter_literals, lemma_sequential_counter, lemma_sequential_counter_extends,
    with_counter,
};
use crate::cnf::{
    agrees_upto, clause_view, formula_holds, formula_view, is_model, lemma_holds_concat,
    lemma_holds_within, lemma_model_truth, lemma_within_concat, lit_holds, literals_within,
    magnitude, model_truth,
};
use std::collections::HashMap;
use std::collections::HashSet;
use vstd::prelude::*;

verus! {

/// Exactly `count` of `cells` hide a mine. The cells are given by their
/// index on the board, row by row.
#[derive(Debug)]
pub struct Constraint {
    pub cells: Vec<usize>,
    pub count: usize,
}

/// One way to lay the mines: `mines[i]` says whether cell `i`, counted row by
/// row, hides one.
#[derive(Debug)]
pub struct MinefieldSolution {
    pub mines: Vec<bool>,
    pub width: usize,
    pub height: usize,
}

/// The variables of the cells `unknown`: the cell at position `i` of the list
/// gets the variable `i + 1`. A cell that is listed more than once keeps the
/// variable of its last place.
pub open spec fn cell_numbering(unknown: Seq<usize>) -> Map<usize, isize>
    decreases unknown.len(),
{
    if unknown.len() == 0 {
        Map::empty()
    } else {
        cell_numbering(unknown.drop_last()).insert(unknown.last(), unknown.len() as isize)
    }
}

/// The variables of those of `cells` that have one, in the order of `cells`.
pub open spec fn constraint_vars(numbering: Map<usize, isize>, cells: Seq<usize>) -> Seq<int>
    decreases cells.len(),
{
    if cells.len() == 0 {
        Seq::empty()
    } else if numbering.contains_key(cells.last()) {
        constraint_vars(numbering, cells.drop_last()).push(numbering[cells.last()] as int)
    } else {
        constraint_vars(numbering, cells.drop_last())
    }
}

/// The first variable that is free after the first `upto` constraints have
/// taken their auxiliary variables, behind the variables of `cells` cells.
pub open spec fn next_free(
    numbering: Map<usize, isize>,
    constraints: Seq<Constraint>,
    upto: nat,
    cells: nat,
) -> int
    decreases upto,
{
    if upto == 0 {
        cells as int + 1
    } else {
        next_free(numbering, constraints, (upto - 1) as nat, cells) + counter_demand(
            constraint_vars(numbering, constraints[upto - 1].cells@).len(),
            constraints[upto - 1].count as nat,
        )
    }
}

/// The sequential-counter clauses of the first `upto` constraints, each with
/// auxiliary variables of its own.
pub open spec fn sequential_clauses(
    numbering: Map<usize, isize>,
    constraints: Seq<Constraint>,
    upto: nat,
    cells: nat,
) -> Seq<Seq<int>>
    decreases upto,
{
    if upto == 0 {
        Seq::empty()
    } else {
        sequential_clauses(numbering, constraints, (upto - 1) as nat, cells) + sequential_counter(
            constraint_vars(numbering, constraints[upto - 1].cells@),
            constraints[upto - 1].count as nat,
            next_free(numbering, constraints, (upto - 1) as nat, cells),
        )
    }
}

/// The subset clauses of the first `upto` constraints.
pub open spec fn combinatorial_clauses(
    numbering: Map<usize, isize>,
    constraints: Seq<Constraint>,
    upto: nat,
) -> Seq<Seq<int>>
    decreases upto,
{
    if upto == 0 {
        Seq::empty()
    } else {
        combinatorial_clauses(numbering, constraints, (upto - 1) as nat) + combinatorial_exactly(
            constraint_vars(numbering, constraints[upto - 1].cells@),
            constraints[upto - 1].count as nat,
        )
    }
}

/// The variables of a numbering of `len` cells run from 1 to `len`.
pub open spec fn numbered_within(numbering: Map<usize, isize>, len: int) -> bool {
    forall|cell: usize| numbering.contains_key(cell) ==> 1 <= #[trigger] numbering[cell] <= len
}

/// Different cells have different variables.
pub proof fn lemma_numbering_distinct(unknown: Seq<usize>, a: usize, b: usize)
    requires
        unknown.len() <= isize::MAX,
        cell_numbering(unknown).contains_key(a),
        cell_numbering(unknown).contains_key(b),
        a != b,
    ensures
        cell_numbering(unknown)[a] != cell_numbering(unknown)[b],
    decreases unknown.len(),
{
    if unknown.len() > 0 {
        let before = unknown.drop_last();
        lemma_numbering_within(before);
        if a != unknown.last() && b != unknown.last() {
            lemma_numbering_distinct(before, a, b);
        } else if a == unknown.last() {
            assert(cell_numbering(before).contains_key(b));
        } else {
            assert(cell_numbering(before).contains_key(a));
        }
    }
}

proof fn lemma_numbering_within(unknown: Seq<usize>)
    requires
        unknown.len() <= isize::MAX,
    ensures
        numbered_within(cell_numbering(unknown), unknown.len() as int),
    decreases unknown.len(),
{
    if unknown.len() > 0 {
        lemma_numbering_within(unknown.drop_last());
    }
}

proof fn lemma_constraint_vars_within(numbering: Map<usize, isize>, cells: Seq<usize>, len: int)
    requires
        numbered_within(numbering, len),
    ensures
        forall|i: int|
            0 <= i < constraint_vars(numbering, cells).len() ==> 1 <= #[trigger] constraint_vars(
                numbering,
                cells,
            )[i] <= len,
    decreases cells.len(),
{
    if cells.len() > 0 {
        lemma_constraint_vars_within(numbering, cells.drop_last(), len);
        let before = constraint_vars(numbering, cells.drop_last());
        let all = constraint_vars(numbering, cells);
        assert forall|i: int| 0 <= i < all.len() implies 1 <= #[trigger] all[i] <= len by {
            if i < before.len() {
                assert(all[i] == before[i]);
            } else {
                assert(numbering.contains_key(cells.last()));
                assert(all[i] == numbering[cells.last()]);
            }
        }
    }
}

/// The auxiliary variables of a constraint lie above the variables of the
/// cells and above those of every constraint before it: no variable serves
/// twice.
pub proof fn lemma_auxiliary_blocks_apart(
    numbering: Map<usize, isize>,
    constraints: Seq<Constraint>,
    earlier: nat,
    later: nat,
    cells: nat,
)
    requires
        earlier < later,
    ensures
        cells < next_free(numbering, constraints, earlier, cells),
        next_free(numbering, constraints, earlier + 1, cells) <= next_free(
            numbering,
            constraints,
            later,
            cells,
        ),
{
    lemma_next_free_grows(numbering, constraints, 0, earlier, cells);
    lemma_next_free_grows(numbering, constraints, earlier + 1, later, cells);
}

proof fn lemma_next_free_grows(
    numbering: Map<usize, isize>,
    constraints: Seq<Constraint>,
    a: nat,
    b: nat,
    first: nat,
)
    requires
        a <= b,
    ensures
        next_free(numbering, constraints, a, first) <= next_free(numbering, constraints, b, first),
    decreases b,
{
    if a < b {
        lemma_next_free_grows(numbering, constraints, a, (b - 1) as nat, first);
    }
}

fn number_cells(unknown_indices: &[usize]) -> (var_map: HashMap<usize, isize>)
    requires
        unknown_indices@.len() < isize::MAX,
    ensures
        var_map@ == cell_numbering(unknown_indices@),
{
    broadcast use vstd::std_specs::hash::group_hash_axioms;

    let mut var_map: HashMap<usize, isize> = HashMap::new();
    assert(unknown_indices@.take(0) =~= Seq::<usize>::empty());
    let mut i: usize = 0;
    while i < unknown_indices.len()
        invariant
            i <= unknown_indices@.len(),
            unknown_indices@.len() < isize::MAX,
            var_map@ == cell_numbering(unknown_indices@.take(i as int)),
        decreases unknown_indices@.len() - i,
    {
        proof {
            let upto = unknown_indices@.take(i + 1);
            assert(upto.drop_last() =~= unknown_indices@.take(i as int));
            assert(upto.last() == unknown_indices@[i as int]);
        }
        var_map.insert(unknown_indices[i], (i + 1) as isize);
        i += 1;
    }
    assert(unknown_indices@.take(unknown_indices@.len() as int) =~= unknown_indices@);
    var_map
}

fn variables_of(var_map: &HashMap<usize, isize>, cells: &Vec<usize>) -> (sat_vars: Vec<isize>)
    ensures
        clause_view(sat_vars@) == constraint_vars(var_map@, cells@),
{
    broadcast use vstd::std_specs::hash::group_hash_axioms;

    let mut sat_vars: Vec<isize> = Vec::new();
    assert(cells@.take(0) =~= Seq::<usize>::empty());
    assert(clause_view(sat_vars@) =~= Seq::<int>::empty());
    let mut i: usize = 0;
    while i < cells.len()
        invariant
            i <= cells@.len(),
            clause_view(sat_vars@) == constraint_vars(var_map@, cells@.take(i as int)),
        decreases cells@.len() - i,
    {
        proof {
            let upto = cells@.take(i + 1);
            assert(upto.drop_last() =~= cells@.take(i as int));
            assert(upto.last() == cells@[i as int]);
        }
        let ghost before = clause_view(sat_vars@);
        match var_map.get(&cells[i]) {
            Some(v) => {
                sat_vars.push(*v);
                assert(clause_view(sat_vars@) =~= before.push(*v as int));
            },
            None => {},
        }
        i += 1;
    }
    assert(cells@.take(cells@.len() as int) =~= cells@);
    sat_vars
}

/// The number of variables that `generate_clauses` takes for a board, those
/// of the cells and the auxiliary ones, or `None` where they would leave the
/// range of `isize`. `generate_clauses` may be called exactly where this is
/// some number.
pub fn variables_needed(unknown_indices: &[usize], local_constraints: &[Constraint]) -> (r: Option<
    usize,
>)
    ensures
        r is Some <==> unknown_indices@.len() < isize::MAX && next_free(
            cell_numbering(unknown_indices@),
            local_constraints@,
            local_constraints@.len(),
            unknown_indices@.len(),
        ) <= isize::MAX,
        r matches Some(n) ==> n + 1 == next_free(
            cell_numbering(unknown_indices@),
            local_constraints@,
            local_constraints@.len(),
            unknown_indices@.len(),
        ),
{
    if unknown_indices.len() >= isize::MAX as usize {
        return None;
    }
    let var_map = number_cells(unknown_indices);
    let ghost numbering = var_map@;
    let ghost cells = unknown_indices@.len();
    let mut next: usize = unknown_indices.len() + 1;
    let mut t: usize = 0;
    while t < local_constraints.len()
        invariant
            t <= local_constraints@.len(),
            numbering == var_map@,
            numbering == cell_numbering(unknown_indices@),
            cells == unknown_indices@.len(),
            cells < isize::MAX,
            next == next_free(numbering, local_constraints@, t as nat, cells),
            1 <= next <= isize::MAX,
        decreases local_constraints@.len() - t,
    {
        let constraint = &local_constraints[t];
        let sat_vars = variables_of(&var_map, &constraint.cells);
        let n = sat_vars.len();
        let k = constraint.count;
        proof {
            lemma_next_free_grows(
                numbering,
                local_constraints@,
                (t + 1) as nat,
                local_constraints@.len(),
                cells,
            );
            assert(clause_view(sat_vars@).len() == sat_vars@.len());
            assert(next_free(numbering, local_constraints@, (t + 1) as nat, cells) == next
                + counter_demand(n as nat, k as nat));
        }
        if 0 < k && k <= n {
            let width = match k.checked_add(1) {
                Some(w) => w,
                None => {
                    proof {
                        assert(n * (k + 1) > isize::MAX) by (nonlinear_arith)
                            requires
                                n >= 1,
                                k + 1 > isize::MAX,
                        ;
                    }
                    return None;
                },
            };
            let demand = match n.checked_mul(width) {
                Some(d) => d,
                None => {
                    return None;
                },
            };
            next = match next.checked_add(demand) {
                Some(v) => v,
                None => {
                    return None;
                },
            };
            if next > isize::MAX as usize {
                return None;
            }
        }
        t += 1;
    }
    Some(next - 1)
}

/// The formula of a board, with the sequential-counter encoding: a variable
/// for each of `unknown_indices`, and for each constraint the clauses that
/// hold exactly when as many of its cells hide a mine as it says. Cells of a
/// constraint that are not among `unknown_indices` do not count. A constraint
/// that asks for more mines than it has such cells gives the empty clause.
///
/// Beside the formula comes the variable of each cell.
pub fn generate_clauses(unknown_indices: &[usize], local_constraints: &[Constraint]) -> (r: (
    Vec<Vec<isize>>,
    HashMap<usize, isize>,
))
    requires
        unknown_indices@.len() < isize::MAX,
        next_free(
            cell_numbering(unknown_indices@),
            local_constraints@,
            local_constraints@.len(),
            unknown_indices@.len(),
        ) <= isize::MAX,
    ensures
        r.1@ == cell_numbering(unknown_indices@),
        formula_view(r.0@) == sequential_clauses(
            r.1@,
            local_constraints@,
            local_constraints@.len(),
            unknown_indices@.len(),
        ),
{
    let mut clauses: Vec<Vec<isize>> = Vec::new();
    let var_map = number_cells(unknown_indices);
    let ghost numbering = var_map@;
    let ghost first = unknown_indices@.len();
    let mut next_var = (unknown_indices.len() + 1) as isize;
    assert(formula_view(clauses@) =~= Seq::<Seq<int>>::empty());
    proof {
        lemma_numbering_within(unknown_indices@);
    }
    let mut t: usize = 0;
    while t < local_constraints.len()
        invariant
            t <= local_constraints@.len(),
            numbering == var_map@,
            numbered_within(numbering, first as int),
            first < isize::MAX,
            next_var == next_free(numbering, local_constraints@, t as nat, first),
            next_var >= 1,
            next_free(numbering, local_constraints@, local_constraints@.len(), first)
                <= isize::MAX,
            formula_view(clauses@) == sequential_clauses(
                numbering,
                local_constraints@,
                t as nat,
                first,
            ),
        decreases local_constraints@.len() - t,
    {
        let constraint = &local_constraints[t];
        let sat_vars = variables_of(&var_map, &constraint.cells);
        proof {
            lemma_constraint_vars_within(numbering, constraint.cells@, first as int);
            lemma_next_free_grows(
                numbering,
                local_constraints@,
                (t + 1) as nat,
                local_constraints@.len(),
                first,
            );
            lemma_next_free_grows(numbering, local_constraints@, 0, t as nat, first);
            assert forall|i: int| 0 <= i < sat_vars@.len() implies -isize::MAX
                <= #[trigger] sat_vars@[i] by {
                assert(clause_view(sat_vars@)[i] == sat_vars@[i]);
            }
            assert(clause_view(sat_vars@).len() == sat_vars@.len());
        }
        add_sequential_encoding_clauses(
            &mut clauses,
            &mut next_var,
            sat_vars.as_slice(),
            constraint.count,
        );
        t += 1;
    }
    (clauses, var_map)
}

/// The formula of a board, with the subset encoding. It takes no auxiliary
/// variables, and a number of clauses that grows fast with the size of a
/// constraint.
pub fn generate_clauses_combinatorial(
    unknown_indices: &[usize],
    local_constraints: &[Constraint],
) -> (r: (Vec<Vec<isize>>, HashMap<usize, isize>))
    requires
        unknown_indices@.len() < isize::MAX,
    ensures
        r.1@ == cell_numbering(unknown_indices@),
        formula_view(r.0@) == combinatorial_clauses(
            r.1@,
            local_constraints@,
            local_constraints@.len(),
        ),
{
    let mut clauses: Vec<Vec<isize>> = Vec::new();
    let var_map = number_cells(unknown_indices);
    let ghost numbering = var_map@;
    assert(formula_view(clauses@) =~= Seq::<Seq<int>>::empty());
    proof {
        lemma_numbering_within(unknown_indices@);
    }
    let mut t: usize = 0;
    while t < local_constraints.len()
        invariant
            t <= local_constraints@.len(),
            numbering == var_map@,
            numbered_within(numbering, unknown_indices@.len() as int),
            formula_view(clauses@) == combinatorial_clauses(
                numbering,
                local_constraints@,
                t as nat,
            ),
        decreases local_constraints@.len() - t,
    {
        let constraint = &local_constraints[t];
        let sat_vars = variables_of(&var_map, &constraint.cells);
        proof {
            lemma_constraint_vars_within(
                numbering,
                constraint.cells@,
                unknown_indices@.len() as int,
            );
            assert forall|i: int| 0 <= i < sat_vars@.len() implies -isize::MAX
                <= #[trigger] sat_vars@[i] by {
                assert(clause_view(sat_vars@)[i] == sat_vars@[i]);
            }
        }
        add_combinatorial_encoding_clauses(&mut clauses, sat_vars.as_slice(), constraint.count);
        t += 1;
    }
    (clauses, var_map)
}

/// Whether the model `m` lays a mine on `cell`: the cell has a variable, and
/// the model asserts it.
pub open spec fn mine_at(m: Seq<int>, numbering: Map<usize, isize>, cell: usize) -> bool {
    numbering.contains_key(cell) && numbering[cell] >= 1 && m.contains(numbering[cell] as int)
}

/// The positive literals among the first `upto` of `m`.
pub open spec fn asserted(m: Seq<isize>, upto: int) -> Set<isize> {
    Set::new(|v: isize| v >= 1 && exists|p: int| 0 <= p < upto && m[p] == v)
}

/// The mines that a model lays on a board of `width` by `height` cells. A
/// cell hides a mine exactly when the model asserts its variable; cells
/// without a variable hide none.
pub fn decode_solution(
    model: &[isize],
    width: usize,
    height: usize,
    var_map: &HashMap<usize, isize>,
) -> (solution: MinefieldSolution)
    requires
        width * height <= usize::MAX,
    ensures
        solution.width == width,
        solution.height == height,
        solution.mines@.len() == width * height,
        forall|cell: usize|
            cell < width * height ==> #[trigger] solution.mines@[cell as int] == mine_at(
                clause_view(model@),
                var_map@,
                cell,
            ),
{
    broadcast use vstd::std_specs::hash::group_hash_axioms;

    let ghost m = clause_view(model@);
    let mut positive: HashSet<isize> = HashSet::new();
    assert(positive@ =~= asserted(model@, 0));
    let mut p: usize = 0;
    while p < model.len()
        invariant
            p <= model@.len(),
            positive@ == asserted(model@, p as int),
        decreases model@.len() - p,
    {
        let lit = model[p];
        if lit >= 1 {
            positive.insert(lit);
        }
        assert(positive@ =~= asserted(model@, p + 1));
        p += 1;
    }
    let n_cells = width * height;
    let mut mines: Vec<bool> = Vec::new();
    let mut cell: usize = 0;
    while cell < n_cells
        invariant
            cell <= n_cells,
            m == clause_view(model@),
            mines@.len() == cell,
            positive@ == asserted(model@, model@.len() as int),
            forall|c: usize| c < cell ==> #[trigger] mines@[c as int] == mine_at(m, var_map@, c),
        decreases n_cells - cell,
    {
        let mine = match var_map.get(&cell) {
            Some(v) => positive.contains(v),
            None => false,
        };
        proof {
            if var_map@.contains_key(cell) {
                let v = var_map@[cell];
                if positive@.contains(v) {
                    let q = choose|q: int| 0 <= q < model@.len() && model@[q] == v;
                    assert(m[q] == v as int);
                }
                if v >= 1 && m.contains(v as int) {
                    let q = choose|q: int| 0 <= q < m.len() && m[q] == v as int;
                    assert(model@[q] == v);
                }
            }
        }
        mines.push(mine);
        cell += 1;
    }
    MinefieldSolution { mines, width, height }
}

/// Every assignment that satisfies the formula of a board lays, for each
/// constraint, exactly as many mines on its cells as the constraint says.
pub proof fn lemma_constraints_met(
    truth: Set<int>,
    unknown: Seq<usize>,
    constraints: Seq<Constraint>,
    t: int,
)
    requires
        unknown.len() < isize::MAX,
        0 <= t < constraints.len(),
        formula_holds(
            truth,
            sequential_clauses(
                cell_numbering(unknown),
                constraints,
                constraints.len(),
                unknown.len(),
            ),
        ),
    ensures
        count_true(truth, constraint_vars(cell_numbering(unknown), constraints[t].cells@))
            == constraints[t].count,
{
    lemma_sequential_prefix(truth, unknown, constraints, constraints.len(), t);
}

proof fn lemma_sequential_prefix(
    truth: Set<int>,
    unknown: Seq<usize>,
    constraints: Seq<Constraint>,
    upto: nat,
    t: int,
)
    requires
        unknown.len() < isize::MAX,
        0 <= t < upto <= constraints.len(),
        formula_holds(
            truth,
            sequential_clauses(cell_numbering(unknown), constraints, upto, unknown.len()),
        ),
    ensures
        count_true(truth, constraint_vars(cell_numbering(unknown), constraints[t].cells@))
            == constraints[t].count,
    decreases upto,
{
    let numbering = cell_numbering(unknown);
    let first = unknown.len();
    let before = sequential_clauses(numbering, constraints, (upto - 1) as nat, first);
    let x = constraint_vars(numbering, constraints[upto - 1].cells@);
    let base = next_free(numbering, constraints, (upto - 1) as nat, first);
    let last = sequential_counter(x, constraints[upto - 1].count as nat, base);
    lemma_holds_concat(truth, before, last);
    if t == upto - 1 {
        lemma_numbering_within(unknown);
        lemma_constraint_vars_within(numbering, constraints[t].cells@, unknown.len() as int);
        lemma_next_free_grows(numbering, constraints, 0, (upto - 1) as nat, first);
        assert(all_nonzero(x));
        lemma_sequential_counter(truth, x, constraints[t].count as nat, base);
    } else {
        lemma_sequential_prefix(truth, unknown, constraints, (upto - 1) as nat, t);
    }
}

/// The same holds of the subset encoding, and there it is all the formula
/// asks: an assignment satisfies it exactly when it meets every constraint.
pub proof fn lemma_combinatorial_meaning(
    truth: Set<int>,
    unknown: Seq<usize>,
    constraints: Seq<Constraint>,
    upto: nat,
)
    requires
        unknown.len() < isize::MAX,
        upto <= constraints.len(),
    ensures
        formula_holds(truth, combinatorial_clauses(cell_numbering(unknown), constraints, upto))
            <==> forall|t: int|
            0 <= t < upto ==> count_true(
                truth,
                #[trigger] constraint_vars(cell_numbering(unknown), constraints[t].cells@),
            ) == constraints[t].count,
    decreases upto,
{
    if upto > 0 {
        let numbering = cell_numbering(unknown);
        let before = combinatorial_clauses(numbering, constraints, (upto - 1) as nat);
        let x = constraint_vars(numbering, constraints[upto - 1].cells@);
        let last = combinatorial_exactly(x, constraints[upto - 1].count as nat);
        lemma_holds_concat(truth, before, last);
        lemma_combinatorial_meaning(truth, unknown, constraints, (upto - 1) as nat);
        lemma_numbering_within(unknown);
        lemma_constraint_vars_within(
            numbering,
            constraints[upto - 1].cells@,
            unknown.len() as int,
        );
        assert(all_nonzero(x));
        lemma_combinatorial_exactly(truth, x, constraints[upto - 1].count as nat);
    }
}

/// How many of those of `cells` that have a variable hide a mine in
/// `layout`.
pub open spec fn mines_among(
    layout: Seq<bool>,
    numbering: Map<usize, isize>,
    cells: Seq<usize>,
) -> nat
    decreases cells.len(),
{
    if cells.len() == 0 {
        0
    } else {
        mines_among(layout, numbering, cells.drop_last()) + if numbering.contains_key(
            cells.last(),
        ) && layout[cells.last() as int] {
            1nat
        } else {
            0nat
        }
    }
}

proof fn lemma_mines_counted(
    m: Seq<int>,
    numbering: Map<usize, isize>,
    len: int,
    cells: Seq<usize>,
    layout: Seq<bool>,
)
    requires
        numbered_within(numbering, len),
        forall|k: int|
            0 <= k < cells.len() ==> (#[trigger] cells[k]) < layout.len() && layout[cells[k] as int]
                == mine_at(m, numbering, cells[k]),
    ensures
        count_true(model_truth(m), constraint_vars(numbering, cells)) == mines_among(
            layout,
            numbering,
            cells,
        ),
    decreases cells.len(),
{
    if cells.len() > 0 {
        let before = cells.drop_last();
        let cell = cells.last();
        assert forall|k: int| 0 <= k < before.len() implies (#[trigger] before[k]) < layout.len()
            && layout[before[k] as int] == mine_at(m, numbering, before[k]) by {
            assert(before[k] == cells[k]);
        }
        lemma_mines_counted(m, numbering, len, before, layout);
        assert(cell == cells[cells.len() - 1]);
        if numbering.contains_key(cell) {
            let x = constraint_vars(numbering, before);
            let v = numbering[cell] as int;
            assert(x.push(v).drop_last() =~= x);
            assert(lit_holds(model_truth(m), v) == mine_at(m, numbering, cell));
        }
    }
}

/// Every model of the formula of a board describes a layout that meets
/// every constraint: among the cells of the constraint it hides exactly as
/// many mines as the constraint says.
pub proof fn lemma_layouts_meet_constraints(
    m: Seq<int>,
    unknown: Seq<usize>,
    constraints: Seq<Constraint>,
    t: int,
    layout: Seq<bool>,
)
    requires
        unknown.len() < isize::MAX,
        0 <= t < constraints.len(),
        is_model(
            m,
            sequential_clauses(
                cell_numbering(unknown),
                constraints,
                constraints.len(),
                unknown.len(),
            ),
        ),
        forall|k: int|
            0 <= k < constraints[t].cells@.len() ==> (#[trigger] constraints[t].cells@[k])
                < layout.len() && layout[constraints[t].cells@[k] as int] == mine_at(
                m,
                cell_numbering(unknown),
                constraints[t].cells@[k],
            ),
    ensures
        mines_among(layout, cell_numbering(unknown), constraints[t].cells@) == constraints[t].count,
{
    let numbering = cell_numbering(unknown);
    let f = sequential_clauses(numbering, constraints, constraints.len(), unknown.len());
    lemma_model_truth(m, f);
    lemma_constraints_met(model_truth(m), unknown, constraints, t);
    lemma_numbering_within(unknown);
    lemma_mines_counted(m, numbering, unknown.len() as int, constraints[t].cells@, layout);
}

/// Those of `cells` that are not in the sea, in their order.
pub open spec fn outside_sea(cells: Seq<usize>, sea: Seq<usize>) -> Seq<usize>
    decreases cells.len(),
{
    if cells.len() == 0 {
        Seq::empty()
    } else if sea.contains(cells.last()) {
        outside_sea(cells.drop_last(), sea)
    } else {
        outside_sea(cells.drop_last(), sea).push(cells.last())
    }
}

/// The cells among the first `upto` of `sea`.
pub open spec fn sea_upto(sea: Seq<usize>, upto: int) -> Set<usize> {
    Set::new(|c: usize| exists|p: int| 0 <= p < upto && sea[p] == c)
}

/// The covered cells that get a variable: those of `cells` that are not in
/// the sea of cells that no revealed number borders.
pub fn cells_outside_sea(cells: &[usize], sea: &[usize]) -> (out: Vec<usize>)
    ensures
        out@ == outside_sea(cells@, sea@),
{
    broadcast use vstd::std_specs::hash::group_hash_axioms;

    let mut in_sea: HashSet<usize> = HashSet::new();
    assert(in_sea@ =~= sea_upto(sea@, 0));
    let mut p: usize = 0;
    while p < sea.len()
        invariant
            p <= sea@.len(),
            in_sea@ == sea_upto(sea@, p as int),
        decreases sea@.len() - p,
    {
        in_sea.insert(sea[p]);
        assert(in_sea@ =~= sea_upto(sea@, p + 1));
        p += 1;
    }
    let mut out: Vec<usize> = Vec::new();
    let mut i: usize = 0;
    assert(cells@.take(0) =~= Seq::<usize>::empty());
    while i < cells.len()
        invariant
            i <= cells@.len(),
            in_sea@ == sea_upto(sea@, sea@.len() as int),
            out@ == outside_sea(cells@.take(i as int), sea@),
        decreases cells@.len() - i,
    {
        let cell = cells[i];
        proof {
            let upto = cells@.take(i + 1);
            assert(upto.drop_last() =~= cells@.take(i as int));
            assert(upto.last() == cell);
            if sea@.contains(cell) {
                let q = choose|q: int| 0 <= q < sea@.len() && sea@[q] == cell;
                assert(in_sea@.contains(cell));
            }
            if in_sea@.contains(cell) {
                let q = choose|q: int| 0 <= q < sea@.len() && sea@[q] == cell;
                assert(sea@[q] == cell);
            }
        }
        if !in_sea.contains(&cell) {
            out.push(cell);
        }
        i += 1;
    }
    assert(cells@.take(cells@.len() as int) =~= cells@);
    out
}

/// The assignment `truth` with the auxiliary variables of the first `upto`
/// constraints set as their counters ask.
pub open spec fn with_counters(
    truth: Set<int>,
    numbering: Map<usize, isize>,
    constraints: Seq<Constraint>,
    upto: nat,
    cells: nat,
) -> Set<int>
    decreases upto,
{
    if upto == 0 {
        truth
    } else {
        let before = with_counters(truth, numbering, constraints, (upto - 1) as nat, cells);
        let x = constraint_vars(numbering, constraints[upto - 1].cells@);
        let k = constraints[upto - 1].count as nat;
        if 0 < k <= x.len() {
            with_counter(
                before,
                x,
                k as int + 1,
                next_free(numbering, constraints, (upto - 1) as nat, cells),
            )
        } else {
            before
        }
    }
}

/// The clauses of the first `upto` constraints name the variables of the
/// cells and the auxiliary variables that they took, and no other.
pub proof fn lemma_sequential_literals(unknown: Seq<usize>, constraints: Seq<Constraint>, upto: nat)
    requires
        unknown.len() < isize::MAX,
        upto <= constraints.len(),
    ensures
        literals_within(
            sequential_clauses(cell_numbering(unknown), constraints, upto, unknown.len()),
            next_free(cell_numbering(unknown), constraints, upto, unknown.len()) - 1,
        ),
    decreases upto,
{
    let numbering = cell_numbering(unknown);
    let cells = unknown.len();
    if upto > 0 {
        let before = sequential_clauses(numbering, constraints, (upto - 1) as nat, cells);
        let x = constraint_vars(numbering, constraints[upto - 1].cells@);
        let k = constraints[upto - 1].count as nat;
        let base = next_free(numbering, constraints, (upto - 1) as nat, cells);
        let hi = next_free(numbering, constraints, upto, cells) - 1;
        lemma_sequential_literals(unknown, constraints, (upto - 1) as nat);
        lemma_next_free_grows(numbering, constraints, 0, (upto - 1) as nat, cells);
        lemma_numbering_within(unknown);
        lemma_constraint_vars_within(numbering, constraints[upto - 1].cells@, cells as int);
        lemma_counter_literals(x, k, base);
        assert forall|j: int, i: int|
            0 <= j < before.len() && 0 <= i < before[j].len() implies 1 <= magnitude(
            #[trigger] before[j][i],
        ) <= hi by {}
        lemma_within_concat(before, sequential_counter(x, k, base), hi);
    } else {
        assert(sequential_clauses(numbering, constraints, upto, cells).len() == 0);
    }
}

proof fn lemma_with_counters(
    truth: Set<int>,
    unknown: Seq<usize>,
    constraints: Seq<Constraint>,
    upto: nat,
)
    requires
        unknown.len() < isize::MAX,
        upto <= constraints.len(),
    ensures
        agrees_upto(
            with_counters(truth, cell_numbering(unknown), constraints, upto, unknown.len()),
            truth,
            unknown.len() as int,
        ),
        formula_holds(
            with_counters(truth, cell_numbering(unknown), constraints, upto, unknown.len()),
            sequential_clauses(cell_numbering(unknown), constraints, upto, unknown.len()),
        ) <==> forall|t: int|
            0 <= t < upto ==> count_true(
                truth,
                #[trigger] constraint_vars(cell_numbering(unknown), constraints[t].cells@),
            ) == constraints[t].count,
    decreases upto,
{
    let numbering = cell_numbering(unknown);
    let cells = unknown.len();
    if upto > 0 {
        let before = with_counters(truth, numbering, constraints, (upto - 1) as nat, cells);
        let after = with_counters(truth, numbering, constraints, upto, cells);
        let earlier = sequential_clauses(numbering, constraints, (upto - 1) as nat, cells);
        let x = constraint_vars(numbering, constraints[upto - 1].cells@);
        let k = constraints[upto - 1].count as nat;
        let base = next_free(numbering, constraints, (upto - 1) as nat, cells);
        let last = sequential_counter(x, k, base);
        lemma_with_counters(truth, unknown, constraints, (upto - 1) as nat);
        lemma_next_free_grows(numbering, constraints, 0, (upto - 1) as nat, cells);
        lemma_numbering_within(unknown);
        lemma_constraint_vars_within(numbering, constraints[upto - 1].cells@, cells as int);
        lemma_sequential_literals(unknown, constraints, (upto - 1) as nat);
        assert(0 <= x.len() * (k + 1)) by (nonlinear_arith);
        assert(agrees_upto(after, before, base - 1));
        assert(agrees_upto(after, truth, cells as int));
        lemma_holds_within(after, before, earlier, base - 1);
        lemma_holds_concat(after, earlier, last);
        assert(all_nonzero(x));
        assert forall|i: int| 0 <= i < x.len() implies lit_holds(after, #[trigger] x[i])
            == lit_holds(truth, x[i]) && lit_holds(before, x[i]) == lit_holds(truth, x[i]) by {
            assert(1 <= x[i] <= cells);
        }
        lemma_count_agrees(after, truth, x);
        lemma_count_agrees(before, truth, x);
        lemma_sequential_counter(after, x, k, base);
        if 0 < k <= x.len() && count_true(truth, x) == k {
            assert forall|i: int| 0 <= i < x.len() implies magnitude(#[trigger] x[i]) < base by {
                assert(1 <= x[i] <= cells);
            }
            lemma_sequential_counter_extends(before, x, k, base);
        }
        assert(formula_holds(after, last) <==> count_true(truth, x) == k);
    }
}

/// Both encodings of a board admit the same layouts: an assignment of the
/// cells satisfies the subset clauses of all constraints exactly when, with
/// the auxiliary variables of every constraint set as its counter asks, it
/// satisfies the sequential-counter clauses of all constraints.
pub proof fn lemma_board_encodings_agree(
    truth: Set<int>,
    unknown: Seq<usize>,
    constraints: Seq<Constraint>,
)
    requires
        unknown.len() < isize::MAX,
    ensures
        formula_holds(
            truth,
            combinatorial_clauses(cell_numbering(unknown), constraints, constraints.len()),
        ) <==> formula_holds(
            with_counters(
                truth,
                cell_numbering(unknown),
                constraints,
                constraints.len(),
                unknown.len(),
            ),
            sequential_clauses(
                cell_numbering(unknown),
                constraints,
                constraints.len(),
                unknown.len(),
            ),
        ),
{
    lemma_with_counters(truth, unknown, constraints, constraints.len());
    lemma_combinatorial_meaning(truth, unknown, constraints, constraints.len());
}

} // verus!
