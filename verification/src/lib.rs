//! Logic puzzles as boolean satisfiability problems.
//!
//! Each puzzle module turns an instance into a formula in conjunctive normal
//! form and turns a satisfying assignment back into a solution of the puzzle.
//! The formulas are plain data: a clause is a `Vec<isize>` of signed literals
//! and a formula is a `Vec` of clauses. The search for satisfying assignments
//! is left to the `varisat` solver; this crate adds the enumeration of all of
//! them.

pub mod cardinality;
pub mod cardinality_laws;
pub mod cnf;
pub mod dimacs;
pub mod mapcolouring_sat;
pub mod mapfile;
pub mod minesweeper_sat;
pub mod nqueens;
pub mod probability;
pub mod sudoku_sat;
pub mod text;

use crate::cardinality::{negate_all, negated_clause};
use crate::cnf::{
    agrees_upto, breaks_only, clause_holds, clause_max, clause_view, count_models, formula_view,
    is_model, lemma_clause_max, lemma_count_drops_one, lemma_count_none, lemma_model_truth,
    lemma_one_for_each, lit_holds, magnitude, model_truth, names, names_all, one_for_each,
    satisfiable, variable_count,
    MAX_VARIABLE,
};
pub use crate::cnf::num_vars;
use varisat::solver::SolverError;
use varisat::{ExtendFormula, Lit, Solver};
use vstd::prelude::*;

verus! {

/// The solver of `varisat`, carried through without looking inside.
#[verifier::external_type_specification]
#[verifier::external_body]
pub struct ExSolver<'a>(Solver<'a>);

/// The error of `varisat`'s solver, carried through without looking inside.
#[verifier::external_type_specification]
#[verifier::external_body]
pub struct ExSolverError(SolverError);

/// The clauses that were added to a solver, in the order in which they were
/// added.
pub uninterp spec fn solver_clauses(solver: Solver<'_>) -> Seq<Seq<int>>;

/// Whether a solver may still be asked to solve: it has met no error after
/// which it refuses to.
pub uninterp spec fn solver_usable(solver: Solver<'_>) -> bool;

/// A literal that the solver accepts: not 0, and a variable within its range.
pub open spec fn valid_literal(l: int) -> bool {
    1 <= magnitude(l) <= MAX_VARIABLE
}

/// Every literal of the clause is one that the solver accepts.
pub open spec fn valid_clause(c: Seq<isize>) -> bool {
    forall|i: int| 0 <= i < c.len() ==> valid_literal(#[trigger] c[i] as int)
}

/// A new solver, by `Solver::new`.
///
/// Trusted: it holds no clause and may be asked to solve.
#[verifier::external_body]
fn solver_new() -> (solver: Solver<'static>)
    ensures
        solver_clauses(solver) == Seq::<Seq<int>>::empty(),
        solver_usable(solver),
{
    Solver::new()
}

/// Adds a clause, by `ExtendFormula::add_clause`, its literals made by
/// `Lit::from_dimacs`.
///
/// Trusted: the clause is added behind those that the solver holds, and the
/// solver stays as usable as it was. `Lit::from_dimacs` asks for literals that
/// are not 0 and within the solver's range of variables.
#[verifier::external_body]
fn solver_add_clause(solver: &mut Solver<'static>, clause: &[isize])
    requires
        valid_clause(clause@),
    ensures
        solver_clauses(*final(solver)) == solver_clauses(*old(solver)).push(
            clause_view(clause@),
        ),
        solver_usable(*final(solver)) == solver_usable(*old(solver)),
{
    let lits: Vec<Lit> = clause.iter().map(|&l| Lit::from_dimacs(l)).collect();
    solver.add_clause(&lits);
}

/// Asks whether the clauses can be satisfied, by `Solver::solve`.
///
/// Trusted: the clauses stay as they are; after an answer the solver may be
/// asked again; and the answer "no" is only given where no assignment
/// satisfies the clauses. `Solver::solve` panics on a solver that met an
/// error it cannot recover from.
#[verifier::external_body]
fn solver_solve(solver: &mut Solver<'static>) -> (r: Result<bool, SolverError>)
    requires
        solver_usable(*old(solver)),
    ensures
        solver_clauses(*final(solver)) == solver_clauses(*old(solver)),
        r is Ok ==> solver_usable(*final(solver)),
        r matches Ok(found) ==> (!found ==> !satisfiable(solver_clauses(*old(solver)))),
{
    solver.solve()
}

/// The satisfying assignment that the last search found, by `Solver::model`,
/// each literal given by `Lit::to_dimacs`.
///
/// Trusted: what comes back is a model of the clauses that the solver holds:
/// it holds a literal of every clause, and it holds one literal for each
/// variable from 1 to the largest that the clauses name, in their order,
/// and nothing else. Its literals are ones that the solver accepts.
#[verifier::external_body]
fn solver_model(solver: &Solver<'static>) -> (r: Option<Vec<isize>>)
    ensures
        r matches Some(model) ==> valid_clause(model@) && is_model(
            clause_view(model@),
            solver_clauses(*solver),
        ) && one_for_each(clause_view(model@), variable_count(solver_clauses(*solver))),
{
    solver.model().map(|lits| lits.iter().map(|l| l.to_dimacs()).collect())
}

/// A literal that no solver would accept, and where it stands.
#[derive(Debug, Clone, Copy, PartialEq, Eq)]
pub struct InvalidLiteral {
    /// The index of the clause.
    pub clause: usize,
    /// The index of the literal in its clause.
    pub position: usize,
    /// The literal itself.
    pub literal: isize,
}

/// The models of a formula, one at a time.
///
/// Each model that is handed out is excluded from then on by a clause that
/// denies it, so no model comes twice. Once the formula, with the clauses
/// added so far, has no model left, the iterator is exhausted and stays so.
pub struct SolutionIterator {
    solver: Solver<'static>,
    exhausted: bool,
    failed: bool,
}

/// The clause that denies the assignment `model`: the negation of each of its
/// literals.
pub open spec fn blocking_clause(model: Seq<int>) -> Seq<int> {
    negate_all(model)
}

/// An assignment satisfies the blocking clause of a model exactly when it
/// differs from the model in some literal.
pub proof fn lemma_blocking_clause(truth: Set<int>, model: Seq<int>)
    requires
        forall|i: int| 0 <= i < model.len() ==> #[trigger] model[i] != 0,
    ensures
        clause_holds(truth, blocking_clause(model)) <==> exists|i: int|
            0 <= i < model.len() && !lit_holds(truth, #[trigger] model[i]),
{
    let block = blocking_clause(model);
    if clause_holds(truth, block) {
        let i = choose|i: int| 0 <= i < block.len() && lit_holds(truth, #[trigger] block[i]);
        assert(block[i] == -model[i]);
        assert(!lit_holds(truth, model[i]));
    }
    if exists|i: int| 0 <= i < model.len() && !lit_holds(truth, #[trigger] model[i]) {
        let i = choose|i: int| 0 <= i < model.len() && !lit_holds(truth, #[trigger] model[i]);
        assert(model[i] != 0);
        assert(lit_holds(truth, block[i]));
    }
}

/// A model that is found after another was blocked differs from it: it
/// makes one of the other's literals false.
pub proof fn lemma_models_differ(first: Seq<int>, second: Seq<int>, f: Seq<Seq<int>>)
    requires
        is_model(first, f),
        is_model(second, f.push(blocking_clause(first))),
    ensures
        exists|i: int|
            0 <= i < first.len() && !lit_holds(model_truth(second), #[trigger] first[i]),
{
    let truth = model_truth(second);
    let g = f.push(blocking_clause(first));
    lemma_model_truth(second, g);
    assert(g[f.len() as int] == blocking_clause(first));
    assert(clause_holds(truth, blocking_clause(first)));
    assert forall|i: int| 0 <= i < first.len() implies #[trigger] first[i] != 0 by {
        assert(first[i] != -first[i]);
    }
    lemma_blocking_clause(truth, first);
}

/// What the solver answered when it was asked for one more model.
pub enum Answer {
    /// It found this model.
    Model(Vec<isize>),
    /// It found that there is none.
    NoModel,
    /// It gave up.
    Failure,
}

/// What the enumerator does on an answer of the solver.
pub struct Step {
    /// What it hands out.
    pub result: Option<Vec<isize>>,
    /// The clause that it adds to the formula, if any.
    pub block: Option<Vec<isize>>,
    /// Whether it is exhausted from then on.
    pub exhausted: bool,
    /// Whether it failed.
    pub failed: bool,
}

/// What the enumerator does on an answer of the solver. A model that was
/// found is handed out and blocked, and the enumeration goes on. Where there
/// is no model the enumeration is exhausted; where the solver gave up it is
/// exhausted and has failed.
pub fn decide(answer: Answer) -> (step: Step)
    requires
        answer matches Answer::Model(m) ==> valid_clause(m@),
    ensures
        match answer {
            Answer::Model(m) => {
                &&& step.result == Some(m)
                &&& !step.exhausted
                &&& !step.failed
                &&& step.block matches Some(b) && clause_view(b@) == blocking_clause(
                    clause_view(m@),
                ) && valid_clause(b@)
            },
            Answer::NoModel => {
                &&& step.result is None
                &&& step.block is None
                &&& step.exhausted
                &&& !step.failed
            },
            Answer::Failure => {
                &&& step.result is None
                &&& step.block is None
                &&& step.exhausted
                &&& step.failed
            },
        },
{
    match answer {
        Answer::Model(model) => {
            let block = negated_clause(model.as_slice());
            proof {
                assert forall|i: int| 0 <= i < block@.len() implies valid_literal(
                    #[trigger] block@[i] as int,
                ) by {
                    assert(negate_all(clause_view(model@)).len() == model@.len());
                    assert(clause_view(block@).len() == block@.len());
                    assert(clause_view(block@)[i] == -clause_view(model@)[i]);
                    assert(valid_literal(model@[i] as int));
                }
            }
            Step { result: Some(model), block: Some(block), exhausted: false, failed: false }
        },
        Answer::NoModel => Step { result: None, block: None, exhausted: true, failed: false },
        Answer::Failure => Step { result: None, block: None, exhausted: true, failed: true },
    }
}

impl SolutionIterator {
    /// What holds of every iterator that `find_all_solutions` made, however
    /// far it has come.
    pub closed spec fn wf(&self) -> bool {
        &&& !self.exhausted ==> solver_usable(self.solver)
        &&& self.failed ==> self.exhausted
        &&& self.exhausted && !self.failed ==> !satisfiable(solver_clauses(self.solver))
    }

    /// The formula whose models are still to come: the one that the iterator
    /// was made for, and a blocking clause for each model handed out.
    pub closed spec fn formula(&self) -> Seq<Seq<int>> {
        solver_clauses(self.solver)
    }

    /// No model will come any more.
    pub closed spec fn exhausted(&self) -> bool {
        self.exhausted
    }

    /// The enumeration ended because the solver gave up, not because the
    /// models ran out.
    pub closed spec fn failed(&self) -> bool {
        self.failed
    }

    /// Whether no model will come any more.
    pub fn is_exhausted(&self) -> (b: bool)
        ensures
            b == self.exhausted(),
    {
        self.exhausted
    }

    /// Whether the enumeration ended on a failure of the solver. Where it
    /// did not, an exhausted iterator has handed out every model.
    pub fn has_failed(&self) -> (b: bool)
        requires
            self.wf(),
        ensures
            b == self.failed(),
            b ==> self.exhausted(),
            self.exhausted() && !b ==> !satisfiable(self.formula()),
    {
        self.failed
    }

    /// Asks the solver for one more model of the formula.
    fn ask(&mut self) -> (answer: Answer)
        requires
            old(self).wf(),
            !old(self).exhausted(),
        ensures
            final(self).formula() == old(self).formula(),
            final(self).exhausted() == old(self).exhausted(),
            final(self).failed() == old(self).failed(),
            match answer {
                Answer::Model(model) => {
                    &&& solver_usable(final(self).solver)
                    &&& valid_clause(model@)
                    &&& is_model(clause_view(model@), old(self).formula())
                    &&& one_for_each(clause_view(model@), variable_count(old(self).formula()))
                },
                Answer::NoModel => !satisfiable(old(self).formula()),
                Answer::Failure => true,
            },
    {
        match solver_solve(&mut self.solver) {
            Ok(true) => match solver_model(&self.solver) {
                Some(model) => Answer::Model(model),
                None => Answer::Failure,
            },
            Ok(false) => Answer::NoModel,
            Err(_) => Answer::Failure,
        }
    }

    /// The next model, or `None` once there is none left.
    ///
    /// The solver is asked for a model of the formula, and `decide` says what
    /// is done on its answer. A model that is handed out satisfies the
    /// formula as it stood, holds one literal for each of its variables, and
    /// is denied from then on. After `None` the iterator is exhausted, and
    /// every further call gives `None` again and changes nothing.
    pub fn next(&mut self) -> (r: Option<Vec<isize>>)
        requires
            old(self).wf(),
        ensures
            final(self).wf(),
            old(self).exhausted() ==> r is None && final(self).failed() == old(self).failed(),
            match r {
                Some(model) => {
                    &&& !final(self).exhausted()
                    &&& valid_clause(model@)
                    &&& is_model(clause_view(model@), old(self).formula())
                    &&& one_for_each(clause_view(model@), variable_count(old(self).formula()))
                    &&& final(self).formula() == old(self).formula().push(
                        blocking_clause(clause_view(model@)),
                    )
                },
                None => {
                    &&& final(self).exhausted()
                    &&& final(self).formula() == old(self).formula()
                    &&& !final(self).failed() ==> !satisfiable(final(self).formula())
                },
            },
    {
        if self.exhausted {
            return None;
        }
        let answer = self.ask();
        let Step { result, block, exhausted, failed } = decide(answer);
        match block {
            Some(block) => {
                solver_add_clause(&mut self.solver, block.as_slice());
            },
            None => {},
        }
        self.exhausted = exhausted;
        self.failed = failed;
        result
    }

    /// Up to `limit` further models, in the order in which they come. Fewer
    /// come only where the iterator is exhausted; where it is and the solver
    /// did not give up, they are as many as the formula had models. Each is a
    /// model of the formula as it stood when it was found: the one at the
    /// start, with the blocking clauses of the models before it.
    pub fn take(&mut self, limit: usize) -> (models: Vec<Vec<isize>>)
        requires
            old(self).wf(),
        ensures
            final(self).wf(),
            models@.len() <= limit,
            models@.len() < limit ==> final(self).exhausted(),
            final(self).exhausted() && !final(self).failed() ==> models@.len() == model_count(
                old(self).formula(),
            ),
            old(self).exhausted() ==> models@.len() == 0,
            final(self).formula() == old(self).formula() + blocking_clauses(
                models@,
                models@.len(),
            ),
            forall|k: int|
                0 <= k < models@.len() ==> is_model(
                    clause_view(models@[k]@),
                    old(self).formula() + #[trigger] blocking_clauses(models@, k as nat),
                ),
    {
        let mut models: Vec<Vec<isize>> = Vec::new();
        let ghost start = self.formula();
        assert(self.formula() =~= start + blocking_clauses(models@, 0));
        let mut done = false;
        while !done && models.len() < limit
            invariant
                self.wf(),
                models@.len() <= limit,
                done ==> self.exhausted(),
                old(self).exhausted() ==> models@.len() == 0 && self.exhausted(),
                start == old(self).formula(),
                self.formula() == start + blocking_clauses(models@, models@.len()),
                model_count(self.formula()) + models@.len() == model_count(start),
                forall|k: int|
                    0 <= k < models@.len() ==> is_model(
                        clause_view(models@[k]@),
                        start + #[trigger] blocking_clauses(models@, k as nat),
                    ),
            decreases limit - models@.len(), if done { 0nat } else { 1nat },
        {
            let ghost before = models@;
            let ghost formula = self.formula();
            match self.next() {
                Some(model) => {
                    proof {
                        lemma_one_for_each(clause_view(model@), variable_count(formula));
                        lemma_one_model_fewer(clause_view(model@), formula);
                        lemma_one_more_model(start, before, model);
                    }
                    models.push(model);
                },
                None => {
                    done = true;
                },
            }
        }
        proof {
            if self.exhausted() && !self.failed() {
                lemma_count_none(
                    self.formula(),
                    Set::empty(),
                    1,
                    variable_count(self.formula()) as int,
                );
            }
        }
        models
    }

    /// All further models, in the order in which they come. With them the
    /// iterator is exhausted. Unless the solver gave up, they are as many as
    /// the formula had models.
    ///
    /// The search ends: each model that is handed out is one fewer among the
    /// finitely many that the formula has left.
    pub fn collect(&mut self) -> (models: Vec<Vec<isize>>)
        requires
            old(self).wf(),
        ensures
            final(self).wf(),
            final(self).exhausted(),
            !final(self).failed() ==> models@.len() == model_count(old(self).formula()),
            old(self).exhausted() ==> models@.len() == 0,
            final(self).formula() == old(self).formula() + blocking_clauses(
                models@,
                models@.len(),
            ),
            forall|k: int|
                0 <= k < models@.len() ==> is_model(
                    clause_view(models@[k]@),
                    old(self).formula() + #[trigger] blocking_clauses(models@, k as nat),
                ),
    {
        let mut models: Vec<Vec<isize>> = Vec::new();
        let ghost start = self.formula();
        assert(self.formula() =~= start + blocking_clauses(models@, 0));
        let mut done = false;
        while !done
            invariant
                self.wf(),
                done ==> self.exhausted(),
                old(self).exhausted() ==> models@.len() == 0 && self.exhausted(),
                start == old(self).formula(),
                self.formula() == start + blocking_clauses(models@, models@.len()),
                model_count(self.formula()) + models@.len() == model_count(start),
                forall|k: int|
                    0 <= k < models@.len() ==> is_model(
                        clause_view(models@[k]@),
                        start + #[trigger] blocking_clauses(models@, k as nat),
                    ),
            decreases
                    if done {
                        0nat
                    } else {
                        1 + model_count(self.formula())
                    },
        {
            let ghost before = models@;
            let ghost formula = self.formula();
            match self.next() {
                Some(model) => {
                    proof {
                        lemma_one_for_each(clause_view(model@), variable_count(formula));
                        lemma_one_model_fewer(clause_view(model@), formula);
                        lemma_one_more_model(start, before, model);
                    }
                    models.push(model);
                },
                None => {
                    done = true;
                },
            }
        }
        proof {
            if !self.failed() {
                lemma_count_none(
                    self.formula(),
                    Set::empty(),
                    1,
                    variable_count(self.formula()) as int,
                );
            }
        }
        models
    }
}

/// The number of assignments of the variables of a formula, from 1 to the
/// largest that it names, that satisfy the formula.
pub open spec fn model_count(f: Seq<Seq<int>>) -> nat {
    count_models(f, Set::empty(), 1, variable_count(f) as int)
}

/// Blocking a model that names each variable of a formula takes exactly one
/// model from the formula, and no variable is added.
pub proof fn lemma_one_model_fewer(model: Seq<int>, f: Seq<Seq<int>>)
    requires
        is_model(model, f),
        names_all(model, variable_count(f)),
    ensures
        variable_count(f.push(blocking_clause(model))) == variable_count(f),
        model_count(f.push(blocking_clause(model))) + 1 == model_count(f),
{
    let v = variable_count(f);
    let block = blocking_clause(model);
    let lost = model_truth(model);
    lemma_model_truth(model, f);
    lemma_blocking_clause(lost, model);
    assert forall|i: int| 0 <= i < model.len() implies lit_holds(lost, #[trigger] model[i]) by {
        let l = model[i];
        assert(1 <= magnitude(l));
        if l < 0 {
            if model.contains(-l) {
                let q = choose|q: int| 0 <= q < model.len() && model[q] == -l;
                assert(model[i] == -model[q]);
            }
        }
    }
    assert(agrees_upto(lost, lost, v as int));
    assert forall|t: Set<int>| #[trigger] clause_holds(t, block) || agrees_upto(
        t,
        lost,
        v as int,
    ) by {
        if !clause_holds(t, block) {
            lemma_blocking_clause(t, model);
            assert forall|u: int| 1 <= u <= v implies (t.contains(u) <==> lost.contains(u)) by {
                assert(names(model, u));
                if model.contains(u) {
                    let q = choose|q: int| 0 <= q < model.len() && model[q] == u;
                    assert(lit_holds(t, model[q]));
                } else {
                    let q = choose|q: int| 0 <= q < model.len() && model[q] == -u;
                    assert(lit_holds(t, model[q]));
                }
            }
        }
    }
    assert(breaks_only(block, lost, v as int));
    assert forall|u: int| u > v implies !lost.contains(u) by {
        if model.contains(u) {
            let q = choose|q: int| 0 <= q < model.len() && model[q] == u;
            assert(magnitude(model[q]) <= v);
        }
    }
    lemma_clause_max(block);
    assert(clause_max(block) <= v) by {
        if clause_max(block) != 0 {
            let i = choose|i: int|
                0 <= i < block.len() && magnitude(#[trigger] block[i]) == clause_max(block);
            assert(block[i] == -model[i]);
            assert(magnitude(model[i]) <= v);
        }
    }
    assert(f.push(block).drop_last() =~= f);
    assert(f.push(block).last() == block);
    lemma_count_drops_one(f, block, Set::empty(), 1, v as int, lost);
}

/// Of the models that were found in turn each differs from every one before
/// it: it makes one of the other's literals false.
pub proof fn lemma_found_models_differ(
    start: Seq<Seq<int>>,
    models: Seq<Vec<isize>>,
    j: int,
    k: int,
)
    requires
        0 <= j < k < models.len(),
        is_model(clause_view(models[j]@), start + blocking_clauses(models, j as nat)),
        is_model(clause_view(models[k]@), start + blocking_clauses(models, k as nat)),
    ensures
        exists|i: int|
            0 <= i < models[j]@.len() && !lit_holds(
                model_truth(clause_view(models[k]@)),
                #[trigger] clause_view(models[j]@)[i],
            ),
{
    let first = clause_view(models[j]@);
    let second = clause_view(models[k]@);
    let truth = model_truth(second);
    let f = start + blocking_clauses(models, k as nat);
    lemma_model_truth(second, f);
    assert(f[start.len() + j] == blocking_clause(first));
    assert(clause_holds(truth, blocking_clause(first)));
    assert forall|i: int| 0 <= i < first.len() implies #[trigger] first[i] != 0 by {
        assert(first[i] != -first[i]);
    }
    lemma_blocking_clause(truth, first);
}

/// One more model behind a list of models that were found in turn.
proof fn lemma_one_more_model(start: Seq<Seq<int>>, before: Seq<Vec<isize>>, model: Vec<isize>)
    requires
        forall|k: int|
            0 <= k < before.len() ==> is_model(
                clause_view(before[k]@),
                start + #[trigger] blocking_clauses(before, k as nat),
            ),
        is_model(clause_view(model@), start + blocking_clauses(before, before.len())),
    ensures
        start + blocking_clauses(before.push(model), before.len() + 1) == (start
            + blocking_clauses(before, before.len())).push(blocking_clause(clause_view(model@))),
        forall|k: int|
            0 <= k < before.len() + 1 ==> is_model(
                clause_view(before.push(model)[k]@),
                start + #[trigger] blocking_clauses(before.push(model), k as nat),
            ),
{
    let after = before.push(model);
    let n = before.len();
    assert forall|k: int| 0 <= k <= n implies #[trigger] blocking_clauses(after, k as nat)
        == blocking_clauses(before, k as nat) by {
        assert(blocking_clauses(after, k as nat) =~= blocking_clauses(before, k as nat));
    }
    assert(blocking_clauses(after, (n + 1) as nat) =~= blocking_clauses(before, n).push(
        blocking_clause(clause_view(model@)),
    ));
    assert(start + blocking_clauses(after, (n + 1) as nat) =~= (start + blocking_clauses(
        before,
        n,
    )).push(blocking_clause(clause_view(model@))));
    assert forall|k: int| 0 <= k < n + 1 implies is_model(
        clause_view(after[k]@),
        start + #[trigger] blocking_clauses(after, k as nat),
    ) by {
        assert(blocking_clauses(after, k as nat) == blocking_clauses(before, k as nat));
        if k < n {
            assert(after[k] == before[k]);
        }
    }
}

/// The blocking clauses of the first `upto` of `models`.
pub open spec fn blocking_clauses(models: Seq<Vec<isize>>, upto: nat) -> Seq<Seq<int>> {
    Seq::new(upto, |k: int| blocking_clause(clause_view(models[k]@)))
}

/// The first literal of the formula that the solver would not accept, if
/// there is one.
pub fn find_invalid_literal(clauses: &[Vec<isize>]) -> (r: Option<InvalidLiteral>)
    ensures
        match r {
            None => forall|j: int| 0 <= j < clauses@.len() ==> valid_clause(#[trigger] clauses@[j]@),
            Some(e) => {
                &&& e.clause < clauses@.len()
                &&& e.position < clauses@[e.clause as int]@.len()
                &&& e.literal == clauses@[e.clause as int]@[e.position as int]
                &&& !valid_literal(e.literal as int)
                &&& forall|j: int| 0 <= j < e.clause ==> valid_clause(#[trigger] clauses@[j]@)
                &&& forall|i: int|
                    0 <= i < e.position ==> valid_literal(
                        #[trigger] clauses@[e.clause as int]@[i] as int,
                    )
            },
        },
{
    let mut j: usize = 0;
    while j < clauses.len()
        invariant
            j <= clauses@.len(),
            forall|t: int| 0 <= t < j ==> valid_clause(#[trigger] clauses@[t]@),
        decreases clauses@.len() - j,
    {
        let clause = &clauses[j];
        let mut i: usize = 0;
        while i < clause.len()
            invariant
                j < clauses@.len(),
                *clause == clauses@[j as int],
                i <= clause@.len(),
                forall|t: int| 0 <= t < j ==> valid_clause(#[trigger] clauses@[t]@),
                forall|t: int| 0 <= t < i ==> valid_literal(#[trigger] clause@[t] as int),
            decreases clause@.len() - i,
        {
            let l = clause[i];
            if l == 0 || l > MAX_VARIABLE || l < -MAX_VARIABLE {
                return Some(InvalidLiteral { clause: j, position: i, literal: l });
            }
            i += 1;
        }
        j += 1;
    }
    None
}

/// An iterator over all models of the formula `clauses`.
///
/// It is refused where the formula holds a literal that is 0 or whose
/// variable lies beyond `MAX_VARIABLE`; the error names the first such
/// literal.
pub fn find_all_solutions(clauses: &[Vec<isize>]) -> (r: Result<SolutionIterator, InvalidLiteral>)
    ensures
        match r {
            Ok(models) => {
                &&& models.wf()
                &&& forall|j: int| 0 <= j < clauses@.len() ==> valid_clause(#[trigger] clauses@[j]@)
                &&& models.formula() == formula_view(clauses@)
                &&& !models.exhausted()
            },
            Err(e) => {
                &&& e.clause < clauses@.len()
                &&& e.position < clauses@[e.clause as int]@.len()
                &&& e.literal == clauses@[e.clause as int]@[e.position as int]
                &&& !valid_literal(e.literal as int)
                &&& forall|j: int| 0 <= j < e.clause ==> valid_clause(#[trigger] clauses@[j]@)
                &&& forall|i: int|
                    0 <= i < e.position ==> valid_literal(
                        #[trigger] clauses@[e.clause as int]@[i] as int,
                    )
            },
        },
{
    match find_invalid_literal(clauses) {
        Some(e) => {
            return Err(e);
        },
        None => {},
    }
    let mut solver = solver_new();
    let mut j: usize = 0;
    while j < clauses.len()
        invariant
            j <= clauses@.len(),
            forall|t: int| 0 <= t < clauses@.len() ==> valid_clause(#[trigger] clauses@[t]@),
            solver_usable(solver),
            solver_clauses(solver) =~= formula_view(clauses@).take(j as int),
        decreases clauses@.len() - j,
    {
        solver_add_clause(&mut solver, clauses[j].as_slice());
        j += 1;
    }
    assert(formula_view(clauses@).take(clauses@.len() as int) =~= formula_view(clauses@));
    Ok(SolutionIterator { solver, exhausted: false, failed: false })
}

} // verus!
