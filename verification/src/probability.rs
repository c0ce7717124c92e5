//! The weight of the mine layouts of a board.
//!
//! A model of the board's formula lays the mines near the revealed numbers.
//! The mines that are left over lie somewhere among the cells that no number
//! borders, the sea. A model with `r` mines left over stands for as many
//! layouts as there are ways to choose `r` of the sea's cells. The tally adds
//! these weights up, for the board and for each cell, in whole numbers; the
//! chance that a cell hides a mine is a quotient of two of its sums.

use crate::cnf::clause_view;
use crate::minesweeper_sat::{decode_solution, mine_at};
use std::collections::HashMap;
use vstd::prelude::*;

verus! {

/// The number of ways to choose `k` out of `n`.
pub open spec fn binomial(n: nat, k: nat) -> nat
    decreases n,
{
    if k == 0 {
        1
    } else if n == 0 {
        0
    } else {
        binomial((n - 1) as nat, (k - 1) as nat) + binomial((n - 1) as nat, k)
    }
}

/// There is no way to choose more than there are.
pub proof fn lemma_binomial_none(n: nat, k: nat)
    requires
        k > n,
    ensures
        binomial(n, k) == 0,
    decreases n,
{
    if n > 0 {
        lemma_binomial_none((n - 1) as nat, (k - 1) as nat);
        lemma_binomial_none((n - 1) as nat, k);
    }
}

/// There is one way to choose all.
pub proof fn lemma_binomial_all(n: nat)
    ensures
        binomial(n, n) == 1,
    decreases n,
{
    if n > 0 {
        lemma_binomial_all((n - 1) as nat);
        lemma_binomial_none((n - 1) as nat, n);
    }
}

/// To choose `k` is to choose the `n - k` to leave out.
pub proof fn lemma_binomial_symmetric(n: nat, k: nat)
    requires
        k <= n,
    ensures
        binomial(n, k) == binomial(n, (n - k) as nat),
    decreases n,
{
    if k == 0 {
        lemma_binomial_all(n);
    } else if k == n {
        lemma_binomial_all(n);
    } else {
        lemma_binomial_symmetric((n - 1) as nat, (k - 1) as nat);
        lemma_binomial_symmetric((n - 1) as nat, k);
    }
}

/// `(m + 1 - k) * C(m + 1, k) == (m + 1) * C(m, k)`.
pub proof fn lemma_binomial_absorb(m: nat, k: nat)
    requires
        k <= m + 1,
    ensures
        (m + 1 - k) * binomial(m + 1, k) == (m + 1) * binomial(m, k),
    decreases m,
{
    if k == 0 {
        assert((m + 1 - 0) * 1 == (m + 1) * 1);
    } else if k == m + 1 {
        lemma_binomial_none(m, k);
        assert(0 * binomial(m + 1, k) == 0) by (nonlinear_arith);
        assert((m + 1) * 0 == 0);
    } else if m == 0 {
    } else {
        let a = binomial((m - 1) as nat, (k - 1) as nat) as int;
        let b = binomial((m - 1) as nat, k) as int;
        let p = binomial(m, (k - 1) as nat) as int;
        let q = binomial(m, k) as int;
        lemma_binomial_absorb((m - 1) as nat, (k - 1) as nat);
        lemma_binomial_absorb((m - 1) as nat, k);
        assert((m - k + 1) * p == m * a);
        assert((m - k) * q == m * b);
        assert(q == a + b);
        assert(binomial(m + 1, k) == p + q);
        assert((m + 1 - k) * (p + q) == (m + 1) * q) by (nonlinear_arith)
            requires
                (m - k + 1) * p == m * a,
                (m - k) * q == m * b,
                q == a + b,
        ;
    }
}

/// There are no fewer ways to choose from more.
pub proof fn lemma_binomial_grows(a: nat, b: nat, k: nat)
    requires
        a <= b,
    ensures
        binomial(a, k) <= binomial(b, k),
    decreases b,
{
    if a < b {
        lemma_binomial_grows(a, (b - 1) as nat, k);
    }
}

/// The smaller of `k` and `n - k`.
pub open spec fn shorter_side(n: nat, k: nat) -> nat {
    if k > n / 2 {
        (n - k) as nat
    } else {
        k
    }
}

/// The largest number that `combinations` meets on its way: it multiplies
/// before it divides, and its last product is its largest.
pub open spec fn widest_product(n: nat, k: nat) -> nat {
    if k == 0 || k >= n {
        0
    } else {
        n * binomial((n - 1) as nat, shorter_side(n, k))
    }
}

/// The number of ways to choose `k` out of `n`, or `None` where the
/// computation would leave the range of `u128`.
pub fn combinations(n: u128, k: u128) -> (r: Option<u128>)
    ensures
        r matches Some(c) ==> c == binomial(n as nat, k as nat),
        r is None <==> widest_product(n as nat, k as nat) > u128::MAX,
{
    if k > n {
        proof {
            lemma_binomial_none(n as nat, k as nat);
        }
        return Some(0);
    }
    if k == 0 || k == n {
        proof {
            lemma_binomial_all(n as nat);
        }
        return Some(1);
    }
    let short = if k > n / 2 {
        n - k
    } else {
        k
    };
    proof {
        lemma_binomial_symmetric(n as nat, k as nat);
        lemma_binomial_all(short as nat);
    }
    let mut acc: u128 = 1;
    let mut val: u128 = short;
    while val < n
        invariant
            1 <= short <= val <= n,
            0 < k < n,
            short == shorter_side(n as nat, k as nat),
            binomial(n as nat, k as nat) == binomial(n as nat, short as nat),
            acc == binomial(val as nat, short as nat),
            short < n,
            val > short ==> val * binomial((val - 1) as nat, short as nat) <= u128::MAX,
        decreases n - val,
    {
        val += 1;
        proof {
            lemma_binomial_absorb((val - 1) as nat, short as nat);
            lemma_binomial_grows((val - 1) as nat, (n - 1) as nat, short as nat);
            assert(val * binomial((val - 1) as nat, short as nat) <= n * binomial(
                (n - 1) as nat,
                short as nat,
            )) by (nonlinear_arith)
                requires
                    val <= n,
                    binomial((val - 1) as nat, short as nat) <= binomial(
                        (n - 1) as nat,
                        short as nat,
                    ),
            ;
            assert(acc * val == val * binomial((val - 1) as nat, short as nat))
                by (nonlinear_arith)
                requires
                    acc == binomial((val - 1) as nat, short as nat),
            ;
        }
        let product = match acc.checked_mul(val) {
            Some(product) => product,
            None => {
                return None;
            },
        };
        proof {
            let steps = (val - short) as int;
            let next = binomial(val as nat, short as nat) as int;
            assert(product == steps * next);
            vstd::arithmetic::div_mod::lemma_div_multiples_vanish(next, steps);
        }
        acc = product / (val - short);
    }
    Some(acc)
}

/// The weight of a model that lays `local` mines, on a board with
/// `mines_total` mines and `sea` cells that no number borders: the number of
/// ways to lay the mines that are left over in the sea. A model that lays
/// more mines than the board has stands for no layout.
pub open spec fn model_weight(sea: nat, mines_total: nat, local: nat) -> nat {
    if local > mines_total {
        0
    } else {
        binomial(sea, (mines_total - local) as nat)
    }
}

/// The mines of a model that are left for the sea.
pub open spec fn left_over(mines_total: nat, local: nat) -> nat {
    if local > mines_total {
        0
    } else {
        (mines_total - local) as nat
    }
}

/// How many cells of the layout hide a mine.
pub open spec fn mine_count(mines: Seq<bool>) -> nat
    decreases mines.len(),
{
    if mines.len() == 0 {
        0
    } else {
        mine_count(mines.drop_last()) + if mines.last() {
            1nat
        } else {
            0nat
        }
    }
}

/// The sum of the numbers.
pub open spec fn sum(weights: Seq<u128>) -> nat
    decreases weights.len(),
{
    if weights.len() == 0 {
        0
    } else {
        sum(weights.drop_last()) + weights.last() as nat
    }
}

/// What a tally has added up.
pub struct TallyView {
    /// The number of mines on the board.
    pub mines_total: nat,
    /// The number of cells in the sea.
    pub sea: nat,
    /// The number of models that were added.
    pub models: nat,
    /// The sum of the weights of the models.
    pub total: nat,
    /// For each cell, the sum of the weights of the models that lay a mine
    /// on it.
    pub cell_weight: Seq<u128>,
    /// The sum, over the models, of the weight times the number of mines that
    /// the model leaves for the sea.
    pub sea_mass: nat,
}

impl TallyView {
    /// The sums after one more model, which lays its mines as `mines` says.
    pub open spec fn with_model(self, mines: Seq<bool>) -> TallyView {
        let weight = model_weight(self.sea, self.mines_total, mine_count(mines));
        TallyView {
            mines_total: self.mines_total,
            sea: self.sea,
            models: self.models + 1,
            total: self.total + weight,
            cell_weight: Seq::new(
                self.cell_weight.len(),
                |i: int|
                    if mines[i] {
                        (self.cell_weight[i] + weight) as u128
                    } else {
                        self.cell_weight[i]
                    },
            ),
            sea_mass: self.sea_mass + weight * left_over(self.mines_total, mine_count(mines)),
        }
    }

    /// The weights lie as the mines do: over the cells and the sea together
    /// they come to the total weight, once for each mine of the board.
    pub open spec fn balanced(self) -> bool {
        sum(self.cell_weight) + self.sea_mass == self.mines_total * self.total
    }

    /// Whether one more model can be added within the range of the sums, which
    /// are `u128`, and of the count of models, which is a `usize`.
    pub open spec fn has_room(self, mines: Seq<bool>) -> bool {
        let local = mine_count(mines);
        let weight = model_weight(self.sea, self.mines_total, local);
        &&& self.models < usize::MAX
        &&& local <= self.mines_total ==> widest_product(
            self.sea,
            (self.mines_total - local) as nat,
        ) <= u128::MAX
        &&& self.total + weight <= u128::MAX
        &&& self.sea_mass + weight * left_over(self.mines_total, local) <= u128::MAX
    }
}

/// Why a model was not added to a tally.
#[derive(Debug, Clone, Copy, PartialEq, Eq)]
pub enum TallyError {
    /// The layout has not one entry for each cell of the board.
    WrongSize,
    /// A sum would leave the range of `u128`.
    Overflow,
}

/// The running sums over the models of a board.
pub struct MineTally {
    mines_total: usize,
    sea: usize,
    models: usize,
    total: u128,
    cell_weight: Vec<u128>,
    sea_mass: u128,
}

impl View for MineTally {
    type V = TallyView;

    closed spec fn view(&self) -> TallyView {
        TallyView {
            mines_total: self.mines_total as nat,
            sea: self.sea as nat,
            models: self.models as nat,
            total: self.total as nat,
            cell_weight: self.cell_weight@,
            sea_mass: self.sea_mass as nat,
        }
    }
}

proof fn lemma_sum_zero(weights: Seq<u128>)
    requires
        forall|i: int| 0 <= i < weights.len() ==> #[trigger] weights[i] == 0,
    ensures
        sum(weights) == 0,
    decreases weights.len(),
{
    if weights.len() > 0 {
        lemma_sum_zero(weights.drop_last());
    }
}

proof fn lemma_sum_with_model(old: Seq<u128>, new: Seq<u128>, mines: Seq<bool>, weight: nat)
    requires
        old.len() == new.len(),
        old.len() == mines.len(),
        forall|i: int|
            0 <= i < old.len() ==> #[trigger] new[i] == old[i] + if mines[i] {
                weight
            } else {
                0nat
            },
    ensures
        sum(new) == sum(old) + weight * mine_count(mines),
    decreases old.len(),
{
    if old.len() > 0 {
        lemma_sum_with_model(old.drop_last(), new.drop_last(), mines.drop_last(), weight);
        let before = mine_count(mines.drop_last());
        assert(weight * (before + 1) == weight * before + weight) by (nonlinear_arith);
    } else {
        assert(weight * 0 == 0);
    }
}

proof fn lemma_mine_count_bound(mines: Seq<bool>)
    ensures
        mine_count(mines) <= mines.len(),
    decreases mines.len(),
{
    if mines.len() > 0 {
        lemma_mine_count_bound(mines.drop_last());
    }
}

impl MineTally {
    /// What holds of every tally, however many models were added: the sums
    /// are balanced, and no cell weighs more than the board.
    pub closed spec fn wf(&self) -> bool {
        &&& self@.balanced()
        &&& forall|i: int|
            0 <= i < self.cell_weight@.len() ==> #[trigger] self.cell_weight@[i] <= self.total
    }

    /// An empty tally for a board of `cells` cells, `sea` of them in the sea,
    /// with `mines_total` mines.
    pub fn new(cells: usize, sea: usize, mines_total: usize) -> (tally: MineTally)
        ensures
            tally.wf(),
            tally@.mines_total == mines_total,
            tally@.sea == sea,
            tally@.models == 0,
            tally@.total == 0,
            tally@.sea_mass == 0,
            tally@.cell_weight == Seq::new(cells as nat, |i: int| 0u128),
    {
        let mut cell_weight: Vec<u128> = Vec::new();
        let mut i: usize = 0;
        while i < cells
            invariant
                i <= cells,
                cell_weight@.len() == i,
                forall|t: int| 0 <= t < i ==> #[trigger] cell_weight@[t] == 0,
            decreases cells - i,
        {
            cell_weight.push(0);
            i += 1;
        }
        proof {
            lemma_sum_zero(cell_weight@);
            assert(cell_weight@ =~= Seq::new(cells as nat, |i: int| 0u128));
            assert(mines_total * 0 == 0);
        }
        MineTally { mines_total, sea, models: 0, total: 0, cell_weight, sea_mass: 0 }
    }

    /// Adds a model that lays its mines as `mines` says, one entry for each
    /// cell of the board.
    ///
    /// A layout of another size is refused, and so is a model that would take
    /// a sum or the count of models out of its range; the tally then stays as
    /// it was.
    pub fn add_model(&mut self, mines: &[bool]) -> (r: Result<(), TallyError>)
        requires
            old(self).wf(),
        ensures
            final(self).wf(),
            match r {
                Ok(()) => {
                    &&& mines@.len() == old(self)@.cell_weight.len()
                    &&& old(self)@.has_room(mines@)
                    &&& final(self)@ == old(self)@.with_model(mines@)
                },
                Err(TallyError::WrongSize) => {
                    &&& mines@.len() != old(self)@.cell_weight.len()
                    &&& final(self)@ == old(self)@
                },
                Err(TallyError::Overflow) => {
                    &&& mines@.len() == old(self)@.cell_weight.len()
                    &&& !old(self)@.has_room(mines@)
                    &&& final(self)@ == old(self)@
                },
            },
    {
        if mines.len() != self.cell_weight.len() {
            return Err(TallyError::WrongSize);
        }
        if self.models == usize::MAX {
            return Err(TallyError::Overflow);
        }
        let local = count_mines(mines);
        let ghost view = self@;
        let (weight, rest): (u128, u128) = if local > self.mines_total {
            (0, 0)
        } else {
            let rest = self.mines_total - local;
            match combinations(self.sea as u128, rest as u128) {
                Some(weight) => (weight, rest as u128),
                None => {
                    return Err(TallyError::Overflow);
                },
            }
        };
        assert(weight == model_weight(view.sea, view.mines_total, local as nat));
        assert(rest == left_over(view.mines_total, local as nat));
        let new_total = match self.total.checked_add(weight) {
            Some(t) => t,
            None => {
                return Err(TallyError::Overflow);
            },
        };
        let mass = match weight.checked_mul(rest) {
            Some(m) => m,
            None => {
                return Err(TallyError::Overflow);
            },
        };
        let new_sea_mass = match self.sea_mass.checked_add(mass) {
            Some(m) => m,
            None => {
                return Err(TallyError::Overflow);
            },
        };
        let ghost before = self.cell_weight@;
        let mut i: usize = 0;
        while i < mines.len()
            invariant
                i <= mines@.len(),
                mines@.len() == before.len(),
                self.cell_weight@.len() == before.len(),
                self.mines_total == view.mines_total,
                self.sea == view.sea,
                self.models == view.models,
                self.models < usize::MAX,
                self.total == view.total,
                self.sea_mass == view.sea_mass,
                new_total == view.total + weight,
                forall|t: int| 0 <= t < before.len() ==> #[trigger] before[t] <= view.total,
                forall|t: int|
                    0 <= t < i ==> #[trigger] self.cell_weight@[t] == before[t] + if mines@[t] {
                        weight as nat
                    } else {
                        0nat
                    },
                forall|t: int| i <= t < before.len() ==> #[trigger] self.cell_weight@[t] == before[t],
            decreases mines@.len() - i,
        {
            if mines[i] {
                let raised = self.cell_weight[i] + weight;
                self.cell_weight.set(i, raised);
            }
            i += 1;
        }
        self.total = new_total;
        self.sea_mass = new_sea_mass;
        self.models = self.models + 1;
        proof {
            lemma_sum_with_model(before, self.cell_weight@, mines@, weight as nat);
            assert(self@.cell_weight =~= view.with_model(mines@).cell_weight);
            let m = view.mines_total as int;
            let l = local as int;
            let w = weight as int;
            let r = rest as int;
            assert(w * l + w * r == m * w) by (nonlinear_arith)
                requires
                    w == 0 || l + r == m,
            ;
            assert(m * (view.total + w) == m * view.total + m * w) by (nonlinear_arith);
        }
        Ok(())
    }

    /// The sum of the weights of the models. It is 0 where no model with a
    /// layout behind it was added: then there is nothing to divide by, and
    /// the board has no solution.
    pub fn total(&self) -> (t: u128)
        ensures
            t == self@.total,
    {
        self.total
    }

    /// Whether the models that were added stand for no layout at all.
    pub fn no_solutions(&self) -> (b: bool)
        ensures
            b == (self@.total == 0),
    {
        self.total == 0
    }

    /// The number of models that were added.
    pub fn models(&self) -> (n: usize)
        ensures
            n == self@.models,
    {
        self.models
    }

    /// The number of cells of the board.
    pub fn cells(&self) -> (n: usize)
        ensures
            n == self@.cell_weight.len(),
    {
        self.cell_weight.len()
    }

    /// The number of cells in the sea.
    pub fn sea(&self) -> (n: usize)
        ensures
            n == self@.sea,
    {
        self.sea
    }

    /// The weight of the models that lay a mine on cell `i`. Divided by the
    /// total it is the chance that the cell hides a mine.
    pub fn cell_weight(&self, i: usize) -> (w: u128)
        requires
            self.wf(),
            i < self@.cell_weight.len(),
        ensures
            w == self@.cell_weight[i as int],
            w <= self@.total,
    {
        self.cell_weight[i]
    }

    /// The weight of the mines that the models leave for the sea. Divided by
    /// the total and by the number of cells in the sea it is the chance that
    /// one cell of the sea hides a mine.
    pub fn sea_mass(&self) -> (w: u128)
        ensures
            w == self@.sea_mass,
    {
        self.sea_mass
    }
}

/// How many cells of the layout hide a mine.
pub fn count_mines(mines: &[bool]) -> (n: usize)
    ensures
        n == mine_count(mines@),
{
    let mut n: usize = 0;
    let mut i: usize = 0;
    assert(mines@.take(0) =~= Seq::<bool>::empty());
    while i < mines.len()
        invariant
            i <= mines@.len(),
            n == mine_count(mines@.take(i as int)),
            n <= i,
        decreases mines@.len() - i,
    {
        proof {
            let upto = mines@.take(i + 1);
            assert(upto.drop_last() =~= mines@.take(i as int));
            assert(upto.last() == mines@[i as int]);
        }
        if mines[i] {
            n += 1;
        }
        i += 1;
    }
    assert(mines@.take(mines@.len() as int) =~= mines@);
    n
}

/// The weights that a tally holds come to the number of mines of the board,
/// once for each unit of total weight. So the chances of the cells, which
/// are these weights divided by the total, add up to the number of mines.
pub proof fn lemma_tally_balanced(tally: MineTally)
    requires
        tally.wf(),
    ensures
        sum(tally@.cell_weight) + tally@.sea_mass == tally@.mines_total * tally@.total,
{
}

/// Adding a model keeps the sums balanced.
pub proof fn lemma_with_model_balanced(tally: TallyView, mines: Seq<bool>)
    requires
        tally.balanced(),
        mines.len() == tally.cell_weight.len(),
        forall|i: int|
            0 <= i < tally.cell_weight.len() ==> #[trigger] tally.cell_weight[i] + model_weight(
                tally.sea,
                tally.mines_total,
                mine_count(mines),
            ) <= u128::MAX,
    ensures
        tally.with_model(mines).balanced(),
{
    let after = tally.with_model(mines);
    let local = mine_count(mines) as int;
    let w = model_weight(tally.sea, tally.mines_total, mine_count(mines));
    let r = left_over(tally.mines_total, mine_count(mines)) as int;
    let m = tally.mines_total as int;
    lemma_sum_with_model(tally.cell_weight, after.cell_weight, mines, w);
    assert(w * local + w * r == m * w) by (nonlinear_arith)
        requires
            w == 0 || local + r == m,
    ;
    assert(m * (tally.total + w) == m * tally.total + m * w) by (nonlinear_arith);
}


/// The layout that the model `m` describes on a board of `cells` cells.
pub open spec fn layout_of(m: Seq<int>, numbering: Map<usize, isize>, cells: nat) -> Seq<bool> {
    Seq::new(cells, |c: int| mine_at(m, numbering, c as usize))
}

/// The empty tally of a board.
pub open spec fn empty_tally(cells: nat, sea: nat, mines_total: nat) -> TallyView {
    TallyView {
        mines_total,
        sea,
        models: 0,
        total: 0,
        cell_weight: Seq::new(cells, |i: int| 0u128),
        sea_mass: 0,
    }
}

/// The tally of the first `upto` of `models`.
pub open spec fn tally_of(
    models: Seq<Vec<isize>>,
    upto: nat,
    numbering: Map<usize, isize>,
    cells: nat,
    sea: nat,
    mines_total: nat,
) -> TallyView
    decreases upto,
{
    if upto == 0 {
        empty_tally(cells, sea, mines_total)
    } else {
        tally_of(models, (upto - 1) as nat, numbering, cells, sea, mines_total).with_model(
            layout_of(clause_view(models[upto - 1]@), numbering, cells),
        )
    }
}

/// Whether each of the first `upto` of `models` can be added in turn within
/// the range of `u128`.
pub open spec fn tally_fits(
    models: Seq<Vec<isize>>,
    upto: nat,
    numbering: Map<usize, isize>,
    cells: nat,
    sea: nat,
    mines_total: nat,
) -> bool
    decreases upto,
{
    upto > 0 ==> tally_fits(models, (upto - 1) as nat, numbering, cells, sea, mines_total)
        && tally_of(models, (upto - 1) as nat, numbering, cells, sea, mines_total).has_room(
        layout_of(clause_view(models[upto - 1]@), numbering, cells),
    )
}

/// The tally of the models of a board: each model is read as a layout of the
/// board of `width` by `height` cells, by the variables of its cells in
/// `var_map`, and added. `sea` is the number of cells that no revealed number
/// borders, and `mines_total` the number of mines of the board.
///
/// The tally is given up where a sum leaves the range of `u128`.
pub fn tally_models(
    models: &[Vec<isize>],
    width: usize,
    height: usize,
    var_map: &HashMap<usize, isize>,
    sea: usize,
    mines_total: usize,
) -> (r: Result<MineTally, TallyError>)
    requires
        width * height <= usize::MAX,
    ensures
        match r {
            Ok(tally) => {
                &&& tally.wf()
                &&& tally_fits(
                    models@,
                    models@.len(),
                    var_map@,
                    (width * height) as nat,
                    sea as nat,
                    mines_total as nat,
                )
                &&& tally@ == tally_of(
                    models@,
                    models@.len(),
                    var_map@,
                    (width * height) as nat,
                    sea as nat,
                    mines_total as nat,
                )
            },
            Err(e) => {
                &&& e == TallyError::Overflow
                &&& !tally_fits(
                    models@,
                    models@.len(),
                    var_map@,
                    (width * height) as nat,
                    sea as nat,
                    mines_total as nat,
                )
            },
        },
{
    let ghost cells = (width * height) as nat;
    let mut tally = MineTally::new(width * height, sea, mines_total);
    assert(tally@ == empty_tally(cells, sea as nat, mines_total as nat));
    let mut k: usize = 0;
    while k < models.len()
        invariant
            k <= models@.len(),
            tally.wf(),
            cells == width * height,
            width * height <= usize::MAX,
            tally_fits(models@, k as nat, var_map@, cells, sea as nat, mines_total as nat),
            tally@ == tally_of(models@, k as nat, var_map@, cells, sea as nat, mines_total as nat),
            tally@.models == k,
            tally@.cell_weight.len() == cells,
        decreases models@.len() - k,
    {
        let layout = decode_solution(models[k].as_slice(), width, height, var_map);
        assert(layout.mines@ =~= layout_of(clause_view(models@[k as int]@), var_map@, cells));
        match tally.add_model(layout.mines.as_slice()) {
            Ok(()) => {},
            Err(_) => {
                proof {
                    if tally_fits(
                        models@,
                        models@.len(),
                        var_map@,
                        cells,
                        sea as nat,
                        mines_total as nat,
                    ) {
                        lemma_fits_prefix(
                            models@,
                            (k + 1) as nat,
                            models@.len(),
                            var_map@,
                            cells,
                            sea as nat,
                            mines_total as nat,
                        );
                    }
                }
                return Err(TallyError::Overflow);
            },
        }
        k += 1;
    }
    Ok(tally)
}

proof fn lemma_fits_prefix(
    models: Seq<Vec<isize>>,
    a: nat,
    b: nat,
    numbering: Map<usize, isize>,
    cells: nat,
    sea: nat,
    mines_total: nat,
)
    requires
        a <= b,
        tally_fits(models, b, numbering, cells, sea, mines_total),
    ensures
        tally_fits(models, a, numbering, cells, sea, mines_total),
    decreases b,
{
    if a < b {
        lemma_fits_prefix(models, a, (b - 1) as nat, numbering, cells, sea, mines_total);
    }
}

} // verus!
