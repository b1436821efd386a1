//! The tabular primal simplex method over exact fractions.
//!
//! Every step is stated on [`TableauView`], a model with fractions as pairs of
//! integers; the executable [`Tableau`] is proved to follow it, arithmetic
//! overflow included.
use crate::problem::{Constraint, ConstraintKind, Problem, ProblemKind};
use crate::rational::{
    abs, approx_cmp, cross, difference_spec, fits, lemma_approx_cmp_scale,
    canonical, lemma_ops_canonical, lemma_reduce_canonical, lemma_small_canonical,
    lemma_reduce_keeps_order, lemma_reduce_parts, lemma_reduce_zero, near_zero, product_spec, quotient_spec, reduce_spec,
    sum_spec, Rational,
};
use crate::gcd::gcd;
use vstd::prelude::*;

verus! {

/// A solve gives up after this many pivots.
pub const MAX_ITERATIONS: usize = 1000;

/// Why a program has no reported optimum.
#[derive(Clone, Copy, Debug, PartialEq, Eq, Structural)]
pub enum SolveError {
    /// A constraint is not of the form `... <= constant`.
    UnsupportedConstraint,
    /// A constraint has not one coefficient per decision variable.
    DimensionMismatch,
    /// A constant is negative, so the slack basis is not feasible.
    NegativeConstant,
    /// The entering variable can grow without limit.
    Unbounded,
    /// No optimum was reached within [`MAX_ITERATIONS`] pivots.
    IterationLimitExceeded,
    /// A fraction on the way did not fit in 32-bit parts.
    Overflow,
}

pub open spec fn zero() -> (int, int) {
    (0, 1)
}

pub open spec fn vals(v: Seq<Rational>) -> Seq<(int, int)> {
    v.map_values(|x: Rational| x@)
}

/// A fraction in lowest terms.
pub open spec fn lowest(x: (int, int)) -> (int, int) {
    reduce_spec(x.0, x.1)
}

/// Each fraction in lowest terms.
pub open spec fn lowest_vals(v: Seq<Rational>) -> Seq<(int, int)> {
    v.map_values(|x: Rational| lowest(x@))
}

/// The tableau with fractions as pairs: `matrix` has one row per constraint
/// and one column per variable, decision variables first, then one slack
/// variable per constraint.
pub struct TableauView {
    pub matrix: Seq<Seq<(int, int)>>,
    pub basis: Seq<int>,
    pub cb: Seq<(int, int)>,
    pub solution: Seq<(int, int)>,
    pub cj: Seq<(int, int)>,
    pub n: nat,
}

impl TableauView {
    pub open spec fn rows(self) -> nat {
        self.matrix.len()
    }

    pub open spec fn columns(self) -> nat {
        self.cj.len()
    }

    /// The shapes agree and every basis entry names a column.
    pub open spec fn wf(self) -> bool {
        &&& self.basis.len() == self.rows()
        &&& self.cb.len() == self.rows()
        &&& self.solution.len() == self.rows()
        &&& self.n <= self.columns()
        &&& forall|i: int| 0 <= i < self.rows() ==> #[trigger] self.matrix[i].len() == self.columns()
        &&& forall|i: int| 0 <= i < self.rows() ==> 0 <= #[trigger] self.basis[i] < self.columns()
    }
}

/// `Some(e)` for the first constraint that `e` rejects, in this order of
/// checks: kinds, then lengths, then signs of the constants.
pub open spec fn validation_spec(problem: Problem<Rational>) -> Option<SolveError> {
    let cs = problem.spec_constraints();
    let n = problem.spec_objective().len();
    if exists|i: int| 0 <= i < cs.len() && #[trigger] cs[i].kind != ConstraintKind::LessThan {
        Some(SolveError::UnsupportedConstraint)
    } else if exists|i: int|
        0 <= i < cs.len() && #[trigger] cs[i].coefficients@.len() != n {
        Some(SolveError::DimensionMismatch)
    } else if exists|i: int|
        0 <= i < cs.len() && approx_cmp(#[trigger] cs[i].constant@, zero())
            == core::cmp::Ordering::Less {
        Some(SolveError::NegativeConstant)
    } else {
        None
    }
}

/// The starting tableau: the constraints' coefficients beside an identity
/// block of slack columns, the slacks basic at the constants' values; every
/// fraction of the program in lowest terms.
pub open spec fn initial_spec(problem: Problem<Rational>) -> TableauView {
    let cs = problem.spec_constraints();
    let m = cs.len();
    TableauView {
        matrix: Seq::new(
            m,
            |i: int|
                lowest_vals(cs[i].coefficients@) + Seq::new(
                    m,
                    |j: int|
                        if i == j {
                            (1int, 1int)
                        } else {
                            zero()
                        },
                ),
        ),
        basis: Seq::new(m, |i: int| problem.spec_objective().len() + i),
        cb: Seq::new(m, |i: int| zero()),
        solution: Seq::new(m, |i: int| lowest(cs[i].constant@)),
        cj: lowest_vals(problem.spec_objective()) + Seq::new(m, |j: int| zero()),
        n: problem.spec_objective().len(),
    }
}

/// `Σ matrix[i][c] × cb[i]` over the first `k` rows, summed from zero in row
/// order; `None` once a product or a partial sum does not fit.
pub open spec fn column_cost(t: TableauView, c: int, k: nat) -> Option<(int, int)>
    decreases k,
{
    if k == 0 {
        Some(zero())
    } else {
        match column_cost(t, c, (k - 1) as nat) {
            None => None,
            Some(acc) => {
                let prod = product_spec(t.matrix[k - 1][c], t.cb[k - 1]);
                let total = sum_spec(acc, prod);
                if fits(prod) && fits(total) {
                    Some(total)
                } else {
                    None
                }
            },
        }
    }
}

/// `cj[c] - zj[c]`, where `zj[c]` is the column's cost over all rows.
pub open spec fn reduced_cost(t: TableauView, c: int) -> Option<(int, int)> {
    match column_cost(t, c, t.rows()) {
        None => None,
        Some(z) => {
            let d = difference_spec(t.cj[c], z);
            if fits(d) {
                Some(d)
            } else {
                None
            }
        },
    }
}

pub open spec fn or_zero(x: Option<(int, int)>) -> (int, int) {
    match x {
        Some(v) => v,
        None => zero(),
    }
}

/// The row of reduced costs, if every entry fits.
pub open spec fn reduced_costs_spec(t: TableauView) -> Option<Seq<(int, int)>> {
    if forall|c: int| 0 <= c < t.columns() ==> #[trigger] reduced_cost(t, c) is Some {
        Some(Seq::new(t.columns(), |c: int| or_zero(reduced_cost(t, c))))
    } else {
        None
    }
}

/// Whether `x` before `y` moves the objective toward the goal, in the
/// tolerant order.
pub open spec fn better(x: (int, int), y: (int, int), goal: ProblemKind) -> bool {
    match goal {
        ProblemKind::Maximization => approx_cmp(x, y) == core::cmp::Ordering::Greater,
        ProblemKind::Minimization => approx_cmp(x, y) == core::cmp::Ordering::Less,
    }
}

/// No reduced cost would improve the objective.
pub open spec fn optimal_spec(reduced: Seq<(int, int)>, goal: ProblemKind) -> bool {
    forall|c: int| 0 <= c < reduced.len() ==> !better(#[trigger] reduced[c], zero(), goal)
}

/// The column that a left-to-right scan of the first `k` reduced costs keeps:
/// a later one replaces the kept one only when strictly better, so ties go to
/// the first.
pub open spec fn entering_scan(reduced: Seq<(int, int)>, goal: ProblemKind, k: nat) -> int
    decreases k,
{
    if k <= 1 {
        0
    } else {
        let b = entering_scan(reduced, goal, (k - 1) as nat);
        if better(reduced[k - 1], reduced[b], goal) {
            k - 1
        } else {
            b
        }
    }
}

pub open spec fn entering_spec(reduced: Seq<(int, int)>, goal: ProblemKind) -> int {
    entering_scan(reduced, goal, reduced.len())
}

/// What the ratio test makes of one row.
pub enum Ratio {
    /// The divisor is not positive, or the ratio is not.
    Excluded,
    /// A positive ratio `solution[i] / matrix[i][e]`.
    Candidate((int, int)),
    /// The ratio does not fit.
    Overflow,
}

/// Row `i` in the ratio test for entering column `e`.
pub open spec fn ratio_spec(t: TableauView, e: int, i: int) -> Ratio {
    let d = t.matrix[i][e];
    if approx_cmp(d, zero()) != core::cmp::Ordering::Greater {
        Ratio::Excluded
    } else {
        let q = quotient_spec(t.solution[i], d);
        if !fits(q) {
            Ratio::Overflow
        } else if approx_cmp(q, zero()) == core::cmp::Ordering::Greater {
            Ratio::Candidate(q)
        } else {
            Ratio::Excluded
        }
    }
}

/// The row that a top-down scan of the first `k` rows keeps: the smallest
/// positive ratio, the first of equals; `None` where no row is a candidate.
pub open spec fn leaving_scan(t: TableauView, e: int, k: nat) -> Option<int>
    decreases k,
{
    if k == 0 {
        None
    } else {
        let prev = leaving_scan(t, e, (k - 1) as nat);
        match ratio_spec(t, e, k - 1) {
            Ratio::Candidate(q) => match prev {
                None => Some(k - 1),
                Some(b) => if approx_cmp(q, quotient_spec(t.solution[b], t.matrix[b][e]))
                    == core::cmp::Ordering::Less {
                    Some(k - 1)
                } else {
                    prev
                },
            },
            _ => prev,
        }
    }
}

/// Some row's ratio does not fit.
pub open spec fn ratio_overflows(t: TableauView, e: int) -> bool {
    exists|i: int| 0 <= i < t.rows() && #[trigger] ratio_spec(t, e, i) is Overflow
}

proof fn lemma_leaving_scan_candidate(t: TableauView, e: int, k: nat)
    ensures
        leaving_scan(t, e, k) matches Some(b) ==> 0 <= b < k && ratio_spec(t, e, b)
            is Candidate,
    decreases k,
{
    if k > 0 {
        lemma_leaving_scan_candidate(t, e, (k - 1) as nat);
    }
}

/// Each entry of `row` divided by `pe`.
pub open spec fn divided(row: Seq<(int, int)>, pe: (int, int)) -> Seq<(int, int)> {
    Seq::new(row.len(), |j: int| quotient_spec(row[j], pe))
}

pub open spec fn divides_fit(row: Seq<(int, int)>, pe: (int, int)) -> bool {
    forall|j: int| 0 <= j < row.len() ==> fits(#[trigger] quotient_spec(row[j], pe))
}

/// `row - f × prow`, entry by entry.
pub open spec fn eliminated(row: Seq<(int, int)>, f: (int, int), prow: Seq<(int, int)>) -> Seq<
    (int, int),
> {
    Seq::new(row.len(), |j: int| difference_spec(row[j], product_spec(f, prow[j])))
}

pub open spec fn eliminates_fit(row: Seq<(int, int)>, f: (int, int), prow: Seq<(int, int)>) -> bool {
    forall|j: int|
        0 <= j < row.len() ==> fits(#[trigger] product_spec(f, prow[j])) && fits(
            difference_spec(row[j], product_spec(f, prow[j])),
        )
}

/// `x - f × p` with both steps fitting.
pub open spec fn eliminates_value_fit(x: (int, int), f: (int, int), p: (int, int)) -> bool {
    fits(product_spec(f, p)) && fits(difference_spec(x, product_spec(f, p)))
}

/// Row `i` and its solution entry can be eliminated against the normalized
/// leaving row `prow` and its solution entry `psol`.
pub open spec fn row_eliminates(
    t: TableauView,
    i: int,
    e: int,
    prow: Seq<(int, int)>,
    psol: (int, int),
) -> bool {
    eliminates_fit(t.matrix[i], t.matrix[i][e], prow) && eliminates_value_fit(
        t.solution[i],
        t.matrix[i][e],
        psol,
    )
}

/// Every fraction of the pivot on row `l`, column `e` fits.
pub open spec fn pivot_fits(t: TableauView, e: int, l: int) -> bool {
    let pe = t.matrix[l][e];
    let prow = divided(t.matrix[l], pe);
    let psol = quotient_spec(t.solution[l], pe);
    &&& divides_fit(t.matrix[l], pe)
    &&& fits(psol)
    &&& forall|i: int|
        0 <= i < t.rows() && i != l ==> #[trigger] row_eliminates(t, i, e, prow, psol)
}

/// The pivot on row `l`, column `e`: the leaving row and its solution entry
/// divided by the pivot element; from every other row, its entry in column
/// `e` times the new leaving row subtracted; `e` basic in row `l` at cost
/// `cj[e]`.
pub open spec fn pivoted(t: TableauView, e: int, l: int) -> TableauView {
    let pe = t.matrix[l][e];
    let prow = divided(t.matrix[l], pe);
    let psol = quotient_spec(t.solution[l], pe);
    TableauView {
        matrix: Seq::new(
            t.rows(),
            |i: int|
                if i == l {
                    prow
                } else {
                    eliminated(t.matrix[i], t.matrix[i][e], prow)
                },
        ),
        solution: Seq::new(
            t.rows(),
            |i: int|
                if i == l {
                    psol
                } else {
                    difference_spec(t.solution[i], product_spec(t.matrix[i][e], psol))
                },
        ),
        basis: t.basis.update(l, e),
        cb: t.cb.update(l, t.cj[e]),
        cj: t.cj,
        n: t.n,
    }
}

/// The value of each decision variable after the first `k` basis slots:
/// a basic decision variable takes its slot's solution entry, the others
/// stay zero.
pub open spec fn extracted_values(t: TableauView, k: nat) -> Seq<(int, int)>
    decreases k,
{
    if k == 0 {
        Seq::new(t.n, |v: int| zero())
    } else {
        let prev = extracted_values(t, (k - 1) as nat);
        let b = t.basis[k - 1];
        if 0 <= b < t.n {
            prev.update(b, t.solution[k - 1])
        } else {
            prev
        }
    }
}

/// `Σ solution[s] × cj[basis[s]]` over the first `k` slots whose basis entry is
/// a decision variable, summed from zero; `None` once a step does not fit.
pub open spec fn objective_value_spec(t: TableauView, k: nat) -> Option<(int, int)>
    decreases k,
{
    if k == 0 {
        Some(zero())
    } else {
        match objective_value_spec(t, (k - 1) as nat) {
            None => None,
            Some(acc) => {
                let b = t.basis[k - 1];
                if 0 <= b < t.n {
                    let prod = product_spec(t.solution[k - 1], t.cj[b]);
                    let total = sum_spec(acc, prod);
                    if fits(prod) && fits(total) {
                        Some(total)
                    } else {
                        None
                    }
                } else {
                    Some(acc)
                }
            },
        }
    }
}

/// The decision variables' values, the objective's value and the reduced
/// costs, as pairs.
pub open spec fn extract_spec(t: TableauView) -> Result<
    (Seq<(int, int)>, (int, int), Seq<(int, int)>),
    SolveError,
> {
    match objective_value_spec(t, t.rows()) {
        None => Err(SolveError::Overflow),
        Some(z) => match reduced_costs_spec(t) {
            None => Err(SolveError::Overflow),
            Some(rc) => Ok((extracted_values(t, t.rows()), z, rc)),
        },
    }
}

/// What one iteration does.
pub enum Step {
    Optimal,
    Unbounded,
    Overflow,
    /// Pivot on the column and row given, in that order.
    Pivot(int, int),
}

/// One iteration: reduced costs, the optimality test, the entering column,
/// the ratio test.
pub open spec fn step_spec(t: TableauView, goal: ProblemKind) -> Step {
    match reduced_costs_spec(t) {
        None => Step::Overflow,
        Some(rc) => if optimal_spec(rc, goal) {
            Step::Optimal
        } else {
            let e = entering_spec(rc, goal);
            if ratio_overflows(t, e) {
                Step::Overflow
            } else {
                match leaving_scan(t, e, t.rows()) {
                    None => Step::Unbounded,
                    Some(l) => Step::Pivot(e, l),
                }
            }
        },
    }
}

/// Iterations from `t` with at most `fuel` pivots: the optimal tableau, or
/// why there is none.
pub open spec fn run_spec(t: TableauView, goal: ProblemKind, fuel: nat) -> Result<
    TableauView,
    SolveError,
>
    decreases fuel,
{
    match step_spec(t, goal) {
        Step::Optimal => Ok(t),
        Step::Unbounded => Err(SolveError::Unbounded),
        Step::Overflow => Err(SolveError::Overflow),
        Step::Pivot(e, l) => if fuel == 0 {
            Err(SolveError::IterationLimitExceeded)
        } else if !pivot_fits(t, e, l) {
            Err(SolveError::Overflow)
        } else {
            run_spec(pivoted(t, e, l), goal, (fuel - 1) as nat)
        },
    }
}

/// What a solve of `problem` gives: the values of the decision variables, of
/// the objective and the reduced costs at the optimum, or why there is none.
pub open spec fn solve_spec(problem: Problem<Rational>) -> Result<
    (Seq<(int, int)>, (int, int), Seq<(int, int)>),
    SolveError,
> {
    match validation_spec(problem) {
        Some(e) => Err(e),
        None => match run_spec(
            initial_spec(problem),
            problem.spec_goal(),
            MAX_ITERATIONS as nat,
        ) {
            Err(e) => Err(e),
            Ok(t) => extract_spec(t),
        },
    }
}

/// An optimum: one value per decision variable, the objective's value, and
/// the reduced cost of every column in the final tableau.
pub struct Solution {
    pub values: Vec<Rational>,
    pub objective_value: Rational,
    pub reduced_costs: Vec<Rational>,
}

pub open spec fn outcome_view(r: Result<Solution, SolveError>) -> Result<
    (Seq<(int, int)>, (int, int), Seq<(int, int)>),
    SolveError,
> {
    match r {
        Ok(s) => Ok((vals(s.values@), s.objective_value@, vals(s.reduced_costs@))),
        Err(e) => Err(e),
    }
}

/// What one iteration saw and did.
pub struct Snapshot {
    /// The reduced costs at the start of the iteration.
    pub reduced_costs: Vec<Rational>,
    /// The entering column and leaving row of its pivot; `None` at the optimum.
    pub pivot: Option<(usize, usize)>,
}

/// The working state of one solve.
pub struct Tableau {
    matrix: Vec<Vec<Rational>>,
    basis: Vec<usize>,
    cb: Vec<Rational>,
    solution: Vec<Rational>,
    cj: Vec<Rational>,
    n: usize,
}

impl View for Tableau {
    type V = TableauView;

    closed spec fn view(&self) -> TableauView {
        TableauView {
            matrix: Seq::new(self.matrix@.len(), |i: int| vals(self.matrix@[i]@)),
            basis: Seq::new(self.basis@.len(), |i: int| self.basis@[i] as int),
            cb: vals(self.cb@),
            solution: vals(self.solution@),
            cj: vals(self.cj@),
            n: self.n as nat,
        }
    }
}

/// The fraction zero, `0 / 1`.
fn zero_fraction() -> (r: Rational)
    ensures
        r@ == zero(),
{
    Rational::from_integer(0)
}

/// A constraint's coefficients followed by row `i` of the `m`-by-`m` identity.
fn slack_row(coefficients: &Vec<Rational>, i: usize, m: usize) -> (row: Vec<Rational>)
    requires
        i < m,
        coefficients@.len() + m <= usize::MAX,
    ensures
        vals(row@) == lowest_vals(coefficients@) + Seq::new(
            m as nat,
            |j: int|
                if i == j {
                    (1int, 1int)
                } else {
                    zero()
                },
        ),
{
    let n = coefficients.len();
    let mut row: Vec<Rational> = Vec::new();
    let mut j: usize = 0;
    while j < n + m
        invariant
            j <= n + m,
            n == coefficients@.len(),
            n + m <= usize::MAX,
            i < m,
            row@.len() == j,
            forall|k: int| 0 <= k < j && k < n ==> (#[trigger] row@[k])@ == lowest(coefficients@[k]@),
            forall|k: int|
                n <= k < j ==> (#[trigger] row@[k])@ == (if k - n == i {
                    (1int, 1int)
                } else {
                    zero()
                }),
        decreases n + m - j,
    {
        if j < n {
            let mut x = coefficients[j];
            x.simplify();
            row.push(x);
        } else if j - n == i {
            row.push(Rational::from_integer(1));
        } else {
            row.push(zero_fraction());
        }
        j = j + 1;
    }
    proof {
        let target = lowest_vals(coefficients@) + Seq::new(
            m as nat,
            |j: int|
                if i == j {
                    (1int, 1int)
                } else {
                    zero()
                },
        );
        assert forall|k: int| 0 <= k < n + m implies vals(row@)[k] == target[k] by {
            if k < n {
                assert(row@[k]@ == lowest(coefficients@[k]@));
            }
        }
        assert(vals(row@) =~= target);
    }
    row
}

/// The objective's coefficients followed by a zero cost for each of `m` slacks.
fn slack_row_costs(objective: &[Rational], m: usize) -> (cj: Vec<Rational>)
    requires
        objective@.len() + m <= usize::MAX,
    ensures
        vals(cj@) == lowest_vals(objective@) + Seq::new(m as nat, |j: int| zero()),
{
    let n = objective.len();
    let mut cj: Vec<Rational> = Vec::new();
    let mut j: usize = 0;
    while j < n + m
        invariant
            j <= n + m,
            n == objective@.len(),
            n + m <= usize::MAX,
            cj@.len() == j,
            forall|k: int| 0 <= k < j && k < n ==> (#[trigger] cj@[k])@ == lowest(objective@[k]@),
            forall|k: int| n <= k < j ==> (#[trigger] cj@[k])@ == zero(),
        decreases n + m - j,
    {
        if j < n {
            let mut x = objective[j];
            x.simplify();
            cj.push(x);
        } else {
            cj.push(zero_fraction());
        }
        j = j + 1;
    }
    proof {
        let target = lowest_vals(objective@) + Seq::new(m as nat, |j: int| zero());
        assert forall|k: int| 0 <= k < n + m implies vals(cj@)[k] == target[k] by {
            if k < n {
                assert(cj@[k]@ == lowest(objective@[k]@));
            }
        }
        assert(vals(cj@) =~= target);
    }
    cj
}

/// Whether `x` is strictly better than `y` for the goal.
fn better_exec(x: &Rational, y: &Rational, goal: ProblemKind) -> (r: bool)
    ensures
        r == better(x@, y@, goal),
{
    match goal {
        ProblemKind::Maximization => matches!(x.approx_cmp(y), core::cmp::Ordering::Greater),
        ProblemKind::Minimization => matches!(x.approx_cmp(y), core::cmp::Ordering::Less),
    }
}

/// Each entry of `row` divided by `pe`; `None` when one does not fit.
fn divide_row(row: &Vec<Rational>, pe: &Rational) -> (r: Option<Vec<Rational>>)
    requires
        !near_zero(pe@),
    ensures
        divides_fit(vals(row@), pe@) <==> r is Some,
        r matches Some(v) ==> vals(v@) == divided(vals(row@), pe@),
{
    let ghost rv = vals(row@);
    let mut out: Vec<Rational> = Vec::new();
    let mut j: usize = 0;
    while j < row.len()
        invariant
            !near_zero(pe@),
            rv == vals(row@),
            j <= row@.len(),
            out@.len() == j,
            forall|k: int| 0 <= k < j ==> fits(#[trigger] quotient_spec(rv[k], pe@)),
            forall|k: int| 0 <= k < j ==> (#[trigger] out@[k])@ == quotient_spec(rv[k], pe@),
        decreases row@.len() - j,
    {
        match row[j].checked_div(pe) {
            Ok(x) => out.push(x),
            Err(_) => {
                proof {
                    assert(!fits(quotient_spec(rv[j as int], pe@)));
                }
                return None;
            },
        }
        j = j + 1;
    }
    proof {
        assert(vals(out@) =~= divided(rv, pe@));
    }
    Some(out)
}

/// `x - f × p`; `None` when a step does not fit.
fn eliminate_value(x: &Rational, f: &Rational, p: &Rational) -> (r: Option<Rational>)
    ensures
        eliminates_value_fit(x@, f@, p@) <==> r is Some,
        r matches Some(v) ==> v@ == difference_spec(x@, product_spec(f@, p@)),
{
    match f.checked_mul(p) {
        Some(prod) => x.checked_sub(&prod),
        None => None,
    }
}

/// `row - f × prow`, entry by entry; `None` when a step does not fit.
fn eliminate_row(row: &Vec<Rational>, f: &Rational, prow: &Vec<Rational>) -> (r: Option<
    Vec<Rational>,
>)
    requires
        row@.len() == prow@.len(),
    ensures
        eliminates_fit(vals(row@), f@, vals(prow@)) <==> r is Some,
        r matches Some(v) ==> vals(v@) == eliminated(vals(row@), f@, vals(prow@)),
{
    let ghost rv = vals(row@);
    let ghost pv = vals(prow@);
    let mut out: Vec<Rational> = Vec::new();
    let mut j: usize = 0;
    while j < row.len()
        invariant
            rv == vals(row@),
            pv == vals(prow@),
            row@.len() == prow@.len(),
            j <= row@.len(),
            out@.len() == j,
            forall|k: int|
                0 <= k < j ==> fits(#[trigger] product_spec(f@, pv[k])) && fits(
                    difference_spec(rv[k], product_spec(f@, pv[k])),
                ),
            forall|k: int|
                0 <= k < j ==> (#[trigger] out@[k])@ == difference_spec(
                    rv[k],
                    product_spec(f@, pv[k]),
                ),
        decreases row@.len() - j,
    {
        match eliminate_value(&row[j], f, &prow[j]) {
            Some(x) => out.push(x),
            None => {
                proof {
                    assert(!eliminates_value_fit(rv[j as int], f@, pv[j as int]));
                }
                return None;
            },
        }
        j = j + 1;
    }
    proof {
        assert(vals(out@) =~= eliminated(rv, f@, pv));
    }
    Some(out)
}

impl Tableau {
    /// Checks the program and builds its starting tableau.
    pub fn new(problem: &Problem<Rational>) -> (r: Result<Tableau, SolveError>)
        requires
            problem.spec_objective().len() + problem.spec_constraints().len() <= usize::MAX,
        ensures
            match validation_spec(*problem) {
                Some(e) => r == Err::<Tableau, SolveError>(e),
                None => r matches Ok(t) && t@ == initial_spec(*problem) && t@.wf(),
            },
    {
        let objective = problem.objective_function_coefficients();
        let constraints = problem.constraints();
        let n = objective.len();
        let m = constraints.len();
        let ghost cs = problem.spec_constraints();
        let mut i: usize = 0;
        while i < m
            invariant
                i <= m,
                m == cs.len(),
                constraints@ == cs,
                cs == problem.spec_constraints(),
                forall|k: int| 0 <= k < i ==> #[trigger] cs[k].kind == ConstraintKind::LessThan,
            decreases m - i,
        {
            if constraints[i].kind != ConstraintKind::LessThan {
                proof {
                    assert(cs[i as int].kind != ConstraintKind::LessThan);
                }
                proof {
                    assert(validation_spec(*problem) == Some(SolveError::UnsupportedConstraint));
                }
                return Err(SolveError::UnsupportedConstraint);
            }
            i = i + 1;
        }
        i = 0;
        while i < m
            invariant
                i <= m,
                m == cs.len(),
                n == problem.spec_objective().len(),
                constraints@ == cs,
                cs == problem.spec_constraints(),
                forall|k: int| 0 <= k < m ==> #[trigger] cs[k].kind == ConstraintKind::LessThan,
                forall|k: int| 0 <= k < i ==> #[trigger] cs[k].coefficients@.len() == n,
            decreases m - i,
        {
            if constraints[i].coefficients.len() != n {
                proof {
                    assert(cs[i as int].coefficients@ == constraints[i as int].coefficients@);
                }
                return Err(SolveError::DimensionMismatch);
            }
            i = i + 1;
        }
        let zero_value = zero_fraction();
        i = 0;
        while i < m
            invariant
                i <= m,
                m == cs.len(),
                constraints@ == cs,
                cs == problem.spec_constraints(),
                zero_value@ == zero(),
                n == problem.spec_objective().len(),
                forall|k: int| 0 <= k < m ==> #[trigger] cs[k].kind == ConstraintKind::LessThan,
                forall|k: int| 0 <= k < m ==> #[trigger] cs[k].coefficients@.len() == n,
                forall|k: int|
                    0 <= k < i ==> approx_cmp(#[trigger] cs[k].constant@, zero())
                        != core::cmp::Ordering::Less,
            decreases m - i,
        {
            if matches!(constraints[i].constant.approx_cmp(&zero_value), core::cmp::Ordering::Less) {
                proof {
                    assert(approx_cmp(cs[i as int].constant@, zero()) == core::cmp::Ordering::Less);
                }
                return Err(SolveError::NegativeConstant);
            }
            i = i + 1;
        }
        let ghost init = initial_spec(*problem);
        let mut matrix: Vec<Vec<Rational>> = Vec::new();
        let mut basis: Vec<usize> = Vec::new();
        let mut cb: Vec<Rational> = Vec::new();
        let mut solution: Vec<Rational> = Vec::new();
        i = 0;
        while i < m
            invariant
                i <= m,
                m == cs.len(),
                n == problem.spec_objective().len(),
                n + m <= usize::MAX,
                constraints@ == cs,
                cs == problem.spec_constraints(),
                zero_value@ == zero(),
                init == initial_spec(*problem),
                forall|k: int| 0 <= k < m ==> #[trigger] cs[k].coefficients@.len() == n,
                matrix@.len() == i,
                basis@.len() == i,
                cb@.len() == i,
                solution@.len() == i,
                forall|k: int| 0 <= k < i ==> vals(#[trigger] matrix@[k]@) == init.matrix[k],
                forall|k: int| 0 <= k < i ==> #[trigger] basis@[k] == n + k,
                forall|k: int| 0 <= k < i ==> (#[trigger] cb@[k])@ == zero(),
                forall|k: int| 0 <= k < i ==> (#[trigger] solution@[k])@ == lowest(cs[k].constant@),
            decreases m - i,
        {
            let row = slack_row(&constraints[i].coefficients, i, m);
            matrix.push(row);
            basis.push(n + i);
            cb.push(zero_value);
            let mut constant = constraints[i].constant;
            constant.simplify();
            solution.push(constant);
            i = i + 1;
        }
        let cj = slack_row_costs(objective, m);
        let t = Tableau { matrix, basis, cb, solution, cj, n };
        proof {
            assert(vals(t.cb@) =~= init.cb);
            assert(vals(t.solution@) =~= init.solution);
            assert(t@.matrix =~= init.matrix);
            assert(t@.basis =~= init.basis);
            assert(t@.cb =~= init.cb);
            assert(t@.solution =~= init.solution);
        }
        Ok(t)
    }
    /// The reduced cost of every column, `cj - zj`; `None` on overflow.
    pub fn reduced_costs(&self) -> (r: Option<Vec<Rational>>)
        requires
            self@.wf(),
        ensures
            match reduced_costs_spec(self@) {
                None => r is None,
                Some(rc) => r matches Some(v) && vals(v@) == rc,
            },
    {
        let ghost t = self@;
        let width = self.cj.len();
        let rows = self.matrix.len();
        let mut out: Vec<Rational> = Vec::new();
        let mut c: usize = 0;
        while c < width
            invariant
                t == self@,
                t.wf(),
                width == t.columns(),
                rows == t.rows(),
                c <= width,
                out@.len() == c,
                forall|k: int| 0 <= k < c ==> reduced_cost(t, k) == Some(#[trigger] out@[k]@),
            decreases width - c,
        {
            let mut acc = zero_fraction();
            let mut i: usize = 0;
            while i < rows
                invariant
                    t == self@,
                    t.wf(),
                    width == t.columns(),
                    rows == t.rows(),
                    c < width,
                    i <= rows,
                    column_cost(t, c as int, i as nat) == Some(acc@),
                decreases rows - i,
            {
                proof {
                    assert(vals(self.matrix@[i as int]@) == t.matrix[i as int]);
                    assert(self.matrix@[i as int]@[c as int]@ == t.matrix[i as int][c as int]);
                }
                let prod = match self.matrix[i][c].checked_mul(&self.cb[i]) {
                    Some(x) => x,
                    None => {
                        proof {
                            self.lemma_no_reduced_costs(c as int, (i + 1) as nat);
                        }
                        return None;
                    },
                };
                acc = match acc.checked_add(&prod) {
                    Some(x) => x,
                    None => {
                        proof {
                            self.lemma_no_reduced_costs(c as int, (i + 1) as nat);
                        }
                        return None;
                    },
                };
                i = i + 1;
            }
            let d = match self.cj[c].checked_sub(&acc) {
                Some(x) => x,
                None => {
                    proof {
                        assert(reduced_cost(t, c as int) is None);
                    }
                    return None;
                },
            };
            out.push(d);
            c = c + 1;
        }
        proof {
            assert forall|k: int| 0 <= k < width implies #[trigger] reduced_cost(t, k) is Some by {
                assert(reduced_cost(t, k) == Some(out@[k]@));
            }
            assert(vals(out@) =~= Seq::new(t.columns(), |k: int| or_zero(reduced_cost(t, k))));
        }
        Some(out)
    }

    /// A column whose cost overflows after `k` rows leaves no row of reduced costs.
    proof fn lemma_no_reduced_costs(&self, c: int, k: nat)
        requires
            0 <= c < self@.columns(),
            k <= self@.rows(),
            column_cost(self@, c, k) is None,
        ensures
            reduced_costs_spec(self@) is None,
        decreases self@.rows() - k,
    {
        if k < self@.rows() {
            self.lemma_no_reduced_costs(c, k + 1);
        } else {
            assert(reduced_cost(self@, c) is None);
        }
    }

    /// Whether no reduced cost would improve the objective.
    pub fn is_optimal(reduced: &Vec<Rational>, goal: ProblemKind) -> (r: bool)
        ensures
            r == optimal_spec(vals(reduced@), goal),
    {
        let zero_value = zero_fraction();
        let mut c: usize = 0;
        while c < reduced.len()
            invariant
                c <= reduced@.len(),
                zero_value@ == zero(),
                forall|k: int| 0 <= k < c ==> !better(#[trigger] vals(reduced@)[k], zero(), goal),
            decreases reduced@.len() - c,
        {
            if better_exec(&reduced[c], &zero_value, goal) {
                proof {
                    assert(better(vals(reduced@)[c as int], zero(), goal));
                }
                return false;
            }
            c = c + 1;
        }
        true
    }

    /// The entering column: the best reduced cost, the first of equals.
    pub fn entering(reduced: &Vec<Rational>, goal: ProblemKind) -> (r: usize)
        requires
            reduced@.len() > 0,
        ensures
            r == entering_spec(vals(reduced@), goal),
            r < reduced@.len(),
    {
        let ghost rc = vals(reduced@);
        let mut best: usize = 0;
        let mut c: usize = 1;
        while c < reduced.len()
            invariant
                rc == vals(reduced@),
                1 <= c <= reduced@.len(),
                best == entering_scan(rc, goal, c as nat),
                best < c,
            decreases reduced@.len() - c,
        {
            if better_exec(&reduced[c], &reduced[best], goal) {
                best = c;
            }
            c = c + 1;
        }
        best
    }
    /// The ratio test for entering column `entering`: the leaving row, `None`
    /// where no row bounds the entering variable, `Overflow` where a ratio does
    /// not fit.
    pub fn leaving(&self, entering: usize) -> (r: Result<Option<usize>, SolveError>)
        requires
            self@.wf(),
            entering < self@.columns(),
        ensures
            ratio_overflows(self@, entering as int) <==> r == Err::<Option<usize>, SolveError>(
                SolveError::Overflow,
            ),
            r matches Ok(l) ==> match l {
                Some(i) => leaving_scan(self@, entering as int, self@.rows()) == Some(i as int),
                None => leaving_scan(self@, entering as int, self@.rows()) is None,
            },
            r is Ok || r == Err::<Option<usize>, SolveError>(SolveError::Overflow),
    {
        let ghost t = self@;
        let ghost e = entering as int;
        let rows = self.matrix.len();
        let zero_value = zero_fraction();
        let mut best: Option<usize> = None;
        let mut best_ratio = zero_fraction();
        let mut i: usize = 0;
        while i < rows
            invariant
                t == self@,
                t.wf(),
                e == entering,
                entering < t.columns(),
                rows == t.rows(),
                zero_value@ == zero(),
                i <= rows,
                forall|k: int| 0 <= k < i ==> !(#[trigger] ratio_spec(t, e, k) is Overflow),
                match best {
                    Some(b) => leaving_scan(t, e, i as nat) == Some(b as int) && best_ratio@
                        == quotient_spec(t.solution[b as int], t.matrix[b as int][e]),
                    None => leaving_scan(t, e, i as nat) is None,
                },
            decreases rows - i,
        {
            proof {
                assert(vals(self.matrix@[i as int]@) == t.matrix[i as int]);
                assert(self.matrix@[i as int]@[entering as int]@ == t.matrix[i as int][e]);
                assert(self.solution@[i as int]@ == t.solution[i as int]);
            }
            let d = self.matrix[i][entering];
            if matches!(d.approx_cmp(&zero_value), core::cmp::Ordering::Greater) {
                match self.solution[i].checked_div(&d) {
                    Ok(q) => {
                        if matches!(q.approx_cmp(&zero_value), core::cmp::Ordering::Greater) {
                            match best {
                                None => {
                                    best = Some(i);
                                    best_ratio = q;
                                },
                                Some(b) => {
                                    if matches!(q.approx_cmp(&best_ratio), core::cmp::Ordering::Less) {
                                        best = Some(i);
                                        best_ratio = q;
                                    }
                                },
                            }
                        }
                    },
                    Err(_) => {
                        proof {
                            assert(ratio_spec(t, e, i as int) is Overflow);
                        }
                        return Err(SolveError::Overflow);
                    },
                }
            }
            i = i + 1;
        }
        Ok(best)
    }
    /// Pivots on row `leaving`, column `entering`; `Overflow`, with nothing
    /// changed, where a fraction does not fit.
    pub fn pivot(&mut self, entering: usize, leaving: usize) -> (r: Result<(), SolveError>)
        requires
            old(self)@.wf(),
            entering < old(self)@.columns(),
            leaving < old(self)@.rows(),
            !near_zero(old(self)@.matrix[leaving as int][entering as int]),
        ensures
            pivot_fits(old(self)@, entering as int, leaving as int) <==> r is Ok,
            r is Ok ==> final(self)@ == pivoted(old(self)@, entering as int, leaving as int)
                && final(self)@.wf(),
            r is Err ==> r == Err::<(), SolveError>(SolveError::Overflow) && final(self)@ == old(
                self,
            )@,
    {
        let ghost t = self@;
        let ghost e = entering as int;
        let ghost l = leaving as int;
        let rows = self.matrix.len();
        proof {
            assert(vals(self.matrix@[l]@) == t.matrix[l]);
            assert(self.matrix@[l]@[e]@ == t.matrix[l][e]);
            assert(self.solution@[l]@ == t.solution[l]);
        }
        let pe = self.matrix[leaving][entering];
        let ghost pv = divided(t.matrix[l], pe@);
        let ghost psv = quotient_spec(t.solution[l], pe@);
        let prow = match divide_row(&self.matrix[leaving], &pe) {
            Some(v) => v,
            None => {
                return Err(SolveError::Overflow);
            },
        };
        let psol = match self.solution[leaving].checked_div(&pe) {
            Ok(x) => x,
            Err(_) => {
                return Err(SolveError::Overflow);
            },
        };
        let mut matrix: Vec<Vec<Rational>> = Vec::new();
        let mut solution: Vec<Rational> = Vec::new();
        let mut i: usize = 0;
        while i < rows
            invariant
                t == self@,
                t.wf(),
                e == entering,
                l == leaving,
                entering < t.columns(),
                leaving < t.rows(),
                rows == t.rows(),
                i <= rows,
                vals(prow@) == pv,
                pv == divided(t.matrix[l], t.matrix[l][e]),
                psol@ == psv,
                psv == quotient_spec(t.solution[l], t.matrix[l][e]),
                matrix@.len() == i,
                solution@.len() == i,
                forall|k: int| 0 <= k < i && k != l ==> #[trigger] row_eliminates(t, k, e, pv, psv),
                forall|k: int|
                    0 <= k < i ==> vals(#[trigger] matrix@[k]@) == pivoted(t, e, l).matrix[k],
                forall|k: int|
                    0 <= k < i ==> (#[trigger] solution@[k])@ == pivoted(t, e, l).solution[k],
            decreases rows - i,
        {
            proof {
                assert(vals(self.matrix@[i as int]@) == t.matrix[i as int]);
                assert(self.matrix@[i as int]@[e]@ == t.matrix[i as int][e]);
                assert(self.solution@[i as int]@ == t.solution[i as int]);
            }
            if i == leaving {
                matrix.push(prow.clone());
                solution.push(psol);
            } else {
                proof {
                    assert(t.matrix[i as int].len() == t.columns());
                    assert(t.matrix[l].len() == t.columns());
                    assert(vals(prow@).len() == prow@.len());
                    assert(vals(self.matrix@[i as int]@).len() == self.matrix@[i as int]@.len());
                }
                let f = self.matrix[i][entering];
                let row = match eliminate_row(&self.matrix[i], &f, &prow) {
                    Some(v) => v,
                    None => {
                        proof {
                            assert(!row_eliminates(t, i as int, e, pv, psv));
                        }
                        return Err(SolveError::Overflow);
                    },
                };
                let x = match eliminate_value(&self.solution[i], &f, &psol) {
                    Some(v) => v,
                    None => {
                        proof {
                            assert(!row_eliminates(t, i as int, e, pv, psv));
                        }
                        return Err(SolveError::Overflow);
                    },
                };
                proof {
                    assert(row_eliminates(t, i as int, e, pv, psv));
                }
                matrix.push(row);
                solution.push(x);
            }
            i = i + 1;
        }
        let ghost after = pivoted(t, e, l);
        self.matrix = matrix;
        self.solution = solution;
        self.basis.set(leaving, entering);
        let cost = self.cj[entering];
        self.cb.set(leaving, cost);
        proof {
            assert(self@.matrix =~= after.matrix);
            assert(self@.solution =~= after.solution);
            assert(self@.basis =~= after.basis);
            assert(self@.cb =~= after.cb);
            assert forall|k: int| 0 <= k < self@.rows() implies #[trigger] self@.matrix[k].len()
                == self@.columns() by {
                assert(t.matrix[k].len() == t.columns());
            }
        }
        Ok(())
    }
    /// The decision variables' values, the objective's value and the
    /// reduced costs.
    pub fn extract(&self) -> (r: Result<Solution, SolveError>)
        requires
            self@.wf(),
        ensures
            outcome_view(r) == extract_spec(self@),
    {
        let ghost t = self@;
        let n = self.n;
        let rows = self.basis.len();
        let mut values: Vec<Rational> = Vec::new();
        let mut v: usize = 0;
        while v < n
            invariant
                v <= n,
                values@.len() == v,
                forall|k: int| 0 <= k < v ==> (#[trigger] values@[k])@ == zero(),
            decreases n - v,
        {
            values.push(zero_fraction());
            v = v + 1;
        }
        proof {
            assert(vals(values@) =~= extracted_values(t, 0));
        }
        let mut total = zero_fraction();
        let mut s: usize = 0;
        proof {
            assert(values@.len() == n);
        }
        while s < rows
            invariant
                t == self@,
                t.wf(),
                n == t.n,
                rows == t.rows(),
                s <= rows,
                vals(values@) == extracted_values(t, s as nat),
                values@.len() == n,
                objective_value_spec(t, s as nat) == Some(total@),
            decreases rows - s,
        {
            let b = self.basis[s];
            proof {
                Self::lemma_extracted_len(t, s as nat);
                assert(t.basis[s as int] == b as int);
                assert(self.solution@[s as int]@ == t.solution[s as int]);
            }
            if b < n {
                proof {
                    assert(self.cj@[b as int]@ == t.cj[b as int]);
                }
                let prod = match self.solution[s].checked_mul(&self.cj[b]) {
                    Some(x) => x,
                    None => {
                        proof {
                            self.lemma_no_objective_value((s + 1) as nat);
                        }
                        return Err(SolveError::Overflow);
                    },
                };
                total = match total.checked_add(&prod) {
                    Some(x) => x,
                    None => {
                        proof {
                            self.lemma_no_objective_value((s + 1) as nat);
                        }
                        return Err(SolveError::Overflow);
                    },
                };
                values.set(b, self.solution[s]);
                proof {
                    assert(vals(values@) =~= extracted_values(t, (s + 1) as nat));
                }
            }
            s = s + 1;
        }
        let reduced_costs = match self.reduced_costs() {
            Some(v) => v,
            None => {
                return Err(SolveError::Overflow);
            },
        };
        Ok(Solution { values, objective_value: total, reduced_costs })
    }

    proof fn lemma_extracted_len(t: TableauView, k: nat)
        requires
            t.wf(),
            k <= t.rows(),
        ensures
            extracted_values(t, k).len() == t.n,
        decreases k,
    {
        if k > 0 {
            Self::lemma_extracted_len(t, (k - 1) as nat);
        }
    }

    /// An objective sum that overflows after `k` slots overflows over all.
    proof fn lemma_no_objective_value(&self, k: nat)
        requires
            k <= self@.rows(),
            objective_value_spec(self@, k) is None,
        ensures
            objective_value_spec(self@, self@.rows()) is None,
        decreases self@.rows() - k,
    {
        if k < self@.rows() {
            self.lemma_no_objective_value(k + 1);
        }
    }
    /// The coefficient rows: decision columns first, then one slack column
    /// per constraint.
    pub fn matrix(&self) -> (r: &Vec<Vec<Rational>>)
        ensures
            r@.len() == self@.rows(),
            forall|i: int| 0 <= i < r@.len() ==> vals(#[trigger] r@[i]@) == self@.matrix[i],
    {
        &self.matrix
    }

    /// The column basic in each row.
    pub fn basis(&self) -> (r: &Vec<usize>)
        ensures
            r@.len() == self@.basis.len(),
            forall|i: int| 0 <= i < r@.len() ==> #[trigger] r@[i] as int == self@.basis[i],
    {
        &self.basis
    }

    /// The objective coefficient of each row's basic variable.
    pub fn basic_costs(&self) -> (r: &Vec<Rational>)
        ensures
            vals(r@) == self@.cb,
    {
        &self.cb
    }

    /// The value of each row's basic variable.
    pub fn solution(&self) -> (r: &Vec<Rational>)
        ensures
            vals(r@) == self@.solution,
    {
        &self.solution
    }

    /// The objective coefficient of every column, zero for the slacks.
    pub fn costs(&self) -> (r: &Vec<Rational>)
        ensures
            vals(r@) == self@.cj,
    {
        &self.cj
    }

    /// How many columns are decision variables.
    pub fn decision_count(&self) -> (r: usize)
        ensures
            r == self@.n,
    {
        self.n
    }
    /// One iteration with at most `pivots_left` pivots still allowed: the
    /// optimality test, then the entering column, the ratio test and the pivot.
    /// On success the snapshot says what was seen and done; an error is what a
    /// run from the old tableau ends with.
    pub fn step(&mut self, goal: ProblemKind, pivots_left: usize) -> (r: Result<Snapshot, SolveError>)
        requires
            old(self)@.wf(),
        ensures
            final(self)@.wf(),
            match r {
                Err(e) => run_spec(old(self)@, goal, pivots_left as nat) == Err::<
                    TableauView,
                    SolveError,
                >(e),
                Ok(s) => reduced_costs_spec(old(self)@) == Some(vals(s.reduced_costs@)) && match s.pivot {
                    None => step_spec(old(self)@, goal) == Step::Optimal && final(self)@ == old(
                        self,
                    )@,
                    Some((e, l)) => step_spec(old(self)@, goal) == Step::Pivot(e as int, l as int)
                        && pivots_left > 0 && pivot_fits(old(self)@, e as int, l as int)
                        && final(self)@ == pivoted(old(self)@, e as int, l as int),
                },
            },
    {
        let ghost fuel = pivots_left as nat;
        let rc = match self.reduced_costs() {
            Some(v) => v,
            None => {
                return Err(SolveError::Overflow);
            },
        };
        if Tableau::is_optimal(&rc, goal) {
            return Ok(Snapshot { reduced_costs: rc, pivot: None });
        }
        proof {
            assert(vals(rc@).len() == rc@.len());
        }
        let e = Tableau::entering(&rc, goal);
        let l = match self.leaving(e) {
            Ok(Some(l)) => l,
            Ok(None) => {
                return Err(SolveError::Unbounded);
            },
            Err(err) => {
                return Err(err);
            },
        };
        if pivots_left == 0 {
            return Err(SolveError::IterationLimitExceeded);
        }
        proof {
            lemma_leaving_scan_candidate(self@, e as int, self@.rows());
            assert(ratio_spec(self@, e as int, l as int) is Candidate);
        }
        match self.pivot(e, l) {
            Ok(()) => {},
            Err(err) => {
                return Err(err);
            },
        }
        Ok(Snapshot { reduced_costs: rc, pivot: Some((e, l)) })
    }
}

/// Solves `problem` by the simplex method from the all-slack basis.
pub fn solve(problem: Problem<Rational>) -> (r: Result<Solution, SolveError>)
    requires
        problem.spec_objective().len() + problem.spec_constraints().len() <= usize::MAX,
    ensures
        outcome_view(r) == solve_spec(problem),
{
    let goal = problem.goal();
    let mut t = match Tableau::new(&problem) {
        Ok(t) => t,
        Err(e) => {
            return Err(e);
        },
    };
    let ghost init = t@;
    let mut iterations: usize = 0;
    loop
        invariant
            t@.wf(),
            goal == problem.spec_goal(),
            validation_spec(problem) is None,
            init == initial_spec(problem),
            iterations <= MAX_ITERATIONS,
            run_spec(t@, goal, (MAX_ITERATIONS - iterations) as nat) == run_spec(
                init,
                goal,
                MAX_ITERATIONS as nat,
            ),
        ensures
            t@.wf(),
            validation_spec(problem) is None,
            run_spec(init, goal, MAX_ITERATIONS as nat) == Ok::<TableauView, SolveError>(t@),
        decreases MAX_ITERATIONS - iterations,
    {
        let ghost before = t@;
        let ghost fuel = (MAX_ITERATIONS - iterations) as nat;
        let snapshot = match t.step(goal, MAX_ITERATIONS - iterations) {
            Ok(s) => s,
            Err(e) => {
                return Err(e);
            },
        };
        match snapshot.pivot {
            None => {
                proof {
                    assert(run_spec(before, goal, fuel) == Ok::<TableauView, SolveError>(before));
                }
                break ;
            },
            Some(_) => {
                iterations = iterations + 1;
            },
        }
    }
    t.extract()
}

/// Zero over one or over minus one.
pub open spec fn unit_zero(x: (int, int)) -> bool {
    x.0 == 0 && (x.1 == 1 || x.1 == -1)
}

/// With every basic cost zero, a column's cost is zero at every row count.
proof fn lemma_zero_basis_column_cost(t: TableauView, c: int, k: nat)
    requires
        t.wf(),
        0 <= c < t.columns(),
        k <= t.rows(),
        forall|i: int| 0 <= i < t.rows() ==> #[trigger] t.cb[i] == zero(),
        forall|i: int| 0 <= i < t.rows() ==> (#[trigger] t.matrix[i])[c].1 != 0,
    ensures
        column_cost(t, c, k) matches Some(z) && unit_zero(z),
    decreases k,
{
    if k > 0 {
        lemma_zero_basis_column_cost(t, c, (k - 1) as nat);
        if let Some(acc) = column_cost(t, c, (k - 1) as nat) {
            let m = t.matrix[k - 1][c];
            assert(t.matrix[k - 1][c].1 != 0);
            assert(m.0 * 0 == 0 && m.1 * 1 == m.1) by (nonlinear_arith);
            lemma_reduce_zero(m.1);
            let prod = product_spec(m, t.cb[k - 1]);
            assert(acc.0 * prod.1 + acc.1 * prod.0 == 0) by (nonlinear_arith)
                requires
                    acc.0 == 0,
                    prod.0 == 0,
            ;
            assert(acc.1 * prod.1 == 1 || acc.1 * prod.1 == -1) by (nonlinear_arith)
                requires
                    acc.1 == 1 || acc.1 == -1,
                    prod.1 == 1 || prod.1 == -1,
            ;
            lemma_reduce_zero(acc.1 * prod.1);
        }
    }
}

/// Zero over plus or minus one never stands above a positive fraction.
proof fn lemma_unit_zero_not_above(u: int, r: (int, int))
    requires
        u == 1 || u == -1,
        approx_cmp(r, zero()) == core::cmp::Ordering::Greater,
    ensures
        approx_cmp((0, u), r) != core::cmp::Ordering::Greater,
{
    assert(cross(r, zero()) == r.0 && r.1 * zero().1 == r.1) by (nonlinear_arith);
    assert(cross((0, u), r) == -(r.0 * u) && u * r.1 == (if u == 1 { r.1 } else { -r.1 }))
        by (nonlinear_arith)
        requires
            u == 1 || u == -1,
    ;
    assert(abs(-(r.0 * u)) == abs(r.0)) by (nonlinear_arith)
        requires
            u == 1 || u == -1,
    ;
    assert((-(r.0 * u)) * (u * r.1) == -(r.0 * r.1)) by (nonlinear_arith)
        requires
            u == 1 || u == -1,
    ;
}

/// The scan keeps column zero when it alone is above zero.
proof fn lemma_entering_first(reduced: Seq<(int, int)>, k: nat)
    requires
        1 <= k <= reduced.len(),
        approx_cmp(reduced[0], zero()) == core::cmp::Ordering::Greater,
        forall|c: int| 1 <= c < reduced.len() ==> unit_zero(#[trigger] reduced[c]),
    ensures
        entering_scan(reduced, ProblemKind::Maximization, k) == 0,
    decreases k,
{
    if k > 1 {
        lemma_entering_first(reduced, (k - 1) as nat);
        let x = reduced[k - 1];
        assert(unit_zero(x));
        lemma_unit_zero_not_above(x.1, reduced[0]);
    }
}

/// Where no row is a candidate, the ratio test keeps none.
proof fn lemma_no_leaving(t: TableauView, e: int, k: nat)
    requires
        k <= t.rows(),
        forall|i: int| 0 <= i < t.rows() ==> #[trigger] ratio_spec(t, e, i) is Excluded,
    ensures
        leaving_scan(t, e, k) is None,
    decreases k,
{
    if k > 0 {
        lemma_no_leaving(t, e, (k - 1) as nat);
        assert(ratio_spec(t, e, k - 1) is Excluded);
    }
}

/// A one-variable maximization with a positive objective coefficient, in
/// which no constraint's coefficient is positive, has no optimum: the solve
/// ends with `Unbounded`, not with a value and not by running out of
/// iterations. (An objective coefficient with a part equal to `i32::MIN` is
/// left out: with negative denominators elsewhere its reduced cost overflows.)
pub proof fn lemma_unbounded_single_variable(problem: Problem<Rational>)
    requires
        problem.spec_objective().len() == 1,
        problem.spec_goal() == ProblemKind::Maximization,
        approx_cmp(problem.spec_objective()[0]@, zero()) == core::cmp::Ordering::Greater,
        i32::MIN < problem.spec_objective()[0]@.0 <= i32::MAX,
        i32::MIN < problem.spec_objective()[0]@.1 <= i32::MAX,
        problem.spec_objective()[0]@.1 != 0,
        forall|i: int|
            0 <= i < problem.spec_constraints().len() ==> {
                let c = #[trigger] problem.spec_constraints()[i];
                &&& c.kind == ConstraintKind::LessThan
                &&& c.coefficients@.len() == 1
                &&& c.coefficients@[0]@.1 != 0
                &&& approx_cmp(c.coefficients@[0]@, zero()) != core::cmp::Ordering::Greater
                &&& approx_cmp(c.constant@, zero()) != core::cmp::Ordering::Less
            },
    ensures
        solve_spec(problem) == Err::<(Seq<(int, int)>, (int, int), Seq<(int, int)>), SolveError>(
            SolveError::Unbounded,
        ),
{
    let cs = problem.spec_constraints();
    let m = cs.len();
    let t = initial_spec(problem);
    let a0 = problem.spec_objective()[0]@;
    let a = lowest(a0);
    lemma_reduce_keeps_order(a0, zero());
    assert(i32::MIN < a.0 <= i32::MAX && i32::MIN < a.1 <= i32::MAX);
    assert(validation_spec(problem) is None) by {
        assert forall|i: int| 0 <= i < m implies !(#[trigger] cs[i].kind
            != ConstraintKind::LessThan) by {
            assert(cs[i] == problem.spec_constraints()[i]);
        }
    }
    assert forall|i: int| 0 <= i < t.rows() implies #[trigger] t.matrix[i].len()
        == t.columns() by {
        assert(cs[i] == problem.spec_constraints()[i]);
    }
    assert(t.wf());
    assert forall|i: int| 0 <= i < t.rows() implies #[trigger] t.cb[i] == zero() by {}
    assert forall|c: int| 0 <= c < t.columns() implies #[trigger] reduced_cost(t, c) is Some && (
    c == 0 ==> approx_cmp(or_zero(reduced_cost(t, c)), zero()) == core::cmp::Ordering::Greater) && (
    c > 0 ==> unit_zero(or_zero(reduced_cost(t, c)))) by {
        assert forall|i: int| 0 <= i < t.rows() implies (#[trigger] t.matrix[i])[c].1 != 0 by {
            assert(cs[i] == problem.spec_constraints()[i]);
            lemma_reduce_keeps_order(cs[i].coefficients@[0]@, zero());
            if c > 0 {
                assert(t.matrix[i][c] == (if i == c - 1 {
                    (1int, 1int)
                } else {
                    zero()
                }));
            }
        }
        lemma_zero_basis_column_cost(t, c, t.rows());
        let z = column_cost(t, c, t.rows())->0;
        let x = t.cj[c];
        let s = z.1;
        assert(x.0 * z.1 - x.1 * z.0 == x.0 * s && x.1 * z.1 == x.1 * s) by (nonlinear_arith)
            requires
                z.0 == 0,
                s == z.1,
        ;
        if c == 0 {
            assert(x == a);
            lemma_reduce_parts(a.0 * s, a.1 * s);
            let r = reduce_spec(a.0 * s, a.1 * s);
            let g = gcd(abs(a.0 * s), abs(a.1 * s)) as int;
            assert(abs(a.0 * s) == abs(a.0) && abs(a.1 * s) == abs(a.1) && a.1 * s != 0)
                by (nonlinear_arith)
                requires
                    s == 1 || s == -1,
                    a.1 != 0,
            ;
            assert(fits(r));
            assert(r.0 * (g * s) == a.0 && r.1 * (g * s) == a.1 && g * s != 0)
                by (nonlinear_arith)
                requires
                    a.0 * s == r.0 * g,
                    a.1 * s == r.1 * g,
                    s == 1 || s == -1,
                    g > 0,
            ;
            lemma_approx_cmp_scale(r, g * s, zero());
        } else {
            assert(x == zero());
            assert(x.0 * s == 0 && x.1 * s == s) by (nonlinear_arith)
                requires
                    x == zero(),
            ;
            lemma_reduce_zero(s);
        }
    }
    let rc = Seq::new(t.columns(), |c: int| or_zero(reduced_cost(t, c)));
    assert(reduced_costs_spec(t) == Some(rc));
    assert(better(rc[0], zero(), ProblemKind::Maximization));
    assert(!optimal_spec(rc, ProblemKind::Maximization));
    lemma_entering_first(rc, rc.len());
    assert(entering_spec(rc, ProblemKind::Maximization) == 0);
    assert forall|i: int| 0 <= i < t.rows() implies #[trigger] ratio_spec(t, 0, i) is Excluded by {
        assert(cs[i] == problem.spec_constraints()[i]);
        assert(t.matrix[i][0] == lowest(cs[i].coefficients@[0]@));
        lemma_reduce_keeps_order(cs[i].coefficients@[0]@, zero());
    }
    lemma_no_leaving(t, 0, t.rows());
    assert(!ratio_overflows(t, 0));
    assert(step_spec(t, ProblemKind::Maximization) == Step::Unbounded);
}

/// Every fraction of the tableau is in lowest terms.
pub open spec fn all_canonical(t: TableauView) -> bool {
    &&& forall|i: int, j: int|
        0 <= i < t.rows() && 0 <= j < t.matrix[i].len() ==> canonical(#[trigger] t.matrix[i][j])
    &&& forall|i: int| 0 <= i < t.solution.len() ==> canonical(#[trigger] t.solution[i])
    &&& forall|i: int| 0 <= i < t.cb.len() ==> canonical(#[trigger] t.cb[i])
    &&& forall|c: int| 0 <= c < t.columns() ==> canonical(#[trigger] t.cj[c])
}

/// Every fraction of the program has a nonzero denominator, as every
/// `Rational` does.
pub open spec fn problem_valid(problem: Problem<Rational>) -> bool {
    &&& forall|v: int|
        0 <= v < problem.spec_objective().len() ==> (#[trigger] problem.spec_objective()[v])@.1
            != 0
    &&& forall|i: int|
        0 <= i < problem.spec_constraints().len() ==> {
            let c = #[trigger] problem.spec_constraints()[i];
            &&& c.constant@.1 != 0
            &&& forall|j: int|
                0 <= j < c.coefficients@.len() ==> (#[trigger] c.coefficients@[j])@.1 != 0
        }
}

proof fn lemma_entering_scan_bound(reduced: Seq<(int, int)>, goal: ProblemKind, k: nat)
    requires
        k >= 1,
    ensures
        0 <= entering_scan(reduced, goal, k) < k,
    decreases k,
{
    if k > 1 {
        lemma_entering_scan_bound(reduced, goal, (k - 1) as nat);
    }
}

proof fn lemma_column_cost_canonical(t: TableauView, c: int, k: nat)
    requires
        t.wf(),
        all_canonical(t),
        0 <= c < t.columns(),
        k <= t.rows(),
    ensures
        column_cost(t, c, k) matches Some(z) ==> canonical(z),
    decreases k,
{
    lemma_small_canonical();
    if k > 0 {
        lemma_column_cost_canonical(t, c, (k - 1) as nat);
        if let Some(acc) = column_cost(t, c, (k - 1) as nat) {
            let m = t.matrix[k - 1][c];
            assert(canonical(m));
            assert(canonical(t.cb[k - 1]));
            lemma_ops_canonical(m, t.cb[k - 1]);
            lemma_ops_canonical(acc, product_spec(m, t.cb[k - 1]));
        }
    }
}

proof fn lemma_reduced_costs_canonical(t: TableauView)
    requires
        t.wf(),
        all_canonical(t),
    ensures
        reduced_costs_spec(t) matches Some(rc) ==> rc.len() == t.columns() && forall|c: int|
            0 <= c < rc.len() ==> canonical(#[trigger] rc[c]),
{
    if let Some(rc) = reduced_costs_spec(t) {
        assert forall|c: int| 0 <= c < rc.len() implies canonical(#[trigger] rc[c]) by {
            lemma_column_cost_canonical(t, c, t.rows());
            assert(reduced_cost(t, c) is Some);
            let z = column_cost(t, c, t.rows())->0;
            lemma_ops_canonical(t.cj[c], z);
        }
    }
}

proof fn lemma_pivot_canonical(t: TableauView, e: int, l: int)
    requires
        t.wf(),
        all_canonical(t),
        0 <= e < t.columns(),
        0 <= l < t.rows(),
        ratio_spec(t, e, l) is Candidate,
    ensures
        pivoted(t, e, l).wf(),
        all_canonical(pivoted(t, e, l)),
{
    let pe = t.matrix[l][e];
    assert(canonical(pe));
    assert(!near_zero(pe));
    let p = pivoted(t, e, l);
    let psol = quotient_spec(t.solution[l], pe);
    assert(canonical(t.solution[l]));
    lemma_ops_canonical(t.solution[l], pe);
    assert forall|i: int| 0 <= i < t.rows() implies #[trigger] p.matrix[i].len() == t.columns() by {
        assert(t.matrix[i].len() == t.columns());
        assert(t.matrix[l].len() == t.columns());
    }
    assert forall|i: int, j: int|
        0 <= i < p.rows() && 0 <= j < p.matrix[i].len() implies canonical(
        #[trigger] p.matrix[i][j],
    ) by {
        assert(t.matrix[i].len() == t.columns());
        assert(t.matrix[l].len() == t.columns());
        assert(canonical(t.matrix[l][j]));
        lemma_ops_canonical(t.matrix[l][j], pe);
        if i != l {
            let f = t.matrix[i][e];
            let pj = quotient_spec(t.matrix[l][j], pe);
            assert(canonical(f));
            assert(canonical(t.matrix[i][j]));
            lemma_ops_canonical(f, pj);
            lemma_ops_canonical(t.matrix[i][j], product_spec(f, pj));
        }
    }
    assert forall|i: int| 0 <= i < p.solution.len() implies canonical(#[trigger] p.solution[i]) by {
        if i != l {
            let f = t.matrix[i][e];
            assert(t.matrix[i].len() == t.columns());
            assert(canonical(f));
            assert(canonical(t.solution[i]));
            lemma_ops_canonical(f, psol);
            lemma_ops_canonical(t.solution[i], product_spec(f, psol));
        }
    }
    assert forall|i: int| 0 <= i < p.cb.len() implies canonical(#[trigger] p.cb[i]) by {
        if i != l {
            assert(canonical(t.cb[i]));
        } else {
            assert(canonical(t.cj[e]));
        }
    }
    assert forall|i: int| 0 <= i < p.rows() implies 0 <= #[trigger] p.basis[i] < p.columns() by {
        if i != l {
            assert(0 <= t.basis[i] < t.columns());
        }
    }
}

proof fn lemma_run_canonical(t: TableauView, goal: ProblemKind, fuel: nat)
    requires
        t.wf(),
        all_canonical(t),
    ensures
        run_spec(t, goal, fuel) matches Ok(done) ==> done.wf() && all_canonical(done),
    decreases fuel,
{
    if let Step::Pivot(e, l) = step_spec(t, goal) {
        if fuel > 0 && pivot_fits(t, e, l) {
            let rc = reduced_costs_spec(t)->0;
            assert(!optimal_spec(rc, goal));
            assert(rc.len() >= 1);
            lemma_entering_scan_bound(rc, goal, rc.len());
            lemma_leaving_scan_candidate(t, e, t.rows());
            lemma_pivot_canonical(t, e, l);
            lemma_run_canonical(pivoted(t, e, l), goal, (fuel - 1) as nat);
        }
    }
}

proof fn lemma_extracted_canonical(t: TableauView, k: nat)
    requires
        t.wf(),
        all_canonical(t),
        k <= t.rows(),
    ensures
        extracted_values(t, k).len() == t.n,
        forall|v: int| 0 <= v < t.n ==> canonical(#[trigger] extracted_values(t, k)[v]),
        objective_value_spec(t, k) matches Some(z) ==> canonical(z),
    decreases k,
{
    lemma_small_canonical();
    if k > 0 {
        lemma_extracted_canonical(t, (k - 1) as nat);
        assert(canonical(t.solution[k - 1]));
        let b = t.basis[k - 1];
        if let Some(acc) = objective_value_spec(t, (k - 1) as nat) {
            if 0 <= b < t.n {
                assert(canonical(t.cj[b]));
                lemma_ops_canonical(t.solution[k - 1], t.cj[b]);
                lemma_ops_canonical(acc, product_spec(t.solution[k - 1], t.cj[b]));
            }
        }
    }
}

proof fn lemma_initial_canonical(problem: Problem<Rational>)
    requires
        validation_spec(problem) is None,
        problem_valid(problem),
    ensures
        initial_spec(problem).wf(),
        all_canonical(initial_spec(problem)),
{
    lemma_small_canonical();
    let cs = problem.spec_constraints();
    let n = problem.spec_objective().len();
    let t = initial_spec(problem);
    assert forall|i: int| 0 <= i < t.rows() implies #[trigger] t.matrix[i].len() == t.columns() by {
        assert(cs[i] == problem.spec_constraints()[i]);
        assert(!(cs[i].coefficients@.len() != n));
    }
    assert forall|i: int, j: int|
        0 <= i < t.rows() && 0 <= j < t.matrix[i].len() implies canonical(
        #[trigger] t.matrix[i][j],
    ) by {
        assert(cs[i] == problem.spec_constraints()[i]);
        assert(!(cs[i].coefficients@.len() != n));
        if j < n {
            assert(cs[i].coefficients@[j]@.1 != 0);
            lemma_reduce_canonical(cs[i].coefficients@[j]@.0, cs[i].coefficients@[j]@.1);
        }
    }
    assert forall|i: int| 0 <= i < t.solution.len() implies canonical(#[trigger] t.solution[i]) by {
        assert(cs[i] == problem.spec_constraints()[i]);
        lemma_reduce_canonical(cs[i].constant@.0, cs[i].constant@.1);
    }
    assert forall|c: int| 0 <= c < t.columns() implies canonical(#[trigger] t.cj[c]) by {
        if c < n {
            let x = problem.spec_objective()[c]@;
            lemma_reduce_canonical(x.0, x.1);
        }
    }
}

/// Every fraction that a solve reports, the decision variables' values, the
/// objective's value and the reduced costs, is in lowest terms: reducing it
/// again changes nothing.
pub proof fn lemma_solve_in_lowest_terms(problem: Problem<Rational>)
    requires
        problem_valid(problem),
    ensures
        solve_spec(problem) matches Ok(out) ==> {
            &&& forall|v: int| 0 <= v < out.0.len() ==> canonical(#[trigger] out.0[v])
            &&& canonical(out.1)
            &&& forall|c: int| 0 <= c < out.2.len() ==> canonical(#[trigger] out.2[c])
        },
{
    if validation_spec(problem) is None {
        lemma_initial_canonical(problem);
        let init = initial_spec(problem);
        let goal = problem.spec_goal();
        lemma_run_canonical(init, goal, MAX_ITERATIONS as nat);
        if let Ok(t) = run_spec(init, goal, MAX_ITERATIONS as nat) {
            lemma_extracted_canonical(t, t.rows());
            lemma_reduced_costs_canonical(t);
        }
    }
}

/// `b` is `a` with each fraction replaced by one of the same lowest terms
/// (for instance by its own reduction, or the reduction of that).
pub open spec fn same_in_lowest_terms(a: Problem<Rational>, b: Problem<Rational>) -> bool {
    &&& a.spec_goal() == b.spec_goal()
    &&& a.spec_objective().len() == b.spec_objective().len()
    &&& forall|v: int|
        0 <= v < a.spec_objective().len() ==> lowest((#[trigger] a.spec_objective()[v])@) == lowest(
            b.spec_objective()[v]@,
        )
    &&& a.spec_constraints().len() == b.spec_constraints().len()
    &&& forall|i: int|
        0 <= i < a.spec_constraints().len() ==> {
            let ca = #[trigger] a.spec_constraints()[i];
            let cb = b.spec_constraints()[i];
            &&& ca.kind == cb.kind
            &&& ca.coefficients@.len() == cb.coefficients@.len()
            &&& lowest(ca.constant@) == lowest(cb.constant@)
            &&& forall|j: int|
                0 <= j < ca.coefficients@.len() ==> lowest((#[trigger] ca.coefficients@[j])@)
                    == lowest(cb.coefficients@[j]@)
        }
}

/// A solve depends on the program's fractions only through their lowest
/// terms: replacing each input fraction by its reduction gives the same
/// outcome and the same exact values.
pub proof fn lemma_solve_depends_on_lowest_terms(a: Problem<Rational>, b: Problem<Rational>)
    requires
        problem_valid(a),
        problem_valid(b),
        same_in_lowest_terms(a, b),
    ensures
        solve_spec(a) == solve_spec(b),
{
    let csa = a.spec_constraints();
    let csb = b.spec_constraints();
    let m = csa.len();
    assert forall|i: int| 0 <= i < m implies {
        &&& (#[trigger] csa[i]).kind == csb[i].kind
        &&& csa[i].coefficients@.len() == csb[i].coefficients@.len()
        &&& approx_cmp(csa[i].constant@, zero()) == approx_cmp(csb[i].constant@, zero())
    } by {
        assert(csa[i] == a.spec_constraints()[i]);
        assert(csb[i] == b.spec_constraints()[i]);
        lemma_reduce_keeps_order(csa[i].constant@, zero());
        lemma_reduce_keeps_order(csb[i].constant@, zero());
    }
    let na = a.spec_objective().len();
    let u_a = exists|i: int| 0 <= i < m && #[trigger] csa[i].kind != ConstraintKind::LessThan;
    let u_b = exists|i: int| 0 <= i < m && #[trigger] csb[i].kind != ConstraintKind::LessThan;
    if u_a {
        let i = choose|i: int| 0 <= i < m && #[trigger] csa[i].kind != ConstraintKind::LessThan;
        assert(csb[i].kind != ConstraintKind::LessThan);
    }
    if u_b {
        let i = choose|i: int| 0 <= i < m && #[trigger] csb[i].kind != ConstraintKind::LessThan;
        assert(csa[i].kind != ConstraintKind::LessThan);
    }
    let d_a = exists|i: int| 0 <= i < m && #[trigger] csa[i].coefficients@.len() != na;
    let d_b = exists|i: int| 0 <= i < m && #[trigger] csb[i].coefficients@.len() != na;
    if d_a {
        let i = choose|i: int| 0 <= i < m && #[trigger] csa[i].coefficients@.len() != na;
        assert(csb[i].coefficients@.len() != na);
    }
    if d_b {
        let i = choose|i: int| 0 <= i < m && #[trigger] csb[i].coefficients@.len() != na;
        assert(csa[i].coefficients@.len() != na);
    }
    let n_a = exists|i: int|
        0 <= i < m && approx_cmp(#[trigger] csa[i].constant@, zero()) == core::cmp::Ordering::Less;
    let n_b = exists|i: int|
        0 <= i < m && approx_cmp(#[trigger] csb[i].constant@, zero()) == core::cmp::Ordering::Less;
    if n_a {
        let i = choose|i: int|
            0 <= i < m && approx_cmp(#[trigger] csa[i].constant@, zero())
                == core::cmp::Ordering::Less;
        assert(approx_cmp(csb[i].constant@, zero()) == core::cmp::Ordering::Less);
    }
    if n_b {
        let i = choose|i: int|
            0 <= i < m && approx_cmp(#[trigger] csb[i].constant@, zero())
                == core::cmp::Ordering::Less;
        assert(approx_cmp(csa[i].constant@, zero()) == core::cmp::Ordering::Less);
    }
    assert(u_a == u_b && d_a == d_b && n_a == n_b);
    assert(validation_spec(a) == validation_spec(b));
    let ta = initial_spec(a);
    let tb = initial_spec(b);
    assert forall|i: int| 0 <= i < m implies #[trigger] ta.matrix[i] =~= tb.matrix[i] by {
        assert(csa[i] == a.spec_constraints()[i]);
    }
    assert(ta.matrix =~= tb.matrix);
    assert forall|i: int| 0 <= i < m implies #[trigger] ta.solution[i] == tb.solution[i] by {
        assert(csa[i] == a.spec_constraints()[i]);
    }
    assert(ta.solution =~= tb.solution);
    assert(ta.cj =~= tb.cj);
    assert(ta.basis =~= tb.basis);
    assert(ta.cb =~= tb.cb);
    assert(ta == tb);
}

} // verus!
