//! A linear program: objective coefficients, constraints and a goal.
use vstd::prelude::*;
use vstd::slice::slice_to_vec;

verus! {

/// Whether the objective is to be minimized or maximized.
#[derive(Clone, Copy, Debug, PartialEq, Eq, Structural)]
pub enum ProblemKind {
    Minimization,
    Maximization,
}

/// The relation between a constraint's left-hand side and its constant.
#[derive(Clone, Copy, Debug, PartialEq, Eq, Structural)]
pub enum ConstraintKind {
    Equal,
    GreaterThan,
    LessThan,
}

/// `coefficients · x  (kind)  constant`.
pub struct Constraint<T: Copy> {
    pub coefficients: Vec<T>,
    pub constant: T,
    pub kind: ConstraintKind,
}

impl<T: Copy> Constraint<T> {
    pub fn new(coefficients: &[T], constant: T, kind: ConstraintKind) -> (r: Self)
        ensures
            r.coefficients@ == coefficients@,
            r.constant == constant,
            r.kind == kind,
    {
        Constraint { coefficients: slice_to_vec(coefficients), constant, kind }
    }

    pub fn kind(&self) -> (r: ConstraintKind)
        ensures
            r == self.kind,
    {
        self.kind
    }
}

/// Optimize `objective · x` subject to the constraints, with `x >= 0`.
pub struct Problem<T: Copy> {
    objective_function: Vec<T>,
    constraints: Vec<Constraint<T>>,
    goal: ProblemKind,
}

impl<T: Copy> Problem<T> {
    pub closed spec fn spec_objective(&self) -> Seq<T> {
        self.objective_function@
    }

    pub closed spec fn spec_constraints(&self) -> Seq<Constraint<T>> {
        self.constraints@
    }

    pub closed spec fn spec_goal(&self) -> ProblemKind {
        self.goal
    }

    /// A problem with the given objective and no constraints yet.
    pub fn new(objective_function_coefficients: &[T], goal: ProblemKind) -> (r: Self)
        ensures
            r.spec_objective() == objective_function_coefficients@,
            r.spec_constraints() == Seq::<Constraint<T>>::empty(),
            r.spec_goal() == goal,
    {
        Problem {
            objective_function: slice_to_vec(objective_function_coefficients),
            constraints: Vec::new(),
            goal,
        }
    }

    /// Appends a constraint after those already there.
    pub fn add_constraint(&mut self, constraint: Constraint<T>)
        ensures
            final(self).spec_constraints() == old(self).spec_constraints().push(constraint),
            final(self).spec_objective() == old(self).spec_objective(),
            final(self).spec_goal() == old(self).spec_goal(),
    {
        self.constraints.push(constraint);
    }

    pub fn objective_function_coefficients(&self) -> (r: &[T])
        ensures
            r@ == self.spec_objective(),
    {
        self.objective_function.as_slice()
    }

    pub fn constraints(&self) -> (r: &[Constraint<T>])
        ensures
            r@ == self.spec_constraints(),
    {
        self.constraints.as_slice()
    }

    pub fn goal(&self) -> (r: ProblemKind)
        ensures
            r == self.spec_goal(),
    {
        self.goal
    }
}

} // verus!
