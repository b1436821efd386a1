//! Linear programs solved by the tabular primal simplex method over exact fractions.
pub mod gcd;
pub mod rational;
pub mod problem;
pub mod simplex;
