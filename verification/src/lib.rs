//! A DPLL satisfiability solver for formulas in conjunctive normal form.
//!
//! The formula model is persistent: simplifying a clause or a formula under a
//! partial assignment never mutates the original value, so search branches can
//! share structure freely.  Two search engines decide satisfiability: a
//! sequential backtracking engine and a parallel one that explores decision
//! branches on a worker pool.  Both are proved to return `SAT` exactly when
//! some total assignment satisfies the formula.

use vstd::prelude::*;

pub mod definitions;
pub mod dimacs;
pub mod pdpll;
mod rng;
pub mod sdpll;
pub mod semantics;

use crate::definitions::CNF;
use crate::definitions::Satisfiability;
use crate::semantics::LitView;
use crate::semantics::satisfiable;

verus! {

/// A decision procedure for satisfiability of one formula.
pub trait Solver {
    /// The formula the solver was built over.
    spec fn formula_model(&self) -> Seq<Seq<LitView>>;

    /// Decides the formula: `SAT` exactly when some total assignment
    /// satisfies every clause, `UNSAT` otherwise.
    fn solve(&mut self) -> (r: Satisfiability)
        ensures
            (r == Satisfiability::SAT) <==> satisfiable(old(self).formula_model()),
            final(self).formula_model() == old(self).formula_model(),
    ;
}

/// Builds a solver over a formula.
pub trait SolverBuilder: Sized {
    /// The kind of solver built.
    type Output: Solver;

    /// Hands the formula to a fresh solver.
    fn build(self, f: CNF) -> (s: Self::Output)
        ensures
            s.formula_model() == f@,
    ;
}

} // verus!
