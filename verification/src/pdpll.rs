//! The parallel DPLL search engine: the same automaton as the sequential
//! engine, with decision branches explored concurrently on a shared worker
//! pool, up to a configured depth of decision nodes.
//!
//! Two fan-out policies are supported: branching the two truth values of one
//! chosen variable in parallel, or branching several distinct candidate
//! variables in parallel, each tried true first and then false within its
//! task.  Tasks work on immutable formula snapshots, so nothing is shared but
//! read-only structure; a branch that reports `SAT` settles the node and the
//! sibling results are ignored.

use vstd::prelude::*;

use crate::Solver;
use crate::SolverBuilder;
use crate::definitions::Assignments;
use crate::definitions::CNF;
use crate::definitions::CNFValue;
use crate::definitions::LiteralValue;
use crate::definitions::RefLiteral;
use crate::definitions::Satisfiability;
use crate::definitions::SignedLiteral;
use crate::definitions::views_of;
use crate::rng::random_below;
use crate::semantics::LitView;
use crate::semantics::TotalAssignment;
use crate::semantics::all_literals;
use crate::semantics::clause_mentions_var;
use crate::semantics::consistent_with;
use crate::semantics::constrains;
use crate::semantics::formula_mentions_var;
use crate::semantics::formula_residual;
use crate::semantics::lemma_all_literals;
use crate::semantics::lemma_branch;
use crate::semantics::lemma_eval_link;
use crate::semantics::lemma_formula_residual_shrinks;
use crate::semantics::lemma_pure_assignment;
use crate::semantics::lemma_unit_clause;
use crate::semantics::occurs_in;
use crate::semantics::pure_in;
use crate::semantics::sat_formula;
use crate::semantics::satisfiable;
use crate::semantics::total_literals;

verus! {

/// How a parallel decision node fans out: over the two truth values of one
/// variable, or over several distinct candidate variables.
#[derive(Debug, Clone, Copy, PartialEq, Eq, Structural)]
pub enum FanOut {
    Polarity,
    Variables,
}

/// Relies on rayon's `join`: it runs both closures to completion on the
/// shared worker pool and returns both results.
#[verifier::external_body]
fn par_join<F1, F2, R1, R2>(f1: F1, f2: F2) -> (r: (R1, R2)) where
    F1: FnOnce() -> R1 + Send,
    F2: FnOnce() -> R2 + Send,
    R1: Send,
    R2: Send,

    requires
        call_requires(f1, ()),
        call_requires(f2, ()),
    ensures
        call_ensures(f1, (), r.0),
        call_ensures(f2, (), r.1),
{
    rayon::join(f1, f2)
}

/// Builds parallel DPLL solvers with a given parallel depth/fan-out factor.
pub struct PDPLLSolverBuilder {
    par_factor: usize,
    fan_out: FanOut,
}

impl PDPLLSolverBuilder {
    /// A builder for solvers that fan decision branches out in parallel down
    /// to `par_factor` decision levels; zero degrades to a fully sequential
    /// search.
    pub fn new(par_factor: usize) -> Self {
        PDPLLSolverBuilder { par_factor, fan_out: FanOut::Polarity }
    }

    /// Selects the fan-out policy of parallel decision nodes.
    pub fn fan_out(self, fan_out: FanOut) -> Self {
        PDPLLSolverBuilder { par_factor: self.par_factor, fan_out }
    }
}

impl SolverBuilder for PDPLLSolverBuilder {
    type Output = PDPLLSolver;

    fn build(self, formula: CNF) -> (s: PDPLLSolver) {
        PDPLLSolver { formula, depth_par_factor: self.par_factor, fan_out: self.fan_out }
    }
}

/// The parallel DPLL search engine.
pub struct PDPLLSolver {
    formula: CNF,
    depth_par_factor: usize,
    fan_out: FanOut,
}

impl Solver for PDPLLSolver {
    closed spec fn formula_model(&self) -> Seq<Seq<LitView>> {
        self.formula@
    }

    fn solve(&mut self) -> (r: Satisfiability) {
        let ghost fv = self.formula@;
        // Pure-literal elimination, once, before any branching.
        let pure = self.formula.pure_literals();
        let mut m = Assignments::new();
        let n = pure.len();
        let mut k: usize = 0;
        while k < n
            invariant
                n == pure.len(),
                0 <= k <= n,
                forall|k2: int|
                    0 <= k2 < pure@.len() ==> occurs_in(fv, (#[trigger] pure@[k2])@) && pure_in(
                        fv,
                        pure@[k2]@.name,
                        pure@[k2]@.positive,
                    ),
                forall|v: Seq<char>|
                    #[trigger] constrains(m@, v) ==> pure_in(fv, v, m@[v] == LiteralValue::True),
            decreases n - k,
        {
            let value = match &pure[k] {
                SignedLiteral::Id(_) => LiteralValue::True,
                SignedLiteral::Not(_) => LiteralValue::False,
            };
            proof {
                assert((value == LiteralValue::True) == pure@[k as int]@.positive);
            }
            let ghost m0 = m@;
            let ghost name = pure@[k as int]@.name;
            m.assign(pure[k].literal(), value);
            proof {
                assert(m@ == m0.insert(name, value));
                assert forall|v: Seq<char>| #[trigger] constrains(m@, v) implies pure_in(
                    fv,
                    v,
                    m@[v] == LiteralValue::True,
                ) by {
                    if v == name {
                        assert(m@[v] == value);
                        assert(pure_in(fv, v, pure@[k as int]@.positive));
                    } else {
                        assert(constrains(m0, v));
                        assert(m@[v] == m0[v]);
                    }
                }
            }
            k += 1;
        }
        proof {
            lemma_pure_assignment(fv, m@);
            lemma_eval_link(fv, m@);
        }
        match self.formula.clone().evaluate(&m) {
            CNFValue::SAT => {
                proof {
                    let a0 = |v: Seq<char>| true;
                    assert(sat_formula(formula_residual(fv, m@), a0));
                    assert(satisfiable(formula_residual(fv, m@)));
                }
                Satisfiability::SAT
            },
            CNFValue::UNSAT => Satisfiability::UNSAT,
            CNFValue::Formula(g) => {
                let depth = self.depth_par_factor;
                let r = self.pdpll_recursive(&g, depth);
                proof {
                    if r == Satisfiability::SAT {
                        assert(satisfiable(g@));
                    }
                }
                r
            },
        }
    }
}

impl PDPLLSolver {
    /// One search node over an already simplified, nonempty formula with no
    /// empty clause.  Unit propagation always runs inline; a decision fans
    /// out in parallel while `depth` lasts and sequentially below that.
    fn pdpll_recursive(&self, f: &CNF, depth: usize) -> (r: Satisfiability)
        requires
            f@.len() > 0,
            forall|i: int| 0 <= i < f@.len() ==> (#[trigger] f@[i]).len() > 0,
        ensures
            (r == Satisfiability::SAT) <==> satisfiable(f@),
        decreases total_literals(f@), 3int, 0int,
    {
        let ghost fv = f@;
        // Unit propagation: a one-literal clause forces its literal.
        let clauses = f.clauses();
        let n = clauses.len();
        proof {
            crate::definitions::lemma_clause_views(clauses@);
        }
        let mut i: usize = 0;
        while i < n
            invariant
                n == clauses.len(),
                0 <= i <= n,
                fv == f@,
                fv == crate::definitions::clause_views(clauses@),
                n == fv.len(),
                forall|j: int| 0 <= j < n ==> #[trigger] fv[j] == clauses@[j]@,
            decreases n - i,
        {
            if let Some(l) = clauses[i].is_unit_clause() {
                let value = match &l {
                    SignedLiteral::Id(_) => LiteralValue::True,
                    SignedLiteral::Not(_) => LiteralValue::False,
                };
                proof {
                    assert(fv[i as int] =~= seq![l@]);
                    lemma_unit_clause(fv, i as int, l@);
                    assert(clause_mentions_var(fv[i as int], l@.name));
                    assert(formula_mentions_var(fv, l@.name));
                    assert((value == LiteralValue::True) == l@.positive);
                }
                return self.pdpll_with(f, &l.literal(), value, depth);
            }
            i += 1;
        }
        // Decision.
        if depth > 0 {
            match self.fan_out {
                FanOut::Variables => {
                    let cands = f.mom(self.depth_par_factor);
                    if cands.len() > 0 {
                        proof {
                            assert(formula_mentions_var(fv, cands@[0]@));
                        }
                        return self.par_candidates(f, &cands, 0, depth - 1);
                    }
                },
                FanOut::Polarity => {
                },
            }
            let p = self.decide(f);
            proof {
                lemma_branch(fv, p@);
            }
            let c1 = || -> (r1: Satisfiability)
                ensures
                    (r1 == Satisfiability::SAT) <==> exists|a: TotalAssignment|
                        a(p@) == true && sat_formula(fv, a),
                { self.pdpll_with(f, &p, LiteralValue::True, depth - 1) };
            let c2 = || -> (r2: Satisfiability)
                ensures
                    (r2 == Satisfiability::SAT) <==> exists|a: TotalAssignment|
                        a(p@) == false && sat_formula(fv, a),
                { self.pdpll_with(f, &p, LiteralValue::False, depth - 1) };
            let (r1, r2) = par_join(c1, c2);
            if r1 == Satisfiability::SAT || r2 == Satisfiability::SAT {
                Satisfiability::SAT
            } else {
                Satisfiability::UNSAT
            }
        } else {
            // Out of parallel budget: plain sequential branching with a
            // positive bias.
            let p = self.decide(f);
            proof {
                lemma_branch(fv, p@);
            }
            if self.pdpll_with(f, &p, LiteralValue::True, depth) == Satisfiability::SAT {
                Satisfiability::SAT
            } else {
                self.pdpll_with(f, &p, LiteralValue::False, depth)
            }
        }
    }

    /// Picks a branching variable: one from a smallest clause when the
    /// heuristic offers one, else any literal of the formula at random.
    fn decide(&self, f: &CNF) -> (p: RefLiteral)
        requires
            f@.len() > 0,
            forall|i: int| 0 <= i < f@.len() ==> (#[trigger] f@[i]).len() > 0,
        ensures
            formula_mentions_var(f@, p@),
    {
        let ghost fv = f@;
        let cands = f.mom(1);
        if cands.len() > 0 {
            let p0 = cands[0].clone();
            proof {
                assert(formula_mentions_var(fv, p0@));
            }
            p0
        } else {
            let lits = f.iter_literals();
            proof {
                lemma_all_literals(fv);
                crate::definitions::lemma_views_of(lits@);
                assert(fv[0].len() > 0);
                assert(all_literals(fv).contains(fv[0][0]));
                assert(all_literals(fv).len() > 0);
            }
            let idx = random_below(lits.len());
            let p0 = lits[idx].literal();
            proof {
                assert(views_of(lits@)[idx as int] == lits@[idx as int]@);
                assert(occurs_in(fv, lits@[idx as int]@));
                let (oi, oj) = choose|oi: int, oj: int|
                    0 <= oi < fv.len() && 0 <= oj < fv[oi].len() && #[trigger] fv[oi][oj]
                        == lits@[idx as int]@;
                assert(clause_mentions_var(fv[oi], p0@));
                assert(formula_mentions_var(fv, p0@));
            }
            p0
        }
    }

    /// Explores the candidate variables from `pos` on as independent parallel
    /// tasks; each task works the whole subtree under its variable, so every
    /// task alone decides the formula, and the node adopts `SAT` as soon as
    /// any task reports it.
    fn par_candidates(&self, f: &CNF, cands: &Vec<RefLiteral>, pos: usize, depth: usize) -> (r:
        Satisfiability)
        requires
            f@.len() > 0,
            forall|i: int| 0 <= i < f@.len() ==> (#[trigger] f@[i]).len() > 0,
            0 <= pos < cands@.len(),
            forall|k: int|
                0 <= k < cands@.len() ==> formula_mentions_var(f@, (#[trigger] cands@[k])@),
        ensures
            (r == Satisfiability::SAT) <==> satisfiable(f@),
        decreases total_literals(f@), 2int, cands@.len() - pos,
    {
        let ghost fv = f@;
        let n = cands.len();
        if pos + 1 == n {
            self.try_variable(f, &cands[pos], depth)
        } else {
            let c1 = || -> (r1: Satisfiability)
                ensures
                    (r1 == Satisfiability::SAT) <==> satisfiable(fv),
                { self.try_variable(f, &cands[pos], depth) };
            let c2 = || -> (r2: Satisfiability)
                ensures
                    (r2 == Satisfiability::SAT) <==> satisfiable(fv),
                { self.par_candidates(f, cands, pos + 1, depth) };
            let (r1, r2) = par_join(c1, c2);
            if r1 == Satisfiability::SAT || r2 == Satisfiability::SAT {
                Satisfiability::SAT
            } else {
                Satisfiability::UNSAT
            }
        }
    }

    /// One task of the wide fan-out: tries its variable true, then false,
    /// sequentially within the task.
    fn try_variable(&self, f: &CNF, var: &RefLiteral, depth: usize) -> (r: Satisfiability)
        requires
            f@.len() > 0,
            forall|i: int| 0 <= i < f@.len() ==> (#[trigger] f@[i]).len() > 0,
            formula_mentions_var(f@, var@),
        ensures
            (r == Satisfiability::SAT) <==> satisfiable(f@),
        decreases total_literals(f@), 1int, 0int,
    {
        proof {
            lemma_branch(f@, var@);
        }
        if self.pdpll_with(f, var, LiteralValue::True, depth) == Satisfiability::SAT {
            Satisfiability::SAT
        } else {
            self.pdpll_with(f, var, LiteralValue::False, depth)
        }
    }

    /// Extends the search with one binding: evaluate the formula under it and
    /// search the residual.  Returns `SAT` exactly when a total assignment
    /// that fixes the variable to the given value satisfies the formula.
    fn pdpll_with(&self, f: &CNF, var: &RefLiteral, value: LiteralValue, depth: usize) -> (r:
        Satisfiability)
        requires
            value != LiteralValue::Unassigned,
            formula_mentions_var(f@, var@),
        ensures
            (r == Satisfiability::SAT) <==> exists|a: TotalAssignment|
                a(var@) == (value == LiteralValue::True) && sat_formula(f@, a),
        decreases total_literals(f@), 0int, 0int,
    {
        let ghost fv = f@;
        let mut m = Assignments::new();
        m.assign(var.clone(), value);
        let ghost mm = m@;
        proof {
            assert(mm == Map::<Seq<char>, LiteralValue>::empty().insert(var@, value));
            lemma_eval_link(fv, mm);
            assert forall|a: TotalAssignment| consistent_with(a, mm) implies a(var@) == (value
                == LiteralValue::True) by {
                assert(constrains(mm, var@));
            }
            assert forall|a: TotalAssignment|
                a(var@) == (value == LiteralValue::True) implies consistent_with(a, mm) by {
                assert forall|v: Seq<char>| constrains(mm, v) implies #[trigger] a(v) == (mm[v]
                    == LiteralValue::True) by {
                    assert(v == var@);
                }
            }
        }
        match f.clone().evaluate(&m) {
            CNFValue::SAT => {
                proof {
                    let a0 = |v: Seq<char>| true;
                    assert(sat_formula(formula_residual(fv, mm), a0));
                    assert(satisfiable(formula_residual(fv, mm)));
                    let a = choose|a: TotalAssignment|
                        consistent_with(a, mm) && sat_formula(fv, a);
                    assert(a(var@) == (value == LiteralValue::True) && sat_formula(fv, a));
                }
                Satisfiability::SAT
            },
            CNFValue::UNSAT => {
                proof {
                    if exists|a: TotalAssignment|
                        a(var@) == (value == LiteralValue::True) && sat_formula(fv, a) {
                        let a = choose|a: TotalAssignment|
                            a(var@) == (value == LiteralValue::True) && sat_formula(fv, a);
                        assert(consistent_with(a, mm) && sat_formula(fv, a));
                    }
                }
                Satisfiability::UNSAT
            },
            CNFValue::Formula(g) => {
                proof {
                    assert(constrains(mm, var@));
                    lemma_formula_residual_shrinks(fv, mm, var@);
                }
                let r = self.pdpll_recursive(&g, depth);
                proof {
                    if r == Satisfiability::SAT {
                        let a = choose|a: TotalAssignment|
                            consistent_with(a, mm) && sat_formula(fv, a);
                        assert(a(var@) == (value == LiteralValue::True) && sat_formula(fv, a));
                    } else {
                        if exists|a: TotalAssignment|
                            a(var@) == (value == LiteralValue::True) && sat_formula(fv, a) {
                            let a = choose|a: TotalAssignment|
                                a(var@) == (value == LiteralValue::True) && sat_formula(fv, a);
                            assert(consistent_with(a, mm) && sat_formula(fv, a));
                            assert(satisfiable(g@));
                        }
                    }
                }
                r
            },
        }
    }
}

} // verus!
