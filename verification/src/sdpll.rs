//! The sequential DPLL search engine: evaluate, propagate unit clauses,
//! otherwise branch on a heuristically chosen variable and backtrack.

use vstd::prelude::*;

use crate::Solver;
use crate::SolverBuilder;
use crate::definitions::Assignments;
use crate::definitions::CNF;
use crate::definitions::CNFValue;
use crate::definitions::LiteralValue;
use crate::definitions::RefLiteral;
use crate::definitions::Satisfiability;
use crate::definitions::SignedLiteral;
use crate::definitions::views_of;
use crate::rng::random_below;
use crate::semantics::LitView;
use crate::semantics::TotalAssignment;
use crate::semantics::all_literals;
use crate::semantics::clause_mentions_var;
use crate::semantics::consistent_with;
use crate::semantics::constrains;
use crate::semantics::formula_mentions_var;
use crate::semantics::formula_residual;
use crate::semantics::lemma_all_literals;
use crate::semantics::lemma_branch;
use crate::semantics::lemma_eval_link;
use crate::semantics::lemma_formula_residual_shrinks;
use crate::semantics::lemma_pure_assignment;
use crate::semantics::lemma_unit_clause;
use crate::semantics::occurs_in;
use crate::semantics::pure_in;
use crate::semantics::sat_formula;
use crate::semantics::satisfiable;
use crate::semantics::total_literals;

verus! {

/// Builds sequential DPLL solvers.
pub struct DPLLSolverBuilder {}

impl DPLLSolverBuilder {
    /// A fresh builder.
    pub fn new() -> Self {
        DPLLSolverBuilder {  }
    }
}

impl SolverBuilder for DPLLSolverBuilder {
    type Output = DPLLSolver;

    fn build(self, formula: CNF) -> (s: DPLLSolver) {
        DPLLSolver { formula }
    }
}

/// The sequential DPLL search engine.
pub struct DPLLSolver {
    formula: CNF,
}

impl Solver for DPLLSolver {
    closed spec fn formula_model(&self) -> Seq<Seq<LitView>> {
        self.formula@
    }

    fn solve(&mut self) -> (r: Satisfiability) {
        let ghost fv = self.formula@;
        // Pure-literal elimination: a variable that occurs with one polarity
        // only can be fixed to satisfy that polarity without ever losing a
        // solution.
        let pure = self.formula.pure_literals();
        let mut m = Assignments::new();
        let n = pure.len();
        let mut k: usize = 0;
        while k < n
            invariant
                n == pure.len(),
                0 <= k <= n,
                forall|k2: int|
                    0 <= k2 < pure@.len() ==> occurs_in(fv, (#[trigger] pure@[k2])@) && pure_in(
                        fv,
                        pure@[k2]@.name,
                        pure@[k2]@.positive,
                    ),
                forall|v: Seq<char>|
                    #[trigger] constrains(m@, v) ==> pure_in(fv, v, m@[v] == LiteralValue::True),
            decreases n - k,
        {
            let value = match &pure[k] {
                SignedLiteral::Id(_) => LiteralValue::True,
                SignedLiteral::Not(_) => LiteralValue::False,
            };
            proof {
                assert((value == LiteralValue::True) == pure@[k as int]@.positive);
            }
            let ghost m0 = m@;
            let ghost name = pure@[k as int]@.name;
            m.assign(pure[k].literal(), value);
            proof {
                assert(m@ == m0.insert(name, value));
                assert forall|v: Seq<char>| #[trigger] constrains(m@, v) implies pure_in(
                    fv,
                    v,
                    m@[v] == LiteralValue::True,
                ) by {
                    if v == name {
                        assert(m@[v] == value);
                        assert(pure_in(fv, v, pure@[k as int]@.positive));
                    } else {
                        assert(constrains(m0, v));
                        assert(m@[v] == m0[v]);
                    }
                }
            }
            k += 1;
        }
        proof {
            lemma_pure_assignment(fv, m@);
            lemma_eval_link(fv, m@);
        }
        match self.formula.clone().evaluate(&m) {
            CNFValue::SAT => {
                proof {
                    let a0 = |v: Seq<char>| true;
                    assert(sat_formula(formula_residual(fv, m@), a0));
                    assert(satisfiable(formula_residual(fv, m@)));
                }
                Satisfiability::SAT
            },
            CNFValue::UNSAT => Satisfiability::UNSAT,
            CNFValue::Formula(g) => {
                let r = self.dpll_recursive(&g);
                proof {
                    if r == Satisfiability::SAT {
                        assert(satisfiable(g@));
                    }
                }
                r
            },
        }
    }
}

impl DPLLSolver {
    /// One search node: the formula here is already simplified, nonempty and
    /// free of empty clauses.  Propagate a unit clause if one exists, else
    /// decide a variable and try it true, then false.
    fn dpll_recursive(&self, f: &CNF) -> (r: Satisfiability)
        requires
            f@.len() > 0,
            forall|i: int| 0 <= i < f@.len() ==> (#[trigger] f@[i]).len() > 0,
        ensures
            (r == Satisfiability::SAT) <==> satisfiable(f@),
        decreases total_literals(f@), 1int,
    {
        let ghost fv = f@;
        // Unit propagation: a one-literal clause forces its literal.
        let clauses = f.clauses();
        let n = clauses.len();
        proof {
            crate::definitions::lemma_clause_views(clauses@);
        }
        let mut i: usize = 0;
        while i < n
            invariant
                n == clauses.len(),
                0 <= i <= n,
                fv == f@,
                fv == crate::definitions::clause_views(clauses@),
                n == fv.len(),
                forall|j: int| 0 <= j < n ==> #[trigger] fv[j] == clauses@[j]@,
            decreases n - i,
        {
            if let Some(l) = clauses[i].is_unit_clause() {
                let value = match &l {
                    SignedLiteral::Id(_) => LiteralValue::True,
                    SignedLiteral::Not(_) => LiteralValue::False,
                };
                proof {
                    assert(fv[i as int] =~= seq![l@]);
                    lemma_unit_clause(fv, i as int, l@);
                    assert(clause_mentions_var(fv[i as int], l@.name));
                    assert(formula_mentions_var(fv, l@.name));
                    assert((value == LiteralValue::True) == l@.positive);
                }
                return self.dpll_with(f, &l.literal(), value);
            }
            i += 1;
        }
        // Decision: prefer a variable from a smallest clause, else any
        // literal of the formula at random.
        let cands = f.mom(1);
        let p: RefLiteral = if cands.len() > 0 {
            let p0 = cands[0].clone();
            proof {
                assert(formula_mentions_var(fv, p0@));
            }
            p0
        } else {
            let lits = f.iter_literals();
            proof {
                lemma_all_literals(fv);
                crate::definitions::lemma_views_of(lits@);
                assert(fv[0].len() > 0);
                assert(all_literals(fv).contains(fv[0][0]));
                assert(all_literals(fv).len() > 0);
            }
            let idx = random_below(lits.len());
            let p0 = lits[idx].literal();
            proof {
                assert(views_of(lits@)[idx as int] == lits@[idx as int]@);
                assert(occurs_in(fv, lits@[idx as int]@));
                let (oi, oj) = choose|oi: int, oj: int|
                    0 <= oi < fv.len() && 0 <= oj < fv[oi].len() && #[trigger] fv[oi][oj]
                        == lits@[idx as int]@;
                assert(clause_mentions_var(fv[oi], p0@));
                assert(formula_mentions_var(fv, p0@));
            }
            p0
        };
        proof {
            lemma_branch(fv, p@);
        }
        if self.dpll_with(f, &p, LiteralValue::True) == Satisfiability::SAT {
            Satisfiability::SAT
        } else {
            self.dpll_with(f, &p, LiteralValue::False)
        }
    }

    /// Extends the search with one binding: evaluate the formula under it and
    /// search the residual.  Returns `SAT` exactly when a total assignment
    /// that fixes the variable to the given value satisfies the formula.
    fn dpll_with(&self, f: &CNF, var: &RefLiteral, value: LiteralValue) -> (r: Satisfiability)
        requires
            value != LiteralValue::Unassigned,
            formula_mentions_var(f@, var@),
        ensures
            (r == Satisfiability::SAT) <==> exists|a: TotalAssignment|
                a(var@) == (value == LiteralValue::True) && sat_formula(f@, a),
        decreases total_literals(f@), 0int,
    {
        let ghost fv = f@;
        let mut m = Assignments::new();
        m.assign(var.clone(), value);
        let ghost mm = m@;
        proof {
            assert(mm == Map::<Seq<char>, LiteralValue>::empty().insert(var@, value));
            lemma_eval_link(fv, mm);
            assert forall|a: TotalAssignment| consistent_with(a, mm) implies a(var@) == (value
                == LiteralValue::True) by {
                assert(constrains(mm, var@));
            }
            assert forall|a: TotalAssignment|
                a(var@) == (value == LiteralValue::True) implies consistent_with(a, mm) by {
                assert forall|v: Seq<char>| constrains(mm, v) implies #[trigger] a(v) == (mm[v]
                    == LiteralValue::True) by {
                    assert(v == var@);
                }
            }
        }
        match f.clone().evaluate(&m) {
            CNFValue::SAT => {
                proof {
                    let a0 = |v: Seq<char>| true;
                    assert(sat_formula(formula_residual(fv, mm), a0));
                    assert(satisfiable(formula_residual(fv, mm)));
                    let a = choose|a: TotalAssignment|
                        consistent_with(a, mm) && sat_formula(fv, a);
                    assert(a(var@) == (value == LiteralValue::True) && sat_formula(fv, a));
                }
                Satisfiability::SAT
            },
            CNFValue::UNSAT => {
                proof {
                    if exists|a: TotalAssignment|
                        a(var@) == (value == LiteralValue::True) && sat_formula(fv, a) {
                        let a = choose|a: TotalAssignment|
                            a(var@) == (value == LiteralValue::True) && sat_formula(fv, a);
                        assert(consistent_with(a, mm) && sat_formula(fv, a));
                    }
                }
                Satisfiability::UNSAT
            },
            CNFValue::Formula(g) => {
                proof {
                    assert(constrains(mm, var@));
                    lemma_formula_residual_shrinks(fv, mm, var@);
                }
                let r = self.dpll_recursive(&g);
                proof {
                    if r == Satisfiability::SAT {
                        let a = choose|a: TotalAssignment|
                            consistent_with(a, mm) && sat_formula(fv, a);
                        assert(a(var@) == (value == LiteralValue::True) && sat_formula(fv, a));
                    } else {
                        if exists|a: TotalAssignment|
                            a(var@) == (value == LiteralValue::True) && sat_formula(fv, a) {
                            let a = choose|a: TotalAssignment|
                                a(var@) == (value == LiteralValue::True) && sat_formula(fv, a);
                            assert(consistent_with(a, mm) && sat_formula(fv, a));
                            assert(satisfiable(g@));
                        }
                    }
                }
                r
            },
        }
    }
}

} // verus!
