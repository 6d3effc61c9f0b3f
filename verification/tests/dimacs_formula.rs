use sat_solver::Solver;
use sat_solver::SolverBuilder;
use sat_solver::definitions::CNF;
use sat_solver::definitions::Satisfiability;
use sat_solver::dimacs::DimacsCnfBuilder;
use sat_solver::pdpll::PDPLLSolverBuilder;
use sat_solver::sdpll::DPLLSolverBuilder;

#[test]
fn builder_carries_header_and_clauses() {
    let mut b = DimacsCnfBuilder::new();
    b.header(3, 2);
    b.clause(vec![1, -2]);
    b.clause(vec![2, 3]);
    let d = b.build();
    assert_eq!(d.num_vars(), 3);
    assert_eq!(d.num_clauses(), 2);
    assert_eq!(d.clauses().len(), 2);
    assert_eq!(d.clauses()[0], vec![1, -2]);
    assert_eq!(d.clauses()[1], vec![2, 3]);
}

#[test]
fn satisfiable_integer_clauses_solve_sat() {
    // (1 ∨ 2) ∧ (¬1 ∨ 3): satisfiable.
    let mut b = DimacsCnfBuilder::new();
    b.header(3, 2);
    b.clause(vec![1, 2]);
    b.clause(vec![-1, 3]);
    let f = CNF::from_dimacs(&b.build());
    assert_eq!(
        DPLLSolverBuilder::new().build(f.clone()).solve(),
        Satisfiability::SAT
    );
    assert_eq!(
        PDPLLSolverBuilder::new(2).build(f).solve(),
        Satisfiability::SAT
    );
}

#[test]
fn contradictory_integer_clauses_solve_unsat() {
    // 7 ∧ ¬7, with a wide magnitude to exercise multi-digit variable names.
    let mut b = DimacsCnfBuilder::new();
    b.header(1, 2);
    b.clause(vec![1234567]);
    b.clause(vec![-1234567]);
    let f = CNF::from_dimacs(&b.build());
    assert_eq!(
        DPLLSolverBuilder::new().build(f.clone()).solve(),
        Satisfiability::UNSAT
    );
    assert_eq!(
        PDPLLSolverBuilder::new(1).build(f).solve(),
        Satisfiability::UNSAT
    );
}

#[test]
fn distinct_magnitudes_are_distinct_variables() {
    // 1 ∧ ¬12 is satisfiable: the two numerals name different variables.
    let mut b = DimacsCnfBuilder::new();
    b.header(12, 2);
    b.clause(vec![1]);
    b.clause(vec![-12]);
    let f = CNF::from_dimacs(&b.build());
    assert_eq!(
        DPLLSolverBuilder::new().build(f).solve(),
        Satisfiability::SAT
    );
}
