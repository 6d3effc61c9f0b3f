use sat_solver::Solver;
use sat_solver::SolverBuilder;
use sat_solver::definitions::Assignments;
use sat_solver::definitions::CNF;
use sat_solver::definitions::CNFValue;
use sat_solver::definitions::ClauseBuilder;
use sat_solver::definitions::Literal;
use sat_solver::definitions::LiteralValue;
use sat_solver::definitions::RefLiteral;
use sat_solver::definitions::Satisfiability;
use sat_solver::pdpll::FanOut;
use sat_solver::pdpll::PDPLLSolverBuilder;
use sat_solver::sdpll::DPLLSolverBuilder;

/// Decides the formula with the sequential engine and with the parallel one
/// over a spread of depths and both fan-out policies, checks that every
/// verdict agrees, and returns it.
fn solve_all_engines(formula: &CNF) -> Satisfiability {
    let verdict = DPLLSolverBuilder::new().build(formula.clone()).solve();
    for depth in 0..4usize {
        let parallel = PDPLLSolverBuilder::new(depth)
            .build(formula.clone())
            .solve();
        assert_eq!(parallel, verdict);
        let wide = PDPLLSolverBuilder::new(depth)
            .fan_out(FanOut::Variables)
            .build(formula.clone())
            .solve();
        assert_eq!(wide, verdict);
    }
    verdict
}

fn case_1_formula() -> CNF {
    // (a ∨ b) ∧ (¬a ∨ c)
    let a = Literal::new("a".to_string());
    let b = Literal::new("b".to_string());
    let c = Literal::new("c".to_string());
    CNF::new()
        .add_clause(
            ClauseBuilder::new()
                .add_literal(a.identity())
                .add_literal(b.identity())
                .build(),
        )
        .add_clause(
            ClauseBuilder::new()
                .add_literal(a.not())
                .add_literal(c.identity())
                .build(),
        )
}

#[test]
fn case_1() {
    assert_eq!(
        DPLLSolverBuilder::new().build(case_1_formula()).solve(),
        Satisfiability::SAT
    );
}

fn case_2_formula() -> CNF {
    // (a ∨ b) ∧ (¬a ∨ c) ∧ (¬b ∨ ¬c)
    let a = Literal::new("a".to_string());
    let b = Literal::new("b".to_string());
    let c = Literal::new("c".to_string());
    CNF::new()
        .add_clause(
            ClauseBuilder::new()
                .add_literal(a.identity())
                .add_literal(b.identity())
                .build(),
        )
        .add_clause(
            ClauseBuilder::new()
                .add_literal(a.not())
                .add_literal(c.identity())
                .build(),
        )
        .add_clause(
            ClauseBuilder::new()
                .add_literal(b.not())
                .add_literal(c.not())
                .build(),
        )
}

#[test]
fn case_2() {
    assert_eq!(
        DPLLSolverBuilder::new().build(case_2_formula()).solve(),
        Satisfiability::SAT
    );
}

fn case_3_formula() -> CNF {
    /*
       c1 = (¬p1 ∨ p2)
       c2 = (¬p1 ∨ p3 ∨ p5)
       c3 = (¬p2 ∨ p4)
       c4 = (¬p3 ∨ ¬p4)
       c5 = (p1 ∨ p5 ∨ ¬p2)
       c6 = (p2 ∨ p3)
       c7 = (p2 ∨ ¬p3 ∨ p7)
       c8 = (p6 ∨ ¬p5)
    */
    let p1 = Literal::new("p1".to_string());
    let p2 = Literal::new("p2".to_string());
    let p3 = Literal::new("p3".to_string());
    let p4 = Literal::new("p4".to_string());
    let p5 = Literal::new("p5".to_string());
    let p6 = Literal::new("p6".to_string());
    let p7 = Literal::new("p7".to_string());

    CNF::new()
        .add_clause(
            ClauseBuilder::new()
                .add_literal(p1.not())
                .add_literal(p2.identity())
                .build(),
        )
        .add_clause(
            ClauseBuilder::new()
                .add_literal(p1.not())
                .add_literal(p3.identity())
                .add_literal(p5.identity())
                .build(),
        )
        .add_clause(
            ClauseBuilder::new()
                .add_literal(p2.not())
                .add_literal(p4.identity())
                .build(),
        )
        .add_clause(
            ClauseBuilder::new()
                .add_literal(p3.not())
                .add_literal(p4.not())
                .build(),
        )
        .add_clause(
            ClauseBuilder::new()
                .add_literal(p1.identity())
                .add_literal(p5.identity())
                .add_literal(p2.not())
                .build(),
        )
        .add_clause(
            ClauseBuilder::new()
                .add_literal(p2.identity())
                .add_literal(p3.identity())
                .build(),
        )
        .add_clause(
            ClauseBuilder::new()
                .add_literal(p2.identity())
                .add_literal(p3.not())
                .add_literal(p7.identity())
                .build(),
        )
        .add_clause(
            ClauseBuilder::new()
                .add_literal(p6.identity())
                .add_literal(p5.not())
                .build(),
        )
}

#[test]
fn case_3() {
    assert_eq!(
        DPLLSolverBuilder::new().build(case_3_formula()).solve(),
        Satisfiability::SAT
    );
}

fn case_4_formula() -> CNF {
    // Every one of the eight three-literal clauses over {x, y, z}: no
    // assignment satisfies all of them.
    let x = Literal::new("x".to_string());
    let y = Literal::new("y".to_string());
    let z = Literal::new("z".to_string());
    let mut f = CNF::new();
    for bits in 0..8u32 {
        let cx = if bits & 1 == 0 { x.identity() } else { x.not() };
        let cy = if bits & 2 == 0 { y.identity() } else { y.not() };
        let cz = if bits & 4 == 0 { z.identity() } else { z.not() };
        f = f.add_clause(
            ClauseBuilder::new()
                .add_literal(cx)
                .add_literal(cy)
                .add_literal(cz)
                .build(),
        );
    }
    f
}

#[test]
fn case_4() {
    assert_eq!(
        DPLLSolverBuilder::new().build(case_4_formula()).solve(),
        Satisfiability::UNSAT
    );
}

#[test]
fn empty_clause_is_unsat_immediately() {
    let a = Literal::new("a".to_string());
    let f = CNF::new()
        .add_clause(ClauseBuilder::new().add_literal(a.identity()).build())
        .add_clause(ClauseBuilder::new().build());
    assert_eq!(solve_all_engines(&f), Satisfiability::UNSAT);
}

#[test]
fn no_clauses_is_sat_immediately() {
    let f = CNF::new();
    assert_eq!(solve_all_engines(&f), Satisfiability::SAT);
}

#[test]
fn engines_agree_on_satisfiable_formulas() {
    assert_eq!(solve_all_engines(&case_1_formula()), Satisfiability::SAT);
    assert_eq!(solve_all_engines(&case_2_formula()), Satisfiability::SAT);
    assert_eq!(solve_all_engines(&case_3_formula()), Satisfiability::SAT);
}

#[test]
fn engines_agree_on_unsatisfiable_formulas() {
    assert_eq!(solve_all_engines(&case_4_formula()), Satisfiability::UNSAT);
}

#[test]
fn single_unit_conflict_is_unsat() {
    // a ∧ ¬a
    let a = Literal::new("a".to_string());
    let f = CNF::new()
        .add_clause(ClauseBuilder::new().add_literal(a.identity()).build())
        .add_clause(ClauseBuilder::new().add_literal(a.not()).build());
    assert_eq!(solve_all_engines(&f), Satisfiability::UNSAT);
}

/// Brute-force reference: whether any of the eight total assignments over
/// the three named variables satisfies the formula, decided only through
/// `evaluate` under a full assignment.
fn brute_force_sat(formula: &CNF, vars: [&RefLiteral; 3]) -> bool {
    for bits in 0..8u32 {
        let mut m = Assignments::new();
        for (k, v) in vars.iter().enumerate() {
            let value = if bits & (1 << k) != 0 {
                LiteralValue::True
            } else {
                LiteralValue::False
            };
            m.assign((*v).clone(), value);
        }
        match formula.clone().evaluate(&m) {
            CNFValue::SAT => return true,
            CNFValue::UNSAT => {}
            CNFValue::Formula(_) => panic!("a total assignment must decide the formula"),
        }
    }
    false
}

#[test]
fn verdicts_match_brute_force_enumeration() {
    // Soundness and completeness on small instances: the engines' verdict
    // equals exhaustive enumeration of all total assignments.
    let a = Literal::new("a".to_string());
    let b = Literal::new("b".to_string());
    let c = Literal::new("c".to_string());
    let sat_formula = case_2_formula();
    let expected = brute_force_sat(&sat_formula, [&a, &b, &c]);
    assert!(expected);
    assert_eq!(solve_all_engines(&sat_formula), Satisfiability::SAT);

    let x = Literal::new("x".to_string());
    let y = Literal::new("y".to_string());
    let z = Literal::new("z".to_string());
    let unsat_formula = case_4_formula();
    let expected = brute_force_sat(&unsat_formula, [&x, &y, &z]);
    assert!(!expected);
    assert_eq!(solve_all_engines(&unsat_formula), Satisfiability::UNSAT);
}

#[test]
fn pure_literal_elimination_preserves_verdict() {
    // In (a ∨ b) ∧ (¬b ∨ c) the variable a is pure positive.  Fixing it and
    // simplifying leaves the verdict unchanged.
    let a = Literal::new("a".to_string());
    let b = Literal::new("b".to_string());
    let c = Literal::new("c".to_string());
    let f = CNF::new()
        .add_clause(
            ClauseBuilder::new()
                .add_literal(a.identity())
                .add_literal(b.identity())
                .build(),
        )
        .add_clause(
            ClauseBuilder::new()
                .add_literal(b.not())
                .add_literal(c.identity())
                .build(),
        );
    let pure = f.pure_literals();
    assert!(pure.contains(&a.identity()));
    let before = solve_all_engines(&f);
    let mut m = Assignments::new();
    m.assign(a.clone(), LiteralValue::True);
    let after = match f.clone().evaluate(&m) {
        CNFValue::SAT => Satisfiability::SAT,
        CNFValue::UNSAT => Satisfiability::UNSAT,
        CNFValue::Formula(g) => solve_all_engines(&g),
    };
    assert_eq!(before, after);
}

#[test]
fn pure_literal_formula_is_sat() {
    // Every variable is pure: satisfiable without any decision.
    let a = Literal::new("a".to_string());
    let b = Literal::new("b".to_string());
    let f = CNF::new()
        .add_clause(
            ClauseBuilder::new()
                .add_literal(a.identity())
                .add_literal(b.not())
                .build(),
        )
        .add_clause(ClauseBuilder::new().add_literal(b.not()).build());
    assert_eq!(solve_all_engines(&f), Satisfiability::SAT);
}
