use sat_solver::definitions::Assignments;
use sat_solver::definitions::CNF;
use sat_solver::definitions::CNFValue;
use sat_solver::definitions::ClauseBuilder;
use sat_solver::definitions::ClauseValue;
use sat_solver::definitions::Literal;
use sat_solver::definitions::LiteralValue;
use sat_solver::definitions::Satisfiability;

#[test]
fn test_clause() {
    /*
       c1 = (¬p1 ∨ p2)
       c2 = (¬p1 ∨ p3 ∨ p5)
       c3 = (¬p2 ∨ p4)
       c4 = (¬p3 ∨ ¬p4)
       c5 = (p1 ∨ p5 ∨ ¬p2)
       c6 = (p2 ∨ p3)
       c7 = (p2 ∨ ¬p3 ∨ p7)
       c8 = (p6 ∨ ¬p5)
    */

    let p1 = Literal::new("p1".to_string());
    let p2 = Literal::new("p2".to_string());
    let p3 = Literal::new("p3".to_string());
    let p4 = Literal::new("p4".to_string());
    let p5 = Literal::new("p5".to_string());
    let p6 = Literal::new("p6".to_string());
    let p7 = Literal::new("p7".to_string());

    let c1 = ClauseBuilder::new()
        .add_literal(p1.not())
        .add_literal(p2.identity())
        .build();
    let c2 = ClauseBuilder::new()
        .add_literal(p1.not())
        .add_literal(p3.identity())
        .add_literal(p5.identity())
        .build();
    let c3 = ClauseBuilder::new()
        .add_literal(p2.not())
        .add_literal(p4.identity())
        .build();
    let c4 = ClauseBuilder::new()
        .add_literal(p3.not())
        .add_literal(p4.not())
        .build();
    let c5 = ClauseBuilder::new()
        .add_literal(p1.identity())
        .add_literal(p5.identity())
        .add_literal(p2.not())
        .build();
    let c6 = ClauseBuilder::new()
        .add_literal(p2.identity())
        .add_literal(p3.identity())
        .build();
    let c7 = ClauseBuilder::new()
        .add_literal(p2.identity())
        .add_literal(p3.not())
        .add_literal(p7.identity())
        .build();
    let c8 = ClauseBuilder::new()
        .add_literal(p6.identity())
        .add_literal(p5.not())
        .build();

    {
        let mut assignments = Assignments::new();
        assignments.assign(p1.clone(), LiteralValue::False);

        assert_eq!(c1.clone().evaluate(&assignments), ClauseValue::True);
    }

    {
        let mut assignments = Assignments::new();
        assignments.assign(p2.clone(), LiteralValue::False);

        let c = c1.clone().evaluate(&assignments);
        println!("c: {:?}", c);
        match c {
            ClauseValue::Clause(c) => {
                assert_eq!(c.is_unit_clause(), Some(p1.not()));
            }
            _ => panic!("Expected clause"),
        }
    }

    let _formula = CNF::new()
        .add_clause(c1)
        .add_clause(c2)
        .add_clause(c3)
        .add_clause(c4)
        .add_clause(c5)
        .add_clause(c6)
        .add_clause(c7)
        .add_clause(c8);
}

#[test]
fn literal_evaluation() {
    let a = Literal::new("a".to_string());
    let mut m = Assignments::new();
    assert_eq!(a.identity().evaluate(&m), LiteralValue::Unassigned);
    assert_eq!(a.not().evaluate(&m), LiteralValue::Unassigned);
    m.assign(a.clone(), LiteralValue::True);
    assert_eq!(a.identity().evaluate(&m), LiteralValue::True);
    assert_eq!(a.not().evaluate(&m), LiteralValue::False);
    m.assign(a.clone(), LiteralValue::False);
    assert_eq!(a.identity().evaluate(&m), LiteralValue::False);
    assert_eq!(a.not().evaluate(&m), LiteralValue::True);
}

#[test]
fn negate_swaps_and_fixes() {
    assert_eq!(LiteralValue::True.negate(), LiteralValue::False);
    assert_eq!(LiteralValue::False.negate(), LiteralValue::True);
    assert_eq!(LiteralValue::Unassigned.negate(), LiteralValue::Unassigned);
}

#[test]
fn complement_flips_polarity() {
    let a = Literal::new("a".to_string());
    assert_eq!(a.identity().complement(), a.not());
    assert_eq!(a.not().complement(), a.identity());
    assert_eq!(a.identity().literal(), a.clone());
}

#[test]
fn assignments_overwrite_and_count() {
    let a = Literal::new("a".to_string());
    let b = Literal::new("b".to_string());
    let mut m = Assignments::new();
    assert!(m.is_empty());
    assert_eq!(m.len(), 0);
    m.assign(a.clone(), LiteralValue::True);
    m.assign(a.clone(), LiteralValue::False);
    m.assign(b.clone(), LiteralValue::True);
    assert_eq!(m.len(), 2);
    assert!(!m.is_empty());
    assert_eq!(a.identity().evaluate(&m), LiteralValue::False);
    assert_eq!(m.iter().len(), 2);
}

#[test]
fn builder_collapses_repeated_literals() {
    let a = Literal::new("a".to_string());
    let clause = ClauseBuilder::new()
        .add_literal(a.identity())
        .add_literal(a.identity())
        .build();
    // Two insertions of the same literal leave a one-literal clause.
    assert_eq!(clause.is_unit_clause(), Some(a.identity()));
    // The two polarities are distinct literals.
    let both = ClauseBuilder::new()
        .add_literal(a.identity())
        .add_literal(a.not())
        .build();
    assert_eq!(both.is_unit_clause(), None);
    assert_eq!(both.signed_literal().len(), 2);
}

#[test]
fn clause_evaluation_drops_false_literals() {
    let a = Literal::new("a".to_string());
    let b = Literal::new("b".to_string());
    let c = Literal::new("c".to_string());
    let clause = ClauseBuilder::new()
        .add_literal(a.identity())
        .add_literal(b.identity())
        .add_literal(c.identity())
        .build();

    let mut m = Assignments::new();
    m.assign(a.clone(), LiteralValue::False);
    match clause.clone().evaluate(&m) {
        ClauseValue::Clause(rest) => {
            assert_eq!(rest.signed_literal().len(), 2);
        }
        other => panic!("expected a residual clause, got {:?}", other),
    }

    m.assign(b.clone(), LiteralValue::False);
    m.assign(c.clone(), LiteralValue::False);
    assert!(clause.clone().evaluate(&m).is_false());

    m.assign(b.clone(), LiteralValue::True);
    assert!(clause.clone().evaluate(&m).is_true());
}

#[test]
fn formula_evaluation_terminal_cases() {
    let a = Literal::new("a".to_string());
    let m = Assignments::new();

    // No clauses at all: satisfied outright.
    let empty = CNF::new();
    assert_eq!(empty.evaluate(&m), CNFValue::SAT);
    assert_eq!(CNF::new().evaluate(&m).unwrap(), Satisfiability::SAT);

    // An empty clause: unsatisfiable outright.
    let falsum = CNF::new().add_clause(ClauseBuilder::new().build());
    assert_eq!(falsum.evaluate(&m), CNFValue::UNSAT);

    // One open clause: still a formula.
    let open = CNF::new().add_clause(ClauseBuilder::new().add_literal(a.identity()).build());
    let v = open.evaluate(&m);
    assert!(matches!(v, CNFValue::Formula(_)));
}

#[test]
fn clause_value_observers() {
    let v = ClauseValue::True;
    assert!(v.is_true());
    assert!(!v.is_false());
    assert!(!v.is_clause());
    let v = ClauseValue::False;
    assert!(v.is_false());
    assert!(!v.is_true());
}

#[test]
fn decided_values_survive_assignment_extension() {
    // A clause or formula already decided under an assignment keeps its value
    // under any extension of that assignment.
    let a = Literal::new("a".to_string());
    let b = Literal::new("b".to_string());
    let c = Literal::new("c".to_string());
    let clause = ClauseBuilder::new()
        .add_literal(a.identity())
        .add_literal(b.identity())
        .build();

    let mut m = Assignments::new();
    m.assign(a.clone(), LiteralValue::True);
    assert!(clause.clone().evaluate(&m).is_true());
    m.assign(b.clone(), LiteralValue::False);
    m.assign(c.clone(), LiteralValue::True);
    assert!(clause.clone().evaluate(&m).is_true());

    let mut m = Assignments::new();
    m.assign(a.clone(), LiteralValue::False);
    m.assign(b.clone(), LiteralValue::False);
    assert!(clause.clone().evaluate(&m).is_false());
    m.assign(c.clone(), LiteralValue::False);
    assert!(clause.clone().evaluate(&m).is_false());

    let f = CNF::new().add_clause(clause);
    let mut m = Assignments::new();
    m.assign(a.clone(), LiteralValue::True);
    assert_eq!(f.clone().evaluate(&m), CNFValue::SAT);
    m.assign(c.clone(), LiteralValue::False);
    assert_eq!(f.clone().evaluate(&m), CNFValue::SAT);

    let mut m = Assignments::new();
    m.assign(a.clone(), LiteralValue::False);
    m.assign(b.clone(), LiteralValue::False);
    assert_eq!(f.clone().evaluate(&m), CNFValue::UNSAT);
    m.assign(c.clone(), LiteralValue::True);
    assert_eq!(f.clone().evaluate(&m), CNFValue::UNSAT);
}

#[test]
fn pure_literals_found() {
    // (a ∨ b) ∧ (a ∨ ¬b): a is pure positive, b occurs both ways.
    let a = Literal::new("a".to_string());
    let b = Literal::new("b".to_string());
    let f = CNF::new()
        .add_clause(
            ClauseBuilder::new()
                .add_literal(a.identity())
                .add_literal(b.identity())
                .build(),
        )
        .add_clause(
            ClauseBuilder::new()
                .add_literal(a.identity())
                .add_literal(b.not())
                .build(),
        );
    let pure = f.pure_literals();
    assert_eq!(pure.len(), 1);
    assert_eq!(pure[0], a.identity());
}

#[test]
fn mom_ranks_by_occurrences() {
    // Clauses: (a ∨ b) and (a ∨ b ∨ c); the smallest clause is (a ∨ b),
    // and both its variables occur twice while c occurs once.
    let a = Literal::new("a".to_string());
    let b = Literal::new("b".to_string());
    let c = Literal::new("c".to_string());
    let f = CNF::new()
        .add_clause(
            ClauseBuilder::new()
                .add_literal(a.identity())
                .add_literal(b.identity())
                .build(),
        )
        .add_clause(
            ClauseBuilder::new()
                .add_literal(a.identity())
                .add_literal(b.identity())
                .add_literal(c.identity())
                .build(),
        );
    let picks = f.mom(2);
    assert_eq!(picks.len(), 2);
    for p in &picks {
        assert!(*p == a || *p == b);
    }
    assert_eq!(f.mom(0).len(), 0);
    assert_eq!(CNF::new().mom(3).len(), 0);
}

#[test]
fn iter_literals_walks_every_occurrence() {
    let a = Literal::new("a".to_string());
    let b = Literal::new("b".to_string());
    let f = CNF::new()
        .add_clause(ClauseBuilder::new().add_literal(a.identity()).build())
        .add_clause(
            ClauseBuilder::new()
                .add_literal(a.not())
                .add_literal(b.identity())
                .build(),
        );
    assert_eq!(f.iter_literals().len(), 3);
    assert_eq!(f.clauses().len(), 2);
}

#[test]
fn add_clause_keeps_sizes_ascending() {
    let a = Literal::new("a".to_string());
    let b = Literal::new("b".to_string());
    let c = Literal::new("c".to_string());
    let big = ClauseBuilder::new()
        .add_literal(a.identity())
        .add_literal(b.identity())
        .add_literal(c.identity())
        .build();
    let small = ClauseBuilder::new().add_literal(a.identity()).build();
    let f = CNF::new().add_clause(big).add_clause(small);
    let sizes: Vec<usize> = f.clauses().iter().map(|c| c.signed_literal().len()).collect();
    assert_eq!(sizes, vec![1, 3]);
}
