//! The mathematical model of formulas: three-valued evaluation under a
//! partial assignment, two-valued satisfaction under a total assignment, and
//! the lemmas connecting the two that the search engines rest on.

use vstd::prelude::*;

use crate::definitions::LiteralValue;
use crate::definitions::Satisfiability;

verus! {

/// The mathematical value of a signed literal: a polarity and a variable name.
pub ghost struct LitView {
    pub positive: bool,
    pub name: Seq<char>,
}

/// A total two-valued assignment, giving every variable name a truth value.
pub type TotalAssignment = spec_fn(Seq<char>) -> bool;

/// What negation does on the three-valued truth domain: it swaps `True` and
/// `False` and fixes `Unassigned`.
pub open spec fn negate_value(v: LiteralValue) -> LiteralValue {
    match v {
        LiteralValue::True => LiteralValue::False,
        LiteralValue::False => LiteralValue::True,
        LiteralValue::Unassigned => LiteralValue::Unassigned,
    }
}

/// Whether the partial assignment `m` gives the variable `name` a truth value.
pub open spec fn constrains(m: Map<Seq<char>, LiteralValue>, name: Seq<char>) -> bool {
    m.contains_key(name) && m[name] != LiteralValue::Unassigned
}

/// The three-valued value of a literal under a partial assignment: the
/// variable's value (default `Unassigned`), passed through for a positive
/// literal and inverted for a negated one.
pub open spec fn lit_value(l: LitView, m: Map<Seq<char>, LiteralValue>) -> LiteralValue {
    let raw = if m.contains_key(l.name) {
        m[l.name]
    } else {
        LiteralValue::Unassigned
    };
    if l.positive {
        raw
    } else {
        negate_value(raw)
    }
}

/// Whether some literal of the clause evaluates to `True` under `m`, which
/// makes the whole clause true.
pub open spec fn clause_has_true_literal(c: Seq<LitView>, m: Map<Seq<char>, LiteralValue>) -> bool {
    exists|i: int| 0 <= i < c.len() && lit_value(#[trigger] c[i], m) == LiteralValue::True
}

/// The residual clause under `m`: the literals not yet falsified, in order.
pub open spec fn clause_residual(c: Seq<LitView>, m: Map<Seq<char>, LiteralValue>) -> Seq<LitView>
    decreases c.len(),
{
    if c.len() == 0 {
        Seq::empty()
    } else {
        let rest = clause_residual(c.drop_last(), m);
        if lit_value(c.last(), m) == LiteralValue::False {
            rest
        } else {
            rest.push(c.last())
        }
    }
}

/// A clause is false under `m` when no literal is true and every literal has
/// been falsified; in particular an empty clause is false.
pub open spec fn clause_is_false(c: Seq<LitView>, m: Map<Seq<char>, LiteralValue>) -> bool {
    !clause_has_true_literal(c, m) && clause_residual(c, m).len() == 0
}

/// Whether some clause of the formula is false under `m`, which makes the
/// whole formula unsatisfiable together with `m`.
pub open spec fn formula_has_false_clause(
    f: Seq<Seq<LitView>>,
    m: Map<Seq<char>, LiteralValue>,
) -> bool {
    exists|i: int| 0 <= i < f.len() && clause_is_false(#[trigger] f[i], m)
}

/// The residual formula under `m`: the clauses not yet decided true, each
/// reduced to its residual, in order.
pub open spec fn formula_residual(
    f: Seq<Seq<LitView>>,
    m: Map<Seq<char>, LiteralValue>,
) -> Seq<Seq<LitView>>
    decreases f.len(),
{
    if f.len() == 0 {
        Seq::empty()
    } else {
        let rest = formula_residual(f.drop_last(), m);
        if clause_has_true_literal(f.last(), m) {
            rest
        } else {
            rest.push(clause_residual(f.last(), m))
        }
    }
}

/// Whether a literal is true under a total assignment.
pub open spec fn sat_lit(l: LitView, a: TotalAssignment) -> bool {
    a(l.name) == l.positive
}

/// Whether a clause (a disjunction) is true under a total assignment.
pub open spec fn sat_clause(c: Seq<LitView>, a: TotalAssignment) -> bool {
    exists|i: int| 0 <= i < c.len() && sat_lit(#[trigger] c[i], a)
}

/// Whether a formula (a conjunction of clauses) is true under a total
/// assignment.
pub open spec fn sat_formula(f: Seq<Seq<LitView>>, a: TotalAssignment) -> bool {
    forall|i: int| 0 <= i < f.len() ==> sat_clause(#[trigger] f[i], a)
}

/// Whether some total assignment makes the formula true: the property the
/// engines decide.
pub open spec fn satisfiable(f: Seq<Seq<LitView>>) -> bool {
    exists|a: TotalAssignment| sat_formula(f, a)
}

/// Whether the total assignment `a` agrees with the partial assignment `m`
/// wherever `m` gives a truth value.
pub open spec fn consistent_with(a: TotalAssignment, m: Map<Seq<char>, LiteralValue>) -> bool {
    forall|v: Seq<char>|
        constrains(m, v) ==> #[trigger] a(v) == (m[v] == LiteralValue::True)
}

/// Whether some literal of the clause is over the variable `name`.
pub open spec fn clause_mentions_var(c: Seq<LitView>, name: Seq<char>) -> bool {
    exists|i: int| 0 <= i < c.len() && (#[trigger] c[i]).name == name
}

/// Whether some literal of the formula is over the variable `name`.
pub open spec fn formula_mentions_var(f: Seq<Seq<LitView>>, name: Seq<char>) -> bool {
    exists|i: int| 0 <= i < f.len() && clause_mentions_var(#[trigger] f[i], name)
}

/// The total number of literal occurrences in the formula, the measure that
/// shrinks at every simplification step of the search.
pub open spec fn total_literals(f: Seq<Seq<LitView>>) -> nat
    decreases f.len(),
{
    if f.len() == 0 {
        0
    } else {
        total_literals(f.drop_last()) + f.last().len()
    }
}

/// Whether every occurrence of the variable `name` in the formula has the
/// polarity `positive`: the variable is pure.
pub open spec fn pure_in(f: Seq<Seq<LitView>>, name: Seq<char>, positive: bool) -> bool {
    forall|i: int, j: int|
        0 <= i < f.len() && 0 <= j < f[i].len() && (#[trigger] f[i][j]).name == name
            ==> f[i][j].positive == positive
}

/// No two literals of the clause are the same signed literal: a clause is a
/// set of literals.
pub open spec fn clause_nodup(c: Seq<LitView>) -> bool {
    forall|i: int, j: int| 0 <= i < j < c.len() ==> #[trigger] c[i] != #[trigger] c[j]
}

/// Every clause of the formula is a set of literals.
pub open spec fn formula_wf(f: Seq<Seq<LitView>>) -> bool {
    forall|i: int| 0 <= i < f.len() ==> clause_nodup(#[trigger] f[i])
}

proof fn lemma_sat_clause_push(c: Seq<LitView>, l: LitView, a: TotalAssignment)
    ensures
        sat_clause(c.push(l), a) <==> (sat_clause(c, a) || sat_lit(l, a)),
{
    if sat_clause(c, a) {
        let i = choose|i: int| 0 <= i < c.len() && sat_lit(#[trigger] c[i], a);
        assert(c.push(l)[i] == c[i]);
    }
    if sat_lit(l, a) {
        assert(c.push(l)[c.len() as int] == l);
    }
    if sat_clause(c.push(l), a) && !sat_lit(l, a) {
        let i = choose|i: int|
            0 <= i < c.push(l).len() && sat_lit(#[trigger] c.push(l)[i], a);
        assert(i < c.len() && c.push(l)[i] == c[i]);
    }
}

proof fn lemma_has_true_push(c: Seq<LitView>, l: LitView, m: Map<Seq<char>, LiteralValue>)
    ensures
        clause_has_true_literal(c.push(l), m) <==> (clause_has_true_literal(c, m)
            || lit_value(l, m) == LiteralValue::True),
{
    if clause_has_true_literal(c, m) {
        let i = choose|i: int|
            0 <= i < c.len() && lit_value(#[trigger] c[i], m) == LiteralValue::True;
        assert(c.push(l)[i] == c[i]);
    }
    if lit_value(l, m) == LiteralValue::True {
        assert(c.push(l)[c.len() as int] == l);
    }
    if clause_has_true_literal(c.push(l), m) && lit_value(l, m) != LiteralValue::True {
        let i = choose|i: int|
            0 <= i < c.push(l).len() && lit_value(#[trigger] c.push(l)[i], m)
                == LiteralValue::True;
        assert(i < c.len() && c.push(l)[i] == c[i]);
    }
}

proof fn lemma_sat_formula_push(f: Seq<Seq<LitView>>, c: Seq<LitView>, a: TotalAssignment)
    ensures
        sat_formula(f.push(c), a) <==> (sat_formula(f, a) && sat_clause(c, a)),
{
    if sat_formula(f.push(c), a) {
        assert(f.push(c)[f.len() as int] == c);
        assert forall|i: int| 0 <= i < f.len() implies sat_clause(#[trigger] f[i], a) by {
            assert(f.push(c)[i] == f[i]);
        }
    }
    if sat_formula(f, a) && sat_clause(c, a) {
        assert forall|i: int| 0 <= i < f.push(c).len() implies sat_clause(
            #[trigger] f.push(c)[i],
            a,
        ) by {
            if i < f.len() {
                assert(f.push(c)[i] == f[i]);
            } else {
                assert(f.push(c)[i] == c);
            }
        }
    }
}

proof fn lemma_has_false_push(f: Seq<Seq<LitView>>, c: Seq<LitView>, m: Map<Seq<char>, LiteralValue>)
    ensures
        formula_has_false_clause(f.push(c), m) <==> (formula_has_false_clause(f, m)
            || clause_is_false(c, m)),
{
    if formula_has_false_clause(f, m) {
        let i = choose|i: int| 0 <= i < f.len() && clause_is_false(#[trigger] f[i], m);
        assert(f.push(c)[i] == f[i]);
    }
    if clause_is_false(c, m) {
        assert(f.push(c)[f.len() as int] == c);
    }
    if formula_has_false_clause(f.push(c), m) && !clause_is_false(c, m) {
        let i = choose|i: int|
            0 <= i < f.push(c).len() && clause_is_false(#[trigger] f.push(c)[i], m);
        assert(i < f.len() && f.push(c)[i] == f[i]);
    }
}

/// If the partial assignment falsifies a literal, no total assignment that
/// agrees with it satisfies that literal; if it satisfies one, every agreeing
/// total assignment does too.
proof fn lemma_lit_value_sat(l: LitView, m: Map<Seq<char>, LiteralValue>, a: TotalAssignment)
    requires
        consistent_with(a, m),
    ensures
        lit_value(l, m) == LiteralValue::True ==> sat_lit(l, a),
        lit_value(l, m) == LiteralValue::False ==> !sat_lit(l, a),
{
    if lit_value(l, m) != LiteralValue::Unassigned {
        assert(constrains(m, l.name));
        assert(a(l.name) == (m[l.name] == LiteralValue::True));
    }
}

/// Under a total assignment that agrees with `m`, a clause is satisfied
/// exactly when `m` already made it true or its residual is satisfied.
proof fn lemma_clause_residual_sat(
    c: Seq<LitView>,
    m: Map<Seq<char>, LiteralValue>,
    a: TotalAssignment,
)
    requires
        consistent_with(a, m),
    ensures
        sat_clause(c, a) <==> (clause_has_true_literal(c, m) || sat_clause(
            clause_residual(c, m),
            a,
        )),
    decreases c.len(),
{
    if c.len() == 0 {
        assert(!sat_clause(c, a));
        assert(!clause_has_true_literal(c, m));
        assert(!sat_clause(clause_residual(c, m), a));
    } else {
        let c0 = c.drop_last();
        let l = c.last();
        lemma_clause_residual_sat(c0, m, a);
        lemma_lit_value_sat(l, m, a);
        assert(c =~= c0.push(l));
        lemma_sat_clause_push(c0, l, a);
        lemma_has_true_push(c0, l, m);
        if lit_value(l, m) != LiteralValue::False {
            lemma_sat_clause_push(clause_residual(c0, m), l, a);
        }
    }
}

/// Under a total assignment that agrees with `m`, a formula with a false
/// clause is unsatisfied, and one without is satisfied exactly when its
/// residual is.
proof fn lemma_formula_residual_sat(
    f: Seq<Seq<LitView>>,
    m: Map<Seq<char>, LiteralValue>,
    a: TotalAssignment,
)
    requires
        consistent_with(a, m),
    ensures
        formula_has_false_clause(f, m) ==> !sat_formula(f, a),
        !formula_has_false_clause(f, m) ==> (sat_formula(f, a) <==> sat_formula(
            formula_residual(f, m),
            a,
        )),
    decreases f.len(),
{
    if f.len() == 0 {
    } else {
        let f0 = f.drop_last();
        let c = f.last();
        lemma_formula_residual_sat(f0, m, a);
        lemma_clause_residual_sat(c, m, a);
        assert(f =~= f0.push(c));
        lemma_sat_formula_push(f0, c, a);
        lemma_has_false_push(f0, c, m);
        if !clause_has_true_literal(c, m) {
            lemma_sat_formula_push(formula_residual(f0, m), clause_residual(c, m), a);
        }
    }
}

/// Every literal of a residual clause is over a variable that `m` leaves
/// unconstrained.
proof fn lemma_clause_residual_unconstrained(c: Seq<LitView>, m: Map<Seq<char>, LiteralValue>)
    ensures
        forall|j: int|
            0 <= j < clause_residual(c, m).len() && !clause_has_true_literal(c, m)
                ==> !constrains(m, (#[trigger] clause_residual(c, m)[j]).name),
    decreases c.len(),
{
    if c.len() > 0 {
        let c0 = c.drop_last();
        let l = c.last();
        lemma_clause_residual_unconstrained(c0, m);
        assert(c =~= c0.push(l));
        lemma_has_true_push(c0, l, m);
        let r0 = clause_residual(c0, m);
        assert forall|j: int|
            0 <= j < clause_residual(c, m).len() && !clause_has_true_literal(c, m) implies
            !constrains(m, (#[trigger] clause_residual(c, m)[j]).name) by {
            assert(!clause_has_true_literal(c0, m));
            if lit_value(l, m) == LiteralValue::False {
                assert(clause_residual(c, m)[j] == r0[j]);
            } else if j < r0.len() {
                assert(clause_residual(c, m)[j] == r0[j]);
            } else {
                assert(clause_residual(c, m)[j] == l);
                assert(lit_value(l, m) != LiteralValue::True);
                if constrains(m, l.name) {
                    assert(lit_value(l, m) != LiteralValue::Unassigned);
                }
            }
        }
    }
}

/// Every variable mentioned by the residual formula is left unconstrained by
/// `m`.
proof fn lemma_formula_residual_unconstrained(f: Seq<Seq<LitView>>, m: Map<Seq<char>, LiteralValue>)
    ensures
        forall|name: Seq<char>|
            #[trigger] formula_mentions_var(formula_residual(f, m), name) ==> !constrains(m, name),
    decreases f.len(),
{
    if f.len() > 0 {
        let f0 = f.drop_last();
        let c = f.last();
        lemma_formula_residual_unconstrained(f0, m);
        lemma_clause_residual_unconstrained(c, m);
        let r0 = formula_residual(f0, m);
        let rc = clause_residual(c, m);
        assert forall|name: Seq<char>|
            #[trigger] formula_mentions_var(formula_residual(f, m), name) implies !constrains(
            m,
            name,
        ) by {
            let i = choose|i: int|
                0 <= i < formula_residual(f, m).len() && clause_mentions_var(
                    #[trigger] formula_residual(f, m)[i],
                    name,
                );
            if clause_has_true_literal(c, m) {
                assert(formula_residual(f, m)[i] == r0[i]);
                assert(formula_mentions_var(r0, name));
            } else if i < r0.len() {
                assert(formula_residual(f, m)[i] == r0[i]);
                assert(formula_mentions_var(r0, name));
            } else {
                assert(formula_residual(f, m)[i] == rc);
                let j = choose|j: int| 0 <= j < rc.len() && (#[trigger] rc[j]).name == name;
                assert(!constrains(m, rc[j].name));
            }
        }
    }
}

/// Two total assignments that agree on every variable the formula mentions
/// satisfy it alike.
proof fn lemma_sat_agree(f: Seq<Seq<LitView>>, a1: TotalAssignment, a2: TotalAssignment)
    requires
        forall|name: Seq<char>| #[trigger] formula_mentions_var(f, name) ==> a1(name) == a2(name),
    ensures
        sat_formula(f, a1) == sat_formula(f, a2),
{
    assert forall|i: int| 0 <= i < f.len() implies (sat_clause(#[trigger] f[i], a1) == sat_clause(
        f[i],
        a2,
    )) by {
        if sat_clause(f[i], a1) {
            let j = choose|j: int| 0 <= j < f[i].len() && sat_lit(#[trigger] f[i][j], a1);
            assert(clause_mentions_var(f[i], f[i][j].name));
            assert(formula_mentions_var(f, f[i][j].name));
            assert(sat_lit(f[i][j], a2));
        }
        if sat_clause(f[i], a2) {
            let j = choose|j: int| 0 <= j < f[i].len() && sat_lit(#[trigger] f[i][j], a2);
            assert(clause_mentions_var(f[i], f[i][j].name));
            assert(formula_mentions_var(f, f[i][j].name));
            assert(sat_lit(f[i][j], a1));
        }
    }
    if sat_formula(f, a1) {
        assert(sat_formula(f, a2));
    }
    if sat_formula(f, a2) {
        assert(sat_formula(f, a1));
    }
}

/// The key step of the search: evaluating a formula under `m` preserves its
/// meaning.  A false clause rules out every total assignment agreeing with
/// `m`; otherwise such an assignment exists for the formula exactly when the
/// residual formula is satisfiable at all.
pub proof fn lemma_eval_link(f: Seq<Seq<LitView>>, m: Map<Seq<char>, LiteralValue>)
    ensures
        formula_has_false_clause(f, m) ==> !(exists|a: TotalAssignment|
            consistent_with(a, m) && sat_formula(f, a)),
        !formula_has_false_clause(f, m) ==> ((exists|a: TotalAssignment|
            consistent_with(a, m) && sat_formula(f, a)) <==> satisfiable(formula_residual(f, m))),
{
    if formula_has_false_clause(f, m) {
        assert forall|a: TotalAssignment| consistent_with(a, m) implies !sat_formula(f, a) by {
            lemma_formula_residual_sat(f, m, a);
        }
    } else {
        let g = formula_residual(f, m);
        if exists|a: TotalAssignment| consistent_with(a, m) && sat_formula(f, a) {
            let a = choose|a: TotalAssignment| consistent_with(a, m) && sat_formula(f, a);
            lemma_formula_residual_sat(f, m, a);
            assert(sat_formula(g, a));
            assert(satisfiable(g));
        }
        if satisfiable(g) {
            let a0 = choose|a: TotalAssignment| sat_formula(g, a);
            let a1 = |v: Seq<char>|
                if constrains(m, v) {
                    m[v] == LiteralValue::True
                } else {
                    a0(v)
                };
            assert(consistent_with(a1, m));
            lemma_formula_residual_unconstrained(f, m);
            assert forall|name: Seq<char>| #[trigger] formula_mentions_var(g, name) implies a0(
                name,
            ) == a1(name) by {
                assert(!constrains(m, name));
            }
            lemma_sat_agree(g, a0, a1);
            lemma_formula_residual_sat(f, m, a1);
            assert(consistent_with(a1, m) && sat_formula(f, a1));
        }
    }
}

/// Unit propagation is safe: when a clause of the formula holds the single
/// literal `l`, the formula is satisfiable exactly when it is satisfiable with
/// `l`'s variable fixed to the value that makes `l` true.
pub proof fn lemma_unit_clause(f: Seq<Seq<LitView>>, i: int, l: LitView)
    requires
        0 <= i < f.len(),
        f[i] =~= seq![l],
    ensures
        satisfiable(f) <==> (exists|a: TotalAssignment|
            a(l.name) == l.positive && sat_formula(f, a)),
{
    if satisfiable(f) {
        let a = choose|a: TotalAssignment| sat_formula(f, a);
        assert(sat_clause(f[i], a));
        let j = choose|j: int| 0 <= j < f[i].len() && sat_lit(#[trigger] f[i][j], a);
        assert(f[i][j] == l);
        assert(a(l.name) == l.positive && sat_formula(f, a));
    }
}

/// Branching on a variable is exhaustive: the formula is satisfiable exactly
/// when it is satisfiable with the variable fixed to true or fixed to false.
pub proof fn lemma_branch(f: Seq<Seq<LitView>>, name: Seq<char>)
    ensures
        satisfiable(f) <==> ((exists|a: TotalAssignment| a(name) == true && sat_formula(f, a))
            || (exists|a: TotalAssignment| a(name) == false && sat_formula(f, a))),
{
    if satisfiable(f) {
        let a = choose|a: TotalAssignment| sat_formula(f, a);
        if a(name) {
            assert(a(name) == true && sat_formula(f, a));
        } else {
            assert(a(name) == false && sat_formula(f, a));
        }
    }
}

/// Fixing pure variables never loses a solution: when every variable that `m`
/// constrains occurs in the formula with only the matching polarity, the
/// formula is satisfiable exactly when a total assignment agreeing with `m`
/// satisfies it.
pub proof fn lemma_pure_assignment(f: Seq<Seq<LitView>>, m: Map<Seq<char>, LiteralValue>)
    requires
        forall|v: Seq<char>|
            #[trigger] constrains(m, v) ==> pure_in(f, v, m[v] == LiteralValue::True),
    ensures
        satisfiable(f) <==> (exists|a: TotalAssignment|
            consistent_with(a, m) && sat_formula(f, a)),
{
    if satisfiable(f) {
        let a0 = choose|a: TotalAssignment| sat_formula(f, a);
        let a1 = |v: Seq<char>|
            if constrains(m, v) {
                m[v] == LiteralValue::True
            } else {
                a0(v)
            };
        assert(consistent_with(a1, m));
        assert forall|i: int| 0 <= i < f.len() implies sat_clause(#[trigger] f[i], a1) by {
            let j = choose|j: int| 0 <= j < f[i].len() && sat_lit(#[trigger] f[i][j], a0);
            let l = f[i][j];
            if constrains(m, l.name) {
                assert(pure_in(f, l.name, m[l.name] == LiteralValue::True));
                assert(l.positive == (m[l.name] == LiteralValue::True));
                assert(sat_lit(l, a1));
            } else {
                assert(a1(l.name) == a0(l.name));
                assert(sat_lit(l, a1));
            }
        }
        assert(consistent_with(a1, m) && sat_formula(f, a1));
    }
}

/// The residual of a clause is never longer than the clause.
proof fn lemma_clause_residual_len(c: Seq<LitView>, m: Map<Seq<char>, LiteralValue>)
    ensures
        clause_residual(c, m).len() <= c.len(),
    decreases c.len(),
{
    if c.len() > 0 {
        lemma_clause_residual_len(c.drop_last(), m);
    }
}

/// A clause holding a falsified literal loses it: its residual is strictly
/// shorter.
proof fn lemma_clause_residual_strict(c: Seq<LitView>, m: Map<Seq<char>, LiteralValue>)
    requires
        exists|j: int| 0 <= j < c.len() && lit_value(#[trigger] c[j], m) == LiteralValue::False,
    ensures
        clause_residual(c, m).len() < c.len(),
    decreases c.len(),
{
    let c0 = c.drop_last();
    let l = c.last();
    lemma_clause_residual_len(c0, m);
    if lit_value(l, m) != LiteralValue::False {
        let j = choose|j: int|
            0 <= j < c.len() && lit_value(#[trigger] c[j], m) == LiteralValue::False;
        assert(c0[j] == c[j]);
        lemma_clause_residual_strict(c0, m);
    }
}

/// Evaluation never grows the formula.
proof fn lemma_formula_residual_len(f: Seq<Seq<LitView>>, m: Map<Seq<char>, LiteralValue>)
    ensures
        total_literals(formula_residual(f, m)) <= total_literals(f),
    decreases f.len(),
{
    if f.len() > 0 {
        let f0 = f.drop_last();
        let c = f.last();
        lemma_formula_residual_len(f0, m);
        let r0 = formula_residual(f0, m);
        if !clause_has_true_literal(c, m) {
            lemma_clause_residual_len(c, m);
            assert(formula_residual(f, m) =~= r0.push(clause_residual(c, m)));
            assert(formula_residual(f, m).drop_last() =~= r0);
        }
    }
}

/// Evaluating under an assignment that constrains a variable the formula
/// mentions strictly shrinks the formula: the measure that bounds the depth
/// of the search.
pub proof fn lemma_formula_residual_shrinks(
    f: Seq<Seq<LitView>>,
    m: Map<Seq<char>, LiteralValue>,
    name: Seq<char>,
)
    requires
        formula_mentions_var(f, name),
        constrains(m, name),
    ensures
        total_literals(formula_residual(f, m)) < total_literals(f),
    decreases f.len(),
{
    let f0 = f.drop_last();
    let c = f.last();
    let r0 = formula_residual(f0, m);
    lemma_formula_residual_len(f0, m);
    let i = choose|i: int| 0 <= i < f.len() && clause_mentions_var(#[trigger] f[i], name);
    if i < f.len() - 1 {
        assert(f0[i] == f[i]);
        assert(formula_mentions_var(f0, name));
        lemma_formula_residual_shrinks(f0, m, name);
        if !clause_has_true_literal(c, m) {
            lemma_clause_residual_len(c, m);
            assert(formula_residual(f, m) =~= r0.push(clause_residual(c, m)));
            assert(formula_residual(f, m).drop_last() =~= r0);
        }
    } else {
        assert(c == f[i]);
        assert(c.len() > 0);
        if clause_has_true_literal(c, m) {
            assert(total_literals(f) == total_literals(f0) + c.len());
        } else {
            let j = choose|j: int| 0 <= j < c.len() && (#[trigger] c[j]).name == name;
            assert(lit_value(c[j], m) != LiteralValue::Unassigned);
            assert(lit_value(c[j], m) != LiteralValue::True);
            lemma_clause_residual_strict(c, m);
            assert(formula_residual(f, m) =~= r0.push(clause_residual(c, m)));
            assert(formula_residual(f, m).drop_last() =~= r0);
        }
    }
}

/// Under the empty assignment nothing is decided: no clause is true, and the
/// residual of a clause or a formula is the clause or formula itself.
pub proof fn lemma_residual_empty(c: Seq<LitView>)
    ensures
        !clause_has_true_literal(c, Map::empty()),
        clause_residual(c, Map::empty()) =~= c,
    decreases c.len(),
{
    if c.len() > 0 {
        lemma_residual_empty(c.drop_last());
    }
}

/// Under the empty assignment a formula's residual is the formula itself.
pub proof fn lemma_formula_residual_empty(f: Seq<Seq<LitView>>)
    ensures
        formula_residual(f, Map::empty()) =~~= f,
    decreases f.len(),
{
    if f.len() > 0 {
        lemma_formula_residual_empty(f.drop_last());
        lemma_residual_empty(f.last());
        assert(formula_residual(f, Map::empty()) =~~= formula_residual(
            f.drop_last(),
            Map::empty(),
        ).push(clause_residual(f.last(), Map::empty())));
    }
}

/// Whether the clause already holds the signed literal.
pub open spec fn clause_contains_lit(c: Seq<LitView>, l: LitView) -> bool {
    exists|i: int| 0 <= i < c.len() && #[trigger] c[i] == l
}

/// Whether the clauses come in ascending order of size.
pub open spec fn sorted_by_len(f: Seq<Seq<LitView>>) -> bool {
    forall|i: int, j: int| 0 <= i <= j < f.len() ==> (#[trigger] f[i]).len() <= (#[trigger] f[j]).len()
}

/// Every literal occurrence of the formula, clause by clause, in order.
pub open spec fn all_literals(f: Seq<Seq<LitView>>) -> Seq<LitView>
    decreases f.len(),
{
    if f.len() == 0 {
        Seq::empty()
    } else {
        all_literals(f.drop_last()) + f.last()
    }
}

/// How often a variable occurs in a run of literals, counting both polarities.
pub open spec fn count_occurrences(s: Seq<LitView>, name: Seq<char>) -> nat
    decreases s.len(),
{
    if s.len() == 0 {
        0
    } else {
        count_occurrences(s.drop_last(), name) + (if s.last().name == name {
            1nat
        } else {
            0nat
        })
    }
}

/// Whether the signed literal occurs somewhere in the formula.
pub open spec fn occurs_in(f: Seq<Seq<LitView>>, l: LitView) -> bool {
    exists|i: int, j: int| 0 <= i < f.len() && 0 <= j < f[i].len() && #[trigger] f[i][j] == l
}

/// The literal occurrences of a formula are exactly the literals of its
/// clauses.
pub proof fn lemma_all_literals(f: Seq<Seq<LitView>>)
    ensures
        all_literals(f).len() == total_literals(f),
        forall|k: int|
            0 <= k < all_literals(f).len() ==> occurs_in(f, #[trigger] all_literals(f)[k]),
        forall|i: int, j: int|
            0 <= i < f.len() && 0 <= j < f[i].len() ==> all_literals(f).contains(
                #[trigger] f[i][j],
            ),
    decreases f.len(),
{
    if f.len() > 0 {
        let f0 = f.drop_last();
        let c = f.last();
        lemma_all_literals(f0);
        let t = all_literals(f);
        let t0 = all_literals(f0);
        assert forall|k: int| 0 <= k < t.len() implies occurs_in(f, #[trigger] t[k]) by {
            if k < t0.len() {
                assert(t[k] == t0[k]);
                assert(occurs_in(f0, t0[k]));
                let (i, j) = choose|i: int, j: int|
                    0 <= i < f0.len() && 0 <= j < f0[i].len() && #[trigger] f0[i][j] == t0[k];
                assert(f[i][j] == t[k]);
            } else {
                assert(t[k] == c[k - t0.len()]);
                assert(f[f.len() - 1][k - t0.len()] == t[k]);
            }
        }
        assert forall|i: int, j: int| 0 <= i < f.len() && 0 <= j < f[i].len() implies t.contains(
            #[trigger] f[i][j],
        ) by {
            if i < f.len() - 1 {
                assert(f0[i][j] == f[i][j]);
                assert(t0.contains(f0[i][j]));
                let k = choose|k: int| 0 <= k < t0.len() && t0[k] == f0[i][j];
                assert(t[k] == t0[k]);
                assert(t[k] == f[i][j]);
            } else {
                assert(t[t0.len() + j] == c[j]);
                assert(c[j] == f[i][j]);
                assert(t[t0.len() + j] == f[i][j]);
            }
        }
    }
}

/// A clause with no falsified literal is its own residual.
pub proof fn lemma_residual_no_false(c: Seq<LitView>, m: Map<Seq<char>, LiteralValue>)
    requires
        forall|j: int| 0 <= j < c.len() ==> lit_value(#[trigger] c[j], m) != LiteralValue::False,
    ensures
        clause_residual(c, m) =~= c,
    decreases c.len(),
{
    if c.len() > 0 {
        let c0 = c.drop_last();
        assert(forall|j: int| 0 <= j < c0.len() ==> c0[j] == c[j]);
        lemma_residual_no_false(c0, m);
    }
}

/// Conjunction is order-blind: inserting a clause anywhere conjoins it.
pub proof fn lemma_sat_formula_insert(f: Seq<Seq<LitView>>, c: Seq<LitView>, i: int)
    requires
        0 <= i <= f.len(),
    ensures
        forall|a: TotalAssignment|
            #[trigger] sat_formula(f.insert(i, c), a) <==> (sat_formula(f, a) && sat_clause(c, a)),
{
    let g = f.insert(i, c);
    f.insert_ensures(i, c);
    assert forall|a: TotalAssignment| #[trigger] sat_formula(g, a) <==> (sat_formula(f, a)
        && sat_clause(c, a)) by {
        if sat_formula(g, a) {
            assert(g[i] == c);
            assert forall|j: int| 0 <= j < f.len() implies sat_clause(#[trigger] f[j], a) by {
                if j < i {
                    assert(g[j] == f[j]);
                    assert(sat_clause(g[j], a));
                } else {
                    assert(g[j + 1] == f[j]);
                    assert(sat_clause(g[j + 1], a));
                }
            }
        }
        if sat_formula(f, a) && sat_clause(c, a) {
            assert forall|j: int| 0 <= j < g.len() implies sat_clause(#[trigger] g[j], a) by {
                if j < i {
                    assert(g[j] == f[j]);
                } else if j == i {
                    assert(g[j] == c);
                } else {
                    assert(g[j] == f[j - 1]);
                }
            }
        }
    }
}

/// Simplification keeps clauses literal-sets: the residual of a clause
/// without repeated literals has none either, and its literals all come from
/// the clause.
pub proof fn lemma_clause_residual_nodup(c: Seq<LitView>, m: Map<Seq<char>, LiteralValue>)
    requires
        clause_nodup(c),
    ensures
        clause_nodup(clause_residual(c, m)),
        forall|j: int|
            0 <= j < clause_residual(c, m).len() ==> exists|i: int|
                0 <= i < c.len() && #[trigger] clause_residual(c, m)[j] == c[i],
    decreases c.len(),
{
    if c.len() > 0 {
        let c0 = c.drop_last();
        let l = c.last();
        assert(clause_nodup(c0)) by {
            assert(forall|i: int| 0 <= i < c0.len() ==> c0[i] == c[i]);
        }
        lemma_clause_residual_nodup(c0, m);
        let r0 = clause_residual(c0, m);
        let r = clause_residual(c, m);
        assert forall|j: int| 0 <= j < r.len() implies exists|i: int|
            0 <= i < c.len() && #[trigger] r[j] == c[i] by {
            if j < r0.len() {
                assert(r[j] == r0[j]);
                let i = choose|i: int| 0 <= i < c0.len() && #[trigger] r0[j] == c0[i];
                assert(r[j] == c[i]);
            } else {
                assert(r[j] == l);
                assert(r[j] == c[c.len() - 1]);
            }
        }
        if lit_value(l, m) != LiteralValue::False {
            assert forall|i: int, j: int| 0 <= i < j < r.len() implies #[trigger] r[i]
                != #[trigger] r[j] by {
                if j < r0.len() {
                    assert(r[i] == r0[i] && r[j] == r0[j]);
                } else {
                    assert(r[j] == l);
                    assert(r[i] == r0[i]);
                    let i0 = choose|i0: int| 0 <= i0 < c0.len() && #[trigger] r0[i] == c0[i0];
                    assert(c0[i0] == c[i0] && l == c[c.len() - 1]);
                    assert(c[i0] != c[c.len() - 1]);
                }
            }
        }
    }
}

/// Simplification keeps the formula well formed.
pub proof fn lemma_formula_residual_wf(f: Seq<Seq<LitView>>, m: Map<Seq<char>, LiteralValue>)
    requires
        formula_wf(f),
    ensures
        formula_wf(formula_residual(f, m)),
    decreases f.len(),
{
    if f.len() > 0 {
        let f0 = f.drop_last();
        let c = f.last();
        assert(formula_wf(f0)) by {
            assert(forall|i: int| 0 <= i < f0.len() ==> f0[i] == f[i]);
        }
        lemma_formula_residual_wf(f0, m);
        if !clause_has_true_literal(c, m) {
            assert(clause_nodup(c)) by {
                assert(c == f[f.len() - 1]);
            }
            lemma_clause_residual_nodup(c, m);
            let r0 = formula_residual(f0, m);
            let r = formula_residual(f, m);
            assert forall|i: int| 0 <= i < r.len() implies clause_nodup(#[trigger] r[i]) by {
                if i < r0.len() {
                    assert(r[i] == r0[i]);
                } else {
                    assert(r[i] == clause_residual(c, m));
                }
            }
        }
    }
}

/// Two engines that each return `SAT` exactly on satisfiable formulas return
/// the identical verdict on any one formula, whatever their search order or
/// scheduling.
pub proof fn lemma_engine_agreement(f: Seq<Seq<LitView>>, r1: Satisfiability, r2: Satisfiability)
    requires
        (r1 == Satisfiability::SAT) <==> satisfiable(f),
        (r2 == Satisfiability::SAT) <==> satisfiable(f),
    ensures
        r1 == r2,
{
}

/// Whether `m2` extends `m1`: every variable `m1` gives a truth value keeps
/// it under `m2`.
pub open spec fn extends(m2: Map<Seq<char>, LiteralValue>, m1: Map<Seq<char>, LiteralValue>) -> bool {
    forall|v: Seq<char>|
        #[trigger] constrains(m1, v) ==> m2.contains_key(v) && m2[v] == m1[v]
}

/// A decided literal keeps its value under any extension of the assignment.
proof fn lemma_lit_value_monotone(l: LitView, m1: Map<Seq<char>, LiteralValue>, m2: Map<Seq<char>, LiteralValue>)
    requires
        extends(m2, m1),
        lit_value(l, m1) != LiteralValue::Unassigned,
    ensures
        lit_value(l, m2) == lit_value(l, m1),
{
    assert(constrains(m1, l.name));
}

/// A clause's residual is empty exactly when every literal is falsified.
proof fn lemma_clause_residual_empty(c: Seq<LitView>, m: Map<Seq<char>, LiteralValue>)
    ensures
        clause_residual(c, m).len() == 0 <==> (forall|j: int|
            0 <= j < c.len() ==> lit_value(#[trigger] c[j], m) == LiteralValue::False),
    decreases c.len(),
{
    if c.len() > 0 {
        let c0 = c.drop_last();
        lemma_clause_residual_empty(c0, m);
        assert(forall|j: int| 0 <= j < c0.len() ==> c0[j] == c[j]);
        assert(c.last() == c[c.len() - 1]);
    }
}

/// A formula's residual is empty exactly when every clause is already true.
proof fn lemma_formula_residual_empty_iff(f: Seq<Seq<LitView>>, m: Map<Seq<char>, LiteralValue>)
    ensures
        formula_residual(f, m).len() == 0 <==> (forall|i: int|
            0 <= i < f.len() ==> clause_has_true_literal(#[trigger] f[i], m)),
    decreases f.len(),
{
    if f.len() > 0 {
        let f0 = f.drop_last();
        lemma_formula_residual_empty_iff(f0, m);
        assert(forall|i: int| 0 <= i < f0.len() ==> f0[i] == f[i]);
        assert(f.last() == f[f.len() - 1]);
    }
}

/// Evaluation is monotone on clauses: a clause already true under an
/// assignment is still true under any extension of it, and one already false
/// stays false.
pub proof fn lemma_clause_evaluation_monotone(
    c: Seq<LitView>,
    m1: Map<Seq<char>, LiteralValue>,
    m2: Map<Seq<char>, LiteralValue>,
)
    requires
        extends(m2, m1),
    ensures
        clause_has_true_literal(c, m1) ==> clause_has_true_literal(c, m2),
        clause_is_false(c, m1) ==> clause_is_false(c, m2),
{
    if clause_has_true_literal(c, m1) {
        let i = choose|i: int|
            0 <= i < c.len() && lit_value(#[trigger] c[i], m1) == LiteralValue::True;
        lemma_lit_value_monotone(c[i], m1, m2);
    }
    if clause_is_false(c, m1) {
        lemma_clause_residual_empty(c, m1);
        lemma_clause_residual_empty(c, m2);
        assert forall|j: int| 0 <= j < c.len() implies lit_value(#[trigger] c[j], m2)
            == LiteralValue::False by {
            lemma_lit_value_monotone(c[j], m1, m2);
        }
        if clause_has_true_literal(c, m2) {
            let i = choose|i: int|
                0 <= i < c.len() && lit_value(#[trigger] c[i], m2) == LiteralValue::True;
        }
    }
}

/// Evaluation is monotone on formulas: a formula already satisfied under an
/// assignment is still satisfied under any extension of it, and one already
/// unsatisfiable together with the assignment stays so.
pub proof fn lemma_formula_evaluation_monotone(
    f: Seq<Seq<LitView>>,
    m1: Map<Seq<char>, LiteralValue>,
    m2: Map<Seq<char>, LiteralValue>,
)
    requires
        extends(m2, m1),
    ensures
        formula_residual(f, m1).len() == 0 ==> formula_residual(f, m2).len() == 0,
        formula_has_false_clause(f, m1) ==> formula_has_false_clause(f, m2),
{
    if formula_residual(f, m1).len() == 0 {
        lemma_formula_residual_empty_iff(f, m1);
        lemma_formula_residual_empty_iff(f, m2);
        assert forall|i: int| 0 <= i < f.len() implies clause_has_true_literal(
            #[trigger] f[i],
            m2,
        ) by {
            lemma_clause_evaluation_monotone(f[i], m1, m2);
        }
    }
    if formula_has_false_clause(f, m1) {
        let i = choose|i: int| 0 <= i < f.len() && clause_is_false(#[trigger] f[i], m1);
        lemma_clause_evaluation_monotone(f[i], m1, m2);
    }
}

/// The residual of every not-yet-true clause stands in the residual formula.
proof fn lemma_formula_residual_member(
    f: Seq<Seq<LitView>>,
    m: Map<Seq<char>, LiteralValue>,
    i: int,
)
    requires
        0 <= i < f.len(),
        !clause_has_true_literal(f[i], m),
    ensures
        exists|k: int|
            0 <= k < formula_residual(f, m).len() && #[trigger] formula_residual(f, m)[k]
                == clause_residual(f[i], m),
    decreases f.len(),
{
    let f0 = f.drop_last();
    let r0 = formula_residual(f0, m);
    let r = formula_residual(f, m);
    if i < f.len() - 1 {
        assert(f0[i] == f[i]);
        lemma_formula_residual_member(f0, m, i);
        let k = choose|k: int| 0 <= k < r0.len() && #[trigger] r0[k] == clause_residual(f0[i], m);
        if clause_has_true_literal(f.last(), m) {
            assert(r[k] == r0[k]);
        } else {
            assert(r[k] == r0[k]);
        }
    } else {
        assert(f[i] == f.last());
        assert(r[r0.len() as int] == clause_residual(f[i], m));
    }
}

/// Pure-literal elimination is sound: fixing a variable that occurs with one
/// polarity only to the value that satisfies that polarity, and simplifying,
/// leaves the formula satisfiable exactly when it was before.
pub proof fn lemma_pure_literal_elimination(f: Seq<Seq<LitView>>, name: Seq<char>, positive: bool)
    requires
        pure_in(f, name, positive),
    ensures
        satisfiable(f) <==> satisfiable(
            formula_residual(
                f,
                Map::empty().insert(
                    name,
                    if positive {
                        LiteralValue::True
                    } else {
                        LiteralValue::False
                    },
                ),
            ),
        ),
{
    let value = if positive {
        LiteralValue::True
    } else {
        LiteralValue::False
    };
    let m = Map::<Seq<char>, LiteralValue>::empty().insert(name, value);
    assert forall|v: Seq<char>| #[trigger] constrains(m, v) implies pure_in(
        f,
        v,
        m[v] == LiteralValue::True,
    ) by {
        assert(v == name);
    }
    lemma_pure_assignment(f, m);
    lemma_eval_link(f, m);
    if formula_has_false_clause(f, m) {
        // The false clause can only be empty: each of its literals would have
        // to be falsified by `m`, which binds the pure variable to the value
        // that satisfies its only polarity.
        let i = choose|i: int| 0 <= i < f.len() && clause_is_false(#[trigger] f[i], m);
        lemma_clause_residual_empty(f[i], m);
        assert(f[i].len() == 0) by {
            if f[i].len() > 0 {
                assert(lit_value(f[i][0], m) == LiteralValue::False);
                assert(constrains(m, f[i][0].name));
                assert(f[i][0].name == name);
                assert(f[i][0].positive == positive);
            }
        }
        lemma_formula_residual_member(f, m, i);
        let k = choose|k: int|
            0 <= k < formula_residual(f, m).len() && #[trigger] formula_residual(f, m)[k]
                == clause_residual(f[i], m);
        assert forall|a: TotalAssignment| !sat_formula(formula_residual(f, m), a) by {
            assert(clause_residual(f[i], m).len() == 0);
            assert(!sat_clause(formula_residual(f, m)[k], a));
        }
    }
}

} // verus!
