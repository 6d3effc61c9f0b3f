//! The literal / clause / formula model and its simplification semantics.

use std::sync::Arc;
use vstd::prelude::*;

use crate::semantics::LitView;
use crate::semantics::all_literals;
use crate::semantics::clause_contains_lit;
use crate::semantics::clause_has_true_literal;
use crate::semantics::clause_is_false;
use crate::semantics::clause_mentions_var;
use crate::semantics::clause_nodup;
use crate::semantics::clause_residual;
use crate::semantics::count_occurrences;
use crate::semantics::formula_has_false_clause;
use crate::semantics::formula_residual;
use crate::semantics::formula_wf;
use crate::semantics::lemma_all_literals;
use crate::semantics::lemma_clause_residual_nodup;
use crate::semantics::lemma_residual_no_false;
use crate::semantics::lit_value;
use crate::semantics::negate_value;
use crate::semantics::occurs_in;
use crate::semantics::pure_in;

verus! {

/// The three-valued truth domain of literals under a partial assignment.
#[derive(Debug, PartialEq, Eq, Structural, Clone, Copy)]
pub enum LiteralValue {
    True,
    False,
    Unassigned,
}

impl LiteralValue {
    /// Negation on the three-valued domain: `True` and `False` swap,
    /// `Unassigned` stays.
    pub fn negate(&self) -> (r: LiteralValue)
        ensures
            r == negate_value(*self),
    {
        match self {
            LiteralValue::True => LiteralValue::False,
            LiteralValue::False => LiteralValue::True,
            LiteralValue::Unassigned => LiteralValue::Unassigned,
        }
    }
}

/// A propositional variable, identified by its name.  Many structures hold
/// shared references to the same variable identity rather than copies.
#[derive(Debug, PartialEq, Eq, Hash)]
pub struct Literal(String);

impl View for Literal {
    type V = Seq<char>;

    closed spec fn view(&self) -> Seq<char> {
        self.0@
    }
}

impl Literal {
    /// Creates a shared handle on a fresh variable with the given name.
    pub fn new(name: String) -> (r: RefLiteral)
        ensures
            r@ == name@,
    {
        RefLiteral::new(name)
    }
}

/// A shared, reference-counted handle on a variable.
#[derive(Debug, PartialEq, Eq, Hash)]
pub struct RefLiteral(Arc<Literal>);

impl View for RefLiteral {
    type V = Seq<char>;

    closed spec fn view(&self) -> Seq<char> {
        self.0@
    }
}

impl Clone for RefLiteral {
    fn clone(&self) -> (r: Self)
        ensures
            r@ == self@,
    {
        RefLiteral(self.0.clone())
    }
}

impl RefLiteral {
    /// Creates a shared handle on a fresh variable with the given name.
    pub fn new(name: String) -> (r: RefLiteral)
        ensures
            r@ == name@,
    {
        RefLiteral(Arc::new(Literal(name)))
    }

    /// The positive occurrence of this variable.
    pub fn identity(&self) -> (r: SignedLiteral)
        ensures
            r@ == (LitView { positive: true, name: self@ }),
    {
        SignedLiteral::Id(self.clone())
    }

    /// The negated occurrence of this variable.
    pub fn not(&self) -> (r: SignedLiteral)
        ensures
            r@ == (LitView { positive: false, name: self@ }),
    {
        SignedLiteral::Not(self.clone())
    }

    /// Whether two handles denote the same variable.
    pub fn same_variable(&self, other: &RefLiteral) -> (r: bool)
        ensures
            r == (self@ == other@),
    {
        self.0.0 == other.0.0
    }
}

/// A variable tagged with a polarity: positive (`Id`) or negated (`Not`).
#[derive(Debug, PartialEq, Eq, Hash)]
pub enum SignedLiteral {
    Id(RefLiteral),
    Not(RefLiteral),
}

impl View for SignedLiteral {
    type V = LitView;

    open spec fn view(&self) -> LitView {
        match self {
            SignedLiteral::Id(l) => LitView { positive: true, name: l@ },
            SignedLiteral::Not(l) => LitView { positive: false, name: l@ },
        }
    }
}

impl Clone for SignedLiteral {
    fn clone(&self) -> (r: Self)
        ensures
            r@ == self@,
    {
        match self {
            SignedLiteral::Id(l) => SignedLiteral::Id(l.clone()),
            SignedLiteral::Not(l) => SignedLiteral::Not(l.clone()),
        }
    }
}

impl SignedLiteral {
    /// The variable under the literal, without its polarity.
    pub fn literal(&self) -> (r: RefLiteral)
        ensures
            r@ == self@.name,
    {
        match self {
            SignedLiteral::Id(l) => l.clone(),
            SignedLiteral::Not(l) => l.clone(),
        }
    }

    /// The literal of opposite polarity over the same variable.
    pub fn complement(&self) -> (r: SignedLiteral)
        ensures
            r@.name == self@.name,
            r@.positive == !self@.positive,
    {
        match self {
            SignedLiteral::Id(l) => l.not(),
            SignedLiteral::Not(l) => l.identity(),
        }
    }

    /// Whether two signed literals are the same: same variable, same polarity.
    pub fn same_literal(&self, other: &SignedLiteral) -> (r: bool)
        ensures
            r == (self@ == other@),
    {
        match (self, other) {
            (SignedLiteral::Id(a), SignedLiteral::Id(b)) => a.same_variable(b),
            (SignedLiteral::Not(a), SignedLiteral::Not(b)) => a.same_variable(b),
            _ => false,
        }
    }

    /// The three-valued value of this literal: the variable's assigned value
    /// (default `Unassigned`), inverted when the literal is negated.
    pub fn evaluate(&self, assignments: &Assignments) -> (r: LiteralValue)
        ensures
            r == lit_value(self@, assignments@),
    {
        let value = assignments.value_of(&self.literal());
        match self {
            SignedLiteral::Id(_) => value,
            SignedLiteral::Not(_) => value.negate(),
        }
    }
}

/// The partial assignment a sequence of variable/value entries denotes: later
/// entries override earlier ones, as repeated insertion into a map would.
pub open spec fn map_of(s: Seq<(RefLiteral, LiteralValue)>) -> Map<Seq<char>, LiteralValue>
    decreases s.len(),
{
    if s.len() == 0 {
        Map::empty()
    } else {
        map_of(s.drop_last()).insert(s.last().0@, s.last().1)
    }
}

/// No two entries bind the same variable.
pub open spec fn distinct_keys(s: Seq<(RefLiteral, LiteralValue)>) -> bool {
    forall|i: int, j: int| 0 <= i < j < s.len() ==> (#[trigger] s[i]).0@ != (#[trigger] s[j]).0@
}

/// A partial mapping from variables to truth values; a variable without an
/// entry counts as `Unassigned`, which is never stored.
#[derive(Debug, PartialEq)]
pub struct Assignments(Vec<(RefLiteral, LiteralValue)>);

impl View for Assignments {
    type V = Map<Seq<char>, LiteralValue>;

    closed spec fn view(&self) -> Map<Seq<char>, LiteralValue> {
        map_of(self.0@)
    }
}

impl Assignments {
    #[verifier::type_invariant]
    spec fn inv(self) -> bool {
        distinct_keys(self.0@)
    }

    /// With distinct keys, the denoted map holds exactly the entries of the
    /// sequence, and its domain has one variable per entry.
    proof fn lemma_map_of_entries(s: Seq<(RefLiteral, LiteralValue)>)
        requires
            distinct_keys(s),
        ensures
            forall|i: int|
                0 <= i < s.len() ==> map_of(s).contains_key((#[trigger] s[i]).0@) && map_of(
                    s,
                )[s[i].0@] == s[i].1,
            forall|k: Seq<char>|
                map_of(s).contains_key(k) ==> exists|i: int| 0 <= i < s.len() && (#[trigger] s[i]).0@
                    == k,
            map_of(s).dom().finite(),
            map_of(s).dom().len() == s.len(),
        decreases s.len(),
    {
        if s.len() > 0 {
            let s0 = s.drop_last();
            assert(distinct_keys(s0)) by {
                assert(forall|i: int| 0 <= i < s0.len() ==> s0[i] == s[i]);
            }
            Self::lemma_map_of_entries(s0);
            let k = s.last().0@;
            assert(!map_of(s0).contains_key(k));
            assert(map_of(s).dom() =~= map_of(s0).dom().insert(k));
            assert forall|i: int| 0 <= i < s.len() implies map_of(s).contains_key(
                (#[trigger] s[i]).0@,
            ) && map_of(s)[s[i].0@] == s[i].1 by {
                if i < s.len() - 1 {
                    assert(s0[i] == s[i]);
                    assert(s[i].0@ != k);
                }
            }
        }
    }

    /// Creates an empty assignment.
    pub fn new() -> (r: Assignments)
        ensures
            r@ == Map::<Seq<char>, LiteralValue>::empty(),
    {
        Assignments(Vec::new())
    }

    /// Binds the variable to the value, replacing any earlier binding.
    pub fn assign(&mut self, literal: RefLiteral, value: LiteralValue)
        ensures
            final(self)@ == old(self)@.insert(literal@, value),
    {
        proof {
            use_type_invariant(&*self);
        }
        let mut v: Vec<(RefLiteral, LiteralValue)> = Vec::new();
        core::mem::swap(&mut self.0, &mut v);
        let ghost s = v@;
        let n = v.len();
        let mut i: usize = 0;
        while i < n
            invariant
                n == v.len(),
                0 <= i <= n,
                v@ == s,
                distinct_keys(s),
                map_of(s) == old(self)@,
                forall|j: int| 0 <= j < i ==> (#[trigger] s[j]).0@ != literal@,
            decreases n - i,
        {
            if v[i].0.same_variable(&literal) {
                v.remove(i);
                v.push((literal, value));
                proof {
                    assert(v@.drop_last() =~= s.remove(i as int));
                    assert(distinct_keys(s.remove(i as int))) by {
                        assert(forall|j: int|
                            0 <= j < s.len() - 1 ==> #[trigger] s.remove(i as int)[j] == (
                            if j < i {
                                s[j]
                            } else {
                                s[j + 1]
                            }));
                    }
                    assert(distinct_keys(v@)) by {
                        assert(forall|j: int|
                            0 <= j < s.len() - 1 ==> (#[trigger] v@[j]).0@ != literal@);
                    }
                    Self::lemma_map_remove(s, i as int);
                    assert(map_of(v@) =~= old(self)@.insert(literal@, value));
                }
                self.0 = v;
                return ;
            }
            i += 1;
        }
        v.push((literal, value));
        proof {
            assert(v@.drop_last() =~= s);
            assert(distinct_keys(v@)) by {
                assert(forall|j: int| 0 <= j < s.len() ==> v@[j] == s[j]);
                assert(v@[s.len() as int].0@ == literal@);
            }
        }
        self.0 = v;
    }

    /// Removing the entry for a key and inserting a new value for it is the
    /// map's insertion.
    proof fn lemma_map_remove(s: Seq<(RefLiteral, LiteralValue)>, i: int)
        requires
            distinct_keys(s),
            0 <= i < s.len(),
        ensures
            forall|v: LiteralValue, l: RefLiteral|
                l@ == s[i].0@ ==> map_of(s.remove(i).push((l, v))) =~= map_of(s).insert(l@, v),
        decreases s.len(),
    {
        let k = s[i].0@;
        Self::lemma_map_of_entries(s);
        assert forall|v: LiteralValue, l: RefLiteral| l@ == s[i].0@ implies map_of(
            s.remove(i).push((l, v)),
        ) =~= map_of(s).insert(l@, v) by {
            let t = s.remove(i).push((l, v));
            assert(t.drop_last() =~= s.remove(i));
            assert(distinct_keys(s.remove(i))) by {
                assert(forall|j: int|
                    0 <= j < s.len() - 1 ==> #[trigger] s.remove(i)[j] == (
                    if j < i {
                        s[j]
                    } else {
                        s[j + 1]
                    }));
            }
            Self::lemma_map_of_entries(s.remove(i));
            assert(map_of(t) == map_of(s.remove(i)).insert(k, v));
            Self::lemma_map_of_remove_entry(s, i);
        }
    }

    /// Dropping an entry removes exactly its variable from the denoted map.
    proof fn lemma_map_of_remove_entry(s: Seq<(RefLiteral, LiteralValue)>, i: int)
        requires
            distinct_keys(s),
            0 <= i < s.len(),
        ensures
            map_of(s.remove(i)) =~= map_of(s).remove(s[i].0@),
        decreases s.len(),
    {
        let k = s[i].0@;
        if i == s.len() - 1 {
            assert(s.remove(i) =~= s.drop_last());
            Self::lemma_map_of_entries(s.drop_last());
            assert(!map_of(s.drop_last()).contains_key(k)) by {
                assert(distinct_keys(s.drop_last())) by {
                    assert(forall|j: int| 0 <= j < s.len() - 1 ==> s.drop_last()[j] == s[j]);
                }
                if map_of(s.drop_last()).contains_key(k) {
                    let j = choose|j: int|
                        0 <= j < s.drop_last().len() && (#[trigger] s.drop_last()[j]).0@ == k;
                    assert(s[j].0@ == s[i].0@);
                }
            }
            assert(map_of(s.remove(i)) =~= map_of(s).remove(k));
        } else {
            let s0 = s.drop_last();
            assert(distinct_keys(s0)) by {
                assert(forall|j: int| 0 <= j < s0.len() ==> s0[j] == s[j]);
            }
            Self::lemma_map_of_remove_entry(s0, i);
            assert(s.remove(i).drop_last() =~= s0.remove(i));
            assert(s.remove(i).last() == s.last());
            assert(map_of(s.remove(i)) == map_of(s0.remove(i)).insert(s.last().0@, s.last().1));
            assert(s.last().0@ != k);
            assert(map_of(s0).remove(k).insert(s.last().0@, s.last().1) =~= map_of(s0).insert(
                s.last().0@,
                s.last().1,
            ).remove(k));
        }
    }

    /// The value bound to the variable, or `Unassigned` when none is.
    pub fn value_of(&self, literal: &RefLiteral) -> (r: LiteralValue)
        ensures
            r == (if self@.contains_key(literal@) {
                self@[literal@]
            } else {
                LiteralValue::Unassigned
            }),
    {
        proof {
            use_type_invariant(self);
            Self::lemma_map_of_entries(self.0@);
        }
        let n = self.0.len();
        let mut i: usize = 0;
        while i < n
            invariant
                n == self.0.len(),
                0 <= i <= n,
                forall|j: int| 0 <= j < i ==> (#[trigger] self.0@[j]).0@ != literal@,
                distinct_keys(self.0@),
                map_of(self.0@) == self@,
            decreases n - i,
        {
            if self.0[i].0.same_variable(literal) {
                proof {
                    Self::lemma_map_of_entries(self.0@);
                }
                return self.0[i].1;
            }
            i += 1;
        }
        proof {
            Self::lemma_map_of_entries(self.0@);
            if self@.contains_key(literal@) {
                let j = choose|j: int|
                    0 <= j < self.0@.len() && (#[trigger] self.0@[j]).0@ == literal@;
            }
        }
        LiteralValue::Unassigned
    }

    /// The bindings, as variable/value pairs with pairwise distinct variables.
    pub fn iter(&self) -> (r: Vec<(RefLiteral, LiteralValue)>)
        ensures
            r@.len() == self@.dom().len(),
            forall|i: int|
                0 <= i < r@.len() ==> self@.contains_key((#[trigger] r@[i]).0@) && self@[r@[i].0@]
                    == r@[i].1,
            distinct_keys(r@),
    {
        proof {
            use_type_invariant(self);
            Self::lemma_map_of_entries(self.0@);
        }
        let n = self.0.len();
        let mut out: Vec<(RefLiteral, LiteralValue)> = Vec::new();
        let mut i: usize = 0;
        while i < n
            invariant
                n == self.0.len(),
                0 <= i <= n,
                out@.len() == i,
                forall|j: int|
                    0 <= j < i ==> (#[trigger] out@[j]).0@ == self.0@[j].0@ && out@[j].1
                        == self.0@[j].1,
            decreases n - i,
        {
            let pair = (self.0[i].0.clone(), self.0[i].1);
            out.push(pair);
            i += 1;
        }
        proof {
            Self::lemma_map_of_entries(self.0@);
        }
        out
    }

    /// The number of bound variables.
    pub fn len(&self) -> (r: usize)
        ensures
            r == self@.dom().len(),
    {
        proof {
            use_type_invariant(self);
            Self::lemma_map_of_entries(self.0@);
        }
        self.0.len()
    }

    /// Whether no variable is bound.
    pub fn is_empty(&self) -> (r: bool)
        ensures
            r == (self@ == Map::<Seq<char>, LiteralValue>::empty()),
    {
        proof {
            use_type_invariant(self);
            Self::lemma_map_of_entries(self.0@);
            if self.0@.len() > 0 {
                assert(self@.contains_key(self.0@[0].0@));
                assert(self@ != Map::<Seq<char>, LiteralValue>::empty());
            } else {
                assert(self.0@ =~= Seq::<(RefLiteral, LiteralValue)>::empty());
            }
        }
        self.0.is_empty()
    }
}

/// The literal views of a run of signed literals, in order.
pub open spec fn views_of(s: Seq<SignedLiteral>) -> Seq<LitView> {
    s.map_values(|l: SignedLiteral| l@)
}

/// `views_of` is the pointwise view.
pub proof fn lemma_views_of(s: Seq<SignedLiteral>)
    ensures
        views_of(s).len() == s.len(),
        forall|i: int| 0 <= i < s.len() ==> #[trigger] views_of(s)[i] == s[i]@,
{
}

/// A set of signed literals, read as their disjunction.  Literal order and
/// repetition carry no meaning; the builder collapses repeated literals.
#[derive(Debug, PartialEq)]
pub struct Clause {
    literals: Vec<SignedLiteral>,
}

impl View for Clause {
    type V = Seq<LitView>;

    closed spec fn view(&self) -> Seq<LitView> {
        views_of(self.literals@)
    }
}

impl Clause {
    #[verifier::type_invariant]
    spec fn inv(self) -> bool {
        clause_nodup(self@)
    }

    /// Creates a shared handle on an empty clause.
    pub fn new() -> (r: ClauseRef)
        ensures
            r@ == Seq::<LitView>::empty(),
    {
        ClauseRef::new()
    }
}

/// What evaluating a clause under a partial assignment yields: already true,
/// already false, or a residual clause of the not-yet-falsified literals.
#[derive(Debug, PartialEq)]
pub enum ClauseValue {
    True,
    False,
    Clause(ClauseRef),
}

impl ClauseValue {
    /// Whether the clause came out true.
    pub fn is_true(&self) -> (r: bool)
        ensures
            r == (self is True),
    {
        match self {
            ClauseValue::True => true,
            _ => false,
        }
    }

    /// Whether the clause came out false.
    pub fn is_false(&self) -> (r: bool)
        ensures
            r == (self is False),
    {
        match self {
            ClauseValue::False => true,
            _ => false,
        }
    }

    /// Whether the clause is still undecided.
    pub fn is_clause(&self) -> (r: bool)
        ensures
            r == (self is Clause),
    {
        match self {
            ClauseValue::Clause(_) => true,
            _ => false,
        }
    }
}

/// A shared, reference-counted handle on a clause.  Simplification returns
/// the same handle whenever no literal was dropped, so search branches share
/// untouched clauses.
#[derive(Debug, PartialEq)]
pub struct ClauseRef(Arc<Clause>);

impl View for ClauseRef {
    type V = Seq<LitView>;

    closed spec fn view(&self) -> Seq<LitView> {
        self.0@
    }
}

impl Clone for ClauseRef {
    fn clone(&self) -> (r: Self)
        ensures
            r@ == self@,
    {
        proof {
            use_type_invariant(self);
        }
        ClauseRef(self.0.clone())
    }
}

impl ClauseRef {
    #[verifier::type_invariant]
    spec fn inv(self) -> bool {
        clause_nodup(self@)
    }

    /// Creates a shared handle on an empty clause.
    pub fn new() -> (r: ClauseRef)
        ensures
            r@ == Seq::<LitView>::empty(),
    {
        let c = Clause { literals: Vec::new() };
        proof {
            assert(c@ =~= Seq::<LitView>::empty());
        }
        ClauseRef(Arc::new(c))
    }

    /// The clause's literals.
    pub fn signed_literal(&self) -> (r: &Vec<SignedLiteral>)
        ensures
            views_of(r@) == self@,
    {
        &self.0.literals
    }

    /// The number of literals.
    fn size(&self) -> (r: usize)
        ensures
            r == self@.len(),
    {
        self.0.literals.len()
    }

    /// Evaluates the clause under the assignment.  The clause is true as soon
    /// as one literal is true; false when every literal is false; otherwise
    /// it reduces to the residual clause of not-yet-falsified literals, and
    /// the very same handle is returned when nothing was dropped.
    pub fn evaluate(self, assignments: &Assignments) -> (r: ClauseValue)
        ensures
            (r is True) <==> clause_has_true_literal(self@, assignments@),
            (r is False) <==> clause_is_false(self@, assignments@),
            r matches ClauseValue::Clause(c) ==> c@ == clause_residual(self@, assignments@)
                && c@.len() > 0,
    {
        proof {
            use_type_invariant(&self);
        }
        let ghost cv = self@;
        let ghost m = assignments@;
        let lits = &self.0.literals;
        let n = lits.len();
        let mut kept: Vec<SignedLiteral> = Vec::new();
        let mut any_false = false;
        let mut i: usize = 0;
        while i < n
            invariant
                n == lits.len(),
                0 <= i <= n,
                cv == views_of(lits@),
                cv == self@,
                m == assignments@,
                n == cv.len(),
                !clause_has_true_literal(cv.subrange(0, i as int), m),
                views_of(kept@) =~= clause_residual(cv.subrange(0, i as int), m),
                any_false <==> exists|j: int|
                    0 <= j < i && lit_value(#[trigger] cv[j], m) == LiteralValue::False,
            decreases n - i,
        {
            let ghost prefix = cv.subrange(0, i as int);
            let ghost prefix1 = cv.subrange(0, i as int + 1);
            proof {
                assert(prefix1.drop_last() =~= prefix);
                assert(prefix1.last() == cv[i as int]);
                lemma_views_of(lits@);
                assert(cv[i as int] == lits@[i as int]@);
            }
            let lv = lits[i].evaluate(assignments);
            proof {
                assert(lv == lit_value(cv[i as int], m));
            }
            match lv {
                LiteralValue::True => {
                    proof {
                        assert(lit_value(cv[i as int], m) == LiteralValue::True);
                        assert(clause_has_true_literal(cv, m));
                    }
                    return ClauseValue::True;
                },
                LiteralValue::False => {
                    any_false = true;
                },
                LiteralValue::Unassigned => {
                    let ghost kept0 = kept@;
                    kept.push(lits[i].clone());
                    proof {
                        lemma_views_of(kept0);
                        lemma_views_of(kept@);
                        assert(views_of(kept@) =~= views_of(kept0).push(cv[i as int]));
                    }
                },
            }
            i += 1;
            proof {
                if clause_has_true_literal(cv.subrange(0, i as int), m) {
                    let j = choose|j: int|
                        0 <= j < prefix1.len() && lit_value(#[trigger] prefix1[j], m)
                            == LiteralValue::True;
                    assert(prefix1[j] == if j < prefix.len() {
                        prefix[j]
                    } else {
                        cv[i - 1]
                    });
                }
            }
        }
        proof {
            assert(cv.subrange(0, n as int) =~= cv);
        }
        if kept.is_empty() {
            proof {
                assert(clause_residual(cv, m) =~= Seq::<LitView>::empty());
            }
            ClauseValue::False
        } else if !any_false {
            proof {
                lemma_residual_no_false(cv, m);
                assert(self@ == clause_residual(cv, m));
            }
            ClauseValue::Clause(self)
        } else {
            proof {
                lemma_clause_residual_nodup(cv, m);
            }
            let c = Clause { literals: kept };
            proof {
                assert(c@ =~= clause_residual(cv, m));
            }
            ClauseValue::Clause(ClauseRef(Arc::new(c)))
        }
    }

    /// The sole literal of a one-literal clause, which any satisfying
    /// assignment must make true; `None` for any other size.
    pub fn is_unit_clause(&self) -> (r: Option<SignedLiteral>)
        ensures
            (r is Some) <==> self@.len() == 1,
            r matches Some(l) ==> l@ == self@[0],
    {
        if self.0.literals.len() == 1 {
            Some(self.0.literals[0].clone())
        } else {
            None
        }
    }
}

/// Assembles a clause one literal at a time, collapsing repeats.
#[derive(Debug)]
pub struct ClauseBuilder {
    clause: Clause,
}

impl View for ClauseBuilder {
    type V = Seq<LitView>;

    closed spec fn view(&self) -> Seq<LitView> {
        self.clause@
    }
}

impl ClauseBuilder {
    /// Starts an empty clause.
    pub fn new() -> (r: ClauseBuilder)
        ensures
            r@ == Seq::<LitView>::empty(),
    {
        let c = Clause { literals: Vec::new() };
        proof {
            assert(c@ =~= Seq::<LitView>::empty());
        }
        ClauseBuilder { clause: c }
    }

    /// Adds the literal to the clause; a literal already present is not
    /// added again.
    pub fn add_literal(self, literal: SignedLiteral) -> (r: Self)
        ensures
            r@ == (if clause_contains_lit(self@, literal@) {
                self@
            } else {
                self@.push(literal@)
            }),
    {
        proof {
            use_type_invariant(&self.clause);
        }
        let ghost cv = self@;
        let n = self.clause.literals.len();
        let mut i: usize = 0;
        while i < n
            invariant
                n == self.clause.literals.len(),
                0 <= i <= n,
                cv == views_of(self.clause.literals@),
                n == cv.len(),
                forall|j: int| 0 <= j < i ==> #[trigger] cv[j] != literal@,
            decreases n - i,
        {
            proof {
                lemma_views_of(self.clause.literals@);
                assert(cv[i as int] == self.clause.literals@[i as int]@);
            }
            if self.clause.literals[i].same_literal(&literal) {
                proof {
                    assert(clause_contains_lit(cv, literal@));
                }
                return self;
            }
            i += 1;
        }
        proof {
            if clause_contains_lit(cv, literal@) {
                let j = choose|j: int| 0 <= j < cv.len() && #[trigger] cv[j] == literal@;
            }
        }
        let ClauseBuilder { clause } = self;
        let Clause { literals: mut lits } = clause;
        lits.push(literal);
        proof {
            lemma_views_of(lits@);
            assert(views_of(lits@) =~= cv.push(literal@));
            assert(clause_nodup(cv.push(literal@))) by {
                assert(forall|j: int| 0 <= j < cv.len() ==> cv.push(literal@)[j] == cv[j]);
                assert(cv.push(literal@)[cv.len() as int] == literal@);
            }
        }
        let c = Clause { literals: lits };
        ClauseBuilder { clause: c }
    }

    /// Finishes the clause and hands out a shared handle on it.
    pub fn build(self) -> (r: ClauseRef)
        ensures
            r@ == self@,
    {
        proof {
            use_type_invariant(&self.clause);
        }
        ClauseRef(Arc::new(self.clause))
    }
}

/// The clause views of a run of clause handles, in order.
pub open spec fn clause_views(s: Seq<ClauseRef>) -> Seq<Seq<LitView>> {
    s.map_values(|c: ClauseRef| c@)
}

/// `clause_views` is the pointwise view.
pub proof fn lemma_clause_views(s: Seq<ClauseRef>)
    ensures
        clause_views(s).len() == s.len(),
        forall|i: int| 0 <= i < s.len() ==> #[trigger] clause_views(s)[i] == s[i]@,
{
}

/// A formula in conjunctive normal form: a conjunction of clauses, kept in
/// ascending order of clause size by insertion.  The value is persistent:
/// evaluation builds a new formula and leaves the original untouched, so
/// search branches share structure freely.
#[derive(Debug, PartialEq)]
pub struct CNF {
    clauses: Vec<ClauseRef>,
}

impl View for CNF {
    type V = Seq<Seq<LitView>>;

    closed spec fn view(&self) -> Seq<Seq<LitView>> {
        clause_views(self.clauses@)
    }
}

impl Clone for CNF {
    fn clone(&self) -> (r: Self)
        ensures
            r@ == self@,
    {
        proof {
            use_type_invariant(self);
            lemma_clause_views(self.clauses@);
        }
        let n = self.clauses.len();
        let mut out: Vec<ClauseRef> = Vec::new();
        let mut i: usize = 0;
        while i < n
            invariant
                n == self.clauses.len(),
                0 <= i <= n,
                out@.len() == i,
                forall|j: int| 0 <= j < i ==> (#[trigger] out@[j])@ == self.clauses@[j]@,
                formula_wf(self@),
                forall|j: int| 0 <= j < n ==> #[trigger] self@[j] == self.clauses@[j]@,
            decreases n - i,
        {
            out.push(self.clauses[i].clone());
            i += 1;
        }
        proof {
            lemma_clause_views(out@);
            assert(clause_views(out@) =~= self@);
        }
        let r = CNF { clauses: out };
        proof {
            assert(r@ == self@);
        }
        r
    }
}

/// The verdict on a formula: satisfiable or not.
#[derive(Debug, PartialEq, Eq, Structural)]
pub enum Satisfiability {
    SAT,
    UNSAT,
}

/// What evaluating a formula under a partial assignment yields: already
/// satisfied, already unsatisfiable together with the assignment, or a
/// residual formula of the still-undecided clauses.
#[derive(Debug, PartialEq)]
pub enum CNFValue {
    SAT,
    UNSAT,
    Formula(CNF),
}

/// What a formula evaluation returns: `UNSAT` exactly when some clause is
/// false, `SAT` exactly when every clause is true, and otherwise the residual
/// formula, whose clauses are all nonempty.
pub open spec fn eval_outcome(
    fv: Seq<Seq<LitView>>,
    m: Map<Seq<char>, LiteralValue>,
    r: CNFValue,
) -> bool {
    &&& ((r is SAT) <==> (!formula_has_false_clause(fv, m) && formula_residual(fv, m).len() == 0))
    &&& ((r is UNSAT) <==> formula_has_false_clause(fv, m))
    &&& (r matches CNFValue::Formula(g) ==> g@ == formula_residual(fv, m) && g@.len() > 0 && (
    forall|i: int| 0 <= i < g@.len() ==> (#[trigger] g@[i]).len() > 0))
}

impl CNFValue {
    /// The verdict of a decided evaluation; only a decided value may be
    /// unwrapped.
    pub fn unwrap(self) -> (r: Satisfiability)
        requires
            !(self is Formula),
        ensures
            r == (if self is SAT {
                Satisfiability::SAT
            } else {
                Satisfiability::UNSAT
            }),
    {
        match self {
            CNFValue::SAT => Satisfiability::SAT,
            CNFValue::UNSAT => Satisfiability::UNSAT,
            CNFValue::Formula(_) => {
                proof {
                    assert(false);
                }
                Satisfiability::UNSAT
            },
        }
    }

    /// Evaluates a still-open formula one step further; a decided value stays
    /// as it is.
    pub fn evaluate(self, assignments: &Assignments) -> (r: CNFValue)
        ensures
            self is SAT ==> r is SAT,
            self is UNSAT ==> r is UNSAT,
            self matches CNFValue::Formula(f) ==> eval_outcome(f@, assignments@, r),
    {
        match self {
            CNFValue::Formula(f) => f.evaluate(assignments),
            v => v,
        }
    }
}

impl CNF {
    #[verifier::type_invariant]
    spec fn inv(self) -> bool {
        formula_wf(self@)
    }

    /// Creates the empty formula, which every assignment satisfies.
    pub fn new() -> (r: CNF)
        ensures
            r@ == Seq::<Seq<LitView>>::empty(),
    {
        let r = CNF { clauses: Vec::new() };
        proof {
            assert(r@ =~= Seq::<Seq<LitView>>::empty());
        }
        r
    }

    /// Conjoins the clause, inserted before the first strictly larger clause
    /// so that insertion keeps the formula sorted by ascending clause size.
    pub fn add_clause(self, clause: ClauseRef) -> (r: Self)
        ensures
            r@.len() == self@.len() + 1,
            exists|i: int|
                0 <= i <= self@.len() && r@ == #[trigger] self@.insert(i, clause@) && (forall|j: int|
                    0 <= j < i ==> (#[trigger] self@[j]).len() <= clause@.len()) && (i < self@.len()
                    ==> self@[i].len() > clause@.len()),
            crate::semantics::sorted_by_len(self@) ==> crate::semantics::sorted_by_len(r@),
            forall|a: crate::semantics::TotalAssignment|
                #[trigger] crate::semantics::sat_formula(r@, a) <==> (crate::semantics::sat_formula(
                    self@,
                    a,
                ) && crate::semantics::sat_clause(clause@, a)),
    {
        proof {
            use_type_invariant(&self);
            use_type_invariant(&clause);
            lemma_clause_views(self.clauses@);
        }
        let ghost fv = self@;
        let cn = clause.size();
        let n = self.clauses.len();
        let mut idx: usize = 0;
        while idx < n && self.clauses[idx].size() <= cn
            invariant
                n == self.clauses.len(),
                0 <= idx <= n,
                fv == self@,
                fv == clause_views(self.clauses@),
                n == fv.len(),
                cn == clause@.len(),
                forall|j: int| 0 <= j < idx ==> (#[trigger] fv[j]).len() <= cn,
                forall|j: int| 0 <= j < n ==> #[trigger] fv[j] == self.clauses@[j]@,
            decreases n - idx,
        {
            idx += 1;
        }
        proof {
            assert(idx < n ==> fv[idx as int].len() > cn);
        }
        proof {
            fv.insert_ensures(idx as int, clause@);
        }
        let ghost gv = fv.insert(idx as int, clause@);
        let CNF { clauses: mut cls } = self;
        cls.insert(idx, clause);
        proof {
            lemma_clause_views(cls@);
            assert(clause_views(cls@) =~= gv);
            assert(crate::semantics::formula_wf(gv)) by {
                assert(forall|j: int| 0 <= j < idx ==> gv[j] == fv[j]);
                assert(forall|j: int| idx < j < gv.len() ==> gv[j] == fv[j - 1]);
                assert(gv[idx as int] == clause@);
            }
        }
        let r = CNF { clauses: cls };
        proof {
            assert(r@ == gv);
            crate::semantics::lemma_sat_formula_insert(fv, clause@, idx as int);
            if crate::semantics::sorted_by_len(fv) {
                assert forall|i: int, j: int| 0 <= i <= j < gv.len() implies (#[trigger] gv[i]).len()
                    <= (#[trigger] gv[j]).len() by {
                    assert(gv[idx as int] == clause@);
                    if i < idx {
                        assert(gv[i] == fv[i]);
                    }
                    if i > idx {
                        assert(gv[i] == fv[i - 1]);
                    }
                    if j < idx {
                        assert(gv[j] == fv[j]);
                    }
                    if j > idx {
                        assert(gv[j] == fv[j - 1]);
                    }
                }
            }
        }
        r
    }

    /// The clauses of the formula.
    pub fn clauses(&self) -> (r: &Vec<ClauseRef>)
        ensures
            clause_views(r@) == self@,
    {
        &self.clauses
    }

    /// Evaluates the formula under the assignment: `UNSAT` as soon as one
    /// clause is false, `SAT` when every clause is true, and otherwise the
    /// residual formula of reduced, still-undecided clauses.
    pub fn evaluate(self, assignments: &Assignments) -> (r: CNFValue)
        ensures
            eval_outcome(self@, assignments@, r),
    {
        proof {
            use_type_invariant(&self);
            lemma_clause_views(self.clauses@);
        }
        let ghost fv = self@;
        let ghost m = assignments@;
        let n = self.clauses.len();
        let mut kept: Vec<ClauseRef> = Vec::new();
        let mut i: usize = 0;
        while i < n
            invariant
                n == self.clauses.len(),
                0 <= i <= n,
                fv == self@,
                m == assignments@,
                fv == clause_views(self.clauses@),
                n == fv.len(),
                forall|j: int| 0 <= j < n ==> #[trigger] fv[j] == self.clauses@[j]@,
                !formula_has_false_clause(fv.subrange(0, i as int), m),
                clause_views(kept@) =~= formula_residual(fv.subrange(0, i as int), m),
                forall|k: int|
                    0 <= k < kept@.len() ==> (#[trigger] kept@[k]@).len() > 0 && clause_nodup(
                        kept@[k]@,
                    ),
            decreases n - i,
        {
            let ghost prefix = fv.subrange(0, i as int);
            let ghost prefix1 = fv.subrange(0, i as int + 1);
            proof {
                assert(prefix1.drop_last() =~= prefix);
                assert(prefix1.last() == fv[i as int]);
            }
            let c = self.clauses[i].clone();
            match c.evaluate(assignments) {
                ClauseValue::False => {
                    proof {
                        assert(clause_is_false(fv[i as int], m));
                        assert(formula_has_false_clause(fv, m));
                    }
                    return CNFValue::UNSAT;
                },
                ClauseValue::True => {
                },
                ClauseValue::Clause(cr) => {
                    let ghost kept0 = kept@;
                    proof {
                        use_type_invariant(&cr);
                        lemma_clause_views(kept0);
                    }
                    kept.push(cr);
                    proof {
                        lemma_clause_views(kept@);
                        assert(clause_views(kept@) =~= clause_views(kept0).push(
                            clause_residual(fv[i as int], m),
                        ));
                    }
                },
            }
            i += 1;
            proof {
                if formula_has_false_clause(prefix1, m) {
                    let j = choose|j: int|
                        0 <= j < prefix1.len() && clause_is_false(#[trigger] prefix1[j], m);
                    assert(prefix1[j] == if j < prefix.len() {
                        prefix[j]
                    } else {
                        fv[i - 1]
                    });
                }
            }
        }
        proof {
            assert(fv.subrange(0, n as int) =~= fv);
        }
        if kept.is_empty() {
            proof {
                assert(formula_residual(fv, m) =~= Seq::<Seq<LitView>>::empty());
            }
            CNFValue::SAT
        } else {
            let g = CNF { clauses: kept };
            proof {
                assert(g@ =~= formula_residual(fv, m));
            }
            CNFValue::Formula(g)
        }
    }
}

/// Whether the signed literal is positive.
fn is_positive(l: &SignedLiteral) -> (r: bool)
    ensures
        r == l@.positive,
{
    match l {
        SignedLiteral::Id(_) => true,
        SignedLiteral::Not(_) => false,
    }
}

/// Whether some literal in the run is the complement of `l`: same variable,
/// opposite polarity.
fn complement_occurs(lits: &Vec<SignedLiteral>, l: &SignedLiteral) -> (r: bool)
    ensures
        r == exists|t: int|
            0 <= t < lits@.len() && (#[trigger] lits@[t]@).name == l@.name && lits@[t]@.positive
                != l@.positive,
{
    let ll = l.literal();
    let lp = is_positive(l);
    let n = lits.len();
    let mut t: usize = 0;
    while t < n
        invariant
            n == lits.len(),
            0 <= t <= n,
            ll@ == l@.name,
            lp == l@.positive,
            forall|u: int|
                0 <= u < t ==> !((#[trigger] lits@[u]@).name == l@.name && lits@[u]@.positive
                    != l@.positive),
        decreases n - t,
    {
        if lits[t].literal().same_variable(&ll) && is_positive(&lits[t]) != lp {
            return true;
        }
        t += 1;
    }
    false
}

/// Whether some literal in the run is over the same variable as `l`.
fn variable_occurs(lits: &Vec<SignedLiteral>, l: &SignedLiteral) -> (r: bool)
    ensures
        r == exists|t: int| 0 <= t < lits@.len() && (#[trigger] lits@[t]@).name == l@.name,
{
    let ll = l.literal();
    let n = lits.len();
    let mut t: usize = 0;
    while t < n
        invariant
            n == lits.len(),
            0 <= t <= n,
            ll@ == l@.name,
            forall|u: int| 0 <= u < t ==> (#[trigger] lits@[u]@).name != l@.name,
        decreases n - t,
    {
        if lits[t].literal().same_variable(&ll) {
            return true;
        }
        t += 1;
    }
    false
}

impl CNF {
    /// Every literal occurrence of the formula, clause by clause.
    pub fn iter_literals(&self) -> (r: Vec<SignedLiteral>)
        ensures
            views_of(r@) == all_literals(self@),
    {
        proof {
            use_type_invariant(self);
            lemma_clause_views(self.clauses@);
        }
        let ghost fv = self@;
        let n = self.clauses.len();
        let mut out: Vec<SignedLiteral> = Vec::new();
        let mut i: usize = 0;
        while i < n
            invariant
                n == self.clauses.len(),
                0 <= i <= n,
                fv == self@,
                fv == clause_views(self.clauses@),
                n == fv.len(),
                forall|j: int| 0 <= j < n ==> #[trigger] fv[j] == self.clauses@[j]@,
                views_of(out@) =~= all_literals(fv.subrange(0, i as int)),
            decreases n - i,
        {
            let ghost prefix = fv.subrange(0, i as int);
            let ghost prefix1 = fv.subrange(0, i as int + 1);
            proof {
                assert(prefix1.drop_last() =~= prefix);
                assert(prefix1.last() == fv[i as int]);
            }
            let lits = self.clauses[i].signed_literal();
            let k = lits.len();
            proof {
                lemma_views_of(lits@);
                assert(views_of(lits@) == fv[i as int]);
            }
            let mut j: usize = 0;
            while j < k
                invariant
                    k == lits.len(),
                    0 <= j <= k,
                    views_of(lits@) == fv[i as int],
                    0 <= i < fv.len(),
                    views_of(out@) =~= all_literals(fv.subrange(0, i as int)) + fv[
                        i as int
                    ].subrange(0, j as int),
                decreases k - j,
            {
                let ghost out0 = out@;
                out.push(lits[j].clone());
                proof {
                    lemma_views_of(out0);
                    lemma_views_of(out@);
                    lemma_views_of(lits@);
                    assert(views_of(out@) =~= views_of(out0).push(fv[i as int][j as int]));
                    assert(fv[i as int].subrange(0, j as int + 1) =~= fv[i as int].subrange(
                        0,
                        j as int,
                    ).push(fv[i as int][j as int]));
                }
                j += 1;
            }
            proof {
                assert(fv[i as int].subrange(0, k as int) =~= fv[i as int]);
                assert(views_of(out@) =~= all_literals(prefix1));
            }
            i += 1;
        }
        proof {
            assert(fv.subrange(0, n as int) =~= fv);
            assert(views_of(out@) =~= all_literals(fv));
        }
        out
    }

    /// The pure literals of the formula: for every variable that occurs with
    /// one polarity only, one signed literal of that polarity, each variable
    /// at most once, and none missed.
    pub fn pure_literals(&self) -> (r: Vec<SignedLiteral>)
        ensures
            forall|k: int|
                0 <= k < r@.len() ==> occurs_in(self@, (#[trigger] r@[k])@) && pure_in(
                    self@,
                    r@[k]@.name,
                    r@[k]@.positive,
                ),
            forall|k1: int, k2: int|
                0 <= k1 < k2 < r@.len() ==> (#[trigger] r@[k1])@.name != (#[trigger] r@[k2])@.name,
            forall|i: int, j: int|
                0 <= i < self@.len() && 0 <= j < self@[i].len() && pure_in(
                    self@,
                    (#[trigger] self@[i][j]).name,
                    self@[i][j].positive,
                ) ==> exists|k: int| 0 <= k < r@.len() && (#[trigger] r@[k])@.name == self@[i][j].name,
    {
        let ghost fv = self@;
        let lits = self.iter_literals();
        let ghost av = views_of(lits@);
        proof {
            lemma_all_literals(fv);
            lemma_views_of(lits@);
        }
        let n = lits.len();
        let mut out: Vec<SignedLiteral> = Vec::new();
        let mut idx: usize = 0;
        while idx < n
            invariant
                n == lits.len(),
                fv == self@,
                av == views_of(lits@),
                av == all_literals(fv),
                av.len() == n,
                forall|u: int| 0 <= u < n ==> #[trigger] av[u] == lits@[u]@,
                forall|u: int| 0 <= u < av.len() ==> occurs_in(fv, #[trigger] av[u]),
                forall|i: int, j: int|
                    0 <= i < fv.len() && 0 <= j < fv[i].len() ==> av.contains(#[trigger] fv[i][j]),
                0 <= idx <= n,
                forall|k: int|
                    0 <= k < out@.len() ==> occurs_in(fv, (#[trigger] out@[k])@) && pure_in(
                        fv,
                        out@[k]@.name,
                        out@[k]@.positive,
                    ),
                forall|k1: int, k2: int|
                    0 <= k1 < k2 < out@.len() ==> (#[trigger] out@[k1])@.name != (
                    #[trigger] out@[k2])@.name,
                forall|t: int|
                    #![trigger av[t]]
                    0 <= t < idx && (forall|u: int|
                        0 <= u < av.len() && (#[trigger] av[u]).name == av[t].name ==> av[u].positive
                            == av[t].positive) ==> exists|k: int|
                        0 <= k < out@.len() && (#[trigger] out@[k])@.name == av[t].name,
            decreases n - idx,
        {
            let has_complement = complement_occurs(&lits, &lits[idx]);
            let ghost out0 = out@;
            if !has_complement {
                if !variable_occurs(&out, &lits[idx]) {
                    out.push(lits[idx].clone());
                    proof {
                        assert(out@[out0.len() as int]@ == av[idx as int]);
                        assert(forall|k: int| 0 <= k < out0.len() ==> out@[k] == out0[k]);
                        assert(pure_in(fv, av[idx as int].name, av[idx as int].positive)) by {
                            assert forall|i: int, j: int|
                                0 <= i < fv.len() && 0 <= j < fv[i].len() && (
                                #[trigger] fv[i][j]).name == av[idx as int].name implies
                                fv[i][j].positive == av[idx as int].positive by {
                                assert(av.contains(fv[i][j]));
                                let u = choose|u: int| 0 <= u < av.len() && av[u] == fv[i][j];
                                assert(!(av[u].name == av[idx as int].name && av[u].positive
                                    != av[idx as int].positive));
                            }
                        }
                    }
                }
            }
            idx += 1;
            proof {
                assert forall|t: int|
                    #![trigger av[t]]
                    0 <= t < idx && (forall|u: int|
                        0 <= u < av.len() && (#[trigger] av[u]).name == av[t].name ==> av[u].positive
                            == av[t].positive) implies exists|k: int|
                    0 <= k < out@.len() && (#[trigger] out@[k])@.name == av[t].name by {
                    if t < idx - 1 {
                        let k = choose|k: int|
                            0 <= k < out0.len() && (#[trigger] out0[k])@.name == av[t].name;
                        assert(out@[k]@.name == av[t].name);
                    } else {
                        assert(t == idx - 1);
                        if exists|k: int|
                            0 <= k < out0.len() && (#[trigger] out0[k])@.name == av[t].name {
                            let k = choose|k: int|
                                0 <= k < out0.len() && (#[trigger] out0[k])@.name == av[t].name;
                            assert(out@[k]@.name == av[t].name);
                        } else {
                            if has_complement {
                                let u = choose|u: int|
                                    0 <= u < lits@.len() && (#[trigger] lits@[u]@).name
                                        == lits@[t]@.name && lits@[u]@.positive
                                        != lits@[t]@.positive;
                                assert(av[u] == lits@[u]@);
                                assert(av[t] == lits@[t]@);
                                assert(av[u].name == av[t].name && av[u].positive
                                    != av[t].positive);
                            }
                            assert(!has_complement);
                            assert(out@.len() > out0.len());
                            assert(out@[out0.len() as int]@.name == av[t].name);
                        }
                    }
                }
            }
        }
        proof {
            assert forall|i: int, j: int|
                0 <= i < fv.len() && 0 <= j < fv[i].len() && pure_in(
                    fv,
                    (#[trigger] fv[i][j]).name,
                    fv[i][j].positive,
                ) implies exists|k: int|
                0 <= k < out@.len() && (#[trigger] out@[k])@.name == fv[i][j].name by {
                assert(av.contains(fv[i][j]));
                let t = choose|t: int| 0 <= t < av.len() && av[t] == fv[i][j];
                assert forall|u: int|
                    0 <= u < av.len() && (#[trigger] av[u]).name == av[t].name implies av[u].positive
                    == av[t].positive by {
                    assert(occurs_in(fv, av[u]));
                    let (i2, j2) = choose|i2: int, j2: int|
                        0 <= i2 < fv.len() && 0 <= j2 < fv[i2].len() && #[trigger] fv[i2][j2]
                            == av[u];
                    assert(fv[i2][j2].positive == fv[i][j].positive);
                }
            }
        }
        out
    }

    /// The "most occurrences in a minimum clause" decision heuristic: among
    /// the variables of a smallest clause, up to `max_literals` of them,
    /// ranked by how often they occur across the whole formula.
    pub fn mom(&self, max_literals: usize) -> (r: Vec<RefLiteral>)
        ensures
            r@.len() <= max_literals,
            self@.len() == 0 ==> r@.len() == 0,
            self@.len() > 0 ==> exists|mi: int|
                0 <= mi < self@.len() && (forall|j: int|
                    0 <= j < self@.len() ==> (#[trigger] self@[mi]).len() <= (
                    #[trigger] self@[j]).len()) && r@.len() == vstd::math::min(
                    max_literals as int,
                    self@[mi].len() as int,
                ) && (forall|k: int|
                    0 <= k < r@.len() ==> clause_mentions_var(self@[mi], (#[trigger] r@[k])@)),
            forall|k: int|
                0 <= k < r@.len() ==> crate::semantics::formula_mentions_var(
                    self@,
                    (#[trigger] r@[k])@,
                ),
            forall|k1: int, k2: int|
                0 <= k1 <= k2 < r@.len() ==> count_occurrences(all_literals(self@), (
                #[trigger] r@[k1])@) >= count_occurrences(all_literals(self@), (#[trigger] r@[k2])@),
    {
        proof {
            use_type_invariant(self);
            lemma_clause_views(self.clauses@);
        }
        let ghost fv = self@;
        let n = self.clauses.len();
        if n == 0 {
            let r: Vec<RefLiteral> = Vec::new();
            return r;
        }
        // The first clause of minimum size.
        let mut mi: usize = 0;
        let mut i: usize = 1;
        while i < n
            invariant
                n == self.clauses.len(),
                fv == self@,
                fv == clause_views(self.clauses@),
                n == fv.len(),
                forall|j: int| 0 <= j < n ==> #[trigger] fv[j] == self.clauses@[j]@,
                0 <= mi < n,
                0 < i <= n,
                forall|j: int| 0 <= j < i ==> fv[mi as int].len() <= (#[trigger] fv[j]).len(),
            decreases n - i,
        {
            if self.clauses[i].size() < self.clauses[mi].size() {
                mi = i;
            }
            i += 1;
        }
        let lits = self.iter_literals();
        let ghost av = views_of(lits@);
        let min_clause = self.clauses[mi].signed_literal();
        let ghost mc = fv[mi as int];
        proof {
            lemma_views_of(min_clause@);
            assert(views_of(min_clause@) == mc);
        }
        let k = min_clause.len();
        // Rank the variables of the minimum clause by occurrence count,
        // most frequent first.
        let mut ranked: Vec<(RefLiteral, usize)> = Vec::new();
        let mut j: usize = 0;
        while j < k
            invariant
                k == min_clause.len(),
                0 <= j <= k,
                av == all_literals(fv),
                av == views_of(lits@),
                views_of(min_clause@) == mc,
                k == mc.len(),
                ranked@.len() == j,
                forall|t: int|
                    0 <= t < ranked@.len() ==> clause_mentions_var(mc, (#[trigger] ranked@[t]).0@)
                        && ranked@[t].1 == count_occurrences(av, ranked@[t].0@),
                forall|t1: int, t2: int|
                    0 <= t1 <= t2 < ranked@.len() ==> (#[trigger] ranked@[t1]).1 >= (
                    #[trigger] ranked@[t2]).1,
            decreases k - j,
        {
            let name = min_clause[j].literal();
            let cnt = count_variable(&lits, &name);
            proof {
                assert(min_clause@[j as int]@ == mc[j as int]);
                assert(clause_mentions_var(mc, name@));
            }
            let ghost ranked0 = ranked@;
            let mut pos: usize = 0;
            while pos < ranked.len() && ranked[pos].1 >= cnt
                invariant
                    ranked@ == ranked0,
                    0 <= pos <= ranked@.len(),
                    forall|t: int| 0 <= t < pos ==> (#[trigger] ranked@[t]).1 >= cnt,
                decreases ranked@.len() - pos,
            {
                pos += 1;
            }
            ranked.insert(pos, (name, cnt));
            proof {
                ranked0.insert_ensures(pos as int, (name, cnt));
                assert(ranked@ == ranked0.insert(pos as int, (name, cnt)));
                assert(pos < ranked0.len() ==> ranked0[pos as int].1 < cnt);
                assert forall|t1: int, t2: int|
                    0 <= t1 <= t2 < ranked@.len() implies (#[trigger] ranked@[t1]).1 >= (
                    #[trigger] ranked@[t2]).1 by {
                    assert(ranked@[pos as int] == (name, cnt));
                    if t1 < pos {
                        assert(ranked@[t1] == ranked0[t1]);
                    }
                    if t1 > pos {
                        assert(ranked@[t1] == ranked0[t1 - 1]);
                    }
                    if t2 < pos {
                        assert(ranked@[t2] == ranked0[t2]);
                    }
                    if t2 > pos {
                        assert(ranked@[t2] == ranked0[t2 - 1]);
                    }
                }
            }
            j += 1;
        }
        // Keep the top candidates.
        let mut out: Vec<RefLiteral> = Vec::new();
        let mut t: usize = 0;
        while t < ranked.len() && t < max_literals
            invariant
                av == all_literals(fv),
                0 <= t <= ranked@.len(),
                t <= max_literals,
                out@.len() == t,
                ranked@.len() == mc.len(),
                forall|u: int|
                    0 <= u < ranked@.len() ==> clause_mentions_var(mc, (#[trigger] ranked@[u]).0@)
                        && ranked@[u].1 == count_occurrences(av, ranked@[u].0@),
                forall|u1: int, u2: int|
                    0 <= u1 <= u2 < ranked@.len() ==> (#[trigger] ranked@[u1]).1 >= (
                    #[trigger] ranked@[u2]).1,
                forall|u: int| 0 <= u < t ==> (#[trigger] out@[u])@ == ranked@[u].0@,
            decreases ranked@.len() - t,
        {
            out.push(ranked[t].0.clone());
            t += 1;
        }
        proof {
            assert(out@.len() == vstd::math::min(max_literals as int, mc.len() as int));
            assert(0 <= mi < fv.len());
            assert forall|k2: int| 0 <= k2 < out@.len() implies clause_mentions_var(
                fv[mi as int],
                (#[trigger] out@[k2])@,
            ) by {
                assert(out@[k2]@ == ranked@[k2].0@);
            }
            assert forall|k2: int| 0 <= k2 < out@.len() implies crate::semantics::formula_mentions_var(
                fv,
                (#[trigger] out@[k2])@,
            ) by {
                assert(clause_mentions_var(fv[mi as int], out@[k2]@));
            }
        }
        out
    }
}

/// How often the variable occurs in the run of literals, either polarity.
fn count_variable(lits: &Vec<SignedLiteral>, name: &RefLiteral) -> (cnt: usize)
    ensures
        cnt == count_occurrences(views_of(lits@), name@),
{
    let ghost av = views_of(lits@);
    proof {
        lemma_views_of(lits@);
    }
    let n = lits.len();
    let mut cnt: usize = 0;
    let mut t: usize = 0;
    while t < n
        invariant
            n == lits.len(),
            av == views_of(lits@),
            av.len() == n,
            forall|u: int| 0 <= u < n ==> #[trigger] av[u] == lits@[u]@,
            0 <= t <= n,
            cnt <= t,
            cnt == count_occurrences(av.subrange(0, t as int), name@),
        decreases n - t,
    {
        let ghost prefix = av.subrange(0, t as int);
        let ghost prefix1 = av.subrange(0, t as int + 1);
        proof {
            assert(prefix1.drop_last() =~= prefix);
            assert(prefix1.last() == av[t as int]);
        }
        if lits[t].literal().same_variable(name) {
            cnt += 1;
        }
        t += 1;
    }
    proof {
        assert(av.subrange(0, n as int) =~= av);
    }
    cnt
}

} // verus!
