//! The in-memory form of a clause file: a header's variable and clause
//! counts, and the clauses as lists of nonzero signed integers.  Reading the
//! text format is a collaborator's job; turning the integer clauses into a
//! formula is verified here.

use vstd::prelude::*;

use crate::definitions::CNF;
use crate::definitions::ClauseBuilder;
use crate::definitions::Literal;
use crate::definitions::SignedLiteral;
use crate::semantics::LitView;
use crate::semantics::TotalAssignment;
use crate::semantics::clause_contains_lit;
use crate::semantics::sat_clause;
use crate::semantics::sat_formula;
use crate::semantics::sat_lit;
use crate::semantics::sorted_by_len;

verus! {

/// The clause views of a run of integer clauses, in order.
pub open spec fn int_clause_views(s: Seq<Vec<i32>>) -> Seq<Seq<i32>> {
    s.map_values(|c: Vec<i32>| c@)
}

/// `int_clause_views` is the pointwise view.
pub proof fn lemma_int_clause_views(s: Seq<Vec<i32>>)
    ensures
        int_clause_views(s).len() == s.len(),
        forall|i: int| 0 <= i < s.len() ==> #[trigger] int_clause_views(s)[i] == s[i]@,
{
}

/// A formula read from a clause file: the header's counts and the clauses as
/// lists of nonzero signed integers, sign for polarity and magnitude for the
/// variable.
#[derive(Debug)]
pub struct DimacsCnf {
    num_vars: usize,
    num_clauses: usize,
    clauses: Vec<Vec<i32>>,
}

impl DimacsCnf {
    /// The declared number of variables.
    pub closed spec fn spec_num_vars(&self) -> int {
        self.num_vars as int
    }

    /// The declared number of clauses.
    pub closed spec fn spec_num_clauses(&self) -> int {
        self.num_clauses as int
    }

    /// The integer clauses.
    pub closed spec fn spec_clauses(&self) -> Seq<Seq<i32>> {
        int_clause_views(self.clauses@)
    }

    fn new() -> (r: DimacsCnf)
        ensures
            r.spec_num_vars() == 0,
            r.spec_num_clauses() == 0,
            r.spec_clauses() == Seq::<Seq<i32>>::empty(),
    {
        let r = DimacsCnf { num_vars: 0, num_clauses: 0, clauses: Vec::new() };
        proof {
            assert(r.spec_clauses() =~= Seq::<Seq<i32>>::empty());
        }
        r
    }

    /// The clauses, as lists of signed integers.
    pub fn clauses(&self) -> (r: &Vec<Vec<i32>>)
        ensures
            int_clause_views(r@) == self.spec_clauses(),
    {
        &self.clauses
    }

    /// The declared number of variables.
    pub fn num_vars(&self) -> (r: usize)
        ensures
            r == self.spec_num_vars(),
    {
        self.num_vars
    }

    /// The declared number of clauses.
    pub fn num_clauses(&self) -> (r: usize)
        ensures
            r == self.spec_num_clauses(),
    {
        self.num_clauses
    }
}

/// Assembles the in-memory form of a clause file.
#[derive(Debug)]
pub struct DimacsCnfBuilder(DimacsCnf);

impl DimacsCnfBuilder {
    /// The declared number of variables so far.
    pub closed spec fn spec_num_vars(&self) -> int {
        self.0.spec_num_vars()
    }

    /// The declared number of clauses so far.
    pub closed spec fn spec_num_clauses(&self) -> int {
        self.0.spec_num_clauses()
    }

    /// The clauses gathered so far.
    pub closed spec fn spec_clauses(&self) -> Seq<Seq<i32>> {
        self.0.spec_clauses()
    }

    /// Starts from an empty file: no counts, no clauses.
    pub fn new() -> (r: DimacsCnfBuilder)
        ensures
            r.spec_num_vars() == 0,
            r.spec_num_clauses() == 0,
            r.spec_clauses() == Seq::<Seq<i32>>::empty(),
    {
        DimacsCnfBuilder(DimacsCnf::new())
    }

    /// Records the header's variable and clause counts.
    pub fn header(&mut self, num_vars: usize, num_clauses: usize)
        ensures
            final(self).spec_num_vars() == num_vars,
            final(self).spec_num_clauses() == num_clauses,
            final(self).spec_clauses() == old(self).spec_clauses(),
    {
        self.0.num_vars = num_vars;
        self.0.num_clauses = num_clauses;
    }

    /// Appends one clause of signed integers.
    pub fn clause(&mut self, clause: Vec<i32>)
        ensures
            final(self).spec_num_vars() == old(self).spec_num_vars(),
            final(self).spec_num_clauses() == old(self).spec_num_clauses(),
            final(self).spec_clauses() == old(self).spec_clauses().push(clause@),
    {
        let ghost s0 = self.0.clauses@;
        self.0.clauses.push(clause);
        proof {
            lemma_int_clause_views(s0);
            lemma_int_clause_views(self.0.clauses@);
            assert(self.0.spec_clauses() =~= int_clause_views(s0).push(clause@));
        }
    }

    /// Finishes the file; the number of clauses read must match the header.
    pub fn build(self) -> (r: DimacsCnf)
        requires
            self.spec_clauses().len() == self.spec_num_clauses(),
        ensures
            r.spec_num_vars() == self.spec_num_vars(),
            r.spec_num_clauses() == self.spec_num_clauses(),
            r.spec_clauses() == self.spec_clauses(),
    {
        self.0
    }
}

/// The decimal digit characters.
pub open spec fn decimal_digit(d: int) -> char {
    if d == 0 {
        '0'
    } else if d == 1 {
        '1'
    } else if d == 2 {
        '2'
    } else if d == 3 {
        '3'
    } else if d == 4 {
        '4'
    } else if d == 5 {
        '5'
    } else if d == 6 {
        '6'
    } else if d == 7 {
        '7'
    } else if d == 8 {
        '8'
    } else {
        '9'
    }
}

/// The decimal numeral of a nonnegative number.
pub open spec fn decimal_of(n: int) -> Seq<char>
    decreases n,
{
    if n < 10 {
        seq![decimal_digit(n)]
    } else {
        decimal_of(n / 10).push(decimal_digit(n % 10))
    }
}

/// The variable a signed integer denotes: named by its magnitude, with the
/// sign as polarity.
pub open spec fn lit_of_int(v: i32) -> LitView {
    LitView { positive: v > 0, name: decimal_of(if v >= 0 { v as int } else { -(v as int) }) }
}

/// Whether a total assignment satisfies an integer clause: some literal's
/// variable carries the truth value its sign asks for.
pub open spec fn sat_int_clause(c: Seq<i32>, a: TotalAssignment) -> bool {
    exists|j: int| 0 <= j < c.len() && sat_lit(lit_of_int(#[trigger] c[j]), a)
}

/// Whether a total assignment satisfies every integer clause.
pub open spec fn sat_int_clauses(cs: Seq<Seq<i32>>, a: TotalAssignment) -> bool {
    forall|i: int| 0 <= i < cs.len() ==> sat_int_clause(#[trigger] cs[i], a)
}

/// One decimal digit as text.
fn digit_str(d: u32) -> (r: &'static str)
    requires
        d < 10,
    ensures
        r@ == seq![decimal_digit(d as int)],
{
    proof {
        reveal_strlit("0");
        reveal_strlit("1");
        reveal_strlit("2");
        reveal_strlit("3");
        reveal_strlit("4");
        reveal_strlit("5");
        reveal_strlit("6");
        reveal_strlit("7");
        reveal_strlit("8");
        reveal_strlit("9");
    }
    let r = match d {
        0 => "0",
        1 => "1",
        2 => "2",
        3 => "3",
        4 => "4",
        5 => "5",
        6 => "6",
        7 => "7",
        8 => "8",
        _ => "9",
    };
    proof {
        assert(r@ =~= seq![decimal_digit(d as int)]);
    }
    r
}

/// The decimal numeral of a number, as text.
fn decimal_string(n: u32) -> (r: String)
    ensures
        r@ == decimal_of(n as int),
    decreases n,
{
    if n < 10 {
        digit_str(n).to_owned()
    } else {
        let prefix = decimal_string(n / 10);
        let r = prefix.concat(digit_str(n % 10));
        proof {
            assert(r@ =~= decimal_of(n as int));
        }
        r
    }
}

impl CNF {
    /// Builds the formula an in-memory clause file denotes: one clause per
    /// integer clause, polarity by sign and variable by magnitude.  The
    /// result is satisfied by exactly the assignments that satisfy the
    /// integer clauses, and its clauses come sorted by ascending size.
    pub fn from_dimacs(dimacs_cnf: &DimacsCnf) -> (r: CNF)
        ensures
            forall|a: TotalAssignment|
                #[trigger] sat_formula(r@, a) == sat_int_clauses(dimacs_cnf.spec_clauses(), a),
            sorted_by_len(r@),
    {
        let ghost ds = dimacs_cnf.spec_clauses();
        let clauses = dimacs_cnf.clauses();
        proof {
            lemma_int_clause_views(clauses@);
        }
        let n = clauses.len();
        let mut cnf = CNF::new();
        let mut i: usize = 0;
        proof {
            assert(sorted_by_len(cnf@));
        }
        while i < n
            invariant
                n == clauses.len(),
                0 <= i <= n,
                ds == int_clause_views(clauses@),
                n == ds.len(),
                forall|j: int| 0 <= j < n ==> #[trigger] ds[j] == clauses@[j]@,
                sorted_by_len(cnf@),
                forall|a: TotalAssignment|
                    #[trigger] sat_formula(cnf@, a) == sat_int_clauses(
                        ds.subrange(0, i as int),
                        a,
                    ),
            decreases n - i,
        {
            let ghost prefix = ds.subrange(0, i as int);
            let ghost prefix1 = ds.subrange(0, i as int + 1);
            let ints = &clauses[i];
            let ghost cints = ds[i as int];
            let k = ints.len();
            let mut cb = ClauseBuilder::new();
            let mut j: usize = 0;
            while j < k
                invariant
                    k == ints.len(),
                    0 <= j <= k,
                    cints == ints@,
                    forall|t: int|
                        0 <= t < cb@.len() ==> exists|u: int|
                            0 <= u < j && #[trigger] cb@[t] == lit_of_int(cints[u]),
                    forall|u: int|
                        0 <= u < j ==> clause_contains_lit(cb@, lit_of_int(#[trigger] cints[u])),
                decreases k - j,
            {
                let v = ints[j];
                let mag: u32 = if v >= 0 {
                    v as u32
                } else {
                    (-(v as i64)) as u32
                };
                let var = Literal::new(decimal_string(mag));
                let lit: SignedLiteral = if v > 0 {
                    var.identity()
                } else {
                    var.not()
                };
                proof {
                    assert(lit@ == lit_of_int(cints[j as int]));
                }
                let ghost cb0 = cb@;
                cb = cb.add_literal(lit);
                proof {
                    if clause_contains_lit(cb0, lit@) {
                        assert(cb@ == cb0);
                    } else {
                        assert(cb@ == cb0.push(lit@));
                        assert(forall|t: int| 0 <= t < cb0.len() ==> cb@[t] == cb0[t]);
                        assert(cb@[cb0.len() as int] == lit@);
                        assert forall|u: int| 0 <= u < j + 1 implies clause_contains_lit(
                            cb@,
                            lit_of_int(#[trigger] cints[u]),
                        ) by {
                            if u < j {
                                let t = choose|t: int|
                                    0 <= t < cb0.len() && #[trigger] cb0[t] == lit_of_int(cints[u]);
                                assert(cb@[t] == lit_of_int(cints[u]));
                            }
                        }
                    }
                }
                j += 1;
            }
            let clause = cb.build();
            let ghost clv = clause@;
            let ghost cnf0 = cnf@;
            cnf = cnf.add_clause(clause);
            proof {
                assert(prefix1.drop_last() =~= prefix);
                assert(prefix1.last() == cints);
                // The built clause is satisfied exactly when some integer
                // literal of the source clause is.
                assert forall|a: TotalAssignment| #[trigger] sat_clause(clv, a)
                    == sat_int_clause(cints, a) by {
                    if sat_clause(clv, a) {
                        let t = choose|t: int| 0 <= t < clv.len() && sat_lit(#[trigger] clv[t], a);
                        let u = choose|u: int|
                            0 <= u < cints.len() && #[trigger] clv[t] == lit_of_int(cints[u]);
                        assert(sat_lit(lit_of_int(cints[u]), a));
                        assert(sat_int_clause(cints, a));
                    }
                    if sat_int_clause(cints, a) {
                        let u = choose|u: int|
                            0 <= u < cints.len() && sat_lit(lit_of_int(#[trigger] cints[u]), a);
                        assert(clause_contains_lit(clv, lit_of_int(cints[u])));
                        let t = choose|t: int|
                            0 <= t < clv.len() && #[trigger] clv[t] == lit_of_int(cints[u]);
                        assert(sat_clause(clv, a));
                    }
                }
                assert forall|a: TotalAssignment| #[trigger] sat_formula(cnf@, a)
                    == sat_int_clauses(prefix1, a) by {
                    assert(sat_formula(cnf@, a) == (sat_formula(cnf0, a) && sat_clause(clv, a)));
                    if sat_formula(cnf@, a) {
                        assert forall|i2: int| 0 <= i2 < prefix1.len() implies sat_int_clause(
                            #[trigger] prefix1[i2],
                            a,
                        ) by {
                            if i2 < prefix.len() {
                                assert(prefix1[i2] == prefix[i2]);
                                assert(sat_int_clauses(prefix, a));
                                assert(sat_int_clause(prefix[i2], a));
                            } else {
                                assert(prefix1[i2] == cints);
                            }
                        }
                        assert(sat_int_clauses(prefix1, a));
                    }
                    if sat_int_clauses(prefix1, a) {
                        assert forall|i2: int| 0 <= i2 < prefix.len() implies sat_int_clause(
                            #[trigger] prefix[i2],
                            a,
                        ) by {
                            assert(prefix1[i2] == prefix[i2]);
                            assert(sat_int_clause(prefix1[i2], a));
                        }
                        assert(sat_int_clauses(prefix, a));
                        assert(sat_formula(cnf0, a));
                        assert(prefix1[prefix.len() as int] == cints);
                        assert(sat_int_clause(cints, a));
                        assert(sat_clause(clv, a));
                        assert(sat_formula(cnf@, a));
                    }
                }
            }
            i += 1;
        }
        proof {
            assert(ds.subrange(0, n as int) =~= ds);
        }
        cnf
    }
}

} // verus!
