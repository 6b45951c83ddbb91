//! Linear constraints over solver variables, with integer coefficients.

use vstd::prelude::*;
use crate::class::PERCENT_WHOLE;

verus! {

/// A solver variable, by its index in the registry that allocated it.
#[derive(Clone, Copy, Debug, PartialEq, Eq, Hash, Structural)]
pub struct Variable(pub usize);

/// How strongly the solver holds to a constraint or a suggested value;
/// when constraints conflict, the weaker ones give way.
#[derive(Clone, Copy, Debug, PartialEq, Eq, Hash, Structural)]
pub enum Strength {
    Weak,
    Medium,
    Strong,
    /// The strongest strength that still gives way: the one edit variables
    /// take when they must hold unless a required constraint forbids it.
    NearlyRequired,
    /// Never given up; the solver reports a conflict instead.
    Required,
}

/// How the weighted sum of a constraint compares to zero.
#[derive(Clone, Copy, Debug, PartialEq, Eq, Hash, Structural)]
pub enum Relation {
    /// At most zero.
    Le,
    /// Exactly zero.
    Eq,
    /// At least zero.
    Ge,
}

/// `coeff * var`.
#[derive(Clone, Copy, Debug, PartialEq, Eq, Hash, Structural)]
pub struct Term {
    pub var: Variable,
    pub coeff: i64,
}

/// `sum(terms) + constant` compared to zero by `relation`, held at `strength`.
#[derive(Clone, Debug, PartialEq, Eq)]
pub struct Constraint {
    pub terms: Vec<Term>,
    pub constant: i64,
    pub relation: Relation,
    pub strength: Strength,
}

/// The mathematical content of a [`Constraint`].
pub struct LinearConstraint {
    pub terms: Seq<Term>,
    pub constant: int,
    pub relation: Relation,
    pub strength: Strength,
}

impl Constraint {
    pub open spec fn view(&self) -> LinearConstraint {
        LinearConstraint {
            terms: self.terms@,
            constant: self.constant as int,
            relation: self.relation,
            strength: self.strength,
        }
    }

    /// A copy of the constraint, term for term.
    pub fn copy(&self) -> (r: Constraint)
        ensures
            r@ == self@,
    {
        let mut terms: Vec<Term> = Vec::new();
        let mut i: usize = 0;
        while i < self.terms.len()
            invariant
                i <= self.terms@.len(),
                terms@ == self.terms@.subrange(0, i as int),
            decreases self.terms@.len() - i,
        {
            terms.push(self.terms[i]);
            i += 1;
            assert(terms@ =~= self.terms@.subrange(0, i as int));
        }
        assert(terms@ =~= self.terms@);
        Constraint { terms, constant: self.constant, relation: self.relation, strength: self.strength }
    }

    /// Whether two constraints are the same relation at the same strength,
    /// term by term.
    pub fn same_as(&self, other: &Constraint) -> (r: bool)
        ensures
            r == (self@ == other@),
    {
        if self.constant != other.constant || self.relation != other.relation
            || self.strength != other.strength || self.terms.len() != other.terms.len() {
            return false;
        }
        let mut i: usize = 0;
        while i < self.terms.len()
            invariant
                self.terms@.len() == other.terms@.len(),
                i <= self.terms@.len(),
                forall|j: int| 0 <= j < i ==> self.terms@[j] == other.terms@[j],
            decreases self.terms@.len() - i,
        {
            if self.terms[i] != other.terms[i] {
                return false;
            }
            i += 1;
        }
        assert(self.terms@ =~= other.terms@);
        true
    }
}

/// The value of `sum(terms) + constant` under an assignment of values to variables.
pub open spec fn sum_of(terms: Seq<Term>, value: spec_fn(Variable) -> int) -> int
    decreases terms.len(),
{
    if terms.len() == 0 {
        0
    } else {
        sum_of(terms.drop_last(), value) + terms.last().coeff * value(terms.last().var)
    }
}

/// `sum_of` on one, two, three and four terms.
pub proof fn lemma_sum_of_small(value: spec_fn(Variable) -> int, a: Term, b: Term, c: Term, d: Term)
    ensures
        sum_of(seq![a], value) == a.coeff * value(a.var),
        sum_of(seq![a, b], value) == a.coeff * value(a.var) + b.coeff * value(b.var),
        sum_of(seq![a, b, c], value) == a.coeff * value(a.var) + b.coeff * value(b.var) + c.coeff * value(c.var),
        sum_of(seq![a, b, c, d], value) == a.coeff * value(a.var) + b.coeff * value(b.var)
            + c.coeff * value(c.var) + d.coeff * value(d.var),
{
    assert(seq![a].drop_last() =~= Seq::<Term>::empty());
    assert(seq![a, b].drop_last() =~= seq![a]);
    assert(seq![a, b, c].drop_last() =~= seq![a, b]);
    assert(seq![a, b, c, d].drop_last() =~= seq![a, b, c]);
    reveal_with_fuel(sum_of, 5);
}

/// Whether an assignment of values to variables meets the constraint.
pub open spec fn holds(c: LinearConstraint, value: spec_fn(Variable) -> int) -> bool {
    let s = sum_of(c.terms, value) + c.constant;
    match c.relation {
        Relation::Le => s <= 0,
        Relation::Eq => s == 0,
        Relation::Ge => s >= 0,
    }
}

/// `a - b` compared to zero: `a <= b`, `a == b` or `a >= b`.
pub open spec fn compare(a: Variable, relation: Relation, b: Variable, strength: Strength) -> LinearConstraint {
    LinearConstraint {
        terms: seq![Term { var: a, coeff: 1 }, Term { var: b, coeff: (-1) as i64 }],
        constant: 0,
        relation,
        strength,
    }
}

/// `a` compared to zero.
pub open spec fn compare_zero(a: Variable, relation: Relation, strength: Strength) -> LinearConstraint {
    LinearConstraint {
        terms: seq![Term { var: a, coeff: 1 }],
        constant: 0,
        relation,
        strength,
    }
}

/// `hi - lo == size`.
pub open spec fn span_is(hi: Variable, lo: Variable, size: Variable, strength: Strength) -> LinearConstraint {
    LinearConstraint {
        terms: seq![
            Term { var: hi, coeff: 1 },
            Term { var: lo, coeff: (-1) as i64 },
            Term { var: size, coeff: (-1) as i64 },
        ],
        constant: 0,
        relation: Relation::Eq,
        strength,
    }
}

/// `hi - lo == (of_hi - of_lo) * fraction`, the fraction in millionths,
/// written with both sides scaled by a million.
pub open spec fn span_fraction(
    hi: Variable,
    lo: Variable,
    of_hi: Variable,
    of_lo: Variable,
    fraction: i32,
    strength: Strength,
) -> LinearConstraint {
    LinearConstraint {
        terms: seq![
            Term { var: hi, coeff: PERCENT_WHOLE },
            Term { var: lo, coeff: (-PERCENT_WHOLE) as i64 },
            Term { var: of_hi, coeff: (-fraction) as i64 },
            Term { var: of_lo, coeff: fraction as i64 },
        ],
        constant: 0,
        relation: Relation::Eq,
        strength,
    }
}

/// `hi - lo == of * fraction`, the fraction in millionths, written with
/// both sides scaled by a million.
pub open spec fn span_fraction_of(
    hi: Variable,
    lo: Variable,
    of: Variable,
    fraction: i32,
    strength: Strength,
) -> LinearConstraint {
    LinearConstraint {
        terms: seq![
            Term { var: hi, coeff: PERCENT_WHOLE },
            Term { var: lo, coeff: (-PERCENT_WHOLE) as i64 },
            Term { var: of, coeff: (-fraction) as i64 },
        ],
        constant: 0,
        relation: Relation::Eq,
        strength,
    }
}

pub fn make_compare(a: Variable, relation: Relation, b: Variable, strength: Strength) -> (r: Constraint)
    ensures
        r@ == compare(a, relation, b, strength),
{
    let r = Constraint {
        terms: vec![Term { var: a, coeff: 1 }, Term { var: b, coeff: -1 }],
        constant: 0,
        relation,
        strength,
    };
    assert(r.terms@ =~= compare(a, relation, b, strength).terms);
    r
}

pub fn make_compare_zero(a: Variable, relation: Relation, strength: Strength) -> (r: Constraint)
    ensures
        r@ == compare_zero(a, relation, strength),
{
    let r = Constraint { terms: vec![Term { var: a, coeff: 1 }], constant: 0, relation, strength };
    assert(r.terms@ =~= compare_zero(a, relation, strength).terms);
    r
}

pub fn make_span_is(hi: Variable, lo: Variable, size: Variable, strength: Strength) -> (r: Constraint)
    ensures
        r@ == span_is(hi, lo, size, strength),
{
    let r = Constraint {
        terms: vec![
            Term { var: hi, coeff: 1 },
            Term { var: lo, coeff: -1 },
            Term { var: size, coeff: -1 },
        ],
        constant: 0,
        relation: Relation::Eq,
        strength,
    };
    assert(r.terms@ =~= span_is(hi, lo, size, strength).terms);
    r
}

pub fn make_span_fraction(
    hi: Variable,
    lo: Variable,
    of_hi: Variable,
    of_lo: Variable,
    fraction: i32,
    strength: Strength,
) -> (r: Constraint)
    ensures
        r@ == span_fraction(hi, lo, of_hi, of_lo, fraction, strength),
{
    let n = fraction as i64;
    let minus_whole: i64 = -PERCENT_WHOLE;
    let minus_n: i64 = -n;
    let r = Constraint {
        terms: vec![
            Term { var: hi, coeff: PERCENT_WHOLE },
            Term { var: lo, coeff: minus_whole },
            Term { var: of_hi, coeff: minus_n },
            Term { var: of_lo, coeff: n },
        ],
        constant: 0,
        relation: Relation::Eq,
        strength,
    };
    assert(r.terms@ =~= span_fraction(hi, lo, of_hi, of_lo, fraction, strength).terms);
    r
}

pub fn make_span_fraction_of(hi: Variable, lo: Variable, of: Variable, fraction: i32, strength: Strength) -> (r: Constraint)
    ensures
        r@ == span_fraction_of(hi, lo, of, fraction, strength),
{
    let n = fraction as i64;
    let minus_whole: i64 = -PERCENT_WHOLE;
    let minus_n: i64 = -n;
    let r = Constraint {
        terms: vec![
            Term { var: hi, coeff: PERCENT_WHOLE },
            Term { var: lo, coeff: minus_whole },
            Term { var: of, coeff: minus_n },
        ],
        constant: 0,
        relation: Relation::Eq,
        strength,
    };
    assert(r.terms@ =~= span_fraction_of(hi, lo, of, fraction, strength).terms);
    r
}

} // verus!
