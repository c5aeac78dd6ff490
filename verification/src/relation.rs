//! Binary constraints between the values of two constraint variables: any
//! `Fn(i32, i32) -> bool`, or one of the named relations of `Relation`.
use vstd::prelude::*;

verus! {

/// A binary constraint between a value `v` of one variable and a value `n`
/// of another: the relation that fermentation asks each pair to satisfy.
#[derive(Debug, Clone, Copy, PartialEq, Eq, Structural)]
pub enum Relation {
    /// `v == n`
    Equal,
    /// `v != n`
    NotEqual,
    /// `v < n`
    Less,
    /// `v <= n`
    LessOrEqual,
    /// `v > n`
    Greater,
    /// `v >= n`
    GreaterOrEqual,
    /// Two queens on rows that are `row_diff` apart: different columns and
    /// not on a shared diagonal (`v != n` and `|v - n| != row_diff`).
    NonAttacking(i32),
}

/// Absolute value over the integers.
pub open spec fn abs_int(x: int) -> int {
    if x < 0 {
        -x
    } else {
        x
    }
}

impl Relation {
    /// Whether the pair `(v, n)` satisfies the relation.
    pub open spec fn relates(self, v: i32, n: i32) -> bool {
        match self {
            Relation::Equal => v == n,
            Relation::NotEqual => v != n,
            Relation::Less => v < n,
            Relation::LessOrEqual => v <= n,
            Relation::Greater => v > n,
            Relation::GreaterOrEqual => v >= n,
            Relation::NonAttacking(row_diff) => v != n && abs_int(v - n) != row_diff,
        }
    }

    /// Evaluates the relation on `(v, n)`.
    pub fn holds(&self, v: i32, n: i32) -> (r: bool)
        ensures
            r == self.relates(v, n),
    {
        match self {
            Relation::Equal => v == n,
            Relation::NotEqual => v != n,
            Relation::Less => v < n,
            Relation::LessOrEqual => v <= n,
            Relation::Greater => v > n,
            Relation::GreaterOrEqual => v >= n,
            Relation::NonAttacking(row_diff) => {
                let diff: i64 = (v as i64) - (n as i64);
                let dist: i64 = if diff < 0 { 0 - diff } else { diff };
                v != n && dist != (*row_diff as i64)
            },
        }
    }
}

/// What each named relation accepts, as integer comparisons: `Equal` is
/// `v == n`, `NotEqual` is `v != n`, `Less` is `v < n`, `LessOrEqual` is
/// `v <= n`, `Greater` is `v > n`, `GreaterOrEqual` is `v >= n`, and
/// `NonAttacking(d)` accepts two different columns that are not `d` apart
/// in either direction (no distance is negative, so a negative `d` only asks
/// for different columns).
pub proof fn lemma_relation_meaning(v: i32, n: i32, d: i32)
    ensures
        Relation::Equal.relates(v, n) <==> v == n,
        Relation::NotEqual.relates(v, n) <==> v != n,
        Relation::Less.relates(v, n) <==> v < n,
        Relation::LessOrEqual.relates(v, n) <==> v <= n,
        Relation::Greater.relates(v, n) <==> v > n,
        Relation::GreaterOrEqual.relates(v, n) <==> v >= n,
        d >= 0 ==> (Relation::NonAttacking(d).relates(v, n) <==> (v != n && v - n != d && n - v != d)),
        d < 0 ==> (Relation::NonAttacking(d).relates(v, n) <==> v != n),
{
}

/// How the named relations relate to each other: at-most is less-than or
/// equal; greater-than and at-least are the converses of less-than and
/// at-most; inequality is the negation of equality; equality, at-most and
/// at-least accept every pair `(v, v)`, the strict ones and non-attacking
/// none; non-attacking is symmetric.
pub proof fn lemma_relation_algebra(v: i32, n: i32, d: i32)
    ensures
        Relation::LessOrEqual.relates(v, n) == (Relation::Less.relates(v, n) || Relation::Equal.relates(v, n)),
        Relation::Greater.relates(v, n) == Relation::Less.relates(n, v),
        Relation::GreaterOrEqual.relates(v, n) == Relation::LessOrEqual.relates(n, v),
        Relation::NotEqual.relates(v, n) == !Relation::Equal.relates(v, n),
        Relation::Equal.relates(v, v),
        Relation::LessOrEqual.relates(v, v),
        Relation::GreaterOrEqual.relates(v, v),
        !Relation::Less.relates(v, v),
        !Relation::Greater.relates(v, v),
        !Relation::NotEqual.relates(v, v),
        !Relation::NonAttacking(d).relates(v, v),
        Relation::NonAttacking(d).relates(v, n) == Relation::NonAttacking(d).relates(n, v),
{
}

/// A binary constraint on a value `v` of one variable and a value `n` of
/// another. Every `Fn(i32, i32) -> bool` is one; so is every `Relation`.
pub trait Constraint {
    /// Whether the constraint can be evaluated on every pair, always with
    /// the same answer.
    spec fn admissible(&self) -> bool;

    /// Whether the pair `(v, n)` satisfies the constraint.
    spec fn accepts(&self, v: i32, n: i32) -> bool;

    /// Evaluates the constraint on `(v, n)`.
    fn check(&self, v: i32, n: i32) -> (r: bool)
        requires
            self.admissible(),
        ensures
            r == self.accepts(v, n);
}

impl Constraint for Relation {
    open spec fn admissible(&self) -> bool {
        true
    }

    open spec fn accepts(&self, v: i32, n: i32) -> bool {
        self.relates(v, n)
    }

    fn check(&self, v: i32, n: i32) -> (r: bool) {
        self.holds(v, n)
    }
}

/// Whether the function `f` may be called on every pair of values and gives
/// one answer for each: what fermentation asks of a constraint closure.
pub open spec fn callable<F: Fn(i32, i32) -> bool>(f: F) -> bool {
    &&& forall|v: i32, n: i32| call_requires(f, (v, n))
    &&& forall|v: i32, n: i32, r1: bool, r2: bool|
        call_ensures(f, (v, n), r1) && call_ensures(f, (v, n), r2) ==> r1 == r2
}

impl<F: Fn(i32, i32) -> bool> Constraint for F {
    open spec fn admissible(&self) -> bool {
        callable(*self)
    }

    /// A pair satisfies a closure when the closure returns `true` on it.
    open spec fn accepts(&self, v: i32, n: i32) -> bool {
        call_ensures(*self, (v, n), true)
    }

    fn check(&self, v: i32, n: i32) -> (r: bool) {
        let r = (self)(v, n);
        r
    }
}

/// How a closure is read as a constraint: it is admissible exactly when it
/// is `callable`, and it accepts the pairs on which it returns `true`.
pub proof fn lemma_closure_constraint<F: Fn(i32, i32) -> bool>(f: F)
    ensures
        f.admissible() == callable(f),
        forall|v: i32, n: i32| #[trigger] f.accepts(v, n) == call_ensures(f, (v, n), true),
{
}

/// The relation a constraint stands for, as a predicate on pairs of values.
pub open spec fn relation_of<C: Constraint>(c: C) -> spec_fn(i32, i32) -> bool {
    |v: i32, n: i32| c.accepts(v, n)
}

} // verus!
