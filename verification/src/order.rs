//! A total order stated over mathematical models: the sorted multiset and
//! the sorting primitives are built on it.

use vstd::prelude::*;

verus! {

/// A three-way comparison result.
#[derive(Debug, Clone, Copy, PartialEq, Eq, Structural)]
pub enum Cmp {
    Lt,
    Eq,
    Gt,
}

/// A type whose models carry a total order.  `before` is the strict order;
/// the two laws make it a total one, and `cmp_order` decides it.
pub trait StrictOrder: View + Sized {
    /// The strict order on models.
    spec fn before(a: Self::V, b: Self::V) -> bool;

    /// Of `before(a, b)`, `before(b, a)` and `a == b`, exactly one holds.
    proof fn law_trichotomy(a: Self::V, b: Self::V)
        ensures
            Self::before(a, b) || Self::before(b, a) || a == b,
            Self::before(a, b) ==> !Self::before(b, a) && a != b,
    ;

    /// The order is transitive.
    proof fn law_transitive(a: Self::V, b: Self::V, c: Self::V)
        requires
            Self::before(a, b),
            Self::before(b, c),
        ensures
            Self::before(a, c),
    ;

    /// Decide the order of two values.
    fn cmp_order(&self, other: &Self) -> (r: Cmp)
        ensures
            (r == Cmp::Lt) <==> Self::before(self@, other@),
            (r == Cmp::Gt) <==> Self::before(other@, self@),
            (r == Cmp::Eq) <==> self@ == other@,
    ;
}

} // verus!
