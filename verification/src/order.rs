//! Traits describing what the index asks of its key and value types.
//!
//! Keys must carry a decidable total order; the order is stated over the
//! mathematical view of the key type (`View::V`), so that the contracts of
//! the whole crate can speak about keys and values as abstract values.

use vstd::prelude::*;

verus! {

/// A value that can be stored in the index: it has a mathematical view and
/// can be duplicated without changing that view.
pub trait StorageValue: View + Sized {
    /// Produce a copy of the value whose view is the same.
    fn dup(&self) -> (r: Self)
        ensures
            r@ == self@,
    ;
}

/// A key of the index: a duplicable value whose views are totally ordered.
///
/// `le_spec` is the order itself; the four lemmas oblige every implementation
/// to prove that it is reflexive, transitive, antisymmetric and total, so the
/// index can rely on those laws for any key type.
pub trait StorageKey: StorageValue {
    /// The total order on key views: `le_spec(a, b)` means `a <= b`.
    spec fn le_spec(a: Self::V, b: Self::V) -> bool;

    proof fn lemma_le_reflexive(a: Self::V)
        ensures
            Self::le_spec(a, a),
    ;

    proof fn lemma_le_transitive(a: Self::V, b: Self::V, c: Self::V)
        requires
            Self::le_spec(a, b),
            Self::le_spec(b, c),
        ensures
            Self::le_spec(a, c),
    ;

    proof fn lemma_le_antisymmetric(a: Self::V, b: Self::V)
        requires
            Self::le_spec(a, b),
            Self::le_spec(b, a),
        ensures
            a == b,
    ;

    proof fn lemma_le_total(a: Self::V, b: Self::V)
        ensures
            Self::le_spec(a, b) || Self::le_spec(b, a),
    ;

    /// Decide the order on two keys.
    fn key_le(&self, other: &Self) -> (r: bool)
        ensures
            r == Self::le_spec(self@, other@),
    ;
}

} // verus!
