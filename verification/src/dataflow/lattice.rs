//! The contract every analysis fact type must satisfy.
use vstd::prelude::*;

use crate::dataflow::graph::Label;

verus! {

/// A join-semilattice of analysis facts with a least element.
///
/// A fact type carries a mathematical view, and `leq` orders those views;
/// `join` merges another fact into this one in place, moving it up the
/// order, and reports whether anything changed. Joining a fact that was
/// already subsumed reports no change, so for any fact `a`, joining `a`
/// into a copy of itself reports no change.
pub trait Lattice: Sized + View {
    /// The lattice order: `Self::leq(a, b)` says `b` holds at least the
    /// information of `a`.
    spec fn leq(a: Self::V, b: Self::V) -> bool;

    proof fn lemma_leq_refl(a: Self::V)
        ensures
            Self::leq(a, a),
    ;

    proof fn lemma_leq_trans(a: Self::V, b: Self::V, c: Self::V)
        requires
            Self::leq(a, b),
            Self::leq(b, c),
        ensures
            Self::leq(a, c),
    ;

    /// The bottom-most fact, used to initialize labels no information is
    /// held for yet.
    fn bottom() -> (r: Self)
        ensures
            forall|x: Self::V| Self::leq(r@, x),
    ;

    /// A copy of this fact with the same view.
    fn clone_fact(&self) -> (r: Self)
        ensures
            r@ == self@,
    ;

    /// Merges the information of `other` into this fact in place. The label
    /// is passed for potential debugging purposes.
    ///
    /// The result is an upper bound of both inputs, and the returned flag
    /// reports whether this fact actually changed: it is never `true` when
    /// `other` was already subsumed, and never `false` when the fact moved.
    fn join(&mut self, other: &Self, label: Label) -> (changed: bool)
        ensures
            Self::leq(old(self)@, final(self)@),
            Self::leq(other@, final(self)@),
            !changed ==> final(self)@ == old(self)@,
            changed ==> !Self::leq(other@, old(self)@),
    ;
}

/// Any return of `join` must be `false` when the fact joined in was already
/// subsumed; in particular a fact joined into a copy of itself reports no
/// change.
pub proof fn lemma_join_idempotent<F: Lattice>(a: F::V, changed: bool)
    requires
        changed ==> !F::leq(a, a),
    ensures
        !changed,
{
    F::lemma_leq_refl(a);
}

} // verus!
