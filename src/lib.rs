//! Last-write-wins replicated state: a register and a keyed mapping that converge
//! when independently updated copies are merged.

use vstd::prelude::*;

pub mod map;
pub mod register;

pub use map::{Entry, LWWMap, MapState};
pub use register::{LWWRegister, LWWState};

verus! {

/// A value whose replicas can be reconciled by exchanging portable states.
pub trait CRDT: Sized {
    /// What `take` hands out and `merge` folds in.
    type State;

    /// The portable state that `take` yields for `self`.
    spec fn taken(self) -> Self::State;

    /// Holds when `after` is what `merge` leaves behind, starting from `before`
    /// and folding in `incoming`.
    spec fn merge_result(before: Self, incoming: Self::State, after: Self) -> bool;

    /// Folds `other` into `self`.
    fn merge(&mut self, other: Self::State)
        ensures
            Self::merge_result(*old(self), other, *final(self)),
    ;

    /// Consumes `self` and returns its portable state.
    fn take(self) -> (r: Self::State)
        ensures
            r == self.taken(),
    ;
}

/// Derived operation of every mergeable type: hand one's own state to another instance.
pub trait CRDTExt: CRDT {
    /// Consumes `self` and folds its state into `other`.
    fn merge_into(self, other: &mut Self)
        ensures
            Self::merge_result(*old(other), self.taken(), *final(other)),
    {
        other.merge(self.take())
    }
}

impl<C: CRDT> CRDTExt for C {}

} // verus!
