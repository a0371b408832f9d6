//! The capabilities that every replicated data type offers.
use vstd::prelude::*;
use crate::vector_clock::VectorClock;

verus! {

/// A replica whose state carries a representation invariant and a
/// mathematical model.
pub trait Replica: Sized {
    /// The mathematical state of a replica.
    type Model;

    /// The representation invariant.
    spec fn valid(&self) -> bool;

    /// The state of this replica.
    spec fn model(&self) -> Self::Model;
}

/// State-based replication: whole replicas are merged.
pub trait CvRDT: Replica {
    type Validation;

    /// `c` is the state that merging `b` into `a` leaves.
    spec fn merged(a: Self::Model, b: Self::Model, c: Self::Model) -> bool;

    /// Whether a replica in state `b` can be merged into one in state `a`.
    spec fn merge_ok(a: Self::Model, b: Self::Model) -> bool;

    /// Whether `other` can be merged into this replica.
    fn validate_merge(&self, other: &Self) -> (r: Result<(), Self::Validation>)
        requires
            self.valid(),
            other.valid(),
        ensures
            r is Ok <==> Self::merge_ok(self.model(), other.model()),
    ;

    /// Merges `other` into this replica.
    fn merge(&mut self, other: Self)
        requires
            old(self).valid(),
            other.valid(),
        ensures
            final(self).valid(),
            Self::merged(old(self).model(), other.model(), final(self).model()),
    ;
}

/// Operation-based replication: operations are shipped and applied.
pub trait CmRDT: Replica {
    type Operation;

    type Validation;

    /// The invariant of an operation's own data (its clocks).
    spec fn operation_valid(op: &Self::Operation) -> bool;

    /// Whether `op` is causally ready on a replica in state `m`.
    spec fn operation_ok(m: Self::Model, op: &Self::Operation) -> bool;

    /// `after` is the state that applying `op` to `before` leaves.
    spec fn applied(before: Self::Model, op: Self::Operation, after: Self::Model) -> bool;

    /// Whether `op` is causally ready to be applied here.
    fn validate_operation(&self, op: &Self::Operation) -> (r: Result<(), Self::Validation>)
        requires
            self.valid(),
            Self::operation_valid(op),
        ensures
            r is Ok <==> Self::operation_ok(self.model(), op),
    ;

    /// Applies `op`; stale operations change nothing.
    fn apply(&mut self, op: Self::Operation)
        requires
            old(self).valid(),
            Self::operation_valid(&op),
        ensures
            final(self).valid(),
            Self::applied(old(self).model(), op, final(self).model()),
    ;
}

/// Removal of the state that a clock has fully seen.
pub trait ResetRemove: Replica {
    /// `after` is the state that reset-remove by `base` leaves of `before`.
    spec fn reset(before: Self::Model, base: Map<u64, u64>, after: Self::Model) -> bool;

    fn reset_remove(&mut self, clock: &VectorClock)
        requires
            old(self).valid(),
            clock.wf(),
        ensures
            final(self).valid(),
            Self::reset(old(self).model(), clock@, final(self).model()),
    ;
}

} // verus!
