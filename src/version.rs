//! Versions: the identity of a single causal event.
use vstd::prelude::*;

verus! {

/// A single event of an actor: the actor and its counter at that event.
#[derive(Debug, Clone, Copy, PartialEq, Eq, Structural, Hash)]
pub struct Version {
    pub actor: u64,
    pub counter: u64,
}

impl Version {
    pub fn new(actor: u64, counter: u64) -> (r: Version)
        ensures
            r.actor == actor,
            r.counter == counter,
    {
        Version { actor, counter }
    }

    /// Moves this version one event forward.
    pub fn apply_increment(&mut self)
        requires
            old(self).counter < u64::MAX,
        ensures
            final(self).actor == old(self).actor,
            final(self).counter == old(self).counter + 1,
    {
        self.counter = self.counter + 1;
    }

    /// The next event of the same actor.
    pub fn inc(&self) -> (r: Version)
        requires
            self.counter < u64::MAX,
        ensures
            r.actor == self.actor,
            r.counter == self.counter + 1,
    {
        Version { actor: self.actor, counter: self.counter + 1 }
    }
}

/// A version ordered lexicographically by actor, then counter, so that it can
/// break ties between list identifiers.
#[derive(Debug, Clone, Copy, PartialEq, Eq, Structural, PartialOrd, Ord, Hash)]
pub struct OrderedVersion {
    pub actor: u64,
    pub counter: u64,
}

impl OrderedVersion {
    pub fn new(actor: u64, counter: u64) -> (r: OrderedVersion)
        ensures
            r.actor == actor,
            r.counter == counter,
    {
        OrderedVersion { actor, counter }
    }
}

/// The strict lexicographic order of ordered versions.
pub open spec fn ordered_lt(a: OrderedVersion, b: OrderedVersion) -> bool {
    a.actor < b.actor || (a.actor == b.actor && a.counter < b.counter)
}

/// Compares two ordered versions the way their derived `Ord` does.
pub fn ordered_less(a: &OrderedVersion, b: &OrderedVersion) -> (r: bool)
    ensures
        r == ordered_lt(*a, *b),
{
    a.actor < b.actor || (a.actor == b.actor && a.counter < b.counter)
}

impl From<Version> for OrderedVersion {
    fn from(v: Version) -> (r: OrderedVersion) {
        OrderedVersion { actor: v.actor, counter: v.counter }
    }
}

impl vstd::std_specs::convert::FromSpecImpl<Version> for OrderedVersion {
    open spec fn obeys_from_spec() -> bool {
        true
    }

    open spec fn from_spec(v: Version) -> OrderedVersion {
        OrderedVersion { actor: v.actor, counter: v.counter }
    }
}

impl From<OrderedVersion> for Version {
    fn from(v: OrderedVersion) -> (r: Version) {
        Version { actor: v.actor, counter: v.counter }
    }
}

impl vstd::std_specs::convert::FromSpecImpl<OrderedVersion> for Version {
    open spec fn obeys_from_spec() -> bool {
        true
    }

    open spec fn from_spec(v: OrderedVersion) -> Version {
        Version { actor: v.actor, counter: v.counter }
    }
}

/// The events `counter_range` of `actor` that must be seen before an operation
/// can be applied.
#[derive(Debug, PartialEq, Eq)]
pub struct VersionRange {
    pub actor: u64,
    pub counter_range: core::ops::Range<u64>,
}

} // verus!
