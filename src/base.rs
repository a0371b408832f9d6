//! Causal reads and the tokens derived from them.
use vstd::prelude::*;
use crate::vector_clock::{clock_apply, VectorClock};
use crate::version::Version;

verus! {

/// A value together with the causal context it was read in.
#[derive(Debug, PartialEq, Eq)]
pub struct Read<V> {
    /// The events that contributed evidence that the value exists.
    pub add_clock: VectorClock,
    /// The events a removal of the value has to supersede.
    pub rm_clock: VectorClock,
    pub value: V,
}

/// The causal context of an addition: the clock and the fresh version it holds.
#[derive(Debug)]
pub struct Add {
    pub clock: VectorClock,
    pub version: Version,
}

/// The causal context of a removal.
#[derive(Debug, Clone)]
pub struct Remove {
    pub clock: VectorClock,
}

impl<V> Read<V> {
    pub open spec fn wf(&self) -> bool {
        self.add_clock.wf() && self.rm_clock.wf()
    }

    /// An addition by `actor`: the next version of `actor`, and the add clock
    /// that has seen it.
    pub fn derive_add(self, actor: u64) -> (r: Add)
        requires
            self.wf(),
            self.add_clock.spec_get(actor) < u64::MAX,
        ensures
            r.clock.wf(),
            r.version == (Version { actor, counter: (self.add_clock.spec_get(actor) + 1) as u64 }),
            r.clock@ == clock_apply(self.add_clock@, r.version),
    {
        let mut clock = self.add_clock;
        let v = clock.increment(actor);
        clock.apply(v);
        Add { clock, version: v }
    }

    /// A removal of what this read observed.
    pub fn derive_remove(self) -> (r: Remove)
        ensures
            r.clock == self.rm_clock,
    {
        Remove { clock: self.rm_clock }
    }

    /// The value, and the same causal context holding no value.
    pub fn split(self) -> (r: (V, Read<()>))
        ensures
            r.0 == self.value,
            r.1.add_clock == self.add_clock,
            r.1.rm_clock == self.rm_clock,
    {
        (self.value, Read { add_clock: self.add_clock, rm_clock: self.rm_clock, value: () })
    }
}

} // verus!
