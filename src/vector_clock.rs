//! Vector clocks: a counter per actor, with absent actors at zero.
use vstd::prelude::*;
use crate::version::{Version, VersionRange};
use crate::traits::{CmRDT, CvRDT, Replica, ResetRemove};

verus! {

/// The counter of `actor` in a sequence of versions; a later entry hides an
/// earlier one, and an absent actor has counter zero.
pub open spec fn counter_in(s: Seq<Version>, actor: u64) -> u64
    decreases s.len(),
{
    if s.len() == 0 {
        0
    } else if s.last().actor == actor {
        s.last().counter
    } else {
        counter_in(s.drop_last(), actor)
    }
}

/// Entries sorted by strictly increasing actor, with no zero counter.
pub open spec fn canonical(s: Seq<Version>) -> bool {
    &&& forall|i: int, j: int| 0 <= i < j < s.len() ==> s[i].actor < s[j].actor
    &&& forall|i: int| 0 <= i < s.len() ==> s[i].counter > 0
}

/// The counter of `a` in a clock model, zero where absent.
pub open spec fn clock_get(m: Map<u64, u64>, a: u64) -> u64 {
    if m.contains_key(a) {
        m[a]
    } else {
        0
    }
}

/// Every actor's counter in `l` is at least its counter in `r`.
pub open spec fn dominates(l: Map<u64, u64>, r: Map<u64, u64>) -> bool {
    forall|a: u64| clock_get(l, a) >= clock_get(r, a)
}

/// The effect of observing version `v`.
pub open spec fn clock_apply(m: Map<u64, u64>, v: Version) -> Map<u64, u64> {
    if clock_get(m, v.actor) < v.counter {
        m.insert(v.actor, v.counter)
    } else {
        m
    }
}

/// Pointwise maximum.
pub open spec fn clock_join(l: Map<u64, u64>, r: Map<u64, u64>) -> Map<u64, u64> {
    Map::new(
        |a: u64| l.contains_key(a) || r.contains_key(a),
        |a: u64|
            if clock_get(l, a) >= clock_get(r, a) {
                clock_get(l, a)
            } else {
                clock_get(r, a)
            },
    )
}

/// Pointwise minimum, without the zeros.
pub open spec fn clock_meet(l: Map<u64, u64>, r: Map<u64, u64>) -> Map<u64, u64> {
    Map::new(
        |a: u64| l.contains_key(a) && r.contains_key(a),
        |a: u64|
            if l[a] <= r[a] {
                l[a]
            } else {
                r[a]
            },
    )
}

/// The entries on which both clocks hold the same counter.
pub open spec fn clock_common(l: Map<u64, u64>, r: Map<u64, u64>) -> Map<u64, u64> {
    Map::new(|a: u64| l.contains_key(a) && r.contains_key(a) && l[a] == r[a], |a: u64| l[a])
}

/// The entries of `m` that `base` does not cover: an actor slot is kept whole
/// when its counter is beyond `base`, and dropped otherwise.
pub open spec fn clock_reset(m: Map<u64, u64>, base: Map<u64, u64>) -> Map<u64, u64> {
    Map::new(|a: u64| m.contains_key(a) && m[a] > clock_get(base, a), |a: u64| m[a])
}

/// A clock model: every stored counter is positive.
pub open spec fn clock_valid(m: Map<u64, u64>) -> bool {
    forall|a: u64| m.contains_key(a) ==> m[a] > 0
}

/// How `l` compares with `r` in the causal partial order.
pub open spec fn clock_cmp(l: Map<u64, u64>, r: Map<u64, u64>) -> Option<core::cmp::Ordering> {
    if l == r {
        Some(core::cmp::Ordering::Equal)
    } else if dominates(l, r) {
        Some(core::cmp::Ordering::Greater)
    } else if dominates(r, l) {
        Some(core::cmp::Ordering::Less)
    } else {
        None
    }
}

/// The clock that has observed the versions of `s` in turn.
pub open spec fn seq_clock(s: Seq<Version>) -> Map<u64, u64>
    decreases s.len(),
{
    if s.len() == 0 {
        Map::empty()
    } else {
        clock_apply(seq_clock(s.drop_last()), s.last())
    }
}

/// A mapping from actor to counter that tracks causality between replicas.
#[derive(Debug, Hash)]
pub struct VectorClock {
    entries: Vec<Version>,
}

impl View for VectorClock {
    type V = Map<u64, u64>;

    closed spec fn view(&self) -> Map<u64, u64> {
        Map::new(
            |a: u64| counter_in(self.entries@, a) > 0,
            |a: u64| counter_in(self.entries@, a),
        )
    }
}

proof fn lemma_counter_at(s: Seq<Version>, i: int)
    requires
        canonical(s),
        0 <= i < s.len(),
    ensures
        counter_in(s, s[i].actor) == s[i].counter,
    decreases s.len(),
{
    if i < s.len() - 1 {
        assert(canonical(s.drop_last()));
        lemma_counter_at(s.drop_last(), i);
    }
}

proof fn lemma_counter_absent(s: Seq<Version>, a: u64)
    requires
        forall|i: int| 0 <= i < s.len() ==> s[i].actor != a,
    ensures
        counter_in(s, a) == 0,
    decreases s.len(),
{
    if s.len() > 0 {
        lemma_counter_absent(s.drop_last(), a);
    }
}

/// In a canonical sequence the counter of `a` is that of its one entry, or zero.
pub proof fn lemma_counter_cases(s: Seq<Version>, a: u64)
    requires
        canonical(s),
    ensures
        (exists|i: int| 0 <= i < s.len() && s[i].actor == a)
            ==> counter_in(s, a) > 0,
        (forall|i: int| 0 <= i < s.len() ==> s[i].actor != a) ==> counter_in(s, a) == 0,
        forall|i: int| 0 <= i < s.len() && s[i].actor == a ==> counter_in(s, a) == s[i].counter,
{
    assert forall|i: int| 0 <= i < s.len() && s[i].actor == a implies counter_in(s, a)
        == s[i].counter by {
        lemma_counter_at(s, i);
    }
    if forall|i: int| 0 <= i < s.len() ==> s[i].actor != a {
        lemma_counter_absent(s, a);
    }
}

proof fn lemma_counter_push(s: Seq<Version>, v: Version, a: u64)
    ensures
        counter_in(s.push(v), a) == (if v.actor == a {
            v.counter
        } else {
            counter_in(s, a)
        }),
{
    assert(s.push(v).drop_last() =~= s);
}

/// Two canonical sequences with the same counters are the same sequence.
proof fn lemma_canonical_unique(s1: Seq<Version>, s2: Seq<Version>)
    requires
        canonical(s1),
        canonical(s2),
        forall|a: u64| #![auto] counter_in(s1, a) == counter_in(s2, a),
    ensures
        s1 == s2,
    decreases s1.len() + s2.len(),
{
    if s1.len() == 0 || s2.len() == 0 {
        if s1.len() > 0 {
            lemma_counter_at(s1, 0);
            assert(counter_in(s2, s1[0].actor) == 0);
        }
        if s2.len() > 0 {
            lemma_counter_at(s2, 0);
            assert(counter_in(s1, s2[0].actor) == 0);
        }
        assert(s1 =~= s2);
    } else {
        let x = s1.last();
        let y = s2.last();
        lemma_counter_at(s1, s1.len() - 1);
        lemma_counter_at(s2, s2.len() - 1);
        if x.actor < y.actor {
            lemma_counter_absent(s1, y.actor);
            assert(false);
        }
        if y.actor < x.actor {
            lemma_counter_absent(s2, x.actor);
            assert(false);
        }
        let d1 = s1.drop_last();
        let d2 = s2.drop_last();
        assert(canonical(d1));
        assert(canonical(d2));
        assert forall|a: u64| #![auto] counter_in(d1, a) == counter_in(d2, a) by {
            assert(counter_in(s1, a) == counter_in(s2, a));
            if a == x.actor {
                lemma_counter_absent(d1, a);
                lemma_counter_absent(d2, a);
            }
        }
        lemma_canonical_unique(d1, d2);
        assert(s1 =~= d1.push(x));
        assert(s2 =~= d2.push(y));
    }
}

impl VectorClock {
    /// The representation invariant.
    pub closed spec fn wf(&self) -> bool {
        canonical(self.entries@)
    }

    #[verifier::type_invariant]
    pub open spec fn inv(&self) -> bool {
        self.wf()
    }

    /// Both clocks hold the same entries; for well-formed clocks this is
    /// `self@ == other@`.
    pub closed spec fn same_spec(&self, other: &VectorClock) -> bool {
        self.entries@ == other.entries@
    }

    /// Equal entries are equal counters, and conversely.
    pub proof fn lemma_same_spec(&self, other: &VectorClock)
        requires
            self.wf(),
            other.wf(),
        ensures
            self.same_spec(other) <==> self@ == other@,
    {
        self.lemma_same(other);
    }

    /// The counter of `a`, zero where absent.
    pub open spec fn spec_get(&self, a: u64) -> u64 {
        clock_get(self@, a)
    }


    /// Every stored counter is positive.
    pub proof fn lemma_valid(&self)
        requires
            self.wf(),
        ensures
            clock_valid(self@),
    {
    }

    pub fn new() -> (r: VectorClock)
        ensures
            r.wf(),
            r@ == Map::<u64, u64>::empty(),
    {
        let r = VectorClock { entries: Vec::new() };
        assert(r@ =~= Map::<u64, u64>::empty());
        r
    }

    /// The first index whose actor is at least `actor`.
    fn position(&self, actor: u64) -> (i: usize)
        ensures
            i <= self.entries.len(),
            forall|j: int| 0 <= j < i ==> self.entries@[j].actor < actor,
            i < self.entries.len() ==> self.entries@[i as int].actor >= actor,
    {
        let mut i: usize = 0;
        while i < self.entries.len() && self.entries[i].actor < actor
            invariant
                i <= self.entries.len(),
                forall|j: int| 0 <= j < i ==> self.entries@[j].actor < actor,
            decreases self.entries.len() - i,
        {
            i = i + 1;
        }
        i
    }

    pub fn get(&self, actor: &u64) -> (r: u64)
        requires
            self.wf(),
        ensures
            r == self.spec_get(*actor),
    {
        self.lookup(actor)
    }

    fn lookup(&self, actor: &u64) -> (r: u64)
        ensures
            self.wf() ==> r == self.spec_get(*actor),
    {
        let i = self.position(*actor);
        if i < self.entries.len() && self.entries[i].actor == *actor {
            proof {
                if self.wf() {
                    lemma_counter_cases(self.entries@, *actor);
                }
            }
            self.entries[i].counter
        } else {
            proof {
                if self.wf() {
                lemma_counter_cases(self.entries@, *actor);
                assert forall|j: int| 0 <= j < self.entries.len() implies self.entries@[j].actor
                    != *actor by {
                    if j > i {
                        assert(self.entries@[i as int].actor < self.entries@[j].actor);
                    }
                }
                }
            }
            0
        }
    }

    /// The version of `actor` that this clock has seen.
    pub fn version(&self, actor: u64) -> (r: Version)
        requires
            self.wf(),
        ensures
            r.actor == actor,
            r.counter == self.spec_get(actor),
    {
        let counter = self.get(&actor);
        Version::new(actor, counter)
    }

    /// The next version of `actor`; the clock itself is unchanged.
    pub fn increment(&self, actor: u64) -> (r: Version)
        requires
            self.wf(),
            self.spec_get(actor) < u64::MAX,
        ensures
            r.actor == actor,
            r.counter == self.spec_get(actor) + 1,
    {
        self.version(actor).inc()
    }

    pub fn is_empty(&self) -> (r: bool)
        requires
            self.wf(),
        ensures
            r <==> self@ == Map::<u64, u64>::empty(),
    {
        proof {
            if self.entries.len() > 0 {
                lemma_counter_at(self.entries@, 0);
                assert(self@.contains_key(self.entries@[0].actor));
            } else {
                assert(self@ =~= Map::<u64, u64>::empty());
            }
        }
        self.entries.len() == 0
    }

    /// Observes `v`: the counter of its actor becomes the larger of the two.
    pub fn apply(&mut self, v: Version)
        requires
            old(self).wf(),
        ensures
            final(self).wf(),
            final(self)@ == clock_apply(old(self)@, v),
    {
        let i = self.position(v.actor);
        let ghost s = self.entries@;
        proof {
            lemma_counter_cases(s, v.actor);
        }
        if i < self.entries.len() && self.entries[i].actor == v.actor {
            if self.entries[i].counter < v.counter {
                let mut entries: Vec<Version> = Vec::new();
                std::mem::swap(&mut entries, &mut self.entries);
                entries.set(i, v);
                self.entries = entries;
                proof {
                    let t = self.entries@;
                    assert(canonical(t));
                    assert forall|a: u64|
                        counter_in(t, a) == (if a == v.actor {
                            v.counter
                        } else {
                            counter_in(s, a)
                        }) by {
                        lemma_counter_cases(s, a);
                        lemma_counter_cases(t, a);
                        assert(t[i as int] == v);
                        if a != v.actor {
                            if exists|j: int| 0 <= j < s.len() && s[j].actor == a {
                                let j = choose|j: int| 0 <= j < s.len() && s[j].actor == a;
                                assert(t[j] == s[j]);
                            } else {
                                assert forall|k: int| 0 <= k < t.len() implies t[k].actor
                                    != a by {
                                    if k != i {
                                        assert(t[k] == s[k]);
                                    }
                                }
                            }
                        }
                    }
                    assert(self@ =~= clock_apply(old(self)@, v));
                }
            } else {
                proof {
                    assert(clock_apply(old(self)@, v) =~= old(self)@);
                }
            }
        } else if v.counter > 0 {
            let mut entries: Vec<Version> = Vec::new();
            std::mem::swap(&mut entries, &mut self.entries);
            entries.insert(i, v);
            self.entries = entries;
            proof {
                let t = self.entries@;
                assert forall|p: int, q: int| 0 <= p < q < t.len() implies t[p].actor
                    < t[q].actor by {
                    if q < i {
                    } else if q == i {
                    } else if p < i {
                    } else if p == i {
                        assert(s[q - 1].actor >= v.actor);
                    } else {
                    }
                }
                assert(canonical(t));
                assert forall|a: u64|
                    counter_in(t, a) == (if a == v.actor {
                        v.counter
                    } else {
                        counter_in(s, a)
                    }) by {
                    lemma_counter_cases(s, a);
                    lemma_counter_cases(t, a);
                    assert(t[i as int] == v);
                    if a == v.actor {
                        assert(counter_in(t, a) == t[i as int].counter);
                    } else {
                        if exists|j: int| 0 <= j < s.len() && s[j].actor == a {
                            let j = choose|j: int| 0 <= j < s.len() && s[j].actor == a;
                            assert(counter_in(s, a) == s[j].counter);
                            if j < i {
                                assert(t[j] == s[j]);
                                assert(counter_in(t, a) == t[j].counter);
                            } else {
                                assert(t[j + 1] == s[j]);
                                assert(counter_in(t, a) == t[j + 1].counter);
                            }
                        } else {
                            assert forall|k: int| 0 <= k < t.len() implies t[k].actor != a by {
                                if k < i {
                                    assert(t[k] == s[k]);
                                } else if k > i {
                                    assert(t[k] == s[k - 1]);
                                }
                            }
                            assert(counter_in(t, a) == 0);
                        }
                    }
                }
                assert(self@ =~= clock_apply(old(self)@, v));
            }
        } else {
            proof {
                assert(clock_apply(old(self)@, v) =~= old(self)@);
            }
        }
    }

    /// Refuses a version that would leave a gap in its actor's events.
    pub fn validate_operation(&self, v: &Version) -> (r: Result<(), VersionRange>)
        requires
            self.wf(),
        ensures
            r is Err <==> v.counter > self.spec_get(v.actor) + 1,
            r matches Err(e) ==> e.actor == v.actor && e.counter_range.start == self.spec_get(
                v.actor,
            ) + 1 && e.counter_range.end == v.counter,
    {
        let current = self.get(&v.actor);
        if v.counter > current && v.counter - current > 1 {
            Err(VersionRange { actor: v.actor, counter_range: (current + 1)..v.counter })
        } else {
            Ok(())
        }
    }

    /// Pointwise maximum with `other`.
    pub fn merge(&mut self, other: VectorClock)
        requires
            old(self).wf(),
            other.wf(),
        ensures
            final(self).wf(),
            final(self)@ == clock_join(old(self)@, other@),
    {
        let ghost o = other.entries@;
        let mut k: usize = 0;
        while k < other.entries.len()
            invariant
                self.wf(),
                o == other.entries@,
                canonical(o),
                k <= o.len(),
                forall|a: u64|
                    #![trigger counter_in(o.take(k as int), a)]
                    self.spec_get(a) == (if old(self).spec_get(a) >= counter_in(
                        o.take(k as int),
                        a,
                    ) {
                        old(self).spec_get(a)
                    } else {
                        counter_in(o.take(k as int), a)
                    }),
            decreases o.len() - k,
        {
            let v = other.entries[k];
            let ghost prev = *self;
            self.apply(v);
            proof {
                assert(o.take(k + 1) =~= o.take(k as int).push(v));
                lemma_counter_absent(o.take(k as int), v.actor);
                assert forall|a: u64|
                    #![trigger counter_in(o.take(k + 1), a)]
                    self.spec_get(a) == (if old(self).spec_get(a) >= counter_in(o.take(k + 1), a) {
                        old(self).spec_get(a)
                    } else {
                        counter_in(o.take(k + 1), a)
                    }) by {
                    lemma_counter_push(o.take(k as int), v, a);
                    assert(counter_in(o.take(k as int), a) == counter_in(o.take(k as int), a));
                    assert(prev.spec_get(a) == prev.spec_get(a));
                }
            }
            k = k + 1;
        }
        proof {
            assert(o.take(o.len() as int) =~= o);
            assert forall|a: u64| #![auto] counter_in(o, a) == other.spec_get(a) by {}
            assert(self@ =~= clock_join(old(self)@, other@));
        }
    }

    /// Erases every actor slot that `base` covers: those whose counter in `base`
    /// is at least the counter here.
    pub fn reset_remove(&mut self, base: &VectorClock)
        requires
            old(self).wf(),
            base.wf(),
        ensures
            final(self).wf(),
            final(self)@ == clock_reset(old(self)@, base@),
    {
        let ghost s = self.entries@;
        let mut kept: Vec<Version> = Vec::new();
        let mut i: usize = 0;
        while i < self.entries.len()
            invariant
                s == self.entries@,
                canonical(s),
                base.wf(),
                i <= s.len(),
                canonical(kept@),
                forall|p: int, m: int|
                    0 <= p < kept.len() && i <= m < s.len() ==> kept@[p].actor < s[m].actor,
                forall|a: u64|
                    #![trigger counter_in(kept@, a)]
                    counter_in(kept@, a) == (if counter_in(s.take(i as int), a)
                        > base.spec_get(a) {
                        counter_in(s.take(i as int), a)
                    } else {
                        0
                    }),
            decreases s.len() - i,
        {
            let v = self.entries[i];
            proof {
                assert(s.take(i + 1) =~= s.take(i as int).push(v));
                lemma_counter_absent(s.take(i as int), v.actor);
            }
            let ghost before = kept@;
            if v.counter > base.get(&v.actor) {
                kept.push(v);
            }
            proof {
                assert forall|a: u64| #![auto] counter_in(s.take(i + 1), a) == (if v.actor == a {
                    v.counter
                } else {
                    counter_in(s.take(i as int), a)
                }) by {
                    lemma_counter_push(s.take(i as int), v, a);
                }
                assert forall|a: u64| #![auto] counter_in(kept@, a) == (if kept@ == before {
                    counter_in(before, a)
                } else if v.actor == a {
                    v.counter
                } else {
                    counter_in(before, a)
                }) by {
                    lemma_counter_push(before, v, a);
                }
            }
            i = i + 1;
        }
        proof {
            assert(s.take(s.len() as int) =~= s);
        }
        self.entries = kept;
        proof {
            assert(self@ =~= clock_reset(old(self)@, base@));
        }
    }

    /// A copy of this clock with the slots that `base` covers erased.
    pub fn clone_without(&self, base: &VectorClock) -> (r: VectorClock)
        requires
            self.wf(),
            base.wf(),
        ensures
            r.wf(),
            r@ == clock_reset(self@, base@),
    {
        let mut cloned = self.clone();
        cloned.reset_remove(base);
        cloned
    }

    /// The entries on which `left` and `right` agree.
    pub fn intersection(left: &VectorClock, right: &VectorClock) -> (r: VectorClock)
        requires
            left.wf(),
            right.wf(),
        ensures
            r.wf(),
            r@ == clock_common(left@, right@),
    {
        let ghost s = left.entries@;
        let mut kept: Vec<Version> = Vec::new();
        let mut i: usize = 0;
        while i < left.entries.len()
            invariant
                s == left.entries@,
                canonical(s),
                right.wf(),
                i <= s.len(),
                canonical(kept@),
                forall|p: int, m: int|
                    0 <= p < kept.len() && i <= m < s.len() ==> kept@[p].actor < s[m].actor,
                forall|a: u64|
                    #![trigger counter_in(kept@, a)]
                    counter_in(kept@, a) == (if counter_in(s.take(i as int), a)
                        == right.spec_get(a) {
                        counter_in(s.take(i as int), a)
                    } else {
                        0
                    }),
            decreases s.len() - i,
        {
            let v = left.entries[i];
            proof {
                assert(s.take(i + 1) =~= s.take(i as int).push(v));
                lemma_counter_absent(s.take(i as int), v.actor);
            }
            let ghost before = kept@;
            if right.get(&v.actor) == v.counter {
                kept.push(v);
            }
            proof {
                assert forall|a: u64| #![auto] counter_in(s.take(i + 1), a) == (if v.actor == a {
                    v.counter
                } else {
                    counter_in(s.take(i as int), a)
                }) by {
                    lemma_counter_push(s.take(i as int), v, a);
                }
                assert forall|a: u64| #![auto] counter_in(kept@, a) == (if kept@ == before {
                    counter_in(before, a)
                } else if v.actor == a {
                    v.counter
                } else {
                    counter_in(before, a)
                }) by {
                    lemma_counter_push(before, v, a);
                }
            }
            i = i + 1;
        }
        proof {
            assert(s.take(s.len() as int) =~= s);
        }
        let r = VectorClock { entries: kept };
        proof {
            assert(r@ =~= clock_common(left@, right@));
        }
        r
    }

    /// Lowers this clock to the pointwise minimum with `other`, dropping zeros.
    pub fn greatest_lower_bound(&mut self, other: &VectorClock)
        requires
            old(self).wf(),
            other.wf(),
        ensures
            final(self).wf(),
            final(self)@ == clock_meet(old(self)@, other@),
    {
        let ghost s = self.entries@;
        let mut kept: Vec<Version> = Vec::new();
        let mut i: usize = 0;
        while i < self.entries.len()
            invariant
                s == self.entries@,
                canonical(s),
                other.wf(),
                i <= s.len(),
                canonical(kept@),
                forall|p: int, m: int|
                    0 <= p < kept.len() && i <= m < s.len() ==> kept@[p].actor < s[m].actor,
                forall|a: u64|
                    #![trigger counter_in(kept@, a)]
                    counter_in(kept@, a) == (if counter_in(s.take(i as int), a)
                        <= other.spec_get(a) {
                        counter_in(s.take(i as int), a)
                    } else {
                        other.spec_get(a)
                    }),
            decreases s.len() - i,
        {
            let v = self.entries[i];
            proof {
                assert(s.take(i + 1) =~= s.take(i as int).push(v));
                lemma_counter_absent(s.take(i as int), v.actor);
            }
            let ghost before = kept@;
            let bound = other.get(&v.actor);
            let low = if v.counter <= bound {
                v.counter
            } else {
                bound
            };
            let w = Version { actor: v.actor, counter: low };
            if bound > 0 {
                kept.push(w);
            }
            proof {
                assert forall|a: u64| #![auto] counter_in(s.take(i + 1), a) == (if v.actor == a {
                    v.counter
                } else {
                    counter_in(s.take(i as int), a)
                }) by {
                    lemma_counter_push(s.take(i as int), v, a);
                }
                assert forall|a: u64| #![auto] counter_in(kept@, a) == (if bound == 0 {
                    counter_in(before, a)
                } else if v.actor == a {
                    low
                } else {
                    counter_in(before, a)
                }) by {
                    lemma_counter_push(before, w, a);
                }
            }
            i = i + 1;
        }
        proof {
            assert(s.take(s.len() as int) =~= s);
        }
        self.entries = kept;
        proof {
            assert(self@ =~= clock_meet(old(self)@, other@));
        }
    }

    /// Whether both clocks hold the same entries.
    fn same_entries(&self, other: &VectorClock) -> (r: bool)
        ensures
            r <==> self.entries@ == other.entries@,
    {
        if self.entries.len() != other.entries.len() {
            return false;
        }
        let mut i: usize = 0;
        while i < self.entries.len()
            invariant
                i <= self.entries.len(),
                self.entries.len() == other.entries.len(),
                forall|j: int| 0 <= j < i ==> self.entries@[j] == other.entries@[j],
            decreases self.entries.len() - i,
        {
            if self.entries[i].actor != other.entries[i].actor || self.entries[i].counter
                != other.entries[i].counter {
                return false;
            }
            i = i + 1;
        }
        proof {
            assert(self.entries@ =~= other.entries@);
        }
        true
    }

    proof fn lemma_same(&self, other: &VectorClock)
        requires
            self.wf(),
            other.wf(),
        ensures
            self.entries@ == other.entries@ <==> self@ == other@,
    {
        if self@ == other@ {
            assert forall|a: u64| #![auto]
                counter_in(self.entries@, a) == counter_in(other.entries@, a) by {
                assert(self@.contains_key(a) == other@.contains_key(a));
                if self@.contains_key(a) {
                    assert(self@[a] == other@[a]);
                }
            }
            lemma_canonical_unique(self.entries@, other.entries@);
        }
    }

    /// Whether both clocks hold the same counters.
    pub fn same(&self, other: &VectorClock) -> (r: bool)
        requires
            self.wf(),
            other.wf(),
        ensures
            r <==> self@ == other@,
    {
        proof {
            self.lemma_same(other);
        }
        self.same_entries(other)
    }

    /// Whether this clock has seen every event that `other` has.
    pub fn dominates_clock(&self, other: &VectorClock) -> (r: bool)
        requires
            self.wf(),
            other.wf(),
        ensures
            r <==> dominates(self@, other@),
    {
        self.covers(other)
    }

    fn covers(&self, other: &VectorClock) -> (r: bool)
        ensures
            self.wf() && other.wf() ==> (r <==> dominates(self@, other@)),
    {
        let mut i: usize = 0;
        while i < other.entries.len()
            invariant
                i <= other.entries.len(),
                self.wf() ==> forall|j: int|
                    0 <= j < i ==> self.spec_get(other.entries@[j].actor)
                        >= other.entries@[j].counter,
            decreases other.entries.len() - i,
        {
            let v = other.entries[i];
            if self.lookup(&v.actor) < v.counter {
                proof {
                    if self.wf() && other.wf() {
                    lemma_counter_at(other.entries@, i as int);
                    assert(clock_get(other@, v.actor) == v.counter);
                    }
                }
                return false;
            }
            i = i + 1;
        }
        proof {
            if self.wf() && other.wf() {
                assert forall|a: u64| clock_get(self@, a) >= clock_get(other@, a) by {
                    lemma_counter_cases(other.entries@, a);
                }
            }
        }
        true
    }

    /// Where this clock stands against `other` in the causal order; `None`
    /// when the two are concurrent.
    pub fn compare(&self, other: &VectorClock) -> (r: Option<core::cmp::Ordering>)
        requires
            self.wf(),
            other.wf(),
        ensures
            r == clock_cmp(self@, other@),
    {
        self.order(other)
    }

    fn order(&self, other: &VectorClock) -> (r: Option<core::cmp::Ordering>)
        ensures
            self.wf() && other.wf() ==> r == clock_cmp(self@, other@),
    {
        proof {
            if self.wf() && other.wf() {
                self.lemma_same(other);
            }
        }
        if self.same_entries(other) {
            Some(core::cmp::Ordering::Equal)
        } else if self.covers(other) {
            Some(core::cmp::Ordering::Greater)
        } else if other.covers(self) {
            Some(core::cmp::Ordering::Less)
        } else {
            None
        }
    }

    /// True when neither clock has seen all the events of the other.
    pub fn concurrent(&self, other: &VectorClock) -> (r: bool)
        requires
            self.wf(),
            other.wf(),
        ensures
            r <==> clock_cmp(self@, other@) is None,
    {
        self.compare(other).is_none()
    }

    /// The versions of this clock, in increasing actor order.
    pub fn iterator(&self) -> (r: Vec<Version>)
        requires
            self.wf(),
        ensures
            canonical(r@),
            forall|a: u64| #![auto] counter_in(r@, a) == self.spec_get(a),
    {
        let c = self.clone();
        c.entries
    }

    /// The clock that has seen exactly the given versions.
    pub fn from_versions(versions: Vec<Version>) -> (r: VectorClock)
        ensures
            r.wf(),
            r@ == seq_clock(versions@),
    {
        let mut clock = VectorClock::new();
        let mut i: usize = 0;
        while i < versions.len()
            invariant
                i <= versions.len(),
                clock.wf(),
                clock@ == seq_clock(versions@.take(i as int)),
            decreases versions.len() - i,
        {
            clock.apply(versions[i]);
            proof {
                assert(versions@.take(i + 1).drop_last() =~= versions@.take(i as int));
            }
            i = i + 1;
        }
        proof {
            assert(versions@.take(versions.len() as int) =~= versions@);
        }
        clock
    }
}

impl Clone for VectorClock {
    fn clone(&self) -> (r: VectorClock)
        ensures
            r@ == self@,
            self.wf() ==> r.wf(),
    {
        proof {
            use_type_invariant(self);
        }
        let mut entries: Vec<Version> = Vec::new();
        let mut i: usize = 0;
        while i < self.entries.len()
            invariant
                i <= self.entries.len(),
                entries@ == self.entries@.take(i as int),
            decreases self.entries.len() - i,
        {
            entries.push(self.entries[i]);
            i = i + 1;
            assert(entries@ =~= self.entries@.take(i as int));
        }
        assert(entries@ =~= self.entries@);
        let r = VectorClock { entries };
        assert(r@ =~= self@);
        r
    }
}

impl Replica for VectorClock {
    type Model = Map<u64, u64>;

    open spec fn valid(&self) -> bool {
        self.wf()
    }

    open spec fn model(&self) -> Map<u64, u64> {
        self@
    }
}

impl CmRDT for VectorClock {
    type Operation = Version;

    type Validation = VersionRange;

    open spec fn operation_valid(op: &Version) -> bool {
        true
    }

    open spec fn operation_ok(m: Map<u64, u64>, op: &Version) -> bool {
        op.counter <= clock_get(m, op.actor) + 1
    }

    open spec fn applied(before: Map<u64, u64>, op: Version, after: Map<u64, u64>) -> bool {
        after == clock_apply(before, op)
    }

    fn validate_operation(&self, op: &Version) -> (r: Result<(), VersionRange>) {
        VectorClock::validate_operation(self, op)
    }

    fn apply(&mut self, op: Version) {
        VectorClock::apply(self, op)
    }
}

impl CvRDT for VectorClock {
    type Validation = core::convert::Infallible;

    open spec fn merge_ok(a: Map<u64, u64>, b: Map<u64, u64>) -> bool {
        true
    }

    open spec fn merged(a: Map<u64, u64>, b: Map<u64, u64>, c: Map<u64, u64>) -> bool {
        c == clock_join(a, b)
    }

    fn validate_merge(&self, other: &VectorClock) -> (r: Result<(), core::convert::Infallible>)
        ensures
            r is Ok,
    {
        Ok(())
    }

    fn merge(&mut self, other: VectorClock) {
        VectorClock::merge(self, other)
    }
}

impl ResetRemove for VectorClock {
    open spec fn reset(before: Map<u64, u64>, base: Map<u64, u64>, after: Map<u64, u64>) -> bool {
        after == clock_reset(before, base)
    }

    fn reset_remove(&mut self, clock: &VectorClock) {
        VectorClock::reset_remove(self, clock)
    }
}

impl Default for VectorClock {
    fn default() -> (r: VectorClock)
        ensures
            r.wf(),
            r@ == Map::<u64, u64>::empty(),
    {
        VectorClock::new()
    }
}

impl PartialEq for VectorClock {
    fn eq(&self, other: &VectorClock) -> (r: bool) {
        proof {
            use_type_invariant(self);
            use_type_invariant(other);
        }
        self.same(other)
    }
}

impl vstd::std_specs::cmp::PartialEqSpecImpl for VectorClock {
    open spec fn obeys_eq_spec() -> bool {
        true
    }

    open spec fn eq_spec(&self, other: &VectorClock) -> bool {
        self@ == other@
    }
}

impl Eq for VectorClock {

}

impl PartialOrd for VectorClock {
    fn partial_cmp(&self, other: &VectorClock) -> (r: Option<core::cmp::Ordering>) {
        proof {
            use_type_invariant(self);
            use_type_invariant(other);
        }
        self.order(other)
    }
}

/// The causal order of the clocks' counters.
impl vstd::std_specs::cmp::PartialOrdSpecImpl for VectorClock {
    open spec fn obeys_partial_cmp_spec() -> bool {
        true
    }

    open spec fn partial_cmp_spec(&self, other: &VectorClock) -> Option<core::cmp::Ordering> {
        clock_cmp(self@, other@)
    }
}

} // verus!

verus! {

/// Observing the same version twice has the effect of observing it once.
pub proof fn law_apply_idempotent(c: VectorClock, v: Version)
    requires
        c.wf(),
    ensures
        clock_apply(clock_apply(c@, v), v) == clock_apply(c@, v),
{
}

/// Observing two versions in either order gives the same clock.
pub proof fn law_apply_commutes(c: VectorClock, v: Version, w: Version)
    requires
        c.wf(),
    ensures
        clock_apply(clock_apply(c@, v), w) == clock_apply(clock_apply(c@, w), v),
{
    assert(clock_apply(clock_apply(c@, v), w) =~= clock_apply(clock_apply(c@, w), v));
}

/// Observing a version never lowers a counter.
pub proof fn law_apply_monotone(c: VectorClock, v: Version)
    requires
        c.wf(),
    ensures
        dominates(clock_apply(c@, v), c@),
{
}

/// Once a version is observed it counts as seen, so replaying the operation
/// that carries it is stale: a list or map applies such an operation as a
/// no-op.
pub proof fn law_apply_marks_seen(c: VectorClock, v: Version)
    requires
        c.wf(),
    ensures
        v.counter <= clock_get(clock_apply(c@, v), v.actor),
{
}

/// Merging a clock with itself changes nothing.
pub proof fn law_merge_idempotent(c: VectorClock)
    requires
        c.wf(),
    ensures
        clock_join(c@, c@) == c@,
{
    assert(clock_join(c@, c@) =~= c@);
}

/// Merge is commutative.
pub proof fn law_merge_commutative(a: VectorClock, b: VectorClock)
    requires
        a.wf(),
        b.wf(),
    ensures
        clock_join(a@, b@) == clock_join(b@, a@),
{
    assert(clock_join(a@, b@) =~= clock_join(b@, a@));
}

/// Merge is associative.
pub proof fn law_merge_associative(a: VectorClock, b: VectorClock, c: VectorClock)
    requires
        a.wf(),
        b.wf(),
        c.wf(),
    ensures
        clock_join(clock_join(a@, b@), c@) == clock_join(a@, clock_join(b@, c@)),
{
    assert(clock_join(clock_join(a@, b@), c@) =~= clock_join(a@, clock_join(b@, c@)));
}

/// Merging never lowers a counter of either side.
pub proof fn law_merge_monotone(a: VectorClock, b: VectorClock)
    requires
        a.wf(),
        b.wf(),
    ensures
        dominates(clock_join(a@, b@), a@),
        dominates(clock_join(a@, b@), b@),
{
}

/// Reset-remove only removes entries, and a larger base removes more.
pub proof fn law_reset_remove_shrinks(c: VectorClock, base: VectorClock, larger: VectorClock)
    requires
        c.wf(),
        base.wf(),
        larger.wf(),
        dominates(larger@, base@),
    ensures
        clock_reset(c@, base@).submap_of(c@),
        clock_reset(c@, larger@).submap_of(clock_reset(c@, base@)),
{
    assert forall|a: u64| #[trigger] clock_reset(c@, larger@).contains_key(a) implies clock_reset(
        c@,
        base@,
    ).contains_key(a) by {
        assert(clock_get(larger@, a) >= clock_get(base@, a));
    }
}

/// Reset-remove by the same base twice is reset-remove once.
pub proof fn law_reset_remove_idempotent(c: VectorClock, base: VectorClock)
    requires
        c.wf(),
        base.wf(),
    ensures
        clock_reset(clock_reset(c@, base@), base@) == clock_reset(c@, base@),
{
    assert(clock_reset(clock_reset(c@, base@), base@) =~= clock_reset(c@, base@));
}

} // verus!
