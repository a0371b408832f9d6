//! The multi-value register: concurrent writes are all kept.
use vstd::prelude::*;
use vstd::std_specs::cmp::PartialEqSpec;
use crate::base::{Add, Read};
use crate::traits::{CmRDT, CvRDT, Replica, ResetRemove};
use crate::vector_clock::{clock_cmp, clock_join, clock_reset, VectorClock};

verus! {

/// `a` happened strictly before `b`.
pub open spec fn clock_lt(a: Map<u64, u64>, b: Map<u64, u64>) -> bool {
    clock_cmp(a, b) == Some(core::cmp::Ordering::Less)
}

/// An entry stays when a write with clock `c` arrives unless `c` has seen it.
pub open spec fn survives_put<V>(c: Map<u64, u64>, e: (Map<u64, u64>, V)) -> bool {
    clock_cmp(e.0, c) is None || clock_cmp(e.0, c) == Some(core::cmp::Ordering::Greater)
}

/// The entries after a write of `v` with clock `c`.
pub open spec fn mv_put<V>(s: Seq<(Map<u64, u64>, V)>, c: Map<u64, u64>, v: V) -> Seq<
    (Map<u64, u64>, V),
> {
    if c == Map::<u64, u64>::empty() {
        s
    } else {
        let kept = s.filter(|e: (Map<u64, u64>, V)| survives_put(c, e));
        if exists|i: int|
            0 <= i < kept.len() && clock_cmp(kept[i].0, c) == Some(
                core::cmp::Ordering::Greater,
            ) {
            kept
        } else {
            kept.push((c, v))
        }
    }
}

/// Some clock of `o` is strictly after `c`.
pub open spec fn overtaken<V>(c: Map<u64, u64>, o: Seq<(Map<u64, u64>, V)>) -> bool {
    exists|j: int| 0 <= j < o.len() && clock_lt(c, o[j].0)
}

/// Some entry of `o` has clock `c`.
pub open spec fn holds_clock<V>(c: Map<u64, u64>, o: Seq<(Map<u64, u64>, V)>) -> bool {
    exists|j: int| 0 <= j < o.len() && o[j].0 == c
}

/// The entries of `s` that no entry of `o` has overtaken.
pub open spec fn mv_kept<V>(s: Seq<(Map<u64, u64>, V)>, o: Seq<(Map<u64, u64>, V)>) -> Seq<
    (Map<u64, u64>, V),
> {
    s.filter(|e: (Map<u64, u64>, V)| !overtaken(e.0, o))
}

/// The entries after a state merge of `o` into `s`.
pub open spec fn mv_merge<V>(s: Seq<(Map<u64, u64>, V)>, o: Seq<(Map<u64, u64>, V)>) -> Seq<
    (Map<u64, u64>, V),
> {
    let kept = mv_kept(s, o);
    kept + o.filter(|e: (Map<u64, u64>, V)| !overtaken(e.0, kept) && !holds_clock(e.0, kept))
}

/// The entries after reset-remove by `base`: each clock is reset and entries
/// whose clock empties are dropped.
pub open spec fn mv_reset<V>(s: Seq<(Map<u64, u64>, V)>, base: Map<u64, u64>) -> Seq<
    (Map<u64, u64>, V),
> {
    s.map_values(|e: (Map<u64, u64>, V)| (clock_reset(e.0, base), e.1)).filter(
        |e: (Map<u64, u64>, V)| e.0 != Map::<u64, u64>::empty(),
    )
}

/// The union of the clocks of all entries.
pub open spec fn mv_clock<V>(s: Seq<(Map<u64, u64>, V)>) -> Map<u64, u64>
    decreases s.len(),
{
    if s.len() == 0 {
        Map::empty()
    } else {
        clock_join(mv_clock(s.drop_last()), s.last().0)
    }
}

/// A register that keeps every value written concurrently, each with the
/// clock of its write.
#[derive(Debug, Clone)]
pub struct MultiValue<V> {
    values: Vec<(VectorClock, V)>,
}

/// The one operation of a register: a write.
#[derive(Debug, Clone, PartialEq, Eq)]
pub enum Operation<V> {
    Put { clock: VectorClock, value: V },
}

pub open spec fn entry_view<V>(e: (VectorClock, V)) -> (Map<u64, u64>, V) {
    (e.0@, e.1)
}

/// The clock of a write is well formed.
pub open spec fn op_wf<V>(op: &Operation<V>) -> bool {
    match op {
        Operation::Put { clock, .. } => clock.wf(),
    }
}

/// Every clock is well formed and not empty.
pub open spec fn entries_wf<V>(s: Seq<(VectorClock, V)>) -> bool {
    forall|i: int| 0 <= i < s.len() ==> s[i].0.wf() && s[i].0@ != Map::<u64, u64>::empty()
}

impl<V> View for MultiValue<V> {
    type V = Seq<(Map<u64, u64>, V)>;

    closed spec fn view(&self) -> Seq<(Map<u64, u64>, V)> {
        self.values@.map_values(|e: (VectorClock, V)| entry_view(e))
    }
}

/// Whether an entry of `vs` has a clock strictly after `c`.
fn overtaken_in<V>(c: &VectorClock, vs: &Vec<(VectorClock, V)>) -> (r: bool)
    requires
        c.wf(),
        entries_wf(vs@),
    ensures
        r == overtaken(c@, vs@.map_values(|e: (VectorClock, V)| entry_view(e))),
{
    let ghost o = vs@.map_values(|e: (VectorClock, V)| entry_view(e));
    let mut j: usize = 0;
    while j < vs.len()
        invariant
            c.wf(),
            entries_wf(vs@),
            o == vs@.map_values(|e: (VectorClock, V)| entry_view(e)),
            j <= vs.len(),
            forall|k: int| 0 <= k < j ==> !clock_lt(c@, #[trigger] o[k].0),
        decreases vs.len() - j,
    {
        assert(o[j as int] == entry_view(vs@[j as int]));
        if let Some(core::cmp::Ordering::Less) = c.compare(&vs[j].0) {
            return true;
        }
        j = j + 1;
    }
    false
}

/// Whether an entry of `vs` has clock `c`.
fn holds_clock_in<V>(c: &VectorClock, vs: &Vec<(VectorClock, V)>) -> (r: bool)
    requires
        c.wf(),
        entries_wf(vs@),
    ensures
        r == holds_clock(c@, vs@.map_values(|e: (VectorClock, V)| entry_view(e))),
{
    let ghost o = vs@.map_values(|e: (VectorClock, V)| entry_view(e));
    let mut j: usize = 0;
    while j < vs.len()
        invariant
            c.wf(),
            entries_wf(vs@),
            o == vs@.map_values(|e: (VectorClock, V)| entry_view(e)),
            j <= vs.len(),
            forall|k: int| 0 <= k < j ==> #[trigger] o[k].0 != c@,
        decreases vs.len() - j,
    {
        assert(o[j as int] == entry_view(vs@[j as int]));
        if vs[j].0.same(c) {
            return true;
        }
        j = j + 1;
    }
    false
}

impl<V> MultiValue<V> {
    pub closed spec fn wf(&self) -> bool {
        entries_wf(self.values@)
    }

    pub fn new() -> (r: MultiValue<V>)
        ensures
            r.wf(),
            r@ == Seq::<(Map<u64, u64>, V)>::empty(),
    {
        let r = MultiValue { values: Vec::new() };
        assert(r@ =~= Seq::<(Map<u64, u64>, V)>::empty());
        r
    }

    /// The operation that writes `value` in the context of `a`.
    pub fn write(&self, value: V, a: Add) -> (r: Operation<V>)
        ensures
            r == (Operation::Put { clock: a.clock, value }),
    {
        Operation::Put { clock: a.clock, value }
    }

    /// The union of the clocks of all stored values.
    fn clock(&self) -> (r: VectorClock)
        requires
            self.wf(),
        ensures
            r.wf(),
            r@ == mv_clock(self@),
    {
        let mut clock = VectorClock::new();
        let mut i: usize = 0;
        while i < self.values.len()
            invariant
                self.wf(),
                i <= self.values.len(),
                clock.wf(),
                clock@ == mv_clock(self@.take(i as int)),
            decreases self.values.len() - i,
        {
            clock.merge(self.values[i].0.clone());
            proof {
                assert(self@.take(i + 1).drop_last() =~= self@.take(i as int));
            }
            i = i + 1;
        }
        proof {
            assert(self@.take(self.values.len() as int) =~= self@);
        }
        clock
    }

    /// The current values, read in the context of all their clocks.
    pub fn read(&self) -> (r: Read<Vec<V>>)
        where
            V: Clone,
        requires
            self.wf(),
        ensures
            r.wf(),
            r.add_clock@ == mv_clock(self@),
            r.rm_clock@ == mv_clock(self@),
            r.value.len() == self@.len(),
            forall|i: int| 0 <= i < self@.len() ==> cloned(self@[i].1, #[trigger] r.value[i]),
    {
        let clock = self.clock();
        let mut vals: Vec<V> = Vec::new();
        let mut i: usize = 0;
        while i < self.values.len()
            invariant
                i <= self.values.len(),
                vals.len() == i,
                forall|k: int| 0 <= k < i ==> cloned(self@[k].1, #[trigger] vals[k]),
            decreases self.values.len() - i,
        {
            vals.push(self.values[i].1.clone());
            i = i + 1;
        }
        Read { add_clock: clock.clone(), rm_clock: clock, value: vals }
    }

    /// The causal context of the register, without its values.
    pub fn read_all(&self) -> (r: Read<()>)
        requires
            self.wf(),
        ensures
            r.wf(),
            r.add_clock@ == mv_clock(self@),
            r.rm_clock@ == mv_clock(self@),
    {
        let clock = self.clock();
        Read { add_clock: clock.clone(), rm_clock: clock, value: () }
    }

    /// A copy of this register: the same clocks, each with a clone of its
    /// value.
    pub fn duplicate(&self) -> (r: MultiValue<V>)
        where
            V: Clone,
        requires
            self.wf(),
        ensures
            r.wf(),
            r@.len() == self@.len(),
            forall|i: int|
                0 <= i < self@.len() ==> (#[trigger] r@[i]).0 == self@[i].0 && cloned(
                    self@[i].1,
                    r@[i].1,
                ),
    {
        let mut values: Vec<(VectorClock, V)> = Vec::new();
        let mut i: usize = 0;
        while i < self.values.len()
            invariant
                self.wf(),
                i <= self.values.len(),
                values.len() == i,
                entries_wf(values@),
                forall|j: int|
                    0 <= j < i ==> (#[trigger] values@[j]).0@ == self.values@[j].0@ && cloned(
                        self.values@[j].1,
                        values@[j].1,
                    ),
            decreases self.values.len() - i,
        {
            let e = &self.values[i];
            values.push((e.0.clone(), e.1.clone()));
            i = i + 1;
        }
        let r = MultiValue { values };
        proof {
            assert forall|i: int| 0 <= i < self@.len() implies (#[trigger] r@[i]).0 == self@[i].0
                && cloned(self@[i].1, r@[i].1) by {
                assert(r@[i] == entry_view(r.values@[i]));
                assert(self@[i] == entry_view(self.values@[i]));
            }
        }
        r
    }

    /// Applies a write: entries whose clock the write has seen are dropped,
    /// and the write is kept unless a remaining entry has seen it.
    pub fn apply(&mut self, op: Operation<V>)
        requires
            old(self).wf(),
            op_wf(&op),
        ensures
            final(self).wf(),
            final(self)@ == (match op {
                Operation::Put { clock, value } => mv_put(old(self)@, clock@, value),
            }),
    {
        match op {
            Operation::Put { clock, value } => {
                if clock.is_empty() {
                    return ;
                }
                let ghost c = clock@;
                let ghost sv = self@;
                let mut rest: Vec<(VectorClock, V)> = Vec::new();
                std::mem::swap(&mut rest, &mut self.values);
                let ghost s = rest@;
                assert(sv == s.map_values(|e: (VectorClock, V)| entry_view(e)));
                let mut later = false;
                let ghost mut i: int = 0;
                while rest.len() > 0
                    invariant
                        clock.wf(),
                        c == clock@,
                        entries_wf(s),
                        sv == s.map_values(|e: (VectorClock, V)| entry_view(e)),
                        0 <= i <= s.len(),
                        rest@ == s.skip(i),
                        entries_wf(self.values@),
                        self@ == sv.take(i).filter(|e: (Map<u64, u64>, V)| survives_put(c, e)),
                        later <==> exists|k: int|
                            0 <= k < self@.len() && clock_cmp(self@[k].0, c) == Some(
                                core::cmp::Ordering::Greater,
                            ),
                    decreases rest.len(),
                {
                    let ghost before = self.values@;
                    let ghost before_view = self@;
                    let ghost later_before = later;
                    let e = rest.remove(0);
                    proof {
                        assert(s.skip(i)[0] == s[i]);
                        assert(sv[i] == entry_view(s[i]));
                        assert(rest@ =~= s.skip(i + 1));
                        assert(sv.take(i + 1).drop_last() =~= sv.take(i));
                        reveal(Seq::filter);
                    }
                    match e.0.compare(&clock) {
                        None => {
                            self.values.push(e);
                        },
                        Some(core::cmp::Ordering::Greater) => {
                            later = true;
                            self.values.push(e);
                        },
                        _ => {},
                    }
                    proof {
                        if self.values@.len() > before.len() {
                            assert(self.values@ == before.push(e));
                            assert(self@ =~= before.map_values(
                                |e: (VectorClock, V)| entry_view(e),
                            ).push(entry_view(e)));
                            assert(self@[self@.len() - 1] == entry_view(e));
                            if later_before {
                                let k = choose|k: int|
                                    0 <= k < before_view.len() && clock_cmp(before_view[k].0, c)
                                        == Some(core::cmp::Ordering::Greater);
                                assert(self@[k] == before_view[k]);
                            }
                            if later {
                                assert forall|k: int|
                                    0 <= k < before_view.len() implies self@[k]
                                    == before_view[k] by {}
                            }
                        }
                        i = i + 1;
                    }
                }
                proof {
                    assert(s.skip(i).len() == 0);
                    assert(sv.take(i) =~= sv);
                }
                if !later {
                    let ghost before = self.values@;
                    self.values.push((clock, value));
                    proof {
                        assert(self@ =~= before.map_values(|e: (VectorClock, V)| entry_view(e)).push(
                            (c, value),
                        ));
                    }
                }
            },
        }
    }

    /// State merge: keeps the entries of each side that the other side has not
    /// overtaken, without repeating a clock.
    pub fn merge(&mut self, other: MultiValue<V>)
        requires
            old(self).wf(),
            other.wf(),
        ensures
            final(self).wf(),
            final(self)@ == mv_merge(old(self)@, other@),
    {
        let ghost sv = self@;
        let ghost o = other@;
        let mut rest: Vec<(VectorClock, V)> = Vec::new();
        std::mem::swap(&mut rest, &mut self.values);
        let ghost s = rest@;
        let ghost mut i: int = 0;
        while rest.len() > 0
            invariant
                entries_wf(s),
                other.wf(),
                o == other@,
                sv == s.map_values(|e: (VectorClock, V)| entry_view(e)),
                0 <= i <= s.len(),
                rest@ == s.skip(i),
                entries_wf(self.values@),
                self@ == sv.take(i).filter(|e: (Map<u64, u64>, V)| !overtaken(e.0, o)),
            decreases rest.len(),
        {
            let ghost before = self.values@;
            let e = rest.remove(0);
            proof {
                assert(s.skip(i)[0] == s[i]);
                assert(sv[i] == entry_view(s[i]));
                assert(rest@ =~= s.skip(i + 1));
                assert(sv.take(i + 1).drop_last() =~= sv.take(i));
                reveal(Seq::filter);
            }
            if !overtaken_in(&e.0, &other.values) {
                self.values.push(e);
                proof {
                    assert(self@ =~= before.map_values(|e: (VectorClock, V)| entry_view(e)).push(
                        entry_view(e),
                    ));
                }
            }
            proof {
                i = i + 1;
            }
        }
        proof {
            assert(sv.take(i) =~= sv);
        }
        let ghost kept = self@;
        let mut theirs = other.values;
        let ghost t = theirs@;
        let mut added: Vec<(VectorClock, V)> = Vec::new();
        let ghost mut j: int = 0;
        while theirs.len() > 0
            invariant
                entries_wf(t),
                o == t.map_values(|e: (VectorClock, V)| entry_view(e)),
                0 <= j <= t.len(),
                theirs@ == t.skip(j),
                entries_wf(self.values@),
                kept == self@,
                entries_wf(added@),
                added@.map_values(|e: (VectorClock, V)| entry_view(e)) == o.take(j).filter(
                    |e: (Map<u64, u64>, V)| !overtaken(e.0, kept) && !holds_clock(e.0, kept),
                ),
            decreases theirs.len(),
        {
            let ghost before = added@;
            let e = theirs.remove(0);
            proof {
                assert(t.skip(j)[0] == t[j]);
                assert(o[j] == entry_view(t[j]));
                assert(theirs@ =~= t.skip(j + 1));
                assert(o.take(j + 1).drop_last() =~= o.take(j));
                reveal(Seq::filter);
            }
            if !overtaken_in(&e.0, &self.values) && !holds_clock_in(&e.0, &self.values) {
                added.push(e);
                proof {
                    assert(added@.map_values(|e: (VectorClock, V)| entry_view(e)) =~= before.map_values(
                        |e: (VectorClock, V)| entry_view(e),
                    ).push(entry_view(e)));
                }
            }
            proof {
                j = j + 1;
            }
        }
        proof {
            assert(o.take(j) =~= o);
        }
        let ghost mine = self.values@;
        let ghost add = added@;
        self.values.append(&mut added);
        proof {
            assert(self.values@ == mine + add);
            assert(self@ =~= mine.map_values(|e: (VectorClock, V)| entry_view(e)) + add.map_values(
                |e: (VectorClock, V)| entry_view(e),
            ));
        }
    }

    /// Resets every clock by `base`, dropping the values whose clock empties.
    pub fn reset_remove(&mut self, base: &VectorClock)
        requires
            old(self).wf(),
            base.wf(),
        ensures
            final(self).wf(),
            final(self)@ == mv_reset(old(self)@, base@),
    {
        let ghost sv = self@;
        let ghost b = base@;
        let mut rest: Vec<(VectorClock, V)> = Vec::new();
        std::mem::swap(&mut rest, &mut self.values);
        let ghost s = rest@;
        let ghost mut i: int = 0;
        while rest.len() > 0
            invariant
                entries_wf(s),
                base.wf(),
                b == base@,
                sv == s.map_values(|e: (VectorClock, V)| entry_view(e)),
                0 <= i <= s.len(),
                rest@ == s.skip(i),
                entries_wf(self.values@),
                self@ == sv.take(i).map_values(
                    |e: (Map<u64, u64>, V)| (clock_reset(e.0, b), e.1),
                ).filter(|e: (Map<u64, u64>, V)| e.0 != Map::<u64, u64>::empty()),
            decreases rest.len(),
        {
            let ghost before = self.values@;
            let (mut c, v) = rest.remove(0);
            proof {
                assert(s.skip(i)[0] == s[i]);
                assert(sv[i] == entry_view(s[i]));
                assert(rest@ =~= s.skip(i + 1));
                assert(sv.take(i + 1).map_values(|e: (Map<u64, u64>, V)| (clock_reset(e.0, b), e.1))
                    =~= sv.take(i).map_values(|e: (Map<u64, u64>, V)| (clock_reset(e.0, b), e.1)).push(
                    (clock_reset(sv[i].0, b), sv[i].1),
                ));
                let m = sv.take(i).map_values(|e: (Map<u64, u64>, V)| (clock_reset(e.0, b), e.1));
                assert(m.push((clock_reset(sv[i].0, b), sv[i].1)).drop_last() =~= m);
                reveal(Seq::filter);
            }
            c.reset_remove(base);
            if !c.is_empty() {
                self.values.push((c, v));
                proof {
                    assert(self@ =~= before.map_values(|e: (VectorClock, V)| entry_view(e)).push(
                        (c@, v),
                    ));
                }
            }
            proof {
                i = i + 1;
            }
        }
        proof {
            assert(sv.take(i) =~= sv);
        }
    }
}

/// Every entry of `s` has an entry of `o` with the same clock and an equal
/// value.
pub open spec fn mv_covered<V: PartialEq>(s: Seq<(Map<u64, u64>, V)>, o: Seq<(Map<u64, u64>, V)>) -> bool {
    forall|i: int| 0 <= i < s.len() ==> #[trigger] has_match(o, s[i])
}

/// Some entry of `o` has the clock of `e` and a value equal to that of `e`.
pub open spec fn has_match<V: PartialEq>(o: Seq<(Map<u64, u64>, V)>, e: (Map<u64, u64>, V)) -> bool {
    exists|j: int| 0 <= j < o.len() && o[j].0 == e.0 && e.1.eq_spec(&o[j].1)
}

impl<V: PartialEq> MultiValue<V> {
    /// Whether every entry of this register is also an entry of `other`.
    fn covered_by(&self, other: &MultiValue<V>) -> (r: bool)
        ensures
            V::obeys_eq_spec() ==> r == mv_covered(self@, other@),
    {
        let mut i: usize = 0;
        while i < self.values.len()
            invariant
                i <= self.values.len(),
                V::obeys_eq_spec() ==> forall|k: int| 0 <= k < i ==> #[trigger] has_match(other@, self@[k]),
            decreases self.values.len() - i,
        {
            let c = &self.values[i].0;
            let v = &self.values[i].1;
            proof {
                use_type_invariant(c);
                assert(self@[i as int] == entry_view(self.values@[i as int]));
            }
            let mut found = false;
            let mut j: usize = 0;
            while j < other.values.len() && !found
                invariant
                    c.wf(),
                    i < self.values.len(),
                    V::obeys_eq_spec() ==> forall|k: int| 0 <= k < i ==> #[trigger] has_match(other@, self@[k]),
                    self@[i as int] == entry_view(self.values@[i as int]),
                    *c == self.values@[i as int].0,
                    *v == self.values@[i as int].1,
                    j <= other.values.len(),
                    V::obeys_eq_spec() ==> (found ==> exists|q: int|
                        0 <= q < other@.len() && other@[q].0 == c@ && v.eq_spec(&other@[q].1)),
                    V::obeys_eq_spec() ==> (!found ==> forall|q: int|
                        0 <= q < j ==> !(other@[q].0 == c@ && v.eq_spec(&other@[q].1))),
                decreases other.values.len() - j,
            {
                let d = &other.values[j].0;
                proof {
                    use_type_invariant(d);
                    assert(other@[j as int] == entry_view(other.values@[j as int]));
                }
                if d.same(c) && *v == other.values[j].1 {
                    found = true;
                }
                j = j + 1;
            }
            if !found {
                proof {
                    if V::obeys_eq_spec() {
                        assert(!has_match(other@, self@[i as int]));
                    }
                }
                return false;
            }
            i = i + 1;
        }
        true
    }
}

impl<V: PartialEq> PartialEq for MultiValue<V> {
    /// Registers are equal when they hold the same writes, in any order.
    fn eq(&self, other: &MultiValue<V>) -> (r: bool) {
        self.covered_by(other) && other.covered_by(self)
    }
}

impl<V: PartialEq> vstd::std_specs::cmp::PartialEqSpecImpl for MultiValue<V> {
    open spec fn obeys_eq_spec() -> bool {
        V::obeys_eq_spec()
    }

    open spec fn eq_spec(&self, other: &MultiValue<V>) -> bool {
        mv_covered(self@, other@) && mv_covered(other@, self@)
    }
}

impl<V: Eq> Eq for MultiValue<V> {

}

impl<V> Default for MultiValue<V> {
    fn default() -> (r: MultiValue<V>)
        ensures
            r.wf(),
            r@ == Seq::<(Map<u64, u64>, V)>::empty(),
    {
        MultiValue::new()
    }
}

impl<V> Replica for MultiValue<V> {
    type Model = Seq<(Map<u64, u64>, V)>;

    open spec fn valid(&self) -> bool {
        self.wf()
    }

    open spec fn model(&self) -> Seq<(Map<u64, u64>, V)> {
        self@
    }
}

impl<V> CmRDT for MultiValue<V> {
    type Operation = Operation<V>;

    type Validation = core::convert::Infallible;

    open spec fn operation_valid(op: &Operation<V>) -> bool {
        op_wf(op)
    }

    open spec fn operation_ok(m: Seq<(Map<u64, u64>, V)>, op: &Operation<V>) -> bool {
        true
    }

    open spec fn applied(
        before: Seq<(Map<u64, u64>, V)>,
        op: Operation<V>,
        after: Seq<(Map<u64, u64>, V)>,
    ) -> bool {
        match op {
            Operation::Put { clock, value } => after == mv_put(before, clock@, value),
        }
    }

    fn validate_operation(&self, op: &Operation<V>) -> (r: Result<(), core::convert::Infallible>) {
        Ok(())
    }

    fn apply(&mut self, op: Operation<V>) {
        MultiValue::apply(self, op)
    }
}

impl<V> CvRDT for MultiValue<V> {
    type Validation = core::convert::Infallible;

    open spec fn merge_ok(a: Seq<(Map<u64, u64>, V)>, b: Seq<(Map<u64, u64>, V)>) -> bool {
        true
    }

    open spec fn merged(
        a: Seq<(Map<u64, u64>, V)>,
        b: Seq<(Map<u64, u64>, V)>,
        c: Seq<(Map<u64, u64>, V)>,
    ) -> bool {
        c == mv_merge(a, b)
    }

    fn validate_merge(&self, other: &MultiValue<V>) -> (r: Result<(), core::convert::Infallible>)
        ensures
            r is Ok,
    {
        Ok(())
    }

    fn merge(&mut self, other: MultiValue<V>) {
        MultiValue::merge(self, other)
    }
}

impl<V> ResetRemove for MultiValue<V> {
    open spec fn reset(
        before: Seq<(Map<u64, u64>, V)>,
        base: Map<u64, u64>,
        after: Seq<(Map<u64, u64>, V)>,
    ) -> bool {
        after == mv_reset(before, base)
    }

    fn reset_remove(&mut self, clock: &VectorClock) {
        MultiValue::reset_remove(self, clock)
    }
}

} // verus!

verus! {

proof fn lemma_filter_idempotent<A>(s: Seq<A>, p: spec_fn(A) -> bool)
    ensures
        s.filter(p).filter(p) == s.filter(p),
    decreases s.len(),
{
    reveal(Seq::filter);
    if s.len() > 0 {
        lemma_filter_idempotent(s.drop_last(), p);
        let f = s.drop_last().filter(p);
        if p(s.last()) {
            assert(f.push(s.last()).drop_last() =~= f);
        }
    }
}

/// Applying the same write twice has the effect of applying it once.
pub proof fn law_put_idempotent<V>(r: MultiValue<V>, clock: Map<u64, u64>, value: V)
    requires
        r.wf(),
    ensures
        mv_put(mv_put(r@, clock, value), clock, value) == mv_put(r@, clock, value),
{
    let s = r@;
    if clock != Map::<u64, u64>::empty() {
        let p = |e: (Map<u64, u64>, V)| survives_put(clock, e);
        let kept = s.filter(p);
        lemma_filter_idempotent(s, p);
        if exists|i: int|
            0 <= i < kept.len() && clock_cmp(kept[i].0, clock) == Some(
                core::cmp::Ordering::Greater,
            ) {
        } else {
            reveal(Seq::filter);
            assert(kept.push((clock, value)).drop_last() =~= kept);
            assert(!p((clock, value)));
            assert(kept.push((clock, value)).filter(p) == kept);
        }
    }
}

proof fn lemma_filter_all<A>(s: Seq<A>, p: spec_fn(A) -> bool)
    requires
        forall|i: int| 0 <= i < s.len() ==> p(#[trigger] s[i]),
    ensures
        s.filter(p) == s,
    decreases s.len(),
{
    reveal(Seq::filter);
    if s.len() > 0 {
        assert(p(s[s.len() - 1]));
        lemma_filter_all(s.drop_last(), p);
        assert(s.drop_last().push(s.last()) =~= s);
    }
}

proof fn lemma_filter_none<A>(s: Seq<A>, p: spec_fn(A) -> bool)
    requires
        forall|i: int| 0 <= i < s.len() ==> !p(#[trigger] s[i]),
    ensures
        s.filter(p) == Seq::<A>::empty(),
    decreases s.len(),
{
    reveal(Seq::filter);
    if s.len() > 0 {
        assert(!p(s[s.len() - 1]));
        lemma_filter_none(s.drop_last(), p);
    }
}

/// No clock of the entries happened strictly before another.
pub open spec fn antichain<V>(s: Seq<(Map<u64, u64>, V)>) -> bool {
    forall|i: int, j: int| 0 <= i < s.len() && 0 <= j < s.len() ==> !clock_lt(s[i].0, s[j].0)
}

/// Merging a register whose clocks form an antichain with a copy of itself
/// changes nothing.
pub proof fn law_merge_idempotent<V>(r: MultiValue<V>)
    requires
        r.wf(),
        antichain(r@),
    ensures
        mv_merge(r@, r@) == r@,
{
    let s = r@;
    let p1 = |e: (Map<u64, u64>, V)| !overtaken(e.0, s);
    assert forall|i: int| 0 <= i < s.len() implies p1(#[trigger] s[i]) by {
        assert forall|j: int| !(0 <= j < s.len() && clock_lt(s[i].0, s[j].0)) by {}
    }
    lemma_filter_all(s, p1);
    assert(mv_kept(s, s) == s);
    let p2 = |e: (Map<u64, u64>, V)| !overtaken(e.0, s) && !holds_clock(e.0, s);
    assert forall|i: int| 0 <= i < s.len() implies !p2(#[trigger] s[i]) by {
        assert(s[i].0 == s[i].0);
    }
    lemma_filter_none(s, p2);
    assert(s + Seq::<(Map<u64, u64>, V)>::empty() =~= s);
}

} // verus!
