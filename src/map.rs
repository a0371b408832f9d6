//! The add-wins map with reset-remove of nested values.
use vstd::prelude::*;
use crate::base::{Add, Read, Remove};
use crate::traits::{CmRDT, CvRDT, Replica, ResetRemove};
use crate::vector_clock::{
    clock_apply, clock_cmp, clock_common, clock_join, clock_reset, dominates, VectorClock,
};
use crate::multi_value::MultiValue;
use vstd::std_specs::cmp::PartialEqSpec;
use vstd::seq_lib::seq_to_set_distributes_over_add;
use crate::version::{Version, VersionRange};

verus! {

/// What a map's values offer: replication by operations and by state,
/// reset-remove, a fresh empty value and a copy.
pub trait Val: CmRDT + CvRDT + ResetRemove {
    /// The state of a fresh value.
    spec fn default_model() -> Self::Model;

    /// `b` is a copy of the state `a`.
    spec fn copied(a: Self::Model, b: Self::Model) -> bool;

    /// The state that applying `op` to `m` leaves.
    spec fn apply_fn(m: Self::Model, op: Self::Operation) -> Self::Model;

    /// The state that merging `b` into `a` leaves.
    spec fn merge_fn(a: Self::Model, b: Self::Model) -> Self::Model;

    /// The state that reset-remove by `base` leaves of `m`.
    spec fn reset_fn(m: Self::Model, base: Map<u64, u64>) -> Self::Model;

    /// Apply leaves exactly `apply_fn`.
    proof fn lemma_apply_fn(m: Self::Model, op: Self::Operation, n: Self::Model)
        requires
            Self::applied(m, op, n),
        ensures
            n == Self::apply_fn(m, op),
    ;

    /// Merge leaves exactly `merge_fn`.
    proof fn lemma_merge_fn(a: Self::Model, b: Self::Model, c: Self::Model)
        requires
            Self::merged(a, b, c),
        ensures
            c == Self::merge_fn(a, b),
    ;

    /// Reset-remove leaves exactly `reset_fn`.
    proof fn lemma_reset_fn(m: Self::Model, base: Map<u64, u64>, n: Self::Model)
        requires
            Self::reset(m, base, n),
        ensures
            n == Self::reset_fn(m, base),
    ;

    /// A fresh, empty value.
    fn default_value() -> (r: Self)
        ensures
            r.valid(),
            r.model() == Self::default_model(),
    ;

    /// A copy of this value.
    fn clone_value(&self) -> (r: Self)
        requires
            self.valid(),
        ensures
            r.valid(),
            Self::copied(self.model(), r.model()),
    ;
}

/// The state of a map: its clock, each key's clock and value state, and its
/// parked removes.
pub type MapModel<M> = (Map<u64, u64>, Map<u64, (Map<u64, u64>, M)>, Seq<(Map<u64, u64>, Set<u64>)>);

/// The entries of a map view with each value replaced by its state.
pub open spec fn models_of<V: Val>(m: Map<u64, EntryView<V>>) -> Map<u64, (Map<u64, u64>, V::Model)> {
    Map::new(|k: u64| m.contains_key(k), |k: u64| (m[k].0, m[k].1.model()))
}

/// The state of the value at `k` in `m`, or a fresh value's state.
pub open spec fn value_or_default<V: Val>(m: Map<u64, (Map<u64, u64>, V::Model)>, k: u64) -> V::Model {
    if m.contains_key(k) {
        m[k].1
    } else {
        V::default_model()
    }
}

/// The clock of key `k` in `m`, empty where absent.
pub open spec fn clock_or_empty<W>(m: Map<u64, (Map<u64, u64>, W)>, k: u64) -> Map<u64, u64> {
    if m.contains_key(k) {
        m[k].0
    } else {
        Map::<u64, u64>::empty()
    }
}

/// Whether `keys[j]` occurs among the first `j` keys.
fn seen_before(keys: &Vec<u64>, j: usize) -> (r: bool)
    requires
        j < keys.len(),
    ensures
        r == keys@.take(j as int).contains(keys@[j as int]),
{
    let mut i: usize = 0;
    while i < j
        invariant
            i <= j,
            j < keys.len(),
            forall|q: int| 0 <= q < i ==> keys@[q] != keys@[j as int],
        decreases j - i,
    {
        if keys[i] == keys[j] {
            assert(keys@.take(j as int)[i as int] == keys@[j as int]);
            return true;
        }
        i = i + 1;
    }
    false
}

/// Parks a remove by `rm` of `keys`: its keys join those already parked
/// under the same clock, or a new record is added.
pub open spec fn park(p: Seq<(Map<u64, u64>, Set<u64>)>, rm: Map<u64, u64>, keys: Set<u64>) -> Seq<(Map<u64, u64>, Set<u64>)> {
    if exists|i: int| 0 <= i < p.len() && p[i].0 == rm {
        let i = choose|i: int| 0 <= i < p.len() && p[i].0 == rm;
        p.update(i, (rm, p[i].1.union(keys)))
    } else {
        p.push((rm, keys))
    }
}

/// No clock is parked twice.
pub open spec fn parked_unique(p: Seq<(Map<u64, u64>, Set<u64>)>) -> bool {
    forall|i: int, j: int| 0 <= i < p.len() && 0 <= j < p.len() && i != j ==> p[i].0 != p[j].0
}

/// The entries after a remove by `rm` of `keys`: each such key keeps the
/// slots of its clock that `rm` has not seen, with its value reset by `rm`,
/// and disappears when none is left.
pub open spec fn remove_entries<V: Val>(e: Map<u64, (Map<u64, u64>, V::Model)>, rm: Map<u64, u64>, keys: Set<u64>) -> Map<u64, (Map<u64, u64>, V::Model)> {
    Map::new(
        |k: u64| e.contains_key(k) && (!keys.contains(k) || clock_reset(e[k].0, rm) != Map::<u64, u64>::empty()),
        |k: u64| if keys.contains(k) {
            (clock_reset(e[k].0, rm), V::reset_fn(e[k].1, rm))
        } else {
            e[k]
        },
    )
}

/// The state after a remove by `rm` of `keys`; the remove is parked unless
/// the map has seen `rm`.
pub open spec fn remove_fn<V: Val>(m: MapModel<V::Model>, rm: Map<u64, u64>, keys: Set<u64>) -> MapModel<V::Model> {
    (m.0, remove_entries::<V>(m.1, rm, keys), if dominates(m.0, rm) {
        m.2
    } else {
        park(m.2, rm, keys)
    })
}

/// The state after the removes `recs`, in order.
pub open spec fn replay<V: Val>(m: MapModel<V::Model>, recs: Seq<(Map<u64, u64>, Set<u64>)>) -> MapModel<V::Model>
    decreases recs.len(),
{
    if recs.len() == 0 {
        m
    } else {
        remove_fn::<V>(replay::<V>(m, recs.drop_last()), recs.last().0, recs.last().1)
    }
}

/// The state after the parked removes are replayed: those the map has now
/// seen are dropped, the others parked again.
pub open spec fn drain<V: Val>(m: MapModel<V::Model>) -> MapModel<V::Model> {
    replay::<V>((m.0, m.1, Seq::empty()), m.2)
}

/// The state that applying `op` to `m` leaves. A stale update changes
/// nothing. A fresh update raises the map's clock and the key's clock to its
/// version, applies the nested operation to the key's value (a fresh one when
/// absent), then replays the parked removes. A remove is `remove_fn`.
pub open spec fn map_apply_fn<V: Val>(m: MapModel<V::Model>, op: Operation<V>) -> MapModel<V::Model> {
    match op {
        Operation::Update { version, key, operation } => {
            if version.counter <= clock_get_of(m.0, version.actor) {
                m
            } else {
                drain::<V>(
                    (
                        clock_apply(m.0, version),
                        m.1.insert(
                            key,
                            (
                                clock_apply(clock_or_empty(m.1, key), version),
                                V::apply_fn(value_or_default::<V>(m.1, key), operation),
                            ),
                        ),
                        m.2,
                    ),
                )
            }
        },
        Operation::Remove { clock, key_set } => remove_fn::<V>(m, clock@, key_set@.to_set()),
    }
}

/// `after` is what applying `op` leaves of `before`.
pub open spec fn map_applied<V: Val>(before: MapModel<V::Model>, op: Operation<V>, after: MapModel<V::Model>) -> bool {
    after == map_apply_fn::<V>(before, op)
}

/// The parked removes after reset-remove by `base`: each clock is reset, the
/// empty ones dropped, and removes whose clocks now coincide share a record.
pub open spec fn parked_reset(p: Seq<(Map<u64, u64>, Set<u64>)>, base: Map<u64, u64>) -> Seq<(Map<u64, u64>, Set<u64>)>
    decreases p.len(),
{
    if p.len() == 0 {
        p
    } else {
        let r = parked_reset(p.drop_last(), base);
        let c = clock_reset(p.last().0, base);
        if c == Map::<u64, u64>::empty() {
            r
        } else {
            park(r, c, p.last().1)
        }
    }
}

/// The state that reset-remove by `base` leaves of `m`.
pub open spec fn map_reset_fn<V: Val>(m: MapModel<V::Model>, base: Map<u64, u64>) -> MapModel<V::Model> {
    (
        clock_reset(m.0, base),
        Map::new(
            |k: u64| m.1.contains_key(k) && clock_reset(m.1[k].0, base) != Map::<u64, u64>::empty(),
            |k: u64| (clock_reset(m.1[k].0, base), V::reset_fn(m.1[k].1, base)),
        ),
        parked_reset(m.2, base),
    )
}

/// `after` is what reset-remove by `base` leaves of `before`.
pub open spec fn map_reset<V: Val>(before: MapModel<V::Model>, base: Map<u64, u64>, after: MapModel<V::Model>) -> bool {
    after == map_reset_fn::<V>(before, base)
}

/// The value state a key ends with after a state merge (see `merged_value`).
pub open spec fn merged_value_fn<V: Val>(
    mine: Option<(Map<u64, u64>, V::Model)>,
    theirs: Option<(Map<u64, u64>, V::Model)>,
    mc: Map<u64, u64>,
    oc: Map<u64, u64>,
) -> V::Model {
    if mine is Some && theirs is None {
        V::reset_fn(mine->Some_0.1, clock_reset(oc, clock_reset(mine->Some_0.0, oc)))
    } else if mine is None && theirs is Some {
        V::reset_fn(theirs->Some_0.1, clock_reset(mc, clock_reset(theirs->Some_0.0, mc)))
    } else if mine is Some && theirs is Some {
        V::reset_fn(
            V::merge_fn(mine->Some_0.1, theirs->Some_0.1),
            both_deleted(mine->Some_0.0, theirs->Some_0.0, mc, oc),
        )
    } else {
        V::default_model()
    }
}

/// The entries of a state merge of `b` into `a`, before parked removes.
pub open spec fn merged_entries<V: Val>(a: MapModel<V::Model>, b: MapModel<V::Model>) -> Map<u64, (Map<u64, u64>, V::Model)> {
    Map::new(
        |k: u64| merged_clock(key_clock(a.1, k), key_clock(b.1, k), a.0, b.0) is Some,
        |k: u64| (
            merged_clock(key_clock(a.1, k), key_clock(b.1, k), a.0, b.0)->Some_0,
            merged_value_fn::<V>(model_opt(a.1, k), model_opt(b.1, k), a.0, b.0),
        ),
    )
}

/// The state that merging `b` into `a` leaves: entries merged key by key,
/// `b`'s parked removes replayed, the clocks joined, and the parked removes
/// replayed again.
pub open spec fn map_merge_fn<V: Val>(a: MapModel<V::Model>, b: MapModel<V::Model>) -> MapModel<V::Model> {
    let r = replay::<V>((a.0, merged_entries::<V>(a, b), a.2), b.2);
    drain::<V>((clock_join(a.0, b.0), r.1, r.2))
}

/// `c` is what state merge of `b` into `a` leaves.
pub open spec fn map_merged<V: Val>(a: MapModel<V::Model>, b: MapModel<V::Model>, c: MapModel<V::Model>) -> bool {
    c == map_merge_fn::<V>(a, b)
}

/// Whether an operation is causally ready: an update must be the next event
/// both of the map and of its key, and the key's value (a fresh one where
/// absent) must accept the nested operation.
pub open spec fn map_operation_ok<V: Val>(m: MapModel<V::Model>, op: &Operation<V>) -> bool {
    match op {
        Operation::Remove { .. } => true,
        Operation::Update { version, key, operation } => {
            &&& version.counter <= clock_get_of(m.0, version.actor) + 1
            &&& version.counter <= clock_get_of(clock_or_empty(m.1, *key), version.actor) + 1
            &&& V::operation_ok(value_or_default::<V>(m.1, *key), operation)
        },
    }
}

/// The values at key `k` of two map states may be merged: they are, when
/// the key is on both sides with concurrent clocks.
pub open spec fn values_merge_ok<V: Val>(
    a: Map<u64, (Map<u64, u64>, V::Model)>,
    b: Map<u64, (Map<u64, u64>, V::Model)>,
    k: u64,
) -> bool {
    a.contains_key(k) && b.contains_key(k) && clock_cmp(a[k].0, b[k].0) is None ==> V::merge_ok(
        a[k].1,
        b[k].1,
    )
}

/// Two map states may be merged: no version supports different keys on the
/// two sides, and concurrent values of the same key may be merged.
pub open spec fn map_merge_ok<V: Val>(a: MapModel<V::Model>, b: MapModel<V::Model>) -> bool {
    &&& forall|k1: u64, k2: u64, x: u64| !#[trigger] double_spent(a.1, b.1, k1, k2, x)
    &&& forall|k: u64| #[trigger] values_merge_ok::<V>(a.1, b.1, k)
}

/// `b` is a copy of `a`: the same clocks and parked removes, and copied values.
pub open spec fn map_copied<V: Val>(a: MapModel<V::Model>, b: MapModel<V::Model>) -> bool {
    &&& a.0 == b.0
    &&& a.2 == b.2
    &&& forall|k: u64| #![trigger b.1.contains_key(k)] b.1.contains_key(k) == a.1.contains_key(k)
    &&& forall|k: u64| #![trigger b.1[k]] a.1.contains_key(k) ==> b.1[k].0 == a.1[k].0 && V::copied(a.1[k].1, b.1[k].1)
}

/// The state of one key: the events that support it, and its value.
#[derive(Debug, Clone, PartialEq, Eq)]
pub struct Entry<V> {
    pub clock: VectorClock,
    pub value: V,
}

/// An entry as a value: its clock and its value.
pub type EntryView<V> = (Map<u64, u64>, V);

/// The entry of key `k` in a sequence of keyed entries; a later one hides an
/// earlier one.
pub open spec fn entry_of<V>(s: Seq<(u64, Entry<V>)>, k: u64) -> Option<Entry<V>>
    decreases s.len(),
{
    if s.len() == 0 {
        None
    } else if s.last().0 == k {
        Some(s.last().1)
    } else {
        entry_of(s.drop_last(), k)
    }
}

/// Keys strictly increase.
pub open spec fn keys_sorted<V>(s: Seq<(u64, Entry<V>)>) -> bool {
    forall|i: int, j: int| 0 <= i < j < s.len() ==> s[i].0 < s[j].0
}

/// The entries as a map from key to clock and value.
pub open spec fn entries_view<V>(s: Seq<(u64, Entry<V>)>) -> Map<u64, EntryView<V>> {
    Map::new(
        |k: u64| entry_of(s, k) is Some,
        |k: u64| (entry_of(s, k)->Some_0.clock@, entry_of(s, k)->Some_0.value),
    )
}

proof fn lemma_entry_at<V>(s: Seq<(u64, Entry<V>)>, i: int)
    requires
        keys_sorted(s),
        0 <= i < s.len(),
    ensures
        entry_of(s, s[i].0) == Some(s[i].1),
    decreases s.len(),
{
    if i < s.len() - 1 {
        assert(keys_sorted(s.drop_last()));
        lemma_entry_at(s.drop_last(), i);
    }
}

proof fn lemma_entry_absent<V>(s: Seq<(u64, Entry<V>)>, k: u64)
    requires
        forall|i: int| 0 <= i < s.len() ==> s[i].0 != k,
    ensures
        entry_of(s, k) is None,
    decreases s.len(),
{
    if s.len() > 0 {
        lemma_entry_absent(s.drop_last(), k);
    }
}

proof fn lemma_entry_cases<V>(s: Seq<(u64, Entry<V>)>, k: u64)
    requires
        keys_sorted(s),
    ensures
        forall|i: int| 0 <= i < s.len() && s[i].0 == k ==> entry_of(s, k) == Some(s[i].1),
        (forall|i: int| 0 <= i < s.len() ==> s[i].0 != k) ==> entry_of(s, k) is None,
{
    assert forall|i: int| 0 <= i < s.len() && s[i].0 == k implies entry_of(s, k) == Some(
        s[i].1,
    ) by {
        lemma_entry_at(s, i);
    }
    if forall|i: int| 0 <= i < s.len() ==> s[i].0 != k {
        lemma_entry_absent(s, k);
    }
}

/// Key `k` of `after` is key `k` of `before` reset by `b`, and absent when
/// that empties its clock.
pub open spec fn reset_rel<V: Val>(
    after: Seq<(u64, Entry<V>)>,
    before: Seq<(u64, Entry<V>)>,
    b: Map<u64, u64>,
    k: u64,
) -> bool {
    &&& (entry_of(after, k) is Some) == (entry_of(before, k) is Some && clock_reset(
        entry_of(before, k)->Some_0.clock@,
        b,
    ) != Map::<u64, u64>::empty())
    &&& entry_of(after, k) is Some ==> entry_of(after, k)->Some_0.clock@ == clock_reset(
        entry_of(before, k)->Some_0.clock@,
        b,
    ) && V::reset(entry_of(before, k)->Some_0.value.model(), b, entry_of(after, k)->Some_0.value.model())
}

/// The clock that key `k` has after a state merge, or `None` when the key
/// is dropped: `mine` and `theirs` are the key's clocks on the two sides,
/// `mc` and `oc` the two maps' clocks. A side's clock keeps what the other map
/// has not seen; on both sides, the common slots are kept as well.
pub open spec fn merged_clock(
    mine: Option<Map<u64, u64>>,
    theirs: Option<Map<u64, u64>>,
    mc: Map<u64, u64>,
    oc: Map<u64, u64>,
) -> Option<Map<u64, u64>> {
    match (mine, theirs) {
        (Some(a), None) => if dominates(oc, a) {
            None
        } else {
            Some(clock_reset(a, oc))
        },
        (None, Some(b)) => if dominates(mc, b) {
            None
        } else {
            Some(clock_reset(b, mc))
        },
        (Some(a), Some(b)) => {
            let c = clock_join(clock_join(clock_common(b, a), clock_reset(b, mc)), clock_reset(a, oc));
            if c == Map::<u64, u64>::empty() {
                None
            } else {
                Some(c)
            }
        },
        (None, None) => None,
    }
}

/// The clock and value state of key `k` in `m`, if present.
pub open spec fn model_opt<W>(m: Map<u64, (Map<u64, u64>, W)>, k: u64) -> Option<(Map<u64, u64>, W)> {
    if m.contains_key(k) {
        Some(m[k])
    } else {
        None
    }
}

/// `result` is the value state a key ends with after a state merge, given
/// its clock and value state on each side (`mine`, `theirs`) and the two maps'
/// clocks. A side's value alone is reset by what the other map removed of it;
/// values on both sides are merged, then reset by the events that the merged
/// key clock no longer holds.
pub open spec fn merged_value<V: Val>(
    mine: Option<(Map<u64, u64>, V::Model)>,
    theirs: Option<(Map<u64, u64>, V::Model)>,
    mc: Map<u64, u64>,
    oc: Map<u64, u64>,
    result: V::Model,
) -> bool {
    if mine is Some && theirs is None {
        V::reset(
            mine->Some_0.1,
            clock_reset(oc, clock_reset(mine->Some_0.0, oc)),
            result,
        )
    } else if mine is None && theirs is Some {
        V::reset(
            theirs->Some_0.1,
            clock_reset(mc, clock_reset(theirs->Some_0.0, mc)),
            result,
        )
    } else if mine is Some && theirs is Some {
        exists|t: V::Model|
            V::merged(mine->Some_0.1, theirs->Some_0.1, t) && #[trigger] V::reset(
                t,
                both_deleted(mine->Some_0.0, theirs->Some_0.0, mc, oc),
                result,
            )
    } else {
        false
    }
}

/// The events of a key held on both sides that its merged clock no longer
/// holds: `mine` and `theirs` are its clocks, `mc` and `oc` the maps' clocks.
pub open spec fn both_deleted(mine: Map<u64, u64>, theirs: Map<u64, u64>, mc: Map<u64, u64>, oc: Map<u64, u64>) -> Map<u64, u64> {
    clock_reset(
        clock_join(theirs, mine),
        clock_join(clock_join(clock_common(theirs, mine), clock_reset(theirs, mc)), clock_reset(mine, oc)),
    )
}

/// Phase one of a merge: the entries of `kept` are those of `src` whose key
/// `ov` has, unchanged, and those it lacks, with their values reset by what
/// the other map removed of them.
pub open spec fn own_value_rel<V: Val>(
    kept: Seq<(u64, Entry<V>)>,
    src: Seq<(u64, Entry<V>)>,
    ov: Map<u64, EntryView<V>>,
    oc: Map<u64, u64>,
    k: u64,
) -> bool {
    entry_of(kept, k) is Some ==> entry_of(src, k) is Some && if ov.contains_key(k) {
        entry_of(kept, k)->Some_0.value == entry_of(src, k)->Some_0.value
    } else {
        V::reset(
            entry_of(src, k)->Some_0.value.model(),
            clock_reset(oc, clock_reset(entry_of(src, k)->Some_0.clock@, oc)),
            entry_of(kept, k)->Some_0.value.model(),
        )
    }
}

/// After phase one of a merge, a key kept in `p1` is unchanged from `sv`
/// when `ov` has it, and otherwise reset by what the other map removed of it.
pub open spec fn own_kept<V: Val>(
    p1: Map<u64, EntryView<V>>,
    sv: Map<u64, EntryView<V>>,
    ov: Map<u64, EntryView<V>>,
    oc: Map<u64, u64>,
    k: u64,
) -> bool {
    p1.contains_key(k) ==> (ov.contains_key(k) ==> p1[k] == sv[k]) && (!ov.contains_key(k)
        ==> sv.contains_key(k) && V::reset(
        sv[k].1.model(),
        clock_reset(oc, clock_reset(sv[k].0, oc)),
        p1[k].1.model(),
    ))
}

/// The merge relation of a key's value pins it to `merged_value_fn`.
proof fn lemma_merged_value_fn<V: Val>(
    mine: Option<(Map<u64, u64>, V::Model)>,
    theirs: Option<(Map<u64, u64>, V::Model)>,
    mc: Map<u64, u64>,
    oc: Map<u64, u64>,
    r: V::Model,
)
    requires
        merged_value::<V>(mine, theirs, mc, oc, r),
    ensures
        r == merged_value_fn::<V>(mine, theirs, mc, oc),
{
    if mine is Some && theirs is None {
        V::lemma_reset_fn(mine->Some_0.1, clock_reset(oc, clock_reset(mine->Some_0.0, oc)), r);
    } else if mine is None && theirs is Some {
        V::lemma_reset_fn(theirs->Some_0.1, clock_reset(mc, clock_reset(theirs->Some_0.0, mc)), r);
    } else if mine is Some && theirs is Some {
        let d = both_deleted(mine->Some_0.0, theirs->Some_0.0, mc, oc);
        let t = choose|t: V::Model| V::merged(mine->Some_0.1, theirs->Some_0.1, t) && #[trigger] V::reset(t, d, r);
        V::lemma_merge_fn(mine->Some_0.1, theirs->Some_0.1, t);
        V::lemma_reset_fn(t, d, r);
    }
}

/// Reset-remove keeps dominance: what survives of a dominated clock is
/// dominated by what survives of the dominating one.
proof fn lemma_reset_within(big: Map<u64, u64>, small: Map<u64, u64>, b: Map<u64, u64>)
    requires
        dominates(big, small),
    ensures
        dominates(clock_reset(big, b), clock_reset(small, b)),
        dominates(small, clock_reset(small, b)),
{
    assert forall|x: u64| #![auto] crate::vector_clock::clock_get(clock_reset(big, b), x)
        >= crate::vector_clock::clock_get(clock_reset(small, b), x) by {
        assert(crate::vector_clock::clock_get(big, x) >= crate::vector_clock::clock_get(small, x));
    }
}

/// A merged key clock is dominated by the join of the two maps' clocks.
proof fn lemma_merged_within(
    mine: Option<Map<u64, u64>>,
    theirs: Option<Map<u64, u64>>,
    mc: Map<u64, u64>,
    oc: Map<u64, u64>,
)
    requires
        mine matches Some(a) ==> dominates(mc, a),
        theirs matches Some(b) ==> dominates(oc, b),
    ensures
        merged_clock(mine, theirs, mc, oc) matches Some(c) ==> dominates(clock_join(mc, oc), c),
{
    if let Some(c) = merged_clock(mine, theirs, mc, oc) {
        assert forall|x: u64| #![auto] crate::vector_clock::clock_get(clock_join(mc, oc), x)
            >= crate::vector_clock::clock_get(c, x) by {
            if let Some(a) = mine {
                assert(crate::vector_clock::clock_get(mc, x) >= crate::vector_clock::clock_get(a, x));
            }
            if let Some(b) = theirs {
                assert(crate::vector_clock::clock_get(oc, x) >= crate::vector_clock::clock_get(b, x));
            }
        }
    }
}

/// Observing a version keeps dominance.
proof fn lemma_apply_within(big: Map<u64, u64>, small: Map<u64, u64>, v: Version)
    requires
        dominates(big, small),
    ensures
        dominates(clock_apply(big, v), clock_apply(small, v)),
        dominates(clock_apply(big, v), big),
{
    assert forall|x: u64| #![auto] crate::vector_clock::clock_get(clock_apply(big, v), x)
        >= crate::vector_clock::clock_get(clock_apply(small, v), x) by {
        assert(crate::vector_clock::clock_get(big, x) >= crate::vector_clock::clock_get(small, x));
    }
}

/// Dominance is transitive.
proof fn lemma_dominates_trans(a: Map<u64, u64>, b: Map<u64, u64>, c: Map<u64, u64>)
    requires
        dominates(a, b),
        dominates(b, c),
    ensures
        dominates(a, c),
{
    assert forall|x: u64| #![auto] crate::vector_clock::clock_get(a, x) >= crate::vector_clock::clock_get(c, x) by {
        assert(crate::vector_clock::clock_get(a, x) >= crate::vector_clock::clock_get(b, x));
        assert(crate::vector_clock::clock_get(b, x) >= crate::vector_clock::clock_get(c, x));
    }
}

/// The clock of key `k` in `m`, if present.
pub open spec fn key_clock<V>(m: Map<u64, EntryView<V>>, k: u64) -> Option<Map<u64, u64>> {
    if m.contains_key(k) {
        Some(m[k].0)
    } else {
        None
    }
}

/// The clock of key `k` in a sequence of entries, if present.
pub open spec fn seq_key_clock<V>(s: Seq<(u64, Entry<V>)>, k: u64) -> Option<Map<u64, u64>> {
    match entry_of(s, k) {
        Some(e) => Some(e.clock@),
        None => None,
    }
}

/// Version `(a, m[k1].0[a])` supports key `k1` of `m` and also a different
/// key `k2` of `o`.
pub open spec fn double_spent<V>(
    m: Map<u64, EntryView<V>>,
    o: Map<u64, EntryView<V>>,
    k1: u64,
    k2: u64,
    a: u64,
) -> bool {
    &&& m.contains_key(k1)
    &&& o.contains_key(k2)
    &&& k1 != k2
    &&& m[k1].0.contains_key(a)
    &&& crate::vector_clock::clock_get(o[k2].0, a) == m[k1].0[a]
}

/// `operation` is what `f` returns for a fresh value and `a`.
pub open spec fn fresh_call<V: Val, F: FnOnce(&V, Add) -> V::Operation>(f: F, a: Add, operation: V::Operation) -> bool {
    exists|d: V| d.model() == V::default_model() && #[trigger] f.ensures((&d, a), operation)
}

/// The counter of `a` in a clock model, zero where absent.
pub open spec fn clock_get_of(m: Map<u64, u64>, a: u64) -> u64 {
    crate::vector_clock::clock_get(m, a)
}

/// The data of an operation is well formed.
pub open spec fn op_wf<V: CmRDT>(op: &Operation<V>) -> bool {
    match op {
        Operation::Remove { clock, .. } => clock.wf(),
        Operation::Update { operation, .. } => V::operation_valid(operation),
    }
}


/// The first index of `entries` whose key is at least `key`.
fn position_in<V: Val>(entries: &Vec<(u64, Entry<V>)>, key: u64) -> (i: usize)
    ensures
        i <= entries.len(),
        forall|j: int| 0 <= j < i ==> entries@[j].0 < key,
        i < entries.len() ==> entries@[i as int].0 >= key,
{
    let mut i: usize = 0;
    while i < entries.len() && entries[i].0 < key
        invariant
            i <= entries.len(),
            forall|j: int| 0 <= j < i ==> entries@[j].0 < key,
        decreases entries.len() - i,
    {
        i = i + 1;
    }
    i
}

/// Sorted keys, and entries with a well-formed, non-empty clock and a valid
/// value.
pub open spec fn entries_ok<V: Val>(s: Seq<(u64, Entry<V>)>) -> bool {
    &&& keys_sorted(s)
    &&& forall|i: int|
        0 <= i < s.len() ==> {
            &&& (#[trigger] s[i]).1.clock.wf()
            &&& s[i].1.clock@ != Map::<u64, u64>::empty()
            &&& s[i].1.value.valid()
        }
}

/// Takes the entry of `key` out of the map.
fn take_from<V: Val>(entries: &mut Vec<(u64, Entry<V>)>, key: u64) -> (r: Option<Entry<V>>)
    requires
        entries_ok(old(entries)@),
    ensures
        entries_ok(final(entries)@),
        final(entries).len() <= old(entries).len(),
        r is None ==> !entries_view(old(entries)@).contains_key(key) && entries_view(final(entries)@) == entries_view(old(entries)@),
        r matches Some(e) ==> entries_view(old(entries)@).contains_key(key) && entries_view(old(entries)@)[key] == (
        e.clock@,
        e.value,
        ) && entries_view(final(entries)@) == entries_view(old(entries)@).remove(key) && e.clock.wf() && e.clock@ != Map::<
            u64,
            u64,
        >::empty() && e.value.valid(),
{
    let i = position_in(entries, key);
    let ghost s = entries@;
    proof {
        lemma_entry_cases(s, key);
    }
    if i < entries.len() && entries[i].0 == key {
        let (_, e) = entries.remove(i);
        proof {
            let t = entries@;
            assert(t =~= s.remove(i as int));
            assert(keys_sorted(t));
            assert forall|k: u64| #![auto] entry_of(t, k) == (if k == key {
                None
            } else {
                entry_of(s, k)
            }) by {
                lemma_entry_cases(s, k);
                lemma_entry_cases(t, k);
                if k == key {
                    assert forall|j: int| 0 <= j < t.len() implies t[j].0 != k by {
                        if j < i {
                            assert(t[j] == s[j]);
                        } else {
                            assert(t[j] == s[j + 1]);
                        }
                    }
                } else if exists|j: int| 0 <= j < s.len() && s[j].0 == k {
                    let j = choose|j: int| 0 <= j < s.len() && s[j].0 == k;
                    if j < i {
                        assert(t[j] == s[j]);
                    } else {
                        assert(t[j - 1] == s[j]);
                    }
                } else {
                    assert forall|j: int| 0 <= j < t.len() implies t[j].0 != k by {
                        if j < i {
                            assert(t[j] == s[j]);
                        } else {
                            assert(t[j] == s[j + 1]);
                        }
                    }
                }
            }
            assert(entries_view(entries@) =~= entries_view(old(entries)@).remove(key));
            assert forall|j: int| 0 <= j < entries.len() implies {
                &&& (#[trigger] entries@[j]).1.clock.wf()
                &&& entries@[j].1.clock@ != Map::<u64, u64>::empty()
                &&& entries@[j].1.value.valid()
            } by {
                if j >= i {
                    assert(entries@[j] == s[j + 1]);
                }
            }
        }
        Some(e)
    } else {
        proof {
            assert forall|j: int| 0 <= j < s.len() implies s[j].0 != key by {
                if j > i {
                    assert(s[i as int].0 < s[j].0);
                }
            }
        }
        None
    }
}

/// Sets the entry of `key`.
fn put_into<V: Val>(entries: &mut Vec<(u64, Entry<V>)>, key: u64, e: Entry<V>)
    requires
        entries_ok(old(entries)@),
        e.clock.wf(),
        e.clock@ != Map::<u64, u64>::empty(),
        e.value.valid(),
    ensures
        entries_ok(final(entries)@),
        entries_view(final(entries)@) == entries_view(old(entries)@).insert(key, (e.clock@, e.value)),
{
    let i = position_in(entries, key);
    let ghost s = entries@;
    let ghost x = (key, e);
    proof {
        lemma_entry_cases(s, key);
    }
    if i < entries.len() && entries[i].0 == key {
        entries.set(i, (key, e));
    } else {
        entries.insert(i, (key, e));
    }
    proof {
        let t = entries@;
        assert(keys_sorted(t)) by {
            assert forall|p: int, q: int| 0 <= p < q < t.len() implies t[p].0 < t[q].0 by {
                if t.len() > s.len() {
                    if q > i && p < i {
                        assert(t[q] == s[q - 1]);
                        assert(t[p] == s[p]);
                    } else if q > i && p == i {
                        assert(t[q] == s[q - 1]);
                    } else if q > i {
                        assert(t[q] == s[q - 1]);
                        assert(t[p] == s[p - 1]);
                    } else if q == i {
                        assert(t[p] == s[p]);
                    }
                } else {
                    if p != i {
                        assert(t[p] == s[p]);
                    }
                    if q != i {
                        assert(t[q] == s[q]);
                    }
                }
            }
        }
        assert forall|k: u64| #![auto] entry_of(t, k) == (if k == key {
            Some(e)
        } else {
            entry_of(s, k)
        }) by {
            lemma_entry_cases(s, k);
            lemma_entry_cases(t, k);
            assert(t[i as int] == x);
            if k != key {
                if exists|j: int| 0 <= j < s.len() && s[j].0 == k {
                    let j = choose|j: int| 0 <= j < s.len() && s[j].0 == k;
                    if t.len() > s.len() && j >= i {
                        assert(t[j + 1] == s[j]);
                    } else {
                        assert(t[j] == s[j]);
                    }
                } else {
                    assert forall|j: int| 0 <= j < t.len() implies t[j].0 != k by {
                        if j != i {
                            if t.len() > s.len() && j > i {
                                assert(t[j] == s[j - 1]);
                            } else {
                                assert(t[j] == s[j]);
                            }
                        }
                    }
                }
            }
        }
        assert(entries_view(entries@) =~= entries_view(old(entries)@).insert(key, (e.clock@, e.value)));
        assert forall|j: int| 0 <= j < entries.len() implies {
            &&& (#[trigger] entries@[j]).1.clock.wf()
            &&& entries@[j].1.clock@ != Map::<u64, u64>::empty()
            &&& entries@[j].1.value.valid()
        } by {
            if j != i {
                if t.len() > s.len() && j > i {
                    assert(t[j] == s[j - 1]);
                } else {
                    assert(t[j] == s[j]);
                }
            }
        }
    }
}

/// An add-wins map from `u64` keys to nested replicated values. Each key
/// carries the clock of the events that support it; removes that arrive
/// before the events they observed are parked until those events are seen.
#[derive(Debug)]
pub struct CausalMap<V: Val> {
    clock: VectorClock,
    entries: Vec<(u64, Entry<V>)>,
    deferred: Vec<(VectorClock, Vec<u64>)>,
}

/// An operation on a map.
#[derive(Debug, Clone, PartialEq, Eq)]
pub enum Operation<V: CmRDT> {
    /// Removes the keys of `key_set` as far as `clock` has seen them.
    Remove { clock: VectorClock, key_set: Vec<u64> },
    /// Applies `operation` to the value at `key`, as the event `version`.
    Update { version: Version, key: u64, operation: V::Operation },
}

/// Why an operation cannot be applied yet.
#[derive(Debug, PartialEq, Eq)]
pub enum CmRDTValidation<V: CmRDT> {
    SourceOrder(VersionRange),
    Value(V::Validation),
}

/// Why two replicas cannot be merged.
#[derive(Debug, PartialEq, Eq)]
pub enum CvRDTValidation<V: CvRDT> {
    /// The same version supports different keys on the two replicas.
    DoubleSpentVersion { version: Version, our_key: u64, their_key: u64 },
    Value(V::Validation),
}

impl<V: Val> View for CausalMap<V> {
    type V = Map<u64, EntryView<V>>;

    closed spec fn view(&self) -> Map<u64, EntryView<V>> {
        entries_view(self.entries@)
    }
}

impl<V: Val> CausalMap<V> {
    pub closed spec fn wf(&self) -> bool {
        &&& self.clock.wf()
        &&& entries_ok(self.entries@)
        &&& forall|i: int| 0 <= i < self.deferred.len() ==> (#[trigger] self.deferred@[i]).0.wf()
        &&& parked_unique(self.parked())
    }

    #[verifier::type_invariant]
    pub open spec fn inv(&self) -> bool {
        self.wf()
    }

    /// Every key's clock is dominated by the map's clock: the map has seen
    /// every event that supports a key.
    pub open spec fn clocks_within(&self) -> bool {
        forall|k: u64| #[trigger] self@.contains_key(k) ==> dominates(self.spec_clock(), self@[k].0)
    }

    /// The union of every version the map has seen.
    pub closed spec fn spec_clock(&self) -> Map<u64, u64> {
        self.clock@
    }

    /// The parked removes: each clock with the keys it removes.
    pub closed spec fn parked(&self) -> Seq<(Map<u64, u64>, Set<u64>)> {
        self.deferred@.map_values(|d: (VectorClock, Vec<u64>)| (d.0@, d.1@.to_set()))
    }

    /// The number of keys.
    pub closed spec fn spec_len(&self) -> nat {
        self.entries.len() as nat
    }

    proof fn lemma_view(&self, k: u64)
        requires
            self.wf(),
        ensures
            forall|i: int|
                0 <= i < self.entries.len() && self.entries@[i].0 == k ==> self@.contains_key(k)
                    && self@[k] == (self.entries@[i].1.clock@, self.entries@[i].1.value),
            (forall|i: int| 0 <= i < self.entries.len() ==> self.entries@[i].0 != k)
                ==> !self@.contains_key(k),
    {
        lemma_entry_cases(self.entries@, k);
    }

    /// Every key present has a valid value and a non-empty clock.
    pub proof fn lemma_entries(&self, k: u64)
        requires
            self.wf(),
            self@.contains_key(k),
        ensures
            self@[k].0 != Map::<u64, u64>::empty(),
            self@[k].1.valid(),
    {
        lemma_entry_cases(self.entries@, k);
        if forall|i: int| 0 <= i < self.entries.len() ==> self.entries@[i].0 != k {
        } else {
            let i = choose|i: int| 0 <= i < self.entries.len() && self.entries@[i].0 == k;
            assert(self.entries@[i].1.clock.wf());
        }
    }

    /// The key count is the number of keys present.
    pub proof fn lemma_len_dom(&self)
        requires
            self.wf(),
        ensures
            self@.dom().finite(),
            self.spec_len() == self@.dom().len(),
    {
        let ks = self.entries@.map_values(|e: (u64, Entry<V>)| e.0);
        assert(ks.no_duplicates()) by {
            assert forall|i: int, j: int| 0 <= i < ks.len() && 0 <= j < ks.len() && i != j implies ks[i] != ks[j] by {
                if i < j {
                    assert(self.entries@[i].0 < self.entries@[j].0);
                } else {
                    assert(self.entries@[j].0 < self.entries@[i].0);
                }
            }
        }
        ks.unique_seq_to_set();
        assert forall|k: u64| #![auto] self@.dom().contains(k) == ks.to_set().contains(k) by {
            self.lemma_view(k);
            if ks.contains(k) {
                let i = choose|i: int| 0 <= i < ks.len() && ks[i] == k;
                assert(self.entries@[i].0 == k);
            }
            if self@.contains_key(k) {
                assert(exists|i: int| 0 <= i < self.entries.len() && self.entries@[i].0 == k);
                let i = choose|i: int| 0 <= i < self.entries.len() && self.entries@[i].0 == k;
                assert(ks[i] == k);
            }
        }
        assert(self@.dom() =~= ks.to_set());
    }

    /// The key count is zero exactly when there is no key.
    pub proof fn lemma_len(&self)
        requires
            self.wf(),
        ensures
            self.spec_len() == 0 <==> self@ == Map::<u64, EntryView<V>>::empty(),
    {
        if self.entries.len() > 0 {
            self.lemma_view(self.entries@[0].0);
        } else {
            assert(self@ =~= Map::<u64, EntryView<V>>::empty());
        }
    }

    pub fn new() -> (r: CausalMap<V>)
        ensures
            r.wf(),
            r@ == Map::<u64, EntryView<V>>::empty(),
            r.spec_clock() == Map::<u64, u64>::empty(),
            r.parked() == Seq::<(Map<u64, u64>, Set<u64>)>::empty(),
            r.clocks_within(),
    {
        let r = CausalMap { clock: VectorClock::new(), entries: Vec::new(), deferred: Vec::new() };
        assert(r@ =~= Map::<u64, EntryView<V>>::empty());
        assert(r.parked() =~= Seq::<(Map<u64, u64>, Set<u64>)>::empty());
        r
    }

    /// The first index whose key is at least `key`.
    fn position(&self, key: u64) -> (i: usize)
        ensures
            i <= self.entries.len(),
            forall|j: int| 0 <= j < i ==> self.entries@[j].0 < key,
            i < self.entries.len() ==> self.entries@[i as int].0 >= key,
    {
        let mut i: usize = 0;
        while i < self.entries.len() && self.entries[i].0 < key
            invariant
                i <= self.entries.len(),
                forall|j: int| 0 <= j < i ==> self.entries@[j].0 < key,
            decreases self.entries.len() - i,
        {
            i = i + 1;
        }
        i
    }

    /// Takes the entry of `key` out of the map.
    fn take_entry(&mut self, key: u64) -> (r: Option<Entry<V>>)
        requires
            old(self).wf(),
        ensures
            final(self).wf(),
            final(self).clock == old(self).clock,
            final(self).deferred == old(self).deferred,
            final(self).spec_len() <= old(self).spec_len(),
            r is None ==> !old(self)@.contains_key(key) && final(self)@ == old(self)@,
            r matches Some(e) ==> old(self)@.contains_key(key) && old(self)@[key] == (
            e.clock@,
            e.value,
            ) && final(self)@ == old(self)@.remove(key) && e.clock.wf() && e.clock@ != Map::<
                u64,
                u64,
            >::empty() && e.value.valid(),
    {
        let mut entries: Vec<(u64, Entry<V>)> = Vec::new();
        std::mem::swap(&mut entries, &mut self.entries);
        let r = take_from(&mut entries, key);
        self.entries = entries;
        r
    }

    /// Sets the entry of `key`.
    fn put_entry(&mut self, key: u64, e: Entry<V>)
        requires
            old(self).wf(),
            e.clock.wf(),
            e.clock@ != Map::<u64, u64>::empty(),
            e.value.valid(),
        ensures
            final(self).wf(),
            final(self).clock == old(self).clock,
            final(self).deferred == old(self).deferred,
            final(self)@ == old(self)@.insert(key, (e.clock@, e.value)),
    {
        let mut entries: Vec<(u64, Entry<V>)> = Vec::new();
        std::mem::swap(&mut entries, &mut self.entries);
        put_into(&mut entries, key, e);
        self.entries = entries;
    }

    /// Whether `key` is present.
    fn has_key(&self, key: u64) -> (r: bool)
        requires
            self.wf(),
        ensures
            r == self@.contains_key(key),
    {
        let i = self.position(key);
        proof {
            self.lemma_view(key);
            if !(i < self.entries.len() && self.entries@[i as int].0 == key) {
                assert forall|j: int| 0 <= j < self.entries.len() implies self.entries@[j].0
                    != key by {
                    if j > i {
                        assert(self.entries@[i as int].0 < self.entries@[j].0);
                    }
                }
            }
        }
        i < self.entries.len() && self.entries[i].0 == key
    }

    /// Whether the map has no key, read in the map's causal context.
    pub fn is_empty(&self) -> (r: Read<bool>)
        requires
            self.wf(),
        ensures
            r.wf(),
            r.add_clock@ == self.spec_clock(),
            r.rm_clock@ == self.spec_clock(),
            r.value <==> self@ == Map::<u64, EntryView<V>>::empty(),
    {
        proof {
            self.lemma_len();
        }
        Read {
            add_clock: self.clock.clone(),
            rm_clock: self.clock.clone(),
            value: self.entries.len() == 0,
        }
    }

    /// The number of keys, read in the map's causal context.
    pub fn len(&self) -> (r: Read<usize>)
        requires
            self.wf(),
        ensures
            r.wf(),
            r.add_clock@ == self.spec_clock(),
            r.rm_clock@ == self.spec_clock(),
            r.value == self.spec_len(),
            r.value == self@.dom().len(),
    {
        proof {
            self.lemma_len_dom();
        }
        Read { add_clock: self.clock.clone(), rm_clock: self.clock.clone(), value: self.entries.len() }
    }

    /// The causal context of the whole map.
    pub fn read(&self) -> (r: Read<()>)
        requires
            self.wf(),
        ensures
            r.wf(),
            r.add_clock@ == self.spec_clock(),
            r.rm_clock@ == self.spec_clock(),
    {
        Read { add_clock: self.clock.clone(), rm_clock: self.clock.clone(), value: () }
    }

    /// The value at `key`: its removal context is the key's clock, its
    /// addition context the map's clock.
    pub fn get(&self, key: &u64) -> (r: Read<Option<V>>)
        requires
            self.wf(),
        ensures
            r.wf(),
            r.add_clock@ == self.spec_clock(),
            r.rm_clock@ == (if self@.contains_key(*key) {
                self@[*key].0
            } else {
                Map::<u64, u64>::empty()
            }),
            r.value is Some <==> self@.contains_key(*key),
            r.value matches Some(v) ==> v.valid() && V::copied(self@[*key].1.model(), v.model()),
    {
        let i = self.position(*key);
        proof {
            self.lemma_view(*key);
            if !(i < self.entries.len() && self.entries@[i as int].0 == *key) {
                assert forall|j: int| 0 <= j < self.entries.len() implies self.entries@[j].0
                    != *key by {
                    if j > i {
                        assert(self.entries@[i as int].0 < self.entries@[j].0);
                    }
                }
            }
        }
        if i < self.entries.len() && self.entries[i].0 == *key {
            let e = &self.entries[i].1;
            Read {
                add_clock: self.clock.clone(),
                rm_clock: e.clock.clone(),
                value: Some(e.value.clone_value()),
            }
        } else {
            Read { add_clock: self.clock.clone(), rm_clock: VectorClock::new(), value: None }
        }
    }

    /// The keys in increasing order, each read with its removal context.
    pub fn keys(&self) -> (r: Vec<Read<u64>>)
        requires
            self.wf(),
        ensures
            r.len() == self.spec_len(),
            forall|i: int|
                0 <= i < r.len() ==> {
                    &&& self@.contains_key((#[trigger] r[i]).value)
                    &&& r[i].wf()
                    &&& r[i].add_clock@ == self.spec_clock()
                    &&& r[i].rm_clock@ == self@[r[i].value].0
                },
            forall|i: int, j: int| 0 <= i < j < r.len() ==> r[i].value < r[j].value,
            forall|k: u64| self@.contains_key(k) ==> exists|i: int| 0 <= i < r.len() && #[trigger] r[i].value == k,
    {
        let mut out: Vec<Read<u64>> = Vec::new();
        let mut i: usize = 0;
        while i < self.entries.len()
            invariant
                self.wf(),
                i <= self.entries.len(),
                out.len() == i,
                forall|j: int| 0 <= j < i ==> (#[trigger] out[j]).value == self.entries@[j].0,
                forall|j: int|
                    0 <= j < i ==> (#[trigger] out[j]).wf() && out[j].add_clock@ == self.spec_clock()
                        && out[j].rm_clock@ == self.entries@[j].1.clock@,
            decreases self.entries.len() - i,
        {
            let e = &self.entries[i];
            out.push(Read { add_clock: self.clock.clone(), rm_clock: e.1.clock.clone(), value: e.0 });
            i = i + 1;
        }
        proof {
            assert forall|i: int| 0 <= i < out.len() implies self@.contains_key(
                (#[trigger] out[i]).value,
            ) && self@[out[i].value].0 == self.entries@[i].1.clock@ by {
                self.lemma_view(out[i].value);
            }
            assert forall|k: u64| self@.contains_key(k) implies exists|i: int| 0 <= i < out.len() && #[trigger] out[i].value == k by {
                self.lemma_view(k);
                let i = choose|i: int| 0 <= i < self.entries.len() && self.entries@[i].0 == k;
                assert(out[i].value == k);
            }
        }
        out
    }

    /// Copies of the values in key order, each read with its removal context.
    pub fn values(&self) -> (r: Vec<Read<V>>)
        requires
            self.wf(),
        ensures
            r.len() == self.spec_len(),
            forall|i: int|
                0 <= i < r.len() ==> (#[trigger] r[i]).wf() && r[i].value.valid()
                    && r[i].add_clock@ == self.spec_clock(),
    {
        let mut out: Vec<Read<V>> = Vec::new();
        let mut i: usize = 0;
        while i < self.entries.len()
            invariant
                self.wf(),
                i <= self.entries.len(),
                out.len() == i,
                forall|j: int|
                    0 <= j < i ==> (#[trigger] out[j]).wf() && out[j].value.valid()
                        && out[j].add_clock@ == self.spec_clock(),
            decreases self.entries.len() - i,
        {
            let e = &self.entries[i];
            out.push(
                Read {
                    add_clock: self.clock.clone(),
                    rm_clock: e.1.clock.clone(),
                    value: e.1.value.clone_value(),
                },
            );
            i = i + 1;
        }
        out
    }

    /// Copies of the keys and values in key order, each read with its removal
    /// context.
    pub fn iterator(&self) -> (r: Vec<Read<(u64, V)>>)
        requires
            self.wf(),
        ensures
            r.len() == self.spec_len(),
            forall|i: int|
                0 <= i < r.len() ==> {
                    &&& self@.contains_key((#[trigger] r[i]).value.0)
                    &&& r[i].wf()
                    &&& r[i].value.1.valid()
                    &&& V::copied(self@[r[i].value.0].1.model(), r[i].value.1.model())
                    &&& r[i].add_clock@ == self.spec_clock()
                    &&& r[i].rm_clock@ == self@[r[i].value.0].0
                },
            forall|i: int, j: int| 0 <= i < j < r.len() ==> r[i].value.0 < r[j].value.0,
    {
        let mut out: Vec<Read<(u64, V)>> = Vec::new();
        let mut i: usize = 0;
        while i < self.entries.len()
            invariant
                self.wf(),
                i <= self.entries.len(),
                out.len() == i,
                forall|j: int| 0 <= j < i ==> (#[trigger] out[j]).value.0 == self.entries@[j].0,
                forall|j: int|
                    0 <= j < i ==> (#[trigger] out[j]).wf() && out[j].value.1.valid()
                        && out[j].add_clock@ == self.spec_clock() && out[j].rm_clock@
                        == self.entries@[j].1.clock@ && V::copied(
                        self.entries@[j].1.value.model(),
                        out[j].value.1.model(),
                    ),
            decreases self.entries.len() - i,
        {
            let e = &self.entries[i];
            out.push(
                Read {
                    add_clock: self.clock.clone(),
                    rm_clock: e.1.clock.clone(),
                    value: (e.0, e.1.value.clone_value()),
                },
            );
            i = i + 1;
        }
        proof {
            assert forall|i: int| 0 <= i < out.len() implies self@.contains_key(
                (#[trigger] out[i]).value.0,
            ) && self@[out[i].value.0] == (self.entries@[i].1.clock@, self.entries@[i].1.value) by {
                self.lemma_view(out[i].value.0);
            }
        }
        out
    }

    /// The operation that updates the value at `key` with the operation `f`
    /// builds from the current value (a fresh one when absent) and `a`.
    pub fn update<F>(&self, key: u64, a: Add, f: F) -> (r: Operation<V>) where
        F: FnOnce(&V, Add) -> V::Operation,

        requires
            self.wf(),
            forall|v: &V, x: Add| #[trigger] f.requires((v, x)),
        ensures
            r matches Operation::Update { version, key: k, operation } && version == a.version
                && k == key,
            self@.contains_key(key) ==> (r matches Operation::Update { operation, .. } && f.ensures(
                (&self@[key].1, a),
                operation,
            )),
            !self@.contains_key(key) ==> (r matches Operation::Update { operation, .. } && fresh_call::<V, F>(
                f,
                a,
                operation,
            )),
    {
        let version = a.version;
        let ghost a0 = a;
        let i = self.position(key);
        proof {
            self.lemma_view(key);
            if !(i < self.entries.len() && self.entries@[i as int].0 == key) {
                assert forall|j: int| 0 <= j < self.entries.len() implies self.entries@[j].0
                    != key by {
                    if j > i {
                        assert(self.entries@[i as int].0 < self.entries@[j].0);
                    }
                }
            }
        }
        if i < self.entries.len() && self.entries[i].0 == key {
            let current = &self.entries[i].1.value;
            let operation = f(current, a);
            proof {
                assert(*current == self@[key].1);
                assert(f.ensures((current, a0), operation));
            }
            Operation::Update { version, key, operation }
        } else {
            let fresh = V::default_value();
            let operation = f(&fresh, a);
            proof {
                assert(!self@.contains_key(key)) by {
                    if self@.contains_key(key) {
                        let q = choose|q: int| 0 <= q < self.entries.len() && self.entries@[q].0 == key;
                        if q > i {
                            assert(i < self.entries.len() ==> self.entries@[i as int].0 < self.entries@[q].0);
                        }
                    }
                }
                assert(f.ensures((&fresh, a0), operation));
                assert(fresh_call::<V, F>(f, a0, operation));
            }
            Operation::Update { version, key, operation }
        }
    }

    /// The operation that removes `key` in the context `r`.
    pub fn remove(&self, key: u64, r: Remove) -> (op: Operation<V>)
        ensures
            op matches Operation::Remove { clock, key_set } && clock == r.clock && key_set@ == seq![
                key,
            ],
    {
        let mut key_set: Vec<u64> = Vec::new();
        key_set.push(key);
        Operation::Remove { clock: r.clock, key_set }
    }

    /// Parks a remove by `rm` of `keys`, uniting the keys with those already
    /// parked under the same clock.
    fn park_remove(&mut self, rm: VectorClock, keys: Vec<u64>)
        requires
            old(self).wf(),
            rm.wf(),
        ensures
            final(self).wf(),
            final(self).clock == old(self).clock,
            final(self).entries == old(self).entries,
            final(self).parked() == park(old(self).parked(), rm@, keys@.to_set()),
    {
        let ghost p = self.parked();
        let mut d: Vec<(VectorClock, Vec<u64>)> = Vec::new();
        std::mem::swap(&mut d, &mut self.deferred);
        proof {
            assert(p =~= records_of(d@));
        }
        let mut i: usize = 0;
        while i < d.len()
            invariant
                rm.wf(),
                self.clock == old(self).clock,
                self.entries == old(self).entries,
                old(self).wf(),
                p == records_of(d@),
                d@ == old(self).deferred@,
                parked_unique(p),
                forall|q: int| 0 <= q < d.len() ==> (#[trigger] d@[q]).0.wf(),
                i <= d.len(),
                forall|q: int| 0 <= q < i ==> p[q].0 != rm@,
            decreases d.len() - i,
        {
            assert(p[i as int] == (d@[i as int].0@, d@[i as int].1@.to_set()));
            if d[i].0.same(&rm) {
                let (c, mut ks) = d.remove(i);
                let ghost old_keys = ks@;
                let mut add = keys;
                let ghost add_keys = add@;
                ks.append(&mut add);
                d.insert(i, (c, ks));
                proof {
                    seq_to_set_distributes_over_add(old_keys, add_keys);
                    assert(exists|j: int| 0 <= j < p.len() && p[j].0 == rm@);
                    let j = choose|j: int| 0 <= j < p.len() && p[j].0 == rm@;
                    assert(j == i);
                    assert(records_of(d@) =~= p.update(i as int, (rm@, p[i as int].1.union(add_keys.to_set()))));
                    assert forall|q: int| 0 <= q < d.len() implies (#[trigger] d@[q]).0.wf() by {
                        if q != i {
                            assert(d@[q] == old(self).deferred@[q]);
                        }
                    }
                }
                self.deferred = d;
                proof {
                    assert(self.parked() =~= records_of(self.deferred@));
                }
                return;
            }
            i = i + 1;
        }
        let ghost item = (rm@, keys@.to_set());
        d.push((rm, keys));
        proof {
            assert(records_of(d@) =~= p.push(item));
        }
        self.deferred = d;
        proof {
            assert(self.parked() =~= records_of(self.deferred@));
        }
    }

    /// Removes the keys of `keys` as far as `rm` has seen them, and parks the
    /// remove when this map has not yet seen all of `rm`.
    fn apply_key_set_remove(&mut self, keys: Vec<u64>, rm: VectorClock)
        requires
            old(self).wf(),
            rm.wf(),
        ensures
            final(self).wf(),
            final(self).clock == old(self).clock,
            final(self).model() == remove_fn::<V>(old(self).model(), rm@, keys@.to_set()),
            forall|k: u64| #[trigger] final(self)@.contains_key(k) ==> old(self)@.contains_key(k)
                && dominates(old(self)@[k].0, final(self)@[k].0),
    {
        let ghost start = models_of(self@);
        let ghost sv = self@;
        let ghost r = rm@;
        let mut j: usize = 0;
        proof {
            assert(keys@.take(0).to_set() =~= Set::<u64>::empty());
            assert(models_of(self@) =~= remove_entries::<V>(start, r, keys@.take(0).to_set()));
        }
        while j < keys.len()
            invariant
                self.wf(),
                rm.wf(),
                r == rm@,
                self.clock == old(self).clock,
                self.deferred == old(self).deferred,
                start == models_of(old(self)@),
                sv == old(self)@,
                j <= keys.len(),
                models_of(self@) == remove_entries::<V>(start, r, keys@.take(j as int).to_set()),
                forall|k: u64| #[trigger] self@.contains_key(k) ==> sv.contains_key(k)
                    && dominates(sv[k].0, self@[k].0),
            decreases keys.len() - j,
        {
            let key = keys[j];
            let ghost before = self@;
            let ghost set_before = keys@.take(j as int).to_set();
            proof {
                assert(keys@.take(j + 1) =~= keys@.take(j as int).push(key));
                keys@.take(j as int).lemma_push_to_set_commute(key);
            }
            if !seen_before(&keys, j) {
                proof {
                    assert(!set_before.contains(key));
                }
                let taken = self.take_entry(key);
                match taken {
                    Some(mut e) => {
                        let ghost v0 = e.value.model();
                        let ghost c0 = e.clock@;
                        e.clock.reset_remove(&rm);
                        if !e.clock.is_empty() {
                            e.value.reset_remove(&rm);
                            proof {
                                V::lemma_reset_fn(v0, r, e.value.model());
                            }
                            let ghost x = (e.clock@, e.value.model());
                            let ghost ev = e.value;
                            self.put_entry(key, e);
                            proof {
                                assert(models_of(before).contains_key(key));
                                assert(models_of(before)[key] == (c0, v0));
                                assert(start.contains_key(key) && start[key] == (c0, v0));
                                assert(models_of(self@) =~= models_of(before).remove(key).insert(key, x));
                                assert(models_of(self@) =~= remove_entries::<V>(start, r, keys@.take(j + 1).to_set()));
                            }
                        } else {
                            proof {
                                assert(models_of(before).contains_key(key));
                                assert(models_of(before)[key] == (c0, v0));
                                assert(start.contains_key(key) && start[key] == (c0, v0));
                                assert(models_of(self@) =~= models_of(before).remove(key));
                                assert(models_of(self@) =~= remove_entries::<V>(start, r, keys@.take(j + 1).to_set()));
                            }
                        }
                    },
                    None => {
                        proof {
                            assert(!models_of(before).contains_key(key));
                            assert(!start.contains_key(key));
                            assert(models_of(self@) =~= remove_entries::<V>(start, r, keys@.take(j + 1).to_set()));
                        }
                    },
                }
                proof {
                    assert forall|k: u64| #[trigger] self@.contains_key(k) implies sv.contains_key(k)
                        && dominates(sv[k].0, self@[k].0) by {
                        assert(models_of(self@).contains_key(k));
                        if k == key {
                            assert(start.contains_key(k));
                            lemma_reset_within(sv[k].0, sv[k].0, r);
                        } else {
                            assert(before.contains_key(k));
                        }
                    }
                }
            } else {
                proof {
                    assert(set_before.contains(key));
                    assert(keys@.take(j + 1).to_set() =~= set_before);
                }
            }
            j = j + 1;
        }
        proof {
            assert(keys@.take(keys.len() as int) =~= keys@);
        }
        if !self.clock.dominates_clock(&rm) {
            self.park_remove(rm, keys);
        }
    }

    /// Replays every parked remove; those this map has now seen are dropped.
    fn apply_deferred(&mut self)
        requires
            old(self).wf(),
        ensures
            final(self).wf(),
            final(self).clock == old(self).clock,
            final(self).model() == drain::<V>(old(self).model()),
            forall|k: u64| #[trigger] final(self)@.contains_key(k) ==> old(self)@.contains_key(k)
                && dominates(old(self)@[k].0, final(self)@[k].0),
    {
        let ghost m0 = self.model();
        let ghost recs = self.parked();
        let mut parked: Vec<(VectorClock, Vec<u64>)> = Vec::new();
        std::mem::swap(&mut parked, &mut self.deferred);
        let ghost ps = parked@;
        let ghost mut n: int = 0;
        proof {
            assert(self.parked() =~= Seq::<(Map<u64, u64>, Set<u64>)>::empty());
            assert(recs.take(0) =~= Seq::<(Map<u64, u64>, Set<u64>)>::empty());
            assert(self.model() == replay::<V>((m0.0, m0.1, Seq::empty()), recs.take(0)));
        }
        while parked.len() > 0
            invariant
                self.wf(),
                self.clock == old(self).clock,
                m0 == old(self).model(),
                ps == old(self).deferred@,
                recs == ps.map_values(|d: (VectorClock, Vec<u64>)| (d.0@, d.1@.to_set())),
                0 <= n <= ps.len(),
                parked@ == ps.skip(n),
                forall|i: int| 0 <= i < ps.len() ==> (#[trigger] ps[i]).0.wf(),
                self.model() == replay::<V>((m0.0, m0.1, Seq::empty()), recs.take(n)),
                forall|k: u64| #[trigger] self@.contains_key(k) ==> old(self)@.contains_key(k)
                    && dominates(old(self)@[k].0, self@[k].0),
            decreases parked.len(),
        {
            let (rm, keys) = parked.remove(0);
            let ghost before = self@;
            proof {
                assert(ps.skip(n)[0] == ps[n]);
                assert(parked@ =~= ps.skip(n + 1));
                assert(recs[n] == (rm@, keys@.to_set()));
                assert(recs.take(n + 1).drop_last() =~= recs.take(n));
            }
            self.apply_key_set_remove(keys, rm);
            proof {
                assert forall|k: u64| #[trigger] self@.contains_key(k) implies old(self)@.contains_key(k)
                    && dominates(old(self)@[k].0, self@[k].0) by {
                    assert(before.contains_key(k));
                    lemma_dominates_trans(old(self)@[k].0, before[k].0, self@[k].0);
                }
                n = n + 1;
            }
        }
        proof {
            assert(recs.take(n) =~= recs);
        }
    }

    /// Applies `op`. An update whose version this map has seen changes
    /// nothing; otherwise the key's clock and the map's clock observe the
    /// version, the value applies the nested operation, and parked removes are
    /// replayed. A remove is applied as `apply_key_set_remove` describes.
    pub fn apply(&mut self, op: Operation<V>)
        requires
            old(self).wf(),
            old(self).clocks_within(),
            op_wf(&op),
        ensures
            final(self).wf(),
            final(self).clocks_within(),
            map_applied::<V>(old(self).model(), op, final(self).model()),
    {
        let ghost m0 = self.model();
        match op {
            Operation::Remove { clock, key_set } => {
                let ghost rc = clock@;
                self.apply_key_set_remove(key_set, clock);
                proof {
                    assert forall|k: u64| #[trigger] self@.contains_key(k) implies dominates(self.spec_clock(), self@[k].0) by {
                        assert(old(self)@.contains_key(k));
                        lemma_dominates_trans(old(self).spec_clock(), old(self)@[k].0, self@[k].0);
                    }
                }
            },
            Operation::Update { version, key, operation } => {
                if self.clock.get(&version.actor) >= version.counter {
                    return ;
                }
                let ghost before = self@;
                let taken = self.take_entry(key);
                let mut e = match taken {
                    Some(e) => e,
                    None => Entry { clock: VectorClock::new(), value: V::default_value() },
                };
                let ghost prior = e.value.model();
                proof {
                    assert(prior == value_or_default::<V>(m0.1, key));
                    assert(e.clock@ == clock_or_empty(m0.1, key));
                }
                e.clock.apply(version);
                let ghost op_copy = operation;
                e.value.apply(operation);
                proof {
                    assert(e.clock@.contains_key(version.actor));
                    V::lemma_apply_fn(prior, op_copy, e.value.model());
                }
                self.put_entry(key, e);
                let mut c = VectorClock::new();
                std::mem::swap(&mut c, &mut self.clock);
                c.apply(version);
                self.clock = c;
                let ghost mid = self@;
                proof {
                    assert(mid =~= before.insert(key, (e.clock@, e.value)));
                    assert(self.model() == (
                        clock_apply(m0.0, version),
                        m0.1.insert(key, (clock_apply(clock_or_empty(m0.1, key), version), V::apply_fn(value_or_default::<V>(m0.1, key), op_copy))),
                        m0.2,
                    )) by {
                        assert(models_of(mid) =~= m0.1.insert(key, (clock_apply(clock_or_empty(m0.1, key), version), V::apply_fn(value_or_default::<V>(m0.1, key), op_copy))));
                    }
                }
                self.apply_deferred();
                proof {
                    assert forall|k: u64| #[trigger] self@.contains_key(k) implies dominates(self.spec_clock(), self@[k].0) by {
                        assert(mid.contains_key(k));
                        let mcl = old(self).spec_clock();
                        lemma_apply_within(mcl, clock_or_empty(m0.1, key), version);
                        if k == key {
                            if old(self)@.contains_key(key) {
                                assert(dominates(mcl, old(self)@[key].0));
                            } else {
                                assert(dominates(mcl, Map::<u64, u64>::empty()));
                            }
                            lemma_apply_within(mcl, clock_or_empty(m0.1, key), version);
                        } else {
                            assert(before.contains_key(k));
                            assert(old(self)@.contains_key(k));
                            lemma_dominates_trans(clock_apply(mcl, version), mcl, mid[k].0);
                        }
                        lemma_dominates_trans(self.spec_clock(), mid[k].0, self@[k].0);
                    }
                }
            },
        }
    }

    /// Removes what `base` has seen: every key's clock and value are reset by
    /// `base` and keys whose clock empties are dropped; parked removes and the
    /// map's clock are reset too.
    pub fn reset_remove(&mut self, base: &VectorClock)
        requires
            old(self).wf(),
            old(self).clocks_within(),
            base.wf(),
        ensures
            final(self).wf(),
            final(self).clocks_within(),
            map_reset::<V>(old(self).model(), base@, final(self).model()),
    {
        let ghost b = base@;
        let mut rest: Vec<(u64, Entry<V>)> = Vec::new();
        std::mem::swap(&mut rest, &mut self.entries);
        let ghost s = rest@;
        let mut kept: Vec<(u64, Entry<V>)> = Vec::new();
        let ghost mut i: int = 0;
        while rest.len() > 0
            invariant
                base.wf(),
                b == base@,
                keys_sorted(s),
                s == old(self).entries@,
                forall|j: int|
                    0 <= j < s.len() ==> {
                        &&& (#[trigger] s[j]).1.clock.wf()
                        &&& s[j].1.clock@ != Map::<u64, u64>::empty()
                        &&& s[j].1.value.valid()
                    },
                0 <= i <= s.len(),
                rest@ == s.skip(i),
                keys_sorted(kept@),
                forall|p: int, m: int| 0 <= p < kept.len() && i <= m < s.len() ==> kept@[p].0 < s[m].0,
                forall|j: int|
                    0 <= j < kept.len() ==> {
                        &&& (#[trigger] kept@[j]).1.clock.wf()
                        &&& kept@[j].1.clock@ != Map::<u64, u64>::empty()
                        &&& kept@[j].1.value.valid()
                    },
                self.clock == old(self).clock,
                forall|k: u64| #[trigger] reset_rel(kept@, s.take(i), b, k),
            decreases rest.len(),
        {
            let ghost before = kept@;
            let (k, mut e) = rest.remove(0);
            proof {
                assert(s.skip(i)[0] == s[i]);
                assert(rest@ =~= s.skip(i + 1));
                assert(s.take(i + 1) =~= s.take(i).push(s[i]));
                assert(s.take(i + 1).drop_last() =~= s.take(i));
                lemma_entry_absent(s.take(i), k);
            }
            let ghost v0 = e.value.model();
            e.clock.reset_remove(base);
            e.value.reset_remove(base);
            let ghost x = (k, e);
            let pushed = !e.clock.is_empty();
            if pushed {
                kept.push((k, e));
                proof {
                    assert(kept@.drop_last() =~= before);
                    assert(kept@.last() == x);
                }
            }
            proof {
                assert forall|kk: u64| #[trigger] reset_rel(kept@, s.take(i + 1), b, kk) by {
                    assert(reset_rel(before, s.take(i), b, kk));
                    if kk == k {
                        assert(entry_of(s.take(i + 1), kk) == Some(s[i].1));
                        assert(v0 == s[i].1.value.model());
                    } else {
                        assert(entry_of(s.take(i + 1), kk) == entry_of(s.take(i), kk));
                        if pushed {
                            assert(entry_of(kept@, kk) == entry_of(before, kk));
                        }
                    }
                }
                i = i + 1;
            }
        }
        proof {
            assert(s.take(i) =~= s);
        }
        self.entries = kept;
        let ghost final_entries = self.entries@;
        let ghost pv = old(self).parked();
        let mut parked: Vec<(VectorClock, Vec<u64>)> = Vec::new();
        std::mem::swap(&mut parked, &mut self.deferred);
        let ghost ps = parked@;
        let ghost mut n: int = 0;
        proof {
            assert(self.parked() =~= Seq::<(Map<u64, u64>, Set<u64>)>::empty());
            assert(pv.take(0) =~= Seq::<(Map<u64, u64>, Set<u64>)>::empty());
            assert(keys_sorted(self.entries@));
            assert(self.wf());
        }
        while parked.len() > 0
            invariant
                self.wf(),
                base.wf(),
                b == base@,
                self.clock == old(self).clock,
                self.entries@ == final_entries,
                ps == old(self).deferred@,
                pv == ps.map_values(|d: (VectorClock, Vec<u64>)| (d.0@, d.1@.to_set())),
                0 <= n <= ps.len(),
                parked@ == ps.skip(n),
                forall|i: int| 0 <= i < ps.len() ==> (#[trigger] ps[i]).0.wf(),
                self.parked() == parked_reset(pv.take(n), b),
            decreases parked.len(),
        {
            let (mut c, ks) = parked.remove(0);
            proof {
                assert(ps.skip(n)[0] == ps[n]);
                assert(parked@ =~= ps.skip(n + 1));
                assert(pv[n] == (ps[n].0@, ps[n].1@.to_set()));
                assert(pv.take(n + 1).drop_last() =~= pv.take(n));
            }
            c.reset_remove(base);
            if !c.is_empty() {
                self.park_remove(c, ks);
            }
            proof {
                n = n + 1;
            }
        }
        proof {
            assert(pv.take(n) =~= pv);
        }
        let mut c = VectorClock::new();
        std::mem::swap(&mut c, &mut self.clock);
        c.reset_remove(base);
        self.clock = c;
        proof {
            let m0 = old(self).model();
            let m1 = self.model();
            assert forall|k: u64| #![trigger m1.1.contains_key(k)] m1.1.contains_key(k) == (m0.1.contains_key(k)
                && clock_reset(m0.1[k].0, b) != Map::<u64, u64>::empty()) by {
                assert(reset_rel(final_entries, s, b, k));
            }
            assert forall|k: u64| #![trigger m1.1[k]] m1.1.contains_key(k) implies m1.1[k].0 == clock_reset(
                m0.1[k].0,
                b,
            ) && V::reset(m0.1[k].1, b, m1.1[k].1) by {
                assert(reset_rel(final_entries, s, b, k));
            }
            assert forall|k: u64| #![trigger m1.1[k]] m1.1.contains_key(k) implies m1.1[k].1 == V::reset_fn(m0.1[k].1, b) by {
                V::lemma_reset_fn(m0.1[k].1, b, m1.1[k].1);
            }
            assert(m1.1 =~= map_reset_fn::<V>(m0, b).1);
            assert forall|k: u64| #[trigger] self@.contains_key(k) implies dominates(self.spec_clock(), self@[k].0) by {
                assert(m1.1.contains_key(k));
                assert(m1.1[k].0 == clock_reset(m0.1[k].0, b));
                assert(old(self)@.contains_key(k));
                lemma_reset_within(old(self).spec_clock(), old(self)@[k].0, b);
            }
        }
    }

    /// State merge with `other`: each key's clock becomes `merged_clock` of
    /// its two sides, values are merged and reset by what the other side
    /// removed, `other`'s parked removes are replayed and the clocks joined.
    pub fn merge(&mut self, other: CausalMap<V>)
        requires
            old(self).wf(),
            old(self).clocks_within(),
            other.wf(),
            other.clocks_within(),
        ensures
            final(self).wf(),
            final(self).clocks_within(),
            map_merged::<V>(old(self).model(), other.model(), final(self).model()),
    {
        let ghost mc = self.clock@;
        let ghost oc = other.clock@;
        let ghost ov = other@;
        let ghost sv = self@;
        let ghost bm2 = other.parked();
        let ghost od = other.deferred@;
        proof {
            assert(bm2 =~= od.map_values(|d: (VectorClock, Vec<u64>)| (d.0@, d.1@.to_set())));
        }
        // Keys on this side only.
        let mut rest: Vec<(u64, Entry<V>)> = Vec::new();
        std::mem::swap(&mut rest, &mut self.entries);
        let ghost s = rest@;
        let mut kept: Vec<(u64, Entry<V>)> = Vec::new();
        let ghost mut i: int = 0;
        while rest.len() > 0
            invariant
                other.wf(),
                oc == other.clock@,
                ov == other@,
                keys_sorted(s),
                s == old(self).entries@,
                forall|j: int|
                    0 <= j < s.len() ==> {
                        &&& (#[trigger] s[j]).1.clock.wf()
                        &&& s[j].1.clock@ != Map::<u64, u64>::empty()
                        &&& s[j].1.value.valid()
                    },
                0 <= i <= s.len(),
                rest@ == s.skip(i),
                keys_sorted(kept@),
                forall|p: int, m: int| 0 <= p < kept.len() && i <= m < s.len() ==> kept@[p].0 < s[m].0,
                forall|j: int|
                    0 <= j < kept.len() ==> {
                        &&& (#[trigger] kept@[j]).1.clock.wf()
                        &&& kept@[j].1.clock@ != Map::<u64, u64>::empty()
                        &&& kept@[j].1.value.valid()
                    },
                self.clock == old(self).clock,
                self.deferred == old(self).deferred,
                forall|k: u64|
                    #[trigger] seq_key_clock(kept@, k) == (if ov.contains_key(k) {
                        seq_key_clock(s.take(i), k)
                    } else {
                        merged_clock(seq_key_clock(s.take(i), k), None, mc, oc)
                    }),
                forall|k: u64| #[trigger] own_value_rel::<V>(kept@, s.take(i), ov, oc, k),
            decreases rest.len(),
        {
            let ghost before = kept@;
            let (k, mut e) = rest.remove(0);
            proof {
                assert(s.skip(i)[0] == s[i]);
                assert(rest@ =~= s.skip(i + 1));
                assert(s.take(i + 1) =~= s.take(i).push(s[i]));
                assert(s.take(i + 1).drop_last() =~= s.take(i));
                lemma_entry_absent(s.take(i), k);
            }
            let ghost a = e.clock@;
            let ghost v0 = e.value;
            let mut keep = true;
            if !other.has_key(k) {
                if other.clock.dominates_clock(&e.clock) {
                    keep = false;
                } else {
                    e.clock.reset_remove(&other.clock);
                    let removed = other.clock.clone_without(&e.clock);
                    e.value.reset_remove(&removed);
                    proof {
                        assert(e.clock@ != Map::<u64, u64>::empty()) by {
                            let w = choose|x: u64|
                                !(crate::vector_clock::clock_get(oc, x)
                                    >= crate::vector_clock::clock_get(a, x));
                            assert(e.clock@.contains_key(w));
                        }
                    }
                }
            }
            let ghost x = (k, e);
            if keep {
                kept.push((k, e));
                proof {
                    assert(kept@.drop_last() =~= before);
                    assert(kept@.last() == x);
                }
            }
            proof {
                assert forall|kk: u64| #[trigger] seq_key_clock(kept@, kk) == (if ov.contains_key(kk) {
                    seq_key_clock(s.take(i + 1), kk)
                } else {
                    merged_clock(seq_key_clock(s.take(i + 1), kk), None, mc, oc)
                }) by {
                    assert(seq_key_clock(before, kk) == (if ov.contains_key(kk) {
                        seq_key_clock(s.take(i), kk)
                    } else {
                        merged_clock(seq_key_clock(s.take(i), kk), None, mc, oc)
                    }));
                    if kk == k {
                        assert(entry_of(s.take(i + 1), kk) == Some(s[i].1));
                    } else {
                        assert(entry_of(s.take(i + 1), kk) == entry_of(s.take(i), kk));
                        if keep {
                            assert(entry_of(kept@, kk) == entry_of(before, kk));
                        }
                    }
                }
                assert forall|kk: u64| #[trigger] own_value_rel::<V>(kept@, s.take(i + 1), ov, oc, kk) by {
                    assert(own_value_rel::<V>(before, s.take(i), ov, oc, kk));
                    if kk == k {
                        assert(entry_of(s.take(i + 1), kk) == Some(s[i].1));
                        assert(v0 == s[i].1.value);
                    } else {
                        assert(entry_of(s.take(i + 1), kk) == entry_of(s.take(i), kk));
                        if keep {
                            assert(entry_of(kept@, kk) == entry_of(before, kk));
                        }
                    }
                }
                i = i + 1;
            }
        }
        proof {
            assert(s.take(i) =~= s);
        }
        self.entries = kept;
        let ghost p1 = self@;
        proof {
            assert forall|k: u64| #[trigger] own_kept::<V>(p1, sv, ov, oc, k) by {
                assert(own_value_rel::<V>(self.entries@, s, ov, oc, k));
                assert(seq_key_clock(self.entries@, k) == (if ov.contains_key(k) {
                    seq_key_clock(s, k)
                } else {
                    merged_clock(seq_key_clock(s, k), None, mc, oc)
                }));
                assert(sv == entries_view(s));
            }
            assert forall|k: u64| #[trigger] key_clock(p1, k) == (if ov.contains_key(k) {
                key_clock(sv, k)
            } else {
                merged_clock(key_clock(sv, k), None, mc, oc)
            }) by {
                assert(seq_key_clock(self.entries@, k) == (if ov.contains_key(k) {
                    seq_key_clock(s, k)
                } else {
                    merged_clock(seq_key_clock(s, k), None, mc, oc)
                }));
            }
        }
        // Keys of the other side.
        let CausalMap { clock: other_clock, entries: other_entries, deferred: other_deferred } = other;
        let mut theirs = other_entries;
        let ghost t = theirs@;
        let ghost mut j: int = 0;
        while theirs.len() > 0
            invariant
                self.wf(),
                self.clock == old(self).clock,
                self.deferred == old(self).deferred,
                mc == self.clock@,
                oc == other_clock@,
                other_clock.wf(),
                forall|k: u64| #[trigger] key_clock(p1, k) == (if ov.contains_key(k) {
                    key_clock(sv, k)
                } else {
                    merged_clock(key_clock(sv, k), None, mc, oc)
                }),
                keys_sorted(t),
                ov == entries_view(t),
                forall|q: int|
                    0 <= q < t.len() ==> {
                        &&& (#[trigger] t[q]).1.clock.wf()
                        &&& t[q].1.clock@ != Map::<u64, u64>::empty()
                        &&& t[q].1.value.valid()
                    },
                0 <= j <= t.len(),
                theirs@ == t.skip(j),
                forall|k: u64|
                    #[trigger] key_clock(self@, k) == (if entry_of(t.take(j), k) is Some {
                        merged_clock(key_clock(sv, k), key_clock(ov, k), mc, oc)
                    } else {
                        key_clock(p1, k)
                    }),
                forall|k: u64| #[trigger] own_kept::<V>(p1, sv, ov, oc, k),
                forall|k: u64|
                    #![trigger self@[k]]
                    self@.contains_key(k) ==> if entry_of(t.take(j), k) is Some {
                        merged_value::<V>(model_opt(models_of(sv), k), model_opt(models_of(ov), k), mc, oc, self@[k].1.model())
                    } else {
                        self@[k] == p1[k]
                    },
            decreases theirs.len(),
        {
            let (k, mut e) = theirs.remove(0);
            let ghost before = self@;
            proof {
                assert(t.skip(j)[0] == t[j]);
                assert(theirs@ =~= t.skip(j + 1));
                assert(t.take(j + 1) =~= t.take(j).push(t[j]));
                assert(t.take(j + 1).drop_last() =~= t.take(j));
                lemma_entry_absent(t.take(j), k);
                lemma_entry_at(t, j);
                assert(key_clock(ov, k) == Some(e.clock@));
                assert(key_clock(before, k) == key_clock(p1, k));
            }
            let ghost b = e.clock@;
            let ghost ev = e.value;
            proof {
                assert(ov[k] == (t[j].1.clock@, t[j].1.value));
            }
            match self.take_entry(k) {
                Some(mut ours) => {
                    let ghost a = ours.clock@;
                    let mut common = VectorClock::intersection(&e.clock, &ours.clock);
                    common.merge(e.clock.clone_without(&self.clock));
                    common.merge(ours.clock.clone_without(&other_clock));
                    if !common.is_empty() {
                        let mut deleted = e.clock.clone();
                        deleted.merge(ours.clock.clone());
                        deleted.reset_remove(&common);
                        let ghost ov0 = ours.value.model();
                        ours.value.merge(e.value);
                        let ghost mid = ours.value.model();
                        ours.value.reset_remove(&deleted);
                        proof {
                            assert(before[k] == p1[k]);
                            assert(own_kept::<V>(p1, sv, ov, oc, k));
                            assert(p1[k] == sv[k]);
                            assert(V::merged(ov0, ev.model(), mid));
                            assert(V::reset(mid, clock_reset(clock_join(b, a), common@), ours.value.model()));
                        }
                        ours.clock = common;
                        let ghost ours_value = ours.value;
                        self.put_entry(k, ours);
                        proof {
                            assert(model_opt(models_of(sv), k) == Some((a, ov0)));
                            assert(model_opt(models_of(ov), k) == Some((b, ev.model())));
                            let cc = clock_join(clock_join(clock_common(b, a), clock_reset(b, mc)), clock_reset(a, oc));
                            assert(common@ == cc);
                            assert(V::merged(ov0, ev.model(), mid) && V::reset(mid, clock_reset(clock_join(b, a), cc), ours_value.model()));
                            assert(clock_reset(clock_join(b, a), cc) == both_deleted(a, b, mc, oc));
                            assert(V::reset(mid, both_deleted(a, b, mc, oc), ours_value.model()));
                            assert(exists|tt: V::Model| V::merged(ov0, ev.model(), tt) && #[trigger] V::reset(tt, both_deleted(a, b, mc, oc), ours_value.model()));
                            let mo: Option<(Map<u64, u64>, V::Model)> = Some((a, ov0));
                            let to: Option<(Map<u64, u64>, V::Model)> = Some((b, ev.model()));
                            assert(mo->Some_0.1 == ov0 && to->Some_0.1 == ev.model() && mo->Some_0.0 == a && to->Some_0.0 == b);
                            assert(merged_value::<V>(mo, to, mc, oc, ours_value.model()));
                            assert(merged_value::<V>(model_opt(models_of(sv), k), model_opt(models_of(ov), k), mc, oc, ours_value.model()));
                            assert(self@[k].1 == ours_value);
                        }
                    }
                },
                None => {
                    proof {
                        assert(!p1.contains_key(k));
                        assert(key_clock(p1, k) == key_clock(sv, k));
                        assert(!sv.contains_key(k));
                    }
                    if !self.clock.dominates_clock(&e.clock) {
                        e.clock.reset_remove(&self.clock);
                        let removed = self.clock.clone_without(&e.clock);
                        e.value.reset_remove(&removed);
                        proof {
                            assert(e.clock@ != Map::<u64, u64>::empty()) by {
                                let w = choose|x: u64|
                                    !(crate::vector_clock::clock_get(mc, x)
                                        >= crate::vector_clock::clock_get(b, x));
                                assert(e.clock@.contains_key(w));
                            }
                        }
                        let ghost e_value = e.value;
                        self.put_entry(k, e);
                        proof {
                            assert(model_opt(models_of(sv), k) == None::<(Map<u64, u64>, V::Model)>);
                            assert(model_opt(models_of(ov), k) == Some((b, ev.model())));
                            assert(merged_value::<V>(model_opt(models_of(sv), k), model_opt(models_of(ov), k), mc, oc, e_value.model()));
                            assert(self@[k].1 == e_value);
                        }
                    }
                },
            }
            proof {
                assert forall|kk: u64| #[trigger] key_clock(self@, kk) == (if entry_of(
                    t.take(j + 1),
                    kk,
                ) is Some {
                    merged_clock(key_clock(sv, kk), key_clock(ov, kk), mc, oc)
                } else {
                    key_clock(p1, kk)
                }) by {
                    assert(key_clock(before, kk) == (if entry_of(t.take(j), kk) is Some {
                        merged_clock(key_clock(sv, kk), key_clock(ov, kk), mc, oc)
                    } else {
                        key_clock(p1, kk)
                    }));
                    if kk != k {
                        assert(entry_of(t.take(j + 1), kk) == entry_of(t.take(j), kk));
                    } else {
                        assert(entry_of(t.take(j + 1), kk) == Some(t[j].1));
                        assert(key_clock(p1, kk) == (if ov.contains_key(kk) {
                            key_clock(sv, kk)
                        } else {
                            merged_clock(key_clock(sv, kk), None, mc, oc)
                        }));
                    }
                }
                assert forall|kk: u64| #![trigger self@[kk]] self@.contains_key(kk) implies if entry_of(
                    t.take(j + 1),
                    kk,
                ) is Some {
                    merged_value::<V>(model_opt(models_of(sv), kk), model_opt(models_of(ov), kk), mc, oc, self@[kk].1.model())
                } else {
                    self@[kk] == p1[kk]
                } by {
                    if kk != k {
                        assert(entry_of(t.take(j + 1), kk) == entry_of(t.take(j), kk));
                        assert(before.contains_key(kk));
                        assert(self@[kk] == before[kk]);
                    } else {
                        assert(entry_of(t.take(j + 1), kk) == Some(t[j].1));
                    }
                }
                j = j + 1;
            }
        }
        proof {
            assert(t.take(j) =~= t);
            assert forall|k: u64| #[trigger] key_clock(self@, k) == merged_clock(
                key_clock(sv, k),
                key_clock(ov, k),
                mc,
                oc,
            ) by {
                assert(key_clock(self@, k) == (if entry_of(t, k) is Some {
                    merged_clock(key_clock(sv, k), key_clock(ov, k), mc, oc)
                } else {
                    key_clock(p1, k)
                }));
                if entry_of(t, k) is None {
                    assert(!ov.contains_key(k));
                }
            }
            assert forall|k: u64| #![trigger self@[k]] self@.contains_key(k) implies merged_value::<V>(
                model_opt(models_of(sv), k),
                model_opt(models_of(ov), k),
                mc,
                oc,
                self@[k].1.model(),
            ) by {
                if entry_of(t, k) is None {
                    assert(!ov.contains_key(k));
                    assert(self@[k] == p1[k]);
                    assert(own_kept::<V>(p1, sv, ov, oc, k));
                    assert(key_clock(self@, k) == (if entry_of(t, k) is Some {
                        merged_clock(key_clock(sv, k), key_clock(ov, k), mc, oc)
                    } else {
                        key_clock(p1, k)
                    }));
                    assert(p1.contains_key(k));
                    assert(sv.contains_key(k));
                    assert(model_opt(models_of(sv), k) == Some((sv[k].0, sv[k].1.model())));
                    assert(model_opt(models_of(ov), k) == None::<(Map<u64, u64>, V::Model)>);
                } else {
                    assert(entry_of(t.take(j), k) is Some);
                }
            }
        }
        proof {
            assert forall|k: u64| #[trigger] self@.contains_key(k) implies dominates(clock_join(mc, oc), self@[k].0) by {
                assert(key_clock(self@, k) == merged_clock(key_clock(sv, k), key_clock(ov, k), mc, oc));
                if sv.contains_key(k) {
                    assert(old(self)@.contains_key(k));
                }
                if ov.contains_key(k) {
                    assert(ov.contains_key(k));
                }
                lemma_merged_within(key_clock(sv, k), key_clock(ov, k), mc, oc);
            }
        }
        let ghost am = old(self).model();
        let ghost bm = (oc, models_of(ov), bm2);
        let ghost e2 = merged_entries::<V>(am, bm);
        proof {
            assert forall|k: u64| #[trigger] self@.contains_key(k) implies self@[k].1.model()
                == merged_value_fn::<V>(model_opt(am.1, k), model_opt(bm.1, k), mc, oc) by {
                lemma_merged_value_fn::<V>(model_opt(models_of(sv), k), model_opt(models_of(ov), k), mc, oc, self@[k].1.model());
            }
            assert forall|k: u64| #![auto] key_clock(am.1, k) == key_clock(sv, k) && key_clock(bm.1, k) == key_clock(ov, k) by {}
            assert(models_of(self@) =~= e2) by {
                assert forall|k: u64| #![auto] models_of(self@).contains_key(k) == e2.contains_key(k) by {
                    assert(key_clock(self@, k) == merged_clock(key_clock(sv, k), key_clock(ov, k), mc, oc));
                }
                assert forall|k: u64| #![auto] models_of(self@).contains_key(k) implies models_of(self@)[k] == e2[k] by {
                    assert(key_clock(self@, k) == merged_clock(key_clock(sv, k), key_clock(ov, k), mc, oc));
                }
            }
        }
        // Removes the other side had parked.
        let ghost start3 = (mc, e2, am.2);
        let ghost brecs = bm.2;
        let ghost ps = other_deferred@;
        let mut parked = other_deferred;
        let ghost mut n: int = 0;
        proof {
            assert(self.model() == start3);
            assert(brecs.take(0) =~= Seq::<(Map<u64, u64>, Set<u64>)>::empty());
        }
        while parked.len() > 0
            invariant
                self.wf(),
                self.clock == old(self).clock,
                mc == self.clock@,
                ps == od,
                brecs == ps.map_values(|d: (VectorClock, Vec<u64>)| (d.0@, d.1@.to_set())),
                0 <= n <= ps.len(),
                parked@ == ps.skip(n),
                forall|q: int| 0 <= q < ps.len() ==> (#[trigger] ps[q]).0.wf(),
                self.model() == replay::<V>(start3, brecs.take(n)),
                forall|k: u64| #[trigger] self@.contains_key(k) ==> dominates(clock_join(mc, oc), self@[k].0),
            decreases parked.len(),
        {
            let (rm, keys) = parked.remove(0);
            let ghost before = self@;
            proof {
                assert(ps.skip(n)[0] == ps[n]);
                assert(parked@ =~= ps.skip(n + 1));
                assert(brecs[n] == (rm@, keys@.to_set()));
                assert(brecs.take(n + 1).drop_last() =~= brecs.take(n));
            }
            self.apply_key_set_remove(keys, rm);
            proof {
                assert forall|k: u64| #[trigger] self@.contains_key(k) implies dominates(clock_join(mc, oc), self@[k].0) by {
                    assert(before.contains_key(k));
                    lemma_dominates_trans(clock_join(mc, oc), before[k].0, self@[k].0);
                }
                n = n + 1;
            }
        }
        proof {
            assert(brecs.take(n) =~= brecs);
        }
        let ghost after3 = self@;
        let ghost r3 = self.model();
        let mut c = VectorClock::new();
        std::mem::swap(&mut c, &mut self.clock);
        c.merge(other_clock);
        self.clock = c;
        let ghost before_deferred = self@;
        proof {
            assert(self.model() == (clock_join(mc, oc), r3.1, r3.2));
        }
        self.apply_deferred();
        proof {
            assert forall|k: u64| #[trigger] self@.contains_key(k) implies dominates(self.spec_clock(), self@[k].0) by {
                assert(before_deferred.contains_key(k));
                assert(after3 == before_deferred);
                assert(after3.contains_key(k));
                assert(dominates(clock_join(mc, oc), after3[k].0));
                lemma_dominates_trans(clock_join(mc, oc), before_deferred[k].0, self@[k].0);
            }
        }
    }

    /// Whether an update is the next event both of the map and of its key,
    /// and whether the key's value accepts the nested operation.
    pub fn validate_operation(&self, op: &Operation<V>) -> (r: Result<(), CmRDTValidation<V>>)
        requires
            self.wf(),
            op_wf(op),
        ensures
            r is Ok <==> map_operation_ok::<V>(self.model(), op),
            op is Remove ==> r is Ok,
            op matches Operation::Update { version, key, .. } ==> {
                let map_next = clock_get_of(self.spec_clock(), version.actor) + 1;
                let key_next = clock_get_of(clock_or_empty(self.model().1, *key), version.actor) + 1;
                &&& (r matches Err(CmRDTValidation::SourceOrder(_))) <==> (version.counter > map_next
                    || version.counter > key_next)
                &&& version.counter > map_next ==> (r matches Err(CmRDTValidation::SourceOrder(e))
                    && e.actor == version.actor && e.counter_range.start == map_next
                    && e.counter_range.end == version.counter)
                &&& version.counter <= map_next && version.counter > key_next ==> (r matches Err(
                    CmRDTValidation::SourceOrder(e),
                ) && e.actor == version.actor && e.counter_range.start == key_next
                    && e.counter_range.end == version.counter)
            },
    {
        match op {
            Operation::Remove { .. } => Ok(()),
            Operation::Update { version, key, operation } => {
                if let Err(e) = self.clock.validate_operation(version) {
                    return Err(CmRDTValidation::SourceOrder(e));
                }
                let i = self.position(*key);
                proof {
                    self.lemma_view(*key);
                    if !(i < self.entries.len() && self.entries@[i as int].0 == *key) {
                        assert forall|j: int| 0 <= j < self.entries.len() implies self.entries@[j].0
                            != *key by {
                            if j > i {
                                assert(self.entries@[i as int].0 < self.entries@[j].0);
                            }
                        }
                    }
                }
                if i < self.entries.len() && self.entries[i].0 == *key {
                    let e = &self.entries[i].1;
                    proof {
                        assert(self.model().1[*key] == (e.clock@, e.value.model()));
                    }
                    if let Err(g) = e.clock.validate_operation(version) {
                        return Err(CmRDTValidation::SourceOrder(g));
                    }
                    match e.value.validate_operation(operation) {
                        Ok(()) => Ok(()),
                        Err(v) => Err(CmRDTValidation::Value(v)),
                    }
                } else {
                    let empty = VectorClock::new();
                    if let Err(g) = empty.validate_operation(version) {
                        return Err(CmRDTValidation::SourceOrder(g));
                    }
                    let fresh = V::default_value();
                    match fresh.validate_operation(operation) {
                        Ok(()) => Ok(()),
                        Err(v) => Err(CmRDTValidation::Value(v)),
                    }
                }
            },
        }
    }

    /// Refuses a merge in which one version supports different keys on the
    /// two sides, and asks the values of keys whose clocks are concurrent.
    pub fn validate_merge(&self, other: &CausalMap<V>) -> (r: Result<(), CvRDTValidation<V>>)
        requires
            self.wf(),
            other.wf(),
        ensures
            r is Ok <==> map_merge_ok::<V>(self.model(), other.model()),
            r is Ok ==> forall|k1: u64, k2: u64, a: u64| !double_spent(self@, other@, k1, k2, a),
            r matches Err(CvRDTValidation::DoubleSpentVersion { version, our_key, their_key })
                ==> double_spent(self@, other@, our_key, their_key, version.actor)
                && version.counter == self@[our_key].0[version.actor],
    {
        let ghost sm = models_of(self@);
        let ghost om = models_of(other@);
        proof {
            assert forall|k1: u64, k2: u64, x: u64| #[trigger] double_spent(sm, om, k1, k2, x) == double_spent(self@, other@, k1, k2, x) by {}
        }
        let mut i: usize = 0;
        while i < self.entries.len()
            invariant
                self.wf(),
                other.wf(),
                i <= self.entries.len(),
                forall|p: int, k2: u64, a: u64|
                    0 <= p < i ==> !#[trigger] double_spent(self@, other@, self.entries@[p].0, k2, a),
                sm == models_of(self@),
                om == models_of(other@),
                forall|k1: u64, k2: u64, x: u64| #[trigger] double_spent(sm, om, k1, k2, x) == double_spent(self@, other@, k1, k2, x),
                forall|p: int| 0 <= p < i ==> #[trigger] values_merge_ok::<V>(sm, om, self.entries@[p].0),
            decreases self.entries.len() - i,
        {
            let key = self.entries[i].0;
            let entry = &self.entries[i].1;
            proof {
                self.lemma_view(key);
            }
            let versions = entry.clock.iterator();
            let mut j: usize = 0;
            while j < other.entries.len()
                invariant
                    self.wf(),
                    other.wf(),
                    i < self.entries.len(),
                    key == self.entries@[i as int].0,
                    entry == &self.entries@[i as int].1,
                    self@.contains_key(key),
                    self@[key].0 == entry.clock@,
                    crate::vector_clock::canonical(versions@),
                    forall|a: u64| #![auto] crate::vector_clock::counter_in(versions@, a) == entry.clock.spec_get(a),
                    j <= other.entries.len(),
                    forall|q: int, a: u64|
                        0 <= q < j ==> !#[trigger] double_spent(self@, other@, key, other.entries@[q].0, a),
                    sm == models_of(self@),
                    om == models_of(other@),
                    forall|k1: u64, k2: u64, x: u64| #[trigger] double_spent(sm, om, k1, k2, x) == double_spent(self@, other@, k1, k2, x),
                    forall|p: int| 0 <= p < i ==> #[trigger] values_merge_ok::<V>(sm, om, self.entries@[p].0),
                    self@[key].1 == entry.value,
                    forall|q: int| 0 <= q < j && other.entries@[q].0 == key ==> values_merge_ok::<V>(sm, om, key),
                decreases other.entries.len() - j,
            {
                let other_key = other.entries[j].0;
                let other_entry = &other.entries[j].1;
                proof {
                    other.lemma_view(other_key);
                }
                let mut n: usize = 0;
                while n < versions.len()
                    invariant
                        self.wf(),
                        other.wf(),
                        j < other.entries.len(),
                        other_key == other.entries@[j as int].0,
                        other_entry == &other.entries@[j as int].1,
                        other@.contains_key(other_key),
                        other@[other_key].0 == other_entry.clock@,
                        self@.contains_key(key),
                        self@[key].0 == entry.clock@,
                        crate::vector_clock::canonical(versions@),
                        forall|a: u64| #![auto] crate::vector_clock::counter_in(versions@, a) == entry.clock.spec_get(a),
                        n <= versions.len(),
                        sm == models_of(self@),
                        om == models_of(other@),
                        forall|k1: u64, k2: u64, x: u64| #[trigger] double_spent(sm, om, k1, k2, x) == double_spent(self@, other@, k1, k2, x),
                        forall|m: int|
                            0 <= m < n ==> !double_spent(self@, other@, key, other_key, #[trigger] versions@[m].actor),
                    decreases versions.len() - n,
                {
                    let v = versions[n];
                    proof {
                        crate::vector_clock::lemma_counter_cases(versions@, v.actor);
                    }
                    if other_key != key && other_entry.clock.get(&v.actor) == v.counter {
                        proof {
                            assert(double_spent(self@, other@, key, other_key, v.actor));
                            assert(double_spent(sm, om, key, other_key, v.actor));
                            assert(self.model().1 == sm);
                            assert(other.model().1 == om);
                            assert(!map_merge_ok::<V>(self.model(), other.model()));
                        }
                        return Err(
                            CvRDTValidation::DoubleSpentVersion {
                                version: Version::new(v.actor, v.counter),
                                our_key: key,
                                their_key: other_key,
                            },
                        );
                    }
                    n = n + 1;
                }
                proof {
                    assert forall|a: u64| !#[trigger] double_spent(self@, other@, key, other_key, a) by {
                        crate::vector_clock::lemma_counter_cases(versions@, a);
                        assert(self.entries@[i as int].1.clock.wf());
                        entry.clock.lemma_valid();
                        if self@[key].0.contains_key(a) {
                            assert(crate::vector_clock::counter_in(versions@, a) > 0);
                            let m = choose|m: int| 0 <= m < versions@.len() && versions@[m].actor == a;
                            assert(!double_spent(self@, other@, key, other_key, versions@[m].actor));
                        }
                    }
                }
                proof {
                    assert(other@[other_key].1 == other_entry.value);
                }
                if key == other_key && entry.clock.concurrent(&other_entry.clock) {
                    if let Err(e) = entry.value.validate_merge(&other_entry.value) {
                        proof {
                            assert(!values_merge_ok::<V>(sm, om, key));
                            assert(self.model().1 == sm);
                            assert(other.model().1 == om);
                            assert(!map_merge_ok::<V>(self.model(), other.model()));
                        }
                        return Err(CvRDTValidation::Value(e));
                    }
                }
                proof {
                    if key == other_key {
                        assert(values_merge_ok::<V>(sm, om, key));
                    }
                }
                j = j + 1;
            }
            proof {
                assert(values_merge_ok::<V>(sm, om, key)) by {
                    other.lemma_view(key);
                    if other@.contains_key(key) {
                        let q = choose|q: int| 0 <= q < other.entries.len() && other.entries@[q].0 == key;
                        assert(other.entries@[q].0 == key);
                    }
                }
                assert forall|k2: u64, a: u64| !#[trigger] double_spent(self@, other@, key, k2, a) by {
                    other.lemma_view(k2);
                    if other@.contains_key(k2) {
                        let q = choose|q: int| 0 <= q < other.entries.len() && other.entries@[q].0 == k2;
                        assert(!double_spent(self@, other@, key, other.entries@[q].0, a));
                    }
                }
            }
            i = i + 1;
        }
        proof {
            assert forall|k: u64| #[trigger] values_merge_ok::<V>(sm, om, k) by {
                self.lemma_view(k);
                if self@.contains_key(k) {
                    let p = choose|p: int| 0 <= p < self.entries.len() && self.entries@[p].0 == k;
                    assert(values_merge_ok::<V>(sm, om, self.entries@[p].0));
                }
            }
            assert forall|k1: u64, k2: u64, a: u64| !double_spent(self@, other@, k1, k2, a) by {
                self.lemma_view(k1);
                if self@.contains_key(k1) {
                    let p = choose|p: int| 0 <= p < self.entries.len() && self.entries@[p].0 == k1;
                    assert(!double_spent(self@, other@, self.entries@[p].0, k2, a));
                }
            }
        }
        Ok(())
    }

    /// A copy of this map: the same keys with the same clocks, copied values,
    /// the same parked removes and clock.
    pub fn duplicate(&self) -> (r: CausalMap<V>)
        requires
            self.wf(),
        ensures
            r.wf(),
            r.spec_len() == self.spec_len(),
            map_copied::<V>(self.model(), r.model()),
            self.clocks_within() ==> r.clocks_within(),
    {
        let mut entries: Vec<(u64, Entry<V>)> = Vec::new();
        let mut i: usize = 0;
        while i < self.entries.len()
            invariant
                self.wf(),
                i <= self.entries.len(),
                entries.len() == i,
                forall|j: int| 0 <= j < i ==> (#[trigger] entries@[j]).0 == self.entries@[j].0,
                forall|j: int|
                    0 <= j < i ==> {
                        &&& (#[trigger] entries@[j]).1.clock.wf()
                        &&& entries@[j].1.clock@ == self.entries@[j].1.clock@
                        &&& entries@[j].1.clock@ != Map::<u64, u64>::empty()
                        &&& entries@[j].1.value.valid()
                        &&& V::copied(self.entries@[j].1.value.model(), entries@[j].1.value.model())
                    },
            decreases self.entries.len() - i,
        {
            let e = &self.entries[i];
            entries.push((e.0, Entry { clock: e.1.clock.clone(), value: e.1.value.clone_value() }));
            i = i + 1;
        }
        let mut deferred: Vec<(VectorClock, Vec<u64>)> = Vec::new();
        let mut j: usize = 0;
        while j < self.deferred.len()
            invariant
                self.wf(),
                j <= self.deferred.len(),
                deferred.len() == j,
                forall|q: int| 0 <= q < deferred.len() ==> (#[trigger] deferred@[q]).0.wf(),
                forall|q: int|
                    0 <= q < deferred.len() ==> (#[trigger] deferred@[q]).0@ == self.deferred@[q].0@
                        && deferred@[q].1@ == self.deferred@[q].1@,
            decreases self.deferred.len() - j,
        {
            let d = &self.deferred[j];
            deferred.push((d.0.clone(), copy_keys(&d.1)));
            j = j + 1;
        }
        let clock = self.clock.clone();
        proof {
            assert(keys_sorted(entries@));
            assert(records_of(deferred@) =~= self.parked());
        }
        let r = CausalMap { clock, entries, deferred };
        proof {
            assert(keys_sorted(r.entries@));
            assert(r.parked() =~= self.parked());
            assert forall|k: u64| #![auto] r@.contains_key(k) == self@.contains_key(k) && (self@.contains_key(k)
                ==> r@[k].0 == self@[k].0 && V::copied(self@[k].1.model(), r@[k].1.model())) by {
                lemma_entry_cases(self.entries@, k);
                lemma_entry_cases(r.entries@, k);
                if exists|q: int| 0 <= q < self.entries.len() && self.entries@[q].0 == k {
                    let q = choose|q: int| 0 <= q < self.entries.len() && self.entries@[q].0 == k;
                    assert(r.entries@[q].0 == k);
                } else {
                    assert forall|q: int| 0 <= q < r.entries.len() implies r.entries@[q].0 != k by {
                        assert(r.entries@[q].0 == self.entries@[q].0);
                    }
                }
            }
        }
        r
    }
}

/// A copy of a list of keys.
fn copy_keys(v: &Vec<u64>) -> (r: Vec<u64>)
    ensures
        r@ == v@,
{
    let mut r: Vec<u64> = Vec::new();
    let mut i: usize = 0;
    while i < v.len()
        invariant
            i <= v.len(),
            r@ == v@.take(i as int),
        decreases v.len() - i,
    {
        r.push(v[i]);
        i = i + 1;
        assert(r@ =~= v@.take(i as int));
    }
    assert(v@.take(v.len() as int) =~= v@);
    r
}

/// Two maps hold the same state: the same clock and parked removes, the same
/// keys with the same clocks, and equal values.
pub open spec fn maps_equal<V: Val + PartialEq>(a: &CausalMap<V>, b: &CausalMap<V>) -> bool {
    &&& a.spec_clock() == b.spec_clock()
    &&& a.parked().to_set() == b.parked().to_set()
    &&& forall|k: u64| #[trigger] a@.contains_key(k) == b@.contains_key(k)
    &&& forall|k: u64| #[trigger] a@.contains_key(k) ==> a@[k].0 == b@[k].0 && a@[k].1.eq_spec(&b@[k].1)
}

impl<V: Val + PartialEq> CausalMap<V> {
    /// Whether this map and `other` hold the same state; `==` on maps.
    pub fn same_state(&self, other: &CausalMap<V>) -> (r: bool)
        ensures
            self.wf() && other.wf() && V::obeys_eq_spec() ==> r == maps_equal(self, other),
    {
        if !(self.wf_clock_eq(other)) {
            return false;
        }
        if self.entries.len() != other.entries.len() {
            proof {
                if self.wf() && other.wf() {
                    self.lemma_len_dom();
                    other.lemma_len_dom();
                    if forall|k: u64| #[trigger] self@.contains_key(k) == other@.contains_key(k) {
                        assert(self@.dom() =~= other@.dom());
                    }
                }
            }
            return false;
        }
        let mut i: usize = 0;
        while i < self.entries.len()
            invariant
                i <= self.entries.len(),
                self.entries.len() == other.entries.len(),
                forall|q: int|
                    0 <= q < i ==> (#[trigger] self.entries@[q]).0 == other.entries@[q].0
                        && self.entries@[q].1.clock@ == other.entries@[q].1.clock@
                        && (V::obeys_eq_spec() ==> self.entries@[q].1.value.eq_spec(&other.entries@[q].1.value)),
            decreases self.entries.len() - i,
        {
            let a = &self.entries[i];
            let b = &other.entries[i];
            proof {
                use_type_invariant(&a.1.clock);
                use_type_invariant(&b.1.clock);
            }
            if a.0 != b.0 || !a.1.clock.same(&b.1.clock) || !(a.1.value == b.1.value) {
                proof {
                    if self.wf() && other.wf() && V::obeys_eq_spec() {
                        self.lemma_view(a.0);
                        other.lemma_view(a.0);
                        if a.0 != b.0 {
                            self.lemma_view(b.0);
                            other.lemma_view(b.0);
                            if a.0 < b.0 {
                                assert forall|q: int| 0 <= q < other.entries.len() implies other.entries@[q].0 != a.0 by {
                                    if q < i {
                                        assert(self.entries@[q].0 < a.0);
                                    } else if q > i {
                                        assert(b.0 < other.entries@[q].0);
                                    }
                                }
                            } else {
                                assert forall|q: int| 0 <= q < self.entries.len() implies self.entries@[q].0 != b.0 by {
                                    if q < i {
                                        assert(other.entries@[q].0 < b.0);
                                    } else if q > i {
                                        assert(a.0 < self.entries@[q].0);
                                    }
                                }
                            }
                        }
                    }
                }
                return false;
            }
            i = i + 1;
        }
        let sub1 = parked_subset(&self.deferred, &other.deferred);
        let sub2 = parked_subset(&other.deferred, &self.deferred);
        proof {
            assert(self.parked() =~= records_of(self.deferred@));
            assert(other.parked() =~= records_of(other.deferred@));
        }
        if !sub1 || !sub2 {
            proof {
                if !sub1 {
                    let q = choose|q: int| 0 <= q < self.parked().len() && !other.parked().contains(#[trigger] self.parked()[q]);
                    assert(self.parked().to_set().contains(self.parked()[q]));
                } else {
                    let q = choose|q: int| 0 <= q < other.parked().len() && !self.parked().contains(#[trigger] other.parked()[q]);
                    assert(other.parked().to_set().contains(other.parked()[q]));
                }
            }
            return false;
        }
        proof {
            assert forall|x: (Map<u64, u64>, Set<u64>)| #![auto] self.parked().to_set().contains(x) == other.parked().to_set().contains(x) by {
                if self.parked().contains(x) {
                    let q = choose|q: int| 0 <= q < self.parked().len() && self.parked()[q] == x;
                    assert(other.parked().contains(self.parked()[q]));
                }
                if other.parked().contains(x) {
                    let q = choose|q: int| 0 <= q < other.parked().len() && other.parked()[q] == x;
                    assert(self.parked().contains(other.parked()[q]));
                }
            }
            assert(self.parked().to_set() =~= other.parked().to_set());
        }
        proof {
            if self.wf() && other.wf() && V::obeys_eq_spec() {
                assert forall|k: u64| #[trigger] self@.contains_key(k) == other@.contains_key(k) && (self@.contains_key(k)
                    ==> self@[k].0 == other@[k].0 && self@[k].1.eq_spec(&other@[k].1)) by {
                    self.lemma_view(k);
                    other.lemma_view(k);
                    if exists|q: int| 0 <= q < self.entries.len() && self.entries@[q].0 == k {
                        let q = choose|q: int| 0 <= q < self.entries.len() && self.entries@[q].0 == k;
                        assert(other.entries@[q].0 == k);
                    } else {
                        assert forall|q: int| 0 <= q < other.entries.len() implies other.entries@[q].0 != k by {
                            assert(self.entries@[q].0 == other.entries@[q].0);
                        }
                    }
                }
            }
        }
        true
    }

    fn wf_clock_eq(&self, other: &CausalMap<V>) -> (r: bool)
        ensures
            r == (self.spec_clock() == other.spec_clock()),
    {
        proof {
            use_type_invariant(&self.clock);
            use_type_invariant(&other.clock);
        }
        self.clock.same(&other.clock)
    }
}

/// The parked records of a list of parked removes.
pub open spec fn records_of(d: Seq<(VectorClock, Vec<u64>)>) -> Seq<(Map<u64, u64>, Set<u64>)> {
    d.map_values(|r: (VectorClock, Vec<u64>)| (r.0@, r.1@.to_set()))
}

/// Whether `v` holds `x`.
fn holds_key(v: &Vec<u64>, x: u64) -> (r: bool)
    ensures
        r == v@.contains(x),
{
    let mut i: usize = 0;
    while i < v.len()
        invariant
            i <= v.len(),
            forall|q: int| 0 <= q < i ==> v@[q] != x,
        decreases v.len() - i,
    {
        if v[i] == x {
            return true;
        }
        i = i + 1;
    }
    false
}

/// Whether every key of `a` is a key of `b`.
fn keys_within(a: &Vec<u64>, b: &Vec<u64>) -> (r: bool)
    ensures
        r == a@.to_set().subset_of(b@.to_set()),
{
    let mut i: usize = 0;
    while i < a.len()
        invariant
            i <= a.len(),
            forall|q: int| 0 <= q < i ==> b@.contains(a@[q]),
        decreases a.len() - i,
    {
        if !holds_key(b, a[i]) {
            assert(a@.to_set().contains(a@[i as int]));
            return false;
        }
        i = i + 1;
    }
    assert forall|x: u64| a@.to_set().contains(x) implies b@.to_set().contains(x) by {
        let q = choose|q: int| 0 <= q < a.len() && a@[q] == x;
        assert(b@.contains(a@[q]));
    }
    true
}

/// Whether `rec` is one of the parked removes `list`.
fn record_found(rec: &(VectorClock, Vec<u64>), list: &Vec<(VectorClock, Vec<u64>)>) -> (r: bool)
    ensures
        r == records_of(list@).contains((rec.0@, rec.1@.to_set())),
{
    let ghost target = (rec.0@, rec.1@.to_set());
    let mut j: usize = 0;
    while j < list.len()
        invariant
            j <= list.len(),
            target == (rec.0@, rec.1@.to_set()),
            forall|q: int| 0 <= q < j ==> records_of(list@)[q] != target,
        decreases list.len() - j,
    {
        let c = &list[j].0;
        proof {
            use_type_invariant(c);
            use_type_invariant(&rec.0);
        }
        if c.same(&rec.0) && keys_within(&list[j].1, &rec.1) && keys_within(&rec.1, &list[j].1) {
            proof {
                assert(list[j as int].1@.to_set() =~= rec.1@.to_set());
                assert(records_of(list@)[j as int] == target);
            }
            return true;
        }
        proof {
            if records_of(list@)[j as int] == target {
                assert(list[j as int].1@.to_set() == rec.1@.to_set());
            }
        }
        j = j + 1;
    }
    false
}

/// Whether every parked remove of `a` is also parked in `b`.
fn parked_subset(a: &Vec<(VectorClock, Vec<u64>)>, b: &Vec<(VectorClock, Vec<u64>)>) -> (r: bool)
    ensures
        r == forall|q: int| 0 <= q < records_of(a@).len() ==> records_of(b@).contains(#[trigger] records_of(a@)[q]),
{
    let mut i: usize = 0;
    while i < a.len()
        invariant
            i <= a.len(),
            forall|q: int| 0 <= q < i ==> records_of(b@).contains(#[trigger] records_of(a@)[q]),
        decreases a.len() - i,
    {
        assert(records_of(a@)[i as int] == (a@[i as int].0@, a@[i as int].1@.to_set()));
        if !record_found(&a[i], b) {
            return false;
        }
        i = i + 1;
    }
    true
}

impl<V: Val> Clone for CausalMap<V> {
    fn clone(&self) -> (r: CausalMap<V>)
        ensures
            map_copied::<V>(self.model(), r.model()),
    {
        proof {
            use_type_invariant(self);
        }
        self.duplicate()
    }
}

impl<V: Val + PartialEq> PartialEq for CausalMap<V> {
    fn eq(&self, other: &CausalMap<V>) -> (r: bool) {
        proof {
            use_type_invariant(self);
            use_type_invariant(other);
        }
        self.same_state(other)
    }
}

/// Maps are equal when they hold the same state (`maps_equal`).
impl<V: Val + PartialEq> vstd::std_specs::cmp::PartialEqSpecImpl for CausalMap<V> {
    open spec fn obeys_eq_spec() -> bool {
        V::obeys_eq_spec()
    }

    open spec fn eq_spec(&self, other: &CausalMap<V>) -> bool {
        maps_equal(self, other)
    }
}

impl<V: Val + Eq> Eq for CausalMap<V> {

}

impl<V: Val> Default for CausalMap<V> {
    fn default() -> (r: CausalMap<V>)
        ensures
            r.wf(),
            r@ == Map::<u64, EntryView<V>>::empty(),
    {
        CausalMap::new()
    }
}

impl<V: Val> Replica for CausalMap<V> {
    type Model = MapModel<V::Model>;

    open spec fn valid(&self) -> bool {
        self.wf() && self.clocks_within()
    }

    open spec fn model(&self) -> MapModel<V::Model> {
        (self.spec_clock(), models_of(self@), self.parked())
    }
}

impl<V: Val> CmRDT for CausalMap<V> {
    type Operation = Operation<V>;

    type Validation = CmRDTValidation<V>;

    open spec fn operation_valid(op: &Operation<V>) -> bool {
        op_wf(op)
    }

    open spec fn operation_ok(m: MapModel<V::Model>, op: &Operation<V>) -> bool {
        map_operation_ok::<V>(m, op)
    }

    open spec fn applied(before: MapModel<V::Model>, op: Operation<V>, after: MapModel<V::Model>) -> bool {
        map_applied::<V>(before, op, after)
    }

    fn validate_operation(&self, op: &Operation<V>) -> (r: Result<(), CmRDTValidation<V>>) {
        CausalMap::validate_operation(self, op)
    }

    fn apply(&mut self, op: Operation<V>) {
        CausalMap::apply(self, op)
    }
}

impl<V: Val> CvRDT for CausalMap<V> {
    type Validation = CvRDTValidation<V>;

    open spec fn merge_ok(a: MapModel<V::Model>, b: MapModel<V::Model>) -> bool {
        map_merge_ok::<V>(a, b)
    }

    open spec fn merged(a: MapModel<V::Model>, b: MapModel<V::Model>, c: MapModel<V::Model>) -> bool {
        map_merged::<V>(a, b, c)
    }

    fn validate_merge(&self, other: &CausalMap<V>) -> (r: Result<(), CvRDTValidation<V>>) {
        CausalMap::validate_merge(self, other)
    }

    fn merge(&mut self, other: CausalMap<V>) {
        CausalMap::merge(self, other)
    }
}

impl<V: Val> ResetRemove for CausalMap<V> {
    open spec fn reset(before: MapModel<V::Model>, base: Map<u64, u64>, after: MapModel<V::Model>) -> bool {
        map_reset::<V>(before, base, after)
    }

    fn reset_remove(&mut self, clock: &VectorClock) {
        CausalMap::reset_remove(self, clock)
    }
}

impl<V: Val> Val for CausalMap<V> {
    open spec fn default_model() -> MapModel<V::Model> {
        (Map::empty(), Map::empty(), Seq::empty())
    }

    open spec fn copied(a: MapModel<V::Model>, b: MapModel<V::Model>) -> bool {
        map_copied::<V>(a, b)
    }

    open spec fn apply_fn(m: MapModel<V::Model>, op: Operation<V>) -> MapModel<V::Model> {
        map_apply_fn::<V>(m, op)
    }

    open spec fn merge_fn(a: MapModel<V::Model>, b: MapModel<V::Model>) -> MapModel<V::Model> {
        map_merge_fn::<V>(a, b)
    }

    open spec fn reset_fn(m: MapModel<V::Model>, base: Map<u64, u64>) -> MapModel<V::Model> {
        map_reset_fn::<V>(m, base)
    }

    proof fn lemma_apply_fn(m: MapModel<V::Model>, op: Operation<V>, n: MapModel<V::Model>) {
    }

    proof fn lemma_merge_fn(a: MapModel<V::Model>, b: MapModel<V::Model>, c: MapModel<V::Model>) {
    }

    proof fn lemma_reset_fn(m: MapModel<V::Model>, base: Map<u64, u64>, n: MapModel<V::Model>) {
    }

    fn default_value() -> (r: CausalMap<V>) {
        let r = CausalMap::new();
        assert(models_of(r@) =~= Map::empty());
        r
    }

    fn clone_value(&self) -> (r: CausalMap<V>) {
        self.duplicate()
    }
}

impl<V: Clone> Val for MultiValue<V> {
    open spec fn default_model() -> Seq<(Map<u64, u64>, V)> {
        Seq::empty()
    }

    open spec fn copied(a: Seq<(Map<u64, u64>, V)>, b: Seq<(Map<u64, u64>, V)>) -> bool {
        a.len() == b.len() && forall|i: int| 0 <= i < a.len() ==> (#[trigger] b[i]).0 == a[i].0 && cloned(a[i].1, b[i].1)
    }

    open spec fn apply_fn(m: Seq<(Map<u64, u64>, V)>, op: crate::multi_value::Operation<V>) -> Seq<(Map<u64, u64>, V)> {
        match op {
            crate::multi_value::Operation::Put { clock, value } => crate::multi_value::mv_put(m, clock@, value),
        }
    }

    open spec fn merge_fn(a: Seq<(Map<u64, u64>, V)>, b: Seq<(Map<u64, u64>, V)>) -> Seq<(Map<u64, u64>, V)> {
        crate::multi_value::mv_merge(a, b)
    }

    open spec fn reset_fn(m: Seq<(Map<u64, u64>, V)>, base: Map<u64, u64>) -> Seq<(Map<u64, u64>, V)> {
        crate::multi_value::mv_reset(m, base)
    }

    proof fn lemma_apply_fn(m: Seq<(Map<u64, u64>, V)>, op: crate::multi_value::Operation<V>, n: Seq<(Map<u64, u64>, V)>) {
    }

    proof fn lemma_merge_fn(a: Seq<(Map<u64, u64>, V)>, b: Seq<(Map<u64, u64>, V)>, c: Seq<(Map<u64, u64>, V)>) {
    }

    proof fn lemma_reset_fn(m: Seq<(Map<u64, u64>, V)>, base: Map<u64, u64>, n: Seq<(Map<u64, u64>, V)>) {
    }

    fn default_value() -> (r: MultiValue<V>) {
        MultiValue::new()
    }

    fn clone_value(&self) -> (r: MultiValue<V>) {
        self.duplicate()
    }
}

} // verus!

verus! {

/// State merge treats the two sides alike: the clock a key ends with does not
/// depend on which replica merges which.
pub proof fn law_merge_commutative(
    mine: Option<Map<u64, u64>>,
    theirs: Option<Map<u64, u64>>,
    mc: Map<u64, u64>,
    oc: Map<u64, u64>,
)
    ensures
        merged_clock(mine, theirs, mc, oc) == merged_clock(theirs, mine, oc, mc),
{
    if let (Some(a), Some(b)) = (mine, theirs) {
        let c1 = clock_join(clock_join(clock_common(b, a), clock_reset(b, mc)), clock_reset(a, oc));
        let c2 = clock_join(clock_join(clock_common(a, b), clock_reset(a, oc)), clock_reset(b, mc));
        assert(c1 =~= c2);
    }
}

/// Merging a replica with a copy of itself keeps every key's clock.
pub proof fn law_merge_idempotent(clock: Map<u64, u64>, mc: Map<u64, u64>)
    requires
        clock != Map::<u64, u64>::empty(),
    ensures
        merged_clock(Some(clock), Some(clock), mc, mc) == Some(clock),
{
    let c = clock_join(clock_join(clock_common(clock, clock), clock_reset(clock, mc)), clock_reset(clock, mc));
    assert(c =~= clock);
}

/// Add wins: a key whose clock on the other side holds an event this replica
/// has not seen survives the merge, whatever this replica holds for it.
pub proof fn law_add_wins(
    mine: Option<Map<u64, u64>>,
    theirs: Map<u64, u64>,
    mc: Map<u64, u64>,
    oc: Map<u64, u64>,
    actor: u64,
)
    requires
        crate::vector_clock::clock_get(theirs, actor) > crate::vector_clock::clock_get(mc, actor),
    ensures
        merged_clock(mine, Some(theirs), mc, oc) is Some,
{
    assert(clock_reset(theirs, mc).contains_key(actor));
    if let Some(a) = mine {
        let c = clock_join(clock_join(clock_common(theirs, a), clock_reset(theirs, mc)), clock_reset(a, oc));
        assert(c.contains_key(actor));
    } else {
        assert(!dominates(mc, theirs));
    }
}

/// A remove keeps a key whose clock holds an event the remove has not seen.
pub proof fn law_remove_keeps_unseen_updates(clock: Map<u64, u64>, rm: Map<u64, u64>, actor: u64)
    requires
        crate::vector_clock::clock_get(clock, actor) > crate::vector_clock::clock_get(rm, actor),
    ensures
        clock_reset(clock, rm) != Map::<u64, u64>::empty(),
{
    assert(clock_reset(clock, rm).contains_key(actor));
}

} // verus!
