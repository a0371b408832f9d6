//! The causal list: an ordered sequence whose positions are dense identifiers.
use vstd::prelude::*;
use crate::identifier::{id_order, Identifier, NodeView};
use crate::traits::{CmRDT, Replica};
use crate::vector_clock::{clock_apply, VectorClock};
use crate::version::{OrderedVersion, Version, VersionRange};

verus! {

/// An entry of the list as a value: its identifier and element.
pub type EntryView<T> = (Seq<NodeView>, T);

/// Identifiers strictly increase along the sequence.
pub open spec fn sorted_entries<T>(s: Seq<EntryView<T>>) -> bool {
    forall|i: int, j: int|
        0 <= i < j < s.len() ==> id_order(s[i].0, s[j].0) == core::cmp::Ordering::Less
}

/// Position `p` is where identifier `id` belongs in `s`.
pub open spec fn slot<T>(s: Seq<EntryView<T>>, id: Seq<NodeView>, p: int) -> bool {
    &&& 0 <= p <= s.len()
    &&& forall|i: int| 0 <= i < p ==> id_order(s[i].0, id) == core::cmp::Ordering::Less
    &&& forall|i: int| p <= i < s.len() ==> id_order(id, s[i].0) == core::cmp::Ordering::Less
}

/// Entry `p` of `s` has identifier `id`.
pub open spec fn found_at<T>(s: Seq<EntryView<T>>, id: Seq<NodeView>, p: int) -> bool {
    0 <= p < s.len() && id_order(s[p].0, id) == core::cmp::Ordering::Equal
}

pub open spec fn entry_view<T>(e: (Identifier, T)) -> EntryView<T> {
    (e.0@, e.1)
}

/// `after` is what applying `op` leaves of `before` (entries and clock): an
/// operation whose version was seen changes nothing; otherwise the clock
/// observes the version, an insert fills its slot unless its identifier is
/// taken, and a delete removes the entry at its identifier.
pub open spec fn list_applied<T>(
    before: (Seq<EntryView<T>>, Map<u64, u64>),
    op: Operation<T>,
    after: (Seq<EntryView<T>>, Map<u64, u64>),
) -> bool {
    let v = op.spec_version();
    if v.counter <= crate::vector_clock::clock_get(before.1, v.actor) {
        after == before
    } else {
        &&& after.1 == clock_apply(before.1, v)
        &&& match op {
            Operation::Insert { id, value } => {
                &&& (exists|p: int| found_at(before.0, id@, p)) ==> after.0 == before.0
                &&& forall|p: int|
                    slot(before.0, id@, p) ==> after.0 == before.0.insert(p, (id@, value))
            },
            Operation::Delete { id, .. } => {
                &&& (forall|p: int| !found_at(before.0, id@, p)) ==> after.0 == before.0
                &&& forall|p: int| found_at(before.0, id@, p) ==> after.0 == before.0.remove(p)
            },
        }
    }
}

/// An ordered sequence of elements, each at a unique identifier, with the
/// clock of every operation it has seen.
#[derive(Debug)]
pub struct List<T> {
    sequence: Vec<(Identifier, T)>,
    clock: VectorClock,
}

/// An operation on a list.
#[derive(Debug, Clone)]
pub enum Operation<T> {
    /// Inserts `value` at `id`; the tiebreaker of `id` is the operation's version.
    Insert { id: Identifier, value: T },
    /// Deletes the element at `id`.
    Delete { id: Identifier, version: Version },
}

impl<T> Operation<T> {
    pub open spec fn spec_id(&self) -> Seq<NodeView> {
        match self {
            Operation::Insert { id, .. } => id@,
            Operation::Delete { id, .. } => id@,
        }
    }

    pub open spec fn spec_version(&self) -> Version {
        match self {
            Operation::Insert { id, .. } => Version {
                actor: id@.last().1.actor,
                counter: id@.last().1.counter,
            },
            Operation::Delete { version, .. } => *version,
        }
    }

    pub open spec fn wf(&self) -> bool {
        match self {
            Operation::Insert { id, .. } => id.wf(),
            Operation::Delete { id, .. } => id.wf(),
        }
    }

    /// The identifier the operation targets.
    pub fn id(&self) -> (r: &Identifier)
        ensures
            r@ == self.spec_id(),
    {
        match self {
            Operation::Insert { id, .. } => id,
            Operation::Delete { id, .. } => id,
        }
    }

    /// The version of the operation.
    pub fn version(&self) -> (r: Version)
        requires
            self.wf(),
        ensures
            r == self.spec_version(),
    {
        match self {
            Operation::Insert { id, .. } => {
                let t = id.value();
                Version::new(t.actor, t.counter)
            },
            Operation::Delete { version, .. } => *version,
        }
    }
}

impl<T> View for List<T> {
    type V = Seq<EntryView<T>>;

    closed spec fn view(&self) -> Seq<EntryView<T>> {
        self.sequence@.map_values(|e: (Identifier, T)| entry_view(e))
    }
}

impl<T> List<T> {
    pub closed spec fn wf(&self) -> bool {
        &&& self.clock.wf()
        &&& forall|i: int| 0 <= i < self.sequence.len() ==> (#[trigger] self.sequence@[i]).0.wf()
        &&& sorted_entries(self@)
    }

    /// The clock of the operations this list has seen.
    pub closed spec fn spec_clock(&self) -> Map<u64, u64> {
        self.clock@
    }

    /// The counter of `actor` in the list's clock.
    pub open spec fn seen(&self, actor: u64) -> u64 {
        crate::vector_clock::clock_get(self.spec_clock(), actor)
    }

    /// The elements in order.
    pub open spec fn elements(&self) -> Seq<T> {
        self@.map_values(|e: EntryView<T>| e.1)
    }

    pub fn new() -> (r: List<T>)
        ensures
            r.wf(),
            r@ == Seq::<EntryView<T>>::empty(),
            r.spec_clock() == Map::<u64, u64>::empty(),
    {
        let r = List { sequence: Vec::new(), clock: VectorClock::new() };
        assert(r@ =~= Seq::<EntryView<T>>::empty());
        r
    }

    /// The counter of `actor` in the list's clock.
    pub fn counter(&self, actor: u64) -> (r: u64)
        requires
            self.wf(),
        ensures
            r == self.seen(actor),
    {
        self.clock.get(&actor)
    }

    pub fn len(&self) -> (r: usize)
        ensures
            r == self@.len(),
    {
        self.sequence.len()
    }

    pub fn is_empty(&self) -> (r: bool)
        ensures
            r <==> self@.len() == 0,
    {
        self.sequence.len() == 0
    }

    /// The first position whose identifier is not below `id`, and whether
    /// the identifier there is `id`.
    fn locate(&self, id: &Identifier) -> (r: (usize, bool))
        requires
            self.wf(),
            id.wf(),
        ensures
            r.1 ==> found_at(self@, id@, r.0 as int),
            !r.1 ==> slot(self@, id@, r.0 as int),
    {
        let ghost s = self@;
        let mut p: usize = 0;
        while p < self.sequence.len()
            invariant
                self.wf(),
                id.wf(),
                s == self@,
                p <= s.len(),
                forall|i: int| 0 <= i < p ==> id_order(s[i].0, id@) == core::cmp::Ordering::Less,
            decreases s.len() - p,
        {
            assert(s[p as int] == entry_view(self.sequence@[p as int]));
            match self.sequence[p].0.compare(id) {
                core::cmp::Ordering::Less => {},
                core::cmp::Ordering::Equal => {
                    return (p, true);
                },
                core::cmp::Ordering::Greater => {
                    proof {
                        crate::identifier::lemma_order_flip(s[p as int].0, id@);
                        self.sequence@[p as int].0.lemma_nodes_wf();
                        id.lemma_nodes_wf();
                        assert forall|i: int| p <= i < s.len() implies id_order(id@, s[i].0)
                            == core::cmp::Ordering::Less by {
                            if i > p {
                                assert(s[i] == entry_view(self.sequence@[i]));
                                self.sequence@[i].0.lemma_nodes_wf();
                                crate::identifier::lemma_id_trans(id@, s[p as int].0, s[i].0);
                            }
                        }
                    }
                    return (p, false);
                },
            }
            p = p + 1;
        }
        (p, false)
    }

    /// Adds `value` at `id` unless an element already stands there.
    fn insert(&mut self, id: Identifier, value: T)
        requires
            old(self).wf(),
            id.wf(),
        ensures
            final(self).wf(),
            final(self).clock == old(self).clock,
            (exists|p: int| found_at(old(self)@, id@, p)) ==> final(self)@ == old(self)@,
            forall|p: int|
                slot(old(self)@, id@, p) ==> final(self)@ == old(self)@.insert(p, (id@, value)),
    {
        let (p, found) = self.locate(&id);
        if !found {
            let ghost s = self@;
            proof {
                assert forall|q: int| #![auto] slot(s, id@, q) implies q == p by {
                    if q < p {
                        assert(id_order(s[q].0, id@) == core::cmp::Ordering::Less);
                        crate::identifier::lemma_order_flip(s[q].0, id@);
                    } else if q > p {
                        assert(id_order(s[p as int].0, id@) == core::cmp::Ordering::Less);
                        crate::identifier::lemma_order_flip(s[p as int].0, id@);
                    }
                }
            }
            proof {
                assert forall|q: int| !found_at(s, id@, q) by {
                    if 0 <= q < s.len() && q >= p {
                        crate::identifier::lemma_order_flip(id@, s[q].0);
                    }
                }
            }
            let ghost e = (id@, value);
            self.sequence.insert(p, (id, value));
            proof {
                assert(self@ =~= s.insert(p as int, e));
                let t = self@;
                assert forall|i: int, j: int| 0 <= i < j < t.len() implies id_order(t[i].0, t[j].0)
                    == core::cmp::Ordering::Less by {
                    if j < p {
                    } else if j == p {
                    } else if i < p {
                        assert(t[j] == s[j - 1]);
                        assert(id_order(id@, s[j - 1].0) == core::cmp::Ordering::Less);
                        assert(id_order(s[i].0, id@) == core::cmp::Ordering::Less);
                        assert(t[i] == s[i]);
                        assert(s[i] == entry_view(old(self).sequence@[i]));
                        assert(s[j - 1] == entry_view(old(self).sequence@[j - 1]));
                        old(self).sequence@[i].0.lemma_nodes_wf();
                        old(self).sequence@[j - 1].0.lemma_nodes_wf();
                        id.lemma_nodes_wf();
                        crate::identifier::lemma_id_trans(s[i].0, id@, s[j - 1].0);
                    } else if i == p {
                    } else {
                    }
                }
                assert forall|i: int| 0 <= i < self.sequence.len() implies (
                #[trigger] self.sequence@[i]).0.wf() by {
                    if i > p {
                        assert(self.sequence@[i] == old(self).sequence@[i - 1]);
                    }
                }
            }
        } else {
            proof {
                assert forall|q: int| !slot(self@, id@, q) by {
                    if slot(self@, id@, q) {
                        crate::identifier::lemma_order_flip(self@[p as int].0, id@);
                    }
                }
            }
        }
    }

    /// Removes the element at `id`, if any.
    fn delete(&mut self, id: &Identifier)
        requires
            old(self).wf(),
            id.wf(),
        ensures
            final(self).wf(),
            final(self).clock == old(self).clock,
            (forall|p: int| !found_at(old(self)@, id@, p)) ==> final(self)@ == old(self)@,
            forall|p: int| found_at(old(self)@, id@, p) ==> final(self)@ == old(self)@.remove(p),
    {
        let (p, found) = self.locate(id);
        let ghost s = self@;
        proof {
            if found {
                assert forall|q: int| found_at(s, id@, q) implies q == p by {
                    if q != p {
                        crate::identifier::lemma_order_flip(s[q].0, id@);
                        crate::identifier::lemma_order_flip(s[p as int].0, id@);
                        assert(s[q] == entry_view(self.sequence@[q]));
                        assert(s[p as int] == entry_view(self.sequence@[p as int]));
                        self.sequence@[q].0.lemma_nodes_wf();
                        self.sequence@[p as int].0.lemma_nodes_wf();
                        id.lemma_nodes_wf();
                        if q < p {
                            crate::identifier::lemma_id_trans(s[q].0, s[p as int].0, id@);
                        } else if q > p {
                            crate::identifier::lemma_id_trans(s[p as int].0, s[q].0, id@);
                        }
                    }
                }
            } else {
                assert forall|q: int| !found_at(s, id@, q) by {
                    if 0 <= q < s.len() && q >= p {
                        crate::identifier::lemma_order_flip(id@, s[q].0);
                    }
                }
            }
        }
        if found {
            self.sequence.remove(p);
            proof {
                assert(self@ =~= s.remove(p as int));
                assert forall|i: int| 0 <= i < self.sequence.len() implies (
                #[trigger] self.sequence@[i]).0.wf() by {
                    if i >= p {
                        assert(self.sequence@[i] == old(self).sequence@[i + 1]);
                    }
                }
                let t = self@;
                assert forall|i: int, j: int| 0 <= i < j < t.len() implies id_order(t[i].0, t[j].0)
                    == core::cmp::Ordering::Less by {
                    let i2 = if i < p { i } else { i + 1 };
                    let j2 = if j < p { j } else { j + 1 };
                    assert(t[i] == s[i2]);
                    assert(t[j] == s[j2]);
                }
            }
        }
    }

    /// Applies `op` unless its version has been seen: the clock observes the
    /// version, an insert adds its element unless its identifier is taken, and
    /// a delete removes the element at its identifier.
    pub fn apply(&mut self, op: Operation<T>)
        requires
            old(self).wf(),
            op.wf(),
        ensures
            final(self).wf(),
            list_applied(old(self).model(), op, final(self).model()),
    {
        let v = op.version();
        if v.counter <= self.clock.get(&v.actor) {
            return ;
        }
        self.clock.apply(v);
        proof {
            assert(self.wf());
        }
        match op {
            Operation::Insert { id, value } => self.insert(id, value),
            Operation::Delete { id, .. } => self.delete(&id),
        }
    }

    /// Whether `op` is the next operation of its actor.
    pub fn validate_operation(&self, op: &Operation<T>) -> (r: Result<(), VersionRange>)
        requires
            self.wf(),
            op.wf(),
        ensures
            r is Err <==> op.spec_version().counter > self.seen(op.spec_version().actor) + 1,
    {
        self.clock.validate_operation(&op.version())
    }

    /// The operation that inserts `element` at position `index` (the end when
    /// `index` is past it), as a fresh event of `actor`.
    pub fn insert_index(&self, index: usize, element: T, actor: u64) -> (r: Operation<T>)
        requires
            self.wf(),
            self.seen(actor) < u64::MAX,
        ensures
            r.wf(),
            r matches Operation::Insert { id, value } && value == element && id@.last().1 == (
            OrderedVersion { actor, counter: (self.seen(actor) + 1) as u64 }) && slot(
                self@,
                id@,
                if index < self@.len() {
                    index as int
                } else {
                    self@.len() as int
                },
            ),
            self@.len() == 0 ==> (r matches Operation::Insert { id, .. } && id@ == seq![
                ((0int, 1int), OrderedVersion { actor, counter: (self.seen(actor) + 1) as u64 }),
            ]),
    {
        let len = self.sequence.len();
        let i = if index < len {
            index
        } else {
            len
        };
        let prev = if i > 0 {
            Some(&self.sequence[i - 1].0)
        } else {
            None
        };
        let next = if i < len {
            Some(&self.sequence[i].0)
        } else {
            None
        };
        let v = self.clock.increment(actor);
        proof {
            if i > 0 {
                assert(self@[i - 1] == entry_view(self.sequence@[i - 1]));
            }
            if i > 0 && i < len {
                assert(self@[i as int] == entry_view(self.sequence@[i as int]));
                assert(id_order(self@[i - 1].0, self@[i as int].0) == core::cmp::Ordering::Less);
            }
        }
        let id = Identifier::between(prev, next, OrderedVersion::new(v.actor, v.counter));
        proof {
            let s = self@;
            id.lemma_nodes_wf();
            assert forall|j: int| 0 <= j < i implies id_order(s[j].0, id@)
                == core::cmp::Ordering::Less by {
                if j < i - 1 {
                    assert(s[j] == entry_view(self.sequence@[j]));
                    self.sequence@[j].0.lemma_nodes_wf();
                    self.sequence@[i - 1].0.lemma_nodes_wf();
                    crate::identifier::lemma_id_trans(s[j].0, s[i - 1].0, id@);
                }
            }
            assert forall|j: int| i <= j < s.len() implies id_order(id@, s[j].0)
                == core::cmp::Ordering::Less by {
                if j > i {
                    assert(s[j] == entry_view(self.sequence@[j]));
                    assert(s[i as int] == entry_view(self.sequence@[i as int]));
                    self.sequence@[j].0.lemma_nodes_wf();
                    self.sequence@[i as int].0.lemma_nodes_wf();
                    crate::identifier::lemma_id_trans(id@, s[i as int].0, s[j].0);
                }
            }
        }
        Operation::Insert { id, value: element }
    }

    /// The operation that appends `element`, as a fresh event of `actor`.
    pub fn append(&self, element: T, actor: u64) -> (r: Operation<T>)
        requires
            self.wf(),
            self.seen(actor) < u64::MAX,
        ensures
            r.wf(),
            r matches Operation::Insert { id, value } && value == element && id@.last().1 == (
            OrderedVersion { actor, counter: (self.seen(actor) + 1) as u64 }) && slot(
                self@,
                id@,
                self@.len() as int,
            ),
            self@.len() == 0 ==> (r matches Operation::Insert { id, .. } && id@ == seq![
                ((0int, 1int), OrderedVersion { actor, counter: (self.seen(actor) + 1) as u64 }),
            ]),
    {
        let index = self.sequence.len();
        self.insert_index(index, element, actor)
    }

    /// The operation that deletes the element at position `index`, as a fresh
    /// event of `actor`; `None` past the end.
    pub fn delete_index(&self, index: usize, actor: u64) -> (r: Option<Operation<T>>)
        requires
            self.wf(),
            self.seen(actor) < u64::MAX,
        ensures
            index >= self@.len() ==> r is None,
            index < self@.len() ==> (r matches Some(Operation::Delete { id, version }) && id.wf()
                && id@ == self@[index as int].0 && version == (Version {
                actor,
                counter: (self.seen(actor) + 1) as u64,
            })),
    {
        if index < self.sequence.len() {
            proof {
                assert(self@[index as int] == entry_view(self.sequence@[index as int]));
            }
            let id = self.sequence[index].0.duplicate();
            let version = self.clock.increment(actor);
            Some(Operation::Delete { id, version })
        } else {
            None
        }
    }

    /// The position of the element at `id`, if there is one.
    pub fn pos_entry(&self, id: &Identifier) -> (r: Option<usize>)
        requires
            self.wf(),
            id.wf(),
        ensures
            r matches Some(p) ==> found_at(self@, id@, p as int),
            r is None ==> forall|p: int| !found_at(self@, id@, p),
    {
        let (p, found) = self.locate(id);
        if found {
            Some(p)
        } else {
            proof {
                assert forall|q: int| !found_at(self@, id@, q) by {
                    if 0 <= q < self@.len() && q >= p {
                        crate::identifier::lemma_order_flip(id@, self@[q].0);
                    }
                }
            }
            None
        }
    }

    /// The element at position `index`.
    pub fn pos(&self, index: usize) -> (r: Option<&T>)
        ensures
            index < self@.len() ==> r == Some(&self@[index as int].1),
            index >= self@.len() ==> r is None,
    {
        if index < self.sequence.len() {
            Some(&self.sequence[index].1)
        } else {
            None
        }
    }

    /// The element at `id`.
    pub fn get(&self, id: &Identifier) -> (r: Option<&T>)
        requires
            self.wf(),
            id.wf(),
        ensures
            r matches Some(x) ==> exists|p: int| found_at(self@, id@, p) && *x == self@[p].1,
            r is None ==> forall|p: int| !found_at(self@, id@, p),
    {
        match self.pos_entry(id) {
            Some(p) => Some(&self.sequence[p].1),
            None => None,
        }
    }

    /// References to the elements, in order.
    pub fn iter(&self) -> (r: Vec<&T>)
        ensures
            r.len() == self@.len(),
            forall|i: int| 0 <= i < r.len() ==> *r[i] == self@[i].1,
    {
        let mut out: Vec<&T> = Vec::new();
        let mut i: usize = 0;
        while i < self.sequence.len()
            invariant
                i <= self.sequence.len(),
                out.len() == i,
                forall|k: int| 0 <= k < i ==> *out[k] == self@[k].1,
            decreases self.sequence.len() - i,
        {
            assert(self@[i as int] == entry_view(self.sequence@[i as int]));
            out.push(&self.sequence[i].1);
            i = i + 1;
        }
        out
    }

    /// References to the identifiers and elements, in order.
    pub fn iter_entries(&self) -> (r: Vec<(&Identifier, &T)>)
        ensures
            r.len() == self@.len(),
            forall|i: int| 0 <= i < r.len() ==> r[i].0@ == self@[i].0 && *r[i].1 == self@[i].1,
    {
        let mut out: Vec<(&Identifier, &T)> = Vec::new();
        let mut i: usize = 0;
        while i < self.sequence.len()
            invariant
                i <= self.sequence.len(),
                out.len() == i,
                forall|k: int| 0 <= k < i ==> out[k].0@ == self@[k].0 && *out[k].1 == self@[k].1,
            decreases self.sequence.len() - i,
        {
            assert(self@[i as int] == entry_view(self.sequence@[i as int]));
            out.push((&self.sequence[i].0, &self.sequence[i].1));
            i = i + 1;
        }
        out
    }

    /// The first identifier and element.
    pub fn first_entry(&self) -> (r: Option<(&Identifier, &T)>)
        ensures
            self@.len() == 0 ==> r is None,
            self@.len() > 0 ==> (r matches Some(e) && e.0@ == self@[0].0 && *e.1 == self@[0].1),
    {
        if self.sequence.len() == 0 {
            None
        } else {
            assert(self@[0] == entry_view(self.sequence@[0]));
            Some((&self.sequence[0].0, &self.sequence[0].1))
        }
    }

    /// The last identifier and element.
    pub fn last_entry(&self) -> (r: Option<(&Identifier, &T)>)
        ensures
            self@.len() == 0 ==> r is None,
            self@.len() > 0 ==> (r matches Some(e) && e.0@ == self@.last().0 && *e.1 == self@.last().1),
    {
        let n = self.sequence.len();
        if n == 0 {
            None
        } else {
            assert(self@[n - 1] == entry_view(self.sequence@[n - 1]));
            Some((&self.sequence[n - 1].0, &self.sequence[n - 1].1))
        }
    }

    /// The first element.
    pub fn first(&self) -> (r: Option<&T>)
        ensures
            self@.len() > 0 ==> r == Some(&self@[0].1),
            self@.len() == 0 ==> r is None,
    {
        self.pos(0)
    }

    /// The last element.
    pub fn last(&self) -> (r: Option<&T>)
        ensures
            self@.len() > 0 ==> r == Some(&self@.last().1),
            self@.len() == 0 ==> r is None,
    {
        if self.sequence.len() == 0 {
            None
        } else {
            self.pos(self.sequence.len() - 1)
        }
    }

    /// Copies of the elements, in order.
    pub fn read(&self) -> (r: Vec<T>)
        where
            T: Clone,
        ensures
            r.len() == self@.len(),
            forall|i: int| 0 <= i < r.len() ==> cloned(self@[i].1, #[trigger] r[i]),
    {
        let mut out: Vec<T> = Vec::new();
        let mut i: usize = 0;
        while i < self.sequence.len()
            invariant
                i <= self.sequence.len(),
                out.len() == i,
                forall|k: int| 0 <= k < i ==> cloned(self@[k].1, #[trigger] out[k]),
            decreases self.sequence.len() - i,
        {
            assert(self@[i as int] == entry_view(self.sequence@[i as int]));
            out.push(self.sequence[i].1.clone());
            i = i + 1;
        }
        out
    }

    /// The elements, in order, consuming the list.
    pub fn read_into(self) -> (r: Vec<T>)
        ensures
            r@ == self.elements(),
    {
        let ghost es = self.elements();
        let mut rest = self.sequence;
        let ghost s = rest@;
        let mut out: Vec<T> = Vec::new();
        while rest.len() > 0
            invariant
                out.len() + rest.len() == s.len(),
                rest@ == s.skip(out.len() as int),
                es == s.map_values(|e: (Identifier, T)| entry_view(e)).map_values(
                    |e: EntryView<T>| e.1,
                ),
                forall|k: int| 0 <= k < out.len() ==> out@[k] == es[k],
            decreases rest.len(),
        {
            let ghost n = out.len() as int;
            let e = rest.remove(0);
            proof {
                assert(s.skip(n)[0] == s[n]);
                assert(rest@ =~= s.skip(n + 1));
            }
            out.push(e.1);
        }
        assert(out@ =~= es);
        out
    }
}

impl<T> Default for List<T> {
    fn default() -> (r: List<T>)
        ensures
            r.wf(),
            r@ == Seq::<EntryView<T>>::empty(),
    {
        List::new()
    }
}

impl<T> Replica for List<T> {
    type Model = (Seq<EntryView<T>>, Map<u64, u64>);

    open spec fn valid(&self) -> bool {
        self.wf()
    }

    open spec fn model(&self) -> (Seq<EntryView<T>>, Map<u64, u64>) {
        (self@, self.spec_clock())
    }
}

impl<T> CmRDT for List<T> {
    type Operation = Operation<T>;

    type Validation = VersionRange;

    open spec fn operation_valid(op: &Operation<T>) -> bool {
        op.wf()
    }

    open spec fn operation_ok(m: (Seq<EntryView<T>>, Map<u64, u64>), op: &Operation<T>) -> bool {
        op.spec_version().counter <= crate::vector_clock::clock_get(m.1, op.spec_version().actor)
            + 1
    }

    open spec fn applied(
        before: (Seq<EntryView<T>>, Map<u64, u64>),
        op: Operation<T>,
        after: (Seq<EntryView<T>>, Map<u64, u64>),
    ) -> bool {
        list_applied(before, op, after)
    }

    fn validate_operation(&self, op: &Operation<T>) -> (r: Result<(), VersionRange>) {
        List::validate_operation(self, op)
    }

    fn apply(&mut self, op: Operation<T>) {
        List::apply(self, op)
    }
}

} // verus!

verus! {

proof fn lemma_sorted_unique<T>(s1: Seq<EntryView<T>>, s2: Seq<EntryView<T>>)
    requires
        sorted_entries(s1),
        sorted_entries(s2),
        forall|x: EntryView<T>| s1.contains(x) <==> s2.contains(x),
    ensures
        s1 == s2,
    decreases s1.len(),
{
    if s1.len() == 0 || s2.len() == 0 {
        if s1.len() > 0 {
            assert(s1.contains(s1[0]));
        }
        if s2.len() > 0 {
            assert(s2.contains(s2[0]));
        }
        assert(s1 =~= s2);
    } else {
        let x = s1[0];
        let y = s2[0];
        assert(s1.contains(x));
        assert(s2.contains(y));
        let j = choose|j: int| 0 <= j < s2.len() && s2[j] == x;
        let i = choose|i: int| 0 <= i < s1.len() && s1[i] == y;
        if i > 0 && j > 0 {
            crate::identifier::lemma_order_flip(x.0, y.0);
            assert(false);
        }
        assert(x == y);
        let t1 = s1.drop_first();
        let t2 = s2.drop_first();
        crate::identifier::lemma_id_refl(x.0);
        assert forall|z: EntryView<T>| t1.contains(z) <==> t2.contains(z) by {
            if t1.contains(z) {
                let k = choose|k: int| 0 <= k < t1.len() && t1[k] == z;
                assert(s1[k + 1] == z);
                assert(s2.contains(z));
                let m = choose|m: int| 0 <= m < s2.len() && s2[m] == z;
                if m == 0 {
                    assert(id_order(s1[0].0, s1[k + 1].0) == core::cmp::Ordering::Less);
                }
                assert(t2[m - 1] == z);
            }
            if t2.contains(z) {
                let k = choose|k: int| 0 <= k < t2.len() && t2[k] == z;
                assert(s2[k + 1] == z);
                assert(s1.contains(z));
                let m = choose|m: int| 0 <= m < s1.len() && s1[m] == z;
                if m == 0 {
                    assert(id_order(s2[0].0, s2[k + 1].0) == core::cmp::Ordering::Less);
                }
                assert(t1[m - 1] == z);
            }
        }
        lemma_sorted_unique(t1, t2);
        assert(s1 =~= seq![x] + t1);
        assert(s2 =~= seq![y] + t2);
    }
}

/// Convergence: a list's sequence is fixed by the entries it holds, so two
/// replicas that hold the same entries show the same elements in the same
/// order, whatever order their operations arrived in.
pub proof fn law_list_convergence<T>(a: List<T>, b: List<T>)
    requires
        a.wf(),
        b.wf(),
        a@.to_set() == b@.to_set(),
    ensures
        a@ == b@,
        a.elements() == b.elements(),
{
    assert forall|x: EntryView<T>| a@.contains(x) <==> b@.contains(x) by {
        assert(a@.to_set().contains(x) == b@.to_set().contains(x));
        assert(a@.to_set().contains(x) == a@.contains(x));
        assert(b@.to_set().contains(x) == b@.contains(x));
    }
    lemma_sorted_unique(a@, b@);
}

} // verus!
