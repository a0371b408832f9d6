//! Identifiers: dense positions in a totally ordered space.
use vstd::prelude::*;
use crate::rational::{frac_order, rat_cmp, rational_between, Rational};
use crate::version::{ordered_less, ordered_lt, OrderedVersion};

verus! {

/// A node of an identifier as a value: a fraction and a tiebreaker.
pub type NodeView = ((int, int), OrderedVersion);

/// The order of tiebreakers.
pub open spec fn tie_order(a: OrderedVersion, b: OrderedVersion) -> core::cmp::Ordering {
    if ordered_lt(a, b) {
        core::cmp::Ordering::Less
    } else if a == b {
        core::cmp::Ordering::Equal
    } else {
        core::cmp::Ordering::Greater
    }
}

/// Nodes compare by their fraction, then by their tiebreaker.
pub open spec fn node_order(x: NodeView, y: NodeView) -> core::cmp::Ordering {
    if frac_order(x.0, y.0) == core::cmp::Ordering::Equal {
        tie_order(x.1, y.1)
    } else {
        frac_order(x.0, y.0)
    }
}

/// Identifiers compare node by node; when one is a prefix of the other, the
/// shorter one is the greater.
pub open spec fn id_order(a: Seq<NodeView>, b: Seq<NodeView>) -> core::cmp::Ordering
    decreases a.len(),
{
    if a.len() == 0 {
        if b.len() == 0 {
            core::cmp::Ordering::Equal
        } else {
            core::cmp::Ordering::Greater
        }
    } else if b.len() == 0 {
        core::cmp::Ordering::Less
    } else if node_order(a[0], b[0]) == core::cmp::Ordering::Equal {
        id_order(a.drop_first(), b.drop_first())
    } else {
        node_order(a[0], b[0])
    }
}

/// The first `k` nodes of `a` and `b` are equal in value.
pub open spec fn same_prefix(a: Seq<NodeView>, b: Seq<NodeView>, k: int) -> bool {
    forall|j: int| 0 <= j < k ==> #[trigger] node_order(a[j], b[j]) == core::cmp::Ordering::Equal
}

pub open spec fn node_view(n: (Rational, OrderedVersion)) -> NodeView {
    (n.0.frac(), n.1)
}

/// A position: a non-empty path of (rational, tiebreaker) nodes. The last
/// tiebreaker names the element the position was made for.
#[derive(Debug)]
pub struct Identifier {
    path: Vec<(Rational, OrderedVersion)>,
}

impl View for Identifier {
    type V = Seq<NodeView>;

    closed spec fn view(&self) -> Seq<NodeView> {
        self.path@.map_values(|n: (Rational, OrderedVersion)| node_view(n))
    }
}

proof fn lemma_prefix_skip(a: Seq<NodeView>, b: Seq<NodeView>, k: int)
    requires
        0 <= k <= a.len(),
        k <= b.len(),
        same_prefix(a, b, k),
    ensures
        id_order(a, b) == id_order(a.skip(k), b.skip(k)),
    decreases k,
{
    if k > 0 {
        assert(node_order(a[0], b[0]) == core::cmp::Ordering::Equal);
        assert forall|j: int| 0 <= j < k - 1 implies #[trigger] node_order(
            a.drop_first()[j],
            b.drop_first()[j],
        ) == core::cmp::Ordering::Equal by {
            assert(node_order(a[j + 1], b[j + 1]) == core::cmp::Ordering::Equal);
        }
        lemma_prefix_skip(a.drop_first(), b.drop_first(), k - 1);
        assert(a.drop_first().skip(k - 1) =~= a.skip(k));
        assert(b.drop_first().skip(k - 1) =~= b.skip(k));
    } else {
        assert(a.skip(0) =~= a);
        assert(b.skip(0) =~= b);
    }
}

/// Equal up to `j`, and smaller at `j`: smaller.
proof fn lemma_less_at(a: Seq<NodeView>, b: Seq<NodeView>, j: int)
    requires
        0 <= j < a.len(),
        j < b.len(),
        same_prefix(a, b, j),
        node_order(a[j], b[j]) == core::cmp::Ordering::Less,
    ensures
        id_order(a, b) == core::cmp::Ordering::Less,
{
    lemma_prefix_skip(a, b, j);
    assert(a.skip(j)[0] == a[j]);
    assert(b.skip(j)[0] == b[j]);
}

/// A proper extension of `b` is smaller than `b`.
proof fn lemma_extension_less(a: Seq<NodeView>, b: Seq<NodeView>)
    requires
        b.len() < a.len(),
        same_prefix(a, b, b.len() as int),
    ensures
        id_order(a, b) == core::cmp::Ordering::Less,
{
    lemma_prefix_skip(a, b, b.len() as int);
}

/// A prefix of `b` is not smaller than `b`.
proof fn lemma_prefix_not_less(a: Seq<NodeView>, b: Seq<NodeView>)
    requires
        a.len() <= b.len(),
        same_prefix(a, b, a.len() as int),
    ensures
        id_order(a, b) != core::cmp::Ordering::Less,
{
    lemma_prefix_skip(a, b, a.len() as int);
}

/// Where `a` and `b` first differ, given that they agree up to `k` and `a` is
/// the smaller.
proof fn lemma_less_step(a: Seq<NodeView>, b: Seq<NodeView>, k: int)
    requires
        0 <= k < a.len(),
        k < b.len(),
        same_prefix(a, b, k),
        id_order(a, b) == core::cmp::Ordering::Less,
    ensures
        node_order(a[k], b[k]) != core::cmp::Ordering::Greater,
{
    lemma_prefix_skip(a, b, k);
    assert(a.skip(k)[0] == a[k]);
    assert(b.skip(k)[0] == b[k]);
}

/// Swapping the arguments reverses the order.
pub proof fn lemma_order_flip(a: Seq<NodeView>, b: Seq<NodeView>)
    ensures
        id_order(a, b) == core::cmp::Ordering::Less <==> id_order(b, a)
            == core::cmp::Ordering::Greater,
        id_order(a, b) == core::cmp::Ordering::Equal <==> id_order(b, a)
            == core::cmp::Ordering::Equal,
    decreases a.len(),
{
    if a.len() > 0 && b.len() > 0 {
        lemma_order_flip(a.drop_first(), b.drop_first());
    }
}

/// The identifier made of the first `k` nodes of `hi` followed by `x` lies
/// strictly between `lo` and `hi`, given how `x` compares at position `k`.
proof fn lemma_close(
    lo: Seq<NodeView>,
    hi: Seq<NodeView>,
    pv: Seq<NodeView>,
    x: NodeView,
    k: int,
    low_active: bool,
)
    requires
        0 <= k <= hi.len(),
        pv == hi.take(k),
        id_order(lo, hi) == core::cmp::Ordering::Less,
        low_active ==> k < lo.len() && same_prefix(lo, hi, k) && node_order(lo[k], x)
            == core::cmp::Ordering::Less,
        !low_active ==> exists|j: int|
            0 <= j < k && j < lo.len() && same_prefix(lo, hi, j) && node_order(lo[j], hi[j])
                == core::cmp::Ordering::Less,
        k < hi.len() ==> node_order(x, hi[k]) == core::cmp::Ordering::Less,
    ensures
        id_order(lo, pv.push(x)) == core::cmp::Ordering::Less,
        id_order(pv.push(x), hi) == core::cmp::Ordering::Less,
{
    let rv = pv.push(x);
    assert(same_prefix(rv, hi, k)) by {
        assert forall|j: int| 0 <= j < k implies #[trigger] node_order(rv[j], hi[j])
            == core::cmp::Ordering::Equal by {
            assert(rv[j] == hi[j]);
        }
    }
    assert(rv[k] == x);
    if k < hi.len() {
        lemma_less_at(rv, hi, k);
    } else {
        lemma_extension_less(rv, hi);
    }
    if low_active {
        assert(same_prefix(lo, rv, k)) by {
            assert forall|j: int| 0 <= j < k implies #[trigger] node_order(lo[j], rv[j])
                == core::cmp::Ordering::Equal by {
                assert(rv[j] == hi[j]);
                assert(node_order(lo[j], hi[j]) == core::cmp::Ordering::Equal);
            }
        }
        lemma_less_at(lo, rv, k);
    } else {
        let j = choose|j: int|
            0 <= j < k && j < lo.len() && same_prefix(lo, hi, j) && node_order(lo[j], hi[j])
                == core::cmp::Ordering::Less;
        assert(same_prefix(lo, rv, j)) by {
            assert forall|i: int| 0 <= i < j implies #[trigger] node_order(lo[i], rv[i])
                == core::cmp::Ordering::Equal by {
                assert(rv[i] == hi[i]);
                assert(node_order(lo[i], hi[i]) == core::cmp::Ordering::Equal);
            }
        }
        assert(rv[j] == hi[j]);
        lemma_less_at(lo, rv, j);
    }
}

impl Identifier {
    #[verifier::type_invariant]
    spec fn inv(&self) -> bool {
        self.wf()
    }

    /// A non-empty path whose rationals have positive denominators.
    pub closed spec fn wf(&self) -> bool {
        &&& self.path.len() > 0
        &&& forall|i: int| 0 <= i < self.path.len() ==> (#[trigger] self.path@[i]).0.wf()
    }

    /// The identifier with the given path.
    pub fn new(path: Vec<(Rational, OrderedVersion)>) -> (r: Identifier)
        requires
            path.len() > 0,
            forall|i: int| 0 <= i < path.len() ==> (#[trigger] path@[i]).0.wf(),
        ensures
            r.wf(),
            r@ == path@.map_values(|n: (Rational, OrderedVersion)| node_view(n)),
    {
        Identifier { path }
    }

    /// The tiebreaker of the last node.
    pub fn value(&self) -> (r: OrderedVersion)
        requires
            self.wf(),
        ensures
            r == self@.last().1,
    {
        self.path[self.path.len() - 1].1
    }

    /// The tiebreaker of the last node.
    pub fn into_value(self) -> (r: OrderedVersion)
        requires
            self.wf(),
        ensures
            r == self@.last().1,
    {
        self.value()
    }

    /// How this identifier compares with `other`.
    pub fn compare(&self, other: &Identifier) -> (r: core::cmp::Ordering)
        requires
            self.wf(),
            other.wf(),
        ensures
            r == id_order(self@, other@),
    {
        let mut k: usize = 0;
        while k < self.path.len() && k < other.path.len()
            invariant
                self.wf(),
                other.wf(),
                k <= self.path.len(),
                k <= other.path.len(),
                same_prefix(self@, other@, k as int),
            decreases self.path.len() - k,
        {
            let ghost x = self@[k as int];
            let ghost y = other@[k as int];
            assert(x == node_view(self.path@[k as int]));
            assert(y == node_view(other.path@[k as int]));
            let c = rat_cmp(&self.path[k].0, &other.path[k].0);
            let t = if ordered_less(&self.path[k].1, &other.path[k].1) {
                core::cmp::Ordering::Less
            } else if self.path[k].1 == other.path[k].1 {
                core::cmp::Ordering::Equal
            } else {
                core::cmp::Ordering::Greater
            };
            let n = match c {
                core::cmp::Ordering::Equal => t,
                _ => c,
            };
            match n {
                core::cmp::Ordering::Equal => {},
                _ => {
                    proof {
                        lemma_prefix_skip(self@, other@, k as int);
                        assert(self@.skip(k as int)[0] == x);
                        assert(other@.skip(k as int)[0] == y);
                    }
                    return n;
                },
            }
            k = k + 1;
        }
        proof {
            lemma_prefix_skip(self@, other@, k as int);
        }
        if k == self.path.len() && k == other.path.len() {
            core::cmp::Ordering::Equal
        } else if k == self.path.len() {
            core::cmp::Ordering::Greater
        } else {
            core::cmp::Ordering::Less
        }
    }

    /// A copy with the same nodes.
    pub fn duplicate(&self) -> (r: Identifier)
        requires
            self.wf(),
        ensures
            r.wf(),
            r@ == self@,
    {
        let mut path: Vec<(Rational, OrderedVersion)> = Vec::new();
        let mut i: usize = 0;
        while i < self.path.len()
            invariant
                self.wf(),
                i <= self.path.len(),
                path.len() == i,
                forall|j: int| 0 <= j < i ==> (#[trigger] path@[j]).0.wf(),
                forall|j: int|
                    0 <= j < i ==> node_view(#[trigger] path@[j]) == node_view(self.path@[j]),
            decreases self.path.len() - i,
        {
            let n = (self.path[i].0.clone(), self.path[i].1);
            path.push(n);
            i = i + 1;
        }
        let r = Identifier { path };
        assert(r@ =~= self@);
        r
    }

    /// An identifier strictly between `low < high`, whose last tiebreaker is
    /// `cursor`.
    fn between_ordered(low: &Identifier, high: &Identifier, cursor: OrderedVersion) -> (r:
        Identifier)
        requires
            low.wf(),
            high.wf(),
            id_order(low@, high@) == core::cmp::Ordering::Less,
        ensures
            r.wf(),
            id_order(low@, r@) == core::cmp::Ordering::Less,
            id_order(r@, high@) == core::cmp::Ordering::Less,
            r@.last().1 == cursor,
            r@.len() <= high@.len() + 1,
            r@.drop_last() == high@.take(r@.len() - 1),
    {
        let ghost lo = low@;
        let ghost hi = high@;
        let mut path: Vec<(Rational, OrderedVersion)> = Vec::new();
        let mut k: usize = 0;
        let mut low_active = true;
        let mut done = false;
        while !done
            invariant
                low.wf(),
                high.wf(),
                lo == low@,
                hi == high@,
                id_order(lo, hi) == core::cmp::Ordering::Less,
                forall|j: int| 0 <= j < path.len() ==> (#[trigger] path@[j]).0.wf(),
                k <= hi.len(),
                !done ==> path@.map_values(|n: (Rational, OrderedVersion)| node_view(n))
                    == hi.take(k as int),
                !done && low_active ==> k <= lo.len() && same_prefix(lo, hi, k as int),
                !done && !low_active ==> exists|j: int|
                    0 <= j < k && j < lo.len() && same_prefix(lo, hi, j) && node_order(lo[j], hi[j])
                        == core::cmp::Ordering::Less,
                done ==> path.len() > 0,
                done ==> id_order(lo, path@.map_values(|n: (Rational, OrderedVersion)| node_view(n)))
                    == core::cmp::Ordering::Less,
                done ==> id_order(path@.map_values(|n: (Rational, OrderedVersion)| node_view(n)), hi)
                    == core::cmp::Ordering::Less,
                done ==> path@.last().1 == cursor,
                done ==> path.len() <= hi.len() + 1,
                done ==> path@.map_values(|n: (Rational, OrderedVersion)| node_view(n)).drop_last()
                    == hi.take(path.len() - 1),
            decreases hi.len() + 1 - k - (if done {
                1int
            } else {
                0int
            }),
        {
            let ghost before = path@;
            let ghost pv = before.map_values(|n: (Rational, OrderedVersion)| node_view(n));
            let l_some = low_active && k < low.path.len();
            let h_some = k < high.path.len();
            proof {
                if l_some {
                    assert(lo[k as int] == node_view(low.path@[k as int]));
                }
                if h_some {
                    assert(hi[k as int] == node_view(high.path@[k as int]));
                }
                if l_some && h_some {
                    lemma_less_step(lo, hi, k as int);
                }
                if low_active && !l_some {
                    lemma_prefix_not_less(lo, hi);
                }
            }
            let mut same_rational = false;
            if l_some && h_some {
                if let core::cmp::Ordering::Equal = rat_cmp(&low.path[k].0, &high.path[k].0) {
                    same_rational = true;
                }
            }
            if same_rational {
                let lc = low.path[k].1;
                let hc = high.path[k].1;
                if ordered_less(&lc, &cursor) && ordered_less(&cursor, &hc) {
                    path.push((high.path[k].0.clone(), cursor));
                    done = true;
                    proof {
                        let x = (hi[k as int].0, cursor);
                        assert(path@.map_values(|n: (Rational, OrderedVersion)| node_view(n))
                            =~= pv.push(x));
                        lemma_close(lo, hi, pv, x, k as int, low_active);
                    }
                } else {
                    let node = (high.path[k].0.clone(), hc);
                    if lc != hc {
                        low_active = false;
                    }
                    path.push(node);
                    proof {
                        assert(path@.map_values(|n: (Rational, OrderedVersion)| node_view(n))
                            =~= hi.take(k + 1));
                        if lc == hc {
                            assert(same_prefix(lo, hi, k + 1)) by {
                                assert forall|j: int| 0 <= j < k + 1 implies #[trigger] node_order(
                                    lo[j],
                                    hi[j],
                                ) == core::cmp::Ordering::Equal by {}
                            }
                        } else {
                            assert(node_order(lo[k as int], hi[k as int])
                                == core::cmp::Ordering::Less);
                        }
                    }
                }
            } else {
                let lr = if l_some {
                    Some(&low.path[k].0)
                } else {
                    None
                };
                let hr = if h_some {
                    Some(&high.path[k].0)
                } else {
                    None
                };
                let mid = rational_between(lr, hr);
                let ghost x = (mid.frac(), cursor);
                path.push((mid, cursor));
                done = true;
                proof {
                    assert(path@.map_values(|n: (Rational, OrderedVersion)| node_view(n))
                        =~= pv.push(x));
                    lemma_close(lo, hi, pv, x, k as int, low_active);
                }
            }
            if !done {
                k = k + 1;
            }
        }
        Identifier { path }
    }

    /// A new identifier between `low` and `high` whose last tiebreaker is
    /// `cursor`: strictly between two distinct bounds (in either order), on the
    /// open side of a single bound, and a lone zero node without bounds. Equal
    /// bounds give that identifier back.
    pub fn between(low: Option<&Identifier>, high: Option<&Identifier>, cursor: OrderedVersion) -> (r:
        Identifier)
        requires
            low matches Some(l) ==> l.wf(),
            high matches Some(h) ==> h.wf(),
        ensures
            r.wf(),
            (low, high) matches (Some(l), Some(h)) ==> (if id_order(l@, h@)
                == core::cmp::Ordering::Less {
                id_order(l@, r@) == core::cmp::Ordering::Less && id_order(r@, h@)
                    == core::cmp::Ordering::Less && r@.last().1 == cursor && r@.drop_last()
                    == h@.take(r@.len() - 1)
            } else if id_order(l@, h@) == core::cmp::Ordering::Greater {
                id_order(h@, r@) == core::cmp::Ordering::Less && id_order(r@, l@)
                    == core::cmp::Ordering::Less && r@.last().1 == cursor && r@.drop_last()
                    == l@.take(r@.len() - 1)
            } else {
                r@ == h@
            }),
            high is None ==> (low matches Some(l) ==> id_order(l@, r@) == core::cmp::Ordering::Less
                && r@.len() == 1 && r@[0].1 == cursor && r@[0].0.0 * l@[0].0.1 == (l@[0].0.0
                + l@[0].0.1) * r@[0].0.1),
            low is None ==> (high matches Some(h) ==> id_order(r@, h@) == core::cmp::Ordering::Less
                && r@.len() == 1 && r@[0].1 == cursor && r@[0].0.0 * h@[0].0.1 == (h@[0].0.0
                - h@[0].0.1) * r@[0].0.1),
            (low is None && high is None) ==> r@ == seq![((0int, 1int), cursor)],
    {
        match (low, high) {
            (Some(l), Some(h)) => {
                match l.compare(h) {
                    core::cmp::Ordering::Less => Identifier::between_ordered(l, h, cursor),
                    core::cmp::Ordering::Greater => {
                        proof {
                            lemma_order_flip(l@, h@);
                        }
                        Identifier::between_ordered(h, l, cursor)
                    },
                    core::cmp::Ordering::Equal => h.duplicate(),
                }
            },
            (Some(l), None) => {
                let mid = rational_between(Some(&l.path[0].0), None);
                let mut path: Vec<(Rational, OrderedVersion)> = Vec::new();
                path.push((mid, cursor));
                let r = Identifier { path };
                proof {
                    assert(l@[0] == node_view(l.path@[0]));
                    assert(r@[0] == node_view(r.path@[0]));
                    assert(same_prefix(l@, r@, 0));
                    lemma_less_at(l@, r@, 0);
                }
                r
            },
            (None, Some(h)) => {
                let mid = rational_between(None, Some(&h.path[0].0));
                let mut path: Vec<(Rational, OrderedVersion)> = Vec::new();
                path.push((mid, cursor));
                let r = Identifier { path };
                proof {
                    assert(h@[0] == node_view(h.path@[0]));
                    assert(r@[0] == node_view(r.path@[0]));
                    assert(same_prefix(r@, h@, 0));
                    lemma_less_at(r@, h@, 0);
                }
                r
            },
            (None, None) => {
                let mid = rational_between(None, None);
                let mut path: Vec<(Rational, OrderedVersion)> = Vec::new();
                path.push((mid, cursor));
                let r = Identifier { path };
                proof {
                    assert(r@[0] == node_view(r.path@[0]));
                    assert(r@ =~= seq![((0int, 1int), cursor)]);
                }
                r
            },
        }
    }
}

} // verus!

verus! {

/// Every node's denominator is positive.
pub open spec fn nodes_wf(a: Seq<NodeView>) -> bool {
    forall|i: int| 0 <= i < a.len() ==> (#[trigger] a[i]).0.1 > 0
}

proof fn lemma_frac_trans(x: (int, int), y: (int, int), z: (int, int))
    requires
        x.1 > 0,
        y.1 > 0,
        z.1 > 0,
    ensures
        frac_order(x, y) != core::cmp::Ordering::Greater && frac_order(y, z)
            != core::cmp::Ordering::Greater ==> frac_order(x, z) != core::cmp::Ordering::Greater,
        frac_order(x, y) == core::cmp::Ordering::Less && frac_order(y, z)
            != core::cmp::Ordering::Greater ==> frac_order(x, z) == core::cmp::Ordering::Less,
        frac_order(x, y) != core::cmp::Ordering::Greater && frac_order(y, z)
            == core::cmp::Ordering::Less ==> frac_order(x, z) == core::cmp::Ordering::Less,
{
    let (a, b, c, d, e, f) = (x.0, x.1, y.0, y.1, z.0, z.1);
    // x = a/b, y = c/d, z = e/f
    assert(a * d * f <= c * b * f ==> a * f * d <= e * b * d || c * f > e * d) by (nonlinear_arith)
        requires
            b > 0,
            d > 0,
            f > 0,
    ;
    assert(a * d <= c * b ==> a * d * f <= c * b * f) by (nonlinear_arith)
        requires
            f > 0,
    ;
    assert(a * d < c * b ==> a * d * f < c * b * f) by (nonlinear_arith)
        requires
            f > 0,
    ;
    assert(c * f <= e * d ==> c * f * b <= e * d * b) by (nonlinear_arith)
        requires
            b > 0,
    ;
    assert(c * f < e * d ==> c * f * b < e * d * b) by (nonlinear_arith)
        requires
            b > 0,
    ;
    assert(a * f * d <= e * b * d ==> a * f <= e * b) by (nonlinear_arith)
        requires
            d > 0,
    ;
    assert(a * f * d < e * b * d ==> a * f < e * b) by (nonlinear_arith)
        requires
            d > 0,
    ;
    assert(a * d * f == a * f * d && c * b * f == c * f * b && e * d * b == e * b * d)
        by (nonlinear_arith);
}

proof fn lemma_node_trans(x: NodeView, y: NodeView, z: NodeView)
    requires
        x.0.1 > 0,
        y.0.1 > 0,
        z.0.1 > 0,
    ensures
        node_order(x, y) == core::cmp::Ordering::Equal && node_order(y, z)
            == core::cmp::Ordering::Equal ==> node_order(x, z) == core::cmp::Ordering::Equal,
        node_order(x, y) != core::cmp::Ordering::Greater && node_order(y, z)
            == core::cmp::Ordering::Less ==> node_order(x, z) == core::cmp::Ordering::Less,
        node_order(x, y) == core::cmp::Ordering::Less && node_order(y, z)
            != core::cmp::Ordering::Greater ==> node_order(x, z) == core::cmp::Ordering::Less,
{
    lemma_frac_trans(x.0, y.0, z.0);
    lemma_frac_trans(z.0, y.0, x.0);
    lemma_frac_trans(y.0, z.0, x.0);
    lemma_frac_trans(x.0, z.0, y.0);
    lemma_frac_trans(y.0, x.0, z.0);
    lemma_frac_trans(z.0, x.0, y.0);
}

/// The identifier order is transitive, also through equal identifiers.
pub proof fn lemma_id_trans(a: Seq<NodeView>, b: Seq<NodeView>, c: Seq<NodeView>)
    requires
        nodes_wf(a),
        nodes_wf(b),
        nodes_wf(c),
        id_order(a, b) == core::cmp::Ordering::Less,
        id_order(b, c) != core::cmp::Ordering::Greater,
    ensures
        id_order(a, c) == core::cmp::Ordering::Less,
    decreases a.len(),
{
    if c.len() > 0 {
        lemma_node_trans(a[0], b[0], c[0]);
        if node_order(a[0], b[0]) == core::cmp::Ordering::Equal && node_order(b[0], c[0])
            == core::cmp::Ordering::Equal {
            assert(nodes_wf(a.drop_first()));
            assert(nodes_wf(b.drop_first()));
            assert(nodes_wf(c.drop_first()));
            lemma_id_trans(a.drop_first(), b.drop_first(), c.drop_first());
        }
    }
}

/// Every identifier is equal to itself.
pub proof fn lemma_id_refl(a: Seq<NodeView>)
    ensures
        id_order(a, a) == core::cmp::Ordering::Equal,
    decreases a.len(),
{
    if a.len() > 0 {
        lemma_id_refl(a.drop_first());
    }
}

impl Clone for Identifier {
    fn clone(&self) -> (r: Identifier)
        ensures
            r@ == self@,
    {
        proof {
            use_type_invariant(self);
        }
        self.duplicate()
    }
}

impl PartialEq for Identifier {
    fn eq(&self, other: &Identifier) -> (r: bool) {
        proof {
            use_type_invariant(self);
            use_type_invariant(other);
        }
        match self.compare(other) {
            core::cmp::Ordering::Equal => true,
            _ => false,
        }
    }
}

impl vstd::std_specs::cmp::PartialEqSpecImpl for Identifier {
    open spec fn obeys_eq_spec() -> bool {
        true
    }

    open spec fn eq_spec(&self, other: &Identifier) -> bool {
        id_order(self@, other@) == core::cmp::Ordering::Equal
    }
}

impl PartialOrd for Identifier {
    fn partial_cmp(&self, other: &Identifier) -> (r: Option<core::cmp::Ordering>) {
        proof {
            use_type_invariant(self);
            use_type_invariant(other);
        }
        Some(self.compare(other))
    }
}

impl vstd::std_specs::cmp::PartialOrdSpecImpl for Identifier {
    open spec fn obeys_partial_cmp_spec() -> bool {
        true
    }

    open spec fn partial_cmp_spec(&self, other: &Identifier) -> Option<core::cmp::Ordering> {
        Some(id_order(self@, other@))
    }
}

impl Identifier {
    /// The nodes of a well-formed identifier have positive denominators.
    pub proof fn lemma_nodes_wf(&self)
        requires
            self.wf(),
        ensures
            nodes_wf(self@),
    {
        assert forall|i: int| 0 <= i < self@.len() implies (#[trigger] self@[i]).0.1 > 0 by {
            assert(self@[i] == node_view(self.path@[i]));
        }
    }
}

/// Identifiers are totally ordered: every identifier equals itself, swapping
/// two reverses their order, and the order is transitive.
pub proof fn law_identifier_total_order(a: Identifier, b: Identifier, c: Identifier)
    requires
        a.wf(),
        b.wf(),
        c.wf(),
    ensures
        id_order(a@, a@) == core::cmp::Ordering::Equal,
        id_order(a@, b@) == core::cmp::Ordering::Less <==> id_order(b@, a@)
            == core::cmp::Ordering::Greater,
        id_order(a@, b@) == core::cmp::Ordering::Equal <==> id_order(b@, a@)
            == core::cmp::Ordering::Equal,
        id_order(a@, b@) == core::cmp::Ordering::Less && id_order(b@, c@)
            == core::cmp::Ordering::Less ==> id_order(a@, c@) == core::cmp::Ordering::Less,
{
    a.lemma_nodes_wf();
    b.lemma_nodes_wf();
    c.lemma_nodes_wf();
    lemma_id_refl(a@);
    lemma_order_flip(a@, b@);
    if id_order(a@, b@) == core::cmp::Ordering::Less && id_order(b@, c@)
        == core::cmp::Ordering::Less {
        lemma_id_trans(a@, b@, c@);
    }
}

} // verus!
