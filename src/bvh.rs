use vstd::prelude::*;

use crate::axis::{longest_axis, longest_axis_spec, AxisKeys, Dim};
use crate::nearest::{lemma_nearest_order_free, nearest_spec, Hit};

verus! {

/// A node of the hierarchy. It covers the primitives `order[lo..hi]` of its
/// tree. A leaf holds one or two of them directly; a branch holds two nodes:
/// the left one covers the upper half of the range, the right one the lower
/// half, after the range was sorted along `axis`.
#[derive(Clone, Copy, Debug)]
pub struct BvhNode {
    pub lo: usize,
    pub hi: usize,
    pub axis: Dim,
    pub children: Option<(usize, usize)>,
}

/// A bounding-volume hierarchy over primitives `0..n`, kept as an arena:
/// `order` lists every primitive once, each node covers a range of it, the
/// children of a node stand before it, and the root is the last node.
#[derive(Clone, Debug)]
pub struct Bvh {
    pub order: Vec<usize>,
    pub nodes: Vec<BvhNode>,
}

/// `s` lists each of `0..n` exactly once.
pub open spec fn is_permutation(s: Seq<usize>, n: nat) -> bool {
    &&& s.len() == n
    &&& forall|i: int| 0 <= i < s.len() ==> s[i] < n
    &&& forall|i: int, j: int| 0 <= i < j < s.len() ==> s[i] != s[j]
    &&& forall|v: usize| v < n ==> occurs_in(s, v, 0, s.len() as int)
}

/// Trading the values at two places keeps a permutation.
pub proof fn lemma_swap_permutation(prev: Seq<usize>, new: Seq<usize>, x: int, y: int, n: nat)
    requires
        is_permutation(prev, n),
        0 <= x < prev.len(),
        0 <= y < prev.len(),
        new == prev.update(x, prev[y]).update(y, prev[x]),
    ensures
        is_permutation(new, n),
{
    assert forall|a: int, b: int| 0 <= a < b < new.len() implies new[a] != new[b] by {
        let sa = if a == y { x } else if a == x { y } else { a };
        let sb = if b == y { x } else if b == x { y } else { b };
        assert(new[a] == prev[sa]);
        assert(new[b] == prev[sb]);
    }
    assert forall|i: int| 0 <= i < new.len() implies new[i] < n by {
        let si = if i == y { x } else if i == x { y } else { i };
        assert(new[i] == prev[si]);
    }
    assert forall|v: usize| v < n implies occurs_in(new, v, 0, new.len() as int) by {
        assert(occurs_in(prev, v, 0, prev.len() as int));
        let i = choose|i: int| 0 <= i < prev.len() && prev[i] == v;
        let si = if i == y { x } else if i == x { y } else { i };
        assert(new[si] == v);
    }
}

/// The key along `axis` of the primitive at position `p` of `order`.
pub open spec fn key_at(keys: Seq<AxisKeys>, order: Seq<usize>, axis: Dim, p: int) -> u32 {
    keys[order[p] as int].at(axis)
}

/// The first position of the upper half of `lo..hi`.
pub open spec fn mid_of(lo: int, hi: int) -> int {
    lo + (hi - lo) / 2
}

/// Node `i` is shaped as the build makes it over an order of `len`
/// primitives: a leaf of one or two primitives, or a branch over at least
/// three whose children stand before it and split its range at the midpoint.
pub open spec fn node_shape(len: nat, nodes: Seq<BvhNode>, i: int) -> bool {
    let nd = nodes[i];
    &&& nd.lo < nd.hi <= len
    &&& match nd.children {
        None => nd.hi - nd.lo <= 2,
        Some((l, r)) => {
            let m = mid_of(nd.lo as int, nd.hi as int);
            &&& nd.hi - nd.lo >= 3
            &&& 0 <= l < i && 0 <= r < i
            &&& nodes[l as int].lo == m && nodes[l as int].hi == nd.hi
            &&& nodes[r as int].lo == nd.lo && nodes[r as int].hi == m
        },
    }
}

/// A branch `i` holds no key of its lower half above a key of its upper half
/// along its axis.
pub open spec fn node_split(keys: Seq<AxisKeys>, order: Seq<usize>, nodes: Seq<BvhNode>, i: int) -> bool {
    let nd = nodes[i];
    nd.children is Some ==> forall|a: int, b: int|
        nd.lo <= a < mid_of(nd.lo as int, nd.hi as int) <= b < nd.hi ==> key_at(keys, order, nd.axis, a)
            <= key_at(keys, order, nd.axis, b)
}

pub open spec fn node_ok(keys: Seq<AxisKeys>, order: Seq<usize>, nodes: Seq<BvhNode>, i: int) -> bool {
    node_shape(order.len(), nodes, i) && node_split(keys, order, nodes, i)
}

/// `v` stands at some position of `lo..hi` in `s`.
pub open spec fn occurs_in(s: Seq<usize>, v: usize, lo: int, hi: int) -> bool {
    exists|q: int| lo <= q < hi && s[q] == v
}

/// The positions `lo..hi` of `new` hold only values that `old` held there.
pub open spec fn same_contents(old: Seq<usize>, new: Seq<usize>, lo: int, hi: int) -> bool {
    forall|p: int| lo <= p < hi ==> occurs_in(old, #[trigger] new[p], lo, hi)
}

/// `new` equals `old` outside `lo..hi`.
pub open spec fn same_outside(old: Seq<usize>, new: Seq<usize>, lo: int, hi: int) -> bool {
    &&& new.len() == old.len()
    &&& forall|p: int| 0 <= p < old.len() && !(lo <= p < hi) ==> new[p] == old[p]
}

proof fn lemma_same_contents_refl(s: Seq<usize>, lo: int, hi: int)
    ensures
        same_contents(s, s, lo, hi),
{
    assert forall|p: int| lo <= p < hi implies occurs_in(s, #[trigger] s[p], lo, hi) by {
        assert(s[p] == s[p]);
    }
}

proof fn lemma_same_contents_trans(a: Seq<usize>, b: Seq<usize>, c: Seq<usize>, lo: int, hi: int)
    requires
        same_contents(a, b, lo, hi),
        same_contents(b, c, lo, hi),
    ensures
        same_contents(a, c, lo, hi),
{
    assert forall|p: int| lo <= p < hi implies occurs_in(a, #[trigger] c[p], lo, hi) by {
        assert(occurs_in(b, c[p], lo, hi));
        let q1 = choose|q: int| lo <= q < hi && b[q] == c[p];
        assert(occurs_in(a, b[q1], lo, hi));
    }
}

/// Contents kept on two adjacent ranges, and the values outside each range
/// unchanged, keep the contents of their union.
proof fn lemma_same_contents_split(
    a: Seq<usize>,
    b: Seq<usize>,
    c: Seq<usize>,
    lo: int,
    mid: int,
    hi: int,
)
    requires
        0 <= lo <= mid <= hi <= a.len(),
        same_contents(a, b, mid, hi),
        same_outside(a, b, mid, hi),
        same_contents(b, c, lo, mid),
        same_outside(b, c, lo, mid),
    ensures
        same_contents(a, c, lo, hi),
        same_outside(a, c, lo, hi),
{
    assert forall|p: int| lo <= p < hi implies occurs_in(a, #[trigger] c[p], lo, hi) by {
        if p < mid {
            assert(occurs_in(b, c[p], lo, mid));
            let q1 = choose|q: int| lo <= q < mid && b[q] == c[p];
            assert(a[q1] == c[p]);
        } else {
            assert(c[p] == b[p]);
            assert(occurs_in(a, b[p], mid, hi));
            let q1 = choose|q: int| mid <= q < hi && a[q] == b[p];
            assert(a[q1] == c[p]);
        }
    }
}

/// A node keeps its shape when nodes are added after it and the order
/// changes only away from its range.
proof fn lemma_node_frame(
    keys: Seq<AxisKeys>,
    o1: Seq<usize>,
    o2: Seq<usize>,
    n1: Seq<BvhNode>,
    n2: Seq<BvhNode>,
    i: int,
    lo: int,
    hi: int,
)
    requires
        0 <= i < n1.len() <= n2.len(),
        n2.subrange(0, n1.len() as int) == n1,
        node_ok(keys, o1, n1, i),
        n1[i].hi <= lo || hi <= n1[i].lo,
        same_outside(o1, o2, lo, hi),
    ensures
        node_ok(keys, o2, n2, i),
{
    assert(n2[i] == n1[i]);
    let nd = n1[i];
    match nd.children {
        None => {},
        Some((l, r)) => {
            assert(n2[l as int] == n1[l as int]);
            assert(n2[r as int] == n1[r as int]);
            assert forall|p: int| nd.lo <= p < nd.hi implies #[trigger] key_at(keys, o2, nd.axis, p)
                == key_at(keys, o1, nd.axis, p) by {
                assert(o2[p] == o1[p]);
            }
        },
    }
}

/// Values that keep to their halves keep a split between the halves.
proof fn lemma_split_kept(
    keys: Seq<AxisKeys>,
    o1: Seq<usize>,
    o2: Seq<usize>,
    axis: Dim,
    lo: int,
    mid: int,
    hi: int,
)
    requires
        0 <= lo <= mid <= hi <= o1.len(),
        forall|a: int, b: int|
            lo <= a < mid <= b < hi ==> key_at(keys, o1, axis, a) <= key_at(keys, o1, axis, b),
        same_contents(o1, o2, lo, mid),
        same_contents(o1, o2, mid, hi),
    ensures
        forall|a: int, b: int|
            lo <= a < mid <= b < hi ==> key_at(keys, o2, axis, a) <= key_at(keys, o2, axis, b),
{
    assert forall|a: int, b: int| lo <= a < mid <= b < hi implies key_at(keys, o2, axis, a)
        <= key_at(keys, o2, axis, b) by {
        assert(occurs_in(o1, o2[a], lo, mid));
        assert(occurs_in(o1, o2[b], mid, hi));
        let qa = choose|q: int| lo <= q < mid && o1[q] == o2[a];
        let qb = choose|q: int| mid <= q < hi && o1[q] == o2[b];
        assert(key_at(keys, o1, axis, qa) <= key_at(keys, o1, axis, qb));
    }
}

impl Bvh {
    /// Every node has the shape the build gives it, and the last node, the
    /// root, covers the whole order.
    pub open spec fn well_shaped(&self) -> bool {
        &&& self.nodes.len() >= 1
        &&& forall|i: int|
            0 <= i < self.nodes.len() ==> node_shape(self.order.len() as nat, self.nodes@, i)
        &&& self.nodes@.last().lo == 0
        &&& self.nodes@.last().hi == self.order.len()
    }

    /// The hierarchy is well formed for the primitive keys `keys`: it is well
    /// shaped, its order lists each primitive once, and every branch splits
    /// its primitives along its axis.
    pub open spec fn wf(&self, keys: Seq<AxisKeys>) -> bool {
        &&& keys.len() == self.order.len()
        &&& is_permutation(self.order@, keys.len())
        &&& self.well_shaped()
        &&& forall|i: int|
            0 <= i < self.nodes.len() ==> node_split(keys, self.order@, self.nodes@, i)
    }

    /// `v` is the primitive at some position `k` that `reached` holds of.
    pub open spec fn reached_prim<F: Fn(usize) -> bool>(&self, box_hit: F, i: int, v: usize) -> bool {
        exists|k: int| 0 <= k < self.order.len() && self.order@[k] == v && self.reached(box_hit, i, k)
    }

    /// Node `i` covers position `k` of the order.
    pub open spec fn covers(&self, i: int, k: int) -> bool {
        self.nodes@[i].lo <= k < self.nodes@[i].hi
    }

    /// Every node on the way from node `i` down to the leaf that holds
    /// position `k` answered, or may answer, true to `box_hit`.
    pub open spec fn reached<F: Fn(usize) -> bool>(&self, box_hit: F, i: int, k: int) -> bool
        decreases i,
    {
        &&& 0 <= i < self.nodes.len()
        &&& self.covers(i, k)
        &&& box_hit.ensures((i as usize,), true)
        &&& match self.nodes@[i].children {
            None => true,
            Some((l, r)) => if 0 <= l < i && 0 <= r < i {
                self.reached(box_hit, l as int, k) || self.reached(box_hit, r as int, k)
            } else {
                false
            },
        }
    }

    /// No node on the way from node `i` down to the leaf that holds position
    /// `k` can answer false to `box_hit`.
    pub open spec fn unblocked<F: Fn(usize) -> bool>(&self, box_hit: F, i: int, k: int) -> bool
        decreases i,
    {
        &&& 0 <= i < self.nodes.len()
        &&& self.covers(i, k)
        &&& !box_hit.ensures((i as usize,), false)
        &&& match self.nodes@[i].children {
            None => true,
            Some((l, r)) => if 0 <= l < i && 0 <= r < i {
                (self.covers(l as int, k) ==> self.unblocked(box_hit, l as int, k)) && (self.covers(
                    r as int,
                    k,
                ) ==> self.unblocked(box_hit, r as int, k))
            } else {
                false
            },
        }
    }

    /// Appends the primitives of the leaves under node `i` whose way down
    /// passes `box_hit`.
    fn collect<F: Fn(usize) -> bool>(&self, box_hit: &F, i: usize, out: &mut Vec<usize>)
        requires
            self.well_shaped(),
            i < self.nodes.len(),
            forall|n: usize| box_hit.requires((n,)),
        ensures
            old(out)@.len() <= final(out)@.len(),
            final(out)@.subrange(0, old(out)@.len() as int) == old(out)@,
            forall|j: int|
                #![trigger final(out)@[j]]
                old(out)@.len() <= j < final(out)@.len() ==> self.reached_prim(*box_hit, i as int, final(out)@[j]),
            forall|k: int|
                #![trigger self.unblocked(*box_hit, i as int, k)]
                0 <= k < self.order.len() && self.unblocked(*box_hit, i as int, k) ==> exists|j: int|
                    old(out)@.len() <= j < final(out)@.len() && final(out)@[j] == self.order@[k],
        decreases i,
    {
        let nd = self.nodes[i];
        assert(node_shape(self.order.len() as nat, self.nodes@, i as int));
        let hit = box_hit(i);
        if !hit {
            assert(final(out)@.subrange(0, old(out)@.len() as int) =~= old(out)@);
            return ;
        }
        match nd.children {
            None => {
                let ghost o0 = out@;
                out.push(self.order[nd.lo]);
                if nd.hi - nd.lo == 2 {
                    out.push(self.order[nd.lo + 1]);
                }
                assert(out@.subrange(0, o0.len() as int) =~= o0);
                assert forall|j: int| #![trigger out@[j]] o0.len() <= j < out@.len() implies self.reached_prim(*box_hit, i as int, out@[j]) by {
                    let k = nd.lo + (j - o0.len());
                    assert(self.order@[k] == out@[j]);
                    assert(self.reached(*box_hit, i as int, k));
                }
                assert forall|k: int|
                    #![trigger self.unblocked(*box_hit, i as int, k)]
                    0 <= k < self.order.len() && self.unblocked(*box_hit, i as int, k) implies exists|j: int|
                    o0.len() <= j < out@.len() && out@[j] == self.order@[k] by {
                    let j = o0.len() + (k - nd.lo);
                    assert(out@[j] == self.order@[k]);
                }
            },
            Some((l, r)) => {
                let ghost o0 = out@;
                self.collect(box_hit, l, out);
                let ghost o1 = out@;
                self.collect(box_hit, r, out);
                let ghost o2 = out@;
                assert(node_shape(self.order.len() as nat, self.nodes@, l as int));
                assert(node_shape(self.order.len() as nat, self.nodes@, r as int));
                assert(o2.subrange(0, o0.len() as int) =~= o0) by {
                    assert(o2.subrange(0, o1.len() as int) == o1);
                    assert(o1.subrange(0, o0.len() as int) == o0);
                }
                assert forall|j: int| #![trigger o2[j]] o0.len() <= j < o2.len() implies self.reached_prim(*box_hit, i as int, o2[j]) by {
                    if j < o1.len() {
                        assert(o2[j] == o1[j]);
                        assert(self.reached_prim(*box_hit, l as int, o1[j]));
                        let k = choose|k: int|
                            0 <= k < self.order.len() && self.order@[k] == o1[j] && self.reached(
                                *box_hit,
                                l as int,
                                k,
                            );
                        assert(self.reached(*box_hit, i as int, k));
                    } else {
                        assert(self.reached_prim(*box_hit, r as int, o2[j]));
                        let k = choose|k: int|
                            0 <= k < self.order.len() && self.order@[k] == o2[j] && self.reached(
                                *box_hit,
                                r as int,
                                k,
                            );
                        assert(self.reached(*box_hit, i as int, k));
                    }
                }
                assert forall|k: int|
                    #![trigger self.unblocked(*box_hit, i as int, k)]
                    0 <= k < self.order.len() && self.unblocked(*box_hit, i as int, k) implies exists|j: int|
                    o0.len() <= j < o2.len() && o2[j] == self.order@[k] by {
                    if self.covers(l as int, k) {
                        assert(self.unblocked(*box_hit, l as int, k));
                        let j = choose|j: int|
                            o0.len() <= j < o1.len() && o1[j] == self.order@[k];
                        assert(o2[j] == o1[j]);
                    } else {
                        assert(self.covers(r as int, k));
                        assert(self.unblocked(*box_hit, r as int, k));
                    }
                }
            },
        }
    }

    /// The primitives, in the order met, that a query may have to test: those
    /// whose every node from the root down passed `box_hit(node)`. A
    /// primitive is listed whenever no node on its way can fail the test, and
    /// only when every node on its way may pass it.
    pub fn candidates<F: Fn(usize) -> bool>(&self, box_hit: &F) -> (r: Vec<usize>)
        requires
            self.well_shaped(),
            forall|n: usize| box_hit.requires((n,)),
        ensures
            forall|j: int|
                #![trigger r@[j]]
                0 <= j < r@.len() ==> self.reached_prim(*box_hit, self.nodes.len() - 1, r@[j]),
            forall|k: int|
                0 <= k < self.order.len() && self.unblocked(*box_hit, self.nodes.len() - 1, k)
                    ==> r@.contains(self.order@[k]),
    {
        let mut out: Vec<usize> = Vec::new();
        self.collect(box_hit, self.nodes.len() - 1, &mut out);
        proof {
            assert forall|k: int|
                #![trigger self.unblocked(*box_hit, self.nodes.len() - 1, k)]
                0 <= k < self.order.len() && self.unblocked(*box_hit, self.nodes.len() - 1, k)
                    implies out@.contains(self.order@[k]) by {
                let j = choose|j: int| 0 <= j < out@.len() && out@[j] == self.order@[k];
            }
        }
        out
    }
}

/// Node `nd` splits along the longest axis of an answer of `extent` for a
/// list of exactly the primitives it covers in `order`.
pub open spec fn axis_from_extent<F: Fn(&Vec<usize>) -> AxisKeys>(
    extent: F,
    order: Seq<usize>,
    nd: BvhNode,
) -> bool {
    exists|ids: Vec<usize>, spans: AxisKeys|
        #![trigger extent.ensures((&ids,), spans)]
        extent.ensures((&ids,), spans) && nd.axis == longest_axis_spec(spans) && ids@.len() == nd.hi
            - nd.lo && forall|p: int|
            nd.lo <= p < nd.hi ==> occurs_in(ids@, #[trigger] order[p], 0, ids@.len() as int)
}

proof fn lemma_axis_frame<F: Fn(&Vec<usize>) -> AxisKeys>(
    extent: F,
    o1: Seq<usize>,
    o2: Seq<usize>,
    nd: BvhNode,
    lo: int,
    hi: int,
)
    requires
        axis_from_extent(extent, o1, nd),
        nd.hi <= lo || hi <= nd.lo,
        nd.hi <= o1.len(),
        same_outside(o1, o2, lo, hi),
    ensures
        axis_from_extent(extent, o2, nd),
{
    let (ids, spans) = choose|ids: Vec<usize>, spans: AxisKeys|
        #![trigger extent.ensures((&ids,), spans)]
        extent.ensures((&ids,), spans) && nd.axis == longest_axis_spec(spans) && ids@.len() == nd.hi
            - nd.lo && forall|p: int|
            nd.lo <= p < nd.hi ==> occurs_in(ids@, #[trigger] o1[p], 0, ids@.len() as int);
    assert forall|p: int| nd.lo <= p < nd.hi implies occurs_in(
        ids@,
        #[trigger] o2[p],
        0,
        ids@.len() as int,
    ) by {
        assert(o2[p] == o1[p]);
    }
}

proof fn lemma_axis_contents<F: Fn(&Vec<usize>) -> AxisKeys>(
    extent: F,
    o1: Seq<usize>,
    o2: Seq<usize>,
    nd: BvhNode,
)
    requires
        axis_from_extent(extent, o1, nd),
        same_contents(o1, o2, nd.lo as int, nd.hi as int),
    ensures
        axis_from_extent(extent, o2, nd),
{
    let (ids, spans) = choose|ids: Vec<usize>, spans: AxisKeys|
        #![trigger extent.ensures((&ids,), spans)]
        extent.ensures((&ids,), spans) && nd.axis == longest_axis_spec(spans) && ids@.len() == nd.hi
            - nd.lo && forall|p: int|
            nd.lo <= p < nd.hi ==> occurs_in(ids@, #[trigger] o1[p], 0, ids@.len() as int);
    assert forall|p: int| nd.lo <= p < nd.hi implies occurs_in(
        ids@,
        #[trigger] o2[p],
        0,
        ids@.len() as int,
    ) by {
        assert(occurs_in(o1, o2[p], nd.lo as int, nd.hi as int));
        let q = choose|q: int| nd.lo <= q < nd.hi && o1[q] == o2[p];
        assert(occurs_in(ids@, o1[q], 0, ids@.len() as int));
    }
}

/// Sorts `order[lo..hi]` by the key of each primitive along `axis`.
fn sort_range(keys: &Vec<AxisKeys>, axis: Dim, order: &mut Vec<usize>, lo: usize, hi: usize)
    requires
        lo <= hi <= old(order).len(),
        is_permutation(old(order)@, keys.len() as nat),
    ensures
        is_permutation(final(order)@, keys.len() as nat),
        same_outside(old(order)@, final(order)@, lo as int, hi as int),
        same_contents(old(order)@, final(order)@, lo as int, hi as int),
        forall|a: int, b: int|
            lo <= a < b < hi ==> key_at(keys@, final(order)@, axis, a) <= key_at(
                keys@,
                final(order)@,
                axis,
                b,
            ),
{
    proof {
        lemma_same_contents_refl(order@, lo as int, hi as int);
    }
    if hi - lo < 2 {
        return ;
    }
    let mut i: usize = lo + 1;
    while i < hi
        invariant
            lo < i <= hi <= order.len(),
            is_permutation(order@, keys.len() as nat),
            same_outside(old(order)@, order@, lo as int, hi as int),
            same_contents(old(order)@, order@, lo as int, hi as int),
            forall|a: int, b: int|
                lo <= a < b < i ==> key_at(keys@, order@, axis, a) <= key_at(
                    keys@,
                    order@,
                    axis,
                    b,
                ),
        decreases hi - i,
    {
        let mut j: usize = i;
        while j > lo && keys[order[j - 1]].get(axis) > keys[order[j]].get(axis)
            invariant
                lo <= j <= i < hi <= order.len(),
                is_permutation(order@, keys.len() as nat),
                same_outside(old(order)@, order@, lo as int, hi as int),
                same_contents(old(order)@, order@, lo as int, hi as int),
                forall|a: int, b: int|
                    lo <= a < b <= i && a != j && b != j ==> key_at(keys@, order@, axis, a)
                        <= key_at(keys@, order@, axis, b),
                forall|b: int|
                    j < b <= i ==> key_at(keys@, order@, axis, j as int) <= key_at(
                        keys@,
                        order@,
                        axis,
                        b,
                    ),
            decreases j,
        {
            let ghost prev = order@;
            let t = order[j - 1];
            let u = order[j];
            order.set(j - 1, u);
            order.set(j, t);
            assert(order@ == prev.update(j - 1, u).update(j as int, t));
            proof {
                lemma_swap_permutation(prev, order@, j - 1, j as int, keys.len() as nat);
            }
            assert(key_at(keys@, order@, axis, j - 1) == key_at(keys@, prev, axis, j as int));
            assert(key_at(keys@, order@, axis, j as int) == key_at(keys@, prev, axis, j - 1));
            assert forall|a: int, b: int|
                lo <= a < b <= i && a != j - 1 && b != j - 1 implies key_at(keys@, order@, axis, a)
                <= key_at(keys@, order@, axis, b) by {
                if a == j {
                    assert(key_at(keys@, order@, axis, b) == key_at(keys@, prev, axis, b));
                    assert(key_at(keys@, prev, axis, j - 1) <= key_at(keys@, prev, axis, b));
                } else if b == j {
                    assert(key_at(keys@, order@, axis, a) == key_at(keys@, prev, axis, a));
                    assert(key_at(keys@, prev, axis, a) <= key_at(keys@, prev, axis, j - 1));
                } else {
                    assert(key_at(keys@, order@, axis, a) == key_at(keys@, prev, axis, a));
                    assert(key_at(keys@, order@, axis, b) == key_at(keys@, prev, axis, b));
                }
            }
            assert forall|b: int| j - 1 < b <= i implies key_at(keys@, order@, axis, j - 1)
                <= #[trigger] key_at(keys@, order@, axis, b) by {
                if b == j {
                } else {
                    assert(key_at(keys@, prev, axis, j as int) <= key_at(keys@, prev, axis, b));
                }
            }
            assert forall|q: int| 0 <= q < order@.len() && !(lo <= q < hi) implies order@[q]
                == old(order)@[q] by {
                assert(order@[q] == prev[q]);
            }
            assert(same_contents(old(order)@, order@, lo as int, hi as int)) by {
                assert forall|p: int| lo <= p < hi implies occurs_in(
                    old(order)@,
                    #[trigger] order@[p],
                    lo as int,
                    hi as int,
                ) by {
                    if p == j - 1 {
                        assert(occurs_in(old(order)@, prev[j as int], lo as int, hi as int));
                    } else if p == j {
                        assert(occurs_in(old(order)@, prev[j - 1], lo as int, hi as int));
                    } else {
                        assert(occurs_in(old(order)@, prev[p], lo as int, hi as int));
                    }
                }
            }
            assert forall|q: int| 0 <= q < order@.len() && !(lo <= q < hi) implies order@[q]
                == old(order)@[q] by {
                assert(order@[q] == prev[q]);
            }
            assert(same_contents(old(order)@, order@, lo as int, hi as int)) by {
                assert forall|p: int| #![trigger order@[p]] lo <= p < hi implies exists|q: int|
                    lo <= q < hi && order@[p] == #[trigger] old(order)@[q] by {
                    if p == j - 1 {
                        assert(order@[p] == prev[j as int]);
                    } else if p == j {
                        assert(order@[p] == prev[j - 1]);
                    } else {
                        assert(order@[p] == prev[p]);
                    }
                }
            }
            j = j - 1;
        }
        assert forall|a: int, b: int| lo <= a < b < i + 1 implies key_at(keys@, order@, axis, a)
            <= key_at(keys@, order@, axis, b) by {
            if b == j {
                if a < j - 1 {
                    assert(key_at(keys@, order@, axis, a) <= key_at(keys@, order@, axis, j - 1));
                }
            }
        }
        i = i + 1;
    }
}

/// Builds the nodes over `order[lo..hi]`, children first, and returns the
/// index of the node that covers the whole range.
fn build_range<F: Fn(&Vec<usize>) -> AxisKeys>(
    keys: &Vec<AxisKeys>,
    extent: &F,
    order: &mut Vec<usize>,
    nodes: &mut Vec<BvhNode>,
    lo: usize,
    hi: usize,
) -> (root: usize)
    requires
        lo < hi <= old(order).len(),
        old(order).len() == keys.len(),
        is_permutation(old(order)@, keys.len() as nat),
        forall|ids: &Vec<usize>| extent.requires((ids,)),
        old(nodes).len() + 2 * (hi - lo) <= usize::MAX,
        forall|i: int|
            0 <= i < old(nodes).len() ==> node_ok(keys@, old(order)@, old(nodes)@, i),
        forall|i: int|
            0 <= i < old(nodes).len() ==> (old(nodes)@[i].hi <= lo || hi <= old(nodes)@[i].lo),
        forall|i: int|
            0 <= i < old(nodes).len() ==> axis_from_extent(*extent, old(order)@, #[trigger] old(nodes)@[i]),
    ensures
        is_permutation(final(order)@, keys.len() as nat),
        same_outside(old(order)@, final(order)@, lo as int, hi as int),
        same_contents(old(order)@, final(order)@, lo as int, hi as int),
        old(nodes).len() < final(nodes).len() <= old(nodes).len() + 2 * (hi - lo) - 1,
        final(nodes)@.subrange(0, old(nodes).len() as int) == old(nodes)@,
        root == final(nodes).len() - 1,
        final(nodes)@[root as int].lo == lo,
        final(nodes)@[root as int].hi == hi,
        forall|i: int|
            0 <= i < final(nodes).len() ==> node_ok(keys@, final(order)@, final(nodes)@, i),
        forall|i: int|
            old(nodes).len() <= i < final(nodes).len() ==> lo <= final(nodes)@[i].lo
                && final(nodes)@[i].hi <= hi,
        forall|i: int|
            0 <= i < final(nodes).len() ==> axis_from_extent(*extent, final(order)@, #[trigger] final(nodes)@[i]),
    decreases hi - lo,
{
    let mut ids: Vec<usize> = Vec::new();
    let mut p: usize = lo;
    while p < hi
        invariant
            lo <= p <= hi <= order.len(),
            ids@ == order@.subrange(lo as int, p as int),
        decreases hi - p,
    {
        ids.push(order[p]);
        p = p + 1;
    }
    let spans = extent(&ids);
    let axis = longest_axis(&spans);
    let ghost here = BvhNode { lo, hi, axis, children: None };
    assert(axis_from_extent(*extent, order@, here)) by {
        assert forall|p: int| lo <= p < hi implies occurs_in(
            ids@,
            #[trigger] order@[p],
            0,
            ids@.len() as int,
        ) by {
            assert(ids@[p - lo] == order@[p]);
        }
    }
    let ghost n0 = nodes@;
    if hi - lo <= 2 {
        nodes.push(BvhNode { lo, hi, axis, children: None });
        proof {
            lemma_same_contents_refl(order@, lo as int, hi as int);
            assert(nodes@.subrange(0, n0.len() as int) == n0);
            assert forall|i: int| 0 <= i < nodes.len() implies node_ok(
                keys@,
                order@,
                nodes@,
                i,
            ) by {
                if i < n0.len() {
                    lemma_node_frame(keys@, order@, order@, n0, nodes@, i, 0, 0);
                }
            }
            assert forall|i: int| 0 <= i < nodes.len() implies axis_from_extent(
                *extent,
                order@,
                #[trigger] nodes@[i],
            ) by {
                if i < n0.len() {
                    assert(nodes@[i] == n0[i]);
                } else {
                    assert(nodes@[i].axis == here.axis);
                    assert(axis_from_extent(*extent, order@, nodes@[i]) == axis_from_extent(*extent, order@, here));
                }
            }
        }
        return nodes.len() - 1;
    }
    sort_range(keys, axis, order, lo, hi);
    let ghost o1 = order@;
    let mid = lo + (hi - lo) / 2;
    proof {
        assert(n0.subrange(0, n0.len() as int) =~= n0);
        assert forall|i: int| 0 <= i < n0.len() implies node_ok(keys@, order@, n0, i) by {
            lemma_node_frame(keys@, old(order)@, order@, n0, n0, i, lo as int, hi as int);
        }
        assert forall|i: int| 0 <= i < n0.len() implies axis_from_extent(
            *extent,
            order@,
            #[trigger] n0[i],
        ) by {
            assert(node_ok(keys@, old(order)@, n0, i));
            lemma_axis_frame(*extent, old(order)@, order@, n0[i], lo as int, hi as int);
        }
    }
    let left = build_range(keys, extent, order, nodes, mid, hi);
    let ghost o2 = order@;
    let ghost n1 = nodes@;
    proof {
        assert forall|i: int| 0 <= i < n1.len() implies (n1[i].hi <= lo || mid <= n1[i].lo) by {
            if i < n0.len() {
                assert(n1[i] == n0[i]);
            }
        }
    }
    let right = build_range(keys, extent, order, nodes, lo, mid);
    let ghost o3 = order@;
    let ghost n2 = nodes@;
    nodes.push(BvhNode { lo, hi, axis, children: Some((left, right)) });
    proof {
        lemma_same_contents_refl(o1, lo as int, mid as int);
        lemma_same_contents_refl(o2, mid as int, hi as int);
        assert(same_contents(o1, o3, lo as int, mid as int)) by {
            assert forall|p: int| lo <= p < mid implies occurs_in(o2, #[trigger] o1[p], lo as int, mid as int) by {
                assert(o2[p] == o1[p]);
                assert(o1[p] == o1[p]);
            }
            lemma_same_contents_trans(o1, o2, o3, lo as int, mid as int);
        }
        assert(same_contents(o1, o3, mid as int, hi as int)) by {
            assert forall|p: int| mid <= p < hi implies occurs_in(o2, #[trigger] o3[p], mid as int, hi as int) by {
                assert(o3[p] == o2[p]);
            }
            lemma_same_contents_trans(o1, o2, o3, mid as int, hi as int);
        }
        lemma_split_kept(keys@, o1, o3, axis, lo as int, mid as int, hi as int);
        lemma_same_contents_split(o1, o2, o3, lo as int, mid as int, hi as int);
        lemma_same_contents_trans(old(order)@, o1, o3, lo as int, hi as int);
        assert(nodes@.subrange(0, n2.len() as int) == n2);
        assert(n2[left as int] == n1[left as int]);
        assert forall|i: int| 0 <= i < nodes.len() implies node_ok(
            keys@,
            order@,
            nodes@,
            i,
        ) by {
            if i < n2.len() {
                lemma_node_frame(keys@, order@, order@, n2, nodes@, i, 0, 0);
            }
        }
        assert forall|i: int| n0.len() <= i < nodes.len() implies lo <= nodes@[i].lo
            && nodes@[i].hi <= hi by {
            if i < n1.len() {
                assert(nodes@[i] == n1[i]);
            } else if i < n2.len() {
                assert(nodes@[i] == n2[i]);
            }
        }
        assert(nodes@.subrange(0, n0.len() as int) =~= n0);
        let last = nodes@[nodes.len() - 1];
        assert(last.lo == here.lo && last.hi == here.hi && last.axis == here.axis);
        lemma_axis_contents(*extent, old(order)@, o3, here);
        assert forall|i: int| 0 <= i < nodes.len() implies axis_from_extent(
            *extent,
            order@,
            #[trigger] nodes@[i],
        ) by {
            if i < n2.len() {
                assert(nodes@[i] == n2[i]);
            } else {
                assert(axis_from_extent(*extent, order@, nodes@[i]) == axis_from_extent(*extent, order@, here));
            }
        }
    }
    nodes.len() - 1
}

impl Bvh {
    /// Builds the hierarchy over primitives `0..keys.len()`. `keys[p]` holds
    /// the keys of the lower corner of primitive `p`'s box; `extent(ids)`
    /// gives the keys of the spans of the box around the primitives `ids`,
    /// from which each node picks its split axis.
    pub fn new<F: Fn(&Vec<usize>) -> AxisKeys>(keys: &Vec<AxisKeys>, extent: &F) -> (t: Bvh)
        requires
            1 <= keys.len() <= usize::MAX / 4,
            forall|ids: &Vec<usize>| extent.requires((ids,)),
        ensures
            t.wf(keys@),
            forall|i: int|
                0 <= i < t.nodes.len() ==> axis_from_extent(*extent, t.order@, #[trigger] t.nodes@[i]),
    {
        let n = keys.len();
        let mut order: Vec<usize> = Vec::new();
        let mut i: usize = 0;
        while i < n
            invariant
                i <= n,
                order@.len() == i,
                forall|p: int| 0 <= p < i ==> order@[p] == p,
            decreases n - i,
        {
            order.push(i);
            i = i + 1;
        }
        let mut nodes: Vec<BvhNode> = Vec::new();
        assert forall|v: usize| v < n implies occurs_in(order@, v, 0, order@.len() as int) by {
            assert(order@[v as int] == v);
        }
        assert(is_permutation(order@, n as nat));
        let root = build_range(keys, extent, &mut order, &mut nodes, 0, n);
        let t = Bvh { order, nodes };
        assert(t.nodes@.last() == t.nodes@[root as int]);
        assert(is_permutation(t.order@, n as nat));
        assert forall|i: int| 0 <= i < t.nodes.len() implies node_shape(
            t.order.len() as nat,
            t.nodes@,
            i,
        ) by {
            assert(node_ok(keys@, t.order@, t.nodes@, i));
        }
        assert forall|i: int| 0 <= i < t.nodes.len() implies node_split(
            keys@,
            t.order@,
            t.nodes@,
            i,
        ) by {
            assert(node_ok(keys@, t.order@, t.nodes@, i));
        }
        t
    }
}

/// `hit` is a hit below `limit`.
pub open spec fn hits_below(hit: Option<u32>, limit: u32) -> bool {
    match hit {
        Some(key) => key < limit,
        None => false,
    }
}

/// A box test that no node covering position `k` can fail leaves the way
/// from node `i` down to `k` open.
proof fn lemma_unblocked<F: Fn(usize) -> bool>(t: &Bvh, box_hit: F, i: int, k: int)
    requires
        t.well_shaped(),
        0 <= i < t.nodes.len(),
        t.covers(i, k),
        forall|n: int|
            0 <= n < t.nodes.len() && #[trigger] t.covers(n, k) ==> !box_hit.ensures(
                (n as usize,),
                false,
            ),
    ensures
        t.unblocked(box_hit, i, k),
    decreases i,
{
    assert(node_shape(t.order.len() as nat, t.nodes@, i));
    match t.nodes@[i].children {
        None => {},
        Some((l, r)) => {
            if t.covers(l as int, k) {
                lemma_unblocked(t, box_hit, l as int, k);
            }
            if t.covers(r as int, k) {
                lemma_unblocked(t, box_hit, r as int, k);
            }
        },
    }
}

/// Searching through the hierarchy finds a hit as close as testing every
/// primitive in turn. Let `hit_key(p)` be the key of primitive `p`'s hit, if
/// any; let the box test never fail a node above a primitive that has a hit
/// below `limit`; let `found` be what `candidates` gives for that test; let
/// `linear` hold the hits of all primitives and `through_tree` those of the
/// primitives in `found`. Then the nearest hits of the two lists below
/// `limit` both exist or both do not, and have the same key.
pub proof fn lemma_bvh_matches_linear<F: Fn(usize) -> bool>(
    t: &Bvh,
    keys: Seq<AxisKeys>,
    box_hit: F,
    hit_key: spec_fn(usize) -> Option<u32>,
    limit: u32,
    found: Seq<usize>,
    linear: Seq<Hit>,
    through_tree: Seq<Hit>,
)
    requires
        t.wf(keys),
        forall|n: int, k: int|
            0 <= n < t.nodes.len() && 0 <= k < t.order.len() && #[trigger] t.covers(n, k)
                && hits_below(hit_key(t.order@[k]), limit) ==> !box_hit.ensures(
                (n as usize,),
                false,
            ),
        forall|j: int|
            0 <= j < found.len() ==> t.reached_prim(box_hit, t.nodes.len() - 1, #[trigger] found[j]),
        forall|k: int|
            0 <= k < t.order.len() && #[trigger] t.unblocked(box_hit, t.nodes.len() - 1, k)
                ==> found.contains(t.order@[k]),
        forall|h: Hit|
            #[trigger] linear.contains(h) <==> (h.prim < t.order.len() && hit_key(h.prim) == Some(
                h.key,
            )),
        forall|h: Hit|
            #[trigger] through_tree.contains(h) <==> (found.contains(h.prim) && hit_key(h.prim)
                == Some(h.key)),
    ensures
        nearest_spec(linear, limit) is Some <==> nearest_spec(through_tree, limit) is Some,
        nearest_spec(linear, limit) is Some ==> nearest_spec(linear, limit).unwrap().key
            == nearest_spec(through_tree, limit).unwrap().key,
{
    let root = t.nodes.len() - 1;
    assert forall|h: Hit| h.key < limit implies (linear.contains(h) <==> through_tree.contains(h)) by {
        if linear.contains(h) {
            assert(occurs_in(t.order@, h.prim, 0, t.order.len() as int));
            let k = choose|k: int| 0 <= k < t.order.len() && t.order@[k] == h.prim;
            assert(hits_below(hit_key(t.order@[k]), limit));
            lemma_unblocked(t, box_hit, root, k);
            assert(found.contains(t.order@[k]));
        }
        if through_tree.contains(h) {
            let j = choose|j: int| 0 <= j < found.len() && found[j] == h.prim;
            assert(t.reached_prim(box_hit, root, found[j]));
            let k = choose|k: int|
                0 <= k < t.order.len() && t.order@[k] == found[j] && t.reached(box_hit, root, k);
            assert(t.order@[k] < t.order.len());
        }
    }
    lemma_nearest_order_free(linear, through_tree, limit);
}

} // verus!
