//! A bounding-volume hierarchy over axis-aligned boxes with fixed-point
//! integer coordinates: construction under a surface-area-heuristic cost
//! model, in-place reordering of the caller's primitive storage, and
//! conservative ray/box traversal.

use vstd::multiset::Multiset;
use vstd::prelude::*;

pub mod aabb;
pub mod split;
pub mod triangle;
pub mod utility;

verus! {

use std::collections::VecDeque;

use crate::aabb::Aabb;
use crate::aabb::Aabound;
use crate::utility::apply_perm;
use crate::utility::is_permutation;
use crate::utility::sort_by_indices;
use crate::utility::Vec3;

/// A transient per-primitive snapshot taken at build time: the primitive's
/// original position, its box, and the box's centroid.
#[derive(Copy, Clone, Debug)]
pub struct BoundingData {
    pub idx: usize,
    pub bounds: Aabb,
    pub centroid: Vec3,
}

impl BoundingData {
    /// The record is usable by the builder: a well-formed box whose stored
    /// centroid is the box's own.
    pub open spec fn wf(self) -> bool {
        &&& self.bounds.valid()
        &&& crate::aabb::vec3_in_range(self.centroid)
        &&& self.centroid == self.bounds.centroid_spec()
    }

    /// Snapshots one primitive: its box, the box's centroid, and where the
    /// primitive currently sits in the caller's storage.
    pub fn from_prim<T: Aabound>(prim: &T, idx: usize) -> (r: BoundingData)
        requires
            prim.aabb_spec().valid(),
        ensures
            r.idx == idx,
            r.bounds == prim.aabb_spec(),
            r.wf(),
    {
        let bounds = prim.aabb();
        let centroid = bounds.centroid();
        BoundingData { idx, bounds, centroid }
    }
}

/// What a node is: a leaf owning its range outright, or an internal node
/// with two children, named by arena index.
#[derive(Copy, Clone, Debug)]
pub enum NodeKind {
    Leaf,
    Internal { left: usize, right: usize },
}

/// One node of the hierarchy. Every node records its box and the contiguous
/// range `[prim_idx, prim_idx + num_prim)` of the final primitive order it
/// covers; the kind says whether the range is owned directly or split
/// between two children.
#[derive(Copy, Clone, Debug)]
pub struct Node {
    pub bounds: Aabb,
    pub kind: NodeKind,
    pub prim_idx: usize,
    pub num_prim: usize,
}

impl Node {
    /// A fresh childless node covering `num_prim` records from `prim_idx`.
    pub fn new(bounds: Aabb, prim_idx: usize, num_prim: usize) -> (r: Node)
        ensures
            r.bounds == bounds,
            r.kind is Leaf,
            r.prim_idx == prim_idx,
            r.num_prim == num_prim,
    {
        Node { bounds, kind: NodeKind::Leaf, prim_idx, num_prim }
    }
}

/// The box of each final-order position: position `k` holds the box of the
/// primitive that `order[k]` names.
pub open spec fn boxes_from(order: Seq<usize>, b0: Seq<Aabb>) -> Seq<Aabb> {
    Seq::new(order.len(), |k: int| b0[order[k] as int])
}

/// The subtree rooted at `i` is well formed over `boxes`, the per-position
/// primitive boxes: children sit later in the arena, their ranges partition
/// the parent's range exactly, and every node's box is the merge of the
/// boxes its range covers.
pub open spec fn subtree_wf(nodes: Seq<Node>, i: int, boxes: Seq<Aabb>) -> bool
    decreases nodes.len() - i,
{
    if !(0 <= i < nodes.len()) {
        false
    } else {
        let nd = nodes[i];
        &&& nd.num_prim >= 1
        &&& nd.prim_idx + nd.num_prim <= boxes.len()
        &&& nd.bounds == crate::aabb::merge_seq(
            boxes.subrange(nd.prim_idx as int, nd.prim_idx + nd.num_prim),
        )
        &&& nd.bounds.valid()
        &&& match nd.kind {
            NodeKind::Leaf => true,
            NodeKind::Internal { left, right } => {
                if i < left && left < nodes.len() && i < right && right < nodes.len() {
                    &&& nodes[left as int].prim_idx == nd.prim_idx
                    &&& nodes[left as int].num_prim + nodes[right as int].num_prim
                        == nd.num_prim
                    &&& nodes[right as int].prim_idx == nd.prim_idx + nodes[
                        left as int
                    ].num_prim
                    &&& subtree_wf(nodes, left as int, boxes)
                    &&& subtree_wf(nodes, right as int, boxes)
                } else {
                    false
                }
            },
        }
    }
}

/// Well-formedness of a subtree only reads the arena at `i` and beyond and
/// the box positions it covers, so appending to either, or rewriting nodes
/// before `i`, preserves it.
proof fn lemma_subtree_wf_frame(
    nodes1: Seq<Node>,
    nodes2: Seq<Node>,
    i: int,
    boxes1: Seq<Aabb>,
    boxes2: Seq<Aabb>,
)
    requires
        subtree_wf(nodes1, i, boxes1),
        nodes1.len() <= nodes2.len(),
        forall|j: int| i <= j < nodes1.len() ==> nodes2[j] == nodes1[j],
        boxes1.len() <= boxes2.len(),
        forall|j: int| 0 <= j < boxes1.len() ==> boxes2[j] == boxes1[j],
    ensures
        subtree_wf(nodes2, i, boxes2),
    decreases nodes1.len() - i,
{
    let nd = nodes1[i];
    assert(boxes2.subrange(nd.prim_idx as int, nd.prim_idx + nd.num_prim) =~= boxes1.subrange(
        nd.prim_idx as int,
        nd.prim_idx + nd.num_prim,
    ));
    match nd.kind {
        NodeKind::Leaf => {},
        NodeKind::Internal { left, right } => {
            lemma_subtree_wf_frame(nodes1, nodes2, left as int, boxes1, boxes2);
            lemma_subtree_wf_frame(nodes1, nodes2, right as int, boxes1, boxes2);
        },
    }
}

/// Mapping a function over two sequences with the same multiset gives
/// sequences with the same multiset.
pub proof fn lemma_map_values_multiset<A, B>(s1: Seq<A>, s2: Seq<A>, f: spec_fn(A) -> B)
    requires
        s1.to_multiset() == s2.to_multiset(),
    ensures
        s1.map_values(f).to_multiset() == s2.map_values(f).to_multiset(),
    decreases s1.len(),
{
    s1.to_multiset_ensures();
    s2.to_multiset_ensures();
    s1.map_values(f).to_multiset_ensures();
    s2.map_values(f).to_multiset_ensures();
    if s1.len() == 0 {
        assert(s1.to_multiset() =~= Multiset::<A>::empty());
        assert(s2.to_multiset().len() == 0);
        assert(s2.len() == 0);
        assert(s1.map_values(f) =~= s2.map_values(f));
    } else {
        let x = s1.last();
        let d1 = s1.drop_last();
        d1.to_multiset_ensures();
        assert(s1 =~= d1.push(x));
        assert(d1.push(x).to_multiset() =~= d1.to_multiset().insert(x));
        assert(s2.to_multiset().count(x) > 0);
        assert(s2.contains(x));
        let j = choose|j: int| 0 <= j < s2.len() && s2[j] == x;
        let s2r = s2.remove(j);
        d1.to_multiset_ensures();
        s2r.to_multiset_ensures();
        assert(s2r.to_multiset() =~= s2.to_multiset().remove(x));
        assert(d1.to_multiset() =~= s1.to_multiset().remove(x)) by {
            assert(s1.remove(s1.len() - 1) =~= d1);
        }
        lemma_map_values_multiset(d1, s2r, f);
        assert(s1.map_values(f) =~= d1.map_values(f).push(f(x)));
        assert(s1.map_values(f).to_multiset() =~= d1.map_values(f).to_multiset().insert(f(x)))
            by {
            d1.map_values(f).to_multiset_ensures();
        }
        assert(s2.map_values(f).remove(j) =~= s2r.map_values(f));
        assert(s2r.map_values(f).to_multiset() =~= s2.map_values(f).to_multiset().remove(f(x)))
            by {
            assert(s2.map_values(f)[j] == f(x));
        }
        assert(s2.map_values(f).to_multiset().count(f(x)) > 0) by {
            assert(s2.map_values(f)[j] == f(x));
            assert(s2.map_values(f).contains(f(x)));
        }
        assert(s1.map_values(f).to_multiset() =~= s2.map_values(f).to_multiset());
    }
}


/// The hierarchy: a flat arena of nodes rooted at index 0, and (as ghost
/// state) the box of each position of the reordered primitive storage,
/// which the tree's ranges index into.
pub struct Bvh {
    pub nodes: Vec<Node>,
    pub prim_boxes: Ghost<Seq<Aabb>>,
}

impl Bvh {
    /// The whole structure is well formed: the root covers every primitive
    /// position exactly once, and each node's box merges its range.
    pub open spec fn wf(self) -> bool {
        &&& self.nodes@.len() >= 1
        &&& self.prim_boxes@.len() >= 1
        &&& self.prim_boxes@.len() <= usize::MAX
        &&& self.nodes@[0].prim_idx == 0
        &&& self.nodes@[0].num_prim == self.prim_boxes@.len()
        &&& subtree_wf(self.nodes@, 0, self.prim_boxes@)
    }
}

/// Appends the original indices of `prim_data[start..start + len)` to the
/// permutation under construction, in slice order.
fn push_slice_indices(
    prim_order: &mut Vec<usize>,
    prim_data: &Vec<BoundingData>,
    start: usize,
    len: usize,
)
    requires
        start + len <= prim_data@.len(),
    ensures
        final(prim_order)@ == old(prim_order)@ + prim_data@.subrange(
            start as int,
            (start + len) as int,
        ).map_values(|r: BoundingData| r.idx),
{
    let n = prim_data.len();
    let mut k: usize = 0;
    while k < len
        invariant
            k <= len,
            n == prim_data@.len(),
            start + len <= prim_data@.len(),
            prim_order@ == old(prim_order)@ + prim_data@.subrange(
                start as int,
                (start + k) as int,
            ).map_values(|r: BoundingData| r.idx),
        decreases len - k,
    {
        prim_order.push(prim_data[start + k].idx);
        proof {
            let f = |r: BoundingData| r.idx;
            assert(prim_data@.subrange(start as int, (start + k + 1) as int) =~= prim_data@
                .subrange(start as int, (start + k) as int).push(prim_data@[(start + k) as int]));
            assert(prim_data@.subrange(start as int, (start + k + 1) as int).map_values(f) =~=
                prim_data@.subrange(start as int, (start + k) as int).map_values(f).push(
                f(prim_data@[(start + k) as int])));
            assert(prim_order@ =~= old(prim_order)@ + prim_data@.subrange(
                start as int,
                (start + k + 1) as int,
            ).map_values(f));
        }
        k += 1;
    }
    proof {
        assert(prim_data@.subrange(start as int, (start + len) as int) == prim_data@.subrange(
            start as int,
            (start + len) as int,
        ));
    }
}

/// A childless node whose range holds exactly the slice's records, in slice
/// order, is a well-formed leaf subtree.
proof fn lemma_leaf_wf(
    nodes: Seq<Node>,
    node: int,
    order: Seq<usize>,
    b0: Seq<Aabb>,
    slice: Seq<BoundingData>,
    idx: int,
)
    requires
        0 <= node < nodes.len(),
        nodes[node].kind is Leaf,
        nodes[node].prim_idx == idx,
        0 <= idx,
        nodes[node].num_prim == slice.len(),
        slice.len() >= 1,
        order.len() == idx + slice.len(),
        forall|k: int| 0 <= k < slice.len() ==> order[idx + k] == (#[trigger] slice[k]).idx,
        forall|k: int|
            0 <= k < slice.len() ==> (#[trigger] slice[k]).idx < b0.len() && slice[k].bounds
                == b0[slice[k].idx as int],
        nodes[node].bounds == crate::aabb::merge_seq(crate::split::boxes_of(slice)),
        nodes[node].bounds.valid(),
    ensures
        subtree_wf(nodes, node, boxes_from(order, b0)),
{
    assert(boxes_from(order, b0).subrange(idx, idx + slice.len()) =~= crate::split::boxes_of(
        slice,
    ));
}


impl Bvh {
    /// Builds the subtree covering `prim_data[start..start + len)`: merges
    /// the slice's boxes into this node's box, then either finishes as a
    /// leaf (single record, coincident centroids, or a split the cost model
    /// declined) appending the records' original indices to `prim_order`,
    /// or partitions the slice and recurses into both halves. `idx` is the
    /// node's offset into the final primitive order; `b0` names each
    /// original primitive's box.
    #[verifier::rlimit(100)]
    pub fn construct_node(
        &mut self,
        idx: usize,
        prim_order: &mut Vec<usize>,
        prim_data: &mut Vec<BoundingData>,
        start: usize,
        len: usize,
        b0: Ghost<Seq<Aabb>>,
    ) -> (node: usize)
        requires
            1 <= len,
            start + len <= old(prim_data)@.len(),
            old(prim_data)@.len() <= u32::MAX,
            idx == old(prim_order)@.len(),
            idx + len <= usize::MAX,
            forall|k: int| start <= k < start + len ==> (#[trigger] old(prim_data)@[k]).wf(),
            forall|k: int|
                start <= k < start + len ==> (#[trigger] old(prim_data)@[k]).idx < b0@.len()
                    && old(prim_data)@[k].bounds == b0@[old(prim_data)@[k].idx as int],
        ensures
            node == old(self).nodes@.len(),
            final(self).nodes@.len() > node,
            final(self).nodes@.subrange(0, node as int) == old(self).nodes@,
            final(prim_order)@.len() == idx + len,
            final(prim_order)@ == old(prim_order)@ + final(prim_data)@.subrange(
                start as int,
                (start + len) as int,
            ).map_values(|r: BoundingData| r.idx),
            final(prim_data)@.len() == old(prim_data)@.len(),
            forall|j: int|
                (0 <= j < start || start + len <= j < old(prim_data)@.len()) ==> final(prim_data)@[j] == old(prim_data)@[j],
            final(prim_data)@.subrange(start as int, (start + len) as int).to_multiset() == old(prim_data)@.subrange(start as int, (start + len) as int).to_multiset(),
            forall|k: int|
                start <= k < start + len ==> (#[trigger] final(prim_data)@[k]).wf() && final(prim_data)@[k].idx < b0@.len() && final(prim_data)@[k].bounds == b0@[final(prim_data)@[k].idx as int],
            final(self).nodes@[node as int].prim_idx == idx,
            final(self).nodes@[node as int].num_prim == len,
            subtree_wf(final(self).nodes@, node as int, boxes_from(final(prim_order)@, b0@)),
            (forall|k: int|
                start <= k < start + len ==> (#[trigger] old(prim_data)@[k]).centroid == old(prim_data)@[start as int].centroid) ==> final(self).nodes@.len() == node + 1,
        decreases len,
    {
        let n_all = prim_data.len();
        let num_prim = len;
        let mut bounds = prim_data[start].bounds;
        proof {
            let sl = prim_data@.subrange(start as int, start as int + 1);
            assert(crate::split::boxes_of(sl).len() == 1);
            assert(crate::split::boxes_of(sl)[0] == prim_data@[start as int].bounds);
        }
        let mut q: usize = 1;
        while q < len
            invariant
                1 <= q <= len,
                n_all == prim_data@.len(),
                start + len <= prim_data@.len(),
                prim_data@ == old(prim_data)@,
                forall|k: int| start <= k < start + len ==> (#[trigger] prim_data@[k]).wf(),
                bounds == crate::aabb::merge_seq(
                    crate::split::boxes_of(
                        prim_data@.subrange(start as int, (start + q) as int),
                    ),
                ),
                bounds.valid(),
            decreases len - q,
        {
            bounds = Aabb::merge(bounds, prim_data[start + q].bounds);
            proof {
                let sl = prim_data@.subrange(start as int, (start + q) as int);
                let sl1 = prim_data@.subrange(start as int, (start + q + 1) as int);
                assert(sl1 =~= sl.push(prim_data@[(start + q) as int]));
                assert(crate::split::boxes_of(sl1) =~= crate::split::boxes_of(sl).push(
                    prim_data@[(start + q) as int].bounds,
                ));
                assert(crate::split::boxes_of(sl1).drop_last() =~= crate::split::boxes_of(sl));
            }
            q += 1;
        }
        let ghost slice0 = prim_data@.subrange(start as int, (start + len) as int);
        proof {
            assert(bounds == crate::aabb::merge_seq(crate::split::boxes_of(slice0)));
        }
        let node_idx = self.nodes.len();
        let ghost old_nodes = self.nodes@;
        self.nodes.push(Node::new(bounds, idx, num_prim));
        let ghost nodes1 = self.nodes@;
        proof {
            assert(nodes1.subrange(0, node_idx as int) =~= old_nodes);
        }

        if num_prim == 1 {
            prim_order.push(prim_data[start].idx);
            proof {
                let f = |r: BoundingData| r.idx;
                assert(prim_order@ =~= old(prim_order)@ + slice0.map_values(f));
                lemma_leaf_wf(
                    self.nodes@,
                    node_idx as int,
                    prim_order@,
                    b0@,
                    slice0,
                    idx as int,
                );
            }
            node_idx
        } else {
            let c0 = prim_data[start].centroid;
            let mut cb = Aabb::new(c0, c0);
            let ghost hyp = (forall|k: int|
                start <= k < start + len ==> (#[trigger] prim_data@[k]).centroid == prim_data@[
                    start as int
                ].centroid);
            let ghost mut wx: int = start as int;
            let ghost mut wy: int = start as int;
            let ghost mut wz: int = start as int;
            q = 1;
            while q < len
                invariant
                    1 <= q <= len,
                    n_all == prim_data@.len(),
                    start + len <= prim_data@.len(),
                    prim_data@ == old(prim_data)@,
                    forall|k: int| start <= k < start + len ==> (#[trigger] prim_data@[k]).wf(),
                    cb.valid(),
                    hyp == (forall|k: int|
                        start <= k < start + len ==> (#[trigger] prim_data@[k]).centroid
                            == prim_data@[start as int].centroid),
                    forall|a: int, k: int|
                        0 <= a < 3 && start <= k < start + q ==> cb.min.axis_spec(a) <= (
                        #[trigger] prim_data@[k].centroid.axis_spec(a)) <= cb.max.axis_spec(a),
                    start <= wx < start + q && prim_data@[wx].centroid.x == cb.max.x,
                    start <= wy < start + q && prim_data@[wy].centroid.y == cb.max.y,
                    start <= wz < start + q && prim_data@[wz].centroid.z == cb.max.z,
                    hyp ==> cb.min == prim_data@[start as int].centroid && cb.max == prim_data@[
                        start as int
                    ].centroid,
                decreases len - q,
            {
                let ck = prim_data[start + q].centroid;
                let pb = Aabb::new(ck, ck);
                let ghost cb_old = cb;
                cb = Aabb::merge(cb, pb);
                proof {
                    if ck.x >= cb_old.max.x {
                        wx = (start + q) as int;
                    }
                    if ck.y >= cb_old.max.y {
                        wy = (start + q) as int;
                    }
                    if ck.z >= cb_old.max.z {
                        wz = (start + q) as int;
                    }
                }
                q += 1;
            }
            let ext = cb.extent();
            let axis = crate::utility::max_axis(&ext);
            let e = ext.axis(axis);
            if e <= 0 {
                push_slice_indices(prim_order, prim_data, start, len);
                proof {
                    lemma_leaf_wf(
                        self.nodes@,
                        node_idx as int,
                        prim_order@,
                        b0@,
                        slice0,
                        idx as int,
                    );
                }
                node_idx
            } else {
                proof {
                    assert(!hyp) by {
                        if hyp {
                            assert(cb.min == cb.max);
                            assert(ext.axis_spec(axis as int) == 0);
                        }
                    }
                    assert(cb.max.axis_spec(axis as int) - cb.min.axis_spec(axis as int) > 0);
                    assert forall|k: int|
                        start <= k < start + len implies cb.min.axis_spec(axis as int)
                            <= crate::split::rec_key(#[trigger] prim_data@[k], axis as int)
                            <= cb.max.axis_spec(axis as int) by {
                        assert(cb.min.axis_spec(axis as int) <= prim_data@[k].centroid
                            .axis_spec(axis as int) <= cb.max.axis_spec(axis as int));
                    }
                    let w = if axis == 0 {
                        wx
                    } else if axis == 1 {
                        wy
                    } else {
                        wz
                    };
                    assert(crate::split::rec_key(prim_data@[w], axis as int)
                        == cb.max.axis_spec(axis as int));
                }
                let mid = crate::split::split(&bounds, &cb, axis, prim_data, start, len);
                proof {
                    assert forall|k: int| start <= k < start + len implies (
                    #[trigger] prim_data@[k]).wf() && prim_data@[k].idx < b0@.len()
                        && prim_data@[k].bounds == b0@[prim_data@[k].idx as int] by {
                        let ns = prim_data@.subrange(start as int, (start + len) as int);
                        crate::split::lemma_multiset_find(ns, slice0, k - start);
                        let j = choose|j: int| 0 <= j < slice0.len() && slice0[j] == ns[k
                            - start];
                        assert(slice0[j] == old(prim_data)@[start + j]);
                        assert(ns[k - start] == prim_data@[k]);
                    }
                }
                if mid != 0 {
                    let ghost data_s = prim_data@;
                    let l = self.construct_node(idx, prim_order, prim_data, start, mid, b0);
                    let ghost nodes_l = self.nodes@;
                    let ghost order_l = prim_order@;
                    let ghost data_l = prim_data@;
                    let r = self.construct_node(
                        idx + mid,
                        prim_order,
                        prim_data,
                        start + mid,
                        len - mid,
                        b0,
                    );
                    let ghost nodes_r = self.nodes@;
                    let ghost order_r = prim_order@;
                    let ghost data_r = prim_data@;
                    let nd = self.nodes[node_idx];
                    self.nodes[node_idx] = Node {
                        bounds: nd.bounds,
                        kind: NodeKind::Internal { left: l, right: r },
                        prim_idx: nd.prim_idx,
                        num_prim: nd.num_prim,
                    };
                    proof {
                        assert(self.nodes@ == nodes_r.update(
                            node_idx as int,
                            (Node {
                                bounds: bounds,
                                kind: NodeKind::Internal { left: l, right: r },
                                prim_idx: idx,
                                num_prim: len,
                            }),
                        ));
                        lemma_internal_assembly(
                            old_nodes,
                            nodes1,
                            nodes_l,
                            nodes_r,
                            self.nodes@,
                            node_idx,
                            l,
                            r,
                            old(prim_order)@,
                            order_l,
                            order_r,
                            b0@,
                            old(prim_data)@,
                            data_s,
                            data_l,
                            data_r,
                            idx,
                            start,
                            mid,
                            len,
                            bounds,
                        );
                    }
                    node_idx
                } else {
                    let ghost slice_s = prim_data@.subrange(start as int, (start + len) as int);
                    push_slice_indices(prim_order, prim_data, start, len);
                    proof {
                        let f = |r: BoundingData| r.bounds;
                        lemma_map_values_multiset(slice0, slice_s, f);
                        crate::aabb::lemma_merge_seq_permutation(
                            crate::split::boxes_of(slice0),
                            crate::split::boxes_of(slice_s),
                        );
                        lemma_leaf_wf(
                            self.nodes@,
                            node_idx as int,
                            prim_order@,
                            b0@,
                            slice_s,
                            idx as int,
                        );
                    }
                    node_idx
                }
            }
        }
    }
}


/// Assembles an internal node: given the facts the splitter and the two
/// child constructions guarantee, the finished arena is well formed at the
/// parent, the slice was only permuted, and the appended order is exactly
/// the final slice's original indices.
#[verifier::rlimit(100)]
proof fn lemma_internal_assembly(
    old_nodes: Seq<Node>,
    nodes1: Seq<Node>,
    nodes_l: Seq<Node>,
    nodes_r: Seq<Node>,
    nodes_fin: Seq<Node>,
    node_idx: usize,
    l: usize,
    r: usize,
    order0: Seq<usize>,
    order_l: Seq<usize>,
    order_r: Seq<usize>,
    b0: Seq<Aabb>,
    data0: Seq<BoundingData>,
    data_s: Seq<BoundingData>,
    data_l: Seq<BoundingData>,
    data_r: Seq<BoundingData>,
    idx: usize,
    start: usize,
    mid: usize,
    len: usize,
    bounds: Aabb,
)
    requires
        1 <= mid < len,
        start + len <= data0.len(),
        data_s.len() == data0.len(),
        data_l.len() == data0.len(),
        data_r.len() == data0.len(),
        idx == order0.len(),
        bounds == crate::aabb::merge_seq(
            crate::split::boxes_of(data0.subrange(start as int, (start + len) as int)),
        ),
        bounds.valid(),
        forall|j: int|
            (0 <= j < start || start + len <= j < data0.len()) ==> data_s[j] == data0[j],
        data_s.subrange(start as int, (start + len) as int).to_multiset() == data0.subrange(
            start as int,
            (start + len) as int,
        ).to_multiset(),
        forall|k: int|
            start <= k < start + len ==> (#[trigger] data_s[k]).wf() && data_s[k].idx
                < b0.len() && data_s[k].bounds == b0[data_s[k].idx as int],
        nodes1 == old_nodes.push(
            Node { bounds: bounds, kind: NodeKind::Leaf, prim_idx: idx, num_prim: len },
        ),
        node_idx == old_nodes.len(),
        l == nodes1.len(),
        nodes_l.len() > l,
        nodes_l.subrange(0, l as int) == nodes1,
        order_l.len() == idx + mid,
        order_l == order0 + data_l.subrange(start as int, (start + mid) as int).map_values(
            |rr: BoundingData| rr.idx,
        ),
        forall|j: int|
            (0 <= j < start || start + mid <= j < data0.len()) ==> data_l[j] == data_s[j],
        data_l.subrange(start as int, (start + mid) as int).to_multiset() == data_s.subrange(
            start as int,
            (start + mid) as int,
        ).to_multiset(),
        forall|k: int|
            start <= k < start + mid ==> (#[trigger] data_l[k]).wf() && data_l[k].idx
                < b0.len() && data_l[k].bounds == b0[data_l[k].idx as int],
        nodes_l[l as int].prim_idx == idx,
        nodes_l[l as int].num_prim == mid,
        subtree_wf(nodes_l, l as int, boxes_from(order_l, b0)),
        r == nodes_l.len(),
        nodes_r.len() > r,
        nodes_r.subrange(0, r as int) == nodes_l,
        order_r.len() == idx + len,
        order_r == order_l + data_r.subrange(
            (start + mid) as int,
            (start + len) as int,
        ).map_values(|rr: BoundingData| rr.idx),
        forall|j: int|
            (0 <= j < start + mid || start + len <= j < data0.len()) ==> data_r[j] == data_l[j],
        data_r.subrange((start + mid) as int, (start + len) as int).to_multiset()
            == data_l.subrange((start + mid) as int, (start + len) as int).to_multiset(),
        forall|k: int|
            start + mid <= k < start + len ==> (#[trigger] data_r[k]).wf() && data_r[k].idx
                < b0.len() && data_r[k].bounds == b0[data_r[k].idx as int],
        nodes_r[r as int].prim_idx == idx + mid,
        nodes_r[r as int].num_prim == len - mid,
        subtree_wf(nodes_r, r as int, boxes_from(order_r, b0)),
        nodes_fin == nodes_r.update(
            node_idx as int,
            (Node {
                bounds: bounds,
                kind: NodeKind::Internal { left: l, right: r },
                prim_idx: idx,
                num_prim: len,
            }),
        ),
    ensures
        nodes_fin.len() == nodes_r.len(),
        nodes_fin.subrange(0, node_idx as int) == old_nodes,
        order_r == order0 + data_r.subrange(start as int, (start + len) as int).map_values(
            |rr: BoundingData| rr.idx,
        ),
        data_r.subrange(start as int, (start + len) as int).to_multiset() == data0.subrange(
            start as int,
            (start + len) as int,
        ).to_multiset(),
        forall|j: int|
            (0 <= j < start || start + len <= j < data0.len()) ==> data_r[j] == data0[j],
        forall|k: int|
            start <= k < start + len ==> (#[trigger] data_r[k]).wf() && data_r[k].idx
                < b0.len() && data_r[k].bounds == b0[data_r[k].idx as int],
        nodes_fin[node_idx as int].prim_idx == idx,
        nodes_fin[node_idx as int].num_prim == len,
        subtree_wf(nodes_fin, node_idx as int, boxes_from(order_r, b0)),
{
    let f = |rr: BoundingData| rr.idx;
    let fb = |rr: BoundingData| rr.bounds;
    let slice0 = data0.subrange(start as int, (start + len) as int);
    let sl_fin = data_r.subrange(start as int, (start + len) as int);
    let s_a = data_s.subrange(start as int, (start + len) as int);
    let s_a_l = data_s.subrange(start as int, (start + mid) as int);
    let s_a_r = data_s.subrange((start + mid) as int, (start + len) as int);
    let s_b_l = data_l.subrange(start as int, (start + mid) as int);
    let s_b = data_l.subrange(start as int, (start + len) as int);
    let s_c_r = data_r.subrange((start + mid) as int, (start + len) as int);
    // the slice's records are only permuted: chain the multisets through
    // the split and both recursions
    assert(s_a =~= s_a_l + s_a_r);
    assert(s_b =~= s_b_l + s_a_r);
    vstd::seq_lib::lemma_multiset_commutative(s_a_l, s_a_r);
    vstd::seq_lib::lemma_multiset_commutative(s_b_l, s_a_r);
    assert(s_b.to_multiset() == s_a.to_multiset());
    assert(sl_fin =~= s_b_l + s_c_r);
    vstd::seq_lib::lemma_multiset_commutative(s_b_l, s_c_r);
    assert(data_l.subrange((start + mid) as int, (start + len) as int) =~= s_a_r);
    assert(s_c_r.to_multiset() == s_a_r.to_multiset());
    assert(sl_fin.to_multiset() == s_b.to_multiset());
    assert(sl_fin.to_multiset() == slice0.to_multiset());
    // every record still carries its original box
    assert forall|k: int| start <= k < start + len implies (#[trigger] data_r[k]).wf()
        && data_r[k].idx < b0.len() && data_r[k].bounds == b0[data_r[k].idx as int] by {
        if k < start + mid {
            assert(data_r[k] == data_l[k]);
        }
    }
    // the appended order is the final slice's indices
    assert(order_r =~= order0 + sl_fin.map_values(f)) by {
        assert(sl_fin.map_values(f) =~= s_b_l.map_values(f) + s_c_r.map_values(f));
    }
    // the node's box, computed before partitioning, is the merge of the
    // reordered slice's boxes
    lemma_map_values_multiset(slice0, sl_fin, fb);
    crate::aabb::lemma_merge_seq_permutation(
        crate::split::boxes_of(slice0),
        crate::split::boxes_of(sl_fin),
    );
    assert(bounds == crate::aabb::merge_seq(crate::split::boxes_of(sl_fin)));
    // carry both children into the final arena and order
    let boxes_l = boxes_from(order_l, b0);
    let boxes_fin = boxes_from(order_r, b0);
    assert forall|j: int| l as int <= j < nodes_l.len() implies nodes_fin[j] == nodes_l[j] by {
        assert(nodes_r[j] == nodes_r.subrange(0, r as int)[j]);
    }
    assert forall|j: int| 0 <= j < boxes_l.len() implies boxes_fin[j] == boxes_l[j] by {
        assert(order_r[j] == (order_l + data_r.subrange(
            (start + mid) as int,
            (start + len) as int,
        ).map_values(f))[j]);
    }
    lemma_subtree_wf_frame(nodes_l, nodes_fin, l as int, boxes_l, boxes_fin);
    assert forall|j: int| r as int <= j < nodes_r.len() implies nodes_fin[j] == nodes_r[j] by {}
    lemma_subtree_wf_frame(nodes_r, nodes_fin, r as int, boxes_fin, boxes_fin);
    // the parent's range is its children's, end to end
    assert(boxes_fin.subrange(idx as int, idx as int + len as int) =~= crate::split::boxes_of(
        sl_fin,
    )) by {
        assert forall|k: int| 0 <= k < len implies boxes_fin[idx + k] == sl_fin[k].bounds by {
            assert(order_r[idx + k] == (order0 + sl_fin.map_values(f))[idx + k]);
            assert(order_r[idx + k] == f(sl_fin[k]));
        }
    }
    assert(nodes_fin[l as int] == nodes_l[l as int]);
    assert(nodes_fin[r as int] == nodes_r[r as int]);
    assert(subtree_wf(nodes_fin, node_idx as int, boxes_fin));
    assert(nodes_fin.subrange(0, node_idx as int) =~= old_nodes) by {
        assert forall|j: int| 0 <= j < node_idx implies nodes_fin[j] == old_nodes[j] by {
            assert(nodes_r[j] == nodes_r.subrange(0, r as int)[j]);
            assert(nodes_l[j] == nodes_l.subrange(0, l as int)[j]);
            assert(nodes1[j] == old_nodes.push(
                Node { bounds: bounds, kind: NodeKind::Leaf, prim_idx: idx, num_prim: len },
            )[j]);
        }
    }
}


/// Why construction can fail.
#[derive(Copy, Clone, Debug, PartialEq, Eq, Structural)]
pub enum BuildError {
    /// Construction over an empty primitive collection is rejected
    /// outright: there is no box to put at the root.
    Empty,
}

impl Bvh {
    /// Builds a hierarchy over the primitives and reorders them in place so
    /// that every leaf's range is a contiguous run of the collection. On
    /// success the returned tree is well formed over the boxes of the
    /// reordered primitives, which are a permutation of the originals; an
    /// empty collection is rejected with an error and left untouched.
    pub fn new<T: Aabound + Copy>(primitives: &mut Vec<T>) -> (res: Result<Bvh, BuildError>)
        requires
            old(primitives)@.len() <= u32::MAX,
            forall|i: int|
                0 <= i < old(primitives)@.len() ==> (#[trigger] old(primitives)@[i]).aabb_spec()
                    .valid(),
        ensures
            res is Err <==> old(primitives)@.len() == 0,
            res is Err ==> final(primitives)@ == old(primitives)@,
            res is Ok ==> ({
                let bvh = res->Ok_0;
                &&& bvh.wf()
                &&& bvh.prim_boxes@.len() == old(primitives)@.len()
                &&& final(primitives)@.len() == old(primitives)@.len()
                &&& (forall|k: int|
                    0 <= k < final(primitives)@.len() ==> (
                    #[trigger] final(primitives)@[k]).aabb_spec() == bvh.prim_boxes@[k])
                &&& final(primitives)@.to_multiset() == old(primitives)@.to_multiset()
                &&& (exists|q: Seq<usize>|
                    is_permutation(q) && final(primitives)@ == apply_perm(
                        old(primitives)@,
                        q,
                    ))
                &&& ((forall|i: int, j: int|
                    0 <= i < old(primitives)@.len() && 0 <= j < old(primitives)@.len() ==> (
                    #[trigger] old(primitives)@[i].aabb_spec().centroid_spec()) == (
                    #[trigger] old(primitives)@[j].aabb_spec().centroid_spec()))
                    ==> bvh.nodes@.len() == 1)
            }),
    {
        let n = primitives.len();
        if n == 0 {
            return Err(BuildError::Empty);
        }
        let ghost p0 = primitives@;
        let ghost b0 = Seq::new(n as nat, |i: int| p0[i].aabb_spec());
        let mut prim_data: Vec<BoundingData> = Vec::new();
        let mut i: usize = 0;
        while i < n
            invariant
                n == primitives@.len(),
                primitives@ == p0,
                b0 == Seq::new(n as nat, |ii: int| p0[ii].aabb_spec()),
                n <= u32::MAX,
                forall|ii: int| 0 <= ii < n ==> (#[trigger] p0[ii]).aabb_spec().valid(),
                i <= n,
                prim_data@.len() == i,
                forall|k: int|
                    0 <= k < i ==> (#[trigger] prim_data@[k]).idx == k && prim_data@[k].bounds
                        == b0[k] && prim_data@[k].wf(),
            decreases n - i,
        {
            let bd = BoundingData::from_prim(&primitives[i], i);
            prim_data.push(bd);
            i += 1;
        }
        let ghost data0 = prim_data@;
        let mut order: Vec<usize> = Vec::new();
        let mut bvh = Bvh { nodes: Vec::new(), prim_boxes: Ghost(Seq::empty()) };
        let root = bvh.construct_node(0, &mut order, &mut prim_data, 0, n, Ghost(b0));
        let ghost orderv = order@;
        proof {
            let f = |rr: BoundingData| rr.idx;
            let data_fin = prim_data@.subrange(0, n as int);
            let ident = Seq::new(n as nat, |k: int| k as usize);
            assert(data0.subrange(0, n as int) =~= data0);
            assert(orderv =~= data_fin.map_values(f));
            lemma_map_values_multiset(data_fin, data0, f);
            assert(data0.map_values(f) =~= ident);
            assert(orderv.to_multiset() == ident.to_multiset());
            assert(ident.no_duplicates());
            ident.lemma_multiset_has_no_duplicates();
            ident.to_multiset_ensures();
            orderv.to_multiset_ensures();
            orderv.lemma_multiset_has_no_duplicates_conv();
            assert forall|k: int| 0 <= k < orderv.len() implies (#[trigger] orderv[k]) < orderv
                .len() by {
                assert(orderv[k] == data_fin[k].idx);
            }
            assert(is_permutation(orderv));
        }
        sort_by_indices(primitives, order);
        bvh.prim_boxes = Ghost(boxes_from(orderv, b0));
        proof {
            let ident2 = Seq::new(n as nat, |k: int| k as usize);
            assert(orderv.to_multiset() == ident2.to_multiset());
            assert(subtree_wf(bvh.nodes@, 0, bvh.prim_boxes@));
            assert forall|k: int| 0 <= k < primitives@.len() implies (
            #[trigger] primitives@[k]).aabb_spec() == bvh.prim_boxes@[k] by {
                assert(primitives@[k] == p0[orderv[k] as int]);
            }
            assert(primitives@ == apply_perm(p0, orderv));
            let fp = |i: usize| p0[i as int];
            assert(primitives@ =~= orderv.map_values(fp));
            lemma_map_values_multiset(orderv, ident2, fp);
            assert(ident2.map_values(fp) =~= p0);
            assert(primitives@.to_multiset() == p0.to_multiset());
            if forall|i2: int, j2: int|
                0 <= i2 < p0.len() && 0 <= j2 < p0.len() ==> (#[trigger] p0[i2].aabb_spec()
                    .centroid_spec()) == (#[trigger] p0[j2].aabb_spec().centroid_spec()) {
                assert forall|k: int| 0 <= k < n implies (#[trigger] data0[k]).centroid
                    == data0[0].centroid by {
                    assert(p0[k].aabb_spec().centroid_spec() == p0[0].aabb_spec()
                        .centroid_spec());
                    assert(data0[k].centroid == data0[k].bounds.centroid_spec());
                }
                assert(bvh.nodes@.len() == 1);
            }
        }
        Ok(bvh)
    }
}


/// How many nodes a full walk of the subtree rooted at `i` visits.
pub open spec fn subtree_size(nodes: Seq<Node>, i: int) -> nat
    decreases nodes.len() - i,
{
    if !(0 <= i < nodes.len()) {
        1
    } else {
        match nodes[i].kind {
            NodeKind::Leaf => 1,
            NodeKind::Internal { left, right } => {
                if i < left && left < nodes.len() && i < right && right < nodes.len() {
                    1 + subtree_size(nodes, left as int) + subtree_size(nodes, right as int)
                } else {
                    1
                }
            },
        }
    }
}

/// The total work left in a worklist of subtree roots.
pub open spec fn sizes_sum(nodes: Seq<Node>, q: Seq<usize>) -> nat
    decreases q.len(),
{
    if q.len() == 0 {
        0
    } else {
        subtree_size(nodes, q[0] as int) + sizes_sum(nodes, q.drop_first())
    }
}

proof fn lemma_sizes_sum_push(nodes: Seq<Node>, q: Seq<usize>, x: usize)
    ensures
        sizes_sum(nodes, q.push(x)) == sizes_sum(nodes, q) + subtree_size(nodes, x as int),
    decreases q.len(),
{
    if q.len() == 0 {
        assert(q.push(x).drop_first() =~= Seq::<usize>::empty());
        assert(q.push(x)[0] == x);
        assert(sizes_sum(nodes, q.push(x).drop_first()) == 0);
        assert(sizes_sum(nodes, q) == 0);
    } else {
        assert(q.push(x).drop_first() =~= q.drop_first().push(x));
        lemma_sizes_sum_push(nodes, q.drop_first(), x);
        assert(q.push(x)[0] == q[0]);
        assert(sizes_sum(nodes, q.push(x)) == subtree_size(nodes, q[0] as int) + sizes_sum(
            nodes,
            q.drop_first().push(x),
        ));
    }
}

/// Node `i` covers primitive position `p`.
pub open spec fn node_covers(nodes: Seq<Node>, i: usize, p: int) -> bool {
    &&& (i as int) < nodes.len()
    &&& nodes[i as int].prim_idx <= p < nodes[i as int].prim_idx + nodes[i as int].num_prim
}

impl Bvh {
    /// Walks the tree against the ray with an explicit worklist, pruning
    /// every subtree whose box the ray misses, and returns the `[start,
    /// end)` primitive ranges of the leaves reached, in visitation order —
    /// not sorted along the ray. Each returned range is non-empty, lies
    /// within the primitive storage, and its merged box is hit; and every
    /// primitive whose own box the ray hits appears in some returned range,
    /// so pruning loses no candidate.
    pub fn traverse(&self, ray: &crate::utility::Ray) -> (res: Vec<(usize, usize)>)
        requires
            self.wf(),
        ensures
            forall|t: int|
                0 <= t < res@.len() ==> {
                    let rg = #[trigger] res@[t];
                    rg.0 < rg.1 && rg.1 <= self.prim_boxes@.len() && crate::aabb::hits(
                        crate::aabb::merge_seq(
                            self.prim_boxes@.subrange(rg.0 as int, rg.1 as int),
                        ),
                        *ray,
                    ) && (exists|i: int|
                        0 <= i < self.nodes@.len() && (#[trigger] self.nodes@[i]).kind is Leaf
                            && self.nodes@[i].prim_idx == rg.0 && self.nodes@[i].prim_idx
                            + self.nodes@[i].num_prim == rg.1)
                },
            forall|p: int|
                0 <= p < self.prim_boxes@.len() && crate::aabb::hits(
                    #[trigger] self.prim_boxes@[p],
                    *ray,
                ) ==> exists|t: int|
                    0 <= t < res@.len() && (#[trigger] res@[t]).0 <= p < res@[t].1,
    {
        let ghost boxes = self.prim_boxes@;
        let mut ranges: Vec<(usize, usize)> = Vec::new();
        let mut node_stack: VecDeque<usize> = VecDeque::new();
        node_stack.push_back(0);
        proof {
            assert(node_stack@[0] == 0usize);
            assert forall|p: int|
                0 <= p < boxes.len() && crate::aabb::hits(#[trigger] boxes[p], *ray)
                    implies node_covers(self.nodes@, node_stack@[0], p) by {}
        }
        while node_stack.len() > 0
            invariant
                self.wf(),
                boxes == self.prim_boxes@,
                forall|t: int|
                    0 <= t < node_stack@.len() ==> subtree_wf(
                        self.nodes@,
                        (#[trigger] node_stack@[t]) as int,
                        boxes,
                    ),
                forall|t: int|
                    0 <= t < ranges@.len() ==> {
                        let rg = #[trigger] ranges@[t];
                        rg.0 < rg.1 && rg.1 <= boxes.len() && crate::aabb::hits(
                            crate::aabb::merge_seq(boxes.subrange(rg.0 as int, rg.1 as int)),
                            *ray,
                        ) && (exists|i: int|
                            0 <= i < self.nodes@.len() && (#[trigger] self.nodes@[i]).kind
                                is Leaf && self.nodes@[i].prim_idx == rg.0
                                && self.nodes@[i].prim_idx + self.nodes@[i].num_prim == rg.1)
                    },
                forall|p: int|
                    0 <= p < boxes.len() && crate::aabb::hits(#[trigger] boxes[p], *ray) ==> (
                    exists|t: int|
                        0 <= t < ranges@.len() && (#[trigger] ranges@[t]).0 <= p < ranges@[
                            t
                        ].1) || (exists|t: int|
                        0 <= t < node_stack@.len() && node_covers(
                            self.nodes@,
                            #[trigger] node_stack@[t],
                            p,
                        )),
            decreases sizes_sum(self.nodes@, node_stack@),
        {
            let ghost q0 = node_stack@;
            let idx_opt = node_stack.pop_front();
            let idx = idx_opt.unwrap();
            proof {
                assert(subtree_wf(self.nodes@, q0[0] as int, boxes));
            }
            let node = self.nodes[idx];
            let ghost a = node.prim_idx as int;
            let ghost b = node.prim_idx as int + node.num_prim as int;
            if node.bounds.does_int(ray) {
                match node.kind {
                    NodeKind::Internal { left, right } => {
                        node_stack.push_back(left);
                        node_stack.push_back(right);
                        proof {
                            let q2 = node_stack@;
                            assert(q2 =~= q0.drop_first().push(left).push(right));
                            lemma_sizes_sum_push(self.nodes@, q0.drop_first(), left);
                            lemma_sizes_sum_push(
                                self.nodes@,
                                q0.drop_first().push(left),
                                right,
                            );
                            assert(subtree_size(self.nodes@, idx as int) == 1 + subtree_size(
                                self.nodes@,
                                left as int,
                            ) + subtree_size(self.nodes@, right as int));
                            assert forall|t: int| 0 <= t < q2.len() implies subtree_wf(
                                self.nodes@,
                                (#[trigger] q2[t]) as int,
                                boxes,
                            ) by {
                                if t < q0.len() - 1 {
                                    assert(q2[t] == q0[t + 1]);
                                }
                            }
                            assert forall|p: int|
                                0 <= p < boxes.len() && crate::aabb::hits(
                                    #[trigger] boxes[p],
                                    *ray,
                                ) implies (exists|t: int|
                                0 <= t < ranges@.len() && (#[trigger] ranges@[t]).0 <= p
                                    < ranges@[t].1) || (exists|t: int|
                                0 <= t < q2.len() && node_covers(
                                    self.nodes@,
                                    #[trigger] q2[t],
                                    p,
                                )) by {
                                if !(exists|t: int|
                                    0 <= t < ranges@.len() && (#[trigger] ranges@[t]).0 <= p
                                        < ranges@[t].1) {
                                    let t0 = choose|t: int|
                                        0 <= t < q0.len() && node_covers(
                                            self.nodes@,
                                            #[trigger] q0[t],
                                            p,
                                        );
                                    if t0 == 0 {
                                        if p < self.nodes@[left as int].prim_idx
                                            + self.nodes@[left as int].num_prim {
                                            assert(node_covers(
                                                self.nodes@,
                                                q2[q2.len() - 2],
                                                p,
                                            ));
                                        } else {
                                            assert(node_covers(
                                                self.nodes@,
                                                q2[q2.len() - 1],
                                                p,
                                            ));
                                        }
                                    } else {
                                        assert(q2[t0 - 1] == q0[t0]);
                                        assert(node_covers(self.nodes@, q2[t0 - 1], p));
                                    }
                                }
                            }
                        }
                    },
                    NodeKind::Leaf => {
                        let ghost r_old = ranges@;
                        ranges.push((node.prim_idx, node.prim_idx + node.num_prim));
                        proof {
                            let q2 = node_stack@;
                            assert(q2 =~= q0.drop_first());
                            assert((#[trigger] self.nodes@[idx as int]).kind is Leaf
                                && self.nodes@[idx as int].prim_idx == node.prim_idx
                                && self.nodes@[idx as int].prim_idx + self.nodes@[
                                idx as int
                            ].num_prim == node.prim_idx + node.num_prim);
                            assert forall|p: int|
                                0 <= p < boxes.len() && crate::aabb::hits(
                                    #[trigger] boxes[p],
                                    *ray,
                                ) implies (exists|t: int|
                                0 <= t < ranges@.len() && (#[trigger] ranges@[t]).0 <= p
                                    < ranges@[t].1) || (exists|t: int|
                                0 <= t < q2.len() && node_covers(
                                    self.nodes@,
                                    #[trigger] q2[t],
                                    p,
                                )) by {
                                if exists|t: int|
                                    0 <= t < r_old.len() && (#[trigger] r_old[t]).0 <= p
                                        < r_old[t].1 {
                                    let t1 = choose|t: int|
                                        0 <= t < r_old.len() && (#[trigger] r_old[t]).0 <= p
                                            < r_old[t].1;
                                    assert(ranges@[t1] == r_old[t1]);
                                    assert(ranges@[t1].0 <= p < ranges@[t1].1);
                                } else {
                                    let t0 = choose|t: int|
                                        0 <= t < q0.len() && node_covers(
                                            self.nodes@,
                                            #[trigger] q0[t],
                                            p,
                                        );
                                    if t0 == 0 {
                                        assert(ranges@[ranges@.len() - 1].0 <= p < ranges@[
                                            ranges@.len() - 1
                                        ].1);
                                    } else {
                                        assert(q2[t0 - 1] == q0[t0]);
                                        assert(node_covers(self.nodes@, q2[t0 - 1], p));
                                    }
                                }
                            }
                            assert forall|t: int| 0 <= t < q2.len() implies subtree_wf(
                                self.nodes@,
                                (#[trigger] q2[t]) as int,
                                boxes,
                            ) by {
                                assert(q2[t] == q0[t + 1]);
                            }
                        }
                    },
                }
            } else {
                proof {
                    let q2 = node_stack@;
                    assert(q2 =~= q0.drop_first());
                    // a missed box prunes its whole range: no primitive
                    // under it can be hit, since each one's box lies inside
                    assert forall|p: int| a <= p < b implies !crate::aabb::hits(
                        boxes[p],
                        *ray,
                    ) by {
                        if crate::aabb::hits(boxes[p], *ray) {
                            crate::aabb::lemma_merge_seq_contains(
                                boxes.subrange(a, b),
                                p - a,
                            );
                            crate::aabb::lemma_hits_monotone(node.bounds, boxes[p], *ray);
                        }
                    }
                    assert forall|p: int|
                        0 <= p < boxes.len() && crate::aabb::hits(
                            #[trigger] boxes[p],
                            *ray,
                        ) implies (exists|t: int|
                        0 <= t < ranges@.len() && (#[trigger] ranges@[t]).0 <= p < ranges@[
                            t
                        ].1) || (exists|t: int|
                        0 <= t < q2.len() && node_covers(self.nodes@, #[trigger] q2[t], p))
                        by {
                        if !(exists|t: int|
                            0 <= t < ranges@.len() && (#[trigger] ranges@[t]).0 <= p
                                < ranges@[t].1) {
                            let t0 = choose|t: int|
                                0 <= t < q0.len() && node_covers(
                                    self.nodes@,
                                    #[trigger] q0[t],
                                    p,
                                );
                            assert(t0 != 0);
                            assert(q2[t0 - 1] == q0[t0]);
                            assert(node_covers(self.nodes@, q2[t0 - 1], p));
                        }
                    }
                    assert forall|t: int| 0 <= t < q2.len() implies subtree_wf(
                        self.nodes@,
                        (#[trigger] q2[t]) as int,
                        boxes,
                    ) by {
                        assert(q2[t] == q0[t + 1]);
                    }
                }
            }
        }
        ranges
    }
}


/// A well-formed internal node's children are themselves well-formed
/// subtrees.
pub proof fn lemma_subtree_wf_children(nodes: Seq<Node>, i: int, boxes: Seq<Aabb>)
    requires
        subtree_wf(nodes, i, boxes),
        nodes[i].kind matches NodeKind::Internal { left, right },
    ensures
        nodes[i].kind matches NodeKind::Internal { left, right } ==> subtree_wf(
            nodes,
            left as int,
            boxes,
        ) && subtree_wf(nodes, right as int, boxes),
{
}

/// Every node's box is the merge of its range's primitive boxes; for an
/// internal node that is exactly the merge of its two children's boxes.
pub proof fn lemma_node_box(nodes: Seq<Node>, i: int, boxes: Seq<Aabb>)
    requires
        subtree_wf(nodes, i, boxes),
    ensures
        nodes[i].bounds == crate::aabb::merge_seq(
            boxes.subrange(
                nodes[i].prim_idx as int,
                nodes[i].prim_idx + nodes[i].num_prim,
            ),
        ),
        nodes[i].kind matches NodeKind::Internal { left, right } ==> nodes[i].bounds
            == crate::aabb::merge_spec(
            nodes[left as int].bounds,
            nodes[right as int].bounds,
        ),
{
    match nodes[i].kind {
        NodeKind::Leaf => {},
        NodeKind::Internal { left, right } => {
            let nd = nodes[i];
            let nl = nodes[left as int];
            let nr = nodes[right as int];
            let a = nd.prim_idx as int;
            let m = a + nl.num_prim;
            let b = a + nd.num_prim;
            assert(subtree_wf(nodes, left as int, boxes));
            assert(subtree_wf(nodes, right as int, boxes));
            assert(nl.num_prim >= 1 && nl.bounds == crate::aabb::merge_seq(
                boxes.subrange(a, m),
            ));
            assert(nr.num_prim >= 1 && nr.bounds == crate::aabb::merge_seq(
                boxes.subrange(m, b),
            ));
            assert(boxes.subrange(a, b) =~= boxes.subrange(a, m) + boxes.subrange(m, b));
            crate::aabb::lemma_merge_seq_concat(boxes.subrange(a, m), boxes.subrange(m, b));
        },
    }
}

/// The leaf ranges of the subtree rooted at `i`, in left-to-right order.
pub open spec fn leaf_ranges(nodes: Seq<Node>, i: int) -> Seq<(int, int)>
    decreases nodes.len() - i,
{
    if !(0 <= i < nodes.len()) {
        Seq::empty()
    } else {
        match nodes[i].kind {
            NodeKind::Leaf => seq![
                (nodes[i].prim_idx as int, nodes[i].prim_idx + nodes[i].num_prim as int),
            ],
            NodeKind::Internal { left, right } => {
                if i < left && left < nodes.len() && i < right && right < nodes.len() {
                    leaf_ranges(nodes, left as int) + leaf_ranges(nodes, right as int)
                } else {
                    Seq::empty()
                }
            },
        }
    }
}

/// A well-formed subtree's leaf ranges tile its range exactly: the first
/// starts at the node's offset, each ends where the next begins, every one
/// is non-empty, and the last ends at the node's offset plus its count —
/// no gaps, no overlaps, and the counts sum to the node's.
pub proof fn lemma_leaves_partition(nodes: Seq<Node>, i: int, boxes: Seq<Aabb>)
    requires
        subtree_wf(nodes, i, boxes),
    ensures
        leaf_ranges(nodes, i).len() >= 1,
        leaf_ranges(nodes, i)[0].0 == nodes[i].prim_idx,
        leaf_ranges(nodes, i)[leaf_ranges(nodes, i).len() - 1].1 == nodes[i].prim_idx
            + nodes[i].num_prim,
        forall|t: int|
            0 <= t < leaf_ranges(nodes, i).len() ==> (#[trigger] leaf_ranges(nodes, i)[t]).0
                < leaf_ranges(nodes, i)[t].1,
        forall|t: int|
            0 <= t < leaf_ranges(nodes, i).len() - 1 ==> (#[trigger] leaf_ranges(nodes, i)[
                t
            ]).1 == leaf_ranges(nodes, i)[t + 1].0,
    decreases nodes.len() - i,
{
    match nodes[i].kind {
        NodeKind::Leaf => {},
        NodeKind::Internal { left, right } => {
            lemma_leaves_partition(nodes, left as int, boxes);
            lemma_leaves_partition(nodes, right as int, boxes);
            let rl = leaf_ranges(nodes, left as int);
            let rr = leaf_ranges(nodes, right as int);
            let rs = leaf_ranges(nodes, i);
            assert(rs == rl + rr);
            assert(rs[0] == rl[0]);
            assert(rs[rs.len() - 1] == rr[rr.len() - 1]);
            assert forall|t: int| 0 <= t < rs.len() implies (#[trigger] rs[t]).0 < rs[t].1 by {
                if t < rl.len() {
                    assert(rs[t] == rl[t]);
                } else {
                    assert(rs[t] == rr[t - rl.len()]);
                }
            }
            assert forall|t: int| 0 <= t < rs.len() - 1 implies (#[trigger] rs[t]).1 == rs[t
                + 1].0 by {
                if t + 1 < rl.len() {
                    assert(rs[t] == rl[t] && rs[t + 1] == rl[t + 1]);
                } else if t + 1 == rl.len() {
                    assert(rs[t] == rl[t] && rs[t + 1] == rr[0]);
                    assert(rl[rl.len() - 1].1 == nodes[left as int].prim_idx + nodes[
                        left as int
                    ].num_prim);
                    assert(rr[0].0 == nodes[right as int].prim_idx);
                } else {
                    assert(rs[t] == rr[t - rl.len()] && rs[t + 1] == rr[t + 1 - rl.len()]);
                }
            }
        },
    }
}

/// Whole-structure form of the partition law: a well-formed hierarchy's
/// leaf ranges tile `[0, n)` over the reordered primitive storage.
pub proof fn lemma_bvh_leaves_partition(bvh: Bvh)
    requires
        bvh.wf(),
    ensures
        leaf_ranges(bvh.nodes@, 0).len() >= 1,
        leaf_ranges(bvh.nodes@, 0)[0].0 == 0,
        leaf_ranges(bvh.nodes@, 0)[leaf_ranges(bvh.nodes@, 0).len() - 1].1 == bvh.prim_boxes@
            .len(),
        forall|t: int|
            0 <= t < leaf_ranges(bvh.nodes@, 0).len() ==> (#[trigger] leaf_ranges(
                bvh.nodes@,
                0,
            )[t]).0 < leaf_ranges(bvh.nodes@, 0)[t].1,
        forall|t: int|
            0 <= t < leaf_ranges(bvh.nodes@, 0).len() - 1 ==> (#[trigger] leaf_ranges(
                bvh.nodes@,
                0,
            )[t]).1 == leaf_ranges(bvh.nodes@, 0)[t + 1].0,
{
    lemma_leaves_partition(bvh.nodes@, 0, bvh.prim_boxes@);
}

} // verus!
