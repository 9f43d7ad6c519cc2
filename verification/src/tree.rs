//! The tree itself: an arena of nodes indexed by position, the recursive
//! well-formedness predicates, and the lemmas that turn them into the global
//! guarantees (bounds correctness, exact partition of the primitive array).

use vstd::prelude::*;
use crate::geometry::{Aabb, Primitive, union_of, is_range_bounds, achieves_lo, achieves_hi,
    range_union_box, lemma_range_union_box_exact, lemma_range_bounds_unique};

verus! {

/// A node of the arena: either a leaf owning a contiguous range `[start, end)`
/// of the primitive array, or an internal node referencing two children at
/// strictly later arena slots.
#[derive(Clone, Copy, Debug, PartialEq, Eq, Structural)]
pub enum Node {
    Internal { bounds: Aabb, left: usize, right: usize },
    Leaf { bounds: Aabb, start: usize, end: usize },
}

impl Node {
    /// The bounding box of either node kind.
    pub open spec fn bounds_spec(self) -> Aabb {
        match self {
            Node::Internal { bounds, .. } => bounds,
            Node::Leaf { bounds, .. } => bounds,
        }
    }

    /// Executable bounding-box accessor.
    pub fn bounds(&self) -> (r: Aabb)
        ensures
            r == self.bounds_spec(),
    {
        match self {
            Node::Internal { bounds, .. } => *bounds,
            Node::Leaf { bounds, .. } => *bounds,
        }
    }
}

/// First primitive index covered by the subtree rooted at slot `i`.
pub open spec fn span_start(nodes: Seq<Node>, i: int) -> int
    decreases nodes.len() - i,
{
    if 0 <= i && i < nodes.len() {
        match nodes[i] {
            Node::Leaf { start, .. } => start as int,
            Node::Internal { left, .. } => if i < left as int && (left as int) < nodes.len() {
                span_start(nodes, left as int)
            } else {
                0
            },
        }
    } else {
        0
    }
}

/// One-past-the-last primitive index covered by the subtree rooted at `i`.
pub open spec fn span_end(nodes: Seq<Node>, i: int) -> int
    decreases nodes.len() - i,
{
    if 0 <= i && i < nodes.len() {
        match nodes[i] {
            Node::Leaf { end, .. } => end as int,
            Node::Internal { right, .. } => if i < right as int && (right as int) < nodes.len() {
                span_end(nodes, right as int)
            } else {
                0
            },
        }
    } else {
        0
    }
}

/// Well-formed subtree rooted at arena slot `i`: children sit at strictly
/// later slots, every leaf's box exactly bounds its (non-empty) primitive
/// range, every internal box is the union of its children's boxes, and the
/// two children cover contiguous ranges.
pub open spec fn tree_wf(nodes: Seq<Node>, prims: Seq<Primitive>, i: int) -> bool
    decreases nodes.len() - i,
{
    if 0 <= i && i < nodes.len() {
        match nodes[i] {
            Node::Leaf { bounds, start, end } => {
                &&& start < end
                &&& end as int <= prims.len() as int
                &&& bounds.wf()
                &&& is_range_bounds(bounds, prims, start as int, end as int)
            },
            Node::Internal { bounds, left, right } => {
                if i < left as int && (left as int) < nodes.len() && i < right as int && (
                right as int) < nodes.len() {
                    &&& tree_wf(nodes, prims, left as int)
                    &&& tree_wf(nodes, prims, right as int)
                    &&& span_end(nodes, left as int) == span_start(nodes, right as int)
                    &&& bounds == union_of(
                        nodes[left as int].bounds_spec(),
                        nodes[right as int].bounds_spec(),
                    )
                } else {
                    false
                }
            },
        }
    } else {
        false
    }
}

/// Arena slot `j` belongs to the subtree rooted at slot `i`.
pub open spec fn reaches(nodes: Seq<Node>, i: int, j: int) -> bool
    decreases nodes.len() - i,
{
    if 0 <= i && i < nodes.len() {
        i == j || match nodes[i] {
            Node::Leaf { .. } => false,
            Node::Internal { left, right, .. } => {
                ||| if i < left as int && (left as int) < nodes.len() {
                    reaches(nodes, left as int, j)
                } else {
                    false
                }
                ||| if i < right as int && (right as int) < nodes.len() {
                    reaches(nodes, right as int, j)
                } else {
                    false
                }
            },
        }
    } else {
        false
    }
}

/// The greedy longest-extent split axis of a box: X, unless the Y extent
/// strictly exceeds the X extent, unless the Z extent strictly exceeds the
/// winner so far (ties keep the earlier axis).
pub open spec fn longest_axis(b: Aabb) -> int {
    let ex = b.hi(0) - b.lo(0);
    let ey = b.hi(1) - b.lo(1);
    let ez = b.hi(2) - b.lo(2);
    let xy = if ey > ex {
        1int
    } else {
        0int
    };
    if ez > (if xy == 1 {
        ey
    } else {
        ex
    }) {
        2int
    } else {
        xy
    }
}

/// The spatial midpoint of `b` along its longest axis.
pub open spec fn split_point(b: Aabb) -> int {
    b.lo(longest_axis(b)) + (b.hi(longest_axis(b)) - b.lo(longest_axis(b))) / 2
}

/// How many primitives of `prims[s..e)` lie strictly below `sp` on `axis`.
pub open spec fn count_below(prims: Seq<Primitive>, s: int, e: int, axis: int, sp: int) -> int
    decreases e - s,
{
    if s < e {
        count_below(prims, s, e - 1, axis, sp) + if prims[e - 1].position.axis(axis) < sp {
            1int
        } else {
            0int
        }
    } else {
        0
    }
}

/// The midpoint split of a leaf over `prims[s..e)` with box `b` is one-sided:
/// no primitive falls below the split plane, or all but the last one do. The
/// builder leaves such a leaf terminal rather than recursing forever.
pub open spec fn degenerate_split(prims: Seq<Primitive>, s: int, e: int, b: Aabb) -> bool {
    let c = count_below(prims, s, e, longest_axis(b), split_point(b));
    c == 0 || c == e - s - 1
}

/// Every leaf of the subtree rooted at `i` either respects `threshold` or is
/// the residue of a degenerate (one-sided) midpoint split.
pub open spec fn leaves_within(
    nodes: Seq<Node>,
    prims: Seq<Primitive>,
    i: int,
    threshold: int,
) -> bool
    decreases nodes.len() - i,
{
    if 0 <= i && i < nodes.len() {
        match nodes[i] {
            Node::Leaf { bounds, start, end } => {
                end - start <= threshold || degenerate_split(prims, start as int, end as int, bounds)
            },
            Node::Internal { left, right, .. } => {
                if i < left as int && (left as int) < nodes.len() && i < right as int && (
                right as int) < nodes.len() {
                    leaves_within(nodes, prims, left as int, threshold) && leaves_within(
                        nodes,
                        prims,
                        right as int,
                        threshold,
                    )
                } else {
                    false
                }
            },
        }
    } else {
        false
    }
}

/// The finished hierarchy: the node arena (root at slot 0) and the primitive
/// array that construction permuted in place.
#[derive(Debug)]
pub struct Bvh {
    pub nodes: Vec<Node>,
    pub primitives: Vec<Primitive>,
}

impl Bvh {
    /// The structure invariant: a well-formed tree at slot 0 spanning the
    /// whole primitive array, every arena slot reachable from the root, and
    /// every primitive well formed.
    pub open spec fn wf(self) -> bool {
        &&& self.nodes@.len() >= 1
        &&& tree_wf(self.nodes@, self.primitives@, 0)
        &&& span_start(self.nodes@, 0) == 0
        &&& span_end(self.nodes@, 0) == self.primitives@.len() as int
        &&& forall|j: int| 0 <= j < self.nodes@.len() ==> reaches(self.nodes@, 0, j)
        &&& forall|k: int|
            0 <= k < self.primitives@.len() ==> (#[trigger] self.primitives@[k]).wf()
    }
}

/// A well-formed subtree covers a non-empty span that lies inside the
/// primitive array.
pub proof fn lemma_span_nonempty(nodes: Seq<Node>, prims: Seq<Primitive>, i: int)
    requires
        tree_wf(nodes, prims, i),
    ensures
        0 <= span_start(nodes, i) < span_end(nodes, i) <= prims.len() as int,
    decreases nodes.len() - i,
{
    match nodes[i] {
        Node::Leaf { .. } => {},
        Node::Internal { left, right, .. } => {
            lemma_span_nonempty(nodes, prims, left as int);
            lemma_span_nonempty(nodes, prims, right as int);
        },
    }
}

/// Every slot reachable from a well-formed subtree roots a well-formed
/// subtree of its own, whose span nests inside the root's span.
pub proof fn lemma_tree_wf_reach(nodes: Seq<Node>, prims: Seq<Primitive>, i: int, j: int)
    requires
        tree_wf(nodes, prims, i),
        reaches(nodes, i, j),
    ensures
        tree_wf(nodes, prims, j),
        span_start(nodes, i) <= span_start(nodes, j),
        span_end(nodes, j) <= span_end(nodes, i),
    decreases nodes.len() - i,
{
    if i != j {
        match nodes[i] {
            Node::Leaf { .. } => {},
            Node::Internal { left, right, .. } => {
                lemma_span_nonempty(nodes, prims, left as int);
                lemma_span_nonempty(nodes, prims, right as int);
                if reaches(nodes, left as int, j) {
                    lemma_tree_wf_reach(nodes, prims, left as int, j);
                } else {
                    lemma_tree_wf_reach(nodes, prims, right as int, j);
                }
            },
        }
    }
}

/// Every primitive index inside a subtree's span lies inside the range of
/// some leaf of that subtree.
pub proof fn lemma_leaf_exists(nodes: Seq<Node>, prims: Seq<Primitive>, i: int, k: int) -> (j: int)
    requires
        tree_wf(nodes, prims, i),
        span_start(nodes, i) <= k < span_end(nodes, i),
    ensures
        reaches(nodes, i, j),
        0 <= j < nodes.len(),
        nodes[j] is Leaf,
        nodes[j]->Leaf_start as int <= k < nodes[j]->Leaf_end as int,
    decreases nodes.len() - i,
{
    match nodes[i] {
        Node::Leaf { .. } => i,
        Node::Internal { left, right, .. } => {
            lemma_span_nonempty(nodes, prims, left as int);
            lemma_span_nonempty(nodes, prims, right as int);
            if k < span_end(nodes, left as int) {
                lemma_leaf_exists(nodes, prims, left as int, k)
            } else {
                lemma_leaf_exists(nodes, prims, right as int, k)
            }
        },
    }
}

/// No primitive index lies inside the ranges of two distinct leaves of a
/// well-formed subtree.
pub proof fn lemma_leaf_unique(
    nodes: Seq<Node>,
    prims: Seq<Primitive>,
    i: int,
    j1: int,
    j2: int,
    k: int,
)
    requires
        tree_wf(nodes, prims, i),
        reaches(nodes, i, j1),
        reaches(nodes, i, j2),
        nodes[j1] is Leaf,
        nodes[j2] is Leaf,
        nodes[j1]->Leaf_start as int <= k < nodes[j1]->Leaf_end as int,
        nodes[j2]->Leaf_start as int <= k < nodes[j2]->Leaf_end as int,
    ensures
        j1 == j2,
    decreases nodes.len() - i,
{
    match nodes[i] {
        Node::Leaf { .. } => {},
        Node::Internal { left, right, .. } => {
            let cut = span_end(nodes, left as int);
            assert(cut == span_start(nodes, right as int));
            // a leaf reached through a child keeps its range inside that
            // child's span, so `k` decides which side both leaves are on
            if reaches(nodes, left as int, j1) {
                lemma_tree_wf_reach(nodes, prims, left as int, j1);
                assert(k < cut);
            } else {
                lemma_tree_wf_reach(nodes, prims, right as int, j1);
                assert(k >= cut);
            }
            if reaches(nodes, left as int, j2) {
                lemma_tree_wf_reach(nodes, prims, left as int, j2);
                assert(k < cut);
            } else {
                lemma_tree_wf_reach(nodes, prims, right as int, j2);
                assert(k >= cut);
            }
            if reaches(nodes, left as int, j1) {
                lemma_leaf_unique(nodes, prims, left as int, j1, j2, k);
            } else {
                lemma_leaf_unique(nodes, prims, right as int, j1, j2, k);
            }
        },
    }
}

/// Counting below a plane reads only the primitives in the range.
pub proof fn lemma_count_below_congruent(
    p1: Seq<Primitive>,
    p2: Seq<Primitive>,
    s: int,
    e: int,
    axis: int,
    sp: int,
)
    requires
        forall|k: int| s <= k < e ==> p1[k] == p2[k],
    ensures
        count_below(p1, s, e, axis, sp) == count_below(p2, s, e, axis, sp),
    decreases e - s,
{
    if s < e {
        lemma_count_below_congruent(p1, p2, s, e - 1, axis, sp);
    }
}

/// A range split at `m` into a strictly-below prefix and an at-or-above
/// suffix has exactly `m - s` primitives below the plane.
pub proof fn lemma_count_below_split(
    prims: Seq<Primitive>,
    s: int,
    e: int,
    m: int,
    axis: int,
    sp: int,
)
    requires
        s <= m <= e,
        forall|k: int| s <= k < m ==> #[trigger] prims[k].position.axis(axis) < sp,
        forall|k: int| m <= k < e ==> #[trigger] prims[k].position.axis(axis) >= sp,
    ensures
        count_below(prims, s, e, axis, sp) == m - s,
    decreases e - s,
{
    if s < e {
        if m == e {
            lemma_count_below_split(prims, s, e - 1, e - 1, axis, sp);
        } else {
            lemma_count_below_split(prims, s, e - 1, m, axis, sp);
        }
    }
}

/// An element of a range reappears at some index of the range under any
/// permutation of that range.
pub proof fn lemma_range_elem_permuted(
    p1: Seq<Primitive>,
    p2: Seq<Primitive>,
    s: int,
    e: int,
    k: int,
) -> (k2: int)
    requires
        0 <= s <= e <= p1.len(),
        e <= p2.len(),
        p1.subrange(s, e).to_multiset() == p2.subrange(s, e).to_multiset(),
        s <= k < e,
    ensures
        s <= k2 < e,
        p2[k2] == p1[k],
{
    broadcast use vstd::seq_lib::group_to_multiset_ensures;

    let sub1 = p1.subrange(s, e);
    let sub2 = p2.subrange(s, e);
    assert(sub1[k - s] == p1[k]);
    assert(sub1.contains(p1[k]));
    assert(sub1.to_multiset().count(p1[k]) > 0);
    assert(sub2.to_multiset().count(p1[k]) > 0);
    assert(sub2.contains(p1[k]));
    let idx = choose|idx: int| 0 <= idx < sub2.len() && sub2[idx] == p1[k];
    assert(p2[s + idx] == p1[k]);
    s + idx
}

/// Exact range bounds are preserved by any permutation of the range.
pub proof fn lemma_range_bounds_permuted(
    b: Aabb,
    p1: Seq<Primitive>,
    p2: Seq<Primitive>,
    s: int,
    e: int,
)
    requires
        0 <= s <= e <= p1.len(),
        p2.len() == p1.len(),
        p1.subrange(s, e).to_multiset() == p2.subrange(s, e).to_multiset(),
        is_range_bounds(b, p1, s, e),
    ensures
        is_range_bounds(b, p2, s, e),
{
    assert forall|k: int, a: int| s <= k < e && 0 <= a < 3 implies b.lo(a) <= #[trigger] p2[k].lo(
        a,
    ) by {
        let k1 = lemma_range_elem_permuted(p2, p1, s, e, k);
        assert(b.lo(a) <= p1[k1].lo(a));
    }
    assert forall|k: int, a: int| s <= k < e && 0 <= a < 3 implies #[trigger] p2[k].hi(a) <= b.hi(
        a,
    ) by {
        let k1 = lemma_range_elem_permuted(p2, p1, s, e, k);
        assert(p1[k1].hi(a) <= b.hi(a));
    }
    assert forall|a: int| 0 <= a < 3 implies #[trigger] achieves_lo(b, p2, s, e, a) by {
        assert(achieves_lo(b, p1, s, e, a));
        let k1 = choose|k1: int| s <= k1 < e && #[trigger] p1[k1].lo(a) == b.lo(a);
        let k2 = lemma_range_elem_permuted(p1, p2, s, e, k1);
        assert(p2[k2].lo(a) == b.lo(a));
    }
    assert forall|a: int| 0 <= a < 3 implies #[trigger] achieves_hi(b, p2, s, e, a) by {
        assert(achieves_hi(b, p1, s, e, a));
        let k1 = choose|k1: int| s <= k1 < e && #[trigger] p1[k1].hi(a) == b.hi(a);
        let k2 = lemma_range_elem_permuted(p1, p2, s, e, k1);
        assert(p2[k2].hi(a) == b.hi(a));
    }
}

/// A subtree's well-formedness, spans, reach set, and leaf-size discipline
/// depend only on the arena slots the subtree reaches and on the primitives
/// inside its span.
pub proof fn lemma_tree_frame(
    nodes1: Seq<Node>,
    prims1: Seq<Primitive>,
    nodes2: Seq<Node>,
    prims2: Seq<Primitive>,
    i: int,
    threshold: int,
)
    requires
        tree_wf(nodes1, prims1, i),
        leaves_within(nodes1, prims1, i, threshold),
        forall|j: int| #[trigger]
            reaches(nodes1, i, j) ==> 0 <= j < nodes2.len() && nodes2[j] == nodes1[j],
        prims2.len() == prims1.len(),
        forall|k: int|
            span_start(nodes1, i) <= k < span_end(nodes1, i) ==> #[trigger] prims2[k] == prims1[k],
    ensures
        tree_wf(nodes2, prims2, i),
        leaves_within(nodes2, prims2, i, threshold),
        span_start(nodes2, i) == span_start(nodes1, i),
        span_end(nodes2, i) == span_end(nodes1, i),
        forall|j: int| reaches(nodes2, i, j) == reaches(nodes1, i, j),
    decreases nodes1.len() - i,
{
    assert(reaches(nodes1, i, i));
    assert(nodes2[i] == nodes1[i]);
    match nodes1[i] {
        Node::Leaf { bounds, start, end } => {
            let s = start as int;
            let e = end as int;
            assert(prims1.subrange(s, e) =~= prims2.subrange(s, e)) by {
                assert forall|t: int| 0 <= t < e - s implies prims1.subrange(s, e)[t]
                    == prims2.subrange(s, e)[t] by {
                    assert(prims2[s + t] == prims1[s + t]);
                }
            }
            lemma_range_bounds_permuted(bounds, prims1, prims2, s, e);
            lemma_count_below_congruent(
                prims1,
                prims2,
                start as int,
                end as int,
                longest_axis(bounds),
                split_point(bounds),
            );
            assert forall|j: int| reaches(nodes2, i, j) == reaches(nodes1, i, j) by {}
        },
        Node::Internal { bounds, left, right } => {
            let l = left as int;
            let r = right as int;
            assert(reaches(nodes1, i, l)) by {
                assert(reaches(nodes1, l, l));
            }
            assert(reaches(nodes1, i, r)) by {
                assert(reaches(nodes1, r, r));
            }
            assert forall|j: int| #[trigger] reaches(nodes1, l, j) implies 0 <= j < nodes2.len()
                && nodes2[j] == nodes1[j] by {
                assert(reaches(nodes1, i, j));
            }
            assert forall|j: int| #[trigger] reaches(nodes1, r, j) implies 0 <= j < nodes2.len()
                && nodes2[j] == nodes1[j] by {
                assert(reaches(nodes1, i, j));
            }
            lemma_span_nonempty(nodes1, prims1, l);
            lemma_span_nonempty(nodes1, prims1, r);
            assert forall|k: int|
                span_start(nodes1, l) <= k < span_end(nodes1, l) implies #[trigger] prims2[k]
                == prims1[k] by {
                assert(span_start(nodes1, i) <= k < span_end(nodes1, i));
            }
            assert forall|k: int|
                span_start(nodes1, r) <= k < span_end(nodes1, r) implies #[trigger] prims2[k]
                == prims1[k] by {
                assert(span_start(nodes1, i) <= k < span_end(nodes1, i));
            }
            lemma_tree_frame(nodes1, prims1, nodes2, prims2, l, threshold);
            lemma_tree_frame(nodes1, prims1, nodes2, prims2, r, threshold);
            assert(nodes2[l] == nodes1[l]);
            assert(nodes2[r] == nodes1[r]);
            assert(tree_wf(nodes2, prims2, i));
            assert(leaves_within(nodes2, prims2, i, threshold));
            assert forall|j: int| reaches(nodes2, i, j) == reaches(nodes1, i, j) by {
                assert(reaches(nodes2, l, j) == reaches(nodes1, l, j));
                assert(reaches(nodes2, r, j) == reaches(nodes1, r, j));
            }
        },
    }
}

/// A leaf reachable from a subtree that obeys the leaf-size discipline obeys
/// it itself.
pub proof fn lemma_leaves_within_reach(
    nodes: Seq<Node>,
    prims: Seq<Primitive>,
    i: int,
    j: int,
    threshold: int,
)
    requires
        leaves_within(nodes, prims, i, threshold),
        reaches(nodes, i, j),
        nodes[j] is Leaf,
    ensures
        nodes[j]->Leaf_end - nodes[j]->Leaf_start <= threshold || degenerate_split(
            prims,
            nodes[j]->Leaf_start as int,
            nodes[j]->Leaf_end as int,
            nodes[j]->Leaf_bounds,
        ),
    decreases nodes.len() - i,
{
    if i != j {
        match nodes[i] {
            Node::Leaf { .. } => {},
            Node::Internal { left, right, .. } => {
                if reaches(nodes, left as int, j) {
                    lemma_leaves_within_reach(nodes, prims, left as int, j, threshold);
                } else {
                    lemma_leaves_within_reach(nodes, prims, right as int, j, threshold);
                }
            },
        }
    }
}

/// Slot `j` is a leaf whose range contains primitive index `k`.
pub open spec fn leaf_contains(nodes: Seq<Node>, j: int, k: int) -> bool {
    &&& 0 <= j < nodes.len()
    &&& nodes[j] is Leaf
    &&& nodes[j]->Leaf_start as int <= k < nodes[j]->Leaf_end as int
}

/// Bounds correctness over the whole arena: every internal node's box is the
/// union of its two children's boxes, and every leaf's box is exactly the
/// union of the boxes of the primitives in its range.
pub proof fn lemma_bounds_correct(bvh: Bvh)
    requires
        bvh.wf(),
    ensures
        forall|j: int|
            0 <= j < bvh.nodes@.len() && bvh.nodes@[j] is Internal ==> {
                let nd = bvh.nodes@[j];
                &&& j < nd->Internal_left as int
                &&& (nd->Internal_left as int) < bvh.nodes@.len()
                &&& j < nd->Internal_right as int
                &&& (nd->Internal_right as int) < bvh.nodes@.len()
                &&& nd->Internal_bounds == union_of(
                    bvh.nodes@[nd->Internal_left as int].bounds_spec(),
                    bvh.nodes@[nd->Internal_right as int].bounds_spec(),
                )
            },
        forall|j: int|
            0 <= j < bvh.nodes@.len() && bvh.nodes@[j] is Leaf ==> {
                let nd = bvh.nodes@[j];
                &&& nd->Leaf_start < nd->Leaf_end
                &&& (nd->Leaf_end as int) <= bvh.primitives@.len() as int
                &&& nd->Leaf_bounds == range_union_box(
                    bvh.primitives@,
                    nd->Leaf_start as int,
                    nd->Leaf_end as int,
                )
                &&& is_range_bounds(
                    nd->Leaf_bounds,
                    bvh.primitives@,
                    nd->Leaf_start as int,
                    nd->Leaf_end as int,
                )
            },
{
    assert forall|j: int| 0 <= j < bvh.nodes@.len() && bvh.nodes@[j] is Internal implies {
        let nd = bvh.nodes@[j];
        &&& j < nd->Internal_left as int
        &&& (nd->Internal_left as int) < bvh.nodes@.len()
        &&& j < nd->Internal_right as int
        &&& (nd->Internal_right as int) < bvh.nodes@.len()
        &&& nd->Internal_bounds == union_of(
            bvh.nodes@[nd->Internal_left as int].bounds_spec(),
            bvh.nodes@[nd->Internal_right as int].bounds_spec(),
        )
    } by {
        lemma_tree_wf_reach(bvh.nodes@, bvh.primitives@, 0, j);
    }
    assert forall|j: int| 0 <= j < bvh.nodes@.len() && bvh.nodes@[j] is Leaf implies {
        let nd = bvh.nodes@[j];
        &&& nd->Leaf_start < nd->Leaf_end
        &&& (nd->Leaf_end as int) <= bvh.primitives@.len() as int
        &&& nd->Leaf_bounds == range_union_box(
            bvh.primitives@,
            nd->Leaf_start as int,
            nd->Leaf_end as int,
        )
        &&& is_range_bounds(
            nd->Leaf_bounds,
            bvh.primitives@,
            nd->Leaf_start as int,
            nd->Leaf_end as int,
        )
    } by {
        lemma_tree_wf_reach(bvh.nodes@, bvh.primitives@, 0, j);
        let nd = bvh.nodes@[j];
        lemma_range_union_box_exact(
            bvh.primitives@,
            nd->Leaf_start as int,
            nd->Leaf_end as int,
        );
        lemma_range_bounds_unique(
            nd->Leaf_bounds,
            range_union_box(bvh.primitives@, nd->Leaf_start as int, nd->Leaf_end as int),
            bvh.primitives@,
            nd->Leaf_start as int,
            nd->Leaf_end as int,
        );
    }
}

/// Some leaf's range contains primitive index `k`.
pub open spec fn covered(nodes: Seq<Node>, k: int) -> bool {
    exists|j: int| #[trigger] leaf_contains(nodes, j, k)
}

/// Exact partition: every primitive index lies in the range of exactly one
/// leaf of the tree — no gap, no overlap.
pub proof fn lemma_exact_partition(bvh: Bvh)
    requires
        bvh.wf(),
    ensures
        forall|k: int| 0 <= k < bvh.primitives@.len() ==> #[trigger] covered(bvh.nodes@, k),
        forall|j1: int, j2: int, k: int|
            #[trigger] leaf_contains(bvh.nodes@, j1, k) && #[trigger] leaf_contains(
                bvh.nodes@,
                j2,
                k,
            ) ==> j1 == j2,
{
    let nodes = bvh.nodes@;
    let prims = bvh.primitives@;
    assert forall|k: int| 0 <= k < prims.len() implies #[trigger] covered(nodes, k) by {
        let j = lemma_leaf_exists(nodes, prims, 0, k);
        assert(leaf_contains(nodes, j, k));
    }
    assert forall|j1: int, j2: int, k: int|
        #[trigger] leaf_contains(nodes, j1, k) && #[trigger] leaf_contains(
            nodes,
            j2,
            k,
        ) implies j1 == j2 by {
        lemma_leaf_unique(nodes, prims, 0, j1, j2, k);
    }
}

} // verus!
