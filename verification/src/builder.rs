//! The construction algorithm: bottom-up bounds computation, in-place
//! midpoint partitioning, recursive subdivision, and the `build` entry point.

use vstd::prelude::*;
use crate::geometry::{Aabb, Vec3i, Primitive, union_of, is_range_bounds, achieves_lo, achieves_hi,
    lemma_union_axes, range_union_box, COORD_LIMIT};
use crate::tree::{
    Node, Bvh, tree_wf, span_start, span_end, reaches, leaves_within, longest_axis, split_point,
    degenerate_split, lemma_count_below_split, lemma_range_elem_permuted,
    lemma_range_bounds_permuted, lemma_tree_frame, lemma_leaves_within_reach,
};

verus! {

/// Why `build` rejected its input.
#[derive(Clone, Copy, Debug, PartialEq, Eq, Structural)]
pub enum BuildError {
    /// The primitive array was empty: there is nothing to bound.
    EmptyInput,
    /// A threshold of zero can never be met by a non-empty leaf.
    ZeroThreshold,
}

/// Recomputes the bounds stored at arena slot `idx`: for a leaf, the union of
/// the boxes of the primitives in its range; for an internal node, the union
/// of its two children's (already computed) bounds.
fn compute_bounds(nodes: &mut Vec<Node>, prims: &Vec<Primitive>, idx: usize)
    requires
        idx < old(nodes)@.len(),
        forall|k: int| 0 <= k < prims@.len() ==> (#[trigger] prims@[k]).wf(),
        old(nodes)@[idx as int] is Leaf ==> old(nodes)@[idx as int]->Leaf_start < old(
            nodes,
        )@[idx as int]->Leaf_end && (old(nodes)@[idx as int]->Leaf_end as int)
            <= prims@.len() as int,
        old(nodes)@[idx as int] is Internal ==> (idx as int)
            < old(nodes)@[idx as int]->Internal_left as int && (old(
            nodes,
        )@[idx as int]->Internal_left as int) < old(nodes)@.len() && (idx as int) < old(
            nodes,
        )@[idx as int]->Internal_right as int && (old(nodes)@[idx as int]->Internal_right as int)
            < old(nodes)@.len(),
    ensures
        final(nodes)@.len() == old(nodes)@.len(),
        forall|k: int|
            0 <= k < final(nodes)@.len() && k != idx as int ==> final(nodes)@[k] == old(
                nodes,
            )@[k],
        old(nodes)@[idx as int] is Leaf ==> {
            let n0 = old(nodes)@[idx as int];
            let b = range_union_box(prims@, n0->Leaf_start as int, n0->Leaf_end as int);
            &&& final(nodes)@[idx as int] == (Node::Leaf {
                bounds: b,
                start: n0->Leaf_start,
                end: n0->Leaf_end,
            })
            &&& b.wf()
            &&& is_range_bounds(b, prims@, n0->Leaf_start as int, n0->Leaf_end as int)
        },
        old(nodes)@[idx as int] is Internal ==> {
            let n0 = old(nodes)@[idx as int];
            final(nodes)@[idx as int] == (Node::Internal {
                bounds: union_of(
                    final(nodes)@[n0->Internal_left as int].bounds_spec(),
                    final(nodes)@[n0->Internal_right as int].bounds_spec(),
                ),
                left: n0->Internal_left,
                right: n0->Internal_right,
            })
        },
{
    let node = nodes[idx];
    match node {
        Node::Internal { left, right, .. } => {
            let lb = nodes[left].bounds();
            let rb = nodes[right].bounds();
            let nb = lb.union(&rb);
            nodes.set(idx, Node::Internal { bounds: nb, left, right });
        },
        Node::Leaf { start, end, .. } => {
            let mut nb = prims[start].bounds();
            proof {
                assert forall|a: int| 0 <= a < 3 implies #[trigger] achieves_lo(
                    nb,
                    prims@,
                    start as int,
                    start as int + 1,
                    a,
                ) by {
                    assert(prims@[start as int].lo(a) == nb.lo(a));
                }
                assert forall|a: int| 0 <= a < 3 implies #[trigger] achieves_hi(
                    nb,
                    prims@,
                    start as int,
                    start as int + 1,
                    a,
                ) by {
                    assert(prims@[start as int].hi(a) == nb.hi(a));
                }
                assert forall|t: int, a: int|
                    start as int <= t < start as int + 1 && 0 <= a < 3 implies nb.lo(a)
                    <= #[trigger] prims@[t].lo(a) by {
                    assert(nb.lo(a) == prims@[start as int].lo(a));
                }
                assert forall|t: int, a: int|
                    start as int <= t < start as int + 1 && 0 <= a < 3 implies #[trigger] prims@[t].hi(
                    a,
                ) <= nb.hi(a) by {
                    assert(nb.hi(a) == prims@[start as int].hi(a));
                }
                assert(is_range_bounds(nb, prims@, start as int, start as int + 1));
            }
            let mut k = start + 1;
            while k < end
                invariant
                    start < k <= end,
                    end as int <= prims@.len() as int,
                    forall|t: int| 0 <= t < prims@.len() ==> (#[trigger] prims@[t]).wf(),
                    nb.wf(),
                    nb == range_union_box(prims@, start as int, k as int),
                    is_range_bounds(nb, prims@, start as int, k as int),
                decreases end - k,
            {
                let ghost nb0 = nb;
                let pb = prims[k].bounds();
                nb = nb.union(&pb);
                proof {
                    assert(nb == range_union_box(prims@, start as int, k as int + 1));
                    lemma_union_axes(nb0, pb);
                    assert forall|a: int| 0 <= a < 3 implies -(COORD_LIMIT as int) <= nb.lo(a)
                        && nb.lo(a) <= nb.hi(a) && nb.hi(a) <= COORD_LIMIT as int by {
                        assert(-(COORD_LIMIT as int) <= nb0.lo(a) && nb0.lo(a) <= nb0.hi(a)
                            && nb0.hi(a) <= COORD_LIMIT as int);
                        assert(-(COORD_LIMIT as int) <= pb.lo(a) && pb.lo(a) <= pb.hi(a) && pb.hi(
                            a,
                        ) <= COORD_LIMIT as int);
                    }
                    assert(nb.wf());
                    assert forall|t: int, a: int|
                        start as int <= t < k as int + 1 && 0 <= a < 3 implies nb.lo(a)
                        <= #[trigger] prims@[t].lo(a) by {
                        if t < k as int {
                            assert(nb0.lo(a) <= prims@[t].lo(a));
                        } else {
                            assert(pb.lo(a) == prims@[t].lo(a));
                        }
                    }
                    assert forall|t: int, a: int|
                        start as int <= t < k as int + 1 && 0 <= a < 3 implies #[trigger] prims@[t].hi(
                        a,
                    ) <= nb.hi(a) by {
                        if t < k as int {
                            assert(prims@[t].hi(a) <= nb0.hi(a));
                        } else {
                            assert(pb.hi(a) == prims@[t].hi(a));
                        }
                    }
                    assert forall|a: int| 0 <= a < 3 implies #[trigger] achieves_lo(
                        nb,
                        prims@,
                        start as int,
                        k as int + 1,
                        a,
                    ) by {
                        assert(achieves_lo(nb0, prims@, start as int, k as int, a));
                        let w1 = choose|w: int|
                            start as int <= w < k as int && #[trigger] prims@[w].lo(a) == nb0.lo(a);
                        if nb0.lo(a) <= pb.lo(a) {
                            assert(prims@[w1].lo(a) == nb.lo(a));
                        } else {
                            assert(prims@[k as int].lo(a) == nb.lo(a));
                        }
                    }
                    assert forall|a: int| 0 <= a < 3 implies #[trigger] achieves_hi(
                        nb,
                        prims@,
                        start as int,
                        k as int + 1,
                        a,
                    ) by {
                        assert(achieves_hi(nb0, prims@, start as int, k as int, a));
                        let w2 = choose|w: int|
                            start as int <= w < k as int && #[trigger] prims@[w].hi(a) == nb0.hi(a);
                        if nb0.hi(a) >= pb.hi(a) {
                            assert(prims@[w2].hi(a) == nb.hi(a));
                        } else {
                            assert(prims@[k as int].hi(a) == nb.hi(a));
                        }
                    }
                    assert(is_range_bounds(nb, prims@, start as int, k as int + 1));
                }
                k += 1;
            }
            nodes.set(idx, Node::Leaf { bounds: nb, start, end });
        },
    }
}

/// Swapping two slots inside a range leaves the range's multiset unchanged.
proof fn lemma_swap_multiset(p1: Seq<Primitive>, p2: Seq<Primitive>, s: int, e: int, i: int, j: int)
    requires
        0 <= s <= i <= j < e <= p1.len(),
        p2 == p1.update(i, p1[j]).update(j, p1[i]),
    ensures
        p2.len() == p1.len(),
        p2.subrange(s, e).to_multiset() == p1.subrange(s, e).to_multiset(),
{
    broadcast use vstd::seq_lib::group_to_multiset_ensures;
    broadcast use vstd::seq_lib::to_multiset_update;
    broadcast use vstd::multiset::group_multiset_axioms;

    let sub1 = p1.subrange(s, e);
    let sub2 = p2.subrange(s, e);
    if i == j {
        assert(sub2 =~= sub1);
    } else {
        let vi = sub1[i - s];
        let vj = sub1[j - s];
        let mid = sub1.update(i - s, vj);
        assert(sub2 =~= mid.update(j - s, vi));
        assert(sub1.contains(vi));
        assert(mid[j - s] == vj);
        assert(mid.contains(vj)) by {
            assert(mid[j - s] == vj);
        }
        assert(mid.to_multiset() == sub1.to_multiset().insert(vj).remove(vi));
        assert(sub2.to_multiset() == mid.to_multiset().insert(vi).remove(vj));
        assert(sub2.to_multiset() =~= sub1.to_multiset());
    }
}

/// The functional model of `partition`'s scan: the cursors walk the range
/// exactly as the loop does, so the scan's outcome is a function of the
/// sequence and the plane alone.
pub open spec fn spec_partition(p: Seq<Primitive>, i: int, j: int, axis: int, sp: int) -> (
    Seq<Primitive>,
    int,
)
    decreases j + 1 - i,
{
    if i > j {
        (p, i)
    } else if p[i].position.axis(axis) < sp {
        spec_partition(p, i + 1, j, axis, sp)
    } else {
        let q = p.update(i, p[j]).update(j, p[i]);
        if j == 0 {
            (q, i)
        } else {
            spec_partition(q, i, j - 1, axis, sp)
        }
    }
}

/// Hoare-style two-pointer partition of `prims[s..e)` about the plane `sp` on
/// `axis`: on return, `prims[s..m)` lie strictly below the plane and
/// `prims[m..e)` at or above it; the range keeps its multiset of primitives
/// and nothing outside it moves.
fn partition(prims: &mut Vec<Primitive>, s: usize, e: usize, axis: usize, sp: i64) -> (m: usize)
    requires
        axis < 3,
        s < e,
        e as int <= old(prims)@.len() as int,
        forall|k: int| 0 <= k < old(prims)@.len() ==> (#[trigger] old(prims)@[k]).wf(),
    ensures
        s <= m <= e,
        (final(prims)@, m as int) == spec_partition(
            old(prims)@,
            s as int,
            e as int - 1,
            axis as int,
            sp as int,
        ),
        final(prims)@.len() == old(prims)@.len(),
        forall|k: int|
            0 <= k < final(prims)@.len() && !(s as int <= k < e as int) ==> final(prims)@[k]
                == old(prims)@[k],
        final(prims)@.subrange(s as int, e as int).to_multiset() == old(prims)@.subrange(
            s as int,
            e as int,
        ).to_multiset(),
        forall|k: int| 0 <= k < final(prims)@.len() ==> (#[trigger] final(prims)@[k]).wf(),
        forall|k: int|
            s as int <= k < m as int ==> (#[trigger] final(prims)@[k]).position.axis(axis as int)
                < sp as int,
        forall|k: int|
            m as int <= k < e as int ==> (#[trigger] final(prims)@[k]).position.axis(axis as int)
                >= sp as int,
{
    let mut i = s;
    let mut j = e - 1;
    while i <= j
        invariant_except_break
            axis < 3,
            s <= i,
            i as int <= j as int + 1,
            j < e,
            e as int <= prims@.len() as int,
            prims@.len() == old(prims)@.len(),
            forall|k: int|
                0 <= k < prims@.len() && !(s as int <= k < e as int) ==> prims@[k] == old(
                    prims,
                )@[k],
            prims@.subrange(s as int, e as int).to_multiset() == old(prims)@.subrange(
                s as int,
                e as int,
            ).to_multiset(),
            forall|k: int| 0 <= k < prims@.len() ==> (#[trigger] prims@[k]).wf(),
            forall|k: int|
                s as int <= k < i as int ==> (#[trigger] prims@[k]).position.axis(axis as int)
                    < sp as int,
            forall|k: int|
                (j as int) < k < e as int ==> (#[trigger] prims@[k]).position.axis(axis as int)
                    >= sp as int,
            spec_partition(prims@, i as int, j as int, axis as int, sp as int) == spec_partition(
                old(prims)@,
                s as int,
                e as int - 1,
                axis as int,
                sp as int,
            ),
        ensures
            s <= i && i as int <= e as int,
            prims@.len() == old(prims)@.len(),
            forall|k: int|
                0 <= k < prims@.len() && !(s as int <= k < e as int) ==> prims@[k] == old(
                    prims,
                )@[k],
            prims@.subrange(s as int, e as int).to_multiset() == old(prims)@.subrange(
                s as int,
                e as int,
            ).to_multiset(),
            forall|k: int| 0 <= k < prims@.len() ==> (#[trigger] prims@[k]).wf(),
            forall|k: int|
                s as int <= k < i as int ==> (#[trigger] prims@[k]).position.axis(axis as int)
                    < sp as int,
            forall|k: int|
                i as int <= k < e as int ==> (#[trigger] prims@[k]).position.axis(axis as int)
                    >= sp as int,
            (prims@, i as int) == spec_partition(
                old(prims)@,
                s as int,
                e as int - 1,
                axis as int,
                sp as int,
            ),
        decreases j + 1 - i,
    {
        let p = prims[i];
        if p.position.get(axis) < sp {
            proof {
                assert(spec_partition(prims@, i as int, j as int, axis as int, sp as int)
                    == spec_partition(prims@, i as int + 1, j as int, axis as int, sp as int));
            }
            i = i + 1;
        } else {
            let ghost prev = prims@;
            let pi = prims[i];
            let pj = prims[j];
            prims.set(i, pj);
            prims.set(j, pi);
            proof {
                assert(prims@ =~= prev.update(i as int, prev[j as int]).update(
                    j as int,
                    prev[i as int],
                ));
                lemma_swap_multiset(prev, prims@, s as int, e as int, i as int, j as int);
                assert(prims@[j as int].position.axis(axis as int) >= sp as int);
                assert(spec_partition(prev, i as int, j as int, axis as int, sp as int) == (
                if j == 0 {
                    (prims@, i as int)
                } else {
                    spec_partition(prims@, i as int, j as int - 1, axis as int, sp as int)
                }));
            }
            if j == 0 {
                // i <= j forces i == j == s == 0: every primitive of the range
                // sits at or above the plane, and the swap changed nothing
                proof {
                    assert(prims@ =~= prev);
                }
                break ;
            }
            j = j - 1;
        }
    }
    i
}

/// Pointwise-equal ranges are equal as sequences, hence as multisets.
proof fn lemma_subrange_pointwise(p1: Seq<Primitive>, p2: Seq<Primitive>, s: int, e: int)
    requires
        0 <= s <= e <= p1.len(),
        e <= p2.len(),
        forall|k: int| s <= k < e ==> #[trigger] p2[k] == p1[k],
    ensures
        p2.subrange(s, e) == p1.subrange(s, e),
        p2.subrange(s, e).to_multiset() == p1.subrange(s, e).to_multiset(),
{
    assert(p1.subrange(s, e) =~= p2.subrange(s, e)) by {
        assert forall|t: int| 0 <= t < e - s implies p1.subrange(s, e)[t] == p2.subrange(
            s,
            e,
        )[t] by {
            assert(p2[s + t] == p1[s + t]);
        }
    }
}

/// A range's multiset is preserved whenever each half's multiset is.
proof fn lemma_multiset_split_join(p1: Seq<Primitive>, p2: Seq<Primitive>, s: int, m: int, e: int)
    requires
        0 <= s <= m <= e <= p1.len(),
        e <= p2.len(),
        p1.subrange(s, m).to_multiset() == p2.subrange(s, m).to_multiset(),
        p1.subrange(m, e).to_multiset() == p2.subrange(m, e).to_multiset(),
    ensures
        p1.subrange(s, e).to_multiset() == p2.subrange(s, e).to_multiset(),
{
    assert(p1.subrange(s, e) =~= p1.subrange(s, m) + p1.subrange(m, e));
    assert(p2.subrange(s, e) =~= p2.subrange(s, m) + p2.subrange(m, e));
    vstd::seq_lib::lemma_multiset_commutative(p1.subrange(s, m), p1.subrange(m, e));
    vstd::seq_lib::lemma_multiset_commutative(p2.subrange(s, m), p2.subrange(m, e));
}

/// The functional model of `subdivide`: what one construction pass does to
/// the arena and the primitive array, as a function of the input state alone.
pub open spec fn spec_subdivide(
    nodes: Seq<Node>,
    prims: Seq<Primitive>,
    idx: int,
    s: int,
    e: int,
    threshold: int,
) -> (Seq<Node>, Seq<Primitive>)
    decreases e - s,
{
    if e - s <= threshold {
        (nodes, prims)
    } else {
        let b = nodes[idx].bounds_spec();
        let axis = longest_axis(b);
        let sp = split_point(b);
        let scanned = spec_partition(prims, s, e - 1, axis, sp);
        let p1 = scanned.0;
        let m = scanned.1;
        if m <= s || m >= e - 1 {
            (nodes, p1)
        } else {
            let l = nodes.len() as int;
            let r = l + 1;
            let left = Node::Leaf {
                bounds: range_union_box(p1, s, m),
                start: s as usize,
                end: m as usize,
            };
            let right = Node::Leaf {
                bounds: range_union_box(p1, m, e),
                start: m as usize,
                end: e as usize,
            };
            let step1 = spec_subdivide(nodes.push(left).push(right), p1, l, s, m, threshold);
            let step2 = spec_subdivide(step1.0, step1.1, r, m, e, threshold);
            let bb = union_of(step2.0[l].bounds_spec(), step2.0[r].bounds_spec());
            (
                step2.0.update(
                    idx,
                    Node::Internal { bounds: bb, left: l as usize, right: r as usize },
                ),
                step2.1,
            )
        }
    }
}

/// Recursively subdivides the leaf at slot `idx`, which covers `prims[s..e)`
/// with a correctly computed box: picks the spatial midpoint of the box along
/// its longest axis, partitions the range in place, appends two freshly
/// bounded leaves, recurses into both, and finally rewrites the slot as an
/// internal node whose box is the union of its children's. A leaf within
/// `threshold`, or one whose midpoint split comes out one-sided, stays
/// terminal. Every slot the builder visits is still a leaf, so subdivision
/// always starts from one.
#[verifier::rlimit(100)]
fn subdivide(
    nodes: &mut Vec<Node>,
    prims: &mut Vec<Primitive>,
    idx: usize,
    s: usize,
    e: usize,
    threshold: usize,
)
    requires
        threshold >= 1,
        idx < old(nodes)@.len(),
        old(nodes)@[idx as int] is Leaf,
        old(nodes)@[idx as int]->Leaf_start == s,
        old(nodes)@[idx as int]->Leaf_end == e,
        old(nodes)@[idx as int]->Leaf_bounds.wf(),
        is_range_bounds(old(nodes)@[idx as int]->Leaf_bounds, old(prims)@, s as int, e as int),
        s < e,
        e as int <= old(prims)@.len() as int,
        forall|k: int| 0 <= k < old(prims)@.len() ==> (#[trigger] old(prims)@[k]).wf(),
    ensures
        (final(nodes)@, final(prims)@) == spec_subdivide(
            old(nodes)@,
            old(prims)@,
            idx as int,
            s as int,
            e as int,
            threshold as int,
        ),
        final(nodes)@.len() >= old(nodes)@.len(),
        forall|k: int|
            0 <= k < old(nodes)@.len() && k != idx as int ==> final(nodes)@[k] == old(nodes)@[k],
        final(prims)@.len() == old(prims)@.len(),
        forall|k: int|
            0 <= k < final(prims)@.len() && !(s as int <= k < e as int) ==> final(prims)@[k]
                == old(prims)@[k],
        final(prims)@.subrange(s as int, e as int).to_multiset() == old(prims)@.subrange(
            s as int,
            e as int,
        ).to_multiset(),
        forall|k: int| 0 <= k < final(prims)@.len() ==> (#[trigger] final(prims)@[k]).wf(),
        tree_wf(final(nodes)@, final(prims)@, idx as int),
        span_start(final(nodes)@, idx as int) == s as int,
        span_end(final(nodes)@, idx as int) == e as int,
        leaves_within(final(nodes)@, final(prims)@, idx as int, threshold as int),
        forall|j: int| #[trigger]
            reaches(final(nodes)@, idx as int, j) ==> j == idx as int || old(nodes)@.len() <= j
                < final(nodes)@.len(),
        forall|j: int|
            old(nodes)@.len() <= j < final(nodes)@.len() ==> #[trigger] reaches(
                final(nodes)@,
                idx as int,
                j,
            ),
    decreases e - s,
{
    let node = nodes[idx];
    match node {
        Node::Internal { .. } => {
            // the precondition admits only leaves; in a single construction
            // pass every slot is a leaf when it is first visited
            proof {
                assert(false);
            }
        },
        Node::Leaf { bounds, .. } => {
            // a leaf within the threshold is terminal
            if e - s <= threshold {
                proof {
                    assert(tree_wf(nodes@, prims@, idx as int));
                    assert(leaves_within(nodes@, prims@, idx as int, threshold as int));
                    assert forall|j: int| #[trigger]
                        reaches(nodes@, idx as int, j) implies j == idx as int by {}
                    assert((nodes@, prims@) == spec_subdivide(
                        nodes@,
                        prims@,
                        idx as int,
                        s as int,
                        e as int,
                        threshold as int,
                    ));
                }
                return ;
            }
            proof {
                assert(-(COORD_LIMIT as int) <= bounds.lo(0) && bounds.lo(0) <= bounds.hi(0)
                    && bounds.hi(0) <= COORD_LIMIT as int);
                assert(-(COORD_LIMIT as int) <= bounds.lo(1) && bounds.lo(1) <= bounds.hi(1)
                    && bounds.hi(1) <= COORD_LIMIT as int);
                assert(-(COORD_LIMIT as int) <= bounds.lo(2) && bounds.lo(2) <= bounds.hi(2)
                    && bounds.hi(2) <= COORD_LIMIT as int);
            }
            // the split axis: the longest extent, ties kept on the earlier axis
            let ex = bounds.ub.x - bounds.lb.x;
            let ey = bounds.ub.y - bounds.lb.y;
            let ez = bounds.ub.z - bounds.lb.z;
            let mut axis: usize = 0;
            if ey > ex {
                axis = 1;
            }
            if ez > (if axis == 1 {
                ey
            } else {
                ex
            }) {
                axis = 2;
            }
            proof {
                assert(axis as int == longest_axis(bounds));
                assert(-(COORD_LIMIT as int) <= bounds.lo(axis as int) && bounds.lo(axis as int)
                    <= bounds.hi(axis as int) && bounds.hi(axis as int) <= COORD_LIMIT as int);
            }
            // the split plane: the spatial midpoint of the box on that axis
            let lo_a = bounds.lb.get(axis);
            let hi_a = bounds.ub.get(axis);
            let extent = hi_a - lo_a;
            let half = ((extent as u64) / 2) as i64;
            proof {
                vstd::arithmetic::div_mod::lemma_div_is_ordered(
                    extent as int,
                    2 * (extent as int),
                    2,
                );
                vstd::arithmetic::div_mod::lemma_div_multiples_vanish(extent as int, 2);
                assert(half as int == (extent as int) / 2);
                assert(half <= extent);
            }
            let sp = lo_a + half;
            proof {
                assert(sp as int == split_point(bounds));
            }
            let ghost p0 = prims@;
            let m = partition(prims, s, e, axis, sp);
            proof {
                // the primitive attaining the box's upper face on the split
                // axis sits at or above the midpoint, so the right side of the
                // partition cannot be empty
                let a = axis as int;
                assert(achieves_hi(bounds, p0, s as int, e as int, a));
                let kh = choose|w: int|
                    s as int <= w < e as int && #[trigger] p0[w].hi(a) == bounds.hi(a);
                let p = p0[kh];
                assert(p.wf());
                assert(bounds.lo(a) <= p0[kh].lo(a));
                let d = p.position.axis(a) - bounds.lo(a);
                assert(d >= p.radius);
                assert(p.radius >= 1);
                assert(bounds.hi(a) == p.position.axis(a) + p.radius);
                vstd::arithmetic::div_mod::lemma_div_is_ordered(d + p.radius, 2 * d, 2);
                vstd::arithmetic::div_mod::lemma_div_multiples_vanish(d, 2);
                assert((d + p.radius) / 2 <= d);
                assert(p.position.axis(a) >= sp as int);
                let k2 = lemma_range_elem_permuted(p0, prims@, s as int, e as int, kh);
                assert(prims@[k2].position.axis(a) >= sp as int);
                if m as int == e as int {
                    assert(prims@[k2].position.axis(a) < sp as int);
                }
                assert(m < e);
            }
            // degenerate split: everything landed on one side; keep the leaf
            if m == s || m == e - 1 {
                proof {
                    lemma_range_bounds_permuted(bounds, p0, prims@, s as int, e as int);
                    assert(tree_wf(nodes@, prims@, idx as int));
                    lemma_count_below_split(
                        prims@,
                        s as int,
                        e as int,
                        m as int,
                        axis as int,
                        sp as int,
                    );
                    assert(degenerate_split(prims@, s as int, e as int, bounds));
                    assert(leaves_within(nodes@, prims@, idx as int, threshold as int));
                    assert forall|j: int| #[trigger]
                        reaches(nodes@, idx as int, j) implies j == idx as int by {}
                    assert(nodes@[idx as int].bounds_spec() == bounds);
                    assert((nodes@, prims@) == spec_subdivide(
                        nodes@,
                        p0,
                        idx as int,
                        s as int,
                        e as int,
                        threshold as int,
                    ));
                }
                return ;
            }
            // append the two child leaves, bound them, and recurse
            let ghost len0 = nodes@.len();
            let zero = Vec3i { x: 0, y: 0, z: 0 };
            let l = nodes.len();
            nodes.push(Node::Leaf { bounds: Aabb { lb: zero, ub: zero }, start: s, end: m });
            let r = nodes.len();
            nodes.push(Node::Leaf { bounds: Aabb { lb: zero, ub: zero }, start: m, end: e });
            compute_bounds(nodes, prims, l);
            compute_bounds(nodes, prims, r);
            let ghost nodes_a = nodes@;
            let ghost prims_a = prims@;
            subdivide(nodes, prims, l, s, m, threshold);
            let ghost nodes_b = nodes@;
            let ghost prims_b = prims@;
            proof {
                // the right leaf is untouched and its range was not permuted
                assert(nodes@[r as int] == nodes_a[r as int]);
                lemma_subrange_pointwise(prims_a, prims@, m as int, e as int);
                lemma_range_bounds_permuted(
                    nodes@[r as int]->Leaf_bounds,
                    prims_a,
                    prims@,
                    m as int,
                    e as int,
                );
            }
            subdivide(nodes, prims, r, m, e, threshold);
            let ghost nodes_c = nodes@;
            let ghost prims_c = prims@;
            proof {
                // the left subtree survives the right recursion untouched
                assert forall|j: int| #[trigger] reaches(nodes_b, l as int, j) implies 0 <= j
                    < nodes_c.len() && nodes_c[j] == nodes_b[j] by {}
                assert forall|k: int|
                    span_start(nodes_b, l as int) <= k < span_end(
                        nodes_b,
                        l as int,
                    ) implies #[trigger] prims_c[k] == prims_b[k] by {}
                lemma_tree_frame(nodes_b, prims_b, nodes_c, prims_c, l as int, threshold as int);
            }
            // rewrite this slot as an internal node over the two children
            nodes.set(idx, Node::Internal { bounds: Aabb { lb: zero, ub: zero }, left: l, right: r });
            compute_bounds(nodes, prims, idx);
            proof {
                // both children survive the rewrite of their parent slot
                assert forall|j: int| #[trigger] reaches(nodes_c, l as int, j) implies 0 <= j
                    < nodes@.len() && nodes@[j] == nodes_c[j] by {
                    assert(reaches(nodes_b, l as int, j));
                }
                assert forall|k: int|
                    span_start(nodes_c, l as int) <= k < span_end(
                        nodes_c,
                        l as int,
                    ) implies #[trigger] prims@[k] == prims_c[k] by {}
                lemma_tree_frame(nodes_c, prims_c, nodes@, prims@, l as int, threshold as int);
                assert forall|j: int| #[trigger] reaches(nodes_c, r as int, j) implies 0 <= j
                    < nodes@.len() && nodes@[j] == nodes_c[j] by {}
                assert forall|k: int|
                    span_start(nodes_c, r as int) <= k < span_end(
                        nodes_c,
                        r as int,
                    ) implies #[trigger] prims@[k] == prims_c[k] by {}
                lemma_tree_frame(nodes_c, prims_c, nodes@, prims@, r as int, threshold as int);
                // the rebuilt slot now roots a well-formed subtree over [s, e)
                assert(span_start(nodes@, l as int) == s as int);
                assert(span_end(nodes@, l as int) == m as int);
                assert(span_start(nodes@, r as int) == m as int);
                assert(span_end(nodes@, r as int) == e as int);
                assert(tree_wf(nodes@, prims@, idx as int));
                assert(span_start(nodes@, idx as int) == s as int);
                assert(span_end(nodes@, idx as int) == e as int);
                assert(leaves_within(nodes@, prims@, idx as int, threshold as int));
                // reach bookkeeping: the subtree is this slot plus the appended ones
                assert forall|j: int| #[trigger]
                    reaches(nodes@, idx as int, j) implies j == idx as int || len0 <= j
                    < nodes@.len() by {
                    if j != idx as int {
                        if reaches(nodes@, l as int, j) {
                            assert(reaches(nodes_b, l as int, j));
                        } else {
                            assert(reaches(nodes@, r as int, j));
                            assert(reaches(nodes_c, r as int, j));
                        }
                    }
                }
                assert forall|j: int|
                    len0 <= j < nodes@.len() implies #[trigger] reaches(
                    nodes@,
                    idx as int,
                    j,
                ) by {
                    if j == l as int {
                        assert(reaches(nodes@, l as int, j));
                    } else if j == r as int {
                        assert(reaches(nodes@, r as int, j));
                    } else if j < nodes_b.len() {
                        assert(reaches(nodes_b, l as int, j));
                        assert(reaches(nodes@, l as int, j));
                    } else {
                        assert(reaches(nodes_c, r as int, j));
                        assert(reaches(nodes@, r as int, j));
                    }
                }
                // the range's multiset survives the partition and both recursions
                lemma_subrange_pointwise(prims_b, prims_c, s as int, m as int);
                lemma_multiset_split_join(prims_a, prims_b, s as int, m as int, e as int);
                lemma_multiset_split_join(prims_b, prims_c, s as int, m as int, e as int);
                assert(prims@.subrange(s as int, e as int).to_multiset() == p0.subrange(
                    s as int,
                    e as int,
                ).to_multiset());
                assert forall|k: int|
                    0 <= k < prims@.len() && !(s as int <= k < e as int) implies prims@[k] == old(
                    prims,
                )@[k] by {
                    assert(prims_a[k] == p0[k]);
                    assert(prims_b[k] == prims_a[k]);
                    assert(prims@[k] == prims_b[k]);
                }
                // the whole pass equals its functional model
                assert(old(nodes)@[idx as int].bounds_spec() == bounds);
                let lspec = Node::Leaf {
                    bounds: range_union_box(prims_a, s as int, m as int),
                    start: s,
                    end: m,
                };
                let rspec = Node::Leaf {
                    bounds: range_union_box(prims_a, m as int, e as int),
                    start: m,
                    end: e,
                };
                assert(nodes_a =~= old(nodes)@.push(lspec).push(rspec)) by {
                    assert forall|q: int| 0 <= q < nodes_a.len() implies nodes_a[q] == old(
                        nodes,
                    )@.push(lspec).push(rspec)[q] by {}
                }
                assert((nodes_b, prims_b) == spec_subdivide(
                    old(nodes)@.push(lspec).push(rspec),
                    prims_a,
                    l as int,
                    s as int,
                    m as int,
                    threshold as int,
                ));
                let bb = union_of(nodes_c[l as int].bounds_spec(), nodes_c[r as int].bounds_spec());
                assert(nodes@ =~= nodes_c.update(
                    idx as int,
                    Node::Internal { bounds: bb, left: l, right: r },
                )) by {
                    assert forall|q: int| 0 <= q < nodes@.len() implies nodes@[q]
                        == nodes_c.update(
                        idx as int,
                        Node::Internal { bounds: bb, left: l, right: r },
                    )[q] by {}
                }
                assert((nodes@, prims@) == spec_subdivide(
                    old(nodes)@,
                    old(prims)@,
                    idx as int,
                    s as int,
                    e as int,
                    threshold as int,
                ));
            }
        },
    }
}

/// What `build` constructs, as a function of its input alone: one root leaf
/// over the whole array, bounded bottom-up, then recursively subdivided.
/// Building twice from the same input therefore yields identical trees.
pub open spec fn spec_build(prims: Seq<Primitive>, threshold: int) -> (Seq<Node>, Seq<Primitive>) {
    let root = Node::Leaf {
        bounds: range_union_box(prims, 0, prims.len() as int),
        start: 0,
        end: prims.len() as usize,
    };
    spec_subdivide(seq![root], prims, 0, 0, prims.len() as int, threshold)
}

/// Builds the hierarchy over `primitives` with the given leaf threshold.
///
/// An empty array is rejected with `EmptyInput`, and a zero threshold (which
/// no non-empty leaf could ever meet) with `ZeroThreshold`. Otherwise the
/// result is a well-formed tree rooted at slot 0 spanning the whole array:
/// its primitive array is a permutation of the input, and every leaf either
/// respects the threshold or is the residue of a one-sided midpoint split.
/// The whole construction equals its functional model `spec_build`, so
/// building twice from the same input yields structurally identical trees.
pub fn build(primitives: Vec<Primitive>, leaf_threshold: usize) -> (r: Result<Bvh, BuildError>)
    requires
        forall|k: int| 0 <= k < primitives@.len() ==> (#[trigger] primitives@[k]).wf(),
    ensures
        r is Err <==> (primitives@.len() == 0 || leaf_threshold == 0),
        primitives@.len() == 0 ==> r == Result::<Bvh, BuildError>::Err(BuildError::EmptyInput),
        primitives@.len() > 0 && leaf_threshold == 0 ==> r == Result::<Bvh, BuildError>::Err(
            BuildError::ZeroThreshold,
        ),
        r is Ok ==> {
            let t = r->Ok_0;
            &&& (t.nodes@, t.primitives@) == spec_build(primitives@, leaf_threshold as int)
            &&& t.wf()
            &&& t.primitives@.len() == primitives@.len()
            &&& t.primitives@.to_multiset() == primitives@.to_multiset()
            &&& leaves_within(t.nodes@, t.primitives@, 0, leaf_threshold as int)
            &&& forall|j: int|
                0 <= j < t.nodes@.len() && t.nodes@[j] is Leaf
                    ==> t.nodes@[j]->Leaf_end - t.nodes@[j]->Leaf_start <= leaf_threshold as int
                    || degenerate_split(
                    t.primitives@,
                    t.nodes@[j]->Leaf_start as int,
                    t.nodes@[j]->Leaf_end as int,
                    t.nodes@[j]->Leaf_bounds,
                )
        },
{
    if primitives.len() == 0 {
        return Result::Err(BuildError::EmptyInput);
    }
    if leaf_threshold == 0 {
        return Result::Err(BuildError::ZeroThreshold);
    }
    let ghost p_init = primitives@;
    let n = primitives.len();
    let mut prims = primitives;
    let mut nodes: Vec<Node> = Vec::new();
    let zero = Vec3i { x: 0, y: 0, z: 0 };
    nodes.push(Node::Leaf { bounds: Aabb { lb: zero, ub: zero }, start: 0, end: n });
    compute_bounds(&mut nodes, &prims, 0);
    proof {
        let root = Node::Leaf {
            bounds: range_union_box(p_init, 0, p_init.len() as int),
            start: 0,
            end: p_init.len() as usize,
        };
        assert(nodes@ =~= seq![root]);
    }
    subdivide(&mut nodes, &mut prims, 0, 0, n, leaf_threshold);
    proof {
        assert((nodes@, prims@) == spec_build(p_init, leaf_threshold as int));
        assert forall|j: int| 0 <= j < nodes@.len() implies reaches(nodes@, 0, j) by {
            if j == 0 {
                assert(reaches(nodes@, 0, 0));
            }
        }
        assert(prims@.subrange(0, n as int) =~= prims@);
        assert(p_init.subrange(0, n as int) =~= p_init);
        assert(prims@.to_multiset() == p_init.to_multiset());
        assert forall|j: int|
            0 <= j < nodes@.len() && nodes@[j] is Leaf implies nodes@[j]->Leaf_end
            - nodes@[j]->Leaf_start <= leaf_threshold as int || degenerate_split(
            prims@,
            nodes@[j]->Leaf_start as int,
            nodes@[j]->Leaf_end as int,
            nodes@[j]->Leaf_bounds,
        ) by {
            lemma_leaves_within_reach(nodes@, prims@, 0, j, leaf_threshold as int);
        }
    }
    Result::Ok(Bvh { nodes, primitives: prims })
}

} // verus!
