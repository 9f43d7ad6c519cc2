//! Integer 3-vectors, axis-aligned bounding boxes, and bounded primitives.
//!
//! All coordinates are integers kept within `COORD_LIMIT`, so that every box
//! computation the builder performs (corner offsets, extents, midpoints) is
//! free of overflow.

use vstd::prelude::*;

verus! {

/// Coordinates of a primitive's bounding box stay within this bound, so that
/// extents (at most `2 * COORD_LIMIT`) and midpoints fit comfortably in `i64`.
pub const COORD_LIMIT: i64 = 1_000_000_000_000;

/// A point in 3-space with integer coordinates.
#[derive(Clone, Copy, Debug, PartialEq, Eq, Structural)]
pub struct Vec3i {
    pub x: i64,
    pub y: i64,
    pub z: i64,
}

impl Vec3i {
    /// The coordinate on axis `a` (0 = x, 1 = y, 2 = z).
    pub open spec fn axis(self, a: int) -> int {
        if a == 0 {
            self.x as int
        } else if a == 1 {
            self.y as int
        } else {
            self.z as int
        }
    }

    /// Executable coordinate lookup by axis index.
    pub fn get(&self, a: usize) -> (r: i64)
        requires
            a < 3,
        ensures
            r as int == self.axis(a as int),
    {
        if a == 0 {
            self.x
        } else if a == 1 {
            self.y
        } else {
            self.z
        }
    }
}

/// An axis-aligned box: lower and upper corner.
#[derive(Clone, Copy, Debug, PartialEq, Eq, Structural)]
pub struct Aabb {
    pub lb: Vec3i,
    pub ub: Vec3i,
}

pub open spec fn min2(a: i64, b: i64) -> i64 {
    if a <= b {
        a
    } else {
        b
    }
}

pub open spec fn max2(a: i64, b: i64) -> i64 {
    if a >= b {
        a
    } else {
        b
    }
}

/// Componentwise union of two boxes: min of lower corners, max of upper corners.
/// Associative and commutative.
pub open spec fn union_of(a: Aabb, b: Aabb) -> Aabb {
    Aabb {
        lb: Vec3i {
            x: min2(a.lb.x, b.lb.x),
            y: min2(a.lb.y, b.lb.y),
            z: min2(a.lb.z, b.lb.z),
        },
        ub: Vec3i {
            x: max2(a.ub.x, b.ub.x),
            y: max2(a.ub.y, b.ub.y),
            z: max2(a.ub.z, b.ub.z),
        },
    }
}

impl Aabb {
    /// Lower corner coordinate on axis `a`.
    pub open spec fn lo(self, a: int) -> int {
        self.lb.axis(a)
    }

    /// Upper corner coordinate on axis `a`.
    pub open spec fn hi(self, a: int) -> int {
        self.ub.axis(a)
    }

    /// Non-degenerate on every axis and within coordinate limits.
    pub open spec fn wf(self) -> bool {
        forall|a: int|
            #![trigger self.lo(a)]
            #![trigger self.hi(a)]
            0 <= a < 3 ==> -(COORD_LIMIT as int) <= self.lo(a) && self.lo(a) <= self.hi(a)
                && self.hi(a) <= COORD_LIMIT as int
    }

    /// The smallest box containing both `self` and `other`.
    pub fn union(&self, other: &Aabb) -> (r: Aabb)
        ensures
            r == union_of(*self, *other),
    {
        Aabb {
            lb: Vec3i {
                x: if self.lb.x <= other.lb.x {
                    self.lb.x
                } else {
                    other.lb.x
                },
                y: if self.lb.y <= other.lb.y {
                    self.lb.y
                } else {
                    other.lb.y
                },
                z: if self.lb.z <= other.lb.z {
                    self.lb.z
                } else {
                    other.lb.z
                },
            },
            ub: Vec3i {
                x: if self.ub.x >= other.ub.x {
                    self.ub.x
                } else {
                    other.ub.x
                },
                y: if self.ub.y >= other.ub.y {
                    self.ub.y
                } else {
                    other.ub.y
                },
                z: if self.ub.z >= other.ub.z {
                    self.ub.z
                } else {
                    other.ub.z
                },
            },
        }
    }
}

/// How `union_of` reads per axis.
pub proof fn lemma_union_axes(x: Aabb, y: Aabb)
    ensures
        forall|a: int|
            0 <= a < 3 ==> #[trigger] union_of(x, y).lo(a) == if x.lo(a) <= y.lo(a) {
                x.lo(a)
            } else {
                y.lo(a)
            },
        forall|a: int|
            0 <= a < 3 ==> #[trigger] union_of(x, y).hi(a) == if x.hi(a) >= y.hi(a) {
                x.hi(a)
            } else {
                y.hi(a)
            },
{
}

/// A sphere-like primitive: a position and a positive radius.
#[derive(Clone, Copy, Debug, PartialEq, Eq, Structural)]
pub struct Primitive {
    pub position: Vec3i,
    pub radius: i64,
}

impl Primitive {
    /// Lower corner of this primitive's bounding box on axis `a`.
    pub open spec fn lo(self, a: int) -> int {
        self.position.axis(a) - self.radius
    }

    /// Upper corner of this primitive's bounding box on axis `a`.
    pub open spec fn hi(self, a: int) -> int {
        self.position.axis(a) + self.radius
    }

    /// Positive radius, and the circumscribing box within coordinate limits.
    pub open spec fn wf(self) -> bool {
        self.radius >= 1 && forall|a: int|
            #![trigger self.lo(a)]
            #![trigger self.hi(a)]
            0 <= a < 3 ==> -(COORD_LIMIT as int) <= self.lo(a) && self.hi(a) <= COORD_LIMIT as int
    }

    /// Executable check of `wf`: positive radius and a box within limits.
    pub fn is_wf(&self) -> (r: bool)
        ensures
            r == self.wf(),
    {
        if self.radius < 1 || self.radius > COORD_LIMIT {
            proof {
                if self.radius > COORD_LIMIT && self.wf() {
                    assert(-(COORD_LIMIT as int) <= self.lo(0) && self.hi(0) <= COORD_LIMIT as int);
                }
            }
            return false;
        }
        let lo_bound = -COORD_LIMIT + self.radius;
        let hi_bound = COORD_LIMIT - self.radius;
        let r = lo_bound <= self.position.x && self.position.x <= hi_bound && lo_bound
            <= self.position.y && self.position.y <= hi_bound && lo_bound <= self.position.z
            && self.position.z <= hi_bound;
        proof {
            if r {
                assert forall|a: int|
                    0 <= a < 3 implies -(COORD_LIMIT as int) <= self.lo(a) && self.hi(a)
                    <= COORD_LIMIT as int by {}
            } else if self.wf() {
                assert(-(COORD_LIMIT as int) <= self.lo(0) && self.hi(0) <= COORD_LIMIT as int);
                assert(-(COORD_LIMIT as int) <= self.lo(1) && self.hi(1) <= COORD_LIMIT as int);
                assert(-(COORD_LIMIT as int) <= self.lo(2) && self.hi(2) <= COORD_LIMIT as int);
            }
        }
        r
    }

    /// The axis-aligned box circumscribing the sphere: position +/- radius on
    /// every axis (a cube, not a tight sphere bound).
    pub fn bounds(&self) -> (r: Aabb)
        requires
            self.wf(),
        ensures
            r == prim_box(*self),
            forall|a: int| 0 <= a < 3 ==> #[trigger] r.lo(a) == self.lo(a),
            forall|a: int| 0 <= a < 3 ==> #[trigger] r.hi(a) == self.hi(a),
            r.wf(),
    {
        proof {
            assert(-(COORD_LIMIT as int) <= self.lo(0) && self.hi(0) <= COORD_LIMIT as int);
            assert(-(COORD_LIMIT as int) <= self.lo(1) && self.hi(1) <= COORD_LIMIT as int);
            assert(-(COORD_LIMIT as int) <= self.lo(2) && self.hi(2) <= COORD_LIMIT as int);
        }
        let r = Aabb {
            lb: Vec3i {
                x: self.position.x - self.radius,
                y: self.position.y - self.radius,
                z: self.position.z - self.radius,
            },
            ub: Vec3i {
                x: self.position.x + self.radius,
                y: self.position.y + self.radius,
                z: self.position.z + self.radius,
            },
        };
        proof {
            assert forall|a: int| 0 <= a < 3 implies #[trigger] r.lo(a) == self.lo(a)
                && #[trigger] r.hi(a) == self.hi(a) by {
                assert(-(COORD_LIMIT as int) <= self.lo(a) && self.hi(a) <= COORD_LIMIT as int);
            }
        }
        r
    }
}

/// The box circumscribing one primitive: position +/- radius on every axis.
pub open spec fn prim_box(p: Primitive) -> Aabb {
    Aabb {
        lb: Vec3i {
            x: (p.position.x - p.radius) as i64,
            y: (p.position.y - p.radius) as i64,
            z: (p.position.z - p.radius) as i64,
        },
        ub: Vec3i {
            x: (p.position.x + p.radius) as i64,
            y: (p.position.y + p.radius) as i64,
            z: (p.position.z + p.radius) as i64,
        },
    }
}

/// The left-to-right fold of `union_of` over the boxes of `prims[s..e)`.
pub open spec fn range_union_box(prims: Seq<Primitive>, s: int, e: int) -> Aabb
    decreases e - s,
{
    if e <= s + 1 {
        prim_box(prims[s])
    } else {
        union_of(range_union_box(prims, s, e - 1), prim_box(prims[e - 1]))
    }
}

/// Some primitive in `prims[s..e)` attains the lower face of `b` on axis `a`.
pub open spec fn achieves_lo(b: Aabb, prims: Seq<Primitive>, s: int, e: int, a: int) -> bool {
    exists|k: int| s <= k < e && #[trigger] prims[k].lo(a) == b.lo(a)
}

/// Some primitive in `prims[s..e)` attains the upper face of `b` on axis `a`.
pub open spec fn achieves_hi(b: Aabb, prims: Seq<Primitive>, s: int, e: int, a: int) -> bool {
    exists|k: int| s <= k < e && #[trigger] prims[k].hi(a) == b.hi(a)
}

/// `b` is exactly the union of the boxes of `prims[s..e)`: it contains every
/// one of them, and each face of `b` is achieved by some primitive in the
/// range. For a non-empty range this pins `b` down uniquely.
pub open spec fn is_range_bounds(b: Aabb, prims: Seq<Primitive>, s: int, e: int) -> bool {
    &&& forall|k: int, a: int| s <= k < e && 0 <= a < 3 ==> b.lo(a) <= #[trigger] prims[k].lo(a)
    &&& forall|k: int, a: int| s <= k < e && 0 <= a < 3 ==> #[trigger] prims[k].hi(a) <= b.hi(a)
    &&& forall|a: int| 0 <= a < 3 ==> #[trigger] achieves_lo(b, prims, s, e, a)
    &&& forall|a: int| 0 <= a < 3 ==> #[trigger] achieves_hi(b, prims, s, e, a)
}

/// How `prim_box` reads per axis for a well-formed primitive.
pub proof fn lemma_prim_box_axes(p: Primitive)
    requires
        p.wf(),
    ensures
        forall|a: int| 0 <= a < 3 ==> #[trigger] prim_box(p).lo(a) == p.lo(a),
        forall|a: int| 0 <= a < 3 ==> #[trigger] prim_box(p).hi(a) == p.hi(a),
{
    assert forall|a: int| 0 <= a < 3 implies #[trigger] prim_box(p).lo(a) == p.lo(a) by {
        assert(-(COORD_LIMIT as int) <= p.lo(a) && p.hi(a) <= COORD_LIMIT as int);
    }
    assert forall|a: int| 0 <= a < 3 implies #[trigger] prim_box(p).hi(a) == p.hi(a) by {
        assert(-(COORD_LIMIT as int) <= p.lo(a) && p.hi(a) <= COORD_LIMIT as int);
        assert(p.lo(a) <= p.hi(a));
    }
}

/// The fold of `union_of` over a non-empty range of well-formed primitives is
/// their exact bounds: it contains each box and each face is achieved.
pub proof fn lemma_range_union_box_exact(prims: Seq<Primitive>, s: int, e: int)
    requires
        0 <= s < e <= prims.len(),
        forall|k: int| s <= k < e ==> (#[trigger] prims[k]).wf(),
    ensures
        is_range_bounds(range_union_box(prims, s, e), prims, s, e),
    decreases e - s,
{
    let b = range_union_box(prims, s, e);
    if e == s + 1 {
        lemma_prim_box_axes(prims[s]);
        assert forall|t: int, a: int| s <= t < e && 0 <= a < 3 implies b.lo(a)
            <= #[trigger] prims[t].lo(a) by {
            assert(b.lo(a) == prims[s].lo(a));
        }
        assert forall|t: int, a: int| s <= t < e && 0 <= a < 3 implies #[trigger] prims[t].hi(a)
            <= b.hi(a) by {
            assert(b.hi(a) == prims[s].hi(a));
        }
        assert forall|a: int| 0 <= a < 3 implies #[trigger] achieves_lo(b, prims, s, e, a) by {
            assert(prims[s].lo(a) == b.lo(a));
        }
        assert forall|a: int| 0 <= a < 3 implies #[trigger] achieves_hi(b, prims, s, e, a) by {
            assert(prims[s].hi(a) == b.hi(a));
        }
    } else {
        lemma_range_union_box_exact(prims, s, e - 1);
        let b0 = range_union_box(prims, s, e - 1);
        let pb = prim_box(prims[e - 1]);
        lemma_prim_box_axes(prims[e - 1]);
        lemma_union_axes(b0, pb);
        assert forall|t: int, a: int| s <= t < e && 0 <= a < 3 implies b.lo(a)
            <= #[trigger] prims[t].lo(a) by {
            if t < e - 1 {
                assert(b0.lo(a) <= prims[t].lo(a));
            } else {
                assert(pb.lo(a) == prims[t].lo(a));
            }
        }
        assert forall|t: int, a: int| s <= t < e && 0 <= a < 3 implies #[trigger] prims[t].hi(a)
            <= b.hi(a) by {
            if t < e - 1 {
                assert(prims[t].hi(a) <= b0.hi(a));
            } else {
                assert(pb.hi(a) == prims[t].hi(a));
            }
        }
        assert forall|a: int| 0 <= a < 3 implies #[trigger] achieves_lo(b, prims, s, e, a) by {
            assert(achieves_lo(b0, prims, s, e - 1, a));
            let w = choose|w: int| s <= w < e - 1 && #[trigger] prims[w].lo(a) == b0.lo(a);
            if b0.lo(a) <= pb.lo(a) {
                assert(prims[w].lo(a) == b.lo(a));
            } else {
                assert(prims[e - 1].lo(a) == b.lo(a));
            }
        }
        assert forall|a: int| 0 <= a < 3 implies #[trigger] achieves_hi(b, prims, s, e, a) by {
            assert(achieves_hi(b0, prims, s, e - 1, a));
            let w = choose|w: int| s <= w < e - 1 && #[trigger] prims[w].hi(a) == b0.hi(a);
            if b0.hi(a) >= pb.hi(a) {
                assert(prims[w].hi(a) == b.hi(a));
            } else {
                assert(prims[e - 1].hi(a) == b.hi(a));
            }
        }
    }
}

/// Exact range bounds are unique: the containment and achievement clauses
/// leave only one box, the componentwise union of the range's boxes.
pub proof fn lemma_range_bounds_unique(b1: Aabb, b2: Aabb, prims: Seq<Primitive>, s: int, e: int)
    requires
        s < e,
        is_range_bounds(b1, prims, s, e),
        is_range_bounds(b2, prims, s, e),
    ensures
        b1 == b2,
{
    assert forall|a: int| 0 <= a < 3 implies b1.lo(a) == b2.lo(a) && b1.hi(a) == b2.hi(a) by {
        assert(achieves_lo(b1, prims, s, e, a));
        let k1 = choose|k: int| s <= k < e && #[trigger] prims[k].lo(a) == b1.lo(a);
        assert(b2.lo(a) <= prims[k1].lo(a));
        assert(achieves_lo(b2, prims, s, e, a));
        let k2 = choose|k: int| s <= k < e && #[trigger] prims[k].lo(a) == b2.lo(a);
        assert(b1.lo(a) <= prims[k2].lo(a));
        assert(achieves_hi(b1, prims, s, e, a));
        let k3 = choose|k: int| s <= k < e && #[trigger] prims[k].hi(a) == b1.hi(a);
        assert(prims[k3].hi(a) <= b2.hi(a));
        assert(achieves_hi(b2, prims, s, e, a));
        let k4 = choose|k: int| s <= k < e && #[trigger] prims[k].hi(a) == b2.hi(a);
        assert(prims[k4].hi(a) <= b1.hi(a));
    }
    assert(b1.lo(0) == b2.lo(0) && b1.lo(1) == b2.lo(1) && b1.lo(2) == b2.lo(2));
    assert(b1.hi(0) == b2.hi(0) && b1.hi(1) == b2.hi(1) && b1.hi(2) == b2.hi(2));
}

} // verus!
