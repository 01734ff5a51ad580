//! Axis-aligned boxes.

use crate::scalar::Scalar;
use crate::vec3::Vec3;
use vstd::prelude::*;

verus! {

/// The box of the points `p` with `min <= p <= max` on every axis. A box
/// whose corners are out of order, or hold something that is not a number,
/// holds no point.
#[derive(Clone, Copy, Debug, PartialEq, Eq)]
pub struct BBox {
    pub min: Vec3,
    pub max: Vec3,
}

impl BBox {
    /// Whether the point `p` lies in the box, its faces included.
    pub open spec fn holds(self, p: Vec3) -> bool {
        &&& self.min.x.at_most(p.x) && p.x.at_most(self.max.x)
        &&& self.min.y.at_most(p.y) && p.y.at_most(self.max.y)
        &&& self.min.z.at_most(p.z) && p.z.at_most(self.max.z)
    }

    /// Whether the corners of `inner` lie between the corners of this box.
    pub open spec fn encloses(self, inner: BBox) -> bool {
        &&& self.min.x.at_most(inner.min.x) && inner.max.x.at_most(self.max.x)
        &&& self.min.y.at_most(inner.min.y) && inner.max.y.at_most(self.max.y)
        &&& self.min.z.at_most(inner.min.z) && inner.max.z.at_most(self.max.z)
    }

    /// Whether the two boxes reach each other on every axis.
    pub open spec fn touches(self, other: BBox) -> bool {
        &&& other.min.x.at_most(self.max.x) && self.min.x.at_most(other.max.x)
        &&& other.min.y.at_most(self.max.y) && self.min.y.at_most(other.max.y)
        &&& other.min.z.at_most(self.max.z) && self.min.z.at_most(other.max.z)
    }

    /// The smallest box around two boxes. A corner that is not a number
    /// gives way to the other box's.
    pub open spec fn union(self, other: BBox) -> BBox {
        BBox {
            min: Vec3 {
                x: self.min.x.lesser(other.min.x),
                y: self.min.y.lesser(other.min.y),
                z: self.min.z.lesser(other.min.z),
            },
            max: Vec3 {
                x: self.max.x.greater(other.max.x),
                y: self.max.y.greater(other.max.y),
                z: self.max.z.greater(other.max.z),
            },
        }
    }

    /// The smallest box around those of `boxes` that are given, or `None`
    /// when none is.
    pub open spec fn union_of(boxes: Seq<Option<BBox>>) -> Option<BBox>
        decreases boxes.len(),
    {
        if boxes.len() == 0 {
            None
        } else {
            match (BBox::union_of(boxes.drop_last()), boxes.last()) {
                (Some(a), Some(b)) => Some(a.union(b)),
                (Some(a), None) => Some(a),
                (None, last) => last,
            }
        }
    }

    /// The box that is the one point at the origin.
    pub open spec fn origin() -> BBox {
        BBox {
            min: Vec3 { x: Scalar::zero(), y: Scalar::zero(), z: Scalar::zero() },
            max: Vec3 { x: Scalar::zero(), y: Scalar::zero(), z: Scalar::zero() },
        }
    }

    /// One of the eight boxes into which the point `s` cuts this box. Bit 2
    /// of `k` picks the upper half along x, bit 1 along y, bit 0 along z.
    pub open spec fn octant(self, s: Vec3, k: int) -> BBox {
        let upper_x = k / 4 % 2 == 1;
        let upper_y = k / 2 % 2 == 1;
        let upper_z = k % 2 == 1;
        BBox {
            min: Vec3 {
                x: if upper_x {
                    s.x
                } else {
                    self.min.x
                },
                y: if upper_y {
                    s.y
                } else {
                    self.min.y
                },
                z: if upper_z {
                    s.z
                } else {
                    self.min.z
                },
            },
            max: Vec3 {
                x: if upper_x {
                    self.max.x
                } else {
                    s.x
                },
                y: if upper_y {
                    self.max.y
                } else {
                    s.y
                },
                z: if upper_z {
                    self.max.z
                } else {
                    s.z
                },
            },
        }
    }

    /// Two boxes that share a point touch.
    pub proof fn lemma_shared_point_touches(self, other: BBox, p: Vec3)
        requires
            self.holds(p),
            other.holds(p),
        ensures
            self.touches(other),
    {
    }

    /// The union of two boxes holds every point of either.
    pub proof fn lemma_union_holds(self, other: BBox, p: Vec3)
        requires
            self.holds(p) || other.holds(p),
        ensures
            self.union(other).holds(p),
    {
    }

    /// The union of a list of boxes holds every point of each of them.
    pub proof fn lemma_union_of_holds(boxes: Seq<Option<BBox>>, i: int, p: Vec3)
        requires
            0 <= i < boxes.len(),
            boxes[i] matches Some(b) && b.holds(p),
        ensures
            BBox::union_of(boxes) matches Some(u) && u.holds(p),
        decreases boxes.len(),
    {
        let before = boxes.drop_last();
        if i < before.len() {
            BBox::lemma_union_of_holds(before, i, p);
            let a = BBox::union_of(before).unwrap();
            if let Some(b) = boxes.last() {
                a.lemma_union_holds(b, p);
            }
        } else {
            let b = boxes.last().unwrap();
            if let Some(a) = BBox::union_of(before) {
                a.lemma_union_holds(b, p);
            }
        }
    }

    /// The eight octants of a box, cut at a point of the box, leave no point
    /// of the box out.
    pub proof fn lemma_octants_cover(self, s: Vec3, p: Vec3)
        requires
            self.holds(s),
            self.holds(p),
        ensures
            exists|k: int| 0 <= k < 8 && #[trigger] self.octant(s, k).holds(p),
    {
        let x: int = if s.x.at_most(p.x) {
            1
        } else {
            0
        };
        let y: int = if s.y.at_most(p.y) {
            1
        } else {
            0
        };
        let z: int = if s.z.at_most(p.z) {
            1
        } else {
            0
        };
        let k = 4 * x + 2 * y + z;
        assert(k / 4 % 2 == x && k / 2 % 2 == y && k % 2 == z);
        assert(self.octant(s, k).holds(p));
    }

    /// Whether the point `p` lies in the box.
    pub fn inside(&self, p: &Vec3) -> (b: bool)
        ensures
            b == self.holds(*p),
    {
        self.min.x.le(p.x) && p.x.le(self.max.x) && self.min.y.le(p.y) && p.y.le(self.max.y)
            && self.min.z.le(p.z) && p.z.le(self.max.z)
    }

    /// Whether this box encloses `other`.
    pub fn contains(&self, other: &BBox) -> (b: bool)
        ensures
            b == self.encloses(*other),
    {
        self.min.x.le(other.min.x) && other.max.x.le(self.max.x) && self.min.y.le(other.min.y)
            && other.max.y.le(self.max.y) && self.min.z.le(other.min.z) && other.max.z.le(
            self.max.z,
        )
    }

    /// Whether the two boxes reach each other on every axis.
    pub fn overlaps(&self, other: &BBox) -> (b: bool)
        ensures
            b == self.touches(*other),
    {
        other.min.x.le(self.max.x) && self.min.x.le(other.max.x) && other.min.y.le(self.max.y)
            && self.min.y.le(other.max.y) && other.min.z.le(self.max.z) && self.min.z.le(
            other.max.z,
        )
    }

    /// The smallest box around two boxes.
    pub fn union_bbox(a: &BBox, b: &BBox) -> (u: BBox)
        ensures
            u == a.union(*b),
    {
        BBox {
            min: Vec3 {
                x: a.min.x.min(b.min.x),
                y: a.min.y.min(b.min.y),
                z: a.min.z.min(b.min.z),
            },
            max: Vec3 {
                x: a.max.x.max(b.max.x),
                y: a.max.y.max(b.max.y),
                z: a.max.z.max(b.max.z),
            },
        }
    }

    /// The smallest box around a box and a point.
    pub fn union_point(b: &BBox, p: &Vec3) -> (u: BBox)
        ensures
            u == b.union(BBox { min: *p, max: *p }),
    {
        BBox::union_bbox(b, &BBox { min: *p, max: *p })
    }

    /// The smallest box around those of `boxes` that are given.
    pub fn from_union(boxes: &Vec<Option<BBox>>) -> (u: Option<BBox>)
        ensures
            u == BBox::union_of(boxes@),
    {
        let mut u: Option<BBox> = None;
        let mut i: usize = 0;
        while i < boxes.len()
            invariant
                i <= boxes@.len(),
                u == BBox::union_of(boxes@.take(i as int)),
            decreases boxes@.len() - i,
        {
            proof {
                let next = boxes@.take(i + 1);
                assert(next.drop_last() =~= boxes@.take(i as int));
                assert(next.last() == boxes@[i as int]);
            }
            u = match (u, boxes[i]) {
                (Some(a), Some(b)) => Some(BBox::union_bbox(&a, &b)),
                (Some(a), None) => Some(a),
                (None, last) => last,
            };
            i = i + 1;
        }
        proof {
            assert(boxes@.take(i as int) =~= boxes@);
        }
        u
    }

    /// The box that is the one point at the origin.
    pub fn zero() -> (b: BBox)
        ensures
            b == BBox::origin(),
    {
        let o = Scalar::from_bits(0);
        BBox { min: Vec3 { x: o, y: o, z: o }, max: Vec3 { x: o, y: o, z: o } }
    }

    /// Octant `k` of this box, cut at `s`.
    pub fn octant_at(&self, s: &Vec3, k: usize) -> (b: BBox)
        requires
            k < 8,
        ensures
            b == self.octant(*s, k as int),
    {
        let upper_x: bool = k / 4 % 2 == 1;
        let upper_y: bool = k / 2 % 2 == 1;
        let upper_z: bool = k % 2 == 1;
        BBox {
            min: Vec3 {
                x: if upper_x {
                    s.x
                } else {
                    self.min.x
                },
                y: if upper_y {
                    s.y
                } else {
                    self.min.y
                },
                z: if upper_z {
                    s.z
                } else {
                    self.min.z
                },
            },
            max: Vec3 {
                x: if upper_x {
                    self.max.x
                } else {
                    s.x
                },
                y: if upper_y {
                    self.max.y
                } else {
                    s.y
                },
                z: if upper_z {
                    self.max.z
                } else {
                    s.z
                },
            },
        }
    }
}

} // verus!
