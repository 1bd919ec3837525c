//! Axis-aligned bounding boxes over ordered coordinate keys.
//!
//! A coordinate is held as a `u64` key whose integer order is the order of
//! the coordinate it stands for, so that the minimum and maximum of two keys
//! are the keys of the minimum and maximum of the coordinates.
use vstd::prelude::*;

verus! {

pub open spec fn min_u64(a: u64, b: u64) -> u64 {
    if a <= b { a } else { b }
}

pub open spec fn max_u64(a: u64, b: u64) -> u64 {
    if a >= b { a } else { b }
}

/// A point of three coordinate keys.
#[derive(Clone, Copy, Debug)]
pub struct Point {
    pub x: u64,
    pub y: u64,
    pub z: u64,
}

impl Point {
    /// The key on axis `a` (0, 1 or 2).
    pub open spec fn at(self, a: int) -> u64 {
        if a == 0 {
            self.x
        } else if a == 1 {
            self.y
        } else {
            self.z
        }
    }

    pub fn new(x: u64, y: u64, z: u64) -> (r: Point)
        ensures
            r.x == x,
            r.y == y,
            r.z == z,
    {
        Point { x, y, z }
    }

    /// The key on axis `a`.
    pub fn axis(&self, a: usize) -> (r: u64)
        requires
            a < 3,
        ensures
            r == self.at(a as int),
    {
        if a == 0 {
            self.x
        } else if a == 1 {
            self.y
        } else {
            self.z
        }
    }

    pub open spec fn min_spec(self, o: Point) -> Point {
        Point { x: min_u64(self.x, o.x), y: min_u64(self.y, o.y), z: min_u64(self.z, o.z) }
    }

    pub open spec fn max_spec(self, o: Point) -> Point {
        Point { x: max_u64(self.x, o.x), y: max_u64(self.y, o.y), z: max_u64(self.z, o.z) }
    }

    /// Componentwise minimum.
    pub fn min(&self, o: &Point) -> (r: Point)
        ensures
            r == self.min_spec(*o),
    {
        Point {
            x: if self.x <= o.x { self.x } else { o.x },
            y: if self.y <= o.y { self.y } else { o.y },
            z: if self.z <= o.z { self.z } else { o.z },
        }
    }

    /// Componentwise maximum.
    pub fn max(&self, o: &Point) -> (r: Point)
        ensures
            r == self.max_spec(*o),
    {
        Point {
            x: if self.x >= o.x { self.x } else { o.x },
            y: if self.y >= o.y { self.y } else { o.y },
            z: if self.z >= o.z { self.z } else { o.z },
        }
    }
}

/// An axis-aligned box given by its two corners.
#[derive(Clone, Copy, Debug)]
pub struct AABB {
    pub min: Point,
    pub max: Point,
}

impl AABB {
    /// Every axis has `min <= max`.
    pub open spec fn valid(self) -> bool {
        forall|a: int| 0 <= a < 3 ==> #[trigger] self.min.at(a) <= self.max.at(a)
    }

    /// Every point of `o` lies in this box.
    pub open spec fn contains(self, o: AABB) -> bool {
        forall|a: int|
            0 <= a < 3 ==> self.min.at(a) <= #[trigger] o.min.at(a) && o.max.at(a) <= self.max.at(
                a,
            )
    }

    pub open spec fn union_spec(self, o: AABB) -> AABB {
        AABB { min: self.min.min_spec(o.min), max: self.max.max_spec(o.max) }
    }

    pub fn new(min: Point, max: Point) -> (r: AABB)
        ensures
            r.min == min,
            r.max == max,
    {
        AABB { min, max }
    }

    /// The smallest box holding both boxes: componentwise min of the mins and
    /// max of the maxes.
    pub fn union(&self, o: &AABB) -> (r: AABB)
        ensures
            r == self.union_spec(*o),
    {
        AABB { min: self.min.min(&o.min), max: self.max.max(&o.max) }
    }
}

/// The union of two boxes contains both of them, does not depend on their
/// order, and is valid when both are.
pub proof fn lemma_union_contains(a: AABB, b: AABB)
    ensures
        a.union_spec(b).contains(a),
        a.union_spec(b).contains(b),
        a.union_spec(b) == b.union_spec(a),
        a.valid() && b.valid() ==> a.union_spec(b).valid(),
{
    let u = a.union_spec(b);
    assert forall|i: int| 0 <= i < 3 implies u.min.at(i) == min_u64(a.min.at(i), b.min.at(i))
        && u.max.at(i) == max_u64(a.max.at(i), b.max.at(i)) by {}
    if a.valid() && b.valid() {
        assert forall|i: int| 0 <= i < 3 implies #[trigger] u.min.at(i) <= u.max.at(i) by {
            assert(a.min.at(i) <= a.max.at(i));
            assert(b.min.at(i) <= b.max.at(i));
        }
    }
}

/// Containment is transitive.
pub proof fn lemma_contains_trans(a: AABB, b: AABB, c: AABB)
    requires
        a.contains(b),
        b.contains(c),
    ensures
        a.contains(c),
{
    assert forall|i: int| 0 <= i < 3 implies a.min.at(i) <= #[trigger] c.min.at(i) && c.max.at(i)
        <= a.max.at(i) by {
        assert(b.min.at(i) <= c.min.at(i));
        assert(a.min.at(i) <= b.min.at(i));
    }
}

} // verus!
