use vstd::prelude::*;
use crate::point::{Point, fits_i32};

verus! {

pub open spec fn abs_int(v: int) -> int {
    if v < 0 { -v } else { v }
}

/// Half of `v`, rounded toward zero (the rounding of `/` on machine integers).
pub open spec fn trunc_half(v: int) -> int {
    if v >= 0 { v / 2 } else { -((-v) / 2) }
}

/// Lowest coordinate covered along one axis by a box with center `c` and size `d`.
pub open spec fn axis_min(c: int, d: int) -> int {
    c - abs_int(d) / 2
}

/// Highest coordinate covered along one axis; the upper bound is inclusive.
pub open spec fn axis_max(c: int, d: int) -> int {
    axis_min(c, d) + abs_int(d) - 1
}

/// Every intermediate value of the computation of the bounds along one axis fits in an `i32`.
pub open spec fn axis_ok(c: int, d: int) -> bool {
    &&& d > i32::MIN
    &&& fits_i32(axis_min(c, d))
    &&& fits_i32(axis_min(c, d) + abs_int(d))
    &&& fits_i32(axis_max(c, d))
}

/// The center and size along one axis of the box spanning `lo..=hi` fit in an `i32`.
pub open spec fn extents_axis_ok(lo: int, hi: int) -> bool {
    &&& fits_i32(hi - lo)
    &&& fits_i32(hi - lo + 1)
    &&& fits_i32(lo + trunc_half(hi - lo + 1))
}

pub open spec fn max_int(a: int, b: int) -> int {
    if a >= b { a } else { b }
}

pub open spec fn min_int(a: int, b: int) -> int {
    if a <= b { a } else { b }
}

/// An axis-aligned box on the integer grid, given by its center and its size.
/// The bounds `get_min()..=get_max()` are inclusive on both ends; a negative size
/// counts as its absolute value.
#[derive(Debug, Clone, Copy, PartialEq, Eq, Structural)]
pub struct AABB {
    pub center: Point,
    pub dimensions: Point,
}

impl AABB {
    pub open spec fn well_sized(self) -> bool {
        &&& axis_ok(self.center.x as int, self.dimensions.x as int)
        &&& axis_ok(self.center.y as int, self.dimensions.y as int)
        &&& axis_ok(self.center.z as int, self.dimensions.z as int)
    }

    pub open spec fn min_x(self) -> int { axis_min(self.center.x as int, self.dimensions.x as int) }
    pub open spec fn min_y(self) -> int { axis_min(self.center.y as int, self.dimensions.y as int) }
    pub open spec fn min_z(self) -> int { axis_min(self.center.z as int, self.dimensions.z as int) }
    pub open spec fn max_x(self) -> int { axis_max(self.center.x as int, self.dimensions.x as int) }
    pub open spec fn max_y(self) -> int { axis_max(self.center.y as int, self.dimensions.y as int) }
    pub open spec fn max_z(self) -> int { axis_max(self.center.z as int, self.dimensions.z as int) }

    /// The point is inside the box, bounds included.
    pub open spec fn contains_spec(self, p: Point) -> bool {
        &&& self.min_x() <= p.x <= self.max_x()
        &&& self.min_y() <= p.y <= self.max_y()
        &&& self.min_z() <= p.z <= self.max_z()
    }

    /// Number of grid points in the box (for a box of nonnegative size).
    pub open spec fn volume(self) -> int {
        abs_int(self.dimensions.x as int) * abs_int(self.dimensions.y as int) * abs_int(
            self.dimensions.z as int,
        )
    }

    /// The box with every point of `other` inside this one.
    pub open spec fn encloses(self, other: AABB) -> bool {
        &&& self.min_x() <= other.min_x() && other.max_x() <= self.max_x()
        &&& self.min_y() <= other.min_y() && other.max_y() <= self.max_y()
        &&& self.min_z() <= other.min_z() && other.max_z() <= self.max_z()
    }

    /// The two boxes have no point in common.
    pub open spec fn disjoint(self, other: AABB) -> bool {
        ||| self.max_x() < other.min_x() || other.max_x() < self.min_x()
        ||| self.max_y() < other.min_y() || other.max_y() < self.min_y()
        ||| self.max_z() < other.min_z() || other.max_z() < self.min_z()
    }

    /// The box that `from_extents(min, max)` builds.
    pub open spec fn extents_spec(min: Point, max: Point) -> AABB {
        AABB {
            center: Point {
                x: (min.x + trunc_half(max.x - min.x + 1)) as i32,
                y: (min.y + trunc_half(max.y - min.y + 1)) as i32,
                z: (min.z + trunc_half(max.z - min.z + 1)) as i32,
            },
            dimensions: Point {
                x: (max.x - min.x + 1) as i32,
                y: (max.y - min.y + 1) as i32,
                z: (max.z - min.z + 1) as i32,
            },
        }
    }

    pub open spec fn extents_ok(min: Point, max: Point) -> bool {
        &&& extents_axis_ok(min.x as int, max.x as int)
        &&& extents_axis_ok(min.y as int, max.y as int)
        &&& extents_axis_ok(min.z as int, max.z as int)
    }

    /// Lower corner of the intersection of two boxes.
    pub open spec fn meet_min(self, other: AABB) -> Point {
        Point {
            x: max_int(self.min_x(), other.min_x()) as i32,
            y: max_int(self.min_y(), other.min_y()) as i32,
            z: max_int(self.min_z(), other.min_z()) as i32,
        }
    }

    /// Upper corner of the intersection of two boxes.
    pub open spec fn meet_max(self, other: AABB) -> Point {
        Point {
            x: min_int(self.max_x(), other.max_x()) as i32,
            y: min_int(self.max_y(), other.max_y()) as i32,
            z: min_int(self.max_z(), other.max_z()) as i32,
        }
    }

    pub open spec fn intersects_spec(self, other: AABB) -> bool {
        &&& self.min_x() <= other.max_x() && self.max_x() >= other.min_x()
        &&& self.min_y() <= other.max_y() && self.max_y() >= other.min_y()
        &&& self.min_z() <= other.max_z() && self.max_z() >= other.min_z()
    }

    pub fn new(center: Point, dimensions: Point) -> (r: AABB)
        ensures
            r.center == center,
            r.dimensions == dimensions,
    {
        AABB { center, dimensions }
    }

    /// The box spanning `min..=max` (both corners included).
    pub fn from_extents(min: Point, max: Point) -> (r: AABB)
        requires
            AABB::extents_ok(min, max),
        ensures
            r == AABB::extents_spec(min, max),
    {
        let dx: i32 = max.x - min.x + 1;
        let dy: i32 = max.y - min.y + 1;
        let dz: i32 = max.z - min.z + 1;
        let center = Point::new(min.x + dx / 2, min.y + dy / 2, min.z + dz / 2);
        AABB { center, dimensions: Point::new(dx, dy, dz) }
    }

    /// The lowest corner of the box.
    pub fn get_min(&self) -> (r: Point)
        requires
            self.well_sized(),
        ensures
            r.x == self.min_x(),
            r.y == self.min_y(),
            r.z == self.min_z(),
    {
        Point::new(
            self.center.x - abs_i32(self.dimensions.x) / 2,
            self.center.y - abs_i32(self.dimensions.y) / 2,
            self.center.z - abs_i32(self.dimensions.z) / 2,
        )
    }

    /// The highest corner of the box (inclusive).
    pub fn get_max(&self) -> (r: Point)
        requires
            self.well_sized(),
        ensures
            r.x == self.max_x(),
            r.y == self.max_y(),
            r.z == self.max_z(),
    {
        let min = self.get_min();
        Point::new(
            min.x + abs_i32(self.dimensions.x) - 1,
            min.y + abs_i32(self.dimensions.y) - 1,
            min.z + abs_i32(self.dimensions.z) - 1,
        )
    }

    /// The box spanning the points that both boxes cover. Where the boxes do not
    /// overlap along an axis, the result is built from crossed extents all the same.
    pub fn get_intersection(&self, other: AABB) -> (r: AABB)
        requires
            self.well_sized(),
            other.well_sized(),
            AABB::extents_ok(self.meet_min(other), self.meet_max(other)),
        ensures
            r == AABB::extents_spec(self.meet_min(other), self.meet_max(other)),
    {
        let min = self.get_min();
        let max = self.get_max();
        let other_min = other.get_min();
        let other_max = other.get_max();
        let lo = Point::new(
            max_i32(min.x, other_min.x),
            max_i32(min.y, other_min.y),
            max_i32(min.z, other_min.z),
        );
        let hi = Point::new(
            min_i32(max.x, other_max.x),
            min_i32(max.y, other_max.y),
            min_i32(max.z, other_max.z),
        );
        AABB::from_extents(lo, hi)
    }

    /// Whether the two boxes share at least one point.
    pub fn intersects_bounds(&self, other: AABB) -> (b: bool)
        requires
            self.well_sized(),
            other.well_sized(),
        ensures
            b == self.intersects_spec(other),
    {
        let min = self.get_min();
        let max = self.get_max();
        let other_min = other.get_min();
        let other_max = other.get_max();
        min.x <= other_max.x && max.x >= other_min.x && min.y <= other_max.y && max.y
            >= other_min.y && min.z <= other_max.z && max.z >= other_min.z
    }

    /// Whether the point lies inside the box, bounds included.
    pub fn contains_point(&self, point: Point) -> (b: bool)
        requires
            self.well_sized(),
        ensures
            b == self.contains_spec(point),
    {
        let min = self.get_min();
        let max = self.get_max();
        point.x >= min.x && point.x <= max.x && point.y >= min.y && point.y <= max.y && point.z
            >= min.z && point.z <= max.z
    }
}

pub fn abs_i32(v: i32) -> (r: i32)
    requires
        v > i32::MIN,
    ensures
        r == abs_int(v as int),
{
    if v < 0 { -v } else { v }
}

pub fn max_i32(a: i32, b: i32) -> (r: i32)
    ensures
        r == max_int(a as int, b as int),
{
    if a >= b { a } else { b }
}

pub fn min_i32(a: i32, b: i32) -> (r: i32)
    ensures
        r == min_int(a as int, b as int),
{
    if a <= b { a } else { b }
}

/// Building a box from extents and reading its bounds back gives the extents again,
/// for every pair of corners whose box is not of negative size.
pub proof fn lemma_extents_round_trip(min: Point, max: Point)
    requires
        AABB::extents_ok(min, max),
        min.x <= max.x + 1,
        min.y <= max.y + 1,
        min.z <= max.z + 1,
        max.x < i32::MAX,
        max.y < i32::MAX,
        max.z < i32::MAX,
    ensures
        AABB::extents_spec(min, max).well_sized(),
        AABB::extents_spec(min, max).min_x() == min.x,
        AABB::extents_spec(min, max).min_y() == min.y,
        AABB::extents_spec(min, max).min_z() == min.z,
        AABB::extents_spec(min, max).max_x() == max.x,
        AABB::extents_spec(min, max).max_y() == max.y,
        AABB::extents_spec(min, max).max_z() == max.z,
        AABB::extents_spec(min, max).volume() == (max.x - min.x + 1) * (max.y - min.y + 1) * (
        max.z - min.z + 1),
        forall|p: Point|
            AABB::extents_spec(min, max).contains_spec(p) <==> (min.x <= p.x <= max.x && min.y
                <= p.y <= max.y && min.z <= p.z <= max.z),
{
    lemma_axis_round_trip(min.x as int, max.x as int);
    lemma_axis_round_trip(min.y as int, max.y as int);
    lemma_axis_round_trip(min.z as int, max.z as int);
}

proof fn lemma_axis_round_trip(lo: int, hi: int)
    requires
        extents_axis_ok(lo, hi),
        fits_i32(lo),
        fits_i32(hi),
        lo <= hi + 1,
        hi < i32::MAX,
    ensures
        axis_ok(lo + trunc_half(hi - lo + 1), hi - lo + 1),
        axis_min(lo + trunc_half(hi - lo + 1), hi - lo + 1) == lo,
        axis_max(lo + trunc_half(hi - lo + 1), hi - lo + 1) == hi,
{
}

/// A point lies in the intersection of two boxes exactly when it lies in both,
/// wherever the two boxes overlap or touch along every axis.
pub proof fn lemma_intersection_contains(a: AABB, b: AABB, p: Point)
    requires
        a.well_sized(),
        b.well_sized(),
        AABB::extents_ok(a.meet_min(b), a.meet_max(b)),
        a.meet_min(b).x <= a.meet_max(b).x + 1,
        a.meet_min(b).y <= a.meet_max(b).y + 1,
        a.meet_min(b).z <= a.meet_max(b).z + 1,
        a.meet_max(b).x < i32::MAX,
        a.meet_max(b).y < i32::MAX,
        a.meet_max(b).z < i32::MAX,
    ensures
        AABB::extents_spec(a.meet_min(b), a.meet_max(b)).well_sized(),
        AABB::extents_spec(a.meet_min(b), a.meet_max(b)).contains_spec(p) <==> (a.contains_spec(
            p,
        ) && b.contains_spec(p)),
{
    lemma_extents_round_trip(a.meet_min(b), a.meet_max(b));
}


/// The componentwise least corner of a nonempty list of points.
pub open spec fn min_corner(s: Seq<Point>) -> Point
    decreases s.len(),
{
    if s.len() <= 1 {
        s[0]
    } else {
        let m = min_corner(s.drop_last());
        Point {
            x: min_int(m.x as int, s.last().x as int) as i32,
            y: min_int(m.y as int, s.last().y as int) as i32,
            z: min_int(m.z as int, s.last().z as int) as i32,
        }
    }
}

/// The componentwise greatest corner of a nonempty list of points.
pub open spec fn max_corner(s: Seq<Point>) -> Point
    decreases s.len(),
{
    if s.len() <= 1 {
        s[0]
    } else {
        let m = max_corner(s.drop_last());
        Point {
            x: max_int(m.x as int, s.last().x as int) as i32,
            y: max_int(m.y as int, s.last().y as int) as i32,
            z: max_int(m.z as int, s.last().z as int) as i32,
        }
    }
}

/// Any two of the points span a box whose center and size fit in `i32`, along every axis.
pub open spec fn spans_ok(s: Seq<Point>) -> bool {
    forall|i: int, j: int|
        0 <= i < s.len() && 0 <= j < s.len() ==> {
            &&& extents_axis_ok((#[trigger] s[i]).x as int, (#[trigger] s[j]).x as int)
            &&& extents_axis_ok(s[i].y as int, s[j].y as int)
            &&& extents_axis_ok(s[i].z as int, s[j].z as int)
        }
}

proof fn lemma_min_corner_is_reached(s: Seq<Point>)
    requires
        s.len() >= 1,
    ensures
        exists|i: int| 0 <= i < s.len() && (#[trigger] s[i]).x == min_corner(s).x,
        exists|i: int| 0 <= i < s.len() && (#[trigger] s[i]).y == min_corner(s).y,
        exists|i: int| 0 <= i < s.len() && (#[trigger] s[i]).z == min_corner(s).z,
    decreases s.len(),
{
    if s.len() > 1 {
        let t = s.drop_last();
        lemma_min_corner_is_reached(t);
        let l = s.last();
        assert(s[s.len() - 1] == l);
        let m = min_corner(t);
        if !(m.x <= l.x) {
            assert(s[s.len() - 1].x == min_corner(s).x);
        } else {
            let i = choose|i: int| 0 <= i < t.len() && (#[trigger] t[i]).x == m.x;
            assert(s[i] == t[i]);
            assert(s[i].x == min_corner(s).x);
        }
        if !(m.y <= l.y) {
            assert(s[s.len() - 1].y == min_corner(s).y);
        } else {
            let i = choose|i: int| 0 <= i < t.len() && (#[trigger] t[i]).y == m.y;
            assert(s[i] == t[i]);
            assert(s[i].y == min_corner(s).y);
        }
        if !(m.z <= l.z) {
            assert(s[s.len() - 1].z == min_corner(s).z);
        } else {
            let i = choose|i: int| 0 <= i < t.len() && (#[trigger] t[i]).z == m.z;
            assert(s[i] == t[i]);
            assert(s[i].z == min_corner(s).z);
        }
    } else {
        assert(s[0] == min_corner(s));
    }
}

proof fn lemma_max_corner_is_reached(s: Seq<Point>)
    requires
        s.len() >= 1,
    ensures
        exists|i: int| 0 <= i < s.len() && (#[trigger] s[i]).x == max_corner(s).x,
        exists|i: int| 0 <= i < s.len() && (#[trigger] s[i]).y == max_corner(s).y,
        exists|i: int| 0 <= i < s.len() && (#[trigger] s[i]).z == max_corner(s).z,
    decreases s.len(),
{
    if s.len() > 1 {
        let t = s.drop_last();
        lemma_max_corner_is_reached(t);
        let l = s.last();
        assert(s[s.len() - 1] == l);
        let m = max_corner(t);
        if !(m.x >= l.x) {
            assert(s[s.len() - 1].x == max_corner(s).x);
        } else {
            let i = choose|i: int| 0 <= i < t.len() && (#[trigger] t[i]).x == m.x;
            assert(s[i] == t[i]);
            assert(s[i].x == max_corner(s).x);
        }
        if !(m.y >= l.y) {
            assert(s[s.len() - 1].y == max_corner(s).y);
        } else {
            let i = choose|i: int| 0 <= i < t.len() && (#[trigger] t[i]).y == m.y;
            assert(s[i] == t[i]);
            assert(s[i].y == max_corner(s).y);
        }
        if !(m.z >= l.z) {
            assert(s[s.len() - 1].z == max_corner(s).z);
        } else {
            let i = choose|i: int| 0 <= i < t.len() && (#[trigger] t[i]).z == m.z;
            assert(s[i] == t[i]);
            assert(s[i].z == max_corner(s).z);
        }
    } else {
        assert(s[0] == max_corner(s));
    }
}

/// The least and greatest corners bound every one of the points.
proof fn lemma_corners_bound(s: Seq<Point>)
    requires
        s.len() >= 1,
    ensures
        forall|i: int| 0 <= i < s.len() ==> min_corner(s).x <= (#[trigger] s[i]).x <= max_corner(s).x
            && min_corner(s).y <= s[i].y <= max_corner(s).y && min_corner(s).z <= s[i].z <= max_corner(s).z,
    decreases s.len(),
{
    if s.len() > 1 {
        let t = s.drop_last();
        lemma_corners_bound(t);
        assert forall|i: int| 0 <= i < s.len() implies min_corner(s).x <= (#[trigger] s[i]).x <= max_corner(s).x
            && min_corner(s).y <= s[i].y <= max_corner(s).y && min_corner(s).z <= s[i].z <= max_corner(s).z by {
            if i < t.len() {
                assert(s[i] == t[i]);
            }
        }
    }
}

/// The box spanned by the least and greatest corners of the points holds every point, and
/// each of its six bounds is a coordinate of one of the points: it is the least box holding
/// them all.
pub proof fn lemma_bounding_box_holds_points(s: Seq<Point>)
    requires
        s.len() > 0,
        spans_ok(s),
    ensures
        forall|i: int|
            0 <= i < s.len() ==> #[trigger] AABB::extents_spec(min_corner(s), max_corner(s)).contains_spec(s[i]),
        exists|i: int| 0 <= i < s.len() && (#[trigger] s[i]).x == AABB::extents_spec(min_corner(s), max_corner(s)).min_x(),
        exists|i: int| 0 <= i < s.len() && (#[trigger] s[i]).y == AABB::extents_spec(min_corner(s), max_corner(s)).min_y(),
        exists|i: int| 0 <= i < s.len() && (#[trigger] s[i]).z == AABB::extents_spec(min_corner(s), max_corner(s)).min_z(),
        exists|i: int| 0 <= i < s.len() && (#[trigger] s[i]).x == AABB::extents_spec(min_corner(s), max_corner(s)).max_x(),
        exists|i: int| 0 <= i < s.len() && (#[trigger] s[i]).y == AABB::extents_spec(min_corner(s), max_corner(s)).max_y(),
        exists|i: int| 0 <= i < s.len() && (#[trigger] s[i]).z == AABB::extents_spec(min_corner(s), max_corner(s)).max_z(),
{
    let lo = min_corner(s);
    let hi = max_corner(s);
    let b = AABB::extents_spec(lo, hi);
    lemma_corners_bound(s);
    lemma_min_corner_is_reached(s);
    lemma_max_corner_is_reached(s);
    let a = choose|a: int| 0 <= a < s.len() && (#[trigger] s[a]).x == lo.x;
    let c = choose|c: int| 0 <= c < s.len() && (#[trigger] s[c]).x == hi.x;
    assert(extents_axis_ok(s[a].x as int, s[c].x as int));
    assert(lo.x <= hi.x);
    let a = choose|a: int| 0 <= a < s.len() && (#[trigger] s[a]).y == lo.y;
    let c = choose|c: int| 0 <= c < s.len() && (#[trigger] s[c]).y == hi.y;
    assert(extents_axis_ok(s[a].y as int, s[c].y as int));
    assert(lo.y <= hi.y);
    let a = choose|a: int| 0 <= a < s.len() && (#[trigger] s[a]).z == lo.z;
    let c = choose|c: int| 0 <= c < s.len() && (#[trigger] s[c]).z == hi.z;
    assert(extents_axis_ok(s[a].z as int, s[c].z as int));
    assert(lo.z <= hi.z);
    assert(b.min_x() == lo.x && b.max_x() == hi.x);
    assert(b.min_y() == lo.y && b.max_y() == hi.y);
    assert(b.min_z() == lo.z && b.max_z() == hi.z);
}

/// The smallest box holding all of the points: spanning from their least to their greatest
/// coordinate along every axis.
pub fn bounding_box(points: &Vec<Point>) -> (r: AABB)
    requires
        points@.len() > 0,
        spans_ok(points@),
    ensures
        r == AABB::extents_spec(min_corner(points@), max_corner(points@)),
        forall|i: int| 0 <= i < points@.len() ==> #[trigger] r.contains_spec(points@[i]),
        exists|i: int| 0 <= i < points@.len() && (#[trigger] points@[i]).x == r.min_x(),
        exists|i: int| 0 <= i < points@.len() && (#[trigger] points@[i]).y == r.min_y(),
        exists|i: int| 0 <= i < points@.len() && (#[trigger] points@[i]).z == r.min_z(),
        exists|i: int| 0 <= i < points@.len() && (#[trigger] points@[i]).x == r.max_x(),
        exists|i: int| 0 <= i < points@.len() && (#[trigger] points@[i]).y == r.max_y(),
        exists|i: int| 0 <= i < points@.len() && (#[trigger] points@[i]).z == r.max_z(),
{
    let mut lo = points[0];
    let mut hi = points[0];
    let n = points.len();
    let mut i: usize = 1;
    while i < n
        invariant
            n == points@.len(),
            1 <= i <= n,
            lo == min_corner(points@.take(i as int)),
            hi == max_corner(points@.take(i as int)),
        decreases n - i,
    {
        let p = points[i];
        proof {
            assert(points@.take(i + 1).drop_last() =~= points@.take(i as int));
            assert(points@.take(i + 1).last() == p);
        }
        lo = Point::new(min_i32(lo.x, p.x), min_i32(lo.y, p.y), min_i32(lo.z, p.z));
        hi = Point::new(max_i32(hi.x, p.x), max_i32(hi.y, p.y), max_i32(hi.z, p.z));
        i += 1;
    }
    proof {
        assert(points@.take(n as int) =~= points@);
        lemma_min_corner_is_reached(points@);
        lemma_max_corner_is_reached(points@);
        let a = choose|a: int| 0 <= a < points@.len() && (#[trigger] points@[a]).x == lo.x;
        let b = choose|b: int| 0 <= b < points@.len() && (#[trigger] points@[b]).x == hi.x;
        assert(extents_axis_ok(points@[a].x as int, points@[b].x as int));
        let a = choose|a: int| 0 <= a < points@.len() && (#[trigger] points@[a]).y == lo.y;
        let b = choose|b: int| 0 <= b < points@.len() && (#[trigger] points@[b]).y == hi.y;
        assert(extents_axis_ok(points@[a].y as int, points@[b].y as int));
        let a = choose|a: int| 0 <= a < points@.len() && (#[trigger] points@[a]).z == lo.z;
        let b = choose|b: int| 0 <= b < points@.len() && (#[trigger] points@[b]).z == hi.z;
        assert(extents_axis_ok(points@[a].z as int, points@[b].z as int));
    }
    let r = AABB::from_extents(lo, hi);
    proof {
        lemma_bounding_box_holds_points(points@);
    }
    r
}

/// The grid position with index `i` among the positions counted from `lo` in rows of `dx`
/// and layers of `dx * dy`: x fastest, then y, then z.
pub open spec fn position_at(lo: Point, dx: int, dy: int, i: int) -> Point {
    Point {
        x: (lo.x + i % dx) as i32,
        y: (lo.y + (i / dx) % dy) as i32,
        z: (lo.z + i / (dx * dy)) as i32,
    }
}

/// The offsets of a position are read back from its index.
proof fn lemma_index_offsets(a: int, c: int, e: int, dx: int, dy: int)
    requires
        0 <= a < dx,
        0 <= c < dy,
        0 <= e,
    ensures
        ((e * dy + c) * dx + a) % dx == a,
        (((e * dy + c) * dx + a) / dx) % dy == c,
        ((e * dy + c) * dx + a) / (dx * dy) == e,
{
    let i = (e * dy + c) * dx + a;
    assert(0 <= i) by (nonlinear_arith)
        requires
            0 <= a < dx,
            0 <= c < dy,
            0 <= e,
            i == (e * dy + c) * dx + a,
    ;
    vstd::arithmetic::div_mod::lemma_fundamental_div_mod_converse(i, dx, e * dy + c, a);
    vstd::arithmetic::div_mod::lemma_fundamental_div_mod_converse(e * dy + c, dy, e, c);
    vstd::arithmetic::div_mod::lemma_div_denominator(i, dx, dy);
}

/// An index below `dx * dy * dz` splits into offsets within the three sizes.
proof fn lemma_offsets_of_index(i: int, dx: int, dy: int, dz: int)
    requires
        dx > 0,
        dy > 0,
        dz > 0,
        0 <= i < dx * dy * dz,
    ensures
        0 <= i % dx < dx,
        0 <= (i / dx) % dy < dy,
        0 <= i / (dx * dy) < dz,
        i == ((i / (dx * dy)) * dy + (i / dx) % dy) * dx + i % dx,
{
    vstd::arithmetic::div_mod::lemma_fundamental_div_mod(i, dx);
    vstd::arithmetic::div_mod::lemma_fundamental_div_mod(i / dx, dy);
    vstd::arithmetic::div_mod::lemma_div_denominator(i, dx, dy);
    vstd::arithmetic::div_mod::lemma_mod_pos_bound(i, dx);
    vstd::arithmetic::div_mod::lemma_div_pos_is_pos(i, dx);
    vstd::arithmetic::div_mod::lemma_mod_pos_bound(i / dx, dy);
    vstd::arithmetic::div_mod::lemma_div_pos_is_pos(i / dx, dy);
    let q = i / dx;
    let e = q / dy;
    let c = q % dy;
    let a = i % dx;
    assert(i == (e * dy + c) * dx + a) by (nonlinear_arith)
        requires
            i == dx * q + a,
            q == dy * e + c,
    ;
    assert(e < dz) by (nonlinear_arith)
        requires
            i == (e * dy + c) * dx + a,
            0 <= a,
            0 <= c,
            dx > 0,
            dy > 0,
            i < dx * dy * dz,
    ;
}

/// A box holds as many grid positions as its volume.
pub proof fn lemma_box_positions(b: AABB)
    requires
        b.well_sized(),
    ensures
        Set::new(|p: Point| b.contains_spec(p)).finite(),
        Set::new(|p: Point| b.contains_spec(p)).len() == b.volume(),
{
    let pts = Set::new(|p: Point| b.contains_spec(p));
    let dx = b.max_x() - b.min_x() + 1;
    let dy = b.max_y() - b.min_y() + 1;
    let dz = b.max_z() - b.min_z() + 1;
    assert(b.volume() == dx * dy * dz);
    if dx == 0 || dy == 0 || dz == 0 {
        assert(pts =~= Set::<Point>::empty());
        assert(dx * dy * dz == 0) by (nonlinear_arith)
            requires
                dx == 0 || dy == 0 || dz == 0,
        ;
    } else {
        let n = dx * dy * dz;
        assert(n > 0) by (nonlinear_arith)
            requires
                dx > 0,
                dy > 0,
                dz > 0,
                n == dx * dy * dz,
        ;
        let lo = Point { x: b.min_x() as i32, y: b.min_y() as i32, z: b.min_z() as i32 };
        let f = |i: int| position_at(lo, dx, dy, i);
        let range = vstd::set_lib::set_int_range(0, n);
        vstd::set_lib::lemma_int_range(0, n);
        assert forall|i: int, j: int|
            range.contains(i) && range.contains(j) && #[trigger] f(i) == #[trigger] f(j) implies i == j by {
            lemma_offsets_of_index(i, dx, dy, dz);
            lemma_offsets_of_index(j, dx, dy, dz);
        }
        assert(vstd::relations::injective_on(f, range));
        assert forall|p: Point| #[trigger] range.map(f).contains(p) <==> pts.contains(p) by {
            if range.map(f).contains(p) {
                let i = choose|i: int| range.contains(i) && p == f(i);
                lemma_offsets_of_index(i, dx, dy, dz);
            }
            if pts.contains(p) {
                let a = p.x - b.min_x();
                let c = p.y - b.min_y();
                let e = p.z - b.min_z();
                let i = (e * dy + c) * dx + a;
                lemma_index_offsets(a, c, e, dx, dy);
                assert(0 <= i < n) by (nonlinear_arith)
                    requires
                        0 <= a < dx,
                        0 <= c < dy,
                        0 <= e < dz,
                        i == (e * dy + c) * dx + a,
                        n == dx * dy * dz,
                ;
                assert(f(i) == p);
                assert(range.contains(i));
            }
        }
        assert(range.map(f) =~= pts);
        vstd::set_lib::lemma_map_size(range, pts, f);
    }
}

} // verus!
