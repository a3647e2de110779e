//! Axis-aligned square regions of the grid.
//!
//! A region is a centre and a half-size. It holds every grid point whose
//! coordinates differ from the centre's by at most the half-size, edges
//! included. North is the side of smaller `y`, east the side of larger `x`.

use vstd::prelude::*;
use crate::point::Point;

verus! {

/// One of the four equal parts into which a region is split.
#[derive(Clone, Copy, Debug, PartialEq, Eq, Structural)]
pub enum Quadrant {
    NorthEast,
    NorthWest,
    SouthEast,
    SouthWest,
}

/// A square region: all points within `half_size` of `center` on both axes.
///
/// A negative half-size describes the empty region.
#[derive(Clone, Copy, Debug, PartialEq, Eq, Structural)]
pub struct AABB {
    pub center: Point,
    pub half_size: i64,
}

impl AABB {
    /// Smallest `x` inside the region.
    pub open spec fn min_x(self) -> int {
        self.center.x - self.half_size
    }

    /// Largest `x` inside the region.
    pub open spec fn max_x(self) -> int {
        self.center.x + self.half_size
    }

    /// Smallest `y` inside the region.
    pub open spec fn min_y(self) -> int {
        self.center.y - self.half_size
    }

    /// Largest `y` inside the region.
    pub open spec fn max_y(self) -> int {
        self.center.y + self.half_size
    }

    /// Membership: both coordinates lie in the closed intervals around the centre.
    pub open spec fn spec_contains(&self, point: &Point) -> bool {
        &&& self.min_x() <= point.x <= self.max_x()
        &&& self.min_y() <= point.y <= self.max_y()
    }

    /// Overlap test on the two axes: neither region lies wholly beyond an
    /// edge of the other. Regions that only touch do overlap.
    pub open spec fn spec_intersects(&self, range: &AABB) -> bool {
        &&& range.min_x() <= self.max_x()
        &&& self.min_x() <= range.max_x()
        &&& range.min_y() <= self.max_y()
        &&& self.min_y() <= range.max_y()
    }

    /// The membership test of this region as a predicate on points.
    pub open spec fn selects(self) -> spec_fn(Point) -> bool {
        |p: Point| self.contains(&p)
    }

    /// The test whether quadrant `q` of this region owns a point, as a
    /// predicate on points.
    pub open spec fn owns(self, q: Quadrant) -> spec_fn(Point) -> bool {
        |p: Point| self.quadrant_of(&p) == q
    }

    /// Whether every point of `self` is a point of `outer`.
    pub open spec fn within(self, outer: AABB) -> bool {
        forall|p: Point| self.contains(&p) ==> #[trigger] outer.contains(&p)
    }

    /// A region can be split when halving its half-size is exact and leaves
    /// something to halve, and when its corners are grid points.
    pub open spec fn spec_can_split(&self) -> bool {
        &&& self.half_size >= 2
        &&& self.half_size % 2 == 0
        &&& i64::MIN <= self.min_x()
        &&& self.max_x() <= i64::MAX
        &&& i64::MIN <= self.min_y()
        &&& self.max_y() <= i64::MAX
    }

    /// The part of this region that lies in quadrant `q`: half the half-size,
    /// the centre moved by that amount along both axes.
    pub open spec fn spec_quadrant(&self, q: Quadrant) -> AABB {
        let h = self.half_size / 2;
        let east = (self.center.x + h) as i64;
        let west = (self.center.x - h) as i64;
        let north = (self.center.y - h) as i64;
        let south = (self.center.y + h) as i64;
        match q {
            Quadrant::NorthEast => AABB { center: Point { x: east, y: north }, half_size: h as i64 },
            Quadrant::NorthWest => AABB { center: Point { x: west, y: north }, half_size: h as i64 },
            Quadrant::SouthEast => AABB { center: Point { x: east, y: south }, half_size: h as i64 },
            Quadrant::SouthWest => AABB { center: Point { x: west, y: south }, half_size: h as i64 },
        }
    }

    /// The quadrant that owns `point`. A point on a centre line belongs to
    /// the east, respectively the south, so that exactly one quadrant owns it.
    pub open spec fn spec_quadrant_of(&self, point: &Point) -> Quadrant {
        if point.x >= self.center.x {
            if point.y >= self.center.y {
                Quadrant::SouthEast
            } else {
                Quadrant::NorthEast
            }
        } else {
            if point.y >= self.center.y {
                Quadrant::SouthWest
            } else {
                Quadrant::NorthWest
            }
        }
    }

    /// The region around `center` with the given half-size.
    pub fn new(center: Point, half_size: i64) -> (r: AABB)
        ensures
            r.center == center,
            r.half_size == half_size,
    {
        AABB { center, half_size }
    }

    /// Whether `point` lies in the region, edges included.
    #[verifier::when_used_as_spec(spec_contains)]
    pub fn contains(&self, point: &Point) -> (b: bool)
        ensures
            b == self.spec_contains(point),
    {
        let cx: i128 = self.center.x as i128;
        let cy: i128 = self.center.y as i128;
        let h: i128 = self.half_size as i128;
        let px: i128 = point.x as i128;
        let py: i128 = point.y as i128;
        cx - h <= px && px <= cx + h && cy - h <= py && py <= cy + h
    }

    /// Whether the two regions share at least an edge point.
    #[verifier::when_used_as_spec(spec_intersects)]
    pub fn intersects(&self, range: &AABB) -> (b: bool)
        ensures
            b == self.spec_intersects(range),
    {
        let sx: i128 = self.center.x as i128;
        let sy: i128 = self.center.y as i128;
        let sh: i128 = self.half_size as i128;
        let rx: i128 = range.center.x as i128;
        let ry: i128 = range.center.y as i128;
        let rh: i128 = range.half_size as i128;
        !(rx - rh > sx + sh || rx + rh < sx - sh || ry - rh > sy + sh || ry + rh < sy - sh)
    }

    /// Whether the region can be split into four quadrants.
    #[verifier::when_used_as_spec(spec_can_split)]
    pub fn can_split(&self) -> (b: bool)
        ensures
            b == self.spec_can_split(),
    {
        let cx: i128 = self.center.x as i128;
        let cy: i128 = self.center.y as i128;
        let h: i128 = self.half_size as i128;
        let lo: i128 = i64::MIN as i128;
        let hi: i128 = i64::MAX as i128;
        self.half_size >= 2 && self.half_size % 2 == 0 && lo <= cx - h && cx + h <= hi && lo <= cy
            - h && cy + h <= hi
    }

    /// The quadrant `q` of a region that can be split.
    #[verifier::when_used_as_spec(spec_quadrant)]
    pub fn quadrant(&self, q: Quadrant) -> (r: AABB)
        requires
            self.can_split(),
        ensures
            r == self.spec_quadrant(q),
    {
        let h: i64 = self.half_size / 2;
        let x: i64 = self.center.x;
        let y: i64 = self.center.y;
        match q {
            Quadrant::NorthEast => AABB::new(Point::new(x + h, y - h), h),
            Quadrant::NorthWest => AABB::new(Point::new(x - h, y - h), h),
            Quadrant::SouthEast => AABB::new(Point::new(x + h, y + h), h),
            Quadrant::SouthWest => AABB::new(Point::new(x - h, y + h), h),
        }
    }

    /// The quadrant that owns `point`.
    #[verifier::when_used_as_spec(spec_quadrant_of)]
    pub fn quadrant_of(&self, point: &Point) -> (q: Quadrant)
        ensures
            q == self.spec_quadrant_of(point),
    {
        if point.x >= self.center.x {
            if point.y >= self.center.y {
                Quadrant::SouthEast
            } else {
                Quadrant::NorthEast
            }
        } else {
            if point.y >= self.center.y {
                Quadrant::SouthWest
            } else {
                Quadrant::NorthWest
            }
        }
    }
}

impl AABB {
    /// Overlap does not depend on which of the two regions is asked.
    pub proof fn lemma_intersects_symmetric(a: AABB, b: AABB)
        ensures
            a.intersects(&b) == b.intersects(&a),
    {
    }

    /// A point that lies in two regions shows that they overlap.
    pub proof fn lemma_common_point_intersects(a: AABB, b: AABB, p: Point)
        requires
            a.contains(&p),
            b.contains(&p),
        ensures
            a.intersects(&b),
    {
    }

    /// Two regions of non-negative half-size overlap exactly when some grid
    /// point lies in both.
    pub proof fn lemma_intersects_iff_common_point(a: AABB, b: AABB)
        requires
            a.half_size >= 0,
            b.half_size >= 0,
        ensures
            a.intersects(&b) <==> exists|p: Point| a.contains(&p) && #[trigger] b.contains(&p),
    {
        if a.intersects(&b) {
            let p = Point {
                x: Self::nearest(a.center.x, b.min_x(), b.max_x()),
                y: Self::nearest(a.center.y, b.min_y(), b.max_y()),
            };
            assert(a.contains(&p) && b.contains(&p));
        }
    }

    /// The value of the interval from `lo` to `hi` that is closest to `v`.
    pub open spec fn nearest(v: i64, lo: int, hi: int) -> i64 {
        if v < lo {
            lo as i64
        } else if v > hi {
            hi as i64
        } else {
            v
        }
    }

    /// Each quadrant of a region that can be split has half the half-size,
    /// and its centre lies that far from the parent's centre on both axes:
    /// east and south are the sides of larger `x` and `y`.
    pub proof fn lemma_quadrant_geometry(r: AABB, q: Quadrant)
        requires
            r.can_split(),
        ensures
            r.quadrant(q).half_size == r.half_size / 2,
            2 * r.quadrant(q).half_size == r.half_size,
            r.quadrant(q).center.x == (if q == Quadrant::NorthEast || q == Quadrant::SouthEast {
                r.center.x + r.half_size / 2
            } else {
                r.center.x - r.half_size / 2
            }),
            r.quadrant(q).center.y == (if q == Quadrant::SouthEast || q == Quadrant::SouthWest {
                r.center.y + r.half_size / 2
            } else {
                r.center.y - r.half_size / 2
            }),
    {
    }

    /// The four quadrants cover their parent and nothing else: a point lies
    /// in the parent exactly when it lies in some quadrant, and then it lies
    /// in the quadrant that owns it.
    pub proof fn lemma_quadrants_cover(r: AABB, p: Point)
        requires
            r.can_split(),
        ensures
            r.contains(&p) <==> exists|q: Quadrant| #[trigger] r.quadrant(q).contains(&p),
            r.contains(&p) <==> r.quadrant(r.quadrant_of(&p)).contains(&p),
    {
        if r.contains(&p) {
            assert(r.quadrant(r.quadrant_of(&p)).contains(&p));
        }
    }

    /// Two different quadrants share only points of the parent's centre lines.
    pub proof fn lemma_quadrants_overlap_on_edges(r: AABB, q1: Quadrant, q2: Quadrant, p: Point)
        requires
            r.can_split(),
            q1 != q2,
            r.quadrant(q1).contains(&p),
            r.quadrant(q2).contains(&p),
        ensures
            p.x == r.center.x || p.y == r.center.y,
    {
    }

    /// A quadrant lies within its parent.
    pub proof fn lemma_quadrant_within(r: AABB, q: Quadrant)
        requires
            r.can_split(),
        ensures
            r.quadrant(q).within(r),
    {
    }

    /// A quadrant of a region that can be split has a positive half-size
    /// smaller than its parent's, and its corners are grid points.
    pub proof fn lemma_quadrant_smaller(r: AABB, q: Quadrant)
        requires
            r.can_split(),
        ensures
            0 < r.quadrant(q).half_size < r.half_size,
            i64::MIN <= r.quadrant(q).min_x(),
            r.quadrant(q).max_x() <= i64::MAX,
            i64::MIN <= r.quadrant(q).min_y(),
            r.quadrant(q).max_y() <= i64::MAX,
    {
    }
}

} // verus!
