use vstd::prelude::*;

use crate::vector::Vec2d;

verus! {

/// An axis-aligned square, given by its centre and half its side. Its edges
/// belong to it.
#[derive(Clone, Copy, Debug, PartialEq, Eq, Structural)]
pub struct Box2d {
    pub center: Vec2d,
    pub half: i64,
}

impl Default for Box2d {
    /// The square that holds the origin alone.
    fn default() -> (b: Self)
        ensures
            b == (Box2d { center: Vec2d { x: 0, y: 0 }, half: 0 }),
    {
        Box2d { center: Vec2d { x: 0, y: 0 }, half: 0 }
    }
}

impl Box2d {
    /// The half side is not negative and the corners have coordinates that
    /// the machine can hold.
    pub open spec fn wf(self) -> bool {
        &&& 0 <= self.half
        &&& i64::MIN <= self.center.x - self.half
        &&& self.center.x + self.half <= i64::MAX
        &&& i64::MIN <= self.center.y - self.half
        &&& self.center.y + self.half <= i64::MAX
    }

    /// `point` lies in the square or on its edge.
    pub open spec fn spec_contains(self, point: Vec2d) -> bool {
        &&& self.center.x - self.half <= point.x <= self.center.x + self.half
        &&& self.center.y - self.half <= point.y <= self.center.y + self.half
    }

    /// The two squares share at least one point.
    pub open spec fn spec_intersects(self, other: Box2d) -> bool {
        &&& self.center.x - self.half <= other.center.x + other.half
        &&& self.center.x + self.half >= other.center.x - other.half
        &&& self.center.y - self.half <= other.center.y + other.half
        &&& self.center.y + self.half >= other.center.y - other.half
    }

    /// Half the side of each quadrant: half of `half`, rounded up.
    pub open spec fn quadrant_half(self) -> int {
        (self.half + 1) / 2
    }

    /// The four quadrants: north-west, north-east, south-east, south-west.
    /// Their centres lie `half / 2`, rounded down, from the centre, so that
    /// together they cover the square and none reaches beyond it.
    pub open spec fn spec_subdivide(self) -> (Box2d, Box2d, Box2d, Box2d) {
        let h = self.quadrant_half() as i64;
        let d = self.half / 2;
        (
            Box2d { center: Vec2d { x: (self.center.x - d) as i64, y: (self.center.y + d) as i64 }, half: h },
            Box2d { center: Vec2d { x: (self.center.x + d) as i64, y: (self.center.y + d) as i64 }, half: h },
            Box2d { center: Vec2d { x: (self.center.x + d) as i64, y: (self.center.y - d) as i64 }, half: h },
            Box2d { center: Vec2d { x: (self.center.x - d) as i64, y: (self.center.y - d) as i64 }, half: h },
        )
    }

    /// The place, in the order of `spec_subdivide`, of the first quadrant
    /// that contains `point`.
    pub open spec fn first_quadrant(self, point: Vec2d) -> int {
        if self.spec_subdivide().0.spec_contains(point) {
            0
        } else if self.spec_subdivide().1.spec_contains(point) {
            1
        } else if self.spec_subdivide().2.spec_contains(point) {
            2
        } else {
            3
        }
    }

    pub fn new(center: Vec2d, half: i64) -> (b: Self)
        ensures
            b.center == center,
            b.half == half,
    {
        Self { center, half }
    }

    /// Whether `point` lies in the square or on its edge.
    pub fn contains(&self, point: Vec2d) -> (r: bool)
        ensures
            r == self.spec_contains(point),
    {
        let cx: i128 = self.center.x as i128;
        let cy: i128 = self.center.y as i128;
        let h: i128 = self.half as i128;
        let px: i128 = point.x as i128;
        let py: i128 = point.y as i128;
        px >= cx - h && px <= cx + h && py >= cy - h && py <= cy + h
    }

    /// Whether the two squares share a point.
    pub fn intersects(&self, other: &Self) -> (r: bool)
        ensures
            r == self.spec_intersects(*other),
    {
        let cx: i128 = self.center.x as i128;
        let cy: i128 = self.center.y as i128;
        let h: i128 = self.half as i128;
        let ox: i128 = other.center.x as i128;
        let oy: i128 = other.center.y as i128;
        let oh: i128 = other.half as i128;
        cx - h <= ox + oh && cx + h >= ox - oh && cy - h <= oy + oh && cy + h >= oy - oh
    }

    /// The four quadrants: north-west, north-east, south-east, south-west.
    pub fn subdivide(&self) -> (r: (Box2d, Box2d, Box2d, Box2d))
        requires
            self.wf(),
        ensures
            r == self.spec_subdivide(),
            r.0.wf(),
            r.1.wf(),
            r.2.wf(),
            r.3.wf(),
    {
        let d: i64 = self.half / 2;
        let half: i64 = self.half - d;
        (
            Box2d::new(Vec2d::new(self.center.x - d, self.center.y + d), half),
            Box2d::new(Vec2d::new(self.center.x + d, self.center.y + d), half),
            Box2d::new(Vec2d::new(self.center.x + d, self.center.y - d), half),
            Box2d::new(Vec2d::new(self.center.x - d, self.center.y - d), half),
        )
    }

    /// The quadrants of a proper square are proper, and smaller than it
    /// where it is large enough to divide.
    pub proof fn lemma_quadrants_wf(self)
        requires
            self.wf(),
        ensures
            self.spec_subdivide().0.wf(),
            self.spec_subdivide().1.wf(),
            self.spec_subdivide().2.wf(),
            self.spec_subdivide().3.wf(),
            self.half >= 2 ==> self.spec_subdivide().0.half < self.half,
            self.spec_subdivide().1.half == self.spec_subdivide().0.half,
            self.spec_subdivide().2.half == self.spec_subdivide().0.half,
            self.spec_subdivide().3.half == self.spec_subdivide().0.half,
    {
    }

    /// A point of the square lies in one of its quadrants.
    pub proof fn lemma_quadrants_cover(self, point: Vec2d)
        requires
            self.wf(),
            self.spec_contains(point),
        ensures
            self.spec_subdivide().0.spec_contains(point) || self.spec_subdivide().1.spec_contains(
                point,
            ) || self.spec_subdivide().2.spec_contains(point)
                || self.spec_subdivide().3.spec_contains(point),
    {
    }

    /// A point of a quadrant lies in the square.
    pub proof fn lemma_quadrants_inside(self, point: Vec2d)
        requires
            self.wf(),
            self.spec_subdivide().0.spec_contains(point) || self.spec_subdivide().1.spec_contains(
                point,
            ) || self.spec_subdivide().2.spec_contains(point)
                || self.spec_subdivide().3.spec_contains(point),
        ensures
            self.spec_contains(point),
    {
    }

    /// A square that holds a point of `range` intersects `range`.
    pub proof fn lemma_shared_point(self, range: Box2d, point: Vec2d)
        requires
            self.spec_contains(point),
            range.spec_contains(point),
        ensures
            self.spec_intersects(range),
    {
    }
}

/// The same square under its older name.
pub type Box2 = Box2d;

} // verus!
