use vstd::prelude::*;

use crate::collider::in_local;
use crate::convex::convex;
use crate::convex::lemma_rect_convex;
use crate::collider::place;
use crate::collider::rect_points;
use crate::collider::spec_world;
use crate::sat::contact;
use crate::sat::spec_contact;
use crate::transform::Transform;
use crate::vector::div_toward_zero;
use crate::vector::Id;
use crate::vector::Vec2d;
use crate::vector::LOCAL_LIMIT;

verus! {

/// A bare convex polygon with a collision log: a shape that can only say
/// whether it overlaps another.
#[derive(Clone, Debug)]
pub struct Polygon {
    /// The vertices in local space, in order round the polygon.
    pub points: Vec<Vec2d>,
    pub collisions: Vec<Id>,
}

impl Polygon {
    /// Whether the polygon, placed by `transform`, overlaps `other`, placed
    /// by `other_transform`.
    pub open spec fn spec_intersecting(
        points: Seq<Vec2d>,
        transform: Transform,
        other: Seq<Vec2d>,
        other_transform: Transform,
    ) -> bool {
        spec_contact(
            spec_world(points, transform.spec_matrix()),
            spec_world(other, other_transform.spec_matrix()),
        ) is Some
    }

    pub fn new(points: Vec<Vec2d>) -> (p: Self)
        ensures
            p.points == points,
            p.collisions@ == Seq::<Id>::empty(),
    {
        Self { points, collisions: Vec::new() }
    }

    /// A rectangle of size `dims` round the origin.
    pub fn rect(dims: Vec2d) -> (p: Self)
        requires
            dims.within(2 * LOCAL_LIMIT),
        ensures
            p.points@ == rect_points(
                div_toward_zero(dims.x as int, 2),
                div_toward_zero(dims.y as int, 2),
            ),
            in_local(p.points@),
            dims.x >= 0 && dims.y >= 0 ==> convex(p.points@),
            p.collisions@ == Seq::<Id>::empty(),
    {
        let hx: i64 = dims.x / 2;
        let hy: i64 = dims.y / 2;
        let mut points: Vec<Vec2d> = Vec::new();
        points.push(Vec2d::new(-hx, -hy));
        points.push(Vec2d::new(-hx, hy));
        points.push(Vec2d::new(hx, hy));
        points.push(Vec2d::new(hx, -hy));
        proof {
            assert(points@ =~= rect_points(hx as int, hy as int));
            if dims.x >= 0 && dims.y >= 0 {
                lemma_rect_convex(hx as int, hy as int);
            }
        }
        Self::new(points)
    }

    /// The separating-axis test over the edges of both polygons. Polygons
    /// that only touch count as overlapping; a degenerate polygon overlaps
    /// nothing.
    pub fn intersecting(
        &self,
        transform: &Transform,
        other: &Self,
        other_transform: &Transform,
    ) -> (r: bool)
        requires
            in_local(self.points@),
            in_local(other.points@),
            transform.wf(),
            other_transform.wf(),
        ensures
            r == Self::spec_intersecting(
                self.points@,
                *transform,
                other.points@,
                *other_transform,
            ),
    {
        let a = place(&self.points, transform);
        let b = place(&other.points, other_transform);
        contact(&a, &b).is_some()
    }
}

} // verus!
