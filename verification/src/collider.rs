use vstd::prelude::*;

use crate::convex::convex;
use crate::convex::lemma_oct_convex;
use crate::convex::lemma_radius_between;
use crate::convex::lemma_rect_convex;
use crate::sat::contact;
use crate::sat::in_world;
use crate::sat::spec_contact;
use crate::sat::Contact;
use crate::sat::ContactView;
use crate::symmetry::decisive;
use crate::symmetry::lemma_contact_opposed;
use crate::symmetry::lemma_contact_symmetric;
use crate::transform::Matrix;
use crate::transform::Transform;
use crate::vector::ceil_sqrt;
use crate::vector::div_toward_zero;
use crate::vector::is_ceil_sqrt;
use crate::vector::Id;
use crate::vector::Vec2d;
use crate::vector::LOCAL_LIMIT;
use crate::vector::WORLD_LIMIT;

verus! {

/// The vertices `points` as the matrix `m` places them in the world.
pub open spec fn spec_world(points: Seq<Vec2d>, m: Matrix) -> Seq<Vec2d> {
    Seq::new(points.len(), |i: int| m.spec_apply(points[i]))
}

/// All vertices lie within the limits of local space.
pub open spec fn in_local(points: Seq<Vec2d>) -> bool {
    forall|i: int| 0 <= i < points.len() ==> (#[trigger] points[i]).within(LOCAL_LIMIT as int)
}

/// Places local vertices in the world.
pub fn place(points: &Vec<Vec2d>, transform: &Transform) -> (w: Vec<Vec2d>)
    requires
        in_local(points@),
        transform.wf(),
    ensures
        w@ == spec_world(points@, transform.spec_matrix()),
        in_world(w@),
{
    let m = transform.matrix();
    let mut w: Vec<Vec2d> = Vec::new();
    let mut i: usize = 0;
    while i < points.len()
        invariant
            i <= points.len(),
            in_local(points@),
            m.wf(),
            w@.len() == i,
            forall|k: int| 0 <= k < i ==> #[trigger] w@[k] == m.spec_apply(points@[k]),
            in_world(w@),
        decreases points.len() - i,
    {
        w.push(m.apply(points[i]));
        i += 1;
    }
    proof {
        assert(w@ =~= spec_world(points@, m));
    }
    w
}

/// A contact as a translation of the grid.
pub open spec fn translation_of(c: ContactView) -> Vec2d {
    Vec2d { x: c.translation().0 as i64, y: c.translation().1 as i64 }
}

/// A convex polygon that takes part in collisions.
#[derive(Clone, Debug)]
pub struct Collider {
    /// The vertices in local space, in order round the polygon.
    pub points: Vec<Vec2d>,
    /// A radius round the position that holds the whole shape.
    pub boundary: i64,
    /// Two shapes collide only if they share a layer.
    pub layers: Vec<Id>,
    /// A shape does not collide with shapes on these layers.
    pub ignore: Vec<Id>,
    /// The entities that this shape met in the current tick.
    pub collisions: Vec<Id>,
    /// A ghost notes collisions and is never moved by them, nor moves others.
    pub is_ghost: bool,
    pub active: bool,
}

/// A shape as a value of mathematics.
pub struct ColliderView {
    pub points: Seq<Vec2d>,
    pub boundary: i64,
    pub layers: Seq<Id>,
    pub ignore: Seq<Id>,
    pub collisions: Seq<Id>,
    pub is_ghost: bool,
    pub active: bool,
}

impl View for Collider {
    type V = ColliderView;

    open spec fn view(&self) -> ColliderView {
        ColliderView {
            points: self.points@,
            boundary: self.boundary,
            layers: self.layers@,
            ignore: self.ignore@,
            collisions: self.collisions@,
            is_ghost: self.is_ghost,
            active: self.active,
        }
    }
}

impl ColliderView {
    /// The vertices and the radius are within the limits of local space.
    pub open spec fn wf(self) -> bool {
        &&& in_local(self.points)
        &&& 0 <= self.boundary <= WORLD_LIMIT
    }

    /// The contact of this shape, placed by `transform`, with `b`, placed by
    /// `b_transform`.
    pub open spec fn contact_with(
        self,
        transform: Transform,
        b: ColliderView,
        b_transform: Transform,
    ) -> Option<ContactView> {
        spec_contact(
            spec_world(self.points, transform.spec_matrix()),
            spec_world(b.points, b_transform.spec_matrix()),
        )
    }

    /// The translation that takes this shape out of `b`, where they overlap.
    pub open spec fn intersecting(
        self,
        transform: Transform,
        b: ColliderView,
        b_transform: Transform,
    ) -> Option<Vec2d> {
        match self.contact_with(transform, b, b_transform) {
            None => None,
            Some(c) => Some(translation_of(c)),
        }
    }

    /// The shape after it met `other`: an entity is noted once.
    pub open spec fn logged(self, other: Id) -> ColliderView {
        if self.collisions.contains(other) {
            self
        } else {
            ColliderView { collisions: self.collisions.push(other), ..self }
        }
    }

    /// The shape with an empty collision log.
    pub open spec fn cleared(self) -> ColliderView {
        ColliderView { collisions: Seq::empty(), ..self }
    }
}

impl Collider {
    /// The vertices in world space.
    pub fn world_points(&self, transform: &Transform) -> (w: Vec<Vec2d>)
        requires
            self@.wf(),
            transform.wf(),
        ensures
            w@ == spec_world(self.points@, transform.spec_matrix()),
            in_world(w@),
    {
        assert forall|i: int| 0 <= i < self.points@.len() implies (#[trigger] self.points@[i]).within(
            LOCAL_LIMIT as int,
        ) by {
            assert(self@.points[i].within(LOCAL_LIMIT as int));
        }
        place(&self.points, transform)
    }

    /// The separating-axis test between this shape and `b`: the contact of
    /// least depth, or `None` where the shapes are apart or one of them is
    /// degenerate.
    pub fn contact_with(&self, transform: &Transform, b: &Self, b_transform: &Transform) -> (r:
        Option<Contact>)
        requires
            self@.wf(),
            transform.wf(),
            b@.wf(),
            b_transform.wf(),
        ensures
            r is Some <==> self@.contact_with(*transform, b@, *b_transform) is Some,
            r matches Some(c) ==> c.wf() && Some(c@) == self@.contact_with(
                *transform,
                b@,
                *b_transform,
            ),
    {
        let a_points = self.world_points(transform);
        let b_points = b.world_points(b_transform);
        contact(&a_points, &b_points)
    }

    /// The minimum translation that, applied to this shape, takes it out of
    /// `b`; its negation does the same for `b`. `None` where the shapes do
    /// not overlap.
    pub fn intersecting(&self, transform: &Transform, b: &Self, b_transform: &Transform) -> (r:
        Option<Vec2d>)
        requires
            self@.wf(),
            transform.wf(),
            b@.wf(),
            b_transform.wf(),
        ensures
            r == self@.intersecting(*transform, b@, *b_transform),
            r matches Some(v) ==> v.within(0x2000_0000_0000_0000),
    {
        match self.contact_with(transform, b, b_transform) {
            None => None,
            Some(c) => Some(c.translation()),
        }
    }
}

impl ColliderView {
    /// Two shapes overlap whichever of them is asked, and as deeply.
    pub proof fn lemma_intersecting_symmetric(
        self,
        transform: Transform,
        b: ColliderView,
        b_transform: Transform,
    )
        ensures
            self.intersecting(transform, b, b_transform) is Some <==> b.intersecting(
                b_transform,
                self,
                transform,
            ) is Some,
            self.contact_with(transform, b, b_transform) matches Some(c) ==> c.same_depth(
                b.contact_with(b_transform, self, transform)->0,
            ),
    {
        lemma_contact_symmetric(
            spec_world(self.points, transform.spec_matrix()),
            spec_world(b.points, b_transform.spec_matrix()),
        );
    }

    /// Where the contact is decisive, the translation that one shape is
    /// given is the negation of the other's.
    pub proof fn lemma_intersecting_opposed(
        self,
        transform: Transform,
        b: ColliderView,
        b_transform: Transform,
    )
        requires
            decisive(
                spec_world(self.points, transform.spec_matrix()),
                spec_world(b.points, b_transform.spec_matrix()),
            ),
        ensures
            self.contact_with(transform, b, b_transform) is Some,
            b.contact_with(b_transform, self, transform) is Some,
            (b.contact_with(b_transform, self, transform)->0).translation().0 == -(
            self.contact_with(transform, b, b_transform)->0).translation().0,
            (b.contact_with(b_transform, self, transform)->0).translation().1 == -(
            self.contact_with(transform, b, b_transform)->0).translation().1,
    {
        lemma_contact_opposed(
            spec_world(self.points, transform.spec_matrix()),
            spec_world(b.points, b_transform.spec_matrix()),
        );
    }
}

/// The corners of the rectangle with half sides `hx` and `hy` round the
/// origin.
pub open spec fn rect_points(hx: int, hy: int) -> Seq<Vec2d> {
    seq![
        Vec2d { x: (-hx) as i64, y: (-hy) as i64 },
        Vec2d { x: (-hx) as i64, y: hy as i64 },
        Vec2d { x: hx as i64, y: hy as i64 },
        Vec2d { x: hx as i64, y: (-hy) as i64 },
    ]
}

/// The corners of the rectangle with half sides `hx` and `hy`, and between
/// them the four points at distance `r` from the origin on the axes.
pub open spec fn oct_points(hx: int, hy: int, r: int) -> Seq<Vec2d> {
    seq![
        Vec2d { x: (-hx) as i64, y: (-hy) as i64 },
        Vec2d { x: (-r) as i64, y: 0 },
        Vec2d { x: (-hx) as i64, y: hy as i64 },
        Vec2d { x: 0, y: r as i64 },
        Vec2d { x: hx as i64, y: hy as i64 },
        Vec2d { x: r as i64, y: 0 },
        Vec2d { x: hx as i64, y: (-hy) as i64 },
        Vec2d { x: 0, y: (-r) as i64 },
    ]
}

/// The radius of the circle round the origin through `(hx, hy)`, rounded up.
fn corner_radius(hx: i64, hy: i64) -> (r: i64)
    requires
        -LOCAL_LIMIT <= hx <= LOCAL_LIMIT,
        -LOCAL_LIMIT <= hy <= LOCAL_LIMIT,
    ensures
        is_ceil_sqrt(hx * hx + hy * hy, r as int),
        0 <= r <= 2 * LOCAL_LIMIT,
        -LOCAL_LIMIT <= 2 * hx <= LOCAL_LIMIT && -LOCAL_LIMIT <= 2 * hy <= LOCAL_LIMIT ==> r
            <= LOCAL_LIMIT,
{
    let ghost x = hx as int;
    let ghost y = hy as int;
    assert(0 <= x * x <= 0x1000_0000 && 0 <= y * y <= 0x1000_0000) by (nonlinear_arith)
        requires
            -0x4000 <= x <= 0x4000,
            -0x4000 <= y <= 0x4000,
    ;
    let n: i64 = hx * hx + hy * hy;
    let r = ceil_sqrt(n as u64);
    assert(r <= 0x8000) by (nonlinear_arith)
        requires
            r == 0 || (r - 1) * (r - 1) < n,
            n <= 0x2000_0000,
            r >= 0,
    {
        if r > 0x8000 {
            assert((r - 1) * (r - 1) >= 0x8000 * 0x8000);
        }
    }
    if -LOCAL_LIMIT <= 2 * hx && 2 * hx <= LOCAL_LIMIT && -LOCAL_LIMIT <= 2 * hy && 2 * hy
        <= LOCAL_LIMIT {
        assert(r <= 0x4000) by (nonlinear_arith)
            requires
                r == 0 || (r - 1) * (r - 1) < n,
                n == x * x + y * y,
                -0x2000 <= x <= 0x2000,
                -0x2000 <= y <= 0x2000,
                r >= 0,
        {
            assert(x * x <= 0x400_0000);
            assert(y * y <= 0x400_0000);
            if r > 0x4000 {
                assert((r - 1) * (r - 1) >= 0x4000 * 0x4000);
            }
        }
    }
    r as i64
}

impl Collider {
    /// A shape with the given vertices and an empty collision log.
    pub fn new(
        points: Vec<Vec2d>,
        boundary: i64,
        layers: Vec<Id>,
        ignore: Vec<Id>,
        is_ghost: bool,
        active: bool,
    ) -> (c: Self)
        ensures
            c.points == points,
            c.boundary == boundary,
            c.layers == layers,
            c.ignore == ignore,
            c.collisions@ == Seq::<Id>::empty(),
            c.is_ghost == is_ghost,
            c.active == active,
    {
        Self { points, boundary, layers, ignore, collisions: Vec::new(), is_ghost, active }
    }

    /// A rectangle of size `dims` round the origin. Its radius is that of the
    /// circle through its corners, rounded up.
    pub fn rect(dims: Vec2d, layer: Vec<Id>, ignore: Vec<Id>, is_ghost: bool, active: bool) -> (c:
        Self)
        requires
            dims.within(2 * LOCAL_LIMIT),
        ensures
            c@.wf(),
            c.points@ == rect_points(
                div_toward_zero(dims.x as int, 2),
                div_toward_zero(dims.y as int, 2),
            ),
            is_ceil_sqrt(
                div_toward_zero(dims.x as int, 2) * div_toward_zero(dims.x as int, 2)
                    + div_toward_zero(dims.y as int, 2) * div_toward_zero(dims.y as int, 2),
                c.boundary as int,
            ),
            dims.x >= 0 && dims.y >= 0 ==> convex(c.points@),
            c.layers == layer,
            c.ignore == ignore,
            c.collisions@ == Seq::<Id>::empty(),
            c.is_ghost == is_ghost,
            c.active == active,
    {
        let hx: i64 = dims.x / 2;
        let hy: i64 = dims.y / 2;
        let mut points: Vec<Vec2d> = Vec::new();
        points.push(Vec2d::new(-hx, -hy));
        points.push(Vec2d::new(-hx, hy));
        points.push(Vec2d::new(hx, hy));
        points.push(Vec2d::new(hx, -hy));
        proof {
            assert(points@ =~= rect_points(hx as int, hy as int));
            if dims.x >= 0 && dims.y >= 0 {
                lemma_rect_convex(hx as int, hy as int);
            }
        }
        Self::new(points, corner_radius(hx, hy), layer, ignore, is_ghost, active)
    }

    /// An octagon round the origin: the corners of the rectangle of size
    /// `dims`, and between them the points on the axes at the distance of the
    /// corners, rounded up. That distance is also its radius.
    pub fn oct(dims: Vec2d, layers: Vec<Id>, ignore: Vec<Id>, is_ghost: bool, active: bool) -> (c:
        Self)
        requires
            dims.within(LOCAL_LIMIT as int),
        ensures
            c@.wf(),
            c.points@ == oct_points(
                div_toward_zero(dims.x as int, 2),
                div_toward_zero(dims.y as int, 2),
                c.boundary as int,
            ),
            is_ceil_sqrt(
                div_toward_zero(dims.x as int, 2) * div_toward_zero(dims.x as int, 2)
                    + div_toward_zero(dims.y as int, 2) * div_toward_zero(dims.y as int, 2),
                c.boundary as int,
            ),
            dims.x >= 0 && dims.y >= 0 ==> convex(c.points@),
            c.layers == layers,
            c.ignore == ignore,
            c.collisions@ == Seq::<Id>::empty(),
            c.is_ghost == is_ghost,
            c.active == active,
    {
        let hx: i64 = dims.x / 2;
        let hy: i64 = dims.y / 2;
        let r: i64 = corner_radius(hx, hy);
        proof {
            if dims.x >= 0 && dims.y >= 0 {
                lemma_radius_between(hx as int, hy as int, r as int);
                lemma_oct_convex(hx as int, hy as int, r as int);
            }
        }
        let mut points: Vec<Vec2d> = Vec::new();
        points.push(Vec2d::new(-hx, -hy));
        points.push(Vec2d::new(-r, 0));
        points.push(Vec2d::new(-hx, hy));
        points.push(Vec2d::new(0, r));
        points.push(Vec2d::new(hx, hy));
        points.push(Vec2d::new(r, 0));
        points.push(Vec2d::new(hx, -hy));
        points.push(Vec2d::new(0, -r));
        proof {
            assert(points@ =~= oct_points(hx as int, hy as int, r as int));
        }
        Self::new(points, r, layers, ignore, is_ghost, active)
    }
}

impl Collider {
    /// Notes that this shape met `other`, unless it is noted already.
    pub fn log(&mut self, other: Id)
        ensures
            final(self)@ == old(self)@.logged(other),
    {
        let mut i: usize = 0;
        while i < self.collisions.len()
            invariant
                i <= self.collisions.len(),
                *self == *old(self),
                forall|k: int| 0 <= k < i ==> self.collisions@[k] != other,
            decreases self.collisions.len() - i,
        {
            if self.collisions[i] == other {
                return ;
            }
            i += 1;
        }
        self.collisions.push(other);
    }

    /// Empties the collision log.
    pub fn clear(&mut self)
        ensures
            final(self)@ == old(self)@.cleared(),
    {
        self.collisions.clear();
    }
}

} // verus!
