use vstd::prelude::*;

use crate::vector::Vec2d;
use crate::vector::WORLD_LIMIT;
use crate::vector::div_toward_zero;

verus! {

/// A direction in the plane, not normalised.
pub struct Axis {
    pub x: int,
    pub y: int,
}

impl Axis {
    /// Squared length.
    pub open spec fn norm_sq(self) -> int {
        self.x * self.x + self.y * self.y
    }

    /// The opposite direction.
    pub open spec fn reversed(self) -> Axis {
        Axis { x: -self.x, y: -self.y }
    }
}

/// Scalar projection of `p` onto `n`, in units of the length of `n`.
pub open spec fn dot(n: Axis, p: Vec2d) -> int {
    n.x * p.x + n.y * p.y
}

/// The perpendicular of the edge that leaves vertex `i`.
pub open spec fn edge_normal(pts: Seq<Vec2d>, i: int) -> Axis {
    let p = pts[i];
    let q = pts[(i + 1) % (pts.len() as int)];
    Axis { x: q.y - p.y, y: p.x - q.x }
}

/// The perpendiculars of all edges, in vertex order.
pub open spec fn normals(pts: Seq<Vec2d>) -> Seq<Axis> {
    Seq::new(pts.len(), |i: int| edge_normal(pts, i))
}

/// Least projection of the vertices onto `n`.
pub open spec fn min_proj(n: Axis, pts: Seq<Vec2d>) -> int
    decreases pts.len(),
{
    if pts.len() <= 1 {
        dot(n, pts[0])
    } else {
        let m = min_proj(n, pts.drop_last());
        let d = dot(n, pts.last());
        if d < m {
            d
        } else {
            m
        }
    }
}

/// Greatest projection of the vertices onto `n`.
pub open spec fn max_proj(n: Axis, pts: Seq<Vec2d>) -> int
    decreases pts.len(),
{
    if pts.len() <= 1 {
        dot(n, pts[0])
    } else {
        let m = max_proj(n, pts.drop_last());
        let d = dot(n, pts.last());
        if d > m {
            d
        } else {
            m
        }
    }
}


/// The projections of `a` and `b` onto `n` do not meet.
pub open spec fn separated_on(a: Seq<Vec2d>, b: Seq<Vec2d>, n: Axis) -> bool {
    max_proj(n, a) < min_proj(n, b) || max_proj(n, b) < min_proj(n, a)
}

/// Some axis of `axes` separates `a` from `b`.
pub open spec fn any_separating(a: Seq<Vec2d>, b: Seq<Vec2d>, axes: Seq<Axis>) -> bool {
    exists|k: int| 0 <= k < axes.len() && separated_on(a, b, #[trigger] axes[k])
}

/// How far two polygons reach into each other along one axis, and the way the
/// first of them has to go to get out.
pub struct ContactView {
    /// Direction in which the first polygon is pushed, not normalised.
    pub push: Axis,
    /// Length of the shared interval, in units of the length of `push`.
    pub overlap: int,
}

impl ContactView {
    /// The penetration depth is `overlap / |push|`; this compares two depths
    /// exactly, by their squares.
    pub open spec fn shallower_than(self, other: ContactView) -> bool {
        self.overlap * self.overlap * other.push.norm_sq() < other.overlap * other.overlap
            * self.push.norm_sq()
    }

    /// Both contacts have the same penetration depth.
    pub open spec fn same_depth(self, other: ContactView) -> bool {
        self.overlap * self.overlap * other.push.norm_sq() == other.overlap * other.overlap
            * self.push.norm_sq()
    }

    /// The translation `push * overlap / |push|^2`, rounded toward zero.
    pub open spec fn translation(self) -> (int, int) {
        (
            div_toward_zero(self.push.x * self.overlap, self.push.norm_sq()),
            div_toward_zero(self.push.y * self.overlap, self.push.norm_sq()),
        )
    }
}

/// The contact of `a` with `b` along `n`, where their projections meet: the
/// smaller of the two displacements along `n` that part them.
pub open spec fn contact_on(a: Seq<Vec2d>, b: Seq<Vec2d>, n: Axis) -> ContactView {
    let low = max_proj(n, a) - min_proj(n, b);
    let high = max_proj(n, b) - min_proj(n, a);
    if low <= high {
        ContactView { push: n.reversed(), overlap: low }
    } else {
        ContactView { push: n, overlap: high }
    }
}

/// The contact of least depth over `axes`; of several with that depth, the
/// one that comes first.
pub open spec fn best_contact(a: Seq<Vec2d>, b: Seq<Vec2d>, axes: Seq<Axis>) -> ContactView
    decreases axes.len(),
{
    if axes.len() <= 1 {
        contact_on(a, b, axes[0])
    } else {
        let before = best_contact(a, b, axes.drop_last());
        let c = contact_on(a, b, axes.last());
        if c.shallower_than(before) {
            c
        } else {
            before
        }
    }
}

/// Fewer than three vertices, or two consecutive vertices that coincide.
pub open spec fn degenerate(pts: Seq<Vec2d>) -> bool {
    pts.len() < 3 || exists|i: int|
        0 <= i < pts.len() && #[trigger] pts[i] == pts[(i + 1) % (pts.len() as int)]
}

/// The axes that the test tries: the edge normals of `a`, then those of `b`.
pub open spec fn test_axes(a: Seq<Vec2d>, b: Seq<Vec2d>) -> Seq<Axis> {
    normals(a) + normals(b)
}

/// The separating-axis test on two polygons given by their vertices in world
/// space: `None` where either is degenerate or some edge normal of either
/// separates them, else the contact of least depth.
pub open spec fn spec_contact(a: Seq<Vec2d>, b: Seq<Vec2d>) -> Option<ContactView> {
    if degenerate(a) || degenerate(b) || any_separating(a, b, test_axes(a, b)) {
        None
    } else {
        Some(best_contact(a, b, test_axes(a, b)))
    }
}

/// All vertices lie within the world.
pub open spec fn in_world(pts: Seq<Vec2d>) -> bool {
    forall|i: int| 0 <= i < pts.len() ==> (#[trigger] pts[i]).within(WORLD_LIMIT as int)
}

/// A contact found by the separating-axis test.
#[derive(Clone, Copy, Debug)]
pub struct Contact {
    /// Direction in which the first polygon is pushed, not normalised.
    pub push: Vec2d,
    /// Length of the shared interval, in units of the length of `push`.
    pub overlap: i64,
}

impl View for Contact {
    type V = ContactView;

    open spec fn view(&self) -> ContactView {
        ContactView {
            push: Axis { x: self.push.x as int, y: self.push.y as int },
            overlap: self.overlap as int,
        }
    }
}

impl Contact {
    /// The sizes that the test produces on polygons within the world.
    pub open spec fn wf(self) -> bool {
        &&& self.push.within(2 * WORLD_LIMIT)
        &&& 0 <= self.overlap <= 0x200_0000_0000
        &&& self@.push.norm_sq() > 0
    }
}


/// A vector of the grid as a direction.
pub open spec fn axis_of(v: Vec2d) -> Axis {
    Axis { x: v.x as int, y: v.y as int }
}

proof fn lemma_dot_bound(n: Axis, p: Vec2d)
    requires
        -2 * WORLD_LIMIT <= n.x <= 2 * WORLD_LIMIT,
        -2 * WORLD_LIMIT <= n.y <= 2 * WORLD_LIMIT,
        p.within(WORLD_LIMIT as int),
    ensures
        -0x100_0000_0000 <= dot(n, p) <= 0x100_0000_0000,
        -0x80_0000_0000 <= n.x * p.x <= 0x80_0000_0000,
        -0x80_0000_0000 <= n.y * p.y <= 0x80_0000_0000,
{
    let px = p.x as int;
    let py = p.y as int;
    assert(-0x80_0000_0000 <= n.x * px <= 0x80_0000_0000) by (nonlinear_arith)
        requires
            -0x10_0000 <= n.x <= 0x10_0000,
            -0x8_0000 <= px <= 0x8_0000,
    ;
    assert(-0x80_0000_0000 <= n.y * py <= 0x80_0000_0000) by (nonlinear_arith)
        requires
            -0x10_0000 <= n.y <= 0x10_0000,
            -0x8_0000 <= py <= 0x8_0000,
    ;
}

/// The perpendicular of the edge that leaves vertex `i`.
fn edge_axis(pts: &Vec<Vec2d>, i: usize) -> (n: Vec2d)
    requires
        in_world(pts@),
        i < pts.len(),
    ensures
        axis_of(n) == edge_normal(pts@, i as int),
        n.within(2 * WORLD_LIMIT),
{
    let j = (i + 1) % pts.len();
    let p = pts[i];
    let q = pts[j];
    Vec2d { x: q.y - p.y, y: p.x - q.x }
}

/// Least and greatest projection of the vertices onto `axis`.
fn project(axis: Vec2d, pts: &Vec<Vec2d>) -> (r: (i64, i64))
    requires
        pts.len() >= 1,
        in_world(pts@),
        axis.within(2 * WORLD_LIMIT),
    ensures
        r.0 == min_proj(axis_of(axis), pts@),
        r.1 == max_proj(axis_of(axis), pts@),
        -0x100_0000_0000 <= r.0 <= r.1 <= 0x100_0000_0000,
{
    let ghost n = axis_of(axis);
    proof {
        lemma_dot_bound(n, pts@[0]);
        assert(pts@.take(1).len() == 1);
        assert(pts@.take(1)[0] == pts@[0]);
    }
    let first: i64 = axis.x * pts[0].x + axis.y * pts[0].y;
    let mut low: i64 = first;
    let mut high: i64 = first;
    let mut i: usize = 1;
    while i < pts.len()
        invariant
            1 <= i <= pts.len(),
            in_world(pts@),
            axis.within(2 * WORLD_LIMIT),
            n == axis_of(axis),
            low == min_proj(n, pts@.take(i as int)),
            high == max_proj(n, pts@.take(i as int)),
            -0x100_0000_0000 <= low <= high <= 0x100_0000_0000,
        decreases pts.len() - i,
    {
        proof {
            lemma_dot_bound(n, pts@[i as int]);
            assert(pts@.take(i + 1).drop_last() =~= pts@.take(i as int));
            assert(pts@.take(i + 1).last() == pts@[i as int]);
        }
        let d: i64 = axis.x * pts[i].x + axis.y * pts[i].y;
        if d < low {
            low = d;
        }
        if d > high {
            high = d;
        }
        i += 1;
    }
    proof {
        assert(pts@.take(pts.len() as int) =~= pts@);
    }
    (low, high)
}

/// The contact of `a` with `b` along `axis`, or `None` where the axis
/// separates them.
fn contact_along(a: &Vec<Vec2d>, b: &Vec<Vec2d>, axis: Vec2d) -> (r: Option<Contact>)
    requires
        a.len() >= 1,
        b.len() >= 1,
        in_world(a@),
        in_world(b@),
        axis.within(2 * WORLD_LIMIT),
        axis_of(axis).norm_sq() > 0,
    ensures
        r is None <==> separated_on(a@, b@, axis_of(axis)),
        r matches Some(c) ==> c@ == contact_on(a@, b@, axis_of(axis)) && c.wf(),
{
    let (a_min, a_max) = project(axis, a);
    let (b_min, b_max) = project(axis, b);
    if a_max < b_min || b_max < a_min {
        return None;
    }
    let low: i64 = a_max - b_min;
    let high: i64 = b_max - a_min;
    if low <= high {
        let c = Contact { push: Vec2d { x: -axis.x, y: -axis.y }, overlap: low };
        assert(c@.push.norm_sq() == axis_of(axis).norm_sq()) by (nonlinear_arith)
            requires
                c@.push.x == -axis_of(axis).x,
                c@.push.y == -axis_of(axis).y,
        ;
        Some(c)
    } else {
        Some(Contact { push: axis, overlap: high })
    }
}

proof fn lemma_contact_sizes(c: Contact)
    requires
        c.wf(),
    ensures
        0 <= c.overlap * c.overlap <= 0x4_0000_0000_0000_0000_0000,
        0 < c@.push.norm_sq() <= 0x200_0000_0000,
        0 <= c.push.x * c.push.x <= 0x100_0000_0000,
        0 <= c.push.y * c.push.y <= 0x100_0000_0000,
{
    let o = c.overlap as int;
    let x = c.push.x as int;
    let y = c.push.y as int;
    assert(0 <= o * o <= 0x4_0000_0000_0000_0000_0000) by (nonlinear_arith)
        requires
            0 <= o <= 0x200_0000_0000,
    ;
    assert(0 <= x * x <= 0x100_0000_0000) by (nonlinear_arith)
        requires
            -0x10_0000 <= x <= 0x10_0000,
    ;
    assert(0 <= y * y <= 0x100_0000_0000) by (nonlinear_arith)
        requires
            -0x10_0000 <= y <= 0x10_0000,
    ;
}

impl Contact {
    /// Squared length of the push direction.
    pub fn norm_sq(&self) -> (r: i64)
        requires
            self.wf(),
        ensures
            r == self@.push.norm_sq(),
            0 < r <= 0x200_0000_0000,
    {
        proof {
            lemma_contact_sizes(*self);
        }
        self.push.x * self.push.x + self.push.y * self.push.y
    }

    /// Whether this contact is less deep than `other`.
    pub fn shallower_than(&self, other: &Contact) -> (r: bool)
        requires
            self.wf(),
            other.wf(),
        ensures
            r == self@.shallower_than(other@),
    {
        proof {
            lemma_contact_sizes(*self);
            lemma_contact_sizes(*other);
        }
        let so: i128 = self.overlap as i128;
        let oo: i128 = other.overlap as i128;
        let sn: i128 = self.norm_sq() as i128;
        let on: i128 = other.norm_sq() as i128;
        let s2: i128 = so * so;
        let o2: i128 = oo * oo;
        assert(0 <= s2 * on <= 0x800_0000_0000_0000_0000_0000_0000_0000) by (nonlinear_arith)
            requires
                0 <= s2 <= 0x4_0000_0000_0000_0000_0000,
                0 < on <= 0x200_0000_0000,
        ;
        assert(0 <= o2 * sn <= 0x800_0000_0000_0000_0000_0000_0000_0000) by (nonlinear_arith)
            requires
                0 <= o2 <= 0x4_0000_0000_0000_0000_0000,
                0 < sn <= 0x200_0000_0000,
        ;
        s2 * on < o2 * sn
    }

    /// The translation that takes the first polygon out of the second along
    /// the push direction, rounded toward zero.
    pub fn translation(&self) -> (v: Vec2d)
        requires
            self.wf(),
        ensures
            (v.x as int, v.y as int) == self@.translation(),
            v.within(0x2000_0000_0000_0000),
    {
        let n: i64 = self.norm_sq();
        let ghost o = self.overlap as int;
        let ghost x = self.push.x as int;
        let ghost y = self.push.y as int;
        assert(-0x2000_0000_0000_0000 <= x * o <= 0x2000_0000_0000_0000) by (nonlinear_arith)
            requires
                0 <= o <= 0x200_0000_0000,
                -0x10_0000 <= x <= 0x10_0000,
        ;
        assert(-0x2000_0000_0000_0000 <= y * o <= 0x2000_0000_0000_0000) by (nonlinear_arith)
            requires
                0 <= o <= 0x200_0000_0000,
                -0x10_0000 <= y <= 0x10_0000,
        ;
        let tx: i64 = (self.push.x * self.overlap) / n;
        let ty: i64 = (self.push.y * self.overlap) / n;
        Vec2d { x: tx, y: ty }
    }
}


/// Whether the polygon has too few vertices or an edge of length zero.
pub fn is_degenerate(pts: &Vec<Vec2d>) -> (r: bool)
    ensures
        r == degenerate(pts@),
{
    if pts.len() < 3 {
        return true;
    }
    let mut i: usize = 0;
    while i < pts.len()
        invariant
            i <= pts.len(),
            pts.len() >= 3,
            forall|k: int| 0 <= k < i ==> #[trigger] pts@[k] != pts@[(k + 1) % (pts.len() as int)],
        decreases pts.len() - i,
    {
        let j = (i + 1) % pts.len();
        if pts[i] == pts[j] {
            return true;
        }
        i += 1;
    }
    false
}

proof fn lemma_edge_nonzero(pts: Seq<Vec2d>, i: int)
    requires
        !degenerate(pts),
        0 <= i < pts.len(),
    ensures
        edge_normal(pts, i).norm_sq() > 0,
{
    let p = pts[i];
    let q = pts[(i + 1) % (pts.len() as int)];
    let n = edge_normal(pts, i);
    assert(p != q);
    assert(n.x != 0 || n.y != 0);
    assert(n.x * n.x + n.y * n.y > 0) by (nonlinear_arith)
        requires
            n.x != 0 || n.y != 0,
    ;
}

/// Tries the edge normals of `poly` after the axes `seen`, keeping the
/// shallowest contact; `None` as soon as one of them separates.
fn sweep(
    poly: &Vec<Vec2d>,
    a: &Vec<Vec2d>,
    b: &Vec<Vec2d>,
    best: Option<Contact>,
    Ghost(seen): Ghost<Seq<Axis>>,
) -> (r: Option<Contact>)
    requires
        !degenerate(poly@),
        in_world(poly@),
        a.len() >= 1,
        b.len() >= 1,
        in_world(a@),
        in_world(b@),
        !any_separating(a@, b@, seen),
        best is None <==> seen.len() == 0,
        best matches Some(c) ==> c.wf() && c@ == best_contact(a@, b@, seen),
    ensures
        r is None <==> any_separating(a@, b@, seen + normals(poly@)),
        r matches Some(c) ==> c.wf() && c@ == best_contact(a@, b@, seen + normals(poly@)),
{
    let ghost all = seen + normals(poly@);
    let mut best = best;
    let mut i: usize = 0;
    proof {
        assert(all.take(seen.len() as int) =~= seen);
    }
    while i < poly.len()
        invariant
            i <= poly.len(),
            !degenerate(poly@),
            in_world(poly@),
            a.len() >= 1,
            b.len() >= 1,
            in_world(a@),
            in_world(b@),
            all == seen + normals(poly@),
            !any_separating(a@, b@, all.take(seen.len() + i)),
            best is None <==> seen.len() + i == 0,
            best matches Some(c) ==> c.wf() && c@ == best_contact(
                a@,
                b@,
                all.take(seen.len() + i),
            ),
        decreases poly.len() - i,
    {
        let ghost k = seen.len() + i;
        let axis = edge_axis(poly, i);
        proof {
            lemma_edge_nonzero(poly@, i as int);
            assert(all[k] == axis_of(axis));
            assert(all.take(k + 1).drop_last() =~= all.take(k));
            assert(all.take(k + 1).last() == all[k]);
        }
        match contact_along(a, b, axis) {
            None => {
                proof {
                    assert(separated_on(a@, b@, all[k]));
                }
                return None;
            },
            Some(c) => {
                proof {
                    assert forall|j: int| 0 <= j < k + 1 implies !separated_on(
                        a@,
                        b@,
                        #[trigger] all.take(k + 1)[j],
                    ) by {
                        if j < k {
                            assert(all.take(k)[j] == all.take(k + 1)[j]);
                        }
                    }
                }
                match best {
                    None => {
                        best = Some(c);
                    },
                    Some(before) => {
                        if c.shallower_than(&before) {
                            best = Some(c);
                        }
                    },
                }
            },
        }
        i += 1;
    }
    proof {
        assert(all.take(all.len() as int) =~= all);
    }
    best
}

proof fn lemma_separating_prefix(a: Seq<Vec2d>, b: Seq<Vec2d>, axes: Seq<Axis>, more: Seq<Axis>)
    requires
        any_separating(a, b, axes),
    ensures
        any_separating(a, b, axes + more),
{
    let k = choose|k: int| 0 <= k < axes.len() && separated_on(a, b, #[trigger] axes[k]);
    assert((axes + more)[k] == axes[k]);
}

/// The separating-axis test on two polygons given by their vertices in world
/// space. Every edge normal of both polygons is tried; the first that
/// separates them ends the test.
pub fn contact(a: &Vec<Vec2d>, b: &Vec<Vec2d>) -> (r: Option<Contact>)
    requires
        in_world(a@),
        in_world(b@),
    ensures
        r is Some <==> spec_contact(a@, b@) is Some,
        r matches Some(c) ==> c.wf() && Some(c@) == spec_contact(a@, b@),
{
    if is_degenerate(a) || is_degenerate(b) {
        return None;
    }
    let ghost none = Seq::<Axis>::empty();
    proof {
        assert(none + normals(a@) =~= normals(a@));
    }
    match sweep(a, a, b, None, Ghost(none)) {
        None => {
            proof {
                lemma_separating_prefix(a@, b@, normals(a@), normals(b@));
            }
            None
        },
        Some(c) => sweep(b, a, b, Some(c), Ghost(normals(a@))),
    }
}

} // verus!
