//! That the translation which the separating-axis test gives does what it
//! is for: it takes the first polygon out of the second.

use vstd::prelude::*;
use vstd::arithmetic::div_mod::lemma_fundamental_div_mod;

use crate::broad_phase::near;
use crate::collider::spec_world;
use crate::entity::EntityView;
use crate::sat::any_separating;
use crate::sat::contact_on;
use crate::sat::dot;
use crate::sat::max_proj;
use crate::sat::min_proj;
use crate::sat::separated_on;
use crate::sat::spec_contact;
use crate::sat::test_axes;
use crate::sat::Axis;
use crate::sat::ContactView;
use crate::symmetry::lemma_best_is_least;
use crate::symmetry::lemma_test_axes_proper;
use crate::symmetry::proper;
use crate::vector::div_toward_zero;
use crate::vector::Vec2d;

verus! {

/// How far `a` would have to go along `d` to leave `b` behind, in units of
/// the length of `d`.
pub open spec fn penetration(a: Seq<Vec2d>, b: Seq<Vec2d>, d: Axis) -> int {
    max_proj(d, b) - min_proj(d, a)
}

/// `moved` is `a` moved by `(tx, ty)`.
pub open spec fn is_moved(a: Seq<Vec2d>, moved: Seq<Vec2d>, tx: int, ty: int) -> bool {
    &&& moved.len() == a.len()
    &&& forall|i: int|
        0 <= i < a.len() ==> (#[trigger] moved[i]).x == a[i].x + tx && moved[i].y == a[i].y + ty
}

/// The length of `d` along the grid.
pub open spec fn grid_length(d: Axis) -> int {
    (if d.x >= 0 {
        d.x
    } else {
        -d.x
    }) + (if d.y >= 0 {
        d.y
    } else {
        -d.y
    })
}

proof fn lemma_reversed_projection(n: Axis, pts: Seq<Vec2d>)
    requires
        pts.len() >= 1,
    ensures
        max_proj(n.reversed(), pts) == -min_proj(n, pts),
        min_proj(n.reversed(), pts) == -max_proj(n, pts),
    decreases pts.len(),
{
    let p = if pts.len() <= 1 {
        pts[0]
    } else {
        pts.last()
    };
    assert(dot(n.reversed(), p) == -dot(n, p)) by (nonlinear_arith)
        requires
            dot(n.reversed(), p) == (-n.x) * p.x + (-n.y) * p.y,
            dot(n, p) == n.x * p.x + n.y * p.y,
    ;
    if pts.len() > 1 {
        lemma_reversed_projection(n, pts.drop_last());
    }
}

/// Moving a polygon moves its projections by the projection of the move.
proof fn lemma_moved_projection(n: Axis, a: Seq<Vec2d>, moved: Seq<Vec2d>, tx: int, ty: int)
    requires
        a.len() >= 1,
        is_moved(a, moved, tx, ty),
    ensures
        min_proj(n, moved) == min_proj(n, a) + (n.x * tx + n.y * ty),
        max_proj(n, moved) == max_proj(n, a) + (n.x * tx + n.y * ty),
    decreases a.len(),
{
    let i = if a.len() <= 1 {
        0
    } else {
        a.len() - 1
    };
    let p = a[i];
    let q = moved[i];
    assert(dot(n, q) == dot(n, p) + (n.x * tx + n.y * ty)) by (nonlinear_arith)
        requires
            dot(n, q) == n.x * q.x + n.y * q.y,
            dot(n, p) == n.x * p.x + n.y * p.y,
            q.x == p.x + tx,
            q.y == p.y + ty,
    ;
    if a.len() > 1 {
        let front = a.drop_last();
        let moved_front = moved.drop_last();
        assert forall|k: int| 0 <= k < front.len() implies (#[trigger] moved_front[k]).x == front[k].x
            + tx && moved_front[k].y == front[k].y + ty by {
            assert(moved_front[k] == moved[k]);
        }
        lemma_moved_projection(n, front, moved_front, tx, ty);
    }
}

/// The contact along an axis measures the penetration along its push
/// direction.
pub proof fn lemma_contact_is_penetration(a: Seq<Vec2d>, b: Seq<Vec2d>, n: Axis)
    requires
        a.len() >= 1,
        b.len() >= 1,
    ensures
        contact_on(a, b, n).overlap == penetration(a, b, contact_on(a, b, n).push),
{
    lemma_reversed_projection(n, a);
    lemma_reversed_projection(n, b);
}

/// One coordinate of the push, times its part of the translation: at most
/// the whole, and short of it by less than the coordinate is long.
proof fn lemma_rounded_part(x: int, o: int, nn: int)
    requires
        o >= 0,
        nn > 0,
    ensures
        x * div_toward_zero(x * o, nn) * nn <= x * x * o,
        x > 0 ==> x * x * o - x * nn < x * div_toward_zero(x * o, nn) * nn,
        x < 0 ==> x * x * o + x * nn < x * div_toward_zero(x * o, nn) * nn,
        x == 0 ==> x * div_toward_zero(x * o, nn) * nn == x * x * o,
        (x * o) % nn == 0 ==> x * div_toward_zero(x * o, nn) * nn == x * x * o,
{
    let t = div_toward_zero(x * o, nn);
    if x >= 0 {
        let q = (x * o) / nn;
        let r = (x * o) % nn;
        assert(x * o >= 0) by (nonlinear_arith)
            requires
                x >= 0,
                o >= 0,
        ;
        lemma_fundamental_div_mod(x * o, nn);
        assert(x * t * nn <= x * x * o && x * x * o - x * nn < x * t * nn || x == 0)
            by (nonlinear_arith)
            requires
                x * o == nn * q + r,
                0 <= r < nn,
                t == q,
                x >= 0,
        {
            assert(x * t * nn == x * (x * o - r));
            assert(x * (x * o - r) == x * x * o - x * r);
            assert(0 <= x * r);
            if x > 0 {
                assert(x * r < x * nn);
            }
        }
        if r == 0 {
            assert(x * t * nn == x * x * o) by (nonlinear_arith)
                requires
                    x * o == nn * t,
            {
                assert(x * t * nn == x * (nn * t));
            }
        }
        if x == 0 {
            assert(x * t * nn == 0 && x * x * o == 0 && x * nn == 0) by (nonlinear_arith)
                requires
                    x == 0,
            ;
        }
    } else {
        let y = -x;
        assert(y * o >= 0 && -(x * o) == y * o) by (nonlinear_arith)
            requires
                y == -x,
                y > 0,
                o >= 0,
        ;
        let q = (y * o) / nn;
        let r = (y * o) % nn;
        lemma_fundamental_div_mod(y * o, nn);
        if x * o >= 0 {
            assert(y * o == 0);
            assert(x * o == 0);
            assert(t == q);
            assert(q == 0 && r == 0) by (nonlinear_arith)
                requires
                    0 == nn * q + r,
                    0 <= r < nn,
            {
                if q >= 1 {
                    assert(nn * q >= nn);
                }
                if q <= -1 {
                    assert(nn * q <= -nn);
                }
            }
            assert(t == 0);
        }
        assert(t == -q);
        assert(x * t * nn <= x * x * o && x * x * o + x * nn < x * t * nn) by (nonlinear_arith)
            requires
                y * o == nn * q + r,
                0 <= r < nn,
                t == -q,
                y == -x,
                y > 0,
        {
            assert(x * t * nn == y * (nn * q));
            assert(y * (nn * q) == y * (y * o - r));
            assert(y * (y * o - r) == y * y * o - y * r);
            assert(y * y * o == x * x * o);
            assert(0 <= y * r < y * nn);
        }
        if (x * o) % nn == 0 {
            let p = (x * o) / nn;
            lemma_fundamental_div_mod(x * o, nn);
            assert(r == 0) by (nonlinear_arith)
                requires
                    x * o == nn * p,
                    -(x * o) == nn * q + r,
                    0 <= r < nn,
            {
                assert(nn * (-p - q) == r);
                if -p - q >= 1 {
                    assert(nn * (-p - q) >= nn);
                }
                if -p - q <= -1 {
                    assert(nn * (-p - q) <= -nn);
                }
            }
            assert(x * t * nn == x * x * o) by (nonlinear_arith)
                requires
                    y * o == nn * q,
                    t == -q,
                    y == -x,
            {
                assert(x * t * nn == y * (nn * q));
                assert(y * (y * o) == x * x * o);
            }
        }
    }
}

/// The translation takes the polygon out along the push direction. After
/// the move the polygons still touch along it, or overlap by less than
/// rounding can leave: the penetration is not negative and below the length
/// of the push direction along the grid, which is a depth of less than one
/// and a half grid units. Where the division is exact they just touch.
pub proof fn lemma_translation_separates(
    a: Seq<Vec2d>,
    b: Seq<Vec2d>,
    moved: Seq<Vec2d>,
    c: ContactView,
)
    requires
        a.len() >= 1,
        proper(c),
        c.overlap == penetration(a, b, c.push),
        is_moved(a, moved, c.translation().0, c.translation().1),
    ensures
        0 <= penetration(moved, b, c.push) * c.push.norm_sq() < grid_length(c.push)
            * c.push.norm_sq(),
        0 <= penetration(moved, b, c.push) < grid_length(c.push),
        (c.push.x * c.overlap) % c.push.norm_sq() == 0 && (c.push.y * c.overlap)
            % c.push.norm_sq() == 0 ==> penetration(moved, b, c.push) == 0,
{
    let d = c.push;
    let o = c.overlap;
    let nn = d.norm_sq();
    let tx = c.translation().0;
    let ty = c.translation().1;
    lemma_moved_projection(d, a, moved, tx, ty);
    let shift = d.x * tx + d.y * ty;
    let rest = penetration(moved, b, d);
    assert(rest == o - shift);
    lemma_rounded_part(d.x, o, nn);
    lemma_rounded_part(d.y, o, nn);
    let g = grid_length(d);
    assert(0 <= rest * nn < g * nn && ((d.x * tx * nn == d.x * d.x * o && d.y * ty * nn == d.y * d.y
        * o) ==> rest * nn == 0)) by (nonlinear_arith)
        requires
            rest == o - (d.x * tx + d.y * ty),
            nn == d.x * d.x + d.y * d.y,
            nn > 0,
            d.x * tx * nn <= d.x * d.x * o,
            d.y * ty * nn <= d.y * d.y * o,
            d.x > 0 ==> d.x * d.x * o - d.x * nn < d.x * tx * nn,
            d.x < 0 ==> d.x * d.x * o + d.x * nn < d.x * tx * nn,
            d.x == 0 ==> d.x * tx * nn == d.x * d.x * o,
            d.y > 0 ==> d.y * d.y * o - d.y * nn < d.y * ty * nn,
            d.y < 0 ==> d.y * d.y * o + d.y * nn < d.y * ty * nn,
            d.y == 0 ==> d.y * ty * nn == d.y * d.y * o,
            g == (if d.x >= 0 {
                d.x
            } else {
                -d.x
            }) + (if d.y >= 0 {
                d.y
            } else {
                -d.y
            }),
    {
        assert(rest * nn == o * nn - (d.x * tx * nn + d.y * ty * nn));
        assert(o * nn == d.x * d.x * o + d.y * d.y * o);
        assert(d.x != 0 || d.y != 0);
        assert(g * nn == (if d.x >= 0 {
            d.x * nn
        } else {
            -(d.x * nn)
        }) + (if d.y >= 0 {
            d.y * nn
        } else {
            -(d.y * nn)
        }));
    }
    assert(0 <= rest < g) by (nonlinear_arith)
        requires
            0 <= rest * nn < g * nn,
            nn > 0,
    ;
    if (d.x * o) % nn == 0 && (d.y * o) % nn == 0 {
        assert(rest == 0) by (nonlinear_arith)
            requires
                rest * nn == 0,
                nn > 0,
        ;
    }
}

/// What the test returns is a proper contact that measures the penetration
/// along its push direction, so that its translation separates.
pub proof fn lemma_contact_separates(a: Seq<Vec2d>, b: Seq<Vec2d>)
    requires
        spec_contact(a, b) is Some,
    ensures
        proper(spec_contact(a, b)->0),
        (spec_contact(a, b)->0).overlap == penetration(a, b, (spec_contact(a, b)->0).push),
{
    lemma_test_axes_proper(a, b);
    lemma_best_is_least(a, b, test_axes(a, b));
    let c = spec_contact(a, b)->0;
    let k = choose|k: int|
        0 <= k < test_axes(a, b).len() && c == contact_on(a, b, #[trigger] test_axes(a, b)[k]);
    lemma_contact_is_penetration(a, b, test_axes(a, b)[k]);
}


/// The point lies in the convex hull of the vertices: along every direction
/// its projection is between the least and the greatest of theirs.
pub open spec fn in_hull(pts: Seq<Vec2d>, p: Vec2d) -> bool {
    forall|n: Axis| min_proj(n, pts) <= #[trigger] dot(n, p) <= max_proj(n, pts)
}

/// Polygons that an axis separates have no point in common.
pub proof fn lemma_separated_apart(a: Seq<Vec2d>, b: Seq<Vec2d>, axes: Seq<Axis>, p: Vec2d)
    requires
        any_separating(a, b, axes),
    ensures
        !(in_hull(a, p) && in_hull(b, p)),
{
    let k = choose|k: int| 0 <= k < axes.len() && separated_on(a, b, #[trigger] axes[k]);
    let n = axes[k];
    if in_hull(a, p) && in_hull(b, p) {
        assert(min_proj(n, a) <= dot(n, p) <= max_proj(n, a));
        assert(min_proj(n, b) <= dot(n, p) <= max_proj(n, b));
    }
}

/// Every vertex of a polygon lies in its hull.
pub proof fn lemma_vertex_in_hull(pts: Seq<Vec2d>, i: int)
    requires
        0 <= i < pts.len(),
    ensures
        in_hull(pts, pts[i]),
{
    assert forall|n: Axis| min_proj(n, pts) <= #[trigger] dot(n, pts[i]) <= max_proj(n, pts) by {
        lemma_projection_bounds(n, pts, i);
    }
}

/// The projection of a vertex is between the least and the greatest.
proof fn lemma_projection_bounds(n: Axis, pts: Seq<Vec2d>, i: int)
    requires
        0 <= i < pts.len(),
    ensures
        min_proj(n, pts) <= dot(n, pts[i]) <= max_proj(n, pts),
    decreases pts.len(),
{
    if pts.len() > 1 {
        if i < pts.len() - 1 {
            lemma_projection_bounds(n, pts.drop_last(), i);
        }
    }
}


/// The vertices of the entity's shape, in world space.
pub open spec fn world_of(e: EntityView) -> Seq<Vec2d> {
    spec_world((e.collider->0).points, e.transform.spec_matrix())
}

/// The radius of the shape is honest: measured along the grid, no vertex is
/// further from the position than the radius.
pub open spec fn enclosed(e: EntityView) -> bool {
    forall|k: int|
        0 <= k < world_of(e).len() ==> {
            &&& -(e.collider->0).boundary <= (#[trigger] world_of(e)[k]).x - e.transform.position.x
                <= (e.collider->0).boundary
            &&& -(e.collider->0).boundary <= world_of(e)[k].y - e.transform.position.y <= (
            e.collider->0).boundary
        }
}

/// Where all projections lie in a range, so do the least and the greatest.
proof fn lemma_projection_range(n: Axis, pts: Seq<Vec2d>, low: int, high: int)
    requires
        pts.len() >= 1,
        forall|i: int| 0 <= i < pts.len() ==> low <= dot(n, #[trigger] pts[i]) <= high,
    ensures
        low <= min_proj(n, pts) <= high,
        low <= max_proj(n, pts) <= high,
    decreases pts.len(),
{
    if pts.len() > 1 {
        let front = pts.drop_last();
        assert forall|i: int| 0 <= i < front.len() implies low <= dot(n, #[trigger] front[i])
            <= high by {
            assert(front[i] == pts[i]);
        }
        lemma_projection_range(n, front, low, high);
        assert(low <= dot(n, pts[pts.len() - 1]) <= high);
    } else {
        assert(low <= dot(n, pts[0]) <= high);
    }
}

/// The broad phase passes over no pair that could touch: two shapes with
/// honest radii that are not near each other have no point in common.
pub proof fn lemma_far_apart(a: EntityView, b: EntityView, p: Vec2d)
    requires
        a.collider is Some,
        b.collider is Some,
        (a.collider->0).points.len() >= 1,
        (b.collider->0).points.len() >= 1,
        enclosed(a),
        enclosed(b),
        !near(a, b),
    ensures
        !(in_hull(world_of(a), p) && in_hull(world_of(b), p)),
{
    let wa = world_of(a);
    let wb = world_of(b);
    let ra = (a.collider->0).boundary as int;
    let rb = (b.collider->0).boundary as int;
    let pa = a.transform.position;
    let pb = b.transform.position;
    let across = Axis { x: 1, y: 0 };
    let up = Axis { x: 0, y: 1 };
    assert forall|i: int| 0 <= i < wa.len() implies pa.x - ra <= dot(across, #[trigger] wa[i]) <= pa.x
        + ra by {
        assert(-ra <= wa[i].x - pa.x <= ra);
    }
    assert forall|i: int| 0 <= i < wb.len() implies pb.x - rb <= dot(across, #[trigger] wb[i]) <= pb.x
        + rb by {
        assert(-rb <= wb[i].x - pb.x <= rb);
    }
    assert forall|i: int| 0 <= i < wa.len() implies pa.y - ra <= dot(up, #[trigger] wa[i]) <= pa.y
        + ra by {
        assert(-ra <= wa[i].y - pa.y <= ra);
    }
    assert forall|i: int| 0 <= i < wb.len() implies pb.y - rb <= dot(up, #[trigger] wb[i]) <= pb.y
        + rb by {
        assert(-rb <= wb[i].y - pb.y <= rb);
    }
    lemma_projection_range(across, wa, pa.x - ra, pa.x + ra);
    lemma_projection_range(across, wb, pb.x - rb, pb.x + rb);
    lemma_projection_range(up, wa, pa.y - ra, pa.y + ra);
    lemma_projection_range(up, wb, pb.y - rb, pb.y + rb);
    if in_hull(wa, p) && in_hull(wb, p) {
        assert(min_proj(across, wa) <= dot(across, p) <= max_proj(across, wa));
        assert(min_proj(across, wb) <= dot(across, p) <= max_proj(across, wb));
        assert(min_proj(up, wa) <= dot(up, p) <= max_proj(up, wa));
        assert(min_proj(up, wb) <= dot(up, p) <= max_proj(up, wb));
    }
}

} // verus!
