//! Convexity of polygons, and of those that the constructors build.

use vstd::prelude::*;

use crate::collider::oct_points;
use crate::collider::rect_points;
use crate::vector::is_ceil_sqrt;
use crate::vector::Vec2d;

verus! {

/// On which side of the edge that leaves vertex `i` the vertex `k` lies:
/// negative to its right, positive to its left, zero on its line.
pub open spec fn side(pts: Seq<Vec2d>, i: int, k: int) -> int {
    let p = pts[i];
    let q = pts[(i + 1) % (pts.len() as int)];
    let v = pts[k];
    (q.x - p.x) * (v.y - p.y) - (q.y - p.y) * (v.x - p.x)
}

/// No vertex lies to the left of any edge.
pub open spec fn all_right(pts: Seq<Vec2d>) -> bool {
    forall|i: int, k: int| 0 <= i < pts.len() && 0 <= k < pts.len() ==> #[trigger] side(pts, i, k) <= 0
}

/// No vertex lies to the right of any edge.
pub open spec fn all_left(pts: Seq<Vec2d>) -> bool {
    forall|i: int, k: int| 0 <= i < pts.len() && 0 <= k < pts.len() ==> #[trigger] side(pts, i, k) >= 0
}

/// The polygon is convex: all its vertices lie on one side of each of its
/// edges, the same side for all edges.
pub open spec fn convex(pts: Seq<Vec2d>) -> bool {
    pts.len() >= 3 && (all_right(pts) || all_left(pts))
}

/// The products that the sides of the rectangle and of the octagon are made
/// of are not negative.
proof fn lemma_products(hx: int, hy: int, r: int)
    requires
        0 <= hx <= r,
        0 <= hy <= r,
        r <= hx + hy,
    ensures
        0 <= hx * hy,
        0 <= hx * r,
        0 <= hy * r,
        0 <= hy * (r - hx),
        0 <= hx * (r - hy),
        0 <= r * (hx + hy - r),
        0 <= r * (r - hx + hy),
        0 <= r * (r + hx - hy),
{
    assert(0 <= hx * hy && 0 <= hx * r && 0 <= hy * r && 0 <= hy * (r - hx) && 0 <= hx * (r - hy)
        && 0 <= r * (hx + hy - r) && 0 <= r * (r - hx + hy) && 0 <= r * (r + hx - hy))
        by (nonlinear_arith)
        requires
            0 <= hx <= r,
            0 <= hy <= r,
            r <= hx + hy,
    ;
}

proof fn lemma_rect_side(hx: int, hy: int, i: int, k: int)
    requires
        0 <= hx <= 0x4000,
        0 <= hy <= 0x4000,
        0 <= i < 4,
        0 <= k < 4,
    ensures
        side(rect_points(hx, hy), i, k) <= 0,
{
    let pts = rect_points(hx, hy);
    let p = pts[i];
    let q = pts[(i + 1) % 4];
    let v = pts[k];
    let sd = side(pts, i, k);
    let m = hx * hy;
    lemma_products(hx, hy, hx + hy);
    assert(sd == 0 || sd + 4 * m == 0) by (nonlinear_arith)
        requires
            sd == (q.x - p.x) * (v.y - p.y) - (q.y - p.y) * (v.x - p.x),
            m == hx * hy,
            (i == 0 && p.x == -hx && p.y == -hy && q.x == -hx && q.y == hy) || (i == 1 && p.x == -hx
                && p.y == hy && q.x == hx && q.y == hy) || (i == 2 && p.x == hx && p.y == hy && q.x
                == hx && q.y == -hy) || (i == 3 && p.x == hx && p.y == -hy && q.x == -hx && q.y
                == -hy),
            (v.x == hx || v.x == -hx) && (v.y == hy || v.y == -hy),
    ;
}

/// The rectangle that `rect` builds from a size that is not negative is
/// convex.
pub proof fn lemma_rect_convex(hx: int, hy: int)
    requires
        0 <= hx <= 0x4000,
        0 <= hy <= 0x4000,
    ensures
        convex(rect_points(hx, hy)),
{
    let pts = rect_points(hx, hy);
    assert forall|i: int, k: int| 0 <= i < pts.len() && 0 <= k < pts.len() implies #[trigger] side(
        pts,
        i,
        k,
    ) <= 0 by {
        lemma_rect_side(hx, hy, i, k);
    }
}

/// The side of one vertex of the octagon to the edge from `p` to `q`, where
/// `p` and `q` are a corner and the point on an axis next to it.
proof fn lemma_oct_side(hx: int, hy: int, r: int, p: Vec2d, q: Vec2d, v: Vec2d)
    requires
        0 <= hx <= r <= 0x4000,
        0 <= hy <= r,
        r <= hx + hy,
        (p.x == -hx && p.y == -hy && q.x == -r && q.y == 0) || (p.x == -r && p.y == 0 && q.x == -hx
            && q.y == hy) || (p.x == -hx && p.y == hy && q.x == 0 && q.y == r) || (p.x == 0 && p.y
            == r && q.x == hx && q.y == hy) || (p.x == hx && p.y == hy && q.x == r && q.y == 0) || (
        p.x == r && p.y == 0 && q.x == hx && q.y == -hy) || (p.x == hx && p.y == -hy && q.x == 0
            && q.y == -r) || (p.x == 0 && p.y == -r && q.x == -hx && q.y == -hy),
        ((v.x == hx || v.x == -hx) && (v.y == hy || v.y == -hy)) || ((v.x == r || v.x == -r) && v.y
            == 0) || (v.x == 0 && (v.y == r || v.y == -r)),
    ensures
        (q.x - p.x) * (v.y - p.y) - (q.y - p.y) * (v.x - p.x) <= 0,
{
    lemma_products(hx, hy, r);
    let sd = (q.x - p.x) * (v.y - p.y) - (q.y - p.y) * (v.x - p.x);
    let a = hx * hy;
    let b = hx * r;
    let c = hy * r;
    let d = hy * (r - hx);
    let e = hx * (r - hy);
    let f = r * (hx + hy - r);
    let g = r * (r - hx + hy);
    let h = r * (r + hx - hy);
    assert(sd == 0 || sd + 2 * a == 0 || sd + 2 * b == 0 || sd + 2 * c == 0 || sd + 2 * d == 0 || sd
        + 2 * e == 0 || sd + f == 0 || sd + g == 0 || sd + h == 0) by (nonlinear_arith)
        requires
            sd == (q.x - p.x) * (v.y - p.y) - (q.y - p.y) * (v.x - p.x),
            a == hx * hy,
            b == hx * r,
            c == hy * r,
            d == hy * (r - hx),
            e == hx * (r - hy),
            f == r * (hx + hy - r),
            g == r * (r - hx + hy),
            h == r * (r + hx - hy),
            (p.x == -hx && p.y == -hy && q.x == -r && q.y == 0) || (p.x == -r && p.y == 0 && q.x
                == -hx && q.y == hy) || (p.x == -hx && p.y == hy && q.x == 0 && q.y == r) || (p.x
                == 0 && p.y == r && q.x == hx && q.y == hy) || (p.x == hx && p.y == hy && q.x == r
                && q.y == 0) || (p.x == r && p.y == 0 && q.x == hx && q.y == -hy) || (p.x == hx
                && p.y == -hy && q.x == 0 && q.y == -r) || (p.x == 0 && p.y == -r && q.x == -hx
                && q.y == -hy),
            ((v.x == hx || v.x == -hx) && (v.y == hy || v.y == -hy)) || ((v.x == r || v.x == -r)
                && v.y == 0) || (v.x == 0 && (v.y == r || v.y == -r)),
    ;
}

/// The octagon that `oct` builds is convex, where the size is not negative
/// and the radius is at least each half side and at most their sum. The
/// distance of the corners, rounded up, is such a radius.
pub proof fn lemma_oct_convex(hx: int, hy: int, r: int)
    requires
        0 <= hx <= r <= 0x4000,
        0 <= hy <= r,
        r <= hx + hy,
    ensures
        convex(oct_points(hx, hy, r)),
{
    let pts = oct_points(hx, hy, r);
    assert forall|i: int, k: int| 0 <= i < pts.len() && 0 <= k < pts.len() implies #[trigger] side(
        pts,
        i,
        k,
    ) <= 0 by {
        lemma_oct_side(hx, hy, r, pts[i], pts[(i + 1) % 8], pts[k]);
    }
}

/// The distance of a corner from the origin, rounded up, is at least each of
/// its coordinates and at most their sum.
pub proof fn lemma_radius_between(hx: int, hy: int, r: int)
    requires
        0 <= hx,
        0 <= hy,
        is_ceil_sqrt(hx * hx + hy * hy, r),
    ensures
        hx <= r,
        hy <= r,
        r <= hx + hy,
{
    let n = hx * hx + hy * hy;
    assert(hx <= r && hy <= r && r <= hx + hy) by (nonlinear_arith)
        requires
            0 <= hx,
            0 <= hy,
            n == hx * hx + hy * hy,
            r >= 0,
            r * r >= n,
            r == 0 || (r - 1) * (r - 1) < n,
    {
        if r < hx {
            assert(r * r < hx * hx);
        }
        if r < hy {
            assert(r * r < hy * hy);
        }
        if r > hx + hy {
            assert((r - 1) * (r - 1) >= (hx + hy) * (hx + hy));
            assert((hx + hy) * (hx + hy) >= n);
        }
    }
}

} // verus!
