//! What the separating-axis test returns when its two polygons change places.

use vstd::prelude::*;
use vstd::arithmetic::div_mod::lemma_fundamental_div_mod;
use vstd::arithmetic::div_mod::lemma_fundamental_div_mod_converse_div;

use crate::sat::any_separating;
use crate::sat::best_contact;
use crate::sat::contact_on;
use crate::sat::degenerate;
use crate::sat::edge_normal;
use crate::sat::max_proj;
use crate::sat::min_proj;
use crate::sat::normals;
use crate::sat::separated_on;
use crate::sat::spec_contact;
use crate::sat::test_axes;
use crate::sat::Axis;
use crate::sat::ContactView;
use crate::vector::div_toward_zero;
use crate::vector::Vec2d;

verus! {

/// `c` is at most as deep as `d`.
pub open spec fn no_deeper(c: ContactView, d: ContactView) -> bool {
    !d.shallower_than(c)
}

/// A contact as the test produces them: a direction that is not zero and an
/// overlap that is not negative.
pub open spec fn proper(c: ContactView) -> bool {
    c.overlap >= 0 && c.push.norm_sq() > 0
}

/// Every axis has a length.
pub open spec fn all_nonzero(axes: Seq<Axis>) -> bool {
    forall|k: int| 0 <= k < axes.len() ==> (#[trigger] axes[k]).norm_sq() > 0
}

proof fn lemma_reversed_norm(n: Axis)
    ensures
        n.reversed().norm_sq() == n.norm_sq(),
{
    assert((-n.x) * (-n.x) + (-n.y) * (-n.y) == n.x * n.x + n.y * n.y) by (nonlinear_arith);
}

proof fn lemma_no_deeper_transitive(p: ContactView, q: ContactView, r: ContactView)
    requires
        proper(p),
        proper(q),
        proper(r),
        no_deeper(p, q),
        no_deeper(q, r),
    ensures
        no_deeper(p, r),
{
    let pp = p.overlap * p.overlap;
    let qq = q.overlap * q.overlap;
    let rr = r.overlap * r.overlap;
    let pn = p.push.norm_sq();
    let qn = q.push.norm_sq();
    let rn = r.push.norm_sq();
    assert(pp * rn <= rr * pn) by (nonlinear_arith)
        requires
            pp * qn <= qq * pn,
            qq * rn <= rr * qn,
            pn > 0,
            qn > 0,
            rn > 0,
    {
        assert(pp * qn * rn <= qq * pn * rn);
        assert(qq * rn * pn <= rr * qn * pn);
        assert((pp * rn) * qn <= (rr * pn) * qn);
    }
}

/// Along an axis that does not separate, the contact is proper.
proof fn lemma_contact_proper(a: Seq<Vec2d>, b: Seq<Vec2d>, n: Axis)
    requires
        !separated_on(a, b, n),
        n.norm_sq() > 0,
    ensures
        proper(contact_on(a, b, n)),
        contact_on(a, b, n).push.norm_sq() == n.norm_sq(),
{
    lemma_reversed_norm(n);
}

/// The best contact is the contact along one of the axes, and none of the
/// axes gives a shallower one.
pub proof fn lemma_best_is_least(a: Seq<Vec2d>, b: Seq<Vec2d>, axes: Seq<Axis>)
    requires
        axes.len() >= 1,
        all_nonzero(axes),
        !any_separating(a, b, axes),
    ensures
        proper(best_contact(a, b, axes)),
        exists|k: int| 0 <= k < axes.len() && best_contact(a, b, axes) == contact_on(a, b, #[trigger] axes[k]),
        forall|k: int| 0 <= k < axes.len() ==> no_deeper(best_contact(a, b, axes), contact_on(a, b, #[trigger] axes[k])),
    decreases axes.len(),
{
    let best = best_contact(a, b, axes);
    if axes.len() == 1 {
        assert(!separated_on(a, b, axes[0]));
        lemma_contact_proper(a, b, axes[0]);
        assert(best == contact_on(a, b, axes[0]));
    } else {
        let front = axes.drop_last();
        let last = axes.len() - 1;
        assert forall|k: int| 0 <= k < front.len() implies (#[trigger] front[k]).norm_sq() > 0
            && !separated_on(a, b, front[k]) by {
            assert(front[k] == axes[k]);
        }
        lemma_best_is_least(a, b, front);
        let before = best_contact(a, b, front);
        let c = contact_on(a, b, axes[last]);
        assert(!separated_on(a, b, axes[last]));
        lemma_contact_proper(a, b, axes[last]);
        let w = choose|k: int| 0 <= k < front.len() && before == contact_on(a, b, #[trigger] front[k]);
        assert(front[w] == axes[w]);
        if c.shallower_than(before) {
            assert(best == contact_on(a, b, axes[last]));
            assert forall|k: int| 0 <= k < axes.len() implies no_deeper(
                best,
                contact_on(a, b, #[trigger] axes[k]),
            ) by {
                if k < last {
                    assert(front[k] == axes[k]);
                    assert(!separated_on(a, b, front[k]));
                    lemma_contact_proper(a, b, axes[k]);
                    lemma_no_deeper_transitive(c, before, contact_on(a, b, axes[k]));
                }
            }
        } else {
            assert(best == contact_on(a, b, axes[w]));
            assert forall|k: int| 0 <= k < axes.len() implies no_deeper(
                best,
                contact_on(a, b, #[trigger] axes[k]),
            ) by {
                if k < last {
                    assert(front[k] == axes[k]);
                }
            }
        }
    }
}

/// Along one axis, changing the places of the polygons keeps the overlap and
/// the length of the push direction.
proof fn lemma_axis_swap(a: Seq<Vec2d>, b: Seq<Vec2d>, n: Axis)
    ensures
        separated_on(b, a, n) == separated_on(a, b, n),
        contact_on(b, a, n).overlap == contact_on(a, b, n).overlap,
        contact_on(b, a, n).push.norm_sq() == contact_on(a, b, n).push.norm_sq(),
{
    lemma_reversed_norm(n);
}

proof fn lemma_normals_nonzero(pts: Seq<Vec2d>)
    requires
        !degenerate(pts),
    ensures
        all_nonzero(normals(pts)),
{
    assert forall|k: int| 0 <= k < normals(pts).len() implies (#[trigger] normals(pts)[k]).norm_sq()
        > 0 by {
        let p = pts[k];
        let q = pts[(k + 1) % (pts.len() as int)];
        let n = edge_normal(pts, k);
        assert(p != q);
        assert(n.x * n.x + n.y * n.y > 0) by (nonlinear_arith)
            requires
                n.x != 0 || n.y != 0,
        ;
    }
}

/// An axis of `test_axes(a, b)` is one of `test_axes(b, a)`.
proof fn lemma_axes_swap(a: Seq<Vec2d>, b: Seq<Vec2d>, k: int) -> (j: int)
    requires
        0 <= k < test_axes(a, b).len(),
    ensures
        0 <= j < test_axes(b, a).len(),
        test_axes(b, a)[j] == test_axes(a, b)[k],
{
    if k < a.len() {
        b.len() + k
    } else {
        k - a.len()
    }
}

proof fn lemma_separating_swap(a: Seq<Vec2d>, b: Seq<Vec2d>)
    requires
        any_separating(a, b, test_axes(a, b)),
    ensures
        any_separating(b, a, test_axes(b, a)),
{
    let k = choose|k: int| 0 <= k < test_axes(a, b).len() && separated_on(a, b, #[trigger] test_axes(a, b)[k]);
    let j = lemma_axes_swap(a, b, k);
    lemma_axis_swap(a, b, test_axes(a, b)[k]);
    assert(separated_on(b, a, test_axes(b, a)[j]));
}

/// The axes that the test tries on polygons that are not degenerate all
/// have a length, and there are some.
pub proof fn lemma_test_axes_proper(a: Seq<Vec2d>, b: Seq<Vec2d>)
    requires
        !degenerate(a),
        !degenerate(b),
    ensures
        all_nonzero(test_axes(a, b)),
        test_axes(a, b).len() >= 1,
{
    lemma_normals_nonzero(a);
    lemma_normals_nonzero(b);
    assert forall|k: int| 0 <= k < test_axes(a, b).len() implies (#[trigger] test_axes(a, b)[k]).norm_sq() > 0 by {
        if k < a.len() {
            assert(test_axes(a, b)[k] == normals(a)[k]);
        } else {
            assert(test_axes(a, b)[k] == normals(b)[k - a.len()]);
        }
    }
}

/// The best contact of `(a, b)` is no deeper than that of `(b, a)`.
proof fn lemma_best_no_deeper_swapped(a: Seq<Vec2d>, b: Seq<Vec2d>)
    requires
        spec_contact(a, b) is Some,
        spec_contact(b, a) is Some,
    ensures
        no_deeper(spec_contact(a, b)->0, spec_contact(b, a)->0),
{
    lemma_test_axes_proper(a, b);
    lemma_test_axes_proper(b, a);
    lemma_best_is_least(a, b, test_axes(a, b));
    lemma_best_is_least(b, a, test_axes(b, a));
    let c = spec_contact(a, b)->0;
    let d = spec_contact(b, a)->0;
    let j = choose|j: int| 0 <= j < test_axes(b, a).len() && d == contact_on(b, a, #[trigger] test_axes(b, a)[j]);
    let k = lemma_axes_swap(b, a, j);
    let n = test_axes(a, b)[k];
    lemma_axis_swap(a, b, n);
    assert(no_deeper(c, contact_on(a, b, n)));
}

/// Whether the test finds two polygons in contact, and how deep, does not
/// depend on which of them is named first.
pub proof fn lemma_contact_symmetric(a: Seq<Vec2d>, b: Seq<Vec2d>)
    ensures
        spec_contact(a, b) is Some <==> spec_contact(b, a) is Some,
        spec_contact(a, b) is Some ==> (spec_contact(a, b)->0).same_depth(spec_contact(b, a)->0),
{
    if any_separating(a, b, test_axes(a, b)) {
        lemma_separating_swap(a, b);
    }
    if any_separating(b, a, test_axes(b, a)) {
        lemma_separating_swap(b, a);
    }
    if spec_contact(a, b) is Some {
        lemma_best_no_deeper_swapped(a, b);
        lemma_best_no_deeper_swapped(b, a);
    }
}


/// The two displacements that part the polygons along `n` are equally long,
/// so that neither way out is the shorter.
pub open spec fn tied_on(a: Seq<Vec2d>, b: Seq<Vec2d>, n: Axis) -> bool {
    max_proj(n, a) - min_proj(n, b) == max_proj(n, b) - min_proj(n, a)
}

/// `u` and `v` point the same way.
pub open spec fn same_direction(u: Axis, v: Axis) -> bool {
    u.x * v.y - u.y * v.x == 0 && u.x * v.x + u.y * v.y > 0
}

/// `u` and `v` point in opposite ways.
pub open spec fn opposed(u: Axis, v: Axis) -> bool {
    u.x * v.y - u.y * v.x == 0 && u.x * v.x + u.y * v.y < 0
}

/// The polygons are in contact, and every axis on which the contact is as
/// shallow as the best one pushes the same way as the best one and is not
/// tied.
pub open spec fn decisive(a: Seq<Vec2d>, b: Seq<Vec2d>) -> bool {
    &&& spec_contact(a, b) is Some
    &&& forall|k: int|
        0 <= k < test_axes(a, b).len() && contact_on(a, b, #[trigger] test_axes(a, b)[k]).same_depth(
            spec_contact(a, b)->0,
        ) ==> !tied_on(a, b, test_axes(a, b)[k]) && same_direction(
            contact_on(a, b, test_axes(a, b)[k]).push,
            (spec_contact(a, b)->0).push,
        )
}

proof fn lemma_equal_ratio_nonneg(a: int, b: int, c: int, e: int)
    requires
        a >= 0,
        c >= 0,
        b > 0,
        e > 0,
        a * e == c * b,
    ensures
        a / b == c / e,
{
    let q = a / b;
    let r = a % b;
    lemma_fundamental_div_mod(a, b);
    assert(0 <= r < b);
    assert(a == b * q + r);
    let s = c - q * e;
    assert(0 <= s < e) by (nonlinear_arith)
        requires
            a == b * q + r,
            0 <= r < b,
            a * e == c * b,
            b > 0,
            e > 0,
            s == c - q * e,
    {
        assert(c * b == (b * q + r) * e);
        assert(s * b == r * e);
        assert(r * e < b * e);
    }
    lemma_fundamental_div_mod_converse_div(c, e, q, s);
}

/// Two fractions of the same value have the same quotient.
proof fn lemma_equal_ratio(a: int, b: int, c: int, e: int)
    requires
        b > 0,
        e > 0,
        a * e == c * b,
    ensures
        div_toward_zero(a, b) == div_toward_zero(c, e),
{
    assert((a >= 0 ==> c >= 0) && (a <= 0 ==> c <= 0) && (-a) * e == (-c) * b) by (nonlinear_arith)
        requires
            b > 0,
            e > 0,
            a * e == c * b,
    ;
    if a >= 0 {
        lemma_equal_ratio_nonneg(a, b, c, e);
        if c == 0 {
            assert(a == 0) by (nonlinear_arith)
                requires
                    a * e == c * b,
                    c == 0,
                    e > 0,
            ;
        }
    } else {
        assert(c < 0) by (nonlinear_arith)
            requires
                a * e == c * b,
                a < 0,
                b > 0,
                e > 0,
                c <= 0,
        ;
        lemma_equal_ratio_nonneg(-a, b, -c, e);
    }
}

/// Two proper contacts of the same depth that push the same way give the same
/// translation.
proof fn lemma_same_translation(c: ContactView, d: ContactView)
    requires
        proper(c),
        proper(d),
        same_direction(d.push, c.push),
        d.same_depth(c),
    ensures
        d.translation() == c.translation(),
{
    let px = c.push.x;
    let py = c.push.y;
    let qx = d.push.x;
    let qy = d.push.y;
    let o = c.overlap;
    let r = d.overlap;
    let nn = c.push.norm_sq();
    let mm = d.push.norm_sq();
    let dd = qx * px + qy * py;
    assert(mm * px == dd * qx && mm * py == dd * qy && dd * dd == nn * mm) by (nonlinear_arith)
        requires
            qx * py - qy * px == 0,
            dd == qx * px + qy * py,
            nn == px * px + py * py,
            mm == qx * qx + qy * qy,
    ;
    assert(o * dd == r * nn) by (nonlinear_arith)
        requires
            r * r * nn == o * o * mm,
            dd * dd == nn * mm,
            o >= 0,
            r >= 0,
            nn > 0,
            dd > 0,
    {
        assert((o * dd) * (o * dd) == (o * o) * (dd * dd));
        assert((o * o) * (nn * mm) == (o * o * mm) * nn);
        assert((r * r * nn) * nn == (r * nn) * (r * nn));
        assert((o * dd) * (o * dd) == (r * nn) * (r * nn));
        assert(o * dd >= 0);
        assert(r * nn >= 0);
        if o * dd < r * nn {
            assert((o * dd) * (o * dd) < (r * nn) * (r * nn));
        }
        if o * dd > r * nn {
            assert((o * dd) * (o * dd) > (r * nn) * (r * nn));
        }
    }
    assert((qx * r) * nn == (px * o) * mm && (qy * r) * nn == (py * o) * mm) by (nonlinear_arith)
        requires
            o * dd == r * nn,
            mm * px == dd * qx,
            mm * py == dd * qy,
    {
        assert((qx * r) * nn == qx * (r * nn));
        assert(qx * (o * dd) == o * (dd * qx));
        assert((qy * r) * nn == qy * (r * nn));
        assert(qy * (o * dd) == o * (dd * qy));
    }
    lemma_equal_ratio(qx * r, mm, px * o, nn);
    lemma_equal_ratio(qy * r, mm, py * o, nn);
}

/// The translation along the reversed direction is the negated translation.
proof fn lemma_reversed_translation(c: ContactView, d: ContactView)
    requires
        proper(c),
        d.push == c.push.reversed(),
        d.overlap == c.overlap,
    ensures
        d.translation().0 == -c.translation().0,
        d.translation().1 == -c.translation().1,
{
    lemma_reversed_norm(c.push);
    let o = c.overlap;
    let x = c.push.x;
    let y = c.push.y;
    assert((-x) * o == -(x * o) && (-y) * o == -(y * o)) by (nonlinear_arith);
}

/// Where the contact of `a` with `b` is decisive, the test on `(b, a)` gives
/// the opposite push direction and the negated translation.
pub proof fn lemma_contact_opposed(a: Seq<Vec2d>, b: Seq<Vec2d>)
    requires
        decisive(a, b),
    ensures
        spec_contact(b, a) is Some,
        opposed((spec_contact(a, b)->0).push, (spec_contact(b, a)->0).push),
        (spec_contact(b, a)->0).translation().0 == -(spec_contact(a, b)->0).translation().0,
        (spec_contact(b, a)->0).translation().1 == -(spec_contact(a, b)->0).translation().1,
{
    lemma_contact_symmetric(a, b);
    lemma_test_axes_proper(a, b);
    lemma_test_axes_proper(b, a);
    lemma_best_is_least(a, b, test_axes(a, b));
    lemma_best_is_least(b, a, test_axes(b, a));
    let c = spec_contact(a, b)->0;
    let d = spec_contact(b, a)->0;
    let j = choose|j: int| 0 <= j < test_axes(b, a).len() && d == contact_on(b, a, #[trigger] test_axes(b, a)[j]);
    let k = lemma_axes_swap(b, a, j);
    let n = test_axes(a, b)[k];
    let e = contact_on(a, b, n);
    lemma_axis_swap(a, b, n);
    assert(!separated_on(a, b, n));
    lemma_contact_proper(a, b, n);
    assert(e.same_depth(c));
    assert(!tied_on(a, b, n));
    assert(d.push == e.push.reversed());
    lemma_same_translation(c, e);
    lemma_reversed_translation(e, d);
    let u = c.push;
    let v = e.push;
    assert(opposed(u, v.reversed())) by (nonlinear_arith)
        requires
            same_direction(v, u),
    ;
}

} // verus!
