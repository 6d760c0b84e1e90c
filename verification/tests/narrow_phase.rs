use hex_physics::collider::Collider;
use hex_physics::polygon::Polygon;
use hex_physics::sat::contact;
use hex_physics::sat::is_degenerate;
use hex_physics::transform::Transform;
use hex_physics::transform::UNIT;
use hex_physics::vector::Vec2d;

fn square() -> Collider {
    Collider::rect(Vec2d::new(2, 2), vec![1], vec![], false, true)
}

fn at(x: i64, y: i64) -> Transform {
    Transform::new(Vec2d::new(x, y))
}

#[test]
fn overlapping_squares_part_along_x() {
    let a = square();
    let b = square();
    let mtv = a.intersecting(&at(0, 0), &b, &at(1, 0));
    assert_eq!(mtv, Some(Vec2d::new(-1, 0)));
    let back = b.intersecting(&at(1, 0), &a, &at(0, 0));
    assert_eq!(back, Some(Vec2d::new(1, 0)));
}

#[test]
fn distant_squares_do_not_collide() {
    let a = square();
    let b = square();
    assert_eq!(a.intersecting(&at(0, 0), &b, &at(3, 0)), None);
    assert_eq!(b.intersecting(&at(3, 0), &a, &at(0, 0)), None);
}

#[test]
fn applying_the_translation_separates() {
    let a = Collider::rect(Vec2d::new(10, 6), vec![1], vec![], false, true);
    let b = Collider::rect(Vec2d::new(4, 8), vec![1], vec![], false, true);
    let ta = at(0, 0);
    let tb = at(6, 2);
    let mtv = a.intersecting(&ta, &b, &tb).unwrap();
    assert_eq!(mtv, Vec2d::new(-1, 0));
    let moved = at(ta.position.x + mtv.x, ta.position.y + mtv.y);
    let after = a.intersecting(&moved, &b, &tb).unwrap();
    assert_eq!(after, Vec2d::new(0, 0));
    let further = at(moved.position.x - 1, moved.position.y);
    assert_eq!(a.intersecting(&further, &b, &tb), None);
}

#[test]
fn touching_squares_have_a_contact_of_depth_zero() {
    let a = square();
    let b = square();
    assert_eq!(a.intersecting(&at(0, 0), &b, &at(2, 0)), Some(Vec2d::new(0, 0)));
}

#[test]
fn swapped_shapes_have_the_same_depth_and_opposite_push() {
    let a = Collider::rect(Vec2d::new(8, 4), vec![1], vec![], false, true);
    let b = Collider::oct(Vec2d::new(6, 6), vec![1], vec![], false, true);
    let ta = at(0, 0);
    let tb = at(5, 1);
    let ab = a.contact_with(&ta, &b, &tb).unwrap();
    let ba = b.contact_with(&tb, &a, &ta).unwrap();
    let lhs = (ab.overlap as i128) * (ab.overlap as i128) * (ba.norm_sq() as i128);
    let rhs = (ba.overlap as i128) * (ba.overlap as i128) * (ab.norm_sq() as i128);
    assert_eq!(lhs, rhs);
    let cross = ab.push.x * ba.push.y - ab.push.y * ba.push.x;
    let dot = ab.push.x * ba.push.x + ab.push.y * ba.push.y;
    assert_eq!(cross, 0);
    assert!(dot < 0);
    let t1 = ab.translation();
    let t2 = ba.translation();
    assert_eq!(t1, Vec2d::new(-t2.x, -t2.y));
}

#[test]
fn shapes_in_the_same_place_are_pushed_the_same_way() {
    // Neither way out is the shorter one: the first argument always goes
    // against the first axis.
    let a = square();
    let b = square();
    assert_eq!(a.intersecting(&at(0, 0), &b, &at(0, 0)), Some(Vec2d::new(-2, 0)));
    assert_eq!(b.intersecting(&at(0, 0), &a, &at(0, 0)), Some(Vec2d::new(-2, 0)));
}

#[test]
fn contact_reports_axis_and_overlap() {
    let a = vec![Vec2d::new(-1, -1), Vec2d::new(-1, 1), Vec2d::new(1, 1), Vec2d::new(1, -1)];
    let b = vec![Vec2d::new(0, -1), Vec2d::new(0, 1), Vec2d::new(2, 1), Vec2d::new(2, -1)];
    let c = contact(&a, &b).unwrap();
    assert_eq!(c.push, Vec2d::new(-2, 0));
    assert_eq!(c.overlap, 2);
    assert_eq!(c.norm_sq(), 4);
    assert_eq!(c.translation(), Vec2d::new(-1, 0));
}

#[test]
fn the_shallowest_axis_wins() {
    let a = Collider::rect(Vec2d::new(10, 10), vec![1], vec![], false, true);
    let b = Collider::rect(Vec2d::new(10, 10), vec![1], vec![], false, true);
    assert_eq!(a.intersecting(&at(0, 0), &b, &at(8, 3)), Some(Vec2d::new(-2, 0)));
    assert_eq!(a.intersecting(&at(0, 0), &b, &at(3, 8)), Some(Vec2d::new(0, -2)));
    assert_eq!(a.intersecting(&at(0, 0), &b, &at(-3, -8)), Some(Vec2d::new(0, 2)));
}

#[test]
fn an_edge_of_the_second_shape_can_separate() {
    // A diamond and a square: only a slanted edge of the diamond parts them.
    let square = vec![Vec2d::new(0, 0), Vec2d::new(0, 4), Vec2d::new(4, 4), Vec2d::new(4, 0)];
    let diamond = vec![Vec2d::new(7, 3), Vec2d::new(5, 5), Vec2d::new(7, 7), Vec2d::new(9, 5)];
    assert!(contact(&square, &diamond).is_none());
    assert!(contact(&diamond, &square).is_none());
    let closer = vec![Vec2d::new(5, 1), Vec2d::new(3, 3), Vec2d::new(5, 5), Vec2d::new(7, 3)];
    assert!(contact(&square, &closer).is_some());
}

#[test]
fn degenerate_polygons_never_collide() {
    let tri = vec![Vec2d::new(0, 0), Vec2d::new(4, 0), Vec2d::new(0, 4)];
    let two = vec![Vec2d::new(0, 0), Vec2d::new(4, 0)];
    let none: Vec<Vec2d> = vec![];
    let doubled = vec![Vec2d::new(0, 0), Vec2d::new(0, 0), Vec2d::new(4, 0), Vec2d::new(0, 4)];
    let closing = vec![Vec2d::new(0, 0), Vec2d::new(4, 0), Vec2d::new(0, 4), Vec2d::new(0, 0)];
    assert!(!is_degenerate(&tri));
    assert!(is_degenerate(&two));
    assert!(is_degenerate(&none));
    assert!(is_degenerate(&doubled));
    assert!(is_degenerate(&closing));
    assert!(contact(&tri, &tri).is_some());
    assert!(contact(&tri, &two).is_none());
    assert!(contact(&two, &tri).is_none());
    assert!(contact(&none, &tri).is_none());
    assert!(contact(&tri, &doubled).is_none());
    assert!(contact(&closing, &tri).is_none());
}

#[test]
fn a_scale_of_zero_makes_a_shape_degenerate() {
    let a = square();
    let b = square();
    let flat = Transform { position: Vec2d::new(0, 0), xx: 0, xy: 0, yx: 0, yy: 0 };
    assert_eq!(a.intersecting(&flat, &b, &at(0, 0)), None);
    assert_eq!(b.intersecting(&at(0, 0), &a, &flat), None);
}

#[test]
fn the_matrix_turns_and_scales() {
    let a = Collider::rect(Vec2d::new(8, 2), vec![1], vec![], false, true);
    let b = square();
    // Lying flat, the bar does not reach a square three units above it.
    assert_eq!(a.intersecting(&at(0, 0), &b, &at(0, 3)), None);
    // Turned by a quarter it does.
    let quarter = Transform { position: Vec2d::new(0, 0), xx: 0, xy: -UNIT, yx: UNIT, yy: 0 };
    assert_eq!(quarter.matrix().apply(Vec2d::new(4, 1)), Vec2d::new(-1, 4));
    assert_eq!(a.intersecting(&quarter, &b, &at(0, 3)), Some(Vec2d::new(0, -2)));
    // Doubled in size, the square at the origin reaches one at (2, 0) by one
    // unit and touches one at (3, 0).
    let doubled = Transform { position: Vec2d::new(0, 0), xx: 2 * UNIT, xy: 0, yx: 0, yy: 2 * UNIT };
    assert_eq!(b.intersecting(&at(0, 0), &b, &at(3, 0)), None);
    assert_eq!(b.intersecting(&doubled, &b, &at(2, 0)), Some(Vec2d::new(-1, 0)));
    assert_eq!(b.intersecting(&doubled, &b, &at(3, 0)), Some(Vec2d::new(0, 0)));
    // Halved, all its corners round to the position: it is degenerate.
    let halved = Transform { position: Vec2d::new(0, 0), xx: UNIT / 2, xy: 0, yx: 0, yy: UNIT / 2 };
    assert_eq!(halved.matrix().apply(Vec2d::new(1, 1)), Vec2d::new(0, 0));
    assert_eq!(b.intersecting(&halved, &b, &at(1, 0)), None);
}

#[test]
fn matrix_rounds_toward_zero() {
    let t = Transform { position: Vec2d::new(10, -10), xx: UNIT / 2, xy: 0, yx: 0, yy: UNIT / 2 };
    let m = t.matrix();
    assert_eq!(m.tx, 10);
    assert_eq!(m.ty, -10);
    assert_eq!(m.apply(Vec2d::new(3, -3)), Vec2d::new(11, -11));
    assert_eq!(m.apply(Vec2d::new(-3, 3)), Vec2d::new(9, -9));
    assert_eq!(m.apply(Vec2d::new(4, -4)), Vec2d::new(12, -12));
}

#[test]
fn the_translation_is_rounded_toward_zero() {
    // A slanted edge: the push direction is (-3, -3) with overlap 3, so the
    // exact translation is (-0.5, -0.5).
    let a = vec![Vec2d::new(0, 0), Vec2d::new(0, 3), Vec2d::new(3, 0)];
    let b = vec![Vec2d::new(1, 1), Vec2d::new(1, 5), Vec2d::new(5, 5), Vec2d::new(5, 1)];
    let c = contact(&a, &b).unwrap();
    assert_eq!(c.push, Vec2d::new(-3, -3));
    assert_eq!(c.overlap, 3);
    assert_eq!(c.translation(), Vec2d::new(0, 0));
    let d = contact(&b, &a).unwrap();
    assert_eq!(d.push, Vec2d::new(3, 3));
    assert_eq!(d.overlap, 3);
}

#[test]
fn polygon_says_whether_shapes_overlap() {
    let a = Polygon::rect(Vec2d::new(2, 2));
    let b = Polygon::rect(Vec2d::new(2, 2));
    assert_eq!(a.points, vec![Vec2d::new(-1, -1), Vec2d::new(-1, 1), Vec2d::new(1, 1), Vec2d::new(1, -1)]);
    assert!(a.collisions.is_empty());
    assert!(a.intersecting(&at(0, 0), &b, &at(1, 0)));
    assert!(a.intersecting(&at(0, 0), &b, &at(2, 2)));
    assert!(!a.intersecting(&at(0, 0), &b, &at(3, 0)));
    let line = Polygon::new(vec![Vec2d::new(0, 0), Vec2d::new(1, 0)]);
    assert!(!line.intersecting(&at(0, 0), &a, &at(0, 0)));
}
