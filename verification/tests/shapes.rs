use hex_physics::collider::Collider;
use hex_physics::force::Force;
use hex_physics::force_manager::ForceManager;
use hex_physics::momentum::Momentum;
use hex_physics::physical::Physical;
use hex_physics::transform::Transform;
use hex_physics::transform::UNIT;
use hex_physics::vector::ceil_sqrt;
use hex_physics::vector::clamped_sum;
use hex_physics::vector::Vec2d;
use hex_physics::vector::POSITION_LIMIT;

#[test]
fn ceil_sqrt_rounds_up() {
    assert_eq!(ceil_sqrt(0), 0);
    assert_eq!(ceil_sqrt(1), 1);
    assert_eq!(ceil_sqrt(2), 2);
    assert_eq!(ceil_sqrt(4), 2);
    assert_eq!(ceil_sqrt(5), 3);
    assert_eq!(ceil_sqrt(9), 3);
    assert_eq!(ceil_sqrt(10), 4);
    assert_eq!(ceil_sqrt(1_000_000), 1000);
    assert_eq!(ceil_sqrt(1_000_001), 1001);
    assert_eq!(ceil_sqrt(u64::MAX), 4_294_967_296);
    assert_eq!(ceil_sqrt(4_294_967_295 * 4_294_967_295), 4_294_967_295);
}

#[test]
fn magnitude_is_the_length_rounded_up() {
    assert_eq!(Vec2d::new(3, 4).magnitude(), 5);
    assert_eq!(Vec2d::new(-3, -4).magnitude(), 5);
    assert_eq!(Vec2d::new(1, 1).magnitude(), 2);
    assert_eq!(Vec2d::new(0, 0).magnitude(), 0);
    assert_eq!(Vec2d::new(0, -7).magnitude(), 7);
}

#[test]
fn vector_accessors() {
    let v = Vec2d::new(3, -4);
    assert_eq!(v.x(), 3);
    assert_eq!(v.y(), -4);
    assert_eq!(v, Vec2d { x: 3, y: -4 });
}

#[test]
fn positions_stop_at_the_edge_of_their_range() {
    assert_eq!(clamped_sum(5, 7), 12);
    assert_eq!(clamped_sum(5, -7), -2);
    assert_eq!(clamped_sum(POSITION_LIMIT - 1, 1), POSITION_LIMIT);
    assert_eq!(clamped_sum(POSITION_LIMIT - 1, 2), POSITION_LIMIT);
    assert_eq!(clamped_sum(-POSITION_LIMIT + 1, -2), -POSITION_LIMIT);
    assert_eq!(clamped_sum(0, i128::MAX), POSITION_LIMIT);
    assert_eq!(clamped_sum(0, i128::MIN), -POSITION_LIMIT);
    let p = Vec2d::new(POSITION_LIMIT - 3, 10);
    assert_eq!(p.moved_by(Vec2d::new(5, -20)), Vec2d::new(POSITION_LIMIT, -10));
    assert_eq!(p.moved_by(Vec2d::new(i64::MIN, i64::MAX)), Vec2d::new(-POSITION_LIMIT, POSITION_LIMIT));
}

#[test]
fn rect_has_four_corners_and_their_radius() {
    let c = Collider::rect(Vec2d::new(6, 8), vec![1, 2], vec![3], true, false);
    assert_eq!(
        c.points,
        vec![Vec2d::new(-3, -4), Vec2d::new(-3, 4), Vec2d::new(3, 4), Vec2d::new(3, -4)]
    );
    assert_eq!(c.boundary, 5);
    assert_eq!(c.layers, vec![1, 2]);
    assert_eq!(c.ignore, vec![3]);
    assert!(c.collisions.is_empty());
    assert!(c.is_ghost);
    assert!(!c.active);
}

#[test]
fn rect_halves_round_toward_zero() {
    let c = Collider::rect(Vec2d::new(5, -5), vec![], vec![], false, true);
    assert_eq!(
        c.points,
        vec![Vec2d::new(-2, 2), Vec2d::new(-2, -2), Vec2d::new(2, -2), Vec2d::new(2, 2)]
    );
    assert_eq!(c.boundary, 3);
}

#[test]
fn oct_has_eight_vertices_on_its_radius() {
    let c = Collider::oct(Vec2d::new(6, 8), vec![1], vec![], false, true);
    assert_eq!(
        c.points,
        vec![
            Vec2d::new(-3, -4),
            Vec2d::new(-5, 0),
            Vec2d::new(-3, 4),
            Vec2d::new(0, 5),
            Vec2d::new(3, 4),
            Vec2d::new(5, 0),
            Vec2d::new(3, -4),
            Vec2d::new(0, -5),
        ]
    );
    assert_eq!(c.boundary, 5);
    let d = Collider::oct(Vec2d::new(2, 2), vec![1], vec![], false, true);
    assert_eq!(d.boundary, 2);
    assert_eq!(d.points[1], Vec2d::new(-2, 0));
    assert_eq!(d.points[3], Vec2d::new(0, 2));
}

#[test]
fn new_keeps_what_it_is_given() {
    let pts = vec![Vec2d::new(0, 0), Vec2d::new(1, 0), Vec2d::new(0, 1)];
    let c = Collider::new(pts.clone(), 9, vec![4], vec![5, 6], false, true);
    assert_eq!(c.points, pts);
    assert_eq!(c.boundary, 9);
    assert_eq!(c.layers, vec![4]);
    assert_eq!(c.ignore, vec![5, 6]);
    assert!(c.collisions.is_empty());
    assert!(!c.is_ghost);
    assert!(c.active);
}

#[test]
fn a_shape_notes_an_entity_once() {
    let mut c = Collider::rect(Vec2d::new(2, 2), vec![1], vec![], false, true);
    c.log(7);
    c.log(8);
    c.log(7);
    assert_eq!(c.collisions, vec![7, 8]);
    c.clear();
    assert!(c.collisions.is_empty());
    c.log(7);
    assert_eq!(c.collisions, vec![7]);
}

#[test]
fn world_points_follow_the_transform() {
    let c = Collider::rect(Vec2d::new(4, 2), vec![1], vec![], false, true);
    let t = Transform { position: Vec2d::new(10, 20), xx: 0, xy: -UNIT, yx: UNIT, yy: 0 };
    assert_eq!(
        c.world_points(&t),
        vec![Vec2d::new(11, 18), Vec2d::new(9, 18), Vec2d::new(9, 22), Vec2d::new(11, 22)]
    );
}

#[test]
fn transform_accessors() {
    let mut t = Transform::new(Vec2d::new(1, 2));
    assert_eq!(t.position(), Vec2d::new(1, 2));
    assert_eq!((t.xx, t.xy, t.yx, t.yy), (UNIT, 0, 0, UNIT));
    t.set_position(Vec2d::new(-3, 4));
    assert_eq!(t.position(), Vec2d::new(-3, 4));
    let m = t.matrix();
    assert_eq!((m.xx, m.xy, m.yx, m.yy, m.tx, m.ty), (UNIT, 0, 0, UNIT, -3, 4));
    assert_eq!(m.apply(Vec2d::new(5, 5)), Vec2d::new(2, 9));
}

#[test]
fn a_body_starts_without_history() {
    let mut b = Physical::new(Vec2d::new(1, -1), true);
    assert_eq!(b.force, Vec2d::new(1, -1));
    assert!(b.active);
    assert_eq!(b.last_position(), None);
    assert_eq!(b.velocity(), Vec2d::new(0, 0));
    b.set_velocity(Vec2d::new(3, 4));
    assert_eq!(b.velocity(), Vec2d::new(3, 4));
    assert_eq!(b.last_position(), None);
    b.set_last_position(Vec2d::new(9, 9));
    assert_eq!(b.last_position(), Some(Vec2d::new(9, 9)));
    assert_eq!(b.velocity(), Vec2d::new(3, 4));
    assert_eq!(b.force, Vec2d::new(1, -1));
}

#[test]
fn momentum_notes_what_it_acted_on() {
    let mut m = Momentum::new(3, Vec2d::new(2, -5), true);
    assert_eq!(m.mass, 3);
    assert!(m.applied.is_empty());
    assert!(m.active);
    m.apply(4);
    m.apply(4);
    m.apply(9);
    assert_eq!(m.applied, vec![4, 4, 9]);
    assert_eq!(m.vector(), (6, -15));
    let big = Momentum::new(i64::MIN, Vec2d::new(i64::MIN, i64::MAX), false);
    assert_eq!(big.vector(), ((i64::MIN as i128) * (i64::MIN as i128), (i64::MIN as i128) * (i64::MAX as i128)));
}

#[test]
fn forces_move_entities_by_the_time_since_the_last_frame() {
    let f = Force::new(2, Vec2d::new(3, -1));
    assert_eq!(f.weight, 2);
    let mut m = ForceManager::new(100);
    let mut es = vec![
        (Transform::new(Vec2d::new(0, 0)), Some(f)),
        (Transform::new(Vec2d::new(5, 5)), None),
        (Transform::new(Vec2d::new(POSITION_LIMIT - 10, 0)), Some(f)),
    ];
    m.update(110, &mut es);
    assert_eq!(m.frame, 110);
    assert_eq!(es[0].0.position, Vec2d::new(30, -10));
    assert_eq!(es[1].0.position, Vec2d::new(5, 5));
    assert_eq!(es[2].0.position, Vec2d::new(POSITION_LIMIT, -10));
    // A clock that went back counts as no time.
    m.update(50, &mut es);
    assert_eq!(m.frame, 50);
    assert_eq!(es[0].0.position, Vec2d::new(30, -10));
    m.update(51, &mut es);
    assert_eq!(es[0].0.position, Vec2d::new(33, -11));
}
