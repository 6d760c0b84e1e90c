use hex_physics::broad_phase::detect_all;
use hex_physics::collider::Collider;
use hex_physics::collision_manager::is_eligible;
use hex_physics::collision_manager::CollisionEvent;
use hex_physics::collision_manager::CollisionManager;
use hex_physics::box2d::Box2d;
use hex_physics::entity::Entity;
use hex_physics::physical::Physical;
use hex_physics::physics_manager::PhysicsManager;
use hex_physics::transform::Transform;
use hex_physics::vector::Vec2d;
use hex_physics::vector::POSITION_LIMIT;

fn shape(size: i64, layers: Vec<u64>, ignore: Vec<u64>, is_ghost: bool) -> Collider {
    Collider::rect(Vec2d::new(size, size), layers, ignore, is_ghost, true)
}

fn entity(id: u64, x: i64, y: i64, collider: Option<Collider>, body: Option<Physical>) -> Entity {
    Entity::new(id, Transform::new(Vec2d::new(x, y)), collider, body)
}

fn still() -> Option<Physical> {
    Some(Physical::new(Vec2d::new(0, 0), true))
}

fn manager(steps: u32) -> PhysicsManager {
    PhysicsManager::new(steps, 1000, Box2d::new(Vec2d::new(0, 0), 1000), 4)
}

fn log_of(e: &Entity) -> Vec<u64> {
    e.collider.as_ref().unwrap().collisions.clone()
}

#[test]
fn shapes_collide_when_layers_meet_and_nobody_ignores() {
    let a = shape(2, vec![1, 2], vec![], false);
    assert!(is_eligible(&a, &shape(2, vec![2, 3], vec![], false)));
    assert!(!is_eligible(&a, &shape(2, vec![3, 4], vec![], false)));
    assert!(!is_eligible(&a, &shape(2, vec![], vec![], false)));
    assert!(!is_eligible(&a, &shape(2, vec![2], vec![1], false)));
    assert!(!is_eligible(&shape(2, vec![2], vec![1], false), &a));
    assert!(!is_eligible(&shape(2, vec![1], vec![9], false), &shape(2, vec![1, 9], vec![], false)));
    assert!(is_eligible(&shape(2, vec![1], vec![9], false), &shape(2, vec![1], vec![9], false)));
}

#[test]
fn detect_shares_the_translation_between_two_bodies() {
    let a = entity(1, 0, 0, Some(shape(10, vec![1], vec![], false)), still());
    let b = entity(2, 7, 0, Some(shape(10, vec![1], vec![], false)), still());
    // The overlap is 3: the first takes -1 (half, rounded toward zero), the
    // second the remaining 2.
    assert_eq!(
        CollisionManager::detect(&a, &b),
        Some((false, (Some(Vec2d::new(-1, 0)), Some(Vec2d::new(2, 0)))))
    );
    assert_eq!(
        CollisionManager::detect(&b, &a),
        Some((false, (Some(Vec2d::new(1, 0)), Some(Vec2d::new(-2, 0)))))
    );
}

#[test]
fn detect_gives_all_of_it_to_the_only_body() {
    let a = entity(1, 0, 0, Some(shape(10, vec![1], vec![], false)), still());
    let wall = entity(2, 7, 0, Some(shape(10, vec![1], vec![], false)), None);
    assert_eq!(
        CollisionManager::detect(&a, &wall),
        Some((false, (Some(Vec2d::new(-3, 0)), None)))
    );
    assert_eq!(
        CollisionManager::detect(&wall, &a),
        Some((false, (None, Some(Vec2d::new(-3, 0)))))
    );
    let other_wall = entity(3, 0, 0, Some(shape(10, vec![1], vec![], false)), None);
    assert_eq!(CollisionManager::detect(&other_wall, &wall), Some((false, (None, None))));
}

#[test]
fn detect_finds_nothing_without_overlap_shape_or_layer() {
    let a = entity(1, 0, 0, Some(shape(10, vec![1], vec![], false)), still());
    let far = entity(2, 11, 0, Some(shape(10, vec![1], vec![], false)), still());
    let bare = entity(3, 0, 0, None, still());
    let elsewhere = entity(4, 1, 0, Some(shape(10, vec![2], vec![], false)), still());
    let shy = entity(5, 1, 0, Some(shape(10, vec![1], vec![1], false)), still());
    assert_eq!(CollisionManager::detect(&a, &far), None);
    assert_eq!(CollisionManager::detect(&a, &bare), None);
    assert_eq!(CollisionManager::detect(&bare, &a), None);
    assert_eq!(CollisionManager::detect(&a, &elsewhere), None);
    assert_eq!(CollisionManager::detect(&a, &shy), None);
    assert_eq!(CollisionManager::detect(&shy, &a), None);
}

#[test]
fn detect_marks_a_collision_with_a_ghost() {
    let a = entity(1, 0, 0, Some(shape(10, vec![1], vec![], true)), still());
    let b = entity(2, 7, 0, Some(shape(10, vec![1], vec![], false)), still());
    assert_eq!(
        CollisionManager::detect(&a, &b),
        Some((true, (Some(Vec2d::new(-1, 0)), Some(Vec2d::new(2, 0)))))
    );
    assert_eq!(CollisionManager::detect(&b, &a).unwrap().0, true);
}

#[test]
fn resolve_notes_and_moves() {
    let mut c = shape(2, vec![1], vec![], false);
    let mut t = Transform::new(Vec2d::new(5, 5));
    CollisionManager::resolve(false, 9, &mut c, &mut t, Some(Vec2d::new(-2, 3)));
    assert_eq!(c.collisions, vec![9]);
    assert_eq!(t.position, Vec2d::new(3, 8));
    CollisionManager::resolve(false, 9, &mut c, &mut t, None);
    assert_eq!(c.collisions, vec![9]);
    assert_eq!(t.position, Vec2d::new(3, 8));
    CollisionManager::resolve(true, 4, &mut c, &mut t, Some(Vec2d::new(100, 100)));
    assert_eq!(c.collisions, vec![9, 4]);
    assert_eq!(t.position, Vec2d::new(3, 8));
    CollisionManager::resolve(false, 4, &mut c, &mut t, Some(Vec2d::new(i64::MAX / 4, 0)));
    assert_eq!(t.position, Vec2d::new(POSITION_LIMIT, 8));
}

#[test]
fn resolve_all_writes_events_back_in_order() {
    let mut es = vec![
        entity(10, 0, 0, Some(shape(2, vec![1], vec![], false)), still()),
        entity(20, 1, 0, Some(shape(2, vec![1], vec![], false)), None),
        entity(30, 2, 0, None, still()),
    ];
    let events = vec![
        CollisionEvent { a: 0, b: 1, collision: (false, (Some(Vec2d::new(-1, 0)), None)) },
        CollisionEvent { a: 1, b: 2, collision: (false, (None, Some(Vec2d::new(0, 5)))) },
        CollisionEvent { a: 0, b: 2, collision: (true, (Some(Vec2d::new(9, 9)), Some(Vec2d::new(9, 9)))) },
        CollisionEvent { a: 0, b: 1, collision: (false, (Some(Vec2d::new(-1, 0)), None)) },
    ];
    CollisionManager::resolve_all(&mut es, &events);
    assert_eq!(log_of(&es[0]), vec![20, 30]);
    assert_eq!(log_of(&es[1]), vec![10, 30]);
    assert!(es[2].collider.is_none());
    assert_eq!(es[0].transform.position, Vec2d::new(-2, 0));
    assert_eq!(es[1].transform.position, Vec2d::new(1, 0));
    assert_eq!(es[2].transform.position, Vec2d::new(2, 5));
}

#[test]
fn the_pass_lists_each_pair_once() {
    let es = vec![
        entity(1, 0, 0, Some(shape(10, vec![1], vec![], false)), still()),
        entity(2, 4, 0, Some(shape(10, vec![1], vec![], false)), still()),
        entity(3, 8, 0, Some(shape(10, vec![1], vec![], false)), still()),
        entity(4, 100, 100, Some(shape(10, vec![1], vec![], false)), still()),
        entity(5, 4, 4, None, still()),
    ];
    let bounds = Box2d::new(Vec2d::new(0, 0), 1000);
    for cap in [0usize, 1, 2, 8] {
        let events = detect_all(&bounds, cap, &es);
        let mut pairs: Vec<(usize, usize)> = events.iter().map(|e| (e.a, e.b)).collect();
        pairs.sort();
        assert_eq!(pairs, vec![(0, 1), (0, 2), (1, 2)]);
        for e in &events {
            assert_eq!(Some(e.collision), CollisionManager::detect(&es[e.a], &es[e.b]));
        }
    }
}

#[test]
fn the_pass_leaves_out_what_is_inactive_or_out_of_bounds() {
    let mut sleeping = shape(10, vec![1], vec![], false);
    sleeping.active = false;
    let es = vec![
        entity(1, 0, 0, Some(shape(10, vec![1], vec![], false)), still()),
        entity(2, 1, 0, Some(sleeping), still()),
        entity(3, 48, 0, Some(shape(10, vec![1], vec![], false)), still()),
        entity(4, 52, 0, Some(shape(10, vec![1], vec![], false)), still()),
    ];
    let events = detect_all(&Box2d::new(Vec2d::new(0, 0), 50), 4, &es);
    assert!(events.is_empty());
    let events = detect_all(&Box2d::new(Vec2d::new(0, 0), 60), 4, &es);
    assert_eq!(events.len(), 1);
    assert_eq!((events[0].a, events[0].b), (2, 3));
}

#[test]
fn a_radius_too_small_hides_a_collision() {
    let mut small = shape(10, vec![1], vec![], false);
    small.boundary = 1;
    let mut also_small = shape(10, vec![1], vec![], false);
    also_small.boundary = 1;
    let es = vec![
        entity(1, 0, 0, Some(small), still()),
        entity(2, 4, 0, Some(also_small), still()),
    ];
    assert!(CollisionManager::detect(&es[0], &es[1]).is_some());
    assert!(detect_all(&Box2d::new(Vec2d::new(0, 0), 100), 4, &es).is_empty());
}

#[test]
fn substeps_are_consistent_in_time() {
    let body = Some(Physical::new(Vec2d::new(3, -5), true));
    let mut four = vec![entity(1, 10, 10, Some(shape(2, vec![1], vec![], false)), body)];
    let mut one = four.clone();
    let log4 = manager(4).update(&mut four, 8);
    let log1 = manager(1).update(&mut one, 8);
    assert_eq!(log4.len(), 4);
    assert_eq!(log1.len(), 1);
    assert!(log4.iter().all(|pass| pass.is_empty()));
    assert_eq!(one[0].transform.position, Vec2d::new(34, -30));
    assert_eq!(four[0].transform.position, Vec2d::new(34, -30));
}

#[test]
fn substeps_fall_short_by_less_than_one_unit_each() {
    let body = Some(Physical::new(Vec2d::new(3, -5), true));
    let mut four = vec![entity(1, 0, 0, None, body)];
    let mut one = four.clone();
    manager(4).update(&mut four, 3);
    manager(1).update(&mut one, 3);
    // One step goes (9, -15); four steps of (2, -3) go (8, -12).
    assert_eq!(one[0].transform.position, Vec2d::new(9, -15));
    assert_eq!(four[0].transform.position, Vec2d::new(8, -12));
}

#[test]
fn a_tick_accounts_for_no_more_than_max_delta() {
    let body = Some(Physical::new(Vec2d::new(1, 2), true));
    let mut es = vec![entity(1, 0, 0, None, body)];
    let m = PhysicsManager::new(2, 10, Box2d::new(Vec2d::new(0, 0), 1000), 4);
    m.update(&mut es, 500);
    assert_eq!(es[0].transform.position, Vec2d::new(10, 20));
}

#[test]
fn only_active_bodies_are_moved() {
    let mut es = vec![
        entity(1, 0, 0, None, Some(Physical::new(Vec2d::new(1, 1), false))),
        entity(2, 0, 0, None, None),
        entity(3, 0, 0, None, Some(Physical::new(Vec2d::new(1, 1), true))),
    ];
    manager(1).update(&mut es, 5);
    assert_eq!(es[0].transform.position, Vec2d::new(0, 0));
    assert_eq!(es[1].transform.position, Vec2d::new(0, 0));
    assert_eq!(es[2].transform.position, Vec2d::new(5, 5));
}

#[test]
fn the_velocity_is_the_way_since_the_last_tick_over_the_time() {
    let mut es = vec![entity(1, 0, 0, None, Some(Physical::new(Vec2d::new(7, -7), true)))];
    let m = manager(1);
    m.update(&mut es, 3);
    let b = es[0].body.unwrap();
    assert_eq!(b.velocity(), Vec2d::new(0, 0));
    assert_eq!(b.velocity, None);
    assert_eq!(b.last_position(), Some(Vec2d::new(21, -21)));
    m.update(&mut es, 3);
    let b = es[0].body.unwrap();
    assert_eq!(b.velocity(), Vec2d::new(7, -7));
    assert_eq!(b.last_position(), Some(Vec2d::new(42, -42)));
    es[0].transform.position = Vec2d::new(50, -42);
    m.update(&mut es, 0);
    let b = es[0].body.unwrap();
    assert_eq!(b.velocity(), Vec2d::new(7, -7));
    assert_eq!(b.last_position(), Some(Vec2d::new(50, -42)));
    es[0].body = Some(Physical { force: Vec2d::new(0, 0), ..b });
    es[0].transform.position = Vec2d::new(55, -45);
    m.update(&mut es, 2);
    assert_eq!(es[0].body.unwrap().velocity(), Vec2d::new(2, -1));
}

#[test]
fn a_ghost_is_noted_and_moves_nobody() {
    let mut es = vec![
        entity(1, 0, 0, Some(shape(10, vec![1], vec![], true)), still()),
        entity(2, 7, 0, Some(shape(10, vec![1], vec![], false)), still()),
    ];
    let log = manager(3).update(&mut es, 16);
    assert_eq!(log.len(), 3);
    for pass in &log {
        assert_eq!(pass.len(), 1);
        assert!(pass[0].collision.0);
    }
    assert_eq!(log_of(&es[0]), vec![2]);
    assert_eq!(log_of(&es[1]), vec![1]);
    assert_eq!(es[0].transform.position, Vec2d::new(0, 0));
    assert_eq!(es[1].transform.position, Vec2d::new(7, 0));
}

#[test]
fn shapes_on_different_layers_never_meet() {
    let mut es = vec![
        entity(1, 0, 0, Some(shape(10, vec![1], vec![], false)), still()),
        entity(2, 3, 0, Some(shape(10, vec![2], vec![], false)), still()),
        entity(3, 0, 3, Some(shape(10, vec![3, 4], vec![], false)), still()),
    ];
    let log = manager(2).update(&mut es, 16);
    assert!(log.iter().all(|pass| pass.is_empty()));
    assert!(log_of(&es[0]).is_empty());
    assert!(log_of(&es[1]).is_empty());
    assert!(log_of(&es[2]).is_empty());
    assert_eq!(es[0].transform.position, Vec2d::new(0, 0));
    assert_eq!(es[1].transform.position, Vec2d::new(3, 0));
}

#[test]
fn an_ignored_layer_keeps_shapes_apart_in_the_log() {
    let mut es = vec![
        entity(1, 0, 0, Some(shape(10, vec![1], vec![], false)), still()),
        entity(2, 3, 0, Some(shape(10, vec![1, 2], vec![], false)), still()),
        entity(3, 0, 3, Some(shape(10, vec![1], vec![2], true)), still()),
    ];
    manager(1).update(&mut es, 16);
    assert_eq!(log_of(&es[0]), vec![2, 3]);
    assert_eq!(log_of(&es[1]), vec![1]);
    assert_eq!(log_of(&es[2]), vec![1]);
}

#[test]
fn overlapping_bodies_are_pushed_apart() {
    let mut es = vec![
        entity(1, 0, 0, Some(shape(10, vec![1], vec![], false)), still()),
        entity(2, 6, 0, Some(shape(10, vec![1], vec![], false)), still()),
    ];
    let log = manager(1).update(&mut es, 16);
    assert_eq!(log.len(), 1);
    assert_eq!(log[0].len(), 1);
    assert_eq!((log[0][0].a, log[0][0].b), (0, 1));
    assert_eq!(log[0][0].collision, (false, (Some(Vec2d::new(-2, 0)), Some(Vec2d::new(2, 0)))));
    assert_eq!(es[0].transform.position, Vec2d::new(-2, 0));
    assert_eq!(es[1].transform.position, Vec2d::new(8, 0));
    assert_eq!(log_of(&es[0]), vec![2]);
    assert_eq!(log_of(&es[1]), vec![1]);
}

#[test]
fn a_wall_stays_and_the_body_gives_way() {
    let mut es = vec![
        entity(1, 0, 0, Some(shape(10, vec![1], vec![], false)), None),
        entity(2, 6, 0, Some(shape(10, vec![1], vec![], false)), still()),
        entity(3, -7, 0, Some(shape(10, vec![1], vec![], false)), None),
    ];
    manager(1).update(&mut es, 16);
    assert_eq!(es[0].transform.position, Vec2d::new(0, 0));
    assert_eq!(es[1].transform.position, Vec2d::new(10, 0));
    assert_eq!(es[2].transform.position, Vec2d::new(-7, 0));
    assert_eq!(log_of(&es[0]), vec![2, 3]);
    assert_eq!(log_of(&es[1]), vec![1]);
    assert_eq!(log_of(&es[2]), vec![1]);
}

#[test]
fn a_pair_is_noted_once_in_a_tick_and_the_log_starts_empty() {
    let body = Some(Physical::new(Vec2d::new(1, 0), true));
    let wall = shape(20, vec![1], vec![], false);
    let mut walker = shape(2, vec![1], vec![], false);
    walker.collisions = vec![77, 78];
    let mut asleep = shape(2, vec![1], vec![], false);
    asleep.active = false;
    asleep.collisions = vec![5];
    let mut es = vec![
        entity(1, 0, 0, Some(wall), None),
        entity(2, -12, 0, Some(walker), body),
        entity(3, 0, 0, Some(asleep), None),
    ];
    // Each substep walks the body one unit into the wall, which pushes it back.
    let log = manager(4).update(&mut es, 8);
    assert_eq!(log.iter().map(|pass| pass.len()).sum::<usize>(), 4);
    assert_eq!(log_of(&es[0]), vec![2]);
    assert_eq!(log_of(&es[1]), vec![1]);
    assert_eq!(log_of(&es[2]), vec![5]);
    assert_eq!(es[1].transform.position, Vec2d::new(-11, 0));
}

#[test]
fn an_entity_outside_the_index_takes_no_part() {
    let mut es = vec![
        entity(1, 1200, 0, Some(shape(10, vec![1], vec![], false)), still()),
        entity(2, 1203, 0, Some(shape(10, vec![1], vec![], false)), still()),
    ];
    let log = manager(1).update(&mut es, 16);
    assert!(log[0].is_empty());
    assert!(log_of(&es[0]).is_empty());
    assert_eq!(es[0].transform.position, Vec2d::new(1200, 0));
}

#[test]
fn an_empty_snapshot_is_fine() {
    let mut es: Vec<Entity> = Vec::new();
    let log = manager(2).update(&mut es, 16);
    assert_eq!(log.len(), 2);
    assert!(es.is_empty());
}
