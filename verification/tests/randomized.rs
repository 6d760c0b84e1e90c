use hex_physics::box2d::Box2;
use hex_physics::box2d::Box2d;
use hex_physics::broad_phase::detect_all;
use hex_physics::collider::Collider;
use hex_physics::collision_manager::CollisionManager;
use hex_physics::entity::Entity;
use hex_physics::physical::Physical;
use hex_physics::quad_tree::QuadTree;
use hex_physics::sat::contact;
use hex_physics::transform::Transform;
use hex_physics::vector::Vec2d;

/// A small generator of pseudo-random numbers.
struct Lcg(u64);

impl Lcg {
    fn next(&mut self) -> u64 {
        self.0 = self.0.wrapping_mul(6364136223846793005).wrapping_add(1442695040888963407);
        self.0 >> 33
    }

    fn between(&mut self, low: i64, high: i64) -> i64 {
        low + (self.next() % ((high - low + 1) as u64)) as i64
    }
}

fn convex_shape(rng: &mut Lcg) -> Vec<Vec2d> {
    let cx = rng.between(-40, 40);
    let cy = rng.between(-40, 40);
    let w = rng.between(1, 20);
    let h = rng.between(1, 20);
    match rng.next() % 3 {
        0 => vec![
            Vec2d::new(cx - w, cy - h),
            Vec2d::new(cx - w, cy + h),
            Vec2d::new(cx + w, cy + h),
            Vec2d::new(cx + w, cy - h),
        ],
        1 => vec![Vec2d::new(cx - w, cy - h), Vec2d::new(cx, cy + h), Vec2d::new(cx + w, cy - h)],
        _ => vec![
            Vec2d::new(cx - w, cy),
            Vec2d::new(cx, cy + h),
            Vec2d::new(cx + w, cy),
            Vec2d::new(cx, cy - h),
        ],
    }
}

#[test]
fn swapping_the_shapes_keeps_the_depth() {
    let mut rng = Lcg(7);
    let mut contacts = 0;
    for _ in 0..2000 {
        let a = convex_shape(&mut rng);
        let b = convex_shape(&mut rng);
        let ab = contact(&a, &b);
        let ba = contact(&b, &a);
        assert_eq!(ab.is_some(), ba.is_some());
        if let (Some(c), Some(d)) = (ab, ba) {
            contacts += 1;
            let lhs = (c.overlap as i128) * (c.overlap as i128) * (d.norm_sq() as i128);
            let rhs = (d.overlap as i128) * (d.overlap as i128) * (c.norm_sq() as i128);
            assert_eq!(lhs, rhs);
        }
    }
    assert!(contacts > 100);
}

#[test]
fn the_translation_leaves_less_than_rounding_behind() {
    let mut rng = Lcg(11);
    for _ in 0..2000 {
        let a = convex_shape(&mut rng);
        let b = convex_shape(&mut rng);
        if let Some(c) = contact(&a, &b) {
            let t = c.translation();
            let gone = c.push.x * t.x + c.push.y * t.y;
            let rest = c.overlap - gone;
            assert!(rest >= 0);
            assert!(rest < c.push.x.abs() + c.push.y.abs());
        }
    }
}

#[test]
fn the_index_answers_like_a_search_through_all_points() {
    let mut rng = Lcg(3);
    for round in 0..40 {
        let world = Box2d::new(Vec2d::new(rng.between(-50, 50), rng.between(-50, 50)), 200);
        let cap = (round % 5) as usize;
        let mut tree: QuadTree<u32> = QuadTree::new(world, cap);
        let mut stored: Vec<(Vec2d, u64)> = Vec::new();
        for id in 0..300u64 {
            let p = Vec2d::new(rng.between(-260, 260), rng.between(-260, 260));
            let ok = tree.insert((p, id), id as u32);
            assert_eq!(ok, world.contains(p));
            if ok {
                stored.push((p, id));
            }
        }
        for _ in 0..20 {
            let range = Box2::new(
                Vec2d::new(rng.between(-260, 260), rng.between(-260, 260)),
                rng.between(0, 150),
            );
            let mut found: Vec<u64> = tree.query(range).iter().map(|e| e.id).collect();
            found.sort();
            let mut expected: Vec<u64> =
                stored.iter().filter(|(p, _)| range.contains(*p)).map(|(_, id)| *id).collect();
            expected.sort();
            assert_eq!(found, expected);
        }
    }
}

#[test]
fn the_pass_finds_what_a_test_of_all_pairs_finds() {
    let mut rng = Lcg(5);
    for round in 0..30 {
        let mut es: Vec<Entity> = Vec::new();
        for id in 0..40u64 {
            let size = rng.between(2, 30);
            let layers = vec![1 + rng.next() % 2];
            let mut c = Collider::rect(Vec2d::new(size, size), layers, vec![], false, true);
            c.active = rng.next() % 5 != 0;
            let collider = if rng.next() % 6 == 0 { None } else { Some(c) };
            let body = if rng.next() % 2 == 0 {
                Some(Physical::new(Vec2d::new(0, 0), true))
            } else {
                None
            };
            let t = Transform::new(Vec2d::new(rng.between(-120, 120), rng.between(-120, 120)));
            es.push(Entity::new(id, t, collider, body));
        }
        let bounds = Box2d::new(Vec2d::new(0, 0), 100);
        let events = detect_all(&bounds, (round % 4) as usize, &es);
        let mut found: Vec<(usize, usize)> = events.iter().map(|e| (e.a, e.b)).collect();
        found.sort();
        let listed = |e: &Entity| match &e.collider {
            Some(c) => c.active && bounds.contains(e.transform.position),
            None => false,
        };
        let mut expected = Vec::new();
        for i in 0..es.len() {
            for j in (i + 1)..es.len() {
                if listed(&es[i])
                    && listed(&es[j])
                    && CollisionManager::detect(&es[i], &es[j]).is_some()
                {
                    expected.push((i, j));
                }
            }
        }
        assert_eq!(found, expected);
    }
}

#[test]
fn defaults_are_empty() {
    assert_eq!(Vec2d::default(), Vec2d::new(0, 0));
    assert_eq!(Box2d::default(), Box2d::new(Vec2d::new(0, 0), 0));
    let mut tree: QuadTree<u8> = QuadTree::default();
    assert!(tree.query(Box2d::new(Vec2d::new(0, 0), 10)).is_empty());
    assert!(tree.insert((Vec2d::new(0, 0), 1), 0));
    assert!(tree.insert((Vec2d::new(0, 0), 2), 0));
    assert!(!tree.insert((Vec2d::new(1, 0), 3), 0));
    assert_eq!(tree.query(Box2d::new(Vec2d::new(0, 0), 10)).len(), 2);
}
