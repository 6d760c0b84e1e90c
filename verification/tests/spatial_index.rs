use hex_physics::box2d::Box2d;
use hex_physics::quad_tree::Entry;
use hex_physics::quad_tree::QuadTree;
use hex_physics::vector::Vec2d;

fn world() -> Box2d {
    Box2d::new(Vec2d::new(0, 0), 100)
}

fn ids(found: &Vec<Entry<u8>>) -> Vec<u64> {
    let mut v: Vec<u64> = found.iter().map(|e| e.id).collect();
    v.sort();
    v
}

#[test]
fn box_contains_its_edges() {
    let b = Box2d::new(Vec2d::new(10, -10), 5);
    assert!(b.contains(Vec2d::new(10, -10)));
    assert!(b.contains(Vec2d::new(15, -5)));
    assert!(b.contains(Vec2d::new(5, -15)));
    assert!(!b.contains(Vec2d::new(16, -10)));
    assert!(!b.contains(Vec2d::new(10, -4)));
    assert!(!b.contains(Vec2d::new(4, -10)));
    assert!(!b.contains(Vec2d::new(10, -16)));
}

#[test]
fn box_contains_works_at_the_ends_of_the_number_range() {
    let b = Box2d::new(Vec2d::new(i64::MAX, i64::MIN), i64::MAX);
    assert!(b.contains(Vec2d::new(i64::MAX, i64::MIN)));
    assert!(b.contains(Vec2d::new(0, -1)));
    assert!(!b.contains(Vec2d::new(-1, 0)));
    assert!(b.intersects(&Box2d::new(Vec2d::new(0, 0), 1)));
}

#[test]
fn boxes_intersect_when_they_share_a_point() {
    let a = Box2d::new(Vec2d::new(0, 0), 2);
    assert!(a.intersects(&Box2d::new(Vec2d::new(4, 0), 2)));
    assert!(a.intersects(&Box2d::new(Vec2d::new(4, 4), 2)));
    assert!(a.intersects(&Box2d::new(Vec2d::new(0, 0), 10)));
    assert!(a.intersects(&Box2d::new(Vec2d::new(1, 1), 0)));
    assert!(!a.intersects(&Box2d::new(Vec2d::new(5, 0), 2)));
    assert!(!a.intersects(&Box2d::new(Vec2d::new(0, -5), 2)));
    assert!(!a.intersects(&Box2d::new(Vec2d::new(3, 3), 0)));
}

#[test]
fn subdivide_gives_four_quadrants() {
    let b = Box2d::new(Vec2d::new(10, 20), 8);
    let (nw, ne, se, sw) = b.subdivide();
    assert_eq!(nw, Box2d::new(Vec2d::new(6, 24), 4));
    assert_eq!(ne, Box2d::new(Vec2d::new(14, 24), 4));
    assert_eq!(se, Box2d::new(Vec2d::new(14, 16), 4));
    assert_eq!(sw, Box2d::new(Vec2d::new(6, 16), 4));
}

#[test]
fn quadrants_of_an_odd_box_cover_it() {
    let b = Box2d::new(Vec2d::new(0, 0), 5);
    let (nw, ne, se, sw) = b.subdivide();
    assert_eq!(nw, Box2d::new(Vec2d::new(-2, 2), 3));
    assert_eq!(ne, Box2d::new(Vec2d::new(2, 2), 3));
    assert_eq!(se, Box2d::new(Vec2d::new(2, -2), 3));
    assert_eq!(sw, Box2d::new(Vec2d::new(-2, -2), 3));
    for x in -6..=6 {
        for y in -6..=6 {
            let p = Vec2d::new(x, y);
            let inside = nw.contains(p) || ne.contains(p) || se.contains(p) || sw.contains(p);
            assert_eq!(inside, b.contains(p));
        }
    }
}

#[test]
fn every_inserted_point_is_found_once() {
    let mut tree: QuadTree<u8> = QuadTree::new(world(), 4);
    let mut expected = Vec::new();
    let mut id: u64 = 0;
    for x in -5..5 {
        for y in -5..5 {
            assert!(tree.insert((Vec2d::new(x * 17, y * 13), id), 0));
            expected.push(id);
            id += 1;
        }
    }
    let found = tree.query(world());
    assert_eq!(found.len(), 100);
    assert_eq!(ids(&found), expected);
}

#[test]
fn a_point_outside_is_refused_and_never_found() {
    let mut tree: QuadTree<u8> = QuadTree::new(world(), 4);
    assert!(tree.insert((Vec2d::new(100, -100), 1), 0));
    assert!(!tree.insert((Vec2d::new(101, 0), 2), 0));
    assert!(!tree.insert((Vec2d::new(0, -101), 3), 0));
    assert_eq!(ids(&tree.query(world())), vec![1]);
    assert_eq!(ids(&tree.query(Box2d::new(Vec2d::new(0, 0), 1000))), vec![1]);
    assert_eq!(ids(&tree.query(Box2d::new(Vec2d::new(101, 0), 0))), Vec::<u64>::new());
}

#[test]
fn a_full_node_divides() {
    let mut tree: QuadTree<u8> = QuadTree::new(world(), 2);
    assert!(tree.insert((Vec2d::new(-50, 50), 1), 0));
    assert!(tree.insert((Vec2d::new(50, 50), 2), 0));
    assert!(tree.sub.is_none());
    assert!(tree.insert((Vec2d::new(50, -50), 3), 0));
    assert_eq!(tree.points.len(), 2);
    let kids = tree.sub.as_ref().unwrap();
    assert_eq!(kids.0.boundary, Box2d::new(Vec2d::new(-50, 50), 50));
    assert_eq!(kids.1.boundary, Box2d::new(Vec2d::new(50, 50), 50));
    assert_eq!(kids.2.boundary, Box2d::new(Vec2d::new(50, -50), 50));
    assert_eq!(kids.3.boundary, Box2d::new(Vec2d::new(-50, -50), 50));
    assert_eq!(kids.0.cap, 2);
    assert!(kids.0.points.is_empty());
    assert!(kids.1.points.is_empty());
    assert_eq!(kids.2.points.len(), 1);
    assert_eq!(kids.2.points[0].id, 3);
    assert!(kids.3.points.is_empty());
}

#[test]
fn a_point_on_a_shared_edge_goes_to_the_first_quadrant() {
    let mut tree: QuadTree<u8> = QuadTree::new(world(), 0);
    assert!(tree.insert((Vec2d::new(0, 0), 7), 0));
    assert!(tree.points.is_empty());
    let kids = tree.sub.as_ref().unwrap();
    assert_eq!(kids.0.query(world()).len(), 1);
    assert_eq!(kids.1.query(world()).len(), 0);
    assert_eq!(kids.2.query(world()).len(), 0);
    assert_eq!(kids.3.query(world()).len(), 0);
    assert_eq!(tree.query(world()).len(), 1);
}

#[test]
fn many_points_on_one_spot_end_in_the_smallest_node() {
    let mut tree: QuadTree<u8> = QuadTree::new(world(), 1);
    for id in 0..50 {
        assert!(tree.insert((Vec2d::new(33, 33), id), 0));
    }
    let found = tree.query(Box2d::new(Vec2d::new(33, 33), 0));
    assert_eq!(found.len(), 50);
    assert_eq!(ids(&found), (0..50).collect::<Vec<u64>>());
    assert_eq!(tree.query(Box2d::new(Vec2d::new(34, 33), 0)).len(), 0);
}

#[test]
fn subdivide_leaves_a_small_or_divided_node_alone() {
    let mut tiny: QuadTree<u8> = QuadTree::new(Box2d::new(Vec2d::new(0, 0), 1), 1);
    tiny.subdivide();
    assert!(tiny.sub.is_none());
    let mut tree: QuadTree<u8> = QuadTree::new(world(), 1);
    tree.subdivide();
    assert!(tree.sub.is_some());
    assert!(tree.insert((Vec2d::new(10, 10), 1), 0));
    assert!(tree.insert((Vec2d::new(20, 20), 2), 0));
    tree.subdivide();
    assert_eq!(tree.query(world()).len(), 2);
}

#[test]
fn query_returns_the_points_in_range() {
    let mut tree: QuadTree<u8> = QuadTree::new(world(), 3);
    let mut id: u64 = 0;
    for x in -10..=10 {
        for y in -10..=10 {
            assert!(tree.insert((Vec2d::new(x * 10, y * 10), id), 1));
            id += 1;
        }
    }
    let range = Box2d::new(Vec2d::new(25, -25), 15);
    let found = tree.query(range);
    // x in {10, 20, 30, 40}, y in {-40, -30, -20, -10}
    assert_eq!(found.len(), 16);
    for e in &found {
        assert!(range.contains(e.point));
        assert_eq!(e.payload, 1);
    }
    let mut seen = ids(&found);
    seen.dedup();
    assert_eq!(seen.len(), 16);
    assert_eq!(tree.query(Box2d::new(Vec2d::new(500, 500), 10)).len(), 0);
    assert_eq!(tree.query(Box2d::new(Vec2d::new(105, 0), 5)).len(), 1);
}

#[test]
fn build_keeps_what_lies_in_the_boundary() {
    let entries = vec![
        Entry { point: Vec2d::new(1, 1), id: 1, payload: 10u8 },
        Entry { point: Vec2d::new(200, 1), id: 2, payload: 20u8 },
        Entry { point: Vec2d::new(-100, 100), id: 3, payload: 30u8 },
        Entry { point: Vec2d::new(1, 1), id: 4, payload: 40u8 },
    ];
    let tree = QuadTree::build(world(), 1, &entries);
    let found = tree.query(world());
    assert_eq!(ids(&found), vec![1, 3, 4]);
    let mut payloads: Vec<u8> = found.iter().map(|e| e.payload).collect();
    payloads.sort();
    assert_eq!(payloads, vec![10, 30, 40]);
}

#[test]
fn an_empty_tree_answers_nothing() {
    let tree: QuadTree<u8> = QuadTree::new(world(), 4);
    assert_eq!(tree.cap, 4);
    assert_eq!(tree.boundary, world());
    assert!(tree.query(world()).is_empty());
}
