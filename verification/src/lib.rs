//! Two-dimensional collision detection and resolution for convex polygons on
//! an integer grid: a quadtree broad phase, a separating-axis narrow phase and
//! a substepped integrator that applies positional correction.

pub mod vector;
pub mod box2d;
pub mod broad_phase;
pub mod collider;
pub mod collision_manager;
pub mod convex;
pub mod entity;
pub mod force;
pub mod force_manager;
pub mod momentum;
pub mod physical;
pub mod physics_manager;
pub mod polygon;
pub mod quad_tree;
pub mod sat;
pub mod separation;
pub mod seq_facts;
pub mod symmetry;
pub mod tick_laws;
pub mod transform;

pub use box2d::Box2d;
pub use collider::Collider;
pub use collision_manager::CollisionManager;
pub use entity::Entity;
pub use force::Force;
pub use force_manager::ForceManager;
pub use momentum::Momentum;
pub use physical::Physical;
pub use physics_manager::PhysicsManager;
pub use polygon::Polygon;
pub use quad_tree::QuadTree;
pub use transform::Transform;
pub use vector::Vec2d;
