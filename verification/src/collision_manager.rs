use vstd::prelude::*;

use crate::collider::Collider;
use crate::collider::ColliderView;
use crate::entity::all_wf;
use crate::entity::snapshot;
use crate::entity::Entity;
use crate::entity::EntityView;
use crate::transform::Transform;
use crate::vector::div_toward_zero;
use crate::vector::Id;
use crate::vector::Vec2d;
use crate::vector::POSITION_LIMIT;

verus! {

/// What a pair test found: whether either shape is a ghost, and the
/// translation that each of the two entities is to be given, where it is
/// movable.
pub type Collision = (bool, (Option<Vec2d>, Option<Vec2d>));

/// The pair test of the collision pass and the writing back of its result.
#[derive(Default)]
pub struct CollisionManager;

/// Some tag of `xs` is among `ys`.
pub open spec fn shares_tag(xs: Seq<Id>, ys: Seq<Id>) -> bool {
    exists|i: int| 0 <= i < xs.len() && ys.contains(#[trigger] xs[i])
}

/// Two shapes may collide: they share a layer, and neither ignores a layer
/// of the other.
pub open spec fn eligible(a: ColliderView, b: ColliderView) -> bool {
    &&& shares_tag(a.layers, b.layers)
    &&& !shares_tag(a.ignore, b.layers)
    &&& !shares_tag(b.ignore, a.layers)
}

/// The minimum translation `mtv` of the first shape shared out between the
/// two entities. Where both are movable the first takes half of it, rounded
/// toward zero, and the second the rest, negated; where one is, it takes all
/// of it; a fixed entity takes nothing.
pub open spec fn spec_split(mtv: Vec2d, a_moves: bool, b_moves: bool) -> (
    Option<Vec2d>,
    Option<Vec2d>,
) {
    if a_moves && b_moves {
        let ax = div_toward_zero(mtv.x as int, 2);
        let ay = div_toward_zero(mtv.y as int, 2);
        (
            Some(Vec2d { x: ax as i64, y: ay as i64 }),
            Some(Vec2d { x: (ax - mtv.x) as i64, y: (ay - mtv.y) as i64 }),
        )
    } else if a_moves {
        (Some(mtv), None)
    } else if b_moves {
        (None, Some(Vec2d { x: (-mtv.x) as i64, y: (-mtv.y) as i64 }))
    } else {
        (None, None)
    }
}

/// The pair test: `None` unless both entities have a shape, the shapes may
/// collide and they overlap.
#[verifier::opaque]
pub open spec fn spec_detect(a: EntityView, b: EntityView) -> Option<Collision> {
    if a.collider is Some && b.collider is Some && eligible(a.collider->0, b.collider->0) {
        match (a.collider->0).intersecting(a.transform, b.collider->0, b.transform) {
            Some(mtv) => Some(
                (
                    (a.collider->0).is_ghost || (b.collider->0).is_ghost,
                    spec_split(mtv, a.body is Some, b.body is Some),
                ),
            ),
            None => None,
        }
    } else {
        None
    }
}

/// The transform after a collision: moved by `tr`, unless a ghost took part.
pub open spec fn spec_corrected(t: Transform, ghost_col: bool, tr: Option<Vec2d>) -> Transform {
    if tr is Some && !ghost_col {
        Transform { position: t.position.spec_moved_by((tr->0).x as int, (tr->0).y as int), ..t }
    } else {
        t
    }
}

/// Whether `t` is among `xs`.
fn has_tag(xs: &Vec<Id>, t: Id) -> (r: bool)
    ensures
        r == xs@.contains(t),
{
    let mut i: usize = 0;
    while i < xs.len()
        invariant
            i <= xs.len(),
            forall|k: int| 0 <= k < i ==> xs@[k] != t,
        decreases xs.len() - i,
    {
        if xs[i] == t {
            return true;
        }
        i += 1;
    }
    false
}

/// Whether some tag of `xs` is among `ys`.
fn has_shared_tag(xs: &Vec<Id>, ys: &Vec<Id>) -> (r: bool)
    ensures
        r == shares_tag(xs@, ys@),
{
    let mut i: usize = 0;
    while i < xs.len()
        invariant
            i <= xs.len(),
            forall|k: int| 0 <= k < i ==> !ys@.contains(#[trigger] xs@[k]),
        decreases xs.len() - i,
    {
        if has_tag(ys, xs[i]) {
            return true;
        }
        i += 1;
    }
    false
}

/// Whether two shapes may collide.
pub fn is_eligible(a: &Collider, b: &Collider) -> (r: bool)
    ensures
        r == eligible(a@, b@),
{
    has_shared_tag(&a.layers, &b.layers) && !has_shared_tag(&a.ignore, &b.layers)
        && !has_shared_tag(&b.ignore, &a.layers)
}

/// Shares a translation out between two entities.
fn split(mtv: Vec2d, a_moves: bool, b_moves: bool) -> (r: (Option<Vec2d>, Option<Vec2d>))
    requires
        mtv.within(0x2000_0000_0000_0000),
    ensures
        r == spec_split(mtv, a_moves, b_moves),
{
    if a_moves && b_moves {
        let ax: i64 = mtv.x / 2;
        let ay: i64 = mtv.y / 2;
        (Some(Vec2d::new(ax, ay)), Some(Vec2d::new(ax - mtv.x, ay - mtv.y)))
    } else if a_moves {
        (Some(mtv), None)
    } else if b_moves {
        (None, Some(Vec2d::new(-mtv.x, -mtv.y)))
    } else {
        (None, None)
    }
}

impl CollisionManager {
    /// Tests one pair of entities.
    pub fn detect(a: &Entity, b: &Entity) -> (r: Option<Collision>)
        requires
            a@.wf(),
            b@.wf(),
        ensures
            r == spec_detect(a@, b@),
    {
        reveal(spec_detect);
        match (&a.collider, &b.collider) {
            (Some(ac), Some(bc)) => {
                if !is_eligible(ac, bc) {
                    return None;
                }
                match ac.intersecting(&a.transform, bc, &b.transform) {
                    Some(mtv) => Some(
                        (ac.is_ghost || bc.is_ghost, split(mtv, a.body.is_some(), b.body.is_some())),
                    ),
                    None => None,
                }
            },
            _ => None,
        }
    }

    /// Writes one side of a collision back: the shape notes the other entity,
    /// once, and the transform is moved by `tr`, unless a ghost took part.
    pub fn resolve(
        ghost_col: bool,
        other_e: Id,
        collider: &mut Collider,
        transform: &mut Transform,
        tr: Option<Vec2d>,
    )
        ensures
            final(collider)@ == old(collider)@.logged(other_e),
            *final(transform) == spec_corrected(*old(transform), ghost_col, tr),
    {
        collider.log(other_e);
        correct(transform, ghost_col, tr);
    }

    /// Writes the collisions of one detection pass back, in their order.
    pub fn resolve_all(entities: &mut Vec<Entity>, events: &Vec<CollisionEvent>)
        requires
            all_wf(snapshot(old(entities)@)),
            events_in_range(events@, old(entities)@.len() as int),
        ensures
            snapshot(final(entities)@) == apply_events(snapshot(old(entities)@), events@),
            all_wf(snapshot(final(entities)@)),
    {
        let ghost before = snapshot(entities@);
        let mut m: usize = 0;
        proof {
            assert(events@.take(0) =~= Seq::<CollisionEvent>::empty());
        }
        while m < events.len()
            invariant
                m <= events.len(),
                entities@.len() == before.len(),
                events_in_range(events@, before.len() as int),
                snapshot(entities@) == apply_events(before, events@.take(m as int)),
                all_wf(snapshot(entities@)),
            decreases events.len() - m,
        {
            let ev = events[m];
            let ghost now = snapshot(entities@);
            proof {
                assert(events@.take(m + 1).drop_last() =~= events@.take(m as int));
                assert(events@.take(m + 1).last() == ev);
                assert(now[ev.a as int].wf());
                assert(now[ev.b as int].wf());
            }
            let a_id = entities[ev.a].id;
            let b_id = entities[ev.b].id;
            entities[ev.a].resolve(ev.collision.0, b_id, ev.collision.1.0);
            entities[ev.b].resolve(ev.collision.0, a_id, ev.collision.1.1);
            proof {
                assert(snapshot(entities@) =~= apply_event(now, ev));
                assert forall|k: int| 0 <= k < before.len() implies (#[trigger] snapshot(
                    entities@,
                )[k]).wf() by {
                    assert(now[k].wf());
                }
            }
            m += 1;
        }
        proof {
            assert(events@.take(events.len() as int) =~= events@);
        }
    }
}

/// Moves a transform by `tr`, unless a ghost took part in the collision.
fn correct(transform: &mut Transform, ghost_col: bool, tr: Option<Vec2d>)
    ensures
        *final(transform) == spec_corrected(*old(transform), ghost_col, tr),
        old(transform).position.within(POSITION_LIMIT as int) ==> final(transform).position.within(
            POSITION_LIMIT as int,
        ),
{
    match tr {
        Some(d) => {
            if !ghost_col {
                let p = transform.position().moved_by(d);
                transform.set_position(p);
            }
        },
        None => {},
    }
}

/// One collision of a detection pass: the places of the two entities in the
/// snapshot, the first before the second, and what the pair test found.
#[derive(Clone, Copy, Debug)]
pub struct CollisionEvent {
    pub a: usize,
    pub b: usize,
    pub collision: Collision,
}

impl EntityView {
    /// One side of a collision written back: the shape, if there is one,
    /// notes `other`, and the transform is corrected.
    pub open spec fn resolved(self, ghost_col: bool, other: Id, tr: Option<Vec2d>) -> EntityView {
        EntityView {
            collider: match self.collider {
                Some(c) => Some(c.logged(other)),
                None => None,
            },
            transform: spec_corrected(self.transform, ghost_col, tr),
            ..self
        }
    }
}

impl Entity {
    /// Writes one side of a collision back.
    pub fn resolve(&mut self, ghost_col: bool, other: Id, tr: Option<Vec2d>)
        requires
            old(self)@.wf(),
        ensures
            final(self)@ == old(self)@.resolved(ghost_col, other, tr),
            final(self)@.wf(),
    {
        match &mut self.collider {
            Some(c) => {
                c.log(other);
            },
            None => {},
        }
        correct(&mut self.transform, ghost_col, tr);
    }
}

/// Every event names two places of a snapshot of `n` entities, the first
/// before the second.
pub open spec fn events_in_range(events: Seq<CollisionEvent>, n: int) -> bool {
    forall|m: int| 0 <= m < events.len() ==> (#[trigger] events[m]).a < events[m].b < n
}

/// The snapshot after one collision was written back to both its sides.
pub open spec fn apply_event(es: Seq<EntityView>, ev: CollisionEvent) -> Seq<EntityView> {
    es.update(
        ev.a as int,
        es[ev.a as int].resolved(ev.collision.0, es[ev.b as int].id, ev.collision.1.0),
    ).update(
        ev.b as int,
        es[ev.b as int].resolved(ev.collision.0, es[ev.a as int].id, ev.collision.1.1),
    )
}

/// The snapshot after the collisions were written back one after the other.
pub open spec fn apply_events(es: Seq<EntityView>, events: Seq<CollisionEvent>) -> Seq<EntityView>
    decreases events.len(),
{
    if events.len() == 0 {
        es
    } else {
        apply_event(apply_events(es, events.drop_last()), events.last())
    }
}

} // verus!
