use vstd::prelude::*;

use crate::box2d::Box2d;
use crate::broad_phase::detect_all;
use crate::broad_phase::detected;
use crate::collision_manager::apply_events;
use crate::collision_manager::CollisionEvent;
use crate::collision_manager::CollisionManager;
use crate::entity::all_wf;
use crate::entity::snapshot;
use crate::entity::Entity;
use crate::entity::EntityView;
use crate::physical::Physical;
use crate::transform::Transform;
use crate::vector::clamped_sum;
use crate::vector::div_toward_zero;
use crate::vector::Vec2d;

verus! {

/// The tick: it clears the collision logs, then in each of `step_amount`
/// substeps moves the bodies by their forces, finds the shapes that overlap
/// and corrects their positions, and at last derives the velocities.
pub struct PhysicsManager {
    /// Number of substeps of a tick.
    pub step_amount: u32,
    /// The longest time that a tick accounts for.
    pub max_delta: u32,
    /// The part of the world that the spatial index covers.
    pub bounds: Box2d,
    /// Capacity of a node of the spatial index.
    pub cap: usize,
}

impl EntityView {
    /// The entity with the log of its shape emptied, where the shape is
    /// active.
    pub open spec fn cleared(self) -> EntityView {
        match self.collider {
            Some(c) if c.active => EntityView { collider: Some(c.cleared()), ..self },
            _ => self,
        }
    }

    /// The entity after one substep of `dt / steps`: moved by its force,
    /// where it has an active body.
    pub open spec fn integrated(self, dt: int, steps: int) -> EntityView {
        match self.body {
            Some(b) if b.active => EntityView {
                transform: Transform {
                    position: self.transform.position.spec_moved_by(
                        div_toward_zero(b.force.x * dt, steps),
                        div_toward_zero(b.force.y * dt, steps),
                    ),
                    ..self.transform
                },
                ..self
            },
            _ => self,
        }
    }

    /// The entity at the end of a tick of length `dt`: its body remembers
    /// the position, and takes as its velocity the way from the position it
    /// remembered before, divided by `dt` and rounded toward zero. Where no
    /// time has passed or no position was remembered the velocity stays.
    pub open spec fn settled(self, dt: int) -> EntityView {
        match self.body {
            Some(b) => EntityView {
                body: Some(
                    Physical {
                        velocity: match b.last_position {
                            Some(p) if dt > 0 => Some(
                                Vec2d {
                                    x: div_toward_zero(self.transform.position.x - p.x, dt) as i64,
                                    y: div_toward_zero(self.transform.position.y - p.y, dt) as i64,
                                },
                            ),
                            _ => b.velocity,
                        },
                        last_position: Some(self.transform.position),
                        ..b
                    },
                ),
                ..self
            },
            None => self,
        }
    }
}

/// Every entity with its log emptied.
pub open spec fn cleared_all(es: Seq<EntityView>) -> Seq<EntityView> {
    Seq::new(es.len(), |i: int| es[i].cleared())
}

/// Every entity after one substep.
pub open spec fn integrated_all(es: Seq<EntityView>, dt: int, steps: int) -> Seq<EntityView> {
    Seq::new(es.len(), |i: int| es[i].integrated(dt, steps))
}

/// Every entity at the end of the tick.
pub open spec fn settled_all(es: Seq<EntityView>, dt: int) -> Seq<EntityView> {
    Seq::new(es.len(), |i: int| es[i].settled(dt))
}

/// One coordinate of the way that `force` takes a body in one substep.
fn step_length(force: i64, dt: u32, steps: u32) -> (d: i128)
    requires
        steps >= 1,
    ensures
        d == div_toward_zero(force * dt, steps as int),
{
    let f: i128 = force as i128;
    let t: i128 = dt as i128;
    assert(-0x8000_0000_0000_0000_0000_0000 <= f * t <= 0x8000_0000_0000_0000_0000_0000)
        by (nonlinear_arith)
        requires
            -0x8000_0000_0000_0000 <= f <= 0x8000_0000_0000_0000,
            0 <= t <= 0x1_0000_0000,
    ;
    (f * t) / (steps as i128)
}

impl PhysicsManager {
    /// There is at least one substep, and the index has a proper boundary.
    pub open spec fn wf(self) -> bool {
        &&& self.step_amount >= 1
        &&& self.bounds.wf()
    }

    /// The time that a tick of `delta` accounts for.
    pub open spec fn spec_dt(self, delta: u32) -> u32 {
        if delta > self.max_delta {
            self.max_delta
        } else {
            delta
        }
    }

    pub fn new(step_amount: u32, max_delta: u32, bounds: Box2d, cap: usize) -> (m: Self)
        ensures
            m == (PhysicsManager { step_amount, max_delta, bounds, cap }),
    {
        Self { step_amount, max_delta, bounds, cap }
    }

    /// Empties the log of every active shape.
    pub fn clear(entities: &mut Vec<Entity>)
        requires
            all_wf(snapshot(old(entities)@)),
        ensures
            snapshot(final(entities)@) == cleared_all(snapshot(old(entities)@)),
            all_wf(snapshot(final(entities)@)),
    {
        let ghost before = snapshot(entities@);
        let mut i: usize = 0;
        while i < entities.len()
            invariant
                i <= entities.len(),
                entities@.len() == before.len(),
                forall|k: int| 0 <= k < i ==> (#[trigger] entities@[k])@ == before[k].cleared(),
                forall|k: int| i <= k < before.len() ==> (#[trigger] entities@[k])@ == before[k],
                all_wf(before),
            decreases entities.len() - i,
        {
            match &mut entities[i].collider {
                Some(c) => {
                    if c.active {
                        c.clear();
                    }
                },
                None => {},
            }
            i += 1;
        }
        proof {
            assert(snapshot(entities@) =~= cleared_all(before));
            assert forall|k: int| 0 <= k < before.len() implies (#[trigger] snapshot(
                entities@,
            )[k]).wf() by {
                assert(before[k].wf());
            }
        }
    }

    /// Moves every active body by what its force does in one substep.
    pub fn integrate(&self, entities: &mut Vec<Entity>, dt: u32)
        requires
            self.wf(),
            all_wf(snapshot(old(entities)@)),
        ensures
            snapshot(final(entities)@) == integrated_all(
                snapshot(old(entities)@),
                dt as int,
                self.step_amount as int,
            ),
            all_wf(snapshot(final(entities)@)),
    {
        let ghost before = snapshot(entities@);
        let mut i: usize = 0;
        while i < entities.len()
            invariant
                i <= entities.len(),
                self.wf(),
                entities@.len() == before.len(),
                forall|k: int|
                    0 <= k < i ==> (#[trigger] entities@[k])@ == before[k].integrated(
                        dt as int,
                        self.step_amount as int,
                    ),
                forall|k: int| i <= k < before.len() ==> (#[trigger] entities@[k])@ == before[k],
                all_wf(before),
            decreases entities.len() - i,
        {
            assert(before[i as int].wf());
            let moved = match &entities[i].body {
                Some(b) => {
                    if b.active {
                        let p = entities[i].transform.position;
                        Some(
                            Vec2d {
                                x: clamped_sum(p.x, step_length(b.force.x, dt, self.step_amount)),
                                y: clamped_sum(p.y, step_length(b.force.y, dt, self.step_amount)),
                            },
                        )
                    } else {
                        None
                    }
                },
                None => None,
            };
            match moved {
                Some(p) => {
                    entities[i].transform.position = p;
                },
                None => {},
            }
            i += 1;
        }
        proof {
            assert(snapshot(entities@) =~= integrated_all(
                before,
                dt as int,
                self.step_amount as int,
            ));
            assert forall|k: int| 0 <= k < before.len() implies (#[trigger] snapshot(
                entities@,
            )[k]).wf() by {
                assert(before[k].wf());
            }
        }
    }

    /// Ends the tick for every body: see `EntityView::settled`.
    pub fn settle(entities: &mut Vec<Entity>, dt: u32)
        requires
            all_wf(snapshot(old(entities)@)),
        ensures
            snapshot(final(entities)@) == settled_all(snapshot(old(entities)@), dt as int),
            all_wf(snapshot(final(entities)@)),
    {
        let ghost before = snapshot(entities@);
        let mut i: usize = 0;
        while i < entities.len()
            invariant
                i <= entities.len(),
                entities@.len() == before.len(),
                forall|k: int| 0 <= k < i ==> (#[trigger] entities@[k])@ == before[k].settled(dt as int),
                forall|k: int| i <= k < before.len() ==> (#[trigger] entities@[k])@ == before[k],
                all_wf(before),
            decreases entities.len() - i,
        {
            assert(before[i as int].wf());
            let p = entities[i].transform.position;
            match &mut entities[i].body {
                Some(b) => {
                    match b.last_position {
                        Some(q) => {
                            if dt > 0 {
                                let vx: i64 = (p.x - q.x) / (dt as i64);
                                let vy: i64 = (p.y - q.y) / (dt as i64);
                                b.set_velocity(Vec2d::new(vx, vy));
                            }
                        },
                        None => {},
                    }
                    b.set_last_position(p);
                },
                None => {},
            }
            i += 1;
        }
        proof {
            assert(snapshot(entities@) =~= settled_all(before, dt as int));
            assert forall|k: int| 0 <= k < before.len() implies (#[trigger] snapshot(
                entities@,
            )[k]).wf() by {
                assert(before[k].wf());
            }
        }
    }
}


/// The events of the passes of a tick, pass by pass.
pub open spec fn passes(log: Seq<Vec<CollisionEvent>>) -> Seq<Seq<CollisionEvent>> {
    Seq::new(log.len(), |s: int| log[s]@)
}

impl PhysicsManager {
    /// The snapshot as the moves of the bodies in a substep leave it.
    pub open spec fn moved(self, es: Seq<EntityView>, dt: int) -> Seq<EntityView> {
        integrated_all(es, dt, self.step_amount as int)
    }

    /// The snapshot after one substep: every body moved, then the
    /// collisions of the detection pass written back.
    pub open spec fn substep(self, es: Seq<EntityView>, dt: int) -> Seq<EntityView> {
        apply_events(self.moved(es, dt), detected(self.moved(es, dt), self.bounds, self.cap))
    }

    /// The snapshot after the first `s` substeps of a tick.
    pub open spec fn stepped(self, es: Seq<EntityView>, dt: int, s: nat) -> Seq<EntityView>
        decreases s,
    {
        if s == 0 {
            es
        } else {
            self.substep(self.stepped(es, dt, (s - 1) as nat), dt)
        }
    }

    /// The events of the detection pass of substep `s`, counted from zero.
    pub open spec fn pass(self, es: Seq<EntityView>, dt: int, s: nat) -> Seq<CollisionEvent> {
        detected(self.moved(self.stepped(es, dt, s), dt), self.bounds, self.cap)
    }

    /// The events of all passes of a tick that starts from `es` with its
    /// logs cleared.
    pub open spec fn pass_log(self, es: Seq<EntityView>, dt: int) -> Seq<Seq<CollisionEvent>> {
        Seq::new(self.step_amount as nat, |s: int| self.pass(es, dt, s as nat))
    }

    /// The snapshot after a tick of `delta`: the logs cleared, the substeps
    /// made, the velocities derived.
    pub open spec fn ticked(self, es: Seq<EntityView>, delta: u32) -> Seq<EntityView> {
        settled_all(
            self.stepped(cleared_all(es), self.spec_dt(delta) as int, self.step_amount as nat),
            self.spec_dt(delta) as int,
        )
    }

    /// One tick. The snapshot is changed in place; the events of the
    /// detection passes are returned, pass by pass, in the order in which
    /// they were written back.
    pub fn update(&self, entities: &mut Vec<Entity>, delta: u32) -> (log: Vec<Vec<CollisionEvent>>)
        requires
            self.wf(),
            all_wf(snapshot(old(entities)@)),
        ensures
            snapshot(final(entities)@) == self.ticked(snapshot(old(entities)@), delta),
            passes(log@) == self.pass_log(
                cleared_all(snapshot(old(entities)@)),
                self.spec_dt(delta) as int,
            ),
            all_wf(snapshot(final(entities)@)),
    {
        let dt: u32 = if delta > self.max_delta {
            self.max_delta
        } else {
            delta
        };
        Self::clear(entities);
        let ghost start = snapshot(entities@);
        let mut log: Vec<Vec<CollisionEvent>> = Vec::new();
        let mut s: u32 = 0;
        while s < self.step_amount
            invariant
                s <= self.step_amount,
                self.wf(),
                log@.len() == s,
                all_wf(snapshot(entities@)),
                snapshot(entities@) == self.stepped(start, dt as int, s as nat),
                forall|k: int|
                    0 <= k < s ==> #[trigger] passes(log@)[k] == self.pass(start, dt as int, k as nat),
            decreases self.step_amount - s,
        {
            let ghost past = passes(log@);
            self.integrate(entities, dt);
            let events = detect_all(&self.bounds, self.cap, entities);
            CollisionManager::resolve_all(entities, &events);
            log.push(events);
            proof {
                let now = passes(log@);
                assert(now[s as int] == events@);
                assert forall|k: int| 0 <= k < s implies #[trigger] now[k] == past[k] by {}
            }
            s += 1;
        }
        Self::settle(entities, dt);
        proof {
            assert(passes(log@) =~= self.pass_log(start, dt as int));
        }
        log
    }
}

} // verus!
