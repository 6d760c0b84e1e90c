//! What holds of every tick: who can appear in a collision log, that a
//! collision is noted on both sides, and what moves an entity.

use vstd::prelude::*;
use vstd::arithmetic::div_mod::lemma_fundamental_div_mod;

use crate::broad_phase::has_active_shape;
use crate::broad_phase::has_event;
use crate::broad_phase::lemma_detected;
use crate::broad_phase::hit;
use crate::broad_phase::lists_hits;
use crate::broad_phase::sound;
use crate::collision_manager::apply_event;
use crate::collision_manager::apply_events;
use crate::collision_manager::eligible;
use crate::collision_manager::events_in_range;
use crate::collision_manager::shares_tag;
use crate::collision_manager::spec_detect;
use crate::collision_manager::CollisionEvent;
use crate::box2d::Box2d;
use crate::entity::all_wf;
use crate::entity::EntityView;
use crate::physics_manager::cleared_all;
use crate::physics_manager::integrated_all;
use crate::physics_manager::PhysicsManager;
use crate::transform::Transform;
use crate::vector::div_toward_zero;
use crate::vector::Id;
use crate::vector::POSITION_LIMIT;

verus! {

/// Two views of one entity at different moments of a tick: all that a tick
/// never changes is the same in both.
pub open spec fn same_cast(x: EntityView, y: EntityView) -> bool {
    &&& x.id == y.id
    &&& x.body is Some <==> y.body is Some
    &&& x.collider is Some <==> y.collider is Some
    &&& x.collider is Some ==> {
        &&& (x.collider->0).layers == (y.collider->0).layers
        &&& (x.collider->0).ignore == (y.collider->0).ignore
        &&& (x.collider->0).is_ghost == (y.collider->0).is_ghost
        &&& (x.collider->0).active == (y.collider->0).active
    }
}

/// Two snapshots of the same entities.
pub open spec fn same_casts(es: Seq<EntityView>, st: Seq<EntityView>) -> bool {
    &&& es.len() == st.len()
    &&& forall|k: int| 0 <= k < es.len() ==> same_cast(#[trigger] es[k], st[k])
}

/// What writing one collision back does at each place.
pub proof fn lemma_apply_event_at(es: Seq<EntityView>, ev: CollisionEvent)
    requires
        ev.a < ev.b < es.len(),
    ensures
        apply_event(es, ev).len() == es.len(),
        apply_event(es, ev)[ev.a as int] == es[ev.a as int].resolved(
            ev.collision.0,
            es[ev.b as int].id,
            ev.collision.1.0,
        ),
        apply_event(es, ev)[ev.b as int] == es[ev.b as int].resolved(
            ev.collision.0,
            es[ev.a as int].id,
            ev.collision.1.1,
        ),
        forall|k: int|
            0 <= k < es.len() && k != ev.a && k != ev.b ==> #[trigger] apply_event(es, ev)[k]
                == es[k],
        same_casts(es, apply_event(es, ev)),
{
    let r = apply_event(es, ev);
    assert forall|k: int| 0 <= k < es.len() implies same_cast(#[trigger] es[k], r[k]) by {
        if k == ev.a || k == ev.b {
        } else {
            assert(r[k] == es[k]);
        }
    }
}

/// Writing collisions back leaves the cast as it is.
pub proof fn lemma_events_keep_cast(es: Seq<EntityView>, events: Seq<CollisionEvent>)
    requires
        events_in_range(events, es.len() as int),
    ensures
        same_casts(es, apply_events(es, events)),
    decreases events.len(),
{
    if events.len() > 0 {
        let front = events.drop_last();
        assert forall|m: int| 0 <= m < front.len() implies (#[trigger] front[m]).a < front[m].b
            < es.len() by {
            assert(front[m] == events[m]);
        }
        lemma_events_keep_cast(es, front);
        let mid = apply_events(es, front);
        lemma_apply_event_at(mid, events.last());
        let r = apply_events(es, events);
        assert forall|k: int| 0 <= k < es.len() implies same_cast(#[trigger] es[k], r[k]) by {
            assert(same_cast(es[k], mid[k]));
            assert(same_cast(mid[k], r[k]));
        }
    }
}

/// Clearing the logs keeps the snapshot well formed and its cast.
pub proof fn lemma_cleared(es: Seq<EntityView>)
    requires
        all_wf(es),
    ensures
        all_wf(cleared_all(es)),
        same_casts(es, cleared_all(es)),
{
    assert forall|k: int| 0 <= k < es.len() implies (#[trigger] cleared_all(es)[k]).wf() && same_cast(
        es[k],
        cleared_all(es)[k],
    ) by {
        assert(es[k].wf());
    }
}

/// Moving the bodies keeps the snapshot well formed and its cast.
pub proof fn lemma_moved(es: Seq<EntityView>, dt: int, steps: int)
    requires
        all_wf(es),
    ensures
        all_wf(integrated_all(es, dt, steps)),
        same_casts(es, integrated_all(es, dt, steps)),
{
    let moved = integrated_all(es, dt, steps);
    assert forall|k: int| 0 <= k < es.len() implies (#[trigger] moved[k]).wf() && same_cast(
        es[k],
        moved[k],
    ) by {
        assert(es[k].wf());
    }
}

/// Writing collisions back keeps the snapshot well formed.
pub proof fn lemma_events_wf(es: Seq<EntityView>, events: Seq<CollisionEvent>)
    requires
        all_wf(es),
        events_in_range(events, es.len() as int),
    ensures
        all_wf(apply_events(es, events)),
        apply_events(es, events).len() == es.len(),
    decreases events.len(),
{
    if events.len() > 0 {
        let front = events.drop_last();
        assert forall|m: int| 0 <= m < front.len() implies (#[trigger] front[m]).a < front[m].b
            < es.len() by {
            assert(front[m] == events[m]);
        }
        lemma_events_wf(es, front);
        let mid = apply_events(es, front);
        let last = events.last();
        lemma_apply_event_at(mid, last);
        let r = apply_event(mid, last);
        assert forall|k: int| 0 <= k < r.len() implies (#[trigger] r[k]).wf() by {
            assert(mid[k].wf());
            if k != last.a && k != last.b {
                assert(r[k] == mid[k]);
            }
        }
    }
}

impl PhysicsManager {
    /// The manager is well formed and so is the snapshot, which is one that
    /// a machine can hold.
    pub open spec fn fits(self, es: Seq<EntityView>) -> bool {
        self.wf() && all_wf(es) && es.len() <= usize::MAX
    }

    /// Through the substeps of a tick the snapshot stays well formed and
    /// keeps its cast, and every detection pass lists exactly the
    /// collisions of the snapshot as the moves of the bodies left it.
    pub proof fn lemma_stepped(self, es: Seq<EntityView>, dt: int, s: nat)
        requires
            self.fits(es),
        ensures
            self.fits(self.stepped(es, dt, s)),
            same_casts(es, self.stepped(es, dt, s)),
            self.fits(self.moved(self.stepped(es, dt, s), dt)),
            same_casts(es, self.moved(self.stepped(es, dt, s), dt)),
            lists_hits(self.moved(self.stepped(es, dt, s), dt), self.bounds, self.pass(es, dt, s)),
            events_in_range(self.pass(es, dt, s), es.len() as int),
        decreases s,
    {
        let now = self.stepped(es, dt, s);
        if s > 0 {
            let k = (s - 1) as nat;
            self.lemma_stepped(es, dt, k);
            let moved = self.moved(self.stepped(es, dt, k), dt);
            let events = self.pass(es, dt, k);
            lemma_events_keep_cast(moved, events);
            lemma_events_wf(moved, events);
            assert forall|w: int| 0 <= w < es.len() implies same_cast(#[trigger] es[w], now[w]) by {
                assert(same_cast(es[w], moved[w]));
                assert(same_cast(moved[w], now[w]));
            }
        }
        let next = self.moved(now, dt);
        lemma_moved(now, dt, self.step_amount as int);
        assert forall|w: int| 0 <= w < es.len() implies same_cast(#[trigger] es[w], next[w]) by {
            assert(same_cast(es[w], now[w]));
            assert(same_cast(now[w], next[w]));
        }
        lemma_detected(next, self.bounds, self.cap);
    }
}

/// No two entities of the snapshot have the same id.
pub open spec fn distinct_ids(es: Seq<EntityView>) -> bool {
    forall|i: int, j: int| 0 <= i < j < es.len() ==> (#[trigger] es[i]).id != (#[trigger] es[j]).id
}

/// Every id in `log` is that of an entity whose shape shares a layer with
/// the shape at place `i`.
pub open spec fn log_shares_layer(es: Seq<EntityView>, i: int, log: Seq<Id>) -> bool {
    forall|x: int|
        0 <= x < log.len() ==> exists|w: int|
            0 <= w < es.len() && (#[trigger] es[w]).id == #[trigger] log[x] && es[w].collider is Some
                && shares_tag((es[i].collider->0).layers, (es[w].collider->0).layers)
}

/// To share a tag is mutual.
pub proof fn lemma_shares_tag_symmetric(xs: Seq<Id>, ys: Seq<Id>)
    requires
        shares_tag(xs, ys),
    ensures
        shares_tag(ys, xs),
{
    let i = choose|i: int| 0 <= i < xs.len() && ys.contains(#[trigger] xs[i]);
    let j = choose|j: int| 0 <= j < ys.len() && ys[j] == xs[i];
    assert(xs.contains(ys[j]));
}

/// A collision is between shapes that share a layer.
pub proof fn lemma_hit_shares_layer(es: Seq<EntityView>, bounds: Box2d, i: int, j: int)
    requires
        hit(es, bounds, i, j),
    ensures
        es[i].collider is Some,
        es[j].collider is Some,
        eligible(es[i].collider->0, es[j].collider->0),
        shares_tag((es[i].collider->0).layers, (es[j].collider->0).layers),
        shares_tag((es[j].collider->0).layers, (es[i].collider->0).layers),
{
    reveal(spec_detect);
    lemma_shares_tag_symmetric((es[i].collider->0).layers, (es[j].collider->0).layers);
}

/// Writing one collision of a pass back keeps the log of the shape at
/// place `i` to ids of entities that share a layer with it.
proof fn lemma_event_log(
    es: Seq<EntityView>,
    base: Seq<EntityView>,
    st: Seq<EntityView>,
    bounds: Box2d,
    ev: CollisionEvent,
    i: int,
)
    requires
        same_casts(es, base),
        same_casts(es, st),
        hit(base, bounds, ev.a as int, ev.b as int),
        0 <= i < es.len(),
        es[i].collider is Some,
        log_shares_layer(es, i, (st[i].collider->0).collisions),
    ensures
        log_shares_layer(es, i, (apply_event(st, ev)[i].collider->0).collisions),
        same_casts(es, apply_event(st, ev)),
{
    let a = ev.a as int;
    let b = ev.b as int;
    lemma_apply_event_at(st, ev);
    lemma_hit_shares_layer(base, bounds, a, b);
    let r = apply_event(st, ev);
    assert forall|k: int| 0 <= k < es.len() implies same_cast(#[trigger] es[k], r[k]) by {
        assert(same_cast(es[k], st[k]));
        assert(same_cast(st[k], r[k]));
    }
    assert(same_cast(es[a], base[a]));
    assert(same_cast(es[b], base[b]));
    assert(same_cast(es[a], st[a]));
    assert(same_cast(es[b], st[b]));
    assert(same_cast(es[i], st[i]));
    let old_log = (st[i].collider->0).collisions;
    let new_log = (r[i].collider->0).collisions;
    if i == a || i == b {
        let other = if i == a {
            b
        } else {
            a
        };
        assert(new_log == old_log || new_log == old_log.push(st[other].id));
        assert forall|x: int| 0 <= x < new_log.len() implies exists|w: int|
            0 <= w < es.len() && (#[trigger] es[w]).id == #[trigger] new_log[x]
                && es[w].collider is Some && shares_tag(
                (es[i].collider->0).layers,
                (es[w].collider->0).layers,
            ) by {
            if x < old_log.len() {
                assert(new_log[x] == old_log[x]);
                let w = choose|w: int|
                    0 <= w < es.len() && (#[trigger] es[w]).id == old_log[x]
                        && es[w].collider is Some && shares_tag(
                        (es[i].collider->0).layers,
                        (es[w].collider->0).layers,
                    );
                assert(es[w].id == new_log[x]);
            } else {
                assert(es[other].id == new_log[x]);
            }
        }
    } else {
        assert(r[i] == st[i]);
    }
}

/// Writing the collisions of a pass back keeps the log of the shape at
/// place `i` to ids of entities that share a layer with it.
proof fn lemma_events_log(
    es: Seq<EntityView>,
    base: Seq<EntityView>,
    st: Seq<EntityView>,
    bounds: Box2d,
    events: Seq<CollisionEvent>,
    i: int,
)
    requires
        same_casts(es, base),
        same_casts(es, st),
        sound(base, bounds, events),
        0 <= i < es.len(),
        es[i].collider is Some,
        log_shares_layer(es, i, (st[i].collider->0).collisions),
    ensures
        log_shares_layer(es, i, (apply_events(st, events)[i].collider->0).collisions),
        same_casts(es, apply_events(st, events)),
    decreases events.len(),
{
    if events.len() > 0 {
        let front = events.drop_last();
        assert forall|m: int| 0 <= m < front.len() implies hit(
            base,
            bounds,
            (#[trigger] front[m]).a as int,
            front[m].b as int,
        ) && Some(front[m].collision) == spec_detect(
            base[front[m].a as int],
            base[front[m].b as int],
        ) by {
            assert(front[m] == events[m]);
        }
        lemma_events_log(es, base, st, bounds, front, i);
        let last = events.last();
        assert(hit(base, bounds, last.a as int, last.b as int));
        lemma_event_log(es, base, apply_events(st, front), bounds, last, i);
    }
}

impl PhysicsManager {
    /// Through the substeps of a tick the log of a shape that began empty
    /// holds only ids of entities that share a layer with it.
    proof fn lemma_substeps_log(self, es: Seq<EntityView>, dt: int, s: nat, i: int)
        requires
            self.fits(es),
            0 <= i < es.len(),
            es[i].collider is Some,
            (es[i].collider->0).collisions.len() == 0,
        ensures
            log_shares_layer(es, i, (self.stepped(es, dt, s)[i].collider->0).collisions),
        decreases s,
    {
        if s > 0 {
            let k = (s - 1) as nat;
            self.lemma_substeps_log(es, dt, k, i);
            self.lemma_stepped(es, dt, k);
            let before = self.stepped(es, dt, k);
            let moved = self.moved(before, dt);
            assert((moved[i].collider->0).collisions == (before[i].collider->0).collisions);
            lemma_events_log(es, moved, moved, self.bounds, self.pass(es, dt, k), i);
        }
    }

    /// Two shapes without a common layer never appear in each other's log:
    /// after a tick the log of the active shape at place `i` does not hold
    /// the id of the entity at place `j`.
    pub proof fn lemma_disjoint_layers_never_logged(
        self,
        es: Seq<EntityView>,
        delta: u32,
        i: int,
        j: int,
    )
        requires
            self.fits(es),
            distinct_ids(es),
            0 <= i < es.len(),
            0 <= j < es.len(),
            i != j,
            has_active_shape(es[i]),
            es[j].collider is Some,
            !shares_tag((es[i].collider->0).layers, (es[j].collider->0).layers),
        ensures
            self.ticked(es, delta)[i].collider is Some,
            !(self.ticked(es, delta)[i].collider->0).collisions.contains(es[j].id),
    {
        let dt = self.spec_dt(delta) as int;
        let start = cleared_all(es);
        let n = self.step_amount as nat;
        lemma_cleared(es);
        self.lemma_substeps_log(start, dt, n, i);
        self.lemma_stepped(start, dt, n);
        let done = self.stepped(start, dt, n);
        let end = self.ticked(es, delta);
        assert(same_cast(es[i], start[i]));
        assert(same_cast(es[j], start[j]));
        assert(same_cast(start[i], done[i]));
        assert(end[i].collider == done[i].collider);
        let log = (end[i].collider->0).collisions;
        if log.contains(es[j].id) {
            let x = choose|x: int| 0 <= x < log.len() && log[x] == es[j].id;
            let w = choose|w: int|
                0 <= w < start.len() && (#[trigger] start[w]).id == log[x]
                    && start[w].collider is Some && shares_tag(
                    (start[i].collider->0).layers,
                    (start[w].collider->0).layers,
                );
            assert(same_cast(es[w], start[w]));
            assert(es[w].id == es[j].id);
            assert(w == j);
        }
    }
}

/// Writing collisions back takes nothing out of a log.
pub proof fn lemma_events_keep_logged(
    st: Seq<EntityView>,
    events: Seq<CollisionEvent>,
    i: int,
    x: Id,
)
    requires
        events_in_range(events, st.len() as int),
        0 <= i < st.len(),
        st[i].collider is Some,
        (st[i].collider->0).collisions.contains(x),
    ensures
        apply_events(st, events)[i].collider is Some,
        (apply_events(st, events)[i].collider->0).collisions.contains(x),
    decreases events.len(),
{
    if events.len() > 0 {
        let front = events.drop_last();
        assert forall|m: int| 0 <= m < front.len() implies (#[trigger] front[m]).a < front[m].b
            < st.len() by {
            assert(front[m] == events[m]);
        }
        lemma_events_keep_logged(st, front, i, x);
        lemma_events_keep_cast(st, front);
        let mid = apply_events(st, front);
        lemma_apply_event_at(mid, events.last());
        let log = (mid[i].collider->0).collisions;
        let w = choose|w: int| 0 <= w < log.len() && log[w] == x;
        let r = apply_event(mid, events.last());
        assert((r[i].collider->0).collisions[w] == x);
    }
}

/// After the collisions of a pass were written back, each of them is noted
/// on both its sides.
pub proof fn lemma_events_logged(st: Seq<EntityView>, events: Seq<CollisionEvent>, m: int)
    requires
        events_in_range(events, st.len() as int),
        0 <= m < events.len(),
        st[events[m].a as int].collider is Some,
        st[events[m].b as int].collider is Some,
    ensures
        apply_events(st, events)[events[m].a as int].collider is Some,
        apply_events(st, events)[events[m].b as int].collider is Some,
        (apply_events(st, events)[events[m].a as int].collider->0).collisions.contains(
            st[events[m].b as int].id,
        ),
        (apply_events(st, events)[events[m].b as int].collider->0).collisions.contains(
            st[events[m].a as int].id,
        ),
    decreases events.len(),
{
    let front = events.drop_last();
    let last = events.last();
    let ev = events[m];
    assert forall|k: int| 0 <= k < front.len() implies (#[trigger] front[k]).a < front[k].b
        < st.len() by {
        assert(front[k] == events[k]);
    }
    lemma_events_keep_cast(st, front);
    let mid = apply_events(st, front);
    lemma_apply_event_at(mid, last);
    let r = apply_event(mid, last);
    assert(same_cast(st[ev.a as int], mid[ev.a as int]));
    assert(same_cast(st[ev.b as int], mid[ev.b as int]));
    if m == events.len() - 1 {
        let la = (mid[ev.a as int].collider->0).collisions;
        let lb = (mid[ev.b as int].collider->0).collisions;
        let ra = (r[ev.a as int].collider->0).collisions;
        let rb = (r[ev.b as int].collider->0).collisions;
        if !la.contains(mid[ev.b as int].id) {
            assert(ra[la.len() as int] == mid[ev.b as int].id);
        }
        if !lb.contains(mid[ev.a as int].id) {
            assert(rb[lb.len() as int] == mid[ev.a as int].id);
        }
    } else {
        assert(front[m] == ev);
        lemma_events_logged(st, front, m);
        let la = (mid[ev.a as int].collider->0).collisions;
        let lb = (mid[ev.b as int].collider->0).collisions;
        let wa = choose|w: int| 0 <= w < la.len() && la[w] == st[ev.b as int].id;
        let wb = choose|w: int| 0 <= w < lb.len() && lb[w] == st[ev.a as int].id;
        assert((r[ev.a as int].collider->0).collisions[wa] == st[ev.b as int].id);
        assert((r[ev.b as int].collider->0).collisions[wb] == st[ev.a as int].id);
    }
}

impl PhysicsManager {
    /// What a log holds after some substeps it holds after all later ones.
    proof fn lemma_substeps_keep_logged(
        self,
        es: Seq<EntityView>,
        dt: int,
        s: nat,
        t: nat,
        i: int,
        x: Id,
    )
        requires
            self.fits(es),
            s <= t,
            0 <= i < es.len(),
            self.stepped(es, dt, s)[i].collider is Some,
            (self.stepped(es, dt, s)[i].collider->0).collisions.contains(x),
        ensures
            self.stepped(es, dt, t)[i].collider is Some,
            (self.stepped(es, dt, t)[i].collider->0).collisions.contains(x),
        decreases t,
    {
        if s < t {
            let k = (t - 1) as nat;
            self.lemma_substeps_keep_logged(es, dt, s, k, i, x);
            self.lemma_stepped(es, dt, k);
            let before = self.stepped(es, dt, k);
            let moved = self.moved(before, dt);
            assert(moved[i].collider == before[i].collider);
            lemma_events_keep_logged(moved, self.pass(es, dt, k), i, x);
        }
    }

    /// A collision is noted on both its sides. Where in some substep of a
    /// tick, after the bodies moved, the entities at places `i` and `j`
    /// collide, each of the two shapes holds the other's id when the tick
    /// ends.
    pub proof fn lemma_collision_logged_on_both(
        self,
        es: Seq<EntityView>,
        delta: u32,
        s: nat,
        i: int,
        j: int,
    )
        requires
            self.fits(es),
            s < self.step_amount,
            hit(
                self.moved(self.stepped(cleared_all(es), self.spec_dt(delta) as int, s), self.spec_dt(delta) as int),
                self.bounds,
                i,
                j,
            ),
        ensures
            0 <= i < j < es.len(),
            self.ticked(es, delta)[i].collider is Some,
            self.ticked(es, delta)[j].collider is Some,
            (self.ticked(es, delta)[i].collider->0).collisions.contains(es[j].id),
            (self.ticked(es, delta)[j].collider->0).collisions.contains(es[i].id),
    {
        let dt = self.spec_dt(delta) as int;
        let start = cleared_all(es);
        let n = self.step_amount as nat;
        lemma_cleared(es);
        self.lemma_stepped(start, dt, s);
        let moved = self.moved(self.stepped(start, dt, s), dt);
        let events = self.pass(start, dt, s);
        assert(has_event(events, i, j));
        let m = choose|m: int| 0 <= m < events.len() && (#[trigger] events[m]).a == i && events[m].b == j;
        lemma_events_logged(moved, events, m);
        let after = self.stepped(start, dt, s + 1);
        assert(after == apply_events(moved, events));
        assert(same_cast(es[i], start[i]));
        assert(same_cast(es[j], start[j]));
        assert(same_cast(start[i], moved[i]));
        assert(same_cast(start[j], moved[j]));
        self.lemma_substeps_keep_logged(start, dt, s + 1, n, i, es[j].id);
        self.lemma_substeps_keep_logged(start, dt, s + 1, n, j, es[i].id);
        self.lemma_stepped(start, dt, n);
        let done = self.stepped(start, dt, n);
        let end = self.ticked(es, delta);
        assert(end[i].collider == done[i].collider);
        assert(end[j].collider == done[j].collider);
    }
}

/// The collision does not move the entity at place `i`: it does not involve
/// it, or a ghost took part, or the entity was given no translation.
pub open spec fn harmless(ev: CollisionEvent, i: int) -> bool {
    &&& ev.a == i ==> ev.collision.0 || ev.collision.1.0 is None
    &&& ev.b == i ==> ev.collision.0 || ev.collision.1.1 is None
}

/// None of the collisions moves the entity at place `i`.
pub open spec fn all_harmless(events: Seq<CollisionEvent>, i: int) -> bool {
    forall|m: int| 0 <= m < events.len() ==> harmless(#[trigger] events[m], i)
}

/// The transform of an entity that its force alone moves, after `s`
/// substeps of `dt / steps`.
pub open spec fn drifted(e: EntityView, dt: int, steps: int, s: nat) -> Transform
    decreases s,
{
    if s == 0 {
        e.transform
    } else {
        (EntityView { transform: drifted(e, dt, steps, (s - 1) as nat), ..e }).integrated(
            dt,
            steps,
        ).transform
    }
}

/// Collisions that do not move an entity leave its transform and its body
/// as they are.
pub proof fn lemma_events_keep_transform(st: Seq<EntityView>, events: Seq<CollisionEvent>, i: int)
    requires
        events_in_range(events, st.len() as int),
        all_harmless(events, i),
        0 <= i < st.len(),
    ensures
        apply_events(st, events)[i].transform == st[i].transform,
        apply_events(st, events)[i].body == st[i].body,
    decreases events.len(),
{
    if events.len() > 0 {
        let front = events.drop_last();
        assert forall|m: int| 0 <= m < front.len() implies (#[trigger] front[m]).a < front[m].b
            < st.len() && harmless(front[m], i) by {
            assert(front[m] == events[m]);
        }
        lemma_events_keep_transform(st, front, i);
        lemma_events_keep_cast(st, front);
        let mid = apply_events(st, front);
        assert(harmless(events.last(), i));
        lemma_apply_event_at(mid, events.last());
    }
}

/// The events of a pass in which a ghost took part move nobody: where the
/// shape at place `i` is a ghost, or every shape it collides with is one,
/// the pass is harmless for `i`.
pub proof fn lemma_ghost_is_harmless(
    es: Seq<EntityView>,
    bounds: Box2d,
    events: Seq<CollisionEvent>,
    i: int,
)
    requires
        sound(es, bounds, events),
        0 <= i < es.len(),
        forall|j: int|
            0 <= j < es.len() && (hit(es, bounds, i, j) || hit(es, bounds, j, i)) ==> (
            es[i].collider->0).is_ghost || (#[trigger] es[j]).collider->0.is_ghost,
    ensures
        all_harmless(events, i),
{
    reveal(spec_detect);
    assert forall|m: int| 0 <= m < events.len() implies harmless(#[trigger] events[m], i) by {
        let ev = events[m];
        assert(hit(es, bounds, ev.a as int, ev.b as int));
        if ev.a == i {
            assert((es[i].collider->0).is_ghost || (es[ev.b as int].collider->0).is_ghost);
        }
        if ev.b == i {
            assert((es[i].collider->0).is_ghost || (es[ev.a as int].collider->0).is_ghost);
        }
    }
}

impl PhysicsManager {
    /// The collisions of no substep of a tick over `es` move the entity at
    /// place `i`.
    pub open spec fn unmoved(self, es: Seq<EntityView>, delta: u32, i: int) -> bool {
        forall|k: nat|
            k < self.step_amount ==> all_harmless(
                #[trigger] self.pass(cleared_all(es), self.spec_dt(delta) as int, k),
                i,
            )
    }

    /// An entity that no collision of the first `s` substeps moves is where
    /// its force alone takes it.
    pub proof fn lemma_substeps_drift(self, es: Seq<EntityView>, dt: int, s: nat, i: int)
        requires
            self.fits(es),
            0 <= i < es.len(),
            forall|k: nat| k < s ==> all_harmless(#[trigger] self.pass(es, dt, k), i),
        ensures
            self.stepped(es, dt, s)[i].transform == drifted(es[i], dt, self.step_amount as int, s),
            self.stepped(es, dt, s)[i].body == es[i].body,
        decreases s,
    {
        if s > 0 {
            let k = (s - 1) as nat;
            self.lemma_substeps_drift(es, dt, k, i);
            self.lemma_stepped(es, dt, k);
            let moved = self.moved(self.stepped(es, dt, k), dt);
            assert(all_harmless(self.pass(es, dt, k), i));
            lemma_events_keep_transform(moved, self.pass(es, dt, k), i);
        }
    }

    /// An entity that no collision of the tick moves ends the tick where its
    /// force alone takes it. This holds of every entity where no shapes
    /// overlap, and of one that meets ghosts only.
    pub proof fn lemma_unmoved_by_collisions(self, es: Seq<EntityView>, delta: u32, i: int)
        requires
            self.fits(es),
            0 <= i < es.len(),
            self.unmoved(es, delta, i),
        ensures
            self.ticked(es, delta)[i].transform == drifted(
                es[i],
                self.spec_dt(delta) as int,
                self.step_amount as int,
                self.step_amount as nat,
            ),
    {
        let dt = self.spec_dt(delta) as int;
        let start = cleared_all(es);
        let n = self.step_amount as nat;
        lemma_cleared(es);
        self.lemma_substeps_drift(start, dt, n, i);
        self.lemma_stepped(start, dt, n);
        lemma_drift_of_same(start[i], es[i], dt, self.step_amount as int, n);
    }
}

/// The drift depends on the transform and the body only.
proof fn lemma_drift_of_same(x: EntityView, y: EntityView, dt: int, steps: int, s: nat)
    requires
        x.transform == y.transform,
        x.body == y.body,
    ensures
        drifted(x, dt, steps, s) == drifted(y, dt, steps, s),
    decreases s,
{
    if s > 0 {
        lemma_drift_of_same(x, y, dt, steps, (s - 1) as nat);
    }
}


/// `s` substeps of `a / n`, rounded toward zero, lead toward `a` and not
/// beyond it; all `n` of them end less than `n` short of it.
proof fn lemma_steps_toward(a: int, n: int, s: int)
    requires
        n >= 1,
        0 <= s <= n,
    ensures
        a >= 0 ==> 0 <= s * div_toward_zero(a, n) <= a,
        a < 0 ==> a <= s * div_toward_zero(a, n) <= 0,
        -n < a - n * div_toward_zero(a, n) < n,
        a % n == 0 ==> n * div_toward_zero(a, n) == a,
{
    let st = div_toward_zero(a, n);
    if a >= 0 {
        let q = a / n;
        let r = a % n;
        lemma_fundamental_div_mod(a, n);
        assert(0 <= r < n);
        assert(q >= 0 && 0 <= s * q <= n * q) by (nonlinear_arith)
            requires
                a == n * q + r,
                0 <= r < n,
                a >= 0,
                n >= 1,
                0 <= s <= n,
        ;
    } else {
        let q = (-a) / n;
        let r = (-a) % n;
        lemma_fundamental_div_mod(-a, n);
        assert(0 <= r < n);
        assert(st == -q);
        assert(q >= 0 && 0 <= s * q <= n * q && s * (-q) == -(s * q) && n * (-q) == -(n * q))
            by (nonlinear_arith)
            requires
                -a == n * q + r,
                0 <= r < n,
                -a > 0,
                n >= 1,
                0 <= s <= n,
        ;
        if a % n == 0 {
            let p = a / n;
            lemma_fundamental_div_mod(a, n);
            assert(a == n * p);
            assert(r == 0) by (nonlinear_arith)
                requires
                    a == n * p,
                    -a == n * q + r,
                    0 <= r < n,
                    n >= 1,
            {
                assert(n * (-p - q) == r);
                if -p - q >= 1 {
                    assert(n * (-p - q) >= n);
                }
                if -p - q <= -1 {
                    assert(n * (-p - q) <= -n);
                }
            }
        }
    }
}

/// The way a body is to go in a tick of `dt` stays within the range of
/// positions.
pub open spec fn way_is_free(e: EntityView, dt: int) -> bool {
    &&& e.body is Some
    &&& e.transform.position.within(POSITION_LIMIT as int)
    &&& -POSITION_LIMIT <= e.transform.position.x + (e.body->0).force.x * dt <= POSITION_LIMIT
    &&& -POSITION_LIMIT <= e.transform.position.y + (e.body->0).force.y * dt <= POSITION_LIMIT
}

/// Where the way is free, `s` substeps take an active body `s` times the
/// length of a substep.
proof fn lemma_drift_closed_form(e: EntityView, dt: int, n: int, s: nat)
    requires
        n >= 1,
        s <= n,
        way_is_free(e, dt),
        (e.body->0).active,
    ensures
        drifted(e, dt, n, s) == (Transform {
            position: crate::vector::Vec2d {
                x: (e.transform.position.x + s * div_toward_zero((e.body->0).force.x * dt, n)) as i64,
                y: (e.transform.position.y + s * div_toward_zero((e.body->0).force.y * dt, n)) as i64,
            },
            ..e.transform
        }),
        -POSITION_LIMIT <= e.transform.position.x + s * div_toward_zero((e.body->0).force.x * dt, n)
            <= POSITION_LIMIT,
        -POSITION_LIMIT <= e.transform.position.y + s * div_toward_zero((e.body->0).force.y * dt, n)
            <= POSITION_LIMIT,
    decreases s,
{
    let fx = (e.body->0).force.x * dt;
    let fy = (e.body->0).force.y * dt;
    let sx = div_toward_zero(fx, n);
    let sy = div_toward_zero(fy, n);
    lemma_steps_toward(fx, n, s as int);
    lemma_steps_toward(fy, n, s as int);
    if s > 0 {
        let k = (s - 1) as nat;
        lemma_drift_closed_form(e, dt, n, k);
        lemma_steps_toward(fx, n, k as int);
        lemma_steps_toward(fy, n, k as int);
        assert(k * sx + sx == s * sx && k * sy + sy == s * sy) by (nonlinear_arith)
            requires
                s == k + 1,
        ;
    } else {
        assert(0 * sx == 0 && 0 * sy == 0);
    }
}

/// Substeps are consistent in time. A body that nothing but its force
/// moves, and whose way is free, is taken by one substep exactly the way
/// `force * dt`; `n` substeps take it less than `n` grid units short of
/// that, in each coordinate, and just as far where `n` divides the way.
pub proof fn lemma_drift_time_consistent(e: EntityView, dt: int, n: int)
    requires
        n >= 1,
        way_is_free(e, dt),
        (e.body->0).active,
    ensures
        drifted(e, dt, 1, 1).position.x == e.transform.position.x + (e.body->0).force.x * dt,
        drifted(e, dt, 1, 1).position.y == e.transform.position.y + (e.body->0).force.y * dt,
        -n < drifted(e, dt, 1, 1).position.x - drifted(e, dt, n, n as nat).position.x < n,
        -n < drifted(e, dt, 1, 1).position.y - drifted(e, dt, n, n as nat).position.y < n,
        ((e.body->0).force.x * dt) % n == 0 ==> drifted(e, dt, n, n as nat).position.x == drifted(
            e,
            dt,
            1,
            1,
        ).position.x,
        ((e.body->0).force.y * dt) % n == 0 ==> drifted(e, dt, n, n as nat).position.y == drifted(
            e,
            dt,
            1,
            1,
        ).position.y,
{
    let fx = (e.body->0).force.x * dt;
    let fy = (e.body->0).force.y * dt;
    lemma_drift_closed_form(e, dt, 1, 1);
    lemma_drift_closed_form(e, dt, n, n as nat);
    lemma_steps_toward(fx, n, n);
    lemma_steps_toward(fy, n, n);
    lemma_steps_toward(fx, 1, 1);
    lemma_steps_toward(fy, 1, 1);
    assert(fx % 1 == 0 && fy % 1 == 0);
}


/// Every shape that the entity at place `j` can meet is a ghost, or its own
/// shape is one.
pub open spec fn among_ghosts(es: Seq<EntityView>, j: int) -> bool {
    forall|w: int|
        0 <= w < es.len() && w != j && (#[trigger] es[w]).collider is Some ==> (es[j].collider is Some
            && (es[j].collider->0).is_ghost) || (es[w].collider->0).is_ghost
}

impl PhysicsManager {
    /// A ghost moves nobody and nobody moves a ghost: an entity whose shape
    /// is a ghost, or that has none but ghosts round it, ends the tick where
    /// its force alone takes it.
    pub proof fn lemma_ghosts_move_nobody(self, es: Seq<EntityView>, delta: u32, j: int)
        requires
            self.fits(es),
            0 <= j < es.len(),
            among_ghosts(es, j),
        ensures
            self.unmoved(es, delta, j),
            self.ticked(es, delta)[j].transform == drifted(
                es[j],
                self.spec_dt(delta) as int,
                self.step_amount as int,
                self.step_amount as nat,
            ),
    {
        let dt = self.spec_dt(delta) as int;
        let start = cleared_all(es);
        lemma_cleared(es);
        assert forall|k: nat| k < self.step_amount implies all_harmless(
            #[trigger] self.pass(start, dt, k),
            j,
        ) by {
            self.lemma_stepped(start, dt, k);
            let moved = self.moved(self.stepped(start, dt, k), dt);
            assert(same_cast(es[j], start[j]));
            assert(same_cast(start[j], moved[j]));
            assert forall|w: int|
                0 <= w < moved.len() && (hit(moved, self.bounds, j, w) || hit(
                    moved,
                    self.bounds,
                    w,
                    j,
                )) implies (moved[j].collider->0).is_ghost || (#[trigger] moved[w]).collider->0.is_ghost by {
                assert(same_cast(es[w], start[w]));
                assert(same_cast(start[w], moved[w]));
                assert(es[w].collider is Some);
            }
            lemma_ghost_is_harmless(moved, self.bounds, self.pass(start, dt, k), j);
        }
        self.lemma_unmoved_by_collisions(es, delta, j);
    }

    /// Nothing collides with an entity that has no shape, or whose shape is
    /// not active.
    pub proof fn lemma_shapeless_unmoved(self, es: Seq<EntityView>, delta: u32, i: int)
        requires
            self.fits(es),
            0 <= i < es.len(),
            !has_active_shape(es[i]),
        ensures
            self.unmoved(es, delta, i),
    {
        let dt = self.spec_dt(delta) as int;
        let start = cleared_all(es);
        lemma_cleared(es);
        assert forall|k: nat| k < self.step_amount implies all_harmless(
            #[trigger] self.pass(start, dt, k),
            i,
        ) by {
            self.lemma_stepped(start, dt, k);
            let moved = self.moved(self.stepped(start, dt, k), dt);
            let events = self.pass(start, dt, k);
            assert(same_cast(es[i], start[i]));
            assert(same_cast(start[i], moved[i]));
            assert forall|m: int| 0 <= m < events.len() implies harmless(#[trigger] events[m], i) by {
                assert(hit(moved, self.bounds, events[m].a as int, events[m].b as int));
            }
        }
    }

    /// Substeps are consistent in time. Take two ticks of the same length
    /// over the same snapshot, one in `step_amount` substeps and one in a
    /// single step, and an active body that no collision moves in either
    /// and whose way is free. The single step takes it exactly the way
    /// `force * dt`; the substeps end less than `step_amount` grid units
    /// short of that in each coordinate, and at the same place where
    /// `step_amount` divides the way.
    pub proof fn lemma_tick_time_consistent(self, es: Seq<EntityView>, delta: u32, i: int)
        requires
            self.fits(es),
            0 <= i < es.len(),
            self.unmoved(es, delta, i),
            (PhysicsManager { step_amount: 1, ..self }).unmoved(es, delta, i),
            way_is_free(es[i], self.spec_dt(delta) as int),
            (es[i].body->0).active,
        ensures
            ({
                let one = (PhysicsManager { step_amount: 1, ..self }).ticked(es, delta)[i].transform.position;
                let many = self.ticked(es, delta)[i].transform.position;
                let way_x = (es[i].body->0).force.x * self.spec_dt(delta);
                let way_y = (es[i].body->0).force.y * self.spec_dt(delta);
                &&& one.x == es[i].transform.position.x + way_x
                &&& one.y == es[i].transform.position.y + way_y
                &&& -self.step_amount < one.x - many.x < self.step_amount
                &&& -self.step_amount < one.y - many.y < self.step_amount
                &&& way_x % (self.step_amount as int) == 0 ==> many.x == one.x
                &&& way_y % (self.step_amount as int) == 0 ==> many.y == one.y
            }),
    {
        let dt = self.spec_dt(delta) as int;
        let other = PhysicsManager { step_amount: 1, ..self };
        assert(other.spec_dt(delta) == self.spec_dt(delta));
        self.lemma_unmoved_by_collisions(es, delta, i);
        other.lemma_unmoved_by_collisions(es, delta, i);
        lemma_drift_time_consistent(es[i], dt, self.step_amount as int);
    }
}

/// An entity without an active body, or with no force on it, does not
/// drift.
pub proof fn lemma_drift_still(e: EntityView, dt: int, steps: int, s: nat)
    requires
        e.transform.position.within(POSITION_LIMIT as int),
        steps >= 1,
        e.body matches Some(b) ==> !b.active || (b.force.x == 0 && b.force.y == 0),
    ensures
        drifted(e, dt, steps, s) == e.transform,
    decreases s,
{
    if s > 0 {
        lemma_drift_still(e, dt, steps, (s - 1) as nat);
        if e.body is Some {
            let b = e.body->0;
            if b.active {
                assert(b.force.x * dt == 0 && b.force.y * dt == 0) by (nonlinear_arith)
                    requires
                        b.force.x == 0,
                        b.force.y == 0,
                ;
                assert(div_toward_zero(0, steps) == 0) by (nonlinear_arith)
                    requires
                        steps >= 1,
                ;
            }
        }
    }
}

} // verus!
