//! The detection pass: which pairs of shapes are tested, and the list of
//! those that overlap.

use vstd::prelude::*;

use crate::box2d::Box2d;
use crate::collision_manager::events_in_range;
use crate::collision_manager::spec_detect;
use crate::collision_manager::CollisionEvent;
use crate::collision_manager::CollisionManager;
use crate::entity::all_wf;
use crate::entity::snapshot;
use crate::entity::Entity;
use crate::entity::EntityView;
use crate::quad_tree::in_range;
use crate::quad_tree::Entry;
use crate::quad_tree::QuadTree;
use crate::quad_tree::TreeView;
use crate::vector::WORLD_LIMIT;

verus! {

/// The entity has an active shape.
pub open spec fn has_active_shape(e: EntityView) -> bool {
    e.collider is Some && (e.collider->0).active
}

/// The entity takes part in the pass: it has an active shape and stands
/// within the bounds of the index.
pub open spec fn listed(e: EntityView, bounds: Box2d) -> bool {
    has_active_shape(e) && bounds.spec_contains(e.transform.position)
}

/// Each of the two positions lies in the square round the other whose half
/// side is the sum of the two radii.
pub open spec fn near(a: EntityView, b: EntityView) -> bool {
    let reach = (a.collider->0).boundary + (b.collider->0).boundary;
    &&& -reach <= a.transform.position.x - b.transform.position.x <= reach
    &&& -reach <= a.transform.position.y - b.transform.position.y <= reach
}

/// The entities at places `i` and `j`, `i` before `j`, collide: both take
/// part, they are near each other, and the pair test finds an overlap.
pub open spec fn hit(es: Seq<EntityView>, bounds: Box2d, i: int, j: int) -> bool {
    &&& 0 <= i < j < es.len()
    &&& listed(es[i], bounds)
    &&& listed(es[j], bounds)
    &&& near(es[i], es[j])
    &&& spec_detect(es[i], es[j]) is Some
}

/// The list has an event for the pair of places `(i, j)`.
pub open spec fn has_event(events: Seq<CollisionEvent>, i: int, j: int) -> bool {
    exists|m: int| 0 <= m < events.len() && (#[trigger] events[m]).a == i && events[m].b == j
}

/// Every event of the list is a collision, with what the pair test found.
pub open spec fn sound(es: Seq<EntityView>, bounds: Box2d, events: Seq<CollisionEvent>) -> bool {
    forall|m: int|
        0 <= m < events.len() ==> hit(es, bounds, (#[trigger] events[m]).a as int, events[m].b as int)
            && Some(events[m].collision) == spec_detect(
            es[events[m].a as int],
            es[events[m].b as int],
        )
}

/// No pair has two events.
pub open spec fn distinct(events: Seq<CollisionEvent>) -> bool {
    forall|m1: int, m2: int|
        0 <= m1 < m2 < events.len() ==> !((#[trigger] events[m1]).a == (#[trigger] events[m2]).a
            && events[m1].b == events[m2].b)
}

/// Every collision whose first place is before `rows` has an event.
pub open spec fn complete(
    es: Seq<EntityView>,
    bounds: Box2d,
    events: Seq<CollisionEvent>,
    rows: int,
) -> bool {
    forall|i: int, j: int| i < rows && #[trigger] hit(es, bounds, i, j) ==> has_event(events, i, j)
}

/// The events are exactly the collisions of the snapshot, each once.
pub open spec fn lists_hits(es: Seq<EntityView>, bounds: Box2d, events: Seq<CollisionEvent>) -> bool {
    &&& sound(es, bounds, events)
    &&& distinct(events)
    &&& complete(es, bounds, events, es.len() as int)
}

/// What the index stores for the entity at place `j`.
pub open spec fn entry_of(es: Seq<EntityView>, j: int) -> Entry<usize> {
    Entry { point: es[j].transform.position, id: es[j].id, payload: j as usize }
}

/// The entries are those of the entities with an active shape, each once.
pub open spec fn entries_of(es: Seq<EntityView>, entries: Seq<Entry<usize>>) -> bool {
    &&& forall|k: int|
        0 <= k < entries.len() ==> (#[trigger] entries[k]).payload < es.len() && has_active_shape(
            es[entries[k].payload as int],
        ) && entries[k] == entry_of(es, entries[k].payload as int)
    &&& forall|j: int|
        0 <= j < es.len() && has_active_shape(#[trigger] es[j]) ==> entries.contains(entry_of(es, j))
    &&& entries.no_duplicates()
}

/// No active shape has a radius above `reach`.
pub open spec fn covers(es: Seq<EntityView>, reach: int) -> bool {
    forall|j: int|
        0 <= j < es.len() && has_active_shape(#[trigger] es[j]) ==> (es[j].collider->0).boundary
            <= reach
}

/// The entries that the index is built from: one for each entity with an
/// active shape, in the order of the snapshot.
pub open spec fn index_of(es: Seq<EntityView>) -> Seq<Entry<usize>>
    decreases es.len(),
{
    if es.len() == 0 {
        Seq::empty()
    } else if has_active_shape(es.last()) {
        index_of(es.drop_last()).push(entry_of(es, es.len() - 1))
    } else {
        index_of(es.drop_last())
    }
}

/// The greatest radius of an active shape; zero where there is none.
pub open spec fn reach_of(es: Seq<EntityView>) -> int
    decreases es.len(),
{
    if es.len() == 0 {
        0
    } else if has_active_shape(es.last()) && (es.last().collider->0).boundary > reach_of(
        es.drop_last(),
    ) {
        (es.last().collider->0).boundary as int
    } else {
        reach_of(es.drop_last())
    }
}

/// The entries for the index, and the greatest radius among them.
fn index_entries(entities: &Vec<Entity>) -> (r: (Vec<Entry<usize>>, i64))
    requires
        all_wf(snapshot(entities@)),
    ensures
        r.0@ == index_of(snapshot(entities@)),
        r.1 == reach_of(snapshot(entities@)),
{
    let ghost es = snapshot(entities@);
    let mut entries: Vec<Entry<usize>> = Vec::new();
    let mut reach: i64 = 0;
    let mut i: usize = 0;
    while i < entities.len()
        invariant
            i <= entities.len(),
            es == snapshot(entities@),
            entries@ == index_of(es.take(i as int)),
            reach == reach_of(es.take(i as int)),
        decreases entities.len() - i,
    {
        proof {
            assert(es[i as int] == entities@[i as int]@);
            assert(es.take(i + 1).drop_last() =~= es.take(i as int));
            assert(es.take(i + 1).last() == es[i as int]);
            assert(entry_of(es.take(i + 1), i as int) == entry_of(es, i as int));
        }
        match &entities[i].collider {
            Some(c) => {
                if c.active {
                    entries.push(
                        Entry { point: entities[i].transform.position, id: entities[i].id, payload: i },
                    );
                    if c.boundary > reach {
                        reach = c.boundary;
                    }
                }
            },
            None => {},
        }
        i += 1;
    }
    proof {
        assert(es.take(es.len() as int) =~= es);
    }
    (entries, reach)
}

/// Whether two entities with shapes are near each other.
fn is_near(a: &Entity, b: &Entity) -> (r: bool)
    requires
        a@.wf(),
        b@.wf(),
        a.collider is Some,
        b.collider is Some,
    ensures
        r == near(a@, b@),
{
    let reach: i64 = match (&a.collider, &b.collider) {
        (Some(ac), Some(bc)) => ac.boundary + bc.boundary,
        _ => 0,
    };
    let dx: i64 = a.transform.position.x - b.transform.position.x;
    let dy: i64 = a.transform.position.y - b.transform.position.y;
    -reach <= dx && dx <= reach && -reach <= dy && dy <= reach
}

/// Whether the entity takes part in the pass.
fn is_listed(e: &Entity, bounds: &Box2d) -> (r: bool)
    ensures
        r == listed(e@, *bounds),
{
    match &e.collider {
        Some(c) => c.active && bounds.contains(e.transform.position),
        None => false,
    }
}

/// What the index answers for the entity at place `i`: entries of entities
/// that take part, none of them twice, and among them every one that is
/// near `i`.
pub open spec fn answers(
    es: Seq<EntityView>,
    bounds: Box2d,
    i: int,
    found: Seq<Entry<usize>>,
) -> bool {
    &&& forall|m: int|
        0 <= m < found.len() ==> (#[trigger] found[m]).payload < es.len() && listed(
            es[found[m].payload as int],
            bounds,
        )
    &&& forall|m1: int, m2: int|
        0 <= m1 < m2 < found.len() ==> (#[trigger] found[m1]).payload != (#[trigger] found[m2]).payload
    &&& forall|j: int|
        0 <= j < es.len() && listed(#[trigger] es[j], bounds) && near(es[i], es[j]) ==> exists|
            m: int,
        |
            0 <= m < found.len() && (#[trigger] found[m]).payload == j
}

/// The collisions of the entity at place `i` with those of `found` that
/// stand after it, in the order of `found`.
pub open spec fn row_events(
    es: Seq<EntityView>,
    bounds: Box2d,
    i: int,
    found: Seq<Entry<usize>>,
) -> Seq<CollisionEvent>
    decreases found.len(),
{
    if found.len() == 0 {
        Seq::empty()
    } else {
        let front = row_events(es, bounds, i, found.drop_last());
        let j = found.last().payload;
        if hit(es, bounds, i, j as int) {
            front.push(
                CollisionEvent {
                    a: i as usize,
                    b: j,
                    collision: spec_detect(es[i], es[j as int])->0,
                },
            )
        } else {
            front
        }
    }
}

/// Tests the entity at place `i` against those that the index found for it
/// and that stand after it, and adds the collisions to `events`.
fn scan(
    entities: &Vec<Entity>,
    bounds: &Box2d,
    i: usize,
    found: &Vec<Entry<usize>>,
    events: &mut Vec<CollisionEvent>,
)
    requires
        all_wf(snapshot(entities@)),
        i < entities@.len(),
        listed(snapshot(entities@)[i as int], *bounds),
        answers(snapshot(entities@), *bounds, i as int, found@),
    ensures
        final(events)@ == old(events)@ + row_events(snapshot(entities@), *bounds, i as int, found@),
{
    let ghost es = snapshot(entities@);
    let ghost start = events@;
    let mut m: usize = 0;
    proof {
        assert(start + row_events(es, *bounds, i as int, found@.take(0)) =~= start);
    }
    while m < found.len()
        invariant
            m <= found.len(),
            es == snapshot(entities@),
            all_wf(es),
            i < es.len(),
            listed(es[i as int], *bounds),
            answers(es, *bounds, i as int, found@),
            events@ == start + row_events(es, *bounds, i as int, found@.take(m as int)),
        decreases found.len() - m,
    {
        let j = found[m].payload;
        proof {
            assert(found@.take(m + 1).drop_last() =~= found@.take(m as int));
            assert(found@.take(m + 1).last() == found@[m as int]);
            assert(found@[m as int].payload < es.len());
            assert(es[i as int] == entities@[i as int]@);
            assert(es[j as int] == entities@[j as int]@);
            assert(es[i as int].wf());
            assert(es[j as int].wf());
        }
        if j > i && is_near(&entities[i], &entities[j]) {
            match CollisionManager::detect(&entities[i], &entities[j]) {
                Some(collision) => {
                    events.push(CollisionEvent { a: i, b: j, collision });
                    proof {
                        assert(events@ =~= start + row_events(
                            es,
                            *bounds,
                            i as int,
                            found@.take(m + 1),
                        ));
                    }
                },
                None => {},
            }
        }
        m += 1;
    }
    proof {
        assert(found@.take(found.len() as int) =~= found@);
    }
}

/// The square round the entity in which every shape lies that can be near
/// it, where no radius is above `reach`.
pub open spec fn search_range(e: EntityView, reach: int) -> Box2d {
    Box2d { center: e.transform.position, half: ((e.collider->0).boundary + reach) as i64 }
}

/// The index, asked for the search range of a listed entity, answers as the
/// row scan needs it.
proof fn lemma_answers(
    es: Seq<EntityView>,
    i: int,
    entries: Seq<Entry<usize>>,
    tree: TreeView<usize>,
    reach: int,
)
    requires
        all_wf(es),
        0 <= i < es.len() <= usize::MAX,
        has_active_shape(es[i]),
        entries_of(es, entries),
        tree.holds(entries),
        covers(es, reach),
        0 <= reach <= WORLD_LIMIT,
    ensures
        answers(es, tree.boundary, i, tree.entries().filter(in_range(search_range(es[i], reach)))),
{
    let bounds = tree.boundary;
    let range = search_range(es[i], reach);
    let found = tree.entries().filter(in_range(range));
    assert(es[i].wf());
    assert forall|m: int| 0 <= m < found.len() implies (#[trigger] found[m]).payload < es.len()
        && listed(es[found[m].payload as int], bounds) && found[m] == entry_of(
        es,
        found[m].payload as int,
    ) by {
        assert(found.contains(found[m]));
        tree.lemma_found(entries, range, found[m]);
        let k = choose|k: int| 0 <= k < entries.len() && entries[k] == found[m];
        assert(entries[k].payload < es.len());
    }
    tree.lemma_found_once(entries, range);
    assert forall|j: int|
        0 <= j < es.len() && listed(#[trigger] es[j], bounds) && near(es[i], es[j]) implies exists|
        m: int,
    |
        0 <= m < found.len() && (#[trigger] found[m]).payload == j by {
        assert(es[j].wf());
        let e = entry_of(es, j);
        assert(entries.contains(e));
        assert(range.spec_contains(e.point));
        tree.lemma_found(entries, range, e);
        let m = choose|m: int| 0 <= m < found.len() && found[m] == e;
        assert(found[m].payload == j);
    }
}

/// What the index over `bounds` answers for the entity at place `i`.
pub open spec fn found_for(es: Seq<EntityView>, bounds: Box2d, cap: usize, i: int) -> Seq<
    Entry<usize>,
> {
    TreeView::built(bounds, cap, index_of(es)).entries().filter(
        in_range(search_range(es[i], reach_of(es))),
    )
}

/// The events of the first `rows` entities of the pass, row after row.
pub open spec fn pass_events(es: Seq<EntityView>, bounds: Box2d, cap: usize, rows: nat) -> Seq<
    CollisionEvent,
>
    decreases rows,
{
    if rows == 0 {
        Seq::empty()
    } else {
        let i = (rows - 1) as int;
        let before = pass_events(es, bounds, cap, (rows - 1) as nat);
        if listed(es[i], bounds) {
            before + row_events(es, bounds, i, found_for(es, bounds, cap, i))
        } else {
            before
        }
    }
}

/// The events of the detection pass over a snapshot, in their order.
#[verifier::opaque]
pub open spec fn detected(es: Seq<EntityView>, bounds: Box2d, cap: usize) -> Seq<CollisionEvent> {
    pass_events(es, bounds, cap, es.len())
}

/// The entries of the index are those of the entities with an active
/// shape, each once, and no radius is above the reach.
proof fn lemma_index_of(es: Seq<EntityView>)
    requires
        all_wf(es),
        es.len() <= usize::MAX,
    ensures
        entries_of(es, index_of(es)),
        covers(es, reach_of(es)),
        0 <= reach_of(es) <= WORLD_LIMIT,
        forall|k: int|
            0 <= k < index_of(es).len() ==> (#[trigger] index_of(es)[k]).payload < es.len(),
    decreases es.len(),
{
    if es.len() > 0 {
        let front = es.drop_last();
        let last = es.len() - 1;
        assert forall|k: int| 0 <= k < front.len() implies (#[trigger] front[k]).wf() by {
            assert(front[k] == es[k]);
            assert(es[k].wf());
        }
        lemma_index_of(front);
        assert(es[last].wf());
        let before = index_of(front);
        let entries = index_of(es);
        assert forall|k: int| 0 <= k < before.len() implies (#[trigger] before[k]).payload < last
            && has_active_shape(es[before[k].payload as int]) && before[k] == entry_of(
            es,
            before[k].payload as int,
        ) by {
            assert(front[before[k].payload as int] == es[before[k].payload as int]);
        }
        assert forall|j: int| 0 <= j < es.len() && has_active_shape(
            #[trigger] es[j],
        ) implies entries.contains(entry_of(es, j)) by {
            if j < last {
                assert(front[j] == es[j]);
                assert(before.contains(entry_of(front, j)));
                let k = choose|k: int| 0 <= k < before.len() && before[k] == entry_of(front, j);
                assert(entries[k] == entry_of(es, j));
            } else {
                assert(entries[before.len() as int] == entry_of(es, j));
            }
        }
        assert forall|j: int| 0 <= j < es.len() && has_active_shape(#[trigger] es[j]) implies (
        es[j].collider->0).boundary <= reach_of(es) by {
            if j < last {
                assert(front[j] == es[j]);
            }
        }
        if has_active_shape(es[last]) {
            assert forall|k1: int, k2: int|
                0 <= k1 < entries.len() && 0 <= k2 < entries.len() && k1 != k2 implies entries[k1]
                != entries[k2] by {
                if k1 < before.len() && k2 < before.len() {
                    assert(before[k1] != before[k2]);
                } else if k1 < before.len() {
                    assert(before[k1].payload < last);
                } else {
                    assert(before[k2].payload < last);
                }
            }
        }
    }
}

/// The index over proper bounds answers for an entity with an active shape
/// as the row scan needs it.
proof fn lemma_found_for(es: Seq<EntityView>, bounds: Box2d, cap: usize, i: int)
    requires
        all_wf(es),
        bounds.wf(),
        0 <= i < es.len() <= usize::MAX,
        has_active_shape(es[i]),
    ensures
        answers(es, bounds, i, found_for(es, bounds, cap, i)),
{
    lemma_index_of(es);
    TreeView::lemma_built(bounds, cap, index_of(es));
    lemma_answers(es, i, index_of(es), TreeView::built(bounds, cap, index_of(es)), reach_of(es));
}

/// A row holds the collisions of its entity with those that were found for
/// it, each once.
proof fn lemma_row(es: Seq<EntityView>, bounds: Box2d, i: int, found: Seq<Entry<usize>>)
    requires
        0 <= i < es.len() <= usize::MAX,
        forall|m1: int, m2: int|
            0 <= m1 < m2 < found.len() ==> (#[trigger] found[m1]).payload != (#[trigger] found[m2]).payload,
    ensures
        forall|m: int|
            0 <= m < row_events(es, bounds, i, found).len() ==> {
                let ev = #[trigger] row_events(es, bounds, i, found)[m];
                &&& ev.a == i
                &&& hit(es, bounds, i, ev.b as int)
                &&& Some(ev.collision) == spec_detect(es[i], es[ev.b as int])
                &&& exists|w: int| 0 <= w < found.len() && (#[trigger] found[w]).payload == ev.b
            },
        distinct(row_events(es, bounds, i, found)),
        forall|w: int|
            0 <= w < found.len() && hit(es, bounds, i, (#[trigger] found[w]).payload as int)
                ==> has_event(row_events(es, bounds, i, found), i, found[w].payload as int),
    decreases found.len(),
{
    let row = row_events(es, bounds, i, found);
    if found.len() > 0 {
        let front = found.drop_last();
        let last = found.len() - 1;
        let j = found[last].payload;
        assert forall|m1: int, m2: int| 0 <= m1 < m2 < front.len() implies (#[trigger] front[m1]).payload
            != (#[trigger] front[m2]).payload by {
            assert(front[m1] == found[m1]);
            assert(front[m2] == found[m2]);
        }
        lemma_row(es, bounds, i, front);
        let before = row_events(es, bounds, i, front);
        assert forall|m: int| 0 <= m < row.len() implies {
            let ev = #[trigger] row[m];
            &&& ev.a == i
            &&& hit(es, bounds, i, ev.b as int)
            &&& Some(ev.collision) == spec_detect(es[i], es[ev.b as int])
            &&& exists|w: int| 0 <= w < found.len() && (#[trigger] found[w]).payload == ev.b
        } by {
            if m < before.len() {
                assert(row[m] == before[m]);
                let w = choose|w: int| 0 <= w < front.len() && (#[trigger] front[w]).payload == before[m].b;
                assert(found[w].payload == row[m].b);
            } else {
                assert(found[last].payload == row[m].b);
            }
        }
        assert forall|m1: int, m2: int| 0 <= m1 < m2 < row.len() implies !((#[trigger] row[m1]).a == (
        #[trigger] row[m2]).a && row[m1].b == row[m2].b) by {
            assert(row[m1] == before[m1]);
            if m2 < before.len() {
                assert(row[m2] == before[m2]);
            } else {
                let w = choose|w: int| 0 <= w < front.len() && (#[trigger] front[w]).payload == before[m1].b;
                assert(found[w].payload != found[last].payload);
            }
        }
        assert forall|w: int|
            0 <= w < found.len() && hit(
                es,
                bounds,
                i,
                (#[trigger] found[w]).payload as int,
            ) implies has_event(row, i, found[w].payload as int) by {
            if w < last {
                assert(front[w] == found[w]);
                let m = choose|m: int|
                    0 <= m < before.len() && (#[trigger] before[m]).a == i && before[m].b == found[w].payload;
                assert(row[m] == before[m]);
            } else {
                assert(row[before.len() as int].b == j);
            }
        }
    }
}

/// The first rows of the pass hold the collisions whose first place is in
/// them, each once.
proof fn lemma_pass(es: Seq<EntityView>, bounds: Box2d, cap: usize, rows: nat)
    requires
        all_wf(es),
        bounds.wf(),
        rows <= es.len() <= usize::MAX,
    ensures
        sound(es, bounds, pass_events(es, bounds, cap, rows)),
        distinct(pass_events(es, bounds, cap, rows)),
        complete(es, bounds, pass_events(es, bounds, cap, rows), rows as int),
        forall|m: int|
            0 <= m < pass_events(es, bounds, cap, rows).len() ==> (#[trigger] pass_events(
                es,
                bounds,
                cap,
                rows,
            )[m]).a < rows,
    decreases rows,
{
    let all = pass_events(es, bounds, cap, rows);
    if rows > 0 {
        let i = (rows - 1) as int;
        lemma_pass(es, bounds, cap, (rows - 1) as nat);
        let before = pass_events(es, bounds, cap, (rows - 1) as nat);
        if listed(es[i], bounds) {
            let found = found_for(es, bounds, cap, i);
            let row = row_events(es, bounds, i, found);
            lemma_found_for(es, bounds, cap, i);
            lemma_row(es, bounds, i, found);
            assert forall|m: int| 0 <= m < all.len() implies (#[trigger] all[m]).a < rows && hit(
                es,
                bounds,
                all[m].a as int,
                all[m].b as int,
            ) && Some(all[m].collision) == spec_detect(es[all[m].a as int], es[all[m].b as int]) by {
                if m < before.len() {
                    assert(all[m] == before[m]);
                } else {
                    assert(all[m] == row[m - before.len()]);
                }
            }
            assert forall|m1: int, m2: int| 0 <= m1 < m2 < all.len() implies !((#[trigger] all[m1]).a
                == (#[trigger] all[m2]).a && all[m1].b == all[m2].b) by {
                if m2 < before.len() {
                    assert(all[m1] == before[m1]);
                    assert(all[m2] == before[m2]);
                } else if m1 < before.len() {
                    assert(all[m1] == before[m1]);
                    assert(all[m2] == row[m2 - before.len()]);
                } else {
                    assert(all[m1] == row[m1 - before.len()]);
                    assert(all[m2] == row[m2 - before.len()]);
                }
            }
            assert forall|a: int, b: int| a < rows && #[trigger] hit(
                es,
                bounds,
                a,
                b,
            ) implies has_event(all, a, b) by {
                if a < i {
                    let m = choose|m: int|
                        0 <= m < before.len() && (#[trigger] before[m]).a == a && before[m].b == b;
                    assert(all[m] == before[m]);
                } else {
                    let w = choose|w: int| 0 <= w < found.len() && (#[trigger] found[w]).payload == b;
                    assert(hit(es, bounds, i, found[w].payload as int));
                    let m = choose|m: int| 0 <= m < row.len() && (#[trigger] row[m]).a == i && row[m].b == b;
                    assert(all[before.len() + m] == row[m]);
                }
            }
        } else {
            assert forall|a: int, b: int| a < rows && #[trigger] hit(
                es,
                bounds,
                a,
                b,
            ) implies has_event(all, a, b) by {
                assert(a < i);
            }
        }
    }
}

/// The detection pass lists exactly the collisions of the snapshot, each
/// once.
pub proof fn lemma_detected(es: Seq<EntityView>, bounds: Box2d, cap: usize)
    requires
        all_wf(es),
        bounds.wf(),
        es.len() <= usize::MAX,
    ensures
        lists_hits(es, bounds, detected(es, bounds, cap)),
        events_in_range(detected(es, bounds, cap), es.len() as int),
{
    reveal(detected);
    lemma_pass(es, bounds, cap, es.len());
    let events = detected(es, bounds, cap);
    assert forall|m: int| 0 <= m < events.len() implies (#[trigger] events[m]).a < events[m].b
        < es.len() by {
        assert(hit(es, bounds, events[m].a as int, events[m].b as int));
    }
}

/// The detection pass over a snapshot: the collisions between the entities
/// that take part, each pair once, the earlier place first. An index over
/// `bounds` finds for each entity those that can be near it; the events
/// come in the order of the snapshot, and for one entity in the order of
/// the answer of the index.
pub fn detect_all(bounds: &Box2d, cap: usize, entities: &Vec<Entity>) -> (events: Vec<
    CollisionEvent,
>)
    requires
        bounds.wf(),
        all_wf(snapshot(entities@)),
    ensures
        events@ == detected(snapshot(entities@), *bounds, cap),
        lists_hits(snapshot(entities@), *bounds, events@),
        events_in_range(events@, entities@.len() as int),
{
    let ghost es = snapshot(entities@);
    let n = entities.len();
    proof {
        reveal(detected);
        assert(es.len() == n);
        lemma_index_of(es);
        lemma_detected(es, *bounds, cap);
    }
    let (entries, reach) = index_entries(entities);
    let tree = QuadTree::build(*bounds, cap, &entries);
    let mut events: Vec<CollisionEvent> = Vec::new();
    let mut i: usize = 0;
    while i < n
        invariant
            i <= n,
            n == entities.len(),
            es == snapshot(entities@),
            all_wf(es),
            bounds.wf(),
            tree@.wf(),
            tree@ == TreeView::built(*bounds, cap, index_of(es)),
            reach == reach_of(es),
            0 <= reach <= WORLD_LIMIT,
            events@ == pass_events(es, *bounds, cap, i as nat),
        decreases n - i,
    {
        proof {
            assert(es[i as int] == entities@[i as int]@);
            assert(es[i as int].wf());
        }
        if is_listed(&entities[i], bounds) {
            let radius: i64 = match &entities[i].collider {
                Some(c) => c.boundary,
                None => 0,
            };
            let range = Box2d::new(entities[i].transform.position, radius + reach);
            let found = tree.query(range);
            proof {
                assert(range == search_range(es[i as int], reach as int));
                assert(found@ == found_for(es, *bounds, cap, i as int));
                lemma_found_for(es, *bounds, cap, i as int);
            }
            scan(entities, bounds, i, &found, &mut events);
        }
        i += 1;
    }
    events
}

} // verus!
