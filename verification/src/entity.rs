use vstd::prelude::*;

use crate::collider::Collider;
use crate::collider::ColliderView;
use crate::physical::Physical;
use crate::transform::Transform;
use crate::vector::Id;
use crate::vector::POSITION_LIMIT;

verus! {

/// One entity as the host hands it over for a tick: its transform, and its
/// shape and body where it has them.
#[derive(Clone, Debug)]
pub struct Entity {
    pub id: Id,
    pub transform: Transform,
    pub collider: Option<Collider>,
    pub body: Option<Physical>,
}

/// An entity as a value of mathematics.
pub struct EntityView {
    pub id: Id,
    pub transform: Transform,
    pub collider: Option<ColliderView>,
    pub body: Option<Physical>,
}

impl View for Entity {
    type V = EntityView;

    open spec fn view(&self) -> EntityView {
        EntityView {
            id: self.id,
            transform: self.transform,
            collider: match self.collider {
                Some(c) => Some(c@),
                None => None,
            },
            body: self.body,
        }
    }
}

impl EntityView {
    /// The transform and the shape are within their limits, and so is the
    /// position that the body remembers.
    pub open spec fn wf(self) -> bool {
        &&& self.transform.wf()
        &&& self.collider matches Some(c) ==> c.wf()
        &&& self.body matches Some(b) ==> (b.last_position matches Some(p) ==> p.within(
            POSITION_LIMIT as int,
        ))
    }
}

impl Entity {

    pub fn new(id: Id, transform: Transform, collider: Option<Collider>, body: Option<Physical>) -> (e:
        Self)
        ensures
            e == (Entity { id, transform, collider, body }),
    {
        Self { id, transform, collider, body }
    }
}

/// The entities of a snapshot as values of mathematics.
pub open spec fn snapshot(es: Seq<Entity>) -> Seq<EntityView> {
    Seq::new(es.len(), |i: int| es[i]@)
}

/// Every entity of the snapshot is well formed.
pub open spec fn all_wf(es: Seq<EntityView>) -> bool {
    forall|i: int| 0 <= i < es.len() ==> (#[trigger] es[i]).wf()
}

} // verus!
