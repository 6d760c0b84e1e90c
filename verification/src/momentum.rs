use vstd::prelude::*;

use crate::vector::Id;
use crate::vector::Vec2d;

verus! {

/// Mass and velocity of an entity, and the entities it has acted on.
#[derive(Clone, Debug)]
pub struct Momentum {
    pub mass: i64,
    pub velocity: Vec2d,
    pub applied: Vec<Id>,
    pub active: bool,
}

impl Momentum {
    pub fn new(mass: i64, velocity: Vec2d, active: bool) -> (m: Self)
        ensures
            m.mass == mass,
            m.velocity == velocity,
            m.applied@ == Seq::<Id>::empty(),
            m.active == active,
    {
        Self { mass, velocity, applied: Vec::new(), active }
    }

    /// Notes that the momentum acted on `other`.
    pub fn apply(&mut self, other: Id)
        ensures
            final(self).applied@ == old(self).applied@.push(other),
            final(self).mass == old(self).mass,
            final(self).velocity == old(self).velocity,
            final(self).active == old(self).active,
    {
        self.applied.push(other);
    }

    /// The momentum as a vector: the velocity times the mass.
    pub open spec fn spec_vector(self) -> (int, int) {
        (self.velocity.x * self.mass, self.velocity.y * self.mass)
    }

    /// The momentum as a vector, in numbers wide enough for every product.
    pub fn vector(&self) -> (v: (i128, i128))
        ensures
            (v.0 as int, v.1 as int) == self.spec_vector(),
    {
        let m: i128 = self.mass as i128;
        let x: i128 = self.velocity.x as i128;
        let y: i128 = self.velocity.y as i128;
        assert(-0x4000_0000_0000_0000_0000_0000_0000_0000 <= x * m
            <= 0x4000_0000_0000_0000_0000_0000_0000_0000 && -0x4000_0000_0000_0000_0000_0000_0000_0000
            <= y * m <= 0x4000_0000_0000_0000_0000_0000_0000_0000) by (nonlinear_arith)
            requires
                -0x8000_0000_0000_0000 <= x <= 0x8000_0000_0000_0000,
                -0x8000_0000_0000_0000 <= y <= 0x8000_0000_0000_0000,
                -0x8000_0000_0000_0000 <= m <= 0x8000_0000_0000_0000,
        ;
        (x * m, y * m)
    }
}

} // verus!
