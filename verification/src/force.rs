use vstd::prelude::*;

use crate::vector::Vec2d;

verus! {

/// A steady pull on an entity.
#[derive(Clone, Copy, Debug)]
pub struct Force {
    pub weight: i64,
    /// Displacement per unit of time.
    pub velocity: Vec2d,
}

impl Force {
    pub fn new(weight: i64, velocity: Vec2d) -> (f: Self)
        ensures
            f == (Force { weight, velocity }),
    {
        Self { weight, velocity }
    }
}

} // verus!
