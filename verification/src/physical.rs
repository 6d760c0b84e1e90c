use vstd::prelude::*;

use crate::vector::Vec2d;

verus! {

/// What makes an entity movable: the force on it, and what the last tick
/// left behind. An entity without one is a fixed obstacle.
#[derive(Clone, Copy, Debug)]
pub struct Physical {
    /// Displacement per unit of time.
    pub force: Vec2d,
    pub velocity: Option<Vec2d>,
    pub last_position: Option<Vec2d>,
    pub active: bool,
}

impl Physical {
    pub fn new(force: Vec2d, active: bool) -> (p: Self)
        ensures
            p == (Physical { force, velocity: None, last_position: None, active }),
    {
        Self { force, velocity: None, last_position: None, active }
    }

    /// The velocity that `velocity()` reports: zero before the first one was
    /// stored.
    pub open spec fn spec_velocity(self) -> Vec2d {
        match self.velocity {
            Some(v) => v,
            None => Vec2d { x: 0, y: 0 },
        }
    }

    /// The position at the end of the last tick.
    pub fn last_position(&self) -> (lp: Option<Vec2d>)
        ensures
            lp == self.last_position,
    {
        self.last_position
    }

    pub fn set_last_position(&mut self, lp: Vec2d)
        ensures
            *final(self) == (Physical { last_position: Some(lp), ..*old(self) }),
    {
        self.last_position = Some(lp);
    }

    /// The velocity that the last tick derived; zero before the first.
    pub fn velocity(&self) -> (v: Vec2d)
        ensures
            v == self.spec_velocity(),
    {
        match self.velocity {
            Some(v) => v,
            None => Vec2d::default(),
        }
    }

    pub fn set_velocity(&mut self, vel: Vec2d)
        ensures
            *final(self) == (Physical { velocity: Some(vel), ..*old(self) }),
    {
        self.velocity = Some(vel);
    }
}

} // verus!
