use vstd::prelude::*;

use crate::force::Force;
use crate::transform::Transform;
use crate::vector::clamped_sum;
use crate::vector::Vec2d;

verus! {

/// Moves entities by their forces, frame by frame. It remembers when the
/// last frame was.
#[derive(Clone, Copy, Debug)]
pub struct ForceManager {
    /// The time of the last frame.
    pub frame: u64,
}

/// The time from `frame` to `now`; none where `now` is the earlier.
pub open spec fn elapsed(frame: u64, now: u64) -> int {
    if now >= frame {
        now - frame
    } else {
        0
    }
}

/// The transform after `delta` under `force`, where there is one.
pub open spec fn pushed(t: Transform, force: Option<Force>, delta: int) -> Transform {
    match force {
        Some(f) => Transform {
            position: t.position.spec_moved_by(f.velocity.x * delta, f.velocity.y * delta),
            ..t
        },
        None => t,
    }
}

/// One coordinate of the way that a velocity leads in `delta`.
fn way(velocity: i64, delta: u64) -> (d: i128)
    ensures
        d == velocity * delta,
{
    let v: i128 = velocity as i128;
    let t: i128 = delta as i128;
    assert(-0x8000_0000_0000_0000_0000_0000_0000_0000 <= v * t
        <= 0x7fff_ffff_ffff_ffff_ffff_ffff_ffff_ffff) by (nonlinear_arith)
        requires
            -0x8000_0000_0000_0000 <= v <= 0x7fff_ffff_ffff_ffff,
            0 <= t <= 0xffff_ffff_ffff_ffff,
    ;
    v * t
}

impl ForceManager {
    /// A manager whose last frame was at `now`.
    pub fn new(now: u64) -> (m: Self)
        ensures
            m.frame == now,
    {
        Self { frame: now }
    }

    /// One frame at the time `now`: every entity with a force is moved by
    /// its velocity times the time since the last frame.
    pub fn update(&mut self, now: u64, entities: &mut Vec<(Transform, Option<Force>)>)
        ensures
            final(self).frame == now,
            final(entities)@.len() == old(entities)@.len(),
            forall|i: int|
                0 <= i < old(entities)@.len() ==> (#[trigger] final(entities)@[i]).1 == old(
                    entities,
                )@[i].1 && final(entities)@[i].0 == pushed(
                    old(entities)@[i].0,
                    old(entities)@[i].1,
                    elapsed(old(self).frame, now),
                ),
    {
        let delta: u64 = if now >= self.frame {
            now - self.frame
        } else {
            0
        };
        self.frame = now;
        let ghost before = entities@;
        let mut i: usize = 0;
        while i < entities.len()
            invariant
                i <= entities.len(),
                entities@.len() == before.len(),
                forall|k: int|
                    0 <= k < i ==> (#[trigger] entities@[k]).1 == before[k].1 && entities@[k].0
                        == pushed(before[k].0, before[k].1, delta as int),
                forall|k: int| i <= k < before.len() ==> #[trigger] entities@[k] == before[k],
            decreases entities.len() - i,
        {
            let moved = match entities[i].1 {
                Some(f) => {
                    let p = entities[i].0.position;
                    Some(
                        Vec2d {
                            x: clamped_sum(p.x, way(f.velocity.x, delta)),
                            y: clamped_sum(p.y, way(f.velocity.y, delta)),
                        },
                    )
                },
                None => None,
            };
            match moved {
                Some(p) => {
                    entities[i].0.position = p;
                },
                None => {},
            }
            i += 1;
        }
    }
}

} // verus!
