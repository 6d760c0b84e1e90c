use vstd::prelude::*;

use crate::vector::div_toward_zero;
use crate::vector::Vec2d;
use crate::vector::LOCAL_LIMIT;
use crate::vector::POSITION_LIMIT;
use crate::vector::WORLD_LIMIT;

verus! {

/// The value of a matrix entry that stands for one.
pub const UNIT: i64 = 65_536;

/// Largest magnitude of a matrix entry: eight units.
pub const MATRIX_LIMIT: i64 = 524_288;

/// An affine map of the plane. The linear part is in fixed point, with
/// `UNIT` for one; the translation is in grid units.
#[derive(Clone, Copy, Debug, PartialEq, Eq, Structural)]
pub struct Matrix {
    pub xx: i64,
    pub xy: i64,
    pub yx: i64,
    pub yy: i64,
    pub tx: i64,
    pub ty: i64,
}

impl Matrix {
    /// The entries are small enough to map a local vertex into the world.
    pub open spec fn wf(self) -> bool {
        &&& -MATRIX_LIMIT <= self.xx <= MATRIX_LIMIT
        &&& -MATRIX_LIMIT <= self.xy <= MATRIX_LIMIT
        &&& -MATRIX_LIMIT <= self.yx <= MATRIX_LIMIT
        &&& -MATRIX_LIMIT <= self.yy <= MATRIX_LIMIT
        &&& -POSITION_LIMIT <= self.tx <= POSITION_LIMIT
        &&& -POSITION_LIMIT <= self.ty <= POSITION_LIMIT
    }

    /// The image of `p`: the linear part applied to `p`, divided by `UNIT`
    /// and rounded toward zero, then moved by the translation.
    pub open spec fn spec_apply(self, p: Vec2d) -> Vec2d {
        Vec2d {
            x: (self.tx + div_toward_zero(self.xx * p.x + self.xy * p.y, UNIT as int)) as i64,
            y: (self.ty + div_toward_zero(self.yx * p.x + self.yy * p.y, UNIT as int)) as i64,
        }
    }

    /// The image of `p`.
    pub fn apply(&self, p: Vec2d) -> (w: Vec2d)
        requires
            self.wf(),
            p.within(LOCAL_LIMIT as int),
        ensures
            w == self.spec_apply(p),
            w.within(WORLD_LIMIT as int),
    {
        proof {
            lemma_entry_times_coordinate(self.xx as int, p.x as int);
            lemma_entry_times_coordinate(self.xy as int, p.y as int);
            lemma_entry_times_coordinate(self.yx as int, p.x as int);
            lemma_entry_times_coordinate(self.yy as int, p.y as int);
        }
        let lx: i64 = (self.xx * p.x + self.xy * p.y) / UNIT;
        let ly: i64 = (self.yx * p.x + self.yy * p.y) / UNIT;
        Vec2d { x: self.tx + lx, y: self.ty + ly }
    }
}

proof fn lemma_entry_times_coordinate(m: int, c: int)
    requires
        -MATRIX_LIMIT <= m <= MATRIX_LIMIT,
        -LOCAL_LIMIT <= c <= LOCAL_LIMIT,
    ensures
        -0x2_0000_0000 <= m * c <= 0x2_0000_0000,
{
    assert(-0x2_0000_0000 <= m * c <= 0x2_0000_0000) by (nonlinear_arith)
        requires
            -0x8_0000 <= m <= 0x8_0000,
            -0x4000 <= c <= 0x4000,
    ;
}

/// Where an entity is and how its shape is turned and scaled.
#[derive(Clone, Copy, Debug, PartialEq, Eq, Structural)]
pub struct Transform {
    pub position: Vec2d,
    /// Rotation and scale: the linear part of `matrix()`.
    pub xx: i64,
    pub xy: i64,
    pub yx: i64,
    pub yy: i64,
}

impl Transform {
    /// The position is within the range of positions and the linear part
    /// within that of matrix entries.
    pub open spec fn wf(self) -> bool {
        self.spec_matrix().wf()
    }

    /// The affine map of the transform: its linear part, and its position as
    /// the translation.
    pub open spec fn spec_matrix(self) -> Matrix {
        Matrix {
            xx: self.xx,
            xy: self.xy,
            yx: self.yx,
            yy: self.yy,
            tx: self.position.x,
            ty: self.position.y,
        }
    }

    /// A transform at `position` that neither turns nor scales.
    pub fn new(position: Vec2d) -> (t: Self)
        ensures
            t.position == position,
            t.xx == UNIT && t.xy == 0 && t.yx == 0 && t.yy == UNIT,
            position.within(POSITION_LIMIT as int) ==> t.wf(),
    {
        Transform { position, xx: UNIT, xy: 0, yx: 0, yy: UNIT }
    }

    pub fn position(&self) -> (p: Vec2d)
        ensures
            p == self.position,
    {
        self.position
    }

    pub fn set_position(&mut self, position: Vec2d)
        ensures
            final(self).position == position,
            *final(self) == (Transform { position, ..*old(self) }),
    {
        self.position = position;
    }

    /// The affine map that takes local space to world space.
    pub fn matrix(&self) -> (m: Matrix)
        ensures
            m == self.spec_matrix(),
    {
        Matrix {
            xx: self.xx,
            xy: self.xy,
            yx: self.yx,
            yy: self.yy,
            tx: self.position.x,
            ty: self.position.y,
        }
    }
}

} // verus!
