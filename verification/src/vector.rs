use vstd::prelude::*;

verus! {

/// Identifier of an entity, chosen by the host.
pub type Id = u64;

/// Largest magnitude of a coordinate of a vertex in world space.
pub const WORLD_LIMIT: i64 = 524_288;

/// Largest magnitude of a coordinate of a position.
pub const POSITION_LIMIT: i64 = 262_144;

/// Largest magnitude of a coordinate of a vertex in local space.
pub const LOCAL_LIMIT: i64 = 16_384;

/// Quotient of `a` by a positive `b`, rounded toward zero.
pub open spec fn div_toward_zero(a: int, b: int) -> int
    recommends
        b > 0,
{
    if a >= 0 {
        a / b
    } else {
        -((-a) / b)
    }
}

/// `v` limited to the interval from `-limit` to `limit`.
pub open spec fn clamp_to(v: int, limit: int) -> int
    recommends
        limit >= 0,
{
    if v < -limit {
        -limit
    } else if v > limit {
        limit
    } else {
        v
    }
}

/// A point or displacement on the integer grid.
#[derive(Clone, Copy, Debug, PartialEq, Eq, Structural)]
pub struct Vec2d {
    pub x: i64,
    pub y: i64,
}

impl Default for Vec2d {
    /// The origin.
    fn default() -> (v: Self)
        ensures
            v == (Vec2d { x: 0, y: 0 }),
    {
        Vec2d { x: 0, y: 0 }
    }
}

impl Vec2d {
    /// Both coordinates lie between `-limit` and `limit`.
    pub open spec fn within(self, limit: int) -> bool {
        -limit <= self.x <= limit && -limit <= self.y <= limit
    }

    /// The sum `self + d`, each coordinate limited to `POSITION_LIMIT`.
    pub open spec fn spec_moved_by(self, dx: int, dy: int) -> Vec2d {
        Vec2d {
            x: clamp_to(self.x + dx, POSITION_LIMIT as int) as i64,
            y: clamp_to(self.y + dy, POSITION_LIMIT as int) as i64,
        }
    }

    pub fn new(x: i64, y: i64) -> (v: Self)
        ensures
            v.x == x,
            v.y == y,
    {
        Vec2d { x, y }
    }

    pub fn x(&self) -> (x: i64)
        ensures
            x == self.x,
    {
        self.x
    }

    pub fn y(&self) -> (y: i64)
        ensures
            y == self.y,
    {
        self.y
    }

    /// Moves a position by a displacement; a coordinate that would leave the
    /// range of positions stops at its edge.
    pub fn moved_by(&self, d: Vec2d) -> (v: Vec2d)
        ensures
            v == self.spec_moved_by(d.x as int, d.y as int),
            v.within(POSITION_LIMIT as int),
    {
        Vec2d { x: clamped_sum(self.x, d.x as i128), y: clamped_sum(self.y, d.y as i128) }
    }
}

/// `p + d` limited to the range of positions.
pub fn clamped_sum(p: i64, d: i128) -> (r: i64)
    ensures
        r == clamp_to(p + d, POSITION_LIMIT as int),
        -POSITION_LIMIT <= r <= POSITION_LIMIT,
{
    let room_up: i128 = POSITION_LIMIT as i128 - p as i128;
    let room_down: i128 = -(POSITION_LIMIT as i128) - p as i128;
    if d > room_up {
        POSITION_LIMIT
    } else if d < room_down {
        -POSITION_LIMIT
    } else {
        (p as i128 + d) as i64
    }
}

/// `r` is the least number whose square is at least `n`.
pub open spec fn is_ceil_sqrt(n: int, r: int) -> bool {
    &&& r >= 0
    &&& r * r >= n
    &&& r == 0 || (r - 1) * (r - 1) < n
}

/// The square root of `n`, rounded up.
pub fn ceil_sqrt(n: u64) -> (r: u64)
    ensures
        is_ceil_sqrt(n as int, r as int),
        r <= 0x1_0000_0000,
{
    if n == 0 {
        return 0;
    }
    let mut low: u64 = 0;
    let mut high: u64 = 0x1_0000_0000;
    assert(high * high > n) by (nonlinear_arith)
        requires
            high == 0x1_0000_0000,
            n <= 0xffff_ffff_ffff_ffff,
    ;
    while high - low > 1
        invariant
            low < high <= 0x1_0000_0000,
            low * low < n,
            high * high >= n,
        decreases high - low,
    {
        let mid: u64 = low + (high - low) / 2;
        assert(mid * mid <= 0xffff_ffff_ffff_ffff) by (nonlinear_arith)
            requires
                mid <= 0xffff_ffff,
        ;
        if mid * mid >= n {
            high = mid;
        } else {
            low = mid;
        }
    }
    high
}

impl Vec2d {
    /// The length of the vector, rounded up.
    pub fn magnitude(&self) -> (r: i64)
        requires
            self.within(WORLD_LIMIT as int),
        ensures
            is_ceil_sqrt(self.x * self.x + self.y * self.y, r as int),
            0 <= r <= 2 * WORLD_LIMIT,
    {
        let ghost x = self.x as int;
        let ghost y = self.y as int;
        assert(0 <= x * x <= 0x40_0000_0000 && 0 <= y * y <= 0x40_0000_0000) by (nonlinear_arith)
            requires
                -0x8_0000 <= x <= 0x8_0000,
                -0x8_0000 <= y <= 0x8_0000,
        ;
        let n: i64 = self.x * self.x + self.y * self.y;
        let r = ceil_sqrt(n as u64);
        assert(r <= 0x10_0000) by (nonlinear_arith)
            requires
                r == 0 || (r - 1) * (r - 1) < n,
                n <= 0x80_0000_0000,
                r >= 0,
        {
            if r > 0x10_0000 {
                assert((r - 1) * (r - 1) >= 0x10_0000 * 0x10_0000);
            }
        }
        r as i64
    }
}

} // verus!
