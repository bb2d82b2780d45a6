//! Fixed-point integer math.
//!
//! All game-state positions and quantities are integers so that behaviour is
//! byte-identical on every target. One tile is [`FIX_SCALE`] fixed-point
//! units; no floating point is used in game-state math.
use vstd::prelude::*;

verus! {

/// Fixed point scale: 1 tile == 256 fix units (a shift of 8 bits).
pub const FIX_SHIFT: u32 = 8;

pub const FIX_SCALE: i32 = 256;

/// Offset from a tile's origin to its center.
pub const FIX_HALF: i32 = 128;

/// Sim ticks per second of game time (the fixed timestep).
pub const TICKS_PER_SEC: i32 = 10;

/// Command tick: the AI cadence issues commands every 2 s of game time.
pub const COMMAND_TICK: i32 = 20;

/// Match timeout in ticks (15 minutes of game time).
pub const MATCH_TIMEOUT_TICKS: i32 = 9000;

/// Largest coordinate magnitude a position may take (the world border, far
/// outside the 64x64 map).
pub const POS_LIMIT: i32 = 16777216;

/// A fixed-point coordinate (micro-tiles).
pub type Fix = i32;

/// The fixed-point coordinate of the center of tile `t`.
pub open spec fn spec_tile_center(t: int) -> int {
    t * 256 + 128
}

/// The tile a fixed-point coordinate lies in, clamped to the map `[0, 63]`.
pub open spec fn spec_fix_to_tile(f: int) -> int {
    if f < 0 {
        0
    } else if f / 256 > 63 {
        63
    } else {
        f / 256
    }
}

/// Squared euclidean distance of two points.
pub open spec fn spec_dist2(ax: int, ay: int, bx: int, by: int) -> int {
    (ax - bx) * (ax - bx) + (ay - by) * (ay - by)
}

/// Whether a coordinate lies inside the world border.
pub open spec fn coord_ok(v: int) -> bool {
    -POS_LIMIT <= v <= POS_LIMIT
}

/// `r` is the integer square root of `n >= 0`.
pub open spec fn is_isqrt(n: int, r: int) -> bool {
    0 <= r && r * r <= n && n < (r + 1) * (r + 1)
}

/// Convert a tile coordinate to the fixed-point coordinate of its center.
pub fn tile_center(t: u8) -> (r: Fix)
    ensures
        r == spec_tile_center(t as int),
        128 <= r <= 65408,
{
    (t as i32) * FIX_SCALE + FIX_HALF
}

/// Converting a tile's center back to a tile gives the tile again.
pub proof fn lemma_tile_center_round_trip(t: int)
    requires
        0 <= t <= 63,
    ensures
        spec_fix_to_tile(spec_tile_center(t)) == t,
{
}

/// Convert a fixed-point coordinate to the tile it lies in, clamped to the map.
pub fn fix_to_tile(f: Fix) -> (r: u8)
    ensures
        r == spec_fix_to_tile(f as int),
        r <= 63,
{
    if f < 0 {
        0
    } else {
        let t = f / FIX_SCALE;
        if t > 63 {
            63
        } else {
            t as u8
        }
    }
}

/// Two points inside the world border are far enough apart for their squared
/// distance to be computed in 64-bit arithmetic.
pub proof fn lemma_dist2_fits(ax: int, ay: int, bx: int, by: int)
    requires
        coord_ok(ax),
        coord_ok(ay),
        coord_ok(bx),
        coord_ok(by),
    ensures
        0 <= spec_dist2(ax, ay, bx, by) <= 4 * 1125899906842624 * 2,
        (ax - bx) * (ax - bx) <= 4 * 1125899906842624,
        (ay - by) * (ay - by) <= 4 * 1125899906842624,
{
    let dx = ax - bx;
    let dy = ay - by;
    assert(-33554432 <= dx <= 33554432);
    assert(-33554432 <= dy <= 33554432);
    assert(dx * dx <= 33554432 * 33554432) by (nonlinear_arith)
        requires
            -33554432 <= dx <= 33554432,
    ;
    assert(dy * dy <= 33554432 * 33554432) by (nonlinear_arith)
        requires
            -33554432 <= dy <= 33554432,
    ;
    assert(dx * dx >= 0) by (nonlinear_arith);
    assert(dy * dy >= 0) by (nonlinear_arith);
}

/// Two points whose coordinate differences fit in 32-bit signed integers
/// have a squared distance that fits in 64-bit arithmetic.
pub proof fn lemma_dist2_in_range(dx: int, dy: int)
    requires
        -0x8000_0000 < dx < 0x8000_0000,
        -0x8000_0000 < dy < 0x8000_0000,
    ensures
        0 <= dx * dx < 0x4000_0000_0000_0000,
        0 <= dy * dy < 0x4000_0000_0000_0000,
{
    assert(0 <= dx * dx < 0x4000_0000_0000_0000) by (nonlinear_arith)
        requires
            -0x8000_0000 < dx < 0x8000_0000,
    ;
    assert(0 <= dy * dy < 0x4000_0000_0000_0000) by (nonlinear_arith)
        requires
            -0x8000_0000 < dy < 0x8000_0000,
    ;
}

/// Squared distance between two fixed-point points (computed in 64 bits),
/// exact whenever the coordinate differences fit in 32-bit signed integers.
pub fn dist2(ax: Fix, ay: Fix, bx: Fix, by: Fix) -> (r: i64)
    requires
        -0x8000_0000 < ax - bx < 0x8000_0000,
        -0x8000_0000 < ay - by < 0x8000_0000,
    ensures
        r == spec_dist2(ax as int, ay as int, bx as int, by as int),
        r == spec_dist2(bx as int, by as int, ax as int, ay as int),
        r >= 0,
        coord_ok(ax as int) && coord_ok(ay as int) && coord_ok(bx as int) && coord_ok(by as int)
            ==> r <= 9007199254740992,
{
    proof {
        lemma_dist2_in_range(ax - bx, ay - by);
        if coord_ok(ax as int) && coord_ok(ay as int) && coord_ok(bx as int) && coord_ok(by as int) {
            lemma_dist2_fits(ax as int, ay as int, bx as int, by as int);
        }
        assert((ax - bx) * (ax - bx) == (bx - ax) * (bx - ax)) by (nonlinear_arith);
        assert((ay - by) * (ay - by) == (by - ay) * (by - ay)) by (nonlinear_arith);
    }
    let dx = ax as i64 - bx as i64;
    let dy = ay as i64 - by as i64;
    dx * dx + dy * dy
}

/// One Newton step `y = (x + n / x) / 2` never drops below the integer
/// square root of `n`.
proof fn lemma_newton_step_above_root(n: int, x: int, y: int)
    requires
        n >= 0,
        x >= 1,
        y == (x + n / x) / 2,
    ensures
        n < (y + 1) * (y + 1),
{
    let q = n / x;
    assert(q * x <= n < (q + 1) * x) by (nonlinear_arith)
        requires
            n >= 0,
            x >= 1,
            q == n / x,
    ;
    if (y + 1) * (y + 1) <= n {
        // Then x + q <= 2y + 1, so (q + 1) <= 2(y + 1) - x and
        // n < (q + 1) x <= (2(y+1) - x) x <= (y+1)^2 <= n.
        let s = y + 1;
        assert(x + q <= 2 * s - 1);
        assert((q + 1) * x <= (2 * s - x) * x) by (nonlinear_arith)
            requires
                q + 1 <= 2 * s - x,
                x >= 1,
        ;
        assert((2 * s - x) * x <= s * s) by (nonlinear_arith);
        assert(false);
    }
}

/// Deterministic integer square root (Newton's method), exact for every
/// non-negative input; negative inputs give 0.
pub fn isqrt(n: i64) -> (r: i64)
    requires
        n < i64::MAX,
    ensures
        n <= 1 ==> r == (if n < 0 {
            0
        } else {
            n
        }),
        n >= 0 ==> is_isqrt(n as int, r as int),
{
    if n <= 1 {
        assert(n >= 0 ==> n * n <= n < (n + 1) * (n + 1)) by (nonlinear_arith)
            requires
                n <= 1,
        ;
        return if n < 0 {
            0
        } else {
            n
        };
    }
    let mut x = n;
    let mut y = (x + 1) / 2;
    proof {
        assert(n < (n + 1) * (n + 1)) by (nonlinear_arith)
            requires
                n > 1,
        ;
        assert((n + n / n) / 2 == (n + 1) / 2) by (nonlinear_arith)
            requires
                n > 1,
        ;
    }
    while y < x
        invariant
            n > 1,
            1 <= x <= n,
            n < i64::MAX,
            n < (x + 1) * (x + 1),
            y == (x + n / x) / 2,
            y >= 1,
        decreases x,
    {
        proof {
            lemma_newton_step_above_root(n as int, x as int, y as int);
        }
        x = y;
        proof {
            assert(x + n / x <= n + 1) by (nonlinear_arith)
                requires
                    1 <= x <= n,
            ;
            if x == 1 {
                assert(n / 1 == n);
            } else {
                assert(n / x >= 0) by (nonlinear_arith)
                    requires
                        x >= 1,
                        n >= 0,
                ;
            }
        }
        y = (x + n / x) / 2;
    }
    proof {
        // At exit y >= x, which forces x * x <= n.
        if x * x > n {
            assert(n / x < x) by (nonlinear_arith)
                requires
                    x * x > n,
                    x >= 1,
                    n >= 0,
            ;
            assert(false);
        }
    }
    x
}

/// Fixed-point coordinate.
#[derive(Clone, Copy, PartialEq, Eq, Structural, Hash, Debug, Default)]
pub struct Pos {
    pub x: Fix,
    pub y: Fix,
}

impl Pos {
    /// Both coordinates lie inside the world border.
    pub open spec fn inside(self) -> bool {
        coord_ok(self.x as int) && coord_ok(self.y as int)
    }

    pub open spec fn spec_tile(self) -> (u8, u8) {
        (spec_fix_to_tile(self.x as int) as u8, spec_fix_to_tile(self.y as int) as u8)
    }

    pub open spec fn spec_from_tile(tx: u8, ty: u8) -> Pos {
        Pos { x: spec_tile_center(tx as int) as i32, y: spec_tile_center(ty as int) as i32 }
    }

    pub fn new(x: Fix, y: Fix) -> (p: Pos)
        ensures
            p.x == x,
            p.y == y,
    {
        Pos { x, y }
    }

    /// The center of tile `(tx, ty)`.
    pub fn from_tile(tx: u8, ty: u8) -> (p: Pos)
        ensures
            p == Pos::spec_from_tile(tx, ty),
            p.inside(),
            tx <= 63 && ty <= 63 ==> p.spec_tile() == (tx, ty),
    {
        Pos { x: tile_center(tx), y: tile_center(ty) }
    }

    /// The tile this position lies in (clamped to the map).
    pub fn tile(&self) -> (t: (u8, u8))
        ensures
            t == self.spec_tile(),
            t.0 <= 63 && t.1 <= 63,
    {
        (fix_to_tile(self.x), fix_to_tile(self.y))
    }

    /// Squared distance to another position.
    pub fn dist2(&self, other: &Pos) -> (r: i64)
        requires
            self.inside(),
            other.inside(),
        ensures
            r == spec_dist2(self.x as int, self.y as int, other.x as int, other.y as int),
            r >= 0,
    {
        dist2(self.x, self.y, other.x, other.y)
    }
}

} // verus!
