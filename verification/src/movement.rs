//! Deterministic unit movement.
//!
//! Long-range navigation follows breadth-first waypoints
//! ([`GameMap::find_path`]); the per-tick stepping is straight-line integer
//! arithmetic with an axis-aligned slide along obstacles.
use vstd::prelude::*;

use crate::entity::{spec_unit_stats, unit_stats, Unit};
use crate::fixed::{coord_ok, fix_to_tile, isqrt, is_isqrt, spec_fix_to_tile, Fix, Pos};
use crate::map::{in_map, spec_tile_index, tile_index, GameMap};
use crate::tick::{lemma_isqrt_unique, spec_isqrt};

verus! {

/// Largest per-tick step any unit takes.
pub const MAX_SPEED: i32 = 64;

/// A position a walking unit may stand on: inside the world border, on
/// passable terrain and not on a building (`blocked`).
pub open spec fn standable(map: GameMap, blocked: Seq<bool>, p: Pos) -> bool {
    &&& p.inside()
    &&& map.passable_at(spec_fix_to_tile(p.x as int), spec_fix_to_tile(p.y as int))
    &&& !(spec_tile_index(spec_fix_to_tile(p.x as int), spec_fix_to_tile(p.y as int)) < blocked.len()
        && blocked[spec_tile_index(spec_fix_to_tile(p.x as int), spec_fix_to_tile(p.y as int))])
}

/// Whether `p` is a position a walking unit may stand on.
pub fn can_stand(map: &GameMap, blocked: &[bool], p: Pos) -> (r: bool)
    requires
        map.wf(),
    ensures
        r == standable(*map, blocked@, p),
{
    if !(-crate::fixed::POS_LIMIT <= p.x && p.x <= crate::fixed::POS_LIMIT && -crate::fixed::POS_LIMIT
        <= p.y && p.y <= crate::fixed::POS_LIMIT) {
        return false;
    }
    let tx = fix_to_tile(p.x);
    let ty = fix_to_tile(p.y);
    if !map.is_passable(tx, ty) {
        return false;
    }
    let i = tile_index(tx, ty);
    !(i < blocked.len() && blocked[i])
}

/// `|v|` of an i64 that is not `i64::MIN`.
fn abs64(v: i64) -> (r: i64)
    requires
        v > i64::MIN,
    ensures
        r >= 0,
        r == v || r == -v,
        v >= 0 ==> r == v,
        v < 0 ==> r == -v,
{
    if v < 0 {
        -v
    } else {
        v
    }
}

/// A number whose square lies below `(n + 1)^2` has magnitude at most `n`.
proof fn lemma_square_below(x: int, n: int)
    requires
        n >= 0,
        x * x < (n + 1) * (n + 1),
    ensures
        -n <= x <= n,
{
    if x > n {
        assert(x * x >= (n + 1) * (n + 1)) by (nonlinear_arith)
            requires
                x >= n + 1,
                n >= 0,
        ;
    }
    if x < -n {
        assert(x * x >= (n + 1) * (n + 1)) by (nonlinear_arith)
            requires
                x <= -(n + 1),
                n >= 0,
        ;
    }
}

/// `|d| * speed / dist`, carrying the sign of `d` (division truncating
/// toward zero).
pub open spec fn spec_step_component(d: int, speed: int, dist: int) -> int {
    if d < 0 {
        -((-d * speed) / dist)
    } else {
        (d * speed) / dist
    }
}

/// The component of a step of length `speed` along a vector component `d`
/// of a vector of length `dist` (truncating toward zero).
fn step_component(d: i64, speed: i64, dist: i64) -> (r: i64)
    requires
        -0x8000_0000 < d < 0x8000_0000,
        0 <= speed < 0x8000_0000,
        dist > 0,
        -dist <= d <= dist,
    ensures
        r == spec_step_component(d as int, speed as int, dist as int),
        -speed <= r <= speed,
        d >= 0 ==> r >= 0,
        d <= 0 ==> r <= 0,
        speed <= dist && d >= 0 ==> r <= d,
        speed <= dist && d <= 0 ==> d <= r,
{
    let a = abs64(d);
    proof {
        assert(a * speed <= dist * speed) by (nonlinear_arith)
            requires
                0 <= a <= dist,
                speed >= 0,
        ;
        assert(a * speed < 0x8000_0000 * 0x8000_0000) by (nonlinear_arith)
            requires
                0 <= a < 0x8000_0000,
                0 <= speed < 0x8000_0000,
        ;
        assert((a * speed) / (dist as int) <= speed) by (nonlinear_arith)
            requires
                0 <= a * speed <= dist * speed,
                dist > 0,
        ;
        assert((a * speed) / (dist as int) >= 0) by (nonlinear_arith)
            requires
                0 <= a * speed,
                dist > 0,
        ;
        if speed <= dist {
            assert(a * speed <= a * dist) by (nonlinear_arith)
                requires
                    0 <= a,
                    0 <= speed <= dist,
            ;
            assert((a * speed) / (dist as int) <= a) by (nonlinear_arith)
                requires
                    0 <= a * speed <= a * dist,
                    dist > 0,
                    a >= 0,
            ;
        }
    }
    let s = (a * speed) / dist;
    if d == 0 {
        assert(a == 0);
        assert(s == 0) by (nonlinear_arith)
            requires
                a == 0,
                s == (a * speed) / (dist as int),
                dist > 0,
        ;
    }
    if d < 0 {
        -s
    } else {
        s
    }
}

/// One tick of straight-line movement from `pos` toward `dest`: the whole
/// way when `dest` lies within `speed`; else a step of length `speed`
/// along the direction, sliding along the x axis, then the y axis, when the
/// direct step is not standable, and staying put when neither is.
pub open spec fn spec_step_towards(map: GameMap, blocked: Seq<bool>, pos: Pos, dest: Pos, speed: int) -> (
    Pos,
    bool,
) {
    let dx = dest.x - pos.x;
    let dy = dest.y - pos.y;
    let dist = spec_isqrt(dx * dx + dy * dy);
    if dist == 0 || dist <= speed {
        (dest, true)
    } else {
        let nx = (pos.x + spec_step_component(dx, speed, dist)) as i32;
        let ny = (pos.y + spec_step_component(dy, speed, dist)) as i32;
        let direct = Pos { x: nx, y: ny };
        let x_only = Pos { x: nx, y: pos.y };
        let y_only = Pos { x: pos.x, y: ny };
        if standable(map, blocked, direct) {
            (direct, false)
        } else if standable(map, blocked, x_only) {
            (x_only, false)
        } else if standable(map, blocked, y_only) {
            (y_only, false)
        } else {
            (pos, false)
        }
    }
}

/// Advance `pos` one tick toward `dest` at `speed` fix units per tick.
///
/// Returns the new position and whether the unit arrived (reached `dest`
/// within one step). A blocked direct step slides along one axis (x first);
/// a fully blocked step stays put. Positions outside the world border are
/// treated as blocked.
pub fn step_towards(map: &GameMap, blocked: &[bool], pos: Pos, dest: Pos, speed: Fix) -> (r: (
    Pos,
    bool,
))
    requires
        map.wf(),
        -0x8000_0000 < dest.x - pos.x < 0x8000_0000,
        -0x8000_0000 < dest.y - pos.y < 0x8000_0000,
        speed >= 0,
    ensures
        r == spec_step_towards(*map, blocked@, pos, dest, speed as int),
        r.1 == (spec_isqrt((dest.x - pos.x) * (dest.x - pos.x) + (dest.y - pos.y) * (dest.y - pos.y))
            <= speed),
        r.1 ==> r.0 == dest,
        !r.1 ==> r.0 == pos || standable(*map, blocked@, r.0),
        !r.1 ==> -speed <= r.0.x - pos.x <= speed && -speed <= r.0.y - pos.y <= speed,
        !r.1 ==> (dest.x >= pos.x ==> pos.x <= r.0.x <= dest.x) && (dest.x <= pos.x ==> dest.x <= r.0.x
            <= pos.x),
        !r.1 ==> (dest.y >= pos.y ==> pos.y <= r.0.y <= dest.y) && (dest.y <= pos.y ==> dest.y <= r.0.y
            <= pos.y),
        pos.inside() && dest.inside() ==> r.0.inside(),
{
    let dx = dest.x as i64 - pos.x as i64;
    let dy = dest.y as i64 - pos.y as i64;
    proof {
        crate::fixed::lemma_dist2_in_range(dx as int, dy as int);
    }
    let d2 = dx * dx + dy * dy;
    let dist = isqrt(d2);
    proof {
        assert(d2 >= 0) by (nonlinear_arith)
            requires
                d2 == dx * dx + dy * dy,
        ;
        lemma_isqrt_unique(d2 as int, dist as int);
    }
    if dist == 0 || dist <= speed as i64 {
        return (dest, true);
    }
    proof {
        assert(dx * dx <= d2 && dy * dy <= d2) by (nonlinear_arith)
            requires
                d2 == dx * dx + dy * dy,
        ;
        assert(d2 < (dist + 1) * (dist + 1));
        // |dx| <= dist follows from dx^2 <= d2 < (dist + 1)^2.
        lemma_square_below(dx as int, dist as int);
        lemma_square_below(dy as int, dist as int);
    }
    let step_x = step_component(dx, speed as i64, dist) as i32;
    let step_y = step_component(dy, speed as i64, dist) as i32;
    let nx = pos.x + step_x;
    let ny = pos.y + step_y;
    let direct = Pos::new(nx, ny);
    if can_stand(map, blocked, direct) {
        return (direct, false);
    }
    let x_only = Pos::new(nx, pos.y);
    if can_stand(map, blocked, x_only) {
        return (x_only, false);
    }
    let y_only = Pos::new(pos.x, ny);
    if can_stand(map, blocked, y_only) {
        return (y_only, false);
    }
    (pos, false)
}

/// Move a unit toward the first waypoint of its path; returns true once the
/// unit has reached that waypoint's tile (true at once for an empty path).
/// The path itself is left as it is: the caller pops the reached waypoint.
pub fn follow_path(map: &GameMap, unit: &mut Unit) -> (reached: bool)
    requires
        map.wf(),
        old(unit).pos.inside(),
    ensures
        final(unit).pos.inside(),
        old(unit).path@.len() == 0 ==> reached && *final(unit) == *old(unit),
        old(unit).path@.len() > 0 ==> {
            let next = old(unit).path@[0];
            let s = spec_step_towards(
                *map,
                Seq::empty(),
                old(unit).pos,
                Pos::spec_from_tile(next.0, next.1),
                spec_unit_stats(old(unit).utype).speed as int,
            );
            &&& *final(unit) == (Unit { pos: s.0, ..*old(unit) })
            &&& reached == (s.1 || s.0.spec_tile() == next)
        },
{
    if unit.path.len() == 0 {
        return true;
    }
    let next = unit.path[0];
    let dest = Pos::from_tile(next.0, next.1);
    let speed = unit_stats(unit.utype).speed;
    let (new_pos, arrived) = step_towards(map, &[], unit.pos, dest, speed);
    proof {
        let e: &[bool] = &[];
        assert(e@ =~= Seq::<bool>::empty());
    }
    unit.pos = new_pos;
    let t = unit.pos.tile();
    arrived || (t.0 == next.0 && t.1 == next.1)
}

/// Move a unit straight toward a point (no path finding); true on arrival.
pub fn move_direct(map: &GameMap, unit: &mut Unit, dest: Pos) -> (arrived: bool)
    requires
        map.wf(),
        old(unit).pos.inside(),
        dest.inside(),
    ensures
        (final(unit).pos, arrived) == spec_step_towards(
            *map,
            Seq::empty(),
            old(unit).pos,
            dest,
            spec_unit_stats(old(unit).utype).speed as int,
        ),
        *final(unit) == (Unit { pos: final(unit).pos, ..*old(unit) }),
        arrived ==> final(unit).pos == dest,
        final(unit).pos.inside(),
        final(unit).path@ == old(unit).path@,
        final(unit).id == old(unit).id,
        final(unit).hp == old(unit).hp,
        final(unit).owner == old(unit).owner,
        final(unit).utype == old(unit).utype,
{
    let speed = unit_stats(unit.utype).speed;
    let (new_pos, arrived) = step_towards(map, &[], unit.pos, dest, speed);
    unit.pos = new_pos;
    proof {
        let e: &[bool] = &[];
        assert(e@ =~= Seq::<bool>::empty());
    }
    arrived
}

/// Offsets that spread a group around its waypoint, nearest first.
pub open spec fn formation_offset(k: int) -> (int, int) {
    if k == 0 {
        (0, 0)
    } else if k == 1 {
        (1, 0)
    } else if k == 2 {
        (0, 1)
    } else if k == 3 {
        (-1, 0)
    } else if k == 4 {
        (0, -1)
    } else if k == 5 {
        (1, 1)
    } else if k == 6 {
        (-1, 1)
    } else if k == 7 {
        (1, -1)
    } else {
        (-1, -1)
    }
}

/// The `i`-th formation tile around `w`, or `w` when that tile is off the
/// map, impassable or under a building.
pub open spec fn spec_formation_tile(w: (u8, u8), i: int, map: GameMap, blocked: Seq<bool>) -> (
    u8,
    u8,
) {
    let (ox, oy) = formation_offset(i % 9);
    let x = w.0 + ox;
    let y = w.1 + oy;
    if x < 0 || y < 0 || x >= 64 || y >= 64 {
        w
    } else if !map.passable_at(x, y) {
        w
    } else if spec_tile_index(x, y) < blocked.len() && blocked[spec_tile_index(x, y)] {
        w
    } else {
        (x as u8, y as u8)
    }
}

/// The destination tile of the `i`-th unit of a group sent to `waypoint`:
/// the waypoint itself or one of its eight neighbors (cycling with `i`), so
/// a group does not converge on one tile. A neighbor that is off the map,
/// impassable or under a building falls back to the waypoint.
pub fn formation_tile(waypoint: (u8, u8), i: usize, map: &GameMap, blocked: &[bool]) -> (t: (u8, u8))
    requires
        map.wf(),
    ensures
        t == spec_formation_tile(waypoint, i as int, *map, blocked@),
        in_map(waypoint) ==> in_map(t),
        t == waypoint || map.open_tile(blocked@, t),
{
    let k = i % 9;
    let (ox, oy): (i32, i32) = if k == 0 {
        (0, 0)
    } else if k == 1 {
        (1, 0)
    } else if k == 2 {
        (0, 1)
    } else if k == 3 {
        (-1, 0)
    } else if k == 4 {
        (0, -1)
    } else if k == 5 {
        (1, 1)
    } else if k == 6 {
        (-1, 1)
    } else if k == 7 {
        (1, -1)
    } else {
        (-1, -1)
    };
    let x = waypoint.0 as i32 + ox;
    let y = waypoint.1 as i32 + oy;
    if x < 0 || y < 0 || x >= 64 || y >= 64 {
        return waypoint;
    }
    let t = (x as u8, y as u8);
    if !map.is_passable(t.0, t.1) {
        return waypoint;
    }
    let idx = tile_index(t.0, t.1);
    if idx < blocked.len() && blocked[idx] {
        return waypoint;
    }
    t
}

} // verus!
