//! Fog of war: per-player visibility and last-seen memory.
//!
//! [`FogView`] is the only view of the enemy the learned commander gets: it
//! carries remembered enemy positions with their last-seen tick, never the
//! live state of hidden entities.
use vstd::prelude::*;

use crate::combat::square;
use crate::entity::{
    building_stats, spec_building_stats, spec_unit_stats, unit_stats, Building, BuildingType,
    EntityId, Player, Unit, UnitType,
};
use crate::fixed::{dist2, spec_dist2, spec_fix_to_tile, spec_tile_center, Pos, FIX_SCALE};
use crate::game::{first_where, lemma_first_where, Game};
use crate::map::{in_map, spec_tile_index, tile_index, MAP_TILES};

verus! {

/// An enemy unit as last seen.
#[derive(Clone, Copy, Debug)]
pub struct RememberedUnit {
    pub id: EntityId,
    pub pos: Pos,
    pub last_seen: i32,
    pub utype: UnitType,
}

/// An enemy building as last seen.
#[derive(Clone, Copy, Debug)]
pub struct RememberedBuilding {
    pub id: EntityId,
    pub tile: (u8, u8),
    pub last_seen: i32,
    pub btype: BuildingType,
}

/// Per-player fog memory, part of the game state.
#[derive(Debug)]
pub struct FogMemory {
    pub units: Vec<RememberedUnit>,
    pub buildings: Vec<RememberedBuilding>,
    /// Ore tiles this player has ever seen.
    pub known_ore: Vec<bool>,
    /// Every tile this player has ever seen (only ever grows).
    pub explored: Vec<bool>,
}

impl FogMemory {
    pub open spec fn wf(self) -> bool {
        &&& self.known_ore@.len() == 4096
        &&& self.explored@.len() == 4096
        &&& forall|i: int| 0 <= i < self.units@.len() ==> (#[trigger] self.units@[i]).pos.inside()
        &&& forall|i: int| 0 <= i < self.buildings@.len() ==> in_map(#[trigger] self.buildings@[i].tile)
    }

    /// Nothing remembered, nothing explored.
    pub fn empty() -> (m: FogMemory)
        ensures
            m.wf(),
            m.units@.len() == 0,
            m.buildings@.len() == 0,
            forall|i: int| 0 <= i < 4096 ==> !(#[trigger] m.known_ore@[i]) && !m.explored@[i],
    {
        FogMemory {
            units: Vec::new(),
            buildings: Vec::new(),
            known_ore: vec![false; MAP_TILES],
            explored: vec![false; MAP_TILES],
        }
    }
}

impl Default for FogMemory {
    fn default() -> (m: FogMemory)
        ensures
            m.wf(),
            m.units@.len() == 0,
            m.buildings@.len() == 0,
    {
        FogMemory::empty()
    }
}

/// A copy of a list of bits.
pub fn copy_bits(v: &Vec<bool>) -> (r: Vec<bool>)
    ensures
        r@ == v@,
{
    let mut r: Vec<bool> = Vec::new();
    let mut i: usize = 0;
    while i < v.len()
        invariant
            0 <= i <= v.len(),
            r@ == v@.subrange(0, i as int),
        decreases v.len() - i,
    {
        r.push(v[i]);
        i += 1;
        assert(r@ =~= v@.subrange(0, i as int));
    }
    assert(r@ =~= v@);
    r
}

/// Ticks a hidden sighting is kept before it is forgotten (one minute).
pub const FOG_MEMORY_TICKS: i32 = 600;

/// Tile `t` (a flat index) lies within `vision` of `pos`: the distance from
/// `pos` to the tile's center is at most `vision`.
pub open spec fn sees(pos: Pos, vision: int, t: int) -> bool {
    spec_dist2(pos.x as int, pos.y as int, spec_tile_center(t % 64), spec_tile_center(t / 64))
        <= vision * vision
}

/// An alive unit of `p` sees tile `t`.
pub open spec fn unit_sees(u: Unit, p: Player, t: int) -> bool {
    u.owner == p && u.hp > 0 && sees(u.pos, spec_unit_stats(u.utype).vision as int, t)
}

/// An alive building of `p` sees tile `t`.
pub open spec fn building_sees(b: Building, p: Player, t: int) -> bool {
    &&& b.owner == p
    &&& b.hp > 0
    &&& sees(Pos::spec_from_tile(b.tile.0, b.tile.1), spec_building_stats(b.btype).vision as int, t)
}

/// Tile `t` is visible to `p` through one of the first `n` units.
pub open spec fn seen_by_units(s: Seq<Unit>, p: Player, t: int, n: int) -> bool {
    exists|i: int| 0 <= i < n && #[trigger] unit_sees(s[i], p, t)
}

/// Tile `t` is visible to `p` through one of the first `n` buildings.
pub open spec fn seen_by_buildings(s: Seq<Building>, p: Player, t: int, n: int) -> bool {
    exists|i: int| 0 <= i < n && #[trigger] building_sees(s[i], p, t)
}

/// Tile `t` is currently visible to `p`: some alive unit or building of
/// `p` sees it.
pub open spec fn visible_tile(g: Game, p: Player, t: int) -> bool {
    seen_by_units(g.units@, p, t, g.units@.len() as int) || seen_by_buildings(
        g.buildings@,
        p,
        t,
        g.buildings@.len() as int,
    )
}

/// Along one axis: a tile whose center lies within `vision` of coordinate
/// `p` lies within `vision / 256 + 1` tiles of the (clamped) tile of `p`.
proof fn lemma_axis_box(p: int, tx: int, vision: int)
    requires
        -16777216 <= p <= 16777216,
        0 < vision <= 4096,
        0 <= tx <= 63,
        (p - spec_tile_center(tx)) * (p - spec_tile_center(tx)) <= vision * vision,
    ensures
        spec_fix_to_tile(p) - (vision / 256 + 1) <= tx <= spec_fix_to_tile(p) + (vision / 256
            + 1),
{
    let d = spec_tile_center(tx) - p;
    let r = vision / 256 + 1;
    let c = spec_tile_center(tx);
    assert((p - c) * (p - c) == d * d) by (nonlinear_arith)
        requires
            d == c - p,
    ;
    assert(vision < r * 256);
    if d > vision {
        assert(d * d > vision * vision) by (nonlinear_arith)
            requires
                d > vision,
                vision > 0,
        ;
    }
    if -d > vision {
        assert(d * d > vision * vision) by (nonlinear_arith)
            requires
                -d > vision,
                vision > 0,
        ;
    }
    assert(-vision <= d <= vision);
}

/// Mark every map tile whose center lies within `vision` of `pos` visible.
pub fn mark_visible(visible: &mut Vec<bool>, pos: Pos, vision: i32)
    requires
        old(visible)@.len() == 4096,
        pos.inside(),
        0 < vision <= 4096,
    ensures
        final(visible)@.len() == 4096,
        forall|t: int|
            0 <= t < 4096 ==> #[trigger] final(visible)@[t] == (old(visible)@[t] || sees(
                pos,
                vision as int,
                t,
            )),
{
    let r: i32 = vision / FIX_SCALE + 1;
    let (cx, cy) = pos.tile();
    let x_lo: i32 = if (cx as i32) - r > 0 {
        (cx as i32) - r
    } else {
        0
    };
    let x_hi: i32 = if (cx as i32) + r < 63 {
        (cx as i32) + r
    } else {
        63
    };
    let y_lo: i32 = if (cy as i32) - r > 0 {
        (cy as i32) - r
    } else {
        0
    };
    let y_hi: i32 = if (cy as i32) + r < 63 {
        (cy as i32) + r
    } else {
        63
    };
    let v2 = square(vision);
    let mut ty: i32 = y_lo;
    while ty <= y_hi
        invariant
            visible@.len() == 4096,
            pos.inside(),
            0 <= x_lo <= 63,
            0 <= x_hi <= 63,
            x_lo <= x_hi,
            0 <= y_lo <= ty,
            y_hi <= 63,
            ty <= y_hi + 1,
            v2 == vision * vision,
            forall|t: int|
                0 <= t < 4096 ==> #[trigger] visible@[t] == (old(visible)@[t] || (y_lo <= t / 64
                    < ty && x_lo <= t % 64 <= x_hi && sees(pos, vision as int, t))),
        decreases y_hi + 1 - ty,
    {
        let mut tx: i32 = x_lo;
        while tx <= x_hi
            invariant
                visible@.len() == 4096,
                pos.inside(),
                0 <= x_lo <= tx,
                x_lo <= x_hi,
                x_hi <= 63,
                tx <= x_hi + 1,
                0 <= y_lo <= ty <= y_hi,
                y_hi <= 63,
                v2 == vision * vision,
                forall|t: int|
                    0 <= t < 4096 ==> #[trigger] visible@[t] == (old(visible)@[t] || (((y_lo <= t
                        / 64 < ty && x_lo <= t % 64 <= x_hi) || (t / 64 == ty && x_lo <= t % 64
                        < tx)) && sees(pos, vision as int, t))),
            decreases x_hi + 1 - tx,
        {
            let tc = Pos::from_tile(tx as u8, ty as u8);
            let idx = tile_index(tx as u8, ty as u8);
            assert(idx as int % 64 == tx && idx as int / 64 == ty);
            let d = dist2(pos.x, pos.y, tc.x, tc.y);
            if d <= v2 {
                visible.set(idx, true);
            }
            tx += 1;
        }
        ty += 1;
    }
    proof {
        assert forall|t: int| 0 <= t < 4096 && sees(pos, vision as int, t) implies y_lo <= t / 64
            <= y_hi && x_lo <= t % 64 <= x_hi by {
            let ddx = pos.x - spec_tile_center(t % 64);
            let ddy = pos.y - spec_tile_center(t / 64);
            assert(ddx * ddx >= 0 && ddy * ddy >= 0) by (nonlinear_arith);
            lemma_axis_box(pos.x as int, t % 64, vision as int);
            lemma_axis_box(pos.y as int, t / 64, vision as int);
        }
    }
}

impl Game {
    /// The tiles `player` sees now: every tile within the vision radius of
    /// one of its alive units or buildings.
    pub fn compute_visible(&self, player: Player) -> (r: Vec<bool>)
        requires
            self.wf(),
        ensures
            r@.len() == 4096,
            forall|t: int| 0 <= t < 4096 ==> #[trigger] r@[t] == visible_tile(*self, player, t),
    {
        let mut visible: Vec<bool> = vec![false; MAP_TILES];
        let mut i: usize = 0;
        while i < self.units.len()
            invariant
                self.wf(),
                0 <= i <= self.units@.len(),
                visible@.len() == 4096,
                forall|t: int|
                    0 <= t < 4096 ==> #[trigger] visible@[t] == seen_by_units(
                        self.units@,
                        player,
                        t,
                        i as int,
                    ),
            decreases self.units.len() - i,
        {
            let u = &self.units[i];
            assert(self.units@[i as int].wf());
            if u.owner == player && u.is_alive() {
                let ghost before = visible@;
                let vision = unit_stats(u.utype).vision;
                mark_visible(&mut visible, u.pos, vision);
                proof {
                    assert forall|t: int| 0 <= t < 4096 implies #[trigger] visible@[t]
                        == seen_by_units(self.units@, player, t, i + 1) by {
                        if visible@[t] && !before[t] {
                            assert(unit_sees(self.units@[i as int], player, t));
                        }
                        if seen_by_units(self.units@, player, t, i + 1) {
                            let j = choose|j: int|
                                0 <= j < i + 1 && #[trigger] unit_sees(self.units@[j], player, t);
                            if j < i {
                                assert(seen_by_units(self.units@, player, t, i as int));
                            }
                        }
                    }
                }
            } else {
                proof {
                    assert forall|t: int| 0 <= t < 4096 implies #[trigger] visible@[t]
                        == seen_by_units(self.units@, player, t, i + 1) by {
                        if seen_by_units(self.units@, player, t, i + 1) {
                            let j = choose|j: int|
                                0 <= j < i + 1 && #[trigger] unit_sees(self.units@[j], player, t);
                            assert(j != i);
                            assert(seen_by_units(self.units@, player, t, i as int));
                        }
                    }
                }
            }
            i += 1;
        }
        let ghost from_units = visible@;
        let mut k: usize = 0;
        while k < self.buildings.len()
            invariant
                self.wf(),
                i == self.units@.len(),
                0 <= k <= self.buildings@.len(),
                visible@.len() == 4096,
                forall|t: int|
                    0 <= t < 4096 ==> #[trigger] visible@[t] == (seen_by_units(
                        self.units@,
                        player,
                        t,
                        i as int,
                    ) || seen_by_buildings(self.buildings@, player, t, k as int)),
            decreases self.buildings.len() - k,
        {
            let b = &self.buildings[k];
            assert(self.buildings@[k as int].wf());
            if b.owner == player && b.is_alive() {
                let ghost before = visible@;
                let vision = building_stats(b.btype).vision;
                mark_visible(&mut visible, b.pos(), vision);
                proof {
                    assert forall|t: int| 0 <= t < 4096 implies #[trigger] visible@[t] == (
                    seen_by_units(self.units@, player, t, i as int) || seen_by_buildings(
                        self.buildings@,
                        player,
                        t,
                        k + 1,
                    )) by {
                        if visible@[t] && !before[t] {
                            assert(building_sees(self.buildings@[k as int], player, t));
                        }
                        if seen_by_buildings(self.buildings@, player, t, k + 1) {
                            let j = choose|j: int|
                                0 <= j < k + 1 && #[trigger] building_sees(
                                    self.buildings@[j],
                                    player,
                                    t,
                                );
                            if j < k {
                                assert(seen_by_buildings(self.buildings@, player, t, k as int));
                            }
                        }
                    }
                }
            } else {
                proof {
                    assert forall|t: int| 0 <= t < 4096 implies #[trigger] visible@[t] == (
                    seen_by_units(self.units@, player, t, i as int) || seen_by_buildings(
                        self.buildings@,
                        player,
                        t,
                        k + 1,
                    )) by {
                        if seen_by_buildings(self.buildings@, player, t, k + 1) {
                            let j = choose|j: int|
                                0 <= j < k + 1 && #[trigger] building_sees(
                                    self.buildings@[j],
                                    player,
                                    t,
                                );
                            assert(j != k);
                            assert(seen_by_buildings(self.buildings@, player, t, k as int));
                        }
                    }
                }
            }
            k += 1;
        }
        visible
    }
}


/// The flat index of the (clamped) tile a position lies in.
pub open spec fn pos_index(p: Pos) -> int {
    spec_tile_index(p.spec_tile().0 as int, p.spec_tile().1 as int)
}

/// An enemy unit standing on a visible tile.
pub open spec fn unit_in_view(u: Unit, enemy: Player, visible: Seq<bool>) -> bool {
    u.owner == enemy && visible[pos_index(u.pos)]
}

/// An enemy building on a visible tile.
pub open spec fn building_in_view(b: Building, enemy: Player, visible: Seq<bool>) -> bool {
    b.owner == enemy && visible[spec_tile_index(b.tile.0 as int, b.tile.1 as int)]
}

/// What a player records of a unit it sees at `tick`.
pub open spec fn unit_sighting(u: Unit, tick: i32) -> RememberedUnit {
    RememberedUnit { id: u.id, pos: u.pos, last_seen: tick, utype: u.utype }
}

/// What a player records of a building it sees at `tick`.
pub open spec fn building_sighting(b: Building, tick: i32) -> RememberedBuilding {
    RememberedBuilding { id: b.id, tile: b.tile, last_seen: tick, btype: b.btype }
}

/// The sightings of the enemy units in view, in list order.
pub open spec fn unit_sightings(s: Seq<Unit>, enemy: Player, visible: Seq<bool>, tick: i32) -> Seq<
    RememberedUnit,
>
    decreases s.len(),
{
    if s.len() == 0 {
        Seq::empty()
    } else {
        let prev = unit_sightings(s.drop_last(), enemy, visible, tick);
        if unit_in_view(s.last(), enemy, visible) {
            prev.push(unit_sighting(s.last(), tick))
        } else {
            prev
        }
    }
}

/// The sightings of the enemy buildings in view, in list order.
pub open spec fn building_sightings(
    s: Seq<Building>,
    enemy: Player,
    visible: Seq<bool>,
    tick: i32,
) -> Seq<RememberedBuilding>
    decreases s.len(),
{
    if s.len() == 0 {
        Seq::empty()
    } else {
        let prev = building_sightings(s.drop_last(), enemy, visible, tick);
        if building_in_view(s.last(), enemy, visible) {
            prev.push(building_sighting(s.last(), tick))
        } else {
            prev
        }
    }
}

pub open spec fn has_unit_id(s: Seq<RememberedUnit>, id: EntityId) -> bool {
    exists|i: int| 0 <= i < s.len() && #[trigger] s[i].id == id
}

pub open spec fn has_building_id(s: Seq<RememberedBuilding>, id: EntityId) -> bool {
    exists|i: int| 0 <= i < s.len() && #[trigger] s[i].id == id
}

/// A hidden sighting survives: its last-known tile is not in view and it is
/// not older than the memory timeout.
pub open spec fn keeps_unit(m: RememberedUnit, visible: Seq<bool>, tick: i32) -> bool {
    !visible[pos_index(m.pos)] && m.last_seen >= tick - FOG_MEMORY_TICKS
}

pub open spec fn keeps_building(m: RememberedBuilding, visible: Seq<bool>, tick: i32) -> bool {
    !visible[spec_tile_index(m.tile.0 as int, m.tile.1 as int)] && m.last_seen >= tick
        - FOG_MEMORY_TICKS
}

/// `base` followed by the surviving old sightings, each id once.
pub open spec fn carry_units(
    mem: Seq<RememberedUnit>,
    base: Seq<RememberedUnit>,
    visible: Seq<bool>,
    tick: i32,
) -> Seq<RememberedUnit>
    decreases mem.len(),
{
    if mem.len() == 0 {
        base
    } else {
        let prev = carry_units(mem.drop_last(), base, visible, tick);
        let m = mem.last();
        if keeps_unit(m, visible, tick) && !has_unit_id(prev, m.id) {
            prev.push(m)
        } else {
            prev
        }
    }
}

pub open spec fn carry_buildings(
    mem: Seq<RememberedBuilding>,
    base: Seq<RememberedBuilding>,
    visible: Seq<bool>,
    tick: i32,
) -> Seq<RememberedBuilding>
    decreases mem.len(),
{
    if mem.len() == 0 {
        base
    } else {
        let prev = carry_buildings(mem.drop_last(), base, visible, tick);
        let m = mem.last();
        if keeps_building(m, visible, tick) && !has_building_id(prev, m.id) {
            prev.push(m)
        } else {
            prev
        }
    }
}

/// The unit memory of `p` after observing `visible`: fresh sightings of the
/// enemy units in view, then the surviving hidden sightings.
pub open spec fn remembered_units(g: Game, p: Player, visible: Seq<bool>) -> Seq<RememberedUnit> {
    carry_units(
        g.fog[p.idx()].units@,
        unit_sightings(g.units@, p.opponent(), visible, g.tick),
        visible,
        g.tick,
    )
}

/// The building memory of `p` after observing `visible`.
pub open spec fn remembered_buildings(g: Game, p: Player, visible: Seq<bool>) -> Seq<
    RememberedBuilding,
> {
    carry_buildings(
        g.fog[p.idx()].buildings@,
        building_sightings(g.buildings@, p.opponent(), visible, g.tick),
        visible,
        g.tick,
    )
}

/// Each fresh sighting is the snapshot of an enemy unit in view.
pub proof fn lemma_unit_sightings_origin(s: Seq<Unit>, enemy: Player, visible: Seq<bool>, tick: i32)
    ensures
        forall|k: int|
            #![trigger unit_sightings(s, enemy, visible, tick)[k]]
            0 <= k < unit_sightings(s, enemy, visible, tick).len() ==> exists|i: int|
                0 <= i < s.len() && #[trigger] unit_in_view(s[i], enemy, visible)
                    && unit_sightings(s, enemy, visible, tick)[k] == unit_sighting(s[i], tick),
    decreases s.len(),
{
    if s.len() > 0 {
        lemma_unit_sightings_origin(s.drop_last(), enemy, visible, tick);
        let r = unit_sightings(s, enemy, visible, tick);
        let prev = unit_sightings(s.drop_last(), enemy, visible, tick);
        assert forall|k: int| #![trigger r[k]] 0 <= k < r.len() implies exists|i: int|
            0 <= i < s.len() && #[trigger] unit_in_view(s[i], enemy, visible) && r[k]
                == unit_sighting(s[i], tick) by {
            if k < prev.len() {
                let i = choose|i: int|
                    0 <= i < s.drop_last().len() && #[trigger] unit_in_view(
                        s.drop_last()[i],
                        enemy,
                        visible,
                    ) && prev[k] == unit_sighting(s.drop_last()[i], tick);
                assert(s[i] == s.drop_last()[i]);
            } else {
                assert(unit_in_view(s[s.len() - 1], enemy, visible));
            }
        }
    }
}

/// Each fresh building sighting is the snapshot of an enemy building in view.
pub proof fn lemma_building_sightings_origin(
    s: Seq<Building>,
    enemy: Player,
    visible: Seq<bool>,
    tick: i32,
)
    ensures
        forall|k: int|
            #![trigger building_sightings(s, enemy, visible, tick)[k]]
            0 <= k < building_sightings(s, enemy, visible, tick).len() ==> exists|i: int|
                0 <= i < s.len() && #[trigger] building_in_view(s[i], enemy, visible)
                    && building_sightings(s, enemy, visible, tick)[k] == building_sighting(
                    s[i],
                    tick,
                ),
    decreases s.len(),
{
    if s.len() > 0 {
        lemma_building_sightings_origin(s.drop_last(), enemy, visible, tick);
        let r = building_sightings(s, enemy, visible, tick);
        let prev = building_sightings(s.drop_last(), enemy, visible, tick);
        assert forall|k: int| #![trigger r[k]] 0 <= k < r.len() implies exists|i: int|
            0 <= i < s.len() && #[trigger] building_in_view(s[i], enemy, visible) && r[k]
                == building_sighting(s[i], tick) by {
            if k < prev.len() {
                let i = choose|i: int|
                    0 <= i < s.drop_last().len() && #[trigger] building_in_view(
                        s.drop_last()[i],
                        enemy,
                        visible,
                    ) && prev[k] == building_sighting(s.drop_last()[i], tick);
                assert(s[i] == s.drop_last()[i]);
            } else {
                assert(building_in_view(s[s.len() - 1], enemy, visible));
            }
        }
    }
}

/// Carrying forward keeps `base` as a prefix, adds only surviving old
/// sightings unchanged, and keeps every surviving id.
pub proof fn lemma_carry_units(
    mem: Seq<RememberedUnit>,
    base: Seq<RememberedUnit>,
    visible: Seq<bool>,
    tick: i32,
)
    ensures
        ({
            let r = carry_units(mem, base, visible, tick);
            &&& r.len() >= base.len()
            &&& forall|k: int| 0 <= k < base.len() ==> #[trigger] r[k] == base[k]
            &&& forall|k: int|
                #![trigger r[k]]
                base.len() <= k < r.len() ==> exists|j: int|
                    0 <= j < mem.len() && #[trigger] mem[j] == r[k] && keeps_unit(
                        mem[j],
                        visible,
                        tick,
                    )
            &&& forall|j: int|
                0 <= j < mem.len() && keeps_unit(mem[j], visible, tick) ==> has_unit_id(
                    r,
                    #[trigger] mem[j].id,
                )
        }),
    decreases mem.len(),
{
    if mem.len() > 0 {
        let d = mem.drop_last();
        lemma_carry_units(d, base, visible, tick);
        let prev = carry_units(d, base, visible, tick);
        let r = carry_units(mem, base, visible, tick);
        let m = mem.last();
        assert forall|k: int| #![trigger r[k]] base.len() <= k < r.len() implies exists|j: int|
            0 <= j < mem.len() && #[trigger] mem[j] == r[k] && keeps_unit(mem[j], visible, tick) by {
            if k < prev.len() {
                let j = choose|j: int|
                    0 <= j < d.len() && #[trigger] d[j] == prev[k] && keeps_unit(d[j], visible, tick);
                assert(mem[j] == d[j]);
            } else {
                assert(mem[mem.len() - 1] == r[k]);
            }
        }
        assert forall|j: int| 0 <= j < mem.len() && keeps_unit(mem[j], visible, tick) implies has_unit_id(
            r,
            #[trigger] mem[j].id,
        ) by {
            if j < d.len() {
                assert(d[j] == mem[j]);
                assert(has_unit_id(prev, d[j].id));
                let i = choose|i: int| 0 <= i < prev.len() && #[trigger] prev[i].id == d[j].id;
                assert(r[i] == prev[i]);
            } else {
                if !has_unit_id(prev, m.id) {
                    assert(r[prev.len() as int] == m);
                } else {
                    let i = choose|i: int| 0 <= i < prev.len() && #[trigger] prev[i].id == m.id;
                    assert(r[i] == prev[i]);
                }
            }
        }
    }
}

pub proof fn lemma_carry_buildings(
    mem: Seq<RememberedBuilding>,
    base: Seq<RememberedBuilding>,
    visible: Seq<bool>,
    tick: i32,
)
    ensures
        ({
            let r = carry_buildings(mem, base, visible, tick);
            &&& r.len() >= base.len()
            &&& forall|k: int| 0 <= k < base.len() ==> #[trigger] r[k] == base[k]
            &&& forall|k: int|
                #![trigger r[k]]
                base.len() <= k < r.len() ==> exists|j: int|
                    0 <= j < mem.len() && #[trigger] mem[j] == r[k] && keeps_building(
                        mem[j],
                        visible,
                        tick,
                    )
            &&& forall|j: int|
                0 <= j < mem.len() && keeps_building(mem[j], visible, tick) ==> has_building_id(
                    r,
                    #[trigger] mem[j].id,
                )
        }),
    decreases mem.len(),
{
    if mem.len() > 0 {
        let d = mem.drop_last();
        lemma_carry_buildings(d, base, visible, tick);
        let prev = carry_buildings(d, base, visible, tick);
        let r = carry_buildings(mem, base, visible, tick);
        let m = mem.last();
        assert forall|k: int| #![trigger r[k]] base.len() <= k < r.len() implies exists|j: int|
            0 <= j < mem.len() && #[trigger] mem[j] == r[k] && keeps_building(mem[j], visible, tick) by {
            if k < prev.len() {
                let j = choose|j: int|
                    0 <= j < d.len() && #[trigger] d[j] == prev[k] && keeps_building(d[j], visible, tick);
                assert(mem[j] == d[j]);
            } else {
                assert(mem[mem.len() - 1] == r[k]);
            }
        }
        assert forall|j: int| 0 <= j < mem.len() && keeps_building(mem[j], visible, tick) implies has_building_id(
            r,
            #[trigger] mem[j].id,
        ) by {
            if j < d.len() {
                assert(d[j] == mem[j]);
                assert(has_building_id(prev, d[j].id));
                let i = choose|i: int| 0 <= i < prev.len() && #[trigger] prev[i].id == d[j].id;
                assert(r[i] == prev[i]);
            } else {
                if !has_building_id(prev, m.id) {
                    assert(r[prev.len() as int] == m);
                } else {
                    let i = choose|i: int| 0 <= i < prev.len() && #[trigger] prev[i].id == m.id;
                    assert(r[i] == prev[i]);
                }
            }
        }
    }
}

fn has_unit_id_exec(s: &Vec<RememberedUnit>, id: EntityId) -> (r: bool)
    ensures
        r == has_unit_id(s@, id),
{
    let mut i: usize = 0;
    while i < s.len()
        invariant
            0 <= i <= s@.len(),
            forall|k: int| 0 <= k < i ==> #[trigger] s@[k].id != id,
        decreases s.len() - i,
    {
        if s[i].id == id {
            return true;
        }
        i += 1;
    }
    false
}

fn has_building_id_exec(s: &Vec<RememberedBuilding>, id: EntityId) -> (r: bool)
    ensures
        r == has_building_id(s@, id),
{
    let mut i: usize = 0;
    while i < s.len()
        invariant
            0 <= i <= s@.len(),
            forall|k: int| 0 <= k < i ==> #[trigger] s@[k].id != id,
        decreases s.len() - i,
    {
        if s[i].id == id {
            return true;
        }
        i += 1;
    }
    false
}

/// Everything but the fog memory of player `p` is unchanged, and the other
/// player's memory too.
pub open spec fn fog_frame(old: Game, new: Game, p: Player) -> bool {
    &&& new.units == old.units
    &&& new.buildings == old.buildings
    &&& new.map == old.map
    &&& new.config == old.config
    &&& new.ore == old.ore
    &&& new.upgrades == old.upgrades
    &&& new.tick == old.tick
    &&& new.winner == old.winner
    &&& new.win_reason == old.win_reason
    &&& new.over == old.over
    &&& new.apm == old.apm
    &&& new.next_id == old.next_id
    &&& new.events == old.events
    &&& new.dropped_commands == old.dropped_commands
    &&& new.fog[p.opponent().idx()] == old.fog[p.opponent().idx()]
}

impl Game {
    /// Fold the tiles `player` sees now into its memory. Enemy entities in
    /// view are recorded afresh; a hidden sighting is kept until its
    /// last-known tile is seen again or it is older than
    /// [`FOG_MEMORY_TICKS`], whatever happened to the entity behind the fog.
    /// Known ore and explored tiles only ever grow.
    pub fn update_memory(&mut self, player: Player, visible: &[bool])
        requires
            old(self).wf(),
            visible@.len() == 4096,
        ensures
            final(self).wf(),
            fog_frame(*old(self), *final(self), player),
            final(self).fog[player.idx()].units@ == remembered_units(*old(self), player, visible@),
            final(self).fog[player.idx()].buildings@ == remembered_buildings(
                *old(self),
                player,
                visible@,
            ),
            forall|t: int|
                0 <= t < 4096 ==> #[trigger] final(self).fog[player.idx()].known_ore@[t] == (old(
                    self,
                ).fog[player.idx()].known_ore@[t] || (visible@[t] && old(self).map.ore@[t] > 0)),
            forall|t: int|
                0 <= t < 4096 ==> #[trigger] final(self).fog[player.idx()].explored@[t] == (old(
                    self,
                ).fog[player.idx()].explored@[t] || visible@[t]),
    {
        let enemy = player.enemy();
        let tick = self.tick;
        let pi = player.index();

        let mut units: Vec<RememberedUnit> = Vec::new();
        let mut i: usize = 0;
        while i < self.units.len()
            invariant
                self.wf(),
                visible@.len() == 4096,
                0 <= i <= self.units@.len(),
                units@ == unit_sightings(self.units@.subrange(0, i as int), enemy, visible@, tick),
            decreases self.units.len() - i,
        {
            let u = &self.units[i];
            let t = u.pos.tile();
            let ghost pre = self.units@.subrange(0, i as int);
            assert(self.units@.subrange(0, i + 1).drop_last() =~= pre);
            if u.owner == enemy && visible[tile_index(t.0, t.1)] {
                units.push(RememberedUnit { id: u.id, pos: u.pos, last_seen: tick, utype: u.utype });
            }
            i += 1;
        }
        assert(self.units@.subrange(0, self.units@.len() as int) =~= self.units@);
        let ghost fresh_units = units@;
        let mut j: usize = 0;
        while j < self.fog[pi].units.len()
            invariant
                self.wf(),
                pi == player.idx(),
                visible@.len() == 4096,
                0 <= j <= self.fog[pi as int].units@.len(),
                tick == self.tick,
                units@ == carry_units(
                    self.fog[pi as int].units@.subrange(0, j as int),
                    fresh_units,
                    visible@,
                    tick,
                ),
            decreases self.fog[pi as int].units@.len() - j,
        {
            let m = self.fog[pi].units[j];
            let ghost pre = self.fog[pi as int].units@.subrange(0, j as int);
            assert(self.fog[pi as int].units@.subrange(0, j + 1).drop_last() =~= pre);
            let t = m.pos.tile();
            if !visible[tile_index(t.0, t.1)] && !has_unit_id_exec(&units, m.id) && m.last_seen
                >= tick - FOG_MEMORY_TICKS {
                units.push(m);
            }
            j += 1;
        }
        assert(self.fog[pi as int].units@.subrange(0, self.fog[pi as int].units@.len() as int)
            =~= self.fog[pi as int].units@);

        let mut buildings: Vec<RememberedBuilding> = Vec::new();
        let mut k: usize = 0;
        while k < self.buildings.len()
            invariant
                self.wf(),
                visible@.len() == 4096,
                0 <= k <= self.buildings@.len(),
                buildings@ == building_sightings(
                    self.buildings@.subrange(0, k as int),
                    enemy,
                    visible@,
                    tick,
                ),
            decreases self.buildings.len() - k,
        {
            let b = &self.buildings[k];
            assert(self.buildings@[k as int].wf());
            let ghost pre = self.buildings@.subrange(0, k as int);
            assert(self.buildings@.subrange(0, k + 1).drop_last() =~= pre);
            if b.owner == enemy && visible[tile_index(b.tile.0, b.tile.1)] {
                buildings.push(
                    RememberedBuilding { id: b.id, tile: b.tile, last_seen: tick, btype: b.btype },
                );
            }
            k += 1;
        }
        assert(self.buildings@.subrange(0, self.buildings@.len() as int) =~= self.buildings@);
        let ghost fresh_buildings = buildings@;
        let mut n: usize = 0;
        while n < self.fog[pi].buildings.len()
            invariant
                self.wf(),
                pi == player.idx(),
                visible@.len() == 4096,
                0 <= n <= self.fog[pi as int].buildings@.len(),
                tick == self.tick,
                buildings@ == carry_buildings(
                    self.fog[pi as int].buildings@.subrange(0, n as int),
                    fresh_buildings,
                    visible@,
                    tick,
                ),
            decreases self.fog[pi as int].buildings@.len() - n,
        {
            let m = self.fog[pi].buildings[n];
            let ghost pre = self.fog[pi as int].buildings@.subrange(0, n as int);
            assert(self.fog[pi as int].buildings@.subrange(0, n + 1).drop_last() =~= pre);
            assert(in_map(self.fog[pi as int].buildings@[n as int].tile));
            if !visible[tile_index(m.tile.0, m.tile.1)] && !has_building_id_exec(&buildings, m.id)
                && m.last_seen >= tick - FOG_MEMORY_TICKS {
                buildings.push(m);
            }
            n += 1;
        }
        assert(self.fog[pi as int].buildings@.subrange(
            0,
            self.fog[pi as int].buildings@.len() as int,
        ) =~= self.fog[pi as int].buildings@);
        proof {
            let g = *self;
            lemma_unit_sightings_origin(g.units@, enemy, visible@, tick);
            lemma_carry_units(g.fog[pi as int].units@, fresh_units, visible@, tick);
            lemma_building_sightings_origin(g.buildings@, enemy, visible@, tick);
            lemma_carry_buildings(g.fog[pi as int].buildings@, fresh_buildings, visible@, tick);
            assert forall|q: int| 0 <= q < units@.len() implies (#[trigger] units@[q]).pos.inside() by {
                if q < fresh_units.len() {
                    let i = choose|i: int|
                        0 <= i < g.units@.len() && #[trigger] unit_in_view(g.units@[i], enemy, visible@)
                            && fresh_units[q] == unit_sighting(g.units@[i], tick);
                    assert(g.units@[i].wf());
                } else {
                    let j = choose|j: int|
                        0 <= j < g.fog[pi as int].units@.len() && #[trigger] g.fog[pi as int].units@[j]
                            == units@[q] && keeps_unit(g.fog[pi as int].units@[j], visible@, tick);
                }
            }
            assert forall|q: int| 0 <= q < buildings@.len() implies in_map(
                #[trigger] buildings@[q].tile,
            ) by {
                if q < fresh_buildings.len() {
                    let i = choose|i: int|
                        0 <= i < g.buildings@.len() && #[trigger] building_in_view(
                            g.buildings@[i],
                            enemy,
                            visible@,
                        ) && fresh_buildings[q] == building_sighting(g.buildings@[i], tick);
                    assert(g.buildings@[i].wf());
                } else {
                    let j = choose|j: int|
                        0 <= j < g.fog[pi as int].buildings@.len()
                            && #[trigger] g.fog[pi as int].buildings@[j] == buildings@[q]
                            && keeps_building(g.fog[pi as int].buildings@[j], visible@, tick);
                }
            }
        }
        self.fog[pi].units = units;
        self.fog[pi].buildings = buildings;

        let ghost ore0 = self.fog[pi as int].known_ore@;
        let mut idx: usize = 0;
        while idx < MAP_TILES
            invariant
                self.wf(),
                pi == player.idx(),
                visible@.len() == 4096,
                0 <= idx <= 4096,
                fog_frame(*old(self), *self, player),
                self.fog[pi as int].units@ == remembered_units(*old(self), player, visible@),
                self.fog[pi as int].buildings@ == remembered_buildings(*old(self), player, visible@),
                self.fog[pi as int].explored@ == old(self).fog[pi as int].explored@,
                forall|t: int|
                    0 <= t < 4096 ==> #[trigger] self.fog[pi as int].known_ore@[t] == (ore0[t] || (
                    t < idx && visible@[t] && self.map.ore@[t] > 0)),
            decreases 4096 - idx,
        {
            if visible[idx] && self.map.ore[idx] > 0 {
                self.fog[pi].known_ore.set(idx, true);
            }
            idx += 1;
        }
        let mut e: usize = 0;
        while e < MAP_TILES
            invariant
                self.wf(),
                pi == player.idx(),
                visible@.len() == 4096,
                0 <= e <= 4096,
                fog_frame(*old(self), *self, player),
                self.fog[pi as int].units@ == remembered_units(*old(self), player, visible@),
                self.fog[pi as int].buildings@ == remembered_buildings(*old(self), player, visible@),
                forall|t: int|
                    0 <= t < 4096 ==> #[trigger] self.fog[pi as int].known_ore@[t] == (ore0[t] || (
                    visible@[t] && self.map.ore@[t] > 0)),
                forall|t: int|
                    0 <= t < 4096 ==> #[trigger] self.fog[pi as int].explored@[t] == (old(
                        self,
                    ).fog[pi as int].explored@[t] || (t < e && visible@[t])),
            decreases 4096 - e,
        {
            if visible[e] {
                self.fog[pi].explored.set(e, true);
            }
            e += 1;
        }
    }
}


/// A player's legal observation of the world at one tick.
#[derive(Debug)]
pub struct FogView {
    pub player: Player,
    /// Tiles visible now.
    pub visible: Vec<bool>,
    /// Remembered enemy units, refreshed where visible now.
    pub units: Vec<RememberedUnit>,
    /// Remembered enemy buildings, refreshed where visible now.
    pub buildings: Vec<RememberedBuilding>,
    pub known_ore: Vec<bool>,
    /// Every tile this player has ever seen.
    pub explored: Vec<bool>,
}

pub open spec fn unit_id_is(id: EntityId) -> spec_fn(RememberedUnit) -> bool {
    |m: RememberedUnit| m.id == id
}

pub open spec fn building_id_is(id: EntityId) -> spec_fn(RememberedBuilding) -> bool {
    |m: RememberedBuilding| m.id == id
}

/// Record unit `u` seen at `tick`: refresh the first entry with its id, or
/// append a new one.
pub open spec fn upsert_unit(s: Seq<RememberedUnit>, u: Unit, tick: i32) -> Seq<RememberedUnit> {
    match first_where(s, unit_id_is(u.id), 0) {
        Some(k) => s.update(
            k,
            RememberedUnit { id: s[k].id, pos: u.pos, last_seen: tick, utype: s[k].utype },
        ),
        None => s.push(unit_sighting(u, tick)),
    }
}

pub open spec fn upsert_building(s: Seq<RememberedBuilding>, b: Building, tick: i32) -> Seq<
    RememberedBuilding,
> {
    match first_where(s, building_id_is(b.id), 0) {
        Some(k) => s.update(
            k,
            RememberedBuilding { id: s[k].id, tile: b.tile, last_seen: tick, btype: s[k].btype },
        ),
        None => s.push(building_sighting(b, tick)),
    }
}

/// `base` refreshed with every enemy unit in view, in list order.
pub open spec fn upsert_units(
    base: Seq<RememberedUnit>,
    s: Seq<Unit>,
    enemy: Player,
    visible: Seq<bool>,
    tick: i32,
) -> Seq<RememberedUnit>
    decreases s.len(),
{
    if s.len() == 0 {
        base
    } else {
        let prev = upsert_units(base, s.drop_last(), enemy, visible, tick);
        if unit_in_view(s.last(), enemy, visible) {
            upsert_unit(prev, s.last(), tick)
        } else {
            prev
        }
    }
}

pub open spec fn upsert_buildings(
    base: Seq<RememberedBuilding>,
    s: Seq<Building>,
    enemy: Player,
    visible: Seq<bool>,
    tick: i32,
) -> Seq<RememberedBuilding>
    decreases s.len(),
{
    if s.len() == 0 {
        base
    } else {
        let prev = upsert_buildings(base, s.drop_last(), enemy, visible, tick);
        if building_in_view(s.last(), enemy, visible) {
            upsert_building(prev, s.last(), tick)
        } else {
            prev
        }
    }
}

/// The tiles `p` sees now, as a grid.
pub open spec fn visible_grid(g: Game, p: Player) -> Seq<bool> {
    Seq::new(4096, |t: int| visible_tile(g, p, t))
}

fn find_unit_id(s: &Vec<RememberedUnit>, id: EntityId) -> (r: Option<usize>)
    ensures
        r matches Some(k) ==> first_where(s@, unit_id_is(id), 0) == Some(k as int) && k < s@.len(),
        r is None ==> first_where(s@, unit_id_is(id), 0) is None,
{
    let mut i: usize = 0;
    while i < s.len()
        invariant
            0 <= i <= s@.len(),
            first_where(s@, unit_id_is(id), 0) == first_where(s@, unit_id_is(id), i as int),
        decreases s.len() - i,
    {
        if s[i].id == id {
            return Some(i);
        }
        i += 1;
    }
    None
}

fn find_building_id(s: &Vec<RememberedBuilding>, id: EntityId) -> (r: Option<usize>)
    ensures
        r matches Some(k) ==> first_where(s@, building_id_is(id), 0) == Some(k as int) && k
            < s@.len(),
        r is None ==> first_where(s@, building_id_is(id), 0) is None,
{
    let mut i: usize = 0;
    while i < s.len()
        invariant
            0 <= i <= s@.len(),
            first_where(s@, building_id_is(id), 0) == first_where(s@, building_id_is(id), i as int),
        decreases s.len() - i,
    {
        if s[i].id == id {
            return Some(i);
        }
        i += 1;
    }
    None
}

fn copy_remembered_units(v: &Vec<RememberedUnit>) -> (r: Vec<RememberedUnit>)
    ensures
        r@ == v@,
{
    let mut r: Vec<RememberedUnit> = Vec::new();
    let mut i: usize = 0;
    while i < v.len()
        invariant
            0 <= i <= v.len(),
            r@ == v@.subrange(0, i as int),
        decreases v.len() - i,
    {
        r.push(v[i]);
        i += 1;
        assert(r@ =~= v@.subrange(0, i as int));
    }
    assert(r@ =~= v@);
    r
}

fn copy_remembered_buildings(v: &Vec<RememberedBuilding>) -> (r: Vec<RememberedBuilding>)
    ensures
        r@ == v@,
{
    let mut r: Vec<RememberedBuilding> = Vec::new();
    let mut i: usize = 0;
    while i < v.len()
        invariant
            0 <= i <= v.len(),
            r@ == v@.subrange(0, i as int),
        decreases v.len() - i,
    {
        r.push(v[i]);
        i += 1;
        assert(r@ =~= v@.subrange(0, i as int));
    }
    assert(r@ =~= v@);
    r
}

/// Fog memory forgets nothing it should keep: after the fog phase, `p`
/// still remembers (by id) every older sighting whose last-known tile is
/// out of view and that is within the memory timeout, and it remembers the
/// enemy units and buildings it sees now first, in list order. A sighting
/// is dropped only once its tile is seen again or it has timed out.
pub proof fn law_fog_memory_retention(g: Game, p: Player, visible: Seq<bool>)
    ensures
        ({
            let mu = g.fog[p.idx()].units@;
            let seen_u = unit_sightings(g.units@, p.opponent(), visible, g.tick);
            let ru = remembered_units(g, p, visible);
            &&& ru.len() >= seen_u.len()
            &&& forall|k: int| 0 <= k < seen_u.len() ==> #[trigger] ru[k] == seen_u[k]
            &&& forall|i: int|
                0 <= i < mu.len() && keeps_unit(mu[i], visible, g.tick) ==> has_unit_id(ru, #[trigger] mu[i].id)
        }),
        ({
            let mb = g.fog[p.idx()].buildings@;
            let seen_b = building_sightings(g.buildings@, p.opponent(), visible, g.tick);
            let rb = remembered_buildings(g, p, visible);
            &&& rb.len() >= seen_b.len()
            &&& forall|k: int| 0 <= k < seen_b.len() ==> #[trigger] rb[k] == seen_b[k]
            &&& forall|i: int|
                0 <= i < mb.len() && keeps_building(mb[i], visible, g.tick) ==> has_building_id(
                    rb,
                    #[trigger] mb[i].id,
                )
        }),
{
    lemma_carry_units(
        g.fog[p.idx()].units@,
        unit_sightings(g.units@, p.opponent(), visible, g.tick),
        visible,
        g.tick,
    );
    lemma_carry_buildings(
        g.fog[p.idx()].buildings@,
        building_sightings(g.buildings@, p.opponent(), visible, g.tick),
        visible,
        g.tick,
    );
}

impl Game {
    /// Fold what each player sees now into its memory (both players).
    pub fn fog_phase(&mut self)
        requires
            old(self).wf(),
        ensures
            final(self).wf(),
            final(self).units == old(self).units,
            final(self).buildings == old(self).buildings,
            final(self).map == old(self).map,
            final(self).config == old(self).config,
            final(self).ore == old(self).ore,
            final(self).upgrades == old(self).upgrades,
            final(self).tick == old(self).tick,
            final(self).winner == old(self).winner,
            final(self).win_reason == old(self).win_reason,
            final(self).over == old(self).over,
            final(self).apm == old(self).apm,
            final(self).next_id == old(self).next_id,
            final(self).events == old(self).events,
            final(self).dropped_commands == old(self).dropped_commands,
            forall|p: Player|
                #![trigger final(self).fog[p.idx()]]
                final(self).fog[p.idx()].units@ == remembered_units(
                    *old(self),
                    p,
                    visible_grid(*old(self), p),
                ) && final(self).fog[p.idx()].buildings@ == remembered_buildings(
                    *old(self),
                    p,
                    visible_grid(*old(self), p),
                ),
            forall|p: Player, t: int|
                #![trigger final(self).fog[p.idx()].known_ore@[t]]
                0 <= t < 4096 ==> final(self).fog[p.idx()].known_ore@[t] == (old(
                    self,
                ).fog[p.idx()].known_ore@[t] || (visible_grid(*old(self), p)[t] && old(self).map.ore@[t]
                    > 0)),
            forall|p: Player, t: int|
                #![trigger final(self).fog[p.idx()].explored@[t]]
                0 <= t < 4096 ==> final(self).fog[p.idx()].explored@[t] == (old(
                    self,
                ).fog[p.idx()].explored@[t] || visible_grid(*old(self), p)[t]),
    {
        let v0 = self.compute_visible(Player::P0);
        proof {
            assert(v0@ =~= visible_grid(*old(self), Player::P0));
        }
        self.update_memory(Player::P0, v0.as_slice());
        let ghost mid = *self;
        let v1 = self.compute_visible(Player::P1);
        proof {
            assert(v1@ =~= visible_grid(*old(self), Player::P1)) by {
                assert forall|t: int| 0 <= t < 4096 implies visible_tile(mid, Player::P1, t)
                    == visible_tile(*old(self), Player::P1, t) by {}
            }
            assert(remembered_units(mid, Player::P1, v1@) == remembered_units(
                *old(self),
                Player::P1,
                v1@,
            ));
            assert(remembered_buildings(mid, Player::P1, v1@) == remembered_buildings(
                *old(self),
                Player::P1,
                v1@,
            ));
        }
        self.update_memory(Player::P1, v1.as_slice());
        proof {
            assert forall|p: Player|
                #![trigger self.fog[p.idx()]]
                self.fog[p.idx()].units@ == remembered_units(
                    *old(self),
                    p,
                    visible_grid(*old(self), p),
                ) && self.fog[p.idx()].buildings@ == remembered_buildings(
                    *old(self),
                    p,
                    visible_grid(*old(self), p),
                ) by {
                match p {
                    Player::P0 => {},
                    Player::P1 => {},
                }
            }
            assert forall|p: Player, t: int| 0 <= t < 4096 implies #[trigger] self.fog[p.idx()].known_ore@[t]
                == (old(self).fog[p.idx()].known_ore@[t] || (visible_grid(*old(self), p)[t] && old(
                self,
            ).map.ore@[t] > 0)) && self.fog[p.idx()].explored@[t] == (old(
                self,
            ).fog[p.idx()].explored@[t] || visible_grid(*old(self), p)[t]) by {
                match p {
                    Player::P0 => {},
                    Player::P1 => {},
                }
            }
        }
    }

    /// The legal observation of `player`: what it sees now, its memory
    /// refreshed with the enemy entities in view, its known ore and explored
    /// tiles.
    pub fn fog_view(&self, player: Player) -> (v: FogView)
        requires
            self.wf(),
        ensures
            v.player == player,
            v.visible@ == visible_grid(*self, player),
            v.units@ == upsert_units(
                self.fog[player.idx()].units@,
                self.units@,
                player.opponent(),
                visible_grid(*self, player),
                self.tick,
            ),
            v.buildings@ == upsert_buildings(
                self.fog[player.idx()].buildings@,
                self.buildings@,
                player.opponent(),
                visible_grid(*self, player),
                self.tick,
            ),
            v.known_ore@ == self.fog[player.idx()].known_ore@,
            v.explored@ == self.fog[player.idx()].explored@,
    {
        let visible = self.compute_visible(player);
        proof {
            assert(visible@ =~= visible_grid(*self, player));
        }
        let pi = player.index();
        let enemy = player.enemy();
        let tick = self.tick;
        let mut units = copy_remembered_units(&self.fog[pi].units);
        let ghost base_units = units@;
        let mut i: usize = 0;
        while i < self.units.len()
            invariant
                self.wf(),
                visible@.len() == 4096,
                0 <= i <= self.units@.len(),
                units@ == upsert_units(
                    base_units,
                    self.units@.subrange(0, i as int),
                    enemy,
                    visible@,
                    tick,
                ),
            decreases self.units.len() - i,
        {
            let u = &self.units[i];
            let t = u.pos.tile();
            assert(self.units@.subrange(0, i + 1).drop_last() =~= self.units@.subrange(
                0,
                i as int,
            ));
            if u.owner == enemy && visible[tile_index(t.0, t.1)] {
                match find_unit_id(&units, u.id) {
                    Some(k) => {
                        let old_m = units[k];
                        units.set(
                            k,
                            RememberedUnit {
                                id: old_m.id,
                                pos: u.pos,
                                last_seen: tick,
                                utype: old_m.utype,
                            },
                        );
                    },
                    None => {
                        units.push(
                            RememberedUnit { id: u.id, pos: u.pos, last_seen: tick, utype: u.utype },
                        );
                    },
                }
            }
            i += 1;
        }
        assert(self.units@.subrange(0, self.units@.len() as int) =~= self.units@);
        let mut buildings = copy_remembered_buildings(&self.fog[pi].buildings);
        let ghost base_buildings = buildings@;
        let mut k: usize = 0;
        while k < self.buildings.len()
            invariant
                self.wf(),
                visible@.len() == 4096,
                0 <= k <= self.buildings@.len(),
                buildings@ == upsert_buildings(
                    base_buildings,
                    self.buildings@.subrange(0, k as int),
                    enemy,
                    visible@,
                    tick,
                ),
            decreases self.buildings.len() - k,
        {
            let b = &self.buildings[k];
            assert(self.buildings@[k as int].wf());
            assert(self.buildings@.subrange(0, k + 1).drop_last() =~= self.buildings@.subrange(
                0,
                k as int,
            ));
            if b.owner == enemy && visible[tile_index(b.tile.0, b.tile.1)] {
                match find_building_id(&buildings, b.id) {
                    Some(j) => {
                        let old_m = buildings[j];
                        buildings.set(
                            j,
                            RememberedBuilding {
                                id: old_m.id,
                                tile: b.tile,
                                last_seen: tick,
                                btype: old_m.btype,
                            },
                        );
                    },
                    None => {
                        buildings.push(
                            RememberedBuilding {
                                id: b.id,
                                tile: b.tile,
                                last_seen: tick,
                                btype: b.btype,
                            },
                        );
                    },
                }
            }
            k += 1;
        }
        assert(self.buildings@.subrange(0, self.buildings@.len() as int) =~= self.buildings@);
        FogView {
            player,
            visible,
            units,
            buildings,
            known_ore: copy_bits(&self.fog[pi].known_ore),
            explored: copy_bits(&self.fog[pi].explored),
        }
    }
}

/// A player never forgets a hidden sighting by looking at the live state:
/// after a memory update, every old sighting whose last-known tile is still
/// hidden and which is within the memory timeout is still remembered, by id.
pub proof fn lemma_hidden_sightings_survive(g: Game, p: Player, visible: Seq<bool>)
    ensures
        forall|j: int|
            0 <= j < g.fog[p.idx()].units@.len() && keeps_unit(
                g.fog[p.idx()].units@[j],
                visible,
                g.tick,
            ) ==> has_unit_id(remembered_units(g, p, visible), #[trigger] g.fog[p.idx()].units@[j].id),
        forall|j: int|
            0 <= j < g.fog[p.idx()].buildings@.len() && keeps_building(
                g.fog[p.idx()].buildings@[j],
                visible,
                g.tick,
            ) ==> has_building_id(
                remembered_buildings(g, p, visible),
                #[trigger] g.fog[p.idx()].buildings@[j].id,
            ),
{
    lemma_carry_units(
        g.fog[p.idx()].units@,
        unit_sightings(g.units@, p.opponent(), visible, g.tick),
        visible,
        g.tick,
    );
    lemma_carry_buildings(
        g.fog[p.idx()].buildings@,
        building_sightings(g.buildings@, p.opponent(), visible, g.tick),
        visible,
        g.tick,
    );
}

/// Memory holds nothing about hidden entities' live state: every remembered
/// unit is either a fresh sighting of an enemy unit in view, or an old
/// sighting, unchanged, whose last-known tile is hidden.
pub proof fn lemma_memory_reveals_only_sightings(g: Game, p: Player, visible: Seq<bool>)
    ensures
        forall|k: int|
            #![trigger remembered_units(g, p, visible)[k]]
            0 <= k < remembered_units(g, p, visible).len() ==> (exists|i: int|
                0 <= i < g.units@.len() && #[trigger] unit_in_view(g.units@[i], p.opponent(), visible)
                    && remembered_units(g, p, visible)[k] == unit_sighting(g.units@[i], g.tick))
                || (exists|j: int|
                0 <= j < g.fog[p.idx()].units@.len() && #[trigger] g.fog[p.idx()].units@[j]
                    == remembered_units(g, p, visible)[k] && keeps_unit(
                    g.fog[p.idx()].units@[j],
                    visible,
                    g.tick,
                )),
        forall|k: int|
            #![trigger remembered_buildings(g, p, visible)[k]]
            0 <= k < remembered_buildings(g, p, visible).len() ==> (exists|i: int|
                0 <= i < g.buildings@.len() && #[trigger] building_in_view(
                    g.buildings@[i],
                    p.opponent(),
                    visible,
                ) && remembered_buildings(g, p, visible)[k] == building_sighting(
                    g.buildings@[i],
                    g.tick,
                )) || (exists|j: int|
                0 <= j < g.fog[p.idx()].buildings@.len() && #[trigger] g.fog[p.idx()].buildings@[j]
                    == remembered_buildings(g, p, visible)[k] && keeps_building(
                    g.fog[p.idx()].buildings@[j],
                    visible,
                    g.tick,
                )),
{
    let fu = unit_sightings(g.units@, p.opponent(), visible, g.tick);
    let fb = building_sightings(g.buildings@, p.opponent(), visible, g.tick);
    lemma_unit_sightings_origin(g.units@, p.opponent(), visible, g.tick);
    lemma_carry_units(g.fog[p.idx()].units@, fu, visible, g.tick);
    lemma_building_sightings_origin(g.buildings@, p.opponent(), visible, g.tick);
    lemma_carry_buildings(g.fog[p.idx()].buildings@, fb, visible, g.tick);
    let ru = remembered_units(g, p, visible);
    let rb = remembered_buildings(g, p, visible);
    assert forall|k: int| #![trigger ru[k]] 0 <= k < ru.len() implies (exists|i: int|
        0 <= i < g.units@.len() && #[trigger] unit_in_view(g.units@[i], p.opponent(), visible)
            && ru[k] == unit_sighting(g.units@[i], g.tick)) || (exists|j: int|
        0 <= j < g.fog[p.idx()].units@.len() && #[trigger] g.fog[p.idx()].units@[j] == ru[k]
            && keeps_unit(g.fog[p.idx()].units@[j], visible, g.tick)) by {
        if k < fu.len() {
            assert(ru[k] == fu[k]);
        }
    }
    assert forall|k: int| #![trigger rb[k]] 0 <= k < rb.len() implies (exists|i: int|
        0 <= i < g.buildings@.len() && #[trigger] building_in_view(
            g.buildings@[i],
            p.opponent(),
            visible,
        ) && rb[k] == building_sighting(g.buildings@[i], g.tick)) || (exists|j: int|
        0 <= j < g.fog[p.idx()].buildings@.len() && #[trigger] g.fog[p.idx()].buildings@[j]
            == rb[k] && keeps_building(g.fog[p.idx()].buildings@[j], visible, g.tick)) by {
        if k < fb.len() {
            assert(rb[k] == fb[k]);
        }
    }
}


/// Refreshing a view keeps every remembered position inside the world.
pub proof fn lemma_upsert_units_inside(
    base: Seq<RememberedUnit>,
    s: Seq<Unit>,
    enemy: Player,
    visible: Seq<bool>,
    tick: i32,
)
    requires
        forall|k: int| 0 <= k < base.len() ==> (#[trigger] base[k]).pos.inside(),
        forall|i: int| 0 <= i < s.len() ==> (#[trigger] s[i]).pos.inside(),
    ensures
        forall|k: int|
            0 <= k < upsert_units(base, s, enemy, visible, tick).len() ==> (
            #[trigger] upsert_units(base, s, enemy, visible, tick)[k]).pos.inside(),
    decreases s.len(),
{
    if s.len() > 0 {
        lemma_upsert_units_inside(base, s.drop_last(), enemy, visible, tick);
        let prev = upsert_units(base, s.drop_last(), enemy, visible, tick);
        let u = s.last();
        assert(u.pos.inside()) by {
            assert(s[s.len() - 1] == u);
        }
        lemma_first_where(prev, unit_id_is(u.id), 0);
    }
}

/// A view entry is a remembered entry, or carries the id, position and the
/// current tick of an enemy unit in view now.
pub open spec fn view_entry_ok(
    base: Seq<RememberedUnit>,
    s: Seq<Unit>,
    enemy: Player,
    visible: Seq<bool>,
    tick: i32,
    e: RememberedUnit,
) -> bool {
    ||| exists|j: int| 0 <= j < base.len() && #[trigger] base[j] == e
    ||| exists|i: int|
        0 <= i < s.len() && #[trigger] unit_in_view(s[i], enemy, visible) && e.id == s[i].id
            && e.pos == s[i].pos && e.last_seen == tick
}

/// The fog view reveals nothing but sightings: every enemy unit in it is an
/// entry of the player's memory, or carries the id, position and the
/// current tick of an enemy unit in view now.
pub proof fn lemma_view_reveals_only_sightings(
    base: Seq<RememberedUnit>,
    s: Seq<Unit>,
    enemy: Player,
    visible: Seq<bool>,
    tick: i32,
)
    ensures
        forall|k: int|
            0 <= k < upsert_units(base, s, enemy, visible, tick).len() ==> view_entry_ok(
                base,
                s,
                enemy,
                visible,
                tick,
                #[trigger] upsert_units(base, s, enemy, visible, tick)[k],
            ),
    decreases s.len(),
{
    let r = upsert_units(base, s, enemy, visible, tick);
    if s.len() == 0 {
        assert forall|k: int| 0 <= k < r.len() implies view_entry_ok(
            base,
            s,
            enemy,
            visible,
            tick,
            #[trigger] r[k],
        ) by {
            assert(base[k] == r[k]);
        }
    } else {
        let d = s.drop_last();
        lemma_view_reveals_only_sightings(base, d, enemy, visible, tick);
        let prev = upsert_units(base, d, enemy, visible, tick);
        let u = s.last();
        lemma_first_where(prev, unit_id_is(u.id), 0);
        assert forall|k: int| 0 <= k < r.len() implies view_entry_ok(
            base,
            s,
            enemy,
            visible,
            tick,
            #[trigger] r[k],
        ) by {
            if unit_in_view(u, enemy, visible) && (k == prev.len() || (first_where(
                prev,
                unit_id_is(u.id),
                0,
            ) == Some(k))) {
                assert(unit_in_view(s[s.len() - 1], enemy, visible));
            } else {
                assert(r[k] == prev[k]);
                assert(view_entry_ok(base, d, enemy, visible, tick, prev[k]));
                if !(exists|j: int| 0 <= j < base.len() && #[trigger] base[j] == prev[k]) {
                    let i = choose|i: int|
                        0 <= i < d.len() && #[trigger] unit_in_view(d[i], enemy, visible)
                            && prev[k].id == d[i].id && prev[k].pos == d[i].pos
                            && prev[k].last_seen == tick;
                    assert(s[i] == d[i]);
                }
            }
        }
    }
}

} // verus!
