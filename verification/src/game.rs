//! Match orchestration: the state container, lookups, command application,
//! the APM budget and the win check.
use vstd::prelude::*;

use crate::entity::{
    building_stats, spec_building_stats, spec_unit_stats, unit_stats, Building, BuildingType,
    EntityId, Player, Stance, Unit, UnitOrder, UnitType, Upgrade, DEPOSIT_PARK_TICKS,
    HARVESTER_CAPACITY,
};
use crate::fixed::{
    dist2, spec_dist2, spec_tile_center, Pos, COMMAND_TICK, MATCH_TIMEOUT_TICKS, TICKS_PER_SEC,
};
use crate::orders::Command;
use crate::orders::CommandError;
use crate::fog::FogMemory;
use crate::map::{
    gen_hq, in_map, mirror_tile, near_hq, spec_tile_index, tile_index, GameMap, MAP_TILES,
};
use crate::combat::blocked_by;
use crate::movement::{formation_tile, spec_formation_tile};
use crate::tick::{fresh_unit, spec_spawn_offset};

verus! {

/// Ore a repair costs.
pub const REPAIR_COST: i32 = 15;

/// HP a repair restores (capped at max HP).
pub const REPAIR_HP: i32 = 100;

/// Lowest HP an entity can reach before the end-of-tick sweep removes it
/// (one hit on an entity with 1 HP).
pub const HP_FLOOR: i32 = -64;

/// Largest max HP any entity has (with the HP upgrade).
pub const MAX_HP_CAP: i32 = 2000;

/// Most ore a player can bank: with every entity slot filled, a side's
/// remaining value (bank plus the cost of all it owns) still fits an `i32`.
pub const ORE_LIMIT: i32 = 1000000000;

/// Most units, and most buildings, a match can hold.
pub const MAX_ENTITIES: usize = 1000000;

/// Runtime-tunable match settings.
#[derive(Clone, Copy, Debug)]
pub struct GameConfig {
    pub max_queue: usize,
    /// Commands per minute budget (applies to every issuer, the AI included).
    pub apm_cap: u32,
    pub starting_ore: i32,
    /// Fraction of a building's cost refunded on sell (num / den).
    pub sell_refund_num: i32,
    pub sell_refund_den: i32,
    pub timeout_ticks: i32,
}

impl GameConfig {
    pub open spec fn wf(self) -> bool {
        &&& 0 <= self.starting_ore <= ORE_LIMIT
        &&& 0 <= self.sell_refund_num <= self.sell_refund_den
        &&& self.sell_refund_den > 0
        &&& self.sell_refund_num * 300 <= i32::MAX
    }

    /// Whether the settings are usable: a bank within range and a refund
    /// fraction between nothing and the full cost.
    pub fn is_valid(&self) -> (r: bool)
        ensures
            r == self.wf(),
    {
        0 <= self.starting_ore && self.starting_ore <= ORE_LIMIT && 0 <= self.sell_refund_num
            && self.sell_refund_num <= self.sell_refund_den && self.sell_refund_den > 0
            && self.sell_refund_num <= i32::MAX / 300
    }

    pub open spec fn spec_default() -> GameConfig {
        GameConfig {
            max_queue: 5,
            apm_cap: 120,
            starting_ore: 450,
            sell_refund_num: 1,
            sell_refund_den: 2,
            timeout_ticks: MATCH_TIMEOUT_TICKS,
        }
    }
}

impl Default for GameConfig {
    fn default() -> (c: GameConfig)
        ensures
            c == GameConfig::spec_default(),
            c.wf(),
    {
        GameConfig {
            max_queue: 5,
            apm_cap: 120,
            starting_ore: 450,
            sell_refund_num: 1,
            sell_refund_den: 2,
            timeout_ticks: MATCH_TIMEOUT_TICKS,
        }
    }
}

/// Token-bucket APM budget (fixed point: 1000 units buy one command).
#[derive(Clone, Copy, Debug)]
pub struct ApmBudget {
    bucket: i64,
    cap: i64,
    refill_per_tick: i64,
}

/// Budget units one command costs.
pub const APM_COST: i64 = 1000;

impl ApmBudget {
    pub closed spec fn level(self) -> i64 {
        self.bucket
    }

    pub closed spec fn capacity(self) -> i64 {
        self.cap
    }

    pub closed spec fn refill(self) -> i64 {
        self.refill_per_tick
    }

    pub open spec fn wf(self) -> bool {
        &&& 0 <= self.level() <= self.capacity()
        &&& 0 <= self.refill() <= self.capacity()
        &&& self.capacity() <= 4294967295000
    }

    /// A full bucket for `apm_cap` commands per minute, refilled every tick by
    /// one tick's share of the minute.
    pub fn new(apm_cap: u32) -> (a: ApmBudget)
        ensures
            a.wf(),
            a.capacity() == apm_cap as int * 1000,
            a.level() == a.capacity(),
            a.refill() == a.capacity() / 600,
    {
        let cap = apm_cap as i64 * APM_COST;
        ApmBudget { bucket: cap, cap, refill_per_tick: cap / (60 * TICKS_PER_SEC) as i64 }
    }

    /// Refill one tick's share, never beyond capacity.
    pub fn tick(&mut self)
        requires
            old(self).wf(),
        ensures
            final(self).wf(),
            final(self).capacity() == old(self).capacity(),
            final(self).refill() == old(self).refill(),
            final(self).level() == if old(self).level() + old(self).refill() < old(self).capacity() {
                old(self).level() + old(self).refill()
            } else {
                old(self).capacity() as int
            },
    {
        let b = self.bucket + self.refill_per_tick;
        self.bucket = if b < self.cap {
            b
        } else {
            self.cap
        };
    }

    /// Spend one command's worth if the bucket holds it.
    pub fn try_spend(&mut self) -> (ok: bool)
        requires
            old(self).wf(),
        ensures
            final(self).wf(),
            ok == (old(self).level() >= APM_COST),
            final(self).capacity() == old(self).capacity(),
            final(self).refill() == old(self).refill(),
            final(self).level() == if ok {
                old(self).level() - APM_COST
            } else {
                old(self).level() as int
            },
    {
        if self.bucket >= APM_COST {
            self.bucket -= APM_COST;
            true
        } else {
            false
        }
    }

    /// The budget units in the bucket now.
    pub fn bucket_level(&self) -> (r: i64)
        ensures
            r == self.level(),
    {
        self.bucket
    }

    /// The most the bucket holds.
    pub fn bucket_capacity(&self) -> (r: i64)
        ensures
            r == self.capacity(),
    {
        self.cap
    }

    /// The budget units added back each tick.
    pub fn refill_per_tick(&self) -> (r: i64)
        ensures
            r == self.refill(),
    {
        self.refill_per_tick
    }
}

#[derive(Clone, Copy, PartialEq, Eq, Structural, Debug)]
pub enum WinReason {
    HqDestroyed,
    Timeout,
}

#[derive(Clone, Copy, Debug)]
pub enum EventKind {
    BuildingPlaced { player: Player, btype: BuildingType, tile: (u8, u8) },
    UnitTrained { player: Player, utype: UnitType, tile: (u8, u8) },
    UnitDied { id: EntityId, owner: Player },
    BuildingDestroyed { id: EntityId, owner: Player },
    OreDeposited { player: Player, amount: i32 },
    Sold { player: Player, btype: BuildingType, refund: i32 },
    UpgradeChosen { player: Player, upgrade: Upgrade },
}

#[derive(Clone, Copy, Debug)]
pub struct GameEvent {
    pub tick: i32,
    pub kind: EventKind,
}

/// The complete match state: the only mutable root of the simulation.
#[derive(Debug)]
pub struct Game {
    pub config: GameConfig,
    pub map: GameMap,
    pub buildings: Vec<Building>,
    pub units: Vec<Unit>,
    pub ore: [i32; 2],
    pub upgrades: [Upgrade; 2],
    pub tick: i32,
    pub winner: Option<Player>,
    pub win_reason: Option<WinReason>,
    /// Whether the match reached a terminal result (kept apart from `winner`
    /// so a draw can end the match without naming a side).
    pub over: bool,
    pub apm: [ApmBudget; 2],
    pub next_id: EntityId,
    pub events: Vec<GameEvent>,
    /// Commands dropped by the APM budget, per player.
    pub dropped_commands: [u32; 2],
    /// Per-player fog-of-war memory.
    pub fog: [FogMemory; 2],
}

/// The index of the first element of `s` at or after `i` satisfying `f`.
pub open spec fn first_where<T>(s: Seq<T>, f: spec_fn(T) -> bool, i: int) -> Option<int>
    decreases s.len() - i,
{
    if i < 0 || i >= s.len() {
        None
    } else if f(s[i]) {
        Some(i)
    } else {
        first_where(s, f, i + 1)
    }
}

pub proof fn lemma_first_where<T>(s: Seq<T>, f: spec_fn(T) -> bool, i: int)
    requires
        0 <= i,
    ensures
        first_where(s, f, i) matches Some(k) ==> i <= k < s.len() && f(s[k]) && forall|j: int|
            i <= j < k ==> !f(#[trigger] s[j]),
        first_where(s, f, i) is None ==> forall|j: int| i <= j < s.len() ==> !f(#[trigger] s[j]),
    decreases s.len() - i,
{
    if i < s.len() && !f(s[i]) {
        lemma_first_where(s, f, i + 1);
    }
}

/// Which units a lookup matches.
#[derive(Clone, Copy)]
pub enum UnitQuery {
    /// The unit with this id owned by this player.
    Own(Player, EntityId),
    /// The unit with this id, any owner.
    Any(EntityId),
}

/// Which buildings a lookup matches.
#[derive(Clone, Copy)]
pub enum BuildingQuery {
    Own(Player, EntityId),
    Any(EntityId),
    /// The building standing on this tile.
    At(u8, u8),
    /// The HQ of this player.
    Hq(Player),
}

pub open spec fn unit_query(q: UnitQuery) -> spec_fn(Unit) -> bool {
    |u: Unit|
        match q {
            UnitQuery::Own(p, id) => u.id == id && u.owner == p,
            UnitQuery::Any(id) => u.id == id,
        }
}

pub open spec fn building_query(q: BuildingQuery) -> spec_fn(Building) -> bool {
    |b: Building|
        match q {
            BuildingQuery::Own(p, id) => b.id == id && b.owner == p,
            BuildingQuery::Any(id) => b.id == id,
            BuildingQuery::At(x, y) => b.tile.0 == x && b.tile.1 == y,
            BuildingQuery::Hq(p) => b.owner == p && b.btype == BuildingType::Hq && b.hp > 0,
        }
}

fn unit_matches(u: &Unit, q: UnitQuery) -> (r: bool)
    ensures
        r == unit_query(q)(*u),
{
    match q {
        UnitQuery::Own(p, id) => u.id == id && u.owner == p,
        UnitQuery::Any(id) => u.id == id,
    }
}

fn building_matches(b: &Building, q: BuildingQuery) -> (r: bool)
    ensures
        r == building_query(q)(*b),
{
    match q {
        BuildingQuery::Own(p, id) => b.id == id && b.owner == p,
        BuildingQuery::Any(id) => b.id == id,
        BuildingQuery::At(x, y) => b.tile.0 == x && b.tile.1 == y,
        BuildingQuery::Hq(p) => b.owner == p && b.btype == BuildingType::Hq && b.hp > 0,
    }
}

impl Unit {
    /// Field bounds every live-state unit keeps.
    pub open spec fn wf(self) -> bool {
        &&& HP_FLOOR <= self.hp <= self.max_hp
        &&& 0 < self.max_hp <= MAX_HP_CAP
        &&& self.pos.inside()
        &&& 0 <= self.carrying <= HARVESTER_CAPACITY
        &&& 0 <= self.cooldown <= 20
        &&& 0 <= self.mining <= HARVESTER_CAPACITY
        &&& 0 <= self.park_ticks <= DEPOSIT_PARK_TICKS
        &&& (self.order matches UnitOrder::Move { waypoint, .. } ==> waypoint.inside())
        &&& (self.order matches UnitOrder::Flee { dest } ==> dest.inside())
    }
}

impl Building {
    /// Field bounds every live-state building keeps.
    pub open spec fn wf(self) -> bool {
        &&& HP_FLOOR <= self.hp <= self.max_hp
        &&& 0 < self.max_hp <= MAX_HP_CAP
        &&& in_map(self.tile)
        &&& 0 <= self.progress <= 300
        &&& 0 <= self.cooldown <= 20
    }
}

/// Every unit of a list keeps its bounds.
pub open spec fn units_wf(s: Seq<Unit>) -> bool {
    forall|i: int| 0 <= i < s.len() ==> (#[trigger] s[i]).wf()
}

/// Every building of a list keeps its bounds.
pub open spec fn buildings_wf(s: Seq<Building>) -> bool {
    forall|i: int| 0 <= i < s.len() ==> (#[trigger] s[i]).wf()
}

impl Game {
    /// The state invariant: every entity within its bounds, banked ore never
    /// negative, grids of the right size.
    pub open spec fn wf(self) -> bool {
        &&& self.map.wf()
        &&& self.config.wf()
        &&& units_wf(self.units@)
        &&& buildings_wf(self.buildings@)
        &&& 0 <= self.ore[0] <= ORE_LIMIT
        &&& 0 <= self.ore[1] <= ORE_LIMIT
        &&& self.units@.len() <= MAX_ENTITIES
        &&& self.buildings@.len() <= MAX_ENTITIES
        &&& self.apm[0].wf()
        &&& self.apm[1].wf()
        &&& self.tick >= 0
        &&& self.fog[0].wf()
        &&& self.fog[1].wf()
    }

    pub open spec fn unit_idx(self, p: Player, id: EntityId) -> Option<int> {
        first_where(self.units@, unit_query(UnitQuery::Own(p, id)), 0)
    }

    pub open spec fn any_unit_idx(self, id: EntityId) -> Option<int> {
        first_where(self.units@, unit_query(UnitQuery::Any(id)), 0)
    }

    pub open spec fn building_idx(self, p: Player, id: EntityId) -> Option<int> {
        first_where(self.buildings@, building_query(BuildingQuery::Own(p, id)), 0)
    }

    pub open spec fn any_building_idx(self, id: EntityId) -> Option<int> {
        first_where(self.buildings@, building_query(BuildingQuery::Any(id)), 0)
    }

    pub open spec fn building_at_idx(self, tile: (u8, u8)) -> Option<int> {
        first_where(self.buildings@, building_query(BuildingQuery::At(tile.0, tile.1)), 0)
    }

    pub open spec fn hq_idx(self, p: Player) -> Option<int> {
        first_where(self.buildings@, building_query(BuildingQuery::Hq(p)), 0)
    }

    /// The first building with this id owned by `p`.
    pub open spec fn spec_building(self, p: Player, id: EntityId) -> Option<Building> {
        match self.building_idx(p, id) {
            Some(i) => Some(self.buildings@[i]),
            None => None,
        }
    }

    /// The player owns at least one building of this type.
    pub open spec fn owns_type(self, p: Player, bt: BuildingType) -> bool {
        exists|i: int|
            0 <= i < self.buildings@.len() && #[trigger] self.buildings@[i].owner == p
                && self.buildings@[i].btype == bt
    }

    pub open spec fn spec_is_over(self) -> bool {
        self.over || self.winner is Some
    }

    /// Index of the first unit a query matches.
    pub fn find_unit(&self, q: UnitQuery) -> (r: Option<usize>)
        ensures
            r matches Some(i) ==> first_where(self.units@, unit_query(q), 0) == Some(i as int),
            r is None ==> first_where(self.units@, unit_query(q), 0) is None,
            r matches Some(i) ==> i < self.units@.len() && unit_query(q)(self.units@[i as int]),
            r is None ==> forall|j: int|
                0 <= j < self.units@.len() ==> !unit_query(q)(#[trigger] self.units@[j]),
    {
        let mut i: usize = 0;
        while i < self.units.len()
            invariant
                0 <= i <= self.units@.len(),
                first_where(self.units@, unit_query(q), 0) == first_where(
                    self.units@,
                    unit_query(q),
                    i as int,
                ),
                forall|j: int| 0 <= j < i ==> !unit_query(q)(#[trigger] self.units@[j]),
            decreases self.units.len() - i,
        {
            if unit_matches(&self.units[i], q) {
                return Some(i);
            }
            i += 1;
        }
        None
    }

    /// Index of the first building a query matches.
    pub fn find_building(&self, q: BuildingQuery) -> (r: Option<usize>)
        ensures
            r matches Some(i) ==> first_where(self.buildings@, building_query(q), 0) == Some(
                i as int,
            ),
            r is None ==> first_where(self.buildings@, building_query(q), 0) is None,
            r matches Some(i) ==> i < self.buildings@.len() && building_query(q)(
                self.buildings@[i as int],
            ),
            r is None ==> forall|j: int|
                0 <= j < self.buildings@.len() ==> !building_query(q)(#[trigger] self.buildings@[j]),
    {
        let mut i: usize = 0;
        while i < self.buildings.len()
            invariant
                0 <= i <= self.buildings@.len(),
                first_where(self.buildings@, building_query(q), 0) == first_where(
                    self.buildings@,
                    building_query(q),
                    i as int,
                ),
                forall|j: int| 0 <= j < i ==> !building_query(q)(#[trigger] self.buildings@[j]),
            decreases self.buildings.len() - i,
        {
            if building_matches(&self.buildings[i], q) {
                return Some(i);
            }
            i += 1;
        }
        None
    }

    /// Per-tile overlay of tiles occupied by a building (terrain passability
    /// is separate, in [`GameMap::passable`]).
    pub fn blocked_grid(&self) -> (b: Vec<bool>)
        requires
            forall|j: int| 0 <= j < self.buildings@.len() ==> in_map(#[trigger] self.buildings@[j].tile),
        ensures
            b@.len() == 4096,
            forall|i: int|
                0 <= i < 4096 ==> (#[trigger] b@[i] <==> exists|j: int|
                    0 <= j < self.buildings@.len() && spec_tile_index(
                        #[trigger] self.buildings@[j].tile.0 as int,
                        self.buildings@[j].tile.1 as int,
                    ) == i),
    {
        let mut b: Vec<bool> = vec![false; MAP_TILES];
        let mut k: usize = 0;
        while k < self.buildings.len()
            invariant
                0 <= k <= self.buildings@.len(),
                forall|j: int| 0 <= j < self.buildings@.len() ==> in_map(#[trigger] self.buildings@[j].tile),
                b@.len() == 4096,
                forall|i: int|
                    0 <= i < 4096 ==> (#[trigger] b@[i] <==> exists|j: int|
                        0 <= j < k && spec_tile_index(
                            #[trigger] self.buildings@[j].tile.0 as int,
                            self.buildings@[j].tile.1 as int,
                        ) == i),
            decreases self.buildings.len() - k,
        {
            let t = self.buildings[k].tile;
            assert(in_map(self.buildings@[k as int].tile));
            let idx = tile_index(t.0, t.1);
            b[idx] = true;
            proof {
                assert forall|i: int| 0 <= i < 4096 implies (#[trigger] b@[i] <==> exists|j: int|
                    0 <= j < k + 1 && spec_tile_index(
                        #[trigger] self.buildings@[j].tile.0 as int,
                        self.buildings@[j].tile.1 as int,
                    ) == i) by {
                    if i == idx {
                        assert(spec_tile_index(
                            self.buildings@[k as int].tile.0 as int,
                            self.buildings@[k as int].tile.1 as int,
                        ) == i);
                    }
                }
            }
            k += 1;
        }
        b
    }

    /// Hand out the next entity id.
    pub fn alloc_id(&mut self) -> (id: EntityId)
        requires
            old(self).next_id < u32::MAX,
        ensures
            id == old(self).next_id,
            final(self).next_id == old(self).next_id + 1,
            final(self).units == old(self).units,
            final(self).buildings == old(self).buildings,
            final(self).config == old(self).config,
            final(self).map == old(self).map,
            final(self).ore == old(self).ore,
            final(self).upgrades == old(self).upgrades,
            final(self).tick == old(self).tick,
            final(self).winner == old(self).winner,
            final(self).win_reason == old(self).win_reason,
            final(self).over == old(self).over,
            final(self).apm == old(self).apm,
            final(self).events == old(self).events,
            final(self).dropped_commands == old(self).dropped_commands,
            final(self).fog == old(self).fog,
    {
        let id = self.next_id;
        self.next_id += 1;
        id
    }

    /// The unit with this id owned by `player`, if any.
    pub fn unit(&self, player: Player, id: EntityId) -> (r: Option<&Unit>)
        ensures
            r matches Some(u) ==> self.unit_idx(player, id) matches Some(i) && *u
                == self.units@[i],
            r is None ==> self.unit_idx(player, id) is None,
    {
        match self.find_unit(UnitQuery::Own(player, id)) {
            Some(i) => Some(&self.units[i]),
            None => None,
        }
    }

    /// The unit with this id owned by `player`, for mutation.
    pub fn unit_mut(&mut self, player: Player, id: EntityId) -> (r: Option<&mut Unit>)
        ensures
            old(self).unit_idx(player, id) is None ==> r is None && *final(self) == *old(self),
            old(self).unit_idx(player, id) matches Some(i) ==> (r matches Some(u) && *u
                == old(self).units@[i] && final(self).units@ == old(self).units@.update(
                i,
                *final(u),
            )),
            final(self).buildings == old(self).buildings,
            final(self).ore == old(self).ore,
            final(self).map == old(self).map,
            final(self).next_id == old(self).next_id,
    {
        match self.find_unit(UnitQuery::Own(player, id)) {
            Some(i) => Some(&mut self.units[i]),
            None => None,
        }
    }

    /// The building with this id owned by `player`, if any.
    pub fn building(&self, player: Player, id: EntityId) -> (r: Option<&Building>)
        ensures
            r matches Some(b) ==> self.building_idx(player, id) matches Some(i) && *b
                == self.buildings@[i],
            r is None ==> self.building_idx(player, id) is None,
            r matches Some(b) ==> self.spec_building(player, id) == Some(*b),
            r is None ==> self.spec_building(player, id) is None,
    {
        match self.find_building(BuildingQuery::Own(player, id)) {
            Some(i) => Some(&self.buildings[i]),
            None => None,
        }
    }

    /// The building with this id owned by `player`, for mutation.
    pub fn building_mut(&mut self, player: Player, id: EntityId) -> (r: Option<&mut Building>)
        ensures
            old(self).building_idx(player, id) is None ==> r is None && *final(self) == *old(
                self,
            ),
            old(self).building_idx(player, id) matches Some(i) ==> (r matches Some(b) && *b
                == old(self).buildings@[i] && final(self).buildings@ == old(
                self,
            ).buildings@.update(i, *final(b))),
            final(self).units == old(self).units,
            final(self).ore == old(self).ore,
            final(self).map == old(self).map,
            final(self).next_id == old(self).next_id,
    {
        match self.find_building(BuildingQuery::Own(player, id)) {
            Some(i) => Some(&mut self.buildings[i]),
            None => None,
        }
    }

    /// Any building (any owner) with this id.
    pub fn any_building(&self, id: EntityId) -> (r: Option<&Building>)
        ensures
            r matches Some(b) ==> self.any_building_idx(id) matches Some(i) && *b
                == self.buildings@[i],
            r is None ==> self.any_building_idx(id) is None,
    {
        match self.find_building(BuildingQuery::Any(id)) {
            Some(i) => Some(&self.buildings[i]),
            None => None,
        }
    }

    /// Any unit (any owner) with this id.
    pub fn any_unit(&self, id: EntityId) -> (r: Option<&Unit>)
        ensures
            r matches Some(u) ==> self.any_unit_idx(id) matches Some(i) && *u == self.units@[i],
            r is None ==> self.any_unit_idx(id) is None,
    {
        match self.find_unit(UnitQuery::Any(id)) {
            Some(i) => Some(&self.units[i]),
            None => None,
        }
    }

    /// The id of the building standing on `tile`, if any.
    pub fn building_at(&self, tile: (u8, u8)) -> (r: Option<EntityId>)
        ensures
            r matches Some(id) ==> self.building_at_idx(tile) matches Some(i) && id
                == self.buildings@[i].id,
            r is None ==> self.building_at_idx(tile) is None,
    {
        match self.find_building(BuildingQuery::At(tile.0, tile.1)) {
            Some(i) => Some(self.buildings[i].id),
            None => None,
        }
    }

    /// The HQ building of a player, if it still stands (hp above zero).
    pub fn hq(&self, player: Player) -> (r: Option<&Building>)
        ensures
            r matches Some(b) ==> self.hq_idx(player) matches Some(i) && *b == self.buildings@[i],
            r is None ==> self.hq_idx(player) is None,
            r matches Some(b) ==> b.owner == player && b.btype == BuildingType::Hq && b.hp > 0,
            r is None <==> forall|j: int|
                0 <= j < self.buildings@.len() ==> !(#[trigger] self.buildings@[j].owner == player
                    && self.buildings@[j].btype == BuildingType::Hq && self.buildings@[j].hp > 0),
    {
        match self.find_building(BuildingQuery::Hq(player)) {
            Some(i) => Some(&self.buildings[i]),
            None => None,
        }
    }

    /// Record an event at the current tick.
    pub fn push_event(&mut self, kind: EventKind)
        ensures
            final(self).events@ == old(self).events@.push(GameEvent { tick: old(self).tick, kind }),
            final(self).units == old(self).units,
            final(self).buildings == old(self).buildings,
            final(self).config == old(self).config,
            final(self).map == old(self).map,
            final(self).ore == old(self).ore,
            final(self).upgrades == old(self).upgrades,
            final(self).tick == old(self).tick,
            final(self).winner == old(self).winner,
            final(self).win_reason == old(self).win_reason,
            final(self).over == old(self).over,
            final(self).apm == old(self).apm,
            final(self).next_id == old(self).next_id,
            final(self).dropped_commands == old(self).dropped_commands,
            final(self).fog == old(self).fog,
    {
        let tick = self.tick;
        self.events.push(GameEvent { tick, kind });
    }
}


/// Total cost of a player's units.
pub open spec fn unit_value(s: Seq<Unit>, p: Player) -> int
    decreases s.len(),
{
    if s.len() == 0 {
        0
    } else {
        unit_value(s.drop_last(), p) + if s.last().owner == p {
            spec_unit_stats(s.last().utype).cost as int
        } else {
            0
        }
    }
}

/// Total cost of a player's buildings.
pub open spec fn building_value(s: Seq<Building>, p: Player) -> int
    decreases s.len(),
{
    if s.len() == 0 {
        0
    } else {
        building_value(s.drop_last(), p) + if s.last().owner == p {
            spec_building_stats(s.last().btype).cost as int
        } else {
            0
        }
    }
}

/// With no units and no buildings, a player's timeout score is its bank.
pub proof fn law_remaining_value_bank_only(g: Game, p: Player)
    requires
        g.units@.len() == 0,
        g.buildings@.len() == 0,
    ensures
        g.spec_remaining_value(p) == g.ore[p.idx()],
{
}

/// The timeout score counts every unit at its cost: one more unit raises
/// its owner's score by the unit type's cost and leaves the other player's
/// score as it was.
pub proof fn law_remaining_value_counts_units(g1: Game, g2: Game, u: Unit, p: Player)
    requires
        g2.ore == g1.ore,
        g2.buildings@ == g1.buildings@,
        g2.units@ == g1.units@.push(u),
    ensures
        u.owner == p ==> g2.spec_remaining_value(p) == g1.spec_remaining_value(p) + spec_unit_stats(
            u.utype,
        ).cost,
        u.owner != p ==> g2.spec_remaining_value(p) == g1.spec_remaining_value(p),
{
    assert(g2.units@.drop_last() =~= g1.units@);
}

/// The timeout score counts every building at its cost: one more building
/// raises its owner's score by the building type's cost and leaves the other
/// player's score as it was.
pub proof fn law_remaining_value_counts_buildings(g1: Game, g2: Game, b: Building, p: Player)
    requires
        g2.ore == g1.ore,
        g2.units@ == g1.units@,
        g2.buildings@ == g1.buildings@.push(b),
    ensures
        b.owner == p ==> g2.spec_remaining_value(p) == g1.spec_remaining_value(p)
            + spec_building_stats(b.btype).cost,
        b.owner != p ==> g2.spec_remaining_value(p) == g1.spec_remaining_value(p),
{
    assert(g2.buildings@.drop_last() =~= g1.buildings@);
}

/// Power produced by a player's alive buildings.
pub open spec fn power_produced(s: Seq<Building>, p: Player) -> int
    decreases s.len(),
{
    if s.len() == 0 {
        0
    } else {
        power_produced(s.drop_last(), p) + if s.last().owner == p && s.last().hp > 0
            && spec_building_stats(s.last().btype).power > 0 {
            spec_building_stats(s.last().btype).power as int
        } else {
            0
        }
    }
}

/// Power consumed by a player's alive buildings.
pub open spec fn power_consumed(s: Seq<Building>, p: Player) -> int
    decreases s.len(),
{
    if s.len() == 0 {
        0
    } else {
        power_consumed(s.drop_last(), p) + if s.last().owner == p && s.last().hp > 0
            && spec_building_stats(s.last().btype).power < 0 {
            -spec_building_stats(s.last().btype).power
        } else {
            0
        }
    }
}

/// The elements of `s` satisfying `keep`, in order.
pub open spec fn keep_where<T>(s: Seq<T>, keep: spec_fn(T) -> bool) -> Seq<T>
    decreases s.len(),
{
    if s.len() == 0 {
        s
    } else if keep(s.last()) {
        keep_where(s.drop_last(), keep).push(s.last())
    } else {
        keep_where(s.drop_last(), keep)
    }
}

pub proof fn lemma_keep_where<T>(s: Seq<T>, keep: spec_fn(T) -> bool)
    ensures
        keep_where(s, keep).len() <= s.len(),
        forall|i: int|
            0 <= i < keep_where(s, keep).len() ==> keep(#[trigger] keep_where(s, keep)[i]),
        forall|i: int|
            0 <= i < keep_where(s, keep).len() ==> s.contains(#[trigger] keep_where(s, keep)[i]),
    decreases s.len(),
{
    if s.len() > 0 {
        lemma_keep_where(s.drop_last(), keep);
        let k = keep_where(s.drop_last(), keep);
        assert forall|i: int| 0 <= i < keep_where(s, keep).len() implies s.contains(
            #[trigger] keep_where(s, keep)[i],
        ) by {
            if i < k.len() {
                let x = k[i];
                assert(s.drop_last().contains(x));
                let j = choose|j: int| 0 <= j < s.drop_last().len() && s.drop_last()[j] == x;
                assert(s[j] == x);
            } else {
                assert(s[s.len() - 1] == s.last());
            }
        }
    }
}

/// Appending one element to the scanned prefix.
pub proof fn lemma_keep_where_step<T>(s: Seq<T>, keep: spec_fn(T) -> bool, j: int)
    requires
        0 <= j < s.len(),
    ensures
        keep(s[j]) ==> keep_where(s.subrange(0, j + 1), keep) == keep_where(
            s.subrange(0, j),
            keep,
        ).push(s[j]),
        !keep(s[j]) ==> keep_where(s.subrange(0, j + 1), keep) == keep_where(
            s.subrange(0, j),
            keep,
        ),
{
    assert(s.subrange(0, j + 1).drop_last() =~= s.subrange(0, j));
}

/// Which buildings a removal pass keeps.
#[derive(Clone, Copy)]
pub enum BuildingKeep {
    /// Those whose id differs from this one.
    NotId(EntityId),
    /// Those still alive.
    Alive,
}

pub open spec fn building_keep(k: BuildingKeep) -> spec_fn(Building) -> bool {
    |b: Building|
        match k {
            BuildingKeep::NotId(id) => b.id != id,
            BuildingKeep::Alive => b.hp > 0,
        }
}

/// The buildings of a list whose id differs from `id`, in order.
pub open spec fn without_id(s: Seq<Building>, id: EntityId) -> Seq<Building> {
    keep_where(s, building_keep(BuildingKeep::NotId(id)))
}

/// Units still alive.
pub open spec fn unit_alive() -> spec_fn(Unit) -> bool {
    |u: Unit| u.hp > 0
}

/// Remove, in place and in order, the buildings a pass does not keep.
pub fn retain_buildings(v: &mut Vec<Building>, k: BuildingKeep)
    ensures
        final(v)@ == keep_where(old(v)@, building_keep(k)),
{
    let ghost orig = v@;
    let ghost mut j: int = 0;
    let mut i: usize = 0;
    assert(orig.subrange(0, 0) =~= Seq::<Building>::empty());
    assert(v@ =~= keep_where(orig.subrange(0, 0), building_keep(k)) + orig.subrange(0, orig.len() as int));
    while i < v.len()
        invariant
            0 <= j <= orig.len(),
            i == keep_where(orig.subrange(0, j), building_keep(k)).len(),
            v@ == keep_where(orig.subrange(0, j), building_keep(k)) + orig.subrange(j, orig.len() as int),
        decreases v@.len() - i,
    {
        proof {
            lemma_keep_where_step(orig, building_keep(k), j);
            assert(v@[i as int] == orig[j]);
        }
        let keep = match k {
            BuildingKeep::NotId(id) => v[i].id != id,
            BuildingKeep::Alive => v[i].hp > 0,
        };
        if keep {
            i += 1;
        } else {
            v.remove(i);
        }
        proof {
            j = j + 1;
            assert(v@ =~= keep_where(orig.subrange(0, j), building_keep(k)) + orig.subrange(j, orig.len() as int));
        }
    }
    proof {
        assert(orig.subrange(0, orig.len() as int) =~= orig);
        assert(v@ =~= keep_where(orig, building_keep(k)));
    }
}

/// Remove, in place and in order, the dead units.
pub fn retain_alive_units(v: &mut Vec<Unit>)
    ensures
        final(v)@ == keep_where(old(v)@, unit_alive()),
{
    let ghost orig = v@;
    let ghost mut j: int = 0;
    let mut i: usize = 0;
    assert(orig.subrange(0, 0) =~= Seq::<Unit>::empty());
    assert(v@ =~= keep_where(orig.subrange(0, 0), unit_alive()) + orig.subrange(0, orig.len() as int));
    while i < v.len()
        invariant
            0 <= j <= orig.len(),
            i == keep_where(orig.subrange(0, j), unit_alive()).len(),
            v@ == keep_where(orig.subrange(0, j), unit_alive()) + orig.subrange(j, orig.len() as int),
        decreases v@.len() - i,
    {
        proof {
            lemma_keep_where_step(orig, unit_alive(), j);
            assert(v@[i as int] == orig[j]);
        }
        if v[i].hp > 0 {
            i += 1;
        } else {
            v.remove(i);
        }
        proof {
            j = j + 1;
            assert(v@ =~= keep_where(orig.subrange(0, j), unit_alive()) + orig.subrange(j, orig.len() as int));
        }
    }
    proof {
        assert(orig.subrange(0, orig.len() as int) =~= orig);
        assert(v@ =~= keep_where(orig, unit_alive()));
    }
}

/// Filtering a well-formed list keeps it well-formed.
pub proof fn lemma_keep_buildings_wf(s: Seq<Building>, keep: spec_fn(Building) -> bool)
    requires
        buildings_wf(s),
    ensures
        buildings_wf(keep_where(s, keep)),
{
    lemma_keep_where(s, keep);
    assert forall|i: int| 0 <= i < keep_where(s, keep).len() implies (
    #[trigger] keep_where(s, keep)[i]).wf() by {
        let x = keep_where(s, keep)[i];
        assert(s.contains(x));
        let j = choose|j: int| 0 <= j < s.len() && s[j] == x;
        assert(s[j].wf());
    }
}

/// Filtering a well-formed list keeps it well-formed.
pub proof fn lemma_keep_units_wf(s: Seq<Unit>, keep: spec_fn(Unit) -> bool)
    requires
        units_wf(s),
    ensures
        units_wf(keep_where(s, keep)),
{
    lemma_keep_where(s, keep);
    assert forall|i: int| 0 <= i < keep_where(s, keep).len() implies (
    #[trigger] keep_where(s, keep)[i]).wf() by {
        let x = keep_where(s, keep)[i];
        assert(s.contains(x));
        let j = choose|j: int| 0 <= j < s.len() && s[j] == x;
        assert(s[j].wf());
    }
}

/// Two lists on which a predicate agrees position by position have the same
/// first match.
pub proof fn lemma_first_where_agree<T>(s1: Seq<T>, s2: Seq<T>, f: spec_fn(T) -> bool, i: int)
    requires
        s1.len() == s2.len(),
        forall|j: int| 0 <= j < s1.len() ==> f(#[trigger] s1[j]) == f(s2[j]),
    ensures
        first_where(s1, f, i) == first_where(s2, f, i),
    decreases s1.len() - i,
{
    if 0 <= i < s1.len() {
        lemma_first_where_agree(s1, s2, f, i + 1);
    }
}

/// A building just placed: full HP, nothing queued.
pub open spec fn fresh_building(
    b: Building,
    id: EntityId,
    owner: Player,
    btype: BuildingType,
    tile: (u8, u8),
) -> bool {
    &&& b.id == id
    &&& b.owner == owner
    &&& b.btype == btype
    &&& b.tile == tile
    &&& b.hp == spec_building_stats(btype).hp
    &&& b.max_hp == spec_building_stats(btype).hp
    &&& b.queue@.len() == 0
    &&& b.progress == 0
    &&& b.rally is None
    &&& b.cooldown == 0
}

/// `v` is `u` with only its orders changed.
pub open spec fn keeps_body(u: Unit, v: Unit) -> bool {
    &&& v.id == u.id
    &&& v.owner == u.owner
    &&& v.utype == u.utype
    &&& v.pos == u.pos
    &&& v.hp == u.hp
    &&& v.max_hp == u.max_hp
    &&& v.carrying == u.carrying
    &&& v.cooldown == u.cooldown
    &&& v.mining == u.mining
    &&& v.park_ticks == u.park_ticks
    &&& v.harvest_tile == u.harvest_tile
    &&& v.refinery == u.refinery
}

/// `v` is `u` of game `g` sent with `stance` as the `q`-th listed unit of a
/// group move to `waypoint`: it takes the breadth-first path (over the
/// tiles free of buildings) from its tile to its formation tile around the
/// waypoint, a route whenever one exists and empty otherwise, and heads for
/// the path's last tile, or for the waypoint itself when the path is empty.
pub open spec fn sent_moving(g: Game, u: Unit, v: Unit, stance: Stance, waypoint: (u8, u8), q: int) -> bool {
    let blocked = blocked_by(g);
    let goal = spec_formation_tile(waypoint, q, g.map, blocked);
    let from = u.pos.spec_tile();
    &&& keeps_body(u, v)
    &&& v.stance == stance
    &&& v.target is None
    &&& !v.fleeing
    &&& v.path@ == match g.map.spec_find_path(from, goal, blocked) {
        Some(r) => r,
        None => Seq::empty(),
    }
    &&& if exists|r: Seq<(u8, u8)>| #[trigger] g.map.is_route(blocked, from, r, goal) {
        g.map.is_route(blocked, from, v.path@, goal)
    } else {
        v.path@.len() == 0
    }
    &&& v.order == UnitOrder::Move {
        waypoint: if v.path@.len() > 0 {
            Pos::spec_from_tile(v.path@.last().0, v.path@.last().1)
        } else {
            Pos::spec_from_tile(waypoint.0, waypoint.1)
        },
        stance,
    }
    &&& (v.order matches UnitOrder::Move { waypoint: w, .. } && w.inside())
}

/// Among the first `n` listed ids, the `q`-th is the last one that picks
/// unit `i` of `p`.
pub open spec fn last_pick(g: Game, p: Player, ids: Seq<EntityId>, n: int, i: int, q: int) -> bool {
    &&& 0 <= q < n
    &&& g.unit_idx(p, ids[q]) == Some(i)
    &&& forall|r: int| q < r < n ==> g.unit_idx(p, #[trigger] ids[r]) != Some(i)
}

/// The position of the last listed id that picks unit `i` of `p`.
pub open spec fn pick_of(g: Game, p: Player, ids: Seq<EntityId>, i: int) -> int {
    choose|q: int| last_pick(g, p, ids, ids.len() as int, i, q)
}

proof fn lemma_last_pick_unique(g: Game, p: Player, ids: Seq<EntityId>, n: int, i: int, q: int, r: int)
    requires
        last_pick(g, p, ids, n, i, q),
        last_pick(g, p, ids, n, i, r),
    ensures
        q == r,
{
    if q < r {
        assert(g.unit_idx(p, ids[r]) != Some(i));
    } else if r < q {
        assert(g.unit_idx(p, ids[q]) != Some(i));
    }
}

/// One of the first `n` listed ids picks unit `i` of `p`.
pub open spec fn picked(g: Game, p: Player, ids: Seq<EntityId>, n: int, i: int) -> bool {
    exists|k: int| 0 <= k < n && g.unit_idx(p, #[trigger] ids[k]) == Some(i)
}

/// After the first `n` listed ids of a group move, unit `u` (once `o`) is
/// as the last of them that picked it sent it, or unchanged if none did.
pub open spec fn moved_so_far(
    g: Game,
    p: Player,
    ids: Seq<EntityId>,
    n: int,
    i: int,
    o: Unit,
    u: Unit,
    stance: Stance,
    waypoint: (u8, u8),
) -> bool {
    if picked(g, p, ids, n, i) {
        exists|q: int| #[trigger] last_pick(g, p, ids, n, i, q) && sent_moving(g, o, u, stance, waypoint, q)
    } else {
        u == o
    }
}

/// `v` is `u` locked onto `target`.
pub open spec fn sent_attacking(u: Unit, v: Unit, target: EntityId) -> bool {
    &&& keeps_body(u, v)
    &&& v.stance == u.stance
    &&& v.order == UnitOrder::Attack { target }
    &&& v.target == Some(target)
    &&& v.path@.len() == 0
    &&& !v.fleeing
}

impl Game {
    /// Unit `i` is the unit some listed id of `p` resolves to.
    pub open spec fn selected(self, p: Player, ids: Seq<EntityId>, i: int) -> bool {
        exists|k: int| 0 <= k < ids.len() && self.unit_idx(p, #[trigger] ids[k]) == Some(i)
    }

    /// The fields no command touches.
    pub open spec fn keeps_world(self, new: Game) -> bool {
        &&& new.config == self.config
        &&& new.map == self.map
        &&& new.tick == self.tick
        &&& new.winner == self.winner
        &&& new.win_reason == self.win_reason
        &&& new.over == self.over
        &&& new.fog == self.fog
    }

    /// Units and their orders unchanged.
    pub open spec fn keeps_units(self, new: Game) -> bool {
        new.units == self.units
    }

    /// The effect of a validated command issued by `p`.
    pub open spec fn executed(self, new: Game, p: Player, cmd: Command) -> bool {
        let pi = p.idx();
        let oi = p.opponent().idx();
        &&& self.keeps_world(new)
        &&& new.ore[oi] == self.ore[oi]
        &&& match cmd {
            Command::PlaceBuilding { btype, tile, .. } => {
                &&& new.ore[pi] == self.ore[pi] - spec_building_stats(btype).cost
                &&& new.next_id == self.next_id + 1
                &&& self.keeps_units(new)
                &&& new.upgrades == self.upgrades
                &&& new.buildings@.len() == self.buildings@.len() + 1
                &&& forall|i: int|
                    0 <= i < self.buildings@.len() ==> #[trigger] new.buildings@[i]
                        == self.buildings@[i]
                &&& fresh_building(
                    new.buildings@[self.buildings@.len() as int],
                    self.next_id,
                    p,
                    btype,
                    tile,
                )
                &&& new.events@ == self.events@.push(
                    GameEvent {
                        tick: self.tick,
                        kind: EventKind::BuildingPlaced { player: p, btype, tile },
                    },
                )
            },
            Command::TrainUnit { building, utype, .. } => {
                let i = self.building_idx(p, building)->0;
                &&& new.ore[pi] == self.ore[pi] - spec_unit_stats(utype).cost
                &&& new.next_id == self.next_id
                &&& self.keeps_units(new)
                &&& new.upgrades == self.upgrades
                &&& new.events == self.events
                &&& new.buildings@.len() == self.buildings@.len()
                &&& forall|j: int|
                    0 <= j < self.buildings@.len() && j != i ==> #[trigger] new.buildings@[j]
                        == self.buildings@[j]
                &&& new.buildings@[i].queue@ == self.buildings@[i].queue@.push(utype)
                &&& new.buildings@[i].queue@.len() <= self.config.max_queue
                &&& new.buildings@[i].same(
                    Building { queue: new.buildings@[i].queue, ..self.buildings@[i] },
                )
            },
            Command::MoveGroup { units, waypoint, stance, .. } => {
                &&& new.ore == self.ore
                &&& new.next_id == self.next_id
                &&& new.buildings == self.buildings
                &&& new.upgrades == self.upgrades
                &&& new.events == self.events
                &&& new.units@.len() == self.units@.len()
                &&& forall|i: int|
                    0 <= i < self.units@.len() ==> if self.selected(p, units@, i) {
                        sent_moving(
                            self,
                            self.units@[i],
                            #[trigger] new.units@[i],
                            stance,
                            waypoint,
                            pick_of(self, p, units@, i),
                        )
                    } else {
                        new.units@[i] == self.units@[i]
                    }
            },
            Command::Attack { units, target, .. } => {
                &&& new.ore == self.ore
                &&& new.next_id == self.next_id
                &&& new.buildings == self.buildings
                &&& new.upgrades == self.upgrades
                &&& new.events == self.events
                &&& new.units@.len() == self.units@.len()
                &&& forall|i: int|
                    0 <= i < self.units@.len() ==> if self.selected(p, units@, i) {
                        sent_attacking(self.units@[i], #[trigger] new.units@[i], target)
                    } else {
                        new.units@[i] == self.units@[i]
                    }
            },
            Command::SetRally { building, waypoint, .. } => {
                let i = self.building_idx(p, building)->0;
                &&& new.ore == self.ore
                &&& new.next_id == self.next_id
                &&& self.keeps_units(new)
                &&& new.upgrades == self.upgrades
                &&& new.events == self.events
                &&& new.buildings@ == self.buildings@.update(
                    i,
                    Building { rally: Some(waypoint), ..self.buildings@[i] },
                )
            },
            Command::ChooseUpgrade { upgrade, .. } => {
                &&& new.ore == self.ore
                &&& new.next_id == self.next_id
                &&& self.keeps_units(new)
                &&& new.buildings == self.buildings
                &&& new.upgrades[pi] == upgrade
                &&& new.upgrades[oi] == self.upgrades[oi]
                &&& new.events@ == self.events@.push(
                    GameEvent {
                        tick: self.tick,
                        kind: EventKind::UpgradeChosen { player: p, upgrade },
                    },
                )
            },
            Command::Sell { building, .. } => {
                let b = self.buildings@[self.building_idx(p, building)->0];
                let refund = spec_building_stats(b.btype).cost * self.config.sell_refund_num
                    / (self.config.sell_refund_den as int);
                &&& new.ore[pi] == self.ore[pi] + refund
                &&& new.next_id == self.next_id
                &&& self.keeps_units(new)
                &&& new.upgrades == self.upgrades
                &&& new.buildings@ == without_id(self.buildings@, building)
                &&& new.events@ == self.events@.push(
                    GameEvent {
                        tick: self.tick,
                        kind: EventKind::Sold { player: p, btype: b.btype, refund: refund as i32 },
                    },
                )
            },
            Command::Repair { building, .. } => {
                let i = self.building_idx(p, building)->0;
                let b = self.buildings@[i];
                &&& new.ore[pi] == self.ore[pi] - REPAIR_COST
                &&& new.next_id == self.next_id
                &&& self.keeps_units(new)
                &&& new.upgrades == self.upgrades
                &&& new.events == self.events
                &&& new.buildings@ == self.buildings@.update(
                    i,
                    Building {
                        hp: if b.hp + REPAIR_HP < b.max_hp {
                            (b.hp + REPAIR_HP) as i32
                        } else {
                            b.max_hp
                        },
                        ..b
                    },
                )
            },
        }
    }

    /// What applying one command does: a command of another player, or one
    /// the validator rejects, changes nothing; a valid command over the APM
    /// budget is dropped and counted; otherwise it spends one command of
    /// budget and takes effect.
    pub open spec fn command_outcome(
        self,
        new: Game,
        p: Player,
        cmd: Command,
        res: Result<(), CommandError>,
    ) -> bool {
        let pi = p.idx();
        let oi = p.opponent().idx();
        if cmd.issuer() != p {
            res == Err::<(), CommandError>(CommandError::NotYourEntity) && new == self
        } else if self.spec_validate(cmd) is Err {
            res == self.spec_validate(cmd) && new == self
        } else if self.apm[pi].level() < APM_COST {
            &&& res == Err::<(), CommandError>(CommandError::RateLimited)
            &&& new.dropped_commands[pi] == self.dropped_commands[pi] + 1
            &&& new.dropped_commands[oi] == self.dropped_commands[oi]
            &&& new == Game { dropped_commands: new.dropped_commands, ..self }
        } else {
            &&& res == Ok::<(), CommandError>(())
            &&& new.dropped_commands == self.dropped_commands
            &&& new.apm[pi].level() == self.apm[pi].level() - APM_COST
            &&& new.apm[pi].capacity() == self.apm[pi].capacity()
            &&& new.apm[pi].refill() == self.apm[pi].refill()
            &&& new.apm[oi] == self.apm[oi]
            &&& self.executed(new, p, cmd)
        }
    }

    /// Enough headroom for `n` more commands of `p`: ore refunds, new
    /// buildings, ids and the dropped-command counter all stay in range.
    pub open spec fn room_for_commands(self, p: Player, n: int) -> bool {
        &&& self.ore[p.idx()] + 300 * n <= ORE_LIMIT
        &&& self.buildings@.len() + n <= MAX_ENTITIES
        &&& self.next_id + n < u32::MAX
        &&& self.dropped_commands[p.idx()] + n <= u32::MAX
    }

    /// Whether `n` more commands of `p` keep every counter in range.
    pub fn has_room_for_commands(&self, p: Player, n: usize) -> (r: bool)
        ensures
            r == self.room_for_commands(p, n as int),
    {
        if n > MAX_ENTITIES || self.buildings.len() > MAX_ENTITIES - n {
            return false;
        }
        let n64 = n as u64;
        (self.ore[p.index()] as i64) + 300 * (n64 as i64) <= ORE_LIMIT as i64 && (
        self.next_id as u64) + n64 < u32::MAX as u64 && (self.dropped_commands[p.index()] as u64)
            + n64 <= u32::MAX as u64
    }

    /// Whether the match has ended (HQ destruction or timeout).
    pub fn is_over(&self) -> (r: bool)
        ensures
            r == self.spec_is_over(),
    {
        self.over || self.winner.is_some()
    }

    /// The command tick index (0-based) of the current tick.
    pub fn command_tick_index(&self) -> (r: i32)
        requires
            self.tick >= 0,
        ensures
            r == self.tick / COMMAND_TICK,
    {
        self.tick / COMMAND_TICK
    }

    /// Whether the current tick is a command tick boundary.
    pub fn is_command_tick(&self) -> (r: bool)
        requires
            self.tick >= 0,
        ensures
            r == (self.tick % COMMAND_TICK == 0),
    {
        self.tick % COMMAND_TICK == 0
    }

    /// Banked ore plus the cost of every unit and building the player owns
    /// (the timeout score).
    pub open spec fn spec_remaining_value(self, p: Player) -> int {
        self.ore[p.idx()] + unit_value(self.units@, p) + building_value(self.buildings@, p)
    }

    pub fn remaining_value(&self, player: Player) -> (v: i32)
        requires
            self.wf(),
        ensures
            v == self.spec_remaining_value(player),
    {
        let mut value = self.ore[player.index()];
        let mut i: usize = 0;
        while i < self.units.len()
            invariant
                self.wf(),
                0 <= i <= self.units@.len(),
                value == self.ore[player.idx()] + unit_value(self.units@.subrange(0, i as int), player),
                0 <= unit_value(self.units@.subrange(0, i as int), player) <= 400 * i,
            decreases self.units.len() - i,
        {
            let u = &self.units[i];
            proof {
                assert(self.units@.subrange(0, i + 1).drop_last() =~= self.units@.subrange(
                    0,
                    i as int,
                ));
            }
            if u.owner == player {
                value = value + unit_stats(u.utype).cost;
            }
            i += 1;
        }
        proof {
            assert(self.units@.subrange(0, self.units@.len() as int) =~= self.units@);
        }
        let mut k: usize = 0;
        while k < self.buildings.len()
            invariant
                self.wf(),
                0 <= k <= self.buildings@.len(),
                value == self.ore[player.idx()] + unit_value(self.units@, player) + building_value(
                    self.buildings@.subrange(0, k as int),
                    player,
                ),
                0 <= unit_value(self.units@, player) <= 400 * self.units@.len(),
                0 <= building_value(self.buildings@.subrange(0, k as int), player) <= 300 * k,
            decreases self.buildings.len() - k,
        {
            let b = &self.buildings[k];
            proof {
                assert(self.buildings@.subrange(0, k + 1).drop_last() =~= self.buildings@.subrange(
                    0,
                    k as int,
                ));
            }
            if b.owner == player {
                value = value + building_stats(b.btype).cost;
            }
            k += 1;
        }
        proof {
            assert(self.buildings@.subrange(0, self.buildings@.len() as int) =~= self.buildings@);
        }
        value
    }

    /// `(power produced, power consumed)` by a player's alive buildings.
    pub fn power(&self, player: Player) -> (r: (i32, i32))
        requires
            self.wf(),
        ensures
            r.0 == power_produced(self.buildings@, player),
            r.1 == power_consumed(self.buildings@, player),
            r.0 >= 0 && r.1 >= 0,
    {
        let mut produced: i32 = 0;
        let mut consumed: i32 = 0;
        let mut k: usize = 0;
        while k < self.buildings.len()
            invariant
                self.wf(),
                0 <= k <= self.buildings@.len(),
                produced == power_produced(self.buildings@.subrange(0, k as int), player),
                consumed == power_consumed(self.buildings@.subrange(0, k as int), player),
                0 <= produced <= 100 * k,
                0 <= consumed <= 50 * k,
            decreases self.buildings.len() - k,
        {
            let b = &self.buildings[k];
            proof {
                assert(self.buildings@.subrange(0, k + 1).drop_last() =~= self.buildings@.subrange(
                    0,
                    k as int,
                ));
            }
            if b.owner == player && b.is_alive() {
                let stats = building_stats(b.btype);
                if stats.power > 0 {
                    produced = produced + stats.power;
                } else if stats.power < 0 {
                    consumed = consumed - stats.power;
                }
            }
            k += 1;
        }
        proof {
            assert(self.buildings@.subrange(0, self.buildings@.len() as int) =~= self.buildings@);
        }
        (produced, consumed)
    }

    /// Whether a player consumes more power than it produces.
    pub fn has_low_power(&self, player: Player) -> (r: bool)
        requires
            self.wf(),
        ensures
            r == (power_consumed(self.buildings@, player) > power_produced(self.buildings@, player)),
    {
        let (prod, cons) = self.power(player);
        cons > prod
    }

    /// A candidate refuge for fleeing units of `owner`: an alive HQ or
    /// refinery.
    pub open spec fn refuge(self, owner: Player, j: int) -> bool {
        &&& 0 <= j < self.buildings@.len()
        &&& self.buildings@[j].owner == owner
        &&& (self.buildings@[j].btype == BuildingType::Hq || self.buildings@[j].btype
            == BuildingType::Refinery)
        &&& self.buildings@[j].hp > 0
    }

    pub open spec fn refuge_dist(self, j: int, pos: Pos) -> int {
        spec_dist2(
            pos.x as int,
            pos.y as int,
            spec_tile_center(self.buildings@[j].tile.0 as int),
            spec_tile_center(self.buildings@[j].tile.1 as int),
        )
    }

    /// The nearest own alive HQ or refinery to flee toward (ties: lowest
    /// building id); `pos` itself when there is none.
    pub fn flee_dest(&self, owner: Player, pos: Pos) -> (r: Pos)
        requires
            self.wf(),
            pos.inside(),
        ensures
            r.inside(),
            (forall|j: int| !self.refuge(owner, j)) ==> r == pos,
            (exists|j: int| self.refuge(owner, j)) ==> exists|j: int|
                #![trigger self.buildings@[j]]
                self.refuge(owner, j) && r == Pos::spec_from_tile(
                    self.buildings@[j].tile.0,
                    self.buildings@[j].tile.1,
                ) && forall|k: int|
                    self.refuge(owner, k) ==> self.refuge_dist(j, pos) < self.refuge_dist(k, pos)
                        || (self.refuge_dist(j, pos) == self.refuge_dist(k, pos)
                        && self.buildings@[j].id <= self.buildings@[k].id),
    {
        let mut best: Option<(i64, EntityId, Pos, usize)> = None;
        let mut i: usize = 0;
        while i < self.buildings.len()
            invariant
                self.wf(),
                pos.inside(),
                0 <= i <= self.buildings@.len(),
                best is None ==> forall|j: int| 0 <= j < i ==> !self.refuge(owner, j),
                best matches Some((d, id, p, j)) ==> {
                    &&& j < i
                    &&& self.refuge(owner, j as int)
                    &&& d == self.refuge_dist(j as int, pos)
                    &&& id == self.buildings@[j as int].id
                    &&& p == Pos::spec_from_tile(
                        self.buildings@[j as int].tile.0,
                        self.buildings@[j as int].tile.1,
                    )
                    &&& forall|k: int|
                        0 <= k < i && self.refuge(owner, k) ==> d < self.refuge_dist(k, pos) || (d
                            == self.refuge_dist(k, pos) && id <= self.buildings@[k].id)
                },
            decreases self.buildings.len() - i,
        {
            let b = &self.buildings[i];
            if b.owner == owner && (b.btype == BuildingType::Hq || b.btype == BuildingType::Refinery)
                && b.is_alive() {
                let bp = b.pos();
                let d = dist2(pos.x, pos.y, bp.x, bp.y);
                let better = match best {
                    None => true,
                    Some((bd, bid, _, _)) => d < bd || (d == bd && b.id < bid),
                };
                if better {
                    best = Some((d, b.id, bp, i));
                }
            }
            i += 1;
        }
        match best {
            None => pos,
            Some((_, _, p, j)) => {
                assert(self.refuge(owner, j as int));
                p
            },
        }
    }

    /// The rules end the match in this position: an HQ is gone, or the
    /// timeout is reached.
    pub open spec fn end_reached(self) -> bool {
        ||| self.hq_idx(Player::P0) is None
        ||| self.hq_idx(Player::P1) is None
        ||| self.tick >= self.config.timeout_ticks
    }

    /// The winner the rules give a position where the match ends: the side
    /// whose HQ still stands when the other's is gone (none when both fell),
    /// else at the timeout the side with more remaining value (none on a tie).
    pub open spec fn rules_winner(self) -> Option<Player> {
        let p0_dead = self.hq_idx(Player::P0) is None;
        let p1_dead = self.hq_idx(Player::P1) is None;
        if p0_dead && p1_dead {
            None
        } else if p0_dead {
            Some(Player::P1)
        } else if p1_dead {
            Some(Player::P0)
        } else if self.spec_remaining_value(Player::P0) > self.spec_remaining_value(Player::P1) {
            Some(Player::P0)
        } else if self.spec_remaining_value(Player::P0) < self.spec_remaining_value(Player::P1) {
            Some(Player::P1)
        } else {
            None
        }
    }

    /// Why the rules end the match in this position.
    pub open spec fn rules_reason(self) -> WinReason {
        if self.hq_idx(Player::P0) is None || self.hq_idx(Player::P1) is None {
            WinReason::HqDestroyed
        } else {
            WinReason::Timeout
        }
    }

    /// The winner, reason and terminal flag the win check settles on.
    pub open spec fn spec_win_check(self) -> (Option<Player>, Option<WinReason>, bool) {
        let p0_dead = self.hq_idx(Player::P0) is None;
        let p1_dead = self.hq_idx(Player::P1) is None;
        if self.spec_is_over() {
            (self.winner, self.win_reason, self.over)
        } else if p0_dead && p1_dead {
            (None, Some(WinReason::HqDestroyed), true)
        } else if p0_dead {
            (Some(Player::P1), Some(WinReason::HqDestroyed), true)
        } else if p1_dead {
            (Some(Player::P0), Some(WinReason::HqDestroyed), true)
        } else if self.tick >= self.config.timeout_ticks {
            let v0 = self.spec_remaining_value(Player::P0);
            let v1 = self.spec_remaining_value(Player::P1);
            (
                if v0 > v1 {
                    Some(Player::P0)
                } else if v0 < v1 {
                    Some(Player::P1)
                } else {
                    None
                },
                Some(WinReason::Timeout),
                true,
            )
        } else {
            (self.winner, self.win_reason, self.over)
        }
    }

    /// Check and record the win condition: a destroyed HQ loses (both at
    /// once is a draw); at the timeout the higher remaining value wins (equal
    /// value is a draw). A finished match never changes its result.
    pub fn check_win(&mut self)
        requires
            old(self).wf(),
        ensures
            final(self).winner == old(self).spec_win_check().0,
            final(self).win_reason == old(self).spec_win_check().1,
            final(self).over == old(self).spec_win_check().2,
            *final(self) == (Game {
                winner: final(self).winner,
                win_reason: final(self).win_reason,
                over: final(self).over,
                ..*old(self)
            }),
            final(self).wf(),
    {
        if self.is_over() {
            return;
        }
        let p0_dead = self.hq(Player::P0).is_none();
        let p1_dead = self.hq(Player::P1).is_none();
        if p0_dead && p1_dead {
            self.winner = None;
            self.win_reason = Some(WinReason::HqDestroyed);
            self.over = true;
            return;
        }
        if p0_dead {
            self.winner = Some(Player::P1);
            self.win_reason = Some(WinReason::HqDestroyed);
            self.over = true;
            return;
        }
        if p1_dead {
            self.winner = Some(Player::P0);
            self.win_reason = Some(WinReason::HqDestroyed);
            self.over = true;
            return;
        }
        if self.tick >= self.config.timeout_ticks {
            let v0 = self.remaining_value(Player::P0);
            let v1 = self.remaining_value(Player::P1);
            self.win_reason = Some(WinReason::Timeout);
            self.winner = if v0 > v1 {
                Some(Player::P0)
            } else if v0 < v1 {
                Some(Player::P1)
            } else {
                None
            };
            self.over = true;
        }
    }
}


impl Game {
    fn exec_place(&mut self, p: Player, btype: BuildingType, tile: (u8, u8))
        requires
            old(self).wf(),
            old(self).spec_validate_place(p, btype, tile) is Ok,
            old(self).room_for_commands(p, 1),
        ensures
            final(self).wf(),
            old(self).executed(*final(self), p, Command::PlaceBuilding { player: p, btype, tile }),
            final(self).apm == old(self).apm,
            final(self).dropped_commands == old(self).dropped_commands,
            final(self).ore[p.idx()] <= old(self).ore[p.idx()] + 300,
            final(self).buildings@.len() <= old(self).buildings@.len() + 1,
            final(self).next_id <= old(self).next_id + 1,
    {
        let stats = building_stats(btype);
        let pi = p.index();
        self.ore[pi] = self.ore[pi] - stats.cost;
        let id = self.alloc_id();
        self.buildings.push(
            Building {
                id,
                owner: p,
                btype,
                tile,
                hp: stats.hp,
                max_hp: stats.hp,
                queue: Vec::new(),
                progress: 0,
                rally: None,
                cooldown: 0,
            },
        );
        self.push_event(EventKind::BuildingPlaced { player: p, btype, tile });
        proof {
            assert forall|i: int| 0 <= i < self.buildings@.len() implies (
            #[trigger] self.buildings@[i]).wf() by {
                if i < old(self).buildings@.len() {
                    assert(old(self).buildings@[i].wf());
                }
            }
        }
    }

    fn exec_train(&mut self, p: Player, building: EntityId, utype: UnitType)
        requires
            old(self).wf(),
            old(self).spec_validate_train(p, building, utype) is Ok,
        ensures
            final(self).wf(),
            old(self).executed(
                *final(self),
                p,
                Command::TrainUnit { player: p, building, utype },
            ),
            final(self).apm == old(self).apm,
            final(self).dropped_commands == old(self).dropped_commands,
            final(self).ore[p.idx()] <= old(self).ore[p.idx()] + 300,
            final(self).buildings@.len() <= old(self).buildings@.len() + 1,
            final(self).next_id <= old(self).next_id + 1,
    {
        let stats = unit_stats(utype);
        let pi = p.index();
        self.ore[pi] = self.ore[pi] - stats.cost;
        match self.find_building(BuildingQuery::Own(p, building)) {
            Some(i) => {
                self.buildings[i].queue.push(utype);
                proof {
                    assert forall|j: int| 0 <= j < self.buildings@.len() implies (
                    #[trigger] self.buildings@[j]).wf() by {
                        assert(old(self).buildings@[j].wf());
                    }
                }
            },
            None => {},
        }
    }

    fn exec_move(&mut self, p: Player, ids: &Vec<EntityId>, waypoint: (u8, u8), stance: Stance)
        requires
            old(self).wf(),
        ensures
            final(self).wf(),
            old(self).keeps_world(*final(self)),
            final(self).ore == old(self).ore,
            final(self).next_id == old(self).next_id,
            final(self).buildings == old(self).buildings,
            final(self).upgrades == old(self).upgrades,
            final(self).events == old(self).events,
            final(self).apm == old(self).apm,
            final(self).dropped_commands == old(self).dropped_commands,
            final(self).units@.len() == old(self).units@.len(),
            forall|i: int|
                0 <= i < old(self).units@.len() ==> if old(self).selected(p, ids@, i) {
                    sent_moving(
                        *old(self),
                        old(self).units@[i],
                        #[trigger] final(self).units@[i],
                        stance,
                        waypoint,
                        pick_of(*old(self), p, ids@, i),
                    )
                } else {
                    final(self).units@[i] == old(self).units@[i]
                },
    {
        let blocked = self.blocked_grid();
        let ghost g0 = *self;
        proof {
            assert(blocked@ =~= blocked_by(*self));
        }
        let ghost orig = self.units@;
        let mut k: usize = 0;
        while k < ids.len()
            invariant
                0 <= k <= ids@.len(),
                self.wf(),
                old(self).wf(),
                g0 == *old(self),
                blocked@ == blocked_by(g0),
                old(self).keeps_world(*self),
                self.ore == old(self).ore,
                self.next_id == old(self).next_id,
                self.buildings == old(self).buildings,
                self.upgrades == old(self).upgrades,
                self.events == old(self).events,
                self.apm == old(self).apm,
                self.dropped_commands == old(self).dropped_commands,
                orig == old(self).units@,
                self.units@.len() == orig.len(),
                forall|i: int|
                    0 <= i < orig.len() ==> keeps_body(orig[i], #[trigger] self.units@[i]),
                forall|i: int|
                    0 <= i < orig.len() ==> #[trigger] moved_so_far(
                        g0,
                        p,
                        ids@,
                        k as int,
                        i,
                        orig[i],
                        self.units@[i],
                        stance,
                        waypoint,
                    ),
            decreases ids.len() - k,
        {
            proof {
                lemma_first_where_agree(
                    self.units@,
                    orig,
                    unit_query(UnitQuery::Own(p, ids@[k as int])),
                    0,
                );
            }
            let ghost before = self.units@;
            match self.find_unit(UnitQuery::Own(p, ids[k])) {
                Some(i) => {
                    let tile = formation_tile(waypoint, k, &self.map, &blocked);
                    let start = self.units[i].pos.tile();
                    let found = self.map.find_path(start, tile, &blocked);
                    let path = match found {
                        Some(pp) => pp,
                        None => Vec::new(),
                    };
                    let dest = if path.len() > 0 {
                        let t = path[path.len() - 1];
                        Pos::from_tile(t.0, t.1)
                    } else {
                        Pos::from_tile(waypoint.0, waypoint.1)
                    };
                    let ghost gpath = path@;
                    self.units[i].stance = stance;
                    self.units[i].order = UnitOrder::Move { waypoint: dest, stance };
                    self.units[i].path = path;
                    self.units[i].target = None;
                    self.units[i].fleeing = false;
                    proof {
                        assert(orig[i as int].wf());
                        assert forall|j: int| 0 <= j < self.units@.len() implies (
                        #[trigger] self.units@[j]).wf() by {
                            if j != i {
                                assert(old(self).units@[j].wf());
                            }
                        }
                        assert(self.units@[i as int].path@ == gpath);
                        assert(sent_moving(g0, orig[i as int], self.units@[i as int], stance, waypoint, k as int));
                        assert forall|j: int| 0 <= j < orig.len() implies #[trigger] moved_so_far(
                            g0,
                            p,
                            ids@,
                            k + 1,
                            j,
                            orig[j],
                            self.units@[j],
                            stance,
                            waypoint,
                        ) by {
                            assert(moved_so_far(g0, p, ids@, k as int, j, orig[j], before[j], stance, waypoint));
                            if j == i {
                                assert(last_pick(g0, p, ids@, k + 1, j, k as int));
                                assert(picked(g0, p, ids@, k + 1, j));
                            } else {
                                assert(self.units@[j] == before[j]);
                                assert(old(self).unit_idx(p, ids@[k as int]) != Some(j));
                                if picked(g0, p, ids@, k as int, j) {
                                    let q = choose|q: int|
                                        #[trigger] last_pick(g0, p, ids@, k as int, j, q) && sent_moving(
                                            g0,
                                            orig[j],
                                            before[j],
                                            stance,
                                            waypoint,
                                            q,
                                        );
                                    assert(last_pick(g0, p, ids@, k + 1, j, q));
                                    assert(picked(g0, p, ids@, k + 1, j));
                                } else {
                                    assert(!picked(g0, p, ids@, k + 1, j));
                                }
                            }
                        }
                    }
                },
                None => {
                    proof {
                        assert(old(self).unit_idx(p, ids@[k as int]) is None);
                        assert forall|j: int| 0 <= j < orig.len() implies #[trigger] moved_so_far(
                            g0,
                            p,
                            ids@,
                            k + 1,
                            j,
                            orig[j],
                            self.units@[j],
                            stance,
                            waypoint,
                        ) by {
                            assert(moved_so_far(g0, p, ids@, k as int, j, orig[j], before[j], stance, waypoint));
                            if picked(g0, p, ids@, k as int, j) {
                                let q = choose|q: int|
                                    #[trigger] last_pick(g0, p, ids@, k as int, j, q) && sent_moving(
                                        g0,
                                        orig[j],
                                        self.units@[j],
                                        stance,
                                        waypoint,
                                        q,
                                    );
                                assert(last_pick(g0, p, ids@, k + 1, j, q));
                                assert(picked(g0, p, ids@, k + 1, j));
                            } else {
                                assert(!picked(g0, p, ids@, k + 1, j));
                            }
                        }
                    }
                },
            }
            k += 1;
        }
        proof {
            assert forall|i: int|
                0 <= i < old(self).units@.len() implies if old(self).selected(p, ids@, i) {
                sent_moving(
                    *old(self),
                    old(self).units@[i],
                    #[trigger] self.units@[i],
                    stance,
                    waypoint,
                    pick_of(*old(self), p, ids@, i),
                )
            } else {
                self.units@[i] == old(self).units@[i]
            } by {
                assert(moved_so_far(g0, p, ids@, k as int, i, orig[i], self.units@[i], stance, waypoint));
                assert(old(self).selected(p, ids@, i) == picked(g0, p, ids@, k as int, i));
                if picked(g0, p, ids@, k as int, i) {
                    let q = choose|q: int|
                        #[trigger] last_pick(g0, p, ids@, k as int, i, q) && sent_moving(
                            g0,
                            orig[i],
                            self.units@[i],
                            stance,
                            waypoint,
                            q,
                        );
                    let q2 = pick_of(g0, p, ids@, i);
                    assert(last_pick(g0, p, ids@, ids@.len() as int, i, q2));
                    lemma_last_pick_unique(g0, p, ids@, ids@.len() as int, i, q, q2);
                }
            }
        }
    }

    fn exec_attack(&mut self, p: Player, ids: &Vec<EntityId>, target: EntityId)
        requires
            old(self).wf(),
        ensures
            final(self).wf(),
            old(self).keeps_world(*final(self)),
            final(self).ore == old(self).ore,
            final(self).next_id == old(self).next_id,
            final(self).buildings == old(self).buildings,
            final(self).upgrades == old(self).upgrades,
            final(self).events == old(self).events,
            final(self).apm == old(self).apm,
            final(self).dropped_commands == old(self).dropped_commands,
            final(self).units@.len() == old(self).units@.len(),
            forall|i: int|
                0 <= i < old(self).units@.len() ==> if old(self).selected(p, ids@, i) {
                    sent_attacking(old(self).units@[i], #[trigger] final(self).units@[i], target)
                } else {
                    final(self).units@[i] == old(self).units@[i]
                },
    {
        let ghost orig = self.units@;
        let mut k: usize = 0;
        while k < ids.len()
            invariant
                0 <= k <= ids@.len(),
                self.wf(),
                old(self).wf(),
                old(self).keeps_world(*self),
                self.ore == old(self).ore,
                self.next_id == old(self).next_id,
                self.buildings == old(self).buildings,
                self.upgrades == old(self).upgrades,
                self.events == old(self).events,
                self.apm == old(self).apm,
                self.dropped_commands == old(self).dropped_commands,
                orig == old(self).units@,
                self.units@.len() == orig.len(),
                forall|i: int|
                    0 <= i < orig.len() ==> keeps_body(orig[i], #[trigger] self.units@[i]),
                forall|i: int|
                    0 <= i < orig.len() ==> if (exists|q: int|
                        0 <= q < k && old(self).unit_idx(p, #[trigger] ids@[q]) == Some(i)) {
                        sent_attacking(orig[i], #[trigger] self.units@[i], target)
                    } else {
                        self.units@[i] == orig[i]
                    },
            decreases ids.len() - k,
        {
            proof {
                lemma_first_where_agree(
                    self.units@,
                    orig,
                    unit_query(UnitQuery::Own(p, ids@[k as int])),
                    0,
                );
            }
            match self.find_unit(UnitQuery::Own(p, ids[k])) {
                Some(i) => {
                    self.units[i].order = UnitOrder::Attack { target };
                    self.units[i].target = Some(target);
                    self.units[i].path = Vec::new();
                    self.units[i].fleeing = false;
                    proof {
                        assert(orig[i as int].wf());
                        assert forall|j: int| 0 <= j < self.units@.len() implies (
                        #[trigger] self.units@[j]).wf() by {
                            if j != i {
                                assert(old(self).units@[j].wf());
                            }
                        }
                    }
                },
                None => {},
            }
            k += 1;
        }
        proof {
            assert forall|i: int| 0 <= i < orig.len() implies if old(self).selected(p, ids@, i) {
                sent_attacking(orig[i], #[trigger] self.units@[i], target)
            } else {
                self.units@[i] == orig[i]
            } by {
                if old(self).selected(p, ids@, i) {
                    let q = choose|q: int|
                        0 <= q < ids@.len() && old(self).unit_idx(p, #[trigger] ids@[q]) == Some(i);
                    assert(0 <= q < k && old(self).unit_idx(p, ids@[q]) == Some(i));
                }
            }
        }
    }
}



/// `states` walks from `old` to `new` through the commands `cmds` of `p`,
/// one by one, with results `rs`; each state has room for the commands left.
pub open spec fn batch_run(
    old: Game,
    new: Game,
    p: Player,
    cmds: Seq<Command>,
    rs: Seq<Result<(), CommandError>>,
    states: Seq<Game>,
) -> bool {
    &&& states.len() == cmds.len() + 1
    &&& rs.len() == cmds.len()
    &&& states[0] == old
    &&& states[cmds.len() as int] == new
    &&& forall|i: int|
        0 <= i < cmds.len() ==> #[trigger] states[i].command_outcome(states[i + 1], p, cmds[i], rs[i])
            && states[i].room_for_commands(p, cmds.len() - i)
}

/// `new` is `old` after `p`'s commands `cmds`, applied one by one through
/// validation and the command budget.
pub open spec fn batch_applied(old: Game, new: Game, p: Player, cmds: Seq<Command>) -> bool {
    exists|rs: Seq<Result<(), CommandError>>, states: Seq<Game>|
        #[trigger] batch_run(old, new, p, cmds, rs, states)
}

impl Game {
    fn exec_rally(&mut self, p: Player, building: EntityId, waypoint: (u8, u8))
        requires
            old(self).wf(),
            old(self).building_idx(p, building) is Some,
        ensures
            final(self).wf(),
            old(self).executed(*final(self), p, Command::SetRally { player: p, building, waypoint }),
            final(self).apm == old(self).apm,
            final(self).dropped_commands == old(self).dropped_commands,
            final(self).ore[p.idx()] <= old(self).ore[p.idx()] + 300,
            final(self).buildings@.len() <= old(self).buildings@.len() + 1,
            final(self).next_id <= old(self).next_id + 1,
    {
        match self.find_building(BuildingQuery::Own(p, building)) {
            Some(i) => {
                self.buildings[i].rally = Some(waypoint);
                proof {
                    assert(self.buildings@ =~= old(self).buildings@.update(
                        i as int,
                        Building { rally: Some(waypoint), ..old(self).buildings@[i as int] },
                    ));
                    assert forall|j: int| 0 <= j < self.buildings@.len() implies (
                    #[trigger] self.buildings@[j]).wf() by {
                        assert(old(self).buildings@[j].wf());
                    }
                }
            },
            None => {},
        }
    }

    fn exec_upgrade(&mut self, p: Player, lab: EntityId, upgrade: Upgrade)
        requires
            old(self).wf(),
            old(self).building_idx(p, lab) is Some,
        ensures
            final(self).wf(),
            old(self).executed(*final(self), p, Command::ChooseUpgrade { player: p, lab, upgrade }),
            final(self).apm == old(self).apm,
            final(self).dropped_commands == old(self).dropped_commands,
            final(self).ore[p.idx()] <= old(self).ore[p.idx()] + 300,
            final(self).buildings@.len() <= old(self).buildings@.len() + 1,
            final(self).next_id <= old(self).next_id + 1,
    {
        if self.building(p, lab).is_some() {
            self.upgrades[p.index()] = upgrade;
            self.push_event(EventKind::UpgradeChosen { player: p, upgrade });
        }
    }

    fn exec_sell(&mut self, p: Player, building: EntityId)
        requires
            old(self).wf(),
            old(self).building_idx(p, building) is Some,
            old(self).room_for_commands(p, 1),
        ensures
            final(self).wf(),
            old(self).executed(*final(self), p, Command::Sell { player: p, building }),
            final(self).apm == old(self).apm,
            final(self).dropped_commands == old(self).dropped_commands,
            final(self).ore[p.idx()] <= old(self).ore[p.idx()] + 300,
            final(self).buildings@.len() <= old(self).buildings@.len() + 1,
            final(self).next_id <= old(self).next_id + 1,
    {
        let btype = match self.building(p, building) {
            Some(b) => b.btype,
            None => {
                return;
            },
        };
        let stats = building_stats(btype);
        proof {
            assert(stats.cost * self.config.sell_refund_num <= stats.cost * self.config.sell_refund_den)
                by (nonlinear_arith)
                requires
                    0 <= stats.cost,
                    self.config.sell_refund_num <= self.config.sell_refund_den,
            ;
            assert(stats.cost * self.config.sell_refund_num <= 300 * self.config.sell_refund_num)
                by (nonlinear_arith)
                requires
                    0 <= stats.cost <= 300,
                    0 <= self.config.sell_refund_num,
            ;
            assert(0 <= stats.cost * self.config.sell_refund_num) by (nonlinear_arith)
                requires
                    0 <= stats.cost,
                    0 <= self.config.sell_refund_num,
            ;
            assert((stats.cost * self.config.sell_refund_num) / (self.config.sell_refund_den as int)
                <= stats.cost) by (nonlinear_arith)
                requires
                    0 <= stats.cost * self.config.sell_refund_num <= stats.cost
                        * self.config.sell_refund_den,
                    self.config.sell_refund_den > 0,
            ;
            assert((stats.cost * self.config.sell_refund_num) / (self.config.sell_refund_den as int)
                >= 0) by (nonlinear_arith)
                requires
                    0 <= stats.cost * self.config.sell_refund_num,
                    self.config.sell_refund_den > 0,
            ;
        }
        let refund = stats.cost * self.config.sell_refund_num / self.config.sell_refund_den;
        let pi = p.index();
        self.ore[pi] = self.ore[pi] + refund;
        self.push_event(EventKind::Sold { player: p, btype, refund });
        retain_buildings(&mut self.buildings, BuildingKeep::NotId(building));
        proof {
            lemma_keep_buildings_wf(old(self).buildings@, building_keep(BuildingKeep::NotId(building)));
            lemma_keep_where(old(self).buildings@, building_keep(BuildingKeep::NotId(building)));
        }
    }

    fn exec_repair(&mut self, p: Player, building: EntityId)
        requires
            old(self).wf(),
            old(self).spec_validate(Command::Repair { player: p, building }) is Ok,
        ensures
            final(self).wf(),
            old(self).executed(*final(self), p, Command::Repair { player: p, building }),
            final(self).apm == old(self).apm,
            final(self).dropped_commands == old(self).dropped_commands,
            final(self).ore[p.idx()] <= old(self).ore[p.idx()] + 300,
            final(self).buildings@.len() <= old(self).buildings@.len() + 1,
            final(self).next_id <= old(self).next_id + 1,
    {
        let pi = p.index();
        if self.ore[pi] >= REPAIR_COST {
            match self.find_building(BuildingQuery::Own(p, building)) {
                Some(i) => {
                    if self.buildings[i].is_alive() && self.buildings[i].hp < self.buildings[i].max_hp {
                        self.ore[pi] = self.ore[pi] - REPAIR_COST;
                        let max_hp = self.buildings[i].max_hp;
                        let healed = self.buildings[i].hp + REPAIR_HP;
                        self.buildings[i].hp = if healed < max_hp {
                            healed
                        } else {
                            max_hp
                        };
                        proof {
                            let b = old(self).buildings@[i as int];
                            assert(self.buildings@ =~= old(self).buildings@.update(
                                i as int,
                                Building {
                                    hp: if b.hp + REPAIR_HP < b.max_hp {
                                        (b.hp + REPAIR_HP) as i32
                                    } else {
                                        b.max_hp
                                    },
                                    ..b
                                },
                            ));
                            assert forall|j: int| 0 <= j < self.buildings@.len() implies (
                            #[trigger] self.buildings@[j]).wf() by {
                                assert(old(self).buildings@[j].wf());
                            }
                        }
                    }
                },
                None => {},
            }
        }
    }

    /// Carry out a validated command of `p`.
    fn execute(&mut self, p: Player, cmd: &Command)
        requires
            old(self).wf(),
            cmd.issuer() == p,
            old(self).spec_validate(*cmd) is Ok,
            old(self).room_for_commands(p, 1),
        ensures
            final(self).wf(),
            old(self).executed(*final(self), p, *cmd),
            final(self).apm == old(self).apm,
            final(self).dropped_commands == old(self).dropped_commands,
            final(self).ore[p.idx()] <= old(self).ore[p.idx()] + 300,
            final(self).buildings@.len() <= old(self).buildings@.len() + 1,
            final(self).next_id <= old(self).next_id + 1,
    {
        match cmd {
            Command::PlaceBuilding { btype, tile, .. } => self.exec_place(p, *btype, *tile),
            Command::TrainUnit { building, utype, .. } => self.exec_train(p, *building, *utype),
            Command::MoveGroup { units, waypoint, stance, .. } => self.exec_move(
                p,
                units,
                *waypoint,
                *stance,
            ),
            Command::Attack { units, target, .. } => self.exec_attack(p, units, *target),
            Command::SetRally { building, waypoint, .. } => self.exec_rally(
                p,
                *building,
                *waypoint,
            ),
            Command::ChooseUpgrade { lab, upgrade, .. } => self.exec_upgrade(p, *lab, *upgrade),
            Command::Sell { building, .. } => self.exec_sell(p, *building),
            Command::Repair { building, .. } => self.exec_repair(p, *building),
        }
    }

    /// Validate and apply one command of `player`: see [`Game::command_outcome`].
    pub fn apply_command(&mut self, player: Player, cmd: &Command) -> (r: Result<(), CommandError>)
        requires
            old(self).wf(),
            old(self).room_for_commands(player, 1),
        ensures
            final(self).wf(),
            old(self).command_outcome(*final(self), player, *cmd, r),
            final(self).units@.len() == old(self).units@.len(),
            final(self).ore[player.idx()] <= old(self).ore[player.idx()] + 300,
            final(self).buildings@.len() <= old(self).buildings@.len() + 1,
            final(self).next_id <= old(self).next_id + 1,
            final(self).dropped_commands[player.idx()] <= old(self).dropped_commands[player.idx()]
                + 1,
            final(self).ore[player.opponent().idx()] == old(self).ore[player.opponent().idx()],
            final(self).dropped_commands[player.opponent().idx()] == old(
                self,
            ).dropped_commands[player.opponent().idx()],
    {
        if cmd.player() != player {
            return Err(CommandError::NotYourEntity);
        }
        let v = self.validate_command(cmd);
        if v.is_err() {
            return v;
        }
        let pi = player.index();
        let mut budget = self.apm[pi];
        let ok = budget.try_spend();
        if !ok {
            self.dropped_commands[pi] = self.dropped_commands[pi] + 1;
            return Err(CommandError::RateLimited);
        }
        self.execute(player, cmd);
        self.apm[pi] = budget;
        Ok(())
    }

    /// Validate and apply a batch of commands of one player, in order, with
    /// the APM budget shared across the batch. Returns each command's result.
    pub fn apply_commands(&mut self, player: Player, cmds: &[Command]) -> (r: Vec<
        Result<(), CommandError>,
    >)
        requires
            old(self).wf(),
            old(self).room_for_commands(player, cmds@.len() as int),
        ensures
            final(self).wf(),
            r@.len() == cmds@.len(),
            exists|states: Seq<Game>|
                {
                    &&& states.len() == cmds@.len() + 1
                    &&& states[0] == *old(self)
                    &&& states[cmds@.len() as int] == *final(self)
                    &&& forall|i: int|
                        0 <= i < cmds@.len() ==> #[trigger] states[i].command_outcome(
                            states[i + 1],
                            player,
                            cmds@[i],
                            r@[i],
                        )
                },
            old(self).keeps_world(*final(self)),
            final(self).units@.len() == old(self).units@.len(),
            final(self).next_id <= old(self).next_id + cmds@.len(),
            exists|states: Seq<Game>| #[trigger] batch_run(*old(self), *final(self), player, cmds@, r@, states),
            crate::tick::ids_ordered(*old(self)) ==> crate::tick::ids_ordered(*final(self)),
    {
        let mut results: Vec<Result<(), CommandError>> = Vec::new();
        let ghost mut states: Seq<Game> = seq![*self];
        let mut i: usize = 0;
        while i < cmds.len()
            invariant
                0 <= i <= cmds@.len(),
                self.wf(),
                self.room_for_commands(player, cmds@.len() - i),
                results@.len() == i,
                states.len() == i + 1,
                states[0] == *old(self),
                states[i as int] == *self,
                forall|j: int|
                    0 <= j < i ==> #[trigger] states[j].command_outcome(
                        states[j + 1],
                        player,
                        cmds@[j],
                        results@[j],
                    ),
                old(self).keeps_world(*self),
                self.units@.len() == old(self).units@.len(),
                self.next_id <= old(self).next_id + i,
                forall|j: int| 0 <= j <= i ==> #[trigger] states[j].room_for_commands(player, cmds@.len() - j),
            decreases cmds.len() - i,
        {
            let res = self.apply_command(player, &cmds[i]);
            results.push(res);
            proof {
                let s2 = states.push(*self);
                assert forall|j: int| 0 <= j <= i + 1 implies #[trigger] s2[j].room_for_commands(
                    player,
                    cmds@.len() - j,
                ) by {
                    if j <= i {
                        assert(s2[j] == states[j]);
                    }
                }
                states = s2;
            }
            i += 1;
        }
        proof {
            assert(batch_run(*old(self), *self, player, cmds@, results@, states));
            if crate::tick::ids_ordered(*old(self)) {
                crate::tick::lemma_batch_keeps_id_order(
                    *old(self),
                    *self,
                    player,
                    cmds@,
                    results@,
                    states,
                    cmds@.len() as int,
                );
            }
        }
        results
    }
}


/// The spawn search sees only the map and the buildings.
pub proof fn lemma_spawn_search_frame(a: Game, b: Game, t: (u8, u8), k: int)
    requires
        a.map == b.map,
        a.buildings@ == b.buildings@,
    ensures
        a.first_spawn_from(t, k) == b.first_spawn_from(t, k),
    decreases 8 - k,
{
    if 0 <= k < 8 {
        lemma_spawn_search_frame(a, b, t, k + 1);
    }
}

/// On a generated map with just the two HQs standing, the tile east of each
/// HQ is the first free spawn tile.
pub proof fn lemma_generated_spawns(g: Game, seed: u64)
    requires
        g.map.generated_from(seed),
        g.buildings@.len() == 2,
        g.buildings@[0].tile == g.map.hq_tiles[0],
        g.buildings@[1].tile == g.map.hq_tiles[1],
    ensures
        g.first_spawn_from(g.map.hq_tiles[0], 0) == Some(
            ((g.map.hq_tiles[0].0 + 1) as u8, g.map.hq_tiles[0].1),
        ),
        g.first_spawn_from(g.map.hq_tiles[1], 0) == Some(
            ((g.map.hq_tiles[1].0 + 1) as u8, g.map.hq_tiles[1].1),
        ),
{
    let h0 = gen_hq(seed);
    let h1 = mirror_tile(h0);
    assert(h0 == (16u8, 16u8) || h0 == (47u8, 16u8) || h0 == (16u8, 47u8) || h0 == (47u8, 47u8));
    assert(spec_spawn_offset(0) == (1int, 0int));
    let i0 = spec_tile_index(h0.0 + 1, h0.1 as int);
    let i1 = spec_tile_index(h1.0 + 1, h1.1 as int);
    assert(near_hq(i0 % 64, i0 / 64, h0));
    assert(near_hq(i1 % 64, i1 / 64, h1));
    assert(g.map.passable@[i0]);
    assert(g.map.passable@[i1]);
    let q0 = building_query(BuildingQuery::At((h0.0 + 1) as u8, h0.1));
    let q1 = building_query(BuildingQuery::At((h1.0 + 1) as u8, h1.1));
    assert(!q0(g.buildings@[0]) && !q0(g.buildings@[1]));
    assert(!q1(g.buildings@[0]) && !q1(g.buildings@[1]));
    assert(first_where(g.buildings@, q0, 2) is None);
    assert(first_where(g.buildings@, q0, 1) is None);
    assert(first_where(g.buildings@, q1, 2) is None);
    assert(first_where(g.buildings@, q1, 1) is None);
}

/// What a fresh match on `map` with `config` looks like: one full-health HQ
/// per player on the map's HQ tiles (ids 1 and 2), the starting ore banked,
/// full command budgets, and one harvester per player on the first free tile
/// next to its HQ (P0's first, ids counting on from 3); on a generated map
/// both sides get theirs, east of their HQ.
pub open spec fn fresh_game(map: GameMap, config: GameConfig, g: Game) -> bool {
    &&& g.wf()
    &&& g.map == map
    &&& g.config == config
    &&& g.tick == 0
    &&& !g.spec_is_over()
    &&& g.winner is None
    &&& g.win_reason is None
    &&& g.ore[0] == config.starting_ore && g.ore[1] == config.starting_ore
    &&& g.upgrades[0] == Upgrade::NoUpgrade && g.upgrades[1] == Upgrade::NoUpgrade
    &&& g.dropped_commands[0] == 0 && g.dropped_commands[1] == 0
    &&& g.buildings@.len() == 2
    &&& fresh_building(g.buildings@[0], 1, Player::P0, BuildingType::Hq, map.hq_tiles[0])
    &&& fresh_building(g.buildings@[1], 2, Player::P1, BuildingType::Hq, map.hq_tiles[1])
    &&& g.units@.len() <= 2
    &&& forall|i: int|
        0 <= i < g.units@.len() ==> (#[trigger] g.units@[i]).utype == UnitType::Harvester
            && g.units@[i].hp == g.units@[i].max_hp
    &&& g.next_id == 3 + g.units@.len()
    &&& g.units@.len() == (if g.first_spawn_from(map.hq_tiles[0], 0) is Some {
        1int
    } else {
        0
    }) + (if g.first_spawn_from(map.hq_tiles[1], 0) is Some {
        1int
    } else {
        0
    })
    &&& g.first_spawn_from(map.hq_tiles[0], 0) matches Some(t) ==> fresh_unit(
        g.units@[0],
        3,
        Player::P0,
        UnitType::Harvester,
        t,
        None,
        Upgrade::NoUpgrade,
    )
    &&& g.first_spawn_from(map.hq_tiles[1], 0) matches Some(t) ==> fresh_unit(
        g.units@[g.units@.len() - 1],
        (g.next_id - 1) as EntityId,
        Player::P1,
        UnitType::Harvester,
        t,
        None,
        Upgrade::NoUpgrade,
    )
    &&& forall|p: Player|
        #![trigger g.apm[p.idx()]]
        g.apm[p.idx()].capacity() == config.apm_cap as int * 1000 && g.apm[p.idx()].level()
            == g.apm[p.idx()].capacity() && g.apm[p.idx()].refill() == g.apm[p.idx()].capacity()
            / 600
    &&& g.events@.len() == g.units@.len()
    &&& forall|seed: u64|
        #[trigger] map.generated_from(seed) ==> g.units@.len() == 2 && g.units@[0].owner
            == Player::P0 && g.units@[1].owner == Player::P1 && g.units@[0].id == 3
            && g.units@[1].id == 4 && g.units@[0].pos == Pos::spec_from_tile(
            (map.hq_tiles[0].0 + 1) as u8,
            map.hq_tiles[0].1,
        ) && g.units@[1].pos == Pos::spec_from_tile(
            (map.hq_tiles[1].0 + 1) as u8,
            map.hq_tiles[1].1,
        )
}

impl Game {
    /// A fresh match on `map`: one HQ per player on the map's HQ tiles (ids 1
    /// and 2), the starting ore banked, full command budgets, and one
    /// harvester per player on the first free tile next to its HQ (P0's
    /// first, ids counting on from 3). On a generated map that is the tile
    /// east of each HQ, so both sides get theirs.
    pub fn new(map: GameMap, config: GameConfig) -> (g: Game)
        requires
            map.wf(),
            config.wf(),
        ensures
            fresh_game(map, config, g),
    {
        let stats = building_stats(BuildingType::Hq);
        let mut buildings: Vec<Building> = Vec::new();
        buildings.push(
            Building {
                id: 1,
                owner: Player::P0,
                btype: BuildingType::Hq,
                tile: map.hq_tiles[0],
                hp: stats.hp,
                max_hp: stats.hp,
                queue: Vec::new(),
                progress: 0,
                rally: None,
                cooldown: 0,
            },
        );
        buildings.push(
            Building {
                id: 2,
                owner: Player::P1,
                btype: BuildingType::Hq,
                tile: map.hq_tiles[1],
                hp: stats.hp,
                max_hp: stats.hp,
                queue: Vec::new(),
                progress: 0,
                rally: None,
                cooldown: 0,
            },
        );
        let hq_tiles = map.hq_tiles;
        let mut g = Game {
            config,
            map,
            buildings,
            units: Vec::new(),
            ore: [config.starting_ore, config.starting_ore],
            upgrades: [Upgrade::NoUpgrade, Upgrade::NoUpgrade],
            tick: 0,
            winner: None,
            win_reason: None,
            over: false,
            apm: [ApmBudget::new(config.apm_cap), ApmBudget::new(config.apm_cap)],
            next_id: 3,
            events: Vec::new(),
            dropped_commands: [0, 0],
            fog: [FogMemory::empty(), FogMemory::empty()],
        };
        // Each side starts with one harvester next to its HQ, so the mining
        // loop runs from the first second.
        let ghost g_start = g;
        match g.pick_spawn_tile(hq_tiles[0]) {
            Some(t) => g.spawn_unit(Player::P0, UnitType::Harvester, t, None),
            None => {},
        }
        proof {
            lemma_spawn_search_frame(g, g_start, hq_tiles[1], 0);
        }
        let ghost g_mid = g;
        match g.pick_spawn_tile(hq_tiles[1]) {
            Some(t) => g.spawn_unit(Player::P1, UnitType::Harvester, t, None),
            None => {},
        }
        proof {
            lemma_spawn_search_frame(g, g_start, hq_tiles[0], 0);
            lemma_spawn_search_frame(g, g_start, hq_tiles[1], 0);
            assert forall|seed: u64| #[trigger] map.generated_from(seed) implies g.units@.len() == 2
                && g.units@[0].owner == Player::P0 && g.units@[1].owner == Player::P1
                && g.units@[0].id == 3 && g.units@[1].id == 4 && g.units@[0].pos
                == Pos::spec_from_tile((map.hq_tiles[0].0 + 1) as u8, map.hq_tiles[0].1)
                && g.units@[1].pos == Pos::spec_from_tile(
                (map.hq_tiles[1].0 + 1) as u8,
                map.hq_tiles[1].1,
            ) by {
                lemma_generated_spawns(g, seed);
            }
        }
        g
    }
}

} // verus!
