//! Entities (units and buildings) and the balance tables.
//!
//! All combat and economy stats are plain integers. Entity ids are assigned in
//! ascending creation order and every sim phase iterates entities in that
//! order.
use vstd::prelude::*;

use crate::fixed::{Fix, Pos};

verus! {

/// The two sides of a match.
#[derive(Clone, Copy, PartialEq, Eq, Structural, Hash, Debug)]
pub enum Player {
    P0,
    P1,
}

impl Player {
    pub const ALL: [Player; 2] = [Player::P0, Player::P1];

    /// The slot of this player in per-player arrays.
    pub open spec fn idx(self) -> int {
        match self {
            Player::P0 => 0,
            Player::P1 => 1,
        }
    }

    pub open spec fn opponent(self) -> Player {
        match self {
            Player::P0 => Player::P1,
            Player::P1 => Player::P0,
        }
    }

    pub fn index(self) -> (r: usize)
        ensures
            r == self.idx(),
            r < 2,
    {
        match self {
            Player::P0 => 0,
            Player::P1 => 1,
        }
    }

    pub fn enemy(self) -> (r: Player)
        ensures
            r == self.opponent(),
            r != self,
            r.opponent() == self,
    {
        match self {
            Player::P0 => Player::P1,
            Player::P1 => Player::P0,
        }
    }
}

#[derive(Clone, Copy, PartialEq, Eq, Structural, Hash, Debug)]
pub enum BuildingType {
    Hq,
    PowerPlant,
    Refinery,
    Barracks,
    Factory,
    TechLab,
    Airfield,
    Radar,
    TeslaCoil,
    Turret,
}

#[derive(Clone, Copy, PartialEq, Eq, Structural, Hash, Debug)]
pub enum UnitType {
    Harvester,
    Infantry,
    Tank,
    Artillery,
    MammothTank,
    Gunship,
    Interceptor,
}

#[derive(Clone, Copy, PartialEq, Eq, Structural, Hash, Debug)]
pub enum Stance {
    /// Engage enemies in aggro range while moving (attack-move).
    Aggressive,
    /// Like aggressive, but retreat when below 20% HP.
    Cautious,
    /// Move to the waypoint, then hold; attack only what is in range.
    Hold,
}

#[derive(Clone, Copy, PartialEq, Eq, Structural, Hash, Debug)]
pub enum Upgrade {
    NoUpgrade,
    Damage,
    Hp,
    Range,
}

/// Unique entity id within a match.
pub type EntityId = u32;

/// Static per-type balance data. Distances are in fix units, durations in
/// ticks, ore in integer units.
#[derive(Clone, Copy, PartialEq, Eq, Structural, Debug)]
pub struct UnitStats {
    pub cost: i32,
    pub hp: i32,
    pub damage: i32,
    /// Attack range (0 = cannot attack).
    pub range: Fix,
    /// Minimum attack range (artillery cannot fire inside it).
    pub min_range: Fix,
    /// Movement per tick.
    pub speed: Fix,
    /// Attack cooldown.
    pub cooldown: i32,
    /// Vision radius.
    pub vision: Fix,
    /// Splash radius (0 = single target).
    pub splash: Fix,
    /// Production time.
    pub build_time: i32,
}

#[derive(Clone, Copy, PartialEq, Eq, Structural, Debug)]
pub struct BuildingStats {
    pub cost: i32,
    pub hp: i32,
    pub vision: Fix,
    /// Passive ore trickle per tick (unused: income comes from deposits).
    pub trickle: i32,
    /// Attack damage (defensive buildings only).
    pub damage: i32,
    /// Attack range (defensive buildings only).
    pub range: Fix,
    /// Attack cooldown (defensive buildings only).
    pub cooldown: i32,
    /// Power produced (positive) or consumed (negative).
    pub power: i32,
}

pub open spec fn spec_unit_stats(ut: UnitType) -> UnitStats {
    match ut {
        UnitType::Harvester => UnitStats {
            cost: 100,
            hp: 80,
            damage: 0,
            range: 0,
            min_range: 0,
            speed: 23,
            cooldown: 0,
            vision: 1024,
            splash: 0,
            build_time: 200,
        },
        UnitType::Infantry => UnitStats {
            cost: 50,
            hp: 44,
            damage: 6,
            range: 384,
            min_range: 0,
            speed: 34,
            cooldown: 10,
            vision: 1024,
            splash: 0,
            build_time: 80,
        },
        UnitType::Tank => UnitStats {
            cost: 150,
            hp: 120,
            damage: 20,
            range: 768,
            min_range: 0,
            speed: 20,
            cooldown: 12,
            vision: 1280,
            splash: 0,
            build_time: 160,
        },
        UnitType::Artillery => UnitStats {
            cost: 200,
            hp: 60,
            damage: 32,
            range: 1536,
            min_range: 128,
            speed: 12,
            cooldown: 18,
            vision: 1536,
            splash: 0,
            build_time: 200,
        },
        UnitType::MammothTank => UnitStats {
            cost: 400,
            hp: 300,
            damage: 35,
            range: 896,
            min_range: 0,
            speed: 12,
            cooldown: 20,
            vision: 1280,
            splash: 0,
            build_time: 300,
        },
        UnitType::Gunship => UnitStats {
            cost: 250,
            hp: 100,
            damage: 18,
            range: 768,
            min_range: 0,
            speed: 40,
            cooldown: 10,
            vision: 1536,
            splash: 0,
            build_time: 180,
        },
        UnitType::Interceptor => UnitStats {
            cost: 200,
            hp: 80,
            damage: 14,
            range: 1024,
            min_range: 0,
            speed: 50,
            cooldown: 8,
            vision: 1792,
            splash: 0,
            build_time: 150,
        },
    }
}

/// The balance table of a unit type.
pub fn unit_stats(ut: UnitType) -> (s: UnitStats)
    ensures
        s == spec_unit_stats(ut),
        s.cost > 0 && s.cost <= 400,
        0 < s.hp <= 300,
        0 <= s.damage <= 35,
        0 <= s.range <= 1792,
        0 <= s.min_range <= s.range,
        0 < s.speed <= 50,
        0 <= s.cooldown <= 20,
        0 < s.vision <= 1792,
        0 <= s.splash <= 1792,
        0 < s.build_time <= 300,
{
    match ut {
        UnitType::Harvester => UnitStats {
            cost: 100,
            hp: 80,
            damage: 0,
            range: 0,
            min_range: 0,
            speed: 23,
            cooldown: 0,
            vision: 1024,
            splash: 0,
            build_time: 200,
        },
        UnitType::Infantry => UnitStats {
            cost: 50,
            hp: 44,
            damage: 6,
            range: 384,
            min_range: 0,
            speed: 34,
            cooldown: 10,
            vision: 1024,
            splash: 0,
            build_time: 80,
        },
        UnitType::Tank => UnitStats {
            cost: 150,
            hp: 120,
            damage: 20,
            range: 768,
            min_range: 0,
            speed: 20,
            cooldown: 12,
            vision: 1280,
            splash: 0,
            build_time: 160,
        },
        UnitType::Artillery => UnitStats {
            cost: 200,
            hp: 60,
            damage: 32,
            range: 1536,
            min_range: 128,
            speed: 12,
            cooldown: 18,
            vision: 1536,
            splash: 0,
            build_time: 200,
        },
        UnitType::MammothTank => UnitStats {
            cost: 400,
            hp: 300,
            damage: 35,
            range: 896,
            min_range: 0,
            speed: 12,
            cooldown: 20,
            vision: 1280,
            splash: 0,
            build_time: 300,
        },
        UnitType::Gunship => UnitStats {
            cost: 250,
            hp: 100,
            damage: 18,
            range: 768,
            min_range: 0,
            speed: 40,
            cooldown: 10,
            vision: 1536,
            splash: 0,
            build_time: 180,
        },
        UnitType::Interceptor => UnitStats {
            cost: 200,
            hp: 80,
            damage: 14,
            range: 1024,
            min_range: 0,
            speed: 50,
            cooldown: 8,
            vision: 1792,
            splash: 0,
            build_time: 150,
        },
    }
}

pub open spec fn spec_building_stats(bt: BuildingType) -> BuildingStats {
    match bt {
        BuildingType::Hq => BuildingStats {
            cost: 0,
            hp: 1500,
            vision: 1280,
            trickle: 0,
            damage: 0,
            range: 0,
            cooldown: 0,
            power: 50,
        },
        BuildingType::PowerPlant => BuildingStats {
            cost: 150,
            hp: 400,
            vision: 768,
            trickle: 0,
            damage: 0,
            range: 0,
            cooldown: 0,
            power: 100,
        },
        BuildingType::Refinery => BuildingStats {
            cost: 300,
            hp: 400,
            vision: 768,
            trickle: 1,
            damage: 0,
            range: 0,
            cooldown: 0,
            power: -20i32,
        },
        BuildingType::Barracks => BuildingStats {
            cost: 150,
            hp: 300,
            vision: 768,
            trickle: 0,
            damage: 0,
            range: 0,
            cooldown: 0,
            power: -20i32,
        },
        BuildingType::Factory => BuildingStats {
            cost: 250,
            hp: 400,
            vision: 768,
            trickle: 0,
            damage: 0,
            range: 0,
            cooldown: 0,
            power: -30i32,
        },
        BuildingType::TechLab => BuildingStats {
            cost: 200,
            hp: 250,
            vision: 768,
            trickle: 0,
            damage: 0,
            range: 0,
            cooldown: 0,
            power: -30i32,
        },
        BuildingType::Airfield => BuildingStats {
            cost: 300,
            hp: 350,
            vision: 768,
            trickle: 0,
            damage: 0,
            range: 0,
            cooldown: 0,
            power: -30i32,
        },
        BuildingType::Radar => BuildingStats {
            cost: 250,
            hp: 250,
            vision: 3072,
            trickle: 0,
            damage: 0,
            range: 0,
            cooldown: 0,
            power: -40i32,
        },
        BuildingType::TeslaCoil => BuildingStats {
            cost: 300,
            hp: 300,
            vision: 1280,
            trickle: 0,
            damage: 40,
            range: 1024,
            cooldown: 20,
            power: -50i32,
        },
        BuildingType::Turret => BuildingStats {
            cost: 100,
            hp: 150,
            vision: 1024,
            trickle: 0,
            damage: 12,
            range: 896,
            cooldown: 8,
            power: -10i32,
        },
    }
}

/// The balance table of a building type.
pub fn building_stats(bt: BuildingType) -> (s: BuildingStats)
    ensures
        s == spec_building_stats(bt),
        0 <= s.cost <= 300,
        0 < s.hp <= 1500,
        0 < s.vision <= 3072,
        0 <= s.damage <= 40,
        0 <= s.range <= 1024,
        0 <= s.cooldown <= 20,
        -50 <= s.power <= 100,
        (s.cost == 0) == (bt == BuildingType::Hq),
{
    match bt {
        BuildingType::Hq => BuildingStats {
            cost: 0,
            hp: 1500,
            vision: 1280,
            trickle: 0,
            damage: 0,
            range: 0,
            cooldown: 0,
            power: 50,
        },
        BuildingType::PowerPlant => BuildingStats {
            cost: 150,
            hp: 400,
            vision: 768,
            trickle: 0,
            damage: 0,
            range: 0,
            cooldown: 0,
            power: 100,
        },
        BuildingType::Refinery => BuildingStats {
            cost: 300,
            hp: 400,
            vision: 768,
            trickle: 1,
            damage: 0,
            range: 0,
            cooldown: 0,
            power: -20i32,
        },
        BuildingType::Barracks => BuildingStats {
            cost: 150,
            hp: 300,
            vision: 768,
            trickle: 0,
            damage: 0,
            range: 0,
            cooldown: 0,
            power: -20i32,
        },
        BuildingType::Factory => BuildingStats {
            cost: 250,
            hp: 400,
            vision: 768,
            trickle: 0,
            damage: 0,
            range: 0,
            cooldown: 0,
            power: -30i32,
        },
        BuildingType::TechLab => BuildingStats {
            cost: 200,
            hp: 250,
            vision: 768,
            trickle: 0,
            damage: 0,
            range: 0,
            cooldown: 0,
            power: -30i32,
        },
        BuildingType::Airfield => BuildingStats {
            cost: 300,
            hp: 350,
            vision: 768,
            trickle: 0,
            damage: 0,
            range: 0,
            cooldown: 0,
            power: -30i32,
        },
        BuildingType::Radar => BuildingStats {
            cost: 250,
            hp: 250,
            vision: 3072,
            trickle: 0,
            damage: 0,
            range: 0,
            cooldown: 0,
            power: -40i32,
        },
        BuildingType::TeslaCoil => BuildingStats {
            cost: 300,
            hp: 300,
            vision: 1280,
            trickle: 0,
            damage: 40,
            range: 1024,
            cooldown: 20,
            power: -50i32,
        },
        BuildingType::Turret => BuildingStats {
            cost: 100,
            hp: 150,
            vision: 1024,
            trickle: 0,
            damage: 12,
            range: 896,
            cooldown: 8,
            power: -10i32,
        },
    }
}

/// How much ore a harvester carries per trip.
pub const HARVESTER_CAPACITY: i32 = 85;

/// Ticks a harvester spends mining to fill its hold.
pub const HARVEST_TICKS: i32 = 50;

/// Ore extracted from a field per harvest tick.
pub const HARVEST_RATE_PER_TICK: i32 = 1;

/// Ticks a full harvester parks on the refinery dock before unloading (1.5 s).
pub const DEPOSIT_PARK_TICKS: i32 = 15;

/// The unit types a building can train, in table order.
pub open spec fn spec_produces(bt: BuildingType) -> Seq<UnitType> {
    match bt {
        BuildingType::Barracks => seq![UnitType::Infantry],
        BuildingType::Factory => seq![UnitType::Harvester, UnitType::Tank],
        BuildingType::Airfield => seq![UnitType::Gunship, UnitType::Interceptor],
        _ => Seq::empty(),
    }
}

/// Which units a building can train.
pub fn building_produces(bt: BuildingType) -> (r: Vec<UnitType>)
    ensures
        r@ == spec_produces(bt),
{
    match bt {
        BuildingType::Barracks => vec![UnitType::Infantry],
        BuildingType::Factory => vec![UnitType::Harvester, UnitType::Tank],
        BuildingType::Airfield => vec![UnitType::Gunship, UnitType::Interceptor],
        _ => Vec::new(),
    }
}

/// Whether building type `bt` can train unit type `ut`.
pub fn produces(bt: BuildingType, ut: UnitType) -> (r: bool)
    ensures
        r == spec_produces(bt).contains(ut),
{
    let list = building_produces(bt);
    let mut i: usize = 0;
    while i < list.len()
        invariant
            list@ == spec_produces(bt),
            0 <= i <= list.len(),
            forall|j: int| 0 <= j < i ==> list@[j] != ut,
        decreases list.len() - i,
    {
        if list[i] == ut {
            return true;
        }
        i += 1;
    }
    false
}

/// Buildings may be placed within this many tiles (center to center) of the
/// nearest own building, so bases grow as connected clumps.
pub const PLACE_RADIUS_TILES: i32 = 5;

/// Units retreat (cautious stance) below this fraction of their max HP (20%).
pub const RETREAT_HP_FRACTION_NUM: i32 = 1;

pub const RETREAT_HP_FRACTION_DEN: i32 = 5;

/// A copy of a list of tiles.
pub fn copy_tiles(v: &Vec<(u8, u8)>) -> (r: Vec<(u8, u8)>)
    ensures
        r@ == v@,
{
    let mut r: Vec<(u8, u8)> = Vec::new();
    let mut i: usize = 0;
    while i < v.len()
        invariant
            0 <= i <= v.len(),
            r@ == v@.subrange(0, i as int),
        decreases v.len() - i,
    {
        r.push(v[i]);
        i += 1;
        assert(r@ =~= v@.subrange(0, i as int));
    }
    assert(r@ =~= v@);
    r
}

/// A copy of a list of unit types.
pub fn copy_unit_types(v: &Vec<UnitType>) -> (r: Vec<UnitType>)
    ensures
        r@ == v@,
{
    let mut r: Vec<UnitType> = Vec::new();
    let mut i: usize = 0;
    while i < v.len()
        invariant
            0 <= i <= v.len(),
            r@ == v@.subrange(0, i as int),
        decreases v.len() - i,
    {
        r.push(v[i]);
        i += 1;
        assert(r@ =~= v@.subrange(0, i as int));
    }
    assert(r@ =~= v@);
    r
}

/// A building in the world.
#[derive(Debug)]
pub struct Building {
    pub id: EntityId,
    pub owner: Player,
    pub btype: BuildingType,
    pub tile: (u8, u8),
    pub hp: i32,
    pub max_hp: i32,
    /// Pending production queue.
    pub queue: Vec<UnitType>,
    /// Progress toward the first queued unit, in ticks.
    pub progress: i32,
    /// Rally point for produced units.
    pub rally: Option<(u8, u8)>,
    /// Attack cooldown (defensive buildings).
    pub cooldown: i32,
}

impl Clone for Building {
    fn clone(&self) -> (r: Self)
        ensures
            r.same(*self),
    {
        Building {
            id: self.id,
            owner: self.owner,
            btype: self.btype,
            tile: self.tile,
            hp: self.hp,
            max_hp: self.max_hp,
            queue: copy_unit_types(&self.queue),
            progress: self.progress,
            rally: self.rally,
            cooldown: self.cooldown,
        }
    }
}

impl Building {
    /// Equal field by field, the queue by its contents.
    pub open spec fn same(self, other: Building) -> bool {
        &&& self.id == other.id
        &&& self.owner == other.owner
        &&& self.btype == other.btype
        &&& self.tile == other.tile
        &&& self.hp == other.hp
        &&& self.max_hp == other.max_hp
        &&& self.queue@ == other.queue@
        &&& self.progress == other.progress
        &&& self.rally == other.rally
        &&& self.cooldown == other.cooldown
    }

    pub fn pos(&self) -> (p: Pos)
        ensures
            p == Pos::spec_from_tile(self.tile.0, self.tile.1),
            p.inside(),
    {
        Pos::from_tile(self.tile.0, self.tile.1)
    }

    pub fn is_alive(&self) -> (r: bool)
        ensures
            r == (self.hp > 0),
    {
        self.hp > 0
    }
}

/// What a unit is currently doing.
#[derive(Clone, Copy, Debug)]
pub enum UnitOrder {
    Idle,
    /// Move to a waypoint with a stance.
    Move { waypoint: Pos, stance: Stance },
    /// Explicitly attack a specific entity.
    Attack { target: EntityId },
    /// Harvester loop (find field, mine, return to refinery).
    Harvest,
    /// Flee toward a position.
    Flee { dest: Pos },
}

/// A unit in the world.
#[derive(Debug)]
pub struct Unit {
    pub id: EntityId,
    pub owner: Player,
    pub utype: UnitType,
    pub pos: Pos,
    pub hp: i32,
    pub max_hp: i32,
    pub stance: Stance,
    pub order: UnitOrder,
    /// Ore currently carried (harvesters).
    pub carrying: i32,
    /// Attack cooldown remaining (ticks).
    pub cooldown: i32,
    /// Mining progress accumulator (harvesters), in harvest ticks.
    pub mining: i32,
    /// Ticks spent parked on a refinery dock (harvesters).
    pub park_ticks: i32,
    /// Remaining path (tile waypoints) for long-range navigation.
    pub path: Vec<(u8, u8)>,
    /// Current attack target (re-evaluated per tick).
    pub target: Option<EntityId>,
    /// Whether currently fleeing.
    pub fleeing: bool,
    /// Ore tile a harvester is mining.
    pub harvest_tile: Option<(u8, u8)>,
    /// Refinery a harvester is returning to.
    pub refinery: Option<EntityId>,
}

impl Clone for Unit {
    fn clone(&self) -> (r: Self)
        ensures
            r.same(*self),
    {
        Unit {
            id: self.id,
            owner: self.owner,
            utype: self.utype,
            pos: self.pos,
            hp: self.hp,
            max_hp: self.max_hp,
            stance: self.stance,
            order: self.order,
            carrying: self.carrying,
            cooldown: self.cooldown,
            mining: self.mining,
            park_ticks: self.park_ticks,
            path: copy_tiles(&self.path),
            target: self.target,
            fleeing: self.fleeing,
            harvest_tile: self.harvest_tile,
            refinery: self.refinery,
        }
    }
}

impl Unit {
    /// Equal field by field, the path by its contents.
    pub open spec fn same(self, other: Unit) -> bool {
        &&& self.id == other.id
        &&& self.owner == other.owner
        &&& self.utype == other.utype
        &&& self.pos == other.pos
        &&& self.hp == other.hp
        &&& self.max_hp == other.max_hp
        &&& self.stance == other.stance
        &&& self.order == other.order
        &&& self.carrying == other.carrying
        &&& self.cooldown == other.cooldown
        &&& self.mining == other.mining
        &&& self.park_ticks == other.park_ticks
        &&& self.path@ == other.path@
        &&& self.target == other.target
        &&& self.fleeing == other.fleeing
        &&& self.harvest_tile == other.harvest_tile
        &&& self.refinery == other.refinery
    }

    pub fn is_alive(&self) -> (r: bool)
        ensures
            r == (self.hp > 0),
    {
        self.hp > 0
    }
}

/// Hands out entity ids in ascending creation order.
#[derive(Default)]
pub struct EntityAllocator {
    next_id: EntityId,
}

impl EntityAllocator {
    pub closed spec fn next(self) -> EntityId {
        self.next_id
    }

    pub fn new() -> (a: Self)
        ensures
            a.next() == 1,
    {
        EntityAllocator { next_id: 1 }
    }

    /// Hand out the next id; ids strictly increase.
    pub fn allocate(&mut self) -> (id: EntityId)
        requires
            old(self).next() < u32::MAX,
        ensures
            id == old(self).next(),
            final(self).next() == id + 1,
    {
        let id = self.next_id;
        self.next_id += 1;
        id
    }

    pub fn peek_next(&self) -> (id: EntityId)
        ensures
            id == self.next(),
    {
        self.next_id
    }
}

} // verus!
