//! The fixed-step advance: one call of [`Game::step`] moves game time forward
//! exactly one tick (100 ms). The phase order is part of the determinism
//! contract.
use vstd::prelude::*;

use crate::entity::{
    HARVESTER_CAPACITY, spec_unit_stats, unit_stats, Building, BuildingType, EntityId, Player, Stance, Unit,
    UnitOrder, UnitType, Upgrade,
};
use crate::fixed::{dist2, fix_to_tile, is_isqrt, isqrt, spec_dist2, Pos, FIX_SCALE, POS_LIMIT};
use crate::game::{
    batch_run, building_keep, building_query, buildings_wf, keep_where, lemma_first_where,
    lemma_first_where_agree,
    lemma_keep_buildings_wf, lemma_keep_units_wf, power_consumed, power_produced,
    retain_alive_units, retain_buildings, unit_alive, units_wf, BuildingKeep, BuildingQuery,
    EventKind, Game, GameEvent, APM_COST, MAX_ENTITIES, ORE_LIMIT,
};
use crate::map::{in_map, spec_tile_index, tile_index, GameMap};
use crate::orders::{Command, CommandError};

verus! {

/// The eight neighbors tried, in order, when placing a newly trained unit.
pub open spec fn spec_spawn_offset(k: int) -> (int, int) {
    if k == 0 {
        (1, 0)
    } else if k == 1 {
        (-1, 0)
    } else if k == 2 {
        (0, 1)
    } else if k == 3 {
        (0, -1)
    } else if k == 4 {
        (1, 1)
    } else if k == 5 {
        (1, -1)
    } else if k == 6 {
        (-1, 1)
    } else {
        (-1, -1)
    }
}

fn spawn_offset(k: usize) -> (r: (i32, i32))
    ensures
        r.0 == spec_spawn_offset(k as int).0 && r.1 == spec_spawn_offset(k as int).1,
{
    if k == 0 {
        (1, 0)
    } else if k == 1 {
        (-1, 0)
    } else if k == 2 {
        (0, 1)
    } else if k == 3 {
        (0, -1)
    } else if k == 4 {
        (1, 1)
    } else if k == 5 {
        (1, -1)
    } else if k == 6 {
        (-1, 1)
    } else {
        (-1, -1)
    }
}

/// The HP a freshly trained unit gets (+15% with the HP upgrade).
pub open spec fn spawn_hp(ut: UnitType, upgrade: Upgrade) -> int {
    if upgrade == Upgrade::Hp {
        spec_unit_stats(ut).hp * 115 / 100
    } else {
        spec_unit_stats(ut).hp as int
    }
}

/// The order a freshly trained unit starts with.
pub open spec fn spawn_order(ut: UnitType, rally: Option<(u8, u8)>) -> UnitOrder {
    if ut == UnitType::Harvester {
        UnitOrder::Harvest
    } else {
        match rally {
            Some(r) => UnitOrder::Move {
                waypoint: Pos::spec_from_tile(r.0, r.1),
                stance: Stance::Aggressive,
            },
            None => UnitOrder::Idle,
        }
    }
}

/// A unit just trained on `tile`.
pub open spec fn fresh_unit(
    u: Unit,
    id: EntityId,
    owner: Player,
    utype: UnitType,
    tile: (u8, u8),
    rally: Option<(u8, u8)>,
    upgrade: Upgrade,
) -> bool {
    &&& u.id == id
    &&& u.owner == owner
    &&& u.utype == utype
    &&& u.pos == Pos::spec_from_tile(tile.0, tile.1)
    &&& u.hp == spawn_hp(utype, upgrade)
    &&& u.max_hp == u.hp
    &&& u.stance == Stance::Aggressive
    &&& u.order == spawn_order(utype, rally)
    &&& u.carrying == 0
    &&& u.cooldown == 0
    &&& u.mining == 0
    &&& u.park_ticks == 0
    &&& u.target is None
    &&& !u.fleeing
    &&& u.harvest_tile is None
    &&& u.refinery is None
}

impl Game {
    /// A tile a new unit may appear on: in the map, passable, no building.
    pub open spec fn spawn_free(self, x: int, y: int) -> bool {
        &&& 0 <= x < 64
        &&& 0 <= y < 64
        &&& self.map.passable_at(x, y)
        &&& self.building_at_idx((x as u8, y as u8)) is None
    }

    /// The first of the eight neighbors of `building` (in spawn order) that
    /// is free, if any.
    pub fn pick_spawn_tile(&self, building: (u8, u8)) -> (r: Option<(u8, u8)>)
        requires
            self.wf(),
        ensures
            r matches Some(t) ==> exists|k: int|
                0 <= k < 8 && t.0 == building.0 + spec_spawn_offset(k).0 && t.1 == building.1
                    + spec_spawn_offset(k).1 && self.spawn_free(t.0 as int, t.1 as int) && forall|
                    j: int,
                | 0 <= j < k ==> !self.spawn_free(
                    building.0 + #[trigger] spec_spawn_offset(j).0,
                    building.1 + spec_spawn_offset(j).1,
                ),
            r is None ==> forall|j: int|
                0 <= j < 8 ==> !self.spawn_free(
                    building.0 + #[trigger] spec_spawn_offset(j).0,
                    building.1 + spec_spawn_offset(j).1,
                ),
            r matches Some(t) ==> in_map(t),
            r == self.first_spawn_from(building, 0),
    {
        let mut k: usize = 0;
        while k < 8
            invariant
                self.wf(),
                0 <= k <= 8,
                self.first_spawn_from(building, 0) == self.first_spawn_from(building, k as int),
                forall|j: int|
                    0 <= j < k ==> !self.spawn_free(
                        building.0 + #[trigger] spec_spawn_offset(j).0,
                        building.1 + spec_spawn_offset(j).1,
                    ),
            decreases 8 - k,
        {
            let (dx, dy) = spawn_offset(k);
            let x = building.0 as i32 + dx;
            let y = building.1 as i32 + dy;
            if 0 <= x && x < 64 && 0 <= y && y < 64 {
                let t = (x as u8, y as u8);
                if self.map.is_passable(t.0, t.1) && self.building_at(t).is_none() {
                    assert(self.spawn_free(x as int, y as int));
                    return Some(t);
                }
            }
            k += 1;
        }
        None
    }

    /// Create a trained unit of `owner` on `tile`, heading for `rally` if set
    /// (harvesters always start harvesting).
    pub fn spawn_unit(&mut self, owner: Player, utype: UnitType, tile: (u8, u8), rally: Option<(u8, u8)>)
        requires
            old(self).wf(),
            old(self).next_id < u32::MAX,
            old(self).units@.len() < MAX_ENTITIES,
        ensures
            final(self).wf(),
            final(self).units@.len() == old(self).units@.len() + 1,
            forall|i: int|
                0 <= i < old(self).units@.len() ==> #[trigger] final(self).units@[i] == old(
                    self,
                ).units@[i],
            fresh_unit(
                final(self).units@[old(self).units@.len() as int],
                old(self).next_id,
                owner,
                utype,
                tile,
                rally,
                old(self).upgrades[owner.idx()],
            ),
            final(self).next_id == old(self).next_id + 1,
            final(self).events@ == old(self).events@.push(
                GameEvent {
                    tick: old(self).tick,
                    kind: EventKind::UnitTrained { player: owner, utype, tile },
                },
            ),
            final(self).buildings == old(self).buildings,
            final(self).ore == old(self).ore,
            final(self).map == old(self).map,
            final(self).config == old(self).config,
            final(self).upgrades == old(self).upgrades,
            final(self).tick == old(self).tick,
            final(self).winner == old(self).winner,
            final(self).win_reason == old(self).win_reason,
            final(self).over == old(self).over,
            final(self).apm == old(self).apm,
            final(self).dropped_commands == old(self).dropped_commands,
            final(self).fog == old(self).fog,
    {
        let stats = unit_stats(utype);
        let mut hp = stats.hp;
        if self.upgrades[owner.index()] == Upgrade::Hp {
            hp = hp * 115 / 100;
        }
        let id = self.alloc_id();
        let pos = Pos::from_tile(tile.0, tile.1);
        let order = if utype == UnitType::Harvester {
            UnitOrder::Harvest
        } else {
            match rally {
                Some(r) => UnitOrder::Move {
                    waypoint: Pos::from_tile(r.0, r.1),
                    stance: Stance::Aggressive,
                },
                None => UnitOrder::Idle,
            }
        };
        let path = match order {
            UnitOrder::Move { waypoint, .. } => {
                let blocked = self.blocked_grid();
                match self.map.find_path(tile, waypoint.tile(), &blocked) {
                    Some(p) => p,
                    None => Vec::new(),
                }
            },
            _ => Vec::new(),
        };
        self.units.push(
            Unit {
                id,
                owner,
                utype,
                pos,
                hp,
                max_hp: hp,
                stance: Stance::Aggressive,
                order,
                carrying: 0,
                cooldown: 0,
                mining: 0,
                park_ticks: 0,
                path,
                target: None,
                fleeing: false,
                harvest_tile: None,
                refinery: None,
            },
        );
        self.push_event(EventKind::UnitTrained { player: owner, utype, tile });
        proof {
            assert forall|i: int| 0 <= i < self.units@.len() implies (
            #[trigger] self.units@[i]).wf() by {
                if i < old(self).units@.len() {
                    assert(old(self).units@[i].wf());
                }
            }
        }
    }
}


/// A cooldown one tick later.
pub open spec fn cooled(c: i32) -> i32 {
    if c > 0 {
        (c - 1) as i32
    } else {
        c
    }
}

/// `p` consumes more power than it produces.
pub open spec fn low_power(g: Game, p: Player) -> bool {
    power_consumed(g.buildings@, p) > power_produced(g.buildings@, p)
}

/// Low power halves production and turret recovery: on odd ticks they stand
/// still.
pub open spec fn slowed(g: Game, p: Player) -> bool {
    low_power(g, p) && g.tick % 2 != 0
}

/// A unit to create: owner, type, spawn tile, rally point.
pub type Spawn = (Player, UnitType, (u8, u8), Option<(u8, u8)>);

/// One building's production tick, read off the state `g` at the start of
/// the phase: the new queue, the new progress and the unit it completes.
pub open spec fn production_step(g: Game, b: Building) -> (Seq<UnitType>, int, Option<Spawn>) {
    if b.queue@.len() == 0 {
        (b.queue@, 0, None)
    } else if slowed(g, b.owner) {
        (b.queue@, b.progress as int, None)
    } else {
        let ut = b.queue@[0];
        let bt = spec_unit_stats(ut).build_time as int;
        let p = b.progress + 1;
        if p >= bt {
            match g.first_spawn_from(b.tile, 0) {
                Some(t) => (b.queue@.drop_first(), 0, Some((b.owner, ut, t, b.rally))),
                None => (b.queue@, bt - 1, None),
            }
        } else {
            (b.queue@, p, None)
        }
    }
}

/// The units completed by the first `n` buildings, in building order.
pub open spec fn spawns_upto(g: Game, n: int) -> Seq<Spawn>
    decreases n,
{
    if n <= 0 {
        Seq::empty()
    } else {
        let prev = spawns_upto(g, n - 1);
        match production_step(g, g.buildings@[n - 1]).2 {
            Some(sp) => prev.push(sp),
            None => prev,
        }
    }
}

/// The units a production tick completes.
pub open spec fn production_spawns(g: Game) -> Seq<Spawn> {
    spawns_upto(g, g.buildings@.len() as int)
}

pub proof fn lemma_spawns_upto_len(g: Game, n: int)
    ensures
        spawns_upto(g, n).len() <= if n < 0 {
            0
        } else {
            n
        },
    decreases n,
{
    if n > 0 {
        lemma_spawns_upto_len(g, n - 1);
    }
}

impl Game {
    /// The first free spawn tile among the neighbors `k..8` of `b`.
    pub open spec fn first_spawn_from(self, b: (u8, u8), k: int) -> Option<(u8, u8)>
        decreases 8 - k,
    {
        if k < 0 || k >= 8 {
            None
        } else {
            let x = b.0 + spec_spawn_offset(k).0;
            let y = b.1 + spec_spawn_offset(k).1;
            if self.spawn_free(x, y) {
                Some((x as u8, y as u8))
            } else {
                self.first_spawn_from(b, k + 1)
            }
        }
    }
}

/// Spawn choices depend on the map and the building tiles alone.
pub proof fn lemma_spawn_from_agree(g1: Game, g2: Game, b: (u8, u8), k: int)
    requires
        g1.map == g2.map,
        g1.buildings@.len() == g2.buildings@.len(),
        forall|j: int| 0 <= j < g1.buildings@.len() ==> (#[trigger] g1.buildings@[j]).tile
            == g2.buildings@[j].tile,
    ensures
        g1.first_spawn_from(b, k) == g2.first_spawn_from(b, k),
    decreases 8 - k,
{
    if 0 <= k < 8 {
        let x = b.0 + spec_spawn_offset(k).0;
        let y = b.1 + spec_spawn_offset(k).1;
        let f = building_query(BuildingQuery::At(x as u8, y as u8));
        assert forall|j: int| 0 <= j < g1.buildings@.len() implies f(#[trigger] g1.buildings@[j])
            == f(g2.buildings@[j]) by {}
        lemma_first_where_agree(g1.buildings@, g2.buildings@, f, 0);
        lemma_spawn_from_agree(g1, g2, b, k + 1);
    }
}

impl Game {
    /// Cooldowns tick down: every unit's, and every building's unless its
    /// owner is low on power and the tick is odd.
    pub fn cooldown_phase(&mut self)
        requires
            old(self).wf(),
        ensures
            final(self).wf(),
            final(self).units@.len() == old(self).units@.len(),
            forall|i: int|
                0 <= i < old(self).units@.len() ==> #[trigger] final(self).units@[i] == (Unit {
                    cooldown: cooled(old(self).units@[i].cooldown),
                    ..old(self).units@[i]
                }),
            final(self).buildings@.len() == old(self).buildings@.len(),
            forall|i: int|
                0 <= i < old(self).buildings@.len() ==> #[trigger] final(self).buildings@[i] == (
                Building {
                    cooldown: if slowed(*old(self), old(self).buildings@[i].owner) {
                        old(self).buildings@[i].cooldown
                    } else {
                        cooled(old(self).buildings@[i].cooldown)
                    },
                    ..old(self).buildings@[i]
                }),
            *final(self) == (Game {
                units: final(self).units,
                buildings: final(self).buildings,
                ..*old(self)
            }),
    {
        let low0 = self.has_low_power(Player::P0);
        let low1 = self.has_low_power(Player::P1);
        let odd = self.tick % 2 != 0;
        let mut i: usize = 0;
        while i < self.units.len()
            invariant
                0 <= i <= self.units@.len(),
                self.units@.len() == old(self).units@.len(),
                forall|j: int|
                    0 <= j < self.units@.len() ==> #[trigger] self.units@[j] == if j < i {
                        Unit { cooldown: cooled(old(self).units@[j].cooldown), ..old(self).units@[j] }
                    } else {
                        old(self).units@[j]
                    },
                *self == (Game { units: self.units, ..*old(self) }),
            decreases self.units.len() - i,
        {
            if self.units[i].cooldown > 0 {
                self.units[i].cooldown = self.units[i].cooldown - 1;
            }
            i += 1;
        }
        let ghost mid = *self;
        let mut k: usize = 0;
        while k < self.buildings.len()
            invariant
                0 <= k <= self.buildings@.len(),
                self.buildings@.len() == old(self).buildings@.len(),
                low0 == low_power(*old(self), Player::P0),
                low1 == low_power(*old(self), Player::P1),
                odd == (old(self).tick % 2 != 0),
                forall|j: int|
                    0 <= j < self.buildings@.len() ==> #[trigger] self.buildings@[j] == if j < k {
                        Building {
                            cooldown: if slowed(*old(self), old(self).buildings@[j].owner) {
                                old(self).buildings@[j].cooldown
                            } else {
                                cooled(old(self).buildings@[j].cooldown)
                            },
                            ..old(self).buildings@[j]
                        }
                    } else {
                        old(self).buildings@[j]
                    },
                *self == (Game { buildings: self.buildings, ..mid }),
            decreases self.buildings.len() - k,
        {
            if self.buildings[k].cooldown > 0 {
                let low = match self.buildings[k].owner {
                    Player::P0 => low0,
                    Player::P1 => low1,
                };
                if !(low && odd) {
                    self.buildings[k].cooldown = self.buildings[k].cooldown - 1;
                }
            }
            k += 1;
        }
        proof {
            assert forall|j: int| 0 <= j < self.units@.len() implies (
            #[trigger] self.units@[j]).wf() by {
                assert(old(self).units@[j].wf());
            }
            assert forall|j: int| 0 <= j < self.buildings@.len() implies (
            #[trigger] self.buildings@[j]).wf() by {
                assert(old(self).buildings@[j].wf());
            }
        }
    }

    /// Remove dead units and buildings, keeping the order of the rest.
    pub fn sweep_dead(&mut self)
        requires
            old(self).wf(),
        ensures
            final(self).wf(),
            final(self).units@ == keep_where(old(self).units@, unit_alive()),
            final(self).buildings@ == keep_where(
                old(self).buildings@,
                building_keep(BuildingKeep::Alive),
            ),
            *final(self) == (Game {
                units: final(self).units,
                buildings: final(self).buildings,
                ..*old(self)
            }),
    {
        retain_alive_units(&mut self.units);
        retain_buildings(&mut self.buildings, BuildingKeep::Alive);
        proof {
            lemma_keep_units_wf(old(self).units@, unit_alive());
            lemma_keep_buildings_wf(old(self).buildings@, building_keep(BuildingKeep::Alive));
            crate::game::lemma_keep_where(old(self).units@, unit_alive());
            crate::game::lemma_keep_where(old(self).buildings@, building_keep(BuildingKeep::Alive));
        }
    }

    /// Advance production queues and spawn the completed units. Each
    /// building with a queue gains a tick of progress (none on odd ticks
    /// while its owner is low on power); a finished unit appears on the
    /// first free neighbor of its building, or the building waits at
    /// completion until one frees up. Units appear in building order.
    pub fn production_phase(&mut self)
        requires
            old(self).wf(),
            old(self).next_id + old(self).buildings@.len() < u32::MAX,
            old(self).units@.len() + old(self).buildings@.len() <= MAX_ENTITIES,
        ensures
            final(self).wf(),
            final(self).buildings@.len() == old(self).buildings@.len(),
            forall|i: int|
                0 <= i < old(self).buildings@.len() ==> {
                    let b = #[trigger] final(self).buildings@[i];
                    let o = old(self).buildings@[i];
                    let st = production_step(*old(self), o);
                    &&& b.id == o.id && b.owner == o.owner && b.btype == o.btype
                    &&& b.tile == o.tile && b.hp == o.hp && b.max_hp == o.max_hp
                    &&& b.rally == o.rally && b.cooldown == o.cooldown
                    &&& b.queue@ == st.0
                    &&& b.progress == st.1
                },
            final(self).units@.len() == old(self).units@.len() + production_spawns(
                *old(self),
            ).len(),
            forall|i: int|
                0 <= i < old(self).units@.len() ==> #[trigger] final(self).units@[i] == old(
                    self,
                ).units@[i],
            forall|k: int|
                0 <= k < production_spawns(*old(self)).len() ==> {
                    let sp = #[trigger] production_spawns(*old(self))[k];
                    fresh_unit(
                        final(self).units@[old(self).units@.len() + k],
                        (old(self).next_id + k) as EntityId,
                        sp.0,
                        sp.1,
                        sp.2,
                        sp.3,
                        old(self).upgrades[sp.0.idx()],
                    )
                },
            final(self).next_id == old(self).next_id + production_spawns(*old(self)).len(),
            final(self).events@.len() == old(self).events@.len() + production_spawns(
                *old(self),
            ).len(),
            forall|k: int|
                0 <= k < old(self).events@.len() ==> #[trigger] final(self).events@[k] == old(
                    self,
                ).events@[k],
            forall|k: int|
                0 <= k < production_spawns(*old(self)).len() ==> {
                    let sp = #[trigger] production_spawns(*old(self))[k];
                    final(self).events@[old(self).events@.len() + k] == GameEvent {
                        tick: old(self).tick,
                        kind: EventKind::UnitTrained { player: sp.0, utype: sp.1, tile: sp.2 },
                    }
                },
            final(self).ore == old(self).ore,
            final(self).map == old(self).map,
            final(self).config == old(self).config,
            final(self).upgrades == old(self).upgrades,
            final(self).tick == old(self).tick,
            final(self).winner == old(self).winner,
            final(self).win_reason == old(self).win_reason,
            final(self).over == old(self).over,
            final(self).apm == old(self).apm,
            final(self).dropped_commands == old(self).dropped_commands,
            final(self).fog == old(self).fog,
    {
        let low0 = self.has_low_power(Player::P0);
        let low1 = self.has_low_power(Player::P1);
        let odd = self.tick % 2 != 0;
        let mut spawns: Vec<Spawn> = Vec::new();
        let mut i: usize = 0;
        while i < self.buildings.len()
            invariant
                0 <= i <= self.buildings@.len(),
                self.buildings@.len() == old(self).buildings@.len(),
                low0 == low_power(*old(self), Player::P0),
                low1 == low_power(*old(self), Player::P1),
                odd == (old(self).tick % 2 != 0),
                old(self).wf(),
                buildings_wf(self.buildings@),
                spawns@ == spawns_upto(*old(self), i as int),
                forall|j: int|
                    0 <= j < self.buildings@.len() ==> {
                        let b = #[trigger] self.buildings@[j];
                        let o = old(self).buildings@[j];
                        let st = production_step(*old(self), o);
                        &&& b.id == o.id && b.owner == o.owner && b.btype == o.btype
                        &&& b.tile == o.tile && b.hp == o.hp && b.max_hp == o.max_hp
                        &&& b.rally == o.rally && b.cooldown == o.cooldown
                        &&& j < i ==> b.queue@ == st.0 && b.progress == st.1
                        &&& j >= i ==> b.queue@ == o.queue@ && b.progress == o.progress
                    },
                *self == (Game { buildings: self.buildings, ..*old(self) }),
            decreases self.buildings.len() - i,
        {
            assert(self.buildings@[i as int].wf());
            assert(old(self).buildings@[i as int].wf());
            let ghost ob = old(self).buildings@[i as int];
            let ghost step = production_step(*old(self), ob);
            assert(self.buildings@[i as int].queue@ == ob.queue@);
            if self.buildings[i].queue.len() == 0 {
                self.buildings[i].progress = 0;
            } else {
                let owner = self.buildings[i].owner;
                let low = match owner {
                    Player::P0 => low0,
                    Player::P1 => low1,
                };
                assert((low && odd) == slowed(*old(self), ob.owner));
                if !(low && odd) {
                    let utype = self.buildings[i].queue[0];
                    let build_time = unit_stats(utype).build_time;
                    let progress = self.buildings[i].progress + 1;
                    if progress >= build_time {
                        let tile = self.buildings[i].tile;
                        let rally = self.buildings[i].rally;
                        proof {
                            lemma_spawn_from_agree(*self, *old(self), tile, 0);
                        }
                        match self.pick_spawn_tile(tile) {
                            Some(st) => {
                                spawns.push((owner, utype, st, rally));
                                let mut q = crate::entity::copy_unit_types(&self.buildings[i].queue);
                                q.remove(0);
                                assert(q@ =~= ob.queue@.drop_first());
                                self.buildings[i].queue = q;
                                self.buildings[i].progress = 0;
                            },
                            None => {
                                self.buildings[i].progress = build_time - 1;
                            },
                        }
                    } else {
                        self.buildings[i].progress = progress;
                    }
                }
            }
            proof {
                assert(self.buildings@[i as int].wf());
                assert(spawns_upto(*old(self), i + 1) == match production_step(
                    *old(self),
                    old(self).buildings@[i as int],
                ).2 {
                    Some(sp) => spawns_upto(*old(self), i as int).push(sp),
                    None => spawns_upto(*old(self), i as int),
                });
            }
            i += 1;
        }
        proof {
            lemma_spawns_upto_len(*old(self), old(self).buildings@.len() as int);
            assert(self.wf());
        }
        let ghost mid = *self;
        let mut k: usize = 0;
        while k < spawns.len()
            invariant
                0 <= k <= spawns@.len(),
                spawns@ == production_spawns(*old(self)),
                spawns@.len() <= old(self).buildings@.len(),
                old(self).next_id + old(self).buildings@.len() < u32::MAX,
                old(self).units@.len() + old(self).buildings@.len() <= MAX_ENTITIES,
                self.wf(),
                self.buildings == mid.buildings,
                mid.units == old(self).units,
                mid.next_id == old(self).next_id,
                mid.events == old(self).events,
                self.units@.len() == old(self).units@.len() + k,
                forall|j: int|
                    0 <= j < old(self).units@.len() ==> #[trigger] self.units@[j] == old(
                        self,
                    ).units@[j],
                forall|j: int|
                    0 <= j < k ==> {
                        let sp = #[trigger] spawns@[j];
                        fresh_unit(
                            self.units@[old(self).units@.len() + j],
                            (old(self).next_id + j) as EntityId,
                            sp.0,
                            sp.1,
                            sp.2,
                            sp.3,
                            old(self).upgrades[sp.0.idx()],
                        )
                    },
                self.next_id == old(self).next_id + k,
                self.events@.len() == old(self).events@.len() + k,
                forall|j: int|
                    0 <= j < old(self).events@.len() ==> #[trigger] self.events@[j] == old(
                        self,
                    ).events@[j],
                forall|j: int|
                    0 <= j < k ==> {
                        let sp = #[trigger] spawns@[j];
                        self.events@[old(self).events@.len() + j] == GameEvent {
                            tick: old(self).tick,
                            kind: EventKind::UnitTrained { player: sp.0, utype: sp.1, tile: sp.2 },
                        }
                    },
                self.ore == old(self).ore,
                self.map == old(self).map,
                self.config == old(self).config,
                self.upgrades == old(self).upgrades,
                self.tick == old(self).tick,
                self.winner == old(self).winner,
                self.win_reason == old(self).win_reason,
                self.over == old(self).over,
                self.apm == old(self).apm,
                self.dropped_commands == old(self).dropped_commands,
                self.fog == old(self).fog,
            decreases spawns.len() - k,
        {
            let (owner, utype, tile, rally) = spawns[k];
            self.spawn_unit(owner, utype, tile, rally);
            k += 1;
        }
    }
}


/// Units closer than half a tile push apart.
pub const MIN_SEP: i64 = 128;

/// The integer square root of `n >= 0`.
pub open spec fn spec_isqrt(n: int) -> int {
    choose|r: int| is_isqrt(n, r)
}

/// Integer square roots are unique.
pub proof fn lemma_isqrt_unique(n: int, r: int)
    requires
        is_isqrt(n, r),
    ensures
        spec_isqrt(n) == r,
{
    let q = spec_isqrt(n);
    assert(is_isqrt(n, q));
    if q < r {
        assert((q + 1) * (q + 1) <= r * r) by (nonlinear_arith)
            requires
                0 <= q < r,
        ;
    }
    if r < q {
        assert((r + 1) * (r + 1) <= q * q) by (nonlinear_arith)
            requires
                0 <= r < q,
        ;
    }
}

proof fn lemma_div_bound(a: int, d: int)
    requires
        0 <= a <= 8192,
        d >= 1,
    ensures
        0 <= a / d <= 8192,
{
    assert(0 <= a / d <= a) by (nonlinear_arith)
        requires
            0 <= a,
            d >= 1,
    ;
}

/// `a * push / d` rounded toward zero, as the separation push does it.
pub open spec fn push_offset(a: int, push: int, d: int) -> int {
    if a >= 0 {
        (a * push) / d
    } else {
        -(((-a) * push) / d)
    }
}

/// Where unit `b` is pushed to when it stands too close to unit `a`:
/// straight along +x when they coincide, else half the overlap (at least one
/// unit) directly away from `a`. `None` when they are far enough apart.
pub open spec fn separation_push(a: Pos, b: Pos) -> Option<Pos> {
    let dx = b.x - a.x;
    let dy = b.y - a.y;
    let d2 = dx * dx + dy * dy;
    if d2 >= MIN_SEP * MIN_SEP {
        None
    } else if d2 == 0 {
        Some(Pos { x: (b.x + MIN_SEP) as i32, y: b.y })
    } else {
        let d = spec_isqrt(d2);
        let push = if (MIN_SEP - d) / 2 > 1 {
            (MIN_SEP - d) / 2
        } else {
            1
        };
        Some(
            Pos {
                x: (b.x + push_offset(dx, push, d)) as i32,
                y: (b.y + push_offset(dy, push, d)) as i32,
            },
        )
    }
}

/// A building stands on tile `t`.
pub open spec fn occupied(s: Seq<Building>, t: int) -> bool {
    exists|j: int|
        0 <= j < s.len() && spec_tile_index(
            #[trigger] s[j].tile.0 as int,
            s[j].tile.1 as int,
        ) == t
}

/// A pushed position is taken only inside the world, on a passable tile
/// with no building.
pub open spec fn push_accepted(map: GameMap, bs: Seq<Building>, p: Pos) -> bool {
    &&& p.inside()
    &&& map.passable_at(p.spec_tile().0 as int, p.spec_tile().1 as int)
    &&& !occupied(bs, spec_tile_index(p.spec_tile().0 as int, p.spec_tile().1 as int))
}

/// The positions after unit `j` reacts to unit `i`.
pub open spec fn sep_pair(map: GameMap, bs: Seq<Building>, ps: Seq<Pos>, i: int, j: int) -> Seq<
    Pos,
> {
    match separation_push(ps[i], ps[j]) {
        Some(p) => if push_accepted(map, bs, p) {
            ps.update(j, p)
        } else {
            ps
        },
        None => ps,
    }
}

/// Units `j..` react to unit `i`, in order.
pub open spec fn sep_row(map: GameMap, bs: Seq<Building>, ps: Seq<Pos>, i: int, j: int) -> Seq<Pos>
    decreases ps.len() - j,
{
    if j < 0 || j >= ps.len() {
        ps
    } else {
        let next = sep_pair(map, bs, ps, i, j);
        if next.len() == ps.len() {
            sep_row(map, bs, next, i, j + 1)
        } else {
            ps
        }
    }
}

/// Every pair `i < j` from unit `i` on, in ascending order; only the later
/// unit moves.
pub open spec fn sep_all(map: GameMap, bs: Seq<Building>, ps: Seq<Pos>, i: int) -> Seq<Pos>
    decreases ps.len() - i,
{
    if i < 0 || i >= ps.len() {
        ps
    } else {
        let next = sep_row(map, bs, ps, i, i + 1);
        if next.len() == ps.len() {
            sep_all(map, bs, next, i + 1)
        } else {
            ps
        }
    }
}

pub proof fn lemma_sep_row_len(map: GameMap, bs: Seq<Building>, ps: Seq<Pos>, i: int, j: int)
    ensures
        sep_row(map, bs, ps, i, j).len() == ps.len(),
    decreases ps.len() - j,
{
    if 0 <= j < ps.len() {
        let next = sep_pair(map, bs, ps, i, j);
        if next.len() == ps.len() {
            lemma_sep_row_len(map, bs, next, i, j + 1);
        }
    }
}

/// The positions of a list of units.
pub open spec fn positions(s: Seq<Unit>) -> Seq<Pos> {
    Seq::new(s.len(), |k: int| s[k].pos)
}

impl Game {
    /// Push overlapping units apart: for every pair `i < j` in list order
    /// the later unit steps away from the earlier one (see
    /// [`separation_push`]), if its new spot is inside the world, passable
    /// and free of buildings.
    pub fn separation_phase(&mut self)
        requires
            old(self).wf(),
        ensures
            final(self).wf(),
            final(self).units@.len() == old(self).units@.len(),
            forall|k: int|
                0 <= k < old(self).units@.len() ==> #[trigger] final(self).units@[k] == (Unit {
                    pos: sep_all(
                        old(self).map,
                        old(self).buildings@,
                        positions(old(self).units@),
                        0,
                    )[k],
                    ..old(self).units@[k]
                }),
            *final(self) == (Game { units: final(self).units, ..*old(self) }),
    {
        let blocked = self.blocked_grid();
        let ghost map = self.map;
        let ghost bs = self.buildings@;
        let ghost target = sep_all(map, bs, positions(old(self).units@), 0);
        let n = self.units.len();
        let mut i: usize = 0;
        while i < n
            invariant
                n == self.units@.len(),
                n == old(self).units@.len(),
                0 <= i <= n,
                self.wf(),
                blocked@.len() == 4096,
                forall|t: int| 0 <= t < 4096 ==> #[trigger] blocked@[t] == occupied(bs, t),
                map == self.map,
                bs == self.buildings@,
                sep_all(map, bs, positions(self.units@), i as int) == target,
                forall|k: int|
                    0 <= k < n ==> #[trigger] self.units@[k] == (Unit {
                        pos: self.units@[k].pos,
                        ..old(self).units@[k]
                    }),
                *self == (Game { units: self.units, ..*old(self) }),
            decreases n - i,
        {
            proof {
                lemma_sep_row_len(map, bs, positions(self.units@), i as int, i + 1);
            }
            let mut j: usize = i + 1;
            while j < n
                invariant
                    n == self.units@.len(),
                    n == old(self).units@.len(),
                    0 <= i < n,
                    i + 1 <= j <= n,
                    self.wf(),
                    blocked@.len() == 4096,
                    forall|t: int| 0 <= t < 4096 ==> #[trigger] blocked@[t] == occupied(bs, t),
                    map == self.map,
                    bs == self.buildings@,
                    sep_all(
                        map,
                        bs,
                        sep_row(map, bs, positions(self.units@), i as int, j as int),
                        i + 1,
                    ) == target,
                    forall|k: int|
                        0 <= k < n ==> #[trigger] self.units@[k] == (Unit {
                            pos: self.units@[k].pos,
                            ..old(self).units@[k]
                        }),
                    *self == (Game { units: self.units, ..*old(self) }),
                decreases n - j,
            {
                let ghost ps = positions(self.units@);
                let a = self.units[i].pos;
                let b = self.units[j].pos;
                assert(self.units@[i as int].wf());
                assert(self.units@[j as int].wf());
                assert(ps[i as int] == a && ps[j as int] == b);
                let d2 = dist2(b.x, b.y, a.x, a.y);
                if d2 < MIN_SEP * MIN_SEP {
                    let dx = b.x as i64 - a.x as i64;
                    let dy = b.y as i64 - a.y as i64;
                    assert(d2 == dx * dx + dy * dy);
                    let (nx, ny): (i32, i32) = if d2 == 0 {
                        (b.x + MIN_SEP as i32, b.y)
                    } else {
                        let d = isqrt(d2);
                        proof {
                            lemma_isqrt_unique(d2 as int, d as int);
                            assert(1 <= d < 128) by (nonlinear_arith)
                                requires
                                    d * d <= d2 < (d + 1) * (d + 1),
                                    1 <= d2 < 16384,
                                    d >= 0,
                            ;
                            assert(dx * dx < 16384 && dy * dy < 16384) by (nonlinear_arith)
                                requires
                                    d2 == dx * dx + dy * dy,
                                    d2 < 16384,
                            ;
                            assert(-128 < dx < 128 && -128 < dy < 128) by (nonlinear_arith)
                                requires
                                    dx * dx < 16384,
                                    dy * dy < 16384,
                            ;
                        }
                        let half = (MIN_SEP - d) / 2;
                        let push = if half > 1 {
                            half
                        } else {
                            1
                        };
                        proof {
                            assert(-128 * 64 <= dx * push <= 128 * 64) by (nonlinear_arith)
                                requires
                                    -128 < dx < 128,
                                    1 <= push <= 64,
                            ;
                            assert(-128 * 64 <= dy * push <= 128 * 64) by (nonlinear_arith)
                                requires
                                    -128 < dy < 128,
                                    1 <= push <= 64,
                            ;
                            assert(dx < 0 ==> 0 <= (-dx) * push) by (nonlinear_arith)
                                requires
                                    push >= 1,
                            ;
                            assert(dy < 0 ==> 0 <= (-dy) * push) by (nonlinear_arith)
                                requires
                                    push >= 1,
                            ;
                            assert(dx >= 0 ==> 0 <= dx * push) by (nonlinear_arith)
                                requires
                                    push >= 1,
                            ;
                            assert(dy >= 0 ==> 0 <= dy * push) by (nonlinear_arith)
                                requires
                                    push >= 1,
                            ;
                            if dx >= 0 {
                                lemma_div_bound(dx * push, d as int);
                            } else {
                                assert((-dx) * push == -(dx * push)) by (nonlinear_arith);
                                lemma_div_bound((-dx) * push, d as int);
                            }
                            if dy >= 0 {
                                lemma_div_bound(dy * push, d as int);
                            } else {
                                assert((-dy) * push == -(dy * push)) by (nonlinear_arith);
                                lemma_div_bound((-dy) * push, d as int);
                            }
                        }
                        let ox = if dx >= 0 {
                            dx * push / d
                        } else {
                            -((-dx) * push / d)
                        };
                        let oy = if dy >= 0 {
                            dy * push / d
                        } else {
                            -((-dy) * push / d)
                        };
                        ((b.x as i64 + ox) as i32, (b.y as i64 + oy) as i32)
                    };
                    let np = Pos::new(nx, ny);
                    proof {
                        assert(separation_push(a, b) == Some(np));
                    }
                    if -POS_LIMIT <= nx && nx <= POS_LIMIT && -POS_LIMIT <= ny && ny <= POS_LIMIT {
                        let tx = fix_to_tile(nx);
                        let ty = fix_to_tile(ny);
                        if self.map.is_passable(tx, ty) && !blocked[tile_index(tx, ty)] {
                            self.units[j].pos = np;
                        }
                    }
                }
                proof {
                    assert(positions(self.units@) =~= sep_pair(map, bs, ps, i as int, j as int));
                    lemma_sep_row_len(map, bs, ps, i as int, j as int);
                }
                j += 1;
            }
            proof {
                assert(sep_row(map, bs, positions(self.units@), i as int, n as int) == positions(self.units@));
            }
            i += 1;
        }
        proof {
            assert(positions(self.units@) == target);
            assert forall|k: int| 0 <= k < n implies #[trigger] self.units@[k] == (Unit {
                pos: target[k],
                ..old(self).units@[k]
            }) by {
                assert(positions(self.units@)[k] == self.units@[k].pos);
            }
        }
    }
}


/// One command budget refilled for one tick, never beyond capacity.
pub open spec fn apm_refilled(a: crate::game::ApmBudget, b: crate::game::ApmBudget) -> bool {
    &&& b.capacity() == a.capacity()
    &&& b.refill() == a.refill()
    &&& b.level() == if a.level() + a.refill() < a.capacity() {
        a.level() + a.refill()
    } else {
        a.capacity() as int
    }
}

/// The start of a tick: the clock advances and both budgets refill.
pub open spec fn clock_outcome(old: Game, new: Game) -> bool {
    &&& new == (Game { tick: new.tick, apm: new.apm, ..old })
    &&& new.tick == old.tick + 1
    &&& apm_refilled(old.apm[0], new.apm[0])
    &&& apm_refilled(old.apm[1], new.apm[1])
}

/// Cooldowns count down (a turret of a side short of power does not).
pub open spec fn cooldown_outcome(old: Game, new: Game) -> bool {
    &&& new.units@.len() == old.units@.len()
    &&& forall|i: int|
        0 <= i < old.units@.len() ==> #[trigger] new.units@[i] == (Unit {
            cooldown: cooled(old.units@[i].cooldown),
            ..old.units@[i]
        })
    &&& new.buildings@.len() == old.buildings@.len()
    &&& forall|i: int|
        0 <= i < old.buildings@.len() ==> #[trigger] new.buildings@[i] == (Building {
            cooldown: if slowed(old, old.buildings@[i].owner) {
                old.buildings@[i].cooldown
            } else {
                cooled(old.buildings@[i].cooldown)
            },
            ..old.buildings@[i]
        })
    &&& new == (Game { units: new.units, buildings: new.buildings, ..old })
}

/// Every alive harvester takes its turn, in order.
pub open spec fn economy_outcome(old: Game, new: Game) -> bool {
    exists|states: Seq<Game>|
        #[trigger] crate::economy::harvester_chain(
            states,
            crate::economy::harvester_ids(old.units@),
            crate::combat::blocked_by(old),
        ) && states[0] == old && states[states.len() - 1] == new
}

/// Every building's production queue advances; finished units spawn with
/// fresh ids and an event each.
pub open spec fn production_outcome(old: Game, new: Game) -> bool {
    &&& new.buildings@.len() == old.buildings@.len()
    &&& forall|i: int|
        0 <= i < old.buildings@.len() ==> {
            let b = #[trigger] new.buildings@[i];
            let o = old.buildings@[i];
            let st = production_step(old, o);
            &&& b.id == o.id && b.owner == o.owner && b.btype == o.btype
            &&& b.tile == o.tile && b.hp == o.hp && b.max_hp == o.max_hp
            &&& b.rally == o.rally && b.cooldown == o.cooldown
            &&& b.queue@ == st.0
            &&& b.progress == st.1
        }
    &&& new.units@.len() == old.units@.len() + production_spawns(old).len()
    &&& forall|i: int| 0 <= i < old.units@.len() ==> #[trigger] new.units@[i] == old.units@[i]
    &&& forall|k: int|
        0 <= k < production_spawns(old).len() ==> {
            let sp = #[trigger] production_spawns(old)[k];
            fresh_unit(
                new.units@[old.units@.len() + k],
                (old.next_id + k) as EntityId,
                sp.0,
                sp.1,
                sp.2,
                sp.3,
                old.upgrades[sp.0.idx()],
            )
        }
    &&& new.next_id == old.next_id + production_spawns(old).len()
    &&& new.events@.len() == old.events@.len() + production_spawns(old).len()
    &&& forall|k: int| 0 <= k < old.events@.len() ==> #[trigger] new.events@[k] == old.events@[k]
    &&& forall|k: int|
        0 <= k < production_spawns(old).len() ==> {
            let sp = #[trigger] production_spawns(old)[k];
            new.events@[old.events@.len() + k] == GameEvent {
                tick: old.tick,
                kind: EventKind::UnitTrained { player: sp.0, utype: sp.1, tile: sp.2 },
            }
        }
    &&& new.ore == old.ore
    &&& new.map == old.map
    &&& new.config == old.config
    &&& new.upgrades == old.upgrades
    &&& new.tick == old.tick
    &&& new.winner == old.winner
    &&& new.win_reason == old.win_reason
    &&& new.over == old.over
    &&& new.apm == old.apm
    &&& new.dropped_commands == old.dropped_commands
    &&& new.fog == old.fog
}

/// Every alive combat unit takes its turn, in order.
pub open spec fn combat_outcome(old: Game, new: Game) -> bool {
    exists|states: Seq<Game>|
        #[trigger] crate::combat::unit_chain(
            states,
            crate::combat::fighter_ids(old.units@),
            crate::combat::blocked_by(old),
        ) && states[0] == old && states[states.len() - 1] == new
}

/// Every alive defensive building takes its turn, in order.
pub open spec fn turrets_outcome(old: Game, new: Game) -> bool {
    exists|states: Seq<Game>|
        #[trigger] crate::combat::turret_chain(states, crate::combat::turret_ids(old.buildings@))
            && states[0] == old && states[states.len() - 1] == new
}

/// Overlapping units push apart.
pub open spec fn separation_outcome(old: Game, new: Game) -> bool {
    &&& new.units@.len() == old.units@.len()
    &&& forall|k: int|
        0 <= k < old.units@.len() ==> #[trigger] new.units@[k] == (Unit {
            pos: sep_all(old.map, old.buildings@, positions(old.units@), 0)[k],
            ..old.units@[k]
        })
    &&& new == (Game { units: new.units, ..old })
}

/// The dead are removed, everything else keeps its order.
pub open spec fn sweep_outcome(old: Game, new: Game) -> bool {
    &&& new.units@ == keep_where(old.units@, unit_alive())
    &&& new.buildings@ == keep_where(old.buildings@, building_keep(BuildingKeep::Alive))
    &&& new == (Game { units: new.units, buildings: new.buildings, ..old })
}

/// Each side's fog memory takes in what it sees now.
pub open spec fn fog_outcome(old: Game, new: Game) -> bool {
    &&& new.units == old.units
    &&& new.buildings == old.buildings
    &&& new.map == old.map
    &&& new.config == old.config
    &&& new.ore == old.ore
    &&& new.upgrades == old.upgrades
    &&& new.tick == old.tick
    &&& new.winner == old.winner
    &&& new.win_reason == old.win_reason
    &&& new.over == old.over
    &&& new.apm == old.apm
    &&& new.next_id == old.next_id
    &&& new.events == old.events
    &&& new.dropped_commands == old.dropped_commands
    &&& forall|p: Player|
        #![trigger new.fog[p.idx()]]
        new.fog[p.idx()].units@ == crate::fog::remembered_units(old, p, crate::fog::visible_grid(old, p))
            && new.fog[p.idx()].buildings@ == crate::fog::remembered_buildings(
            old,
            p,
            crate::fog::visible_grid(old, p),
        )
    &&& forall|p: Player, t: int|
        #![trigger new.fog[p.idx()].known_ore@[t]]
        0 <= t < 4096 ==> new.fog[p.idx()].known_ore@[t] == (old.fog[p.idx()].known_ore@[t] || (
        crate::fog::visible_grid(old, p)[t] && old.map.ore@[t] > 0))
    &&& forall|p: Player, t: int|
        #![trigger new.fog[p.idx()].explored@[t]]
        0 <= t < 4096 ==> new.fog[p.idx()].explored@[t] == (old.fog[p.idx()].explored@[t]
            || crate::fog::visible_grid(old, p)[t])
}

/// The win rule is applied.
pub open spec fn win_outcome(old: Game, new: Game) -> bool {
    &&& new.winner == old.spec_win_check().0
    &&& new.win_reason == old.spec_win_check().1
    &&& new.over == old.spec_win_check().2
    &&& new == (Game { winner: new.winner, win_reason: new.win_reason, over: new.over, ..old })
}

/// One call of `Game::step`: nothing once the match is over; else a tick
/// through all its phases.
pub open spec fn step_outcome(old: Game, new: Game) -> bool {
    &&& old.spec_is_over() ==> new == old
    &&& !old.spec_is_over() ==> exists|states: Seq<Game>|
        #[trigger] step_chain(old, states) && states[9] == new
}

/// The states a tick passes through, phase by phase: clock and budgets,
/// cooldowns, economy, production, combat, turrets, separation, the sweep
/// of the dead, fog of war and the win rule.
pub open spec fn step_chain(old: Game, s: Seq<Game>) -> bool {
    &&& s.len() == 10
    &&& clock_outcome(old, s[0])
    &&& cooldown_outcome(s[0], s[1])
    &&& economy_outcome(s[1], s[2])
    &&& production_outcome(s[2], s[3])
    &&& combat_outcome(s[3], s[4])
    &&& turrets_outcome(s[4], s[5])
    &&& separation_outcome(s[5], s[6])
    &&& sweep_outcome(s[6], s[7])
    &&& fog_outcome(s[7], s[8])
    &&& win_outcome(s[8], s[9])
}

impl Game {
    /// Headroom for one more tick: the tick counter, the banks (each alive
    /// harvester deposits at most one load), the entity count (each building
    /// completes at most one unit) and the id counter stay in range.
    pub open spec fn room_for_tick(self) -> bool {
        &&& self.tick < i32::MAX
        &&& self.ore[0] + HARVESTER_CAPACITY * self.units@.len() <= ORE_LIMIT
        &&& self.ore[1] + HARVESTER_CAPACITY * self.units@.len() <= ORE_LIMIT
        &&& self.units@.len() + self.buildings@.len() <= MAX_ENTITIES
        &&& self.next_id + self.buildings@.len() < u32::MAX
    }

    /// Whether one more tick keeps every counter in range.
    pub fn has_room_for_tick(&self) -> (r: bool)
        requires
            self.wf(),
        ensures
            r == self.room_for_tick(),
    {
        let n = self.units.len() as u64;
        let m = self.buildings.len() as u64;
        let cap = HARVESTER_CAPACITY as u64;
        self.tick < i32::MAX && (self.ore[0] as u64) + cap * n <= ORE_LIMIT as u64 && (
        self.ore[1] as u64) + cap * n <= ORE_LIMIT as u64 && n + m <= MAX_ENTITIES as u64 && (
        self.next_id as u64) + m < u32::MAX as u64
    }

    /// Advance one tick (100 ms); a finished match does not change. Phase
    /// order: tick counter and command budgets, cooldowns, economy,
    /// production, combat, turrets, separation, removal of the dead, fog,
    /// win check.
    pub fn step(&mut self)
        requires
            old(self).wf(),
            old(self).room_for_tick(),
        ensures
            final(self).wf(),
            old(self).spec_is_over() ==> *final(self) == *old(self),
            step_outcome(*old(self), *final(self)),
            ids_ordered(*old(self)) ==> ids_ordered(*final(self)),
            !old(self).spec_is_over() ==> {
                &&& final(self).tick == old(self).tick + 1
                &&& final(self).config == old(self).config
                &&& final(self).upgrades == old(self).upgrades
                &&& final(self).dropped_commands == old(self).dropped_commands
                &&& final(self).ore[0] >= old(self).ore[0]
                &&& final(self).ore[1] >= old(self).ore[1]
                &&& final(self).next_id >= old(self).next_id
                &&& final(self).events@.len() >= old(self).events@.len()
                &&& forall|i: int|
                    0 <= i < final(self).units@.len() ==> (#[trigger] final(self).units@[i]).hp > 0
                &&& forall|i: int|
                    0 <= i < final(self).buildings@.len() ==> (
                    #[trigger] final(self).buildings@[i]).hp > 0
                &&& final(self).end_reached() ==> {
                    &&& final(self).over
                    &&& final(self).winner == final(self).rules_winner()
                    &&& final(self).win_reason == Some(final(self).rules_reason())
                }
                &&& !final(self).end_reached() ==> {
                    &&& final(self).over == old(self).over
                    &&& final(self).winner == old(self).winner
                    &&& final(self).win_reason == old(self).win_reason
                }
            },
    {
        if self.is_over() {
            return;
        }
        self.tick = self.tick + 1;
        self.apm[0].tick();
        self.apm[1].tick();
        let ghost s0 = *self;
        self.cooldown_phase();
        let ghost s1 = *self;
        self.economy_phase();
        let ghost s2 = *self;
        self.production_phase();
        let ghost s3 = *self;
        self.combat_phase();
        let ghost s4 = *self;
        self.turret_phase();
        let ghost s5 = *self;
        self.separation_phase();
        let ghost pre = *self;
        self.sweep_dead();
        let ghost s7 = *self;
        proof {
            crate::game::lemma_keep_where(pre.units@, unit_alive());
            crate::game::lemma_keep_where(pre.buildings@, building_keep(BuildingKeep::Alive));
        }
        self.fog_phase();
        let ghost mid = *self;
        self.check_win();
        proof {
            let states = seq![s0, s1, s2, s3, s4, s5, pre, s7, mid, *self];
            assert(clock_outcome(*old(self), s0));
            assert(cooldown_outcome(s0, s1));
            assert(economy_outcome(s1, s2));
            assert(production_outcome(s2, s3));
            assert(combat_outcome(s3, s4));
            assert(turrets_outcome(s4, s5));
            assert(separation_outcome(s5, pre));
            assert(sweep_outcome(pre, s7));
            assert(fog_outcome(s7, mid));
            assert(win_outcome(mid, *self));
            assert(step_chain(*old(self), states));
        }
        proof {
            assert(self.hq_idx(Player::P0) == mid.hq_idx(Player::P0));
            assert(self.hq_idx(Player::P1) == mid.hq_idx(Player::P1));
            assert(self.spec_remaining_value(Player::P0) == mid.spec_remaining_value(Player::P0));
            assert(self.spec_remaining_value(Player::P1) == mid.spec_remaining_value(Player::P1));
        }
        proof {
            assert forall|i: int| 0 <= i < self.units@.len() implies (
            #[trigger] self.units@[i]).hp > 0 by {
                assert(unit_alive()(self.units@[i]));
            }
            assert forall|i: int| 0 <= i < self.buildings@.len() implies (
            #[trigger] self.buildings@[i]).hp > 0 by {
                assert(building_keep(BuildingKeep::Alive)(self.buildings@[i]));
            }
            assert(step_outcome(*old(self), *self));
            if ids_ordered(*old(self)) {
                lemma_step_keeps_id_order(*old(self), *self);
            }
        }
    }
}


/// Unit ids ascend strictly along the list and stay below `next`.
pub open spec fn unit_ids_ordered(s: Seq<Unit>, next: int) -> bool {
    &&& forall|i: int, j: int| 0 <= i < j < s.len() ==> (#[trigger] s[i]).id < (#[trigger] s[j]).id
    &&& forall|i: int| 0 <= i < s.len() ==> (#[trigger] s[i]).id < next
}

/// Building ids ascend strictly along the list and stay below `next`.
pub open spec fn building_ids_ordered(s: Seq<Building>, next: int) -> bool {
    &&& forall|i: int, j: int| 0 <= i < j < s.len() ==> (#[trigger] s[i]).id < (#[trigger] s[j]).id
    &&& forall|i: int| 0 <= i < s.len() ==> (#[trigger] s[i]).id < next
}

/// Units and buildings are each listed in creation order (ascending ids),
/// every id below the next one to be handed out.
pub open spec fn ids_ordered(g: Game) -> bool {
    unit_ids_ordered(g.units@, g.next_id as int) && building_ids_ordered(g.buildings@, g.next_id as int)
}

/// `b` lists the same entities as `a`, in the same order, and hands out no
/// lower id.
pub open spec fn same_ids(a: Game, b: Game) -> bool {
    &&& b.units@.len() == a.units@.len()
    &&& forall|i: int| 0 <= i < a.units@.len() ==> (#[trigger] b.units@[i]).id == a.units@[i].id
    &&& b.buildings@.len() == a.buildings@.len()
    &&& forall|i: int| 0 <= i < a.buildings@.len() ==> (#[trigger] b.buildings@[i]).id == a.buildings@[i].id
    &&& a.next_id <= b.next_id
}

proof fn lemma_same_ids_trans(a: Game, b: Game, c: Game)
    requires
        same_ids(a, b),
        same_ids(b, c),
    ensures
        same_ids(a, c),
{
    assert forall|i: int| 0 <= i < a.units@.len() implies (#[trigger] c.units@[i]).id == a.units@[i].id by {
        assert(b.units@[i].id == a.units@[i].id);
    }
    assert forall|i: int| 0 <= i < a.buildings@.len() implies (#[trigger] c.buildings@[i]).id
        == a.buildings@[i].id by {
        assert(b.buildings@[i].id == a.buildings@[i].id);
    }
}

proof fn lemma_same_ids_ordered(a: Game, b: Game)
    requires
        ids_ordered(a),
        same_ids(a, b),
    ensures
        ids_ordered(b),
{
    assert forall|i: int, j: int| 0 <= i < j < b.units@.len() implies (#[trigger] b.units@[i]).id < (
    #[trigger] b.units@[j]).id by {
        assert(a.units@[i].id < a.units@[j].id);
    }
    assert forall|i: int| 0 <= i < b.units@.len() implies (#[trigger] b.units@[i]).id < b.next_id by {
        assert(a.units@[i].id < a.next_id);
    }
    assert forall|i: int, j: int| 0 <= i < j < b.buildings@.len() implies (#[trigger] b.buildings@[i]).id < (
    #[trigger] b.buildings@[j]).id by {
        assert(a.buildings@[i].id < a.buildings@[j].id);
    }
    assert forall|i: int| 0 <= i < b.buildings@.len() implies (#[trigger] b.buildings@[i]).id < b.next_id by {
        assert(a.buildings@[i].id < a.next_id);
    }
}

proof fn lemma_hit_same_ids(a: Game, b: Game, id: EntityId, is_building: bool, amount: int)
    requires
        crate::combat::hit_outcome(a, b, id, is_building, amount),
    ensures
        same_ids(a, b),
{
    if is_building {
        match a.any_building_idx(id) {
            Some(i) => {
                if a.buildings@[i].hp > 0 {
                    crate::game::lemma_first_where(a.buildings@, building_query(BuildingQuery::Any(id)), 0);
                    assert forall|k: int| 0 <= k < a.buildings@.len() implies (#[trigger] b.buildings@[k]).id
                        == a.buildings@[k].id by {
                        if k == i {
                        }
                    }
                }
            },
            None => {},
        }
    } else {
        match a.any_unit_idx(id) {
            Some(i) => {
                if a.units@[i].hp > 0 {
                    crate::game::lemma_first_where(
                        a.units@,
                        crate::game::unit_query(crate::game::UnitQuery::Any(id)),
                        0,
                    );
                    assert forall|k: int| 0 <= k < a.units@.len() implies (#[trigger] b.units@[k]).id
                        == a.units@[k].id by {
                        if k == i {
                        }
                    }
                }
            },
            None => {},
        }
    }
}

proof fn lemma_harvester_chain_ids(states: Seq<Game>, ids: Seq<EntityId>, blocked: Seq<bool>, n: int)
    requires
        crate::economy::harvester_chain(states, ids, blocked),
        0 <= n < states.len(),
    ensures
        same_ids(states[0], states[n]),
    decreases n,
{
    if n > 0 {
        lemma_harvester_chain_ids(states, ids, blocked, n - 1);
        let m = n - 1;
        let a = states[m];
        let b = states[m + 1];
        assert(crate::economy::harvester_turn(a, b, ids[n - 1], blocked));
        match a.any_unit_idx(ids[n - 1]) {
            Some(i) => {
                let (nu, mined, deposit) = choose|nu: Unit, mined: Option<(u8, u8, i32)>, deposit: int|
                    #[trigger] crate::economy::harvester_decision(a, i, ids[n - 1], blocked, nu, mined, deposit)
                        && #[trigger] crate::economy::harvester_applied(a, b, i, nu, mined, deposit);
                crate::game::lemma_first_where(
                    a.units@,
                    crate::game::unit_query(crate::game::UnitQuery::Any(ids[n - 1])),
                    0,
                );
                assert(nu.id == a.units@[i].id);
                assert forall|k: int| 0 <= k < a.units@.len() implies (#[trigger] b.units@[k]).id
                    == a.units@[k].id by {
                    if k == i {
                    }
                }
                assert(same_ids(a, b));
            },
            None => {},
        }
        lemma_same_ids_trans(states[0], a, b);
    }
}

proof fn lemma_unit_chain_ids(states: Seq<Game>, ids: Seq<EntityId>, blocked: Seq<bool>, n: int)
    requires
        crate::combat::unit_chain(states, ids, blocked),
        0 <= n < states.len(),
    ensures
        same_ids(states[0], states[n]),
    decreases n,
{
    if n > 0 {
        lemma_unit_chain_ids(states, ids, blocked, n - 1);
        let m = n - 1;
        let a = states[m];
        let b = states[m + 1];
        assert(crate::combat::unit_turn(a, b, ids[n - 1], blocked));
        match a.any_unit_idx(ids[n - 1]) {
            Some(i) => {
                let (npos, npath, nt, ncd, hit, mid) = choose|
                    npos: Pos,
                    npath: Seq<(u8, u8)>,
                    nt: Option<EntityId>,
                    ncd: int,
                    hit: Option<(EntityId, bool, int)>,
                    mid: Game,
                |
                    #[trigger] crate::combat::unit_decision(a, i, blocked, npos, npath, nt, ncd, hit)
                        && #[trigger] crate::combat::unit_applied(a, mid, b, i, npos, npath, nt, ncd, hit);
                crate::game::lemma_first_where(
                    a.units@,
                    crate::game::unit_query(crate::game::UnitQuery::Any(ids[n - 1])),
                    0,
                );
                assert forall|k: int| 0 <= k < a.units@.len() implies (#[trigger] mid.units@[k]).id
                    == a.units@[k].id by {
                    if k == i {
                    }
                }
                assert(same_ids(a, mid));
                match hit {
                    Some((v, bb, am)) => {
                        lemma_hit_same_ids(mid, b, v, bb, am);
                    },
                    None => {},
                }
                lemma_same_ids_trans(a, mid, b);
            },
            None => {},
        }
        lemma_same_ids_trans(states[0], a, b);
    }
}

proof fn lemma_turret_chain_ids(states: Seq<Game>, ids: Seq<EntityId>, n: int)
    requires
        crate::combat::turret_chain(states, ids),
        0 <= n < states.len(),
    ensures
        same_ids(states[0], states[n]),
    decreases n,
{
    if n > 0 {
        lemma_turret_chain_ids(states, ids, n - 1);
        let m = n - 1;
        let a = states[m];
        let b = states[m + 1];
        assert(crate::combat::turret_outcome(a, b, ids[n - 1]));
        match a.any_building_idx(ids[n - 1]) {
            Some(i) => {
                let bl = a.buildings@[i];
                let stats = crate::entity::spec_building_stats(bl.btype);
                let ts = crate::combat::targets_of(a, bl.owner);
                let pos = Pos::spec_from_tile(bl.tile.0, bl.tile.1);
                let r2 = stats.range * stats.range;
                if bl.cooldown > 0 || forall|k: int|
                    0 <= k < ts.len() ==> !#[trigger] crate::combat::in_range(ts[k], pos, r2) {
                } else {
                    let (j, mid) = choose|j: int, mid: Game|
                        #[trigger] crate::combat::weakest_in_range(ts, pos, r2, j)
                            && #[trigger] crate::combat::hit_outcome(
                            a,
                            mid,
                            ts[j].id,
                            ts[j].building,
                            crate::combat::upgraded_damage(stats.damage as int, a.upgrades[bl.owner.idx()]),
                        ) && b.buildings@ == mid.buildings@.update(
                            i,
                            Building { cooldown: stats.cooldown, ..mid.buildings@[i] },
                        ) && b == (Game { buildings: b.buildings, ..mid });
                    lemma_hit_same_ids(
                        a,
                        mid,
                        ts[j].id,
                        ts[j].building,
                        crate::combat::upgraded_damage(stats.damage as int, a.upgrades[bl.owner.idx()]),
                    );
                    crate::game::lemma_first_where(
                        a.buildings@,
                        building_query(BuildingQuery::Any(ids[n - 1])),
                        0,
                    );
                    assert forall|k: int| 0 <= k < mid.buildings@.len() implies (#[trigger] b.buildings@[k]).id
                        == mid.buildings@[k].id by {
                        if k == i {
                        }
                    }
                    assert(same_ids(mid, b));
                    lemma_same_ids_trans(a, mid, b);
                }
            },
            None => {},
        }
        lemma_same_ids_trans(states[0], a, b);
    }
}

proof fn lemma_keep_ordered<T>(s: Seq<T>, keep: spec_fn(T) -> bool, id: spec_fn(T) -> int, next: int)
    requires
        forall|i: int, j: int| 0 <= i < j < s.len() ==> id(#[trigger] s[i]) < id(#[trigger] s[j]),
        forall|i: int| 0 <= i < s.len() ==> id(#[trigger] s[i]) < next,
    ensures
        forall|i: int, j: int|
            0 <= i < j < keep_where(s, keep).len() ==> id(#[trigger] keep_where(s, keep)[i]) < id(
                #[trigger] keep_where(s, keep)[j],
            ),
        forall|i: int| 0 <= i < keep_where(s, keep).len() ==> id(#[trigger] keep_where(s, keep)[i]) < next,
        forall|i: int|
            0 <= i < keep_where(s, keep).len() ==> s.contains(#[trigger] keep_where(s, keep)[i]),
    decreases s.len(),
{
    crate::game::lemma_keep_where(s, keep);
    if s.len() > 0 {
        let d = s.drop_last();
        lemma_keep_ordered(d, keep, id, next);
        let k = keep_where(d, keep);
        if keep(s.last()) {
            let kk = k.push(s.last());
            assert forall|i: int, j: int| 0 <= i < j < kk.len() implies id(#[trigger] kk[i]) < id(
                #[trigger] kk[j],
            ) by {
                if j == kk.len() - 1 {
                    assert(d.contains(k[i]));
                    let m = choose|m: int| 0 <= m < d.len() && d[m] == k[i];
                    assert(s[m] == k[i]);
                    assert(id(s[m]) < id(s[s.len() - 1]));
                } else {
                    assert(kk[i] == k[i] && kk[j] == k[j]);
                }
            }
            assert forall|i: int| 0 <= i < kk.len() implies id(#[trigger] kk[i]) < next by {
                if i < k.len() {
                    assert(kk[i] == k[i]);
                }
            }
        }
    }
}

/// A command keeps every list in creation order: a new building takes the
/// next id at the end of the list, a sold one leaves it, and nothing else
/// changes an id.
pub proof fn lemma_command_keeps_id_order(
    old: Game,
    new: Game,
    p: Player,
    cmd: Command,
    res: Result<(), CommandError>,
)
    requires
        ids_ordered(old),
        old.command_outcome(new, p, cmd, res),
    ensures
        ids_ordered(new),
{
    if cmd.issuer() != p || old.spec_validate(cmd) is Err || old.apm[p.idx()].level() < APM_COST {
        assert(same_ids(old, new));
        lemma_same_ids_ordered(old, new);
    } else {
        match cmd {
            Command::PlaceBuilding { .. } => {
                let n = old.buildings@.len() as int;
                assert forall|i: int, j: int| 0 <= i < j < new.buildings@.len() implies (
                #[trigger] new.buildings@[i]).id < (#[trigger] new.buildings@[j]).id by {
                    assert(new.buildings@[i] == old.buildings@[i]);
                    if j < n {
                        assert(new.buildings@[j] == old.buildings@[j]);
                    }
                }
                assert forall|i: int| 0 <= i < new.buildings@.len() implies (
                #[trigger] new.buildings@[i]).id < new.next_id by {
                    if i < n {
                        assert(new.buildings@[i] == old.buildings@[i]);
                    }
                }
            },
            Command::Sell { building, .. } => {
                let bid = |bb: Building| bb.id as int;
                lemma_keep_ordered(
                    old.buildings@,
                    building_keep(BuildingKeep::NotId(building)),
                    bid,
                    old.next_id as int,
                );
            },
            Command::TrainUnit { building, .. } => {
                lemma_first_where(old.buildings@, building_query(BuildingQuery::Own(p, building)), 0);
                let i = old.building_idx(p, building)->0;
                assert forall|j: int| 0 <= j < old.buildings@.len() implies (
                #[trigger] new.buildings@[j]).id == old.buildings@[j].id by {
                    if j != i {
                        assert(new.buildings@[j] == old.buildings@[j]);
                    }
                }
                assert(same_ids(old, new));
                lemma_same_ids_ordered(old, new);
            },
            Command::SetRally { building, .. } => {
                lemma_first_where(old.buildings@, building_query(BuildingQuery::Own(p, building)), 0);
                assert(same_ids(old, new));
                lemma_same_ids_ordered(old, new);
            },
            Command::Repair { building, .. } => {
                lemma_first_where(old.buildings@, building_query(BuildingQuery::Own(p, building)), 0);
                assert(same_ids(old, new));
                lemma_same_ids_ordered(old, new);
            },
            _ => {
                assert(same_ids(old, new));
                lemma_same_ids_ordered(old, new);
            },
        }
    }
}

/// A batch of commands keeps every list in creation order.
pub proof fn lemma_batch_keeps_id_order(
    old: Game,
    new: Game,
    p: Player,
    cmds: Seq<Command>,
    rs: Seq<Result<(), CommandError>>,
    states: Seq<Game>,
    k: int,
)
    requires
        ids_ordered(old),
        batch_run(old, new, p, cmds, rs, states),
        0 <= k <= cmds.len(),
    ensures
        ids_ordered(states[k]),
    decreases k,
{
    if k > 0 {
        lemma_batch_keeps_id_order(old, new, p, cmds, rs, states, k - 1);
        let m = k - 1;
        assert(states[m].command_outcome(states[m + 1], p, cmds[m], rs[m]));
        lemma_command_keeps_id_order(states[m], states[m + 1], p, cmds[m], rs[m]);
    }
}

/// A tick keeps every list in creation order: units and buildings stay in
/// strictly ascending id order, every id below the next one handed out.
pub proof fn lemma_step_keeps_id_order(old: Game, new: Game)
    requires
        ids_ordered(old),
        step_outcome(old, new),
    ensures
        ids_ordered(new),
{
    if !old.spec_is_over() {
        let s = choose|states: Seq<Game>| #[trigger] step_chain(old, states) && states[9] == new;
        // clock, cooldowns
        assert(same_ids(old, s[0]));
        assert(same_ids(s[0], s[1]));
        lemma_same_ids_trans(old, s[0], s[1]);
        // economy
        let es = choose|states: Seq<Game>|
            #[trigger] crate::economy::harvester_chain(
                states,
                crate::economy::harvester_ids(s[1].units@),
                crate::combat::blocked_by(s[1]),
            ) && states[0] == s[1] && states[states.len() - 1] == s[2];
        lemma_harvester_chain_ids(
            es,
            crate::economy::harvester_ids(s[1].units@),
            crate::combat::blocked_by(s[1]),
            es.len() - 1,
        );
        lemma_same_ids_trans(old, s[1], s[2]);
        lemma_same_ids_ordered(old, s[2]);
        // production: new units get ids from next_id on
        let a = s[2];
        let b = s[3];
        let n = production_spawns(a).len();
        assert forall|i: int, j: int| 0 <= i < j < b.units@.len() implies (#[trigger] b.units@[i]).id < (
        #[trigger] b.units@[j]).id by {
            if j < a.units@.len() {
                assert(b.units@[i] == a.units@[i] && b.units@[j] == a.units@[j]);
            } else if i < a.units@.len() {
                assert(b.units@[i] == a.units@[i]);
                assert(production_spawns(a)[j - a.units@.len()] == production_spawns(a)[j - a.units@.len()]);
            } else {
                assert(production_spawns(a)[i - a.units@.len()] == production_spawns(a)[i - a.units@.len()]);
                assert(production_spawns(a)[j - a.units@.len()] == production_spawns(a)[j - a.units@.len()]);
            }
        }
        assert forall|i: int| 0 <= i < b.units@.len() implies (#[trigger] b.units@[i]).id < b.next_id by {
            if i < a.units@.len() {
                assert(b.units@[i] == a.units@[i]);
            } else {
                assert(production_spawns(a)[i - a.units@.len()] == production_spawns(a)[i - a.units@.len()]);
            }
        }
        assert forall|i: int, j: int| 0 <= i < j < b.buildings@.len() implies (#[trigger] b.buildings@[i]).id < (
        #[trigger] b.buildings@[j]).id by {
            assert(b.buildings@[i].id == a.buildings@[i].id && b.buildings@[j].id == a.buildings@[j].id);
        }
        assert forall|i: int| 0 <= i < b.buildings@.len() implies (#[trigger] b.buildings@[i]).id < b.next_id by {
            assert(b.buildings@[i].id == a.buildings@[i].id);
        }
        assert(ids_ordered(b));
        // combat, turrets
        let cs = choose|states: Seq<Game>|
            #[trigger] crate::combat::unit_chain(
                states,
                crate::combat::fighter_ids(s[3].units@),
                crate::combat::blocked_by(s[3]),
            ) && states[0] == s[3] && states[states.len() - 1] == s[4];
        lemma_unit_chain_ids(cs, crate::combat::fighter_ids(s[3].units@), crate::combat::blocked_by(s[3]), cs.len() - 1);
        let ts = choose|states: Seq<Game>|
            #[trigger] crate::combat::turret_chain(states, crate::combat::turret_ids(s[4].buildings@))
                && states[0] == s[4] && states[states.len() - 1] == s[5];
        lemma_turret_chain_ids(ts, crate::combat::turret_ids(s[4].buildings@), ts.len() - 1);
        assert(same_ids(s[5], s[6]));
        lemma_same_ids_trans(s[3], s[4], s[5]);
        lemma_same_ids_trans(s[3], s[5], s[6]);
        lemma_same_ids_ordered(s[3], s[6]);
        // sweep of the dead
        let uid = |u: Unit| u.id as int;
        let bid = |bb: Building| bb.id as int;
        lemma_keep_ordered(s[6].units@, unit_alive(), uid, s[6].next_id as int);
        lemma_keep_ordered(s[6].buildings@, building_keep(BuildingKeep::Alive), bid, s[6].next_id as int);
        assert(ids_ordered(s[7]));
        // fog, win rule
        assert(same_ids(s[7], s[8]));
        assert(same_ids(s[8], s[9]));
        lemma_same_ids_trans(s[7], s[8], s[9]);
        lemma_same_ids_ordered(s[7], s[9]);
    }
}

/// A fresh match starts in creation order: the HQs (ids 1 and 2), then the
/// harvesters, every id below the next one.
pub proof fn lemma_fresh_ids_ordered(map: GameMap, config: crate::game::GameConfig, g: Game)
    requires
        crate::game::fresh_game(map, config, g),
    ensures
        ids_ordered(g),
{
    let n = g.units@.len();
    if n == 2 {
        assert(g.first_spawn_from(map.hq_tiles[0], 0) is Some);
        assert(g.first_spawn_from(map.hq_tiles[1], 0) is Some);
    } else if n == 1 {
        if g.first_spawn_from(map.hq_tiles[0], 0) is Some {
            assert(g.units@[0].id == 3);
        } else {
            assert(g.first_spawn_from(map.hq_tiles[1], 0) is Some);
        }
    }
}

} // verus!
