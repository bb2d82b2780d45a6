//! Economy: harvesters mine ore fields and haul the ore to refineries. Income
//! comes only from deposits. A full harvester walks to its refinery's dock
//! (the front tile), parks there for [`DEPOSIT_PARK_TICKS`], unloads, and goes
//! back to mining. Harvesters honour manual move orders and flee from nearby
//! enemy units. Nearest choices break ties by lowest id / tile index.
use vstd::prelude::*;

use crate::combat::{blocked_by, flee_point, path_move, route_step, square};
use crate::entity::{
    copy_tiles, spec_unit_stats, unit_stats, BuildingType, EntityId, Player, Unit, UnitOrder, UnitType,
    DEPOSIT_PARK_TICKS, HARVESTER_CAPACITY, HARVEST_RATE_PER_TICK, HARVEST_TICKS,
};
use crate::fixed::{dist2, spec_dist2, Pos, FIX_SCALE};
use crate::game::{units_wf, BuildingQuery, EventKind, Game, GameEvent, UnitQuery, ORE_LIMIT};
use crate::map::{coords, in_map, spec_tile_index, tile_coords, GameMap, MAP_TILES};
use crate::movement::{spec_step_towards, step_towards, MAX_SPEED};

verus! {

/// Deposit radius when a refinery has no passable dock tile: the harvester
/// must stand next to the refinery itself.
pub const DROP_RADIUS: i32 = 256;

/// Distance from the dock center within which a harvester counts as docked
/// (1.5 tiles).
pub const DOCK_RADIUS: i32 = 384;

/// Distance from an ore tile's center within which a harvester mines.
pub const MINE_RADIUS: i32 = 192;

/// Radius at which harvesters flee from enemy units (2 tiles).
pub const FLEE_RADIUS: i32 = 512;

/// Squared distance from `pos` to the center of the tile with index `j`.
pub open spec fn tile_dist(pos: Pos, j: int) -> int {
    let c = Pos::spec_from_tile(coords(j).0, coords(j).1);
    spec_dist2(pos.x as int, pos.y as int, c.x as int, c.y as int)
}

/// Whether the tile with index `b` is the nearest tile to `pos` holding ore
/// (ties: lowest index).
pub open spec fn nearest_ore(map: GameMap, pos: Pos, b: int) -> bool {
    &&& 0 <= b < 4096
    &&& map.ore@[b] > 0
    &&& forall|j: int|
        0 <= j < 4096 && #[trigger] map.ore@[j] > 0 ==> tile_dist(pos, b) < tile_dist(pos, j) || (
        tile_dist(pos, b) == tile_dist(pos, j) && b <= j)
}

/// Whether unit `i` is an alive enemy of `owner` within the flee radius of
/// `pos`.
pub open spec fn threat_at(g: Game, owner: Player, pos: Pos, i: int) -> bool {
    &&& 0 <= i < g.units@.len()
    &&& g.units@[i].owner != owner
    &&& g.units@[i].hp > 0
    &&& spec_dist2(pos.x as int, pos.y as int, g.units@[i].pos.x as int, g.units@[i].pos.y as int)
        <= FLEE_RADIUS * FLEE_RADIUS
}

/// Whether building `k` is an alive refinery of `owner`.
pub open spec fn own_refinery(g: Game, owner: Player, k: int) -> bool {
    &&& 0 <= k < g.buildings@.len()
    &&& g.buildings@[k].owner == owner
    &&& g.buildings@[k].btype == BuildingType::Refinery
    &&& g.buildings@[k].hp > 0
}

/// Squared distance from `pos` to the center of building `k`'s tile.
pub open spec fn building_dist(g: Game, pos: Pos, k: int) -> int {
    let c = Pos::spec_from_tile(g.buildings@[k].tile.0, g.buildings@[k].tile.1);
    spec_dist2(pos.x as int, pos.y as int, c.x as int, c.y as int)
}

/// Whether building `k` is the alive refinery of `owner` nearest to `pos`
/// (ties: lowest id).
pub open spec fn nearest_refinery(g: Game, owner: Player, pos: Pos, k: int) -> bool {
    &&& own_refinery(g, owner, k)
    &&& forall|k2: int|
        #[trigger] own_refinery(g, owner, k2) ==> building_dist(g, pos, k) < building_dist(g, pos, k2)
            || (building_dist(g, pos, k) == building_dist(g, pos, k2) && g.buildings@[k].id
            <= g.buildings@[k2].id)
}

/// Whether `current` names an alive refinery of `owner`.
pub open spec fn keeps_refinery(g: Game, owner: Player, current: Option<EntityId>) -> bool {
    match current {
        Some(rid) => match g.any_building_idx(rid) {
            Some(j) => own_refinery(g, owner, j),
            None => false,
        },
        None => false,
    }
}

/// The `k`-th dock candidate around a refinery: front (south), east, west,
/// north.
pub open spec fn dock_offset(k: int) -> (int, int) {
    if k == 0 {
        (0, 1)
    } else if k == 1 {
        (1, 0)
    } else if k == 2 {
        (-1, 0)
    } else {
        (0, -1)
    }
}

/// The `k`-th dock candidate tile of a refinery on tile `b`.
pub open spec fn dock_tile(b: (u8, u8), k: int) -> (int, int) {
    (b.0 + dock_offset(k).0, b.1 + dock_offset(k).1)
}

/// Whether the `k`-th dock candidate lies on the map and is passable.
pub open spec fn dock_ok(map: GameMap, b: (u8, u8), k: int) -> bool {
    &&& 0 <= k < 4
    &&& map.passable_at(dock_tile(b, k).0, dock_tile(b, k).1)
}

/// Squared distance from `from` to the center of the `k`-th dock candidate.
pub open spec fn dock_dist(b: (u8, u8), from: Pos, k: int) -> int {
    let c = Pos::spec_from_tile(dock_tile(b, k).0 as u8, dock_tile(b, k).1 as u8);
    spec_dist2(from.x as int, from.y as int, c.x as int, c.y as int)
}

/// Whether the `k`-th dock candidate is the nearest passable one (first on
/// ties).
pub open spec fn best_dock(map: GameMap, b: (u8, u8), from: Pos, k: int) -> bool {
    &&& dock_ok(map, b, k)
    &&& forall|k2: int|
        #[trigger] dock_ok(map, b, k2) ==> dock_dist(b, from, k) < dock_dist(b, from, k2) || (dock_dist(
            b,
            from,
            k,
        ) == dock_dist(b, from, k2) && k <= k2)
}

/// The refinery `pick_refinery` settles on for unit `uid` holding
/// `current`.
pub open spec fn refinery_choice(g: Game, uid: EntityId, current: Option<EntityId>, r: Option<EntityId>) -> bool {
    &&& g.any_unit_idx(uid) is None ==> r is None
    &&& g.any_unit_idx(uid) matches Some(i) ==> {
        let u = g.units@[i];
        if keeps_refinery(g, u.owner, current) {
            r == current
        } else {
            &&& (r is None <==> forall|k: int| !#[trigger] own_refinery(g, u.owner, k))
            &&& (r matches Some(id) ==> exists|k: int|
                #[trigger] nearest_refinery(g, u.owner, u.pos, k) && g.buildings@[k].id == id)
        }
    }
}

/// The dock tile `refinery_dock` picks at refinery `rid` for a harvester at
/// `from`.
pub open spec fn dock_choice(g: Game, rid: EntityId, from: Pos, r: Option<(u8, u8)>) -> bool {
    &&& g.any_building_idx(rid) is None ==> r is None
    &&& g.any_building_idx(rid) matches Some(i) ==> {
        let bt = g.buildings@[i].tile;
        &&& (r is None <==> forall|k: int| !#[trigger] dock_ok(g.map, bt, k))
        &&& (r matches Some(t) ==> exists|k: int|
            #[trigger] best_dock(g.map, bt, from, k) && t.0 == dock_tile(bt, k).0 && t.1 == dock_tile(bt, k).1)
    }
}

/// The ore tile `pick_ore_tile` picks for a harvester at `pos`.
pub open spec fn ore_choice(map: GameMap, pos: Pos, r: Option<(u8, u8)>) -> bool {
    &&& (r is None <==> forall|j: int| 0 <= j < 4096 ==> #[trigger] map.ore@[j] <= 0)
    &&& (r matches Some(t) ==> t == coords(spec_tile_index(t.0 as int, t.1 as int)) && nearest_ore(
        map,
        pos,
        spec_tile_index(t.0 as int, t.1 as int),
    ))
}

/// Whether `nu` is `u` with only its movement and harvesting state changed.
pub open spec fn harvester_frame(u: Unit, nu: Unit) -> bool {
    nu == (Unit {
        pos: nu.pos,
        carrying: nu.carrying,
        path: nu.path,
        harvest_tile: nu.harvest_tile,
        refinery: nu.refinery,
        order: nu.order,
        fleeing: nu.fleeing,
        park_ticks: nu.park_ticks,
        mining: nu.mining,
        ..u
    })
}

/// Squared distance between two positions.
pub open spec fn pos_dist(a: Pos, b: Pos) -> int {
    spec_dist2(a.x as int, a.y as int, b.x as int, b.y as int)
}

/// A harvester's hold is unloaded: the whole load is deposited and it goes
/// back to looking for ore.
pub open spec fn unloads(u: Unit, nu: Unit, deposit: int) -> bool {
    &&& deposit == u.carrying
    &&& nu.carrying == 0
    &&& nu.mining == 0
    &&& nu.harvest_tile is None
    &&& nu.pos == u.pos
    &&& nu.path@ == u.path@
}

/// Nothing of the hold, the mining state or the position changes.
pub open spec fn holds_still(u: Unit, nu: Unit) -> bool {
    &&& nu.pos == u.pos
    &&& nu.path@ == u.path@
    &&& nu.carrying == u.carrying
    &&& nu.mining == u.mining
    &&& nu.harvest_tile == u.harvest_tile
}

/// A full harvester's haul toward the dock of refinery `rid` (or the
/// refinery itself when it has no passable dock): park on the dock for
/// [`DEPOSIT_PARK_TICKS`] ticks, then unload; walk there otherwise.
pub open spec fn haul_to(g: Game, u: Unit, blocked: Seq<bool>, rid: EntityId, nu: Unit, deposit: int) -> bool {
    let speed = spec_unit_stats(UnitType::Harvester).speed as int;
    match g.any_building_idx(rid) {
        None => holds_still(u, nu) && nu.park_ticks == u.park_ticks && deposit == 0,
        Some(bi) => {
            let b = g.buildings@[bi];
            let bpos = Pos::spec_from_tile(b.tile.0, b.tile.1);
            exists|dock: Option<(u8, u8)>|
                #[trigger] dock_choice(g, rid, u.pos, dock) && match dock {
                    Some(dt) => {
                        let dpos = Pos::spec_from_tile(dt.0, dt.1);
                        if pos_dist(u.pos, dpos) <= DOCK_RADIUS * DOCK_RADIUS {
                            if u.park_ticks >= DEPOSIT_PARK_TICKS {
                                unloads(u, nu, deposit) && nu.park_ticks == 0
                            } else {
                                holds_still(u, nu) && nu.park_ticks == u.park_ticks + 1 && deposit == 0
                            }
                        } else {
                            &&& path_move(g.map, blocked, u.path@, u.pos, dpos, speed, nu.pos, nu.path@)
                            &&& nu.park_ticks == 0
                            &&& nu.carrying == u.carrying
                            &&& nu.mining == u.mining
                            &&& nu.harvest_tile == u.harvest_tile
                            &&& deposit == 0
                        }
                    },
                    None => {
                        &&& nu.park_ticks == u.park_ticks
                        &&& if pos_dist(u.pos, bpos) <= DROP_RADIUS * DROP_RADIUS {
                            unloads(u, nu, deposit)
                        } else {
                            &&& path_move(g.map, blocked, u.path@, u.pos, bpos, speed, nu.pos, nu.path@)
                            &&& nu.carrying == u.carrying
                            &&& nu.mining == u.mining
                            &&& nu.harvest_tile == u.harvest_tile
                            &&& deposit == 0
                        }
                    },
                }
        },
    }
}

/// The ore tile a harvester works: its current one while that still holds
/// ore, else the nearest tile holding ore.
pub open spec fn tile_pick(map: GameMap, u: Unit, tile: Option<(u8, u8)>) -> bool {
    match u.harvest_tile {
        Some(t) => if map.ore_amount(t.0 as int, t.1 as int) > 0 {
            tile == Some(t)
        } else {
            ore_choice(map, u.pos, tile)
        },
        None => ore_choice(map, u.pos, tile),
    }
}

/// Mining: on its ore tile a harvester takes up to the harvest rate (no more
/// than its hold's space or the ore there); away from it, it walks there.
pub open spec fn mine_at(
    g: Game,
    u: Unit,
    blocked: Seq<bool>,
    nu: Unit,
    mined: Option<(u8, u8, i32)>,
) -> bool {
    let speed = spec_unit_stats(UnitType::Harvester).speed as int;
    exists|tile: Option<(u8, u8)>|
        #[trigger] tile_pick(g.map, u, tile) && nu.harvest_tile == tile && nu.park_ticks == u.park_ticks
            && match tile {
            None => nu.pos == u.pos && nu.path@ == u.path@ && nu.carrying == u.carrying && nu.mining
                == u.mining && mined is None,
            Some(t) => {
                let tc = Pos::spec_from_tile(t.0, t.1);
                if pos_dist(u.pos, tc) <= MINE_RADIUS * MINE_RADIUS {
                    let space = HARVESTER_CAPACITY - u.carrying;
                    let take = if HARVEST_RATE_PER_TICK < space {
                        HARVEST_RATE_PER_TICK as int
                    } else {
                        space
                    };
                    let here = g.map.ore_amount(t.0 as int, t.1 as int);
                    let taken = if take < here {
                        take
                    } else {
                        here
                    };
                    &&& nu.pos == u.pos
                    &&& nu.path@ == u.path@
                    &&& taken > 0 ==> mined == Some((t.0, t.1, taken as i32)) && nu.carrying == u.carrying
                        + taken && nu.mining == (if u.mining < HARVEST_TICKS {
                        u.mining + 1
                    } else {
                        HARVEST_TICKS as int
                    })
                    &&& taken <= 0 ==> mined is None && nu.carrying == u.carrying && nu.mining == u.mining
                } else {
                    &&& path_move(g.map, blocked, u.path@, u.pos, tc, speed, nu.pos, nu.path@)
                    &&& nu.carrying == u.carrying
                    &&& nu.mining == u.mining
                    &&& mined is None
                }
            },
        }
}

/// What harvester `i` of `g` (with id `uid`) decides on its turn: its new
/// state `nu`, the ore it mines and the ore it deposits. It flees from a
/// nearby enemy; else follows a manual move (going idle on arrival); else
/// hauls a full hold to a refinery; else mines.
pub open spec fn harvester_decision(
    g: Game,
    i: int,
    uid: EntityId,
    blocked: Seq<bool>,
    nu: Unit,
    mined: Option<(u8, u8, i32)>,
    deposit: int,
) -> bool {
    let u = g.units@[i];
    let speed = spec_unit_stats(UnitType::Harvester).speed as int;
    &&& harvester_frame(u, nu)
    &&& if exists|k: int| #[trigger] threat_at(g, u.owner, u.pos, k) {
        &&& exists|dest: Pos|
            #[trigger] flee_point(g, u.owner, u.pos, dest) && path_move(
                g.map,
                blocked,
                u.path@,
                u.pos,
                dest,
                speed,
                nu.pos,
                nu.path@,
            ) && nu.order == (UnitOrder::Flee { dest })
        &&& nu.fleeing
        &&& nu.park_ticks == 0
        &&& nu.carrying == u.carrying && nu.mining == u.mining && nu.harvest_tile == u.harvest_tile
        &&& nu.refinery == u.refinery
        &&& mined is None && deposit == 0
    } else {
        &&& !nu.fleeing
        &&& match u.order {
            UnitOrder::Move { waypoint, .. } => {
                &&& path_move(g.map, blocked, u.path@, u.pos, waypoint, speed, nu.pos, nu.path@)
                &&& nu.order == if nu.path@.len() == 0 && nu.pos.spec_tile() == waypoint.spec_tile() {
                    UnitOrder::Idle
                } else {
                    u.order
                }
                &&& nu.carrying == u.carrying && nu.mining == u.mining && nu.harvest_tile == u.harvest_tile
                &&& nu.refinery == u.refinery && nu.park_ticks == u.park_ticks
                &&& mined is None && deposit == 0
            },
            _ => {
                &&& nu.order == u.order
                &&& if u.carrying >= HARVESTER_CAPACITY {
                    &&& mined is None
                    &&& exists|target: Option<EntityId>|
                        #[trigger] refinery_choice(g, uid, u.refinery, target) && nu.refinery == target
                            && match target {
                            None => holds_still(u, nu) && nu.park_ticks == u.park_ticks && deposit == 0,
                            Some(rid) => haul_to(g, u, blocked, rid, nu, deposit),
                        }
                } else {
                    &&& nu.refinery == u.refinery
                    &&& deposit == 0
                    &&& mine_at(g, u, blocked, nu, mined)
                }
            },
        }
    }
}

/// Whether `new` is `g` after harvester `i` takes its decision: its state
/// becomes `nu`, the mined ore leaves its tile and a deposit goes to the
/// owner's bank, with an event.
pub open spec fn harvester_applied(
    g: Game,
    new: Game,
    i: int,
    nu: Unit,
    mined: Option<(u8, u8, i32)>,
    deposit: int,
) -> bool {
    let owner = g.units@[i].owner;
    &&& new.units@ == g.units@.update(i, nu)
    &&& new.map.ore@ == match mined {
        Some((x, y, a)) => {
            let ti = spec_tile_index(x as int, y as int);
            g.map.ore@.update(
                ti,
                (if g.map.ore@[ti] > a {
                    g.map.ore@[ti] - a
                } else {
                    0
                }) as i32,
            )
        },
        None => g.map.ore@,
    }
    &&& new.map.passable@ == g.map.passable@
    &&& new.map.hq_tiles == g.map.hq_tiles
    &&& if deposit > 0 {
        &&& new.ore[owner.idx()] == g.ore[owner.idx()] + deposit
        &&& new.ore[owner.opponent().idx()] == g.ore[owner.opponent().idx()]
        &&& new.events@ == g.events@.push(
            GameEvent { tick: g.tick, kind: EventKind::OreDeposited { player: owner, amount: deposit as i32 } },
        )
    } else {
        new.ore == g.ore && new.events@ == g.events@
    }
    &&& new == (Game { units: new.units, map: new.map, ore: new.ore, events: new.events, ..g })
}

/// One harvester's turn, from `old` to `new`: the first unit with id `uid`
/// decides and the decision is applied; with no such unit nothing changes.
pub open spec fn harvester_turn(old: Game, new: Game, uid: EntityId, blocked: Seq<bool>) -> bool {
    match old.any_unit_idx(uid) {
        None => new == old,
        Some(i) => exists|nu: Unit, mined: Option<(u8, u8, i32)>, deposit: int|
            #[trigger] harvester_decision(old, i, uid, blocked, nu, mined, deposit) && #[trigger] harvester_applied(
                old,
                new,
                i,
                nu,
                mined,
                deposit,
            ),
    }
}

/// The ids of the alive harvesters in `s`, in order.
pub open spec fn harvester_ids(s: Seq<Unit>) -> Seq<EntityId>
    decreases s.len(),
{
    if s.len() == 0 {
        Seq::empty()
    } else if s.last().hp > 0 && s.last().utype == UnitType::Harvester {
        harvester_ids(s.drop_last()).push(s.last().id)
    } else {
        harvester_ids(s.drop_last())
    }
}

/// Whether `states` runs the turns of the harvesters `ids`, one after
/// another, over the building overlay `blocked`.
pub open spec fn harvester_chain(states: Seq<Game>, ids: Seq<EntityId>, blocked: Seq<bool>) -> bool {
    &&& states.len() == ids.len() + 1
    &&& forall|k: int|
        0 <= k < ids.len() ==> #[trigger] harvester_turn(states[k], states[k + 1], ids[k], blocked)
}

/// Total ore left on a map's tiles.
pub open spec fn ore_sum(s: Seq<i32>) -> int
    decreases s.len(),
{
    if s.len() == 0 {
        0
    } else {
        ore_sum(s.drop_last()) + s.last()
    }
}

/// Total ore carried by a list of units.
pub open spec fn carried(s: Seq<Unit>) -> int
    decreases s.len(),
{
    if s.len() == 0 {
        0
    } else {
        carried(s.drop_last()) + s.last().carrying
    }
}

pub proof fn lemma_ore_sum_update(s: Seq<i32>, i: int, v: i32)
    requires
        0 <= i < s.len(),
    ensures
        ore_sum(s.update(i, v)) == ore_sum(s) - s[i] + v,
    decreases s.len(),
{
    if i == s.len() - 1 {
        assert(s.update(i, v).drop_last() =~= s.drop_last());
    } else {
        lemma_ore_sum_update(s.drop_last(), i, v);
        assert(s.update(i, v).drop_last() =~= s.drop_last().update(i, v));
    }
}

pub proof fn lemma_carried_update(s: Seq<Unit>, i: int, u: Unit)
    requires
        0 <= i < s.len(),
    ensures
        carried(s.update(i, u)) == carried(s) - s[i].carrying + u.carrying,
    decreases s.len(),
{
    if i == s.len() - 1 {
        assert(s.update(i, u).drop_last() =~= s.drop_last());
    } else {
        lemma_carried_update(s.drop_last(), i, u);
        assert(s.update(i, u).drop_last() =~= s.drop_last().update(i, u));
    }
}

/// All the ore of the match: left on the map, carried, and banked.
pub open spec fn ore_in_play(g: Game) -> int {
    ore_sum(g.map.ore@) + carried(g.units@) + g.ore[0] + g.ore[1]
}

/// The economy frame: buildings, ids and everything outside the economy
/// stay put; units keep their identity.
pub open spec fn economy_frame(old: Game, new: Game) -> bool {
    &&& new.config == old.config
    &&& new.buildings == old.buildings
    &&& new.upgrades == old.upgrades
    &&& new.tick == old.tick
    &&& new.winner == old.winner
    &&& new.win_reason == old.win_reason
    &&& new.over == old.over
    &&& new.apm == old.apm
    &&& new.next_id == old.next_id
    &&& new.dropped_commands == old.dropped_commands
    &&& new.fog == old.fog
    &&& new.map.passable@ == old.map.passable@
    &&& new.map.hq_tiles == old.map.hq_tiles
    &&& new.units@.len() == old.units@.len()
    &&& forall|i: int|
        0 <= i < old.units@.len() ==> (#[trigger] new.units@[i]).id == old.units@[i].id
            && new.units@[i].owner == old.units@[i].owner && new.units@[i].utype
            == old.units@[i].utype && new.units@[i].hp == old.units@[i].hp
            && new.units@[i].max_hp == old.units@[i].max_hp
}

pub proof fn lemma_economy_frame_trans(a: Game, b: Game, c: Game)
    requires
        economy_frame(a, b),
        economy_frame(b, c),
    ensures
        economy_frame(a, c),
{
    assert forall|i: int| 0 <= i < a.units@.len() implies (#[trigger] c.units@[i]).id
        == a.units@[i].id && c.units@[i].owner == a.units@[i].owner && c.units@[i].utype
        == a.units@[i].utype && c.units@[i].hp == a.units@[i].hp && c.units@[i].max_hp
        == a.units@[i].max_hp by {
        assert(b.units@[i].id == a.units@[i].id);
    }
}

/// Follow `path` one step toward `dest` (planning when empty). The flag is
/// true when no path was available and the unit stepped straight instead.
fn follow(
    map: &GameMap,
    blocked: &[bool],
    path: &mut Vec<(u8, u8)>,
    pos: Pos,
    dest: Pos,
    speed: i32,
) -> (r: (Pos, bool))
    requires
        map.wf(),
        pos.inside(),
        dest.inside(),
        0 < speed <= MAX_SPEED,
    ensures
        path_move(*map, blocked@, old(path)@, pos, dest, speed as int, r.0, final(path)@),
        r.0.inside(),
{
    if path.len() == 0 {
        match map.find_path(pos.tile(), dest.tile(), blocked) {
            Some(p) => {
                *path = p;
            },
            None => {},
        }
    }
    if path.len() == 0 {
        return (step_towards(map, blocked, pos, dest, speed).0, true);
    }
    let ghost q = path@;
    let next = path[0];
    let ndest = Pos::from_tile(next.0, next.1);
    let (p, arrived) = step_towards(map, blocked, pos, ndest, speed);
    let t = p.tile();
    if arrived || (t.0 == next.0 && t.1 == next.1) {
        path.remove(0);
        assert(path@ =~= q.drop_first());
    }
    proof {
        if old(path)@.len() == 0 {
            assert(map.is_route(blocked@, pos.spec_tile(), q, dest.spec_tile()));
        }
    }
    (p, false)
}

/// The ore that the events `evs` report deposited into `p`'s bank.
pub open spec fn deposited(evs: Seq<GameEvent>, p: Player) -> int
    decreases evs.len(),
{
    if evs.len() == 0 {
        0
    } else {
        deposited(evs.drop_last(), p) + match evs.last().kind {
            EventKind::OreDeposited { player, amount } => if player == p {
                amount as int
            } else {
                0
            },
            _ => 0,
        }
    }
}

proof fn lemma_deposited_append(a: Seq<GameEvent>, b: Seq<GameEvent>, p: Player)
    ensures
        deposited(a + b, p) == deposited(a, p) + deposited(b, p),
    decreases b.len(),
{
    if b.len() == 0 {
        assert(a + b =~= a);
    } else {
        lemma_deposited_append(a, b.drop_last(), p);
        assert((a + b).drop_last() =~= a + b.drop_last());
    }
}

/// One harvester's turn appends to the events, and each bank grows by
/// exactly what the appended events report deposited into it.
proof fn lemma_turn_deposits(before: Game, after: Game, uid: EntityId, blocked: Seq<bool>, p: Player)
    requires
        harvester_turn(before, after, uid, blocked),
        before.wf(),
        after.wf(),
    ensures
        after.events@.len() >= before.events@.len(),
        after.events@.subrange(0, before.events@.len() as int) == before.events@,
        after.ore[p.idx()] == before.ore[p.idx()] + deposited(
            after.events@.subrange(before.events@.len() as int, after.events@.len() as int),
            p,
        ),
{
    let n = before.events@.len() as int;
    match before.any_unit_idx(uid) {
        None => {
            assert(after.events@.subrange(n, n) =~= Seq::<GameEvent>::empty());
            assert(after.events@.subrange(0, n) =~= before.events@);
            assert(deposited(Seq::<GameEvent>::empty(), p) == 0);
        },
        Some(i) => {
            let (nu, mined, deposit) = choose|nu: Unit, mined: Option<(u8, u8, i32)>, deposit: int|
                #[trigger] harvester_decision(before, i, uid, blocked, nu, mined, deposit)
                    && #[trigger] harvester_applied(before, after, i, nu, mined, deposit);
            let owner = before.units@[i].owner;
            if deposit > 0 {
                let e = GameEvent {
                    tick: before.tick,
                    kind: EventKind::OreDeposited { player: owner, amount: deposit as i32 },
                };
                assert(after.events@.subrange(0, n) =~= before.events@);
                assert(after.events@.subrange(n, n + 1) =~= seq![e]);
                assert(seq![e].drop_last() =~= Seq::<GameEvent>::empty());
                assert(deposit as i32 == deposit);
                assert(deposited(Seq::<GameEvent>::empty(), p) == 0);
                assert(deposited(seq![e], p) == if owner == p {
                    deposit
                } else {
                    0
                });
                assert(after.events@.len() == n + 1);
                if owner != p {
                    assert(owner.opponent() == p);
                }
            } else {
                assert(after.events@.subrange(n, n) =~= Seq::<GameEvent>::empty());
                assert(after.events@.subrange(0, n) =~= before.events@);
                assert(deposited(Seq::<GameEvent>::empty(), p) == 0);
            }
        },
    }
}

impl Game {
    /// Advance the economy one tick: every alive harvester acts once, in
    /// ascending order. Ore only moves between the map, the harvesters'
    /// holds and the banks: the total in play never changes.
    pub fn economy_phase(&mut self)
        requires
            old(self).wf(),
            old(self).ore[0] + HARVESTER_CAPACITY * old(self).units@.len() <= ORE_LIMIT,
            old(self).ore[1] + HARVESTER_CAPACITY * old(self).units@.len() <= ORE_LIMIT,
        ensures
            exists|states: Seq<Game>|
                #[trigger] harvester_chain(states, harvester_ids(old(self).units@), blocked_by(*old(self)))
                    && states[0] == *old(self) && states[states.len() - 1] == *final(self),
            final(self).wf(),
            economy_frame(*old(self), *final(self)),
            ore_in_play(*final(self)) == ore_in_play(*old(self)),
            final(self).ore[0] >= old(self).ore[0],
            final(self).ore[1] >= old(self).ore[1],
            final(self).events@.len() >= old(self).events@.len(),
            final(self).events@.subrange(0, old(self).events@.len() as int) == old(self).events@,
            final(self).ore[0] == old(self).ore[0] + deposited(
                final(self).events@.subrange(
                    old(self).events@.len() as int,
                    final(self).events@.len() as int,
                ),
                Player::P0,
            ),
            final(self).ore[1] == old(self).ore[1] + deposited(
                final(self).events@.subrange(
                    old(self).events@.len() as int,
                    final(self).events@.len() as int,
                ),
                Player::P1,
            ),
    {
        let mut ids: Vec<EntityId> = Vec::new();
        let mut i: usize = 0;
        while i < self.units.len()
            invariant
                0 <= i <= self.units@.len(),
                ids@.len() <= i,
                ids@ == harvester_ids(self.units@.subrange(0, i as int)),
            decreases self.units.len() - i,
        {
            assert(self.units@.subrange(0, i + 1).drop_last() =~= self.units@.subrange(0, i as int));
            if self.units[i].is_alive() && self.units[i].utype == UnitType::Harvester {
                ids.push(self.units[i].id);
            }
            i += 1;
        }
        assert(self.units@.subrange(0, i as int) =~= self.units@);
        let blocked = self.blocked_grid();
        assert(blocked@ =~= blocked_by(*self));
        let ghost mut states: Seq<Game> = seq![*self];
        let mut k: usize = 0;
        while k < ids.len()
            invariant
                0 <= k <= ids@.len(),
                ids@.len() <= old(self).units@.len(),
                self.wf(),
                blocked@.len() == 4096,
                economy_frame(*old(self), *self),
                ore_in_play(*self) == ore_in_play(*old(self)),
                old(self).ore[0] <= self.ore[0] <= old(self).ore[0] + HARVESTER_CAPACITY * k,
                old(self).ore[1] <= self.ore[1] <= old(self).ore[1] + HARVESTER_CAPACITY * k,
                old(self).ore[0] + HARVESTER_CAPACITY * old(self).units@.len() <= ORE_LIMIT,
                old(self).ore[1] + HARVESTER_CAPACITY * old(self).units@.len() <= ORE_LIMIT,
                self.events@.len() >= old(self).events@.len(),
                ids@ == harvester_ids(old(self).units@),
                blocked@ == blocked_by(*old(self)),
                states.len() == k + 1,
                states[0] == *old(self),
                states[k as int] == *self,
                forall|j: int|
                    0 <= j < k ==> #[trigger] harvester_turn(states[j], states[j + 1], ids@[j], blocked@),
                self.events@.subrange(0, old(self).events@.len() as int) == old(self).events@,
                self.ore[0] == old(self).ore[0] + deposited(
                    self.events@.subrange(old(self).events@.len() as int, self.events@.len() as int),
                    Player::P0,
                ),
                self.ore[1] == old(self).ore[1] + deposited(
                    self.events@.subrange(old(self).events@.len() as int, self.events@.len() as int),
                    Player::P1,
                ),
            decreases ids.len() - k,
        {
            let ghost before = *self;
            self.harvester_tick(ids[k], &blocked);
            proof {
                lemma_economy_frame_trans(*old(self), before, *self);
                states = states.push(*self);
                assert(harvester_turn(before, *self, ids@[k as int], blocked@));
                lemma_turn_deposits(before, *self, ids@[k as int], blocked@, Player::P0);
                lemma_turn_deposits(before, *self, ids@[k as int], blocked@, Player::P1);
                let n0 = old(self).events@.len() as int;
                let n1 = before.events@.len() as int;
                let n2 = self.events@.len() as int;
                let a = self.events@.subrange(n0, n1);
                let b = self.events@.subrange(n1, n2);
                assert(a =~= before.events@.subrange(n0, n1)) by {
                    assert(self.events@.subrange(0, n1).subrange(n0, n1) =~= a);
                }
                assert(self.events@.subrange(n0, n2) =~= a + b);
                lemma_deposited_append(a, b, Player::P0);
                lemma_deposited_append(a, b, Player::P1);
                assert(self.events@.subrange(0, n0) =~= old(self).events@) by {
                    assert(self.events@.subrange(0, n1).subrange(0, n0) =~= self.events@.subrange(0, n0));
                }
            }
            k += 1;
        }
        assert(harvester_chain(states, ids@, blocked@));
    }

    /// The tile a harvester docks at to unload at refinery `rid`: the
    /// refinery's front (south) side, then its other edge neighbors in a fixed
    /// order, the nearest passable one (first on ties). `None` when every
    /// neighbor is impassable.
    fn refinery_dock(&self, rid: EntityId, from_pos: Pos) -> (r: Option<(u8, u8)>)
        requires
            self.wf(),
            from_pos.inside(),
        ensures
            self.any_building_idx(rid) is None ==> r is None,
            self.any_building_idx(rid) matches Some(i) ==> {
                let bt = self.buildings@[i].tile;
                &&& (r is None <==> forall|k: int| !#[trigger] dock_ok(self.map, bt, k))
                &&& (r matches Some(t) ==> exists|k: int|
                    #[trigger] best_dock(self.map, bt, from_pos, k) && t.0 == dock_tile(bt, k).0 && t.1
                        == dock_tile(bt, k).1)
            },
            r matches Some(t) ==> in_map(t) && self.map.passable_at(t.0 as int, t.1 as int),
    {
        let b = match self.any_building(rid) {
            Some(b) => b,
            None => {
                return None;
            },
        };
        let ghost bt = b.tile;
        let x = b.tile.0 as i32;
        let y = b.tile.1 as i32;
        let mut best: Option<(i64, (u8, u8))> = None;
        let ghost mut bk: int = 0;
        let mut k: usize = 0;
        while k < 4
            invariant
                self.wf(),
                from_pos.inside(),
                x == bt.0,
                y == bt.1,
                0 <= k <= 4,
                best matches Some((_, t)) ==> in_map(t) && self.map.passable_at(t.0 as int, t.1 as int),
                best is None ==> forall|j: int| 0 <= j < k ==> !#[trigger] dock_ok(self.map, bt, j),
                best matches Some((d, t)) ==> {
                    &&& 0 <= bk < k
                    &&& dock_ok(self.map, bt, bk)
                    &&& t.0 == dock_tile(bt, bk).0 && t.1 == dock_tile(bt, bk).1
                    &&& d == dock_dist(bt, from_pos, bk)
                    &&& forall|j: int|
                        0 <= j < k && #[trigger] dock_ok(self.map, bt, j) ==> d < dock_dist(bt, from_pos, j)
                            || (d == dock_dist(bt, from_pos, j) && bk <= j)
                },
            decreases 4 - k,
        {
            let (dx, dy): (i32, i32) = if k == 0 {
                (0, 1)
            } else if k == 1 {
                (1, 0)
            } else if k == 2 {
                (-1, 0)
            } else {
                (0, -1)
            };
            let nx = x + dx;
            let ny = y + dy;
            if 0 <= nx && nx < 64 && 0 <= ny && ny < 64 {
                if self.map.is_passable(nx as u8, ny as u8) {
                    let tc = Pos::from_tile(nx as u8, ny as u8);
                    let d = dist2(from_pos.x, from_pos.y, tc.x, tc.y);
                    let better = match best {
                        None => true,
                        Some((bd, _)) => d < bd,
                    };
                    if better {
                        best = Some((d, (nx as u8, ny as u8)));
                        proof {
                            bk = k as int;
                        }
                    }
                }
            }
            assert(dx == dock_offset(k as int).0 && dy == dock_offset(k as int).1);
            k += 1;
        }
        proof {
            match best {
                Some((_, t)) => {
                    assert(best_dock(self.map, bt, from_pos, bk));
                },
                None => {},
            }
        }
        match best {
            Some((_, t)) => Some(t),
            None => None,
        }
    }

    /// The refinery a full harvester heads for: its current one while that is
    /// an alive own refinery, else the nearest alive own refinery (ties:
    /// lowest id).
    fn pick_refinery(&self, uid: EntityId, current: Option<EntityId>) -> (r: Option<EntityId>)
        requires
            self.wf(),
        ensures
            self.any_unit_idx(uid) is None ==> r is None,
            self.any_unit_idx(uid) matches Some(i) ==> {
                let u = self.units@[i];
                if keeps_refinery(*self, u.owner, current) {
                    r == current
                } else {
                    &&& (r is None <==> forall|k: int| !#[trigger] own_refinery(*self, u.owner, k))
                    &&& (r matches Some(id) ==> exists|k: int|
                        #[trigger] nearest_refinery(*self, u.owner, u.pos, k) && self.buildings@[k].id
                            == id)
                }
            },
    {
        let me = match self.any_unit(uid) {
            Some(u) => u,
            None => {
                return None;
            },
        };
        let owner = me.owner;
        let pos = me.pos;
        proof {
            let i = self.any_unit_idx(uid)->0;
            crate::game::lemma_first_where(
                self.units@,
                crate::game::unit_query(UnitQuery::Any(uid)),
                0,
            );
            assert(self.units@[i].wf());
        }
        match current {
            Some(rid) => {
                match self.any_building(rid) {
                    Some(b) => {
                        if b.owner == owner && b.btype == BuildingType::Refinery && b.is_alive() {
                            proof {
                                let j = self.any_building_idx(rid)->0;
                                crate::game::lemma_first_where(
                                    self.buildings@,
                                    crate::game::building_query(BuildingQuery::Any(rid)),
                                    0,
                                );
                                assert(own_refinery(*self, owner, j));
                                assert(keeps_refinery(*self, owner, current));
                            }
                            return Some(rid);
                        }
                    },
                    None => {},
                }
            },
            None => {},
        }
        let mut best: Option<(i64, EntityId)> = None;
        let ghost mut bk: int = 0;
        let mut k: usize = 0;
        while k < self.buildings.len()
            invariant
                self.wf(),
                pos.inside(),
                0 <= k <= self.buildings@.len(),
                best is None ==> forall|j: int| 0 <= j < k ==> !#[trigger] own_refinery(*self, owner, j),
                best matches Some((d, id)) ==> {
                    &&& 0 <= bk < k
                    &&& own_refinery(*self, owner, bk)
                    &&& id == self.buildings@[bk].id
                    &&& d == building_dist(*self, pos, bk)
                    &&& forall|j: int|
                        0 <= j < k && #[trigger] own_refinery(*self, owner, j) ==> d < building_dist(
                            *self,
                            pos,
                            j,
                        ) || (d == building_dist(*self, pos, j) && id <= self.buildings@[j].id)
                },
            decreases self.buildings.len() - k,
        {
            let b = &self.buildings[k];
            if b.owner == owner && b.btype == BuildingType::Refinery && b.is_alive() {
                let bp = b.pos();
                let d = dist2(pos.x, pos.y, bp.x, bp.y);
                let better = match best {
                    None => true,
                    Some((bd, bid)) => d < bd || (d == bd && b.id < bid),
                };
                if better {
                    best = Some((d, b.id));
                    proof {
                        bk = k as int;
                    }
                }
            }
            k += 1;
        }
        proof {
            match best {
                Some((_, id)) => {
                    assert(nearest_refinery(*self, owner, pos, bk));
                },
                None => {},
            }
        }
        match best {
            Some((_, id)) => Some(id),
            None => None,
        }
    }

    /// The nearest tile that still holds ore (ties: lowest tile index).
    fn pick_ore_tile(&self, pos: Pos) -> (r: Option<(u8, u8)>)
        requires
            self.wf(),
            pos.inside(),
        ensures
            r is None <==> forall|j: int| 0 <= j < 4096 ==> #[trigger] self.map.ore@[j] <= 0,
            r matches Some(t) ==> t == coords(spec_tile_index(t.0 as int, t.1 as int)) && nearest_ore(
                self.map,
                pos,
                spec_tile_index(t.0 as int, t.1 as int),
            ),
            r matches Some(t) ==> in_map(t) && self.map.ore_amount(t.0 as int, t.1 as int) > 0,
    {
        let mut best: Option<(i64, usize)> = None;
        let mut idx: usize = 0;
        while idx < MAP_TILES
            invariant
                self.wf(),
                pos.inside(),
                0 <= idx <= 4096,
                best matches Some((_, b)) ==> b < 4096 && self.map.ore@[b as int] > 0,
                best is None ==> forall|j: int| 0 <= j < idx ==> #[trigger] self.map.ore@[j] <= 0,
                best matches Some((d, b)) ==> {
                    &&& b < idx
                    &&& d == tile_dist(pos, b as int)
                    &&& forall|j: int|
                        0 <= j < idx && #[trigger] self.map.ore@[j] > 0 ==> d < tile_dist(pos, j) || (d
                            == tile_dist(pos, j) && b <= j)
                },
            decreases 4096 - idx,
        {
            if self.map.ore[idx] > 0 {
                let (x, y) = tile_coords(idx);
                let tc = Pos::from_tile(x, y);
                let d = dist2(pos.x, pos.y, tc.x, tc.y);
                let better = match best {
                    None => true,
                    Some((bd, bidx)) => d < bd || (d == bd && idx < bidx),
                };
                if better {
                    best = Some((d, idx));
                }
            }
            idx += 1;
        }
        match best {
            Some((_, i)) => Some(tile_coords(i)),
            None => None,
        }
    }

    /// Whether an alive enemy unit stands within the flee radius of `pos`.
    fn threatened(&self, owner: Player, pos: Pos) -> (r: bool)
        requires
            self.wf(),
            pos.inside(),
        ensures
            r == exists|i: int| #[trigger] threat_at(*self, owner, pos, i),
    {
        let mut i: usize = 0;
        while i < self.units.len()
            invariant
                self.wf(),
                pos.inside(),
                0 <= i <= self.units@.len(),
                forall|j: int| 0 <= j < i ==> !#[trigger] threat_at(*self, owner, pos, j),
            decreases self.units.len() - i,
        {
            let u = &self.units[i];
            assert(self.units@[i as int].wf());
            if u.owner != owner && u.is_alive() && dist2(pos.x, pos.y, u.pos.x, u.pos.y) <= square(
            FLEE_RADIUS) {
                assert(threat_at(*self, owner, pos, i as int));
                return true;
            }
            i += 1;
        }
        false
    }

    /// One harvester's turn: flee, follow a manual move, haul a full hold to
    /// the refinery dock (park, then unload), or mine the nearest ore.
    #[verifier::rlimit(100)]
    #[verifier::spinoff_prover]
    fn harvester_tick(&mut self, uid: EntityId, blocked: &Vec<bool>)
        requires
            old(self).wf(),
            blocked@.len() == 4096,
            old(self).ore[0] + HARVESTER_CAPACITY <= ORE_LIMIT,
            old(self).ore[1] + HARVESTER_CAPACITY <= ORE_LIMIT,
        ensures
            harvester_turn(*old(self), *final(self), uid, blocked@),
            final(self).wf(),
            economy_frame(*old(self), *final(self)),
            ore_in_play(*final(self)) == ore_in_play(*old(self)),
            old(self).ore[0] <= final(self).ore[0] <= old(self).ore[0] + HARVESTER_CAPACITY,
            old(self).ore[1] <= final(self).ore[1] <= old(self).ore[1] + HARVESTER_CAPACITY,
            final(self).events@.len() >= old(self).events@.len(),
    {
        let idx = match self.find_unit(UnitQuery::Any(uid)) {
            Some(i) => i,
            None => {
                assert(old(self).any_unit_idx(uid) is None);
                return;
            },
        };
        assert(self.units@[idx as int].wf());
        let ghost gs = *self;
        let ghost u = self.units@[idx as int];
        let owner = self.units[idx].owner;
        let pos = self.units[idx].pos;
        let carrying = self.units[idx].carrying;
        let order = self.units[idx].order;
        let harvest_tile = self.units[idx].harvest_tile;
        let refinery = self.units[idx].refinery;
        let park_ticks = self.units[idx].park_ticks;
        let mining = self.units[idx].mining;
        let speed = unit_stats(UnitType::Harvester).speed;

        let threat = self.threatened(owner, pos);

        let mut new_pos = pos;
        let mut new_carrying = carrying;
        let mut new_path = copy_tiles(&self.units[idx].path);
        let mut new_harvest_tile = harvest_tile;
        let mut new_refinery = refinery;
        let mut new_order = order;
        let mut new_park = park_ticks;
        let mut new_mining = mining;
        let new_fleeing;
        let mut mined: Option<(u8, u8, i32)> = None;
        let mut deposit: i32 = 0;

        if threat {
            new_fleeing = true;
            let dest = self.flee_dest(owner, pos);
            assert(flee_point(gs, u.owner, u.pos, dest));
            let (p, _) = follow(&self.map, blocked, &mut new_path, pos, dest, speed);
            new_pos = p;
            new_park = 0;
            new_order = UnitOrder::Flee { dest };
        } else if let UnitOrder::Move { waypoint, .. } = order {
            // Manual move: honour it, then resume harvesting.
            new_fleeing = false;
            let (p, _) = follow(&self.map, blocked, &mut new_path, pos, waypoint, speed);
            new_pos = p;
            let t = new_pos.tile();
            let w = waypoint.tile();
            if new_path.len() == 0 && t.0 == w.0 && t.1 == w.1 {
                new_order = UnitOrder::Idle;
            }
        } else {
            new_fleeing = false;
            if carrying >= HARVESTER_CAPACITY {
                let target = self.pick_refinery(uid, refinery);
                assert(refinery_choice(gs, uid, u.refinery, target));
                new_refinery = target;
                match target {
                    Some(rid) => {
                        match self.any_building(rid) {
                            Some(b) => {
                                let bpos = b.pos();
                                let dock_r = self.refinery_dock(rid, pos);
                                assert(dock_choice(gs, rid, u.pos, dock_r));
                                match dock_r {
                                    Some(dock) => {
                                        let dpos = Pos::from_tile(dock.0, dock.1);
                                        if dist2(pos.x, pos.y, dpos.x, dpos.y) <= square(DOCK_RADIUS) {
                                            // Docked on the refinery's front tile: park,
                                            // then unload and go back to mining.
                                            if park_ticks >= DEPOSIT_PARK_TICKS {
                                                deposit = carrying;
                                                new_carrying = 0;
                                                new_mining = 0;
                                                new_harvest_tile = None;
                                                new_park = 0;
                                            } else {
                                                new_park = park_ticks + 1;
                                            }
                                        } else {
                                            new_park = 0;
                                            let (p, _) = follow(
                                                &self.map,
                                                blocked,
                                                &mut new_path,
                                                pos,
                                                dpos,
                                                speed,
                                            );
                                            new_pos = p;
                                        }
                                    },
                                    None => {
                                        // No passable dock: unload only when next to
                                        // the refinery itself.
                                        if dist2(pos.x, pos.y, bpos.x, bpos.y) <= square(DROP_RADIUS) {
                                            deposit = carrying;
                                            new_carrying = 0;
                                            new_mining = 0;
                                            new_harvest_tile = None;
                                        } else {
                                            let (p, _) = follow(
                                                &self.map,
                                                blocked,
                                                &mut new_path,
                                                pos,
                                                bpos,
                                                speed,
                                            );
                                            new_pos = p;
                                        }
                                    },
                                }
                            },
                            None => {},
                        }
                    },
                    None => {},
                }
            } else {
                let kept = match harvest_tile {
                    Some(t) => if self.map.ore_at(t.0, t.1) > 0 {
                        Some(t)
                    } else {
                        None
                    },
                    None => None,
                };
                let tile = match kept {
                    Some(t) => Some(t),
                    None => self.pick_ore_tile(pos),
                };
                assert(tile_pick(gs.map, u, tile));
                new_harvest_tile = tile;
                match tile {
                    Some(t) => {
                        let tc = Pos::from_tile(t.0, t.1);
                        if dist2(pos.x, pos.y, tc.x, tc.y) <= square(MINE_RADIUS) {
                            let space = HARVESTER_CAPACITY - carrying;
                            let take = if HARVEST_RATE_PER_TICK < space {
                                HARVEST_RATE_PER_TICK
                            } else {
                                space
                            };
                            let here = self.map.ore_at(t.0, t.1);
                            let taken = if take < here {
                                take
                            } else {
                                here
                            };
                            if taken > 0 {
                                mined = Some((t.0, t.1, taken));
                                new_carrying = carrying + taken;
                                new_mining = if mining < HARVEST_TICKS {
                                    mining + 1
                                } else {
                                    HARVEST_TICKS
                                };
                            }
                        } else {
                            let (p, _) = follow(&self.map, blocked, &mut new_path, pos, tc, speed);
                            new_pos = p;
                        }
                    },
                    None => {},
                }
            }
        }

        proof {
            if mined is Some {
                let (mx, my, amount) = mined->0;
                assert(in_map((mx, my)));
                assert(amount <= self.map.ore@[spec_tile_index(mx as int, my as int)]);
            }
        }
        let ghost g0 = *self;
        let ghost np = new_path@;
        self.units[idx].pos = new_pos;
        self.units[idx].carrying = new_carrying;
        self.units[idx].path = new_path;
        self.units[idx].harvest_tile = new_harvest_tile;
        self.units[idx].refinery = new_refinery;
        self.units[idx].order = new_order;
        self.units[idx].fleeing = new_fleeing;
        self.units[idx].park_ticks = new_park;
        self.units[idx].mining = new_mining;
        proof {
            lemma_carried_update(g0.units@, idx as int, self.units@[idx as int]);
            assert(self.units@ =~= g0.units@.update(idx as int, self.units@[idx as int]));
            assert forall|j: int| 0 <= j < self.units@.len() implies (#[trigger] self.units@[j]).wf() by {
                assert(old(self).units@[j].wf());
            }
        }
        let ghost nu = self.units@[idx as int];
        proof {
            assert(nu.path@ == np);
            assert(harvester_frame(u, nu));
            assert(harvester_decision(gs, idx as int, uid, blocked@, nu, mined, deposit as int));
        }
        match mined {
            Some((x, y, amount)) => {
                let ghost m0 = self.map.ore@;
                self.map.deplete_ore(x, y, amount);
                proof {
                    lemma_ore_sum_update(m0, spec_tile_index(x as int, y as int), self.map.ore@[spec_tile_index(x as int, y as int)]);
                }
            },
            None => {},
        }
        if deposit > 0 {
            let pi = owner.index();
            self.ore[pi] = self.ore[pi] + deposit;
            self.push_event(EventKind::OreDeposited { player: owner, amount: deposit });
        }
        proof {
            assert(harvester_applied(gs, *self, idx as int, nu, mined, deposit as int));
            assert(old(self).any_unit_idx(uid)->0 == idx);
        }
    }
}

} // verus!
