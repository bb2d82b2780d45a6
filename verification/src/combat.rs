//! Deterministic combat: target acquisition, stance behaviour, combat
//! movement (chase, keep range, flee, waypoint) and damage.
//!
//! Units act in ascending order; damage lands immediately, so target choice
//! (lowest HP first) is well defined. Enemy units and buildings are both
//! valid targets.
use vstd::prelude::*;

use crate::entity::{
    building_stats, spec_building_stats, spec_unit_stats, unit_stats, Building, EntityId, Player, Stance, Unit, UnitOrder, Upgrade,
    RETREAT_HP_FRACTION_DEN, RETREAT_HP_FRACTION_NUM,
};
use crate::fixed::{dist2, Pos, POS_LIMIT};
use crate::game::{
    buildings_wf, units_wf, BuildingQuery, EventKind, Game, GameEvent, UnitQuery, HP_FLOOR,
};
use crate::fixed::spec_dist2;
use crate::entity::copy_tiles;
use crate::map::GameMap;
use crate::movement::{spec_step_towards, step_towards, MAX_SPEED};

verus! {

/// Most damage a single hit deals (the strongest weapon with the damage
/// upgrade).
pub const MAX_HIT: i32 = 46;

/// A damageable enemy entity (unit or building) as seen at the start of an
/// attacker's turn.
#[derive(Clone, Copy)]
pub struct Target {
    pub id: EntityId,
    pub pos: Pos,
    pub hp: i32,
    pub building: bool,
}

/// Damage after the upgrade: +15% with the damage upgrade.
pub fn apply_damage_upgrade(damage: i32, upgrade: Upgrade) -> (r: i32)
    requires
        0 <= damage <= 40,
    ensures
        upgrade == Upgrade::Damage ==> r == damage * 115 / 100,
        upgrade != Upgrade::Damage ==> r == damage,
        0 <= r <= MAX_HIT,
{
    match upgrade {
        Upgrade::Damage => damage * 115 / 100,
        _ => damage,
    }
}

/// `v * v` for a distance of at most 16 tiles.
pub fn square(v: i32) -> (r: i64)
    requires
        0 <= v <= 4096,
    ensures
        r == v * v,
        0 <= r <= 4096 * 4096,
{
    proof {
        assert(0 <= v * v <= 4096 * 4096) by (nonlinear_arith)
            requires
                0 <= v <= 4096,
        ;
    }
    (v as i64) * (v as i64)
}

/// `v` clamped into the world border.
pub open spec fn spec_clamp_coord(v: int) -> i32 {
    if v < -POS_LIMIT {
        (-POS_LIMIT) as i32
    } else if v > POS_LIMIT {
        POS_LIMIT
    } else {
        v as i32
    }
}

/// The point as far beyond `pos` as `from` lies before it, clamped into the
/// world border.
pub open spec fn away_point(pos: Pos, from: Pos) -> Pos {
    Pos {
        x: spec_clamp_coord(pos.x + (pos.x - from.x)),
        y: spec_clamp_coord(pos.y + (pos.y - from.y)),
    }
}

/// The alive units of `p` in `s`, in order, as targets.
pub open spec fn unit_targets(s: Seq<Unit>, p: Player) -> Seq<Target>
    decreases s.len(),
{
    if s.len() == 0 {
        Seq::empty()
    } else {
        let u = s.last();
        unit_targets(s.drop_last(), p) + if u.owner == p && u.hp > 0 {
            seq![Target { id: u.id, pos: u.pos, hp: u.hp, building: false }]
        } else {
            Seq::empty()
        }
    }
}

/// The alive buildings of `p` in `s`, in order, as targets (aimed at the
/// center of their tile).
pub open spec fn building_targets(s: Seq<Building>, p: Player) -> Seq<Target>
    decreases s.len(),
{
    if s.len() == 0 {
        Seq::empty()
    } else {
        let b = s.last();
        building_targets(s.drop_last(), p) + if b.owner == p && b.hp > 0 {
            seq![Target { id: b.id, pos: Pos::spec_from_tile(b.tile.0, b.tile.1), hp: b.hp, building: true }]
        } else {
            Seq::empty()
        }
    }
}

/// What a hit of `amount` on the first building (or unit) with id `id`
/// leaves: an alive one loses `amount` hp, and its death is recorded when the
/// hit kills; nothing else changes.
pub open spec fn hit_outcome(old: Game, new: Game, id: EntityId, is_building: bool, amount: int) -> bool {
    if is_building {
        match old.any_building_idx(id) {
            Some(i) => if old.buildings@[i].hp > 0 {
                let b = old.buildings@[i];
                let hp = b.hp - amount;
                &&& new.buildings@ == old.buildings@.update(i, Building { hp: hp as i32, ..b })
                &&& new.events@ == if hp <= 0 {
                    old.events@.push(
                        GameEvent { tick: old.tick, kind: EventKind::BuildingDestroyed { id, owner: b.owner } },
                    )
                } else {
                    old.events@
                }
                &&& new == (Game { buildings: new.buildings, events: new.events, ..old })
            } else {
                new == old
            },
            None => new == old,
        }
    } else {
        match old.any_unit_idx(id) {
            Some(i) => if old.units@[i].hp > 0 {
                let u = old.units@[i];
                let hp = u.hp - amount;
                &&& new.units@ == old.units@.update(i, Unit { hp: hp as i32, ..u })
                &&& new.events@ == if hp <= 0 {
                    old.events@.push(
                        GameEvent { tick: old.tick, kind: EventKind::UnitDied { id, owner: u.owner } },
                    )
                } else {
                    old.events@
                }
                &&& new == (Game { units: new.units, events: new.events, ..old })
            } else {
                new == old
            },
            None => new == old,
        }
    }
}

/// Damage after the upgrade: +15% with the damage upgrade.
pub open spec fn upgraded_damage(damage: int, upgrade: Upgrade) -> int {
    if upgrade == Upgrade::Damage {
        damage * 115 / 100
    } else {
        damage
    }
}

/// Whether target `t` lies within squared range `r2` of `pos`.
pub open spec fn in_range(t: Target, pos: Pos, r2: int) -> bool {
    spec_dist2(pos.x as int, pos.y as int, t.pos.x as int, t.pos.y as int) <= r2
}

/// Whether `ts[j]` is the target in range with the lowest hp (then lowest
/// id, then first in `ts`).
pub open spec fn weakest_in_range(ts: Seq<Target>, pos: Pos, r2: int, j: int) -> bool {
    &&& 0 <= j < ts.len()
    &&& in_range(ts[j], pos, r2)
    &&& forall|k: int|
        0 <= k < ts.len() && #[trigger] in_range(ts[k], pos, r2) ==> ts[j].hp < ts[k].hp || (ts[j].hp
            == ts[k].hp && (ts[j].id < ts[k].id || (ts[j].id == ts[k].id && j <= k)))
}

/// The enemies of `p` as targets: alive units first, then alive buildings.
pub open spec fn targets_of(g: Game, p: Player) -> Seq<Target> {
    unit_targets(g.units@, p.opponent()) + building_targets(g.buildings@, p.opponent())
}

/// One defensive building's turn, from `old` to `new`: the first building
/// with id `bid`, when off cooldown and with an enemy in range, hits the
/// weakest enemy in range and goes on cooldown; otherwise nothing changes.
pub open spec fn turret_outcome(old: Game, new: Game, bid: EntityId) -> bool {
    match old.any_building_idx(bid) {
        None => new == old,
        Some(i) => {
            let b = old.buildings@[i];
            let stats = spec_building_stats(b.btype);
            let ts = targets_of(old, b.owner);
            let pos = Pos::spec_from_tile(b.tile.0, b.tile.1);
            let r2 = stats.range * stats.range;
            if b.cooldown > 0 || forall|k: int| 0 <= k < ts.len() ==> !#[trigger] in_range(ts[k], pos, r2) {
                new == old
            } else {
                exists|j: int, mid: Game|
                    #[trigger] weakest_in_range(ts, pos, r2, j) && #[trigger] hit_outcome(
                        old,
                        mid,
                        ts[j].id,
                        ts[j].building,
                        upgraded_damage(stats.damage as int, old.upgrades[b.owner.idx()]),
                    ) && new.buildings@ == mid.buildings@.update(
                        i,
                        Building { cooldown: stats.cooldown, ..mid.buildings@[i] },
                    ) && new == (Game { buildings: new.buildings, ..mid })
            }
        },
    }
}

/// Where `step_away` leaves a unit at `pos` backing off from `from`.
pub open spec fn spec_step_away(map: GameMap, blocked: Seq<bool>, pos: Pos, from: Pos, speed: int) -> Pos {
    if pos == from {
        pos
    } else {
        spec_step_towards(map, blocked, pos, away_point(pos, from), speed).0
    }
}

/// A move along `path0` toward `dest`, as `move_along_path` makes it: a
/// non-empty path is followed one step; an empty one is planned first (the
/// breadth-first path to the destination tile, a route), with a straight
/// step when no path, or an empty one, comes back.
pub open spec fn path_move(
    map: GameMap,
    blocked: Seq<bool>,
    path0: Seq<(u8, u8)>,
    pos: Pos,
    dest: Pos,
    speed: int,
    r: Pos,
    path1: Seq<(u8, u8)>,
) -> bool {
    &&& path0.len() > 0 ==> (r, path1) == route_step(map, blocked, path0, pos, speed)
    &&& path0.len() == 0 ==> {
        ||| path1.len() == 0 && r == spec_step_towards(map, blocked, pos, dest, speed).0
        ||| exists|q: Seq<(u8, u8)>|
            q.len() > 0 && #[trigger] map.is_route(blocked, pos.spec_tile(), q, dest.spec_tile()) && (r, path1)
                == route_step(map, blocked, q, pos, speed)
    }
    &&& path0.len() == 0 ==> {
        let q = match map.spec_find_path(pos.spec_tile(), dest.spec_tile(), blocked) {
            Some(q) => q,
            None => Seq::empty(),
        };
        if q.len() > 0 {
            (r, path1) == route_step(map, blocked, q, pos, speed)
        } else {
            path1.len() == 0 && r == spec_step_towards(map, blocked, pos, dest, speed).0
        }
    }
}

/// The point a unit of `owner` at `pos` flees to, as `Game::flee_dest`
/// picks it: the nearest alive own HQ or refinery (ties: lowest id), or `pos`
/// when there is none.
pub open spec fn flee_point(g: Game, owner: Player, pos: Pos, r: Pos) -> bool {
    &&& (forall|j: int| !g.refuge(owner, j)) ==> r == pos
    &&& (exists|j: int| g.refuge(owner, j)) ==> exists|j: int|
        #![trigger g.buildings@[j]]
        g.refuge(owner, j) && r == Pos::spec_from_tile(g.buildings@[j].tile.0, g.buildings@[j].tile.1)
            && forall|k: int|
            g.refuge(owner, k) ==> g.refuge_dist(j, pos) < g.refuge_dist(k, pos) || (g.refuge_dist(j, pos)
                == g.refuge_dist(k, pos) && g.buildings@[j].id <= g.buildings@[k].id)
}

/// Squared distance from `pos` to target `t`.
pub open spec fn target_dist(t: Target, pos: Pos) -> int {
    spec_dist2(pos.x as int, pos.y as int, t.pos.x as int, t.pos.y as int)
}

/// Whether target `t` can be fired at from `pos`: within range `r2` and no
/// closer than the minimum range `mr2` (both squared).
pub open spec fn firable(t: Target, pos: Pos, r2: int, mr2: int) -> bool {
    target_dist(t, pos) <= r2 && target_dist(t, pos) >= mr2
}

/// Whether `ts[j]` is the firable target with the lowest hp (then lowest id,
/// then first in `ts`).
pub open spec fn weakest_firable(ts: Seq<Target>, pos: Pos, r2: int, mr2: int, j: int) -> bool {
    &&& 0 <= j < ts.len()
    &&& firable(ts[j], pos, r2, mr2)
    &&& forall|k: int|
        0 <= k < ts.len() && #[trigger] firable(ts[k], pos, r2, mr2) ==> ts[j].hp < ts[k].hp || (ts[j].hp
            == ts[k].hp && (ts[j].id < ts[k].id || (ts[j].id == ts[k].id && j <= k)))
}

/// Whether `ts[j]` is the nearest target within squared vision `v2` (then
/// lowest id, then first in `ts`).
pub open spec fn nearest_visible(ts: Seq<Target>, pos: Pos, v2: int, j: int) -> bool {
    &&& 0 <= j < ts.len()
    &&& in_range(ts[j], pos, v2)
    &&& forall|k: int|
        0 <= k < ts.len() && #[trigger] in_range(ts[k], pos, v2) ==> target_dist(ts[j], pos) < target_dist(
            ts[k],
            pos,
        ) || (target_dist(ts[j], pos) == target_dist(ts[k], pos) && (ts[j].id < ts[k].id || (ts[j].id
            == ts[k].id && j <= k)))
}

/// Whether `ts[e]` is the first target with id `t`.
pub open spec fn first_with_id(ts: Seq<Target>, t: EntityId, e: int) -> bool {
    &&& 0 <= e < ts.len()
    &&& ts[e].id == t
    &&& forall|k: int| 0 <= k < e ==> (#[trigger] ts[k]).id != t
}

/// The unit's current target, kept while some target with its id is within
/// squared vision `v2`.
pub open spec fn kept_target(target: Option<EntityId>, ts: Seq<Target>, pos: Pos, v2: int) -> Option<
    EntityId,
> {
    match target {
        Some(t) => if exists|k: int| 0 <= k < ts.len() && ts[k].id == t && #[trigger] in_range(ts[k], pos, v2) {
            Some(t)
        } else {
            None
        },
        None => None,
    }
}

/// Whether a unit that does not flee settles on target `nt`: its kept
/// target; else the weakest firable enemy; else, unless holding, the nearest
/// visible one; else none.
pub open spec fn picks(
    ts: Seq<Target>,
    pos: Pos,
    v2: int,
    r2: int,
    mr2: int,
    stance: Stance,
    kept: Option<EntityId>,
    nt: Option<EntityId>,
) -> bool {
    match kept {
        Some(t) => nt == Some(t),
        None => if exists|k: int| 0 <= k < ts.len() && #[trigger] firable(ts[k], pos, r2, mr2) {
            exists|j: int| #[trigger] weakest_firable(ts, pos, r2, mr2, j) && nt == Some(ts[j].id)
        } else if stance != Stance::Hold && exists|k: int| 0 <= k < ts.len() && #[trigger] in_range(ts[k], pos, v2) {
            exists|j: int| #[trigger] nearest_visible(ts, pos, v2, j) && nt == Some(ts[j].id)
        } else {
            nt is None
        },
    }
}

/// Whether a unit flees: cautious and below the retreat fraction of its hp.
pub open spec fn flees(u: Unit) -> bool {
    u.stance == Stance::Cautious && u.hp * RETREAT_HP_FRACTION_DEN < u.max_hp * RETREAT_HP_FRACTION_NUM
}

/// Facing target `te` (id `t`): back off inside the minimum range, close in
/// when out of range (neither while holding), and fire when in range and off
/// cooldown, which restarts the cooldown.
pub open spec fn engage(
    map: GameMap,
    blocked: Seq<bool>,
    u: Unit,
    te: Target,
    t: EntityId,
    upgrade: Upgrade,
    npos: Pos,
    ncd: int,
    hit: Option<(EntityId, bool, int)>,
) -> bool {
    let st = spec_unit_stats(u.utype);
    let d2 = target_dist(te, u.pos);
    let r2 = st.range * st.range;
    let mr2 = st.min_range * st.min_range;
    let in_fire = d2 <= r2 && d2 >= mr2;
    let chase = u.stance != Stance::Hold;
    &&& npos == if st.min_range > 0 && d2 < mr2 {
        if chase {
            spec_step_away(map, blocked, u.pos, te.pos, st.speed as int)
        } else {
            u.pos
        }
    } else if !in_fire && chase {
        spec_step_towards(map, blocked, u.pos, te.pos, st.speed as int).0
    } else {
        u.pos
    }
    &&& in_fire && u.cooldown <= 0 ==> ncd == st.cooldown && hit == Some(
        (t, te.building, upgraded_damage(st.damage as int, upgrade)),
    )
    &&& !(in_fire && u.cooldown <= 0) ==> ncd == u.cooldown && hit is None
}

/// What unit `i` of `g` decides on its turn: its new position, path, target
/// and cooldown, and the hit it lands, if any.
pub open spec fn unit_decision(
    g: Game,
    i: int,
    blocked: Seq<bool>,
    npos: Pos,
    npath: Seq<(u8, u8)>,
    nt: Option<EntityId>,
    ncd: int,
    hit: Option<(EntityId, bool, int)>,
) -> bool {
    let u = g.units@[i];
    let st = spec_unit_stats(u.utype);
    let ts = targets_of(g, u.owner);
    let v2 = st.vision * st.vision;
    let r2 = st.range * st.range;
    let mr2 = st.min_range * st.min_range;
    let kept = kept_target(u.target, ts, u.pos, v2);
    if flees(u) {
        &&& exists|dest: Pos|
            #[trigger] flee_point(g, u.owner, u.pos, dest) && path_move(
                g.map,
                blocked,
                u.path@,
                u.pos,
                dest,
                st.speed as int,
                npos,
                npath,
            )
        &&& nt == kept
        &&& ncd == u.cooldown
        &&& hit is None
    } else {
        &&& picks(ts, u.pos, v2, r2, mr2, u.stance, kept, nt)
        &&& match nt {
            Some(t) => if exists|e: int| #[trigger] first_with_id(ts, t, e) {
                exists|e: int|
                    #[trigger] first_with_id(ts, t, e) && engage(
                        g.map,
                        blocked,
                        u,
                        ts[e],
                        t,
                        g.upgrades[u.owner.idx()],
                        npos,
                        ncd,
                        hit,
                    ) && npath == u.path@
            } else {
                npos == u.pos && npath == u.path@ && ncd == u.cooldown && hit is None
            },
            None => {
                &&& match u.order {
                    UnitOrder::Move { waypoint, .. } => path_move(
                        g.map,
                        blocked,
                        u.path@,
                        u.pos,
                        waypoint,
                        st.speed as int,
                        npos,
                        npath,
                    ),
                    _ => npos == u.pos && npath == u.path@,
                }
                &&& ncd == u.cooldown
                &&& hit is None
            },
        }
    }
}

/// A unit lands a hit only on its target, only when off cooldown, and only
/// when that target stands inside its fire band: no farther than its range
/// and no closer than its minimum range (so artillery never fires at an
/// enemy inside its dead zone).
pub proof fn law_hits_only_in_fire_band(
    g: Game,
    i: int,
    blocked: Seq<bool>,
    npos: Pos,
    npath: Seq<(u8, u8)>,
    nt: Option<EntityId>,
    ncd: int,
    hit: Option<(EntityId, bool, int)>,
)
    requires
        unit_decision(g, i, blocked, npos, npath, nt, ncd, hit),
        hit is Some,
    ensures
        ({
            let u = g.units@[i];
            let st = spec_unit_stats(u.utype);
            let ts = targets_of(g, u.owner);
            &&& hit matches Some((v, _b, _a))
            &&& nt == Some(v)
            &&& u.cooldown <= 0
            &&& exists|e: int|
                #[trigger] first_with_id(ts, v, e) && target_dist(ts[e], u.pos) <= st.range
                    * st.range && target_dist(ts[e], u.pos) >= st.min_range * st.min_range
        }),
{
    let u = g.units@[i];
    let ts = targets_of(g, u.owner);
    if !flees(u) {
        match nt {
            Some(t) => {
                if exists|e: int| #[trigger] first_with_id(ts, t, e) {
                    let e = choose|e: int|
                        #[trigger] first_with_id(ts, t, e) && engage(
                            g.map,
                            blocked,
                            u,
                            ts[e],
                            t,
                            g.upgrades[u.owner.idx()],
                            npos,
                            ncd,
                            hit,
                        ) && npath == u.path@;
                    assert(first_with_id(ts, t, e));
                }
            },
            None => {},
        }
    }
}

/// Conversely, a unit that does not flee, has settled on a target standing
/// inside its fire band, and is off cooldown fires: the hit lands on that
/// target with the unit's upgraded damage.
pub proof fn law_fires_when_ready(
    g: Game,
    i: int,
    blocked: Seq<bool>,
    npos: Pos,
    npath: Seq<(u8, u8)>,
    nt: Option<EntityId>,
    ncd: int,
    hit: Option<(EntityId, bool, int)>,
    e: int,
)
    requires
        unit_decision(g, i, blocked, npos, npath, nt, ncd, hit),
        !flees(g.units@[i]),
        nt matches Some(t) && first_with_id(targets_of(g, g.units@[i].owner), t, e),
        g.units@[i].cooldown <= 0,
        target_dist(targets_of(g, g.units@[i].owner)[e], g.units@[i].pos) <= spec_unit_stats(
            g.units@[i].utype,
        ).range * spec_unit_stats(g.units@[i].utype).range,
        target_dist(targets_of(g, g.units@[i].owner)[e], g.units@[i].pos) >= spec_unit_stats(
            g.units@[i].utype,
        ).min_range * spec_unit_stats(g.units@[i].utype).min_range,
    ensures
        hit == Some(
            (
                nt->0,
                targets_of(g, g.units@[i].owner)[e].building,
                upgraded_damage(
                    spec_unit_stats(g.units@[i].utype).damage as int,
                    g.upgrades[g.units@[i].owner.idx()],
                ),
            ),
        ),
{
    let u = g.units@[i];
    let ts = targets_of(g, u.owner);
    let t = nt->0;
    assert(first_with_id(ts, t, e));
    let e2 = choose|e2: int|
        #[trigger] first_with_id(ts, t, e2) && engage(
            g.map,
            blocked,
            u,
            ts[e2],
            t,
            g.upgrades[u.owner.idx()],
            npos,
            ncd,
            hit,
        ) && npath == u.path@;
    if e < e2 {
        assert(ts[e].id != t);
    } else if e2 < e {
        assert(ts[e2].id != t);
    }
}

/// Whether `new` is `g` after unit `i` takes decision `d`: the unit's
/// position, path, target, fleeing flag and cooldown (floored at zero) are
/// set in `mid`, then the hit, if any, lands.
pub open spec fn unit_applied(
    g: Game,
    mid: Game,
    new: Game,
    i: int,
    npos: Pos,
    npath: Seq<(u8, u8)>,
    nt: Option<EntityId>,
    ncd: int,
    hit: Option<(EntityId, bool, int)>,
) -> bool {
    let u = g.units@[i];
    &&& mid.units@ == g.units@.update(
        i,
        Unit {
            pos: npos,
            target: nt,
            fleeing: flees(u),
            cooldown: (if ncd > 0 {
                ncd
            } else {
                0
            }) as i32,
            path: mid.units@[i].path,
            ..u
        },
    )
    &&& mid.units@[i].path@ == npath
    &&& mid == (Game { units: mid.units, ..g })
    &&& match hit {
        Some((v, b, a)) => hit_outcome(mid, new, v, b, a),
        None => new == mid,
    }
}

/// One combat unit's turn, from `old` to `new`: the first unit with id
/// `uid` decides and the decision is applied; with no such unit nothing
/// changes.
pub open spec fn unit_turn(old: Game, new: Game, uid: EntityId, blocked: Seq<bool>) -> bool {
    match old.any_unit_idx(uid) {
        None => new == old,
        Some(i) => exists|
            npos: Pos,
            npath: Seq<(u8, u8)>,
            nt: Option<EntityId>,
            ncd: int,
            hit: Option<(EntityId, bool, int)>,
            mid: Game,
        |
            #[trigger] unit_decision(old, i, blocked, npos, npath, nt, ncd, hit) && #[trigger] unit_applied(
                old,
                mid,
                new,
                i,
                npos,
                npath,
                nt,
                ncd,
                hit,
            ),
    }
}

/// A decision of unit `i`, the first with id `uid`, and its application
/// make a unit turn.
proof fn lemma_unit_turn(
    old: Game,
    new: Game,
    uid: EntityId,
    blocked: Seq<bool>,
    i: int,
    npos: Pos,
    npath: Seq<(u8, u8)>,
    nt: Option<EntityId>,
    ncd: int,
    hit: Option<(EntityId, bool, int)>,
    mid: Game,
)
    requires
        old.any_unit_idx(uid) == Some(i),
        unit_decision(old, i, blocked, npos, npath, nt, ncd, hit),
        unit_applied(old, mid, new, i, npos, npath, nt, ncd, hit),
    ensures
        unit_turn(old, new, uid, blocked),
{
    assert(old.any_unit_idx(uid)->0 == i);
}

/// The tiles under a building of `g`, as a per-tile overlay.
pub open spec fn blocked_by(g: Game) -> Seq<bool> {
    Seq::new(
        4096,
        |i: int|
            exists|j: int|
                0 <= j < g.buildings@.len() && crate::map::spec_tile_index(
                    #[trigger] g.buildings@[j].tile.0 as int,
                    g.buildings@[j].tile.1 as int,
                ) == i,
    )
}

/// The ids of the alive units in `s` that deal damage, in order.
pub open spec fn fighter_ids(s: Seq<Unit>) -> Seq<EntityId>
    decreases s.len(),
{
    if s.len() == 0 {
        Seq::empty()
    } else if s.last().hp > 0 && spec_unit_stats(s.last().utype).damage > 0 {
        fighter_ids(s.drop_last()).push(s.last().id)
    } else {
        fighter_ids(s.drop_last())
    }
}

/// Whether `states` runs the turns of the units `ids`, one after another,
/// over the building overlay `blocked`.
pub open spec fn unit_chain(states: Seq<Game>, ids: Seq<EntityId>, blocked: Seq<bool>) -> bool {
    &&& states.len() == ids.len() + 1
    &&& forall|k: int|
        0 <= k < ids.len() ==> #[trigger] unit_turn(states[k], states[k + 1], ids[k], blocked)
}

/// The ids of the alive buildings in `s` that deal damage, in order.
pub open spec fn turret_ids(s: Seq<Building>) -> Seq<EntityId>
    decreases s.len(),
{
    if s.len() == 0 {
        Seq::empty()
    } else if s.last().hp > 0 && spec_building_stats(s.last().btype).damage > 0 {
        turret_ids(s.drop_last()).push(s.last().id)
    } else {
        turret_ids(s.drop_last())
    }
}

/// Whether `states` runs the turns of the turrets `ids`, one after another.
pub open spec fn turret_chain(states: Seq<Game>, ids: Seq<EntityId>) -> bool {
    &&& states.len() == ids.len() + 1
    &&& forall|k: int| 0 <= k < ids.len() ==> #[trigger] turret_outcome(states[k], states[k + 1], ids[k])
}

/// A step along a non-empty route `q`: toward the center of its first tile,
/// which is dropped once reached (on arrival, or standing in that tile).
pub open spec fn route_step(map: GameMap, blocked: Seq<bool>, q: Seq<(u8, u8)>, pos: Pos, speed: int) -> (
    Pos,
    Seq<(u8, u8)>,
) {
    let s = spec_step_towards(map, blocked, pos, Pos::spec_from_tile(q[0].0, q[0].1), speed);
    if s.1 || s.0.spec_tile() == q[0] {
        (s.0, q.drop_first())
    } else {
        (s.0, q)
    }
}

/// Clamp a coordinate into the world border.
fn clamp_coord(v: i64) -> (r: i32)
    ensures
        r == spec_clamp_coord(v as int),
        -POS_LIMIT <= r <= POS_LIMIT,
        -POS_LIMIT <= v <= POS_LIMIT ==> r == v,
{
    if v < -(POS_LIMIT as i64) {
        -POS_LIMIT
    } else if v > POS_LIMIT as i64 {
        POS_LIMIT
    } else {
        v as i32
    }
}

/// One straight step toward `dest` (no path finding).
fn step_direct(map: &GameMap, blocked: &[bool], pos: Pos, dest: Pos, speed: i32) -> (r: Pos)
    requires
        map.wf(),
        pos.inside(),
        dest.inside(),
        0 < speed <= MAX_SPEED,
    ensures
        r == spec_step_towards(*map, blocked@, pos, dest, speed as int).0,
        r.inside(),
{
    step_towards(map, blocked, pos, dest, speed).0
}

/// One step directly away from `from` (used to keep minimum range).
fn step_away(map: &GameMap, blocked: &[bool], pos: Pos, from: Pos, speed: i32) -> (r: Pos)
    requires
        map.wf(),
        pos.inside(),
        from.inside(),
        0 < speed <= MAX_SPEED,
    ensures
        r == spec_step_away(*map, blocked@, pos, from, speed as int),
        r.inside(),
{
    let dx = pos.x as i64 - from.x as i64;
    let dy = pos.y as i64 - from.y as i64;
    if dx == 0 && dy == 0 {
        return pos;
    }
    let dest = Pos::new(clamp_coord(pos.x as i64 + dx), clamp_coord(pos.y as i64 + dy));
    step_towards(map, blocked, pos, dest, speed).0
}

/// Follow `path` one step toward `dest`, planning a path first when it is
/// empty; falls back to a straight step when no path exists.
fn move_along_path(
    map: &GameMap,
    blocked: &[bool],
    path: &mut Vec<(u8, u8)>,
    pos: Pos,
    dest: Pos,
    speed: i32,
) -> (r: Pos)
    requires
        map.wf(),
        pos.inside(),
        dest.inside(),
        0 < speed <= MAX_SPEED,
    ensures
        path_move(*map, blocked@, old(path)@, pos, dest, speed as int, r, final(path)@),
        r.inside(),
{
    if path.len() == 0 {
        match map.find_path(pos.tile(), dest.tile(), blocked) {
            Some(p) => {
                *path = p;
            },
            None => {},
        }
    }
    if path.len() == 0 {
        return step_direct(map, blocked, pos, dest, speed);
    }
    let ghost q = path@;
    let next = path[0];
    let ndest = Pos::from_tile(next.0, next.1);
    let (p, arrived) = step_towards(map, blocked, pos, ndest, speed);
    let t = p.tile();
    if arrived || (t.0 == next.0 && t.1 == next.1) {
        path.remove(0);
        assert(path@ =~= q.drop_first());
    }
    proof {
        if old(path)@.len() == 0 {
            assert(map.is_route(blocked@, pos.spec_tile(), q, dest.spec_tile()));
        }
    }
    p
}

/// The combat frame: everything but unit/building combat state stays put, and
/// every entity keeps its identity.
pub open spec fn combat_frame(old: Game, new: Game) -> bool {
    &&& new.config == old.config
    &&& new.map == old.map
    &&& new.ore == old.ore
    &&& new.upgrades == old.upgrades
    &&& new.tick == old.tick
    &&& new.winner == old.winner
    &&& new.win_reason == old.win_reason
    &&& new.over == old.over
    &&& new.apm == old.apm
    &&& new.next_id == old.next_id
    &&& new.dropped_commands == old.dropped_commands
    &&& new.fog == old.fog
    &&& new.units@.len() == old.units@.len()
    &&& new.buildings@.len() == old.buildings@.len()
    &&& forall|i: int|
        0 <= i < old.units@.len() ==> (#[trigger] new.units@[i]).id == old.units@[i].id
            && new.units@[i].owner == old.units@[i].owner && new.units@[i].utype
            == old.units@[i].utype && new.units@[i].max_hp == old.units@[i].max_hp
    &&& forall|i: int|
        0 <= i < old.buildings@.len() ==> (#[trigger] new.buildings@[i]).id
            == old.buildings@[i].id && new.buildings@[i].owner == old.buildings@[i].owner
            && new.buildings@[i].btype == old.buildings@[i].btype && new.buildings@[i].tile
            == old.buildings@[i].tile && new.buildings@[i].max_hp == old.buildings@[i].max_hp
}

pub proof fn lemma_combat_frame_trans(a: Game, b: Game, c: Game)
    requires
        combat_frame(a, b),
        combat_frame(b, c),
    ensures
        combat_frame(a, c),
{
    assert forall|i: int| 0 <= i < a.units@.len() implies (#[trigger] c.units@[i]).id
        == a.units@[i].id && c.units@[i].owner == a.units@[i].owner && c.units@[i].utype
        == a.units@[i].utype && c.units@[i].max_hp == a.units@[i].max_hp by {
        assert(b.units@[i].id == a.units@[i].id);
    }
    assert forall|i: int| 0 <= i < a.buildings@.len() implies (#[trigger] c.buildings@[i]).id
        == a.buildings@[i].id && c.buildings@[i].owner == a.buildings@[i].owner
        && c.buildings@[i].btype == a.buildings@[i].btype && c.buildings@[i].tile
        == a.buildings@[i].tile && c.buildings@[i].max_hp == a.buildings@[i].max_hp by {
        assert(b.buildings@[i].id == a.buildings@[i].id);
    }
}

impl Game {
    /// Combat and combat-unit movement for one tick: every alive unit that
    /// deals damage acts once, in ascending order.
    pub fn combat_phase(&mut self)
        requires
            old(self).wf(),
        ensures
            exists|states: Seq<Game>|
                #[trigger] unit_chain(states, fighter_ids(old(self).units@), blocked_by(*old(self)))
                    && states[0] == *old(self) && states[states.len() - 1] == *final(self),
            final(self).wf(),
            combat_frame(*old(self), *final(self)),
            final(self).events@.len() >= old(self).events@.len(),
    {
        let mut ids: Vec<EntityId> = Vec::new();
        let mut i: usize = 0;
        while i < self.units.len()
            invariant
                0 <= i <= self.units@.len(),
                ids@ == fighter_ids(self.units@.subrange(0, i as int)),
            decreases self.units.len() - i,
        {
            assert(self.units@.subrange(0, i + 1).drop_last() =~= self.units@.subrange(0, i as int));
            if self.units[i].is_alive() && unit_stats(self.units[i].utype).damage > 0 {
                ids.push(self.units[i].id);
            }
            i += 1;
        }
        assert(self.units@.subrange(0, i as int) =~= self.units@);
        let blocked = self.blocked_grid();
        assert(blocked@ =~= blocked_by(*self));
        let ghost mut states: Seq<Game> = seq![*self];
        let mut k: usize = 0;
        while k < ids.len()
            invariant
                0 <= k <= ids@.len(),
                self.wf(),
                blocked@.len() == 4096,
                combat_frame(*old(self), *self),
                self.events@.len() >= old(self).events@.len(),
                ids@ == fighter_ids(old(self).units@),
                blocked@ == blocked_by(*old(self)),
                states.len() == k + 1,
                states[0] == *old(self),
                states[k as int] == *self,
                forall|j: int|
                    0 <= j < k ==> #[trigger] unit_turn(states[j], states[j + 1], ids@[j], blocked@),
            decreases ids.len() - k,
        {
            let ghost before = *self;
            self.combat_unit_tick(ids[k], &blocked);
            proof {
                lemma_combat_frame_trans(*old(self), before, *self);
                states = states.push(*self);
            }
            k += 1;
        }
        assert(unit_chain(states, ids@, blocked@));
    }

    /// Defensive buildings fire (ascending order).
    pub fn turret_phase(&mut self)
        requires
            old(self).wf(),
        ensures
            exists|states: Seq<Game>|
                #[trigger] turret_chain(states, turret_ids(old(self).buildings@)) && states[0] == *old(
                    self,
                ) && states[states.len() - 1] == *final(self),
            final(self).wf(),
            combat_frame(*old(self), *final(self)),
            final(self).events@.len() >= old(self).events@.len(),
    {
        let mut ids: Vec<EntityId> = Vec::new();
        let mut i: usize = 0;
        while i < self.buildings.len()
            invariant
                0 <= i <= self.buildings@.len(),
                ids@ == turret_ids(self.buildings@.subrange(0, i as int)),
            decreases self.buildings.len() - i,
        {
            assert(self.buildings@.subrange(0, i + 1).drop_last() =~= self.buildings@.subrange(0, i as int));
            if self.buildings[i].is_alive() && building_stats(self.buildings[i].btype).damage > 0 {
                ids.push(self.buildings[i].id);
            }
            i += 1;
        }
        assert(self.buildings@.subrange(0, i as int) =~= self.buildings@);
        let ghost mut states: Seq<Game> = seq![*self];
        let mut k: usize = 0;
        while k < ids.len()
            invariant
                0 <= k <= ids@.len(),
                self.wf(),
                combat_frame(*old(self), *self),
                self.events@.len() >= old(self).events@.len(),
                ids@ == turret_ids(old(self).buildings@),
                states.len() == k + 1,
                states[0] == *old(self),
                states[k as int] == *self,
                forall|j: int| 0 <= j < k ==> #[trigger] turret_outcome(states[j], states[j + 1], ids@[j]),
            decreases ids.len() - k,
        {
            let ghost before = *self;
            self.turret_tick(ids[k]);
            proof {
                lemma_combat_frame_trans(*old(self), before, *self);
                states = states.push(*self);
            }
            k += 1;
        }
        assert(turret_chain(states, ids@));
    }

    /// The alive entities (units first, then buildings) of `enemy`.
    fn enemies_of(&self, enemy: Player) -> (out: Vec<Target>)
        requires
            self.wf(),
        ensures
            out@ == unit_targets(self.units@, enemy) + building_targets(self.buildings@, enemy),
            forall|i: int| 0 <= i < out@.len() ==> (#[trigger] out@[i]).pos.inside(),
            forall|i: int| 0 <= i < out@.len() ==> (#[trigger] out@[i]).hp > 0,
    {
        let mut out: Vec<Target> = Vec::new();
        let mut i: usize = 0;
        while i < self.units.len()
            invariant
                self.wf(),
                0 <= i <= self.units@.len(),
                out@ == unit_targets(self.units@.subrange(0, i as int), enemy),
                forall|j: int| 0 <= j < out@.len() ==> (#[trigger] out@[j]).pos.inside(),
                forall|j: int| 0 <= j < out@.len() ==> (#[trigger] out@[j]).hp > 0,
            decreases self.units.len() - i,
        {
            let u = &self.units[i];
            assert(self.units@[i as int].wf());
            assert(self.units@.subrange(0, i + 1).drop_last() =~= self.units@.subrange(0, i as int));
            if u.owner == enemy && u.is_alive() {
                out.push(Target { id: u.id, pos: u.pos, hp: u.hp, building: false });
            }
            i += 1;
            assert(out@ =~= unit_targets(self.units@.subrange(0, i as int), enemy));
        }
        assert(self.units@.subrange(0, i as int) =~= self.units@);
        let ghost head = out@;
        let mut k: usize = 0;
        while k < self.buildings.len()
            invariant
                self.wf(),
                0 <= k <= self.buildings@.len(),
                out@ == head + building_targets(self.buildings@.subrange(0, k as int), enemy),
                forall|j: int| 0 <= j < out@.len() ==> (#[trigger] out@[j]).pos.inside(),
                forall|j: int| 0 <= j < out@.len() ==> (#[trigger] out@[j]).hp > 0,
            decreases self.buildings.len() - k,
        {
            let b = &self.buildings[k];
            assert(self.buildings@.subrange(0, k + 1).drop_last() =~= self.buildings@.subrange(0, k as int));
            if b.owner == enemy && b.is_alive() {
                out.push(Target { id: b.id, pos: b.pos(), hp: b.hp, building: true });
            }
            k += 1;
            assert(out@ =~= head + building_targets(self.buildings@.subrange(0, k as int), enemy));
        }
        assert(self.buildings@.subrange(0, k as int) =~= self.buildings@);
        out
    }

    /// Apply a hit to the first unit (or building) with id `id`; a hit on an
    /// entity that is already dead has no effect. Records a death event when
    /// the hit kills.
    pub fn apply_damage(&mut self, id: EntityId, is_building: bool, amount: i32)
        requires
            old(self).wf(),
            0 <= amount <= MAX_HIT,
        ensures
            hit_outcome(*old(self), *final(self), id, is_building, amount as int),
            final(self).wf(),
            combat_frame(*old(self), *final(self)),
            final(self).events@.len() >= old(self).events@.len(),
            is_building ==> final(self).units == old(self).units,
            !is_building ==> final(self).buildings == old(self).buildings,
            is_building ==> (old(self).any_building_idx(id) matches Some(i) ==> (old(
                self,
            ).buildings@[i].hp > 0 ==> final(self).buildings@[i].hp == old(self).buildings@[i].hp
                - amount)),
            !is_building ==> (old(self).any_unit_idx(id) matches Some(i) ==> (old(self).units@[i].hp
                > 0 ==> final(self).units@[i].hp == old(self).units@[i].hp - amount)),
    {
        if is_building {
            match self.find_building(BuildingQuery::Any(id)) {
                Some(bi) => {
                    if self.buildings[bi].is_alive() {
                        let hp = self.buildings[bi].hp - amount;
                        self.buildings[bi].hp = hp;
                        proof {
                            assert forall|j: int| 0 <= j < self.buildings@.len() implies (
                            #[trigger] self.buildings@[j]).wf() by {
                                assert(old(self).buildings@[j].wf());
                            }
                        }
                        if hp <= 0 {
                            let owner = self.buildings[bi].owner;
                            self.push_event(EventKind::BuildingDestroyed { id, owner });
                        }
                    }
                },
                None => {},
            }
        } else {
            match self.find_unit(UnitQuery::Any(id)) {
                Some(ui) => {
                    if self.units[ui].is_alive() {
                        let hp = self.units[ui].hp - amount;
                        self.units[ui].hp = hp;
                        proof {
                            assert forall|j: int| 0 <= j < self.units@.len() implies (
                            #[trigger] self.units@[j]).wf() by {
                                assert(old(self).units@[j].wf());
                            }
                        }
                        if hp <= 0 {
                            let owner = self.units[ui].owner;
                            self.push_event(EventKind::UnitDied { id, owner });
                        }
                    }
                },
                None => {},
            }
        }
    }

    /// One combat unit's turn: keep or re-acquire a target, move (flee,
    /// chase, keep minimum range, or follow its waypoint) and fire when in
    /// range and off cooldown.
    #[verifier::rlimit(100)]
    #[verifier::spinoff_prover]
    fn combat_unit_tick(&mut self, uid: EntityId, blocked: &Vec<bool>)
        requires
            old(self).wf(),
            blocked@.len() == 4096,
        ensures
            unit_turn(*old(self), *final(self), uid, blocked@),
            final(self).wf(),
            combat_frame(*old(self), *final(self)),
            final(self).events@.len() >= old(self).events@.len(),
    {
        let idx = match self.find_unit(UnitQuery::Any(uid)) {
            Some(i) => i,
            None => {
                assert(old(self).any_unit_idx(uid) is None);
                return;
            },
        };
        assert(self.units@[idx as int].wf());
        let ghost g0 = *self;
        let ghost u = self.units@[idx as int];
        let utype = self.units[idx].utype;
        let stats = unit_stats(utype);
        let owner = self.units[idx].owner;
        let enemy = owner.enemy();
        let pos = self.units[idx].pos;
        let stance = self.units[idx].stance;
        let order = self.units[idx].order;
        let hp = self.units[idx].hp;
        let max_hp = self.units[idx].max_hp;
        let cooldown = self.units[idx].cooldown;
        let mut path = copy_tiles(&self.units[idx].path);
        let mut target = self.units[idx].target;

        let enemies = self.enemies_of(enemy);
        let ghost ts = enemies@;
        let vision2 = square(stats.vision);
        let range2 = square(stats.range);
        let min_range2 = square(stats.min_range);
        let ghost v2 = vision2 as int;
        let ghost r2 = range2 as int;
        let ghost mr2 = min_range2 as int;
        assert(ts == targets_of(g0, u.owner));

        match target {
            Some(t) => {
                let mut valid = false;
                let mut e: usize = 0;
                while e < enemies.len()
                    invariant
                        0 <= e <= enemies@.len(),
                        pos.inside(),
                        ts == enemies@,
                        v2 == vision2,
                        forall|j: int| 0 <= j < enemies@.len() ==> (#[trigger] enemies@[j]).pos.inside(),
                        valid == exists|k: int| 0 <= k < e && ts[k].id == t && #[trigger] in_range(ts[k], pos, v2),
                    decreases enemies.len() - e,
                {
                    let d2 = dist2(pos.x, pos.y, enemies[e].pos.x, enemies[e].pos.y);
                    assert(in_range(ts[e as int], pos, v2) == (d2 <= vision2));
                    if enemies[e].id == t && d2 <= vision2 {
                        valid = true;
                    }
                    e += 1;
                }
                if !valid {
                    target = None;
                }
            },
            None => {},
        }
        assert(target == kept_target(u.target, ts, pos, v2));

        let low_hp = hp * RETREAT_HP_FRACTION_DEN < max_hp * RETREAT_HP_FRACTION_NUM;
        let should_flee = stance == Stance::Cautious && low_hp;
        assert(should_flee == flees(u));

        let mut new_pos = pos;
        let mut new_target = target;
        let mut hit: Option<(EntityId, bool, i32)> = None;
        let mut new_cooldown = cooldown;
        let new_fleeing;
        if should_flee {
            let dest = self.flee_dest(owner, pos);
            assert(flee_point(g0, u.owner, u.pos, dest));
            new_pos = move_along_path(&self.map, blocked, &mut path, pos, dest, stats.speed);
            new_fleeing = true;
        } else {
            if new_target.is_none() {
                // Lowest HP (then lowest id) enemy in firing range.
                let mut best: Option<(i32, EntityId)> = None;
                let ghost mut bj: int = 0;
                let mut e: usize = 0;
                while e < enemies.len()
                    invariant
                        0 <= e <= enemies@.len(),
                        pos.inside(),
                        ts == enemies@,
                        r2 == range2,
                        mr2 == min_range2,
                        forall|j: int| 0 <= j < enemies@.len() ==> (#[trigger] enemies@[j]).pos.inside(),
                        best is None ==> forall|k: int| 0 <= k < e ==> !#[trigger] firable(ts[k], pos, r2, mr2),
                        best matches Some((h, id)) ==> {
                            &&& 0 <= bj < e
                            &&& firable(ts[bj], pos, r2, mr2)
                            &&& h == ts[bj].hp && id == ts[bj].id
                            &&& forall|k: int|
                                0 <= k < e && #[trigger] firable(ts[k], pos, r2, mr2) ==> ts[bj].hp < ts[k].hp
                                    || (ts[bj].hp == ts[k].hp && (ts[bj].id < ts[k].id || (ts[bj].id
                                    == ts[k].id && bj <= k)))
                        },
                    decreases enemies.len() - e,
                {
                    let d2 = dist2(pos.x, pos.y, enemies[e].pos.x, enemies[e].pos.y);
                    assert(firable(ts[e as int], pos, r2, mr2) == (d2 <= range2 && d2 >= min_range2));
                    if d2 <= range2 && d2 >= min_range2 {
                        let better = match best {
                            None => true,
                            Some((bh, bid)) => enemies[e].hp < bh || (enemies[e].hp == bh
                                && enemies[e].id < bid),
                        };
                        if better {
                            best = Some((enemies[e].hp, enemies[e].id));
                            proof {
                                bj = e as int;
                            }
                        }
                    }
                    e += 1;
                }
                match best {
                    Some((_, id)) => {
                        new_target = Some(id);
                        assert(weakest_firable(ts, pos, r2, mr2, bj));
                    },
                    None => {
                        if stance != Stance::Hold {
                            // Nearest (then lowest id) visible enemy.
                            let mut near: Option<(i64, EntityId)> = None;
                            let ghost mut nj: int = 0;
                            let mut e: usize = 0;
                            while e < enemies.len()
                                invariant
                                    0 <= e <= enemies@.len(),
                                    pos.inside(),
                                    ts == enemies@,
                                    v2 == vision2,
                                    forall|j: int|
                                        0 <= j < enemies@.len() ==> (#[trigger] enemies@[j]).pos.inside(),
                                    near is None ==> forall|k: int|
                                        0 <= k < e ==> !#[trigger] in_range(ts[k], pos, v2),
                                    near matches Some((nd, id)) ==> {
                                        &&& 0 <= nj < e
                                        &&& in_range(ts[nj], pos, v2)
                                        &&& nd == target_dist(ts[nj], pos) && id == ts[nj].id
                                        &&& forall|k: int|
                                            0 <= k < e && #[trigger] in_range(ts[k], pos, v2) ==> target_dist(
                                                ts[nj],
                                                pos,
                                            ) < target_dist(ts[k], pos) || (target_dist(ts[nj], pos)
                                                == target_dist(ts[k], pos) && (ts[nj].id < ts[k].id || (
                                            ts[nj].id == ts[k].id && nj <= k)))
                                    },
                                decreases enemies.len() - e,
                            {
                                let d2 = dist2(pos.x, pos.y, enemies[e].pos.x, enemies[e].pos.y);
                                assert(in_range(ts[e as int], pos, v2) == (d2 <= vision2));
                                assert(target_dist(ts[e as int], pos) == d2);
                                if d2 <= vision2 {
                                    let better = match near {
                                        None => true,
                                        Some((bd, bid)) => d2 < bd || (d2 == bd && enemies[e].id
                                            < bid),
                                    };
                                    if better {
                                        near = Some((d2, enemies[e].id));
                                        proof {
                                            nj = e as int;
                                        }
                                    }
                                }
                                e += 1;
                            }
                            match near {
                                Some((_, id)) => {
                                    new_target = Some(id);
                                    assert(nearest_visible(ts, pos, v2, nj));
                                },
                                None => {},
                            }
                        }
                    },
                }
            }
            assert(picks(ts, pos, v2, r2, mr2, stance, target, new_target));
            match new_target {
                Some(t) => {
                    let mut found: Option<Target> = None;
                    let ghost mut fe: int = 0;
                    let mut e: usize = 0;
                    while e < enemies.len()
                        invariant
                            0 <= e <= enemies@.len(),
                            ts == enemies@,
                            forall|j: int| 0 <= j < enemies@.len() ==> (#[trigger] enemies@[j]).pos.inside(),
                            found matches Some(te) ==> te.pos.inside(),
                            found is None ==> forall|k: int| 0 <= k < e ==> (#[trigger] ts[k]).id != t,
                            found matches Some(te) ==> 0 <= fe < e && first_with_id(ts, t, fe) && te == ts[fe],
                        decreases enemies.len() - e,
                    {
                        if found.is_none() && enemies[e].id == t {
                            found = Some(enemies[e]);
                            proof {
                                fe = e as int;
                            }
                        }
                        e += 1;
                    }
                    match found {
                        Some(te) => {
                            let tpos = te.pos;
                            let d2 = dist2(pos.x, pos.y, tpos.x, tpos.y);
                            let in_fire_range = d2 <= range2 && d2 >= min_range2;
                            let can_chase = stance != Stance::Hold;
                            if stats.min_range > 0 && d2 < min_range2 {
                                if can_chase {
                                    new_pos = step_away(&self.map, blocked, pos, tpos, stats.speed);
                                }
                            } else if !in_fire_range && can_chase {
                                new_pos = step_direct(&self.map, blocked, pos, tpos, stats.speed);
                            }
                            if in_fire_range && new_cooldown <= 0 {
                                let dmg = apply_damage_upgrade(
                                    stats.damage,
                                    self.upgrades[owner.index()],
                                );
                                hit = Some((t, te.building, dmg));
                                new_cooldown = stats.cooldown;
                            }
                            proof {
                                let hs: Option<(EntityId, bool, int)> = match hit {
                                    Some((v, b, a)) => Some((v, b, a as int)),
                                    None => None,
                                };
                                assert(engage(
                                    g0.map,
                                    blocked@,
                                    u,
                                    ts[fe],
                                    t,
                                    g0.upgrades[u.owner.idx()],
                                    new_pos,
                                    new_cooldown as int,
                                    hs,
                                ));
                            }
                        },
                        None => {
                            assert forall|k: int| !#[trigger] first_with_id(ts, t, k) by {
                                if 0 <= k < ts.len() {
                                    assert(ts[k].id != t);
                                }
                            }
                        },
                    }
                },
                None => {
                    match order {
                        UnitOrder::Move { waypoint, .. } => {
                            new_pos = move_along_path(
                                &self.map,
                                blocked,
                                &mut path,
                                pos,
                                waypoint,
                                stats.speed,
                            );
                        },
                        _ => {},
                    }
                },
            }
            new_fleeing = false;
        }

        let ghost npath = path@;
        let ghost hs: Option<(EntityId, bool, int)> = match hit {
            Some((v, b, a)) => Some((v, b, a as int)),
            None => None,
        };
        let ghost ncd = new_cooldown as int;
        proof {
            assert(unit_decision(g0, idx as int, blocked@, new_pos, npath, new_target, ncd, hs));
        }
        self.units[idx].pos = new_pos;
        self.units[idx].target = new_target;
        self.units[idx].fleeing = new_fleeing;
        self.units[idx].cooldown = if new_cooldown > 0 {
            new_cooldown
        } else {
            0
        };
        self.units[idx].path = path;
        proof {
            assert forall|j: int| 0 <= j < self.units@.len() implies (#[trigger] self.units@[j]).wf() by {
                assert(old(self).units@[j].wf());
            }
        }
        let ghost mid = *self;
        proof {
            assert(mid.units@ =~= g0.units@.update(
                idx as int,
                Unit {
                    pos: new_pos,
                    target: new_target,
                    fleeing: flees(u),
                    cooldown: (if new_cooldown > 0 {
                        new_cooldown as int
                    } else {
                        0
                    }) as i32,
                    path: mid.units@[idx as int].path,
                    ..u
                },
            ));
        }
        match hit {
            Some((victim, is_building, amount)) => {
                self.apply_damage(victim, is_building, amount);
            },
            None => {},
        }
        proof {
            assert(unit_applied(g0, mid, *self, idx as int, new_pos, npath, new_target, ncd, hs));
            assert(old(self).any_unit_idx(uid) == Some(idx as int));
            lemma_unit_turn(*old(self), *self, uid, blocked@, idx as int, new_pos, npath, new_target, ncd, hs, mid);
        }
    }

    /// One defensive building's turn: fire at the lowest-HP (then lowest id)
    /// enemy in range when off cooldown.
    fn turret_tick(&mut self, bid: EntityId)
        requires
            old(self).wf(),
        ensures
            turret_outcome(*old(self), *final(self), bid),
            final(self).wf(),
            combat_frame(*old(self), *final(self)),
            final(self).events@.len() >= old(self).events@.len(),
    {
        let idx = match self.find_building(BuildingQuery::Any(bid)) {
            Some(i) => i,
            None => {
                return;
            },
        };
        let stats = building_stats(self.buildings[idx].btype);
        let owner = self.buildings[idx].owner;
        let enemy = owner.enemy();
        let pos = self.buildings[idx].pos();
        let cooldown = self.buildings[idx].cooldown;
        let range2 = square(stats.range);
        let enemies = self.enemies_of(enemy);
        let ghost ts = enemies@;
        let ghost r2 = range2 as int;
        let mut best: Option<(i32, EntityId, bool)> = None;
        let ghost mut bj: int = 0;
        let mut e: usize = 0;
        while e < enemies.len()
            invariant
                0 <= e <= enemies@.len(),
                pos.inside(),
                ts == enemies@,
                r2 == range2,
                forall|j: int| 0 <= j < enemies@.len() ==> (#[trigger] enemies@[j]).pos.inside(),
                best is None ==> forall|k: int| 0 <= k < e ==> !#[trigger] in_range(ts[k], pos, r2),
                best matches Some((h, id, isb)) ==> {
                    &&& 0 <= bj < e
                    &&& in_range(ts[bj], pos, r2)
                    &&& h == ts[bj].hp && id == ts[bj].id && isb == ts[bj].building
                    &&& forall|k: int|
                        0 <= k < e && #[trigger] in_range(ts[k], pos, r2) ==> ts[bj].hp < ts[k].hp || (
                        ts[bj].hp == ts[k].hp && (ts[bj].id < ts[k].id || (ts[bj].id == ts[k].id && bj
                            <= k)))
                },
            decreases enemies.len() - e,
        {
            let d2 = dist2(pos.x, pos.y, enemies[e].pos.x, enemies[e].pos.y);
            if d2 <= range2 {
                let better = match best {
                    None => true,
                    Some((bh, bi, _)) => enemies[e].hp < bh || (enemies[e].hp == bh && enemies[e].id
                        < bi),
                };
                if better {
                    best = Some((enemies[e].hp, enemies[e].id, enemies[e].building));
                    proof {
                        bj = e as int;
                    }
                }
            }
            assert(in_range(ts[e as int], pos, r2) == (d2 <= range2));
            e += 1;
        }
        match best {
            Some((_, t, is_bld)) => {
                if cooldown <= 0 {
                    let dmg = apply_damage_upgrade(stats.damage, self.upgrades[owner.index()]);
                    self.apply_damage(t, is_bld, dmg);
                    let ghost before = *self;
                    assert(self.buildings@[idx as int].wf());
                    self.buildings[idx].cooldown = stats.cooldown;
                    proof {
                        assert forall|j: int| 0 <= j < self.buildings@.len() implies (
                        #[trigger] self.buildings@[j]).wf() by {
                            assert(before.buildings@[j].wf());
                        }
                        assert(weakest_in_range(ts, pos, r2, bj));
                        assert(self.buildings@ =~= before.buildings@.update(
                            idx as int,
                            Building { cooldown: stats.cooldown, ..before.buildings@[idx as int] },
                        ));
                        assert(hit_outcome(
                            *old(self),
                            before,
                            ts[bj].id,
                            ts[bj].building,
                            upgraded_damage(stats.damage as int, old(self).upgrades[owner.idx()]),
                        ));
                    }
                } else {
                    assert(old(self).buildings@[idx as int].cooldown > 0);
                }
            },
            None => {},
        }
    }
}

} // verus!
