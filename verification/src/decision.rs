//! The decision layer: from the network's head choices to concrete commands.
//! The scoring itself (masked argmax over the output scores, ties to the
//! lowest index) picks a [`Choice`]; the legality masks below decide which
//! actions may be picked, and [`choice_commands`] turns the choice into
//! commands. The commands still pass through the simulation's validator.
use vstd::prelude::*;

use crate::entity::{
    building_stats, spec_building_stats, spec_unit_stats, unit_stats, BuildingType, EntityId,
    Player, Stance, UnitType, Upgrade,
};
use crate::features::FeatureInput;
use crate::fixed::{coord_ok, dist2, spec_dist2, spec_tile_center, Pos, POS_LIMIT};
use crate::fog::{building_id_is, unit_id_is, RememberedBuilding, RememberedUnit};
use crate::game::{first_where, lemma_first_where, power_consumed, power_produced, Game};
use crate::orders::Command;
use crate::scripted::{
    base_offset, combat_ids, combat_unit_ids, find_build_tile, first_site, own_building, own_type,
    somes, spec_base_offset,
};

verus! {

/// Building types of the build head, in output order.
pub open spec fn spec_build_type(i: int) -> BuildingType {
    if i == 0 {
        BuildingType::Refinery
    } else if i == 1 {
        BuildingType::Barracks
    } else if i == 2 {
        BuildingType::Factory
    } else if i == 3 {
        BuildingType::TechLab
    } else if i == 4 {
        BuildingType::Turret
    } else if i == 5 {
        BuildingType::Airfield
    } else if i == 6 {
        BuildingType::Radar
    } else {
        BuildingType::TeslaCoil
    }
}

pub fn build_type(i: usize) -> (b: BuildingType)
    ensures
        b == spec_build_type(i as int),
{
    if i == 0 {
        BuildingType::Refinery
    } else if i == 1 {
        BuildingType::Barracks
    } else if i == 2 {
        BuildingType::Factory
    } else if i == 3 {
        BuildingType::TechLab
    } else if i == 4 {
        BuildingType::Turret
    } else if i == 5 {
        BuildingType::Airfield
    } else if i == 6 {
        BuildingType::Radar
    } else {
        BuildingType::TeslaCoil
    }
}

/// Unit types of the train head, in output order.
pub open spec fn spec_train_type(i: int) -> UnitType {
    if i == 0 {
        UnitType::Harvester
    } else if i == 1 {
        UnitType::Infantry
    } else if i == 2 {
        UnitType::Tank
    } else if i == 3 {
        UnitType::Artillery
    } else if i == 4 {
        UnitType::MammothTank
    } else if i == 5 {
        UnitType::Gunship
    } else {
        UnitType::Interceptor
    }
}

pub fn train_type(i: usize) -> (u: UnitType)
    ensures
        u == spec_train_type(i as int),
{
    if i == 0 {
        UnitType::Harvester
    } else if i == 1 {
        UnitType::Infantry
    } else if i == 2 {
        UnitType::Tank
    } else if i == 3 {
        UnitType::Artillery
    } else if i == 4 {
        UnitType::MammothTank
    } else if i == 5 {
        UnitType::Gunship
    } else {
        UnitType::Interceptor
    }
}

/// Research options of the tech head, in output order.
pub open spec fn spec_tech_type(i: int) -> Upgrade {
    if i == 0 {
        Upgrade::NoUpgrade
    } else if i == 1 {
        Upgrade::Damage
    } else if i == 2 {
        Upgrade::Hp
    } else {
        Upgrade::Range
    }
}

pub fn tech_type(i: usize) -> (u: Upgrade)
    ensures
        u == spec_tech_type(i as int),
{
    if i == 0 {
        Upgrade::NoUpgrade
    } else if i == 1 {
        Upgrade::Damage
    } else if i == 2 {
        Upgrade::Hp
    } else {
        Upgrade::Range
    }
}

/// What the army does this command tick.
#[derive(Clone, Copy, PartialEq, Eq, Structural, Debug)]
pub enum ArmyAction {
    Attack,
    Defend,
    Scout,
    /// Focus-fire the best visible enemy of the snipe head's type.
    Snipe,
}

/// The army action of output slot `i`.
pub fn army_action(i: usize) -> (a: ArmyAction)
    ensures
        a == (if i == 0 {
            ArmyAction::Attack
        } else if i == 1 {
            ArmyAction::Defend
        } else if i == 2 {
            ArmyAction::Scout
        } else {
            ArmyAction::Snipe
        }),
{
    if i == 0 {
        ArmyAction::Attack
    } else if i == 1 {
        ArmyAction::Defend
    } else if i == 2 {
        ArmyAction::Scout
    } else {
        ArmyAction::Snipe
    }
}

/// What a focus-fire order aims at.
#[derive(Clone, Copy, Debug)]
pub enum SnipeTarget {
    Unit(UnitType),
    Building(BuildingType),
}

/// Snipe target types of the snipe head, in output order.
pub open spec fn spec_snipe_type(i: int) -> SnipeTarget {
    if i == 0 {
        SnipeTarget::Unit(UnitType::Harvester)
    } else if i == 1 {
        SnipeTarget::Building(BuildingType::Refinery)
    } else if i == 2 {
        SnipeTarget::Building(BuildingType::Hq)
    } else {
        SnipeTarget::Building(BuildingType::Factory)
    }
}

pub fn snipe_type(i: usize) -> (t: SnipeTarget)
    ensures
        t == spec_snipe_type(i as int),
{
    if i == 0 {
        SnipeTarget::Unit(UnitType::Harvester)
    } else if i == 1 {
        SnipeTarget::Building(BuildingType::Refinery)
    } else if i == 2 {
        SnipeTarget::Building(BuildingType::Hq)
    } else {
        SnipeTarget::Building(BuildingType::Factory)
    }
}

// --- Legality masks ---------------------------------------------------------

/// Where `p` prefers to put a building of type `bt`: a fixed offset from
/// its HQ, mirrored toward its quadrant. `None` without an HQ.
pub open spec fn spec_build_preferred(g: Game, p: Player, bt: BuildingType) -> Option<(u8, u8)> {
    match g.hq_idx(p) {
        None => None,
        Some(i) => {
            let hq = g.buildings@[i].tile;
            Some(
                match bt {
                    BuildingType::PowerPlant => spec_base_offset(hq, 0, -2),
                    BuildingType::Refinery => spec_base_offset(hq, 2, 0),
                    BuildingType::Factory => spec_base_offset(hq, 0, 2),
                    BuildingType::Barracks => spec_base_offset(hq, 2, 2),
                    BuildingType::TechLab => spec_base_offset(hq, -2, 2),
                    BuildingType::Airfield => spec_base_offset(hq, -2, -2),
                    BuildingType::Radar => spec_base_offset(hq, -4, 2),
                    BuildingType::TeslaCoil => spec_base_offset(hq, 2, -2),
                    BuildingType::Turret => spec_base_offset(hq, -2, 0),
                    BuildingType::Hq => hq,
                },
            )
        },
    }
}

pub fn build_preferred(g: &Game, p: Player, bt: BuildingType) -> (r: Option<(u8, u8)>)
    ensures
        r == spec_build_preferred(*g, p, bt),
{
    let hq = match g.hq(p) {
        Some(b) => b.tile,
        None => {
            return None;
        },
    };
    Some(
        match bt {
            BuildingType::PowerPlant => base_offset(hq, 0, -2),
            BuildingType::Refinery => base_offset(hq, 2, 0),
            BuildingType::Factory => base_offset(hq, 0, 2),
            BuildingType::Barracks => base_offset(hq, 2, 2),
            BuildingType::TechLab => base_offset(hq, -2, 2),
            BuildingType::Airfield => base_offset(hq, -2, -2),
            BuildingType::Radar => base_offset(hq, -4, 2),
            BuildingType::TeslaCoil => base_offset(hq, 2, -2),
            BuildingType::Turret => base_offset(hq, -2, 0),
            BuildingType::Hq => hq,
        },
    )
}

/// `bt` may be picked by the build head: a refinery comes first; tech lab
/// and airfield need a factory; radar and tesla coil need a tech lab; `p`
/// can pay; and the placement search finds a site near the preferred tile.
pub open spec fn spec_build_allowed(g: Game, p: Player, bt: BuildingType) -> bool {
    if bt != BuildingType::Refinery && !g.owns_type(p, BuildingType::Refinery) {
        false
    } else if (bt == BuildingType::TechLab || bt == BuildingType::Airfield) && !g.owns_type(
        p,
        BuildingType::Factory,
    ) {
        false
    } else if (bt == BuildingType::Radar || bt == BuildingType::TeslaCoil) && !g.owns_type(
        p,
        BuildingType::TechLab,
    ) {
        false
    } else if g.ore[p.idx()] < spec_building_stats(bt).cost {
        false
    } else {
        match spec_build_preferred(g, p, bt) {
            Some(pref) => first_site(g, p, bt, pref) is Some,
            None => false,
        }
    }
}

pub fn build_allowed(g: &Game, p: Player, bt: BuildingType) -> (r: bool)
    requires
        g.wf(),
    ensures
        r == spec_build_allowed(*g, p, bt),
{
    if bt != BuildingType::Refinery && own_building(g, p, BuildingType::Refinery).is_none() {
        return false;
    }
    if (bt == BuildingType::TechLab || bt == BuildingType::Airfield) && own_building(
        g,
        p,
        BuildingType::Factory,
    ).is_none() {
        return false;
    }
    if (bt == BuildingType::Radar || bt == BuildingType::TeslaCoil) && own_building(
        g,
        p,
        BuildingType::TechLab,
    ).is_none() {
        return false;
    }
    if g.ore[p.index()] < building_stats(bt).cost {
        return false;
    }
    match build_preferred(g, p, bt) {
        Some(pref) => find_build_tile(g, p, bt, pref).is_some(),
        None => false,
    }
}

/// A structure the build head may pick has its prerequisites standing and
/// is paid for: every structure but the refinery needs a refinery, the tech
/// lab and the airfield need a factory, the second-tier radar and tesla
/// coil need the tech lab itself, and the bank covers the cost.
pub proof fn law_build_allowed_prerequisites(g: Game, p: Player, bt: BuildingType)
    requires
        spec_build_allowed(g, p, bt),
    ensures
        bt != BuildingType::Refinery ==> exists|i: int|
            0 <= i < g.buildings@.len() && #[trigger] g.buildings@[i].owner == p
                && g.buildings@[i].btype == BuildingType::Refinery,
        bt == BuildingType::TechLab || bt == BuildingType::Airfield ==> exists|i: int|
            0 <= i < g.buildings@.len() && #[trigger] g.buildings@[i].owner == p
                && g.buildings@[i].btype == BuildingType::Factory,
        bt == BuildingType::Radar || bt == BuildingType::TeslaCoil ==> exists|i: int|
            0 <= i < g.buildings@.len() && #[trigger] g.buildings@[i].owner == p
                && g.buildings@[i].btype == BuildingType::TechLab,
        g.ore[p.idx()] >= spec_building_stats(bt).cost,
        spec_build_preferred(g, p, bt) matches Some(pref) && first_site(g, p, bt, pref) is Some,
{
}

/// Conversely, a structure whose prerequisites stand, which the bank
/// covers, and for which the placement search finds a site near the
/// preferred tile, may be picked.
pub proof fn law_build_allowed_when_ready(g: Game, p: Player, bt: BuildingType)
    requires
        bt != BuildingType::Refinery ==> g.owns_type(p, BuildingType::Refinery),
        bt == BuildingType::TechLab || bt == BuildingType::Airfield ==> g.owns_type(
            p,
            BuildingType::Factory,
        ),
        bt == BuildingType::Radar || bt == BuildingType::TeslaCoil ==> g.owns_type(
            p,
            BuildingType::TechLab,
        ),
        g.ore[p.idx()] >= spec_building_stats(bt).cost,
        spec_build_preferred(g, p, bt) matches Some(pref) && first_site(g, p, bt, pref) is Some,
    ensures
        spec_build_allowed(g, p, bt),
{
}

/// The building type that trains `ut`.
pub open spec fn spec_producer_for(ut: UnitType) -> BuildingType {
    match ut {
        UnitType::Harvester | UnitType::Tank | UnitType::Artillery | UnitType::MammothTank => {
            BuildingType::Factory
        },
        UnitType::Infantry => BuildingType::Barracks,
        UnitType::Gunship | UnitType::Interceptor => BuildingType::Airfield,
    }
}

pub fn producer_for(ut: UnitType) -> (b: BuildingType)
    ensures
        b == spec_producer_for(ut),
{
    match ut {
        UnitType::Harvester | UnitType::Tank | UnitType::Artillery | UnitType::MammothTank => {
            BuildingType::Factory
        },
        UnitType::Infantry => BuildingType::Barracks,
        UnitType::Gunship | UnitType::Interceptor => BuildingType::Airfield,
    }
}

/// A building of `p` of type `producer` with room in its queue.
pub open spec fn queue_room(p: Player, producer: BuildingType, max_queue: usize) -> spec_fn(
    crate::entity::Building,
) -> bool {
    |b: crate::entity::Building| b.owner == p && b.btype == producer && b.queue@.len() < max_queue
}

/// The first building of `p` of type `producer` with room in its queue.
pub fn free_producer(g: &Game, p: Player, producer: BuildingType) -> (r: Option<usize>)
    ensures
        r matches Some(i) ==> first_where(g.buildings@, queue_room(p, producer, g.config.max_queue), 0)
            == Some(i as int) && i < g.buildings@.len(),
        r is None ==> first_where(g.buildings@, queue_room(p, producer, g.config.max_queue), 0) is None,
{
    let mut i: usize = 0;
    while i < g.buildings.len()
        invariant
            0 <= i <= g.buildings@.len(),
            first_where(g.buildings@, queue_room(p, producer, g.config.max_queue), 0) == first_where(
                g.buildings@,
                queue_room(p, producer, g.config.max_queue),
                i as int,
            ),
        decreases g.buildings.len() - i,
    {
        let b = &g.buildings[i];
        if b.owner == p && b.btype == producer && b.queue.len() < g.config.max_queue {
            return Some(i);
        }
        i += 1;
    }
    None
}

/// `ut` may be picked by the train head: artillery and mammoth tanks need a
/// tech lab, `p` can pay, and a producer has room in its queue.
pub open spec fn spec_train_allowed(g: Game, p: Player, ut: UnitType) -> bool {
    &&& !((ut == UnitType::Artillery || ut == UnitType::MammothTank) && !g.owns_type(
        p,
        BuildingType::TechLab,
    ))
    &&& g.ore[p.idx()] >= spec_unit_stats(ut).cost
    &&& first_where(g.buildings@, queue_room(p, spec_producer_for(ut), g.config.max_queue), 0) is Some
}

pub fn train_allowed(g: &Game, p: Player, ut: UnitType) -> (r: bool)
    ensures
        r == spec_train_allowed(*g, p, ut),
{
    if (ut == UnitType::Artillery || ut == UnitType::MammothTank) && own_building(
        g,
        p,
        BuildingType::TechLab,
    ).is_none() {
        return false;
    }
    if g.ore[p.index()] < unit_stats(ut).cost {
        return false;
    }
    free_producer(g, p, producer_for(ut)).is_some()
}

/// `up` may be picked by the tech head: no upgrade chosen yet, a tech lab
/// stands, and `up` is a real upgrade.
pub open spec fn spec_tech_allowed(g: Game, p: Player, up: Upgrade) -> bool {
    g.upgrades[p.idx()] == Upgrade::NoUpgrade && g.owns_type(p, BuildingType::TechLab) && up
        != Upgrade::NoUpgrade
}

pub fn tech_allowed(g: &Game, p: Player, up: Upgrade) -> (r: bool)
    ensures
        r == spec_tech_allowed(*g, p, up),
{
    g.upgrades[p.index()] == Upgrade::NoUpgrade && own_building(
        g,
        p,
        BuildingType::TechLab,
    ).is_some() && up != Upgrade::NoUpgrade
}

/// The center of scout sector `sector` (8x8 sectors of 8x8 tiles), counted
/// from the own HQ's corner.
pub open spec fn spec_sector_center(sector: int, own_hq: (u8, u8)) -> (u8, u8) {
    let sx = if own_hq.0 >= 32 {
        7 - sector % 8
    } else {
        sector % 8
    };
    let sy = if own_hq.1 >= 32 {
        7 - sector / 8
    } else {
        sector / 8
    };
    ((sx * 8 + 4) as u8, (sy * 8 + 4) as u8)
}

pub fn sector_center(sector: usize, own_hq: (u8, u8)) -> (t: (u8, u8))
    requires
        sector < 64,
    ensures
        t == spec_sector_center(sector as int, own_hq),
        t.0 < 64 && t.1 < 64,
{
    let mut sx = sector % 8;
    let mut sy = sector / 8;
    if own_hq.0 >= 32 {
        sx = 7 - sx;
    }
    if own_hq.1 >= 32 {
        sy = 7 - sy;
    }
    ((sx * 8 + 4) as u8, (sy * 8 + 4) as u8)
}


// --- Focus fire -------------------------------------------------------------

/// The position of `p`'s unit `id`, if it exists.
pub open spec fn own_unit_pos(g: Game, p: Player, id: EntityId) -> Option<Pos> {
    match g.unit_idx(p, id) {
        Some(i) => Some(g.units@[i].pos),
        None => None,
    }
}

/// Summed coordinates and count of the listed own units that exist.
pub open spec fn army_sum(g: Game, p: Player, ids: Seq<EntityId>) -> (int, int, int)
    decreases ids.len(),
{
    if ids.len() == 0 {
        (0, 0, 0)
    } else {
        let prev = army_sum(g, p, ids.drop_last());
        match own_unit_pos(g, p, ids.last()) {
            Some(pos) => (prev.0 + pos.x, prev.1 + pos.y, prev.2 + 1),
            None => prev,
        }
    }
}

/// `a / n` rounded toward zero.
pub open spec fn trunc_div(a: int, n: int) -> int {
    if a >= 0 {
        a / n
    } else {
        -((-a) / n)
    }
}

/// Where the army stands: the centroid of `p`'s combat units (coordinates
/// rounded toward zero), the center of `hq` without combat units, `None`
/// when none of them can be found.
pub open spec fn army_center(g: Game, p: Player, hq: (u8, u8)) -> Option<(int, int)> {
    let ids = combat_ids(g.units@, p);
    if ids.len() == 0 {
        Some((spec_tile_center(hq.0 as int), spec_tile_center(hq.1 as int)))
    } else {
        let (sx, sy, n) = army_sum(g, p, ids);
        if n == 0 {
            None
        } else {
            Some((trunc_div(sx, n), trunc_div(sy, n)))
        }
    }
}

/// `(d1, id1)` comes before `(d2, id2)`: nearer, then lower id.
pub open spec fn closer(d1: int, id1: EntityId, d2: int, id2: EntityId) -> bool {
    d1 < d2 || (d1 == d2 && id1 < id2)
}

/// A remembered enemy unit of type `ut` seen this very tick.
pub open spec fn unit_candidate(m: RememberedUnit, ut: UnitType, tick: i32) -> bool {
    m.utype == ut && m.last_seen == tick
}

/// A remembered enemy building of type `bt` seen this very tick.
pub open spec fn building_candidate(m: RememberedBuilding, bt: BuildingType, tick: i32) -> bool {
    m.btype == bt && m.last_seen == tick
}

pub open spec fn unit_dist(c: (int, int), m: RememberedUnit) -> int {
    spec_dist2(c.0, c.1, m.pos.x as int, m.pos.y as int)
}

pub open spec fn building_dist(c: (int, int), m: RememberedBuilding) -> int {
    spec_dist2(c.0, c.1, spec_tile_center(m.tile.0 as int), spec_tile_center(m.tile.1 as int))
}

/// Entry `k` is a candidate, and no candidate comes before it.
pub open spec fn best_unit_at(s: Seq<RememberedUnit>, ut: UnitType, tick: i32, c: (int, int), k: int) -> bool {
    &&& 0 <= k < s.len()
    &&& unit_candidate(s[k], ut, tick)
    &&& forall|j: int|
        0 <= j < s.len() && unit_candidate(#[trigger] s[j], ut, tick) ==> !closer(
            unit_dist(c, s[j]),
            s[j].id,
            unit_dist(c, s[k]),
            s[k].id,
        )
}

pub open spec fn best_building_at(
    s: Seq<RememberedBuilding>,
    bt: BuildingType,
    tick: i32,
    c: (int, int),
    k: int,
) -> bool {
    &&& 0 <= k < s.len()
    &&& building_candidate(s[k], bt, tick)
    &&& forall|j: int|
        0 <= j < s.len() && building_candidate(#[trigger] s[j], bt, tick) ==> !closer(
            building_dist(c, s[j]),
            s[j].id,
            building_dist(c, s[k]),
            s[k].id,
        )
}

proof fn lemma_avg_bound(a: int, n: int)
    requires
        n > 0,
        -n * 16777216 <= a <= n * 16777216,
    ensures
        -16777216 <= trunc_div(a, n) <= 16777216,
{
    if a >= 0 {
        assert(a / n <= 16777216) by (nonlinear_arith)
            requires
                n > 0,
                0 <= a <= n * 16777216,
        ;
        assert(a / n >= 0) by (nonlinear_arith)
            requires
                n > 0,
                0 <= a,
        ;
    } else {
        assert((-a) / n <= 16777216) by (nonlinear_arith)
            requires
                n > 0,
                0 <= -a <= n * 16777216,
        ;
        assert((-a) / n >= 0) by (nonlinear_arith)
            requires
                n > 0,
                0 <= -a,
        ;
    }
}

/// The army's centroid (see [`army_center`]).
fn army_centroid(g: &Game, p: Player, hq: (u8, u8)) -> (r: Option<(i32, i32)>)
    requires
        g.wf(),
    ensures
        r matches Some(c) ==> army_center(*g, p, hq) == Some((c.0 as int, c.1 as int)) && coord_ok(
            c.0 as int,
        ) && coord_ok(c.1 as int),
        r is None ==> army_center(*g, p, hq) is None,
{
    let ids = combat_unit_ids(g, p);
    if ids.len() == 0 {
        let c = Pos::from_tile(hq.0, hq.1);
        return Some((c.x, c.y));
    }
    let mut sx: i64 = 0;
    let mut sy: i64 = 0;
    let mut n: i64 = 0;
    let mut i: usize = 0;
    while i < ids.len()
        invariant
            g.wf(),
            0 <= i <= ids@.len(),
            ids@.len() <= g.units@.len(),
            g.units@.len() <= 1000000,
            0 <= n <= i,
            -n * 16777216 <= sx <= n * 16777216,
            -n * 16777216 <= sy <= n * 16777216,
            (sx as int, sy as int, n as int) == army_sum(*g, p, ids@.subrange(0, i as int)),
        decreases ids.len() - i,
    {
        assert(ids@.subrange(0, i + 1).drop_last() =~= ids@.subrange(0, i as int));
        match g.unit(p, ids[i]) {
            Some(u) => {
                proof {
                    let k = g.unit_idx(p, ids@[i as int])->0;
                    lemma_first_where(g.units@, crate::game::unit_query(crate::game::UnitQuery::Own(p, ids@[i as int])), 0);
                    assert(g.units@[k].wf());
                }
                sx = sx + u.pos.x as i64;
                sy = sy + u.pos.y as i64;
                n = n + 1;
            },
            None => {},
        }
        i += 1;
    }
    assert(ids@.subrange(0, ids@.len() as int) =~= ids@);
    if n == 0 {
        return None;
    }
    proof {
        lemma_avg_bound(sx as int, n as int);
        lemma_avg_bound(sy as int, n as int);
    }
    let cx = if sx >= 0 {
        sx / n
    } else {
        -((-sx) / n)
    };
    let cy = if sy >= 0 {
        sy / n
    } else {
        -((-sy) / n)
    };
    Some((cx as i32, cy as i32))
}

/// The index of the best unit candidate (see [`best_unit_at`]).
fn best_unit(s: &Vec<RememberedUnit>, ut: UnitType, tick: i32, cx: i32, cy: i32) -> (r: Option<usize>)
    requires
        coord_ok(cx as int),
        coord_ok(cy as int),
        forall|k: int| 0 <= k < s@.len() ==> (#[trigger] s@[k]).pos.inside(),
    ensures
        r matches Some(k) ==> best_unit_at(s@, ut, tick, (cx as int, cy as int), k as int),
        r is None ==> forall|j: int| 0 <= j < s@.len() ==> !unit_candidate(#[trigger] s@[j], ut, tick),
{
    let ghost c = (cx as int, cy as int);
    let mut best: Option<(i64, EntityId, usize)> = None;
    let mut i: usize = 0;
    while i < s.len()
        invariant
            0 <= i <= s@.len(),
            coord_ok(cx as int),
            coord_ok(cy as int),
            c == (cx as int, cy as int),
            forall|k: int| 0 <= k < s@.len() ==> (#[trigger] s@[k]).pos.inside(),
            best matches Some((bd, bid, bk)) ==> {
                &&& bk < i
                &&& unit_candidate(s@[bk as int], ut, tick)
                &&& bd == unit_dist(c, s@[bk as int])
                &&& bid == s@[bk as int].id
                &&& forall|j: int|
                    0 <= j < i && unit_candidate(#[trigger] s@[j], ut, tick) ==> !closer(
                        unit_dist(c, s@[j]),
                        s@[j].id,
                        bd as int,
                        bid,
                    )
            },
            best is None ==> forall|j: int| 0 <= j < i ==> !unit_candidate(#[trigger] s@[j], ut, tick),
        decreases s.len() - i,
    {
        let m = &s[i];
        if m.utype == ut && m.last_seen == tick {
            assert(s@[i as int].pos.inside());
            let d = dist2(cx, cy, m.pos.x, m.pos.y);
            let better = match best {
                None => true,
                Some((bd, bid, _)) => d < bd || (d == bd && m.id < bid),
            };
            if better {
                best = Some((d, m.id, i));
            }
        }
        i += 1;
    }
    match best {
        Some((_, _, bk)) => Some(bk),
        None => None,
    }
}

/// The index of the best building candidate (see [`best_building_at`]).
fn best_building(s: &Vec<RememberedBuilding>, bt: BuildingType, tick: i32, cx: i32, cy: i32) -> (r:
    Option<usize>)
    requires
        coord_ok(cx as int),
        coord_ok(cy as int),
    ensures
        r matches Some(k) ==> best_building_at(s@, bt, tick, (cx as int, cy as int), k as int),
        r is None ==> forall|j: int|
            0 <= j < s@.len() ==> !building_candidate(#[trigger] s@[j], bt, tick),
{
    let ghost c = (cx as int, cy as int);
    let mut best: Option<(i64, EntityId, usize)> = None;
    let mut i: usize = 0;
    while i < s.len()
        invariant
            0 <= i <= s@.len(),
            coord_ok(cx as int),
            coord_ok(cy as int),
            c == (cx as int, cy as int),
            best matches Some((bd, bid, bk)) ==> {
                &&& bk < i
                &&& building_candidate(s@[bk as int], bt, tick)
                &&& bd == building_dist(c, s@[bk as int])
                &&& bid == s@[bk as int].id
                &&& forall|j: int|
                    0 <= j < i && building_candidate(#[trigger] s@[j], bt, tick) ==> !closer(
                        building_dist(c, s@[j]),
                        s@[j].id,
                        bd as int,
                        bid,
                    )
            },
            best is None ==> forall|j: int|
                0 <= j < i ==> !building_candidate(#[trigger] s@[j], bt, tick),
        decreases s.len() - i,
    {
        let m = &s[i];
        if m.btype == bt && m.last_seen == tick {
            let pos = Pos::from_tile(m.tile.0, m.tile.1);
            let d = dist2(cx, cy, pos.x, pos.y);
            let better = match best {
                None => true,
                Some((bd, bid, _)) => d < bd || (d == bd && m.id < bid),
            };
            if better {
                best = Some((d, m.id, i));
            }
        }
        i += 1;
    }
    match best {
        Some((_, _, bk)) => Some(bk),
        None => None,
    }
}

/// Where the focus-fire order looks for the target id among the remembered
/// units (the own HQ's center when absent).
pub open spec fn unit_target_pos(s: Seq<RememberedUnit>, id: EntityId, hq: (u8, u8)) -> Pos {
    match first_where(s, unit_id_is(id), 0) {
        Some(j) => s[j].pos,
        None => Pos::spec_from_tile(hq.0, hq.1),
    }
}

pub open spec fn building_target_pos(s: Seq<RememberedBuilding>, id: EntityId, hq: (u8, u8)) -> Pos {
    match first_where(s, building_id_is(id), 0) {
        Some(j) => Pos::spec_from_tile(s[j].tile.0, s[j].tile.1),
        None => Pos::spec_from_tile(hq.0, hq.1),
    }
}

/// What a focus-fire order on `kind` aims at: among the enemies of that
/// type seen this very tick, the nearest to the army's centroid (then the
/// lowest id), with its position.
pub open spec fn snipe_outcome(
    g: Game,
    p: Player,
    input: FeatureInput,
    kind: SnipeTarget,
    r: Option<(EntityId, Pos)>,
) -> bool {
    match army_center(g, p, input.own_hq_tile) {
        None => r is None,
        Some(c) => match kind {
            SnipeTarget::Unit(ut) => {
                let s = input.fog.units@;
                &&& r is None <==> forall|j: int|
                    0 <= j < s.len() ==> !unit_candidate(#[trigger] s[j], ut, g.tick)
                &&& r matches Some(t) ==> (exists|k: int|
                    best_unit_at(s, ut, g.tick, c, k) && #[trigger] s[k].id == t.0) && t.1
                    == unit_target_pos(s, t.0, input.own_hq_tile)
            },
            SnipeTarget::Building(bt) => {
                let s = input.fog.buildings@;
                &&& r is None <==> forall|j: int|
                    0 <= j < s.len() ==> !building_candidate(#[trigger] s[j], bt, g.tick)
                &&& r matches Some(t) ==> (exists|k: int|
                    best_building_at(s, bt, g.tick, c, k) && #[trigger] s[k].id == t.0) && t.1
                    == building_target_pos(s, t.0, input.own_hq_tile)
            },
        },
    }
}

fn unit_pos_by_id(s: &Vec<RememberedUnit>, id: EntityId, hq: (u8, u8)) -> (p: Pos)
    ensures
        p == unit_target_pos(s@, id, hq),
{
    let mut i: usize = 0;
    while i < s.len()
        invariant
            0 <= i <= s@.len(),
            first_where(s@, unit_id_is(id), 0) == first_where(s@, unit_id_is(id), i as int),
        decreases s.len() - i,
    {
        if s[i].id == id {
            return s[i].pos;
        }
        i += 1;
    }
    Pos::from_tile(hq.0, hq.1)
}

fn building_pos_by_id(s: &Vec<RememberedBuilding>, id: EntityId, hq: (u8, u8)) -> (p: Pos)
    ensures
        p == building_target_pos(s@, id, hq),
{
    let mut i: usize = 0;
    while i < s.len()
        invariant
            0 <= i <= s@.len(),
            first_where(s@, building_id_is(id), 0) == first_where(s@, building_id_is(id), i as int),
        decreases s.len() - i,
    {
        if s[i].id == id {
            return Pos::from_tile(s[i].tile.0, s[i].tile.1);
        }
        i += 1;
    }
    Pos::from_tile(hq.0, hq.1)
}

/// The target of a focus-fire order on `kind` (see [`snipe_outcome`]).
/// Only enemies seen this very tick are eligible, so the target is alive
/// and hostile right now.
pub fn snipe_target(game: &Game, player: Player, input: &FeatureInput, kind: SnipeTarget) -> (r:
    Option<(EntityId, Pos)>)
    requires
        game.wf(),
        input.wf(),
    ensures
        snipe_outcome(*game, player, *input, kind, r),
{
    let tick = game.tick;
    let (cx, cy) = match army_centroid(game, player, input.own_hq_tile) {
        Some(c) => c,
        None => {
            return None;
        },
    };
    match kind {
        SnipeTarget::Unit(ut) => {
            match best_unit(&input.fog.units, ut, tick, cx, cy) {
                Some(k) => {
                    let id = input.fog.units[k].id;
                    Some((id, unit_pos_by_id(&input.fog.units, id, input.own_hq_tile)))
                },
                None => None,
            }
        },
        SnipeTarget::Building(bt) => {
            match best_building(&input.fog.buildings, bt, tick, cx, cy) {
                Some(k) => {
                    let id = input.fog.buildings[k].id;
                    Some((id, building_pos_by_id(&input.fog.buildings, id, input.own_hq_tile)))
                },
                None => None,
            }
        },
    }
}


// --- From choices to commands ---------------------------------------------

/// The head choices a scored decision settles on (by masked argmax over the
/// network's output scores; a head whose best score is not above the
/// threshold chooses nothing).
#[derive(Clone, Copy, Debug)]
pub struct Choice {
    /// Build-head slot.
    pub build: Option<usize>,
    /// Train-head slot.
    pub train: Option<usize>,
    /// Army action.
    pub action: Option<ArmyAction>,
    /// Scout sector (argmax of the sector head).
    pub sector: usize,
    /// Snipe target type slot (argmax of the snipe head).
    pub snipe: usize,
    /// Tech-head slot.
    pub tech: Option<usize>,
}

impl Choice {
    /// Every slot lies within its head.
    pub open spec fn wf(self) -> bool {
        &&& (self.build matches Some(i) ==> i < 8)
        &&& (self.train matches Some(i) ==> i < 7)
        &&& self.sector < 64
        &&& self.snipe < 4
        &&& (self.tech matches Some(i) ==> i < 4)
    }
}

/// Place `bt` on the site the search finds around its preferred tile.
pub open spec fn spec_place_near(g: Game, p: Player, bt: BuildingType) -> Option<Command> {
    match spec_build_preferred(g, p, bt) {
        None => None,
        Some(pref) => match first_site(g, p, bt, pref) {
            Some(t) => Some(Command::PlaceBuilding { player: p, btype: bt, tile: t }),
            None => None,
        },
    }
}

fn place_near(g: &Game, p: Player, bt: BuildingType) -> (r: Option<Command>)
    requires
        g.wf(),
    ensures
        r == spec_place_near(*g, p, bt),
{
    match build_preferred(g, p, bt) {
        None => None,
        Some(pref) => match find_build_tile(g, p, bt, pref) {
            Some(tile) => Some(Command::PlaceBuilding { player: p, btype: bt, tile }),
            None => None,
        },
    }
}

/// The build head's command.
pub open spec fn spec_build_cmd(g: Game, p: Player, build: Option<usize>) -> Option<Command> {
    match build {
        None => None,
        Some(i) => if spec_build_allowed(g, p, spec_build_type(i as int)) {
            spec_place_near(g, p, spec_build_type(i as int))
        } else {
            None
        },
    }
}

/// The power rule: low on power, and one more power plant closes the gap
/// and may be built: build it.
pub open spec fn spec_power_cmd(g: Game, p: Player) -> Option<Command> {
    if power_consumed(g.buildings@, p) > power_produced(g.buildings@, p) && power_produced(
        g.buildings@,
        p,
    ) + spec_building_stats(BuildingType::PowerPlant).power >= power_consumed(g.buildings@, p)
        && spec_build_allowed(g, p, BuildingType::PowerPlant) {
        spec_place_near(g, p, BuildingType::PowerPlant)
    } else {
        None
    }
}

/// The train head's command: at the first producer with room.
pub open spec fn spec_train_cmd(g: Game, p: Player, train: Option<usize>) -> Option<Command> {
    match train {
        None => None,
        Some(i) => {
            let ut = spec_train_type(i as int);
            if !spec_train_allowed(g, p, ut) {
                None
            } else {
                match first_where(
                    g.buildings@,
                    queue_room(p, spec_producer_for(ut), g.config.max_queue),
                    0,
                ) {
                    Some(k) => Some(
                        Command::TrainUnit { player: p, building: g.buildings@[k].id, utype: ut },
                    ),
                    None => None,
                }
            }
        },
    }
}

/// The tech head's command: at `p`'s first tech lab.
pub open spec fn spec_tech_cmd(g: Game, p: Player, tech: Option<usize>) -> Option<Command> {
    match tech {
        None => None,
        Some(i) => if !spec_tech_allowed(g, p, spec_tech_type(i as int)) {
            None
        } else {
            match first_where(g.buildings@, own_type(p, BuildingType::TechLab), 0) {
                Some(k) => Some(
                    Command::ChooseUpgrade {
                        player: p,
                        lab: g.buildings@[k].id,
                        upgrade: spec_tech_type(i as int),
                    },
                ),
                None => None,
            }
        },
    }
}

/// Where a non-snipe army action sends the army: home to defend, to the
/// scout sector, or (with at least three combat units) to the mirrored HQ
/// position to attack.
pub open spec fn army_waypoint(g: Game, p: Player, hq: (u8, u8), action: ArmyAction, sector: int) -> (u8, u8) {
    match action {
        ArmyAction::Defend => hq,
        ArmyAction::Scout => spec_sector_center(sector, hq),
        _ => if combat_ids(g.units@, p).len() >= 3 {
            ((63 - hq.0) as u8, (63 - hq.1) as u8)
        } else {
            hq
        },
    }
}

/// The army head's commands: nothing without an action or combat units;
/// for a snipe, a focus-fire order on the target [`snipe_target`] finds (if
/// any); else an aggressive group move of every combat unit to
/// [`army_waypoint`].
pub open spec fn army_outcome(g: Game, p: Player, input: FeatureInput, choice: Choice, cmds: Seq<Command>) -> bool {
    match choice.action {
        None => cmds.len() == 0,
        Some(a) => if combat_ids(g.units@, p).len() == 0 {
            cmds.len() == 0
        } else if a == ArmyAction::Snipe {
            exists|r: Option<(EntityId, Pos)>|
                #![trigger snipe_outcome(g, p, input, spec_snipe_type(choice.snipe as int), r)]
                snipe_outcome(g, p, input, spec_snipe_type(choice.snipe as int), r) && match r {
                    Some(t) => cmds.len() == 1 && (cmds[0] matches Command::Attack {
                        player,
                        units,
                        target,
                    } && player == p && units@ == combat_ids(g.units@, p) && target == t.0),
                    None => cmds.len() == 0,
                }
        } else {
            cmds.len() == 1 && (cmds[0] matches Command::MoveGroup {
                player,
                units,
                waypoint,
                stance,
            } && player == p && units@ == combat_ids(g.units@, p) && waypoint == army_waypoint(
                g,
                p,
                input.own_hq_tile,
                a,
                choice.sector as int,
            ) && stance == Stance::Aggressive)
        },
    }
}

/// The build, power and train commands of a decision, in that order.
fn head_commands(game: &Game, player: Player, choice: Choice) -> (out: Vec<Command>)
    requires
        game.wf(),
        choice.wf(),
    ensures
        out@ == somes(
            seq![
                spec_build_cmd(*game, player, choice.build),
                spec_power_cmd(*game, player),
                spec_train_cmd(*game, player, choice.train),
            ],
        ),
{
    let ghost parts = seq![
        spec_build_cmd(*game, player, choice.build),
        spec_power_cmd(*game, player),
        spec_train_cmd(*game, player, choice.train),
    ];
    let mut out: Vec<Command> = Vec::new();
    let c = match choice.build {
        Some(i) => if build_allowed(game, player, build_type(i)) {
            place_near(game, player, build_type(i))
        } else {
            None
        },
        None => None,
    };
    assert(parts.subrange(0, 0) =~= Seq::<Option<Command>>::empty());
    crate::scripted::push_opt(&mut out, c, Ghost(parts.subrange(0, 0)));
    assert(parts.subrange(0, 1) =~= parts.subrange(0, 0).push(parts[0]));
    let low = game.has_low_power(player);
    let c = if low {
        let (prod, cons) = game.power(player);
        if (prod as i64) + (building_stats(BuildingType::PowerPlant).power as i64) >= cons as i64
            && build_allowed(game, player, BuildingType::PowerPlant) {
            place_near(game, player, BuildingType::PowerPlant)
        } else {
            None
        }
    } else {
        None
    };
    crate::scripted::push_opt(&mut out, c, Ghost(parts.subrange(0, 1)));
    assert(parts.subrange(0, 2) =~= parts.subrange(0, 1).push(parts[1]));
    let c = match choice.train {
        Some(i) => {
            let ut = train_type(i);
            if !train_allowed(game, player, ut) {
                None
            } else {
                match free_producer(game, player, producer_for(ut)) {
                    Some(k) => Some(
                        Command::TrainUnit { player, building: game.buildings[k].id, utype: ut },
                    ),
                    None => None,
                }
            }
        },
        None => None,
    };
    crate::scripted::push_opt(&mut out, c, Ghost(parts.subrange(0, 2)));
    assert(parts.subrange(0, 3) =~= parts.subrange(0, 2).push(parts[2]));
    assert(parts =~= parts.subrange(0, 3));
    out
}

/// An optional command as a list.
pub open spec fn opt_seq(o: Option<Command>) -> Seq<Command> {
    match o {
        Some(c) => seq![c],
        None => Seq::empty(),
    }
}

/// The army head's command, if any (see [`army_outcome`]).
fn army_command(game: &Game, player: Player, input: &FeatureInput, choice: Choice) -> (r: Option<
    Command,
>)
    requires
        game.wf(),
        input.wf(),
        choice.wf(),
    ensures
        army_outcome(
            *game,
            player,
            *input,
            choice,
            opt_seq(r),
        ),
{
    let hq = input.own_hq_tile;
    let action = match choice.action {
        Some(a) => a,
        None => {
            return None;
        },
    };
    let units = combat_unit_ids(game, player);
    if units.len() == 0 {
        return None;
    }
    match action {
        ArmyAction::Snipe => {
            let kind = snipe_type(choice.snipe);
            let hit = snipe_target(game, player, input, kind);
            match hit {
                Some((target, _)) => Some(Command::Attack { player, units, target }),
                None => None,
            }
        },
        _ => {
            let waypoint = match action {
                ArmyAction::Defend => hq,
                ArmyAction::Scout => sector_center(choice.sector, hq),
                _ => if units.len() >= 3 {
                    (63 - hq.0, 63 - hq.1)
                } else {
                    hq
                },
            };
            Some(Command::MoveGroup { player, units, waypoint, stance: Stance::Aggressive })
        },
    }
}

/// The tech head's command.
fn tech_command(game: &Game, player: Player, choice: Choice) -> (r: Option<Command>)
    requires
        choice.wf(),
    ensures
        r == spec_tech_cmd(*game, player, choice.tech),
{
    match choice.tech {
        Some(i) => if !tech_allowed(game, player, tech_type(i)) {
            None
        } else {
            match own_building(game, player, BuildingType::TechLab) {
                Some(lab) => Some(Command::ChooseUpgrade { player, lab: lab.id, upgrade: tech_type(i) }),
                None => None,
            }
        },
        None => None,
    }
}

/// `p` can pay for `c` now: a placement or a training costs no more than
/// its bank; other commands cost nothing.
pub open spec fn affordable(g: Game, p: Player, c: Command) -> bool {
    match c {
        Command::PlaceBuilding { btype, .. } => g.ore[p.idx()] >= spec_building_stats(btype).cost,
        Command::TrainUnit { utype, .. } => g.ore[p.idx()] >= spec_unit_stats(utype).cost,
        _ => true,
    }
}

proof fn lemma_somes_affordable(g: Game, p: Player, parts: Seq<Option<Command>>)
    requires
        forall|j: int| 0 <= j < parts.len() ==> (#[trigger] parts[j] matches Some(c) ==> affordable(g, p, c)),
    ensures
        forall|k: int| 0 <= k < somes(parts).len() ==> affordable(g, p, #[trigger] somes(parts)[k]),
    decreases parts.len(),
{
    if parts.len() > 0 {
        let init = parts.drop_last();
        assert forall|j: int| 0 <= j < init.len() implies (#[trigger] init[j] matches Some(c) ==> affordable(g, p, c)) by {
            assert(init[j] == parts[j]);
        }
        lemma_somes_affordable(g, p, init);
        let last = parts[parts.len() - 1];
        assert forall|k: int| 0 <= k < somes(parts).len() implies affordable(g, p, #[trigger] somes(parts)[k]) by {
            if k < somes(init).len() {
                assert(somes(parts)[k] == somes(init)[k]);
            } else {
                assert(last matches Some(c) && somes(parts)[k] == c);
            }
        }
    }
}

/// A placement's prerequisites stand for `p` in `g`: a refinery for
/// anything but a refinery, a factory for a tech lab or an airfield, the
/// tech lab for a radar or a tesla coil. Other commands have none.
pub open spec fn prerequisites_stand(g: Game, p: Player, c: Command) -> bool {
    match c {
        Command::PlaceBuilding { btype, .. } => {
            &&& btype != BuildingType::Refinery ==> g.owns_type(p, BuildingType::Refinery)
            &&& btype == BuildingType::TechLab || btype == BuildingType::Airfield ==> g.owns_type(
                p,
                BuildingType::Factory,
            )
            &&& btype == BuildingType::Radar || btype == BuildingType::TeslaCoil ==> g.owns_type(
                p,
                BuildingType::TechLab,
            )
        },
        _ => true,
    }
}

proof fn lemma_somes_prerequisites(g: Game, p: Player, parts: Seq<Option<Command>>)
    requires
        forall|j: int|
            0 <= j < parts.len() ==> (#[trigger] parts[j] matches Some(c) ==> prerequisites_stand(
                g,
                p,
                c,
            )),
    ensures
        forall|k: int|
            0 <= k < somes(parts).len() ==> prerequisites_stand(g, p, #[trigger] somes(parts)[k]),
    decreases parts.len(),
{
    if parts.len() > 0 {
        let init = parts.drop_last();
        assert forall|j: int| 0 <= j < init.len() implies (#[trigger] init[j] matches Some(
            c,
        ) ==> prerequisites_stand(g, p, c)) by {
            assert(init[j] == parts[j]);
        }
        lemma_somes_prerequisites(g, p, init);
        let last = parts[parts.len() - 1];
        assert forall|k: int| 0 <= k < somes(parts).len() implies prerequisites_stand(
            g,
            p,
            #[trigger] somes(parts)[k],
        ) by {
            if k < somes(init).len() {
                assert(somes(parts)[k] == somes(init)[k]);
            } else {
                assert(last matches Some(c) && somes(parts)[k] == c);
            }
        }
    }
}

/// The commands of a decision: the build head's placement, the power rule,
/// the train head's order, the army head's order, the tech head's research,
/// in that order, each only where it applies.
pub fn choice_commands(game: &Game, player: Player, input: &FeatureInput, choice: Choice) -> (out:
    Vec<Command>)
    requires
        game.wf(),
        input.wf(),
        choice.wf(),
    ensures
        ({
            let pre = somes(
                seq![
                    spec_build_cmd(*game, player, choice.build),
                    spec_power_cmd(*game, player),
                    spec_train_cmd(*game, player, choice.train),
                ],
            );
            let post = somes(seq![spec_tech_cmd(*game, player, choice.tech)]);
            let k = out@.len() - pre.len() - post.len();
            &&& 0 <= k <= 1
            &&& out@.subrange(0, pre.len() as int) == pre
            &&& army_outcome(*game, player, *input, choice, out@.subrange(pre.len() as int, pre.len() + k))
            &&& out@.subrange(pre.len() + k, out@.len() as int) == post
        }),
        crate::bot::all_issued_by(out@, player),
        forall|k: int| 0 <= k < out@.len() ==> affordable(*game, player, #[trigger] out@[k]),
        forall|k: int| 0 <= k < out@.len() ==> prerequisites_stand(*game, player, #[trigger] out@[k]),
{
    let mut out = head_commands(game, player, choice);
    let ghost pre = out@;
    let army = army_command(game, player, input, choice);
    let ghost aseq = opt_seq(army);
    match army {
        Some(c) => {
            out.push(c);
        },
        None => {},
    }
    let ghost mid = out@;
    assert(mid =~= pre + aseq);
    let t = tech_command(game, player, choice);
    let ghost tparts = seq![spec_tech_cmd(*game, player, choice.tech)];
    let ghost post = somes(tparts);
    assert(tparts.drop_last() =~= Seq::<Option<Command>>::empty());
    match t {
        Some(x) => {
            out.push(x);
        },
        None => {},
    }
    proof {
        assert(somes(tparts.drop_last()) =~= Seq::<Command>::empty());
        assert(tparts.last() == t);
        assert(post =~= opt_seq(t));
        assert(out@ =~= mid + post);
        let k = aseq.len() as int;
        assert(out@.subrange(0, pre.len() as int) =~= pre);
        assert(out@.subrange(pre.len() as int, pre.len() + k) =~= aseq);
        assert(out@.subrange(pre.len() + k, out@.len() as int) =~= post);
        let parts = seq![
            spec_build_cmd(*game, player, choice.build),
            spec_power_cmd(*game, player),
            spec_train_cmd(*game, player, choice.train),
        ];
        crate::scripted::lemma_somes_issued(parts, player);
        crate::scripted::lemma_somes_issued(tparts, player);
        assert forall|j: int| 0 <= j < out@.len() implies (#[trigger] out@[j]).issuer() == player by {
            if j < pre.len() {
                assert(out@[j] == pre[j]);
            } else if j < mid.len() {
                assert(out@[j] == aseq[j - pre.len()]);
            } else {
                assert(out@[j] == post[j - mid.len()]);
            }
        }
        assert forall|j: int| 0 <= j < parts.len() implies (#[trigger] parts[j] matches Some(c) ==> affordable(
            *game,
            player,
            c,
        )) by {
            if j == 0 {
                match choice.build {
                    Some(i) => {
                        assert(parts[0] == spec_build_cmd(*game, player, choice.build));
                    },
                    None => {},
                }
            } else if j == 1 {
                assert(parts[1] == spec_power_cmd(*game, player));
            } else {
                assert(parts[2] == spec_train_cmd(*game, player, choice.train));
            }
        }
        lemma_somes_affordable(*game, player, parts);
        assert forall|j: int| 0 <= j < tparts.len() implies (#[trigger] tparts[j] matches Some(c) ==> affordable(
            *game,
            player,
            c,
        )) by {}
        lemma_somes_affordable(*game, player, tparts);
        assert forall|j: int| 0 <= j < parts.len() implies (#[trigger] parts[j] matches Some(
            c,
        ) ==> prerequisites_stand(*game, player, c)) by {
            if j == 0 {
                match choice.build {
                    Some(i) => {
                        assert(parts[0] == spec_build_cmd(*game, player, choice.build));
                    },
                    None => {},
                }
            } else if j == 1 {
                assert(parts[1] == spec_power_cmd(*game, player));
            } else {
                assert(parts[2] == spec_train_cmd(*game, player, choice.train));
            }
        }
        lemma_somes_prerequisites(*game, player, parts);
        assert forall|j: int| 0 <= j < tparts.len() implies (#[trigger] tparts[j] matches Some(
            c,
        ) ==> prerequisites_stand(*game, player, c)) by {}
        lemma_somes_prerequisites(*game, player, tparts);
        assert forall|j: int| 0 <= j < out@.len() implies affordable(*game, player, #[trigger] out@[j]) by {
            if j < pre.len() {
                assert(out@[j] == pre[j]);
            } else if j < mid.len() {
                assert(out@[j] == aseq[j - pre.len()]);
                assert(army_outcome(*game, player, *input, choice, aseq));
            } else {
                assert(out@[j] == post[j - mid.len()]);
            }
        }
        assert forall|j: int| 0 <= j < out@.len() implies prerequisites_stand(
            *game,
            player,
            #[trigger] out@[j],
        ) by {
            if j < pre.len() {
                assert(out@[j] == pre[j]);
            } else if j < mid.len() {
                assert(out@[j] == aseq[j - pre.len()]);
                assert(army_outcome(*game, player, *input, choice, aseq));
            } else {
                assert(out@[j] == post[j - mid.len()]);
            }
        }
    }
    out
}

} // verus!
