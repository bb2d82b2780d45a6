//! Deterministic scripted baseline bots: easy (turtle), medium (periodic
//! attack waves), hard (expand-and-push). They are oracle baselines: they
//! read the full game state. Every choice is a fixed function of the state
//! and the bot's own counters.
use vstd::prelude::*;

use crate::bot::{all_issued_by, Bot};
use crate::entity::{
    building_stats, spec_building_stats, spec_unit_stats, unit_stats, Building, BuildingType,
    EntityId, Player, Stance, Unit, UnitType, Upgrade,
};
use crate::game::{first_where, Game};
use crate::golden::clamp_tile;
use crate::map::in_map;
use crate::orders::{count_type, Command};

verus! {

// ---------------------------------------------------------------------------
// State queries
// ---------------------------------------------------------------------------

pub open spec fn own_type(p: Player, bt: BuildingType) -> spec_fn(Building) -> bool {
    |b: Building| b.owner == p && b.btype == bt
}

/// The first building of `p` of type `bt`.
pub fn own_building(g: &Game, p: Player, bt: BuildingType) -> (r: Option<&Building>)
    ensures
        r matches Some(b) ==> first_where(g.buildings@, own_type(p, bt), 0) matches Some(i)
            && *b == g.buildings@[i],
        r is None ==> first_where(g.buildings@, own_type(p, bt), 0) is None,
        r is Some == g.owns_type(p, bt),
{
    let mut i: usize = 0;
    while i < g.buildings.len()
        invariant
            0 <= i <= g.buildings@.len(),
            first_where(g.buildings@, own_type(p, bt), 0) == first_where(
                g.buildings@,
                own_type(p, bt),
                i as int,
            ),
            forall|j: int| 0 <= j < i ==> !own_type(p, bt)(#[trigger] g.buildings@[j]),
        decreases g.buildings.len() - i,
    {
        if g.buildings[i].owner == p && g.buildings[i].btype == bt {
            return Some(&g.buildings[i]);
        }
        i += 1;
    }
    proof {
        if g.owns_type(p, bt) {
            let j = choose|j: int|
                0 <= j < g.buildings@.len() && #[trigger] g.buildings@[j].owner == p
                    && g.buildings@[j].btype == bt;
            assert(own_type(p, bt)(g.buildings@[j]));
        }
    }
    None
}

/// The number of units of `p` of type `ut`.
pub open spec fn count_units_of(s: Seq<Unit>, p: Player, ut: UnitType) -> nat
    decreases s.len(),
{
    if s.len() == 0 {
        0
    } else {
        count_units_of(s.drop_last(), p, ut) + if s.last().owner == p && s.last().utype == ut {
            1nat
        } else {
            0nat
        }
    }
}

pub fn count_units(g: &Game, p: Player, ut: UnitType) -> (n: usize)
    ensures
        n == count_units_of(g.units@, p, ut),
{
    let mut n: usize = 0;
    let mut i: usize = 0;
    while i < g.units.len()
        invariant
            0 <= i <= g.units@.len(),
            n == count_units_of(g.units@.subrange(0, i as int), p, ut),
            n <= i,
        decreases g.units.len() - i,
    {
        assert(g.units@.subrange(0, i + 1).drop_last() =~= g.units@.subrange(0, i as int));
        if g.units[i].owner == p && g.units[i].utype == ut {
            n += 1;
        }
        i += 1;
    }
    assert(g.units@.subrange(0, g.units@.len() as int) =~= g.units@);
    n
}

pub fn can_afford(g: &Game, p: Player, cost: i32) -> (r: bool)
    ensures
        r == (g.ore[p.idx()] >= cost),
{
    g.ore[p.index()] >= cost
}

/// The ids of `p`'s units that deal damage, in list order.
pub open spec fn combat_ids(s: Seq<Unit>, p: Player) -> Seq<EntityId>
    decreases s.len(),
{
    if s.len() == 0 {
        Seq::empty()
    } else if s.last().owner == p && spec_unit_stats(s.last().utype).damage > 0 {
        combat_ids(s.drop_last(), p).push(s.last().id)
    } else {
        combat_ids(s.drop_last(), p)
    }
}

pub proof fn lemma_combat_ids_len(s: Seq<Unit>, p: Player)
    ensures
        combat_ids(s, p).len() <= s.len(),
    decreases s.len(),
{
    if s.len() > 0 {
        lemma_combat_ids_len(s.drop_last(), p);
    }
}

/// The ids of `p`'s units that deal damage, in list order.
pub fn combat_unit_ids(g: &Game, p: Player) -> (r: Vec<EntityId>)
    ensures
        r@ == combat_ids(g.units@, p),
        r@.len() <= g.units@.len(),
{
    let mut r: Vec<EntityId> = Vec::new();
    let mut i: usize = 0;
    while i < g.units.len()
        invariant
            0 <= i <= g.units@.len(),
            r@ == combat_ids(g.units@.subrange(0, i as int), p),
        decreases g.units.len() - i,
    {
        assert(g.units@.subrange(0, i + 1).drop_last() =~= g.units@.subrange(0, i as int));
        let u = &g.units[i];
        if u.owner == p && unit_stats(u.utype).damage > 0 {
            r.push(u.id);
        }
        i += 1;
    }
    assert(g.units@.subrange(0, g.units@.len() as int) =~= g.units@);
    proof {
        lemma_combat_ids_len(g.units@, p);
    }
    r
}

// ---------------------------------------------------------------------------
// Placement search
// ---------------------------------------------------------------------------

/// Placing `bt` for `p` on `t` passes validation.
pub open spec fn valid_site(g: Game, p: Player, bt: BuildingType, t: (u8, u8)) -> bool {
    g.spec_validate(Command::PlaceBuilding { player: p, btype: bt, tile: t }) is Ok
}

pub fn is_valid_build_tile(g: &Game, p: Player, bt: BuildingType, tile: (u8, u8)) -> (r: bool)
    requires
        g.wf(),
    ensures
        r == valid_site(*g, p, bt, tile),
{
    let cmd = Command::PlaceBuilding { player: p, btype: bt, tile };
    g.validate_command(&cmd).is_ok()
}

pub open spec fn abs_diff(a: int, b: int) -> int {
    if a >= b {
        a - b
    } else {
        b - a
    }
}

/// The square ring around `pref` that `t` lies on (Chebyshev distance).
pub open spec fn ring(pref: (u8, u8), t: (u8, u8)) -> int {
    let dx = abs_diff(t.0 as int, pref.0 as int);
    let dy = abs_diff(t.1 as int, pref.1 as int);
    if dx >= dy {
        dx
    } else {
        dy
    }
}

/// The search visits `u` before `t`: inner rings first, then row by row,
/// then column by column.
pub open spec fn searched_before(pref: (u8, u8), u: (u8, u8), t: (u8, u8)) -> bool {
    ||| ring(pref, u) < ring(pref, t)
    ||| ring(pref, u) == ring(pref, t) && (u.1 < t.1 || (u.1 == t.1 && u.0 < t.0))
}

/// `t` is the first valid site the outward ring search from `pref` meets
/// (rings up to 32).
pub open spec fn is_first_site(g: Game, p: Player, bt: BuildingType, pref: (u8, u8), t: (u8, u8)) -> bool {
    &&& in_map(t)
    &&& ring(pref, t) <= 32
    &&& valid_site(g, p, bt, t)
    &&& forall|u: (u8, u8)|
        in_map(u) && searched_before(pref, u, t) ==> !#[trigger] valid_site(g, p, bt, u)
}

/// The placement the outward ring search from `pref` finds.
pub open spec fn first_site(g: Game, p: Player, bt: BuildingType, pref: (u8, u8)) -> Option<(u8, u8)> {
    if exists|t: (u8, u8)| is_first_site(g, p, bt, pref, t) {
        Some(choose|t: (u8, u8)| is_first_site(g, p, bt, pref, t))
    } else {
        None
    }
}

/// The first valid site of the ring search is unique: any site meeting
/// its description is the one the search returns.
pub proof fn lemma_first_site_unique(g: Game, p: Player, bt: BuildingType, pref: (u8, u8), t: (u8, u8))
    requires
        is_first_site(g, p, bt, pref, t),
    ensures
        first_site(g, p, bt, pref) == Some(t),
{
    let c = choose|t: (u8, u8)| is_first_site(g, p, bt, pref, t);
    assert(is_first_site(g, p, bt, pref, c));
    if c != t {
        if searched_before(pref, c, t) {
            assert(!valid_site(g, p, bt, c));
        } else {
            assert(searched_before(pref, t, c));
            assert(!valid_site(g, p, bt, t));
        }
    }
}

/// Find a valid placement tile: `preferred` itself, else the first valid
/// tile of the square rings around it (radius 1 to 32), each ring scanned
/// row by row.
pub fn find_build_tile(g: &Game, p: Player, bt: BuildingType, preferred: (u8, u8)) -> (r: Option<
    (u8, u8),
>)
    requires
        g.wf(),
    ensures
        r == first_site(*g, p, bt, preferred),
{
    if is_valid_build_tile(g, p, bt, preferred) {
        proof {
            assert(ring(preferred, preferred) == 0);
            lemma_first_site_unique(*g, p, bt, preferred, preferred);
        }
        return Some(preferred);
    }
    let px = preferred.0 as i32;
    let py = preferred.1 as i32;
    let mut r: i32 = 1;
    while r <= 32
        invariant
            g.wf(),
            1 <= r <= 33,
            px == preferred.0,
            py == preferred.1,
            forall|u: (u8, u8)|
                in_map(u) && ring(preferred, u) < r ==> !#[trigger] valid_site(*g, p, bt, u),
        decreases 33 - r,
    {
        let mut dy: i32 = -r;
        while dy <= r
            invariant
                g.wf(),
                1 <= r <= 32,
                -r <= dy <= r + 1,
                px == preferred.0,
                py == preferred.1,
                forall|u: (u8, u8)|
                    in_map(u) && (ring(preferred, u) < r || (ring(preferred, u) == r && u.1 - py
                        < dy)) ==> !#[trigger] valid_site(*g, p, bt, u),
            decreases r + 1 - dy,
        {
            let mut dx: i32 = -r;
            while dx <= r
                invariant
                    g.wf(),
                    1 <= r <= 32,
                    -r <= dy <= r,
                    -r <= dx <= r + 1,
                    px == preferred.0,
                    py == preferred.1,
                    forall|u: (u8, u8)|
                        in_map(u) && (ring(preferred, u) < r || (ring(preferred, u) == r && (u.1
                            - py < dy || (u.1 - py == dy && u.0 - px < dx)))) ==> !#[trigger] valid_site(
                            *g,
                            p,
                            bt,
                            u,
                        ),
                decreases r + 1 - dx,
            {
                let on_ring = dx == r || dx == -r || dy == r || dy == -r;
                let x = px + dx;
                let y = py + dy;
                if on_ring && 0 <= x && x < 64 && 0 <= y && y < 64 {
                    let t = (x as u8, y as u8);
                    if is_valid_build_tile(g, p, bt, t) {
                        proof {
                            assert(ring(preferred, t) == r);
                            assert forall|u: (u8, u8)|
                                in_map(u) && searched_before(preferred, u, t) implies !#[trigger] valid_site(
                                *g,
                                p,
                                bt,
                                u,
                            ) by {}
                            lemma_first_site_unique(*g, p, bt, preferred, t);
                        }
                        return Some(t);
                    }
                    proof {
                        assert forall|u: (u8, u8)|
                            in_map(u) && (ring(preferred, u) < r || (ring(preferred, u) == r && (
                            u.1 - py < dy || (u.1 - py == dy && u.0 - px < dx + 1)))) implies !#[trigger] valid_site(
                            *g,
                            p,
                            bt,
                            u,
                        ) by {
                            if ring(preferred, u) == r && u.1 - py == dy && u.0 - px == dx {
                                assert(u == t);
                            }
                        }
                    }
                }
                dx += 1;
            }
            dy += 1;
        }
        r += 1;
    }
    proof {
        if exists|t: (u8, u8)| is_first_site(*g, p, bt, preferred, t) {
            let t = choose|t: (u8, u8)| is_first_site(*g, p, bt, preferred, t);
            assert(valid_site(*g, p, bt, t));
        }
    }
    None
}

// ---------------------------------------------------------------------------
// Intents
// ---------------------------------------------------------------------------

/// Place `bt` near `pref` when `p` has fewer than `max` of them and can pay.
pub open spec fn spec_place_if_missing(
    g: Game,
    p: Player,
    bt: BuildingType,
    pref: (u8, u8),
    max: usize,
) -> Option<Command> {
    if count_type(g.buildings@, p, bt) >= max {
        None
    } else if g.ore[p.idx()] < spec_building_stats(bt).cost {
        None
    } else {
        match first_site(g, p, bt, pref) {
            Some(t) => Some(Command::PlaceBuilding { player: p, btype: bt, tile: t }),
            None => None,
        }
    }
}

pub fn place_if_missing(g: &Game, p: Player, bt: BuildingType, preferred: (u8, u8), max: usize) -> (r:
    Option<Command>)
    requires
        g.wf(),
    ensures
        r == spec_place_if_missing(*g, p, bt, preferred, max),
{
    if g.count_buildings(p, bt) >= max {
        return None;
    }
    if !can_afford(g, p, building_stats(bt).cost) {
        return None;
    }
    match find_build_tile(g, p, bt, preferred) {
        Some(tile) => Some(Command::PlaceBuilding { player: p, btype: bt, tile }),
        None => None,
    }
}

/// How often `ut` occurs in a queue.
pub open spec fn count_in(q: Seq<UnitType>, ut: UnitType) -> nat
    decreases q.len(),
{
    if q.len() == 0 {
        0
    } else {
        count_in(q.drop_last(), ut) + if q.last() == ut {
            1nat
        } else {
            0nat
        }
    }
}

/// Units of type `ut` queued at `p`'s buildings of type `producer`.
pub open spec fn queued_of(s: Seq<Building>, p: Player, producer: BuildingType, ut: UnitType) -> nat
    decreases s.len(),
{
    if s.len() == 0 {
        0
    } else {
        queued_of(s.drop_last(), p, producer, ut) + if s.last().owner == p && s.last().btype
            == producer {
            count_in(s.last().queue@, ut)
        } else {
            0nat
        }
    }
}

/// A building of `p` of type `producer` that can take another order.
pub open spec fn can_queue(b: Building, p: Player, producer: BuildingType, max_queue: usize) -> bool {
    b.owner == p && b.btype == producer && b.hp > 0 && b.queue@.len() < max_queue
}

/// The least loaded building that can take an order, among the first `n`
/// (the first one on ties).
pub open spec fn least_loaded(
    s: Seq<Building>,
    p: Player,
    producer: BuildingType,
    max_queue: usize,
    n: int,
) -> Option<int>
    decreases n,
{
    if n <= 0 {
        None
    } else {
        let prev = least_loaded(s, p, producer, max_queue, n - 1);
        if can_queue(s[n - 1], p, producer, max_queue) && (prev is None || s[n - 1].queue@.len()
            < s[prev->0].queue@.len()) {
            Some(n - 1)
        } else {
            prev
        }
    }
}

pub proof fn lemma_least_loaded_range(
    s: Seq<Building>,
    p: Player,
    producer: BuildingType,
    max_queue: usize,
    n: int,
)
    ensures
        least_loaded(s, p, producer, max_queue, n) matches Some(i) ==> 0 <= i < n,
    decreases n,
{
    if n > 0 {
        lemma_least_loaded_range(s, p, producer, max_queue, n - 1);
    }
}

/// Train `ut` from the least loaded producer when spawned plus queued units
/// of that type are under `target` and `p` can pay.
pub open spec fn spec_train_up_to(
    g: Game,
    p: Player,
    producer: BuildingType,
    ut: UnitType,
    target: usize,
) -> Option<Command> {
    if count_units_of(g.units@, p, ut) + queued_of(g.buildings@, p, producer, ut) >= target {
        None
    } else {
        match least_loaded(
            g.buildings@,
            p,
            producer,
            g.config.max_queue,
            g.buildings@.len() as int,
        ) {
            None => None,
            Some(i) => if g.ore[p.idx()] < spec_unit_stats(ut).cost {
                None
            } else {
                Some(Command::TrainUnit { player: p, building: g.buildings@[i].id, utype: ut })
            },
        }
    }
}

pub proof fn lemma_queued_prefix(s: Seq<Building>, p: Player, producer: BuildingType, ut: UnitType, i: int)
    requires
        0 <= i <= s.len(),
    ensures
        queued_of(s.subrange(0, i), p, producer, ut) <= queued_of(s, p, producer, ut),
    decreases s.len() - i,
{
    if i < s.len() {
        lemma_queued_prefix(s, p, producer, ut, i + 1);
        assert(s.subrange(0, i + 1).drop_last() =~= s.subrange(0, i));
    } else {
        assert(s.subrange(0, i) =~= s);
    }
}

pub proof fn lemma_count_in_prefix(q: Seq<UnitType>, ut: UnitType, i: int)
    requires
        0 <= i <= q.len(),
    ensures
        count_in(q.subrange(0, i), ut) <= count_in(q, ut),
    decreases q.len() - i,
{
    if i < q.len() {
        lemma_count_in_prefix(q, ut, i + 1);
        assert(q.subrange(0, i + 1).drop_last() =~= q.subrange(0, i));
    } else {
        assert(q.subrange(0, i) =~= q);
    }
}

pub fn train_up_to(g: &Game, p: Player, producer: BuildingType, ut: UnitType, target: usize) -> (r:
    Option<Command>)
    ensures
        r == spec_train_up_to(*g, p, producer, ut, target),
{
    let have = count_units(g, p, ut);
    if have >= target {
        proof {
            assert(count_units_of(g.units@, p, ut) + queued_of(g.buildings@, p, producer, ut)
                >= target);
        }
        return None;
    }
    // Count queued units, stopping as soon as the target is reached.
    let mut queued: usize = 0;
    let mut i: usize = 0;
    while i < g.buildings.len()
        invariant
            0 <= i <= g.buildings@.len(),
            have == count_units_of(g.units@, p, ut),
            have < target,
            have + queued < target,
            queued == queued_of(g.buildings@.subrange(0, i as int), p, producer, ut),
        decreases g.buildings.len() - i,
    {
        let b = &g.buildings[i];
        assert(g.buildings@.subrange(0, i + 1).drop_last() =~= g.buildings@.subrange(0, i as int));
        if b.owner == p && b.btype == producer {
            let mut k: usize = 0;
            let mut c: usize = 0;
            while k < b.queue.len()
                invariant
                    0 <= k <= b.queue@.len(),
                    i < g.buildings@.len(),
                    b == g.buildings@[i as int],
                    b.owner == p && b.btype == producer,
                    c == count_in(b.queue@.subrange(0, k as int), ut),
                    have + queued + c < target,
                    have == count_units_of(g.units@, p, ut),
                    queued == queued_of(g.buildings@.subrange(0, i as int), p, producer, ut),
                decreases b.queue.len() - k,
            {
                assert(b.queue@.subrange(0, k + 1).drop_last() =~= b.queue@.subrange(0, k as int));
                if b.queue[k] == ut {
                    if have + queued + c + 1 >= target {
                        proof {
                            lemma_count_in_prefix(b.queue@, ut, k + 1);
                            lemma_queued_prefix(g.buildings@, p, producer, ut, i + 1);
                            assert(g.buildings@.subrange(0, i + 1).last() == *b);
                            assert(g.buildings@.subrange(0, i + 1).drop_last()
                                =~= g.buildings@.subrange(0, i as int));
                            assert(b.queue@.subrange(0, k + 1).last() == ut);
                            assert(count_in(b.queue@.subrange(0, k + 1), ut) == c + 1);
                            assert(queued_of(g.buildings@.subrange(0, i + 1), p, producer, ut)
                                == queued + count_in(b.queue@, ut));
                        }
                        return None;
                    }
                    c += 1;
                }
                k += 1;
            }
            assert(b.queue@.subrange(0, b.queue@.len() as int) =~= b.queue@);
            queued = queued + c;
        }
        i += 1;
    }
    assert(g.buildings@.subrange(0, g.buildings@.len() as int) =~= g.buildings@);
    // The least loaded producer that can take the order.
    let mut best: Option<usize> = None;
    let mut j: usize = 0;
    while j < g.buildings.len()
        invariant
            0 <= j <= g.buildings@.len(),
            best matches Some(bi) ==> Some(bi as int) == least_loaded(
                g.buildings@,
                p,
                producer,
                g.config.max_queue,
                j as int,
            ) && bi < g.buildings@.len(),
            best is None ==> least_loaded(
                g.buildings@,
                p,
                producer,
                g.config.max_queue,
                j as int,
            ) is None,
        decreases g.buildings.len() - j,
    {
        let b = &g.buildings[j];
        if b.owner == p && b.btype == producer && b.is_alive() && b.queue.len() < g.config.max_queue {
            let better = match best {
                None => true,
                Some(bi) => b.queue.len() < g.buildings[bi].queue.len(),
            };
            if better {
                best = Some(j);
            }
        }
        j += 1;
    }
    let bi = match best {
        Some(bi) => bi,
        None => {
            return None;
        },
    };
    if !can_afford(g, p, unit_stats(ut).cost) {
        return None;
    }
    Some(Command::TrainUnit { player: p, building: g.buildings[bi].id, utype: ut })
}

/// `c` sends every combat unit of `p` toward `target`, attacking on the way.
pub open spec fn is_attack_move(g: Game, p: Player, target: (u8, u8), c: Command) -> bool {
    c matches Command::MoveGroup { player, units, waypoint, stance } && player == p && units@
        == combat_ids(g.units@, p) && waypoint == target && stance == Stance::Aggressive
}

/// Attack-move every combat unit toward a tile; `None` without combat units.
pub fn attack_move(g: &Game, p: Player, target: (u8, u8)) -> (r: Option<Command>)
    ensures
        r is None <==> combat_ids(g.units@, p).len() == 0,
        r matches Some(c) ==> is_attack_move(*g, p, target, c),
{
    let units = combat_unit_ids(g, p);
    if units.len() == 0 {
        return None;
    }
    Some(Command::MoveGroup { player: p, units, waypoint: target, stance: Stance::Aggressive })
}

/// Choose the damage upgrade once a Tech Lab exists and no upgrade is taken.
pub open spec fn spec_choose_damage_upgrade(g: Game, p: Player) -> Option<Command> {
    if g.upgrades[p.idx()] != Upgrade::NoUpgrade {
        None
    } else {
        match first_where(g.buildings@, own_type(p, BuildingType::TechLab), 0) {
            Some(i) => Some(
                Command::ChooseUpgrade {
                    player: p,
                    lab: g.buildings@[i].id,
                    upgrade: Upgrade::Damage,
                },
            ),
            None => None,
        }
    }
}

pub fn choose_damage_upgrade(g: &Game, p: Player) -> (r: Option<Command>)
    ensures
        r == spec_choose_damage_upgrade(*g, p),
{
    match g.upgrades[p.index()] {
        Upgrade::NoUpgrade => {},
        _ => {
            return None;
        },
    }
    match own_building(g, p, BuildingType::TechLab) {
        Some(lab) => Some(
            Command::ChooseUpgrade { player: p, lab: lab.id, upgrade: Upgrade::Damage },
        ),
        None => None,
    }
}

/// The enemy HQ's tile, or the enemy's starting HQ tile once it is gone.
pub open spec fn spec_enemy_hq_tile(g: Game, p: Player) -> (u8, u8) {
    match g.hq_idx(p.opponent()) {
        Some(i) => g.buildings@[i].tile,
        None => g.map.hq_tiles[p.opponent().idx()],
    }
}

pub fn enemy_hq_tile(g: &Game, p: Player) -> (t: (u8, u8))
    ensures
        t == spec_enemy_hq_tile(*g, p),
{
    match g.hq(p.enemy()) {
        Some(hq) => hq.tile,
        None => g.map.hq_tiles[p.enemy().index()],
    }
}

/// The sign of `v`.
pub open spec fn signum(v: int) -> int {
    if v > 0 {
        1
    } else if v < 0 {
        -1
    } else {
        0
    }
}

/// `v` clamped to a map coordinate.
pub open spec fn clamp63(v: int) -> int {
    if v < 0 {
        0
    } else if v > 63 {
        63
    } else {
        v
    }
}

/// The tile `dist` steps from `hq` along the sign of the direction to
/// `enemy`, clamped to the map.
pub open spec fn spec_toward_enemy(hq: (u8, u8), enemy: (u8, u8), dist: int) -> (u8, u8) {
    (
        clamp63(hq.0 + signum(enemy.0 - hq.0) * dist) as u8,
        clamp63(hq.1 + signum(enemy.1 - hq.1) * dist) as u8,
    )
}

pub fn toward_enemy(hq: (u8, u8), enemy: (u8, u8), dist: i32) -> (t: (u8, u8))
    requires
        -64 <= dist <= 64,
    ensures
        t == spec_toward_enemy(hq, enemy, dist as int),
{
    let dx: i32 = if enemy.0 > hq.0 {
        1
    } else if enemy.0 < hq.0 {
        -1
    } else {
        0
    };
    let dy: i32 = if enemy.1 > hq.1 {
        1
    } else if enemy.1 < hq.1 {
        -1
    } else {
        0
    };
    (clamp_tile(hq.0 as i32 + dx * dist), clamp_tile(hq.1 as i32 + dy * dist))
}

/// A building offset from `hq`, mirrored so that it points toward the
/// quadrant's natural ore pocket, clamped to the map.
pub open spec fn spec_base_offset(hq: (u8, u8), dx: int, dy: int) -> (u8, u8) {
    let sx = if hq.0 < 32 {
        dx
    } else {
        -dx
    };
    let sy = if hq.1 < 32 {
        dy
    } else {
        -dy
    };
    (clamp63(hq.0 + sx) as u8, clamp63(hq.1 + sy) as u8)
}

pub fn base_offset(hq: (u8, u8), dx: i32, dy: i32) -> (t: (u8, u8))
    requires
        -64 <= dx <= 64,
        -64 <= dy <= 64,
    ensures
        t == spec_base_offset(hq, dx as int, dy as int),
{
    let sx = if hq.0 < 32 {
        dx
    } else {
        -dx
    };
    let sy = if hq.1 < 32 {
        dy
    } else {
        -dy
    };
    (clamp_tile(hq.0 as i32 + sx), clamp_tile(hq.1 as i32 + sy))
}

/// The bot's own HQ tile, or (8, 8) once it is gone.
pub open spec fn spec_home(g: Game, p: Player) -> (u8, u8) {
    match g.hq_idx(p) {
        Some(i) => g.buildings@[i].tile,
        None => (8, 8),
    }
}

fn home(g: &Game, p: Player) -> (t: (u8, u8))
    ensures
        t == spec_home(*g, p),
{
    match g.hq(p) {
        Some(b) => b.tile,
        None => (8, 8),
    }
}

/// The commands among a list of optional ones, in order.
pub open spec fn somes(s: Seq<Option<Command>>) -> Seq<Command>
    decreases s.len(),
{
    if s.len() == 0 {
        Seq::empty()
    } else {
        somes(s.drop_last()) + match s.last() {
            Some(c) => seq![c],
            None => Seq::empty(),
        }
    }
}

/// Every intent helper speaks for `p`.
pub open spec fn opt_issued_by(c: Option<Command>, p: Player) -> bool {
    c matches Some(x) ==> x.issuer() == p
}

/// Dropping the empty intents keeps every command speaking for `p`.
pub proof fn lemma_somes_issued(s: Seq<Option<Command>>, p: Player)
    requires
        forall|k: int| 0 <= k < s.len() ==> opt_issued_by(#[trigger] s[k], p),
    ensures
        all_issued_by(somes(s), p),
    decreases s.len(),
{
    if s.len() > 0 {
        lemma_somes_issued(s.drop_last(), p);
        assert(opt_issued_by(s[s.len() - 1], p));
        let a = somes(s.drop_last());
        let b = somes(s);
        assert forall|k: int| 0 <= k < b.len() implies (#[trigger] b[k]).issuer() == p by {
            if k < a.len() {
                assert(b[k] == a[k]);
            }
        }
    }
}

pub(crate) fn push_opt(out: &mut Vec<Command>, c: Option<Command>, Ghost(parts): Ghost<Seq<Option<Command>>>)
    requires
        old(out)@ == somes(parts),
    ensures
        final(out)@ == somes(parts.push(c)),
{
    assert(parts.push(c).drop_last() =~= parts);
    match c {
        Some(x) => {
            out.push(x);
        },
        None => {
            assert(old(out)@ + Seq::<Command>::empty() =~= old(out)@);
        },
    }
}

// ---------------------------------------------------------------------------
// Easy: passive turtle
// ---------------------------------------------------------------------------

/// Passive turtle: economy, a few infantry and at most two turrets, which it
/// never rebuilds; it never attacks.
pub struct EasyBot {
    /// Turrets placed so far.
    built_turrets: u8,
}

impl EasyBot {
    /// Turrets placed so far.
    pub closed spec fn built(self) -> u8 {
        self.built_turrets
    }
}

/// The easy bot's intents, in order, given its turret count.
pub open spec fn easy_plan(g: Game, p: Player, built: u8) -> Seq<Option<Command>> {
    let hq = spec_home(g, p);
    let enemy = spec_enemy_hq_tile(g, p);
    let defense = g.owns_type(p, BuildingType::Factory);
    seq![
        spec_place_if_missing(g, p, BuildingType::Refinery, spec_base_offset(hq, 2, 0), 1),
        spec_place_if_missing(g, p, BuildingType::Factory, spec_base_offset(hq, 0, 2), 1),
        spec_train_up_to(g, p, BuildingType::Factory, UnitType::Harvester, 4),
        if defense {
            spec_place_if_missing(g, p, BuildingType::Barracks, spec_base_offset(hq, 2, 2), 1)
        } else {
            None
        },
        if defense {
            spec_train_up_to(g, p, BuildingType::Barracks, UnitType::Infantry, 7)
        } else {
            None
        },
        if defense && g.tick > 400 && built < 1 {
            spec_place_if_missing(g, p, BuildingType::Turret, spec_toward_enemy(hq, enemy, 2), 1)
        } else {
            None
        },
        if defense && g.tick > 1400 && built < 2 {
            spec_place_if_missing(g, p, BuildingType::Turret, spec_toward_enemy(hq, enemy, 3), 2)
        } else {
            None
        },
        spec_train_up_to(g, p, BuildingType::Factory, UnitType::Harvester, 8),
    ]
}

/// Every building, training and research intent speaks for `p`.
pub proof fn lemma_intents_issued(g: Game, p: Player)
    ensures
        forall|bt: BuildingType, t: (u8, u8), m: usize|
            opt_issued_by(#[trigger] spec_place_if_missing(g, p, bt, t, m), p),
        forall|bt: BuildingType, ut: UnitType, m: usize|
            opt_issued_by(#[trigger] spec_train_up_to(g, p, bt, ut, m), p),
        opt_issued_by(spec_choose_damage_upgrade(g, p), p),
{
}

pub fn easy() -> (b: EasyBot)
    ensures
        b.built() == 0,
{
    EasyBot { built_turrets: 0 }
}

impl Default for EasyBot {
    fn default() -> (b: EasyBot)
        ensures
            b.built() == 0,
    {
        easy()
    }
}

impl EasyBot {
    /// The easy bot's move: the intents of [`easy_plan`] that apply, in
    /// order; its turret count catches up with the turrets standing once it
    /// has a factory.
    pub fn plan(&mut self, g: &Game, p: Player) -> (out: Vec<Command>)
        requires
            g.wf(),
        ensures
            out@ == somes(easy_plan(*g, p, old(self).built())),
            final(self).built() == if g.owns_type(p, BuildingType::Factory) {
                if old(self).built() >= (count_type(g.buildings@, p, BuildingType::Turret) as u8) {
                    old(self).built()
                } else {
                    count_type(g.buildings@, p, BuildingType::Turret) as u8
                }
            } else {
                old(self).built()
            },
            all_issued_by(out@, p),
    {
        let ghost plan = easy_plan(*g, p, self.built_turrets);
        let mut out: Vec<Command> = Vec::new();
        let hq = home(g, p);
        let enemy = enemy_hq_tile(g, p);
        let c = place_if_missing(g, p, BuildingType::Refinery, base_offset(hq, 2, 0), 1);
        assert(plan.subrange(0, 0) =~= Seq::<Option<Command>>::empty());
        push_opt(&mut out, c, Ghost(plan.subrange(0, 0)));
        assert(plan.subrange(0, 1) =~= plan.subrange(0, 0).push(plan[0]));
        let c = place_if_missing(g, p, BuildingType::Factory, base_offset(hq, 0, 2), 1);
        push_opt(&mut out, c, Ghost(plan.subrange(0, 1)));
        assert(plan.subrange(0, 2) =~= plan.subrange(0, 1).push(plan[1]));
        let c = train_up_to(g, p, BuildingType::Factory, UnitType::Harvester, 4);
        push_opt(&mut out, c, Ghost(plan.subrange(0, 2)));
        assert(plan.subrange(0, 3) =~= plan.subrange(0, 2).push(plan[2]));
        let defense = own_building(g, p, BuildingType::Factory).is_some();
        let c = if defense {
            place_if_missing(g, p, BuildingType::Barracks, base_offset(hq, 2, 2), 1)
        } else {
            None
        };
        push_opt(&mut out, c, Ghost(plan.subrange(0, 3)));
        assert(plan.subrange(0, 4) =~= plan.subrange(0, 3).push(plan[3]));
        let c = if defense {
            train_up_to(g, p, BuildingType::Barracks, UnitType::Infantry, 7)
        } else {
            None
        };
        push_opt(&mut out, c, Ghost(plan.subrange(0, 4)));
        assert(plan.subrange(0, 5) =~= plan.subrange(0, 4).push(plan[4]));
        let c = if defense && g.tick > 400 && self.built_turrets < 1 {
            place_if_missing(g, p, BuildingType::Turret, toward_enemy(hq, enemy, 2), 1)
        } else {
            None
        };
        push_opt(&mut out, c, Ghost(plan.subrange(0, 5)));
        assert(plan.subrange(0, 6) =~= plan.subrange(0, 5).push(plan[5]));
        let c = if defense && g.tick > 1400 && self.built_turrets < 2 {
            place_if_missing(g, p, BuildingType::Turret, toward_enemy(hq, enemy, 3), 2)
        } else {
            None
        };
        push_opt(&mut out, c, Ghost(plan.subrange(0, 6)));
        assert(plan.subrange(0, 7) =~= plan.subrange(0, 6).push(plan[6]));
        if defense {
            let n = g.count_buildings(p, BuildingType::Turret) as u8;
            if n > self.built_turrets {
                self.built_turrets = n;
            }
        }
        let c = train_up_to(g, p, BuildingType::Factory, UnitType::Harvester, 8);
        push_opt(&mut out, c, Ghost(plan.subrange(0, 7)));
        assert(plan.subrange(0, 8) =~= plan.subrange(0, 7).push(plan[7]));
        proof {
            assert(plan =~= plan.subrange(0, 8));
            lemma_intents_issued(*g, p);
            lemma_somes_issued(plan, p);
        }
        out
    }
}

impl Bot for EasyBot {
    fn name(&self) -> (r: &'static str)
        ensures
            r@ == "easy"@,
    {
        "easy"
    }

    fn decide(&mut self, game: &Game, player: Player) -> (r: Vec<Command>)
        ensures
            r@ == somes(easy_plan(*game, player, old(self).built())),
            final(self).built() == if game.owns_type(player, BuildingType::Factory) {
                if old(self).built() >= (count_type(game.buildings@, player, BuildingType::Turret) as u8) {
                    old(self).built()
                } else {
                    count_type(game.buildings@, player, BuildingType::Turret) as u8
                }
            } else {
                old(self).built()
            },
    {
        self.plan(game, player)
    }
}


// ---------------------------------------------------------------------------
// Medium: periodic attack waves
// ---------------------------------------------------------------------------

/// Attack waves: a compact base, then every combat unit marches on the
/// enemy HQ as soon as there are three, and again every 600 ticks.
pub struct MediumBot {
    last_attack: i32,
}

/// Hard: expand and push with a damage upgrade and a second factory.
pub struct HardBot {
    last_attack: i32,
}

impl MediumBot {
    /// Tick of the last attack wave (0 before the first).
    pub closed spec fn last(self) -> i32 {
        self.last_attack
    }
}

impl HardBot {
    /// Tick of the last push (0 before the first).
    pub closed spec fn last(self) -> i32 {
        self.last_attack
    }
}

pub fn medium() -> (b: MediumBot)
    ensures
        b.last() == 0,
{
    MediumBot { last_attack: 0 }
}

pub fn hard() -> (b: HardBot)
    ensures
        b.last() == 0,
{
    HardBot { last_attack: 0 }
}

impl Default for MediumBot {
    fn default() -> (b: MediumBot)
        ensures
            b.last() == 0,
    {
        medium()
    }
}

impl Default for HardBot {
    fn default() -> (b: HardBot)
        ensures
            b.last() == 0,
    {
        hard()
    }
}

/// The medium bot's build and training intents, in order.
pub open spec fn medium_plan(g: Game, p: Player) -> Seq<Option<Command>> {
    let hq = spec_home(g, p);
    seq![
        spec_place_if_missing(g, p, BuildingType::Refinery, spec_base_offset(hq, 2, 0), 1),
        spec_place_if_missing(g, p, BuildingType::Factory, spec_base_offset(hq, 0, 2), 1),
        spec_place_if_missing(g, p, BuildingType::PowerPlant, spec_base_offset(hq, 0, -2), 1),
        spec_place_if_missing(g, p, BuildingType::Barracks, spec_base_offset(hq, 2, 2), 1),
        spec_train_up_to(g, p, BuildingType::Factory, UnitType::Harvester, 6),
        spec_train_up_to(g, p, BuildingType::Barracks, UnitType::Infantry, 8),
        spec_train_up_to(g, p, BuildingType::Factory, UnitType::Tank, 4),
    ]
}

/// The hard bot's build, training and research intents, in order.
pub open spec fn hard_plan(g: Game, p: Player) -> Seq<Option<Command>> {
    let hq = spec_home(g, p);
    let lab = g.owns_type(p, BuildingType::TechLab);
    seq![
        spec_place_if_missing(g, p, BuildingType::Refinery, spec_base_offset(hq, 2, 0), 1),
        spec_place_if_missing(g, p, BuildingType::Factory, spec_base_offset(hq, 0, 2), 1),
        spec_place_if_missing(g, p, BuildingType::PowerPlant, spec_base_offset(hq, 0, -2), 1),
        spec_place_if_missing(g, p, BuildingType::Barracks, spec_base_offset(hq, 2, 2), 1),
        spec_train_up_to(g, p, BuildingType::Factory, UnitType::Harvester, 6),
        spec_train_up_to(g, p, BuildingType::Barracks, UnitType::Infantry, 8),
        spec_train_up_to(g, p, BuildingType::Factory, UnitType::Tank, 6),
        spec_place_if_missing(g, p, BuildingType::TechLab, spec_base_offset(hq, -2, 2), 1),
        spec_choose_damage_upgrade(g, p),
        if lab {
            spec_place_if_missing(g, p, BuildingType::Factory, spec_base_offset(hq, 0, 4), 2)
        } else {
            None
        },
        spec_train_up_to(g, p, BuildingType::Factory, UnitType::Tank, 14),
        spec_train_up_to(g, p, BuildingType::Factory, UnitType::Artillery, 4),
    ]
}

/// Whether an attack wave goes out: at least `min_army` combat units, and
/// either no wave yet or `interval` ticks since the last one.
pub open spec fn wave_due(g: Game, p: Player, last: i32, min_army: int, interval: int) -> bool {
    combat_ids(g.units@, p).len() >= min_army && (last == 0 || g.tick - last >= interval)
}

/// The output of a wave bot: its plan, then the wave's attack-move when
/// one is due; the bot remembers the tick of the wave.
pub open spec fn wave_outcome(
    g: Game,
    p: Player,
    plan: Seq<Option<Command>>,
    due: bool,
    out: Seq<Command>,
    last_before: i32,
    last_after: i32,
) -> bool {
    if due {
        &&& out.len() == somes(plan).len() + 1
        &&& out.subrange(0, somes(plan).len() as int) == somes(plan)
        &&& is_attack_move(g, p, spec_enemy_hq_tile(g, p), out.last())
        &&& last_after == g.tick
    } else {
        &&& out == somes(plan)
        &&& last_after == last_before
    }
}

/// Append the wave's attack-move when it is due.
fn launch_wave(g: &Game, p: Player, out: &mut Vec<Command>, last: i32, min_army: usize, interval: i32) -> (r: i32)
    requires
        0 < min_army <= 4,
        0 < interval <= 600,
        g.tick >= 0,
    ensures
        wave_due(*g, p, last, min_army as int, interval as int) ==> {
            &&& final(out)@.len() == old(out)@.len() + 1
            &&& final(out)@.subrange(0, old(out)@.len() as int) == old(out)@
            &&& is_attack_move(*g, p, spec_enemy_hq_tile(*g, p), final(out)@.last())
            &&& r == g.tick
        },
        !wave_due(*g, p, last, min_army as int, interval as int) ==> final(out)@ == old(out)@
            && r == last,
{
    let combat = combat_unit_ids(g, p).len();
    let ready = combat >= min_army;
    let elapsed = (g.tick as i64) - (last as i64) >= interval as i64;
    if ready && (last == 0 || elapsed) {
        match attack_move(g, p, enemy_hq_tile(g, p)) {
            Some(c) => {
                out.push(c);
                assert(final(out)@.subrange(0, old(out)@.len() as int) =~= old(out)@);
                return g.tick;
            },
            None => {},
        }
    }
    last
}

/// A wave decision issues only commands of `p` when its plan does.
pub proof fn lemma_wave_issued(g: Game, p: Player, plan: Seq<Option<Command>>, due: bool, out: Seq<Command>, a: i32, b: i32)
    requires
        wave_outcome(g, p, plan, due, out, a, b),
        forall|k: int| 0 <= k < plan.len() ==> opt_issued_by(#[trigger] plan[k], p),
    ensures
        all_issued_by(out, p),
{
    lemma_somes_issued(plan, p);
    if due {
        let n = somes(plan).len() as int;
        assert forall|k: int| 0 <= k < out.len() implies (#[trigger] out[k]).issuer() == p by {
            if k < n {
                assert(out[k] == out.subrange(0, n)[k]);
            }
        }
    }
}

impl MediumBot {
    /// The medium bot's move: the intents of [`medium_plan`] that apply, in
    /// order, then an attack wave on the enemy HQ when one is due.
    pub fn plan(&mut self, g: &Game, p: Player) -> (out: Vec<Command>)
        requires
            g.wf(),
        ensures
            wave_outcome(
                *g,
                p,
                medium_plan(*g, p),
                wave_due(*g, p, old(self).last(), 3, 600),
                out@,
                old(self).last(),
                final(self).last(),
            ),
            all_issued_by(out@, p),
    {
        let ghost plan = medium_plan(*g, p);
        let mut out: Vec<Command> = Vec::new();
        let hq = home(g, p);
        let c = place_if_missing(g, p, BuildingType::Refinery, base_offset(hq, 2, 0), 1);
        assert(plan.subrange(0, 0) =~= Seq::<Option<Command>>::empty());
        push_opt(&mut out, c, Ghost(plan.subrange(0, 0)));
        assert(plan.subrange(0, 1) =~= plan.subrange(0, 0).push(plan[0]));
        let c = place_if_missing(g, p, BuildingType::Factory, base_offset(hq, 0, 2), 1);
        push_opt(&mut out, c, Ghost(plan.subrange(0, 1)));
        assert(plan.subrange(0, 2) =~= plan.subrange(0, 1).push(plan[1]));
        let c = place_if_missing(g, p, BuildingType::PowerPlant, base_offset(hq, 0, -2), 1);
        push_opt(&mut out, c, Ghost(plan.subrange(0, 2)));
        assert(plan.subrange(0, 3) =~= plan.subrange(0, 2).push(plan[2]));
        let c = place_if_missing(g, p, BuildingType::Barracks, base_offset(hq, 2, 2), 1);
        push_opt(&mut out, c, Ghost(plan.subrange(0, 3)));
        assert(plan.subrange(0, 4) =~= plan.subrange(0, 3).push(plan[3]));
        let c = train_up_to(g, p, BuildingType::Factory, UnitType::Harvester, 6);
        push_opt(&mut out, c, Ghost(plan.subrange(0, 4)));
        assert(plan.subrange(0, 5) =~= plan.subrange(0, 4).push(plan[4]));
        let c = train_up_to(g, p, BuildingType::Barracks, UnitType::Infantry, 8);
        push_opt(&mut out, c, Ghost(plan.subrange(0, 5)));
        assert(plan.subrange(0, 6) =~= plan.subrange(0, 5).push(plan[5]));
        let c = train_up_to(g, p, BuildingType::Factory, UnitType::Tank, 4);
        push_opt(&mut out, c, Ghost(plan.subrange(0, 6)));
        assert(plan.subrange(0, 7) =~= plan.subrange(0, 6).push(plan[6]));
        assert(plan =~= plan.subrange(0, 7));
        let last = launch_wave(g, p, &mut out, self.last_attack, 3, 600);
        self.last_attack = last;
        proof {
            lemma_intents_issued(*g, p);
            lemma_wave_issued(
                *g,
                p,
                plan,
                wave_due(*g, p, old(self).last(), 3, 600),
                out@,
                old(self).last(),
                last,
            );
        }
        out
    }
}

impl HardBot {
    /// The hard bot's move: the intents of [`hard_plan`] that apply, in
    /// order, then a push on the enemy HQ when one is due.
    #[verifier::rlimit(60)]
    #[verifier::spinoff_prover]
    pub fn plan(&mut self, g: &Game, p: Player) -> (out: Vec<Command>)
        requires
            g.wf(),
        ensures
            wave_outcome(
                *g,
                p,
                hard_plan(*g, p),
                wave_due(*g, p, old(self).last(), 4, 400),
                out@,
                old(self).last(),
                final(self).last(),
            ),
            all_issued_by(out@, p),
    {
        let ghost plan = hard_plan(*g, p);
        let mut out: Vec<Command> = Vec::new();
        let hq = home(g, p);
        let c = place_if_missing(g, p, BuildingType::Refinery, base_offset(hq, 2, 0), 1);
        assert(plan.subrange(0, 0) =~= Seq::<Option<Command>>::empty());
        push_opt(&mut out, c, Ghost(plan.subrange(0, 0)));
        assert(plan.subrange(0, 1) =~= plan.subrange(0, 0).push(plan[0]));
        let c = place_if_missing(g, p, BuildingType::Factory, base_offset(hq, 0, 2), 1);
        push_opt(&mut out, c, Ghost(plan.subrange(0, 1)));
        assert(plan.subrange(0, 2) =~= plan.subrange(0, 1).push(plan[1]));
        let c = place_if_missing(g, p, BuildingType::PowerPlant, base_offset(hq, 0, -2), 1);
        push_opt(&mut out, c, Ghost(plan.subrange(0, 2)));
        assert(plan.subrange(0, 3) =~= plan.subrange(0, 2).push(plan[2]));
        let c = place_if_missing(g, p, BuildingType::Barracks, base_offset(hq, 2, 2), 1);
        push_opt(&mut out, c, Ghost(plan.subrange(0, 3)));
        assert(plan.subrange(0, 4) =~= plan.subrange(0, 3).push(plan[3]));
        let c = train_up_to(g, p, BuildingType::Factory, UnitType::Harvester, 6);
        push_opt(&mut out, c, Ghost(plan.subrange(0, 4)));
        assert(plan.subrange(0, 5) =~= plan.subrange(0, 4).push(plan[4]));
        let c = train_up_to(g, p, BuildingType::Barracks, UnitType::Infantry, 8);
        push_opt(&mut out, c, Ghost(plan.subrange(0, 5)));
        assert(plan.subrange(0, 6) =~= plan.subrange(0, 5).push(plan[5]));
        let c = train_up_to(g, p, BuildingType::Factory, UnitType::Tank, 6);
        push_opt(&mut out, c, Ghost(plan.subrange(0, 6)));
        assert(plan.subrange(0, 7) =~= plan.subrange(0, 6).push(plan[6]));
        let c = place_if_missing(g, p, BuildingType::TechLab, base_offset(hq, -2, 2), 1);
        push_opt(&mut out, c, Ghost(plan.subrange(0, 7)));
        assert(plan.subrange(0, 8) =~= plan.subrange(0, 7).push(plan[7]));
        let c = choose_damage_upgrade(g, p);
        push_opt(&mut out, c, Ghost(plan.subrange(0, 8)));
        assert(plan.subrange(0, 9) =~= plan.subrange(0, 8).push(plan[8]));
        let c = if own_building(g, p, BuildingType::TechLab).is_some() {
            place_if_missing(g, p, BuildingType::Factory, base_offset(hq, 0, 4), 2)
        } else {
            None
        };
        push_opt(&mut out, c, Ghost(plan.subrange(0, 9)));
        assert(plan.subrange(0, 10) =~= plan.subrange(0, 9).push(plan[9]));
        let c = train_up_to(g, p, BuildingType::Factory, UnitType::Tank, 14);
        push_opt(&mut out, c, Ghost(plan.subrange(0, 10)));
        assert(plan.subrange(0, 11) =~= plan.subrange(0, 10).push(plan[10]));
        let c = train_up_to(g, p, BuildingType::Factory, UnitType::Artillery, 4);
        push_opt(&mut out, c, Ghost(plan.subrange(0, 11)));
        assert(plan.subrange(0, 12) =~= plan.subrange(0, 11).push(plan[11]));
        assert(plan =~= plan.subrange(0, 12));
        let last = launch_wave(g, p, &mut out, self.last_attack, 4, 400);
        self.last_attack = last;
        proof {
            lemma_intents_issued(*g, p);
            lemma_wave_issued(
                *g,
                p,
                plan,
                wave_due(*g, p, old(self).last(), 4, 400),
                out@,
                old(self).last(),
                last,
            );
        }
        out
    }
}

impl Bot for MediumBot {
    fn name(&self) -> (r: &'static str)
        ensures
            r@ == "medium"@,
    {
        "medium"
    }

    fn decide(&mut self, game: &Game, player: Player) -> (r: Vec<Command>)
        ensures
            wave_outcome(
                *game,
                player,
                medium_plan(*game, player),
                wave_due(*game, player, old(self).last(), 3, 600),
                r@,
                old(self).last(),
                final(self).last(),
            ),
    {
        self.plan(game, player)
    }
}

impl Bot for HardBot {
    fn name(&self) -> (r: &'static str)
        ensures
            r@ == "hard"@,
    {
        "hard"
    }

    fn decide(&mut self, game: &Game, player: Player) -> (r: Vec<Command>)
        ensures
            wave_outcome(
                *game,
                player,
                hard_plan(*game, player),
                wave_due(*game, player, old(self).last(), 4, 400),
                r@,
                old(self).last(),
                final(self).last(),
            ),
    {
        self.plan(game, player)
    }
}

} // verus!
