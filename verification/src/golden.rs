//! The shared determinism-golden scenario: a scripted opening, then either a
//! march to a neutral spot or an attack on the enemy HQ. The golden hashes
//! pin the exact serialized state of these playouts at fixed ticks; the
//! hashing of a serialized state is [`fnv1a`].
use vstd::prelude::*;

use crate::entity::{BuildingType, EntityId, Player, Stance, UnitType};
use crate::game::{fresh_game, Game, GameConfig};
use crate::map::GameMap;
use crate::orders::{Command, CommandError};
use crate::scripted::{combat_ids, combat_unit_ids};
use crate::tick::step_outcome;

verus! {

/// The seed the golden scenario runs on.
pub const SEED: u64 = 12345;

/// Golden snapshot hashes (FNV-1a over the serialized state).
pub const GOLDEN_100: u64 = 16562178345104678055;

pub const GOLDEN_1000: u64 = 16475545533167463206;

pub const GOLDEN_10000: u64 = 7841076763393545594;

/// The committed golden values, in `[tick 100, tick 1000, tick 10000]` order.
pub const GOLDEN: [u64; 3] = [GOLDEN_100, GOLDEN_1000, GOLDEN_10000];

/// The committed combat-golden values, in `[tick 1500, tick 1900, tick 2400]`
/// order.
pub const COMBAT_GOLDEN: [u64; 3] = [18192032058396949243, 7744180762066791415, 8315480985280236347];

pub const FNV_OFFSET: u64 = 0xcbf29ce484222325;

pub const FNV_PRIME: u64 = 0x100000001b3;

/// 64-bit FNV-1a: for each byte, xor it into the hash, then multiply by the
/// FNV prime modulo 2^64.
pub open spec fn spec_fnv1a(data: Seq<u8>) -> u64
    decreases data.len(),
{
    if data.len() == 0 {
        FNV_OFFSET
    } else {
        (((spec_fnv1a(data.drop_last()) ^ (data.last() as u64)) as nat * FNV_PRIME as nat)
            % 0x1_0000_0000_0000_0000nat) as u64
    }
}

/// The 64-bit FNV-1a hash of `data`.
pub fn fnv1a(data: &[u8]) -> (h: u64)
    ensures
        h == spec_fnv1a(data@),
{
    let mut h: u64 = FNV_OFFSET;
    let mut i: usize = 0;
    while i < data.len()
        invariant
            0 <= i <= data@.len(),
            h == spec_fnv1a(data@.subrange(0, i as int)),
        decreases data.len() - i,
    {
        assert(data@.subrange(0, i + 1).drop_last() =~= data@.subrange(0, i as int));
        h = (h ^ (data[i] as u64)).wrapping_mul(FNV_PRIME);
        i += 1;
    }
    assert(data@.subrange(0, data@.len() as int) =~= data@);
    h
}

/// The first building of `p` of type `bt`.
pub fn find_building(g: &Game, p: Player, bt: BuildingType) -> (r: Option<EntityId>)
    ensures
        r matches Some(id) ==> exists|i: int|
            0 <= i < g.buildings@.len() && (#[trigger] g.buildings@[i]).id == id
                && g.buildings@[i].owner == p && g.buildings@[i].btype == bt,
        r is None ==> forall|i: int|
            0 <= i < g.buildings@.len() ==> !((#[trigger] g.buildings@[i]).owner == p
                && g.buildings@[i].btype == bt),
{
    let mut i: usize = 0;
    while i < g.buildings.len()
        invariant
            0 <= i <= g.buildings@.len(),
            forall|j: int|
                0 <= j < i ==> !((#[trigger] g.buildings@[j]).owner == p && g.buildings@[j].btype
                    == bt),
        decreases g.buildings.len() - i,
    {
        if g.buildings[i].owner == p && g.buildings[i].btype == bt {
            return Some(g.buildings[i].id);
        }
        i += 1;
    }
    None
}

/// `v` clamped to a map coordinate.
pub fn clamp_tile(v: i32) -> (r: u8)
    ensures
        r == (if v < 0 {
            0
        } else if v > 63 {
            63
        } else {
            v
        }),
{
    if v < 0 {
        0
    } else if v > 63 {
        63
    } else {
        v as u8
    }
}

/// `v` clamped to a map coordinate.
pub open spec fn spec_clamp_tile(v: int) -> u8 {
    if v < 0 {
        0
    } else if v > 63 {
        63
    } else {
        v as u8
    }
}

/// Whether `states` walks from its first game to its last by applying the
/// commands `cmds` of `p` one by one, with results `results`.
pub open spec fn command_chain(
    states: Seq<Game>,
    p: Player,
    cmds: Seq<Command>,
    results: Seq<Result<(), CommandError>>,
) -> bool {
    &&& states.len() == cmds.len() + 1
    &&& results.len() == cmds.len()
    &&& forall|i: int|
        0 <= i < cmds.len() ==> #[trigger] states[i].command_outcome(states[i + 1], p, cmds[i], results[i])
}

/// Whether `after` is what applying the commands `cmds` of `p` to `before`
/// leaves when the counters have room for them, and `before` unchanged when
/// they have not.
pub open spec fn issued(before: Game, after: Game, p: Player, cmds: Seq<Command>) -> bool {
    if before.room_for_commands(p, cmds.len() as int) {
        exists|states: Seq<Game>, results: Seq<Result<(), CommandError>>|
            #[trigger] command_chain(states, p, cmds, results) && states[0] == before && states[cmds.len() as int]
                == after
    } else {
        after == before
    }
}

/// Whether `c` moves the units `ids` of `p` to `wp`, aggressive.
pub open spec fn group_move(c: Command, p: Player, ids: Seq<EntityId>, wp: (u8, u8)) -> bool {
    &&& c matches Command::MoveGroup { player, units, waypoint, stance }
    &&& player == p
    &&& units@ == ids
    &&& waypoint == wp
    &&& stance == Stance::Aggressive
}

/// One side's march order: when `p` has an HQ and combat units, they are
/// sent as one group to the tile the HQ tile plus `(off, off)` (clamped to
/// the map) when `toward_own` holds, or to the tile of the HQ of `p`'s enemy
/// when it does not; otherwise nothing happens.
pub open spec fn march_step(a: Game, b: Game, p: Player, toward_own: bool) -> bool {
    match a.hq_idx(march_side(p, toward_own)) {
        None => b == a,
        Some(i) => {
            let ids = combat_ids(a.units@, p);
            if ids.len() == 0 {
                b == a
            } else {
                exists|c: Command|
                    #[trigger] group_move(c, p, ids, march_waypoint(a.buildings@[i].tile, toward_own))
                        && issued(a, b, p, seq![c])
            }
        },
    }
}

/// Whose HQ a march is aimed by: `p`'s own, or its enemy's.
pub open spec fn march_side(p: Player, toward_own: bool) -> Player {
    if toward_own {
        p
    } else {
        p.opponent()
    }
}

/// The waypoint of a march aimed by an HQ on tile `t`.
pub open spec fn march_waypoint(t: (u8, u8), toward_own: bool) -> (u8, u8) {
    if toward_own {
        (spec_clamp_tile(t.0 + 8), spec_clamp_tile(t.1 + 8))
    } else {
        t
    }
}

/// Apply commands of `p` when the counters have room for them.
fn issue(g: &mut Game, p: Player, cmds: Vec<Command>)
    requires
        old(g).wf(),
    ensures
        final(g).wf(),
        old(g).keeps_world(*final(g)),
        issued(*old(g), *final(g), p, cmds@),
{
    if g.has_room_for_commands(p, cmds.len()) {
        let r = g.apply_commands(p, cmds.as_slice());
        proof {
            let states = choose|states: Seq<Game>|
                {
                    &&& states.len() == cmds@.len() + 1
                    &&& states[0] == *old(g)
                    &&& states[cmds@.len() as int] == *g
                    &&& forall|i: int|
                        0 <= i < cmds@.len() ==> #[trigger] states[i].command_outcome(
                            states[i + 1],
                            p,
                            cmds@[i],
                            r@[i],
                        )
                };
            assert(command_chain(states, p, cmds@, r@));
        }
    }
}

/// The configuration of the golden scenario: 100000 starting ore and a
/// 100000-tick timeout, otherwise the defaults.
pub open spec fn golden_config() -> GameConfig {
    GameConfig { starting_ore: 100_000, timeout_ticks: 100_000, ..GameConfig::spec_default() }
}

/// The `k`-th building of the golden opening and its offset from the HQ.
pub open spec fn opening_placement(k: int) -> (BuildingType, int, int) {
    if k == 0 {
        (BuildingType::PowerPlant, -2, -2)
    } else if k == 1 {
        (BuildingType::Refinery, 2, 0)
    } else if k == 2 {
        (BuildingType::Factory, 0, 2)
    } else if k == 3 {
        (BuildingType::Barracks, 2, 2)
    } else if k == 4 {
        (BuildingType::Turret, -2, 0)
    } else {
        (BuildingType::TechLab, 0, -2)
    }
}

/// The `k`-th placement command of `p` around an HQ on tile `hq`.
pub open spec fn opening_command(p: Player, hq: (u8, u8), k: int) -> Command {
    let (bt, dx, dy) = opening_placement(k);
    Command::PlaceBuilding {
        player: p,
        btype: bt,
        tile: (spec_clamp_tile(hq.0 + dx), spec_clamp_tile(hq.1 + dy)),
    }
}

/// `r` is what `find_building` reports: the id of some building of type
/// `bt` owned by `p`, or none when there is no such building.
pub open spec fn found_building(g: Game, p: Player, bt: BuildingType, r: Option<EntityId>) -> bool {
    &&& r matches Some(id) ==> exists|i: int|
        0 <= i < g.buildings@.len() && (#[trigger] g.buildings@[i]).id == id && g.buildings@[i].owner
            == p && g.buildings@[i].btype == bt
    &&& r is None ==> forall|i: int|
        0 <= i < g.buildings@.len() ==> !((#[trigger] g.buildings@[i]).owner == p
            && g.buildings@[i].btype == bt)
}

/// The opening's training orders: two harvesters, two tanks and an
/// artillery at the factory, three infantry at the barracks.
pub open spec fn opening_trains(p: Player, factory: Option<EntityId>, barracks: Option<EntityId>) -> Seq<
    Command,
> {
    let f = match factory {
        Some(fid) => seq![
            Command::TrainUnit { player: p, building: fid, utype: UnitType::Harvester },
            Command::TrainUnit { player: p, building: fid, utype: UnitType::Harvester },
            Command::TrainUnit { player: p, building: fid, utype: UnitType::Tank },
            Command::TrainUnit { player: p, building: fid, utype: UnitType::Tank },
            Command::TrainUnit { player: p, building: fid, utype: UnitType::Artillery },
        ],
        None => Seq::empty(),
    };
    let b = match barracks {
        Some(bid) => seq![
            Command::TrainUnit { player: p, building: bid, utype: UnitType::Infantry },
            Command::TrainUnit { player: p, building: bid, utype: UnitType::Infantry },
            Command::TrainUnit { player: p, building: bid, utype: UnitType::Infantry },
        ],
        None => Seq::empty(),
    };
    f + b
}

/// Whether `s` walks through the golden opening from `s[0]`: each side in
/// turn places its six buildings around its HQ (when it has one), one
/// command at a time, then each side issues its training orders.
pub open spec fn opening_chain(s: Seq<Game>) -> bool {
    &&& s.len() == 15
    &&& forall|k: int|
        0 <= k < 12 ==> #[trigger] opening_at(s, k)
    &&& exists|f: Option<EntityId>, b: Option<EntityId>|
        found_building(s[12], Player::P0, BuildingType::Factory, f) && found_building(
            s[12],
            Player::P0,
            BuildingType::Barracks,
            b,
        ) && #[trigger] issued(s[12], s[13], Player::P0, opening_trains(Player::P0, f, b))
    &&& exists|f: Option<EntityId>, b: Option<EntityId>|
        found_building(s[13], Player::P1, BuildingType::Factory, f) && found_building(
            s[13],
            Player::P1,
            BuildingType::Barracks,
            b,
        ) && #[trigger] issued(s[13], s[14], Player::P1, opening_trains(Player::P1, f, b))
}

/// Step `k` of the placements in `s`: P0's six, then P1's six, each with
/// the HQ looked up where the side's placements start.
pub open spec fn opening_at(s: Seq<Game>, k: int) -> bool {
    if k < 6 {
        opening_step(s[0], s[k], s[k + 1], Player::P0, k)
    } else {
        opening_step(s[6], s[k], s[k + 1], Player::P1, k - 6)
    }
}

/// The `j`-th placement of `p`, with the HQ looked up in `start`.
pub open spec fn opening_step(start: Game, a: Game, b: Game, p: Player, j: int) -> bool {
    match start.hq_idx(p) {
        Some(i) => issued(a, b, p, seq![opening_command(p, start.buildings@[i].tile, j)]),
        None => b == a,
    }
}

/// `g` is the golden opening played on the map of `seed`: a fresh game
/// with the golden configuration, then the opening's placements and
/// training orders; still at tick 0.
pub open spec fn golden_opening(seed: u64, g: Game) -> bool {
    &&& g.wf()
    &&& g.tick == 0
    &&& g.config == golden_config()
    &&& exists|s: Seq<Game>|
        #[trigger] opening_chain(s) && fresh_game(s[0].map, golden_config(), s[0])
            && s[0].map.generated_from(seed) && s[14] == g
}

/// The scenario's orders before a step: at tick 1200 each side sends its
/// combat units on the march (`attack == false`) or against the enemy HQ.
pub open spec fn orders_at(a: Game, b: Game, attack: bool) -> bool {
    if a.tick == 1200 && attack {
        exists|m: Game| #[trigger] march_step(a, m, Player::P0, false) && march_step(m, b, Player::P1, false)
    } else if a.tick == 1200 {
        exists|m: Game| #[trigger] march_step(a, m, Player::P0, true) && march_step(m, b, Player::P1, true)
    } else {
        b == a
    }
}

/// One pass of the scenario loop: orders, then a step of the simulation.
#[verifier::opaque]
pub open spec fn scenario_step(a: Game, b: Game, attack: bool) -> bool {
    exists|mid: Game|
        #[trigger] orders_at(a, mid, attack) && mid.room_for_tick() && !mid.spec_is_over() && step_outcome(
            mid,
            b,
        )
}

/// `chain` runs the scenario loop: every pass starts short of `target` with
/// the match on.
pub open spec fn scenario_chain(chain: Seq<Game>, target: int, attack: bool) -> bool {
    &&& chain.len() >= 1
    &&& forall|i: int|
        0 <= i < chain.len() - 1 ==> (#[trigger] chain[i]).tick < target && !chain[i].spec_is_over()
            && scenario_step(chain[i], chain[i + 1], attack)
}

/// A further pass, started short of `target` with the match on, extends a
/// run of the scenario loop.
pub proof fn lemma_scenario_push(chain: Seq<Game>, target: int, attack: bool, g: Game)
    requires
        scenario_chain(chain, target, attack),
        chain[chain.len() - 1].tick < target,
        !chain[chain.len() - 1].spec_is_over(),
        scenario_step(chain[chain.len() - 1], g, attack),
    ensures
        scenario_chain(chain.push(g), target, attack),
        chain.push(g)[0] == chain[0],
{
    let c2 = chain.push(g);
    assert forall|i: int| 0 <= i < c2.len() - 1 implies (#[trigger] c2[i]).tick < target
        && !c2[i].spec_is_over() && scenario_step(c2[i], c2[i + 1], attack) by {
        if i < chain.len() - 1 {
            assert(c2[i] == chain[i] && c2[i + 1] == chain[i + 1]);
        }
    }
}

/// `g` is the golden opening of `seed` played by the scenario loop to
/// `target`: it stops at `target` or the end of the match, or after the
/// orders when no further tick has room.
pub open spec fn scenario_run(seed: u64, target: int, attack: bool, g: Game) -> bool {
    exists|chain: Seq<Game>|
        #[trigger] scenario_chain(chain, target, attack) && golden_opening(seed, chain[0]) && {
            let last = chain[chain.len() - 1];
            ||| g == last && (g.tick >= target || g.spec_is_over())
            ||| last.tick < target && !last.spec_is_over() && orders_at(last, g, attack) && !g.room_for_tick()
        }
}

/// The `k`-th building of the golden opening and its offset from the HQ.
fn placement(k: usize) -> (r: (BuildingType, i32, i32))
    ensures
        (r.0, r.1 as int, r.2 as int) == opening_placement(k as int),
{
    if k == 0 {
        (BuildingType::PowerPlant, -2, -2)
    } else if k == 1 {
        (BuildingType::Refinery, 2, 0)
    } else if k == 2 {
        (BuildingType::Factory, 0, 2)
    } else if k == 3 {
        (BuildingType::Barracks, 2, 2)
    } else if k == 4 {
        (BuildingType::Turret, -2, 0)
    } else {
        (BuildingType::TechLab, 0, -2)
    }
}

/// The golden opening at tick 0: both bases build a power plant, refinery,
/// factory, barracks, turret and tech lab around their HQ, then queue two
/// harvesters, two tanks and an artillery at the factory and three infantry
/// at the barracks.
pub fn build_game(seed: u64) -> (g: Game)
    ensures
        golden_opening(seed, g),
{
    let cfg = GameConfig { starting_ore: 100_000, timeout_ticks: 100_000, ..GameConfig::default() };
    let mut g = Game::new(GameMap::generate(seed), cfg);
    let ghost mut s: Seq<Game> = seq![g];
    let ghost s0 = g;
    let mut pi: usize = 0;
    while pi < 2
        invariant
            g.wf(),
            0 <= pi <= 2,
            cfg == golden_config(),
            s.len() == 6 * pi + 1,
            s[s.len() - 1] == g,
            g.tick == 0,
            g.config == cfg,
            s[0] == s0,
            fresh_game(s0.map, cfg, s0),
            s0.map.generated_from(seed),
            forall|k: int|
                0 <= k < 6 * pi ==> #[trigger] opening_at(s, k),
        decreases 2 - pi,
    {
        let p = if pi == 0 {
            Player::P0
        } else {
            Player::P1
        };
        let ghost start = g;
        let ghost first = 6 * pi;
        let hq = match g.hq(p) {
            Some(b) => Some(b.tile),
            None => None,
        };
        let mut k: usize = 0;
        match hq {
            Some((hx, hy)) => {
                let x = hx as i32;
                let y = hy as i32;
                while k < 6
                    invariant
                        g.wf(),
                        x == hx,
                        y == hy,
                        0 <= k <= 6,
                        start.hq_idx(p) matches Some(i) && start.buildings@[i].tile == (hx, hy),
                        s.len() == first + k + 1,
                        s[first as int] == start,
                        s[0] == s0,
                        s[s.len() - 1] == g,
                        g.tick == 0,
                        g.config == cfg,
                        first == 6 * pi,
                        pi < 2,
                        p == (if pi == 0 {
                            Player::P0
                        } else {
                            Player::P1
                        }),
                        forall|j: int|
                            0 <= j < first + k ==> #[trigger] opening_at(s, j),
                    decreases 6 - k,
                {
                    let (bt, dx, dy) = placement(k);
                    let tile = (clamp_tile(x + dx), clamp_tile(y + dy));
                    let cmd = Command::PlaceBuilding { player: p, btype: bt, tile };
                    assert(bt == opening_placement(k as int).0);
                    assert(x + dx == hx + opening_placement(k as int).1);
                    assert(tile.0 == spec_clamp_tile((x + dx) as int));
                    assert(tile.0 == spec_clamp_tile(hx + opening_placement(k as int).1));
                    assert(tile.1 == spec_clamp_tile(hy + opening_placement(k as int).2));
                    assert(cmd == opening_command(p, (hx, hy), k as int));
                    let cmds = vec![cmd];
                    assert(cmds@ =~= seq![opening_command(p, (hx, hy), k as int)]);
                    let ghost before = g;
                    issue(&mut g, p, cmds);
                    proof {
                        assert(opening_step(start, before, g, p, k as int));
                        let s2 = s.push(g);
                        assert(s2[0] == s[0]);
                        assert(s2[first as int] == start);
                        if s.len() > 6 {
                            assert(s2[6] == s[6]);
                        }
                        assert forall|j: int| 0 <= j < first + k + 1 implies #[trigger] opening_at(s2, j) by {
                            if j < first + k {
                                assert(opening_at(s, j));
                                assert(s2[j] == s[j] && s2[j + 1] == s[j + 1]);
                                if j >= 6 {
                                    assert(s2[6] == s[6]);
                                }
                            } else {
                                assert(s2[j] == before && s2[j + 1] == g);
                                if pi == 1 {
                                    assert(s2[6] == start);
                                } else {
                                    assert(s2[0] == start);
                                }
                            }
                        }
                        s = s2;
                    }
                    k += 1;
                }
            },
            None => {
                proof {
                    let s2 = s + Seq::new(6, |_i: int| g);
                    assert(s2[0] == s[0]);
                    assert(s2[first as int] == start);
                    if s.len() > 6 {
                        assert(s2[6] == s[6]);
                    }
                    assert(start.hq_idx(p) is None);
                    assert forall|j: int| 0 <= j < first + 6 implies #[trigger] opening_at(s2, j) by {
                        if j < first {
                            assert(opening_at(s, j));
                            assert(s2[j] == s[j] && s2[j + 1] == s[j + 1]);
                        } else {
                            assert(s2[j] == g && s2[j + 1] == g);
                            if pi == 1 {
                                assert(s2[6] == start);
                            } else {
                                assert(s2[0] == start);
                            }
                        }
                    }
                    s = s2;
                }
            },
        }
        pi += 1;
    }
    let mut pj: usize = 0;
    while pj < 2
        invariant
            g.wf(),
            0 <= pj <= 2,
            s.len() == 13 + pj,
            s[s.len() - 1] == g,
            s[0] == s0,
            fresh_game(s0.map, cfg, s0),
            s0.map.generated_from(seed),
            cfg == golden_config(),
            forall|k: int| 0 <= k < 12 ==> #[trigger] opening_at(s, k),
            g.tick == 0,
            g.config == cfg,
            pj >= 1 ==> exists|f: Option<EntityId>, b: Option<EntityId>|
                found_building(s[12], Player::P0, BuildingType::Factory, f) && found_building(
                    s[12],
                    Player::P0,
                    BuildingType::Barracks,
                    b,
                ) && #[trigger] issued(s[12], s[13], Player::P0, opening_trains(Player::P0, f, b)),
            pj >= 2 ==> exists|f: Option<EntityId>, b: Option<EntityId>|
                found_building(s[13], Player::P1, BuildingType::Factory, f) && found_building(
                    s[13],
                    Player::P1,
                    BuildingType::Barracks,
                    b,
                ) && #[trigger] issued(s[13], s[14], Player::P1, opening_trains(Player::P1, f, b)),
        decreases 2 - pj,
    {
        let p = if pj == 0 {
            Player::P0
        } else {
            Player::P1
        };
        let factory = find_building(&g, p, BuildingType::Factory);
        let barracks = find_building(&g, p, BuildingType::Barracks);
        let mut cmds: Vec<Command> = Vec::new();
        if let Some(f) = factory {
            cmds.push(Command::TrainUnit { player: p, building: f, utype: UnitType::Harvester });
            cmds.push(Command::TrainUnit { player: p, building: f, utype: UnitType::Harvester });
            cmds.push(Command::TrainUnit { player: p, building: f, utype: UnitType::Tank });
            cmds.push(Command::TrainUnit { player: p, building: f, utype: UnitType::Tank });
            cmds.push(Command::TrainUnit { player: p, building: f, utype: UnitType::Artillery });
        }
        if let Some(b) = barracks {
            cmds.push(Command::TrainUnit { player: p, building: b, utype: UnitType::Infantry });
            cmds.push(Command::TrainUnit { player: p, building: b, utype: UnitType::Infantry });
            cmds.push(Command::TrainUnit { player: p, building: b, utype: UnitType::Infantry });
        }
        assert(cmds@ =~= opening_trains(p, factory, barracks));
        let ghost before = g;
        issue(&mut g, p, cmds);
        proof {
            assert(found_building(before, p, BuildingType::Factory, factory));
            assert(found_building(before, p, BuildingType::Barracks, barracks));
            assert(issued(before, g, p, opening_trains(p, factory, barracks)));
            let s2 = s.push(g);
            assert(s2[s.len() - 1] == before);
            assert forall|k: int| 0 <= k < 12 implies #[trigger] opening_at(s2, k) by {
                assert(opening_at(s, k));
                assert(s2[k] == s[k] && s2[k + 1] == s[k + 1] && s2[0] == s[0] && s2[6] == s[6]);
            }
            if pj == 1 {
                assert(s2[12] == s[12] && s2[13] == s[13]);
            }
            s = s2;
        }
        pj += 1;
    }
    proof {
        assert(opening_chain(s));
    }
    g
}

/// Walk each side's combat units to a neutral spot eight tiles diagonally
/// from its own HQ (pathfinding without combat).
pub fn issue_move_orders(g: &mut Game)
    requires
        old(g).wf(),
    ensures
        final(g).wf(),
        old(g).keeps_world(*final(g)),
        exists|mid: Game|
            #[trigger] march_step(*old(g), mid, Player::P0, true) && march_step(mid, *final(g), Player::P1, true),
{
    let ghost mut g1 = *g;
    let mut pi: usize = 0;
    while pi < 2
        invariant
            g.wf(),
            0 <= pi <= 2,
            old(g).keeps_world(*g),
            pi == 0 ==> *g == *old(g),
            pi >= 1 ==> march_step(*old(g), g1, Player::P0, true),
            pi == 1 ==> *g == g1,
            pi == 2 ==> march_step(g1, *g, Player::P1, true),
        decreases 2 - pi,
    {
        let ghost before = *g;
        let p = if pi == 0 {
            Player::P0
        } else {
            Player::P1
        };
        let hq = match g.hq(p) {
            Some(b) => Some(b.tile),
            None => None,
        };
        if let Some(t) = hq {
            let combat = combat_unit_ids(g, p);
            if combat.len() > 0 {
                let wp = (clamp_tile(t.0 as i32 + 8), clamp_tile(t.1 as i32 + 8));
                let ghost ids = combat@;
                let cmd = Command::MoveGroup {
                    player: p,
                    units: combat,
                    waypoint: wp,
                    stance: Stance::Aggressive,
                };
                let ghost c = cmd;
                let cmds = vec![cmd];
                proof {
                    assert(cmds@ =~= seq![c]);
                    assert(group_move(c, p, ids, wp));
                    let i = before.hq_idx(p)->0;
                    assert(wp == march_waypoint(before.buildings@[i].tile, true));
                    assert(before.hq_idx(march_side(p, true)) == Some(i));
                }
                issue(g, p, cmds);
                assert(issued(before, *g, p, seq![c]));
            }
        }
        proof {
            assert(march_step(before, *g, p, true));
            if pi == 0 {
                g1 = *g;
            }
        }
        pi += 1;
    }
}

/// Send each side's combat units toward the enemy HQ, so the armies meet.
pub fn issue_attack_orders(g: &mut Game)
    requires
        old(g).wf(),
    ensures
        final(g).wf(),
        old(g).keeps_world(*final(g)),
        exists|mid: Game|
            #[trigger] march_step(*old(g), mid, Player::P0, false) && march_step(mid, *final(g), Player::P1, false),
{
    let ghost mut g1 = *g;
    let mut pi: usize = 0;
    while pi < 2
        invariant
            g.wf(),
            0 <= pi <= 2,
            old(g).keeps_world(*g),
            pi == 0 ==> *g == *old(g),
            pi >= 1 ==> march_step(*old(g), g1, Player::P0, false),
            pi == 1 ==> *g == g1,
            pi == 2 ==> march_step(g1, *g, Player::P1, false),
        decreases 2 - pi,
    {
        let ghost before = *g;
        let p = if pi == 0 {
            Player::P0
        } else {
            Player::P1
        };
        let hq = match g.hq(p.enemy()) {
            Some(b) => Some(b.tile),
            None => None,
        };
        if let Some(t) = hq {
            let combat = combat_unit_ids(g, p);
            if combat.len() > 0 {
                let ghost ids = combat@;
                let cmd = Command::MoveGroup {
                    player: p,
                    units: combat,
                    waypoint: t,
                    stance: Stance::Aggressive,
                };
                let ghost c = cmd;
                let cmds = vec![cmd];
                proof {
                    assert(cmds@ =~= seq![c]);
                    assert(group_move(c, p, ids, t));
                    let i = before.hq_idx(p.opponent())->0;
                    assert(t == march_waypoint(before.buildings@[i].tile, false));
                    assert(before.hq_idx(march_side(p, false)) == Some(i));
                }
                issue(g, p, cmds);
                assert(issued(before, *g, p, seq![c]));
            }
        }
        proof {
            assert(march_step(before, *g, p, false));
            if pi == 0 {
                g1 = *g;
            }
        }
        pi += 1;
    }
}

/// Run the scenario to `target_tick`, issuing `orders` at tick 1200.
#[verifier::spinoff_prover]
fn run_scenario(seed: u64, target_tick: i32, attack: bool) -> (g: Game)
    ensures
        g.wf(),
        scenario_run(seed, target_tick as int, attack, g),
{
    let mut g = build_game(seed);
    let ghost g0 = g;
    let ghost mut chain: Seq<Game> = seq![g];
    while g.tick < target_tick && !g.is_over()
        invariant
            g.wf(),
            golden_opening(seed, g0),
            scenario_chain(chain, target_tick as int, attack),
            chain[0] == g0,
            chain[chain.len() - 1] == g,
        decreases target_tick - g.tick,
    {
        let ghost a = g;
        if g.tick == 1200 {
            if attack {
                issue_attack_orders(&mut g);
            } else {
                issue_move_orders(&mut g);
            }
        }
        assert(orders_at(a, g, attack));
        if !g.has_room_for_tick() || g.is_over() {
            assert(scenario_run(seed, target_tick as int, attack, g));
            return g;
        }
        let ghost mid = g;
        g.step();
        proof {
            assert(scenario_step(a, g, attack)) by {
                reveal(scenario_step);
            }
            lemma_scenario_push(chain, target_tick as int, attack, g);
            chain = chain.push(g);
        }
    }
    assert(scenario_run(seed, target_tick as int, attack, g));
    g
}

/// The march scenario played to `target_tick` (or the end of the match).
pub fn playout(seed: u64, target_tick: i32) -> (g: Game)
    ensures
        g.wf(),
        scenario_run(seed, target_tick as int, false, g),
{
    run_scenario(seed, target_tick, false)
}

/// The battle scenario played to `target_tick` (or the end of the match).
pub fn combat_playout(seed: u64, target_tick: i32) -> (g: Game)
    ensures
        g.wf(),
        scenario_run(seed, target_tick as int, true, g),
{
    run_scenario(seed, target_tick, true)
}

} // verus!
