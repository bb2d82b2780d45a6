//! A live match between a human (player 0) and a bot (player 1), advanced
//! one tick at a time: the decisions of the server's match loop. The loop
//! itself (the socket, the tick timer, storage) lives outside the library;
//! each tick it hands over the human's buffered commands and gets back what
//! to send: the human's fogged view of the new state and, at the end, the
//! result.
use vstd::prelude::*;

use crate::bot::{all_issued_by, Bot};
use crate::entity::{Building, BuildingType, EntityId, Player, Unit, UnitType};
use crate::fixed::{Pos, COMMAND_TICK};
use crate::fog::{
    lemma_view_reveals_only_sightings, upsert_buildings, upsert_units, view_entry_ok, visible_grid,
    RememberedBuilding, RememberedUnit,
};
use crate::game::{batch_applied, Game, GameConfig, GameEvent};
use crate::map::{coords, tile_coords, GameMap};
use crate::orders::Command;
use crate::serialize::{Replay, ReplayResult, TimedCommand};
use crate::tick::step_outcome;

verus! {

/// What an entity in a view is.
#[derive(Clone, Copy, PartialEq, Eq, Structural, Debug)]
pub enum EntityKind {
    Unit(UnitType),
    Building(BuildingType),
}

/// One entity as the human's client sees it. Own entities carry their HP;
/// enemy entities come from the fog view, with the tick they were last seen
/// and no HP.
#[derive(Clone, Copy, Debug)]
pub struct DiffEntity {
    pub id: EntityId,
    pub kind: EntityKind,
    /// 0 for the human's own entities, 1 for the enemy's.
    pub owner: u8,
    /// Position (a building's is its tile center).
    pub pos: Pos,
    pub hp: i32,
    pub max_hp: i32,
    pub stale: Option<i32>,
}

/// A known ore tile and the ore left on it.
#[derive(Clone, Copy, Debug)]
pub struct OreTile {
    pub x: u8,
    pub y: u8,
    pub amount: i32,
}

/// The human's view of the state after a tick.
#[derive(Debug)]
pub struct StateDiff {
    pub tick: i32,
    /// The human's banked ore.
    pub ore: i32,
    pub entities: Vec<DiffEntity>,
    /// Ore tiles the human knows of that still hold ore, in tile order.
    pub ore_tiles: Vec<OreTile>,
    /// Indices of the tiles the human sees now, ascending.
    pub visible: Vec<u16>,
    /// The events after the previous diff's tick, in order.
    pub events: Vec<GameEvent>,
}

pub open spec fn own_unit_entry(u: Unit) -> DiffEntity {
    DiffEntity {
        id: u.id,
        kind: EntityKind::Unit(u.utype),
        owner: 0,
        pos: u.pos,
        hp: u.hp,
        max_hp: u.max_hp,
        stale: None,
    }
}

pub open spec fn own_building_entry(b: Building) -> DiffEntity {
    DiffEntity {
        id: b.id,
        kind: EntityKind::Building(b.btype),
        owner: 0,
        pos: Pos::spec_from_tile(b.tile.0, b.tile.1),
        hp: b.hp,
        max_hp: b.max_hp,
        stale: None,
    }
}

pub open spec fn seen_unit_entry(m: RememberedUnit) -> DiffEntity {
    DiffEntity {
        id: m.id,
        kind: EntityKind::Unit(m.utype),
        owner: 1,
        pos: m.pos,
        hp: 0,
        max_hp: 0,
        stale: Some(m.last_seen),
    }
}

pub open spec fn seen_building_entry(m: RememberedBuilding) -> DiffEntity {
    DiffEntity {
        id: m.id,
        kind: EntityKind::Building(m.btype),
        owner: 1,
        pos: Pos::spec_from_tile(m.tile.0, m.tile.1),
        hp: 0,
        max_hp: 0,
        stale: Some(m.last_seen),
    }
}

/// Player 0's units, in list order.
pub open spec fn own_unit_entries(s: Seq<Unit>) -> Seq<DiffEntity>
    decreases s.len(),
{
    if s.len() == 0 {
        Seq::empty()
    } else if s.last().owner == Player::P0 {
        own_unit_entries(s.drop_last()).push(own_unit_entry(s.last()))
    } else {
        own_unit_entries(s.drop_last())
    }
}

/// Player 0's buildings, in list order.
pub open spec fn own_building_entries(s: Seq<Building>) -> Seq<DiffEntity>
    decreases s.len(),
{
    if s.len() == 0 {
        Seq::empty()
    } else if s.last().owner == Player::P0 {
        own_building_entries(s.drop_last()).push(own_building_entry(s.last()))
    } else {
        own_building_entries(s.drop_last())
    }
}

/// The known ore tiles among the first `n` that still hold ore.
pub open spec fn ore_tiles_upto(known: Seq<bool>, ore: Seq<i32>, n: int) -> Seq<OreTile>
    decreases n,
{
    if n <= 0 {
        Seq::empty()
    } else if known[n - 1] && ore[n - 1] > 0 {
        ore_tiles_upto(known, ore, n - 1).push(
            OreTile { x: coords(n - 1).0, y: coords(n - 1).1, amount: ore[n - 1] },
        )
    } else {
        ore_tiles_upto(known, ore, n - 1)
    }
}

/// The indices among the first `n` of the visible tiles.
pub open spec fn visible_upto(vis: Seq<bool>, n: int) -> Seq<u16>
    decreases n,
{
    if n <= 0 {
        Seq::empty()
    } else if vis[n - 1] {
        visible_upto(vis, n - 1).push((n - 1) as u16)
    } else {
        visible_upto(vis, n - 1)
    }
}

/// The events after tick `t`, in order.
pub open spec fn events_after(s: Seq<GameEvent>, t: int) -> Seq<GameEvent>
    decreases s.len(),
{
    if s.len() == 0 {
        Seq::empty()
    } else if s.last().tick > t {
        events_after(s.drop_last(), t).push(s.last())
    } else {
        events_after(s.drop_last(), t)
    }
}

/// What player 0 remembers of player 1's units, refreshed by what it sees.
pub open spec fn seen_units(g: Game) -> Seq<RememberedUnit> {
    upsert_units(g.fog[0].units@, g.units@, Player::P1, visible_grid(g, Player::P0), g.tick)
}

/// What player 0 remembers of player 1's buildings, refreshed by what it sees.
pub open spec fn seen_buildings(g: Game) -> Seq<RememberedBuilding> {
    upsert_buildings(
        g.fog[0].buildings@,
        g.buildings@,
        Player::P1,
        visible_grid(g, Player::P0),
        g.tick,
    )
}

/// Every entity of player 0's view: its own units and buildings, then the
/// enemy units and buildings of its fog view.
pub open spec fn view_entities(g: Game) -> Seq<DiffEntity> {
    own_unit_entries(g.units@) + own_building_entries(g.buildings@) + seen_units(g).map_values(
        |m: RememberedUnit| seen_unit_entry(m),
    ) + seen_buildings(g).map_values(|m: RememberedBuilding| seen_building_entry(m))
}

/// `d` is player 0's view of `g`, with the events after tick `last`.
pub open spec fn is_diff_of(d: StateDiff, g: Game, last: int) -> bool {
    &&& d.tick == g.tick
    &&& d.ore == g.ore[0]
    &&& d.entities@ == view_entities(g)
    &&& d.ore_tiles@ == ore_tiles_upto(g.fog[0].known_ore@, g.map.ore@, 4096)
    &&& d.visible@ == visible_upto(visible_grid(g, Player::P0), 4096)
    &&& d.events@ == events_after(g.events@, last)
}

fn push_own_units(out: &mut Vec<DiffEntity>, units: &Vec<Unit>)
    ensures
        final(out)@ == old(out)@ + own_unit_entries(units@),
{
    let ghost start = out@;
    let mut i: usize = 0;
    while i < units.len()
        invariant
            0 <= i <= units@.len(),
            out@ == start + own_unit_entries(units@.subrange(0, i as int)),
        decreases units.len() - i,
    {
        proof {
            assert(units@.subrange(0, i + 1).drop_last() =~= units@.subrange(0, i as int));
        }
        let u = &units[i];
        if u.owner == Player::P0 {
            out.push(
                DiffEntity {
                    id: u.id,
                    kind: EntityKind::Unit(u.utype),
                    owner: 0,
                    pos: u.pos,
                    hp: u.hp,
                    max_hp: u.max_hp,
                    stale: None,
                },
            );
        }
        i += 1;
    }
    proof {
        assert(units@.subrange(0, units@.len() as int) =~= units@);
    }
}

fn push_own_buildings(out: &mut Vec<DiffEntity>, buildings: &Vec<Building>)
    ensures
        final(out)@ == old(out)@ + own_building_entries(buildings@),
{
    let ghost start = out@;
    let mut i: usize = 0;
    while i < buildings.len()
        invariant
            0 <= i <= buildings@.len(),
            out@ == start + own_building_entries(buildings@.subrange(0, i as int)),
        decreases buildings.len() - i,
    {
        proof {
            assert(buildings@.subrange(0, i + 1).drop_last() =~= buildings@.subrange(0, i as int));
        }
        let b = &buildings[i];
        if b.owner == Player::P0 {
            out.push(
                DiffEntity {
                    id: b.id,
                    kind: EntityKind::Building(b.btype),
                    owner: 0,
                    pos: Pos::from_tile(b.tile.0, b.tile.1),
                    hp: b.hp,
                    max_hp: b.max_hp,
                    stale: None,
                },
            );
        }
        i += 1;
    }
    proof {
        assert(buildings@.subrange(0, buildings@.len() as int) =~= buildings@);
    }
}

fn push_seen_units(out: &mut Vec<DiffEntity>, seen: &Vec<RememberedUnit>)
    ensures
        final(out)@ == old(out)@ + seen@.map_values(|m: RememberedUnit| seen_unit_entry(m)),
{
    let ghost start = out@;
    let mut i: usize = 0;
    while i < seen.len()
        invariant
            0 <= i <= seen@.len(),
            out@ == start + seen@.subrange(0, i as int).map_values(
                |m: RememberedUnit| seen_unit_entry(m),
            ),
        decreases seen.len() - i,
    {
        let m = seen[i];
        out.push(
            DiffEntity {
                id: m.id,
                kind: EntityKind::Unit(m.utype),
                owner: 1,
                pos: m.pos,
                hp: 0,
                max_hp: 0,
                stale: Some(m.last_seen),
            },
        );
        proof {
            assert(seen@.subrange(0, i + 1).map_values(|m: RememberedUnit| seen_unit_entry(m))
                =~= seen@.subrange(0, i as int).map_values(|m: RememberedUnit| seen_unit_entry(m)).push(
                seen_unit_entry(m),
            ));
        }
        i += 1;
    }
    proof {
        assert(seen@.subrange(0, seen@.len() as int) =~= seen@);
    }
}

fn push_seen_buildings(out: &mut Vec<DiffEntity>, seen: &Vec<RememberedBuilding>)
    ensures
        final(out)@ == old(out)@ + seen@.map_values(
            |m: RememberedBuilding| seen_building_entry(m),
        ),
{
    let ghost start = out@;
    let mut i: usize = 0;
    while i < seen.len()
        invariant
            0 <= i <= seen@.len(),
            out@ == start + seen@.subrange(0, i as int).map_values(
                |m: RememberedBuilding| seen_building_entry(m),
            ),
        decreases seen.len() - i,
    {
        let m = seen[i];
        out.push(
            DiffEntity {
                id: m.id,
                kind: EntityKind::Building(m.btype),
                owner: 1,
                pos: Pos::from_tile(m.tile.0, m.tile.1),
                hp: 0,
                max_hp: 0,
                stale: Some(m.last_seen),
            },
        );
        proof {
            assert(seen@.subrange(0, i + 1).map_values(
                |m: RememberedBuilding| seen_building_entry(m),
            ) =~= seen@.subrange(0, i as int).map_values(
                |m: RememberedBuilding| seen_building_entry(m),
            ).push(seen_building_entry(m)));
        }
        i += 1;
    }
    proof {
        assert(seen@.subrange(0, seen@.len() as int) =~= seen@);
    }
}

fn known_ore_tiles(known: &Vec<bool>, ore: &Vec<i32>) -> (r: Vec<OreTile>)
    requires
        known@.len() == 4096,
        ore@.len() == 4096,
    ensures
        r@ == ore_tiles_upto(known@, ore@, 4096),
{
    let mut r: Vec<OreTile> = Vec::new();
    let mut i: usize = 0;
    while i < 4096
        invariant
            0 <= i <= 4096,
            known@.len() == 4096,
            ore@.len() == 4096,
            r@ == ore_tiles_upto(known@, ore@, i as int),
        decreases 4096 - i,
    {
        if known[i] && ore[i] > 0 {
            let (x, y) = tile_coords(i);
            r.push(OreTile { x, y, amount: ore[i] });
        }
        i += 1;
    }
    r
}

fn visible_indices(vis: &Vec<bool>) -> (r: Vec<u16>)
    requires
        vis@.len() == 4096,
    ensures
        r@ == visible_upto(vis@, 4096),
{
    let mut r: Vec<u16> = Vec::new();
    let mut i: usize = 0;
    while i < 4096
        invariant
            0 <= i <= 4096,
            vis@.len() == 4096,
            r@ == visible_upto(vis@, i as int),
        decreases 4096 - i,
    {
        if vis[i] {
            r.push(i as u16);
        }
        i += 1;
    }
    r
}

fn events_since(events: &Vec<GameEvent>, last: i32) -> (r: Vec<GameEvent>)
    ensures
        r@ == events_after(events@, last as int),
{
    let mut r: Vec<GameEvent> = Vec::new();
    let mut i: usize = 0;
    while i < events.len()
        invariant
            0 <= i <= events@.len(),
            r@ == events_after(events@.subrange(0, i as int), last as int),
        decreases events.len() - i,
    {
        proof {
            assert(events@.subrange(0, i + 1).drop_last() =~= events@.subrange(0, i as int));
        }
        if events[i].tick > last {
            r.push(events[i]);
        }
        i += 1;
    }
    proof {
        assert(events@.subrange(0, events@.len() as int) =~= events@);
    }
    r
}

/// Player 0's view of the game: its own units and buildings with their HP,
/// the enemy as its fog view shows it, the ore tiles it knows of that still
/// hold ore, the tiles it sees now, and the events after tick `last`.
pub fn build_diff(game: &Game, last: i32) -> (d: StateDiff)
    requires
        game.wf(),
    ensures
        is_diff_of(d, *game, last as int),
{
    let view = game.fog_view(Player::P0);
    let mut entities: Vec<DiffEntity> = Vec::new();
    push_own_units(&mut entities, &game.units);
    push_own_buildings(&mut entities, &game.buildings);
    push_seen_units(&mut entities, &view.units);
    push_seen_buildings(&mut entities, &view.buildings);
    let ore_tiles = known_ore_tiles(&view.known_ore, &game.map.ore);
    let visible = visible_indices(&view.visible);
    let events = events_since(&game.events, last);
    proof {
        assert(entities@ =~= view_entities(*game));
    }
    StateDiff { tick: game.tick, ore: game.ore[0], entities, ore_tiles, visible, events }
}

/// Append a copy of every command of `cmds`, as issued by `p` at `tick`.
fn record_as(replay: &mut Replay, tick: i32, p: Player, cmds: &Vec<Command>)
    ensures
        final(replay).commands@.len() == old(replay).commands@.len() + cmds@.len(),
        final(replay).commands@.subrange(0, old(replay).commands@.len() as int)
            == old(replay).commands@,
        forall|k: int|
            0 <= k < cmds@.len() ==> final(replay).commands@[old(replay).commands@.len() + k].tick
                == tick && final(replay).commands@[old(replay).commands@.len() + k].player == p
                && (#[trigger] cmds@[k]).reissued(
                final(replay).commands@[old(replay).commands@.len() + k].command,
                cmds@[k].issuer(),
            ),
        final(replay).version == old(replay).version,
        final(replay).map_seed == old(replay).map_seed,
        final(replay).config == old(replay).config,
        final(replay).result == old(replay).result,
{
    let ghost n0 = replay.commands@.len();
    let mut i: usize = 0;
    while i < cmds.len()
        invariant
            0 <= i <= cmds@.len(),
            replay.commands@.len() == n0 + i,
            replay.commands@.subrange(0, n0 as int) == old(replay).commands@,
            n0 == old(replay).commands@.len(),
            forall|k: int|
                0 <= k < i ==> replay.commands@[n0 + k].tick == tick && replay.commands@[n0
                    + k].player == p && (#[trigger] cmds@[k]).reissued(
                    replay.commands@[n0 + k].command,
                    cmds@[k].issuer(),
                ),
            replay.version == old(replay).version,
            replay.map_seed == old(replay).map_seed,
            replay.config == old(replay).config,
            replay.result == old(replay).result,
        decreases cmds.len() - i,
    {
        let c = cmds[i].clone();
        replay.record(tick, p, c);
        proof {
            assert(replay.commands@.subrange(0, n0 as int) =~= old(replay).commands@);
        }
        i += 1;
    }
}

proof fn lemma_own_unit_entries_owner(s: Seq<Unit>)
    ensures
        forall|k: int|
            0 <= k < own_unit_entries(s).len() ==> (#[trigger] own_unit_entries(s)[k]).owner == 0,
    decreases s.len(),
{
    if s.len() > 0 {
        lemma_own_unit_entries_owner(s.drop_last());
    }
}

proof fn lemma_own_building_entries_owner(s: Seq<Building>)
    ensures
        forall|k: int|
            0 <= k < own_building_entries(s).len() ==> (#[trigger] own_building_entries(
                s,
            )[k]).owner == 0,
    decreases s.len(),
{
    if s.len() > 0 {
        lemma_own_building_entries_owner(s.drop_last());
    }
}

/// The human's view reveals nothing of the enemy's units but sightings:
/// every enemy unit in a diff is one that player 0 remembers, or an enemy
/// unit in view now, shown at its current position with the current tick;
/// and no enemy entity carries its HP.
pub proof fn lemma_diff_reveals_only_sightings(d: StateDiff, g: Game, last: int)
    requires
        is_diff_of(d, g, last),
    ensures
        forall|k: int|
            0 <= k < d.entities@.len() && (#[trigger] d.entities@[k]).owner == 1 ==> d.entities@[k].hp
                == 0 && d.entities@[k].max_hp == 0,
        forall|k: int|
            0 <= k < d.entities@.len() && (#[trigger] d.entities@[k]).owner == 1
                && d.entities@[k].kind is Unit ==> exists|m: RememberedUnit|
                #[trigger] view_entry_ok(
                    g.fog[0].units@,
                    g.units@,
                    Player::P1,
                    visible_grid(g, Player::P0),
                    g.tick,
                    m,
                ) && d.entities@[k] == seen_unit_entry(m),
{
    let ou = own_unit_entries(g.units@);
    let ob = own_building_entries(g.buildings@);
    let su = seen_units(g);
    let sb = seen_buildings(g);
    let a = ou.len() + ob.len();
    lemma_own_unit_entries_owner(g.units@);
    lemma_own_building_entries_owner(g.buildings@);
    lemma_view_reveals_only_sightings(
        g.fog[0].units@,
        g.units@,
        Player::P1,
        visible_grid(g, Player::P0),
        g.tick,
    );
    let e = d.entities@;
    assert(e == ou + ob + su.map_values(|m: RememberedUnit| seen_unit_entry(m)) + sb.map_values(
        |m: RememberedBuilding| seen_building_entry(m),
    ));
    assert forall|k: int| 0 <= k < e.len() && (#[trigger] e[k]).owner == 1 implies e[k].hp == 0
        && e[k].max_hp == 0 by {
        if k < ou.len() {
            assert(e[k] == ou[k]);
        } else if k < a {
            assert(e[k] == ob[k - ou.len()]);
        } else if k < a + su.len() {
            assert(e[k] == seen_unit_entry(su[k - a]));
        } else {
            assert(e[k] == seen_building_entry(sb[k - a - su.len()]));
        }
    }
    assert forall|k: int| 0 <= k < e.len() && (#[trigger] e[k]).owner == 1 && e[k].kind is Unit implies exists|
        m: RememberedUnit,
    |
        #[trigger] view_entry_ok(
            g.fog[0].units@,
            g.units@,
            Player::P1,
            visible_grid(g, Player::P0),
            g.tick,
            m,
        ) && e[k] == seen_unit_entry(m) by {
        if k < ou.len() {
            assert(e[k] == ou[k]);
        } else if k < a {
            assert(e[k] == ob[k - ou.len()]);
        } else if k < a + su.len() {
            let m = su[k - a];
            assert(e[k] == seen_unit_entry(m));
            assert(view_entry_ok(
                g.fog[0].units@,
                g.units@,
                Player::P1,
                visible_grid(g, Player::P0),
                g.tick,
                upsert_units(
                    g.fog[0].units@,
                    g.units@,
                    Player::P1,
                    visible_grid(g, Player::P0),
                    g.tick,
                )[k - a],
            ));
        } else {
            assert(e[k] == seen_building_entry(sb[k - a - su.len()]));
        }
    }
}

/// `new` holds what one tick `t` appends to the log: the bot's commands
/// `bot` as player 1's, then the human's commands `human` as player 0's,
/// each in order and with its own fields.
pub open spec fn tick_entries(new: Seq<TimedCommand>, t: int, bot: Seq<Command>, human: Seq<Command>) -> bool {
    &&& new.len() == bot.len() + human.len()
    &&& forall|k: int|
        0 <= k < bot.len() ==> new[k].tick == t && new[k].player == Player::P1
            && (#[trigger] bot[k]).reissued(new[k].command, bot[k].issuer())
    &&& forall|k: int|
        0 <= k < human.len() ==> new[bot.len() + k].tick == t && new[bot.len() + k].player
            == Player::P0 && (#[trigger] human[k]).reissued(
            new[bot.len() + k].command,
            human[k].issuer(),
        )
}

/// How one session tick takes the game from `g0` to `g`: the bot's
/// commands `bot` are applied as player 1's (giving `m`), then the human's
/// `human` as player 0's (giving `mid`), then the match steps once. A batch
/// that the counters have no room for is not applied, and the game then
/// stays where it is for the rest of the tick; so it does when the step
/// itself has no headroom.
pub open spec fn session_round(
    g0: Game,
    bot: Seq<Command>,
    human: Seq<Command>,
    m: Game,
    mid: Game,
    g: Game,
) -> bool {
    let bot_halts = bot.len() > 0 && !g0.room_for_commands(Player::P1, bot.len() as int);
    let human_halts = !bot_halts && human.len() > 0 && !m.room_for_commands(
        Player::P0,
        human.len() as int,
    );
    &&& if bot.len() > 0 && !bot_halts {
        batch_applied(g0, m, Player::P1, bot)
    } else {
        m == g0
    }
    &&& if !bot_halts && human.len() > 0 && !human_halts {
        batch_applied(m, mid, Player::P0, human)
    } else {
        mid == m
    }
    &&& if !bot_halts && !human_halts && mid.room_for_tick() {
        step_outcome(mid, g)
    } else {
        g == mid
    }
}

/// A live match: the game, its input log, and the tick the human's view was
/// last sent at.
#[derive(Debug)]
pub struct Session {
    pub game: Game,
    pub replay: Replay,
    pub last_event_tick: i32,
}

/// What one tick of a session gives the loop to send.
#[derive(Debug)]
pub struct SessionTick {
    pub diff: StateDiff,
    /// The result, once the match is over.
    pub result: Option<ReplayResult>,
}

impl Session {
    /// The game is well formed, the log belongs to it and is in tick order,
    /// and nothing in it lies ahead of the game.
    pub open spec fn wf(self) -> bool {
        &&& self.game.wf()
        &&& self.replay.config == self.game.config
        &&& forall|i: int, j: int|
            0 <= i <= j < self.replay.commands@.len() ==> (#[trigger] self.replay.commands@[i]).tick
                <= (#[trigger] self.replay.commands@[j]).tick
        &&& forall|k: int|
            0 <= k < self.replay.commands@.len() ==> (#[trigger] self.replay.commands@[k]).tick
                <= self.game.tick
    }

    /// A fresh match on the map of `seed`, with an empty log.
    pub fn new(seed: u64, config: GameConfig) -> (s: Session)
        requires
            config.wf(),
        ensures
            s.wf(),
            s.game.tick == 0,
            s.game.map.generated_from(seed),
            s.game.config == config,
            s.replay.map_seed == seed,
            s.replay.commands@.len() == 0,
            s.replay.result is None,
            s.last_event_tick == 0,
    {
        let game = Game::new(GameMap::generate(seed), config);
        let replay = Replay::new(seed, config);
        Session { game, replay, last_event_tick: 0 }
    }
    /// One tick of the match. On a command tick the bot decides for player 1
    /// and its commands are logged and applied first. On every tick the
    /// human's buffered commands are taken for player 0, logged at the
    /// current tick and applied, so they take effect within one tick; all
    /// commands go through the normal validation and budget. Then the
    /// simulation steps, and the tick's view for the human is built with the
    /// events since the last one sent; once the match is over, its result is
    /// logged and returned. Should a counter run out of range, the game stops
    /// advancing.
    pub fn advance<B: Bot + ?Sized>(&mut self, bot: &mut B, pending: &mut Vec<Command>) -> (r:
        SessionTick)
        requires
            old(self).wf(),
        ensures
            final(self).wf(),
            final(self).game.config == old(self).game.config,
            final(self).replay.version == old(self).replay.version,
            final(self).replay.map_seed == old(self).replay.map_seed,
            final(self).replay.commands@.subrange(0, old(self).replay.commands@.len() as int)
                == old(self).replay.commands@,
            final(pending)@.len() == 0,
            exists|bot: Seq<Command>, m: Game, mid: Game|
                #[trigger] session_round(old(self).game, bot, old(pending)@, m, mid, final(self).game)
                    && all_issued_by(bot, Player::P1) && (old(self).game.tick % COMMAND_TICK
                    != 0 ==> bot.len() == 0) && tick_entries(
                    final(self).replay.commands@.subrange(
                        old(self).replay.commands@.len() as int,
                        final(self).replay.commands@.len() as int,
                    ),
                    old(self).game.tick as int,
                    bot,
                    old(pending)@,
                ),
            old(self).game.tick <= final(self).game.tick <= old(self).game.tick + 1,
            old(self).game.spec_is_over() ==> final(self).game.tick == old(self).game.tick,
            is_diff_of(r.diff, final(self).game, old(self).last_event_tick as int),
            final(self).last_event_tick == final(self).game.tick,
            r.result == (if final(self).game.spec_is_over() {
                Some(
                    ReplayResult {
                        winner: final(self).game.winner,
                        reason: final(self).game.win_reason,
                        duration_ticks: final(self).game.tick,
                    },
                )
            } else {
                None
            }),
            final(self).replay.result == (if final(self).game.spec_is_over() {
                r.result
            } else {
                old(self).replay.result
            }),
    {
        let tick = self.game.tick;
        let ghost n0 = self.replay.commands@.len();
        let ghost human = pending@;
        let ghost g0 = self.game;
        let ghost mut m = g0;
        let ghost mut mid = g0;
        let mut halted = false;
        let mut bot_cmds: Vec<Command> = Vec::new();
        if self.game.is_command_tick() {
            bot_cmds = bot.decide(&self.game, Player::P1);
        }
        assert(all_issued_by(bot_cmds@, Player::P1));
        {
            record_as(&mut self.replay, tick, Player::P1, &bot_cmds);
            let ghost n1 = self.replay.commands@.len();
            if bot_cmds.len() > 0 {
                if self.game.has_room_for_commands(Player::P1, bot_cmds.len()) {
                    self.game.apply_commands(Player::P1, bot_cmds.as_slice());
                } else {
                    halted = true;
                }
            }
            proof {
                m = self.game;
            }
            record_as(&mut self.replay, tick, Player::P0, pending);
            if pending.len() > 0 && !halted {
                if self.game.has_room_for_commands(Player::P0, pending.len()) {
                    self.game.apply_commands(Player::P0, pending.as_slice());
                } else {
                    halted = true;
                }
            }
            *pending = Vec::new();
            proof {
                mid = self.game;
                let all = self.replay.commands@;
                let new = all.subrange(n0 as int, all.len() as int);
                let j = n1 - n0;
                assert forall|k: int| 0 <= k < j implies new[k].tick == tick && new[k].player
                    == Player::P1 && (#[trigger] bot_cmds@[k]).reissued(
                    new[k].command,
                    bot_cmds@[k].issuer(),
                ) by {
                    assert(new[k] == all[n0 + k]);
                }
                assert forall|k: int| 0 <= k < human.len() implies new[j + k].tick == tick
                    && new[j + k].player == Player::P0 && (#[trigger] human[k]).reissued(
                    new[j + k].command,
                    human[k].issuer(),
                ) by {
                    assert(new[j + k] == all[n1 + k]);
                }
                assert(tick_entries(new, tick as int, bot_cmds@, human));
                assert forall|k: int| n0 <= k < all.len() implies #[trigger] all[k].tick == tick by {
                    if k < n1 {
                        assert(bot_cmds@[k - n0].reissued(new[k - n0].command, bot_cmds@[k - n0].issuer()));
                        assert(new[k - n0].tick == tick);
                    } else {
                        assert(human[k - n1].reissued(new[j + (k - n1)].command, human[k - n1].issuer()));
                        assert(new[j + (k - n1)] == all[k]);
                    }
                }
            }
        }
        proof {
            let all = self.replay.commands@;
            assert(all.subrange(0, n0 as int) == old(self).replay.commands@);
            assert forall|k: int| 0 <= k < all.len() implies #[trigger] all[k].tick <= tick by {
                if k < n0 {
                    assert(all[k] == all.subrange(0, n0 as int)[k]);
                }
            }
            assert forall|a: int, b: int| 0 <= a <= b < all.len() implies (#[trigger] all[a]).tick
                <= (#[trigger] all[b]).tick by {
                if b < n0 {
                    assert(all[a] == all.subrange(0, n0 as int)[a]);
                    assert(all[b] == all.subrange(0, n0 as int)[b]);
                } else if a < n0 {
                    assert(all[a] == all.subrange(0, n0 as int)[a]);
                }
            }
        }
        if !halted && self.game.has_room_for_tick() {
            self.game.step();
        }
        assert(session_round(g0, bot_cmds@, human, m, mid, self.game));
        let diff = build_diff(&self.game, self.last_event_tick);
        self.last_event_tick = self.game.tick;
        let result = if self.game.is_over() {
            let res = ReplayResult {
                winner: self.game.winner,
                reason: self.game.win_reason,
                duration_ticks: self.game.tick,
            };
            self.replay.result = Some(res);
            Some(res)
        } else {
            None
        };
        SessionTick { diff, result }
    }
}

} // verus!
