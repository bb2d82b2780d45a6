//! Balance harness: batches of deterministic headless matchups turned into
//! win-rate tables (the committed baselines and the regression check on
//! simulation changes).
use vstd::prelude::*;

use crate::bot::Bot;
use crate::entity::{spec_unit_stats, unit_stats, EntityId, Player, Stance, Unit, UnitOrder, UnitType};
use crate::game::{batch_applied, Game, GameConfig, MAX_ENTITIES};
use crate::golden::clamp_tile;
use crate::headless::{count_won, lemma_count_push, played_series, run_match, MatchOutcome};
use crate::map::GameMap;
use crate::orders::Command;
use crate::scripted::{easy, hard, medium};
use crate::fixed::Pos;
use crate::serialize::{caught_up, lemma_steps_push, replay_start, steps_toward};

verus! {

/// Aggregate result of a matchup over a seed set.
#[derive(Clone, Copy, Debug, PartialEq)]
pub struct WinRate {
    pub matches: u32,
    pub a_wins: u32,
    pub b_wins: u32,
    pub draws: u32,
}

/// The ore value of a composition (unit type, count).
pub open spec fn spec_composition_cost(comp: Seq<(UnitType, usize)>) -> int
    decreases comp.len(),
{
    if comp.len() == 0 {
        0
    } else {
        spec_composition_cost(comp.drop_last()) + spec_unit_stats(comp.last().0).cost
            * comp.last().1
    }
}

/// The number of units of a composition.
pub open spec fn composition_size(comp: Seq<(UnitType, usize)>) -> int
    decreases comp.len(),
{
    if comp.len() == 0 {
        0
    } else {
        composition_size(comp.drop_last()) + comp.last().1
    }
}

proof fn lemma_cost_nonneg(comp: Seq<(UnitType, usize)>)
    ensures
        0 <= spec_composition_cost(comp),
        0 <= composition_size(comp),
    decreases comp.len(),
{
    if comp.len() > 0 {
        lemma_cost_nonneg(comp.drop_last());
        assert(spec_unit_stats(comp.last().0).cost * comp.last().1 >= 0) by (nonlinear_arith)
            requires
                spec_unit_stats(comp.last().0).cost > 0,
                comp.last().1 >= 0,
        ;
    }
}

proof fn lemma_cost_prefix(comp: Seq<(UnitType, usize)>, i: int)
    requires
        0 <= i <= comp.len(),
    ensures
        0 <= spec_composition_cost(comp.subrange(0, i)) <= spec_composition_cost(comp),
        0 <= composition_size(comp.subrange(0, i)) <= composition_size(comp),
    decreases comp.len() - i,
{
    lemma_cost_nonneg(comp.subrange(0, i));
    if i < comp.len() {
        lemma_cost_prefix(comp, i + 1);
        assert(comp.subrange(0, i + 1).drop_last() =~= comp.subrange(0, i));
        assert(comp.subrange(0, i + 1).last() == comp[i]);
        assert(spec_unit_stats(comp[i].0).cost * comp[i].1 >= 0) by (nonlinear_arith)
            requires
                spec_unit_stats(comp[i].0).cost > 0,
                comp[i].1 >= 0,
        ;
    } else {
        assert(comp.subrange(0, i) =~= comp);
    }
}

/// The ore value of a composition.
pub fn composition_cost(comp: &[(UnitType, usize)]) -> (c: i32)
    requires
        spec_composition_cost(comp@) <= i32::MAX,
    ensures
        c == spec_composition_cost(comp@),
{
    let mut total: i32 = 0;
    let mut i: usize = 0;
    while i < comp.len()
        invariant
            0 <= i <= comp@.len(),
            spec_composition_cost(comp@) <= i32::MAX,
            total == spec_composition_cost(comp@.subrange(0, i as int)),
        decreases comp.len() - i,
    {
        proof {
            lemma_cost_prefix(comp@, i + 1);
            assert(comp@.subrange(0, i + 1).drop_last() =~= comp@.subrange(0, i as int));
        }
        let (t, n) = comp[i];
        let cost = unit_stats(t).cost;
        proof {
            lemma_cost_prefix(comp@, i as int);
            assert(comp@.subrange(0, i + 1).last() == comp@[i as int]);
            assert(cost * n <= i32::MAX);
            assert(n <= cost * n) by (nonlinear_arith)
                requires
                    cost >= 1,
                    n >= 0,
            ;
        }
        total = total + cost * (n as i32);
        i += 1;
    }
    assert(comp@.subrange(0, comp@.len() as int) =~= comp@);
    total
}

/// `u` is an idle unit of `p` of type `ut` with id `id`, standing on `tile`
/// at full base HP, as the harness places it.
pub open spec fn army_unit(u: Unit, id: int, p: Player, ut: UnitType, tile: (u8, u8)) -> bool {
    &&& u.id == id
    &&& u.owner == p
    &&& u.utype == ut
    &&& u.pos == Pos::spec_from_tile(tile.0, tile.1)
    &&& u.hp == spec_unit_stats(ut).hp
    &&& u.max_hp == u.hp
    &&& u.stance == Stance::Aggressive
    &&& u.order == UnitOrder::Idle
    &&& u.carrying == 0
    &&& u.cooldown == 0
    &&& u.mining == 0
    &&& u.park_ticks == 0
    &&& u.path@.len() == 0
    &&& u.target is None
    &&& !u.fleeing
    &&& u.harvest_tile is None
    &&& u.refinery is None
}

/// The unit types of a composition, one per unit, in order.
pub open spec fn army_types(comp: Seq<(UnitType, usize)>) -> Seq<UnitType>
    decreases comp.len(),
{
    if comp.len() == 0 {
        seq![]
    } else {
        army_types(comp.drop_last()) + Seq::new(comp.last().1 as nat, |k: int| comp.last().0)
    }
}

proof fn lemma_army_len(comp: Seq<(UnitType, usize)>)
    ensures
        army_types(comp).len() == composition_size(comp),
    decreases comp.len(),
{
    if comp.len() > 0 {
        lemma_army_len(comp.drop_last());
    }
}

/// `v` clamped to a map coordinate.
pub open spec fn clamp_coord(v: int) -> int {
    if v < 0 {
        0
    } else if v > 63 {
        63
    } else {
        v
    }
}

/// The sign of `v`.
pub open spec fn sign(v: int) -> int {
    if v > 0 {
        1
    } else if v < 0 {
        -1
    } else {
        0
    }
}

/// Where the `i`-th unit of an army stands: rows of five, centred three
/// tiles from `hq` in the direction (`dx`, `dy`), clamped to the map.
pub open spec fn army_tile(hq: (u8, u8), dx: int, dy: int, i: int) -> (u8, u8) {
    (
        clamp_coord(hq.0 + dx * 3 + i % 5 - 2) as u8,
        clamp_coord(hq.1 + dy * 3 + i / 5 - 2) as u8,
    )
}

/// The ids of `p`'s units in `us`, in order.
pub open spec fn owned_ids(us: Seq<Unit>, p: Player) -> Seq<EntityId>
    decreases us.len(),
{
    if us.len() == 0 {
        seq![]
    } else if us.last().owner == p {
        owned_ids(us.drop_last(), p).push(us.last().id)
    } else {
        owned_ids(us.drop_last(), p)
    }
}

/// `mid` is `g` with the army `comp` of `p` appended to its units, placed
/// from `hq` toward (`dx`, `dy`), with fresh ids; nothing else changes.
pub open spec fn army_placed(
    g: Game,
    mid: Game,
    p: Player,
    comp: Seq<(UnitType, usize)>,
    hq: (u8, u8),
    dx: int,
    dy: int,
) -> bool {
    let n = g.units@.len() as int;
    let types = army_types(comp);
    &&& mid.units@.len() == n + types.len()
    &&& mid.units@.subrange(0, n) == g.units@
    &&& forall|k: int|
        0 <= k < types.len() ==> army_unit(
            #[trigger] mid.units@[n + k],
            g.next_id + k,
            p,
            types[k],
            army_tile(hq, dx, dy, k),
        )
    &&& mid.next_id == g.next_id + types.len()
    &&& mid == (Game { units: mid.units, next_id: mid.next_id, ..g })
}

/// `c` orders `p`'s units `ids` to attack-move to `waypoint`.
pub open spec fn attack_move(c: Command, p: Player, ids: Seq<EntityId>, waypoint: (u8, u8)) -> bool {
    c matches Command::MoveGroup { player: q, units, waypoint: w, stance } && q == p && units@ == ids
        && w == waypoint && stance == Stance::Aggressive
}

/// `new` is `mid` after `p` sends every unit it owns to `target` by one
/// attack-move order, where the counters have room for it.
pub open spec fn army_sent(mid: Game, new: Game, p: Player, target: (u8, u8)) -> bool {
    if mid.room_for_commands(p, 1) {
        exists|c: Command|
            #[trigger] attack_move(c, p, owned_ids(mid.units@, p), target) && batch_applied(
                mid,
                new,
                p,
                seq![c],
            )
    } else {
        new == mid
    }
}

/// `new` is `g` after the army `comp` of `p` spawns near `p`'s HQ and is
/// sent against the enemy HQ; with either HQ gone nothing happens.
pub open spec fn army_spawned(g: Game, new: Game, p: Player, comp: Seq<(UnitType, usize)>) -> bool {
    match (g.hq_idx(p), g.hq_idx(p.opponent())) {
        (Some(i), Some(j)) => {
            let hq = g.buildings@[i].tile;
            let enemy = g.buildings@[j].tile;
            exists|mid: Game|
                #[trigger] army_placed(
                    g,
                    mid,
                    p,
                    comp,
                    hq,
                    sign(enemy.0 - hq.0),
                    sign(enemy.1 - hq.1),
                ) && army_sent(mid, new, p, enemy)
        },
        _ => new == g,
    }
}

/// A micro matchup on the map of `seed`: a fresh game, `a` spawned for P0,
/// `b` for P1, then steps until the match is decided, the timeout plus a
/// margin is reached, or a tick has no room.
pub open spec fn matchup_run(
    seed: u64,
    config: GameConfig,
    a: Seq<(UnitType, usize)>,
    b: Seq<(UnitType, usize)>,
    g0: Game,
    g1: Game,
    g2: Game,
    g: Game,
) -> bool {
    &&& replay_start(seed, config, g0)
    &&& army_spawned(g0, g1, Player::P0, a)
    &&& army_spawned(g1, g2, Player::P1, b)
    &&& caught_up(g2, config.timeout_ticks + 1000, g)
}

/// Create an idle unit of `p` on `tile` at full base HP.
fn place_unit(g: &mut Game, p: Player, ut: UnitType, tile: (u8, u8))
    requires
        old(g).wf(),
        old(g).next_id < u32::MAX,
        old(g).units@.len() < MAX_ENTITIES,
    ensures
        final(g).wf(),
        final(g).units@.len() == old(g).units@.len() + 1,
        final(g).units@.subrange(0, old(g).units@.len() as int) == old(g).units@,
        army_unit(final(g).units@[old(g).units@.len() as int], old(g).next_id as int, p, ut, tile),
        final(g).next_id == old(g).next_id + 1,
        *final(g) == (Game { units: final(g).units, next_id: final(g).next_id, ..*old(g) }),
{
    let stats = unit_stats(ut);
    let id = g.next_id;
    g.next_id = id + 1;
    g.units.push(
        Unit {
            id,
            owner: p,
            utype: ut,
            pos: Pos::from_tile(tile.0, tile.1),
            hp: stats.hp,
            max_hp: stats.hp,
            stance: Stance::Aggressive,
            order: UnitOrder::Idle,
            carrying: 0,
            cooldown: 0,
            mining: 0,
            park_ticks: 0,
            path: Vec::new(),
            target: None,
            fleeing: false,
            harvest_tile: None,
            refinery: None,
        },
    );
    proof {
        assert forall|i: int| 0 <= i < g.units@.len() implies (#[trigger] g.units@[i]).wf() by {
            if i < old(g).units@.len() {
                assert(old(g).units@[i].wf());
            }
        }
        assert(g.units@.subrange(0, old(g).units@.len() as int) =~= old(g).units@);
    }
}

/// Spawn `comp` in rows of five three tiles from `player`'s HQ toward the
/// enemy HQ, then attack-move every unit of `player` onto the enemy HQ.
/// Does nothing without both HQs.
fn spawn_army(g: &mut Game, player: Player, comp: &[(UnitType, usize)])
    requires
        old(g).wf(),
        old(g).next_id + composition_size(comp@) < u32::MAX - 1,
        old(g).units@.len() + composition_size(comp@) < MAX_ENTITIES,
    ensures
        final(g).wf(),
        army_spawned(*old(g), *final(g), player, comp@),
        final(g).tick == old(g).tick,
        final(g).next_id <= old(g).next_id + composition_size(comp@) + 1,
        final(g).units@.len() <= old(g).units@.len() + composition_size(comp@),
{
    proof {
        lemma_cost_nonneg(comp@);
        lemma_army_len(comp@);
    }
    let hq = match g.hq(player) {
        Some(b) => b.tile,
        None => {
            return;
        },
    };
    let enemy = match g.hq(player.enemy()) {
        Some(b) => b.tile,
        None => {
            return;
        },
    };
    let dx: i32 = if enemy.0 > hq.0 {
        1
    } else if enemy.0 < hq.0 {
        -1
    } else {
        0
    };
    let dy: i32 = if enemy.1 > hq.1 {
        1
    } else if enemy.1 < hq.1 {
        -1
    } else {
        0
    };
    let ghost start = *g;
    let ghost n0 = start.units@.len() as int;
    let mut i: usize = 0;
    let mut c: usize = 0;
    while c < comp.len()
        invariant
            g.wf(),
            0 <= c <= comp@.len(),
            i == composition_size(comp@.subrange(0, c as int)),
            army_types(comp@.subrange(0, c as int)).len() == i,
            start.next_id + composition_size(comp@) < u32::MAX - 1,
            start.units@.len() + composition_size(comp@) < MAX_ENTITIES,
            n0 == start.units@.len(),
            g.next_id == start.next_id + i,
            g.units@.len() == n0 + i,
            g.units@.subrange(0, n0) == start.units@,
            forall|k: int|
                0 <= k < i ==> army_unit(
                    #[trigger] g.units@[n0 + k],
                    start.next_id + k,
                    player,
                    army_types(comp@.subrange(0, c as int))[k],
                    army_tile(hq, dx as int, dy as int, k),
                ),
            *g == (Game { units: g.units, next_id: g.next_id, ..start }),
            -1 <= dx <= 1,
            -1 <= dy <= 1,
        decreases comp.len() - c,
    {
        proof {
            lemma_cost_prefix(comp@, c + 1);
            lemma_army_len(comp@.subrange(0, c + 1));
            assert(comp@.subrange(0, c + 1).drop_last() =~= comp@.subrange(0, c as int));
        }
        let (utype, n) = comp[c];
        let ghost before = army_types(comp@.subrange(0, c as int));
        let mut k: usize = 0;
        while k < n
            invariant
                g.wf(),
                0 <= k <= n,
                i == composition_size(comp@.subrange(0, c as int)) + k,
                before.len() + k == i,
                composition_size(comp@.subrange(0, c as int)) + n <= composition_size(comp@),
                start.next_id + composition_size(comp@) < u32::MAX - 1,
                start.units@.len() + composition_size(comp@) < MAX_ENTITIES,
                n0 == start.units@.len(),
                g.next_id == start.next_id + i,
                g.units@.len() == n0 + i,
                g.units@.subrange(0, n0) == start.units@,
                forall|q: int|
                    0 <= q < i ==> army_unit(
                        #[trigger] g.units@[n0 + q],
                        start.next_id + q,
                        player,
                        (before + Seq::new(k as nat, |z: int| utype))[q],
                        army_tile(hq, dx as int, dy as int, q),
                    ),
                *g == (Game { units: g.units, next_id: g.next_id, ..start }),
                -1 <= dx <= 1,
                -1 <= dy <= 1,
            decreases n - k,
        {
            let col = (i % 5) as i32;
            let row = (i / 5) as i32;
            let tx = clamp_tile(hq.0 as i32 + dx * 3 + col - 2);
            let ty = clamp_tile(hq.1 as i32 + dy * 3 + row - 2);
            let ghost pre = g.units@;
            place_unit(g, player, utype, (tx, ty));
            proof {
                let prev = before + Seq::new(k as nat, |z: int| utype);
                let next = before + Seq::new((k + 1) as nat, |z: int| utype);
                assert(g.units@.subrange(0, n0) =~= start.units@) by {
                    assert(g.units@.subrange(0, pre.len() as int).subrange(0, n0) =~= g.units@.subrange(0, n0));
                }
                assert(army_tile(hq, dx as int, dy as int, i as int) == (tx, ty));
                assert forall|q: int| 0 <= q < i + 1 implies army_unit(
                    #[trigger] g.units@[n0 + q],
                    start.next_id + q,
                    player,
                    next[q],
                    army_tile(hq, dx as int, dy as int, q),
                ) by {
                    if q < i {
                        assert(g.units@[n0 + q] == pre[n0 + q]) by {
                            assert(g.units@.subrange(0, pre.len() as int)[n0 + q] == pre[n0 + q]);
                        }
                        assert(next[q] == prev[q]);
                    } else {
                        assert(next[q] == utype);
                    }
                }
            }
            i += 1;
            k += 1;
        }
        proof {
            let cc = comp@.subrange(0, c + 1);
            assert(cc.last() == comp@[c as int]);
            assert(army_types(cc) =~= before + Seq::new(n as nat, |z: int| utype));
        }
        c += 1;
    }
    assert(comp@.subrange(0, comp@.len() as int) =~= comp@);
    let ghost mid = *g;
    proof {
        assert(army_placed(start, mid, player, comp@, hq, dx as int, dy as int));
    }
    let mut units: Vec<EntityId> = Vec::new();
    let mut j: usize = 0;
    while j < g.units.len()
        invariant
            0 <= j <= g.units@.len(),
            units@ == owned_ids(g.units@.subrange(0, j as int), player),
        decreases g.units.len() - j,
    {
        assert(g.units@.subrange(0, j + 1).drop_last() =~= g.units@.subrange(0, j as int));
        if g.units[j].owner == player {
            units.push(g.units[j].id);
        }
        j += 1;
    }
    assert(g.units@.subrange(0, g.units@.len() as int) =~= g.units@);
    if g.has_room_for_commands(player, 1) {
        let cmd = Command::MoveGroup { player, units, waypoint: enemy, stance: Stance::Aggressive };
        let ghost gc = cmd;
        let cmds = vec![cmd];
        assert(cmds@ =~= seq![gc]);
        g.apply_commands(player, cmds.as_slice());
        assert(attack_move(gc, player, owned_ids(mid.units@, player), enemy));
    }
    proof {
        assert(sign(enemy.0 - hq.0) == dx as int);
        assert(sign(enemy.1 - hq.1) == dy as int);
        assert(army_sent(mid, *g, player, enemy));
        assert(start == *old(g));
        assert(army_placed(*old(g), mid, player, comp@, hq, sign(enemy.0 - hq.0), sign(enemy.1 - hq.1)));
    }
}

/// One army-versus-army matchup of equal cost on the map of `seed`: each
/// side's army spawns near its HQ and attack-moves on the enemy HQ; the
/// match runs until it is decided or the timeout plus a margin. The winner
/// (`None` for a draw).
pub fn micro_matchup(seed: u64, a: &[(UnitType, usize)], b: &[(UnitType, usize)], config: &GameConfig) -> (r:
    Option<Player>)
    requires
        spec_composition_cost(a@) == spec_composition_cost(b@),
        config.wf(),
        config.timeout_ticks <= i32::MAX - 1000,
        composition_size(a@) + composition_size(b@) + 2 < MAX_ENTITIES,
    ensures
        exists|g0: Game, g1: Game, g2: Game, g: Game|
            #[trigger] matchup_run(seed, *config, a@, b@, g0, g1, g2, g) && r == g.winner,
{
    proof {
        lemma_cost_nonneg(a@);
        lemma_cost_nonneg(b@);
    }
    let mut g = Game::new(GameMap::generate(seed), *config);
    let ghost g0 = g;
    spawn_army(&mut g, Player::P0, a);
    let ghost g1 = g;
    spawn_army(&mut g, Player::P1, b);
    let ghost g2 = g;
    let ghost mut chain: Seq<Game> = seq![g];
    let cap: i32 = config.timeout_ticks + 1000;
    let mut guard: i32 = 0;
    while !g.is_over() && guard < cap
        invariant
            g.wf(),
            guard >= 0,
            guard == g.tick,
            cap == config.timeout_ticks + 1000,
            config.timeout_ticks <= i32::MAX - 1000,
            steps_toward(chain, cap as int),
            chain[0] == g2,
            chain[chain.len() - 1] == g,
        ensures
            g.wf(),
            steps_toward(chain, cap as int),
            chain[0] == g2,
            chain[chain.len() - 1] == g,
            g.spec_is_over() || g.tick >= cap || !g.room_for_tick(),
        decreases cap - guard,
    {
        if !g.has_room_for_tick() {
            break;
        }
        g.step();
        proof {
            lemma_steps_push(chain, cap as int, g);
            chain = chain.push(g);
        }
        guard += 1;
    }
    proof {
        assert(caught_up(g2, config.timeout_ticks + 1000, g));
        assert(replay_start(seed, *config, g0));
        assert(matchup_run(seed, *config, a@, b@, g0, g1, g2, g));
    }
    g.winner
}

/// `w` is a winner that the micro matchup of `a` against `b` on the map of
/// `seed` can have.
pub open spec fn matchup_winner(
    seed: u64,
    config: GameConfig,
    a: Seq<(UnitType, usize)>,
    b: Seq<(UnitType, usize)>,
    w: Option<Player>,
) -> bool {
    exists|g0: Game, g1: Game, g2: Game, g: Game|
        #[trigger] matchup_run(seed, config, a, b, g0, g1, g2, g) && w == g.winner
}

/// How many of `ws` are `w`.
pub open spec fn tally(ws: Seq<Option<Player>>, w: Option<Player>) -> nat
    decreases ws.len(),
{
    if ws.len() == 0 {
        0
    } else {
        tally(ws.drop_last(), w) + if ws.last() == w {
            1nat
        } else {
            0nat
        }
    }
}

proof fn lemma_tally_push(ws: Seq<Option<Player>>, x: Option<Player>)
    ensures
        forall|w: Option<Player>|
            #[trigger] tally(ws.push(x), w) == tally(ws, w) + if x == w {
                1nat
            } else {
                0nat
            },
{
    assert(ws.push(x).drop_last() =~= ws);
}

/// `r` counts the winners `ws`: P0's wins, P1's wins and draws.
pub open spec fn counts(r: WinRate, ws: Seq<Option<Player>>) -> bool {
    &&& r.matches == ws.len()
    &&& r.a_wins == tally(ws, Some(Player::P0))
    &&& r.b_wins == tally(ws, Some(Player::P1))
    &&& r.draws == tally(ws, None)
}

/// `r` is a win rate that the micro matchups of `a` against `b` on `seeds`
/// can give.
pub open spec fn matchup_rate(
    seeds: Seq<u64>,
    config: GameConfig,
    a: Seq<(UnitType, usize)>,
    b: Seq<(UnitType, usize)>,
    r: WinRate,
) -> bool {
    exists|ws: Seq<Option<Player>>|
        #[trigger] counts(r, ws) && ws.len() == seeds.len() && forall|i: int|
            0 <= i < seeds.len() ==> #[trigger] matchup_winner(seeds[i], config, a, b, ws[i])
}

/// `r` is a win rate that headless matches on `seeds` can give.
pub open spec fn series_rate(seeds: Seq<u64>, config: GameConfig, r: WinRate) -> bool {
    exists|outs: Seq<MatchOutcome>|
        #[trigger] played_series(seeds, config, outs) && r.matches == seeds.len() && r.a_wins
            == count_won(outs, Some(Player::P0)) && r.b_wins == count_won(outs, Some(Player::P1))
            && r.draws == count_won(outs, None)
}

/// Win rate of `a` (P0) against `b` (P1) over a seed set.
pub fn micro_matchup_rate(
    seeds: &[u64],
    a: &[(UnitType, usize)],
    b: &[(UnitType, usize)],
    config: &GameConfig,
) -> (r: WinRate)
    requires
        seeds@.len() <= u32::MAX,
        spec_composition_cost(a@) == spec_composition_cost(b@),
        config.wf(),
        config.timeout_ticks <= i32::MAX - 1000,
        composition_size(a@) + composition_size(b@) + 2 < MAX_ENTITIES,
    ensures
        r.matches == seeds@.len(),
        r.a_wins + r.b_wins + r.draws == r.matches,
        matchup_rate(seeds@, *config, a@, b@, r),
{
    let mut rate = WinRate { matches: seeds.len() as u32, a_wins: 0, b_wins: 0, draws: 0 };
    let ghost mut ws: Seq<Option<Player>> = seq![];
    let mut i: usize = 0;
    while i < seeds.len()
        invariant
            0 <= i <= seeds@.len(),
            seeds@.len() <= u32::MAX,
            rate.matches == seeds@.len(),
            rate.a_wins + rate.b_wins + rate.draws == i,
            ws.len() == i,
            rate.a_wins == tally(ws, Some(Player::P0)),
            rate.b_wins == tally(ws, Some(Player::P1)),
            rate.draws == tally(ws, None),
            forall|k: int| 0 <= k < i ==> #[trigger] matchup_winner(seeds@[k], *config, a@, b@, ws[k]),
            spec_composition_cost(a@) == spec_composition_cost(b@),
            config.wf(),
            config.timeout_ticks <= i32::MAX - 1000,
            composition_size(a@) + composition_size(b@) + 2 < MAX_ENTITIES,
        decreases seeds.len() - i,
    {
        let w = micro_matchup(seeds[i], a, b, config);
        proof {
            lemma_tally_push(ws, w);
            ws = ws.push(w);
            assert(matchup_winner(seeds@[i as int], *config, a@, b@, ws[i as int]));
        }
        match w {
            Some(Player::P0) => {
                rate.a_wins = rate.a_wins + 1;
            },
            Some(Player::P1) => {
                rate.b_wins = rate.b_wins + 1;
            },
            None => {
                rate.draws = rate.draws + 1;
            },
        }
        i += 1;
    }
    proof {
        assert(counts(rate, ws));
    }
    rate
}

/// Win rate of the bots `make_a` builds (P0) against those `make_b` builds
/// (P1) over a seed set, one fresh pair per seed.
pub fn bot_tier<FA: Fn() -> Box<dyn Bot>, FB: Fn() -> Box<dyn Bot>>(
    seeds: &[u64],
    config: &GameConfig,
    make_a: FA,
    make_b: FB,
) -> (r: WinRate)
    requires
        seeds@.len() <= u32::MAX,
        config.wf(),
        config.timeout_ticks <= i32::MAX - 1000,
        call_requires(make_a, ()),
        call_requires(make_b, ()),
    ensures
        r.matches == seeds@.len(),
        r.a_wins + r.b_wins + r.draws == r.matches,
        series_rate(seeds@, *config, r),
{
    let mut rate = WinRate { matches: seeds.len() as u32, a_wins: 0, b_wins: 0, draws: 0 };
    let ghost mut outs: Seq<MatchOutcome> = seq![];
    let mut i: usize = 0;
    while i < seeds.len()
        invariant
            0 <= i <= seeds@.len(),
            seeds@.len() <= u32::MAX,
            rate.matches == seeds@.len(),
            rate.a_wins + rate.b_wins + rate.draws == i,
            played_series(seeds@.take(i as int), *config, outs),
            rate.a_wins == count_won(outs, Some(Player::P0)),
            rate.b_wins == count_won(outs, Some(Player::P1)),
            rate.draws == count_won(outs, None),
            config.wf(),
            config.timeout_ticks <= i32::MAX - 1000,
            call_requires(make_a, ()),
            call_requires(make_b, ()),
        decreases seeds.len() - i,
    {
        let mut a = make_a();
        let mut b = make_b();
        let outcome = run_match(seeds[i], config, &mut *a, &mut *b);
        proof {
            lemma_count_push(outs, outcome);
            assert(seeds@.take(i + 1) =~= seeds@.take(i as int).push(seeds@[i as int]));
            outs = outs.push(outcome);
        }
        match outcome.winner {
            Some(Player::P0) => {
                rate.a_wins = rate.a_wins + 1;
            },
            Some(Player::P1) => {
                rate.b_wins = rate.b_wins + 1;
            },
            None => {
                rate.draws = rate.draws + 1;
            },
        }
        i += 1;
    }
    proof {
        assert(seeds@.take(seeds@.len() as int) =~= seeds@);
    }
    rate
}

/// Match durations (ticks) of a bot matchup over a seed set, in seed order.
pub fn bot_tier_lengths<FA: Fn() -> Box<dyn Bot>, FB: Fn() -> Box<dyn Bot>>(
    seeds: &[u64],
    config: &GameConfig,
    make_a: FA,
    make_b: FB,
) -> (r: Vec<i32>)
    requires
        config.wf(),
        config.timeout_ticks <= i32::MAX - 1000,
        call_requires(make_a, ()),
        call_requires(make_b, ()),
    ensures
        r@.len() == seeds@.len(),
        forall|k: int| 0 <= k < r@.len() ==> 0 <= #[trigger] r@[k] <= crate::headless::tick_cap(*config),
        forall|k: int| 0 <= k < r@.len() ==> #[trigger] r@[k] <= crate::headless::match_cap(*config),
        exists|outs: Seq<MatchOutcome>|
            #[trigger] played_series(seeds@, *config, outs) && forall|k: int|
                0 <= k < r@.len() ==> #[trigger] r@[k] == outs[k].duration_ticks,
{
    let mut out: Vec<i32> = Vec::new();
    let ghost mut outs: Seq<MatchOutcome> = seq![];
    let mut i: usize = 0;
    while i < seeds.len()
        invariant
            0 <= i <= seeds@.len(),
            out@.len() == i,
            played_series(seeds@.take(i as int), *config, outs),
            forall|k: int| 0 <= k < out@.len() ==> #[trigger] out@[k] == outs[k].duration_ticks,
            forall|k: int| 0 <= k < out@.len() ==> 0 <= #[trigger] out@[k] <= crate::headless::tick_cap(*config),
            forall|k: int| 0 <= k < out@.len() ==> #[trigger] out@[k] <= crate::headless::match_cap(*config),
            config.wf(),
            config.timeout_ticks <= i32::MAX - 1000,
            call_requires(make_a, ()),
            call_requires(make_b, ()),
        decreases seeds.len() - i,
    {
        let mut a = make_a();
        let mut b = make_b();
        let outcome = run_match(seeds[i], config, &mut *a, &mut *b);
        proof {
            assert(seeds@.take(i + 1) =~= seeds@.take(i as int).push(seeds@[i as int]));
            outs = outs.push(outcome);
        }
        out.push(outcome.duration_ticks);
        i += 1;
    }
    proof {
        assert(seeds@.take(seeds@.len() as int) =~= seeds@);
    }
    out
}

/// Insert `x` into ascending `s` after every element at most `x`.
pub open spec fn i32_slot(s: Seq<i32>, x: i32) -> int
    decreases s.len(),
{
    if s.len() == 0 {
        0
    } else if s.last() <= x {
        s.len() as int
    } else {
        i32_slot(s.drop_last(), x)
    }
}

/// `s` sorted ascending (insertion sort).
pub open spec fn sorted_i32(s: Seq<i32>) -> Seq<i32>
    decreases s.len(),
{
    if s.len() == 0 {
        Seq::empty()
    } else {
        let prev = sorted_i32(s.drop_last());
        prev.insert(i32_slot(prev, s.last()), s.last())
    }
}

/// Sorting keeps the length and yields an ascending list.
pub proof fn lemma_sorted_i32(s: Seq<i32>)
    ensures
        sorted_i32(s).len() == s.len(),
        forall|i: int, j: int|
            0 <= i <= j < s.len() ==> (#[trigger] sorted_i32(s)[i]) <= (#[trigger] sorted_i32(s)[j]),
    decreases s.len(),
{
    if s.len() > 0 {
        lemma_sorted_i32(s.drop_last());
        let prev = sorted_i32(s.drop_last());
        let x = s.last();
        let k = i32_slot(prev, x);
        lemma_i32_slot(prev, x);
        let r = prev.insert(k, x);
        assert forall|i: int, j: int| 0 <= i <= j < r.len() implies (#[trigger] r[i]) <= (
        #[trigger] r[j]) by {
            if i < k && j < k {
                assert(r[i] == prev[i] && r[j] == prev[j]);
            } else if i < k && j == k {
                assert(r[i] == prev[i]);
            } else if i < k {
                assert(r[i] == prev[i] && r[j] == prev[j - 1]);
            } else if i == k && j > k {
                assert(r[j] == prev[j - 1]);
            } else if i > k {
                assert(r[i] == prev[i - 1] && r[j] == prev[j - 1]);
            }
        }
    }
}

proof fn lemma_i32_slot(s: Seq<i32>, x: i32)
    requires
        forall|i: int, j: int| 0 <= i <= j < s.len() ==> (#[trigger] s[i]) <= (#[trigger] s[j]),
    ensures
        0 <= i32_slot(s, x) <= s.len(),
        forall|i: int| 0 <= i < i32_slot(s, x) ==> (#[trigger] s[i]) <= x,
        forall|i: int| i32_slot(s, x) <= i < s.len() ==> (#[trigger] s[i]) > x,
    decreases s.len(),
{
    if s.len() > 0 && s.last() > x {
        assert forall|i: int, j: int| 0 <= i <= j < s.drop_last().len() implies (
        #[trigger] s.drop_last()[i]) <= (#[trigger] s.drop_last()[j]) by {
            assert(s.drop_last()[i] == s[i] && s.drop_last()[j] == s[j]);
        }
        lemma_i32_slot(s.drop_last(), x);
        assert forall|i: int| 0 <= i < i32_slot(s, x) implies (#[trigger] s[i]) <= x by {
            assert(s[i] == s.drop_last()[i]);
        }
        assert forall|i: int| i32_slot(s, x) <= i < s.len() implies (#[trigger] s[i]) > x by {
            if i < s.len() - 1 {
                assert(s[i] == s.drop_last()[i]);
            }
        }
    } else if s.len() > 0 {
        assert forall|i: int| 0 <= i < i32_slot(s, x) implies (#[trigger] s[i]) <= x by {
            assert(s[i] <= s[s.len() - 1]);
        }
    }
}

/// The median of a non-empty list: the middle element (index `len / 2`) of
/// the list sorted ascending.
pub fn median(xs: Vec<i32>) -> (m: i32)
    requires
        xs@.len() > 0,
    ensures
        m == sorted_i32(xs@)[(xs@.len() / 2) as int],
{
    let mut sorted: Vec<i32> = Vec::new();
    let mut i: usize = 0;
    while i < xs.len()
        invariant
            0 <= i <= xs@.len(),
            sorted@ == sorted_i32(xs@.subrange(0, i as int)),
        decreases xs.len() - i,
    {
        let x = xs[i];
        let ghost model = sorted@;
        assert(xs@.subrange(0, i + 1).drop_last() =~= xs@.subrange(0, i as int));
        let mut k: usize = sorted.len();
        assert(model.subrange(0, k as int) =~= model);
        while k > 0 && sorted[k - 1] > x
            invariant
                0 <= k <= sorted@.len(),
                sorted@ == model,
                i32_slot(model, x) == i32_slot(model.subrange(0, k as int), x),
            decreases k,
        {
            assert(model.subrange(0, k - 1) =~= model.subrange(0, k as int).drop_last());
            k -= 1;
        }
        sorted.insert(k, x);
        i += 1;
    }
    assert(xs@.subrange(0, xs@.len() as int) =~= xs@);
    proof {
        lemma_sorted_i32(xs@);
    }
    sorted[xs.len() / 2]
}

/// The three unit counter matchups at equal cost, the counter as side `a`:
/// four tanks against twelve infantry, three artillery against four tanks,
/// twelve infantry against three artillery.
pub fn counter_matrix(seeds: &[u64], config: &GameConfig) -> (r: Vec<(&'static str, WinRate)>)
    requires
        seeds@.len() <= u32::MAX,
        config.wf(),
        config.timeout_ticks <= i32::MAX - 1000,
    ensures
        r@.len() == 3,
        forall|k: int| 0 <= k < 3 ==> (#[trigger] r@[k]).1.matches == seeds@.len(),
        r@[0].0@ == "tank>infantry"@,
        r@[1].0@ == "artillery>tank"@,
        r@[2].0@ == "infantry>artillery"@,
        matchup_rate(
            seeds@,
            *config,
            seq![(UnitType::Tank, 4usize)],
            seq![(UnitType::Infantry, 12usize)],
            r@[0].1,
        ),
        matchup_rate(
            seeds@,
            *config,
            seq![(UnitType::Artillery, 3usize)],
            seq![(UnitType::Tank, 4usize)],
            r@[1].1,
        ),
        matchup_rate(
            seeds@,
            *config,
            seq![(UnitType::Infantry, 12usize)],
            seq![(UnitType::Artillery, 3usize)],
            r@[2].1,
        ),
{
    let tank4 = [(UnitType::Tank, 4usize)];
    let inf12 = [(UnitType::Infantry, 12usize)];
    let art3 = [(UnitType::Artillery, 3usize)];
    proof {
        assert(composition_size(Seq::<(UnitType, usize)>::empty()) == 0);
        assert(spec_composition_cost(Seq::<(UnitType, usize)>::empty()) == 0);
        assert(tank4@ =~= seq![(UnitType::Tank, 4usize)]);
        assert(inf12@ =~= seq![(UnitType::Infantry, 12usize)]);
        assert(art3@ =~= seq![(UnitType::Artillery, 3usize)]);
        assert(tank4@.drop_last() =~= Seq::<(UnitType, usize)>::empty());
        assert(inf12@.drop_last() =~= Seq::<(UnitType, usize)>::empty());
        assert(art3@.drop_last() =~= Seq::<(UnitType, usize)>::empty());
        assert(composition_size(tank4@) == 4);
        assert(composition_size(inf12@) == 12);
        assert(composition_size(art3@) == 3);
        assert(spec_composition_cost(tank4@) == 600);
        assert(spec_composition_cost(inf12@) == 600);
        assert(spec_composition_cost(art3@) == 600);
    }
    let tank_vs_inf = micro_matchup_rate(seeds, &tank4, &inf12, config);
    let art_vs_tank = micro_matchup_rate(seeds, &art3, &tank4, config);
    let inf_vs_art = micro_matchup_rate(seeds, &inf12, &art3, config);
    let mut out: Vec<(&'static str, WinRate)> = Vec::new();
    out.push(("tank>infantry", tank_vs_inf));
    out.push(("artillery>tank", art_vs_tank));
    out.push(("infantry>artillery", inf_vs_art));
    out
}

fn make_easy() -> (b: Box<dyn Bot>) {
    Box::new(easy())
}

fn make_medium() -> (b: Box<dyn Bot>) {
    Box::new(medium())
}

fn make_hard() -> (b: Box<dyn Bot>) {
    Box::new(hard())
}

/// The scripted bot tiers: medium against easy, hard against medium.
pub fn bot_tiers(seeds: &[u64], config: &GameConfig) -> (r: Vec<(&'static str, WinRate)>)
    requires
        seeds@.len() <= u32::MAX,
        config.wf(),
        config.timeout_ticks <= i32::MAX - 1000,
    ensures
        r@.len() == 2,
        forall|k: int| 0 <= k < 2 ==> (#[trigger] r@[k]).1.matches == seeds@.len(),
        r@[0].0@ == "medium>easy"@,
        r@[1].0@ == "hard>medium"@,
        series_rate(seeds@, *config, r@[0].1),
        series_rate(seeds@, *config, r@[1].1),
{
    let medium_easy = bot_tier(seeds, config, || make_medium(), || make_easy());
    let hard_medium = bot_tier(seeds, config, || make_hard(), || make_medium());
    let mut out: Vec<(&'static str, WinRate)> = Vec::new();
    out.push(("medium>easy", medium_easy));
    out.push(("hard>medium", hard_medium));
    out
}

} // verus!
