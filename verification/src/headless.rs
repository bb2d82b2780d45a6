//! Headless match execution: run two [`Bot`]s to completion and report the
//! outcome, the shared evaluation path of scenario tests, scripted matchups
//! and fitness evaluation.
use vstd::prelude::*;

use crate::bot::{all_issued_by, Bot};
use crate::entity::Player;
use crate::fixed::COMMAND_TICK;
use crate::game::{batch_applied, batch_run, Game, GameConfig, WinReason};
use crate::golden::{command_chain, issued};
use crate::map::GameMap;
use crate::orders::{Command, CommandError};
use crate::serialize::{
    caught_up, replay_from, replay_start, steps_toward, Replay, ReplayResult, TimedCommand, FORMAT_VERSION,
};
use crate::tick::step_outcome;

verus! {

/// The outcome of a completed match.
#[derive(Clone, Copy, Debug, PartialEq, Eq)]
pub struct MatchOutcome {
    pub winner: Option<Player>,
    pub reason: Option<WinReason>,
    pub duration_ticks: i32,
}

impl MatchOutcome {
    /// Whether `p` won this match.
    pub fn won_by(&self, p: Player) -> (r: bool)
        ensures
            r == (self.winner == Some(p)),
    {
        match self.winner {
            Some(w) => w == p,
            None => false,
        }
    }
}

/// A match outcome plus the final remaining value of each side.
#[derive(Clone, Copy, Debug)]
pub struct DetailedOutcome {
    pub outcome: MatchOutcome,
    pub p0_value: i32,
    pub p1_value: i32,
}

/// Win counts of a head-to-head series (`a` plays P0, `b` plays P1).
#[derive(Clone, Copy, Debug, PartialEq, Eq)]
pub struct SeriesReport {
    pub matches: u32,
    pub a_wins: u32,
    pub b_wins: u32,
    pub draws: u32,
}

/// The tick at which a match is cut off: the timeout plus a margin, or a
/// large deadlock guard when the configuration has no timeout.
pub open spec fn tick_cap(config: GameConfig) -> int {
    if config.timeout_ticks > 0 {
        config.timeout_ticks + 1000
    } else {
        1_000_000
    }
}

/// The last tick a match reaches: its timeout (at least one tick).
pub open spec fn match_cap(config: GameConfig) -> int {
    if config.timeout_ticks >= 1 {
        config.timeout_ticks as int
    } else {
        1
    }
}

/// The recorded commands are in tick order and each is recorded under the
/// player that issued it.
pub open spec fn well_logged(cmds: Seq<TimedCommand>) -> bool {
    &&& forall|i: int, j: int|
        0 <= i <= j < cmds.len() ==> (#[trigger] cmds[i]).tick <= (#[trigger] cmds[j]).tick
    &&& forall|k: int| 0 <= k < cmds.len() ==> (#[trigger] cmds[k]).command.issuer() == cmds[k].player
}

/// `entries` are the commands `cmds`, in order, each logged at tick `t` as
/// player `p`'s.
pub open spec fn stamped(entries: Seq<TimedCommand>, cmds: Seq<Command>, t: int, p: Player) -> bool {
    &&& entries.len() == cmds.len()
    &&& forall|k: int|
        0 <= k < cmds.len() ==> entries[k].tick == t && entries[k].player == p && (
        #[trigger] cmds[k]).reissued(entries[k].command, cmds[k].issuer())
}

/// `new` is `g` after `p`'s batch `cmds`: unchanged for an empty batch, else
/// the counters had room and every command went through validation and the
/// budget in order.
pub open spec fn applied_batch(g: Game, new: Game, p: Player, cmds: Seq<Command>) -> bool {
    if cmds.len() == 0 {
        new == g
    } else {
        g.room_for_commands(p, cmds.len() as int) && batch_applied(g, new, p, cmds)
    }
}

/// P0's batch `c0` finds no room in the counters.
pub open spec fn first_halts(g: Game, c0: Seq<Command>) -> bool {
    c0.len() > 0 && !g.room_for_commands(Player::P0, c0.len() as int)
}

/// P1's batch `c1`, after P0's batch left `m`, finds no room.
pub open spec fn second_halts(g: Game, c0: Seq<Command>, c1: Seq<Command>, m: Game) -> bool {
    !first_halts(g, c0) && c1.len() > 0 && !m.room_for_commands(Player::P1, c1.len() as int)
}

/// The round at `g` stops the match: a batch or the step has no room.
pub open spec fn round_halts(g: Game, c0: Seq<Command>, c1: Seq<Command>, m: Game, mid: Game) -> bool {
    first_halts(g, c0) || second_halts(g, c0, c1, m) || !mid.room_for_tick()
}

/// One round of a headless match at `g`: on a command tick P0's commands
/// `c0` are applied (giving `m`), then P1's `c1` (giving `mid`), and the
/// match steps to `next`. Off a command tick neither bot is asked. A batch
/// or step without room is not applied and the match stops where it is;
/// P1 is not asked once P0's batch stopped it.
pub open spec fn headless_round(
    g: Game,
    c0: Seq<Command>,
    c1: Seq<Command>,
    m: Game,
    mid: Game,
    next: Game,
) -> bool {
    &&& g.tick % COMMAND_TICK != 0 ==> c0.len() == 0 && c1.len() == 0
    &&& all_issued_by(c0, Player::P0)
    &&& all_issued_by(c1, Player::P1)
    &&& first_halts(g, c0) ==> c1.len() == 0
    &&& if first_halts(g, c0) {
        m == g
    } else {
        applied_batch(g, m, Player::P0, c0)
    }
    &&& if first_halts(g, c0) || second_halts(g, c0, c1, m) {
        mid == m
    } else {
        applied_batch(m, mid, Player::P1, c1)
    }
    &&& if round_halts(g, c0, c1, m, mid) {
        next == mid
    } else {
        step_outcome(mid, next) && next.tick == mid.tick + 1
    }
    &&& m.tick == g.tick && mid.tick == g.tick
    &&& m.spec_is_over() == g.spec_is_over() && mid.spec_is_over() == g.spec_is_over()
}

/// Round `i` of a trace: it moves `gs[i]` to `gs[i + 1]`, and its commands
/// are logged at `offs[i]`, P0's first, at the round's tick.
pub open spec fn round_at(
    c0s: Seq<Seq<Command>>,
    c1s: Seq<Seq<Command>>,
    gs: Seq<Game>,
    ms: Seq<Game>,
    mids: Seq<Game>,
    offs: Seq<int>,
    log: Seq<TimedCommand>,
    i: int,
) -> bool {
    let o = offs[i];
    let o1 = o + c0s[i].len();
    &&& headless_round(gs[i], c0s[i], c1s[i], ms[i], mids[i], gs[i + 1])
    &&& offs[i + 1] == o1 + c1s[i].len()
    &&& 0 <= o
    &&& offs[i + 1] <= log.len()
    &&& stamped(log.subrange(o, o1), c0s[i], gs[i].tick as int, Player::P0)
    &&& stamped(log.subrange(o1, offs[i + 1]), c1s[i], gs[i].tick as int, Player::P1)
    &&& !gs[i].spec_is_over()
}

/// The first rounds of a headless match on the map of `seed`: `gs` are the
/// games at the start of each round (a fresh game first), `c0s` and `c1s`
/// what the bots returned, and `log` holds exactly those commands, round by
/// round. Every round but the last went on to the next.
#[verifier::opaque]
pub open spec fn match_trace(
    seed: u64,
    config: GameConfig,
    c0s: Seq<Seq<Command>>,
    c1s: Seq<Seq<Command>>,
    gs: Seq<Game>,
    ms: Seq<Game>,
    mids: Seq<Game>,
    offs: Seq<int>,
    log: Seq<TimedCommand>,
) -> bool {
    let n = c0s.len() as int;
    &&& c1s.len() == n && ms.len() == n && mids.len() == n
    &&& gs.len() == n + 1 && offs.len() == n + 1
    &&& replay_start(seed, config, gs[0])
    &&& offs[0] == 0
    &&& offs[n] == log.len()
    &&& forall|i: int| 0 <= i < n ==> #[trigger] round_at(c0s, c1s, gs, ms, mids, offs, log, i)
    &&& forall|i: int| 0 <= i < n ==> gs[i].tick < #[trigger] tick_cap(gs[i].config)
    &&& forall|i: int|
        0 <= i < n - 1 ==> !round_halts(gs[i], c0s[i], c1s[i], #[trigger] ms[i], mids[i])
}

/// The trace has ended: the match is decided, at its tick cap, or its last
/// round stopped it.
pub open spec fn trace_ends(
    config: GameConfig,
    c0s: Seq<Seq<Command>>,
    c1s: Seq<Seq<Command>>,
    gs: Seq<Game>,
    ms: Seq<Game>,
    mids: Seq<Game>,
) -> bool {
    let n = c0s.len() as int;
    ||| gs[n].spec_is_over()
    ||| gs[n].tick >= tick_cap(config)
    ||| n > 0 && round_halts(gs[n - 1], c0s[n - 1], c1s[n - 1], ms[n - 1], mids[n - 1])
}

/// A whole headless match on the map of `seed` with `config` ends in `g`
/// with input log `log`, for some commands of the two bots.
pub open spec fn headless_match(seed: u64, config: GameConfig, log: Seq<TimedCommand>, g: Game) -> bool {
    exists|
        c0s: Seq<Seq<Command>>,
        c1s: Seq<Seq<Command>>,
        gs: Seq<Game>,
        ms: Seq<Game>,
        mids: Seq<Game>,
        offs: Seq<int>,
    |
        #[trigger] match_trace(seed, config, c0s, c1s, gs, ms, mids, offs, log) && trace_ends(
            config,
            c0s,
            c1s,
            gs,
            ms,
            mids,
        ) && gs[c0s.len() as int] == g
}

/// `o` reports the end of the match `g`.
pub open spec fn reports(o: MatchOutcome, g: Game) -> bool {
    &&& o.winner == g.winner
    &&& o.reason == g.win_reason
    &&& o.duration_ticks == g.tick
}

/// `o` is an outcome that a headless match on the map of `seed` can have.
pub open spec fn playable(seed: u64, config: GameConfig, o: MatchOutcome) -> bool {
    exists|log: Seq<TimedCommand>, g: Game| #[trigger] headless_match(seed, config, log, g) && reports(o, g)
}

/// `outs` are outcomes that the matches on `seeds`, in order, can have.
pub open spec fn played_series(seeds: Seq<u64>, config: GameConfig, outs: Seq<MatchOutcome>) -> bool {
    &&& outs.len() == seeds.len()
    &&& forall|i: int| 0 <= i < seeds.len() ==> #[trigger] playable(seeds[i], config, outs[i])
}

/// How many of `outs` have winner `w`.
pub open spec fn count_won(outs: Seq<MatchOutcome>, w: Option<Player>) -> nat
    decreases outs.len(),
{
    if outs.len() == 0 {
        0
    } else {
        count_won(outs.drop_last(), w) + if outs.last().winner == w {
            1nat
        } else {
            0nat
        }
    }
}

/// Counting one more outcome adds one to the count of its winner.
pub proof fn lemma_count_push(outs: Seq<MatchOutcome>, o: MatchOutcome)
    ensures
        forall|w: Option<Player>|
            #[trigger] count_won(outs.push(o), w) == count_won(outs, w) + if o.winner == w {
                1nat
            } else {
                0nat
            },
{
    assert(outs.push(o).drop_last() =~= outs);
}

/// A match cut off at its timeout goes to the side with more remaining
/// value, and is drawn on a tie.
pub open spec fn timeout_verdict(d: DetailedOutcome) -> bool {
    d.outcome.reason == Some(WinReason::Timeout) ==> {
        &&& (d.outcome.winner == Some(Player::P0)) == (d.p0_value > d.p1_value)
        &&& (d.outcome.winner == Some(Player::P1)) == (d.p0_value < d.p1_value)
        &&& (d.outcome.winner is None) == (d.p0_value == d.p1_value)
    }
}

/// `chain` runs the simulation from `a` to `b`, each step taken while the
/// match is on and with room for a tick.
pub open spec fn step_run(chain: Seq<Game>, a: Game, b: Game) -> bool {
    &&& chain.len() >= 1
    &&& chain[0] == a
    &&& chain[chain.len() - 1] == b
    &&& forall|k: int|
        0 <= k < chain.len() - 1 ==> !(#[trigger] chain[k]).spec_is_over() && chain[k].room_for_tick()
            && step_outcome(chain[k], chain[k + 1])
}

/// A command keeps the clock and the result of the match.
proof fn lemma_outcome_keeps_clock(a: Game, b: Game, p: Player, c: Command, r: Result<(), CommandError>)
    requires
        a.command_outcome(b, p, c, r),
    ensures
        b.tick == a.tick,
        b.spec_is_over() == a.spec_is_over(),
{
}

/// Along a batch every game has the clock and the result of the first.
proof fn lemma_batch_clock(
    a: Game,
    b: Game,
    p: Player,
    cmds: Seq<Command>,
    rs: Seq<Result<(), CommandError>>,
    states: Seq<Game>,
    k: int,
)
    requires
        batch_run(a, b, p, cmds, rs, states),
        0 <= k <= cmds.len(),
    ensures
        states[k].tick == a.tick,
        states[k].spec_is_over() == a.spec_is_over(),
    decreases k,
{
    if k > 0 {
        lemma_batch_clock(a, b, p, cmds, rs, states, k - 1);
        let j = k - 1;
        assert(states[j].command_outcome(states[j + 1], p, cmds[j], rs[j]));
        lemma_outcome_keeps_clock(states[j], states[j + 1], p, cmds[j], rs[j]);
    }
}

/// A batch of `p`'s commands applied at tick `t`, logged as `entries`, is
/// what re-running those entries does; re-running the rest goes on from
/// where the batch left off.
proof fn lemma_batch_replays(
    a: Game,
    b: Game,
    p: Player,
    cmds: Seq<Command>,
    rs: Seq<Result<(), CommandError>>,
    states: Seq<Game>,
    entries: Seq<TimedCommand>,
    rest: Seq<TimedCommand>,
    m: Game,
    k: int,
)
    requires
        batch_run(a, b, p, cmds, rs, states),
        all_issued_by(cmds, p),
        !a.spec_is_over(),
        stamped(entries, cmds, a.tick as int, p),
        replay_from(b, rest, m),
        0 <= k <= cmds.len(),
    ensures
        replay_from(states[k], entries.skip(k) + rest, m),
    decreases cmds.len() - k,
{
    let n = cmds.len() as int;
    if k == n {
        assert(entries.skip(k) + rest =~= rest);
    } else {
        lemma_batch_replays(a, b, p, cmds, rs, states, entries, rest, m, k + 1);
        lemma_batch_clock(a, b, p, cmds, rs, states, k);
        let log = entries.skip(k) + rest;
        let x = states[k];
        let tc = log[0];
        assert(tc == entries[k]);
        assert(log.drop_first() =~= entries.skip(k + 1) + rest);
        assert(steps_toward(seq![x], tc.tick as int));
        assert(caught_up(x, tc.tick as int, x));
        assert(x.command_outcome(states[k + 1], p, cmds[k], rs[k]));
        assert(x.room_for_commands(p, n - k));
        let c = cmds[k];
        assert(c.issuer() == p);
        assert(tc.command.reissued(c, tc.command.issuer()));
        assert(command_chain(seq![x, states[k + 1]], p, seq![c], seq![rs[k]]));
        assert(issued(x, states[k + 1], p, seq![c]));
    }
}

/// A step taken before the first entry of a log is part of catching up to
/// that entry's tick.
proof fn lemma_replay_prepend_step(x: Game, y: Game, log: Seq<TimedCommand>, m: Game)
    requires
        step_outcome(x, y),
        !x.spec_is_over(),
        x.room_for_tick(),
        log.len() > 0,
        x.tick < log[0].tick,
        replay_from(y, log, m),
    ensures
        replay_from(x, log, m),
{
    let t = log[0].tick as int;
    let b = choose|b: Game|
        #[trigger] caught_up(y, t, b) && if b.spec_is_over() {
            replay_from(b, log.drop_first(), m)
        } else if b.tick < log[0].tick || !b.room_for_commands(log[0].player, 1) {
            m == b
        } else {
            exists|c: Command, mid: Game|
                log[0].command.reissued(c, log[0].command.issuer()) && #[trigger] issued(
                    b,
                    mid,
                    log[0].player,
                    seq![c],
                ) && replay_from(mid, log.drop_first(), m)
        };
    let ch = choose|chain: Seq<Game>|
        #[trigger] steps_toward(chain, t) && chain[0] == y && chain[chain.len() - 1] == b && (
        b.spec_is_over() || b.tick >= t || !b.room_for_tick());
    let ch2 = seq![x] + ch;
    assert forall|i: int| 0 <= i < ch2.len() - 1 implies !(#[trigger] ch2[i]).spec_is_over() && ch2[i].tick
        < t && ch2[i].room_for_tick() && step_outcome(ch2[i], ch2[i + 1]) by {
        if i > 0 {
            assert(ch2[i] == ch[i - 1]);
            assert(ch2[i + 1] == ch[i]);
        }
    }
    assert(steps_toward(ch2, t));
    assert(caught_up(x, t, b));
}

/// From round `i` on, the trace is what re-running its log from `gs[i]`
/// and then stepping does.
proof fn lemma_rounds_replay(
    seed: u64,
    config: GameConfig,
    c0s: Seq<Seq<Command>>,
    c1s: Seq<Seq<Command>>,
    gs: Seq<Game>,
    ms: Seq<Game>,
    mids: Seq<Game>,
    offs: Seq<int>,
    log: Seq<TimedCommand>,
    i: int,
)
    requires
        match_trace(seed, config, c0s, c1s, gs, ms, mids, offs, log),
        c0s.len() > 0 ==> !round_halts(
            gs[c0s.len() - 1],
            c0s[c0s.len() - 1],
            c1s[c0s.len() - 1],
            ms[c0s.len() - 1],
            mids[c0s.len() - 1],
        ),
        0 <= i <= c0s.len(),
    ensures
        exists|mid: Game, chain: Seq<Game>|
            replay_from(gs[i], log.skip(offs[i]), mid) && #[trigger] step_run(
                chain,
                mid,
                gs[c0s.len() as int],
            ),
        log.skip(offs[i]).len() > 0 ==> log.skip(offs[i])[0].tick >= gs[i].tick,
    decreases c0s.len() - i,
{
    reveal(match_trace);
    let n = c0s.len() as int;
    if i == n {
        assert(log.skip(offs[i]).len() == 0);
        assert(replay_from(gs[i], log.skip(offs[i]), gs[i]));
        assert(step_run(seq![gs[i]], gs[i], gs[n]));
    } else {
        lemma_rounds_replay(seed, config, c0s, c1s, gs, ms, mids, offs, log, i + 1);
        assert(round_at(c0s, c1s, gs, ms, mids, offs, log, i));
        let g = gs[i];
        let m = ms[i];
        let mi = mids[i];
        let c0 = c0s[i];
        let c1 = c1s[i];
        let t = g.tick as int;
        let o = offs[i];
        let o1 = o + c0.len();
        let o2 = offs[i + 1];
        let e0 = log.subrange(o, o1);
        let e1 = log.subrange(o1, o2);
        let l2 = log.skip(o2);
        assert(!round_halts(g, c0, c1, m, mi)) by {
            if i < n - 1 {
                assert(!round_halts(gs[i], c0s[i], c1s[i], ms[i], mids[i]));
            }
        }
        assert(!g.spec_is_over());
        assert(log.skip(o) =~= e0 + (e1 + l2));
        let (mid1, ch1) = choose|mid: Game, chain: Seq<Game>|
            replay_from(gs[i + 1], l2, mid) && #[trigger] step_run(chain, mid, gs[n]);
        // after the round's commands: step into round i + 1
        let (m2, ch2) = if l2.len() == 0 {
            assert(mid1 == gs[i + 1]);
            let ch2 = seq![mi] + ch1;
            assert forall|k: int| 0 <= k < ch2.len() - 1 implies !(#[trigger] ch2[k]).spec_is_over()
                && ch2[k].room_for_tick() && step_outcome(ch2[k], ch2[k + 1]) by {
                if k > 0 {
                    assert(ch2[k] == ch1[k - 1]);
                    assert(ch2[k + 1] == ch1[k]);
                }
            }
            assert(replay_from(mi, l2, mi));
            (mi, ch2)
        } else {
            lemma_replay_prepend_step(mi, gs[i + 1], l2, mid1);
            (mid1, ch1)
        };
        assert(replay_from(mi, l2, m2) && step_run(ch2, m2, gs[n]));
        // P1's batch
        if c1.len() == 0 {
            assert(e1 + l2 =~= l2);
        } else {
            let (rs, sts) = choose|rs: Seq<Result<(), CommandError>>, states: Seq<Game>|
                #[trigger] batch_run(m, mi, Player::P1, c1, rs, states);
            lemma_batch_replays(m, mi, Player::P1, c1, rs, sts, e1, l2, m2, 0);
            assert(e1.skip(0) =~= e1);
        }
        assert(replay_from(m, e1 + l2, m2));
        // P0's batch
        if c0.len() == 0 {
            assert(e0 + (e1 + l2) =~= e1 + l2);
        } else {
            let (rs, sts) = choose|rs: Seq<Result<(), CommandError>>, states: Seq<Game>|
                #[trigger] batch_run(g, m, Player::P0, c0, rs, states);
            lemma_batch_replays(g, m, Player::P0, c0, rs, sts, e0, e1 + l2, m2, 0);
            assert(e0.skip(0) =~= e0);
        }
        assert(replay_from(g, log.skip(o), m2));
        if log.skip(o).len() > 0 {
            if c0.len() > 0 {
                assert(log.skip(o)[0] == e0[0]);
                assert(stamped(e0, c0, t, Player::P0));
                let c = c0[0];
                assert(e0[0].tick == t);
            } else if c1.len() > 0 {
                assert(log.skip(o)[0] == e1[0]);
                assert(stamped(e1, c1, t, Player::P1));
                let c = c1[0];
                assert(e1[0].tick == t);
            } else {
                assert(log.skip(o)[0] == l2[0]);
                assert(gs[i + 1].tick == mi.tick + 1);
                assert(mi.tick == g.tick);
            }
        }
    }
}

/// Replaying a match's input log can reproduce it: for a headless match
/// that ended by the rules (decided, or at its tick cap) rather than being
/// cut short by a counter, re-running its log from a fresh game on the same
/// map (as `replay_to_game` does) and then stepping while the match is on
/// reaches the match's final game.
pub proof fn law_replay_reaches_match(
    seed: u64,
    config: GameConfig,
    c0s: Seq<Seq<Command>>,
    c1s: Seq<Seq<Command>>,
    gs: Seq<Game>,
    ms: Seq<Game>,
    mids: Seq<Game>,
    offs: Seq<int>,
    log: Seq<TimedCommand>,
)
    requires
        match_trace(seed, config, c0s, c1s, gs, ms, mids, offs, log),
        c0s.len() > 0 ==> !round_halts(
            gs[c0s.len() - 1],
            c0s[c0s.len() - 1],
            c1s[c0s.len() - 1],
            ms[c0s.len() - 1],
            mids[c0s.len() - 1],
        ),
    ensures
        exists|g0: Game, mid: Game, chain: Seq<Game>|
            #![trigger replay_from(g0, log, mid), step_run(chain, mid, gs[c0s.len() as int])]
            replay_start(seed, config, g0) && replay_from(g0, log, mid) && step_run(
                chain,
                mid,
                gs[c0s.len() as int],
            ),
{
    lemma_rounds_replay(seed, config, c0s, c1s, gs, ms, mids, offs, log, 0);
    reveal(match_trace);
    assert(log.skip(0) =~= log);
}

/// The empty trace: a fresh game and no rounds yet.
proof fn lemma_trace_start(seed: u64, config: GameConfig, g0: Game)
    requires
        replay_start(seed, config, g0),
    ensures
        match_trace(seed, config, seq![], seq![], seq![g0], seq![], seq![], seq![0int], seq![]),
{
    reveal(match_trace);
}

/// A trace grows by one round whose commands were appended to the log.
proof fn lemma_trace_push(
    seed: u64,
    config: GameConfig,
    c0s: Seq<Seq<Command>>,
    c1s: Seq<Seq<Command>>,
    gs: Seq<Game>,
    ms: Seq<Game>,
    mids: Seq<Game>,
    offs: Seq<int>,
    log: Seq<TimedCommand>,
    c0: Seq<Command>,
    c1: Seq<Command>,
    m: Game,
    mid: Game,
    next: Game,
    log2: Seq<TimedCommand>,
)
    requires
        match_trace(seed, config, c0s, c1s, gs, ms, mids, offs, log),
        c0s.len() > 0 ==> !round_halts(
            gs[c0s.len() - 1],
            c0s[c0s.len() - 1],
            c1s[c0s.len() - 1],
            ms[c0s.len() - 1],
            mids[c0s.len() - 1],
        ),
        headless_round(gs[c0s.len() as int], c0, c1, m, mid, next),
        !gs[c0s.len() as int].spec_is_over(),
        gs[c0s.len() as int].tick < tick_cap(gs[c0s.len() as int].config),
        log2.len() == log.len() + c0.len() + c1.len(),
        log2.subrange(0, log.len() as int) == log,
        stamped(
            log2.subrange(log.len() as int, (log.len() + c0.len()) as int),
            c0,
            gs[c0s.len() as int].tick as int,
            Player::P0,
        ),
        stamped(
            log2.subrange((log.len() + c0.len()) as int, log2.len() as int),
            c1,
            gs[c0s.len() as int].tick as int,
            Player::P1,
        ),
    ensures
        match_trace(
            seed,
            config,
            c0s.push(c0),
            c1s.push(c1),
            gs.push(next),
            ms.push(m),
            mids.push(mid),
            offs.push(log2.len() as int),
            log2,
        ),
{
    reveal(match_trace);
    let n = c0s.len() as int;
    let c0s2 = c0s.push(c0);
    let c1s2 = c1s.push(c1);
    let gs2 = gs.push(next);
    let ms2 = ms.push(m);
    let mids2 = mids.push(mid);
    let offs2 = offs.push(log2.len() as int);
    assert forall|i: int| 0 <= i < n + 1 implies #[trigger] round_at(
        c0s2,
        c1s2,
        gs2,
        ms2,
        mids2,
        offs2,
        log2,
        i,
    ) by {
        if i < n {
            assert(round_at(c0s, c1s, gs, ms, mids, offs, log, i));
            let o = offs[i];
            let o1 = o + c0s[i].len();
            assert(offs[i + 1] <= log.len()) by {
                assert(round_at(c0s, c1s, gs, ms, mids, offs, log, i));
            }
            assert(log2.subrange(0, log.len() as int).subrange(o, o1) =~= log2.subrange(o, o1));
            assert(log2.subrange(0, log.len() as int).subrange(o1, offs[i + 1]) =~= log2.subrange(
                o1,
                offs[i + 1],
            ));
        } else {
            assert(offs[n] == log.len());
        }
    }
    assert forall|i: int| 0 <= i < n + 1 implies gs2[i].tick < #[trigger] tick_cap(gs2[i].config) by {
        if i < n {
            assert(gs[i].tick < tick_cap(gs[i].config));
        }
    }
    assert forall|i: int| 0 <= i < n implies !round_halts(
        gs2[i],
        c0s2[i],
        c1s2[i],
        #[trigger] ms2[i],
        mids2[i],
    ) by {
        if i < n - 1 {
            assert(!round_halts(gs[i], c0s[i], c1s[i], ms[i], mids[i]));
        }
    }
}

/// Record every command of `cmds`, issued by `p` at `tick`.
fn record_all(replay: &mut Replay, tick: i32, p: Player, cmds: &Vec<Command>)
    requires
        well_logged(old(replay).commands@),
        forall|k: int| 0 <= k < old(replay).commands@.len() ==> (#[trigger] old(replay).commands@[k]).tick <= tick,
        forall|k: int| 0 <= k < cmds@.len() ==> (#[trigger] cmds@[k]).issuer() == p,
    ensures
        final(replay).commands@.len() == old(replay).commands@.len() + cmds@.len(),
        final(replay).commands@.subrange(0, old(replay).commands@.len() as int)
            == old(replay).commands@,
        forall|k: int|
            0 <= k < cmds@.len() ==> final(replay).commands@[old(replay).commands@.len() + k].tick
                == tick && final(replay).commands@[old(replay).commands@.len() + k].player == p
                && (#[trigger] cmds@[k]).reissued(
                final(replay).commands@[old(replay).commands@.len() + k].command,
                cmds@[k].issuer(),
            ),
        stamped(
            final(replay).commands@.subrange(
                old(replay).commands@.len() as int,
                final(replay).commands@.len() as int,
            ),
            cmds@,
            tick as int,
            p,
        ),
        well_logged(final(replay).commands@),
        forall|k: int| 0 <= k < final(replay).commands@.len() ==> (#[trigger] final(replay).commands@[k]).tick <= tick,
        final(replay).version == old(replay).version,
        final(replay).map_seed == old(replay).map_seed,
        final(replay).config == old(replay).config,
        final(replay).result == old(replay).result,
{
    let ghost n0 = replay.commands@.len();
    let mut i: usize = 0;
    while i < cmds.len()
        invariant
            0 <= i <= cmds@.len(),
            replay.commands@.len() == n0 + i,
            replay.commands@.subrange(0, n0 as int) == old(replay).commands@,
            n0 == old(replay).commands@.len(),
            forall|k: int|
                0 <= k < i ==> replay.commands@[n0 + k].tick == tick && replay.commands@[n0
                    + k].player == p && (#[trigger] cmds@[k]).reissued(
                    replay.commands@[n0 + k].command,
                    cmds@[k].issuer(),
                ),
            well_logged(replay.commands@),
            forall|k: int| 0 <= k < replay.commands@.len() ==> (#[trigger] replay.commands@[k]).tick <= tick,
            forall|k: int| 0 <= k < cmds@.len() ==> (#[trigger] cmds@[k]).issuer() == p,
            replay.version == old(replay).version,
            replay.map_seed == old(replay).map_seed,
            replay.config == old(replay).config,
            replay.result == old(replay).result,
        decreases cmds.len() - i,
    {
        let c = cmds[i].clone();
        assert(cmds@[i as int].issuer() == p);
        let ghost cc = c;
        let ghost old_cmds = replay.commands@;
        assert(cmds@[i as int].reissued(cc, p));
        replay.record(tick, p, c);
        proof {
            assert(replay.commands@.subrange(0, n0 as int) =~= old(replay).commands@);
            assert(replay.commands@[n0 + i].command == cc);
            assert forall|k: int| 0 <= k < i + 1 implies replay.commands@[n0 + k].tick == tick
                && replay.commands@[n0 + k].player == p && (#[trigger] cmds@[k]).reissued(
                replay.commands@[n0 + k].command,
                cmds@[k].issuer(),
            ) by {
                if k < i {
                    assert(replay.commands@[n0 + k] == old_cmds[n0 + k]);
                }
            }
        }
        i += 1;
    }
    proof {
        let all = replay.commands@;
        let new = all.subrange(n0 as int, all.len() as int);
        assert forall|k: int| 0 <= k < cmds@.len() implies new[k].tick == tick && new[k].player == p
            && (#[trigger] cmds@[k]).reissued(new[k].command, cmds@[k].issuer()) by {
            assert(new[k] == all[n0 + k]);
        }
    }
}

/// Run a match to completion and return the outcome with the full input log
/// (map seed, every command, result). Both bots are polled every command
/// tick, P0 first; their commands go through the normal validation and
/// budget path. The match ends when it is decided, at the tick cap, or if a
/// counter would leave its range.
pub fn run_match_with_replay<A: Bot + ?Sized, B: Bot + ?Sized>(
    seed: u64,
    config: &GameConfig,
    a: &mut A,
    b: &mut B,
) -> (r: (
    DetailedOutcome,
    Replay,
))
    requires
        config.wf(),
        config.timeout_ticks <= i32::MAX - 1000,
    ensures
        r.1.version == FORMAT_VERSION,
        r.1.map_seed == seed,
        r.1.config == *config,
        r.1.result == Some(
            ReplayResult {
                winner: r.0.outcome.winner,
                reason: r.0.outcome.reason,
                duration_ticks: r.0.outcome.duration_ticks,
            },
        ),
        well_logged(r.1.commands@),
        forall|k: int|
            0 <= k < r.1.commands@.len() ==> (#[trigger] r.1.commands@[k]).tick
                <= r.0.outcome.duration_ticks,
        0 <= r.0.outcome.duration_ticks <= tick_cap(*config),
        r.0.outcome.duration_ticks <= match_cap(*config),
        exists|g: Game|
            #[trigger] headless_match(seed, *config, r.1.commands@, g) && reports(r.0.outcome, g)
                && r.0.p0_value == g.spec_remaining_value(Player::P0) && r.0.p1_value
                == g.spec_remaining_value(Player::P1),
        timeout_verdict(r.0),
{
    let mut game = Game::new(GameMap::generate(seed), *config);
    let mut replay = Replay::new(seed, *config);
    let max_ticks: i32 = if config.timeout_ticks > 0 {
        config.timeout_ticks + 1000
    } else {
        1_000_000
    };
    let ghost mut c0s: Seq<Seq<Command>> = seq![];
    let ghost mut c1s: Seq<Seq<Command>> = seq![];
    let ghost mut gs: Seq<Game> = seq![game];
    let ghost mut ms: Seq<Game> = seq![];
    let ghost mut mids: Seq<Game> = seq![];
    let ghost mut offs: Seq<int> = seq![0int];
    proof {
        lemma_trace_start(seed, *config, game);
        assert(replay.commands@ =~= seq![]);
    }
    let mut halted = false;
    while !halted && !game.is_over() && game.tick < max_ticks
        invariant
            game.wf(),
            max_ticks == tick_cap(*config),
            0 <= game.tick <= max_ticks,
            replay.version == FORMAT_VERSION,
            replay.map_seed == seed,
            replay.config == *config,
            replay.result is None,
            well_logged(replay.commands@),
            forall|k: int| 0 <= k < replay.commands@.len() ==> (#[trigger] replay.commands@[k]).tick <= game.tick,
            game.config == *config,
            game.tick <= match_cap(*config),
            !game.spec_is_over() && game.tick >= 1 ==> game.tick < config.timeout_ticks,
            match_trace(seed, *config, c0s, c1s, gs, ms, mids, offs, replay.commands@),
            gs.len() == c0s.len() + 1,
            c1s.len() == c0s.len(),
            ms.len() == c0s.len(),
            mids.len() == c0s.len(),
            gs[c0s.len() as int] == game,
            c0s.len() > 0 ==> (halted == round_halts(
                gs[c0s.len() - 1],
                c0s[c0s.len() - 1],
                c1s[c0s.len() - 1],
                ms[c0s.len() - 1],
                mids[c0s.len() - 1],
            )),
            c0s.len() == 0 ==> !halted,
            game.spec_is_over() ==> game.winner == game.rules_winner() && game.win_reason == Some(
                game.rules_reason(),
            ),
            !game.spec_is_over() ==> game.win_reason is None,
        decreases max_ticks - game.tick + (if halted { 0int } else { 1int }),
    {
        let ghost g_start = game;
        let ghost log_start = replay.commands@;
        let t = game.tick;
        let command_tick = game.is_command_tick();
        let mut p0: Vec<Command> = Vec::new();
        let mut p1: Vec<Command> = Vec::new();
        if command_tick {
            p0 = a.decide(&game, Player::P0);
            record_all(&mut replay, t, Player::P0, &p0);
            if p0.len() > 0 {
                if game.has_room_for_commands(Player::P0, p0.len()) {
                    game.apply_commands(Player::P0, p0.as_slice());
                } else {
                    halted = true;
                }
            }
        }
        let ghost m = game;
        let ghost log_mid = replay.commands@;
        if command_tick && !halted {
            p1 = b.decide(&game, Player::P1);
            record_all(&mut replay, t, Player::P1, &p1);
            if p1.len() > 0 {
                if game.has_room_for_commands(Player::P1, p1.len()) {
                    game.apply_commands(Player::P1, p1.as_slice());
                } else {
                    halted = true;
                }
            }
        }
        let ghost mid = game;
        if !halted {
            if game.has_room_for_tick() {
                game.step();
            } else {
                halted = true;
            }
        }
        proof {
            assert(log_mid.subrange(log_start.len() as int, log_mid.len() as int) =~= replay.commands@.subrange(
                log_start.len() as int,
                log_mid.len() as int,
            )) by {
                if log_mid.len() < replay.commands@.len() {
                    assert(replay.commands@.subrange(0, log_mid.len() as int).subrange(
                        log_start.len() as int,
                        log_mid.len() as int,
                    ) =~= replay.commands@.subrange(log_start.len() as int, log_mid.len() as int));
                }
            }
            assert(replay.commands@.subrange(0, log_start.len() as int) =~= log_start) by {
                if log_mid.len() < replay.commands@.len() {
                    assert(replay.commands@.subrange(0, log_mid.len() as int).subrange(
                        0,
                        log_start.len() as int,
                    ) =~= replay.commands@.subrange(0, log_start.len() as int));
                }
            }
            assert(headless_round(g_start, p0@, p1@, m, mid, game));
            assert(halted == round_halts(g_start, p0@, p1@, m, mid));
            lemma_trace_push(
                seed,
                *config,
                c0s,
                c1s,
                gs,
                ms,
                mids,
                offs,
                log_start,
                p0@,
                p1@,
                m,
                mid,
                game,
                replay.commands@,
            );
            c0s = c0s.push(p0@);
            c1s = c1s.push(p1@);
            gs = gs.push(game);
            ms = ms.push(m);
            mids = mids.push(mid);
            offs = offs.push(replay.commands@.len() as int);
            assert(c0s[c0s.len() - 1] == p0@);
            assert(c1s[c0s.len() - 1] == p1@);
            assert(ms[c0s.len() - 1] == m);
            assert(mids[c0s.len() - 1] == mid);
            assert(gs[c0s.len() - 1] == g_start);
        }
    }
    proof {
        assert(trace_ends(*config, c0s, c1s, gs, ms, mids));
        assert(headless_match(seed, *config, replay.commands@, game));
    }
    replay.result = Some(
        ReplayResult { winner: game.winner, reason: game.win_reason, duration_ticks: game.tick },
    );
    let outcome = DetailedOutcome {
        outcome: MatchOutcome {
            winner: game.winner,
            reason: game.win_reason,
            duration_ticks: game.tick,
        },
        p0_value: game.remaining_value(Player::P0),
        p1_value: game.remaining_value(Player::P1),
    };
    (outcome, replay)
}

/// Like [`run_match`], but also reports the final remaining value of each
/// side.
pub fn run_match_detailed<A: Bot + ?Sized, B: Bot + ?Sized>(
    seed: u64,
    config: &GameConfig,
    a: &mut A,
    b: &mut B,
) -> (r: DetailedOutcome)
    requires
        config.wf(),
        config.timeout_ticks <= i32::MAX - 1000,
    ensures
        0 <= r.outcome.duration_ticks <= tick_cap(*config),
        r.outcome.duration_ticks <= match_cap(*config),
        timeout_verdict(r),
        exists|log: Seq<TimedCommand>, g: Game|
            #[trigger] headless_match(seed, *config, log, g) && reports(r.outcome, g) && r.p0_value
                == g.spec_remaining_value(Player::P0) && r.p1_value == g.spec_remaining_value(
                Player::P1,
            ),
{
    let (d, replay) = run_match_with_replay(seed, config, a, b);
    d
}

/// Run a single match to completion between two bots (`a` plays P0).
pub fn run_match<A: Bot + ?Sized, B: Bot + ?Sized>(
    seed: u64,
    config: &GameConfig,
    a: &mut A,
    b: &mut B,
) -> (r: MatchOutcome)
    requires
        config.wf(),
        config.timeout_ticks <= i32::MAX - 1000,
    ensures
        0 <= r.duration_ticks <= tick_cap(*config),
        r.duration_ticks <= match_cap(*config),
        playable(seed, *config, r),
{
    run_match_detailed(seed, config, a, b).outcome
}

/// Run a head-to-head series, one match per seed with fresh bots, and count
/// the results.
pub fn series<FA: Fn() -> Box<dyn Bot>, FB: Fn() -> Box<dyn Bot>>(
    seeds: &[u64],
    config: &GameConfig,
    make_a: FA,
    make_b: FB,
) -> (r: SeriesReport)
    requires
        config.wf(),
        config.timeout_ticks <= i32::MAX - 1000,
        seeds@.len() <= u32::MAX,
        call_requires(make_a, ()),
        call_requires(make_b, ()),
    ensures
        r.matches == seeds@.len(),
        r.a_wins + r.b_wins + r.draws == r.matches,
        exists|outs: Seq<MatchOutcome>|
            #[trigger] played_series(seeds@, *config, outs) && r.a_wins == count_won(
                outs,
                Some(Player::P0),
            ) && r.b_wins == count_won(outs, Some(Player::P1)) && r.draws == count_won(outs, None),
{
    let mut report = SeriesReport { matches: 0, a_wins: 0, b_wins: 0, draws: 0 };
    let ghost mut outs: Seq<MatchOutcome> = seq![];
    let mut i: usize = 0;
    while i < seeds.len()
        invariant
            0 <= i <= seeds@.len(),
            seeds@.len() <= u32::MAX,
            config.wf(),
            config.timeout_ticks <= i32::MAX - 1000,
            call_requires(make_a, ()),
            call_requires(make_b, ()),
            report.matches == i,
            report.a_wins + report.b_wins + report.draws == report.matches,
            played_series(seeds@.take(i as int), *config, outs),
            report.a_wins == count_won(outs, Some(Player::P0)),
            report.b_wins == count_won(outs, Some(Player::P1)),
            report.draws == count_won(outs, None),
        decreases seeds.len() - i,
    {
        let mut a = make_a();
        let mut b = make_b();
        let outcome = run_match(seeds[i], config, &mut *a, &mut *b);
        proof {
            lemma_count_push(outs, outcome);
            assert(seeds@.take(i + 1) =~= seeds@.take(i as int).push(seeds@[i as int]));
            outs = outs.push(outcome);
        }
        match outcome.winner {
            Some(Player::P0) => {
                report.a_wins = report.a_wins + 1;
            },
            Some(Player::P1) => {
                report.b_wins = report.b_wins + 1;
            },
            None => {
                report.draws = report.draws + 1;
            },
        }
        report.matches = report.matches + 1;
        i += 1;
    }
    proof {
        assert(seeds@.take(seeds@.len() as int) =~= seeds@);
    }
    report
}

} // verus!
