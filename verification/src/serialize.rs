//! Replays: a replay is the input log of a match (map seed, configuration,
//! the ordered commands and the result), a few kilobytes rather than a state
//! dump. The format is versioned from the first release.
use vstd::prelude::*;

use crate::entity::Player;
use crate::fixed::MATCH_TIMEOUT_TICKS;
use crate::game::{fresh_game, Game, GameConfig, WinReason};
use crate::golden::issued;
use crate::tick::step_outcome;
use crate::map::GameMap;
use crate::orders::Command;

verus! {

pub const FORMAT_VERSION: u32 = 1;

/// A command stamped with the tick at which it was issued.
#[derive(Debug, PartialEq)]
pub struct TimedCommand {
    pub tick: i32,
    pub player: Player,
    pub command: Command,
}

impl TimedCommand {
    /// `other` is a copy of this entry: same tick and player, and the same
    /// command in the same issuer's name.
    pub open spec fn same(self, other: TimedCommand) -> bool {
        &&& other.tick == self.tick
        &&& other.player == self.player
        &&& self.command.reissued(other.command, self.command.issuer())
    }
}

impl Clone for TimedCommand {
    fn clone(&self) -> (r: Self)
        ensures
            self.same(r),
    {
        TimedCommand { tick: self.tick, player: self.player, command: self.command.clone() }
    }
}

/// How a recorded match ended.
#[derive(Clone, Copy, Debug, PartialEq)]
pub struct ReplayResult {
    pub winner: Option<Player>,
    pub reason: Option<WinReason>,
    pub duration_ticks: i32,
}

/// The replay (input log) format, versioned so old replays stay re-runnable.
#[derive(Debug)]
pub struct Replay {
    pub version: u32,
    pub map_seed: u64,
    pub config: GameConfig,
    pub commands: Vec<TimedCommand>,
    pub result: Option<ReplayResult>,
}

impl Replay {
    /// An empty log for a match on the map of `map_seed`.
    pub fn new(map_seed: u64, config: GameConfig) -> (r: Replay)
        ensures
            r.version == FORMAT_VERSION,
            r.map_seed == map_seed,
            r.config == config,
            r.commands@.len() == 0,
            r.result is None,
    {
        Replay { version: FORMAT_VERSION, map_seed, config, commands: Vec::new(), result: None }
    }

    /// Append a command issued by `player` at `tick`.
    pub fn record(&mut self, tick: i32, player: Player, command: Command)
        ensures
            final(self).commands@ == old(self).commands@.push(
                TimedCommand { tick, player, command },
            ),
            final(self).version == old(self).version,
            final(self).map_seed == old(self).map_seed,
            final(self).config == old(self).config,
            final(self).result == old(self).result,
    {
        self.commands.push(TimedCommand { tick, player, command });
    }
}

/// `chain` runs the simulation tick by tick from its first game, each step
/// taken while the match is on, short of tick `t` and with room for a tick.
pub open spec fn steps_toward(chain: Seq<Game>, t: int) -> bool {
    &&& chain.len() >= 1
    &&& forall|i: int|
        0 <= i < chain.len() - 1 ==> !(#[trigger] chain[i]).spec_is_over() && chain[i].tick < t
            && chain[i].room_for_tick() && step_outcome(chain[i], chain[i + 1])
}

/// A further step, taken while the match is on, short of `t` and with room,
/// extends a run of steps.
pub proof fn lemma_steps_push(chain: Seq<Game>, t: int, g: Game)
    requires
        steps_toward(chain, t),
        !chain[chain.len() - 1].spec_is_over(),
        chain[chain.len() - 1].tick < t,
        chain[chain.len() - 1].room_for_tick(),
        step_outcome(chain[chain.len() - 1], g),
    ensures
        steps_toward(chain.push(g), t),
        chain.push(g)[0] == chain[0],
        chain.push(g).len() == chain.len() + 1,
{
    let c2 = chain.push(g);
    assert forall|i: int| 0 <= i < c2.len() - 1 implies !(#[trigger] c2[i]).spec_is_over() && c2[i].tick
        < t && c2[i].room_for_tick() && step_outcome(c2[i], c2[i + 1]) by {
        if i < chain.len() - 1 {
            assert(c2[i] == chain[i] && c2[i + 1] == chain[i + 1]);
        }
    }
}

/// `b` is `a` stepped until the match is over, tick `t` is reached or no
/// further tick has room.
pub open spec fn caught_up(a: Game, t: int, b: Game) -> bool {
    exists|chain: Seq<Game>|
        #[trigger] steps_toward(chain, t) && chain[0] == a && chain[chain.len() - 1] == b && (
        b.spec_is_over() || b.tick >= t || !b.room_for_tick())
}

/// `g` is what re-running the log `log` from `a` gives: for each entry,
/// step up to its tick, then apply a copy of its command for its player
/// while the match is on; the run stops early only where a counter has no
/// room left.
pub open spec fn replay_from(a: Game, log: Seq<TimedCommand>, g: Game) -> bool
    decreases log.len(),
{
    if log.len() == 0 {
        g == a
    } else {
        let tc = log[0];
        exists|b: Game|
            #[trigger] caught_up(a, tc.tick as int, b) && if b.spec_is_over() {
                replay_from(b, log.drop_first(), g)
            } else if b.tick < tc.tick || !b.room_for_commands(tc.player, 1) {
                g == b
            } else {
                exists|c: Command, mid: Game|
                    tc.command.reissued(c, tc.command.issuer()) && #[trigger] issued(
                        b,
                        mid,
                        tc.player,
                        seq![c],
                    ) && replay_from(mid, log.drop_first(), g)
            }
    }
}

/// `g` is a fresh game on the map of `seed` with `config`.
pub open spec fn replay_start(seed: u64, config: GameConfig, g: Game) -> bool {
    fresh_game(g.map, config, g) && g.map.generated_from(seed)
}

/// Rebuild a fresh game from a replay's seed and re-apply its command log in
/// order, stepping the simulation up to each command's tick first; commands
/// that arrive after the match ended are ignored. Stops early only if a
/// counter would leave its range.
pub fn replay_to_game(replay: &Replay) -> (g: Game)
    requires
        replay.config.wf(),
    ensures
        g.wf(),
        g.config == replay.config,
        exists|g0: Game|
            #[trigger] replay_start(replay.map_seed, replay.config, g0) && replay_from(
                g0,
                replay.commands@,
                g,
            ),
{
    let mut game = Game::new(GameMap::generate(replay.map_seed), replay.config);
    let ghost g0 = game;
    let ghost log = replay.commands@;
    let mut applied: usize = 0;
    proof {
        assert(replay_start(replay.map_seed, replay.config, g0));
        assert forall|gf: Game| #[trigger] replay_from(game, log.skip(0), gf) implies replay_from(
            g0,
            log,
            gf,
        ) by {
            assert(log.skip(0) =~= log);
        }
    }
    while applied < replay.commands.len()
        invariant
            game.wf(),
            game.config == replay.config,
            0 <= applied <= replay.commands@.len(),
            log == replay.commands@,
            replay_start(replay.map_seed, replay.config, g0),
            forall|gf: Game|
                #[trigger] replay_from(game, log.skip(applied as int), gf) ==> replay_from(g0, log, gf),
        decreases replay.commands@.len() - applied,
    {
        let tc = &replay.commands[applied];
        let ghost start = game;
        let ghost mut chain: Seq<Game> = seq![game];
        let ghost rest = log.skip(applied as int);
        assert(rest[0] == *tc);
        assert(rest.drop_first() =~= log.skip(applied + 1));
        while game.tick < tc.tick && !game.is_over()
            invariant
                game.wf(),
                game.config == replay.config,
                steps_toward(chain, tc.tick as int),
                chain[0] == start,
                chain[chain.len() - 1] == game,
                rest.len() > 0,
                rest[0] == *tc,
                replay_start(replay.map_seed, replay.config, g0),
                forall|gf: Game| #[trigger] replay_from(start, rest, gf) ==> replay_from(g0, log, gf),
                log == replay.commands@,
            decreases tc.tick - game.tick,
        {
            if !game.has_room_for_tick() {
                proof {
                    assert(caught_up(start, tc.tick as int, game));
                    assert(replay_from(start, rest, game));
                    assert(replay_from(g0, log, game));
                }
                return game;
            }
            game.step();
            proof {
                lemma_steps_push(chain, tc.tick as int, game);
                chain = chain.push(game);
            }
        }
        proof {
            assert(caught_up(start, tc.tick as int, game));
        }
        let ghost caught = game;
        if !game.is_over() {
            if !game.has_room_for_commands(tc.player, 1) {
                proof {
                    assert(replay_from(start, rest, game));
                    assert(replay_from(g0, log, game));
                }
                return game;
            }
            let one = vec![tc.command.clone()];
            let ghost c = one@[0];
            proof {
                assert(one@ =~= seq![c]);
            }
            let ghost pre = game;
            let r = game.apply_commands(tc.player, one.as_slice());
            proof {
                let states = choose|states: Seq<Game>|
                    {
                        &&& states.len() == one@.len() + 1
                        &&& states[0] == pre
                        &&& states[one@.len() as int] == game
                        &&& forall|i: int|
                            0 <= i < one@.len() ==> #[trigger] states[i].command_outcome(
                                states[i + 1],
                                tc.player,
                                one@[i],
                                r@[i],
                            )
                    };
                assert(crate::golden::command_chain(states, tc.player, seq![c], r@));
                assert(issued(pre, game, tc.player, seq![c]));
                assert forall|gf: Game| #[trigger] replay_from(game, log.skip(applied + 1), gf) implies replay_from(
                    g0,
                    log,
                    gf,
                ) by {
                    assert(replay_from(start, rest, gf));
                }
            }
        } else {
            proof {
                assert forall|gf: Game| #[trigger] replay_from(game, log.skip(applied + 1), gf) implies replay_from(
                    g0,
                    log,
                    gf,
                ) by {
                    assert(replay_from(start, rest, gf));
                }
            }
        }
        applied += 1;
    }
    proof {
        assert(log.skip(applied as int).len() == 0);
        assert(replay_from(game, log.skip(applied as int), game));
        assert(replay_start(replay.map_seed, replay.config, g0));
    }
    game
}

/// Run a replay to the end of the match: the log, then more ticks (at most
/// the match timeout plus a margin) until the match is over.
pub fn finish_replay(replay: &Replay) -> (g: Game)
    requires
        replay.config.wf(),
    ensures
        g.wf(),
        exists|g0: Game, mid: Game, chain: Seq<Game>|
            #[trigger] replay_start(replay.map_seed, replay.config, g0) && #[trigger] replay_from(
                g0,
                replay.commands@,
                mid,
            ) && #[trigger] steps_toward(chain, i32::MAX as int) && chain[0] == mid && chain[chain.len()
                - 1] == g && chain.len() <= MATCH_TIMEOUT_TICKS + 1001 && (g.spec_is_over()
                || chain.len() == MATCH_TIMEOUT_TICKS + 1001 || !g.room_for_tick()),
        g.config == replay.config,
        replay.config.timeout_ticks <= MATCH_TIMEOUT_TICKS + 1000 ==> g.spec_is_over()
            || !g.room_for_tick(),
{
    let mut game = replay_to_game(replay);
    let ghost mid = game;
    let ghost g0 = choose|g0: Game|
        #[trigger] replay_start(replay.map_seed, replay.config, g0) && replay_from(
            g0,
            replay.commands@,
            mid,
        );
    let ghost mut chain: Seq<Game> = seq![game];
    let mut guard: i32 = 0;
    while !game.is_over() && guard < MATCH_TIMEOUT_TICKS + 1000
        invariant
            game.wf(),
            0 <= guard <= MATCH_TIMEOUT_TICKS + 1000,
            steps_toward(chain, i32::MAX as int),
            chain.len() == guard + 1,
            chain[0] == mid,
            chain[chain.len() - 1] == game,
            replay_start(replay.map_seed, replay.config, g0),
            replay_from(g0, replay.commands@, mid),
            game.config == replay.config,
            game.tick >= guard,
            guard > 0 && !game.spec_is_over() ==> game.tick < game.config.timeout_ticks,
        decreases MATCH_TIMEOUT_TICKS + 1000 - guard,
    {
        if !game.has_room_for_tick() {
            return game;
        }
        game.step();
        proof {
            lemma_steps_push(chain, i32::MAX as int, game);
            chain = chain.push(game);
        }
        guard += 1;
    }
    game
}

} // verus!
