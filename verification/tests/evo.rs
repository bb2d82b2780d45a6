use crucible::balance::{composition_cost, median};
use crucible::bot::Bot;
use crucible::curriculum::{generation_seeds, mix, Stage, MIX};
use crucible::entity::{BuildingType, Player, UnitType};
use crucible::fitness::{spent_value, Noop};
use crucible::game::{EventKind, Game, GameConfig};
use crucible::ghost::{run_ghost_match, GhostPool, GhostReplay};
use crucible::golden::fnv1a;
use crucible::map::GameMap;
use crucible::orders::Command;
use crucible::rng::Rng;
use crucible::scripted::{easy, hard};
use crucible::serialize::Replay;

fn sample_replay(seed: u64) -> Replay {
    let cfg = GameConfig { timeout_ticks: 400, ..GameConfig::default() };
    let mut replay = Replay::new(seed, cfg);
    let mut game = Game::new(GameMap::generate(seed), cfg);
    let mut bot = easy();
    while !game.is_over() {
        if game.is_command_tick() {
            let cmds = bot.decide(&game, Player::P0);
            for c in &cmds {
                replay.record(game.tick, Player::P0, c.clone());
            }
            game.apply_commands(Player::P0, &cmds);
        }
        game.step();
    }
    replay
}

#[test]
fn ghost_is_immutable_and_deterministic() {
    let replay = sample_replay(11);
    let ghost = GhostReplay::from_replay(&replay, Player::P0);
    assert_eq!(ghost.command_count(), replay.commands.len());

    let mut g1 = ghost.clone();
    let mut g2 = ghost.clone();
    let mut game = Game::new(GameMap::generate(replay.map_seed), replay.config);
    while game.tick < 120 && !game.is_over() {
        if game.is_command_tick() {
            let a = g1.decide(&game, Player::P0);
            let b = g2.decide(&game, Player::P0);
            assert_eq!(a, b, "ghost diverged at tick {}", game.tick);
        }
        game.step();
    }
}

#[test]
fn pool_keeps_beaters_and_trims_oldest() {
    let replay = sample_replay(3);
    let mut pool = GhostPool::new(3);
    let g = || GhostReplay::from_replay(&replay, Player::P0);
    pool.add(1, g(), false);
    pool.add(2, g(), true);
    pool.add(3, g(), false);
    pool.add(4, g(), false);

    assert_eq!(pool.len(), 3);
    assert_eq!(pool.champion_beaters().len(), 1);

    let mut rng = Rng::from_seed(7);
    let a = pool.sample(&mut rng, 2);
    let mut rng2 = Rng::from_seed(7);
    let b = pool.sample(&mut rng2, 2);
    assert_eq!(a.len(), 2);
    assert!(a[0].command_count() > 0);
    assert_eq!(a.len(), b.len());
    assert_eq!(a[0].map_seed(), b[0].map_seed());
}

#[test]
fn champion_beaters_survive_recency_eviction() {
    let replay = sample_replay(4);
    let g = || GhostReplay::from_replay(&replay, Player::P0);
    let mut pool = GhostPool::new(2);
    pool.add(1, g(), true);
    pool.add(2, g(), false);
    pool.add(3, g(), false);
    assert_eq!(pool.len(), 2);
    assert_eq!(pool.champion_beaters().len(), 1);

    for id in 4..=50u64 {
        pool.add(id, g(), false);
    }
    assert_eq!(pool.len(), 2);
    assert_eq!(pool.champion_beaters().len(), 1);
    assert_eq!(pool.champion_beaters()[0].command_count(), g().command_count());

    let mut all = GhostPool::new(2);
    all.add(1, g(), true);
    all.add(2, g(), true);
    all.add(3, g(), true);
    assert_eq!(all.len(), 2);
    assert_eq!(all.champion_beaters().len(), 2);
}

#[test]
fn ghost_replays_mid_tick_commands() {
    let cfg = GameConfig { timeout_ticks: 400, ..GameConfig::default() };
    let seed = 42u64;
    let mut replay = Replay::new(seed, cfg);
    let mut game = Game::new(GameMap::generate(seed), cfg);
    while game.tick < 21 && !game.is_over() {
        game.step();
    }
    let hq = game.hq(Player::P0).unwrap().tile;
    let cmd = Command::PlaceBuilding {
        player: Player::P0,
        btype: BuildingType::Refinery,
        tile: (hq.0 + 2, hq.1),
    };
    replay.record(21, Player::P0, cmd.clone());
    game.apply_commands(Player::P0, &[cmd]);
    let mut ghost = GhostReplay::from_replay(&replay, Player::P0);
    let mut game = Game::new(GameMap::generate(seed), cfg);
    while game.tick < 22 && !game.is_over() {
        let cmds = ghost.decide(&game, Player::P0);
        game.apply_commands(Player::P0, &cmds);
        game.step();
    }
    assert!(
        game.buildings.iter().any(|b| b.owner == Player::P0 && b.btype == BuildingType::Refinery),
        "ghost dropped the mid-tick refinery command"
    );

    let mut ghost = GhostReplay::from_replay(&replay, Player::P0);
    let outcome = run_ghost_match(&mut ghost, &mut Noop, &cfg);
    assert!(outcome.outcome.duration_ticks > 21);
    assert_eq!(outcome.outcome.winner, Some(Player::P0));
    assert!(outcome.p0_value > outcome.p1_value);
}

#[test]
fn ghost_maps_entities_by_creation_order_not_survivors() {
    let cfg = GameConfig { timeout_ticks: 900, ..GameConfig::default() };
    let seed = 2026u64;
    let mut game = Game::new(GameMap::generate(seed), cfg);
    let mut replay = Replay::new(seed, cfg);
    let mut p0 = hard();
    let mut p1 = hard();
    while !game.is_over() {
        if game.is_command_tick() {
            for (bot, player) in [
                (&mut p0 as &mut dyn Bot, Player::P0),
                (&mut p1 as &mut dyn Bot, Player::P1),
            ] {
                let cmds = bot.decide(&game, player);
                for c in &cmds {
                    replay.record(game.tick, player, c.clone());
                }
                game.apply_commands(player, &cmds);
            }
        }
        game.step();
    }

    let p0_deaths = game
        .events
        .iter()
        .filter(|e| matches!(&e.kind, EventKind::UnitDied { owner: Player::P0, .. }))
        .count();
    assert!(p0_deaths > 0, "test scenario must include P0 casualties");

    let ghost = GhostReplay::from_replay(&replay, Player::P0);

    let mut g = ghost.clone();
    let mut fresh = Game::new(GameMap::generate(replay.map_seed), replay.config);
    let mut opp = hard();
    let mut emitted = 0usize;
    let max_ticks = replay.config.timeout_ticks + 1_000;
    while !fresh.is_over() && fresh.tick < max_ticks {
        let cmds = g.decide(&fresh, Player::P0);
        emitted += cmds.len();
        fresh.apply_commands(Player::P0, &cmds);
        if fresh.is_command_tick() {
            let b = opp.decide(&fresh, Player::P1);
            fresh.apply_commands(Player::P1, &b);
        }
        fresh.step();
    }
    assert_eq!(emitted, ghost.command_count(), "ghost dropped commands during entity remapping");
}

#[test]
fn ghost_stream_is_sorted_by_tick() {
    let cfg = GameConfig::default();
    let mut replay = Replay::new(1, cfg);
    replay.record(40, Player::P0, Command::Sell { player: Player::P0, building: 1 });
    replay.record(20, Player::P1, Command::Sell { player: Player::P1, building: 2 });
    replay.record(10, Player::P0, Command::Repair { player: Player::P0, building: 1 });
    let ghost = GhostReplay::from_replay(&replay, Player::P0);
    assert_eq!(ghost.command_count(), 2);
    assert_eq!(ghost.map_seed(), 1);
}

#[test]
fn curriculum_stages_advance_in_order() {
    let mut s = Stage::Economy;
    let mut labels = Vec::new();
    for _ in 0..8 {
        labels.push(s.label());
        s = s.next();
    }
    assert_eq!(
        labels,
        vec![
            "economy",
            "production",
            "combat",
            "scripted-easy",
            "scripted-medium",
            "scripted-hard",
            "done",
            "done"
        ]
    );
    assert_eq!(mix(0, Stage::Economy, 0), 0);
    assert_eq!(mix(5, Stage::Economy, 0), 5);
    assert_eq!(mix(0, Stage::Production, 0), 0x9E37_79B9_7F4A_7C15);
}

#[test]
fn composition_cost_and_median() {
    assert_eq!(composition_cost(&[(UnitType::Tank, 4)]), 600);
    assert_eq!(composition_cost(&[(UnitType::Infantry, 12), (UnitType::Tank, 1)]), 750);
    assert_eq!(median(vec![5, 1, 4, 2, 3]), 3);
    assert_eq!(median(vec![4, 1, 3, 2]), 3);
}

#[test]
fn spent_value_counts_units_and_buildings() {
    let g = Game::new(GameMap::generate(1), GameConfig::default());
    // One harvester each; the HQ is free.
    assert_eq!(spent_value(&g, Player::P0), 100);
}

#[test]
fn fnv1a_matches_reference_vectors() {
    assert_eq!(fnv1a(b""), 0xcbf2_9ce4_8422_2325);
    assert_eq!(fnv1a(b"a"), 0xaf63_dc4c_8601_ec8c);
    assert_eq!(fnv1a(b"foobar"), 0x8594_4171_f739_67e8);
}

#[test]
fn generation_seeds_are_the_mixed_generators_draws() {
    assert_eq!(mix(0, Stage::Economy, 0), 0);
    assert_eq!(mix(5, Stage::Production, 0), 5 ^ MIX);
    let seeds = generation_seeds(9, Stage::Combat, 3, 4);
    let mut rng = Rng::from_seed(mix(9, Stage::Combat, 3));
    let expected: Vec<u64> = (0..4).map(|_| rng.next_u64()).collect();
    assert_eq!(seeds, expected);
    assert_eq!(generation_seeds(9, Stage::Combat, 3, 4), seeds);
    assert_ne!(generation_seeds(9, Stage::Combat, 4, 4), seeds);
    assert!(generation_seeds(9, Stage::Combat, 3, 0).is_empty());
}

#[test]
fn bots_report_their_names() {
    assert_eq!(Noop.name(), "noop");
    assert_eq!(crucible::scripted::easy().name(), "easy");
    assert_eq!(crucible::scripted::medium().name(), "medium");
    assert_eq!(crucible::scripted::hard().name(), "hard");
}

#[test]
fn counter_matrix_runs_are_deterministic() {
    let cfg = GameConfig { timeout_ticks: 6000, ..GameConfig::default() };
    let seeds: Vec<u64> = (0..4).collect();
    let a = crucible::balance::counter_matrix(&seeds, &cfg);
    let b = crucible::balance::counter_matrix(&seeds, &cfg);
    assert_eq!(a, b);
    let names: Vec<&str> = a.iter().map(|(n, _)| *n).collect();
    assert_eq!(names, vec!["tank>infantry", "artillery>tank", "infantry>artillery"]);
    for (_, r) in &a {
        assert_eq!(r.matches, 4);
        assert_eq!(r.a_wins + r.b_wins + r.draws, 4);
    }
}

#[test]
fn micro_matchup_is_repeatable() {
    let cfg = GameConfig { timeout_ticks: 300, ..GameConfig::default() };
    let a = [(UnitType::Tank, 2usize)];
    let b = [(UnitType::Infantry, 6usize)];
    let r1 = crucible::balance::micro_matchup(1, &a, &b, &cfg);
    let r2 = crucible::balance::micro_matchup(1, &a, &b, &cfg);
    assert_eq!(r1, r2);
    let rate = crucible::balance::micro_matchup_rate(&[1, 2], &a, &b, &cfg);
    assert_eq!(rate.matches, 2);
    assert_eq!(rate.a_wins + rate.b_wins + rate.draws, 2);
}
