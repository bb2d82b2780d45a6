use crucible::bot::Bot;
use crucible::decision::{
    build_allowed, build_type, choice_commands, producer_for, snipe_target, tech_allowed,
    train_allowed, train_type, ArmyAction, Choice, SnipeTarget,
};
use crucible::entity::{unit_stats, BuildingType, Player, Stance, Unit, UnitOrder, UnitType, Upgrade};
use crucible::features::{FeatureInput, FEATURE_DIM};
use crucible::fixed::Pos;
use crucible::game::{Game, GameConfig};
use crucible::headless::{run_match, run_match_with_replay, series, MatchOutcome};
use crucible::map::{open_test_map, GameMap};
use crucible::network::{GENOME_LEN, OUTPUT};
use crucible::orders::Command;
use crucible::scripted::{easy, hard, medium, base_offset, find_build_tile};
use crucible::serialize::replay_to_game;

fn config() -> GameConfig {
    GameConfig::default()
}

// --- decision ---------------------------------------------------------------

#[test]
fn snipe_target_picks_visible_enemy_only() {
    let mut g = Game::new(open_test_map(1), GameConfig::default());
    let spawn = |g: &mut Game, utype: UnitType, tile: (u8, u8)| {
        let stats = unit_stats(utype);
        let id = g.alloc_id();
        g.units.push(Unit {
            id,
            owner: Player::P1,
            utype,
            pos: Pos::from_tile(tile.0, tile.1),
            hp: stats.hp,
            max_hp: stats.hp,
            stance: Stance::Aggressive,
            order: UnitOrder::Idle,
            carrying: 0,
            cooldown: 0,
            mining: 0,
            park_ticks: 0,
            path: Vec::new(),
            target: None,
            fleeing: false,
            harvest_tile: None,
            refinery: None,
        });
        id
    };
    let harvester = spawn(&mut g, UnitType::Harvester, (51, 53));
    let _far_tank = spawn(&mut g, UnitType::Tank, (10, 10));
    g.step();

    let input = FeatureInput::from_game(&g, Player::P0);
    let hit = snipe_target(&g, Player::P0, &input, SnipeTarget::Unit(UnitType::Harvester));
    assert_eq!(hit.map(|(id, _)| id), Some(harvester));

    let none = snipe_target(&g, Player::P0, &input, SnipeTarget::Building(BuildingType::Refinery));
    assert!(none.is_none());

    let hidx = g.units.iter().position(|u| u.id == harvester).unwrap();
    g.units[hidx].hp = 0;
    g.step();
    let input = FeatureInput::from_game(&g, Player::P0);
    let gone = snipe_target(&g, Player::P0, &input, SnipeTarget::Unit(UnitType::Harvester));
    assert!(gone.is_none(), "a dead target must never be focus-fired");
}

/// The first allowed slot of each head, as a masked argmax over equal
/// positive scores would pick it.
fn first_allowed_choice(g: &Game, p: Player) -> Choice {
    let build = (0..8usize).find(|&i| build_allowed(g, p, build_type(i)));
    let train = (0..7usize).find(|&i| train_allowed(g, p, train_type(i)));
    let tech = [Upgrade::Damage, Upgrade::Hp, Upgrade::Range]
        .iter()
        .position(|&u| tech_allowed(g, p, u))
        .map(|i| i + 1);
    Choice { build, train, action: Some(ArmyAction::Attack), sector: 0, snipe: 0, tech }
}

#[test]
fn decide_is_deterministic_and_valid() {
    let mut g = Game::new(GameMap::generate(5), GameConfig::default());
    for _ in 0..200 {
        g.step();
    }
    let input = FeatureInput::from_game(&g, Player::P0);
    let choice = first_allowed_choice(&g, Player::P0);
    let a = choice_commands(&g, Player::P0, &input, choice);
    let b = choice_commands(&g, Player::P0, &input, choice);
    assert_eq!(a, b);
    for cmd in &a {
        assert!(g.validate_command(cmd).is_ok(), "invalid command {cmd:?}");
    }
}

#[test]
fn illegal_actions_are_masked() {
    let mut g = Game::new(GameMap::generate(5), GameConfig::default());
    g.ore[0] = 0;
    for i in 0..8usize {
        assert!(!build_allowed(&g, Player::P0, build_type(i)));
    }
    for i in 0..7usize {
        assert!(!train_allowed(&g, Player::P0, train_type(i)));
    }
    let input = FeatureInput::from_game(&g, Player::P0);
    let cmds = choice_commands(&g, Player::P0, &input, first_allowed_choice(&g, Player::P0));
    for cmd in &cmds {
        assert!(!matches!(cmd, Command::PlaceBuilding { .. } | Command::TrainUnit { .. }));
    }
}

#[test]
fn air_power_actions_are_learnable() {
    let mut g = Game::new(GameMap::generate(5), GameConfig::default());
    g.ore[0] = 10_000;
    let hq = g.hq(Player::P0).unwrap().tile;

    for (bt, tile) in
        [(BuildingType::Refinery, (hq.0 + 2, hq.1)), (BuildingType::Factory, (hq.0, hq.1 + 2))]
    {
        let cmd = Command::PlaceBuilding { player: Player::P0, btype: bt, tile };
        assert!(g.validate_command(&cmd).is_ok(), "{cmd:?} must be legal");
        g.apply_commands(Player::P0, &[cmd]);
    }
    assert!(build_allowed(&g, Player::P0, BuildingType::Airfield));

    let cmd = Command::PlaceBuilding {
        player: Player::P0,
        btype: BuildingType::Airfield,
        tile: (hq.0 + 2, hq.1 + 2),
    };
    assert!(g.validate_command(&cmd).is_ok(), "{cmd:?} must be legal");
    g.apply_commands(Player::P0, &[cmd]);
    assert!(train_allowed(&g, Player::P0, UnitType::Gunship));
    assert!(train_allowed(&g, Player::P0, UnitType::Interceptor));

    assert_eq!(producer_for(UnitType::Gunship), BuildingType::Airfield);
    assert_eq!(producer_for(UnitType::Interceptor), BuildingType::Airfield);
}

#[test]
fn tech_tree_actions_are_learnable() {
    let mut g = Game::new(GameMap::generate(5), GameConfig::default());
    g.ore[0] = 100_000;
    let hq = g.hq(Player::P0).unwrap().tile;

    assert!(!build_allowed(&g, Player::P0, BuildingType::Radar));
    assert!(!build_allowed(&g, Player::P0, BuildingType::TeslaCoil));
    assert!(!train_allowed(&g, Player::P0, UnitType::MammothTank));

    for (bt, tile) in
        [(BuildingType::Refinery, (hq.0 + 2, hq.1)), (BuildingType::Factory, (hq.0, hq.1 + 2))]
    {
        let cmd = Command::PlaceBuilding { player: Player::P0, btype: bt, tile };
        assert!(g.validate_command(&cmd).is_ok(), "{cmd:?} must be legal");
        g.apply_commands(Player::P0, &[cmd]);
    }
    let cmd = Command::PlaceBuilding {
        player: Player::P0,
        btype: BuildingType::TechLab,
        tile: (hq.0 + 2, hq.1 + 2),
    };
    assert!(g.validate_command(&cmd).is_ok(), "{cmd:?} must be legal");
    g.apply_commands(Player::P0, &[cmd]);

    assert!(build_allowed(&g, Player::P0, BuildingType::Radar));
    assert!(build_allowed(&g, Player::P0, BuildingType::TeslaCoil));
    assert!(train_allowed(&g, Player::P0, UnitType::MammothTank));
    assert_eq!(producer_for(UnitType::MammothTank), BuildingType::Factory);
    for up in [Upgrade::Damage, Upgrade::Hp, Upgrade::Range] {
        assert!(tech_allowed(&g, Player::P0, up));
    }
}

#[test]
fn placement_search_prefers_the_preferred_tile() {
    let g = Game::new(open_test_map(1), GameConfig::default());
    let hq = g.hq(Player::P0).unwrap().tile;
    let pref = base_offset(hq, 2, 0);
    assert_eq!(find_build_tile(&g, Player::P0, BuildingType::Refinery, pref), Some(pref));
    // The HQ tile itself is taken: the search moves to the first free tile
    // of the ring around it (the row above, leftmost).
    let t = find_build_tile(&g, Player::P0, BuildingType::Refinery, hq).unwrap();
    assert_eq!(t, (hq.0 - 1, hq.1 - 1));
}

// --- network ----------------------------------------------------------------

#[test]
fn genome_len_matches_layer_sizes() {
    assert_eq!(GENOME_LEN, 17_611);
    assert_eq!(OUTPUT, 91);
    assert_eq!(FEATURE_DIM, 224);
}

// --- bots -------------------------------------------------------------------

#[test]
fn harvester_economy_scales_by_minute_5() {
    let mut g = Game::new(GameMap::generate(42), config());
    let mut bot = easy();
    let ore_before: i32 = g.map.ore.iter().sum();

    while g.tick < 3_000 {
        if g.is_command_tick() {
            let cmds = bot.decide(&g, Player::P0);
            if !cmds.is_empty() {
                g.apply_commands(Player::P0, &cmds);
            }
        }
        g.step();
    }

    let harvesters = g
        .units
        .iter()
        .filter(|u| u.owner == Player::P0 && u.utype == UnitType::Harvester)
        .count();
    assert!(harvesters >= 6, "economy did not build 6 harvesters (got {harvesters})");

    let ore_mined = ore_before - g.map.ore.iter().sum::<i32>();
    assert!(ore_mined >= 500, "harvesters mined too little ore by minute 5 (mined {ore_mined})");
}

#[test]
fn rush_beats_turtle() {
    let seeds: Vec<u64> = (0..10).map(|i| 1000 + i).collect();
    let mut wins = 0;
    let mut total = 0;
    for seed in seeds {
        let mut attacker = medium();
        let mut turtle = easy();
        let o = run_match(seed, &config(), &mut attacker, &mut turtle);
        total += 1;
        if o.won_by(Player::P0) {
            wins += 1;
        }
    }
    println!("rush vs turtle: {wins}/{total}");
    assert!(wins as f64 / total as f64 >= 0.8, "rush did not beat turtle decisively ({wins}/{total})");
}

#[test]
fn hard_beats_medium() {
    let seeds: Vec<u64> = (0..10).map(|i| 2000 + i).collect();
    let mut wins = 0;
    let mut total = 0;
    for seed in seeds {
        let mut a = hard();
        let mut b = medium();
        let o = run_match(seed, &config(), &mut a, &mut b);
        total += 1;
        if o.won_by(Player::P0) {
            wins += 1;
        }
    }
    println!("hard vs medium: {wins}/{total}");
    assert!(wins as f64 / total as f64 >= 0.8, "hard bot did not beat medium decisively ({wins}/{total})");
}

#[test]
fn match_terminates() {
    let mut a = hard();
    let mut b = medium();
    let o: MatchOutcome = run_match(7777, &config(), &mut a, &mut b);
    assert!(o.duration_ticks > 0);
    assert!(o.winner.is_some() || o.reason.is_some());
}

#[test]
fn replay_log_is_tick_ordered_and_replays() {
    let cfg = GameConfig { timeout_ticks: 300, ..GameConfig::default() };
    let mut a = hard();
    let mut b = easy();
    let (outcome, replay) = run_match_with_replay(3, &cfg, &mut a, &mut b);
    assert_eq!(replay.result.map(|r| r.duration_ticks), Some(outcome.outcome.duration_ticks));
    assert!(replay.commands.windows(2).all(|w| w[0].tick <= w[1].tick));
    assert!(replay.commands.iter().all(|c| c.command.player() == c.player));
    let mut repro = replay_to_game(&replay);
    while repro.tick < outcome.outcome.duration_ticks && !repro.is_over() {
        repro.step();
    }
    assert_eq!(repro.winner, outcome.outcome.winner);
}

#[test]
fn series_counts_every_match() {
    let cfg = GameConfig { timeout_ticks: 200, ..GameConfig::default() };
    let report = series(&[1, 2], &cfg, || -> Box<dyn Bot> { Box::new(easy()) }, || -> Box<dyn Bot> {
        Box::new(easy())
    });
    assert_eq!(report.matches, 2);
    assert_eq!(report.a_wins + report.b_wins + report.draws, 2);
}

#[test]
fn replay_is_deterministic() {
    let cfg = GameConfig { timeout_ticks: 300, ..GameConfig::default() };
    let (o1, r1) = run_match_with_replay(5, &cfg, &mut medium(), &mut hard());
    let (o2, r2) = run_match_with_replay(5, &cfg, &mut medium(), &mut hard());
    assert_eq!(o1.outcome, o2.outcome);
    assert_eq!(o1.p0_value, o2.p0_value);
    assert_eq!(o1.p1_value, o2.p1_value);
    assert_eq!(r1.version, r2.version);
    assert_eq!(r1.map_seed, r2.map_seed);
    assert_eq!(r1.commands, r2.commands);
    assert_eq!(r1.result, r2.result);
}

#[test]
fn replay_result_matches_direct_run() {
    let seed = 7u64;
    let cfg = GameConfig { timeout_ticks: 300, ..GameConfig::default() };
    let replay = crucible::serialize::Replay::new(seed, cfg);
    let replayed = crucible::serialize::finish_replay(&replay);

    let mut game = Game::new(GameMap::generate(seed), cfg);
    while !game.is_over() {
        game.step();
    }
    assert_eq!(replayed.tick, game.tick);
    assert_eq!(replayed.winner, game.winner);
    assert_eq!(replayed.win_reason, game.win_reason);
}

#[test]
fn choice_commands_mask_unaffordable_heads() {
    let mut g = Game::new(GameMap::generate(5), GameConfig::default());
    g.ore[0] = 0;
    let input = FeatureInput::from_game(&g, Player::P0);
    for b in 0..8usize {
        for t in 0..7usize {
            let choice = Choice {
                build: Some(b),
                train: Some(t),
                action: None,
                sector: 0,
                snipe: 0,
                tech: Some(1),
            };
            let cmds = choice_commands(&g, Player::P0, &input, choice);
            for cmd in &cmds {
                assert!(
                    !matches!(
                        cmd,
                        Command::PlaceBuilding { .. }
                            | Command::TrainUnit { .. }
                            | Command::ChooseUpgrade { .. }
                    ),
                    "unmasked command {cmd:?}"
                );
            }
        }
    }
}

#[test]
fn observation_ignores_enemy_out_of_sight() {
    let g1 = Game::new(GameMap::generate(3), GameConfig::default());
    let mut g2 = Game::new(GameMap::generate(3), GameConfig::default());
    let far = g2.map.hq_tiles[1];
    let id = g2.next_id;
    g2.next_id += 1;
    let stats = unit_stats(UnitType::Infantry);
    g2.units.push(Unit {
        id,
        owner: Player::P1,
        utype: UnitType::Infantry,
        pos: Pos::from_tile(far.0, far.1),
        hp: stats.hp,
        max_hp: stats.hp,
        stance: Stance::Aggressive,
        order: UnitOrder::Idle,
        carrying: 0,
        cooldown: 0,
        mining: 0,
        park_ticks: 0,
        path: Vec::new(),
        target: None,
        fleeing: false,
        harvest_tile: None,
        refinery: None,
    });
    let a = FeatureInput::from_game(&g1, Player::P0);
    let b = FeatureInput::from_game(&g2, Player::P0);
    assert_eq!(format!("{a:?}"), format!("{b:?}"));
    let c = FeatureInput::from_game(&g1, Player::P1);
    let d = FeatureInput::from_game(&g2, Player::P1);
    assert_ne!(format!("{c:?}"), format!("{d:?}"));
}

#[test]
fn timeout_goes_to_the_side_with_more_value() {
    let cfg = GameConfig { timeout_ticks: 200, ..GameConfig::default() };
    for seed in 0..3u64 {
        let d = crucible::headless::run_match_detailed(seed, &cfg, &mut easy(), &mut medium());
        assert_eq!(d.outcome.reason, Some(crucible::game::WinReason::Timeout));
        assert_eq!(d.outcome.duration_ticks, 200);
        assert_eq!(d.outcome.winner == Some(Player::P0), d.p0_value > d.p1_value);
        assert_eq!(d.outcome.winner == Some(Player::P1), d.p0_value < d.p1_value);
        assert_eq!(d.outcome.winner.is_none(), d.p0_value == d.p1_value);
    }
}
