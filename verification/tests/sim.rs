use crucible::entity::{
    building_produces, building_stats, unit_stats, Building, BuildingType, EntityAllocator,
    Player, Stance, Unit, UnitOrder, UnitType, Upgrade,
};
use crucible::fixed::{dist2, fix_to_tile, isqrt, tile_center, Pos, FIX_SCALE};
use crucible::fog::{RememberedBuilding, RememberedUnit};
use crucible::game::{EventKind, Game, GameConfig, WinReason};
use crucible::map::{open_test_map, tile_index, GameMap, MAP_TILES};
use crucible::orders::{Command, CommandError};

fn game() -> Game {
    Game::new(GameMap::generate(1), GameConfig::default())
}

fn open_game(starting_ore: i32) -> Game {
    let cfg = GameConfig { starting_ore, timeout_ticks: 100_000, ..GameConfig::default() };
    Game::new(open_test_map(7), cfg)
}

fn spawn_unit(g: &mut Game, p: Player, ut: UnitType, tile: (u8, u8)) -> u32 {
    let stats = unit_stats(ut);
    let id = g.alloc_id();
    g.units.push(Unit {
        id,
        owner: p,
        utype: ut,
        pos: Pos::from_tile(tile.0, tile.1),
        hp: stats.hp,
        max_hp: stats.hp,
        stance: Stance::Aggressive,
        order: UnitOrder::Idle,
        carrying: 0,
        cooldown: 0,
        mining: 0,
        park_ticks: 0,
        path: vec![],
        target: None,
        fleeing: false,
        harvest_tile: None,
        refinery: None,
    });
    id
}

fn spawn_building(g: &mut Game, p: Player, bt: BuildingType, tile: (u8, u8)) -> u32 {
    let stats = building_stats(bt);
    let id = g.alloc_id();
    g.buildings.push(Building {
        id,
        owner: p,
        btype: bt,
        tile,
        hp: stats.hp,
        max_hp: stats.hp,
        queue: vec![],
        progress: 0,
        rally: None,
        cooldown: 0,
    });
    id
}

// --- entity ---------------------------------------------------------------

#[test]
fn artillery_has_min_range() {
    assert!(unit_stats(UnitType::Artillery).min_range > 0);
}

#[test]
fn tank_outranges_infantry() {
    assert!(unit_stats(UnitType::Tank).range > unit_stats(UnitType::Infantry).range);
}

#[test]
fn only_barracks_and_factory_produce() {
    assert_eq!(building_produces(BuildingType::Barracks), &[UnitType::Infantry]);
    assert_eq!(building_produces(BuildingType::Factory), &[UnitType::Harvester, UnitType::Tank]);
    assert!(building_produces(BuildingType::Hq).is_empty());
}

#[test]
fn allocator_hands_out_ascending_ids() {
    let mut a = EntityAllocator::new();
    let first = a.peek_next();
    assert_eq!(a.allocate(), first);
    assert_eq!(a.allocate(), first + 1);
    assert_eq!(a.peek_next(), first + 2);
}

// --- fixed ----------------------------------------------------------------

#[test]
fn isqrt_is_exact_for_small_squares() {
    for i in 0..10_000i64 {
        let s = isqrt(i * i);
        assert_eq!(s, i, "isqrt({}) = {}, want {}", i * i, s, i);
    }
    for i in 0..10_000i64 {
        let s = isqrt(i);
        assert!(s * s <= i && (s + 1) * (s + 1) > i, "isqrt({}) off: {}", i, s);
    }
}

#[test]
fn tile_center_round_trips() {
    assert_eq!(tile_center(0), 128);
    assert_eq!(tile_center(63), 63 * 256 + 128);
    assert_eq!(fix_to_tile(tile_center(17)), 17);
    assert_eq!(fix_to_tile(0), 0);
    assert_eq!(fix_to_tile(FIX_SCALE * 63), 63);
}

#[test]
fn dist2_is_squared_distance() {
    assert_eq!(dist2(0, 0, 3, 4), 25);
    assert_eq!(Pos::new(-3, 0).dist2(&Pos::new(0, 4)), 25);
    assert_eq!(fix_to_tile(-5), 0);
    assert_eq!(fix_to_tile(100_000), 63);
}

// --- fog ------------------------------------------------------------------

#[test]
fn hidden_destruction_does_not_remove_last_seen_memory() {
    let mut game = Game::new(GameMap::generate(1), GameConfig::default());
    let unit_pos = Pos::from_tile(30, 30);
    game.fog[Player::P0.index()].units.push(RememberedUnit {
        id: 999,
        pos: unit_pos,
        last_seen: 0,
        utype: UnitType::Infantry,
    });
    game.fog[Player::P0.index()].buildings.push(RememberedBuilding {
        id: 1_000,
        tile: (31, 31),
        last_seen: 0,
        btype: BuildingType::Factory,
    });

    // Neither remembered tile is visible, and the entities do not exist in
    // the live state: their absence must not leak through the fog.
    game.update_memory(Player::P0, &vec![false; MAP_TILES]);
    assert_eq!(game.fog[0].units.len(), 1);
    assert_eq!(game.fog[0].buildings.len(), 1);

    // Re-observing the remembered locations is enough to remove them.
    let mut visible = vec![false; MAP_TILES];
    visible[tile_index(30, 30)] = true;
    visible[tile_index(31, 31)] = true;
    game.update_memory(Player::P0, &visible);
    assert!(game.fog[0].units.is_empty());
    assert!(game.fog[0].buildings.is_empty());
}

#[test]
fn old_sightings_expire_after_a_minute() {
    let mut game = Game::new(GameMap::generate(1), GameConfig::default());
    game.tick = 700;
    game.fog[0].units.push(RememberedUnit {
        id: 999,
        pos: Pos::from_tile(30, 30),
        last_seen: 50,
        utype: UnitType::Tank,
    });
    game.update_memory(Player::P0, &vec![false; MAP_TILES]);
    assert!(game.fog[0].units.is_empty());
}

#[test]
fn explored_tiles_only_grow() {
    let mut g = game();
    let mut visible = vec![false; MAP_TILES];
    visible[5] = true;
    g.update_memory(Player::P1, &visible);
    assert!(g.fog[1].explored[5]);
    g.update_memory(Player::P1, &vec![false; MAP_TILES]);
    assert!(g.fog[1].explored[5]);
}

#[test]
fn fog_view_sees_own_surroundings_only() {
    let g = game();
    let hq = g.hq(Player::P0).unwrap().tile;
    let view = g.fog_view(Player::P0);
    assert!(view.visible[tile_index(hq.0, hq.1)]);
    let far = (63 - hq.0, 63 - hq.1);
    assert!(!view.visible[tile_index(far.0, far.1)]);
    assert!(view.units.is_empty());
}

// --- game -----------------------------------------------------------------

#[test]
fn starts_with_two_hqs_and_ore() {
    let g = game();
    assert_eq!(g.buildings.len(), 2);
    assert_eq!(g.ore, [450, 450]);
    assert_eq!(g.tick, 0);
    assert_eq!(g.units.iter().filter(|u| u.utype == UnitType::Harvester).count(), 2);
}

#[test]
fn illegal_commands_rejected() {
    let mut g = Game::new(open_test_map(1), GameConfig::default());
    let err = g
        .apply_commands(
            Player::P0,
            &[Command::PlaceBuilding { player: Player::P0, btype: BuildingType::Hq, tile: (10, 10) }],
        )
        .remove(0);
    assert_eq!(err, Err(CommandError::NotABuilding));
    let err = g
        .apply_commands(
            Player::P0,
            &[Command::PlaceBuilding {
                player: Player::P0,
                btype: BuildingType::Refinery,
                tile: (60, 60),
            }],
        )
        .remove(0);
    assert_eq!(err, Err(CommandError::TooFarFromBase));
}

#[test]
fn refinery_placement_charges_ore() {
    let mut g = game();
    let hq = g.hq(Player::P0).unwrap().tile;
    let tile = (hq.0 + 2, hq.1);
    let res = g.apply_commands(
        Player::P0,
        &[Command::PlaceBuilding { player: Player::P0, btype: BuildingType::Refinery, tile }],
    );
    assert_eq!(res, vec![Ok(())]);
    assert_eq!(g.ore[0], 150);
    assert_eq!(g.buildings.len(), 3);
}

#[test]
fn apm_budget_drops_excess() {
    let mut g = game();
    for _ in 0..1000 {
        g.apm[0].try_spend();
    }
    assert!(!g.apm[0].try_spend());
}

#[test]
fn train_requires_producing_building() {
    let mut g = game();
    let hq = g.hq(Player::P0).unwrap().id;
    let err = g
        .apply_commands(
            Player::P0,
            &[Command::TrainUnit { player: Player::P0, building: hq, utype: UnitType::Infantry }],
        )
        .remove(0);
    assert_eq!(err, Err(CommandError::BuildingCannotTrain));
}

#[test]
fn move_requires_own_units() {
    let mut g = game();
    let err = g
        .apply_commands(
            Player::P0,
            &[Command::MoveGroup {
                player: Player::P0,
                units: vec![99],
                waypoint: (20, 20),
                stance: Stance::Aggressive,
            }],
        )
        .remove(0);
    assert_eq!(err, Err(CommandError::NotYourEntity));
}

#[test]
fn power_calculation_and_low_power_production() {
    let mut g = game();
    assert_eq!(g.power(Player::P0), (50, 0));
    assert!(!g.has_low_power(Player::P0));

    let hq = g.hq(Player::P0).unwrap().tile;
    g.apply_commands(
        Player::P0,
        &[Command::PlaceBuilding {
            player: Player::P0,
            btype: BuildingType::PowerPlant,
            tile: (hq.0 + 1, hq.1),
        }],
    );
    assert_eq!(g.power(Player::P0), (150, 0));

    g.apply_commands(
        Player::P0,
        &[Command::PlaceBuilding {
            player: Player::P0,
            btype: BuildingType::Refinery,
            tile: (hq.0 + 2, hq.1),
        }],
    );
    assert_eq!(g.power(Player::P0), (150, 20));
    assert!(!g.has_low_power(Player::P0));
}

#[test]
fn repair_building_restores_hp_and_costs_ore() {
    let mut g = game();
    let hq_id = g.hq(Player::P0).unwrap().id;

    let err = g
        .apply_commands(Player::P0, &[Command::Repair { player: Player::P0, building: hq_id }])
        .remove(0);
    assert_eq!(err, Err(CommandError::BuildingFullHealth));

    g.building_mut(Player::P0, hq_id).unwrap().hp = 1300;
    let ore_before = g.ore[Player::P0.index()];

    let res = g
        .apply_commands(Player::P0, &[Command::Repair { player: Player::P0, building: hq_id }])
        .remove(0);
    assert_eq!(res, Ok(()));
    assert_eq!(g.building(Player::P0, hq_id).unwrap().hp, 1400);
    assert_eq!(g.ore[Player::P0.index()], ore_before - 15);
}

#[test]
fn simultaneous_hq_destruction_is_a_draw() {
    let mut g = game();
    g.buildings.clear();
    g.check_win();
    assert!(g.is_over());
    assert_eq!(g.winner, None);
    assert_eq!(g.win_reason, Some(WinReason::HqDestroyed));
}

#[test]
fn equal_timeout_value_is_a_draw() {
    let mut g =
        Game::new(GameMap::generate(1), GameConfig { timeout_ticks: 0, ..GameConfig::default() });
    g.check_win();
    assert!(g.is_over());
    assert_eq!(g.winner, None);
    assert_eq!(g.win_reason, Some(WinReason::Timeout));
}

#[test]
fn finished_match_does_not_step() {
    let mut g = game();
    g.buildings.clear();
    g.check_win();
    let tick = g.tick;
    g.step();
    assert_eq!(g.tick, tick);
}

#[test]
fn step_advances_one_tick_and_removes_the_dead() {
    let mut g = open_game(0);
    let id = spawn_unit(&mut g, Player::P1, UnitType::Infantry, (40, 40));
    let idx = g.units.iter().position(|u| u.id == id).unwrap();
    g.units[idx].hp = 0;
    g.step();
    assert_eq!(g.tick, 1);
    assert!(g.units.iter().all(|u| u.hp > 0));
    assert!(!g.units.iter().any(|u| u.id == id));
}

#[test]
fn upgrade_choice_is_recorded() {
    let mut g = Game::new(open_test_map(1), GameConfig { starting_ore: 5_000, ..GameConfig::default() });
    let hq = g.hq(Player::P0).unwrap().tile;
    g.apply_commands(
        Player::P0,
        &[Command::PlaceBuilding { player: Player::P0, btype: BuildingType::Factory, tile: (hq.0, hq.1 + 2) }],
    );
    g.apply_commands(
        Player::P0,
        &[Command::PlaceBuilding { player: Player::P0, btype: BuildingType::TechLab, tile: (hq.0 + 2, hq.1) }],
    );
    let lab = g
        .buildings
        .iter()
        .find(|b| b.btype == BuildingType::TechLab)
        .map(|b| b.id)
        .unwrap();
    let res = g
        .apply_commands(
            Player::P0,
            &[Command::ChooseUpgrade { player: Player::P0, lab, upgrade: Upgrade::Damage }],
        )
        .remove(0);
    assert_eq!(res, Ok(()));
    assert_eq!(g.upgrades[0], Upgrade::Damage);
}

// --- map --------------------------------------------------------------------

#[test]
fn map_fairness_over_10k_seeds() {
    for seed in 0..10_000u64 {
        let map = GameMap::generate(seed);
        for idx in 0..(64 * 64) {
            let (x, y) = (idx % 64, idx / 64);
            let midx = (63 - y) * 64 + (63 - x);
            assert_eq!(map.passable[idx], map.passable[midx], "passable asymmetry seed {seed}");
            assert_eq!(map.ore[idx], map.ore[midx], "ore asymmetry seed {seed}");
        }
        assert_eq!(
            map.hq_tiles[0],
            (63 - map.hq_tiles[1].0, 63 - map.hq_tiles[1].1),
            "HQ mirror seed {seed}"
        );
        assert!(map.is_passable(map.hq_tiles[0].0, map.hq_tiles[0].1));
        assert!(map.is_passable(map.hq_tiles[1].0, map.hq_tiles[1].1));
    }
}

// --- scenarios --------------------------------------------------------------

#[test]
fn harvester_mines_and_deposits() {
    let mut g = open_game(1000);
    let hq = g.hq(Player::P0).unwrap().tile;
    let _ = g.apply_commands(
        Player::P0,
        &[
            Command::PlaceBuilding {
                player: Player::P0,
                btype: BuildingType::Refinery,
                tile: (hq.0 + 2, hq.1),
            },
            Command::PlaceBuilding {
                player: Player::P0,
                btype: BuildingType::Factory,
                tile: (hq.0, hq.1 + 2),
            },
        ],
    );
    let factory = g
        .buildings
        .iter()
        .find(|b| b.owner == Player::P0 && b.btype == BuildingType::Factory)
        .unwrap()
        .id;
    let _ = g.apply_commands(
        Player::P0,
        &[Command::TrainUnit { player: Player::P0, building: factory, utype: UnitType::Harvester }],
    );

    let ore_before: i32 = g.map.ore.iter().sum();
    for _ in 0..900 {
        g.step();
    }
    let ore_after: i32 = g.map.ore.iter().sum();

    assert!(ore_after < ore_before, "harvester never mined: {ore_before} -> {ore_after}");
    let deposited = g
        .events
        .iter()
        .any(|e| matches!(e.kind, EventKind::OreDeposited { player: Player::P0, .. }));
    assert!(deposited, "harvester never returned ore to the refinery");
}

#[test]
fn tanks_beat_equal_cost_infantry() {
    let mut g = open_game(0);
    for i in 0..3 {
        spawn_unit(&mut g, Player::P0, UnitType::Tank, (30, 29 + i as u8));
    }
    for i in 0..9 {
        spawn_unit(&mut g, Player::P1, UnitType::Infantry, (34, 28 + i as u8));
    }
    for _ in 0..1200 {
        g.step();
    }
    let p1_infantry = g
        .units
        .iter()
        .filter(|u| u.owner == Player::P1 && u.utype == UnitType::Infantry)
        .count();
    let p0_tanks =
        g.units.iter().filter(|u| u.owner == Player::P0 && u.utype == UnitType::Tank).count();
    assert_eq!(p1_infantry, 0, "infantry survived the tank push");
    assert!(p0_tanks > 0, "tanks were wiped out");
}

#[test]
fn artillery_outranges_turret() {
    let mut g = open_game(0);
    spawn_unit(&mut g, Player::P0, UnitType::Artillery, (30, 30));
    spawn_building(&mut g, Player::P1, BuildingType::Turret, (34, 30));

    for _ in 0..800 {
        g.step();
    }

    let turret_alive =
        g.buildings.iter().any(|b| b.btype == BuildingType::Turret && b.owner == Player::P1);
    let artillery_alive =
        g.units.iter().any(|u| u.utype == UnitType::Artillery && u.owner == Player::P0);
    assert!(!turret_alive, "turret survived artillery siege");
    assert!(artillery_alive, "artillery died to a turret it outranges");
}

#[test]
fn map_is_a_function_of_its_seed() {
    for seed in [0u64, 1, 77, 4242] {
        let a = GameMap::generate(seed);
        let b = GameMap::generate(seed);
        assert_eq!(a.passable, b.passable);
        assert_eq!(a.ore, b.ore);
        assert_eq!(a.hq_tiles, b.hq_tiles);
        let corner = crucible::rng::Rng::from_seed(seed).below(4);
        let expected = [(16u8, 16u8), (47, 16), (16, 47), (47, 47)][corner as usize];
        assert_eq!(a.hq_tiles[0], expected);
        assert_eq!(a.hq_tiles[1], (63 - expected.0, 63 - expected.1));
    }
}

#[test]
fn command_errors_describe_their_names() {
    assert_eq!(CommandError::NotYourEntity.describe(), "NotYourEntity");
    assert_eq!(CommandError::QueueFull.describe(), "QueueFull");
    assert_eq!(CommandError::RateLimited.describe(), "RateLimited");
    assert_eq!(CommandError::TooFarFromBase.describe(), "TooFarFromBase");
}

#[test]
fn straight_step_moves_speed_along_the_axis() {
    let map = open_test_map(7);
    let pos = Pos::from_tile(10, 10);
    let dest = Pos::from_tile(20, 10);
    let (p, arrived) = crucible::movement::step_towards(&map, &[], pos, dest, 32);
    assert!(!arrived);
    assert_eq!(p, Pos::new(pos.x + 32, pos.y));
    let near = Pos::new(pos.x + 20, pos.y);
    let (q, arrived) = crucible::movement::step_towards(&map, &[], pos, near, 32);
    assert!(arrived);
    assert_eq!(q, near);
}

#[test]
fn hq_is_gone_once_its_hp_reaches_zero() {
    let mut g = game();
    assert!(g.hq(Player::P0).is_some());
    let i = g.buildings.iter().position(|b| b.owner == Player::P0 && b.btype == BuildingType::Hq).unwrap();
    g.buildings[i].hp = 0;
    assert!(g.hq(Player::P0).is_none());
    assert!(g.hq(Player::P1).is_some());
}

#[test]
fn follow_path_leaves_the_reached_waypoint_to_the_caller() {
    let map = open_test_map(7);
    let mut g = Game::new(open_test_map(7), GameConfig::default());
    let id = spawn_unit(&mut g, Player::P0, UnitType::Tank, (10, 10));
    let k = g.units.iter().position(|u| u.id == id).unwrap();
    let mut u = g.units[k].clone();
    u.path = vec![(10, 10), (11, 10)];
    let reached = crucible::movement::follow_path(&map, &mut u);
    assert!(reached);
    assert_eq!(u.path, vec![(10, 10), (11, 10)]);
    let mut v = g.units[k].clone();
    v.path = vec![(20, 10)];
    let start = v.pos;
    let reached = crucible::movement::follow_path(&map, &mut v);
    assert!(!reached);
    assert_eq!(v.path.len(), 1);
    assert!(v.pos.x > start.x);
}

#[test]
fn fresh_game_gives_each_side_a_harvester_east_of_its_hq() {
    let g = game();
    assert_eq!(g.units.len(), 2);
    assert_eq!(g.units[0].id, 3);
    assert_eq!(g.units[1].id, 4);
    assert_eq!(g.units[0].owner, Player::P0);
    assert_eq!(g.units[1].owner, Player::P1);
    let h0 = g.map.hq_tiles[0];
    assert_eq!(g.units[0].pos, Pos::from_tile(h0.0 + 1, h0.1));
    assert_eq!(g.next_id, 5);
}

#[test]
fn banks_grow_by_the_deposits_reported() {
    let mut g = open_game(1000);
    let hq = g.hq(Player::P0).unwrap().tile;
    let _ = g.apply_commands(
        Player::P0,
        &[
            Command::PlaceBuilding {
                player: Player::P0,
                btype: BuildingType::Refinery,
                tile: (hq.0 + 2, hq.1),
            },
            Command::PlaceBuilding {
                player: Player::P0,
                btype: BuildingType::Factory,
                tile: (hq.0, hq.1 + 2),
            },
        ],
    );
    let factory = g
        .buildings
        .iter()
        .find(|b| b.owner == Player::P0 && b.btype == BuildingType::Factory)
        .unwrap()
        .id;
    let _ = g.apply_commands(
        Player::P0,
        &[Command::TrainUnit { player: Player::P0, building: factory, utype: UnitType::Harvester }],
    );
    let start = g.ore;
    let mut reported = [0i64; 2];
    for _ in 0..900 {
        let n = g.events.len();
        g.step();
        for e in &g.events[n..] {
            if let EventKind::OreDeposited { player, amount } = e.kind {
                reported[player.index()] += amount as i64;
            }
        }
    }
    assert!(reported[0] > 0);
    assert_eq!((g.ore[0] - start[0]) as i64, reported[0]);
    assert_eq!((g.ore[1] - start[1]) as i64, reported[1]);
}

#[test]
fn entities_stay_in_creation_order() {
    let mut g = Game::new(GameMap::generate(2), GameConfig { starting_ore: 5000, ..GameConfig::default() });
    for _ in 0..600 {
        g.step();
        for w in g.units.windows(2) {
            assert!(w[0].id < w[1].id);
        }
        for w in g.buildings.windows(2) {
            assert!(w[0].id < w[1].id);
        }
        assert!(g.units.iter().all(|u| u.id < g.next_id));
        assert!(g.buildings.iter().all(|b| b.id < g.next_id));
    }
}

#[test]
fn radar_and_tesla_placements_need_no_tech_lab() {
    let g = open_game(5000);
    let hq = g.hq(Player::P0).unwrap().tile;
    for bt in [BuildingType::Radar, BuildingType::TeslaCoil] {
        let cmd = Command::PlaceBuilding { player: Player::P0, btype: bt, tile: (hq.0 + 2, hq.1) };
        assert!(g.validate_command(&cmd).is_ok(), "{bt:?} refused without a tech lab");
    }
}

#[test]
fn find_path_goes_through_the_only_gap() {
    let m = open_test_map(7);
    let mut blocked = vec![false; MAP_TILES];
    for y in 0..64u8 {
        if y != 40 {
            blocked[tile_index(20, y)] = true;
        }
    }
    let path = m.find_path((15, 10), (25, 10), &blocked).expect("a route exists through the gap");
    assert_eq!(*path.last().unwrap(), (25, 10));
    assert!(path.contains(&(20, 40)));
    let mut prev = (15u8, 10u8);
    for &t in &path {
        assert!((t.0 as i32 - prev.0 as i32).abs() <= 1 && (t.1 as i32 - prev.1 as i32).abs() <= 1);
        assert!(t != prev);
        prev = t;
    }
    assert_eq!(m.find_path((15, 10), (25, 10), &blocked), m.find_path((15, 10), (25, 10), &blocked));
}

#[test]
fn find_path_reports_a_closed_wall() {
    let m = open_test_map(7);
    let mut blocked = vec![false; MAP_TILES];
    for y in 0..64u8 {
        blocked[tile_index(20, y)] = true;
    }
    assert_eq!(m.find_path((15, 10), (25, 10), &blocked), None);
    assert_eq!(m.find_path((15, 10), (15, 10), &blocked), Some(Vec::new()));
    assert_eq!(m.find_path((15, 10), (18, 13), &blocked).map(|p| p.len()), Some(3));
}

#[test]
fn move_group_paths_each_unit_to_its_formation_tile() {
    let mut g = open_game(0);
    let a = spawn_unit(&mut g, Player::P0, UnitType::Infantry, (20, 20));
    let b = spawn_unit(&mut g, Player::P0, UnitType::Infantry, (21, 20));
    let blocked = g.blocked_grid();
    let r = g.apply_commands(
        Player::P0,
        &[Command::MoveGroup {
            player: Player::P0,
            units: vec![a, b],
            waypoint: (30, 30),
            stance: Stance::Aggressive,
        }],
    );
    assert_eq!(r, vec![Ok(())]);
    for (k, id) in [a, b].iter().enumerate() {
        let u = g.units.iter().find(|u| u.id == *id).unwrap();
        let goal = crucible::movement::formation_tile((30, 30), k, &g.map, &blocked);
        let start = u.pos.tile();
        let expected = g.map.find_path(start, goal, &blocked).unwrap_or_default();
        assert!(!expected.is_empty());
        assert_eq!(u.path, expected);
        let last = *expected.last().unwrap();
        match u.order {
            UnitOrder::Move { waypoint, .. } => assert_eq!(waypoint, Pos::from_tile(last.0, last.1)),
            _ => panic!("unit not moving"),
        }
    }
}
