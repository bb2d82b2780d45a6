use crucible::entity::{BuildingType, Player, UnitType};
use crucible::game::{GameConfig, WinReason};
use crucible::orders::Command;
use crucible::scripted::hard;
use crucible::session::{build_diff, EntityKind, Session};

fn human_build(s: &Session) -> Command {
    let hq = s.game.map.hq_tiles[0];
    let x = if hq.0 < 32 { hq.0 + 2 } else { hq.0 - 2 };
    Command::PlaceBuilding { player: Player::P0, btype: BuildingType::Refinery, tile: (x, hq.1) }
}

#[test]
fn session_logs_bot_then_human_on_a_command_tick() {
    let mut s = Session::new(7, GameConfig::default());
    let mut bot = hard();
    let mut pending = vec![human_build(&s)];
    let t = s.advance(&mut bot, &mut pending);
    assert!(pending.is_empty());
    assert_eq!(s.game.tick, 1);
    assert_eq!(t.diff.tick, 1);
    assert!(t.result.is_none());
    let log = &s.replay.commands;
    assert!(log.len() >= 2, "bot and human commands are both logged");
    let last = log.last().unwrap();
    assert_eq!(last.player, Player::P0);
    assert_eq!(last.tick, 0);
    assert_eq!(last.command, human_build(&s));
    for e in &log[..log.len() - 1] {
        assert_eq!(e.player, Player::P1);
        assert_eq!(e.tick, 0);
    }
    // The human's refinery went through the normal validation.
    assert!(s
        .game
        .buildings
        .iter()
        .any(|b| b.owner == Player::P0 && b.btype == BuildingType::Refinery));
}

#[test]
fn session_applies_human_commands_on_every_tick() {
    let mut s = Session::new(7, GameConfig::default());
    let mut bot = hard();
    let mut pending = Vec::new();
    s.advance(&mut bot, &mut pending);
    let logged = s.replay.commands.len();
    let mut pending = vec![human_build(&s)];
    s.advance(&mut bot, &mut pending);
    assert!(pending.is_empty(), "off-beat human commands are taken at once");
    assert_eq!(s.replay.commands.len(), logged + 1);
    let last = s.replay.commands.last().unwrap();
    assert_eq!(last.player, Player::P0);
    assert_eq!(last.tick, 1);
    assert_eq!(s.game.tick, 2);
    assert!(s
        .game
        .buildings
        .iter()
        .any(|b| b.owner == Player::P0 && b.btype == BuildingType::Refinery));
}

#[test]
fn diff_shows_own_base_and_only_fogged_enemy() {
    let s = Session::new(11, GameConfig::default());
    let d = build_diff(&s.game, 0);
    assert_eq!(d.tick, 0);
    assert_eq!(d.ore, s.game.ore[0]);
    let own: Vec<_> = d.entities.iter().filter(|e| e.owner == 0).collect();
    assert!(own.iter().any(|e| e.kind == EntityKind::Building(BuildingType::Hq) && e.hp > 0));
    assert!(own.iter().any(|e| e.kind == EntityKind::Unit(UnitType::Harvester)));
    assert!(own.iter().all(|e| e.stale.is_none()));
    for e in d.entities.iter().filter(|e| e.owner == 1) {
        assert_eq!(e.hp, 0);
        assert!(e.stale.is_some());
    }
    assert!(!d.visible.is_empty());
    assert!(d.visible.windows(2).all(|w| w[0] < w[1]));
    assert!(d.ore_tiles.iter().all(|t| t.amount > 0));
}

#[test]
fn diff_reports_only_events_after_the_last_tick() {
    let mut s = Session::new(7, GameConfig::default());
    let mut bot = hard();
    let mut pending = Vec::new();
    let first = s.advance(&mut bot, &mut pending);
    assert!(first.diff.events.iter().all(|e| e.tick > 0));
    let second = s.advance(&mut bot, &mut pending);
    assert!(second.diff.events.iter().all(|e| e.tick > 1));
    assert_eq!(s.last_event_tick, 2);
}

#[test]
fn session_ends_with_the_logged_result() {
    let cfg = GameConfig { timeout_ticks: 45, ..GameConfig::default() };
    let mut s = Session::new(3, cfg);
    let mut bot = hard();
    let mut pending = Vec::new();
    let mut end = None;
    for _ in 0..100 {
        let t = s.advance(&mut bot, &mut pending);
        if t.result.is_some() {
            end = t.result;
            break;
        }
    }
    let r = end.expect("the match reaches its timeout");
    assert_eq!(r.reason, Some(WinReason::Timeout));
    assert_eq!(r.duration_ticks, s.game.tick);
    assert_eq!(s.replay.result, Some(r));
}
