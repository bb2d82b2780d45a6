//! The complete player action space and its single validator.
//!
//! Humans, AI commanders, ghosts and tests all issue commands through
//! [`Game::validate_command`]; an illegal command is rejected with a reason and
//! there is no path that bypasses validation.
use vstd::prelude::*;

use crate::entity::{
    building_produces, building_stats, produces, spec_building_stats, spec_produces,
    spec_unit_stats, unit_stats, Building, BuildingType, EntityId, Player, Stance, UnitType,
    Upgrade, PLACE_RADIUS_TILES,
};
use crate::fixed::{dist2, spec_dist2, spec_tile_center, tile_center, FIX_SCALE};
use crate::game::{Game, UnitQuery, REPAIR_COST};

verus! {

/// A player command.
#[derive(Debug, PartialEq)]
pub enum Command {
    PlaceBuilding { player: Player, btype: BuildingType, tile: (u8, u8) },
    TrainUnit { player: Player, building: EntityId, utype: UnitType },
    MoveGroup { player: Player, units: Vec<EntityId>, waypoint: (u8, u8), stance: Stance },
    /// Focus-fire: every listed unit locks onto one enemy entity.
    Attack { player: Player, units: Vec<EntityId>, target: EntityId },
    SetRally { player: Player, building: EntityId, waypoint: (u8, u8) },
    ChooseUpgrade { player: Player, lab: EntityId, upgrade: Upgrade },
    Sell { player: Player, building: EntityId },
    Repair { player: Player, building: EntityId },
}

/// Why a command was rejected.
#[derive(Clone, Copy, PartialEq, Eq, Structural, Debug)]
pub enum CommandError {
    NotYourEntity,
    EntityDead,
    NotABuilding,
    NotAUnit,
    InvalidTile,
    TileBlocked,
    TileHasOre,
    TooFarFromBase,
    NotEnoughOre,
    BuildingCannotTrain,
    RequiresTechLab,
    RequiresFactory,
    UpgradeAlreadyChosen,
    CantSellHq,
    BuildingFullHealth,
    EmptyGroup,
    QueueFull,
    /// Dropped by the APM budget (rate limit).
    RateLimited,
}

impl CommandError {
    /// The error's name, as a sequence of characters.
    pub open spec fn name_spec(self) -> Seq<char> {
        match self {
            CommandError::NotYourEntity => "NotYourEntity"@,
            CommandError::EntityDead => "EntityDead"@,
            CommandError::NotABuilding => "NotABuilding"@,
            CommandError::NotAUnit => "NotAUnit"@,
            CommandError::InvalidTile => "InvalidTile"@,
            CommandError::TileBlocked => "TileBlocked"@,
            CommandError::TileHasOre => "TileHasOre"@,
            CommandError::TooFarFromBase => "TooFarFromBase"@,
            CommandError::NotEnoughOre => "NotEnoughOre"@,
            CommandError::BuildingCannotTrain => "BuildingCannotTrain"@,
            CommandError::RequiresTechLab => "RequiresTechLab"@,
            CommandError::RequiresFactory => "RequiresFactory"@,
            CommandError::UpgradeAlreadyChosen => "UpgradeAlreadyChosen"@,
            CommandError::CantSellHq => "CantSellHq"@,
            CommandError::BuildingFullHealth => "BuildingFullHealth"@,
            CommandError::EmptyGroup => "EmptyGroup"@,
            CommandError::QueueFull => "QueueFull"@,
            CommandError::RateLimited => "RateLimited"@,
        }
    }

    /// The error's name, as shown to players.
    pub fn describe(&self) -> (s: &'static str)
        ensures
            s@ == self.name_spec(),
    {
        match self {
            CommandError::NotYourEntity => "NotYourEntity",
            CommandError::EntityDead => "EntityDead",
            CommandError::NotABuilding => "NotABuilding",
            CommandError::NotAUnit => "NotAUnit",
            CommandError::InvalidTile => "InvalidTile",
            CommandError::TileBlocked => "TileBlocked",
            CommandError::TileHasOre => "TileHasOre",
            CommandError::TooFarFromBase => "TooFarFromBase",
            CommandError::NotEnoughOre => "NotEnoughOre",
            CommandError::BuildingCannotTrain => "BuildingCannotTrain",
            CommandError::RequiresTechLab => "RequiresTechLab",
            CommandError::RequiresFactory => "RequiresFactory",
            CommandError::UpgradeAlreadyChosen => "UpgradeAlreadyChosen",
            CommandError::CantSellHq => "CantSellHq",
            CommandError::BuildingFullHealth => "BuildingFullHealth",
            CommandError::EmptyGroup => "EmptyGroup",
            CommandError::QueueFull => "QueueFull",
            CommandError::RateLimited => "RateLimited",
        }
    }
}

/// A copy of a list of entity ids.
pub fn copy_ids(v: &Vec<EntityId>) -> (r: Vec<EntityId>)
    ensures
        r@ == v@,
{
    let mut r: Vec<EntityId> = Vec::new();
    let mut i: usize = 0;
    while i < v.len()
        invariant
            0 <= i <= v.len(),
            r@ == v@.subrange(0, i as int),
        decreases v.len() - i,
    {
        r.push(v[i]);
        i += 1;
        assert(r@ =~= v@.subrange(0, i as int));
    }
    assert(r@ =~= v@);
    r
}

impl Command {
    /// The issuing player of a command.
    pub open spec fn issuer(self) -> Player {
        match self {
            Command::PlaceBuilding { player, .. } => player,
            Command::TrainUnit { player, .. } => player,
            Command::MoveGroup { player, .. } => player,
            Command::Attack { player, .. } => player,
            Command::SetRally { player, .. } => player,
            Command::ChooseUpgrade { player, .. } => player,
            Command::Sell { player, .. } => player,
            Command::Repair { player, .. } => player,
        }
    }

    /// The same command issued by `p` (unit lists compared by content).
    pub open spec fn reissued(self, other: Command, p: Player) -> bool {
        match (self, other) {
            (
                Command::PlaceBuilding { btype: a, tile: b, .. },
                Command::PlaceBuilding { player: q, btype: c, tile: d },
            ) => a == c && b == d && q == p,
            (
                Command::TrainUnit { building: a, utype: b, .. },
                Command::TrainUnit { player: q, building: c, utype: d },
            ) => a == c && b == d && q == p,
            (
                Command::MoveGroup { units: a, waypoint: b, stance: s, .. },
                Command::MoveGroup { player: q, units: c, waypoint: d, stance: t },
            ) => a@ == c@ && b == d && s == t && q == p,
            (
                Command::Attack { units: a, target: b, .. },
                Command::Attack { player: q, units: c, target: d },
            ) => a@ == c@ && b == d && q == p,
            (
                Command::SetRally { building: a, waypoint: b, .. },
                Command::SetRally { player: q, building: c, waypoint: d },
            ) => a == c && b == d && q == p,
            (
                Command::ChooseUpgrade { lab: a, upgrade: b, .. },
                Command::ChooseUpgrade { player: q, lab: c, upgrade: d },
            ) => a == c && b == d && q == p,
            (Command::Sell { building: a, .. }, Command::Sell { player: q, building: c }) => a == c
                && q == p,
            (Command::Repair { building: a, .. }, Command::Repair { player: q, building: c }) => a
                == c && q == p,
            _ => false,
        }
    }

    pub fn player(&self) -> (p: Player)
        ensures
            p == self.issuer(),
    {
        match self {
            Command::PlaceBuilding { player, .. } => *player,
            Command::TrainUnit { player, .. } => *player,
            Command::MoveGroup { player, .. } => *player,
            Command::Attack { player, .. } => *player,
            Command::SetRally { player, .. } => *player,
            Command::ChooseUpgrade { player, .. } => *player,
            Command::Sell { player, .. } => *player,
            Command::Repair { player, .. } => *player,
        }
    }

    /// This command with its issuing player replaced (used by ghosts to replay
    /// a recorded command stream on a fresh match side).
    pub fn with_player(&self, player: Player) -> (c: Command)
        ensures
            self.reissued(c, player),
            c.issuer() == player,
    {
        match self {
            Command::PlaceBuilding { btype, tile, .. } => Command::PlaceBuilding {
                player,
                btype: *btype,
                tile: *tile,
            },
            Command::TrainUnit { building, utype, .. } => Command::TrainUnit {
                player,
                building: *building,
                utype: *utype,
            },
            Command::MoveGroup { units, waypoint, stance, .. } => Command::MoveGroup {
                player,
                units: copy_ids(units),
                waypoint: *waypoint,
                stance: *stance,
            },
            Command::Attack { units, target, .. } => Command::Attack {
                player,
                units: copy_ids(units),
                target: *target,
            },
            Command::SetRally { building, waypoint, .. } => Command::SetRally {
                player,
                building: *building,
                waypoint: *waypoint,
            },
            Command::ChooseUpgrade { lab, upgrade, .. } => Command::ChooseUpgrade {
                player,
                lab: *lab,
                upgrade: *upgrade,
            },
            Command::Sell { building, .. } => Command::Sell { player, building: *building },
            Command::Repair { building, .. } => Command::Repair { player, building: *building },
        }
    }
}

impl Clone for Command {
    fn clone(&self) -> (c: Command)
        ensures
            self.reissued(c, self.issuer()),
    {
        self.with_player(self.player())
    }
}

/// The tile a command refers to ((0, 0) when it names none).
pub fn command_tile(cmd: &Command) -> (t: (u8, u8))
    ensures
        t == match *cmd {
            Command::PlaceBuilding { tile, .. } => tile,
            Command::SetRally { waypoint, .. } => waypoint,
            Command::MoveGroup { waypoint, .. } => waypoint,
            _ => (0u8, 0u8),
        },
{
    match cmd {
        Command::PlaceBuilding { tile, .. } => *tile,
        Command::SetRally { waypoint, .. } => *waypoint,
        Command::MoveGroup { waypoint, .. } => *waypoint,
        _ => (0, 0),
    }
}

/// The placement radius, squared, in fix units.
pub open spec fn place_limit() -> int {
    (PLACE_RADIUS_TILES * FIX_SCALE) * (PLACE_RADIUS_TILES * FIX_SCALE)
}

impl Game {
    /// A tile is inside the map and on passable terrain.
    pub open spec fn spec_validate_tile(self, tile: (u8, u8)) -> Result<(), CommandError> {
        if tile.0 >= 64 || tile.1 >= 64 {
            Err(CommandError::InvalidTile)
        } else if !self.map.passable_at(tile.0 as int, tile.1 as int) {
            Err(CommandError::TileBlocked)
        } else {
            Ok(())
        }
    }

    /// Some own building stands within the placement radius of `tile`.
    pub open spec fn near_own(self, player: Player, tile: (u8, u8)) -> bool {
        exists|i: int|
            0 <= i < self.buildings@.len() && #[trigger] self.buildings@[i].owner == player
                && spec_dist2(
                spec_tile_center(tile.0 as int),
                spec_tile_center(tile.1 as int),
                spec_tile_center(self.buildings@[i].tile.0 as int),
                spec_tile_center(self.buildings@[i].tile.1 as int),
            ) <= place_limit()
    }

    pub open spec fn spec_validate_place(self, player: Player, btype: BuildingType, tile: (u8, u8)) -> Result<
        (),
        CommandError,
    > {
        if btype == BuildingType::Hq {
            Err(CommandError::NotABuilding)
        } else if (btype == BuildingType::TechLab || btype == BuildingType::Airfield)
            && !self.owns_type(player, BuildingType::Factory) {
            Err(CommandError::RequiresFactory)
        } else if self.spec_validate_tile(tile) is Err {
            self.spec_validate_tile(tile)
        } else if self.building_at_idx(tile) is Some {
            Err(CommandError::TileBlocked)
        } else if self.map.ore_amount(tile.0 as int, tile.1 as int) > 0 {
            Err(CommandError::TileHasOre)
        } else if self.ore[player.idx()] < spec_building_stats(btype).cost {
            Err(CommandError::NotEnoughOre)
        } else if !self.near_own(player, tile) {
            Err(CommandError::TooFarFromBase)
        } else {
            Ok(())
        }
    }

    pub open spec fn spec_validate_train(self, player: Player, building: EntityId, utype: UnitType) -> Result<
        (),
        CommandError,
    > {
        match self.spec_building(player, building) {
            None => Err(CommandError::NotYourEntity),
            Some(b) => if b.hp <= 0 {
                Err(CommandError::EntityDead)
            } else if !spec_produces(b.btype).contains(utype) {
                Err(CommandError::BuildingCannotTrain)
            } else if utype == UnitType::Artillery && !self.owns_type(player, BuildingType::TechLab) {
                Err(CommandError::RequiresTechLab)
            } else if self.ore[player.idx()] < spec_unit_stats(utype).cost {
                Err(CommandError::NotEnoughOre)
            } else if b.queue@.len() >= self.config.max_queue {
                Err(CommandError::QueueFull)
            } else {
                Ok(())
            },
        }
    }

    /// Every listed id names a unit of `player`.
    pub open spec fn all_own_units(self, player: Player, units: Seq<EntityId>) -> bool {
        forall|k: int| 0 <= k < units.len() ==> (#[trigger] self.unit_idx(player, units[k])) is Some
    }

    pub open spec fn spec_validate_move(self, player: Player, units: Seq<EntityId>, waypoint: (u8, u8)) -> Result<
        (),
        CommandError,
    > {
        if units.len() == 0 {
            Err(CommandError::EmptyGroup)
        } else if !self.all_own_units(player, units) {
            Err(CommandError::NotYourEntity)
        } else {
            self.spec_validate_tile(waypoint)
        }
    }

    /// An alive enemy entity (unit or building) with this id exists.
    pub open spec fn enemy_alive(self, player: Player, target: EntityId) -> bool {
        ||| exists|i: int|
            0 <= i < self.units@.len() && #[trigger] self.units@[i].id == target
                && self.units@[i].owner == player.opponent() && self.units@[i].hp > 0
        ||| exists|i: int|
            0 <= i < self.buildings@.len() && #[trigger] self.buildings@[i].id == target
                && self.buildings@[i].owner == player.opponent() && self.buildings@[i].hp > 0
    }

    pub open spec fn spec_validate_attack(self, player: Player, units: Seq<EntityId>, target: EntityId) -> Result<
        (),
        CommandError,
    > {
        if units.len() == 0 {
            Err(CommandError::EmptyGroup)
        } else if !self.all_own_units(player, units) {
            Err(CommandError::NotYourEntity)
        } else if !self.enemy_alive(player, target) {
            Err(CommandError::EntityDead)
        } else {
            Ok(())
        }
    }

    /// The validator's verdict on a command.
    pub open spec fn spec_validate(self, cmd: Command) -> Result<(), CommandError> {
        match cmd {
            Command::PlaceBuilding { player, btype, tile } => self.spec_validate_place(
                player,
                btype,
                tile,
            ),
            Command::TrainUnit { player, building, utype } => self.spec_validate_train(
                player,
                building,
                utype,
            ),
            Command::MoveGroup { player, units, waypoint, .. } => self.spec_validate_move(
                player,
                units@,
                waypoint,
            ),
            Command::Attack { player, units, target } => self.spec_validate_attack(
                player,
                units@,
                target,
            ),
            Command::SetRally { player, building, waypoint } => match self.spec_building(
                player,
                building,
            ) {
                None => Err(CommandError::NotYourEntity),
                Some(b) => if b.hp <= 0 {
                    Err(CommandError::EntityDead)
                } else if spec_produces(b.btype).len() > 0 {
                    self.spec_validate_tile(waypoint)
                } else {
                    Err(CommandError::NotABuilding)
                },
            },
            Command::ChooseUpgrade { player, lab, upgrade } => if upgrade == Upgrade::NoUpgrade {
                Err(CommandError::UpgradeAlreadyChosen)
            } else {
                match self.spec_building(player, lab) {
                    None => Err(CommandError::NotYourEntity),
                    Some(b) => if b.hp <= 0 {
                        Err(CommandError::EntityDead)
                    } else if b.btype != BuildingType::TechLab {
                        Err(CommandError::NotABuilding)
                    } else if self.upgrades[player.idx()] != Upgrade::NoUpgrade {
                        Err(CommandError::UpgradeAlreadyChosen)
                    } else {
                        Ok(())
                    },
                }
            },
            Command::Sell { player, building } => match self.spec_building(player, building) {
                None => Err(CommandError::NotYourEntity),
                Some(b) => if b.hp <= 0 {
                    Err(CommandError::EntityDead)
                } else if b.btype == BuildingType::Hq {
                    Err(CommandError::CantSellHq)
                } else {
                    Ok(())
                },
            },
            Command::Repair { player, building } => match self.spec_building(player, building) {
                None => Err(CommandError::NotYourEntity),
                Some(b) => if b.hp <= 0 {
                    Err(CommandError::EntityDead)
                } else if b.hp >= b.max_hp {
                    Err(CommandError::BuildingFullHealth)
                } else if self.ore[player.idx()] < REPAIR_COST {
                    Err(CommandError::NotEnoughOre)
                } else {
                    Ok(())
                },
            },
        }
    }

    /// Validate a command against the current state. Pure: mutates nothing.
    pub fn validate_command(&self, cmd: &Command) -> (r: Result<(), CommandError>)
        requires
            self.wf(),
        ensures
            r == self.spec_validate(*cmd),
    {
        match cmd {
            Command::PlaceBuilding { player, btype, tile } => self.validate_place(
                *player,
                *btype,
                *tile,
            ),
            Command::TrainUnit { player, building, utype } => self.validate_train(
                *player,
                *building,
                *utype,
            ),
            Command::MoveGroup { player, units, waypoint, .. } => self.validate_move(
                *player,
                units,
                *waypoint,
            ),
            Command::Attack { player, units, target } => self.validate_attack(
                *player,
                units,
                *target,
            ),
            Command::SetRally { player, building, waypoint } => {
                match self.building(*player, *building) {
                    None => Err(CommandError::NotYourEntity),
                    Some(b) => {
                        if !b.is_alive() {
                            Err(CommandError::EntityDead)
                        } else if building_produces(b.btype).len() > 0 {
                            self.validate_tile(*waypoint)
                        } else {
                            Err(CommandError::NotABuilding)
                        }
                    },
                }
            },
            Command::ChooseUpgrade { player, lab, upgrade } => {
                if *upgrade == Upgrade::NoUpgrade {
                    return Err(CommandError::UpgradeAlreadyChosen);
                }
                match self.building(*player, *lab) {
                    None => Err(CommandError::NotYourEntity),
                    Some(b) => {
                        if !b.is_alive() {
                            Err(CommandError::EntityDead)
                        } else if b.btype != BuildingType::TechLab {
                            Err(CommandError::NotABuilding)
                        } else if self.upgrades[player.index()] != Upgrade::NoUpgrade {
                            Err(CommandError::UpgradeAlreadyChosen)
                        } else {
                            Ok(())
                        }
                    },
                }
            },
            Command::Sell { player, building } => {
                match self.building(*player, *building) {
                    None => Err(CommandError::NotYourEntity),
                    Some(b) => {
                        if !b.is_alive() {
                            Err(CommandError::EntityDead)
                        } else if b.btype == BuildingType::Hq {
                            Err(CommandError::CantSellHq)
                        } else {
                            Ok(())
                        }
                    },
                }
            },
            Command::Repair { player, building } => {
                match self.building(*player, *building) {
                    None => Err(CommandError::NotYourEntity),
                    Some(b) => {
                        if !b.is_alive() {
                            Err(CommandError::EntityDead)
                        } else if b.hp >= b.max_hp {
                            Err(CommandError::BuildingFullHealth)
                        } else if self.ore[player.index()] < REPAIR_COST {
                            Err(CommandError::NotEnoughOre)
                        } else {
                            Ok(())
                        }
                    },
                }
            },
        }
    }

    fn validate_place(&self, player: Player, btype: BuildingType, tile: (u8, u8)) -> (r: Result<
        (),
        CommandError,
    >)
        requires
            self.wf(),
        ensures
            r == self.spec_validate_place(player, btype, tile),
    {
        if btype == BuildingType::Hq {
            return Err(CommandError::NotABuilding);
        }
        if (btype == BuildingType::TechLab || btype == BuildingType::Airfield) && self.count_buildings(
            player,
            BuildingType::Factory,
        ) == 0 {
            return Err(CommandError::RequiresFactory);
        }
        let t = self.validate_tile(tile);
        if t.is_err() {
            return t;
        }
        if self.building_at(tile).is_some() {
            return Err(CommandError::TileBlocked);
        }
        if self.map.ore_at(tile.0, tile.1) > 0 {
            return Err(CommandError::TileHasOre);
        }
        let cost = building_stats(btype).cost;
        if self.ore[player.index()] < cost {
            return Err(CommandError::NotEnoughOre);
        }
        if !self.near_own_building(player, tile) {
            return Err(CommandError::TooFarFromBase);
        }
        Ok(())
    }

    fn validate_train(&self, player: Player, building: EntityId, utype: UnitType) -> (r: Result<
        (),
        CommandError,
    >)
        requires
            self.wf(),
        ensures
            r == self.spec_validate_train(player, building, utype),
    {
        let b = match self.building(player, building) {
            None => {
                return Err(CommandError::NotYourEntity);
            },
            Some(b) => b,
        };
        if !b.is_alive() {
            return Err(CommandError::EntityDead);
        }
        if !produces(b.btype, utype) {
            return Err(CommandError::BuildingCannotTrain);
        }
        if utype == UnitType::Artillery && self.count_buildings(
            player,
            BuildingType::TechLab,
        ) == 0 {
            return Err(CommandError::RequiresTechLab);
        }
        let cost = unit_stats(utype).cost;
        if self.ore[player.index()] < cost {
            return Err(CommandError::NotEnoughOre);
        }
        if b.queue.len() >= self.config.max_queue {
            return Err(CommandError::QueueFull);
        }
        Ok(())
    }

    /// Whether every listed id names a unit of `player`.
    fn owns_all(&self, player: Player, units: &Vec<EntityId>) -> (r: bool)
        ensures
            r == self.all_own_units(player, units@),
    {
        let mut k: usize = 0;
        while k < units.len()
            invariant
                0 <= k <= units.len(),
                forall|j: int| 0 <= j < k ==> (#[trigger] self.unit_idx(player, units@[j])) is Some,
            decreases units.len() - k,
        {
            if self.find_unit(UnitQuery::Own(player, units[k])).is_none() {
                assert(self.unit_idx(player, units@[k as int]) is None);
                return false;
            }
            k += 1;
        }
        true
    }

    fn validate_move(&self, player: Player, units: &Vec<EntityId>, waypoint: (u8, u8)) -> (r: Result<
        (),
        CommandError,
    >)
        requires
            self.wf(),
        ensures
            r == self.spec_validate_move(player, units@, waypoint),
    {
        if units.len() == 0 {
            return Err(CommandError::EmptyGroup);
        }
        if !self.owns_all(player, units) {
            return Err(CommandError::NotYourEntity);
        }
        self.validate_tile(waypoint)
    }

    /// Whether an alive enemy entity with id `target` exists.
    fn enemy_alive_exec(&self, player: Player, target: EntityId) -> (r: bool)
        ensures
            r == self.enemy_alive(player, target),
    {
        let enemy = player.enemy();
        let mut i: usize = 0;
        while i < self.units.len()
            invariant
                0 <= i <= self.units@.len(),
                enemy == player.opponent(),
                forall|j: int|
                    0 <= j < i ==> !(#[trigger] self.units@[j].id == target && self.units@[j].owner
                        == enemy && self.units@[j].hp > 0),
            decreases self.units.len() - i,
        {
            let u = &self.units[i];
            if u.id == target && u.owner == enemy && u.hp > 0 {
                return true;
            }
            i += 1;
        }
        let mut i: usize = 0;
        while i < self.buildings.len()
            invariant
                0 <= i <= self.buildings@.len(),
                enemy == player.opponent(),
                forall|j: int|
                    0 <= j < self.units@.len() ==> !(#[trigger] self.units@[j].id == target
                        && self.units@[j].owner == enemy && self.units@[j].hp > 0),
                forall|j: int|
                    0 <= j < i ==> !(#[trigger] self.buildings@[j].id == target
                        && self.buildings@[j].owner == enemy && self.buildings@[j].hp > 0),
            decreases self.buildings.len() - i,
        {
            let b = &self.buildings[i];
            if b.id == target && b.owner == enemy && b.hp > 0 {
                return true;
            }
            i += 1;
        }
        false
    }

    fn validate_attack(&self, player: Player, units: &Vec<EntityId>, target: EntityId) -> (r: Result<
        (),
        CommandError,
    >)
        requires
            self.wf(),
        ensures
            r == self.spec_validate_attack(player, units@, target),
    {
        if units.len() == 0 {
            return Err(CommandError::EmptyGroup);
        }
        if !self.owns_all(player, units) {
            return Err(CommandError::NotYourEntity);
        }
        if !self.enemy_alive_exec(player, target) {
            return Err(CommandError::EntityDead);
        }
        Ok(())
    }

    fn validate_tile(&self, tile: (u8, u8)) -> (r: Result<(), CommandError>)
        requires
            self.wf(),
        ensures
            r == self.spec_validate_tile(tile),
    {
        if tile.0 >= 64 || tile.1 >= 64 {
            return Err(CommandError::InvalidTile);
        }
        if !self.map.is_passable(tile.0, tile.1) {
            return Err(CommandError::TileBlocked);
        }
        Ok(())
    }

    /// The target tile lies within [`PLACE_RADIUS_TILES`] of at least one own
    /// building (any building of the player), which keeps a base one
    /// connected clump.
    fn near_own_building(&self, player: Player, tile: (u8, u8)) -> (r: bool)
        ensures
            r == self.near_own(player, tile),
    {
        let cx = tile_center(tile.0);
        let cy = tile_center(tile.1);
        let lim: i64 = (PLACE_RADIUS_TILES as i64 * FIX_SCALE as i64) * (PLACE_RADIUS_TILES as i64
            * FIX_SCALE as i64);
        let mut i: usize = 0;
        while i < self.buildings.len()
            invariant
                0 <= i <= self.buildings@.len(),
                cx == spec_tile_center(tile.0 as int),
                cy == spec_tile_center(tile.1 as int),
                lim == place_limit(),
                forall|j: int|
                    0 <= j < i ==> !(#[trigger] self.buildings@[j].owner == player && spec_dist2(
                        spec_tile_center(tile.0 as int),
                        spec_tile_center(tile.1 as int),
                        spec_tile_center(self.buildings@[j].tile.0 as int),
                        spec_tile_center(self.buildings@[j].tile.1 as int),
                    ) <= place_limit()),
            decreases self.buildings.len() - i,
        {
            let b = &self.buildings[i];
            if b.owner == player {
                let px = tile_center(b.tile.0);
                let py = tile_center(b.tile.1);
                if dist2(cx, cy, px, py) <= lim {
                    return true;
                }
            }
            i += 1;
        }
        false
    }

    /// How many buildings of `btype` the player owns.
    pub fn count_buildings(&self, player: Player, btype: BuildingType) -> (n: usize)
        ensures
            n == count_type(self.buildings@, player, btype),
            (n == 0) == !self.owns_type(player, btype),
    {
        let mut n: usize = 0;
        let mut i: usize = 0;
        while i < self.buildings.len()
            invariant
                0 <= i <= self.buildings@.len(),
                n == count_type(self.buildings@.subrange(0, i as int), player, btype),
                n <= i,
            decreases self.buildings.len() - i,
        {
            let b = &self.buildings[i];
            proof {
                assert(self.buildings@.subrange(0, i + 1).drop_last() =~= self.buildings@.subrange(
                    0,
                    i as int,
                ));
            }
            if b.owner == player && b.btype == btype {
                n += 1;
            }
            i += 1;
        }
        proof {
            assert(self.buildings@.subrange(0, self.buildings@.len() as int) =~= self.buildings@);
            lemma_count_type_zero(self.buildings@, player, btype);
        }
        n
    }

    /// Whether no building stands on `tile`.
    pub fn tile_is_empty(&self, tile: (u8, u8)) -> (r: bool)
        ensures
            r == (self.building_at_idx(tile) is None),
    {
        self.building_at(tile).is_none()
    }
}

/// The number of buildings of one type owned by a player.
pub open spec fn count_type(s: Seq<Building>, player: Player, btype: BuildingType) -> nat
    decreases s.len(),
{
    if s.len() == 0 {
        0
    } else {
        count_type(s.drop_last(), player, btype) + if s.last().owner == player && s.last().btype
            == btype {
            1nat
        } else {
            0nat
        }
    }
}

pub proof fn lemma_count_type_zero(s: Seq<Building>, player: Player, btype: BuildingType)
    ensures
        (count_type(s, player, btype) == 0) == !(exists|i: int|
            0 <= i < s.len() && #[trigger] s[i].owner == player && s[i].btype == btype),
    decreases s.len(),
{
    if s.len() > 0 {
        lemma_count_type_zero(s.drop_last(), player, btype);
        if count_type(s.drop_last(), player, btype) == 0 {
            if s.last().owner == player && s.last().btype == btype {
            } else {
                assert forall|i: int| 0 <= i < s.len() && #[trigger] s[i].owner == player implies s[i].btype
                    != btype by {
                    if i < s.len() - 1 {
                        assert(s[i] == s.drop_last()[i]);
                    }
                }
            }
        } else {
            let i = choose|i: int|
                0 <= i < s.drop_last().len() && #[trigger] s.drop_last()[i].owner == player
                    && s.drop_last()[i].btype == btype;
            assert(s[i] == s.drop_last()[i]);
        }
    }
}

/// A player's headquarters can never be sold: a sell order naming a live HQ
/// of the player is refused with `CantSellHq` and leaves the game as it was,
/// and a sell order that goes through names a building that is no HQ; any
/// other live building of the player passes the validator.
pub proof fn law_hq_cannot_be_sold(g: Game, new: Game, p: Player, b: EntityId, res: Result<
    (),
    CommandError,
>)
    requires
        g.command_outcome(new, p, Command::Sell { player: p, building: b }, res),
    ensures
        (g.spec_building(p, b) matches Some(x) && x.hp > 0 && x.btype == BuildingType::Hq) ==> {
            &&& g.spec_validate(Command::Sell { player: p, building: b }) == Err::<(), CommandError>(
                CommandError::CantSellHq,
            )
            &&& res == Err::<(), CommandError>(CommandError::CantSellHq)
            &&& new == g
        },
        res is Ok ==> (g.spec_building(p, b) matches Some(x) && x.hp > 0 && x.btype
            != BuildingType::Hq),
        (g.spec_building(p, b) matches Some(x) && x.hp > 0 && x.btype != BuildingType::Hq)
            ==> g.spec_validate(Command::Sell { player: p, building: b }) is Ok,
{
}

} // verus!
