//! The commander's observation: its own full state plus a [`FogView`] of
//! the enemy. It never holds the live state of hidden enemy entities; every
//! enemy fact in it comes from the fog view.
use vstd::prelude::*;

use crate::entity::{Building, BuildingType, Player, Unit, UnitType, Upgrade};
use crate::fog::{
    building_in_view, building_sees, lemma_upsert_units_inside, seen_by_buildings, seen_by_units, unit_in_view,
    unit_sees, upsert_buildings, upsert_units, visible_grid, visible_tile, FogView, RememberedBuilding,
    RememberedUnit,
};
use crate::game::{building_query, first_where, lemma_first_where, BuildingQuery, Game};
use crate::map::in_map;

verus! {

/// Time window (ticks) over which remembered enemy sightings decay to zero.
pub const DECAY_TICKS: i32 = 300;

/// The feature-vector dimension: two stacked command ticks of observation.
pub const FEATURE_DIM: usize = 224;

/// An own building as the feature extractor sees it.
#[derive(Clone, Copy, Debug)]
pub struct OwnBuilding {
    pub btype: BuildingType,
    pub queue_len: usize,
    pub hp: i32,
    pub max_hp: i32,
}

/// The commander's legal observation: own state complete, the enemy only
/// through the fog view.
#[derive(Debug)]
pub struct FeatureInput {
    pub tick: i32,
    pub ore: i32,
    pub upgrade: Upgrade,
    pub own_units: Vec<UnitType>,
    pub own_buildings: Vec<OwnBuilding>,
    pub own_hq_tile: (u8, u8),
    pub fog: FogView,
}

/// The types of `p`'s alive units, in list order.
pub open spec fn own_unit_types(s: Seq<Unit>, p: Player) -> Seq<UnitType>
    decreases s.len(),
{
    if s.len() == 0 {
        Seq::empty()
    } else if s.last().owner == p && s.last().hp > 0 {
        own_unit_types(s.drop_last(), p).push(s.last().utype)
    } else {
        own_unit_types(s.drop_last(), p)
    }
}

/// What the extractor sees of an own building.
pub open spec fn own_view(b: Building) -> OwnBuilding {
    OwnBuilding { btype: b.btype, queue_len: b.queue@.len() as usize, hp: b.hp, max_hp: b.max_hp }
}

/// `p`'s alive buildings as the extractor sees them, in list order.
pub open spec fn own_building_views(s: Seq<Building>, p: Player) -> Seq<OwnBuilding>
    decreases s.len(),
{
    if s.len() == 0 {
        Seq::empty()
    } else if s.last().owner == p && s.last().hp > 0 {
        own_building_views(s.drop_last(), p).push(own_view(s.last()))
    } else {
        own_building_views(s.drop_last(), p)
    }
}

/// `p`'s HQ tile, or its starting HQ tile once the HQ is gone.
pub open spec fn own_hq(g: Game, p: Player) -> (u8, u8) {
    match g.hq_idx(p) {
        Some(i) => g.buildings@[i].tile,
        None => g.map.hq_tiles[p.idx()],
    }
}

impl FeatureInput {
    /// Every remembered enemy position lies inside the world.
    pub open spec fn wf(self) -> bool {
        &&& forall|k: int|
            0 <= k < self.fog.units@.len() ==> (#[trigger] self.fog.units@[k]).pos.inside()
        &&& in_map(self.own_hq_tile)
    }

    /// Build the observation of `player` from the current game.
    pub fn from_game(game: &Game, player: Player) -> (f: FeatureInput)
        requires
            game.wf(),
        ensures
            f.tick == game.tick,
            f.ore == game.ore[player.idx()],
            f.upgrade == game.upgrades[player.idx()],
            f.own_units@ == own_unit_types(game.units@, player),
            f.own_buildings@ == own_building_views(game.buildings@, player),
            f.own_hq_tile == own_hq(*game, player),
            f.fog.player == player,
            f.fog.visible@ == visible_grid(*game, player),
            f.fog.units@ == upsert_units(
                game.fog[player.idx()].units@,
                game.units@,
                player.opponent(),
                visible_grid(*game, player),
                game.tick,
            ),
            f.fog.buildings@ == upsert_buildings(
                game.fog[player.idx()].buildings@,
                game.buildings@,
                player.opponent(),
                visible_grid(*game, player),
                game.tick,
            ),
            f.fog.known_ore@ == game.fog[player.idx()].known_ore@,
            f.fog.explored@ == game.fog[player.idx()].explored@,
            f.wf(),
    {
        let mut own_units: Vec<UnitType> = Vec::new();
        let mut i: usize = 0;
        while i < game.units.len()
            invariant
                0 <= i <= game.units@.len(),
                own_units@ == own_unit_types(game.units@.subrange(0, i as int), player),
            decreases game.units.len() - i,
        {
            assert(game.units@.subrange(0, i + 1).drop_last() =~= game.units@.subrange(0, i as int));
            let u = &game.units[i];
            if u.owner == player && u.is_alive() {
                own_units.push(u.utype);
            }
            i += 1;
        }
        assert(game.units@.subrange(0, game.units@.len() as int) =~= game.units@);
        let mut own_buildings: Vec<OwnBuilding> = Vec::new();
        let mut k: usize = 0;
        while k < game.buildings.len()
            invariant
                0 <= k <= game.buildings@.len(),
                own_buildings@ == own_building_views(game.buildings@.subrange(0, k as int), player),
            decreases game.buildings.len() - k,
        {
            assert(game.buildings@.subrange(0, k + 1).drop_last() =~= game.buildings@.subrange(
                0,
                k as int,
            ));
            let b = &game.buildings[k];
            if b.owner == player && b.is_alive() {
                own_buildings.push(
                    OwnBuilding {
                        btype: b.btype,
                        queue_len: b.queue.len(),
                        hp: b.hp,
                        max_hp: b.max_hp,
                    },
                );
            }
            k += 1;
        }
        assert(game.buildings@.subrange(0, game.buildings@.len() as int) =~= game.buildings@);
        let own_hq_tile = match game.hq(player) {
            Some(b) => {
                proof {
                    assert(game.buildings@[game.hq_idx(player)->0].wf()) by {
                        crate::game::lemma_first_where(
                            game.buildings@,
                            crate::game::building_query(crate::game::BuildingQuery::Hq(player)),
                            0,
                        );
                    }
                }
                b.tile
            },
            None => game.map.hq_tiles[player.index()],
        };
        proof {
            assert forall|i: int| 0 <= i < game.units@.len() implies (
            #[trigger] game.units@[i]).pos.inside() by {
                assert(game.units@[i].wf());
            }
            lemma_upsert_units_inside(
                game.fog[player.idx()].units@,
                game.units@,
                player.opponent(),
                visible_grid(*game, player),
                game.tick,
            );
        }
        FeatureInput {
            tick: game.tick,
            ore: game.ore[player.index()],
            upgrade: game.upgrades[player.index()],
            own_units,
            own_buildings,
            own_hq_tile,
            fog: game.fog_view(player),
        }
    }
}

/// `p`'s units in `s`, in list order.
pub open spec fn side_units(s: Seq<Unit>, p: Player) -> Seq<Unit>
    decreases s.len(),
{
    if s.len() == 0 {
        Seq::empty()
    } else if s.last().owner == p {
        side_units(s.drop_last(), p).push(s.last())
    } else {
        side_units(s.drop_last(), p)
    }
}

/// `p`'s buildings in `s`, in list order.
pub open spec fn side_buildings(s: Seq<Building>, p: Player) -> Seq<Building>
    decreases s.len(),
{
    if s.len() == 0 {
        Seq::empty()
    } else if s.last().owner == p {
        side_buildings(s.drop_last(), p).push(s.last())
    } else {
        side_buildings(s.drop_last(), p)
    }
}

/// The units of `enemy` in `s` that stand on tiles of `visible`, in order.
pub open spec fn units_in_view(s: Seq<Unit>, enemy: Player, visible: Seq<bool>) -> Seq<Unit>
    decreases s.len(),
{
    if s.len() == 0 {
        Seq::empty()
    } else if unit_in_view(s.last(), enemy, visible) {
        units_in_view(s.drop_last(), enemy, visible).push(s.last())
    } else {
        units_in_view(s.drop_last(), enemy, visible)
    }
}

/// The buildings of `enemy` in `s` on tiles of `visible`, in order.
pub open spec fn buildings_in_view(s: Seq<Building>, enemy: Player, visible: Seq<bool>) -> Seq<
    Building,
>
    decreases s.len(),
{
    if s.len() == 0 {
        Seq::empty()
    } else if building_in_view(s.last(), enemy, visible) {
        buildings_in_view(s.drop_last(), enemy, visible).push(s.last())
    } else {
        buildings_in_view(s.drop_last(), enemy, visible)
    }
}

/// `g1` and `g2` look alike to `p`: the same tick, bank, upgrade, fog
/// memory and starting HQ tile of `p`, the same units and buildings of `p`,
/// and the same enemy units and buildings on the tiles `p` sees. Enemy
/// state out of sight may differ in any way.
pub open spec fn same_view(g1: Game, g2: Game, p: Player) -> bool {
    let vis = visible_grid(g1, p);
    &&& g1.tick == g2.tick
    &&& g1.ore[p.idx()] == g2.ore[p.idx()]
    &&& g1.upgrades[p.idx()] == g2.upgrades[p.idx()]
    &&& g1.fog[p.idx()] == g2.fog[p.idx()]
    &&& g1.map.hq_tiles[p.idx()] == g2.map.hq_tiles[p.idx()]
    &&& side_units(g1.units@, p) == side_units(g2.units@, p)
    &&& side_buildings(g1.buildings@, p) == side_buildings(g2.buildings@, p)
    &&& units_in_view(g1.units@, p.opponent(), vis) == units_in_view(g2.units@, p.opponent(), vis)
    &&& buildings_in_view(g1.buildings@, p.opponent(), vis) == buildings_in_view(
        g2.buildings@,
        p.opponent(),
        vis,
    )
}

proof fn lemma_own_types_side(s: Seq<Unit>, p: Player)
    ensures
        own_unit_types(s, p) == own_unit_types(side_units(s, p), p),
    decreases s.len(),
{
    if s.len() > 0 {
        lemma_own_types_side(s.drop_last(), p);
        if s.last().owner == p {
            assert(side_units(s, p).drop_last() =~= side_units(s.drop_last(), p));
        }
    }
}

proof fn lemma_own_views_side(s: Seq<Building>, p: Player)
    ensures
        own_building_views(s, p) == own_building_views(side_buildings(s, p), p),
    decreases s.len(),
{
    if s.len() > 0 {
        lemma_own_views_side(s.drop_last(), p);
        if s.last().owner == p {
            assert(side_buildings(s, p).drop_last() =~= side_buildings(s.drop_last(), p));
        }
    }
}

proof fn lemma_seen_units_side(s: Seq<Unit>, p: Player, t: int)
    ensures
        seen_by_units(s, p, t, s.len() as int) == seen_by_units(
            side_units(s, p),
            p,
            t,
            side_units(s, p).len() as int,
        ),
    decreases s.len(),
{
    if s.len() > 0 {
        let d = s.drop_last();
        lemma_seen_units_side(d, p, t);
        let sd = side_units(d, p);
        if seen_by_units(s, p, t, s.len() as int) {
            let i = choose|i: int| 0 <= i < s.len() && #[trigger] unit_sees(s[i], p, t);
            if i < d.len() {
                assert(unit_sees(d[i], p, t));
                assert(seen_by_units(d, p, t, d.len() as int));
                let j = choose|j: int| 0 <= j < sd.len() && #[trigger] unit_sees(sd[j], p, t);
                if s.last().owner == p {
                    assert(side_units(s, p)[j] == sd[j]);
                }
            } else {
                assert(side_units(s, p)[sd.len() as int] == s.last());
            }
        }
        if seen_by_units(side_units(s, p), p, t, side_units(s, p).len() as int) {
            let j = choose|j: int|
                0 <= j < side_units(s, p).len() && #[trigger] unit_sees(side_units(s, p)[j], p, t);
            if j < sd.len() {
                if s.last().owner == p {
                    assert(side_units(s, p)[j] == sd[j]);
                }
                assert(unit_sees(sd[j], p, t));
                let i = choose|i: int| 0 <= i < d.len() && #[trigger] unit_sees(d[i], p, t);
                assert(s[i] == d[i]);
            } else {
                assert(unit_sees(s[s.len() - 1], p, t));
            }
        }
    }
}

proof fn lemma_seen_buildings_side(s: Seq<Building>, p: Player, t: int)
    ensures
        seen_by_buildings(s, p, t, s.len() as int) == seen_by_buildings(
            side_buildings(s, p),
            p,
            t,
            side_buildings(s, p).len() as int,
        ),
    decreases s.len(),
{
    if s.len() > 0 {
        let d = s.drop_last();
        lemma_seen_buildings_side(d, p, t);
        let sd = side_buildings(d, p);
        if seen_by_buildings(s, p, t, s.len() as int) {
            let i = choose|i: int| 0 <= i < s.len() && #[trigger] building_sees(s[i], p, t);
            if i < d.len() {
                assert(building_sees(d[i], p, t));
                assert(seen_by_buildings(d, p, t, d.len() as int));
                let j = choose|j: int| 0 <= j < sd.len() && #[trigger] building_sees(sd[j], p, t);
                if s.last().owner == p {
                    assert(side_buildings(s, p)[j] == sd[j]);
                }
            } else {
                assert(side_buildings(s, p)[sd.len() as int] == s.last());
            }
        }
        if seen_by_buildings(side_buildings(s, p), p, t, side_buildings(s, p).len() as int) {
            let j = choose|j: int|
                0 <= j < side_buildings(s, p).len() && #[trigger] building_sees(
                    side_buildings(s, p)[j],
                    p,
                    t,
                );
            if j < sd.len() {
                if s.last().owner == p {
                    assert(side_buildings(s, p)[j] == sd[j]);
                }
                assert(building_sees(sd[j], p, t));
                let i = choose|i: int| 0 <= i < d.len() && #[trigger] building_sees(d[i], p, t);
                assert(s[i] == d[i]);
            } else {
                assert(building_sees(s[s.len() - 1], p, t));
            }
        }
    }
}

proof fn lemma_upsert_units_view(
    base: Seq<RememberedUnit>,
    s: Seq<Unit>,
    enemy: Player,
    vis: Seq<bool>,
    tick: i32,
)
    ensures
        upsert_units(base, s, enemy, vis, tick) == upsert_units(
            base,
            units_in_view(s, enemy, vis),
            enemy,
            vis,
            tick,
        ),
    decreases s.len(),
{
    if s.len() > 0 {
        lemma_upsert_units_view(base, s.drop_last(), enemy, vis, tick);
        if unit_in_view(s.last(), enemy, vis) {
            assert(units_in_view(s, enemy, vis).drop_last() =~= units_in_view(s.drop_last(), enemy, vis));
        }
    }
}

proof fn lemma_upsert_buildings_view(
    base: Seq<RememberedBuilding>,
    s: Seq<Building>,
    enemy: Player,
    vis: Seq<bool>,
    tick: i32,
)
    ensures
        upsert_buildings(base, s, enemy, vis, tick) == upsert_buildings(
            base,
            buildings_in_view(s, enemy, vis),
            enemy,
            vis,
            tick,
        ),
    decreases s.len(),
{
    if s.len() > 0 {
        lemma_upsert_buildings_view(base, s.drop_last(), enemy, vis, tick);
        if building_in_view(s.last(), enemy, vis) {
            assert(buildings_in_view(s, enemy, vis).drop_last() =~= buildings_in_view(
                s.drop_last(),
                enemy,
                vis,
            ));
        }
    }
}

/// The first building of `s` that `f` picks, if any.
pub open spec fn first_pick(s: Seq<Building>, f: spec_fn(Building) -> bool) -> Option<Building>
    decreases s.len(),
{
    if s.len() == 0 {
        None
    } else {
        match first_pick(s.drop_last(), f) {
            Some(b) => Some(b),
            None => if f(s.last()) {
                Some(s.last())
            } else {
                None
            },
        }
    }
}

proof fn lemma_first_pick(s: Seq<Building>, f: spec_fn(Building) -> bool)
    ensures
        first_pick(s, f) == match first_where(s, f, 0) {
            Some(i) => Some(s[i]),
            None => None,
        },
    decreases s.len(),
{
    lemma_first_where(s, f, 0);
    if s.len() > 0 {
        let d = s.drop_last();
        lemma_first_pick(d, f);
        lemma_first_where(d, f, 0);
        match first_where(d, f, 0) {
            Some(i) => {
                assert(s[i] == d[i]);
                assert forall|j: int| 0 <= j < i implies !f(#[trigger] s[j]) by {
                    assert(s[j] == d[j]);
                }
            },
            None => {
                assert forall|j: int| 0 <= j < d.len() implies !f(#[trigger] s[j]) by {
                    assert(s[j] == d[j]);
                }
            },
        }
    }
}

proof fn lemma_first_pick_side(s: Seq<Building>, f: spec_fn(Building) -> bool, p: Player)
    requires
        forall|b: Building| #[trigger] f(b) ==> b.owner == p,
    ensures
        first_pick(s, f) == first_pick(side_buildings(s, p), f),
    decreases s.len(),
{
    if s.len() > 0 {
        lemma_first_pick_side(s.drop_last(), f, p);
        if s.last().owner == p {
            assert(side_buildings(s, p).drop_last() =~= side_buildings(s.drop_last(), p));
        }
    }
}

/// What `p` observes of a game (see [`FeatureInput::from_game`]) depends
/// only on its own side and on the enemy entities it can see: two games
/// that look alike to `p` give it the same observation, whatever the enemy
/// does out of sight.
pub proof fn law_observation_hides_unseen(g1: Game, g2: Game, p: Player)
    requires
        same_view(g1, g2, p),
    ensures
        own_unit_types(g1.units@, p) == own_unit_types(g2.units@, p),
        own_building_views(g1.buildings@, p) == own_building_views(g2.buildings@, p),
        own_hq(g1, p) == own_hq(g2, p),
        visible_grid(g1, p) == visible_grid(g2, p),
        upsert_units(g1.fog[p.idx()].units@, g1.units@, p.opponent(), visible_grid(g1, p), g1.tick)
            == upsert_units(
            g2.fog[p.idx()].units@,
            g2.units@,
            p.opponent(),
            visible_grid(g2, p),
            g2.tick,
        ),
        upsert_buildings(
            g1.fog[p.idx()].buildings@,
            g1.buildings@,
            p.opponent(),
            visible_grid(g1, p),
            g1.tick,
        ) == upsert_buildings(
            g2.fog[p.idx()].buildings@,
            g2.buildings@,
            p.opponent(),
            visible_grid(g2, p),
            g2.tick,
        ),
{
    lemma_own_types_side(g1.units@, p);
    lemma_own_types_side(g2.units@, p);
    lemma_own_views_side(g1.buildings@, p);
    lemma_own_views_side(g2.buildings@, p);
    assert forall|t: int| 0 <= t < 4096 implies visible_tile(g1, p, t) == visible_tile(g2, p, t) by {
        lemma_seen_units_side(g1.units@, p, t);
        lemma_seen_units_side(g2.units@, p, t);
        lemma_seen_buildings_side(g1.buildings@, p, t);
        lemma_seen_buildings_side(g2.buildings@, p, t);
    }
    assert(visible_grid(g1, p) =~= visible_grid(g2, p));
    let vis = visible_grid(g1, p);
    lemma_upsert_units_view(g1.fog[p.idx()].units@, g1.units@, p.opponent(), vis, g1.tick);
    lemma_upsert_units_view(g2.fog[p.idx()].units@, g2.units@, p.opponent(), vis, g2.tick);
    lemma_upsert_buildings_view(g1.fog[p.idx()].buildings@, g1.buildings@, p.opponent(), vis, g1.tick);
    lemma_upsert_buildings_view(g2.fog[p.idx()].buildings@, g2.buildings@, p.opponent(), vis, g2.tick);
    let f = building_query(BuildingQuery::Hq(p));
    lemma_first_pick(g1.buildings@, f);
    lemma_first_pick(g2.buildings@, f);
    lemma_first_pick_side(g1.buildings@, f, p);
    lemma_first_pick_side(g2.buildings@, f, p);
}

} // verus!
