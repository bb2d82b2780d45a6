//! Fitness bookkeeping: the passive opponent of the bootstrap stages and the
//! ore a side has spent.
use vstd::prelude::*;

use crate::bot::{all_issued_by, Bot};
use crate::entity::{
    building_stats, spec_building_stats, spec_unit_stats, unit_stats, Building, BuildingType,
    Player, Unit,
};
use crate::game::{building_value, unit_value, Game, MAX_ENTITIES};
use crate::orders::Command;

verus! {

/// A bot that does nothing (the passive opponent of bootstrap stages).
pub struct Noop;

impl Bot for Noop {
    fn name(&self) -> (r: &'static str)
        ensures
            r@ == "noop"@,
    {
        "noop"
    }

    fn decide(&mut self, game: &Game, player: Player) -> (r: Vec<Command>)
        ensures
            r@.len() == 0,
    {
        Vec::new()
    }
}

proof fn lemma_units_value_bound(s: Seq<Unit>, p: Player)
    ensures
        0 <= unit_value(s, p) <= 400 * s.len(),
    decreases s.len(),
{
    if s.len() > 0 {
        lemma_units_value_bound(s.drop_last(), p);
    }
}

proof fn lemma_buildings_value_bound(s: Seq<Building>, p: Player)
    ensures
        0 <= building_value(s, p) <= 300 * s.len(),
    decreases s.len(),
{
    if s.len() > 0 {
        lemma_buildings_value_bound(s.drop_last(), p);
    }
}

/// The ore `p` has spent on what it owns now: every unit, and every
/// building but the HQ (which costs nothing), at cost.
pub fn spent_value(g: &Game, p: Player) -> (v: i32)
    requires
        g.wf(),
    ensures
        v == unit_value(g.units@, p) + building_value(g.buildings@, p),
{
    let mut v: i32 = 0;
    let mut i: usize = 0;
    while i < g.units.len()
        invariant
            0 <= i <= g.units@.len(),
            g.units@.len() <= MAX_ENTITIES,
            v == unit_value(g.units@.subrange(0, i as int), p),
        decreases g.units.len() - i,
    {
        proof {
            assert(g.units@.subrange(0, i + 1).drop_last() =~= g.units@.subrange(0, i as int));
            lemma_units_value_bound(g.units@.subrange(0, i + 1), p);
        }
        if g.units[i].owner == p {
            v = v + unit_stats(g.units[i].utype).cost;
        }
        i += 1;
    }
    assert(g.units@.subrange(0, g.units@.len() as int) =~= g.units@);
    let ghost from_units = v as int;
    proof {
        lemma_units_value_bound(g.units@, p);
    }
    let mut k: usize = 0;
    while k < g.buildings.len()
        invariant
            0 <= k <= g.buildings@.len(),
            g.buildings@.len() <= MAX_ENTITIES,
            0 <= from_units <= 400 * MAX_ENTITIES,
            v == from_units + building_value(g.buildings@.subrange(0, k as int), p),
        decreases g.buildings.len() - k,
    {
        proof {
            assert(g.buildings@.subrange(0, k + 1).drop_last() =~= g.buildings@.subrange(0, k as int));
            lemma_buildings_value_bound(g.buildings@.subrange(0, k + 1), p);
        }
        let b = &g.buildings[k];
        if b.owner == p && b.btype != BuildingType::Hq {
            v = v + building_stats(b.btype).cost;
        }
        k += 1;
    }
    assert(g.buildings@.subrange(0, g.buildings@.len() as int) =~= g.buildings@);
    v
}

} // verus!
