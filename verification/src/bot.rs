//! The [`Bot`] interface: a deterministic policy that issues commands on the
//! command tick, driven by the headless runner and the live server alike.
use vstd::prelude::*;

use crate::entity::Player;
use crate::game::Game;
use crate::orders::Command;

verus! {

/// Every command of a list is issued in the name of `p`.
pub open spec fn all_issued_by(cmds: Seq<Command>, p: Player) -> bool {
    forall|k: int| 0 <= k < cmds.len() ==> (#[trigger] cmds[k]).issuer() == p
}

/// A deterministic match policy. Called once per command tick; the commands
/// it returns are still validated and budgeted by the simulation, and a bot
/// only ever speaks for the side it plays.
pub trait Bot {
    /// Human-readable name.
    fn name(&self) -> &'static str;

    /// Produce commands for `player` given the current state.
    fn decide(&mut self, game: &Game, player: Player) -> (r: Vec<Command>)
        requires
            game.wf(),
        ensures
            all_issued_by(r@, player),
    ;
}

} // verus!
