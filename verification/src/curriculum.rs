//! The bootstrap curriculum's stages: economy, production, combat against
//! an idle opponent, then the easy, medium and hard scripted bots. Each
//! stage runs a bounded number of generations and then advances.
use vstd::prelude::*;

use crate::rng::{draws, state_after, Rng};

verus! {

/// A curriculum stage, in schedule order.
#[derive(Clone, Copy, PartialEq, Eq, Structural, Debug)]
pub enum Stage {
    Economy,
    Production,
    Combat,
    ScriptedEasy,
    ScriptedMedium,
    ScriptedHard,
    Done,
}

/// A stage's position in the schedule.
pub open spec fn stage_rank(s: Stage) -> int {
    match s {
        Stage::Economy => 0,
        Stage::Production => 1,
        Stage::Combat => 2,
        Stage::ScriptedEasy => 3,
        Stage::ScriptedMedium => 4,
        Stage::ScriptedHard => 5,
        Stage::Done => 6,
    }
}

/// Seed-mixing constant (the 64-bit golden ratio).
pub const MIX: u64 = 0x9E3779B97F4A7C15;

impl Stage {
    /// The stage after this one; `Done` stays `Done`.
    pub fn next(self) -> (n: Stage)
        ensures
            stage_rank(n) == if stage_rank(self) < 6 {
                stage_rank(self) + 1
            } else {
                6
            },
    {
        match self {
            Stage::Economy => Stage::Production,
            Stage::Production => Stage::Combat,
            Stage::Combat => Stage::ScriptedEasy,
            Stage::ScriptedEasy => Stage::ScriptedMedium,
            Stage::ScriptedMedium => Stage::ScriptedHard,
            Stage::ScriptedHard => Stage::Done,
            Stage::Done => Stage::Done,
        }
    }

    /// The stage's name.
    pub fn label(self) -> (l: &'static str)
        ensures
            l@ == match self {
                Stage::Economy => "economy"@,
                Stage::Production => "production"@,
                Stage::Combat => "combat"@,
                Stage::ScriptedEasy => "scripted-easy"@,
                Stage::ScriptedMedium => "scripted-medium"@,
                Stage::ScriptedHard => "scripted-hard"@,
                Stage::Done => "done"@,
            },
    {
        match self {
            Stage::Economy => "economy",
            Stage::Production => "production",
            Stage::Combat => "combat",
            Stage::ScriptedEasy => "scripted-easy",
            Stage::ScriptedMedium => "scripted-medium",
            Stage::ScriptedHard => "scripted-hard",
            Stage::Done => "done",
        }
    }

    /// The stage's position in the schedule.
    pub fn id(self) -> (r: u64)
        ensures
            r == stage_rank(self),
    {
        match self {
            Stage::Economy => 0,
            Stage::Production => 1,
            Stage::Combat => 2,
            Stage::ScriptedEasy => 3,
            Stage::ScriptedMedium => 4,
            Stage::ScriptedHard => 5,
            Stage::Done => 6,
        }
    }
}

/// The generation seed of a stage: the master seed xor the stage rank
/// times [`MIX`] xor the generation times `MIX >> 1` (products modulo 2^64).
pub open spec fn spec_mix(master_seed: u64, stage: Stage, generation: u32) -> u64 {
    master_seed ^ (((stage_rank(stage) as nat * MIX as nat) % 0x1_0000_0000_0000_0000nat) as u64)
        ^ (((generation as nat * (MIX >> 1u64) as nat) % 0x1_0000_0000_0000_0000nat) as u64)
}

pub fn mix(master_seed: u64, stage: Stage, generation: u32) -> (r: u64)
    ensures
        r == spec_mix(master_seed, stage, generation),
{
    master_seed ^ stage.id().wrapping_mul(MIX) ^ (generation as u64).wrapping_mul(MIX >> 1u64)
}

/// The evaluation seeds of a generation in a stage: the first `n` draws of
/// a generator seeded with the mix of the master seed, the stage and the
/// generation.
pub fn generation_seeds(master_seed: u64, stage: Stage, generation: u32, n: usize) -> (r: Vec<u64>)
    ensures
        r@ == draws(spec_mix(master_seed, stage, generation), n as nat),
{
    let seed = mix(master_seed, stage, generation);
    let mut rng = Rng::from_seed(seed);
    let mut r: Vec<u64> = Vec::new();
    let mut i: usize = 0;
    while i < n
        invariant
            0 <= i <= n,
            r@ == draws(seed, i as nat),
            rng.spec_state() == state_after(seed, i as nat),
        decreases n - i,
    {
        let v = rng.next_u64();
        r.push(v);
        i += 1;
    }
    r
}

} // verus!
