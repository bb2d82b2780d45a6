//! The commander network's layout: FEATURE_DIM -> 48 (tanh) -> 48 (tanh) ->
//! OUTPUT linear scores; the genome is the flat concatenation
//! `[W1, b1, W2, b2, W3, b3]`. The output heads are read by the decision
//! layer.
use vstd::prelude::*;

use crate::features::FEATURE_DIM;

verus! {

pub const HIDDEN1: usize = 48;

pub const HIDDEN2: usize = 48;

/// Build head: one score per buildable type.
pub const BUILD_OUT: usize = 8;

/// Train head: one score per unit type.
pub const TRAIN_OUT: usize = 7;

/// Army-wide actions: attack-move, defend, scout and focus-fire (snipe).
pub const ARMY_ACTION_OUT: usize = 4;

/// Scout sectors: the map in 8x8 sectors.
pub const SECTOR_OUT: usize = 64;

/// Research head.
pub const TECH_OUT: usize = 4;

/// Snipe target-type head: enemy harvester, refinery, HQ or factory.
pub const SNIPE_OUT: usize = 4;

pub const OUTPUT: usize = BUILD_OUT + TRAIN_OUT + ARMY_ACTION_OUT + SECTOR_OUT + TECH_OUT
    + SNIPE_OUT;

pub const W1: usize = FEATURE_DIM * HIDDEN1;

pub const B1: usize = HIDDEN1;

pub const W2: usize = HIDDEN1 * HIDDEN2;

pub const B2: usize = HIDDEN2;

pub const W3: usize = HIDDEN2 * OUTPUT;

pub const B3: usize = OUTPUT;

/// The genome length.
pub const GENOME_LEN: usize = W1 + B1 + W2 + B2 + W3 + B3;

/// The genome length is the sum of the layers' weights and biases.
pub proof fn lemma_genome_len()
    ensures
        OUTPUT == 91,
        GENOME_LEN == FEATURE_DIM * HIDDEN1 + HIDDEN1 + HIDDEN1 * HIDDEN2 + HIDDEN2 + HIDDEN2
            * OUTPUT + OUTPUT,
        GENOME_LEN == 17611,
{
}

} // verus!
