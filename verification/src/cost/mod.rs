//! The weighted cost model scoring one row transition.
//!
//! Eight penalty terms, each in millionths of a cost unit, are summed and
//! capped at `COST_CAP`. The time gap `dt` is in microseconds; `None` stands
//! for the unbounded gap before the first row, where a sustained bracket is
//! penalised by the full cap and every rate term vanishes.

pub mod basic;
pub mod brackets;
pub mod footswitch_jacks;

use crate::extensions::Key;
use crate::feet::toes_have_heels;
use crate::stage::{wf_stage, DanceStage};
use crate::state::{wf_state, State};
use vstd::prelude::*;

pub use basic::{doublestep_cost, facing_cost, mine_cost, movement_cost};
pub use brackets::{slow_bracket_cost, twisted_foot_cost};
pub use footswitch_jacks::{footswitch_cost, jack_cost};

verus! {

/// Hard ceiling on any single edge weight: 2^60 millionths of a cost unit.
pub const COST_CAP: u64 = 0x1000000000000000;

pub const MOVEMENT_COST: u64 = 6;

pub const FACING_COST: u64 = 200;

pub const DOUBLESTEP_COST: u64 = 850;

pub const MINE_COST: u64 = 10000;

pub const TWISTED_FOOT_COST: u64 = 100;

pub const SLOW_BRACKET_COST: u64 = 300;

pub const JACK_COST: u64 = 30;

pub const SLOW_FOOTSWITCH_COST: u64 = 325;

pub const SIDESWITCH_COST: u64 = 130;

/// Slow-bracket threshold: 0.15 s, in microseconds.
pub const SLOW_BRACKET_THRESHOLD: u64 = 150000;

/// Jack threshold: 0.1 s, in microseconds.
pub const JACK_THRESHOLD: u64 = 100000;

/// Slow-footswitch threshold: 0.2 s, in microseconds.
pub const SLOW_FOOTSWITCH_THRESHOLD: u64 = 200000;

/// What every cost term relies on of its inputs: a well-formed stage, a row
/// of matching width, well-formed states of that width whose activated toes
/// come with their heels, and a positive (or absent) time gap.
pub open spec fn cost_inputs_ok(
    stage: DanceStage,
    row: Seq<Key>,
    prev: State,
    next: State,
    dt: Option<u64>,
) -> bool {
    &&& wf_stage(stage)
    &&& row.len() == stage.columns@.len()
    &&& wf_state(prev, stage.columns@.len() as nat)
    &&& wf_state(next, stage.columns@.len() as nat)
    &&& toes_have_heels(next.activated_columns@)
    &&& match dt {
        Some(d) => d > 0,
        Option::None => true,
    }
}

/// The total edge weight: the sum of the eight penalty terms, capped.
pub open spec fn total_cost_spec(
    stage: DanceStage,
    row: Seq<Key>,
    prev: State,
    next: State,
    dt: Option<u64>,
) -> int {
    let sum = basic::movement_cost_spec(stage, prev, next, dt) + basic::facing_cost_spec(
        stage,
        next,
    ) + basic::doublestep_cost_spec(stage, prev, next) + basic::mine_cost_spec(row, next)
        + brackets::twisted_cost_spec(stage, next) + brackets::slow_bracket_cost_spec(next, dt)
        + footswitch_jacks::jack_cost_spec(prev, next, dt) + footswitch_jacks::footswitch_cost_spec(
        stage,
        prev,
        next,
        dt,
    );
    if sum > COST_CAP as int {
        COST_CAP as int
    } else {
        sum
    }
}

/// Scores the transition from `prev` to `next` under `row`, `dt` microseconds
/// after the previous row (`None` before the first row). The result is the
/// exact capped sum of the eight penalty terms; every edge weight is thereby
/// non-negative and at most `COST_CAP`.
pub fn total_cost(
    stage: &DanceStage,
    row: &Vec<Key>,
    prev: &State,
    next: &State,
    dt: Option<u64>,
) -> (r: u64)
    requires
        cost_inputs_ok(*stage, row@, *prev, *next, dt),
    ensures
        r as int == total_cost_spec(*stage, row@, *prev, *next, dt),
        r <= COST_CAP,
{
    let ncols = row.len();
    proof {
        assert(row@.len() == ncols);
    }
    let mut sum: u128 = 0;
    sum = sum + movement_cost(stage, prev, next, dt) as u128;
    sum = sum + facing_cost(stage, next) as u128;
    sum = sum + doublestep_cost(stage, prev, next) as u128;
    sum = sum + mine_cost(stage, row, next);
    sum = sum + twisted_foot_cost(stage, next) as u128;
    sum = sum + slow_bracket_cost(next, dt) as u128;
    sum = sum + jack_cost(prev, next, dt) as u128;
    sum = sum + footswitch_cost(stage, prev, next, dt) as u128;
    if sum > COST_CAP as u128 {
        COST_CAP
    } else {
        sum as u64
    }
}

} // verus!
