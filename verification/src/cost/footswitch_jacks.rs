//! Jack and footswitch penalties.

use crate::feet::{
    idx_of, lemma_idx_unique, part_side, placement_contains, side_heel, side_toe, FootPart, Side,
};
use crate::math::{lemma_div_scaled_le, lemma_jack_reciprocal};
use crate::stage::{side_panel_spec, wf_stage, DanceStage};
use crate::state::{side_activated_spec, wf_state, State};
use vstd::prelude::*;

verus! {

/// One side repeats a panel: its heel rests on a column where the previous
/// footprint already had that heel, or likewise for its toe — each part
/// counts on its own.
pub open spec fn jacked_side_spec(prev: State, next: State, side: Side) -> bool {
    let fin = next.final_columns@;
    ||| placement_contains(fin, side_heel(side)) && prev.final_columns@[idx_of(
        fin,
        side_heel(side),
    )] == side_heel(side)
    ||| placement_contains(fin, side_toe(side)) && prev.final_columns@[idx_of(
        fin,
        side_toe(side),
    )] == side_toe(side)
}

fn jacked_side(prev: &State, next: &State, side: Side) -> (r: bool)
    requires
        prev.final_columns@.len() == next.final_columns@.len(),
        crate::feet::wf_placement(next.final_columns@),
    ensures
        r == jacked_side_spec(*prev, *next, side),
{
    let heel = FootPart::heel(side);
    let toe = FootPart::toe(side);
    let jacked_heel = match next.final_columns.get_foot_part_index(heel) {
        Some(hi) => {
            proof {
                lemma_idx_unique(next.final_columns@, heel, hi as int);
            }
            prev.final_columns.at(hi) == heel
        },
        Option::None => false,
    };
    let jacked_toe = match next.final_columns.get_foot_part_index(toe) {
        Some(ti) => {
            proof {
                lemma_idx_unique(next.final_columns@, toe, ti as int);
            }
            prev.final_columns.at(ti) == toe
        },
        Option::None => false,
    };
    jacked_heel || jacked_toe
}

/// The jack penalty: for gaps strictly below the threshold, each jacked side
/// costs the reciprocal of the remaining margin (less its value at a zero
/// gap), weighted; at or beyond the threshold the penalty vanishes.
pub open spec fn jack_cost_spec(prev: State, next: State, dt: Option<u64>) -> int {
    match dt {
        Option::None => 0,
        Some(d) => {
            if d >= 100000 {
                0
            } else {
                let tc = 1000000000000int / (100000 - d) - 10000000;
                30 * ((if jacked_side_spec(prev, next, Side::Left) {
                    tc
                } else {
                    0
                }) + (if jacked_side_spec(prev, next, Side::Right) {
                    tc
                } else {
                    0
                }))
            }
        },
    }
}

/// Jack penalty of the transition.
pub fn jack_cost(prev: &State, next: &State, dt: Option<u64>) -> (r: u64)
    requires
        prev.final_columns@.len() == next.final_columns@.len(),
        crate::feet::wf_placement(next.final_columns@),
    ensures
        r as int == jack_cost_spec(*prev, *next, dt),
        r <= 60000000000000,
{
    let d = match dt {
        Option::None => {
            return 0;
        },
        Some(d) => d,
    };
    if d >= 100000 {
        return 0;
    }
    proof {
        lemma_jack_reciprocal((100000 - d) as int);
    }
    let tc = 1000000000000u64 / (100000 - d) - 10000000;
    let mut cost: u64 = 0;
    if jacked_side(prev, next, Side::Left) {
        cost = cost + tc;
    }
    if jacked_side(prev, next, Side::Right) {
        cost = cost + tc;
    }
    30 * cost
}

/// The first column on which the previous footprint and the fresh presses
/// hold parts of different feet, searching from column `i`; the row width
/// when there is none.
pub open spec fn first_switch(prev_fin: Seq<FootPart>, next_act: Seq<FootPart>, i: int) -> int
    decreases prev_fin.len() - i,
{
    if i < 0 || i >= prev_fin.len() {
        prev_fin.len() as int
    } else if prev_fin[i] != FootPart::Empty && next_act[i] != FootPart::Empty && part_side(
        prev_fin[i],
    ) != part_side(next_act[i]) {
        i
    } else {
        first_switch(prev_fin, next_act, i + 1)
    }
}

/// The footswitch penalty: when one single side pressed after a gap of at
/// least the threshold and some column changed feet, the relative excess
/// over the threshold is weighted; a switch on a side panel adds the
/// sideswitch weight. Only the first switching column decides the
/// side-panel status.
pub open spec fn footswitch_cost_spec(
    stage: DanceStage,
    prev: State,
    next: State,
    dt: Option<u64>,
) -> int {
    let applies = match dt {
        Option::None => true,
        Some(d) => d >= 200000,
    };
    if !applies {
        0
    } else if side_activated_spec(next, Side::Left) == side_activated_spec(next, Side::Right) {
        0
    } else {
        let c = first_switch(prev.final_columns@, next.activated_columns@, 0);
        if c >= prev.final_columns@.len() {
            0
        } else {
            let tc = match dt {
                Option::None => 1000000int,
                Some(d) => ((d - 200000) * 1000000) / (d as int),
            };
            325 * tc + if side_panel_spec(stage, c) {
                130000000int
            } else {
                0int
            }
        }
    }
}

/// Footswitch penalty of the transition.
pub fn footswitch_cost(stage: &DanceStage, prev: &State, next: &State, dt: Option<u64>) -> (r: u64)
    requires
        wf_stage(*stage),
        wf_state(*prev, stage.columns@.len() as nat),
        wf_state(*next, stage.columns@.len() as nat),
        match dt {
            Some(d) => d > 0,
            Option::None => true,
        },
    ensures
        r as int == footswitch_cost_spec(*stage, *prev, *next, dt),
        r <= 455000000,
{
    let applies = match dt {
        Option::None => true,
        Some(d) => d >= 200000,
    };
    if !applies {
        return 0;
    }
    if next.side_activated(Side::Left) == next.side_activated(Side::Right) {
        return 0;
    }
    let n = prev.final_columns.0.len();
    let mut column: usize = 0;
    let mut found: Option<usize> = Option::None;
    while column < n
        invariant_except_break
            column <= n,
            n == prev.final_columns@.len(),
            n == next.activated_columns@.len(),
            found is None,
            first_switch(prev.final_columns@, next.activated_columns@, 0) == first_switch(
                prev.final_columns@,
                next.activated_columns@,
                column as int,
            ),
        ensures
            match found {
                Some(c) => first_switch(prev.final_columns@, next.activated_columns@, 0) == c && c
                    < n,
                Option::None => first_switch(prev.final_columns@, next.activated_columns@, 0)
                    == n,
            },
            n == prev.final_columns@.len(),
        decreases n - column,
    {
        let pf = prev.final_columns.at(column);
        let na = next.activated_columns.at(column);
        let switches = if pf != FootPart::Empty && na != FootPart::Empty {
            match (pf.side(), na.side()) {
                (Some(a), Some(b)) => a != b,
                _ => false,
            }
        } else {
            false
        };
        if switches {
            found = Some(column);
            break ;
        }
        column = column + 1;
    }
    let c = match found {
        Some(c) => c,
        Option::None => {
            return 0;
        },
    };
    let tc: u64 = match dt {
        Option::None => 1000000,
        Some(d) => {
            proof {
                lemma_div_scaled_le((d - 200000) as int, d as int, 1000000);
            }
            (((d as u128 - 200000) * 1000000) / (d as u128)) as u64
        },
    };
    let mut cost: u64 = 325 * tc;
    if stage.is_side_panel(c) {
        cost = cost + 130000000;
    }
    cost
}

} // verus!
