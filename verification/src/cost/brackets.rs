//! Twisted-foot and slow-bracket penalties.

use crate::cost::COST_CAP;
use crate::feet::{idx_of, lemma_idx_unique, placement_contains, FootPart};
use crate::stage::{wf_stage, DanceStage};
use crate::state::{wf_state, State};
use vstd::prelude::*;

verus! {

/// Twice the x-coordinate of one foot's resting position: heel plus toe,
/// the heel standing in for a missing toe; zero when the heel is absent.
pub open spec fn side_x2_spec(
    stage: DanceStage,
    fin: Seq<FootPart>,
    heel: FootPart,
    toe: FootPart,
) -> int {
    if placement_contains(fin, heel) {
        let t = if placement_contains(fin, toe) {
            idx_of(fin, toe)
        } else {
            idx_of(fin, heel)
        };
        stage.columns@[idx_of(fin, heel)].x + stage.columns@[t].x
    } else {
        0
    }
}

/// One side's toe rests behind its heel.
pub open spec fn side_backwards_spec(
    stage: DanceStage,
    fin: Seq<FootPart>,
    heel: FootPart,
    toe: FootPart,
) -> bool {
    placement_contains(fin, heel) && placement_contains(fin, toe) && stage.columns@[idx_of(
        fin,
        toe,
    )].y < stage.columns@[idx_of(fin, heel)].y
}

/// The twisted-foot penalty: unless the feet are crossed over (the right
/// foot's midpoint left of the left foot's, compared on doubled
/// coordinates), a toe resting behind its own heel incurs the weight.
pub open spec fn twisted_cost_spec(stage: DanceStage, next: State) -> int {
    let fin = next.final_columns@;
    let lx = side_x2_spec(stage, fin, FootPart::LeftHeel, FootPart::LeftToe);
    let rx = side_x2_spec(stage, fin, FootPart::RightHeel, FootPart::RightToe);
    if rx < lx {
        0
    } else if side_backwards_spec(stage, fin, FootPart::LeftHeel, FootPart::LeftToe)
        || side_backwards_spec(stage, fin, FootPart::RightHeel, FootPart::RightToe) {
        100000000
    } else {
        0
    }
}

/// Twisted-foot penalty of the resting footprint.
pub fn twisted_foot_cost(stage: &DanceStage, next: &State) -> (r: u64)
    requires
        wf_stage(*stage),
        wf_state(*next, stage.columns@.len() as nat),
    ensures
        r as int == twisted_cost_spec(*stage, *next),
        r <= 100000000,
{
    let idx = next.final_columns.get_foot_part_indices();
    proof {
        match idx.left_heel {
            Some(i) => lemma_idx_unique(next.final_columns@, FootPart::LeftHeel, i as int),
            Option::None => (),
        }
        match idx.left_toe {
            Some(i) => lemma_idx_unique(next.final_columns@, FootPart::LeftToe, i as int),
            Option::None => (),
        }
        match idx.right_heel {
            Some(i) => lemma_idx_unique(next.final_columns@, FootPart::RightHeel, i as int),
            Option::None => (),
        }
        match idx.right_toe {
            Some(i) => lemma_idx_unique(next.final_columns@, FootPart::RightToe, i as int),
            Option::None => (),
        }
    }
    let lx = match idx.left_heel {
        Some(h) => {
            let t = match idx.left_toe {
                Some(t) => t,
                Option::None => h,
            };
            stage.x(h) + stage.x(t)
        },
        Option::None => 0,
    };
    let rx = match idx.right_heel {
        Some(h) => {
            let t = match idx.right_toe {
                Some(t) => t,
                Option::None => h,
            };
            stage.x(h) + stage.x(t)
        },
        Option::None => 0,
    };
    if rx < lx {
        return 0;
    }
    let left_backwards = match (idx.left_heel, idx.left_toe) {
        (Some(h), Some(t)) => stage.y(t) < stage.y(h),
        _ => false,
    };
    let right_backwards = match (idx.right_heel, idx.right_toe) {
        (Some(h), Some(t)) => stage.y(t) < stage.y(h),
        _ => false,
    };
    if left_backwards || right_backwards {
        100000000
    } else {
        0
    }
}

/// The slow-bracket penalty: holding a freshly pressed bracket across a gap
/// of at least the threshold costs the excess time, weighted and capped; an
/// unbounded gap costs the full cap.
pub open spec fn slow_bracket_cost_spec(next: State, dt: Option<u64>) -> int {
    let act = next.activated_columns@;
    let bracketing = (placement_contains(act, FootPart::LeftHeel) && placement_contains(
        act,
        FootPart::LeftToe,
    )) || (placement_contains(act, FootPart::RightHeel) && placement_contains(
        act,
        FootPart::RightToe,
    ));
    if !bracketing {
        0
    } else {
        match dt {
            Option::None => COST_CAP as int,
            Some(d) => if d < 150000 {
                0
            } else if (d - 150000) * 300 > COST_CAP as int {
                COST_CAP as int
            } else {
                (d - 150000) * 300
            },
        }
    }
}

/// Slow-bracket penalty of the transition.
pub fn slow_bracket_cost(next: &State, dt: Option<u64>) -> (r: u64)
    ensures
        r as int == slow_bracket_cost_spec(*next, dt),
        r <= COST_CAP,
{
    let bracketing = next.activated_columns.is_bracketing(crate::feet::Side::Left)
        || next.activated_columns.is_bracketing(crate::feet::Side::Right);
    if !bracketing {
        return 0;
    }
    match dt {
        Option::None => COST_CAP,
        Some(d) => {
            if d < 150000 {
                0
            } else {
                let scaled = (d as u128 - 150000) * 300;
                if scaled > COST_CAP as u128 {
                    COST_CAP
                } else {
                    scaled as u64
                }
            }
        },
    }
}

} // verus!
