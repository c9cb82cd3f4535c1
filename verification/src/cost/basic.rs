//! Movement, facing, doublestep and mine penalties.

use crate::extensions::{Key, KeyType};
use crate::feet::{
    idx_of, lemma_idx_unique, part_other, placement_contains, side_heel, side_toe, FootPart, Side,
};
use crate::math::{
    fifth_root, fifth_root_spec, is_fifth_root, lemma_div_le, lemma_fifth_root_unique,
    lemma_pow5_monotonic, lemma_pow9_partials, pow5, pow9,
};
use crate::stage::{dist_micro, wf_stage, xdiff_spec, ydiff_spec, DanceStage};
use crate::state::{side_activated_spec, wf_state, State};
use vstd::prelude::*;

verus! {

/// The movement penalty a single part contributes: its travel speed, when it
/// was already resting on the stage and is not the silent half of a tap that
/// widened into a bracket on the very panel the part came from.
pub open spec fn movement_term_spec(
    stage: DanceStage,
    prev: State,
    next: State,
    dtv: int,
    part: FootPart,
) -> int {
    if placement_contains(next.activated_columns@, part) && placement_contains(
        prev.final_columns@,
        part,
    ) {
        let pp = idx_of(prev.final_columns@, part);
        let np = idx_of(next.final_columns@, part);
        if placement_contains(next.final_columns@, part_other(part)) && idx_of(
            next.final_columns@,
            part_other(part),
        ) == pp {
            0
        } else {
            (6 * dist_micro(stage, pp, np) * 1000000) / dtv
        }
    } else {
        0
    }
}

/// Total movement penalty: the sum over the four parts; zero across the
/// unbounded gap before the first row.
pub open spec fn movement_cost_spec(
    stage: DanceStage,
    prev: State,
    next: State,
    dt: Option<u64>,
) -> int {
    match dt {
        Option::None => 0,
        Some(d) => movement_term_spec(stage, prev, next, d as int, FootPart::LeftHeel)
            + movement_term_spec(stage, prev, next, d as int, FootPart::LeftToe)
            + movement_term_spec(stage, prev, next, d as int, FootPart::RightHeel)
            + movement_term_spec(stage, prev, next, d as int, FootPart::RightToe),
    }
}

fn movement_part(stage: &DanceStage, prev: &State, next: &State, dtv: u64, part: FootPart) -> (r:
    u64)
    requires
        wf_stage(*stage),
        wf_state(*prev, stage.columns@.len() as nat),
        wf_state(*next, stage.columns@.len() as nat),
        dtv > 0,
        part != FootPart::Empty,
    ensures
        r as int == movement_term_spec(*stage, *prev, *next, dtv as int, part),
        r <= 1800000000000000,
{
    if !next.foot_part_activated(part) {
        return 0;
    }
    let pp = match prev.final_columns.get_foot_part_index(part) {
        Some(v) => v,
        Option::None => {
            return 0;
        },
    };
    proof {
        lemma_idx_unique(prev.final_columns@, part, pp as int);
    }
    let np = match next.final_columns.get_foot_part_index(part) {
        Some(v) => v,
        Option::None => {
            proof {
                let c = choose|c: int|
                    0 <= c < next.activated_columns@.len() && next.activated_columns@[c] == part;
                assert(next.final_columns@[c] == part);
            }
            return 0;
        },
    };
    proof {
        lemma_idx_unique(next.final_columns@, part, np as int);
    }
    let skip = match next.final_columns.get_foot_part_index(part.other_part()) {
        Some(op) => {
            proof {
                if part_other(part) != FootPart::Empty {
                    lemma_idx_unique(next.final_columns@, part_other(part), op as int);
                }
            }
            op == pp
        },
        Option::None => false,
    };
    if skip {
        return 0;
    }
    let d = stage.distance_between(pp, np);
    let num: u128 = 6 * d as u128 * 1000000;
    proof {
        lemma_div_le(num as int, dtv as int);
    }
    (num / dtv as u128) as u64
}

/// Movement penalty: for each part that pressed on this row after already
/// resting on the stage, its travel distance over the time gap, weighted.
pub fn movement_cost(stage: &DanceStage, prev: &State, next: &State, dt: Option<u64>) -> (r: u64)
    requires
        wf_stage(*stage),
        wf_state(*prev, stage.columns@.len() as nat),
        wf_state(*next, stage.columns@.len() as nat),
        match dt {
            Some(d) => d > 0,
            Option::None => true,
        },
    ensures
        r as int == movement_cost_spec(*stage, *prev, *next, dt),
        r <= 7200000000000000,
{
    match dt {
        Option::None => 0,
        Some(d) => {
            let a = movement_part(stage, prev, next, d, FootPart::LeftHeel);
            let b = movement_part(stage, prev, next, d, FootPart::LeftToe);
            let c = movement_part(stage, prev, next, d, FootPart::RightHeel);
            let e = movement_part(stage, prev, next, d, FootPart::RightToe);
            a + b + c + e
        },
    }
}

/// The super-linear penalty of a negative facing value: the 1.8th power of
/// its magnitude, in millionths (computed as the fifth root of the ninth
/// power); zero for non-negative values.
pub open spec fn pen_spec(v: int) -> int {
    fifth_root_spec(
        pow9(
            if v < 0 {
                -v
            } else {
                0
            },
        ) / 1000000,
    )
}

/// The facing penalty of the resting footprint: heel pair, toe pair (heels
/// standing in for missing toes) and the two per-foot pairs each contribute
/// the penalty of their signed facing value.
pub open spec fn facing_cost_spec(stage: DanceStage, next: State) -> int {
    let fin = next.final_columns@;
    let ltx = if placement_contains(fin, FootPart::LeftToe) {
        idx_of(fin, FootPart::LeftToe)
    } else {
        idx_of(fin, FootPart::LeftHeel)
    };
    let rtx = if placement_contains(fin, FootPart::RightToe) {
        idx_of(fin, FootPart::RightToe)
    } else {
        idx_of(fin, FootPart::RightHeel)
    };
    let hf = if placement_contains(fin, FootPart::LeftHeel) && placement_contains(
        fin,
        FootPart::RightHeel,
    ) {
        xdiff_spec(stage, idx_of(fin, FootPart::LeftHeel), idx_of(fin, FootPart::RightHeel))
    } else {
        0
    };
    let tf = if (placement_contains(fin, FootPart::LeftToe) || placement_contains(
        fin,
        FootPart::LeftHeel,
    )) && (placement_contains(fin, FootPart::RightToe) || placement_contains(
        fin,
        FootPart::RightHeel,
    )) {
        xdiff_spec(stage, ltx, rtx)
    } else {
        0
    };
    let lf = if placement_contains(fin, FootPart::LeftHeel) {
        ydiff_spec(stage, idx_of(fin, FootPart::LeftHeel), ltx)
    } else {
        0
    };
    let rf = if placement_contains(fin, FootPart::RightHeel) {
        ydiff_spec(stage, idx_of(fin, FootPart::RightHeel), rtx)
    } else {
        0
    };
    200 * (pen_spec(hf) + pen_spec(tf) + pen_spec(lf) + pen_spec(rf))
}

/// The 1.8th-power penalty of one facing value, in millionths.
fn penalty_micro(v: i64) -> (r: u64)
    requires
        -10000 <= v <= 10000,
    ensures
        r as int == pen_spec(v as int),
        r <= 1000000,
{
    if v >= 0 {
        proof {
            assert(pow9(0) == 0);
            assert(pow5(0) == 0 && pow5(1) == 1);
            assert(is_fifth_root(0, 0));
            lemma_fifth_root_unique(0, 0);
        }
        return 0;
    }
    let m: u128 = (-v) as u128;
    proof {
        lemma_pow9_partials(m as int);
    }
    let p2 = m * m;
    let p4 = p2 * p2;
    let p8 = p4 * p4;
    let p9 = p8 * m;
    let n = p9 / 1000000;
    let r = fifth_root(n);
    proof {
        if r > 1000000 {
            lemma_pow5_monotonic(1000001, r as int);
            assert(pow5(1000001) > 1000000000000000000000000000000int) by (nonlinear_arith);
        }
    }
    r as u64
}

/// Facing penalty of the resting footprint after the row.
pub fn facing_cost(stage: &DanceStage, next: &State) -> (r: u64)
    requires
        wf_stage(*stage),
        wf_state(*next, stage.columns@.len() as nat),
    ensures
        r as int == facing_cost_spec(*stage, *next),
        r <= 800000000,
{
    let idx = next.final_columns.get_foot_part_indices();
    proof {
        match idx.left_heel {
            Some(i) => lemma_idx_unique(next.final_columns@, FootPart::LeftHeel, i as int),
            Option::None => (),
        }
        match idx.left_toe {
            Some(i) => lemma_idx_unique(next.final_columns@, FootPart::LeftToe, i as int),
            Option::None => (),
        }
        match idx.right_heel {
            Some(i) => lemma_idx_unique(next.final_columns@, FootPart::RightHeel, i as int),
            Option::None => (),
        }
        match idx.right_toe {
            Some(i) => lemma_idx_unique(next.final_columns@, FootPart::RightToe, i as int),
            Option::None => (),
        }
    }
    let lt2 = match idx.left_toe {
        Some(t) => Some(t),
        Option::None => idx.left_heel,
    };
    let rt2 = match idx.right_toe {
        Some(t) => Some(t),
        Option::None => idx.right_heel,
    };
    let hf = match (idx.left_heel, idx.right_heel) {
        (Some(lh), Some(rh)) => stage.x_difference(lh, rh),
        _ => 0,
    };
    let tf = match (lt2, rt2) {
        (Some(lt), Some(rt)) => stage.x_difference(lt, rt),
        _ => 0,
    };
    let lf = match (idx.left_heel, lt2) {
        (Some(lh), Some(lt)) => stage.y_difference(lh, lt),
        _ => 0,
    };
    let rf = match (idx.right_heel, rt2) {
        (Some(rh), Some(rt)) => stage.y_difference(rh, rt),
        _ => 0,
    };
    let cost = penalty_micro(hf) + penalty_micro(tf) + penalty_micro(lf) + penalty_micro(rf);
    200 * cost
}

/// The doublestep penalty: when exactly one side pressed, had also pressed
/// its heel on the previous row, and is neither part of a jump on either row
/// nor repeating the very same columns, the cubed heel travel is weighted.
pub open spec fn doublestep_cost_spec(stage: DanceStage, prev: State, next: State) -> int {
    let nl = side_activated_spec(next, Side::Left);
    let nr = side_activated_spec(next, Side::Right);
    let pl = side_activated_spec(prev, Side::Left);
    let pr = side_activated_spec(prev, Side::Right);
    if (nl && nr) || (pl && pr) {
        0
    } else if !nl && !nr {
        0
    } else {
        let s = if nl {
            Side::Left
        } else {
            Side::Right
        };
        let pact = prev.activated_columns@;
        let nact = next.activated_columns@;
        if !placement_contains(pact, side_heel(s)) {
            0
        } else {
            let ph = idx_of(pact, side_heel(s));
            let nh = idx_of(nact, side_heel(s));
            let same_heel = placement_contains(nact, side_heel(s)) && nh == ph;
            let same_toe = (placement_contains(pact, side_toe(s)) == placement_contains(
                nact,
                side_toe(s),
            )) && (placement_contains(pact, side_toe(s)) ==> idx_of(pact, side_toe(s)) == idx_of(
                nact,
                side_toe(s),
            ));
            if same_heel && same_toe {
                0
            } else {
                (850 * (dist_micro(stage, ph, nh) * dist_micro(stage, ph, nh) * dist_micro(
                    stage,
                    ph,
                    nh,
                ))) / 1000000000000
            }
        }
    }
}

/// Doublestep penalty of the transition.
pub fn doublestep_cost(stage: &DanceStage, prev: &State, next: &State) -> (r: u64)
    requires
        wf_stage(*stage),
        wf_state(*prev, stage.columns@.len() as nat),
        wf_state(*next, stage.columns@.len() as nat),
        crate::feet::toes_have_heels(next.activated_columns@),
    ensures
        r as int == doublestep_cost_spec(*stage, *prev, *next),
        r <= 23000000000000000,
{
    let is_jump = next.side_activated(Side::Left) && next.side_activated(Side::Right);
    let was_jump = prev.side_activated(Side::Left) && prev.side_activated(Side::Right);
    if is_jump || was_jump {
        return 0;
    }
    let activated_side = if next.side_activated(Side::Left) {
        Side::Left
    } else if next.side_activated(Side::Right) {
        Side::Right
    } else {
        return 0;
    };
    let heel = FootPart::heel(activated_side);
    let toe = FootPart::toe(activated_side);
    let ph = match prev.activated_columns.get_foot_part_index(heel) {
        Some(v) => v,
        Option::None => {
            return 0;
        },
    };
    proof {
        lemma_idx_unique(prev.activated_columns@, heel, ph as int);
    }
    let nh = match next.activated_columns.get_foot_part_index(heel) {
        Some(v) => v,
        Option::None => {
            proof {
                assert(placement_contains(next.activated_columns@, side_heel(activated_side)));
                let w = choose|w: int|
                    0 <= w < next.activated_columns@.len() && next.activated_columns@[w]
                        == side_heel(activated_side);
                assert(false);
            }
            return 0;
        },
    };
    proof {
        lemma_idx_unique(next.activated_columns@, heel, nh as int);
    }
    let pt = prev.activated_columns.get_foot_part_index(toe);
    let nt = next.activated_columns.get_foot_part_index(toe);
    proof {
        match pt {
            Some(i) => lemma_idx_unique(prev.activated_columns@, toe, i as int),
            Option::None => (),
        }
        match nt {
            Some(i) => lemma_idx_unique(next.activated_columns@, toe, i as int),
            Option::None => (),
        }
    }
    let same_toe = match (pt, nt) {
        (Some(a), Some(b)) => a == b,
        (Option::None, Option::None) => true,
        _ => false,
    };
    if ph == nh && same_toe {
        return 0;
    }
    let d = stage.distance_between(ph, nh);
    proof {
        crate::math::lemma_cube_partials(d as int);
    }
    let d3 = d as u128 * d as u128 * d as u128;
    let c = (850 * d3) / 1000000000000;
    proof {
        lemma_div_le((850 * d3) as int, 1000000000000);
    }
    c as u64
}

/// How many columns carry both a mine and a resting part (counted up to
/// column `n`).
pub open spec fn mine_count(row: Seq<Key>, fin: Seq<FootPart>, n: int) -> int
    decreases n,
{
    if n <= 0 {
        0
    } else {
        mine_count(row, fin, n - 1) + if row[n - 1].key_type == KeyType::Mine && fin[n - 1]
            != FootPart::Empty {
            1int
        } else {
            0int
        }
    }
}

/// The mine penalty: the full weight for every mined column that any part is
/// resting on after the row, pressed on this row or merely left standing.
pub open spec fn mine_cost_spec(row: Seq<Key>, next: State) -> int {
    10000000000 * mine_count(row, next.final_columns@, row.len() as int)
}

/// Mine penalty of the resting footprint under this row.
pub fn mine_cost(stage: &DanceStage, row: &Vec<Key>, next: &State) -> (r: u128)
    requires
        wf_stage(*stage),
        row@.len() == stage.columns@.len(),
        wf_state(*next, stage.columns@.len() as nat),
    ensures
        r as int == mine_cost_spec(row@, *next),
        r as int <= 10000000000 * row@.len(),
{
    let mut cost: u128 = 0;
    let mut column: usize = 0;
    let n = stage.column_count();
    proof {
        lemma_mine_count_bounds(row@, next.final_columns@, 0);
    }
    while column < n
        invariant
            column <= n,
            n == row@.len(),
            n == next.final_columns@.len(),
            cost as int == 10000000000 * mine_count(row@, next.final_columns@, column as int),
            cost as int <= 10000000000 * column as int,
        decreases n - column,
    {
        if row[column].key_type == KeyType::Mine && next.final_columns.at(column)
            != FootPart::Empty {
            cost = cost + 10000000000;
        }
        column = column + 1;
    }
    cost
}

/// The running mine count never exceeds the number of columns seen.
proof fn lemma_mine_count_bounds(row: Seq<Key>, fin: Seq<FootPart>, n: int)
    ensures
        0 <= mine_count(row, fin, n) <= if n <= 0 {
            0int
        } else {
            n
        },
    decreases n,
{
    if n > 0 {
        lemma_mine_count_bounds(row, fin, n - 1);
    }
}

} // verus!
