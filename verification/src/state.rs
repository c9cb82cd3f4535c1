//! The foot state left behind by a row.
//!
//! `activated_columns` records the parts that pressed on this row alone;
//! `final_columns` is the full resting footprint after it, inheriting from
//! the previous footprint wherever the row left a column untouched.

use crate::feet::{
    part_heel, part_is_toe, placement_contains, side_heel, side_toe, wf_placement, FootPart,
    FootPlacement, Side,
};
use vstd::prelude::*;

verus! {

/// Foot state after one row has been played.
#[derive(Debug, Clone, PartialEq, Eq, Hash)]
pub struct State {
    pub activated_columns: FootPlacement,
    pub final_columns: FootPlacement,
}

/// Both placements have one entry per stage column, no part repeats, and
/// every part that pressed also rests where it pressed.
pub open spec fn wf_state(st: State, columns: nat) -> bool {
    &&& st.activated_columns@.len() == columns
    &&& st.final_columns@.len() == columns
    &&& wf_placement(st.activated_columns@)
    &&& wf_placement(st.final_columns@)
    &&& forall|c: int|
        0 <= c < columns && st.activated_columns@[c] != FootPart::Empty
            ==> st.final_columns@[c] == #[trigger] st.activated_columns@[c]
}

/// The footprint one column is left with when placement `p` plays over the
/// previous footprint `prev_final`: the freshly placed part wins; otherwise
/// the old part is inherited unless it moved elsewhere, or it was a toe whose
/// heel moved away (a bracket collapsing to a tap drops the toe). One corner
/// follows from these rules: when the other foot presses the very column a
/// heel rested on, the untouched same-side toe is still inherited and rests
/// on without its heel.
pub open spec fn appended_final(prev_final: Seq<FootPart>, p: Seq<FootPart>, c: int) -> FootPart {
    if p[c] != FootPart::Empty {
        p[c]
    } else if prev_final[c] != FootPart::Empty && !placement_contains(p, prev_final[c]) && !(
    part_is_toe(prev_final[c]) && placement_contains(p, part_heel(prev_final[c]))) {
        prev_final[c]
    } else {
        FootPart::Empty
    }
}

impl State {
    /// The state of an untouched stage.
    pub fn new(column_count: usize) -> (r: State)
        ensures
            r.activated_columns@.len() == column_count,
            r.final_columns@.len() == column_count,
            forall|c: int| 0 <= c < column_count ==> r.activated_columns@[c] == FootPart::Empty,
            forall|c: int| 0 <= c < column_count ==> r.final_columns@[c] == FootPart::Empty,
    {
        State {
            activated_columns: FootPlacement::new(column_count),
            final_columns: FootPlacement::new(column_count),
        }
    }

    /// Plays placement `columns` over this state and returns the state after
    /// the row: the placement becomes the activation, and each column's
    /// resting part follows the inheritance rule of `appended_final`.
    pub fn append(&self, columns: &FootPlacement) -> (r: State)
        requires
            self.activated_columns@.len() == columns@.len(),
            self.final_columns@.len() == columns@.len(),
        ensures
            r.activated_columns@ == columns@,
            r.final_columns@.len() == columns@.len(),
            forall|c: int|
                0 <= c < columns@.len() ==> r.final_columns@[c] == appended_final(
                    self.final_columns@,
                    columns@,
                    c,
                ),
            wf_placement(columns@) && wf_placement(self.final_columns@) ==> wf_state(
                r,
                columns@.len(),
            ),
    {
        let column_count = columns.0.len();
        let mut result = State::new(column_count);

        let mut column: usize = 0;
        while column < column_count
            invariant
                column <= column_count,
                result.activated_columns@.len() == column_count,
                result.final_columns@.len() == column_count,
                columns@.len() == column_count,
                forall|c: int| 0 <= c < column ==> result.activated_columns@[c] == columns@[c],
                forall|c: int|
                    column <= c < column_count ==> result.activated_columns@[c]
                        == FootPart::Empty,
                forall|c: int| 0 <= c < column_count ==> result.final_columns@[c] == FootPart::Empty,
            decreases column_count - column,
        {
            let column_value = columns.at(column);
            if column_value != FootPart::Empty {
                result.activated_columns.set(column, column_value);
            }
            column = column + 1;
        }

        proof {
            assert(result.activated_columns@ =~= columns@);
        }

        let mut column: usize = 0;
        while column < column_count
            invariant
                column <= column_count,
                result.activated_columns@ == columns@,
                result.final_columns@.len() == column_count,
                columns@.len() == column_count,
                self.final_columns@.len() == column_count,
                forall|c: int|
                    0 <= c < column ==> result.final_columns@[c] == appended_final(
                        self.final_columns@,
                        columns@,
                        c,
                    ),
                forall|c: int|
                    column <= c < column_count ==> result.final_columns@[c] == FootPart::Empty,
            decreases column_count - column,
        {
            if result.activated_columns.at(column) != FootPart::Empty {
                let v = result.activated_columns.at(column);
                result.final_columns.set(column, v);
            } else {
                let prev_foot_part = self.final_columns.at(column);
                if prev_foot_part != FootPart::Empty && !result.activated_columns.contains(
                    prev_foot_part,
                ) {
                    let side = prev_foot_part.side();
                    let moved_heel = match side {
                        Some(s) => result.activated_columns.contains(FootPart::heel(s)),
                        Option::None => false,
                    };
                    let bracket_to_tap_transition = prev_foot_part.is_toe() && moved_heel;
                    if !bracket_to_tap_transition {
                        result.final_columns.set(column, prev_foot_part);
                    }
                }
            }
            column = column + 1;
        }

        proof {
            if wf_placement(columns@) && wf_placement(self.final_columns@) {
                lemma_append_wf(self.final_columns@, columns@, result.final_columns@);
            }
        }

        result
    }

    /// Did `part` press on this row?
    pub fn foot_part_activated(&self, part: FootPart) -> (r: bool)
        ensures
            r == placement_contains(self.activated_columns@, part),
    {
        self.activated_columns.contains(part)
    }

    /// Did any part of `side` press on this row?
    pub fn side_activated(&self, side: Side) -> (r: bool)
        ensures
            r == side_activated_spec(*self, side),
    {
        self.foot_part_activated(FootPart::heel(side)) || self.foot_part_activated(
            FootPart::toe(side),
        )
    }
}

/// Some part of `side` pressed on the row that produced `st`.
pub open spec fn side_activated_spec(st: State, side: Side) -> bool {
    placement_contains(st.activated_columns@, side_heel(side)) || placement_contains(
        st.activated_columns@,
        side_toe(side),
    )
}

/// A footprint built column-wise by `appended_final` from well-formed inputs
/// is itself well-formed, and keeps every freshly placed part in place.
proof fn lemma_append_wf(prev_final: Seq<FootPart>, p: Seq<FootPart>, fin: Seq<FootPart>)
    requires
        wf_placement(p),
        wf_placement(prev_final),
        prev_final.len() == p.len(),
        fin.len() == p.len(),
        forall|c: int| 0 <= c < p.len() ==> fin[c] == appended_final(prev_final, p, c),
    ensures
        wf_placement(fin),
        forall|c: int| 0 <= c < p.len() && p[c] != FootPart::Empty ==> fin[c] == p[c],
{
    assert forall|i: int, j: int|
        0 <= i < fin.len() && 0 <= j < fin.len() && fin[i] == fin[j] && fin[i] != FootPart::Empty
            implies i == j by {
        assert(fin[i] == appended_final(prev_final, p, i));
        assert(fin[j] == appended_final(prev_final, p, j));
        if p[i] != FootPart::Empty && p[j] != FootPart::Empty {
            assert(i == j);
        } else if p[i] != FootPart::Empty && p[j] == FootPart::Empty {
            // fin[j] is inherited, so it does not appear in p; but fin[i] = p[i].
            assert(placement_contains(p, fin[i])) by {
                assert(p[i] == fin[i]);
            }
            assert(false);
        } else if p[i] == FootPart::Empty && p[j] != FootPart::Empty {
            assert(placement_contains(p, fin[j])) by {
                assert(p[j] == fin[j]);
            }
            assert(false);
        } else {
            // both inherited from prev_final
            assert(prev_final[i] == fin[i] && prev_final[j] == fin[j]);
            assert(i == j);
        }
    }
}

} // verus!
