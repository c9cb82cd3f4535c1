//! Foot parts and per-row placements.
//!
//! A `FootPlacement` assigns to every stage column either nothing or one of
//! the four foot parts (left/right heel/toe). A body has only one of each
//! part, so a well-formed placement never repeats a part.

use crate::extensions::{HasPressRequirement, Key};
use crate::stage::{wf_stage, DanceStage};
use vstd::prelude::*;
use vstd::string::{StrSliceExecFns, StringExecFns};

verus! {

/// Which foot a part belongs to.
#[derive(Debug, Clone, Copy, PartialOrd, PartialEq, Eq, Hash, Structural)]
pub enum Side {
    Left,
    Right,
}

/// What rests on a column: nothing, or one specific part of one foot.
#[derive(Debug, Clone, Copy, PartialOrd, PartialEq, Eq, Hash, Structural)]
pub enum FootPart {
    Empty,
    LeftHeel,
    LeftToe,
    RightHeel,
    RightToe,
}

/// The side a part belongs to; `FootPart::Empty` has no side.
pub open spec fn part_side(p: FootPart) -> Option<Side> {
    match p {
        FootPart::Empty => Option::None,
        FootPart::LeftHeel | FootPart::LeftToe => Some(Side::Left),
        FootPart::RightHeel | FootPart::RightToe => Some(Side::Right),
    }
}

pub open spec fn part_is_toe(p: FootPart) -> bool {
    p == FootPart::LeftToe || p == FootPart::RightToe
}

pub open spec fn part_is_heel(p: FootPart) -> bool {
    p == FootPart::LeftHeel || p == FootPart::RightHeel
}

pub open spec fn side_heel(s: Side) -> FootPart {
    match s {
        Side::Left => FootPart::LeftHeel,
        Side::Right => FootPart::RightHeel,
    }
}

pub open spec fn side_toe(s: Side) -> FootPart {
    match s {
        Side::Left => FootPart::LeftToe,
        Side::Right => FootPart::RightToe,
    }
}

/// The heel of the side a part belongs to; `FootPart::Empty` for `Empty`.
pub open spec fn part_heel(p: FootPart) -> FootPart {
    match p {
        FootPart::Empty => FootPart::Empty,
        FootPart::LeftHeel | FootPart::LeftToe => FootPart::LeftHeel,
        FootPart::RightHeel | FootPart::RightToe => FootPart::RightHeel,
    }
}

/// The same-side opposite role: heel for a toe, toe for a heel.
pub open spec fn part_other(p: FootPart) -> FootPart {
    match p {
        FootPart::Empty => FootPart::Empty,
        FootPart::LeftHeel => FootPart::LeftToe,
        FootPart::LeftToe => FootPart::LeftHeel,
        FootPart::RightHeel => FootPart::RightToe,
        FootPart::RightToe => FootPart::RightHeel,
    }
}

impl FootPart {
    /// The four real parts, in the fixed traversal order that also fixes the
    /// order in which placements are enumerated.
    pub fn all_except_none() -> (r: [FootPart; 4])
        ensures
            r@ == seq![
                FootPart::LeftHeel,
                FootPart::LeftToe,
                FootPart::RightHeel,
                FootPart::RightToe,
            ],
    {
        let r = [FootPart::LeftHeel, FootPart::LeftToe, FootPart::RightHeel, FootPart::RightToe];
        proof {
            assert(r@ =~= seq![
                FootPart::LeftHeel,
                FootPart::LeftToe,
                FootPart::RightHeel,
                FootPart::RightToe,
            ]);
        }
        r
    }

    pub fn is_toe(&self) -> (r: bool)
        ensures
            r == part_is_toe(*self),
    {
        matches!(self, FootPart::LeftToe | FootPart::RightToe)
    }

    pub fn is_heel(&self) -> (r: bool)
        ensures
            r == part_is_heel(*self),
    {
        matches!(self, FootPart::LeftHeel | FootPart::RightHeel)
    }

    pub fn side(&self) -> (r: Option<Side>)
        ensures
            r == part_side(*self),
    {
        match self {
            FootPart::Empty => Option::None,
            FootPart::LeftHeel => Some(Side::Left),
            FootPart::LeftToe => Some(Side::Left),
            FootPart::RightHeel => Some(Side::Right),
            FootPart::RightToe => Some(Side::Right),
        }
    }

    pub fn heel(side: Side) -> (r: FootPart)
        ensures
            r == side_heel(side),
    {
        match side {
            Side::Left => FootPart::LeftHeel,
            Side::Right => FootPart::RightHeel,
        }
    }

    pub fn toe(side: Side) -> (r: FootPart)
        ensures
            r == side_toe(side),
    {
        match side {
            Side::Left => FootPart::LeftToe,
            Side::Right => FootPart::RightToe,
        }
    }

    pub fn other_part(&self) -> (r: FootPart)
        ensures
            r == part_other(*self),
    {
        match self {
            FootPart::Empty => FootPart::Empty,
            FootPart::LeftHeel => FootPart::LeftToe,
            FootPart::LeftToe => FootPart::LeftHeel,
            FootPart::RightHeel => FootPart::RightToe,
            FootPart::RightToe => FootPart::RightHeel,
        }
    }
}

/// What foot part is on each column of the stage.
#[derive(Debug, Clone, PartialEq, Eq, Hash)]
pub struct FootPlacement(pub Vec<FootPart>);

impl View for FootPlacement {
    type V = Seq<FootPart>;

    open spec fn view(&self) -> Seq<FootPart> {
        self.0@
    }
}

/// Some column of `s` holds `p`.
pub open spec fn placement_contains(s: Seq<FootPart>, p: FootPart) -> bool {
    exists|i: int| 0 <= i < s.len() && s[i] == p
}

/// The column holding `p`; meaningful when `placement_contains(s, p)` holds
/// and, for a well-formed placement, unique.
pub open spec fn idx_of(s: Seq<FootPart>, p: FootPart) -> int {
    choose|i: int| 0 <= i < s.len() && s[i] == p
}

/// In a well-formed placement, any column holding a real part is the one
/// `idx_of` names.
pub proof fn lemma_idx_unique(s: Seq<FootPart>, p: FootPart, i: int)
    requires
        wf_placement(s),
        0 <= i < s.len(),
        s[i] == p,
        p != FootPart::Empty,
    ensures
        placement_contains(s, p),
        idx_of(s, p) == i,
{
    assert(placement_contains(s, p));
    let j = idx_of(s, p);
    assert(0 <= j < s.len() && s[j] == p);
}

/// Each real part appears on at most one column.
pub open spec fn wf_placement(s: Seq<FootPart>) -> bool {
    forall|i: int, j: int|
        0 <= i < s.len() && 0 <= j < s.len() && #[trigger] s[i] == #[trigger] s[j] && s[i]
            != FootPart::Empty ==> i == j
}

impl FootPlacement {
    /// An empty placement: every column holds nothing.
    pub fn new(columns: usize) -> (r: FootPlacement)
        ensures
            r@.len() == columns,
            forall|i: int| 0 <= i < columns ==> r@[i] == FootPart::Empty,
    {
        let mut v: Vec<FootPart> = Vec::new();
        let mut i: usize = 0;
        while i < columns
            invariant
                i <= columns,
                v@.len() == i,
                forall|j: int| 0 <= j < i ==> v@[j] == FootPart::Empty,
            decreases columns - i,
        {
            v.push(FootPart::Empty);
            i = i + 1;
        }
        FootPlacement(v)
    }

    /// The first column holding `part`, if any.
    pub fn get_foot_part_index(&self, part: FootPart) -> (r: Option<usize>)
        ensures
            match r {
                Some(i) => i < self@.len() && self@[i as int] == part && forall|j: int|
                    0 <= j < i ==> self@[j] != part,
                Option::None => forall|j: int| 0 <= j < self@.len() ==> self@[j] != part,
            },
    {
        let mut i: usize = 0;
        while i < self.0.len()
            invariant
                i <= self@.len(),
                forall|j: int| 0 <= j < i ==> self@[j] != part,
            decreases self@.len() - i,
        {
            if self.0[i] == part {
                return Some(i);
            }
            i = i + 1;
        }
        Option::None
    }

    /// The columns of all four real parts at once.
    pub fn get_foot_part_indices(&self) -> (r: FootPartIndices)
        ensures
            index_matches(self@, FootPart::LeftHeel, r.left_heel),
            index_matches(self@, FootPart::LeftToe, r.left_toe),
            index_matches(self@, FootPart::RightHeel, r.right_heel),
            index_matches(self@, FootPart::RightToe, r.right_toe),
    {
        FootPartIndices {
            left_heel: self.get_foot_part_index(FootPart::LeftHeel),
            left_toe: self.get_foot_part_index(FootPart::LeftToe),
            right_heel: self.get_foot_part_index(FootPart::RightHeel),
            right_toe: self.get_foot_part_index(FootPart::RightToe),
        }
    }

    pub fn contains(&self, part: FootPart) -> (r: bool)
        ensures
            r == placement_contains(self@, part),
    {
        let mut i: usize = 0;
        while i < self.0.len()
            invariant
                i <= self@.len(),
                forall|j: int| 0 <= j < i ==> self@[j] != part,
            decreases self@.len() - i,
        {
            if self.0[i] == part {
                return true;
            }
            i = i + 1;
        }
        false
    }

    /// Both the heel and the toe of `side` are down.
    pub fn is_bracketing(&self, side: Side) -> (r: bool)
        ensures
            r == (placement_contains(self@, side_heel(side)) && placement_contains(
                self@,
                side_toe(side),
            )),
    {
        match side {
            Side::Left => self.contains(FootPart::LeftToe) && self.contains(FootPart::LeftHeel),
            Side::Right => self.contains(FootPart::RightToe) && self.contains(FootPart::RightHeel),
        }
    }

    pub fn at(&self, column_idx: usize) -> (r: FootPart)
        requires
            column_idx < self@.len(),
        ensures
            r == self@[column_idx as int],
    {
        self.0[column_idx]
    }

    /// Replaces the part on one column.
    pub fn set(&mut self, column_idx: usize, part: FootPart)
        requires
            column_idx < old(self)@.len(),
        ensures
            final(self)@ == old(self)@.update(column_idx as int, part),
    {
        self.0.set(column_idx, part);
    }

    /// A fresh placement with the same columns.
    pub fn duplicate(&self) -> (r: FootPlacement)
        ensures
            r@ == self@,
    {
        let mut v: Vec<FootPart> = Vec::new();
        let mut i: usize = 0;
        while i < self.0.len()
            invariant
                i <= self@.len(),
                v@.len() == i,
                forall|j: int| 0 <= j < i ==> v@[j] == self@[j],
            decreases self@.len() - i,
        {
            v.push(self.0[i]);
            i = i + 1;
        }
        proof {
            assert(v@ =~= self@);
        }
        FootPlacement(v)
    }

    /// Executable equality on the underlying columns.
    pub fn same_columns(&self, other: &FootPlacement) -> (r: bool)
        ensures
            r == (self@ == other@),
    {
        if self.0.len() != other.0.len() {
            proof {
                assert(self@.len() != other@.len());
            }
            return false;
        }
        let mut i: usize = 0;
        while i < self.0.len()
            invariant
                i <= self@.len(),
                self@.len() == other@.len(),
                forall|j: int| 0 <= j < i ==> self@[j] == other@[j],
            decreases self@.len() - i,
        {
            if self.0[i] != other.0[i] {
                return false;
            }
            i = i + 1;
        }
        proof {
            assert(self@ =~= other@);
        }
        true
    }
}

/// Every toe on the placement is accompanied by its same-side heel.
pub open spec fn toes_have_heels(s: Seq<FootPart>) -> bool {
    &&& placement_contains(s, FootPart::LeftToe) ==> placement_contains(s, FootPart::LeftHeel)
    &&& placement_contains(s, FootPart::RightToe) ==> placement_contains(s, FootPart::RightHeel)
}

/// A placement `s` legally covers `row` on `stage`: it presses exactly the
/// press-requiring columns, repeats no part, uses no toe without its heel,
/// and keeps each foot's heel-toe pair within bracket reach.
pub open spec fn valid_placement(
    stage: crate::stage::DanceStage,
    row: Seq<crate::extensions::Key>,
    s: Seq<FootPart>,
) -> bool {
    &&& s.len() == row.len()
    &&& forall|c: int|
        0 <= c < row.len() ==> (crate::extensions::press_required(row[c].key_type) <==> s[c]
            != FootPart::Empty)
    &&& wf_placement(s)
    &&& toes_have_heels(s)
    &&& (placement_contains(s, FootPart::LeftHeel) && placement_contains(s, FootPart::LeftToe)
        ==> crate::stage::bracket_ok(
        stage,
        idx_of(s, FootPart::LeftHeel),
        idx_of(s, FootPart::LeftToe),
    ))
    &&& (placement_contains(s, FootPart::RightHeel) && placement_contains(s, FootPart::RightToe)
        ==> crate::stage::bracket_ok(
        stage,
        idx_of(s, FootPart::RightHeel),
        idx_of(s, FootPart::RightToe),
    ))
}

/// Some element of `perms` has exactly the columns `s`.
pub open spec fn placement_in(perms: Seq<FootPlacement>, s: Seq<FootPart>) -> bool {
    exists|i: int| 0 <= i < perms.len() && perms[i]@ == s
}

/// `s` agrees with `cur` on every column before `col`.
pub open spec fn extends_at(s: Seq<FootPart>, cur: Seq<FootPart>, col: int) -> bool {
    s.len() == cur.len() && forall|c: int| 0 <= c < col ==> s[c] == cur[c]
}

/// Writing an unused real part onto an empty column keeps a placement free
/// of repeats.
proof fn lemma_update_wf(cur: Seq<FootPart>, col: int, part: FootPart)
    requires
        wf_placement(cur),
        0 <= col < cur.len(),
        !placement_contains(cur, part),
        part != FootPart::Empty,
        cur[col] == FootPart::Empty,
    ensures
        wf_placement(cur.update(col, part)),
{
    let upd = cur.update(col, part);
    assert forall|i: int, j: int|
        0 <= i < upd.len() && 0 <= j < upd.len() && upd[i] == upd[j] && upd[i] != FootPart::Empty
            implies i == j by {
        if i != col && j != col {
            assert(cur[i] == upd[i] && cur[j] == upd[j]);
        } else if i == col && j != col {
            assert(upd[j] == part && cur[j] == part);
        } else if j == col && i != col {
            assert(upd[i] == part && cur[i] == part);
        }
    }
}

/// `r` is the first column of `s` holding `part`, or nothing while absent.
pub open spec fn index_matches(s: Seq<FootPart>, part: FootPart, r: Option<usize>) -> bool {
    match r {
        Some(i) => i < s.len() && s[i as int] == part && forall|j: int| 0 <= j < i ==> s[j] != part,
        Option::None => forall|j: int| 0 <= j < s.len() ==> s[j] != part,
    }
}

/// The foot part a character of the placement string format stands for:
/// `-` for nothing, `L`/`l` for the left heel/toe, `R`/`r` for the right.
pub open spec fn part_of_char(c: char) -> Option<FootPart> {
    if c == '-' {
        Some(FootPart::Empty)
    } else if c == 'L' {
        Some(FootPart::LeftHeel)
    } else if c == 'l' {
        Some(FootPart::LeftToe)
    } else if c == 'R' {
        Some(FootPart::RightHeel)
    } else if c == 'r' {
        Some(FootPart::RightToe)
    } else {
        Option::None
    }
}

/// The character of the placement string format standing for a part.
pub open spec fn char_of_part(p: FootPart) -> char {
    match p {
        FootPart::Empty => '-',
        FootPart::LeftHeel => 'L',
        FootPart::LeftToe => 'l',
        FootPart::RightHeel => 'R',
        FootPart::RightToe => 'r',
    }
}

impl FootPlacement {
    /// Reads a placement from the string format, one character per column;
    /// any unknown character refuses the whole string.
    pub fn parse(s: &str) -> (r: Option<FootPlacement>)
        ensures
            match r {
                Some(p) => p@.len() == s@.len() && forall|i: int|
                    0 <= i < s@.len() ==> part_of_char(s@[i]) == Some(p@[i]),
                Option::None => exists|i: int|
                    0 <= i < s@.len() && part_of_char(#[trigger] s@[i]) is None,
            },
    {
        let n = s.unicode_len();
        let mut v: Vec<FootPart> = Vec::new();
        let mut i: usize = 0;
        while i < n
            invariant
                i <= n,
                n == s@.len(),
                v@.len() == i,
                forall|j: int| 0 <= j < i ==> part_of_char(s@[j]) == Some(v@[j]),
            decreases n - i,
        {
            let c = s.get_char(i);
            let part = if c == '-' {
                FootPart::Empty
            } else if c == 'L' {
                FootPart::LeftHeel
            } else if c == 'l' {
                FootPart::LeftToe
            } else if c == 'R' {
                FootPart::RightHeel
            } else if c == 'r' {
                FootPart::RightToe
            } else {
                return Option::None;
            };
            v.push(part);
            i = i + 1;
        }
        Some(FootPlacement(v))
    }

    /// Writes the placement in the string format.
    pub fn text(&self) -> (r: String)
        ensures
            r@.len() == self@.len(),
            forall|i: int| 0 <= i < self@.len() ==> r@[i] == char_of_part(self@[i]),
    {
        let mut out = String::new();
        let mut i: usize = 0;
        proof {
            reveal_strlit("-");
            reveal_strlit("L");
            reveal_strlit("l");
            reveal_strlit("R");
            reveal_strlit("r");
        }
        while i < self.0.len()
            invariant
                i <= self@.len(),
                out@.len() == i,
                forall|j: int| 0 <= j < i ==> out@[j] == char_of_part(self@[j]),
            decreases self@.len() - i,
        {
            proof {
                reveal_strlit("-");
                reveal_strlit("L");
                reveal_strlit("l");
                reveal_strlit("R");
                reveal_strlit("r");
            }
            match self.0[i] {
                FootPart::Empty => out.append("-"),
                FootPart::LeftHeel => out.append("L"),
                FootPart::LeftToe => out.append("l"),
                FootPart::RightHeel => out.append("R"),
                FootPart::RightToe => out.append("r"),
            }
            i = i + 1;
        }
        out
    }

    /// A placement over the four columns of the default stage.
    pub fn from_ddr_solo(a: FootPart, b: FootPart, c: FootPart, d: FootPart) -> (r: FootPlacement)
        ensures
            r@ =~= seq![a, b, c, d],
    {
        let mut v: Vec<FootPart> = Vec::new();
        v.push(a);
        v.push(b);
        v.push(c);
        v.push(d);
        FootPlacement(v)
    }
}

/// The traversal rank of a part: the depth-first enumeration tries parts on
/// each pressed column in this order.
pub open spec fn part_rank(p: FootPart) -> int {
    match p {
        FootPart::Empty => 0,
        FootPart::LeftHeel => 1,
        FootPart::LeftToe => 2,
        FootPart::RightHeel => 3,
        FootPart::RightToe => 4,
    }
}

/// `a` comes before `b` in the enumeration order: on the first column where
/// they differ, `a` holds the part of lower rank.
pub open spec fn lex_before(a: Seq<FootPart>, b: Seq<FootPart>) -> bool {
    exists|c: int|
        0 <= c < a.len() && c < b.len() && part_rank(a[c]) < part_rank(#[trigger] b[c]) && (forall|
            d: int,
        |
            0 <= d < c ==> a[d] == b[d])
}

/// A later snapshot of a growing list still holds any placement an earlier
/// snapshot held.
proof fn lemma_placement_in_monotonic(p1: Seq<FootPlacement>, p2: Seq<FootPlacement>, s: Seq<
    FootPart,
>)
    requires
        placement_in(p1, s),
        p1.len() <= p2.len(),
        forall|i: int| 0 <= i < p1.len() ==> p2[i] == p1[i],
    ensures
        placement_in(p2, s),
{
    let i = choose|i: int| 0 <= i < p1.len() && p1[i]@ == s;
    assert(0 <= i < p2.len() && p2[i]@ == s);
}

/// Every legal placement covering `row` on `stage`, in the fixed traversal
/// order of the depth-first search: exactly those placements that press the
/// press-requiring columns with non-repeating parts, no toe without its
/// heel, and heel-toe pairs within bracket reach.
pub fn foot_placement_permutations(stage: &DanceStage, row: &Vec<Key>) -> (r: Vec<FootPlacement>)
    requires
        wf_stage(*stage),
        row@.len() == stage.columns@.len(),
    ensures
        forall|i: int|
            0 <= i < r@.len() ==> valid_placement(*stage, row@, #[trigger] r@[i]@),
        forall|s: Seq<FootPart>|
            #[trigger] valid_placement(*stage, row@, s) ==> placement_in(r@, s),
        forall|i: int, j: int| 0 <= i < j < r@.len() ==> lex_before(r@[i]@, r@[j]@),
{
    let mut permutations: Vec<FootPlacement> = Vec::new();
    let start = FootPlacement::new(row.len());
    permute_foot_placement(&mut permutations, stage, row, &start, 0);
    permutations
}

fn permute_foot_placement(
    permutations: &mut Vec<FootPlacement>,
    stage: &DanceStage,
    row: &Vec<Key>,
    current_placement: &FootPlacement,
    column: usize,
)
    requires
        wf_stage(*stage),
        row@.len() == stage.columns@.len(),
        current_placement@.len() == row@.len(),
        column <= row@.len(),
        wf_placement(current_placement@),
        forall|c: int|
            column <= c < row@.len() ==> current_placement@[c] == FootPart::Empty,
        forall|c: int|
            0 <= c < column ==> (crate::extensions::press_required(row@[c].key_type)
                <==> current_placement@[c] != FootPart::Empty),
    ensures
        final(permutations)@.len() >= old(permutations)@.len(),
        forall|i: int|
            0 <= i < old(permutations)@.len() ==> final(permutations)@[i] == old(permutations)@[i],
        forall|i: int|
            old(permutations)@.len() <= i < final(permutations)@.len() ==> valid_placement(
                *stage,
                row@,
                #[trigger] final(permutations)@[i]@,
            ),
        forall|s: Seq<FootPart>|
            #[trigger] valid_placement(*stage, row@, s) && extends_at(
                s,
                current_placement@,
                column as int,
            ) ==> placement_in(final(permutations)@, s),
        forall|i: int|
            old(permutations)@.len() <= i < final(permutations)@.len() ==> extends_at(
                (#[trigger] final(permutations)@[i])@,
                current_placement@,
                column as int,
            ),
        forall|i: int, j: int|
            old(permutations)@.len() <= i < j < final(permutations)@.len() ==> lex_before(
                (#[trigger] final(permutations)@[i])@,
                (#[trigger] final(permutations)@[j])@,
            ),
    decreases row@.len() - column,
{
    let n = row.len();
    if column >= n {
        let indices = current_placement.get_foot_part_indices();
        proof {
            match indices.left_heel {
                Some(i) => lemma_idx_unique(current_placement@, FootPart::LeftHeel, i as int),
                Option::None => (),
            }
            match indices.left_toe {
                Some(i) => lemma_idx_unique(current_placement@, FootPart::LeftToe, i as int),
                Option::None => (),
            }
            match indices.right_heel {
                Some(i) => lemma_idx_unique(current_placement@, FootPart::RightHeel, i as int),
                Option::None => (),
            }
            match indices.right_toe {
                Some(i) => lemma_idx_unique(current_placement@, FootPart::RightToe, i as int),
                Option::None => (),
            }
        }
        let invalid_left_toe = matches!(
            (indices.left_heel, indices.left_toe),
            (Option::None, Some(_))
        );
        let invalid_right_toe = matches!(
            (indices.right_heel, indices.right_toe),
            (Option::None, Some(_))
        );
        if invalid_left_toe || invalid_right_toe {
            proof {
                assert(!toes_have_heels(current_placement@));
                assert forall|s: Seq<FootPart>|
                    valid_placement(*stage, row@, s) && extends_at(
                        s,
                        current_placement@,
                        column as int,
                    ) implies placement_in(final(permutations)@, s) by {
                    assert(s =~= current_placement@);
                }
            }
            return ;
        }
        let valid_left_bracket = match (indices.left_heel, indices.left_toe) {
            (Some(h), Some(t)) => stage.is_valid_bracket(h, t),
            _ => true,
        };
        let valid_right_bracket = match (indices.right_heel, indices.right_toe) {
            (Some(h), Some(t)) => stage.is_valid_bracket(h, t),
            _ => true,
        };
        if !valid_left_bracket || !valid_right_bracket {
            proof {
                assert forall|s: Seq<FootPart>|
                    valid_placement(*stage, row@, s) && extends_at(
                        s,
                        current_placement@,
                        column as int,
                    ) implies placement_in(final(permutations)@, s) by {
                    assert(s =~= current_placement@);
                }
            }
            return ;
        }
        permutations.push(current_placement.duplicate());
        proof {
            assert(valid_placement(*stage, row@, current_placement@));
            assert forall|s: Seq<FootPart>|
                valid_placement(*stage, row@, s) && extends_at(
                    s,
                    current_placement@,
                    column as int,
                ) implies placement_in(final(permutations)@, s) by {
                assert(s =~= current_placement@);
                let i = final(permutations)@.len() - 1;
                assert(final(permutations)@[i]@ == s);
            }
        }
        return ;
    }
    if row[column].key_type.require_press() {
        let ghost g0 = permutations@;
        let part_a = FootPart::LeftHeel;
        if !current_placement.contains(part_a) {
            let mut np = current_placement.duplicate();
            np.set(column, part_a);
            proof {
                lemma_update_wf(current_placement@, column as int, part_a);
            }
            permute_foot_placement(permutations, stage, row, &np, column + 1);
        }
        let ghost g1 = permutations@;
        let part_b = FootPart::LeftToe;
        if !current_placement.contains(part_b) {
            let mut np = current_placement.duplicate();
            np.set(column, part_b);
            proof {
                lemma_update_wf(current_placement@, column as int, part_b);
            }
            permute_foot_placement(permutations, stage, row, &np, column + 1);
        }
        let ghost g2 = permutations@;
        let part_c = FootPart::RightHeel;
        if !current_placement.contains(part_c) {
            let mut np = current_placement.duplicate();
            np.set(column, part_c);
            proof {
                lemma_update_wf(current_placement@, column as int, part_c);
            }
            permute_foot_placement(permutations, stage, row, &np, column + 1);
        }
        let ghost g3 = permutations@;
        let part_d = FootPart::RightToe;
        if !current_placement.contains(part_d) {
            let mut np = current_placement.duplicate();
            np.set(column, part_d);
            proof {
                lemma_update_wf(current_placement@, column as int, part_d);
            }
            permute_foot_placement(permutations, stage, row, &np, column + 1);
        }
        proof {
            assert forall|s: Seq<FootPart>|
                valid_placement(*stage, row@, s) && extends_at(
                    s,
                    current_placement@,
                    column as int,
                ) implies placement_in(final(permutations)@, s) by {
                let part = s[column as int];
                assert(crate::extensions::press_required(row@[column as int].key_type));
                assert(part != FootPart::Empty);
                if placement_contains(current_placement@, part) {
                    let j = choose|j: int|
                        0 <= j < current_placement@.len() && current_placement@[j] == part;
                    assert(j < column);
                    assert(s[j] == part);
                    assert(false);
                }
                let upd = current_placement@.update(column as int, part);
                assert(extends_at(s, upd, column as int + 1));
                if part == FootPart::LeftHeel {
                    assert(placement_in(g1, s));
                    lemma_placement_in_monotonic(g1, g2, s);
                    lemma_placement_in_monotonic(g2, g3, s);
                    lemma_placement_in_monotonic(g3, final(permutations)@, s);
                } else if part == FootPart::LeftToe {
                    assert(placement_in(g2, s));
                    lemma_placement_in_monotonic(g2, g3, s);
                    lemma_placement_in_monotonic(g3, final(permutations)@, s);
                } else if part == FootPart::RightHeel {
                    assert(placement_in(g3, s));
                    lemma_placement_in_monotonic(g3, final(permutations)@, s);
                } else {
                    assert(part == FootPart::RightToe);
                    assert(placement_in(final(permutations)@, s));
                }
            }
            // the four blocks emit in rank order: within a block by the
            // recursive order, across blocks by the part on this column
            assert(forall|x: int| 0 <= x < g1.len() ==> #[trigger] permutations@[x] == g1[x]);
            assert(forall|x: int| 0 <= x < g2.len() ==> #[trigger] permutations@[x] == g2[x]);
            assert(forall|x: int| 0 <= x < g3.len() ==> #[trigger] permutations@[x] == g3[x]);
            assert forall|i: int, j: int|
                g0.len() <= i < j < permutations@.len() implies lex_before(
                (permutations@[i])@,
                (permutations@[j])@,
            ) by {
                let cur = current_placement@;
                let a = (permutations@[i])@;
                let b = (permutations@[j])@;
                if (i < g1.len() && j < g1.len()) || (g1.len() <= i && j < g2.len()) || (g2.len()
                    <= i && j < g3.len()) || g3.len() <= i {
                    // same block: the recursive call emitted them in order
                    assert(lex_before(a, b));
                } else {
                    // different blocks: both agree with the current prefix
                    // and differ on this column by the block's part
                    assert(extends_at(a, cur.update(column as int, a[column as int]), column as int
                        + 1));
                    assert(extends_at(b, cur.update(column as int, b[column as int]), column as int
                        + 1));
                    assert(a[column as int] == if i < g1.len() {
                        part_a
                    } else if i < g2.len() {
                        part_b
                    } else {
                        part_c
                    });
                    assert(b[column as int] == if j < g2.len() {
                        part_b
                    } else if j < g3.len() {
                        part_c
                    } else {
                        part_d
                    });
                    assert(part_rank(a[column as int]) < part_rank(b[column as int]));
                    assert(valid_placement(*stage, row@, a) && valid_placement(*stage, row@, b));
                    assert(forall|d: int| 0 <= d < column ==> a[d] == b[d]);
                    assert(lex_before(a, b));
                }
            }
        }
        return ;
    }
    permute_foot_placement(permutations, stage, row, current_placement, column + 1);
    proof {
        assert forall|s: Seq<FootPart>|
            valid_placement(*stage, row@, s) && extends_at(
                s,
                current_placement@,
                column as int,
            ) implies placement_in(final(permutations)@, s) by {
            assert(s[column as int] == FootPart::Empty);
            assert(extends_at(s, current_placement@, column as int + 1));
        }
    }
}

/// The columns of the four real parts within one placement.
#[derive(Debug, Clone, Copy, PartialEq, Eq)]
pub struct FootPartIndices {
    pub left_heel: Option<usize>,
    pub left_toe: Option<usize>,
    pub right_heel: Option<usize>,
    pub right_toe: Option<usize>,
}

} // verus!
