//! Stage geometry in exact fixed-point coordinates.
//!
//! Panel positions are held in millionths of a panel unit, so the default
//! four-panel layout puts its panels at (-1_000_000, 0), (0, -1_000_000),
//! (0, 1_000_000) and (1_000_000, 0). Distances come out in the same scale
//! through an exact integer square root; the facing helpers return values
//! scaled by 10^4.

use crate::math::{is_isqrt, isqrt, isqrt_spec, lemma_isqrt_exists, lemma_square_monotonic};
use vstd::prelude::*;

verus! {

/// Coordinates are kept within one hundred panel units so that every
/// intermediate product of the geometry fits comfortably in 128 bits.
pub const COORDINATE_LIMIT: i64 = 100000000;

/// A point of the stage plane, in millionths of a panel unit.
#[derive(Debug, Copy, Clone, PartialEq, Hash)]
pub struct StagePosition {
    pub x: i64,
    pub y: i64,
}

pub open spec fn coordinate_ok(v: int) -> bool {
    -100000000 <= v <= 100000000
}

pub open spec fn position_ok(p: StagePosition) -> bool {
    coordinate_ok(p.x as int) && coordinate_ok(p.y as int)
}

impl StagePosition {
    pub fn new(x: i64, y: i64) -> (r: StagePosition)
        requires
            coordinate_ok(x as int),
            coordinate_ok(y as int),
        ensures
            r.x == x && r.y == y,
    {
        StagePosition { x, y }
    }
}

/// Immutable stage geometry: an indexed list of panel positions.
#[derive(Debug, Clone, PartialEq)]
pub struct DanceStage {
    pub columns: Vec<StagePosition>,
}

/// Every coordinate is in range and no two panels coincide.
pub open spec fn wf_stage(s: DanceStage) -> bool {
    &&& forall|i: int| 0 <= i < s.columns@.len() ==> position_ok(#[trigger] s.columns@[i])
    &&& forall|i: int, j: int|
        0 <= i < s.columns@.len() && 0 <= j < s.columns@.len() && i != j ==> !(
        #[trigger] s.columns@[i].x == #[trigger] s.columns@[j].x && s.columns@[i].y
            == s.columns@[j].y)
}

/// Squared distance between two columns, in squared micro-units.
pub open spec fn dist_sq(s: DanceStage, a: int, b: int) -> int {
    (s.columns@[a].x - s.columns@[b].x) * (s.columns@[a].x - s.columns@[b].x) + (s.columns@[a].y
        - s.columns@[b].y) * (s.columns@[a].y - s.columns@[b].y)
}

/// Distance between two columns, in micro-units (floor of the real value).
pub open spec fn dist_micro(s: DanceStage, a: int, b: int) -> int {
    isqrt_spec(dist_sq(s, a, b))
}

/// A heel and toe on these two columns is physically reachable: the panels
/// are less than two units apart.
pub open spec fn bracket_ok(s: DanceStage, a: int, b: int) -> bool {
    dist_sq(s, a, b) < 4000000000000
}

/// A side panel lies on the horizontal axis, one unit or more out.
pub open spec fn side_panel_spec(s: DanceStage, p: int) -> bool {
    s.columns@[p].y == 0 && (s.columns@[p].x >= 1000000 || s.columns@[p].x <= -1000000)
}

/// Signed fourth-power horizontal facing, scaled by 10^4: the sign of the
/// x-offset from `l` to `r` times the fourth power of its cosine.
pub open spec fn xdiff_spec(s: DanceStage, l: int, r: int) -> int {
    if l == r {
        0
    } else {
        let dx = s.columns@[r].x - s.columns@[l].x;
        let m = (dx * dx * dx * dx * 10000) / (dist_sq(s, l, r) * dist_sq(s, l, r));
        if dx > 0 {
            m
        } else if dx < 0 {
            -m
        } else {
            0
        }
    }
}

/// Signed fourth-power vertical facing, scaled by 10^4.
pub open spec fn ydiff_spec(s: DanceStage, l: int, r: int) -> int {
    if l == r {
        0
    } else {
        let dy = s.columns@[r].y - s.columns@[l].y;
        let m = (dy * dy * dy * dy * 10000) / (dist_sq(s, l, r) * dist_sq(s, l, r));
        if dy > 0 {
            m
        } else if dy < 0 {
            -m
        } else {
            0
        }
    }
}

/// Sine of the direction from `a` to `b`, scaled by 10^6, with the
/// magnitude division carried out on non-negative values.
pub open spec fn sin_micro(s: DanceStage, a: int, b: int) -> int {
    let dy = s.columns@[b].y - s.columns@[a].y;
    let mag = (if dy < 0 {
        -dy
    } else {
        dy
    }) * 1000000 / dist_micro(s, a, b);
    if dy < 0 {
        -mag
    } else {
        mag
    }
}

/// Cosine of the direction from `a` to `b`, scaled by 10^6.
pub open spec fn cos_micro(s: DanceStage, a: int, b: int) -> int {
    let dx = s.columns@[b].x - s.columns@[a].x;
    let mag = (if dx < 0 {
        -dx
    } else {
        dx
    }) * 1000000 / dist_micro(s, a, b);
    if dx < 0 {
        -mag
    } else {
        mag
    }
}

/// `a/2` with truncation toward zero, as the executable midpoint computes it.
pub open spec fn half_toward_zero(a: int) -> int {
    if a >= 0 {
        a / 2
    } else {
        -((-a) / 2)
    }
}

/// Bounds of squares and their sum for coordinates within range.
proof fn lemma_sq_sum(dx: int, dy: int)
    requires
        -200000000 <= dx <= 200000000,
        -200000000 <= dy <= 200000000,
    ensures
        0 <= dx * dx <= 40000000000000000,
        0 <= dy * dy <= 40000000000000000,
        0 <= dx * dx + dy * dy <= 80000000000000000,
{
    assert(0 <= dx * dx <= 40000000000000000 && 0 <= dy * dy <= 40000000000000000)
        by (nonlinear_arith)
        requires
            -200000000 <= dx <= 200000000,
            -200000000 <= dy <= 200000000;
}

/// A non-negative quotient is no larger than its dividend.
proof fn lemma_div_le(a: int, b: int)
    requires
        a >= 0,
        b >= 1,
    ensures
        0 <= a / b <= a,
{
    assert(0 <= a / b <= a) by (nonlinear_arith)
        requires
            a >= 0,
            b >= 1;
}

/// Everything needed about the fourth-power facing ratio of an offset
/// `(d, e)`: the partial products fit in 128 bits, the denominator is
/// positive, the products associate, and the quotient stays within 10^4.
proof fn lemma_fourth_ratio(d: int, e: int)
    requires
        -200000000 <= d <= 200000000,
        -200000000 <= e <= 200000000,
        d * d + e * e > 0,
    ensures
        0 <= d * d <= 40000000000000000,
        0 <= (d * d) * (d * d) <= 1600000000000000000000000000000000int,
        (d * d) * (d * d) * 10000 == d * d * d * d * 10000,
        0 <= d * d * d * d * 10000 <= 16000000000000000000000000000000000000int,
        0 < (d * d + e * e) * (d * d + e * e) <= 6400000000000000000000000000000000int,
        0 <= (d * d * d * d * 10000) / ((d * d + e * e) * (d * d + e * e)) <= 10000,
{
    assert(0 <= d * d <= 40000000000000000 && 0 <= (d * d) * (d * d)
        <= 1600000000000000000000000000000000int && (d * d) * (d * d) * 10000 == d * d * d * d
        * 10000 && 0 <= d * d * d * d * 10000 <= 16000000000000000000000000000000000000int && 0 <=
    d * d * d * d <= (d * d + e * e) * (d * d + e * e) && 0 < (d * d + e * e) * (d * d + e * e)
        <= 6400000000000000000000000000000000int) by (nonlinear_arith)
        requires
            -200000000 <= d <= 200000000,
            -200000000 <= e <= 200000000,
            d * d + e * e > 0;
    let q = (d * d + e * e) * (d * d + e * e);
    assert(0 <= (d * d * d * d * 10000) / q <= 10000) by (nonlinear_arith)
        requires
            0 <= d * d * d * d <= q,
            0 < q;
}

/// The squared distance from `l` to `r` equals the squared length of the
/// offset measured from `r` to `l`: squaring forgets the sign.
proof fn lemma_dist_sq_flip(s: DanceStage, l: int, r: int, dx: int, dy: int)
    requires
        0 <= l < s.columns@.len(),
        0 <= r < s.columns@.len(),
        dx == s.columns@[r].x - s.columns@[l].x,
        dy == s.columns@[r].y - s.columns@[l].y,
    ensures
        dist_sq(s, l, r) == dx * dx + dy * dy,
{
    let ex = s.columns@[l].x - s.columns@[r].x;
    let ey = s.columns@[l].y - s.columns@[r].y;
    assert(ex * ex == dx * dx && ey * ey == dy * dy) by (nonlinear_arith)
        requires
            ex == -dx,
            ey == -dy;
}

/// Distinct columns of a well-formed stage are a positive distance apart.
pub proof fn lemma_distinct_positive(s: DanceStage, a: int, b: int)
    requires
        wf_stage(s),
        0 <= a < s.columns@.len(),
        0 <= b < s.columns@.len(),
        a != b,
    ensures
        dist_sq(s, a, b) > 0,
        dist_micro(s, a, b) > 0,
{
    let dx = s.columns@[a].x - s.columns@[b].x;
    let dy = s.columns@[a].y - s.columns@[b].y;
    assert(dx != 0 || dy != 0);
    assert(dx * dx + dy * dy > 0) by (nonlinear_arith)
        requires
            dx != 0 || dy != 0;
    lemma_isqrt_exists(dist_sq(s, a, b));
    let r = dist_micro(s, a, b);
    assert(is_isqrt(dist_sq(s, a, b), r));
    if r == 0 {
        assert(is_isqrt(dist_sq(s, a, b), 0));
        assert(dist_sq(s, a, b) < (0 + 1) * (0 + 1));
    }
}

impl DanceStage {
    /// The default stage: four panels in a diamond, one unit from the centre.
    pub fn ddr_solo() -> (r: DanceStage)
        ensures
            r.columns@.len() == 4,
            r.columns@[0].x == -1000000 && r.columns@[0].y == 0,
            r.columns@[1].x == 0 && r.columns@[1].y == -1000000,
            r.columns@[2].x == 0 && r.columns@[2].y == 1000000,
            r.columns@[3].x == 1000000 && r.columns@[3].y == 0,
            wf_stage(r),
    {
        let mut columns: Vec<StagePosition> = Vec::new();
        columns.push(StagePosition { x: -1000000, y: 0 });
        columns.push(StagePosition { x: 0, y: -1000000 });
        columns.push(StagePosition { x: 0, y: 1000000 });
        columns.push(StagePosition { x: 1000000, y: 0 });
        let r = DanceStage { columns };
        proof {
            assert forall|i: int, j: int|
                0 <= i < r.columns@.len() && 0 <= j < r.columns@.len() && i != j implies !(
            r.columns@[i].x == r.columns@[j].x && r.columns@[i].y == r.columns@[j].y) by {
                if i == 0 || i == 1 || i == 2 || i == 3 {
                    if j == 0 || j == 1 || j == 2 || j == 3 {
                    }
                }
            }
        }
        r
    }

    pub fn column_count(&self) -> (r: usize)
        ensures
            r == self.columns@.len(),
    {
        self.columns.len()
    }

    pub fn position(&self, index: usize) -> (r: StagePosition)
        requires
            index < self.columns@.len(),
        ensures
            r == self.columns@[index as int],
    {
        self.columns[index]
    }

    pub fn x(&self, index: usize) -> (r: i64)
        requires
            index < self.columns@.len(),
        ensures
            r == self.columns@[index as int].x,
    {
        self.position(index).x
    }

    pub fn y(&self, index: usize) -> (r: i64)
        requires
            index < self.columns@.len(),
        ensures
            r == self.columns@[index as int].y,
    {
        self.position(index).y
    }

    /// Euclidean distance between two columns, in micro-units.
    pub fn distance_between(&self, a: usize, b: usize) -> (r: u64)
        requires
            wf_stage(*self),
            a < self.columns@.len(),
            b < self.columns@.len(),
        ensures
            r == dist_micro(*self, a as int, b as int),
            r <= 300000000,
    {
        let dx = self.x(a) - self.x(b);
        let dy = self.y(a) - self.y(b);
        proof {
            lemma_sq_sum(dx as int, dy as int);
        }
        let sq = (dx as i128 * dx as i128 + dy as i128 * dy as i128) as u128;
        let r = isqrt(sq);
        proof {
            if r > 300000000 {
                lemma_square_monotonic(300000001, r as int);
                assert(300000001 * 300000001 > 80000000000000000int);
            }
        }
        r as u64
    }

    /// The two columns are close enough for one foot to bracket them.
    pub fn is_valid_bracket(&self, a: usize, b: usize) -> (r: bool)
        requires
            wf_stage(*self),
            a < self.columns@.len(),
            b < self.columns@.len(),
        ensures
            r == bracket_ok(*self, a as int, b as int),
    {
        let dx = self.x(a) - self.x(b);
        let dy = self.y(a) - self.y(b);
        proof {
            lemma_sq_sum(dx as int, dy as int);
        }
        (dx as i128 * dx as i128 + dy as i128 * dy as i128) < 4000000000000
    }

    /// The column lies on a side panel of the stage.
    pub fn is_side_panel(&self, p: usize) -> (r: bool)
        requires
            p < self.columns@.len(),
        ensures
            r == side_panel_spec(*self, p as int),
    {
        let x = self.x(p);
        self.y(p) == 0 && (x >= 1000000 || x <= -1000000)
    }

    /// Sine of the direction from `a` to `b`, scaled by 10^6.
    pub fn sin(&self, a: usize, b: usize) -> (r: i64)
        requires
            wf_stage(*self),
            a < self.columns@.len(),
            b < self.columns@.len(),
            a != b,
        ensures
            r == sin_micro(*self, a as int, b as int),
    {
        let dy = self.y(b) - self.y(a);
        let l = self.distance_between(a, b);
        proof {
            lemma_distinct_positive(*self, a as int, b as int);
        }
        let m = if dy < 0 {
            -dy
        } else {
            dy
        };
        let mag = (m as u128 * 1000000) / (l as u128);
        proof {
            lemma_div_le((m as int) * 1000000, l as int);
        }
        if dy < 0 {
            -(mag as i64)
        } else {
            mag as i64
        }
    }

    /// Cosine of the direction from `a` to `b`, scaled by 10^6.
    pub fn cos(&self, a: usize, b: usize) -> (r: i64)
        requires
            wf_stage(*self),
            a < self.columns@.len(),
            b < self.columns@.len(),
            a != b,
        ensures
            r == cos_micro(*self, a as int, b as int),
    {
        let dx = self.x(b) - self.x(a);
        let l = self.distance_between(a, b);
        proof {
            lemma_distinct_positive(*self, a as int, b as int);
        }
        let m = if dx < 0 {
            -dx
        } else {
            dx
        };
        let mag = (m as u128 * 1000000) / (l as u128);
        proof {
            lemma_div_le((m as int) * 1000000, l as int);
        }
        if dx < 0 {
            -(mag as i64)
        } else {
            mag as i64
        }
    }

    /// Signed fourth-power horizontal facing from `left` to `right`,
    /// scaled by 10^4; zero when the columns agree.
    pub fn x_difference(&self, left: usize, right: usize) -> (r: i64)
        requires
            wf_stage(*self),
            left < self.columns@.len(),
            right < self.columns@.len(),
        ensures
            r == xdiff_spec(*self, left as int, right as int),
            -10000 <= r <= 10000,
    {
        if left == right {
            return 0;
        }
        proof {
            lemma_distinct_positive(*self, right as int, left as int);
        }
        let dx = self.x(right) - self.x(left);
        let dy = self.y(right) - self.y(left);
        proof {
            lemma_sq_sum(dx as int, dy as int);
            lemma_fourth_ratio(dx as int, dy as int);
        }
        let p2 = (dx as i128 * dx as i128) as u128;
        let d2 = (dx as i128 * dx as i128 + dy as i128 * dy as i128) as u128;
        let num = p2 * p2 * 10000;
        proof {
            lemma_dist_sq_flip(*self, left as int, right as int, dx as int, dy as int);
            assert(p2 == dx * dx);
            assert(d2 == dist_sq(*self, left as int, right as int));
            assert(num == (dx * dx) * (dx * dx) * 10000);
        }
        let mag = (num / (d2 * d2)) as u64;
        if dx > 0 {
            mag as i64
        } else if dx < 0 {
            -(mag as i64)
        } else {
            0
        }
    }

    /// Signed fourth-power vertical facing from `left` to `right`,
    /// scaled by 10^4; zero when the columns agree.
    pub fn y_difference(&self, left: usize, right: usize) -> (r: i64)
        requires
            wf_stage(*self),
            left < self.columns@.len(),
            right < self.columns@.len(),
        ensures
            r == ydiff_spec(*self, left as int, right as int),
            -10000 <= r <= 10000,
    {
        if left == right {
            return 0;
        }
        proof {
            lemma_distinct_positive(*self, right as int, left as int);
        }
        let dx = self.x(right) - self.x(left);
        let dy = self.y(right) - self.y(left);
        proof {
            lemma_sq_sum(dx as int, dy as int);
            lemma_fourth_ratio(dy as int, dx as int);
            assert(dy * dy + dx * dx == dx * dx + dy * dy);
        }
        let p2 = (dy as i128 * dy as i128) as u128;
        let d2 = (dx as i128 * dx as i128 + dy as i128 * dy as i128) as u128;
        let num = p2 * p2 * 10000;
        proof {
            lemma_dist_sq_flip(*self, left as int, right as int, dx as int, dy as int);
            assert(p2 == dy * dy);
            assert(d2 == dist_sq(*self, left as int, right as int));
            assert(num == (dy * dy) * (dy * dy) * 10000);
        }
        let mag = (num / (d2 * d2)) as u64;
        if dy > 0 {
            mag as i64
        } else if dy < 0 {
            -(mag as i64)
        } else {
            0
        }
    }

    /// Midpoint of two panels, each coordinate halved toward zero.
    pub fn average_position(&self, a: usize, b: usize) -> (r: StagePosition)
        requires
            wf_stage(*self),
            a < self.columns@.len(),
            b < self.columns@.len(),
        ensures
            r.x == half_toward_zero(self.columns@[a as int].x + self.columns@[b as int].x),
            r.y == half_toward_zero(self.columns@[a as int].y + self.columns@[b as int].y),
    {
        let sx = self.x(a) + self.x(b);
        let sy = self.y(a) + self.y(b);
        let hx = if sx < 0 {
            -((-sx) / 2)
        } else {
            sx / 2
        };
        let hy = if sy < 0 {
            -((-sy) / 2)
        } else {
            sy / 2
        };
        StagePosition { x: hx, y: hy }
    }
}

/// Horizontal facing is zero on the diagonal and antisymmetric: measuring
/// from `b` to `a` flips its sign.
pub proof fn lemma_x_difference_antisymmetric(s: DanceStage, a: int, b: int)
    requires
        wf_stage(s),
        0 <= a < s.columns@.len(),
        0 <= b < s.columns@.len(),
    ensures
        xdiff_spec(s, a, a) == 0,
        xdiff_spec(s, a, b) == -xdiff_spec(s, b, a),
{
    if a != b {
        let dx = s.columns@[b].x - s.columns@[a].x;
        let dy = s.columns@[b].y - s.columns@[a].y;
        let ex = s.columns@[a].x - s.columns@[b].x;
        let ey = s.columns@[a].y - s.columns@[b].y;
        assert(ex == -dx && ey == -dy);
        assert(ex * ex * ex * ex == dx * dx * dx * dx && ex * ex + ey * ey == dx * dx + dy * dy)
            by (nonlinear_arith)
            requires
                ex == -dx,
                ey == -dy;
        assert(dist_sq(s, a, b) == dist_sq(s, b, a));
        if dx == 0 {
            assert(xdiff_spec(s, a, b) == 0 && xdiff_spec(s, b, a) == 0);
        }
    }
}

} // verus!
