//! Exact integer roots used by the fixed-point geometry and cost model.

use vstd::prelude::*;

verus! {

/// `r` is the floor of the square root of `n`.
pub open spec fn is_isqrt(n: int, r: int) -> bool {
    0 <= r && r * r <= n < (r + 1) * (r + 1)
}

/// The floor of the square root of `n` (meaningful for `n >= 0`).
pub open spec fn isqrt_spec(n: int) -> int {
    choose|r: int| #[trigger] is_isqrt(n, r)
}

pub proof fn lemma_isqrt_exists(n: int)
    requires
        n >= 0,
    ensures
        is_isqrt(n, isqrt_spec(n)),
    decreases n,
{
    if n == 0 {
        assert(is_isqrt(0, 0));
    } else {
        lemma_isqrt_exists(n - 1);
        let r = choose|r: int| #[trigger] is_isqrt(n - 1, r);
        if n < (r + 1) * (r + 1) {
            assert(is_isqrt(n, r));
        } else {
            assert(n == (r + 1) * (r + 1));
            assert((r + 1) * (r + 1) < (r + 2) * (r + 2)) by (nonlinear_arith)
                requires
                    r >= 0;
            assert(is_isqrt(n, r + 1));
        }
    }
}

/// Squaring is monotonic on the non-negative integers.
pub proof fn lemma_square_monotonic(a: int, b: int)
    requires
        0 <= a <= b,
    ensures
        a * a <= b * b,
{
    assert(a * a <= b * b) by (nonlinear_arith)
        requires
            0 <= a <= b;
}

pub proof fn lemma_isqrt_unique(n: int, r: int)
    requires
        is_isqrt(n, r),
    ensures
        r == isqrt_spec(n),
{
    lemma_isqrt_exists(n);
    let s = isqrt_spec(n);
    if r < s {
        lemma_square_monotonic(r + 1, s);
    } else if s < r {
        lemma_square_monotonic(s + 1, r);
    }
}

/// The floor of the square root, by binary search.
pub fn isqrt(n: u128) -> (r: u128)
    ensures
        is_isqrt(n as int, r as int),
        r as int == isqrt_spec(n as int),
{
    let mut lo: u128 = 0;
    let mut hi: u128 = 0x10000000000000000;
    proof {
        assert((hi as int) * (hi as int) == 0x100000000000000000000000000000000int);
    }
    while lo + 1 < hi
        invariant
            lo < hi,
            hi <= 0x10000000000000000,
            (lo as int) * (lo as int) <= n as int,
            (n as int) < (hi as int) * (hi as int),
        decreases hi - lo,
    {
        let mid = lo + (hi - lo) / 2;
        proof {
            lemma_square_monotonic(mid as int, 0xffffffffffffffffint);
        }
        if mid * mid <= n {
            lo = mid;
        } else {
            hi = mid;
        }
    }
    proof {
        lemma_isqrt_unique(n as int, lo as int);
    }
    lo
}

/// The fifth power.
pub open spec fn pow5(r: int) -> int {
    r * r * r * r * r
}

/// `r` is the floor of the fifth root of `n`.
pub open spec fn is_fifth_root(n: int, r: int) -> bool {
    0 <= r && pow5(r) <= n < pow5(r + 1)
}

/// The floor of the fifth root of `n` (meaningful for `n >= 0`).
pub open spec fn fifth_root_spec(n: int) -> int {
    choose|r: int| #[trigger] is_fifth_root(n, r)
}

pub proof fn lemma_fifth_root_exists(n: int)
    requires
        n >= 0,
    ensures
        is_fifth_root(n, fifth_root_spec(n)),
    decreases n,
{
    if n == 0 {
        assert(is_fifth_root(0, 0)) by {
            assert(pow5(0) == 0);
            assert(pow5(1) == 1);
        }
    } else {
        lemma_fifth_root_exists(n - 1);
        let r = choose|r: int| #[trigger] is_fifth_root(n - 1, r);
        if n < pow5(r + 1) {
            assert(is_fifth_root(n, r));
        } else {
            assert(n == pow5(r + 1));
            assert(pow5(r + 1) < pow5(r + 2)) by (nonlinear_arith)
                requires
                    r >= 0;
            assert(is_fifth_root(n, r + 1));
        }
    }
}

/// The fifth power is monotonic on the non-negative integers.
pub proof fn lemma_pow5_monotonic(a: int, b: int)
    requires
        0 <= a <= b,
    ensures
        pow5(a) <= pow5(b),
{
    assert(pow5(a) <= pow5(b)) by (nonlinear_arith)
        requires
            0 <= a <= b;
}

pub proof fn lemma_fifth_root_unique(n: int, r: int)
    requires
        is_fifth_root(n, r),
    ensures
        r == fifth_root_spec(n),
{
    lemma_fifth_root_exists(n);
    let s = fifth_root_spec(n);
    if r < s {
        lemma_pow5_monotonic(r + 1, s);
    } else if s < r {
        lemma_pow5_monotonic(s + 1, r);
    }
}

/// Bounds for every partial product of a fifth power of a value below 2^20.
proof fn lemma_pow5_partials(m: int)
    requires
        0 <= m < 0x100000,
    ensures
        0 <= m * m < 0x10000000000,
        0 <= m * m * m < 0x1000000000000000,
        0 <= m * m * m * m < 0x100000000000000000000,
        0 <= pow5(m) < 0x10000000000000000000000000,
{
    assert(0 <= m * m < 0x10000000000 && 0 <= m * m * m < 0x1000000000000000int && 0 <= m * m * m
        * m < 0x100000000000000000000int && 0 <= m * m * m * m * m
        < 0x10000000000000000000000000int) by (nonlinear_arith)
        requires
            0 <= m < 0x100000;
}

/// The floor of the fifth root, by binary search, for inputs below 2^100.
pub fn fifth_root(n: u128) -> (r: u128)
    requires
        n < 0x10000000000000000000000000,
    ensures
        is_fifth_root(n as int, r as int),
        r as int == fifth_root_spec(n as int),
{
    let mut lo: u128 = 0;
    let mut hi: u128 = 0x100000;
    proof {
        assert(pow5(hi as int) == 0x10000000000000000000000000int);
        assert(pow5(0) == 0);
    }
    while lo + 1 < hi
        invariant
            lo < hi,
            hi <= 0x100000,
            pow5(lo as int) <= n as int,
            (n as int) < pow5(hi as int),
        decreases hi - lo,
    {
        let mid = lo + (hi - lo) / 2;
        proof {
            lemma_pow5_partials(mid as int);
        }
        let p2 = mid * mid;
        let p3 = p2 * mid;
        let p4 = p3 * mid;
        let p5 = p4 * mid;
        if p5 <= n {
            lo = mid;
        } else {
            hi = mid;
        }
    }
    proof {
        lemma_fifth_root_unique(n as int, lo as int);
    }
    lo
}

/// A non-negative quotient is no larger than its dividend.
pub proof fn lemma_div_le(a: int, b: int)
    requires
        a >= 0,
        b >= 1,
    ensures
        0 <= a / b <= a,
{
    assert(0 <= a / b <= a) by (nonlinear_arith)
        requires
            a >= 0,
            b >= 1;
}

/// Scaling a proper fraction by `k` and flooring stays within `k`.
pub proof fn lemma_div_scaled_le(a: int, b: int, k: int)
    requires
        0 <= a <= b,
        1 <= b,
        0 <= k,
    ensures
        0 <= (a * k) / b <= k,
{
    assert(0 <= (a * k) / b <= k) by (nonlinear_arith)
        requires
            0 <= a <= b,
            1 <= b,
            0 <= k;
}

/// The reciprocal term of the jack penalty is at least the value it is
/// offset by, so the penalty never goes negative.
pub proof fn lemma_jack_reciprocal(b: int)
    requires
        1 <= b <= 100000,
    ensures
        10000000 <= 1000000000000int / b <= 1000000000000,
{
    assert(10000000 <= 1000000000000int / b <= 1000000000000) by (nonlinear_arith)
        requires
            1 <= b <= 100000;
}

/// Bounds for the cube of a distance and its weighted, rescaled value.
pub proof fn lemma_cube_partials(d: int)
    requires
        0 <= d <= 300000000,
    ensures
        0 <= d * d <= 90000000000000000,
        0 <= d * d * d <= 27000000000000000000000000int,
        0 <= 850 * (d * d * d) <= 22950000000000000000000000000int,
        0 <= (850 * (d * d * d)) / 1000000000000 <= 23000000000000000,
{
    assert(0 <= d * d <= 90000000000000000 && 0 <= d * d * d <= 27000000000000000000000000int && 0
        <= 850 * (d * d * d) <= 22950000000000000000000000000int && 0 <= (850 * (d * d * d))
        / 1000000000000 <= 23000000000000000) by (nonlinear_arith)
        requires
            0 <= d <= 300000000;
}

/// The ninth power.
pub open spec fn pow9(m: int) -> int {
    m * m * m * m * m * m * m * m * m
}

/// Bounds and regrouping facts for the ninth power of a facing magnitude.
pub proof fn lemma_pow9_partials(m: int)
    requires
        0 <= m <= 10000,
    ensures
        0 <= m * m <= 100000000,
        0 <= (m * m) * (m * m) <= 10000000000000000,
        0 <= ((m * m) * (m * m)) * ((m * m) * (m * m))
            <= 100000000000000000000000000000000int,
        (((m * m) * (m * m)) * ((m * m) * (m * m))) * m == pow9(m),
        0 <= pow9(m) <= 1000000000000000000000000000000000000int,
        0 <= pow9(m) / 1000000 <= 1000000000000000000000000000000int,
{
    assert(0 <= m * m <= 100000000 && 0 <= (m * m) * (m * m) <= 10000000000000000 && 0 <= ((m * m)
        * (m * m)) * ((m * m) * (m * m)) <= 100000000000000000000000000000000int && (((m * m) * (m
        * m)) * ((m * m) * (m * m))) * m == pow9(m) && 0 <= pow9(m)
        <= 1000000000000000000000000000000000000int && 0 <= pow9(m) / 1000000
        <= 1000000000000000000000000000000int) by (nonlinear_arith)
        requires
            0 <= m <= 10000;
}

} // verus!
