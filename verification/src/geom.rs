use vstd::prelude::*;

verus! {

/// Largest coordinate magnitude the geometric helpers accept.
///
/// With every coordinate bounded by this value, a squared distance is at
/// most `2 * (2^30)^2 = 2^61`, which fits comfortably in an `i64`.
pub const COORD_LIMIT: i64 = 0x2000_0000;

/// Squared Euclidean distance between the points `(x1, y1)` and `(x2, y2)`.
pub open spec fn dist2(x1: int, y1: int, x2: int, y2: int) -> int {
    (x1 - x2) * (x1 - x2) + (y1 - y2) * (y1 - y2)
}

/// Computes the squared distance between two points with bounded coordinates.
pub fn dist2_i64(x1: i64, y1: i64, x2: i64, y2: i64) -> (d: i64)
    requires
        -COORD_LIMIT <= x1 <= COORD_LIMIT,
        -COORD_LIMIT <= y1 <= COORD_LIMIT,
        -COORD_LIMIT <= x2 <= COORD_LIMIT,
        -COORD_LIMIT <= y2 <= COORD_LIMIT,
    ensures
        d == dist2(x1 as int, y1 as int, x2 as int, y2 as int),
        d >= 0,
{
    let dx: i64 = x1 - x2;
    let dy: i64 = y1 - y2;
    proof {
        lemma_square_bound(dx as int, 0x4000_0000);
        lemma_square_bound(dy as int, 0x4000_0000);
    }
    dx * dx + dy * dy
}

/// Multiplication keeps order on the non-negative integers.
pub proof fn lemma_mul_le(a: int, b: int, c: int)
    requires
        0 <= a <= b,
        0 <= c,
    ensures
        a * c <= b * c,
{
    assert(a * c <= b * c) by (nonlinear_arith)
        requires 0 <= a <= b, 0 <= c;
}

/// If `|a| <= b` then `a * a <= b * b`.
pub proof fn lemma_square_bound(a: int, b: int)
    requires
        -b <= a <= b,
    ensures
        0 <= a * a <= b * b,
{
    assert(0 <= a * a <= b * b) by (nonlinear_arith)
        requires -b <= a <= b;
}

/// Squares are monotone on the non-negative integers.
pub proof fn lemma_square_monotone(a: int, b: int)
    requires
        0 <= a <= b,
    ensures
        a * a <= b * b,
{
    assert(a * a <= b * b) by (nonlinear_arith)
        requires 0 <= a <= b;
}

/// The integer square root, defined by counting up: the largest `r`
/// with `r * r <= n`.
pub open spec fn isqrt_spec(n: int) -> int
    decreases n,
{
    if n <= 0 {
        0
    } else {
        let r = isqrt_spec(n - 1);
        if (r + 1) * (r + 1) <= n {
            r + 1
        } else {
            r
        }
    }
}

/// `isqrt_spec(n)` is the floor of the square root of `n`.
pub proof fn lemma_isqrt_spec(n: int)
    requires
        n >= 0,
    ensures
        0 <= isqrt_spec(n),
        isqrt_spec(n) * isqrt_spec(n) <= n,
        n < (isqrt_spec(n) + 1) * (isqrt_spec(n) + 1),
    decreases n,
{
    if n > 0 {
        lemma_isqrt_spec(n - 1);
        let r = isqrt_spec(n - 1);
        if (r + 1) * (r + 1) <= n {
            assert(n < (r + 2) * (r + 2)) by (nonlinear_arith)
                requires n - 1 < (r + 1) * (r + 1), r >= 0;
        }
    }
}

/// Two integers that both bracket `n` between consecutive squares are equal.
pub proof fn lemma_isqrt_unique(a: int, b: int, n: int)
    requires
        a >= 0,
        b >= 0,
        a * a <= n < (a + 1) * (a + 1),
        b * b <= n < (b + 1) * (b + 1),
    ensures
        a == b,
{
    assert(a == b) by (nonlinear_arith)
        requires
            a >= 0,
            b >= 0,
            a * a <= n < (a + 1) * (a + 1),
            b * b <= n < (b + 1) * (b + 1);
}

/// Computes the floor of the square root of `n` by binary search.
pub fn isqrt(n: u64) -> (r: u64)
    ensures
        r == isqrt_spec(n as int),
        r * r <= n,
        r < 0x1_0000_0000,
{
    let mut lo: u64 = 0;
    let mut hi: u64 = 0x1_0000_0000;
    while lo + 1 < hi
        invariant
            lo < hi <= 0x1_0000_0000,
            (lo as int) * (lo as int) <= n as int,
            (n as int) < (hi as int) * (hi as int),
        decreases hi - lo,
    {
        let mid: u64 = lo + (hi - lo) / 2;
        proof {
            lemma_square_bound(mid as int, 0xFFFF_FFFF);
        }
        if mid * mid <= n {
            lo = mid;
        } else {
            hi = mid;
        }
    }
    proof {
        lemma_isqrt_spec(n as int);
        lemma_isqrt_unique(lo as int, isqrt_spec(n as int), n as int);
    }
    lo
}

/// Division rounding up, on non-negative operands.
pub open spec fn ceil_div(a: int, b: int) -> int {
    (a + b - 1) / b
}

/// Scales the signed component `a` of a vector of norm `n` to the target
/// length `t`, rounding the magnitude up so that scaled vectors never
/// come out shorter than intended.
pub open spec fn scale_away(a: int, t: int, n: int) -> int {
    if a >= 0 {
        ceil_div(a * t, n)
    } else {
        -ceil_div(-a * t, n)
    }
}

/// Computes `scale_away` on machine integers.
///
/// The magnitude bound `|a| <= n` keeps the result within `t`, so the
/// caller can bound the scaled vector by the target length.
pub fn scale_away_i64(a: i64, t: u64, n: u64) -> (r: i64)
    requires
        1 <= n <= 0x1_0000_0000,
        -(n as int) <= a as int <= n as int,
        1 <= t <= 0x10_0000,
    ensures
        r == scale_away(a as int, t as int, n as int),
        -(t as int) <= r <= t as int,
{
    let mag: u64 = if a >= 0 { a as u64 } else { (-a) as u64 };
    proof {
        lemma_mul_le(mag as int, n as int, t as int);
        lemma_mul_le(n as int, 0x1_0000_0000, t as int);
    }
    let num: u64 = mag * t;
    let q: u64 = (num + n - 1) / n;
    proof {
        let mi = mag as int;
        let ti = t as int;
        let ni = n as int;
        assert(mi * ti <= ni * ti) by (nonlinear_arith)
            requires 0 <= mi <= ni, ti >= 1;
        assert((mi * ti + ni - 1) / ni <= ti) by (nonlinear_arith)
            requires ni >= 1, ti >= 1, mi * ti <= ni * ti;
        assert((mi * ti + ni - 1) / ni >= 0) by (nonlinear_arith)
            requires ni >= 1, mi * ti >= 0;
    }
    if a >= 0 {
        q as i64
    } else {
        -(q as i64)
    }
}

} // verus!
