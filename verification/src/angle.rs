use vstd::prelude::*;
use crate::geom::{isqrt_spec, isqrt, scale_away, scale_away_i64, lemma_isqrt_spec, lemma_square_bound, lemma_square_monotone};

verus! {

// A direction on the plane is an integer number of turn units in
// `[0, DIR_TURN)`, walked counterclockwise along the perimeter of a
// square of half-side `DIR_EIGHTH` starting at the point on the
// positive x axis. A full turn is `DIR_TURN` units, so a half turn
// (the analogue of pi) is `DIR_HALF` units.

/// Half-side of the direction square; one eighth of a turn.
pub const DIR_EIGHTH: u64 = 8192;

/// Number of direction units in a full turn.
pub const DIR_TURN: u64 = 65536;

/// Number of direction units in a half turn.
pub const DIR_HALF: u64 = 32768;

/// The point of the direction square that a direction `d` names.
pub open spec fn square_point(d: int) -> (int, int)
    recommends 0 <= d < 65536,
{
    if d < 8192 {
        (8192, d)
    } else if d < 24576 {
        (16384 - d, 8192)
    } else if d < 40960 {
        (-8192, 32768 - d)
    } else if d < 57344 {
        (d - 49152, -8192)
    } else {
        (8192, d - 65536)
    }
}

/// Computes the direction square point of `d`.
pub fn square_point_i64(d: u64) -> (p: (i64, i64))
    requires
        d < 65536,
    ensures
        (p.0 as int, p.1 as int) == square_point(d as int),
        -8192 <= p.0 <= 8192,
        -8192 <= p.1 <= 8192,
        p.0 == 8192 || p.0 == -8192 || p.1 == 8192 || p.1 == -8192,
{
    let di: i64 = d as i64;
    if d < 8192 {
        (8192, di)
    } else if d < 24576 {
        (16384 - di, 8192)
    } else if d < 40960 {
        (-8192, 32768 - di)
    } else if d < 57344 {
        (di - 49152, -8192)
    } else {
        (8192, di - 65536)
    }
}

/// Truncating signed division, for a positive divisor.
pub open spec fn sdiv(a: int, b: int) -> int
    recommends b > 0,
{
    if a >= 0 {
        a / b
    } else {
        -((-a) / b)
    }
}

/// Computes truncating signed division on machine integers.
pub fn sdiv_i64(a: i64, b: i64) -> (q: i64)
    requires
        0 < b,
        -0x4000_0000_0000 <= a <= 0x4000_0000_0000,
        b <= 0x4000_0000_0000,
    ensures
        q == sdiv(a as int, b as int),
{
    if a >= 0 {
        ((a as u64) / (b as u64)) as i64
    } else {
        let m: u64 = (-a) as u64;
        -((m / (b as u64)) as i64)
    }
}

/// The direction that points from the origin towards `(dx, dy)`:
/// the inverse of `square_point`, up to rounding. The zero vector,
/// which names no direction, maps to direction `0`.
pub open spec fn base_dir(dx: int, dy: int) -> int {
    if dx == 0 && dy == 0 {
        0
    } else if dx > 0 && -dx <= dy <= dx {
        let t = sdiv(dy * 8192, dx);
        if t >= 0 {
            t
        } else {
            t + 65536
        }
    } else if dy > 0 && -dy <= dx <= dy {
        16384 - sdiv(dx * 8192, dy)
    } else if dx < 0 && dx <= dy <= -dx {
        32768 - sdiv(dy * 8192, -dx)
    } else {
        49152 + sdiv(dx * 8192, -dy)
    }
}

/// Computes the direction from the origin towards `(dx, dy)`.
pub fn base_dir_i64(dx: i64, dy: i64) -> (d: u64)
    requires
        -0x4000_0000 <= dx <= 0x4000_0000,
        -0x4000_0000 <= dy <= 0x4000_0000,
    ensures
        d == base_dir(dx as int, dy as int),
        d < 65536,
{
    if dx == 0 && dy == 0 {
        0
    } else if dx > 0 && -dx <= dy && dy <= dx {
        let t: i64 = sdiv_i64(dy * 8192, dx);
        assert(-8192 <= t <= 8192) by {
            assert(sdiv(dy as int * 8192, dx as int) <= 8192) by (nonlinear_arith)
                requires 0 < dx, dy <= dx;
            assert(-8192 <= sdiv(dy as int * 8192, dx as int)) by (nonlinear_arith)
                requires 0 < dx, -dx <= dy;
        }
        if t >= 0 {
            t as u64
        } else {
            (t + 65536) as u64
        }
    } else if dy > 0 && -dy <= dx && dx <= dy {
        let t: i64 = sdiv_i64(dx * 8192, dy);
        assert(-8192 <= t <= 8192) by {
            assert(sdiv(dx as int * 8192, dy as int) <= 8192) by (nonlinear_arith)
                requires 0 < dy, dx <= dy;
            assert(-8192 <= sdiv(dx as int * 8192, dy as int)) by (nonlinear_arith)
                requires 0 < dy, -dy <= dx;
        }
        (16384 - t) as u64
    } else if dx < 0 && dx <= dy && dy <= -dx {
        let t: i64 = sdiv_i64(dy * 8192, -dx);
        assert(-8192 <= t <= 8192) by {
            assert(sdiv(dy as int * 8192, -dx as int) <= 8192) by (nonlinear_arith)
                requires 0 < -dx, dy <= -dx;
            assert(-8192 <= sdiv(dy as int * 8192, -dx as int)) by (nonlinear_arith)
                requires 0 < -dx, dx <= dy;
        }
        (32768 - t) as u64
    } else {
        assert(dy < 0 && dy <= dx <= -dy);
        let t: i64 = sdiv_i64(dx * 8192, -dy);
        assert(-8192 <= t <= 8192) by {
            assert(sdiv(dx as int * 8192, -dy as int) <= 8192) by (nonlinear_arith)
                requires 0 < -dy, dx <= -dy;
            assert(-8192 <= sdiv(dx as int * 8192, -dy as int)) by (nonlinear_arith)
                requires 0 < -dy, dy <= dx;
        }
        (49152 + t) as u64
    }
}

/// The direction of any vector is a valid number of turn units.
pub proof fn lemma_base_dir_range(dx: int, dy: int)
    ensures
        0 <= base_dir(dx, dy) < 65536,
{
    if dx == 0 && dy == 0 {
    } else if dx > 0 && -dx <= dy <= dx {
        assert(sdiv(dy * 8192, dx) <= 8192) by (nonlinear_arith)
            requires 0 < dx, dy <= dx;
        assert(-8192 <= sdiv(dy * 8192, dx)) by (nonlinear_arith)
            requires 0 < dx, -dx <= dy;
    } else if dy > 0 && -dy <= dx <= dy {
        assert(sdiv(dx * 8192, dy) <= 8192) by (nonlinear_arith)
            requires 0 < dy, dx <= dy;
        assert(-8192 <= sdiv(dx * 8192, dy)) by (nonlinear_arith)
            requires 0 < dy, -dy <= dx;
    } else if dx < 0 && dx <= dy <= -dx {
        assert(sdiv(dy * 8192, -dx) <= 8192) by (nonlinear_arith)
            requires 0 < -dx, dy <= -dx;
        assert(-8192 <= sdiv(dy * 8192, -dx)) by (nonlinear_arith)
            requires 0 < -dx, dx <= dy;
    } else {
        assert(dy < 0 && dy <= dx <= -dy);
        assert(sdiv(dx * 8192, -dy) <= 8192) by (nonlinear_arith)
            requires 0 < -dy, dx <= -dy;
        assert(-8192 <= sdiv(dx * 8192, -dy)) by (nonlinear_arith)
            requires 0 < -dy, dy <= dx;
    }
}

/// One rescaling step of the odd power-law shaping: after `k` steps the
/// value stands for `u^(k+1)` at scale `DIR_HALF`.
pub open spec fn pow_scaled(v: int, k: nat) -> int
    decreases k,
{
    if k == 0 {
        v
    } else {
        sdiv(pow_scaled(v, (k - 1) as nat) * v, 32768)
    }
}

/// The shaping stays within the scale it started from.
pub proof fn lemma_pow_scaled_bound(v: int, k: nat)
    requires
        -32768 <= v <= 32768,
    ensures
        -32768 <= pow_scaled(v, k) <= 32768,
    decreases k,
{
    if k > 0 {
        lemma_pow_scaled_bound(v, (k - 1) as nat);
        let p = pow_scaled(v, (k - 1) as nat);
        assert(-32768 <= sdiv(p * v, 32768) <= 32768) by (nonlinear_arith)
            requires -32768 <= p <= 32768, -32768 <= v <= 32768;
    }
}

/// The odd power-law angle perturbation `u^19`, at scale `DIR_HALF`:
/// `v` stands for a fraction of a half turn in `[-1, 1]`, and so does
/// the result, which concentrates near zero with rare large values.
pub open spec fn pow19_scaled(v: int) -> int {
    pow_scaled(v, 18)
}

/// Computes the power-law perturbation `u^19` at scale `DIR_HALF`.
pub fn pow19_scaled_i64(v: i64) -> (r: i64)
    requires
        -32768 <= v <= 32768,
    ensures
        r == pow19_scaled(v as int),
        -32768 <= r <= 32768,
{
    let mut acc: i64 = v;
    let mut k: u64 = 0;
    while k < 18
        invariant
            k <= 18,
            -32768 <= v <= 32768,
            acc == pow_scaled(v as int, k as nat),
            -32768 <= acc <= 32768,
        decreases 18 - k,
    {
        proof {
            lemma_pow_scaled_bound(v as int, (k + 1) as nat);
        }
        acc = sdiv_i64(acc * v, 32768);
        k = k + 1;
    }
    acc
}

/// Wraps a perturbed direction back into `[0, DIR_TURN)`.
pub open spec fn wrap_dir(x: int) -> int
    recommends -65536 <= x < 131072,
{
    if x < 0 {
        x + 65536
    } else if x >= 65536 {
        x - 65536
    } else {
        x
    }
}

/// The candidate angle reduced to a signed fraction of a half turn:
/// directions in the upper half plane map to `(0, DIR_HALF]` and those
/// in the lower half to `(-DIR_HALF, 0)`, standing for `[-1, 1]`.
pub open spec fn frac_of(d: int) -> int
    recommends 0 <= d < 65536,
{
    if d <= 32768 {
        d
    } else {
        d - 65536
    }
}

/// The displacement of length `len` in direction `d`: the direction
/// square point scaled to the target length, rounding each component
/// away from zero so the displacement never comes out shorter than
/// `len`.
pub open spec fn dir_offset(d: int, len: int) -> (int, int)
    recommends 0 <= d < 65536, len >= 1,
{
    let p = square_point(d);
    let n = isqrt_spec(p.0 * p.0 + p.1 * p.1);
    (scale_away(p.0, len, n), scale_away(p.1, len, n))
}

/// Computes the displacement of length `len` in direction `d`.
pub fn dir_offset_i64(d: u64, len: u64) -> (o: (i64, i64))
    requires
        d < 65536,
        1 <= len <= 0x10_0000,
    ensures
        (o.0 as int, o.1 as int) == dir_offset(d as int, len as int),
        -(len as int) <= o.0 <= len as int,
        -(len as int) <= o.1 <= len as int,
{
    let p: (i64, i64) = square_point_i64(d);
    proof {
        lemma_square_bound(p.0 as int, 8192);
        lemma_square_bound(p.1 as int, 8192);
    }
    let n2: u64 = ((p.0 * p.0) + (p.1 * p.1)) as u64;
    let n: u64 = isqrt(n2);
    proof {
        lemma_isqrt_spec(n2 as int);
        // one component has magnitude 8192, so the norm is at least 8192
        assert(n2 >= 8192 * 8192) by {
            let p0 = p.0 as int;
            let p1 = p.1 as int;
            assert(p0 * p0 + p1 * p1 >= 8192 * 8192) by (nonlinear_arith)
                requires
                    p0 == 8192 || p0 == -8192 || p1 == 8192 || p1 == -8192,
                    -8192 <= p0 <= 8192,
                    -8192 <= p1 <= 8192;
        }
        assert(n >= 8192) by {
            if (n as int) < 8192 {
                lemma_square_monotone(n as int + 1, 8192);
            }
        }
        // each component is bounded by the norm
        assert((p.0 as int) <= (n as int) && -(n as int) <= (p.0 as int)) by {
            if (p.0 as int) > (n as int) {
                lemma_square_monotone(n as int + 1, p.0 as int);
            }
            if (p.0 as int) < -(n as int) {
                lemma_square_monotone(n as int + 1, -(p.0 as int));
            }
        }
        assert((p.1 as int) <= (n as int) && -(n as int) <= (p.1 as int)) by {
            if (p.1 as int) > (n as int) {
                lemma_square_monotone(n as int + 1, p.1 as int);
            }
            if (p.1 as int) < -(n as int) {
                lemma_square_monotone(n as int + 1, -(p.1 as int));
            }
        }
    }
    let ox: i64 = scale_away_i64(p.0, len, n);
    let oy: i64 = scale_away_i64(p.1, len, n);
    (ox, oy)
}

} // verus!
