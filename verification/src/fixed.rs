//! Fixed-point 2D vectors and the integer arithmetic the simulation rests on.
//!
//! World coordinates, velocities and accelerations are held in milli-units:
//! one world unit is `UNIT` (1000) fixed-point steps. Truncating division
//! (`tdiv`), integer square roots and norm clamping are defined here together
//! with the lemmas the motion update needs.

use vstd::prelude::*;

verus! {

/// Fixed-point steps per world unit.
pub const UNIT: i64 = 1_000;

/// A 2D vector in fixed-point steps.
#[derive(Clone, Copy, PartialEq, Eq, Structural, Debug)]
pub struct Vec2Fix {
    pub x: i64,
    pub y: i64,
}

/// Squared Euclidean norm, as a mathematical integer.
pub open spec fn norm_sq(v: Vec2Fix) -> int {
    v.x * v.x + v.y * v.y
}

/// Truncating division (round toward zero), for a positive divisor.
/// This is the division that the executable code performs on signed values.
pub open spec fn tdiv(a: int, d: int) -> int {
    if a >= 0 {
        a / d
    } else {
        -((-a) / d)
    }
}

/// Products of bounded factors are bounded.
pub proof fn lemma_mul_bound(a: int, b: int, ma: int, mb: int)
    requires
        -ma <= a <= ma,
        -mb <= b <= mb,
        0 <= ma,
        0 <= mb,
    ensures
        -(ma * mb) <= a * b <= ma * mb,
{
    assert(-(ma * mb) <= a * b <= ma * mb) by (nonlinear_arith)
        requires
            -ma <= a <= ma,
            -mb <= b <= mb,
            0 <= ma,
            0 <= mb;
}

/// `d * tdiv(a, d)` lies between 0 and `a`: truncation never grows a value
/// and never flips its sign.
pub proof fn lemma_tdiv_range(a: int, d: int)
    requires
        d >= 1,
    ensures
        a >= 0 ==> 0 <= d * tdiv(a, d) <= a,
        a < 0 ==> a <= d * tdiv(a, d) <= 0,
{
    if a >= 0 {
        vstd::arithmetic::div_mod::lemma_fundamental_div_mod(a, d);
        vstd::arithmetic::div_mod::lemma_div_pos_is_pos(a, d);
        assert(d * (a / d) >= 0) by (nonlinear_arith)
            requires
                d >= 1,
                a / d >= 0;
    } else {
        vstd::arithmetic::div_mod::lemma_fundamental_div_mod(-a, d);
        vstd::arithmetic::div_mod::lemma_div_pos_is_pos(-a, d);
        let q = (-a) / d;
        assert(d * q >= 0) by (nonlinear_arith)
            requires
                d >= 1,
                q >= 0;
        assert(tdiv(a, d) == -q);
        assert(d * (-q) == -(d * q)) by (nonlinear_arith);
    }
}

/// `tdiv` itself never grows a value and never flips its sign.
pub proof fn lemma_tdiv_abs(a: int, d: int)
    requires
        d >= 1,
    ensures
        a >= 0 ==> 0 <= tdiv(a, d) <= a,
        a < 0 ==> a <= tdiv(a, d) <= 0,
{
    lemma_tdiv_range(a, d);
    let q = tdiv(a, d);
    if a >= 0 {
        assert(0 <= q <= a) by (nonlinear_arith)
            requires
                d >= 1,
                0 <= d * q <= a;
    } else {
        assert(a <= q <= 0) by (nonlinear_arith)
            requires
                d >= 1,
                a <= d * q <= 0;
    }
}

/// Squaring the truncated quotient stays under the square of the exact one:
/// `(d * tdiv(a, d))^2 <= a^2`.
pub proof fn lemma_tdiv_sq(a: int, d: int)
    requires
        d >= 1,
    ensures
        (d * tdiv(a, d)) * (d * tdiv(a, d)) <= a * a,
{
    lemma_tdiv_range(a, d);
    let q = d * tdiv(a, d);
    if a >= 0 {
        assert(q * q <= a * a) by (nonlinear_arith)
            requires
                0 <= q <= a;
    } else {
        assert(q * q <= a * a) by (nonlinear_arith)
            requires
                a <= q <= 0;
    }
}

/// Dividing an exact multiple gives the factor back.
pub proof fn lemma_tdiv_exact(a: int, d: int)
    requires
        d >= 1,
    ensures
        tdiv(a * d, d) == a,
{
    vstd::arithmetic::div_mod::lemma_div_multiples_vanish(a, d);
    assert(a * d == d * a) by (nonlinear_arith);
    if a >= 0 {
        assert(a * d >= 0) by (nonlinear_arith)
            requires
                a >= 0,
                d >= 1;
    } else {
        assert(a * d < 0) by (nonlinear_arith)
            requires
                a < 0,
                d >= 1;
        vstd::arithmetic::div_mod::lemma_div_multiples_vanish(-a, d);
        assert(-(a * d) == d * (-a)) by (nonlinear_arith);
    }
}

/// The largest integer whose square does not exceed `n`.
pub open spec fn floor_sqrt(n: nat) -> nat
    decreases n,
{
    if n == 0 {
        0
    } else {
        let r = floor_sqrt((n - 1) as nat);
        if (r + 1) * (r + 1) <= n {
            r + 1
        } else {
            r
        }
    }
}

/// `floor_sqrt` is characterized by `r^2 <= n < (r+1)^2`.
pub proof fn lemma_floor_sqrt_bounds(n: nat)
    ensures
        floor_sqrt(n) * floor_sqrt(n) <= n,
        n < (floor_sqrt(n) + 1) * (floor_sqrt(n) + 1),
    decreases n,
{
    if n == 0 {
        assert(floor_sqrt(n) == 0);
        assert(floor_sqrt(n) * floor_sqrt(n) <= n);
        assert(n < (floor_sqrt(n) + 1) * (floor_sqrt(n) + 1)) by (nonlinear_arith)
            requires
                n == 0,
                floor_sqrt(n) == 0;
    } else {
        lemma_floor_sqrt_bounds((n - 1) as nat);
        let r = floor_sqrt((n - 1) as nat);
        assert(r * r <= n - 1);
        assert(n - 1 < (r + 1) * (r + 1));
        if (r + 1) * (r + 1) <= n {
            assert(floor_sqrt(n) == r + 1);
            assert(n <= (r + 1) * (r + 1));
            assert((r + 1) * (r + 1) < (r + 2) * (r + 2)) by (nonlinear_arith);
            assert(floor_sqrt(n) * floor_sqrt(n) <= n);
            assert(n < (floor_sqrt(n) + 1) * (floor_sqrt(n) + 1));
        } else {
            assert(floor_sqrt(n) == r);
            assert(floor_sqrt(n) * floor_sqrt(n) <= n);
            assert(n < (floor_sqrt(n) + 1) * (floor_sqrt(n) + 1));
        }
    }
}

/// Any `r` with `r^2 <= n < (r+1)^2` is the floor square root.
pub proof fn lemma_floor_sqrt_unique(n: nat, r: nat)
    requires
        r * r <= n,
        n < (r + 1) * (r + 1),
    ensures
        r == floor_sqrt(n),
{
    lemma_floor_sqrt_bounds(n);
    let f = floor_sqrt(n);
    if r < f {
        assert((r + 1) * (r + 1) <= f * f) by (nonlinear_arith)
            requires
                r + 1 <= f;
    } else if f < r {
        assert((f + 1) * (f + 1) <= r * r) by (nonlinear_arith)
            requires
                f + 1 <= r;
    }
}

/// The least integer whose square is at least `n`.
pub open spec fn ceil_sqrt(n: nat) -> nat {
    if floor_sqrt(n) * floor_sqrt(n) == n {
        floor_sqrt(n)
    } else {
        floor_sqrt(n) + 1
    }
}

/// `ceil_sqrt(n)^2 >= n`, and it is positive whenever `n` is.
pub proof fn lemma_ceil_sqrt_bounds(n: nat)
    ensures
        n <= ceil_sqrt(n) * ceil_sqrt(n),
        n > 0 ==> ceil_sqrt(n) >= 1,
{
    lemma_floor_sqrt_bounds(n);
}

/// Squared norm of a vector, computed exactly in 128-bit arithmetic.
pub fn norm_sq_ex(v: &Vec2Fix) -> (r: i128)
    requires
        v.x > i64::MIN,
        v.y > i64::MIN,
    ensures
        r as int == norm_sq(*v),
        r >= 0,
{
    proof {
        lemma_mul_bound(v.x as int, v.x as int, 0x7fff_ffff_ffff_ffff, 0x7fff_ffff_ffff_ffff);
        lemma_mul_bound(v.y as int, v.y as int, 0x7fff_ffff_ffff_ffff, 0x7fff_ffff_ffff_ffff);
        assert(v.x * v.x >= 0 && v.y * v.y >= 0) by (nonlinear_arith);
    }
    (v.x as i128) * (v.x as i128) + (v.y as i128) * (v.y as i128)
}

/// Floor integer square root, by binary search on the answer.
pub fn isqrt(n: u128) -> (r: u64)
    ensures
        r as nat == floor_sqrt(n as nat),
        (r as int) * (r as int) <= n as int,
        ((r as int) + 1) * ((r as int) + 1) > n as int,
{
    let mut lo: u64 = 0;
    let mut hi: u64 = u64::MAX;
    assert((hi as int + 1) * (hi as int + 1) > n as int);
    while lo < hi
        invariant
            (lo as int) * (lo as int) <= n as int,
            (hi as int + 1) * (hi as int + 1) > n as int,
            lo <= hi,
        decreases hi - lo,
    {
        let mid: u64 = lo + (hi - lo) / 2 + 1;
        proof {
            lemma_mul_bound(
                mid as int,
                mid as int,
                0xffff_ffff_ffff_ffff,
                0xffff_ffff_ffff_ffff,
            );
            assert(mid * mid >= 0) by (nonlinear_arith);
        }
        if (mid as u128) * (mid as u128) <= n {
            lo = mid;
        } else {
            hi = mid - 1;
        }
    }
    proof {
        lemma_floor_sqrt_unique(n as nat, lo as nat);
    }
    lo
}

/// Truncating division of a 128-bit value by a positive 64-bit divisor,
/// for quotients known to fit in `i64`.
fn div_i128(p: i128, d: u64) -> (r: i64)
    requires
        d >= 1,
        -0x7fff_ffff_ffff_ffff <= p <= 0x7fff_ffff_ffff_ffff,
    ensures
        r as int == tdiv(p as int, d as int),
{
    proof {
        lemma_tdiv_abs(p as int, d as int);
    }
    if p >= 0 {
        (((p as u128) / (d as u128)) as i128) as i64
    } else {
        (-((((-p) as u128) / (d as u128)) as i128)) as i64
    }
}

/// `tdiv(a * m, d)`, with the product taken exactly in 128 bits.
pub fn scale_div(a: i64, m: i64, d: u64) -> (r: i64)
    requires
        d >= 1,
        -0x7fff_ffff_ffff_ffff <= (a as int) * (m as int) <= 0x7fff_ffff_ffff_ffff,
    ensures
        r as int == tdiv((a as int) * (m as int), d as int),
{
    let p: i128 = (a as i128) * (m as i128);
    div_i128(p, d)
}

/// `tdiv(a * c1 + b * c2, d)`, with all products taken exactly in 128 bits.
pub fn lin_comb_div(a: i64, c1: i64, b: i64, c2: i64, d: u64) -> (r: i64)
    requires
        d >= 1,
        -0x7fff_ffff_ffff_ffff <= (a as int) * (c1 as int) + (b as int) * (c2 as int)
            <= 0x7fff_ffff_ffff_ffff,
    ensures
        r as int == tdiv((a as int) * (c1 as int) + (b as int) * (c2 as int), d as int),
{
    proof {
        lemma_mul_bound(a as int, c1 as int, 0x8000_0000_0000_0000, 0x8000_0000_0000_0000);
        lemma_mul_bound(b as int, c2 as int, 0x8000_0000_0000_0000, 0x8000_0000_0000_0000);
    }
    let p: i128 = (a as i128) * (c1 as i128) + (b as i128) * (c2 as i128);
    div_i128(p, d)
}

/// Ceiling integer square root.
pub fn ceil_isqrt(n: u128) -> (r: u64)
    requires
        n < 0x4000_0000_0000_0000_0000_0000_0000_0000,
    ensures
        r as nat == ceil_sqrt(n as nat),
        n as int <= (r as int) * (r as int),
        n > 0 ==> r >= 1,
{
    let f = isqrt(n);
    assert(f < 0x8000_0000_0000_0000u64) by {
        if f >= 0x8000_0000_0000_0000u64 {
            assert((f as int) * (f as int) >= 0x4000_0000_0000_0000_0000_0000_0000_0000)
                by (nonlinear_arith)
                requires
                    f >= 0x8000_0000_0000_0000u64;
        }
    }
    proof {
        lemma_ceil_sqrt_bounds(n as nat);
        lemma_mul_bound(f as int, f as int, 0x8000_0000_0000_0000, 0x8000_0000_0000_0000);
        assert(f * f >= 0) by (nonlinear_arith);
    }
    if (f as u128) * (f as u128) == n {
        f
    } else {
        f + 1
    }
}

/// Rescale `v` to a norm of at most `max` while keeping its direction;
/// a vector already within the bound is returned unchanged.
pub open spec fn clamp_spec(v: Vec2Fix, max: int) -> Vec2Fix {
    if norm_sq(v) <= max * max {
        v
    } else {
        let s = ceil_sqrt(norm_sq(v) as nat) as int;
        Vec2Fix { x: tdiv(v.x * max, s) as i64, y: tdiv(v.y * max, s) as i64 }
    }
}

/// The clamped vector's squared norm never exceeds `max^2`, and each of its
/// components stays within `[-max, max]` in the rescaling case.
pub proof fn lemma_clamp_norm(v: Vec2Fix, max: int)
    requires
        0 <= max <= 1_000_000_000,
    ensures
        norm_sq(clamp_spec(v, max)) <= max * max,
        norm_sq(v) > max * max ==> {
            let s = ceil_sqrt(norm_sq(v) as nat) as int;
            &&& -max <= tdiv(v.x * max, s) <= max
            &&& -max <= tdiv(v.y * max, s) <= max
        },
{
    assert(v.x * v.x >= 0 && v.y * v.y >= 0 && max * max >= 0) by (nonlinear_arith);
    if norm_sq(v) <= max * max {
    } else {
        let n = norm_sq(v) as nat;
        lemma_ceil_sqrt_bounds(n);
        let s = ceil_sqrt(n) as int;
        assert(s >= 1);
        assert(norm_sq(v) <= s * s);
        let qx = tdiv(v.x * max, s);
        let qy = tdiv(v.y * max, s);
        lemma_tdiv_sq(v.x * max, s);
        lemma_tdiv_sq(v.y * max, s);
        assert((v.x * max) * (v.x * max) == (v.x * v.x) * (max * max)) by (nonlinear_arith);
        assert((v.y * max) * (v.y * max) == (v.y * v.y) * (max * max)) by (nonlinear_arith);
        assert((s * qx) * (s * qx) == (s * s) * (qx * qx)) by (nonlinear_arith);
        assert((s * qy) * (s * qy) == (s * s) * (qy * qy)) by (nonlinear_arith);
        assert((s * s) * (qx * qx) + (s * s) * (qy * qy) == (s * s) * (qx * qx + qy * qy))
            by (nonlinear_arith);
        assert((v.x * v.x) * (max * max) + (v.y * v.y) * (max * max)
            == (v.x * v.x + v.y * v.y) * (max * max)) by (nonlinear_arith);
        assert((v.x * v.x + v.y * v.y) * (max * max) <= (s * s) * (max * max))
            by (nonlinear_arith)
            requires
                v.x * v.x + v.y * v.y <= s * s,
                max * max >= 0;
        assert(qx * qx + qy * qy <= max * max) by (nonlinear_arith)
            requires
                (s * s) * (qx * qx + qy * qy) <= (s * s) * (max * max),
                s >= 1;
        assert(qx * qx >= 0 && qy * qy >= 0) by (nonlinear_arith);
        assert(qx * qx <= max * max && qy * qy <= max * max);
        assert(-max <= qx <= max && -max <= qy <= max) by (nonlinear_arith)
            requires
                qx * qx <= max * max,
                qy * qy <= max * max,
                max >= 0;
        assert(clamp_spec(v, max).x == qx && clamp_spec(v, max).y == qy);
    }
}

/// Executable norm clamp: the core of the speed cap and of keeping the
/// facing vector at unit length.
pub fn clamp_norm(v: Vec2Fix, max: i64) -> (r: Vec2Fix)
    requires
        0 <= max <= 1_000_000_000,
        -1_000_000_000 <= v.x <= 1_000_000_000,
        -1_000_000_000 <= v.y <= 1_000_000_000,
    ensures
        r == clamp_spec(v, max as int),
        norm_sq(r) <= (max as int) * (max as int),
        norm_sq(v) <= (max as int) * (max as int) ==> r == v,
{
    proof {
        lemma_clamp_norm(v, max as int);
        lemma_mul_bound(max as int, max as int, 1_000_000_000, 1_000_000_000);
        lemma_mul_bound(v.x as int, v.x as int, 1_000_000_000, 1_000_000_000);
        lemma_mul_bound(v.y as int, v.y as int, 1_000_000_000, 1_000_000_000);
        lemma_mul_bound(v.x as int, max as int, 1_000_000_000, 1_000_000_000);
        lemma_mul_bound(v.y as int, max as int, 1_000_000_000, 1_000_000_000);
    }
    let n = norm_sq_ex(&v);
    if n <= (max as i128) * (max as i128) {
        v
    } else {
        let s = ceil_isqrt(n as u128);
        let rx = scale_div(v.x, max, s);
        let ry = scale_div(v.y, max, s);
        Vec2Fix { x: rx, y: ry }
    }
}

} // verus!
