//! The car: steering, acceleration, speed cap and motion, one frame at a time.
//!
//! Positions and velocities are in fixed-point steps (`fixed::UNIT` per world
//! unit). The facing direction is a vector scaled by `DIR_SCALE`, kept at a
//! squared norm of at most `DIR_SCALE^2`. Steering angles are in
//! microradians, so the per-frame steering angle (0.001 rad per world unit
//! of speed) is numerically the speed in fixed-point steps.

use vstd::prelude::*;
use crate::fixed::{
    Vec2Fix, norm_sq, tdiv, floor_sqrt, clamp_spec, clamp_norm, norm_sq_ex, isqrt, scale_div,
    lin_comb_div, lemma_tdiv_abs, lemma_tdiv_range, lemma_mul_bound, lemma_floor_sqrt_bounds,
    lemma_floor_sqrt_unique, lemma_tdiv_exact, ceil_sqrt,
};

verus! {

/// Scale of the facing-direction vector: a unit direction has this norm.
pub const DIR_SCALE: i64 = 1_000_000;

/// Acceleration added to the velocity each frame, in fixed-point steps
/// (one world unit per frame, each frame).
pub const BASE_ACC: i64 = 1_000;

/// Speed cap, in fixed-point steps per frame (40 world units per frame).
pub const TOP_SPEED: i64 = 40_000;

/// Spawn (and collision-reset) x position, in fixed-point steps.
pub const SPAWN_X: i64 = 100_000;

/// Spawn (and collision-reset) y position, in fixed-point steps.
pub const SPAWN_Y: i64 = 0;

/// Fixed vertical screen offset of the car sprite, in fixed-point steps.
pub const CAR_SCREEN_Y: i64 = -200_000;

/// Positions the motion update accepts; far beyond any reachable play field,
/// bounded only so that the position integration cannot overflow.
pub const POS_LIMIT: i64 = 1_000_000_000_000_000;

/// Keyboard steering state of one frame.
#[derive(Clone, Copy, PartialEq, Eq, Structural, Debug)]
pub enum Steer {
    Left,
    Straight,
    Right,
}

/// Which car sprite variant a frame shows.
#[derive(Clone, Copy, PartialEq, Eq, Structural, Debug)]
pub enum CarSprite {
    LeftTurn,
    Center,
    RightTurn,
}

/// The sprite variant matching a steering state.
pub open spec fn sprite_for(steer: Steer) -> CarSprite {
    match steer {
        Steer::Left => CarSprite::LeftTurn,
        Steer::Straight => CarSprite::Center,
        Steer::Right => CarSprite::RightTurn,
    }
}

/// The single car entity's state.
#[derive(Clone, Copy, PartialEq, Eq, Structural, Debug)]
pub struct Car {
    /// World position, fixed-point steps.
    pub pos: Vec2Fix,
    /// Velocity per frame, fixed-point steps; its norm never exceeds `top_speed`.
    pub vel: Vec2Fix,
    /// Facing direction, scaled by `DIR_SCALE`.
    pub dir: Vec2Fix,
    /// Per-frame acceleration, fixed-point steps.
    pub base_acc: i64,
    /// Speed cap, fixed-point steps per frame.
    pub top_speed: i64,
}

/// Cosine of a small angle (microradians), scaled by `DIR_SCALE`:
/// the second-order expansion `1 - a^2/2`, truncated.
pub open spec fn rot_cos(a: int) -> int {
    (DIR_SCALE as int) - tdiv(a * a, 2 * (DIR_SCALE as int))
}

/// Sine of a small angle (microradians), scaled by `DIR_SCALE`:
/// the third-order expansion `a - a^3/6`, truncated.
pub open spec fn rot_sin(a: int) -> int {
    a - tdiv(a * a * a, 6 * (DIR_SCALE as int) * (DIR_SCALE as int))
}

/// Rotate a direction vector by a small angle in microradians
/// (positive turns counterclockwise).
pub open spec fn rotate_dir(d: Vec2Fix, a: int) -> Vec2Fix {
    let c = rot_cos(a);
    let s = rot_sin(a);
    Vec2Fix {
        x: tdiv(d.x * c - d.y * s, DIR_SCALE as int) as i64,
        y: tdiv(d.x * s + d.y * c, DIR_SCALE as int) as i64,
    }
}

/// Acceleration along a facing direction: the direction scaled down by
/// `DIR_SCALE` and up by the per-frame acceleration.
pub open spec fn accel_delta(d: Vec2Fix, acc: int) -> Vec2Fix {
    Vec2Fix {
        x: tdiv(d.x * acc, DIR_SCALE as int) as i64,
        y: tdiv(d.y * acc, DIR_SCALE as int) as i64,
    }
}

/// A vector of squared norm at most `m^2` has both components in `[-m, m]`.
pub proof fn lemma_component_bound(v: Vec2Fix, m: int)
    requires
        0 <= m,
        norm_sq(v) <= m * m,
    ensures
        -m <= v.x <= m,
        -m <= v.y <= m,
{
    assert(v.x * v.x >= 0 && v.y * v.y >= 0) by (nonlinear_arith);
    assert(-m <= v.x <= m && -m <= v.y <= m) by (nonlinear_arith)
        requires
            v.x * v.x <= m * m,
            v.y * v.y <= m * m,
            m >= 0;
}

/// A squared norm of at most `m^2` has a floor square root of at most `m`.
pub proof fn lemma_sqrt_small(n: int, m: int)
    requires
        0 <= m,
        0 <= n <= m * m,
    ensures
        floor_sqrt(n as nat) <= m,
{
    lemma_floor_sqrt_bounds(n as nat);
    let f = floor_sqrt(n as nat) as int;
    assert(f <= m) by (nonlinear_arith)
        requires
            f * f <= n,
            n <= m * m,
            0 <= m,
            0 <= f;
}

/// Rotate a facing vector by `delta` microradians and keep it within unit
/// length: the executable form of one steering step.
fn steer_dir(d: Vec2Fix, delta: i64) -> (r: Vec2Fix)
    requires
        norm_sq(d) <= (DIR_SCALE as int) * (DIR_SCALE as int),
        -2_000_000 <= delta <= 2_000_000,
    ensures
        r == clamp_spec(rotate_dir(d, delta as int), DIR_SCALE as int),
        norm_sq(r) <= (DIR_SCALE as int) * (DIR_SCALE as int),
{
    proof {
        lemma_component_bound(d, DIR_SCALE as int);
        lemma_mul_bound(delta as int, delta as int, 2_000_000, 2_000_000);
        assert((delta as int) * (delta as int) >= 0) by (nonlinear_arith);
    }
    let dd: i64 = delta * delta;
    let c_sub = scale_div(dd, 1, 2_000_000);
    proof {
        lemma_tdiv_range((dd as int) * 1, 2_000_000);
        assert(0 <= c_sub <= 2_000_000);
    }
    let c: i64 = DIR_SCALE - c_sub;
    proof {
        lemma_mul_bound(dd as int, delta as int, 4_000_000_000_000, 2_000_000);
    }
    let s_sub = scale_div(dd, delta, 6_000_000_000_000);
    proof {
        lemma_tdiv_range((dd as int) * (delta as int), 6_000_000_000_000);
        assert(-1_333_334 <= s_sub <= 1_333_334);
    }
    let s: i64 = delta - s_sub;
    proof {
        lemma_mul_bound(d.x as int, c as int, 1_000_000, 1_000_000);
        lemma_mul_bound(d.y as int, s as int, 1_000_000, 3_333_334);
        lemma_mul_bound(d.y as int, -(s as int), 1_000_000, 3_333_334);
        lemma_mul_bound(d.x as int, s as int, 1_000_000, 3_333_334);
        lemma_mul_bound(d.y as int, c as int, 1_000_000, 1_000_000);
    }
    let rx = lin_comb_div(d.x, c, d.y, -s, 1_000_000);
    let ry = lin_comb_div(d.x, s, d.y, c, 1_000_000);
    proof {
        assert((d.y as int) * ((-s) as int) == -((d.y as int) * (s as int))) by (nonlinear_arith);
        lemma_tdiv_abs((d.x as int) * (c as int) - (d.y as int) * (s as int), DIR_SCALE as int);
        lemma_tdiv_abs((d.x as int) * (s as int) + (d.y as int) * (c as int), DIR_SCALE as int);
        assert(c as int == rot_cos(delta as int));
        assert(s as int == rot_sin(delta as int));
        assert(rx == rotate_dir(d, delta as int).x);
        assert(ry == rotate_dir(d, delta as int).y);
    }
    clamp_norm(Vec2Fix { x: rx, y: ry }, DIR_SCALE)
}

impl Car {
    /// The state every session starts from: at the spawn position, standing,
    /// facing straight up.
    pub open spec fn initial() -> Car {
        Car {
            pos: Vec2Fix { x: SPAWN_X, y: SPAWN_Y },
            vel: Vec2Fix { x: 0, y: 0 },
            dir: Vec2Fix { x: 0, y: DIR_SCALE },
            base_acc: BASE_ACC,
            top_speed: TOP_SPEED,
        }
    }

    /// Well-formedness: the speed never exceeds the cap, the facing vector
    /// never exceeds unit length, and the two constants are sane.
    pub open spec fn wf(self) -> bool {
        &&& 0 <= self.base_acc <= 1_000_000
        &&& 0 < self.top_speed <= 1_000_000
        &&& norm_sq(self.vel) <= (self.top_speed as int) * (self.top_speed as int)
        &&& norm_sq(self.dir) <= (DIR_SCALE as int) * (DIR_SCALE as int)
    }

    /// The steering angle of one frame, in microradians: numerically the
    /// magnitude of the current velocity (0.001 rad per world unit of speed).
    pub open spec fn steer_angle(self) -> int {
        floor_sqrt(norm_sq(self.vel) as nat) as int
    }

    /// The facing direction after one frame's steering input.
    pub open spec fn next_dir(self, steer: Steer) -> Vec2Fix {
        match steer {
            Steer::Straight => self.dir,
            Steer::Left => clamp_spec(rotate_dir(self.dir, self.steer_angle()), DIR_SCALE as int),
            Steer::Right => clamp_spec(
                rotate_dir(self.dir, -self.steer_angle()),
                DIR_SCALE as int,
            ),
        }
    }

    /// One frame of the motion update: steer, accelerate along the facing,
    /// cap the speed, advance the position.
    pub open spec fn step_spec(self, steer: Steer) -> Car {
        let d = self.next_dir(steer);
        let dv = accel_delta(d, self.base_acc as int);
        let v1 = Vec2Fix { x: (self.vel.x + dv.x) as i64, y: (self.vel.y + dv.y) as i64 };
        let v = clamp_spec(v1, self.top_speed as int);
        Car {
            pos: Vec2Fix { x: (self.pos.x + v.x) as i64, y: (self.pos.y + v.y) as i64 },
            vel: v,
            dir: d,
            base_acc: self.base_acc,
            top_speed: self.top_speed,
        }
    }

    /// Build the initial car.
    pub fn new() -> (c: Car)
        ensures
            c == Car::initial(),
            c.wf(),
    {
        Car {
            pos: Vec2Fix { x: SPAWN_X, y: SPAWN_Y },
            vel: Vec2Fix { x: 0, y: 0 },
            dir: Vec2Fix { x: 0, y: DIR_SCALE },
            base_acc: BASE_ACC,
            top_speed: TOP_SPEED,
        }
    }

    /// Screen transform of the car sprite: a fixed vertical offset, the
    /// horizontal tracking the world x.
    pub fn screen_position(&self) -> (r: Vec2Fix)
        ensures
            r.x == self.pos.x,
            r.y == CAR_SCREEN_Y,
    {
        Vec2Fix { x: self.pos.x, y: CAR_SCREEN_Y }
    }

    /// One frame of the steering and motion update, returning the sprite
    /// variant this frame shows. Holding no key leaves the facing untouched,
    /// and the post-update speed never exceeds the cap.
    pub fn update(&mut self, steer: Steer) -> (sprite: CarSprite)
        requires
            old(self).wf(),
            -POS_LIMIT <= old(self).pos.x <= POS_LIMIT,
            -POS_LIMIT <= old(self).pos.y <= POS_LIMIT,
        ensures
            *final(self) == old(self).step_spec(steer),
            final(self).wf(),
            steer == Steer::Straight ==> final(self).dir == old(self).dir,
            norm_sq(final(self).vel)
                <= (final(self).top_speed as int) * (final(self).top_speed as int),
            final(self).pos.x == old(self).pos.x + final(self).vel.x,
            final(self).pos.y == old(self).pos.y + final(self).vel.y,
            final(self).top_speed == old(self).top_speed,
            final(self).base_acc == old(self).base_acc,
            sprite == sprite_for(steer),
    {
        proof {
            lemma_component_bound(self.vel, self.top_speed as int);
            lemma_component_bound(self.dir, DIR_SCALE as int);
        }
        match steer {
            Steer::Left => {
                let n = norm_sq_ex(&self.vel);
                let spd = isqrt(n as u128);
                proof {
                    lemma_sqrt_small(norm_sq(self.vel), self.top_speed as int);
                }
                self.dir = steer_dir(self.dir, spd as i64);
            },
            Steer::Right => {
                let n = norm_sq_ex(&self.vel);
                let spd = isqrt(n as u128);
                proof {
                    lemma_sqrt_small(norm_sq(self.vel), self.top_speed as int);
                }
                self.dir = steer_dir(self.dir, -(spd as i64));
            },
            Steer::Straight => {},
        }
        proof {
            lemma_component_bound(self.dir, DIR_SCALE as int);
            lemma_mul_bound(self.dir.x as int, self.base_acc as int, 1_000_000, 1_000_000);
            lemma_mul_bound(self.dir.y as int, self.base_acc as int, 1_000_000, 1_000_000);
        }
        let dvx = scale_div(self.dir.x, self.base_acc, 1_000_000);
        let dvy = scale_div(self.dir.y, self.base_acc, 1_000_000);
        proof {
            lemma_tdiv_range((self.dir.x as int) * (self.base_acc as int), DIR_SCALE as int);
            lemma_tdiv_range((self.dir.y as int) * (self.base_acc as int), DIR_SCALE as int);
            assert(-1_000_000 <= dvx <= 1_000_000);
            assert(-1_000_000 <= dvy <= 1_000_000);
        }
        let v1 = Vec2Fix { x: self.vel.x + dvx, y: self.vel.y + dvy };
        self.vel = clamp_norm(v1, self.top_speed);
        proof {
            lemma_component_bound(self.vel, self.top_speed as int);
        }
        self.pos = Vec2Fix { x: self.pos.x + self.vel.x, y: self.pos.y + self.vel.y };
        match steer {
            Steer::Left => CarSprite::LeftTurn,
            Steer::Straight => CarSprite::Center,
            Steer::Right => CarSprite::RightTurn,
        }
    }
}

/// Steering turns in proportion to speed: at a speed of exactly `spd`
/// fixed-point steps per frame, the frame's steering angle is exactly `spd`
/// microradians (0.001 rad per world unit of speed), and a standing car
/// does not turn at all.
pub proof fn lemma_steering_proportional(c: Car, spd: int)
    requires
        c.wf(),
        0 <= spd,
        norm_sq(c.vel) == spd * spd,
    ensures
        c.steer_angle() == spd,
        spd == 0 ==> c.next_dir(Steer::Left) == c.dir && c.next_dir(Steer::Right) == c.dir,
{
    assert(spd * spd < (spd + 1) * (spd + 1)) by (nonlinear_arith)
        requires
            spd >= 0;
    lemma_floor_sqrt_unique(norm_sq(c.vel) as nat, spd as nat);
    if spd == 0 {
        assert(rot_cos(0) == DIR_SCALE as int);
        assert(rot_sin(0) == 0);
        lemma_tdiv_exact(c.dir.x as int, DIR_SCALE as int);
        lemma_tdiv_exact(c.dir.y as int, DIR_SCALE as int);
        assert(c.dir.x * rot_cos(0) - c.dir.y * rot_sin(0) == c.dir.x * (DIR_SCALE as int));
        assert(c.dir.x * rot_sin(0) + c.dir.y * rot_cos(0) == c.dir.y * (DIR_SCALE as int));
        assert(rotate_dir(c.dir, 0) == c.dir);
        assert(clamp_spec(c.dir, DIR_SCALE as int) == c.dir);
    }
}

/// The state after `n` frames with no keys held, starting from `c`.
pub open spec fn run_straight(c: Car, n: nat) -> Car
    decreases n,
{
    if n == 0 {
        c
    } else {
        run_straight(c, (n - 1) as nat).step_spec(Steer::Straight)
    }
}

/// The forward speed after `n` straight frames from the initial state:
/// one world unit more each frame until the cap engages, exactly, at 40.
pub open spec fn straight_speed(n: nat) -> int {
    if n <= 40 {
        1000 * (n as int)
    } else {
        40_000
    }
}

/// From the initial state with no keys held: the facing stays straight up,
/// the speed grows by one world unit each frame until it caps at exactly
/// the top speed after 40 frames, the car never moves sideways, and its
/// forward position only advances.
pub proof fn lemma_straight_run(n: nat)
    requires
        n <= 100_000_000_000,
    ensures
        run_straight(Car::initial(), n).wf(),
        run_straight(Car::initial(), n).base_acc == BASE_ACC,
        run_straight(Car::initial(), n).top_speed == TOP_SPEED,
        run_straight(Car::initial(), n).dir == Car::initial().dir,
        run_straight(Car::initial(), n).vel.x == 0,
        run_straight(Car::initial(), n).vel.y == straight_speed(n),
        run_straight(Car::initial(), n).pos.x == SPAWN_X,
        0 <= run_straight(Car::initial(), n).pos.y <= 40_000 * n,
        n >= 1 ==> run_straight(Car::initial(), n).pos.y >= run_straight(
            Car::initial(),
            (n - 1) as nat,
        ).pos.y,
    decreases n,
{
    if n == 0 {
    } else {
        lemma_straight_run((n - 1) as nat);
        let p = run_straight(Car::initial(), (n - 1) as nat);
        let q = run_straight(Car::initial(), n);
        let vy = p.vel.y as int;
        assert(q == p.step_spec(Steer::Straight));
        assert(p.next_dir(Steer::Straight) == p.dir);
        // acceleration along (0, DIR_SCALE)
        lemma_tdiv_exact(BASE_ACC as int, DIR_SCALE as int);
        assert((p.dir.y as int) * (BASE_ACC as int) == (BASE_ACC as int) * (DIR_SCALE as int));
        assert(tdiv(0 * (BASE_ACC as int), DIR_SCALE as int) == 0);
        let dv = accel_delta(p.dir, BASE_ACC as int);
        assert(dv.x == 0 && dv.y == 1000);
        let v1 = Vec2Fix { x: 0i64, y: (vy + 1000) as i64 };
        assert(norm_sq(v1) == (vy + 1000) * (vy + 1000));
        if vy + 1000 <= 40_000 {
            assert((vy + 1000) * (vy + 1000) <= 40_000 * 40_000) by (nonlinear_arith)
                requires
                    0 <= vy + 1000 <= 40_000;
            assert(clamp_spec(v1, 40_000) == v1);
        } else {
            assert(vy == 40_000);
            assert(norm_sq(v1) == 41_000 * 41_000);
            assert(norm_sq(v1) > 40_000 * 40_000);
            assert(41_000nat * 41_000nat == 1_681_000_000nat);
            assert((41_000nat + 1) * (41_000nat + 1) == 1_681_082_001nat) by (nonlinear_arith);
            lemma_floor_sqrt_unique(norm_sq(v1) as nat, 41_000nat);
            assert(ceil_sqrt(norm_sq(v1) as nat) == 41_000);
            lemma_tdiv_exact(40_000, 41_000);
            assert((v1.y as int) * 40_000 == 40_000 * 41_000);
            assert(tdiv(0int * 40_000, 41_000) == 0);
            assert(clamp_spec(v1, 40_000) == Vec2Fix { x: 0i64, y: 40_000i64 });
        }
        assert(q.vel.y == straight_speed(n));
        assert(0 <= q.vel.y <= 40_000);
        assert(q.vel.x == 0);
        assert(q.pos.x == SPAWN_X);
        assert(q.pos.y == p.pos.y + q.vel.y);
        assert(q.vel.y * q.vel.y <= 40_000 * 40_000) by (nonlinear_arith)
            requires
                0 <= q.vel.y <= 40_000;
    }
}

} // verus!
