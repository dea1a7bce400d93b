use racecar::car::{Car, CarSprite, Steer};

#[test]
fn initial_state() {
    let c = Car::new();
    assert_eq!(c.pos.x, 100_000);
    assert_eq!(c.pos.y, 0);
    assert_eq!(c.vel.x, 0);
    assert_eq!(c.vel.y, 0);
    assert_eq!(c.dir.x, 0);
    assert_eq!(c.dir.y, 1_000_000);
    assert_eq!(c.base_acc, 1_000);
    assert_eq!(c.top_speed, 40_000);
}

#[test]
fn straight_run_accelerates_then_caps() {
    let mut c = Car::new();
    let mut expected_y: i64 = 0;
    for frame in 1..=50i64 {
        let sprite = c.update(Steer::Straight);
        assert_eq!(sprite, CarSprite::Center);
        // facing never changes without steering
        assert_eq!(c.dir.x, 0);
        assert_eq!(c.dir.y, 1_000_000);
        // one world unit of speed more per frame, until the cap engages
        let speed = if frame <= 40 { 1_000 * frame } else { 40_000 };
        assert_eq!(c.vel.x, 0);
        assert_eq!(c.vel.y, speed);
        // the position advances by exactly the velocity, never sideways
        expected_y += speed;
        assert_eq!(c.pos.x, 100_000);
        assert_eq!(c.pos.y, expected_y);
    }
}

#[test]
fn speed_cap_engages_exactly() {
    let mut c = Car::new();
    for _ in 0..40 {
        c.update(Steer::Straight);
    }
    // at the cap, not past it
    assert_eq!(c.vel.y, 40_000);
    c.update(Steer::Straight);
    // the clamp rescales 41 units back to exactly 40
    assert_eq!(c.vel.y, 40_000);
    assert!(c.vel.x * c.vel.x + c.vel.y * c.vel.y <= 40_000i64 * 40_000);
}

#[test]
fn steering_at_standstill_does_not_turn() {
    let mut c = Car::new();
    let sprite = c.update(Steer::Left);
    assert_eq!(sprite, CarSprite::LeftTurn);
    // zero speed means a zero steering angle: the facing is untouched
    assert_eq!(c.dir.x, 0);
    assert_eq!(c.dir.y, 1_000_000);
    let sprite = c.update(Steer::Right);
    assert_eq!(sprite, CarSprite::RightTurn);
    // one frame of acceleration gave speed 1000, one microradian per step:
    // a 0.001 rad turn moves the facing by less than one part in a thousand
    assert_eq!(c.dir.y, 999_999);
}

#[test]
fn steering_angle_proportional_to_speed() {
    // drive to the top speed, facing straight up
    let mut c = Car::new();
    for _ in 0..40 {
        c.update(Steer::Straight);
    }
    assert_eq!(c.vel.y, 40_000);
    let mut l = c;
    let sprite = l.update(Steer::Left);
    assert_eq!(sprite, CarSprite::LeftTurn);
    // at 40 units of speed the steering angle is 0.04 rad: with
    // cos ~ 0.999200 and sin ~ 0.039990 the up-facing vector turns left to
    // exactly these fixed-point components
    assert_eq!(l.dir.x, -39_990);
    assert_eq!(l.dir.y, 999_200);
    // the mirrored steering input turns by the negated angle
    let mut r = c;
    let sprite = r.update(Steer::Right);
    assert_eq!(sprite, CarSprite::RightTurn);
    assert_eq!(r.dir.x, 39_990);
    assert_eq!(r.dir.y, 999_200);
}

#[test]
fn velocity_follows_turned_facing() {
    let mut c = Car::new();
    for _ in 0..40 {
        c.update(Steer::Straight);
    }
    c.update(Steer::Left);
    // acceleration along the turned facing, then the cap rescales:
    // (0, 40000) + (-39, 999) clamped back under 40 units
    assert_eq!(c.vel.x, -38);
    assert_eq!(c.vel.y, 39_999);
    assert!(c.vel.x * c.vel.x + c.vel.y * c.vel.y <= 40_000i64 * 40_000);
}

#[test]
fn long_left_turn_keeps_invariants() {
    let mut c = Car::new();
    for _ in 0..200 {
        let prev = c;
        c.update(Steer::Left);
        // the speed cap holds on every frame, steering or not
        assert!(c.vel.x * c.vel.x + c.vel.y * c.vel.y <= 40_000i64 * 40_000);
        // the facing stays within unit length
        assert!(c.dir.x * c.dir.x + c.dir.y * c.dir.y <= 1_000_000i64 * 1_000_000);
        // the position advances by exactly the new velocity
        assert_eq!(c.pos.x, prev.pos.x + c.vel.x);
        assert_eq!(c.pos.y, prev.pos.y + c.vel.y);
    }
    // after 200 frames of turning the car no longer faces straight up
    assert!(c.dir.x != 0);
}

#[test]
fn screen_position_tracks_world_x() {
    let mut c = Car::new();
    for _ in 0..10 {
        c.update(Steer::Straight);
    }
    let t = c.screen_position();
    assert_eq!(t.x, c.pos.x);
    assert_eq!(t.y, -200_000);
}
