use racecar::car::{Car, Steer};
use racecar::fixed::Vec2Fix;
use racecar::obstacles::{collision_check, generate_layout, lv1_turns, screen_offset, screen_offsets};

#[test]
fn layout_level_one_is_deterministic() {
    let rows = lv1_turns();
    assert_eq!(rows.len(), 3);
    assert_eq!(rows[0].count, 10);
    assert_eq!(rows[0].x_offset, 0);
    assert_eq!(rows[1].count, 20);
    assert_eq!(rows[1].x_offset, 50_000);
    assert_eq!(rows[2].count, 30);
    assert_eq!(rows[2].x_offset, 100_000);

    let field = generate_layout(&rows);
    // 2 * (10 + 20 + 30) obstacles
    assert_eq!(field.len(), 120);

    // first mirrored pair, one step behind the origin
    assert_eq!(field[0], Vec2Fix { x: -400_000, y: -100_000 });
    assert_eq!(field[1], Vec2Fix { x: 400_000, y: -100_000 });
    // second pair, one step further
    assert_eq!(field[2], Vec2Fix { x: -400_000, y: 0 });
    assert_eq!(field[3], Vec2Fix { x: 400_000, y: 0 });
    // the second row carries the forward coordinate on without a gap
    assert_eq!(field[20], Vec2Fix { x: -350_000, y: 900_000 });
    assert_eq!(field[21], Vec2Fix { x: 450_000, y: 900_000 });
    // the third row likewise
    assert_eq!(field[60], Vec2Fix { x: -300_000, y: 2_900_000 });
    assert_eq!(field[61], Vec2Fix { x: 500_000, y: 2_900_000 });
    // last pair
    assert_eq!(field[118], Vec2Fix { x: -300_000, y: 5_800_000 });
    assert_eq!(field[119], Vec2Fix { x: 500_000, y: 5_800_000 });

    // every mirrored pair shares a forward coordinate, in steps of 100 units
    for j in 0..60 {
        let y = -100_000 + 100_000 * (j as i64);
        assert_eq!(field[2 * j].y, y);
        assert_eq!(field[2 * j + 1].y, y);
    }

    // the same table generates the same field again
    let again = generate_layout(&lv1_turns());
    assert_eq!(field, again);
}

#[test]
fn collision_resets_car() {
    let mut c = Car::new();
    for _ in 0..10 {
        c.update(Steer::Straight);
    }
    assert_ne!(c.pos.y, 0);
    assert_ne!(c.vel.y, 0);
    // an obstacle within 100 world units of the car
    let obstacles = vec![Vec2Fix { x: c.pos.x + 50_000, y: c.pos.y }];
    collision_check(&mut c, &obstacles);
    assert_eq!(c.pos, Vec2Fix { x: 100_000, y: 0 });
    assert_eq!(c.vel, Vec2Fix { x: 0, y: 0 });
}

#[test]
fn collision_out_of_range_changes_nothing() {
    let mut c = Car::new();
    for _ in 0..10 {
        c.update(Steer::Straight);
    }
    let before = c;
    // exactly at the threshold is not a hit: the test is strict
    let obstacles = vec![
        Vec2Fix { x: c.pos.x + 100_000, y: c.pos.y },
        Vec2Fix { x: c.pos.x, y: c.pos.y - 2_000_000 },
    ];
    collision_check(&mut c, &obstacles);
    assert_eq!(c, before);
}

#[test]
fn collision_reset_is_idempotent() {
    let mut c = Car::new();
    for _ in 0..10 {
        c.update(Steer::Straight);
    }
    // one obstacle near the car, one near the spawn position
    let obstacles = vec![
        Vec2Fix { x: c.pos.x, y: c.pos.y + 10_000 },
        Vec2Fix { x: 150_000, y: 0 },
    ];
    collision_check(&mut c, &obstacles);
    let after_first = c;
    assert_eq!(after_first.pos, Vec2Fix { x: 100_000, y: 0 });
    assert_eq!(after_first.vel, Vec2Fix { x: 0, y: 0 });
    // the second pass hits the obstacle near the spawn and resets to the
    // identical state: no drift
    collision_check(&mut c, &obstacles);
    assert_eq!(c, after_first);

    // with no obstacle near the spawn the second pass finds nothing
    let mut c2 = Car::new();
    for _ in 0..10 {
        c2.update(Steer::Straight);
    }
    let far = vec![Vec2Fix { x: c2.pos.x, y: c2.pos.y + 10_000 }];
    collision_check(&mut c2, &far);
    let after = c2;
    collision_check(&mut c2, &far);
    assert_eq!(c2, after);
}

#[test]
fn camera_follow_scrolls_forward_only() {
    let mut c = Car::new();
    for _ in 0..5 {
        c.update(Steer::Straight);
    }
    let obstacles = vec![
        Vec2Fix { x: -400_000, y: -100_000 },
        Vec2Fix { x: 400_000, y: 5_800_000 },
    ];
    let on_screen = screen_offsets(&obstacles, c.pos);
    assert_eq!(on_screen.len(), 2);
    // obstacles keep their world x; the world scrolls with the car's y
    assert_eq!(on_screen[0], Vec2Fix { x: -400_000, y: -100_000 - c.pos.y });
    assert_eq!(on_screen[1], Vec2Fix { x: 400_000, y: 5_800_000 - c.pos.y });
    let single = screen_offset(obstacles[0], c.pos);
    assert_eq!(single, on_screen[0]);
}
