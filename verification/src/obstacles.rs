//! The obstacle field: deterministic layout generation, camera-follow screen
//! offsets, and the distance-based collision check that resets the car.

use vstd::prelude::*;
use crate::fixed::{Vec2Fix, lemma_mul_bound};
use crate::car::{Car, POS_LIMIT, SPAWN_X, SPAWN_Y};

verus! {

/// Horizontal offset of the left obstacle of each mirrored pair, in
/// fixed-point steps; the right one sits at the mirrored offset.
pub const LEFT_BOUND: i64 = -400_000;

/// Row coordinate of the first mirrored pair, in fixed-point steps.
pub const ROW_START_Y: i64 = -100_000;

/// Forward distance between successive mirrored pairs, in fixed-point steps.
pub const PAIR_Y_STEP: i64 = 100_000;

/// Collision threshold: the car resets when it comes closer than this to an
/// obstacle, in fixed-point steps (100 world units).
pub const HIT_DISTANCE: i64 = 100_000;

/// One row of the level table: how many mirrored pairs to place, around
/// which horizontal offset.
#[derive(Clone, Copy, PartialEq, Eq, Structural, Debug)]
pub struct ObstacleRow {
    /// Number of mirrored obstacle pairs this row spawns.
    pub count: u32,
    /// Horizontal offset of the row, in fixed-point steps.
    pub x_offset: i64,
}

/// The obstacles of one row: `count` mirrored pairs around `x`, advancing the
/// forward coordinate by one step per pair, starting at `y`.
pub open spec fn row_pairs(x: int, count: nat, y: int) -> Seq<Vec2Fix>
    decreases count,
{
    if count == 0 {
        Seq::empty()
    } else {
        seq![
            Vec2Fix { x: (x + LEFT_BOUND as int) as i64, y: y as i64 },
            Vec2Fix { x: (x - LEFT_BOUND as int) as i64, y: y as i64 },
        ] + row_pairs(x, (count - 1) as nat, y + PAIR_Y_STEP as int)
    }
}

/// The whole obstacle field of a level table, starting its first pair at `y`.
pub open spec fn layout_spec(rows: Seq<ObstacleRow>, y: int) -> Seq<Vec2Fix>
    decreases rows.len(),
{
    if rows.len() == 0 {
        Seq::empty()
    } else {
        row_pairs(rows[0].x_offset as int, rows[0].count as nat, y) + layout_spec(
            rows.skip(1),
            y + (rows[0].count as int) * (PAIR_Y_STEP as int),
        )
    }
}

/// Total number of mirrored pairs a level table spawns.
pub open spec fn total_pairs(rows: Seq<ObstacleRow>) -> int
    decreases rows.len(),
{
    if rows.len() == 0 {
        0
    } else {
        rows[0].count + total_pairs(rows.skip(1))
    }
}

/// The level-one table: three rows of 10, 20 and 30 mirrored pairs at
/// growing horizontal offsets.
pub open spec fn lv1_table() -> Seq<ObstacleRow> {
    seq![
        ObstacleRow { count: 10, x_offset: 0 },
        ObstacleRow { count: 20, x_offset: 50_000 },
        ObstacleRow { count: 30, x_offset: 100_000 },
    ]
}

/// Build the level-one table.
pub fn lv1_turns() -> (r: Vec<ObstacleRow>)
    ensures
        r@ == lv1_table(),
{
    let mut v: Vec<ObstacleRow> = Vec::new();
    v.push(ObstacleRow { count: 10, x_offset: 0 });
    v.push(ObstacleRow { count: 20, x_offset: 50_000 });
    v.push(ObstacleRow { count: 30, x_offset: 100_000 });
    proof {
        assert(v@ =~= lv1_table());
    }
    v
}

/// Append one row's mirrored pairs, returning the forward coordinate the
/// next row starts at.
fn push_row(out: &mut Vec<Vec2Fix>, x: i64, count: u32, y: i64) -> (y_end: i64)
    requires
        -1_000_000_000 <= x <= 1_000_000_000,
        -500_000_000_000_000 <= y,
        y + (PAIR_Y_STEP as int) * (count as int) <= 500_000_000_000_000,
    ensures
        final(out)@ == old(out)@ + row_pairs(x as int, count as nat, y as int),
        y_end as int == y + (PAIR_Y_STEP as int) * (count as int),
    decreases count,
{
    if count == 0 {
        proof {
            assert(out@ + row_pairs(x as int, 0, y as int) =~= out@);
        }
        y
    } else {
        out.push(Vec2Fix { x: x + LEFT_BOUND, y });
        out.push(Vec2Fix { x: x - LEFT_BOUND, y });
        let y_end = push_row(out, x, count - 1, y + PAIR_Y_STEP);
        proof {
            assert(old(out)@ + row_pairs(x as int, count as nat, y as int) =~= old(
                out,
            )@.push(Vec2Fix { x: (x + LEFT_BOUND) as i64, y }).push(
                Vec2Fix { x: (x - LEFT_BOUND) as i64, y },
            ) + row_pairs(x as int, (count - 1) as nat, y as int + PAIR_Y_STEP as int));
        }
        y_end
    }
}

/// Append the rows of a level table from index `i` on, the first pair of the
/// next row at `y`.
fn push_rows(out: &mut Vec<Vec2Fix>, rows: &Vec<ObstacleRow>, i: usize, y: i64)
    requires
        i <= rows@.len(),
        rows@.len() <= 1_000,
        forall|j: int|
            0 <= j < rows@.len() ==> rows@[j].count <= 1_000_000 && -1_000_000_000
                <= rows@[j].x_offset <= 1_000_000_000,
        -100_000_000_000_000 <= y,
        y + (rows@.len() - i) * 100_000_000_000 <= 200_000_000_000_000,
    ensures
        final(out)@ == old(out)@ + layout_spec(rows@.skip(i as int), y as int),
    decreases rows@.len() - i,
{
    if i == rows.len() {
        proof {
            assert(rows@.skip(i as int) =~= Seq::<ObstacleRow>::empty());
            assert(out@ + layout_spec(rows@.skip(i as int), y as int) =~= out@);
        }
    } else {
        let row = rows[i];
        proof {
            lemma_mul_bound(PAIR_Y_STEP as int, row.count as int, PAIR_Y_STEP as int, 1_000_000);
            assert(0 <= (PAIR_Y_STEP as int) * (row.count as int) <= 100_000_000_000)
                by (nonlinear_arith)
                requires
                    0 <= row.count <= 1_000_000;
        }
        let y1 = push_row(out, row.x_offset, row.count, y);
        push_rows(out, rows, i + 1, y1);
        proof {
            assert(rows@.skip(i as int).skip(1) =~= rows@.skip(i as int + 1));
            assert(rows@.skip(i as int)[0] == rows@[i as int]);
            assert(old(out)@ + layout_spec(rows@.skip(i as int), y as int) =~= old(out)@
                + row_pairs(row.x_offset as int, row.count as nat, y as int) + layout_spec(
                rows@.skip(i as int + 1),
                y1 as int,
            ));
        }
    }
}

/// Build the whole obstacle field of a level table: for each row, `count`
/// mirrored pairs around its offset, every pair one step further forward,
/// starting one step behind the origin.
pub fn generate_layout(rows: &Vec<ObstacleRow>) -> (r: Vec<Vec2Fix>)
    requires
        rows@.len() <= 1_000,
        forall|j: int|
            0 <= j < rows@.len() ==> rows@[j].count <= 1_000_000 && -1_000_000_000
                <= rows@[j].x_offset <= 1_000_000_000,
    ensures
        r@ == layout_spec(rows@, ROW_START_Y as int),
{
    let mut out: Vec<Vec2Fix> = Vec::new();
    push_rows(&mut out, rows, 0, ROW_START_Y);
    proof {
        assert(rows@.skip(0) =~= rows@);
        assert(Seq::<Vec2Fix>::empty() + layout_spec(rows@, ROW_START_Y as int) =~= layout_spec(
            rows@,
            ROW_START_Y as int,
        ));
    }
    out
}

/// A row's obstacles in detail: two per pair, both at the pair's forward
/// coordinate (one step further per pair), mirrored around the row offset.
pub proof fn lemma_row_pairs_props(x: int, count: nat, y: int)
    ensures
        row_pairs(x, count, y).len() == 2 * count,
        forall|k: int|
            0 <= k < 2 * count ==> {
                &&& (#[trigger] row_pairs(x, count, y)[k]).y == ((y + (PAIR_Y_STEP as int) * (k
                    / 2)) as i64)
                &&& (k % 2 == 0 ==> row_pairs(x, count, y)[k].x == ((x + (
                LEFT_BOUND as int)) as i64))
                &&& (k % 2 == 1 ==> row_pairs(x, count, y)[k].x == ((x - (
                LEFT_BOUND as int)) as i64))
            },
    decreases count,
{
    if count == 0 {
    } else {
        lemma_row_pairs_props(x, (count - 1) as nat, y + PAIR_Y_STEP as int);
        let s = row_pairs(x, count, y);
        let t = row_pairs(x, (count - 1) as nat, y + PAIR_Y_STEP as int);
        assert forall|k: int| 0 <= k < 2 * count implies {
            &&& (#[trigger] s[k]).y == ((y + (PAIR_Y_STEP as int) * (k / 2)) as i64)
            &&& (k % 2 == 0 ==> s[k].x == ((x + (LEFT_BOUND as int)) as i64))
            &&& (k % 2 == 1 ==> s[k].x == ((x - (LEFT_BOUND as int)) as i64))
        } by {
            if k < 2 {
                assert((PAIR_Y_STEP as int) * (k / 2) == 0);
            } else {
                assert(s[k] == t[k - 2]);
                assert((k - 2) / 2 == k / 2 - 1);
                assert((k - 2) % 2 == k % 2);
                assert(t[k - 2].y == (((y + PAIR_Y_STEP as int) + (PAIR_Y_STEP as int) * (k / 2
                    - 1)) as i64));
                assert((y + PAIR_Y_STEP as int) + (PAIR_Y_STEP as int) * (k / 2 - 1) == y + (
                PAIR_Y_STEP as int) * (k / 2));
            }
        }
    }
}

/// The field of a level table in detail: two obstacles per pair, and the
/// `j`-th pair (counting over all rows) sits one step further forward than
/// the one before it.
pub proof fn lemma_layout_props(rows: Seq<ObstacleRow>, y: int)
    ensures
        0 <= total_pairs(rows),
        layout_spec(rows, y).len() == 2 * total_pairs(rows),
        forall|k: int|
            0 <= k < layout_spec(rows, y).len() ==> (#[trigger] layout_spec(rows, y)[k]).y == ((y
                + (PAIR_Y_STEP as int) * (k / 2)) as i64),
    decreases rows.len(),
{
    if rows.len() == 0 {
    } else {
        let c0 = rows[0].count as int;
        let y1 = y + c0 * (PAIR_Y_STEP as int);
        lemma_row_pairs_props(rows[0].x_offset as int, rows[0].count as nat, y);
        lemma_layout_props(rows.skip(1), y1);
        let head = row_pairs(rows[0].x_offset as int, rows[0].count as nat, y);
        let tail = layout_spec(rows.skip(1), y1);
        let s = layout_spec(rows, y);
        assert(s.len() == 2 * c0 + 2 * total_pairs(rows.skip(1)));
        assert forall|k: int| 0 <= k < s.len() implies (#[trigger] s[k]).y == ((y + (
        PAIR_Y_STEP as int) * (k / 2)) as i64) by {
            if k < 2 * c0 {
                assert(s[k] == head[k]);
            } else {
                assert(s[k] == tail[k - 2 * c0]);
                assert(tail[k - 2 * c0].y == ((y1 + (PAIR_Y_STEP as int) * ((k - 2 * c0)
                    / 2)) as i64));
                assert((k - 2 * c0) / 2 == k / 2 - c0);
                assert(y1 + (PAIR_Y_STEP as int) * (k / 2 - c0) == y + (PAIR_Y_STEP as int) * (k
                    / 2)) by (nonlinear_arith)
                    requires
                        y1 == y + c0 * (PAIR_Y_STEP as int);
            }
        }
    }
}

/// The level-one table spawns exactly 120 obstacles: two for each of its
/// 10 + 20 + 30 mirrored pairs.
pub proof fn lemma_lv1_field_size()
    ensures
        total_pairs(lv1_table()) == 60,
        layout_spec(lv1_table(), ROW_START_Y as int).len() == 120,
{
    let t = lv1_table();
    let t1 = seq![
        ObstacleRow { count: 20, x_offset: 50_000 },
        ObstacleRow { count: 30, x_offset: 100_000 },
    ];
    let t2 = seq![ObstacleRow { count: 30, x_offset: 100_000 }];
    let t3 = Seq::<ObstacleRow>::empty();
    assert(t.skip(1) =~= t1);
    assert(t1.skip(1) =~= t2);
    assert(t2.skip(1) =~= t3);
    assert(total_pairs(t3) == 0);
    assert(total_pairs(t2) == 30);
    assert(total_pairs(t1) == 50);
    assert(total_pairs(t) == 60);
    lemma_layout_props(t, ROW_START_Y as int);
}

/// Squared distance between two points, as a mathematical integer.
pub open spec fn dist_sq(a: Vec2Fix, b: Vec2Fix) -> int {
    (a.x - b.x) * (a.x - b.x) + (a.y - b.y) * (a.y - b.y)
}

/// The squared collision threshold.
pub open spec fn hit_threshold_sq() -> int {
    (HIT_DISTANCE as int) * (HIT_DISTANCE as int)
}

/// Whether the car at `pos` is within collision range of any obstacle.
pub open spec fn hits_any(pos: Vec2Fix, obs: Seq<Vec2Fix>) -> bool {
    exists|i: int| 0 <= i < obs.len() && dist_sq(pos, obs[i]) < hit_threshold_sq()
}

/// The car after a collision reset: back at the spawn position, standing,
/// facing as before.
pub open spec fn reset_car(c: Car) -> Car {
    Car {
        pos: Vec2Fix { x: SPAWN_X, y: SPAWN_Y },
        vel: Vec2Fix { x: 0, y: 0 },
        dir: c.dir,
        base_acc: c.base_acc,
        top_speed: c.top_speed,
    }
}

/// The car after one collision pass: reset exactly when some obstacle is in
/// range of its position, untouched otherwise.
pub open spec fn collide_spec(c: Car, obs: Seq<Vec2Fix>) -> Car {
    if hits_any(c.pos, obs) {
        reset_car(c)
    } else {
        c
    }
}

/// Squared distance, computed exactly in 128-bit arithmetic.
pub fn dist_sq_ex(a: Vec2Fix, b: Vec2Fix) -> (r: i128)
    requires
        -POS_LIMIT <= a.x <= POS_LIMIT,
        -POS_LIMIT <= a.y <= POS_LIMIT,
        -POS_LIMIT <= b.x <= POS_LIMIT,
        -POS_LIMIT <= b.y <= POS_LIMIT,
    ensures
        r as int == dist_sq(a, b),
{
    let dx = a.x as i128 - b.x as i128;
    let dy = a.y as i128 - b.y as i128;
    proof {
        lemma_mul_bound(dx as int, dx as int, 2_000_000_000_000_000, 2_000_000_000_000_000);
        lemma_mul_bound(dy as int, dy as int, 2_000_000_000_000_000, 2_000_000_000_000_000);
    }
    dx * dx + dy * dy
}

/// One collision pass over the whole obstacle field: scan every obstacle in
/// order and reset the car's position and velocity on each one in range,
/// exactly as `collide_spec` states.
pub fn collision_check(car: &mut Car, obstacles: &Vec<Vec2Fix>)
    requires
        -POS_LIMIT <= old(car).pos.x <= POS_LIMIT,
        -POS_LIMIT <= old(car).pos.y <= POS_LIMIT,
        forall|j: int|
            0 <= j < obstacles@.len() ==> -POS_LIMIT <= (#[trigger] obstacles@[j]).x <= POS_LIMIT
                && -POS_LIMIT <= obstacles@[j].y <= POS_LIMIT,
    ensures
        *final(car) == collide_spec(*old(car), obstacles@),
        hits_any(old(car).pos, obstacles@) ==> final(car).pos == (Vec2Fix {
            x: SPAWN_X,
            y: SPAWN_Y,
        }) && final(car).vel == (Vec2Fix { x: 0, y: 0 }),
        !hits_any(old(car).pos, obstacles@) ==> *final(car) == *old(car),
{
    let mut i: usize = 0;
    while i < obstacles.len()
        invariant
            i <= obstacles@.len(),
            -POS_LIMIT <= old(car).pos.x <= POS_LIMIT,
            -POS_LIMIT <= old(car).pos.y <= POS_LIMIT,
            forall|j: int|
                0 <= j < obstacles@.len() ==> -POS_LIMIT <= (#[trigger] obstacles@[j]).x
                    <= POS_LIMIT && -POS_LIMIT <= obstacles@[j].y <= POS_LIMIT,
            hits_any(old(car).pos, obstacles@.take(i as int)) ==> *car == reset_car(*old(car)),
            !hits_any(old(car).pos, obstacles@.take(i as int)) ==> *car == *old(car),
        decreases obstacles@.len() - i,
    {
        let ob = obstacles[i];
        let ghost had_hit = hits_any(old(car).pos, obstacles@.take(i as int));
        let d2 = dist_sq_ex(car.pos, ob);
        proof {
            lemma_mul_bound(HIT_DISTANCE as int, HIT_DISTANCE as int, 100_000, 100_000);
        }
        let hit_now = d2 < (HIT_DISTANCE as i128) * (HIT_DISTANCE as i128);
        if hit_now {
            car.vel = Vec2Fix { x: 0, y: 0 };
            car.pos = Vec2Fix { x: SPAWN_X, y: SPAWN_Y };
        }
        proof {
            let pre = obstacles@.take(i as int);
            let post = obstacles@.take(i as int + 1);
            assert(post =~= pre.push(obstacles@[i as int]));
            if had_hit {
                let w = choose|w: int|
                    0 <= w < pre.len() && dist_sq(old(car).pos, pre[w]) < hit_threshold_sq();
                assert(post[w] == pre[w]);
                assert(hits_any(old(car).pos, post));
            } else {
                if hit_now {
                    assert(dist_sq(old(car).pos, obstacles@[i as int]) < hit_threshold_sq());
                    assert(post[i as int] == obstacles@[i as int]);
                    assert(hits_any(old(car).pos, post));
                } else {
                    assert(!hits_any(old(car).pos, post)) by {
                        if hits_any(old(car).pos, post) {
                            let w = choose|w: int|
                                0 <= w < post.len() && dist_sq(old(car).pos, post[w])
                                    < hit_threshold_sq();
                            if w < i as int {
                                assert(pre[w] == post[w]);
                                assert(hits_any(old(car).pos, pre));
                            } else {
                                assert(post[w] == obstacles@[i as int]);
                            }
                        }
                    }
                }
            }
        }
        i += 1;
    }
    proof {
        assert(obstacles@.take(obstacles@.len() as int) =~= obstacles@);
    }
}

/// The collision reset is idempotent: a second pass from the post-reset
/// state either finds nothing in range or resets to the very same state.
pub proof fn lemma_collision_idempotent(c: Car, obs: Seq<Vec2Fix>)
    ensures
        collide_spec(collide_spec(c, obs), obs) == collide_spec(c, obs),
{
    let c1 = collide_spec(c, obs);
    if hits_any(c.pos, obs) {
        assert(c1 == reset_car(c));
        if hits_any(c1.pos, obs) {
            assert(reset_car(c1) == c1);
        }
    }
}

/// Screen transform of one obstacle under the camera follow: the world
/// scrolls forward with the car while obstacles keep their world x.
pub fn screen_offset(obstacle: Vec2Fix, car_pos: Vec2Fix) -> (r: Vec2Fix)
    requires
        -POS_LIMIT <= obstacle.y <= POS_LIMIT,
        -POS_LIMIT <= car_pos.y <= POS_LIMIT,
    ensures
        r.x == obstacle.x,
        r.y == obstacle.y - car_pos.y,
{
    Vec2Fix { x: obstacle.x, y: obstacle.y - car_pos.y }
}

/// Screen transforms of the whole obstacle field under the camera follow.
pub fn screen_offsets(obstacles: &Vec<Vec2Fix>, car_pos: Vec2Fix) -> (r: Vec<Vec2Fix>)
    requires
        forall|j: int|
            0 <= j < obstacles@.len() ==> -POS_LIMIT <= (#[trigger] obstacles@[j]).y <= POS_LIMIT,
        -POS_LIMIT <= car_pos.y <= POS_LIMIT,
    ensures
        r@.len() == obstacles@.len(),
        forall|j: int|
            0 <= j < obstacles@.len() ==> (#[trigger] r@[j]).x == obstacles@[j].x && r@[j].y
                == obstacles@[j].y - car_pos.y,
{
    let mut out: Vec<Vec2Fix> = Vec::new();
    let mut i: usize = 0;
    while i < obstacles.len()
        invariant
            i <= obstacles@.len(),
            out@.len() == i,
            forall|j: int|
                0 <= j < obstacles@.len() ==> -POS_LIMIT <= (#[trigger] obstacles@[j]).y
                    <= POS_LIMIT,
            -POS_LIMIT <= car_pos.y <= POS_LIMIT,
            forall|j: int|
                0 <= j < i ==> (#[trigger] out@[j]).x == obstacles@[j].x && out@[j].y
                    == obstacles@[j].y - car_pos.y,
        decreases obstacles@.len() - i,
    {
        let o = screen_offset(obstacles[i], car_pos);
        out.push(o);
        i += 1;
    }
    out
}

} // verus!
