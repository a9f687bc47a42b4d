//! One flocking agent and its per-tick motion update: wall avoidance,
//! alignment, separation and cohesion combined into one acceleration, a
//! velocity cap, and position integration.

use vstd::prelude::*;
use crate::math::{
    SCALE, trunc_div, sqrt_up, mag2, limit_spec, div_trunc64, div_trunc128, isqrt_up,
    lemma_sqrt_up_props, lemma_trunc_div_bounded, lemma_trunc_div_neg, lemma_limit_within_cap,
    lemma_limit_components,
};

verus! {

/// A plane vector in fixed-point coordinates (see `SCALE`).
#[derive(Clone, Copy, PartialEq, Eq, Debug)]
pub struct Vec2 {
    pub x: i64,
    pub y: i64,
}

/// One simulated agent. The colour is an opaque presentation payload (a
/// packed RGB value) that the simulation itself never reads.
#[derive(Clone, Copy, PartialEq, Eq, Debug)]
pub struct Boid {
    pub position: Vec2,
    pub velocity: Vec2,
    pub color: Option<u32>,
}

/// The tunable constants of the motion update, all in fixed-point units.
/// `desired_separation` and `neighbour_distance` are squared distances;
/// `neighbour_distance` is for callers that select neighbours themselves
/// rather than through the spatial index, which pre-filters by bucket.
#[derive(Clone, Copy, PartialEq, Eq, Debug)]
pub struct FlockConfig {
    pub max_speed: i64,
    pub max_steer_force: i64,
    pub desired_separation: i64,
    pub neighbour_distance: i64,
    pub wall_weight: i64,
}

/// Largest coordinate magnitude the update accepts, so that every
/// intermediate product below fits its machine integer.
pub const COORD_LIMIT: i64 = 10_000_000;

/// Largest neighbour set the update accepts.
pub const NEIGHBOUR_LIMIT: usize = 100_000;

/// Upper bounds on the tunable constants, again forced by machine integers.
pub const MAX_SPEED_LIMIT: i64 = 1_000_000;

pub const MAX_STEER_LIMIT: i64 = 1_000_000;

pub const SEPARATION_LIMIT: i64 = 1_000_000_000_000;

pub const WALL_WEIGHT_LIMIT: i64 = 10_000;

pub open spec fn valid_vec(v: Vec2) -> bool {
    &&& -COORD_LIMIT <= v.x <= COORD_LIMIT
    &&& -COORD_LIMIT <= v.y <= COORD_LIMIT
}

pub open spec fn valid_boid(b: Boid) -> bool {
    valid_vec(b.position) && valid_vec(b.velocity)
}

pub open spec fn valid_flock_config(c: FlockConfig) -> bool {
    &&& 0 < c.max_speed <= MAX_SPEED_LIMIT
    &&& 0 < c.max_steer_force <= MAX_STEER_LIMIT
    &&& 0 <= c.desired_separation <= SEPARATION_LIMIT
    &&& 0 <= c.neighbour_distance
    &&& 0 <= c.wall_weight <= WALL_WEIGHT_LIMIT
}

pub open spec fn valid_neighbours(s: Seq<Boid>) -> bool {
    &&& s.len() <= NEIGHBOUR_LIMIT
    &&& forall|i: int| 0 <= i < s.len() ==> valid_boid(#[trigger] s[i])
}

/// Inverse-square repulsion away from `target`, scaled by `weight`: the
/// vector from the target to the position, divided by their squared
/// distance. A zero distance contributes nothing (the guard that keeps the
/// update total). The weight is folded into the dividend so the division
/// rounds only once.
pub open spec fn avoid_spec(px: int, py: int, tx: int, ty: int, weight: int) -> (int, int) {
    let dx = px - tx;
    let dy = py - ty;
    let d2 = dx * dx + dy * dy;
    if d2 == 0 {
        (0int, 0int)
    } else {
        (trunc_div(dx * weight * SCALE * SCALE, d2), trunc_div(dy * weight * SCALE * SCALE, d2))
    }
}

/// The sum of the four wall repulsions, one per boundary line of the world
/// rectangle, each from the nearest point of that wall.
pub open spec fn avoid_walls_spec(px: int, py: int, width: int, height: int, weight: int) -> (
    int,
    int,
) {
    let w1 = avoid_spec(px, py, 0, py, weight);
    let w2 = avoid_spec(px, py, width, py, weight);
    let w3 = avoid_spec(px, py, px, 0, weight);
    let w4 = avoid_spec(px, py, px, height, weight);
    (w1.0 + w2.0 + w3.0 + w4.0, w1.1 + w2.1 + w3.1 + w4.1)
}

pub open spec fn sum_vel(s: Seq<Boid>) -> (int, int)
    decreases s.len(),
{
    if s.len() == 0 {
        (0int, 0int)
    } else {
        let pre = sum_vel(s.drop_last());
        (pre.0 + s.last().velocity.x, pre.1 + s.last().velocity.y)
    }
}

pub open spec fn sum_pos(s: Seq<Boid>) -> (int, int)
    decreases s.len(),
{
    if s.len() == 0 {
        (0int, 0int)
    } else {
        let pre = sum_pos(s.drop_last());
        (pre.0 + s.last().position.x, pre.1 + s.last().position.y)
    }
}

/// Alignment: the summed neighbour velocities divided by the neighbour
/// count scaled down by `max_steer_force`; zero when there is no neighbour.
pub open spec fn align_spec(s: Seq<Boid>, max_steer_force: int) -> (int, int) {
    if s.len() == 0 {
        (0int, 0int)
    } else {
        let sv = sum_vel(s);
        let d = SCALE * s.len();
        (trunc_div(sv.0 * max_steer_force, d), trunc_div(sv.1 * max_steer_force, d))
    }
}

/// One neighbour's separation push: the offset away from it, normalised,
/// then divided by the squared distance, so closer neighbours push harder.
/// Neighbours at distance zero or beyond `desired_separation` contribute
/// nothing.
pub open spec fn sep_term_spec(cur: Boid, nb: Boid, desired_separation: int) -> (int, int) {
    let dx = cur.position.x - nb.position.x;
    let dy = cur.position.y - nb.position.y;
    let d2 = dx * dx + dy * dy;
    if d2 == 0 || d2 > desired_separation {
        (0int, 0int)
    } else {
        let l = sqrt_up(d2);
        (
            trunc_div(dx * SCALE * SCALE * SCALE, l * d2),
            trunc_div(dy * SCALE * SCALE * SCALE, l * d2),
        )
    }
}

/// Separation: the sum of the per-neighbour pushes.
pub open spec fn separate_spec(cur: Boid, s: Seq<Boid>, desired_separation: int) -> (int, int)
    decreases s.len(),
{
    if s.len() == 0 {
        (0int, 0int)
    } else {
        let pre = separate_spec(cur, s.drop_last(), desired_separation);
        let t = sep_term_spec(cur, s.last(), desired_separation);
        (pre.0 + t.0, pre.1 + t.1)
    }
}

/// Cohesion: the vector from the current position to the neighbour
/// centroid, capped at `max_steer_force`; zero when there is no neighbour.
pub open spec fn cohede_spec(cur: Boid, s: Seq<Boid>, max_steer_force: int) -> (int, int) {
    if s.len() == 0 {
        (0int, 0int)
    } else {
        let sp = sum_pos(s);
        let cx = trunc_div(sp.0, s.len() as int);
        let cy = trunc_div(sp.1, s.len() as int);
        limit_spec(cx - cur.position.x, cy - cur.position.y, max_steer_force)
    }
}

/// The velocity after one update: the old velocity plus the four steering
/// contributions, capped at `max_speed`.
pub open spec fn new_velocity_spec(b: Boid, s: Seq<Boid>, width: int, height: int, c: FlockConfig) -> (
    int,
    int,
) {
    let aw = avoid_walls_spec(b.position.x as int, b.position.y as int, width, height, c.wall_weight as int);
    let al = align_spec(s, c.max_steer_force as int);
    let sp = separate_spec(b, s, c.desired_separation as int);
    let ch = cohede_spec(b, s, c.max_steer_force as int);
    limit_spec(
        b.velocity.x + al.0 + sp.0 + ch.0 + aw.0,
        b.velocity.y + al.1 + sp.1 + ch.1 + aw.1,
        c.max_speed as int,
    )
}

/// The whole agent after one update: new velocity as above, position moved
/// by it, colour carried through untouched.
pub open spec fn flock_boid_spec(b: Boid, s: Seq<Boid>, width: int, height: int, c: FlockConfig) -> Boid {
    let v = new_velocity_spec(b, s, width, height, c);
    Boid {
        position: Vec2 {
            x: (b.position.x + v.0) as i64,
            y: (b.position.y + v.1) as i64,
        },
        velocity: Vec2 { x: v.0 as i64, y: v.1 as i64 },
        color: b.color,
    }
}

/// Inverse-square repulsion from `target`, weighted.
pub fn avoid(position: Vec2, target: Vec2, weight: i64) -> (r: Vec2)
    requires
        valid_vec(position),
        valid_vec(target),
        0 <= weight <= WALL_WEIGHT_LIMIT,
    ensures
        (r.x as int, r.y as int) == avoid_spec(
            position.x as int,
            position.y as int,
            target.x as int,
            target.y as int,
            weight as int,
        ),
        -(weight * SCALE * SCALE) <= r.x as int <= weight * SCALE * SCALE,
        -(weight * SCALE * SCALE) <= r.y as int <= weight * SCALE * SCALE,
{
    let dx: i64 = position.x - target.x;
    let dy: i64 = position.y - target.y;
    proof {
        assert(dx * dx >= 0 && dy * dy >= 0 && dx * dx + dy * dy <= 800_000_000_000_000int)
            by (nonlinear_arith)
            requires
                -20_000_000 <= dx <= 20_000_000,
                -20_000_000 <= dy <= 20_000_000,
        ;
    }
    let d2: i64 = dx * dx + dy * dy;
    if d2 == 0 {
        Vec2 { x: 0, y: 0 }
    } else {
        proof {
            assert(-200_000_000_000int <= (dx as int) * (weight as int) <= 200_000_000_000int)
                by (nonlinear_arith)
                requires
                    -20_000_000 <= dx <= 20_000_000,
                    0 <= weight <= 10_000,
            ;
            assert(-200_000_000_000int <= (dy as int) * (weight as int) <= 200_000_000_000int)
                by (nonlinear_arith)
                requires
                    -20_000_000 <= dy <= 20_000_000,
                    0 <= weight <= 10_000,
            ;
        }
        let nx: i64 = dx * weight * SCALE * SCALE;
        let ny: i64 = dy * weight * SCALE * SCALE;
        let ghost c = (weight as int) * (SCALE as int) * (SCALE as int);
        proof {
            assert(c >= 0 && nx as int == (dx as int) * c && -c * (d2 as int) <= nx as int <= c * (
            d2 as int)) by (nonlinear_arith)
                requires
                    c == (weight as int) * 1000 * 1000,
                    SCALE == 1000,
                    nx as int == (dx as int) * (weight as int) * 1000 * 1000,
                    d2 as int == (dx as int) * (dx as int) + (dy as int) * (dy as int),
                    d2 != 0,
                    0 <= weight,
            ;
            assert(ny as int == (dy as int) * c && -c * (d2 as int) <= ny as int <= c * (d2 as int))
                by (nonlinear_arith)
                requires
                    c == (weight as int) * 1000 * 1000,
                    SCALE == 1000,
                    ny as int == (dy as int) * (weight as int) * 1000 * 1000,
                    d2 as int == (dx as int) * (dx as int) + (dy as int) * (dy as int),
                    d2 != 0,
                    0 <= weight,
            ;
            lemma_trunc_div_bounded(nx as int, d2 as int, c);
            lemma_trunc_div_bounded(ny as int, d2 as int, c);
        }
        Vec2 { x: div_trunc64(nx, d2), y: div_trunc64(ny, d2) }
    }
}

/// One repulsion per wall of the `[0, width] x [0, height]` world, each
/// from the nearest point of that wall.
pub fn avoid_walls(position: Vec2, width: i64, height: i64, weight: i64) -> (r: Vec2)
    requires
        valid_vec(position),
        0 <= width <= COORD_LIMIT,
        0 <= height <= COORD_LIMIT,
        0 <= weight <= WALL_WEIGHT_LIMIT,
    ensures
        (r.x as int, r.y as int) == avoid_walls_spec(
            position.x as int,
            position.y as int,
            width as int,
            height as int,
            weight as int,
        ),
        -(4 * weight * SCALE * SCALE) <= r.x as int <= 4 * weight * SCALE * SCALE,
        -(4 * weight * SCALE * SCALE) <= r.y as int <= 4 * weight * SCALE * SCALE,
{
    let t1 = avoid(position, Vec2 { x: 0, y: position.y }, weight);
    let t2 = avoid(position, Vec2 { x: width, y: position.y }, weight);
    let t3 = avoid(position, Vec2 { x: position.x, y: 0 }, weight);
    let t4 = avoid(position, Vec2 { x: position.x, y: height }, weight);
    Vec2 { x: t1.x + t2.x + t3.x + t4.x, y: t1.y + t2.y + t3.y + t4.y }
}

/// Alignment steering over the given neighbours.
pub fn align(neighbours: &Vec<Boid>, max_steer_force: i64) -> (r: Vec2)
    requires
        valid_neighbours(neighbours@),
        0 < max_steer_force <= MAX_STEER_LIMIT,
    ensures
        (r.x as int, r.y as int) == align_spec(neighbours@, max_steer_force as int),
        -10_000_000_000 <= r.x <= 10_000_000_000,
        -10_000_000_000 <= r.y <= 10_000_000_000,
{
    let mut sx: i64 = 0;
    let mut sy: i64 = 0;
    let mut i: usize = 0;
    while i < neighbours.len()
        invariant
            valid_neighbours(neighbours@),
            i <= neighbours@.len(),
            (sx as int, sy as int) == sum_vel(neighbours@.take(i as int)),
            -(i as int) * COORD_LIMIT <= sx as int <= (i as int) * COORD_LIMIT,
            -(i as int) * COORD_LIMIT <= sy as int <= (i as int) * COORD_LIMIT,
        decreases neighbours@.len() - i,
    {
        let b: Boid = neighbours[i];
        proof {
            assert(neighbours@.take(i as int + 1).drop_last() =~= neighbours@.take(i as int));
            assert(neighbours@.take(i as int + 1).last() == neighbours@[i as int]);
        }
        sx = sx + b.velocity.x;
        sy = sy + b.velocity.y;
        i = i + 1;
    }
    proof {
        assert(neighbours@.take(neighbours@.len() as int) =~= neighbours@);
    }
    if neighbours.len() == 0 {
        return Vec2 { x: 0, y: 0 };
    }
    let n: i64 = neighbours.len() as i64;
    proof {
        assert(-1_000_000_000_000_000_000int <= (sx as int) * (max_steer_force as int)
            <= 1_000_000_000_000_000_000int && -10_000_000_000int * ((SCALE as int) * (n as int)) <= (
        sx as int) * (max_steer_force as int) <= 10_000_000_000int * ((SCALE as int) * (n as int)))
            by (nonlinear_arith)
            requires
                SCALE == 1000,
                1 <= n <= 100_000,
                -(n as int) * 10_000_000 <= sx as int <= (n as int) * 10_000_000,
                0 < max_steer_force <= 1_000_000,
        ;
        assert(-1_000_000_000_000_000_000int <= (sy as int) * (max_steer_force as int)
            <= 1_000_000_000_000_000_000int && -10_000_000_000int * ((SCALE as int) * (n as int)) <= (
        sy as int) * (max_steer_force as int) <= 10_000_000_000int * ((SCALE as int) * (n as int)))
            by (nonlinear_arith)
            requires
                SCALE == 1000,
                1 <= n <= 100_000,
                -(n as int) * 10_000_000 <= sy as int <= (n as int) * 10_000_000,
                0 < max_steer_force <= 1_000_000,
        ;
    }
    let num_x: i64 = sx * max_steer_force;
    let num_y: i64 = sy * max_steer_force;
    let den: i64 = SCALE * n;
    proof {
        lemma_trunc_div_bounded(num_x as int, den as int, 10_000_000_000int);
        lemma_trunc_div_bounded(num_y as int, den as int, 10_000_000_000int);
    }
    Vec2 { x: div_trunc64(num_x, den), y: div_trunc64(num_y, den) }
}

/// One neighbour's separation push.
fn separate_term(current: &Boid, nb: Boid, desired_separation: i64) -> (t: Vec2)
    requires
        valid_boid(*current),
        valid_boid(nb),
        0 <= desired_separation <= SEPARATION_LIMIT,
    ensures
        (t.x as int, t.y as int) == sep_term_spec(*current, nb, desired_separation as int),
        -1_000_000_000 <= t.x <= 1_000_000_000,
        -1_000_000_000 <= t.y <= 1_000_000_000,
{
    let dx: i64 = current.position.x - nb.position.x;
    let dy: i64 = current.position.y - nb.position.y;
    proof {
        assert(dx * dx >= 0 && dy * dy >= 0 && dx * dx + dy * dy <= 800_000_000_000_000int)
            by (nonlinear_arith)
            requires
                -20_000_000 <= dx <= 20_000_000,
                -20_000_000 <= dy <= 20_000_000,
        ;
    }
    let d2: i64 = dx * dx + dy * dy;
    if d2 != 0 && d2 <= desired_separation {
        proof {
            lemma_sqrt_up_props(d2 as int);
        }
        let lu: u128 = isqrt_up(d2 as u128);
        let ghost li = sqrt_up(d2 as int);
        proof {
            assert(1 <= li <= 1_000_000) by (nonlinear_arith)
                requires
                    li >= 1,
                    (li - 1) * (li - 1) < d2 as int,
                    1 <= d2 as int <= 1_000_000_000_000,
            ;
        }
        let l: i64 = lu as i64;
        proof {
            assert(1 <= (l as int) * (d2 as int) <= 1_000_000_000_000_000_000int)
                by (nonlinear_arith)
                requires
                    1 <= l <= 1_000_000,
                    1 <= d2 <= 1_000_000_000_000,
            ;
        }
        let den: i64 = l * d2;
        let nx: i64 = dx * SCALE * SCALE * SCALE;
        let ny: i64 = dy * SCALE * SCALE * SCALE;
        proof {
            assert((dx as int) * (dx as int) <= (l as int) * (l as int) && (dy as int) * (dy as int)
                <= (l as int) * (l as int)) by (nonlinear_arith)
                requires
                    (dx as int) * (dx as int) + (dy as int) * (dy as int) == d2 as int,
                    (l as int) * (l as int) >= d2 as int,
                    dy * dy >= 0,
                    dx * dx >= 0,
            ;
            assert(-(l as int) <= dx as int <= l as int && -(l as int) <= dy as int <= l as int)
                by (nonlinear_arith)
                requires
                    (dx as int) * (dx as int) <= (l as int) * (l as int),
                    (dy as int) * (dy as int) <= (l as int) * (l as int),
                    l >= 1,
            ;
            assert(-1_000_000_000int * (den as int) <= nx as int <= 1_000_000_000int * (den as int))
                by (nonlinear_arith)
                requires
                    SCALE == 1000,
                    nx as int == (dx as int) * 1000 * 1000 * 1000,
                    den as int == (l as int) * (d2 as int),
                    -(l as int) <= dx as int <= l as int,
                    d2 >= 1,
                    l >= 1,
            ;
            assert(-1_000_000_000int * (den as int) <= ny as int <= 1_000_000_000int * (den as int))
                by (nonlinear_arith)
                requires
                    SCALE == 1000,
                    ny as int == (dy as int) * 1000 * 1000 * 1000,
                    den as int == (l as int) * (d2 as int),
                    -(l as int) <= dy as int <= l as int,
                    d2 >= 1,
                    l >= 1,
            ;
            lemma_trunc_div_bounded(nx as int, den as int, 1_000_000_000int);
            lemma_trunc_div_bounded(ny as int, den as int, 1_000_000_000int);
        }
        Vec2 { x: div_trunc64(nx, den), y: div_trunc64(ny, den) }
    } else {
        Vec2 { x: 0, y: 0 }
    }
}

/// Separation steering over the given neighbours.
pub fn separate(current: &Boid, neighbours: &Vec<Boid>, desired_separation: i64) -> (r: Vec2)
    requires
        valid_boid(*current),
        valid_neighbours(neighbours@),
        0 <= desired_separation <= SEPARATION_LIMIT,
    ensures
        (r.x as int, r.y as int) == separate_spec(
            *current,
            neighbours@,
            desired_separation as int,
        ),
        -100_000_000_000_000 <= r.x <= 100_000_000_000_000,
        -100_000_000_000_000 <= r.y <= 100_000_000_000_000,
{
    let mut sx: i64 = 0;
    let mut sy: i64 = 0;
    let mut i: usize = 0;
    while i < neighbours.len()
        invariant
            valid_boid(*current),
            valid_neighbours(neighbours@),
            0 <= desired_separation <= SEPARATION_LIMIT,
            i <= neighbours@.len(),
            (sx as int, sy as int) == separate_spec(
                *current,
                neighbours@.take(i as int),
                desired_separation as int,
            ),
            -(i as int) * 1_000_000_000 <= sx as int <= (i as int) * 1_000_000_000,
            -(i as int) * 1_000_000_000 <= sy as int <= (i as int) * 1_000_000_000,
        decreases neighbours@.len() - i,
    {
        let nb: Boid = neighbours[i];
        let t = separate_term(current, nb, desired_separation);
        proof {
            assert(neighbours@.take(i as int + 1).drop_last() =~= neighbours@.take(i as int));
            assert(neighbours@.take(i as int + 1).last() == neighbours@[i as int]);
        }
        sx = sx + t.x;
        sy = sy + t.y;
        i = i + 1;
    }
    proof {
        assert(neighbours@.take(neighbours@.len() as int) =~= neighbours@);
    }
    Vec2 { x: sx, y: sy }
}

/// Cohesion steering over the given neighbours.
pub fn cohede(current: &Boid, neighbours: &Vec<Boid>, max_steer_force: i64) -> (r: Vec2)
    requires
        valid_boid(*current),
        valid_neighbours(neighbours@),
        0 < max_steer_force <= MAX_STEER_LIMIT,
    ensures
        (r.x as int, r.y as int) == cohede_spec(*current, neighbours@, max_steer_force as int),
        -max_steer_force <= r.x <= max_steer_force,
        -max_steer_force <= r.y <= max_steer_force,
{
    if neighbours.len() == 0 {
        proof {
            lemma_limit_components(0int, 0int, max_steer_force as int);
        }
        return Vec2 { x: 0, y: 0 };
    }
    let mut sx: i64 = 0;
    let mut sy: i64 = 0;
    let mut i: usize = 0;
    while i < neighbours.len()
        invariant
            valid_neighbours(neighbours@),
            i <= neighbours@.len(),
            (sx as int, sy as int) == sum_pos(neighbours@.take(i as int)),
            -(i as int) * COORD_LIMIT <= sx as int <= (i as int) * COORD_LIMIT,
            -(i as int) * COORD_LIMIT <= sy as int <= (i as int) * COORD_LIMIT,
        decreases neighbours@.len() - i,
    {
        let b: Boid = neighbours[i];
        proof {
            assert(neighbours@.take(i as int + 1).drop_last() =~= neighbours@.take(i as int));
            assert(neighbours@.take(i as int + 1).last() == neighbours@[i as int]);
        }
        sx = sx + b.position.x;
        sy = sy + b.position.y;
        i = i + 1;
    }
    proof {
        assert(neighbours@.take(neighbours@.len() as int) =~= neighbours@);
    }
    let n: i64 = neighbours.len() as i64;
    proof {
        lemma_trunc_div_bounded(sx as int, n as int, COORD_LIMIT as int);
        lemma_trunc_div_bounded(sy as int, n as int, COORD_LIMIT as int);
    }
    let cx: i64 = div_trunc64(sx, n);
    let cy: i64 = div_trunc64(sy, n);
    let steer = Vec2 { x: cx - current.position.x, y: cy - current.position.y };
    limit_magnitude(steer, max_steer_force)
}

/// Cap a vector at magnitude `cap`, leaving shorter vectors untouched.
pub fn limit_magnitude(v: Vec2, cap: i64) -> (r: Vec2)
    requires
        0 < cap <= 1_000_000,
        -1_000_000_000_000_000 <= v.x <= 1_000_000_000_000_000,
        -1_000_000_000_000_000 <= v.y <= 1_000_000_000_000_000,
    ensures
        (r.x as int, r.y as int) == limit_spec(v.x as int, v.y as int, cap as int),
        mag2(r.x as int, r.y as int) <= (cap as int) * (cap as int),
        -cap <= r.x <= cap,
        -cap <= r.y <= cap,
{
    let vx: i128 = v.x as i128;
    let vy: i128 = v.y as i128;
    proof {
        assert(vx * vx >= 0 && vy * vy >= 0 && vx * vx + vy * vy
            <= 2_000_000_000_000_000_000_000_000_000_000int) by (nonlinear_arith)
            requires
                -1_000_000_000_000_000 <= vx <= 1_000_000_000_000_000,
                -1_000_000_000_000_000 <= vy <= 1_000_000_000_000_000,
        ;
        assert((cap as i128) * (cap as i128) <= 1_000_000_000_000int) by (nonlinear_arith)
            requires
                0 < cap <= 1_000_000,
        ;
    }
    let m: i128 = vx * vx + vy * vy;
    let c2: i128 = (cap as i128) * (cap as i128);
    proof {
        lemma_limit_within_cap(v.x as int, v.y as int, cap as int);
        lemma_limit_components(v.x as int, v.y as int, cap as int);
    }
    if m > c2 {
        proof {
            lemma_sqrt_up_props(m as int);
        }
        let lu: u128 = isqrt_up(m as u128);
        let ghost li = sqrt_up(m as int);
        proof {
            assert(1 <= li && li <= 2_000_000_000_000_000int) by (nonlinear_arith)
                requires
                    li >= 1,
                    (li - 1) * (li - 1) < m as int,
                    m as int <= 2_000_000_000_000_000_000_000_000_000_000int,
            ;
        }
        let l: i128 = lu as i128;
        proof {
            assert(-1_000_000_000_000_000_000_000int <= vx * (cap as i128)
                <= 1_000_000_000_000_000_000_000int && -1_000_000_000_000_000_000_000int <= vy * (
            cap as i128) <= 1_000_000_000_000_000_000_000int) by (nonlinear_arith)
                requires
                    -1_000_000_000_000_000 <= vx <= 1_000_000_000_000_000,
                    -1_000_000_000_000_000 <= vy <= 1_000_000_000_000_000,
                    0 < cap <= 1_000_000,
        ;
        }
        let qx: i128 = div_trunc128(vx * (cap as i128), l);
        let qy: i128 = div_trunc128(vy * (cap as i128), l);
        Vec2 { x: qx as i64, y: qy as i64 }
    } else {
        v
    }
}

/// One full motion update for one agent: combine the four steering rules
/// into an acceleration, cap the resulting velocity at `max_speed`, and
/// move the position by the new velocity. Pure: the result is a function
/// of the arguments alone, and the input agent is never changed.
pub fn flock(boid: &Boid, neighbours: &Vec<Boid>, width: i64, height: i64, config: &FlockConfig) -> (r: Boid)
    requires
        valid_boid(*boid),
        valid_neighbours(neighbours@),
        0 <= width <= COORD_LIMIT,
        0 <= height <= COORD_LIMIT,
        valid_flock_config(*config),
    ensures
        r == flock_boid_spec(*boid, neighbours@, width as int, height as int, *config),
        mag2(r.velocity.x as int, r.velocity.y as int) <= config.max_speed * config.max_speed,
        -config.max_speed <= r.velocity.x <= config.max_speed,
        -config.max_speed <= r.velocity.y <= config.max_speed,
        -COORD_LIMIT - config.max_speed <= r.position.x <= COORD_LIMIT + config.max_speed,
        -COORD_LIMIT - config.max_speed <= r.position.y <= COORD_LIMIT + config.max_speed,
        r.color == boid.color,
{
    let alignment = align(neighbours, config.max_steer_force);
    let separation = separate(boid, neighbours, config.desired_separation);
    let cohesion = cohede(boid, neighbours, config.max_steer_force);
    let avoidance = avoid_walls(boid.position, width, height, config.wall_weight);
    let vx: i64 = boid.velocity.x + alignment.x + separation.x + cohesion.x + avoidance.x;
    let vy: i64 = boid.velocity.y + alignment.y + separation.y + cohesion.y + avoidance.y;
    let limited = limit_magnitude(Vec2 { x: vx, y: vy }, config.max_speed);
    let px: i64 = boid.position.x + limited.x;
    let py: i64 = boid.position.y + limited.y;
    Boid { position: Vec2 { x: px, y: py }, velocity: limited, color: boid.color }
}

/// With no neighbours, alignment, separation and cohesion contribute
/// exactly nothing: the new velocity is the old one plus wall avoidance
/// alone (capped), and only that moves the agent.
pub proof fn lemma_empty_neighbours_wall_only(b: Boid, width: int, height: int, c: FlockConfig)
    ensures
        align_spec(Seq::<Boid>::empty(), c.max_steer_force as int) == (0int, 0int),
        separate_spec(b, Seq::<Boid>::empty(), c.desired_separation as int) == (0int, 0int),
        cohede_spec(b, Seq::<Boid>::empty(), c.max_steer_force as int) == (0int, 0int),
        new_velocity_spec(b, Seq::<Boid>::empty(), width, height, c) == ({
            let aw = avoid_walls_spec(
                b.position.x as int,
                b.position.y as int,
                width,
                height,
                c.wall_weight as int,
            );
            limit_spec(b.velocity.x + aw.0, b.velocity.y + aw.1, c.max_speed as int)
        }),
{
}

/// The velocity coming out of the update never exceeds `max_speed` in
/// magnitude, whatever the agent and neighbours.
pub proof fn lemma_velocity_capped(b: Boid, s: Seq<Boid>, width: int, height: int, c: FlockConfig)
    requires
        c.max_speed > 0,
    ensures
        mag2(
            new_velocity_spec(b, s, width, height, c).0,
            new_velocity_spec(b, s, width, height, c).1,
        ) <= c.max_speed * c.max_speed,
{
    let aw = avoid_walls_spec(b.position.x as int, b.position.y as int, width, height, c.wall_weight as int);
    let al = align_spec(s, c.max_steer_force as int);
    let sp = separate_spec(b, s, c.desired_separation as int);
    let ch = cohede_spec(b, s, c.max_steer_force as int);
    lemma_limit_within_cap(
        b.velocity.x + al.0 + sp.0 + ch.0 + aw.0,
        b.velocity.y + al.1 + sp.1 + ch.1 + aw.1,
        c.max_speed as int,
    );
}

/// Two neighbours at mirror-image offsets from the current agent push it
/// apart equally hard in opposite directions: their separation terms
/// cancel exactly.
pub proof fn lemma_separation_symmetry(cur: Boid, a: Boid, b: Boid, desired_separation: int)
    requires
        a.position.x - cur.position.x == -(b.position.x - cur.position.x),
        a.position.y - cur.position.y == -(b.position.y - cur.position.y),
    ensures
        sep_term_spec(cur, a, desired_separation).0 + sep_term_spec(cur, b, desired_separation).0
            == 0,
        sep_term_spec(cur, a, desired_separation).1 + sep_term_spec(cur, b, desired_separation).1
            == 0,
{
    let dxa = cur.position.x - a.position.x;
    let dya = cur.position.y - a.position.y;
    let dxb = cur.position.x - b.position.x;
    let dyb = cur.position.y - b.position.y;
    assert(dxa == -dxb && dya == -dyb);
    assert(dxa * dxa == dxb * dxb && dya * dya == dyb * dyb) by (nonlinear_arith)
        requires
            dxa == -dxb,
            dya == -dyb,
    ;
    let d2 = dxa * dxa + dya * dya;
    if !(d2 == 0 || d2 > desired_separation) {
        let l = sqrt_up(d2);
        assert(dxa * SCALE * SCALE * SCALE == -(dxb * SCALE * SCALE * SCALE) && dya * SCALE * SCALE
            * SCALE == -(dyb * SCALE * SCALE * SCALE)) by (nonlinear_arith)
            requires
                dxa == -dxb,
                dya == -dyb,
        ;
        if l * d2 > 0 {
            lemma_trunc_div_neg(dxb * SCALE * SCALE * SCALE, l * d2);
            lemma_trunc_div_neg(dyb * SCALE * SCALE * SCALE, l * d2);
        } else {
            lemma_sqrt_up_props(d2);
            assert(l * d2 >= 1) by (nonlinear_arith)
                requires
                    l >= 1,
                    d2 >= 1,
            ;
        }
    }
}

/// The update and its helpers are pure functions: contracts pin every
/// result as a function of the inputs, so identical inputs give identical
/// agents, bit for bit.
pub proof fn lemma_flock_deterministic(
    r1: Boid,
    r2: Boid,
    b: Boid,
    s: Seq<Boid>,
    width: int,
    height: int,
    c: FlockConfig,
)
    requires
        r1 == flock_boid_spec(b, s, width, height, c),
        r2 == flock_boid_spec(b, s, width, height, c),
    ensures
        r1 == r2,
{
}

} // verus!
