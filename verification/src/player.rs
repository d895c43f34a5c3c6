//! Player kinematics and wall resolution.
//!
//! Each tick the resolver receives the cursor geometry (as an exact direction
//! and a normalized magnitude), the elapsed time, the active upgrades and the
//! set of wall centers.  It computes the desired displacement, casts a probe
//! segment from the bee's nose along that displacement against every wall
//! edge, and if the probe hits, axis-locks the offending displacement
//! component so that the bee's leading corner just touches the wall while the
//! other component advances freely (the "slide").

use crate::collision::{
    divisor, rect_to_lines, spec_intersect, spec_overlap, CollisionRect, ParaLine, Vec2, SEG_LIMIT,
    VEL_LIMIT, WORLD_LIMIT,
};
use crate::frac::{
    div_trunc_i128, frac_lt, lemma_mul_bound, lemma_mul_pos, lemma_trunc_div_bound,
    lemma_trunc_div_zero, trunc_div, Frac, FRAC_LIMIT,
};
use crate::world::{HALF_TILE, TILE_SIZE};
use vstd::prelude::*;

verus! {

/// Side length of the bee's square collision box, in world units.
pub const PLAYER_SIZE: i64 = 24;

/// Base speed of the bee in world units per second.
pub const BASE_SPEED: i64 = 500;

/// Ticks measure elapsed time in microseconds.
pub const MICROS_PER_SECOND: i64 = 1_000_000;

/// Bound on the denominators of the exact fractions fed to the kinematics
/// (direction cosines and the normalized cursor magnitude).
pub const DEN_LIMIT: i64 = 1_000_000_000;

/// Bound on the elapsed time of a single tick (1000 seconds).
pub const DT_LIMIT: u64 = 1_000_000_000;

/// Marker for the player-controlled bee.
#[derive(Clone, Copy, PartialEq, Eq, Structural, Debug)]
pub struct Player;

/// The two upgrades that affect the core: `shrink` halves the bee's collision
/// extent, `double_speed` doubles its base speed.
#[derive(Clone, Copy, PartialEq, Eq, Structural, Debug)]
pub struct Upgrades {
    pub shrink: bool,
    pub double_speed: bool,
}

/// A facing direction given by its exact cosine and sine.  The game derives
/// it from the cursor's position relative to the window center.
#[derive(Clone, Copy, PartialEq, Eq, Structural, Debug)]
pub struct Dir {
    pub cos: Frac,
    pub sin: Frac,
}

/// One component of a direction: a fraction in `[-1, 1]` with a positive,
/// bounded denominator.
pub open spec fn unit_component(f: Frac) -> bool {
    &&& 0 < f.den <= DEN_LIMIT
    &&& -f.den <= f.num <= f.den
}

/// The normalized cursor magnitude: a fraction in `[0, 1]` with a positive,
/// bounded denominator.
pub open spec fn unit_scale(f: Frac) -> bool {
    &&& 0 < f.den <= DEN_LIMIT
    &&& 0 <= f.num <= f.den
}

impl Dir {
    pub open spec fn wf(self) -> bool {
        &&& unit_component(self.cos)
        &&& unit_component(self.sin)
    }
}

/// Effective collision half-extent of the bee: half its size, halved again
/// while the shrink upgrade is active.
pub open spec fn spec_half_extent(shrink: bool) -> int {
    if shrink {
        PLAYER_SIZE / 4
    } else {
        PLAYER_SIZE / 2
    }
}

pub fn half_extent(upgrades: &Upgrades) -> (h: i64)
    ensures
        h == spec_half_extent(upgrades.shrink),
        1 <= h <= HALF_TILE,
{
    if upgrades.shrink {
        6
    } else {
        12
    }
}

/// The shrink upgrade halves the distance from the bee's center to each face
/// of its collision box, so walls reject motion at half the distance.
pub proof fn lemma_shrink_halves_extent()
    ensures
        spec_half_extent(true) == spec_half_extent(false) / 2,
{
}

/// One component of the desired per-tick displacement:
/// `dir_component * scale01 * BASE_SPEED * dt`, with seconds written as
/// `dt_us / MICROS_PER_SECOND`, truncated toward zero to whole world units,
/// then doubled if the double-speed upgrade is active.
pub open spec fn spec_axis_velocity(c: Frac, scale01: Frac, dt_us: u64, double: bool) -> int {
    let base: int = trunc_div(
        c.num * scale01.num * BASE_SPEED * dt_us,
        c.den * scale01.den * MICROS_PER_SECOND,
    );
    if double {
        2 * base
    } else {
        base
    }
}

/// The desired per-tick displacement vector.
pub open spec fn spec_desired_velocity(dir: Dir, scale01: Frac, dt_us: u64, double: bool) -> Vec2 {
    Vec2 {
        x: spec_axis_velocity(dir.cos, scale01, dt_us, double) as i64,
        y: spec_axis_velocity(dir.sin, scale01, dt_us, double) as i64,
    }
}

/// The undoubled displacement component never exceeds
/// `BASE_SPEED * DT_LIMIT / MICROS_PER_SECOND` in absolute value.
pub proof fn lemma_axis_velocity_bounds(c: Frac, scale01: Frac, dt_us: u64)
    requires
        unit_component(c),
        unit_scale(scale01),
        dt_us <= DT_LIMIT,
    ensures
        -500_000 <= spec_axis_velocity(c, scale01, dt_us, false) <= 500_000,
        -VEL_LIMIT <= spec_axis_velocity(c, scale01, dt_us, true) <= VEL_LIMIT,
{
    let p1: int = c.num * scale01.num;
    let q1: int = c.den * scale01.den;
    let n: int = c.num * scale01.num * BASE_SPEED * dt_us;
    let den: int = c.den * scale01.den * MICROS_PER_SECOND;
    lemma_mul_bound(c.num as int, scale01.num as int, c.den as int, scale01.den as int);
    lemma_mul_pos(c.den as int, scale01.den as int);
    lemma_mul_pos(q1, MICROS_PER_SECOND as int);
    lemma_mul_bound(p1, BASE_SPEED as int, q1, BASE_SPEED as int);
    lemma_mul_bound(p1 * BASE_SPEED, dt_us as int, q1 * BASE_SPEED, dt_us as int);
    assert((q1 * BASE_SPEED) * (dt_us as int) <= 500_000 * den && -(500_000 * den) <= -((q1
        * BASE_SPEED) * (dt_us as int))) by (nonlinear_arith)
        requires
            q1 > 0,
            0 <= dt_us <= 1_000_000_000,
            den == q1 * 1_000_000,
            BASE_SPEED == 500,
    ;
    lemma_trunc_div_bound(n, den, 500_000);
}

/// A zero cursor magnitude gives a zero displacement component.
pub proof fn lemma_axis_velocity_zero(c: Frac, scale01: Frac, dt_us: u64, double: bool)
    requires
        c.den > 0,
        scale01.den > 0,
        scale01.num == 0,
    ensures
        spec_axis_velocity(c, scale01, dt_us, double) == 0,
{
    assert(c.num * scale01.num * BASE_SPEED * dt_us == 0) by (nonlinear_arith)
        requires
            scale01.num == 0,
    ;
    lemma_mul_pos(c.den as int, scale01.den as int);
    lemma_mul_pos(c.den * scale01.den, MICROS_PER_SECOND as int);
    lemma_trunc_div_zero(c.den * scale01.den * MICROS_PER_SECOND);
}

/// With identical cursor geometry and elapsed time, the double-speed upgrade
/// yields exactly twice the displacement on each axis.
pub proof fn lemma_double_speed(dir: Dir, scale01: Frac, dt_us: u64)
    requires
        dir.wf(),
        unit_scale(scale01),
        dt_us <= DT_LIMIT,
    ensures
        spec_desired_velocity(dir, scale01, dt_us, true).x == 2 * spec_desired_velocity(
            dir,
            scale01,
            dt_us,
            false,
        ).x,
        spec_desired_velocity(dir, scale01, dt_us, true).y == 2 * spec_desired_velocity(
            dir,
            scale01,
            dt_us,
            false,
        ).y,
{
    lemma_axis_velocity_bounds(dir.cos, scale01, dt_us);
    lemma_axis_velocity_bounds(dir.sin, scale01, dt_us);
}

/// One displacement component, computed exactly.
fn axis_velocity(c: &Frac, scale01: &Frac, dt_us: u64, double: bool) -> (r: i64)
    requires
        unit_component(*c),
        unit_scale(*scale01),
        dt_us <= DT_LIMIT,
    ensures
        r == spec_axis_velocity(*c, *scale01, dt_us, double),
        -VEL_LIMIT <= r <= VEL_LIMIT,
{
    proof {
        lemma_mul_bound(c.num as int, scale01.num as int, DEN_LIMIT as int, DEN_LIMIT as int);
    }
    let p1: i128 = c.num * scale01.num;
    proof {
        lemma_mul_bound(p1 as int, BASE_SPEED as int, 1_000_000_000_000_000_000, 500);
    }
    let p2: i128 = p1 * (BASE_SPEED as i128);
    proof {
        lemma_mul_bound(p2 as int, dt_us as int, 500_000_000_000_000_000_000, 1_000_000_000);
    }
    let n: i128 = p2 * (dt_us as i128);
    proof {
        lemma_mul_bound(c.den as int, scale01.den as int, DEN_LIMIT as int, DEN_LIMIT as int);
        lemma_mul_pos(c.den as int, scale01.den as int);
    }
    let q1: i128 = c.den * scale01.den;
    proof {
        lemma_mul_bound(q1 as int, MICROS_PER_SECOND as int, 1_000_000_000_000_000_000, 1_000_000);
        lemma_mul_pos(q1 as int, MICROS_PER_SECOND as int);
    }
    let den: i128 = q1 * (MICROS_PER_SECOND as i128);
    proof {
        lemma_axis_velocity_bounds(*c, *scale01, dt_us);
        lemma_mul_bound(c.num as int, scale01.num as int, c.den as int, scale01.den as int);
        lemma_mul_bound(p1 as int, BASE_SPEED as int, q1 as int, BASE_SPEED as int);
        lemma_mul_bound(p2 as int, dt_us as int, q1 * BASE_SPEED, dt_us as int);
        assert((q1 * BASE_SPEED) * (dt_us as int) <= 500_000 * (den as int) && -(500_000 * (
        den as int)) <= -((q1 * BASE_SPEED) * (dt_us as int))) by (nonlinear_arith)
            requires
                q1 > 0,
                0 <= dt_us <= 1_000_000_000,
                den == q1 * 1_000_000,
                BASE_SPEED == 500,
        ;
        lemma_trunc_div_bound(n as int, den as int, 500_000);
    }
    let base: i128 = div_trunc_i128(n, den);
    let base64: i64 = base as i64;
    if double {
        2 * base64
    } else {
        base64
    }
}

/// The desired per-tick displacement, from the cursor direction, the
/// normalized cursor magnitude, the elapsed microseconds and the upgrades.
pub fn desired_velocity(dir: &Dir, scale01: &Frac, dt_us: u64, upgrades: &Upgrades) -> (v: Vec2)
    requires
        dir.wf(),
        unit_scale(*scale01),
        dt_us <= DT_LIMIT,
    ensures
        v == spec_desired_velocity(*dir, *scale01, dt_us, upgrades.double_speed),
        v.within(VEL_LIMIT as int),
        scale01.num == 0 ==> v == (Vec2 { x: 0, y: 0 }),
{
    let x: i64 = axis_velocity(&dir.cos, scale01, dt_us, upgrades.double_speed);
    let y: i64 = axis_velocity(&dir.sin, scale01, dt_us, upgrades.double_speed);
    proof {
        if scale01.num == 0 {
            lemma_axis_velocity_zero(dir.cos, *scale01, dt_us, upgrades.double_speed);
            lemma_axis_velocity_zero(dir.sin, *scale01, dt_us, upgrades.double_speed);
        }
    }
    Vec2 { x, y }
}

/// One of the four edges of the wall tile centered at `c`, in collision
/// iteration order: top, left, right, bottom.
pub open spec fn spec_tile_line(c: Vec2, k: int) -> ParaLine {
    let tlx: i64 = (c.x - HALF_TILE) as i64;
    let tly: i64 = (c.y - HALF_TILE) as i64;
    if k == 0 {
        ParaLine { p: Vec2 { x: tlx, y: tly }, v: Vec2 { x: TILE_SIZE, y: 0 } }
    } else if k == 1 {
        ParaLine { p: Vec2 { x: tlx, y: tly }, v: Vec2 { x: 0, y: TILE_SIZE } }
    } else if k == 2 {
        ParaLine {
            p: Vec2 { x: (tlx + TILE_SIZE) as i64, y: tly },
            v: Vec2 { x: 0, y: TILE_SIZE },
        }
    } else {
        ParaLine {
            p: Vec2 { x: tlx, y: (tly + TILE_SIZE) as i64 },
            v: Vec2 { x: TILE_SIZE, y: 0 },
        }
    }
}

/// The probe segment: from the bee's nose (its center pushed `h` units along
/// the facing direction) to where the nose is about to go.
pub open spec fn spec_probe(pos: Vec2, dir: Dir, vel: Vec2, h: i64) -> ParaLine {
    ParaLine {
        p: Vec2 {
            x: (pos.x + trunc_div(h * dir.cos.num, dir.cos.den as int)) as i64,
            y: (pos.y + trunc_div(h * dir.sin.num, dir.sin.den as int)) as i64,
        },
        v: vel,
    }
}

/// Keep the earlier of two hits; on an exact tie the incumbent wins, so the
/// first hit in iteration order is kept.
pub open spec fn spec_consider(
    best: Option<(Frac, ParaLine)>,
    t: Frac,
    line: ParaLine,
) -> Option<(Frac, ParaLine)> {
    match best {
        Option::None => Option::Some((t, line)),
        Option::Some(hd) => if frac_lt(t.num as int, t.den as int, hd.0.num as int, hd.0.den as int) {
            Option::Some((t, line))
        } else {
            Option::Some(hd)
        },
    }
}

/// Fold one candidate edge into the running earliest hit.
pub open spec fn spec_line_hit(
    probe: ParaLine,
    best: Option<(Frac, ParaLine)>,
    line: ParaLine,
) -> Option<(Frac, ParaLine)> {
    match spec_intersect(probe, line) {
        Option::Some(t) => spec_consider(best, t, line),
        Option::None => best,
    }
}

/// Fold the four edges of one wall into the running earliest hit.
pub open spec fn spec_wall_hit(
    probe: ParaLine,
    best: Option<(Frac, ParaLine)>,
    c: Vec2,
) -> Option<(Frac, ParaLine)> {
    spec_line_hit(
        probe,
        spec_line_hit(
            probe,
            spec_line_hit(probe, spec_line_hit(probe, best, spec_tile_line(c, 0)), spec_tile_line(c, 1)),
            spec_tile_line(c, 2),
        ),
        spec_tile_line(c, 3),
    )
}

/// Fold every wall, in order, into the running earliest hit.
pub open spec fn spec_scan_walls(
    probe: ParaLine,
    walls: Seq<Vec2>,
    best: Option<(Frac, ParaLine)>,
) -> Option<(Frac, ParaLine)>
    decreases walls.len(),
{
    if walls.len() <= 0 {
        best
    } else {
        spec_scan_walls(probe, walls.skip(1), spec_wall_hit(probe, best, walls[0]))
    }
}

/// The earliest hit of the probe against any wall edge, if any.
pub open spec fn spec_best_hit(probe: ParaLine, walls: Seq<Vec2>) -> Option<(Frac, ParaLine)> {
    spec_scan_walls(probe, walls, Option::None)
}

/// A probe that does not move hits nothing: its direction is zero, so every
/// intersection divisor is zero.
pub proof fn lemma_stationary_no_hit(
    probe: ParaLine,
    walls: Seq<Vec2>,
    best: Option<(Frac, ParaLine)>,
)
    requires
        probe.v.x == 0,
        probe.v.y == 0,
    ensures
        spec_scan_walls(probe, walls, best) == best,
    decreases walls.len(),
{
    if walls.len() > 0 {
        assert(spec_wall_hit(probe, best, walls[0]) == best);
        lemma_stationary_no_hit(probe, walls.skip(1), best);
    }
}

/// Which corner of the bee's box leads into the wall: `+1` selects the
/// corner offset `+h` along the body's x basis, `-1` the opposite corner.
/// The base choice depends on the displacement quadrant and is flipped for a
/// vertical edge.
pub open spec fn spec_leading_corner_sign(vel: Vec2, vert: bool) -> int {
    let base: bool = (vel.x >= 0) != (vel.y >= 0);
    let flipped: bool = if vert {
        !base
    } else {
        base
    };
    if flipped {
        1
    } else {
        -1
    }
}

/// X coordinate of the leading corner: the body's basis is the facing
/// direction rotated by a quarter turn, so the offset is
/// `e*h*sin + h*cos` on this axis.
pub open spec fn spec_corner_x(pos: Vec2, dir: Dir, h: i64, e: int) -> int {
    pos.x + trunc_div(
        h * (e * dir.sin.num * dir.cos.den + dir.cos.num * dir.sin.den),
        dir.sin.den * dir.cos.den,
    )
}

/// Y coordinate of the leading corner: offset `-e*h*cos + h*sin`.
pub open spec fn spec_corner_y(pos: Vec2, dir: Dir, h: i64, e: int) -> int {
    pos.y + trunc_div(
        h * (-e * dir.cos.num * dir.sin.den + dir.sin.num * dir.cos.den),
        dir.sin.den * dir.cos.den,
    )
}

/// The resolved position after one tick: the full displacement when nothing
/// is hit; otherwise the component into the earliest-hit edge is replaced so
/// that the leading corner lands exactly on that edge's anchor axis, while
/// the other component advances unchanged.
pub open spec fn spec_resolve(pos: Vec2, dir: Dir, vel: Vec2, h: i64, walls: Seq<Vec2>) -> Vec2 {
    match spec_best_hit(spec_probe(pos, dir, vel, h), walls) {
        Option::None => Vec2 { x: (pos.x + vel.x) as i64, y: (pos.y + vel.y) as i64 },
        Option::Some(hd) => {
            let line: ParaLine = hd.1;
            let vert: bool = line.v.x == 0;
            let e: int = spec_leading_corner_sign(vel, vert);
            if vert {
                Vec2 {
                    x: (pos.x + (line.p.x - spec_corner_x(pos, dir, h, e))) as i64,
                    y: (pos.y + vel.y) as i64,
                }
            } else {
                Vec2 {
                    x: (pos.x + vel.x) as i64,
                    y: (pos.y + (line.p.y - spec_corner_y(pos, dir, h, e))) as i64,
                }
            }
        },
    }
}

/// An edge produced by decomposing a wall tile: anchored near the world band
/// and running exactly one tile along one axis.
pub open spec fn tile_edge(line: ParaLine) -> bool {
    &&& line.p.within(WORLD_LIMIT + TILE_SIZE + HALF_TILE)
    &&& ((line.v.x == 0 && line.v.y == TILE_SIZE) || (line.v.y == 0 && line.v.x == TILE_SIZE))
}

/// Invariant carried by the running earliest hit.
pub open spec fn hit_ok(best: Option<(Frac, ParaLine)>) -> bool {
    match best {
        Option::None => true,
        Option::Some(hd) => {
            &&& hd.0.bounded(FRAC_LIMIT as int)
            &&& 0 <= hd.0.num <= hd.0.den
            &&& tile_edge(hd.1)
        },
    }
}

/// Merge one candidate edge into the running earliest hit.
fn consider_line(probe: &ParaLine, best: Option<(Frac, ParaLine)>, line: ParaLine) -> (r: Option<
    (Frac, ParaLine),
>)
    requires
        probe.wf(),
        line.wf(),
        tile_edge(line),
        hit_ok(best),
    ensures
        r == spec_line_hit(*probe, best, line),
        hit_ok(r),
{
    let hit: Option<Frac> = probe.intersect(&line);
    match hit {
        Option::None => best,
        Option::Some(t) => match best {
            Option::None => Option::Some((t, line)),
            Option::Some(hd) => if t.lt(&hd.0) {
                Option::Some((t, line))
            } else {
                Option::Some(hd)
            },
        },
    }
}

/// Merge the four edges of the wall centered at `c` into the running
/// earliest hit, in the order top, left, right, bottom.
fn check_wall(probe: &ParaLine, best: Option<(Frac, ParaLine)>, c: Vec2) -> (r: Option<
    (Frac, ParaLine),
>)
    requires
        probe.wf(),
        c.within(WORLD_LIMIT as int),
        hit_ok(best),
    ensures
        r == spec_wall_hit(*probe, best, c),
        hit_ok(r),
{
    let top_left: Vec2 = Vec2 { x: c.x - HALF_TILE, y: c.y - HALF_TILE };
    let lines: [ParaLine; 4] = rect_to_lines(top_left, Vec2 { x: TILE_SIZE, y: TILE_SIZE });
    proof {
        assert(lines@[0] == spec_tile_line(c, 0));
        assert(lines@[1] == spec_tile_line(c, 1));
        assert(lines@[2] == spec_tile_line(c, 2));
        assert(lines@[3] == spec_tile_line(c, 3));
    }
    let r0: Option<(Frac, ParaLine)> = consider_line(probe, best, lines[0]);
    let r1: Option<(Frac, ParaLine)> = consider_line(probe, r0, lines[1]);
    let r2: Option<(Frac, ParaLine)> = consider_line(probe, r1, lines[2]);
    consider_line(probe, r2, lines[3])
}

/// The truncated corner offset `trunc_div(h*(a*b' + c*d'), b'*d')` stays
/// within `2*h` when `|a| <= b` and `|c| <= d`.
proof fn lemma_corner_offset_bound(a: int, b: int, c: int, d: int, h: int)
    requires
        0 < b <= DEN_LIMIT,
        0 < d <= DEN_LIMIT,
        -b <= a <= b,
        -d <= c <= d,
        1 <= h <= HALF_TILE,
    ensures
        -(2 * h) <= trunc_div(h * (a * d + c * b), b * d) <= 2 * h,
        -(25_000_000_000_000_000_000) <= h * (a * d + c * b) <= 25_000_000_000_000_000_000,
        0 < b * d <= 1_000_000_000_000_000_000,
        -(1_000_000_000_000_000_000) <= a * d <= 1_000_000_000_000_000_000,
        -(1_000_000_000_000_000_000) <= c * b <= 1_000_000_000_000_000_000,
{
    lemma_mul_pos(b, d);
    lemma_mul_bound(a, d, b, d);
    lemma_mul_bound(c, b, d, b);
    assert(d * b == b * d) by (nonlinear_arith);
    lemma_mul_bound(h, a * d + c * b, h, 2 * (b * d));
    assert(h * (2 * (b * d)) == (2 * h) * (b * d)) by (nonlinear_arith);
    lemma_trunc_div_bound(h * (a * d + c * b), b * d, 2 * h);
    lemma_mul_bound(a, d, DEN_LIMIT as int, DEN_LIMIT as int);
    lemma_mul_bound(c, b, DEN_LIMIT as int, DEN_LIMIT as int);
    lemma_mul_bound(h, a * d + c * b, 12, 2_000_000_000_000_000_000);
    lemma_mul_bound(b, d, DEN_LIMIT as int, DEN_LIMIT as int);
}

/// Cast the per-tick displacement against every wall and resolve the
/// earliest collision, if any: the component into the hit edge is replaced
/// so the bee's leading corner just touches the edge; the other component
/// (and both components, when nothing is hit) advance unchanged.
pub fn resolve_movement(pos: Vec2, dir: &Dir, vel: Vec2, h: i64, walls: &Vec<Vec2>) -> (new_pos:
    Vec2)
    requires
        pos.within(WORLD_LIMIT as int),
        vel.within(VEL_LIMIT as int),
        dir.wf(),
        1 <= h <= HALF_TILE,
        forall|k: int| 0 <= k < walls@.len() ==> walls@[k].within(WORLD_LIMIT as int),
    ensures
        new_pos == spec_resolve(pos, *dir, vel, h, walls@),
        vel.x == 0 && vel.y == 0 ==> new_pos == pos,
        walls@.len() == 0 ==> new_pos.x == pos.x + vel.x && new_pos.y == pos.y + vel.y,
        spec_best_hit(spec_probe(pos, *dir, vel, h), walls@) is None ==> new_pos.x == pos.x
            + vel.x && new_pos.y == pos.y + vel.y,
        (spec_best_hit(spec_probe(pos, *dir, vel, h), walls@) matches Some(hd) && hd.1.v.x == 0)
            ==> new_pos.y == pos.y + vel.y,
        (spec_best_hit(spec_probe(pos, *dir, vel, h), walls@) matches Some(hd) && hd.1.v.x != 0)
            ==> new_pos.x == pos.x + vel.x,
{
    proof {
        lemma_mul_bound(h as int, dir.cos.num as int, h as int, dir.cos.den as int);
        lemma_mul_bound(h as int, dir.sin.num as int, h as int, dir.sin.den as int);
        lemma_mul_bound(h as int, dir.cos.num as int, 12, DEN_LIMIT as int);
        lemma_mul_bound(h as int, dir.sin.num as int, 12, DEN_LIMIT as int);
        lemma_trunc_div_bound(h * dir.cos.num, dir.cos.den as int, h as int);
        lemma_trunc_div_bound(h * dir.sin.num, dir.sin.den as int, h as int);
    }
    let off_x: i128 = div_trunc_i128((h as i128) * dir.cos.num, dir.cos.den);
    let off_y: i128 = div_trunc_i128((h as i128) * dir.sin.num, dir.sin.den);
    let probe: ParaLine = ParaLine {
        p: Vec2 { x: pos.x + (off_x as i64), y: pos.y + (off_y as i64) },
        v: vel,
    };
    proof {
        assert(probe == spec_probe(pos, *dir, vel, h));
        if vel.x == 0 && vel.y == 0 {
            lemma_stationary_no_hit(probe, walls@, Option::None);
        }
    }
    let ghost all_walls: Seq<Vec2> = walls@;
    let mut best: Option<(Frac, ParaLine)> = Option::None;
    let mut w: usize = 0;
    proof {
        assert(walls@.skip(0) =~= walls@);
    }
    while w < walls.len()
        invariant
            0 <= w <= walls@.len(),
            walls@ == all_walls,
            probe.wf(),
            probe == spec_probe(pos, *dir, vel, h),
            hit_ok(best),
            forall|k: int| 0 <= k < walls@.len() ==> walls@[k].within(WORLD_LIMIT as int),
            spec_scan_walls(probe, walls@.skip(w as int), best) == spec_best_hit(probe, walls@),
        decreases walls@.len() - w,
    {
        let c: Vec2 = walls[w];
        proof {
            assert(walls@.skip(w as int)[0] == walls@[w as int]);
            assert(walls@.skip(w as int).skip(1) =~= walls@.skip(w as int + 1));
        }
        best = check_wall(&probe, best, c);
        w = w + 1;
    }
    proof {
        assert(walls@.skip(walls@.len() as int).len() == 0);
        assert(best == spec_best_hit(probe, walls@));
    }
    match best {
        Option::None => Vec2 { x: pos.x + vel.x, y: pos.y + vel.y },
        Option::Some(hd) => {
            let line: ParaLine = hd.1;
            let vert: bool = line.v.x == 0;
            let base_corner: bool = (vel.x >= 0) != (vel.y >= 0);
            let flipped: bool = if vert {
                !base_corner
            } else {
                base_corner
            };
            let ghost e: int = spec_leading_corner_sign(vel, vert);
            proof {
                lemma_mul_bound(
                    dir.sin.den as int,
                    dir.cos.den as int,
                    DEN_LIMIT as int,
                    DEN_LIMIT as int,
                );
            }
            let den: i128 = dir.sin.den * dir.cos.den;
            if vert {
                // The edge runs along y: clamp x, let y advance freely.
                let signed_sin: i128 = if flipped {
                    dir.sin.num
                } else {
                    -dir.sin.num
                };
                proof {
                    assert(signed_sin == e * dir.sin.num) by (nonlinear_arith)
                        requires
                            (e == 1 && signed_sin == dir.sin.num) || (e == -1 && signed_sin
                                == -dir.sin.num),
                    ;
                    lemma_corner_offset_bound(
                        signed_sin as int,
                        dir.sin.den as int,
                        dir.cos.num as int,
                        dir.cos.den as int,
                        h as int,
                    );
                }
                let num_x: i128 = (h as i128) * (signed_sin * dir.cos.den + dir.cos.num
                    * dir.sin.den);
                let off: i128 = div_trunc_i128(num_x, den);
                let corner_x: i64 = pos.x + (off as i64);
                proof {
                    assert(corner_x == spec_corner_x(pos, *dir, h, e));
                }
                let push_x: i64 = line.p.x - corner_x;
                Vec2 { x: pos.x + push_x, y: pos.y + vel.y }
            } else {
                // The edge runs along x: clamp y, let x advance freely.
                let signed_neg_cos: i128 = if flipped {
                    -dir.cos.num
                } else {
                    dir.cos.num
                };
                proof {
                    assert(signed_neg_cos == -e * dir.cos.num) by (nonlinear_arith)
                        requires
                            (e == 1 && signed_neg_cos == -dir.cos.num) || (e == -1
                                && signed_neg_cos == dir.cos.num),
                    ;
                    lemma_corner_offset_bound(
                        signed_neg_cos as int,
                        dir.cos.den as int,
                        dir.sin.num as int,
                        dir.sin.den as int,
                        h as int,
                    );
                    assert(dir.cos.den * dir.sin.den == dir.sin.den * dir.cos.den)
                        by (nonlinear_arith);
                }
                let num_y: i128 = (h as i128) * (signed_neg_cos * dir.sin.den + dir.sin.num
                    * dir.cos.den);
                let off: i128 = div_trunc_i128(num_y, den);
                let corner_y: i64 = pos.y + (off as i64);
                proof {
                    assert(corner_y == spec_corner_y(pos, *dir, h, e));
                }
                let push_y: i64 = line.p.y - corner_y;
                Vec2 { x: pos.x + vel.x, y: pos.y + push_y }
            }
        },
    }
}

/// One full resolver tick: compute the desired displacement from the cursor
/// geometry, upgrades and elapsed time, then resolve it against the walls.
/// A centered cursor (zero magnitude) moves nothing.
pub fn move_player(
    pos: Vec2,
    dir: &Dir,
    scale01: &Frac,
    dt_us: u64,
    upgrades: &Upgrades,
    walls: &Vec<Vec2>,
) -> (new_pos: Vec2)
    requires
        pos.within(WORLD_LIMIT as int),
        dir.wf(),
        unit_scale(*scale01),
        dt_us <= DT_LIMIT,
        forall|k: int| 0 <= k < walls@.len() ==> walls@[k].within(WORLD_LIMIT as int),
    ensures
        new_pos == spec_resolve(
            pos,
            *dir,
            spec_desired_velocity(*dir, *scale01, dt_us, upgrades.double_speed),
            spec_half_extent(upgrades.shrink) as i64,
            walls@,
        ),
        scale01.num == 0 ==> new_pos == pos,
{
    let vel: Vec2 = desired_velocity(dir, scale01, dt_us, upgrades);
    let h: i64 = half_extent(upgrades);
    resolve_movement(pos, dir, vel, h, walls)
}

/// First enemy whose collision rectangle overlaps the player's, if any; the
/// game reacts to it by raising a player-hit event.
pub fn detect_enemy_collision(player: &CollisionRect, enemies: &Vec<CollisionRect>) -> (r: Option<
    usize,
>)
    requires
        player.wf(),
        forall|k: int| 0 <= k < enemies@.len() ==> enemies@[k].wf(),
    ensures
        match r {
            Option::Some(k) => k < enemies@.len() && spec_overlap(*player, enemies@[k as int])
                && forall|j: int| 0 <= j < k ==> !spec_overlap(*player, enemies@[j]),
            Option::None => forall|j: int|
                0 <= j < enemies@.len() ==> !spec_overlap(*player, enemies@[j]),
        },
{
    let mut k: usize = 0;
    while k < enemies.len()
        invariant
            0 <= k <= enemies@.len(),
            player.wf(),
            forall|j: int| 0 <= j < enemies@.len() ==> enemies@[j].wf(),
            forall|j: int| 0 <= j < k ==> !spec_overlap(*player, enemies@[j]),
        decreases enemies@.len() - k,
    {
        if player.overlaps(&enemies[k]) {
            return Option::Some(k);
        }
        k = k + 1;
    }
    Option::None
}

} // verus!
