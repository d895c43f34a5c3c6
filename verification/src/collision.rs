//! Geometry primitives: 2-D integer vectors, parametric line segments,
//! segment-segment intersection and the decomposition of an axis-aligned
//! rectangle into its four edges.
//!
//! A segment is the locus `p + v * t` for `t` in `[0, 1]`.  Intersection of
//! two segments is computed exactly over the integers; the returned parameter
//! is an exact fraction, so parallel segments are recognized by a divisor of
//! exactly zero and no epsilon tolerance is needed.

use crate::frac::{lemma_mul_bound, Frac, FRAC_LIMIT};
use vstd::prelude::*;

verus! {

/// Bound on any world coordinate the game ever produces (positions of
/// bodies, wall centers).
pub const WORLD_LIMIT: i64 = 1_000_000_000;

/// Bound on a per-tick displacement component.
pub const VEL_LIMIT: i64 = 1_000_000;

/// Bound on the coordinates of a segment handed to `intersect`: two to the
/// thirtieth power, chosen so that all intermediate products of the
/// intersection arithmetic stay within `i128`.
pub const SEG_LIMIT: i64 = 1_073_741_824;

/// A 2-D vector (or point) with integer world-unit coordinates.
#[derive(Clone, Copy, PartialEq, Eq, Structural, Debug)]
pub struct Vec2 {
    pub x: i64,
    pub y: i64,
}

impl Vec2 {
    /// Both coordinates within `m` in absolute value.
    pub open spec fn within(self, m: int) -> bool {
        &&& -m <= self.x <= m
        &&& -m <= self.y <= m
    }

    pub fn new(x: i64, y: i64) -> (r: Vec2)
        ensures
            r.x == x,
            r.y == y,
    {
        Vec2 { x, y }
    }
}

/// A parametric line segment: the locus `p + v * t` for `t` in `[0, 1]`.
#[derive(Clone, Copy, PartialEq, Eq, Structural, Debug)]
pub struct ParaLine {
    pub p: Vec2,
    pub v: Vec2,
}

/// The divisor of the intersection computation: the cross product of the two
/// direction vectors.  Zero exactly when the segments are parallel (or one of
/// them is degenerate).
pub open spec fn divisor(a: ParaLine, b: ParaLine) -> int {
    a.v.x * b.v.y - a.v.y * b.v.x
}

/// Numerator of the first segment's parameter `t1`; the value of `t1` is
/// `t1_num / divisor`.
pub open spec fn t1_num(a: ParaLine, b: ParaLine) -> int {
    b.p.x * b.v.y - a.p.x * b.v.y + a.p.y * b.v.x - b.p.y * a.v.x
}

/// Numerator of the second segment's parameter `t2`, derived from whichever
/// coordinate equation of `b` has a nonzero direction component.
pub open spec fn t2_num(a: ParaLine, b: ParaLine) -> int {
    if b.v.y != 0 {
        a.v.y * t1_num(a, b) + (a.p.y - b.p.y) * divisor(a, b)
    } else if b.v.x != 0 {
        a.v.x * t1_num(a, b) + (a.p.x - b.p.x) * divisor(a, b)
    } else {
        0
    }
}

/// Denominator of the second segment's parameter `t2`.
pub open spec fn t2_den(a: ParaLine, b: ParaLine) -> int {
    if b.v.y != 0 {
        b.v.y * divisor(a, b)
    } else if b.v.x != 0 {
        b.v.x * divisor(a, b)
    } else {
        1
    }
}

/// `0 <= n / d <= 1` for a fraction whose denominator may carry either sign.
pub open spec fn in_unit(n: int, d: int) -> bool {
    if d >= 0 {
        0 <= n <= d
    } else {
        d <= n <= 0
    }
}

/// What `ParaLine::intersect` returns: `Some(t1)` exactly when the divisor is
/// nonzero and both derived parameters lie in `[0, 1]`; the returned fraction
/// is `t1_num / divisor`, normalized to a positive denominator.
pub open spec fn spec_intersect(a: ParaLine, b: ParaLine) -> Option<Frac> {
    let d: int = divisor(a, b);
    if d == 0 {
        None
    } else if !in_unit(t1_num(a, b), d) {
        None
    } else if !in_unit(t2_num(a, b), t2_den(a, b)) {
        None
    } else if d > 0 {
        Some(Frac { num: t1_num(a, b) as i128, den: d as i128 })
    } else {
        Some(Frac { num: (-t1_num(a, b)) as i128, den: (-d) as i128 })
    }
}

impl ParaLine {
    /// All four coordinates small enough for exact intersection arithmetic.
    pub open spec fn wf(self) -> bool {
        &&& self.p.within(SEG_LIMIT as int)
        &&& self.v.within(SEG_LIMIT as int)
    }

    pub fn new(p: Vec2, v: Vec2) -> (r: ParaLine)
        ensures
            r.p == p,
            r.v == v,
    {
        ParaLine { p, v }
    }

    /// The point at parameter `t`, one exact fraction per coordinate.
    pub fn point(&self, t: &Frac) -> (r: (Frac, Frac))
        requires
            self.wf(),
            t.bounded(FRAC_LIMIT as int),
        ensures
            r.0.num == self.p.x * t.den + self.v.x * t.num,
            r.0.den == t.den,
            r.1.num == self.p.y * t.den + self.v.y * t.num,
            r.1.den == t.den,
            r.0.wf(),
            r.1.wf(),
    {
        proof {
            lemma_mul_bound(self.p.x as int, t.den as int, SEG_LIMIT as int, FRAC_LIMIT as int);
            lemma_mul_bound(self.v.x as int, t.num as int, SEG_LIMIT as int, FRAC_LIMIT as int);
            lemma_mul_bound(self.p.y as int, t.den as int, SEG_LIMIT as int, FRAC_LIMIT as int);
            lemma_mul_bound(self.v.y as int, t.num as int, SEG_LIMIT as int, FRAC_LIMIT as int);
        }
        let x: Frac = Frac { num: (self.p.x as i128) * t.den + (self.v.x as i128) * t.num, den: t.den };
        let y: Frac = Frac { num: (self.p.y as i128) * t.den + (self.v.y as i128) * t.num, den: t.den };
        (x, y)
    }

    /// Whether this segment meets `other` at parameters `t1`, `t2` both in
    /// `[0, 1]`; if so, returns `t1` as an exact fraction.
    pub fn intersect(&self, other: &ParaLine) -> (r: Option<Frac>)
        requires
            self.wf(),
            other.wf(),
        ensures
            r == spec_intersect(*self, *other),
            divisor(*self, *other) == 0 ==> r is None,
            !in_unit(t1_num(*self, *other), divisor(*self, *other)) ==> r is None,
            r matches Some(t) ==> t.wf() && t.bounded(FRAC_LIMIT as int) && 0 <= t.num <= t.den,
    {
        intersect_lines(self.p, self.v, other.p, other.v)
    }
}

/// Core of the intersection test on raw points and directions; see
/// `spec_intersect` for the statement.
pub fn intersect_lines(p1: Vec2, v1: Vec2, p2: Vec2, v2: Vec2) -> (r: Option<Frac>)
    requires
        (ParaLine { p: p1, v: v1 }).wf(),
        (ParaLine { p: p2, v: v2 }).wf(),
    ensures
        r == spec_intersect(ParaLine { p: p1, v: v1 }, ParaLine { p: p2, v: v2 }),
        r matches Some(t) ==> t.wf() && t.bounded(FRAC_LIMIT as int) && 0 <= t.num <= t.den,
{
    let ghost a: ParaLine = ParaLine { p: p1, v: v1 };
    let ghost b: ParaLine = ParaLine { p: p2, v: v2 };
    proof {
        lemma_mul_bound(v1.x as int, v2.y as int, SEG_LIMIT as int, SEG_LIMIT as int);
        lemma_mul_bound(v1.y as int, v2.x as int, SEG_LIMIT as int, SEG_LIMIT as int);
    }
    let d: i128 = (v1.x as i128) * (v2.y as i128) - (v1.y as i128) * (v2.x as i128);
    if d == 0 {
        // Parallel (or degenerate) segments never intersect here.
        return None;
    }
    proof {
        lemma_mul_bound(p2.x as int, v2.y as int, SEG_LIMIT as int, SEG_LIMIT as int);
        lemma_mul_bound(p1.x as int, v2.y as int, SEG_LIMIT as int, SEG_LIMIT as int);
        lemma_mul_bound(p1.y as int, v2.x as int, SEG_LIMIT as int, SEG_LIMIT as int);
        lemma_mul_bound(p2.y as int, v1.x as int, SEG_LIMIT as int, SEG_LIMIT as int);
    }
    let n1: i128 = (p2.x as i128) * (v2.y as i128) - (p1.x as i128) * (v2.y as i128)
        + (p1.y as i128) * (v2.x as i128) - (p2.y as i128) * (v1.x as i128);
    let t1_ok: bool = if d > 0 {
        0 <= n1 && n1 <= d
    } else {
        d <= n1 && n1 <= 0
    };
    if !t1_ok {
        return None;
    }
    proof {
        assert(n1 == t1_num(a, b));
        assert(d == divisor(a, b));
        lemma_mul_bound(v1.y as int, n1 as int, SEG_LIMIT as int, 4 * SEG_LIMIT * SEG_LIMIT);
        lemma_mul_bound(v1.x as int, n1 as int, SEG_LIMIT as int, 4 * SEG_LIMIT * SEG_LIMIT);
        lemma_mul_bound(p1.y - p2.y, d as int, 2 * SEG_LIMIT, 2 * SEG_LIMIT * SEG_LIMIT);
        lemma_mul_bound(p1.x - p2.x, d as int, 2 * SEG_LIMIT, 2 * SEG_LIMIT * SEG_LIMIT);
        lemma_mul_bound(v2.y as int, d as int, SEG_LIMIT as int, 2 * SEG_LIMIT * SEG_LIMIT);
        lemma_mul_bound(v2.x as int, d as int, SEG_LIMIT as int, 2 * SEG_LIMIT * SEG_LIMIT);
    }
    let n2: i128;
    let d2: i128;
    if v2.y != 0 {
        n2 = (v1.y as i128) * n1 + ((p1.y as i128) - (p2.y as i128)) * d;
        d2 = (v2.y as i128) * d;
    } else if v2.x != 0 {
        n2 = (v1.x as i128) * n1 + ((p1.x as i128) - (p2.x as i128)) * d;
        d2 = (v2.x as i128) * d;
    } else {
        // Unreachable when d != 0, but mirrors the published algorithm: a
        // degenerate second segment leaves t2 free, so 0 is as good as any.
        n2 = 0;
        d2 = 1;
    }
    let t2_ok: bool = if d2 >= 0 {
        0 <= n2 && n2 <= d2
    } else {
        d2 <= n2 && n2 <= 0
    };
    if !t2_ok {
        return None;
    }
    if d > 0 {
        Some(Frac { num: n1, den: d })
    } else {
        Some(Frac { num: -n1, den: -d })
    }
}

/// Numerator of the parameter at which the carrier line of `a` crosses the
/// carrier line of `b`: the crossing sits at parameter
/// `meet_t1_num / divisor` on `a`.
pub open spec fn meet_t1_num(a: ParaLine, b: ParaLine) -> int {
    (b.p.x - a.p.x) * b.v.y - (b.p.y - a.p.y) * b.v.x
}

/// Numerator of the crossing parameter on `b`: the crossing sits at
/// `meet_t2_num / divisor` on `b`.
pub open spec fn meet_t2_num(a: ParaLine, b: ParaLine) -> int {
    (b.p.x - a.p.x) * a.v.y - (b.p.y - a.p.y) * a.v.x
}

/// Swapping the segments negates the divisor.
pub proof fn lemma_divisor_antisymmetric(a: ParaLine, b: ParaLine)
    ensures
        divisor(b, a) == -divisor(a, b),
{
    assert(b.v.x * a.v.y - b.v.y * a.v.x == -(a.v.x * b.v.y - a.v.y * b.v.x))
        by (nonlinear_arith);
}

/// Ring identity behind the crossing point, x coordinate: with
/// `aa = b.p.x - a.p.x` and `bb = b.p.y - a.p.y`, the difference of the two
/// sides reduces to a multiple of the divisor.
proof fn lemma_meet_ident_x(aa: int, bb: int, ax: int, ay: int, bx: int, by_: int)
    by (nonlinear_arith)
    ensures
        ax * (aa * by_ - bb * bx) - bx * (aa * ay - bb * ax) == aa * (ax * by_ - ay * bx),
{
}

/// Ring identity behind the crossing point, y coordinate.
proof fn lemma_meet_ident_y(aa: int, bb: int, ax: int, ay: int, bx: int, by_: int)
    by (nonlinear_arith)
    ensures
        ay * (aa * by_ - bb * bx) - by_ * (aa * ay - bb * ax) == bb * (ax * by_ - ay * bx),
{
}

/// Ring identity relating the y-equation form of the second parameter to the
/// crossing numerator.
proof fn lemma_t2_ident_y(aa: int, bb: int, ax: int, ay: int, bx: int, by_: int)
    by (nonlinear_arith)
    ensures
        ay * (aa * by_ - bb * bx) - bb * (ax * by_ - ay * bx) == by_ * (aa * ay - bb * ax),
{
}

/// Ring identity relating the x-equation form of the second parameter to the
/// crossing numerator.
proof fn lemma_t2_ident_x(aa: int, bb: int, ax: int, ay: int, bx: int, by_: int)
    by (nonlinear_arith)
    ensures
        ax * (aa * by_ - bb * bx) - aa * (ax * by_ - ay * bx) == bx * (aa * ay - bb * ax),
{
}

/// The two carrier lines really do meet at the crossing parameters: the
/// point of `a` at `meet_t1_num / divisor` equals the point of `b` at
/// `meet_t2_num / divisor`, stated over the common denominator `divisor`.
pub proof fn lemma_meet_point(a: ParaLine, b: ParaLine)
    ensures
        a.p.x * divisor(a, b) + a.v.x * meet_t1_num(a, b) == b.p.x * divisor(a, b) + b.v.x
            * meet_t2_num(a, b),
        a.p.y * divisor(a, b) + a.v.y * meet_t1_num(a, b) == b.p.y * divisor(a, b) + b.v.y
            * meet_t2_num(a, b),
{
    let aa: int = b.p.x - a.p.x;
    let bb: int = b.p.y - a.p.y;
    lemma_meet_ident_x(aa, bb, a.v.x as int, a.v.y as int, b.v.x as int, b.v.y as int);
    lemma_meet_ident_y(aa, bb, a.v.x as int, a.v.y as int, b.v.x as int, b.v.y as int);
    assert((b.p.x - a.p.x) * divisor(a, b) == b.p.x * divisor(a, b) - a.p.x * divisor(a, b))
        by (nonlinear_arith);
    assert((b.p.y - a.p.y) * divisor(a, b) == b.p.y * divisor(a, b) - a.p.y * divisor(a, b))
        by (nonlinear_arith);
}

/// The published parameter numerator agrees with the crossing numerator
/// exactly when its anchor term `b.p.y * (b.v.x - a.v.x)` vanishes.
pub proof fn lemma_t1_num_exact(a: ParaLine, b: ParaLine)
    requires
        b.p.y * (b.v.x - a.v.x) == 0,
    ensures
        t1_num(a, b) == meet_t1_num(a, b),
{
    assert(t1_num(a, b) == meet_t1_num(a, b)) by (nonlinear_arith)
        requires
            t1_num(a, b) == b.p.x * b.v.y - a.p.x * b.v.y + a.p.y * b.v.x - b.p.y * a.v.x,
            meet_t1_num(a, b) == (b.p.x - a.p.x) * b.v.y - (b.p.y - a.p.y) * b.v.x,
            b.p.y * (b.v.x - a.v.x) == 0,
    ;
}

/// Scaling numerator and denominator by the same nonzero factor does not
/// change membership of the fraction in `[0, 1]`.
pub proof fn lemma_in_unit_scale(k: int, n: int, d: int)
    requires
        k != 0,
    ensures
        in_unit(k * n, k * d) <==> in_unit(n, d),
{
    assert(in_unit(k * n, k * d) <==> in_unit(n, d)) by (nonlinear_arith)
        requires
            k != 0,
    ;
}

/// When the published formula is anchored exactly, the fraction returned by
/// `intersect` is the true parameter at which the first segment's carrier
/// line crosses the second's: together with `lemma_meet_point`, the point of
/// `a` at the returned parameter lies on both lines.
pub proof fn lemma_intersect_parameter_exact(a: ParaLine, b: ParaLine)
    requires
        a.wf(),
        b.wf(),
        b.p.y * (b.v.x - a.v.x) == 0,
    ensures
        spec_intersect(a, b) matches Some(t) ==> t.is_ratio(meet_t1_num(a, b), divisor(a, b)),
{
    if spec_intersect(a, b) is Some {
        let d: int = divisor(a, b);
        let n1: int = t1_num(a, b);
        lemma_t1_num_exact(a, b);
        lemma_mul_bound(b.p.x as int, b.v.y as int, SEG_LIMIT as int, SEG_LIMIT as int);
        lemma_mul_bound(a.p.x as int, b.v.y as int, SEG_LIMIT as int, SEG_LIMIT as int);
        lemma_mul_bound(a.p.y as int, b.v.x as int, SEG_LIMIT as int, SEG_LIMIT as int);
        lemma_mul_bound(b.p.y as int, a.v.x as int, SEG_LIMIT as int, SEG_LIMIT as int);
        lemma_mul_bound(a.v.x as int, b.v.y as int, SEG_LIMIT as int, SEG_LIMIT as int);
        lemma_mul_bound(a.v.y as int, b.v.x as int, SEG_LIMIT as int, SEG_LIMIT as int);
        if d > 0 {
            let t: Frac = spec_intersect(a, b)->Some_0;
            assert(t.num == n1 && t.den == d);
            assert(t.num * d == n1 * t.den);
        } else {
            let t: Frac = spec_intersect(a, b)->Some_0;
            assert(t.num == -n1 && t.den == -d);
            assert((-n1) * d == n1 * (-d)) by (nonlinear_arith);
        }
    }
}

/// Whether two segments intersect does not depend on their order, provided
/// the published parameter formula is anchored exactly in both orders (its
/// `p.y`-anchored term vanishes; axis-aligned wall edges hit by a probe
/// anchored on the x axis are the motivating case).  Only the fact of
/// intersection is symmetric: the returned scalar is each order's own
/// parameter.
pub proof fn lemma_intersect_symmetric(a: ParaLine, b: ParaLine)
    requires
        a.p.y * (a.v.x - b.v.x) == 0,
        b.p.y * (b.v.x - a.v.x) == 0,
    ensures
        spec_intersect(a, b) is Some <==> spec_intersect(b, a) is Some,
{
    let d: int = divisor(a, b);
    lemma_divisor_antisymmetric(a, b);
    if d != 0 {
        let aa: int = b.p.x - a.p.x;
        let bb: int = b.p.y - a.p.y;
        let ax: int = a.v.x as int;
        let ay: int = a.v.y as int;
        let bx: int = b.v.x as int;
        let by_: int = b.v.y as int;
        let m1: int = meet_t1_num(a, b);
        let m2: int = meet_t2_num(a, b);
        assert(m1 == aa * by_ - bb * bx);
        assert(m2 == aa * ay - bb * ax);
        assert(d == ax * by_ - ay * bx);
        lemma_t1_num_exact(a, b);
        assert(t1_num(b, a) == -m2) by (nonlinear_arith)
            requires
                t1_num(b, a) == a.p.x * a.v.y - b.p.x * a.v.y + b.p.y * a.v.x - a.p.y * b.v.x,
                m2 == (b.p.x - a.p.x) * a.v.y - (b.p.y - a.p.y) * a.v.x,
                a.p.y * (a.v.x - b.v.x) == 0,
        ;
        // t2 of (a, b) is (m2, d) scaled by whichever direction component of
        // b picked the coordinate equation.
        if b.v.y != 0 {
            lemma_t2_ident_y(aa, bb, ax, ay, bx, by_);
            assert(t2_num(a, b) == ay * m1 + (a.p.y - b.p.y) * d);
            assert((a.p.y - b.p.y) * d == -(bb * d)) by (nonlinear_arith)
                requires
                    bb == b.p.y - a.p.y,
            ;
            assert(t2_num(a, b) == by_ * m2);
            lemma_in_unit_scale(by_, m2, d);
        } else if b.v.x != 0 {
            lemma_t2_ident_x(aa, bb, ax, ay, bx, by_);
            assert(t2_num(a, b) == ax * m1 + (a.p.x - b.p.x) * d);
            assert((a.p.x - b.p.x) * d == -(aa * d)) by (nonlinear_arith)
                requires
                    aa == b.p.x - a.p.x,
            ;
            assert(t2_num(a, b) == bx * m2);
            lemma_in_unit_scale(bx, m2, d);
        } else {
            assert(d == 0) by (nonlinear_arith)
                requires
                    d == a.v.x * b.v.y - a.v.y * b.v.x,
                    b.v.y == 0,
                    b.v.x == 0,
            ;
        }
        assert(spec_intersect(a, b) is Some <==> in_unit(m1, d) && in_unit(m2, d));
        // t2 of (b, a) is (-m1, -d) scaled likewise by the direction of a.
        if a.v.y != 0 {
            lemma_t2_ident_y(aa, bb, ax, ay, bx, by_);
            assert(t2_num(b, a) == by_ * (-m2) + bb * (-d));
            assert(by_ * (-m2) + bb * (-d) == -(by_ * m2 + bb * d)) by (nonlinear_arith);
            assert(ay * (-m1) == -(ay * m1)) by (nonlinear_arith);
            assert(t2_num(b, a) == ay * (-m1));
            assert(t2_den(b, a) == ay * (-d));
            lemma_in_unit_scale(ay, -m1, -d);
            assert(in_unit(-m1, -d) <==> in_unit(m1, d));
        } else if a.v.x != 0 {
            lemma_t2_ident_x(aa, bb, ax, ay, bx, by_);
            assert(t2_num(b, a) == bx * (-m2) + aa * (-d));
            assert(bx * (-m2) + aa * (-d) == -(bx * m2 + aa * d)) by (nonlinear_arith);
            assert(ax * (-m1) == -(ax * m1)) by (nonlinear_arith);
            assert(t2_num(b, a) == ax * (-m1));
            assert(t2_den(b, a) == ax * (-d));
            lemma_in_unit_scale(ax, -m1, -d);
            assert(in_unit(-m1, -d) <==> in_unit(m1, d));
        } else {
            assert(d == 0) by (nonlinear_arith)
                requires
                    d == a.v.x * b.v.y - a.v.y * b.v.x,
                    a.v.y == 0,
                    a.v.x == 0,
            ;
        }
        assert(in_unit(-m2, -d) <==> in_unit(m2, d));
        assert(spec_intersect(b, a) is Some <==> in_unit(-m2, -d) && in_unit(-m1, -d));
    }
}

/// World-space axis-aligned collision rectangle of a body (player or enemy),
/// kept in sync with the body's transform once per tick.
#[derive(Clone, Copy, PartialEq, Eq, Structural, Debug)]
pub struct CollisionRect {
    pub center: Vec2,
    pub half: Vec2,
}

impl CollisionRect {
    pub open spec fn wf(self) -> bool {
        &&& self.center.within(WORLD_LIMIT as int)
        &&& 0 <= self.half.x <= WORLD_LIMIT
        &&& 0 <= self.half.y <= WORLD_LIMIT
    }
}

/// Standard axis-aligned box overlap: the centers are closer than the sum of
/// the half-extents on both axes.  Touching boundaries do not overlap.
pub open spec fn spec_overlap(a: CollisionRect, b: CollisionRect) -> bool {
    &&& vstd::math::abs(a.center.x - b.center.x) < a.half.x + b.half.x
    &&& vstd::math::abs(a.center.y - b.center.y) < a.half.y + b.half.y
}

impl CollisionRect {
    /// Whether this rectangle overlaps `other` (strictly, on both axes).
    pub fn overlaps(&self, other: &CollisionRect) -> (r: bool)
        requires
            self.wf(),
            other.wf(),
        ensures
            r <==> spec_overlap(*self, *other),
    {
        let dx: i64 = if self.center.x >= other.center.x {
            self.center.x - other.center.x
        } else {
            other.center.x - self.center.x
        };
        let dy: i64 = if self.center.y >= other.center.y {
            self.center.y - other.center.y
        } else {
            other.center.y - self.center.y
        };
        dx < self.half.x + other.half.x && dy < self.half.y + other.half.y
    }
}

/// Re-synchronize a body's collision rectangle to its transform: the
/// translation becomes the rectangle's center and the scale (full, or halved
/// when the shrink upgrade is active) multiplies the base half-extents.
/// Rotation is ignored for collision purposes.
pub fn update_collision_transform(
    shape: &mut CollisionRect,
    translation: Vec2,
    base_half: Vec2,
    shrink: bool,
)
    requires
        translation.within(WORLD_LIMIT as int),
        0 <= base_half.x <= WORLD_LIMIT,
        0 <= base_half.y <= WORLD_LIMIT,
    ensures
        final(shape).center == translation,
        final(shape).half.x == if shrink { base_half.x / 2 } else { base_half.x as int },
        final(shape).half.y == if shrink { base_half.y / 2 } else { base_half.y as int },
        final(shape).wf(),
{
    let half: Vec2 = if shrink {
        Vec2 { x: ((base_half.x as u64) / 2) as i64, y: ((base_half.y as u64) / 2) as i64 }
    } else {
        base_half
    };
    *shape = CollisionRect { center: translation, half };
}

/// The four edges of the axis-aligned rectangle with corner `top_left` and
/// extents `size`, in the order top, left, right, bottom.  The first and last
/// run along the x axis (`v.y == 0`); the middle two run along the y axis
/// (`v.x == 0`).
pub fn rect_to_lines(top_left: Vec2, size: Vec2) -> (r: [ParaLine; 4])
    requires
        i64::MIN <= top_left.x + size.x <= i64::MAX,
        i64::MIN <= top_left.y + size.y <= i64::MAX,
    ensures
        r@.len() == 4,
        r@[0] == (ParaLine { p: top_left, v: Vec2 { x: size.x, y: 0 } }),
        r@[1] == (ParaLine { p: top_left, v: Vec2 { x: 0, y: size.y } }),
        r@[2].p.x == top_left.x + size.x,
        r@[2].p.y == top_left.y,
        r@[2].v == (Vec2 { x: 0, y: size.y }),
        r@[3].p.x == top_left.x,
        r@[3].p.y == top_left.y + size.y,
        r@[3].v == (Vec2 { x: size.x, y: 0 }),
{
    let size_x: Vec2 = Vec2 { x: size.x, y: 0 };
    let size_y: Vec2 = Vec2 { x: 0, y: size.y };
    [
        ParaLine { p: top_left, v: size_x },
        ParaLine { p: top_left, v: size_y },
        ParaLine { p: Vec2 { x: top_left.x + size.x, y: top_left.y }, v: size_y },
        ParaLine { p: Vec2 { x: top_left.x, y: top_left.y + size.y }, v: size_x },
    ]
}

} // verus!
