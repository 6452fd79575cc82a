//! Points on the integer grid and exact segment intersection.

use vstd::prelude::*;
use crate::arith::{floor_div, lemma_round_div_bounds, lemma_round_div_bounds_neg, round_div};

verus! {

/// Largest coordinate magnitude of a node or of a ring vertex: the
/// largest power of two for which the parameters of two crossings can
/// still be compared exactly in 128 bits. A parameter is a quotient of
/// determinants of coordinate differences, and comparing two of them
/// multiplies a numerator by a denominator, each of up to `8 * COORD_MAX^2`.
pub const COORD_MAX: i64 = 0x4000_0000;

/// Largest coordinate magnitude of a node of a section: half of
/// `COORD_MAX`. The boundary points of a member lie up to twice its
/// thickness away from its nodes, and have to stay within `COORD_MAX`.
pub const NODE_MAX: i64 = 0x2000_0000;

/// Largest coordinate magnitude of a far probe of the point-in-polygon
/// test, which lies beyond `COORD_MAX`.
pub const REACH_MAX: i64 = 0x8000_0000;

/// A position on the grid.
#[derive(Clone, Copy, Debug, PartialEq, Eq, Structural)]
pub struct Point {
    pub x: i64,
    pub y: i64,
}

impl Point {
    /// Both coordinates are at most `lim` in magnitude.
    pub open spec fn within(self, lim: int) -> bool {
        -lim <= self.x <= lim && -lim <= self.y <= lim
    }

    pub fn new(x: i64, y: i64) -> (p: Point)
        ensures
            p == (Point { x, y }),
    {
        Point { x, y }
    }
}

/// A parametric position along an edge, kept as an exact fraction with a
/// positive denominator.
#[derive(Clone, Copy, Debug, PartialEq, Eq, Structural)]
pub struct Ratio {
    pub num: i128,
    pub den: i128,
}

/// Largest denominator of a `Ratio` produced by the intersection test.
pub const RATIO_MAX: i128 = 0x8000_0000_0000_0000;

impl Ratio {
    /// A fraction in `[0, 1]` whose denominator is positive and small
    /// enough to be compared without overflow.
    pub open spec fn wf(self) -> bool {
        0 < self.den <= RATIO_MAX && 0 <= self.num <= self.den
    }

    /// `self < other` as rational numbers.
    pub open spec fn lt(self, other: Ratio) -> bool {
        self.num * other.den < other.num * self.den
    }

    /// The start of an edge.
    pub fn zero() -> (r: Ratio)
        ensures
            r == (Ratio { num: 0, den: 1 }),
            r.wf(),
    {
        Ratio { num: 0, den: 1 }
    }

    /// Exact comparison by cross-multiplication.
    pub fn less_than(&self, other: &Ratio) -> (b: bool)
        requires
            self.wf(),
            other.wf(),
        ensures
            b == self.lt(*other),
    {
        let a: i128 = self.num;
        let b: i128 = other.den;
        let c: i128 = other.num;
        let d: i128 = self.den;
        assert(0 <= a * b <= 0x4000_0000_0000_0000_0000_0000_0000_0000) by (nonlinear_arith)
            requires
                0 <= a <= 0x8000_0000_0000_0000,
                0 <= b <= 0x8000_0000_0000_0000,
        ;
        assert(0 <= c * d <= 0x4000_0000_0000_0000_0000_0000_0000_0000) by (nonlinear_arith)
            requires
                0 <= c <= 0x8000_0000_0000_0000,
                0 <= d <= 0x8000_0000_0000_0000,
        ;
        a * b < c * d
    }
}

/// The determinant `ax * by - ay * bx`.
pub open spec fn det(ax: int, ay: int, bx: int, by: int) -> int {
    ax * by - ay * bx
}

/// Computes a determinant of coordinate differences.
pub fn det_exec(ax: i128, ay: i128, bx: i128, by: i128) -> (d: i128)
    requires
        -0x1_0000_0000 <= ax <= 0x1_0000_0000,
        -0x1_0000_0000 <= ay <= 0x1_0000_0000,
        -0x1_0000_0000 <= bx <= 0x1_0000_0000,
        -0x1_0000_0000 <= by <= 0x1_0000_0000,
    ensures
        d == det(ax as int, ay as int, bx as int, by as int),
        -0x2_0000_0000_0000_0000 <= d <= 0x2_0000_0000_0000_0000,
{
    assert(-0x1_0000_0000_0000_0000 <= ax * by <= 0x1_0000_0000_0000_0000) by (nonlinear_arith)
        requires
            -0x1_0000_0000 <= ax <= 0x1_0000_0000,
            -0x1_0000_0000 <= by <= 0x1_0000_0000,
    ;
    assert(-0x1_0000_0000_0000_0000 <= ay * bx <= 0x1_0000_0000_0000_0000) by (nonlinear_arith)
        requires
            -0x1_0000_0000 <= ay <= 0x1_0000_0000,
            -0x1_0000_0000 <= bx <= 0x1_0000_0000,
    ;
    ax * by - ay * bx
}

/// Denominator of the two intersection parameters of the lines through
/// `s1 s2` and `c1 c2`; zero exactly when the lines are parallel.
pub open spec fn seg_den(s1: Point, s2: Point, c1: Point, c2: Point) -> int {
    det(s2.x - s1.x, s2.y - s1.y, c2.x - c1.x, c2.y - c1.y)
}

/// Numerator of the parameter along `s1 s2`.
pub open spec fn seg_num_s(s1: Point, s2: Point, c1: Point, c2: Point) -> int {
    det(c2.x - c1.x, c2.y - c1.y, s1.x - c1.x, s1.y - c1.y)
}

/// Numerator of the parameter along `c1 c2`.
pub open spec fn seg_num_c(s1: Point, s2: Point, c1: Point, c2: Point) -> int {
    det(s2.x - s1.x, s2.y - s1.y, s1.x - c1.x, s1.y - c1.y)
}

/// The sign that makes the denominator positive.
pub open spec fn seg_sign(s1: Point, s2: Point, c1: Point, c2: Point) -> int {
    if seg_den(s1, s2, c1, c2) < 0 {
        -1
    } else {
        1
    }
}

/// The two segments cross at a point interior to both: the lines are not
/// parallel and both parameters lie strictly between 0 and 1.
pub open spec fn properly_cross(s1: Point, s2: Point, c1: Point, c2: Point) -> bool {
    let g = seg_sign(s1, s2, c1, c2);
    let d = g * seg_den(s1, s2, c1, c2);
    let a = g * seg_num_s(s1, s2, c1, c2);
    let b = g * seg_num_c(s1, s2, c1, c2);
    d != 0 && 0 < a < d && 0 < b < d
}

/// Segments that properly cross have distinct end points each.
pub proof fn lemma_cross_needs_length(s1: Point, s2: Point, c1: Point, c2: Point)
    requires
        properly_cross(s1, s2, c1, c2),
    ensures
        s1 != s2,
        c1 != c2,
{
    if s1 == s2 {
        assert(det(0, 0, c2.x - c1.x, c2.y - c1.y) == 0) by (nonlinear_arith);
    }
    if c1 == c2 {
        assert(det(s2.x - s1.x, s2.y - s1.y, 0, 0) == 0) by (nonlinear_arith);
    }
}

/// Parameter of the crossing along `s1 s2`.
pub open spec fn alpha_s(s1: Point, s2: Point, c1: Point, c2: Point) -> Ratio {
    let g = seg_sign(s1, s2, c1, c2);
    Ratio {
        num: (g * seg_num_s(s1, s2, c1, c2)) as i128,
        den: (g * seg_den(s1, s2, c1, c2)) as i128,
    }
}

/// Parameter of the crossing along `c1 c2`.
pub open spec fn alpha_c(s1: Point, s2: Point, c1: Point, c2: Point) -> Ratio {
    let g = seg_sign(s1, s2, c1, c2);
    Ratio {
        num: (g * seg_num_c(s1, s2, c1, c2)) as i128,
        den: (g * seg_den(s1, s2, c1, c2)) as i128,
    }
}

/// The point at parameter `num / den` of the segment from `p` to `q`,
/// each coordinate rounded to the nearest grid line.
pub open spec fn point_at(p: Point, q: Point, num: int, den: int) -> Point {
    Point {
        x: (p.x + round_div(num * (q.x - p.x), den)) as i64,
        y: (p.y + round_div(num * (q.y - p.y), den)) as i64,
    }
}

/// The grid point nearest to where the two segments cross.
pub open spec fn cross_point(s1: Point, s2: Point, c1: Point, c2: Point) -> Point {
    let g = seg_sign(s1, s2, c1, c2);
    point_at(s1, s2, g * seg_num_s(s1, s2, c1, c2), g * seg_den(s1, s2, c1, c2))
}

/// One rounded coordinate at parameter `num / den` between `a` and `b`
/// stays between `a` and `b`.
pub proof fn lemma_coord_between(a: int, b: int, num: int, den: int)
    requires
        0 <= num <= den,
        0 < den,
    ensures
        a <= b ==> a <= a + round_div(num * (b - a), den) <= b,
        b <= a ==> b <= a + round_div(num * (b - a), den) <= a,
{
    let m = b - a;
    if m >= 0 {
        assert(0 <= num * m <= den * m) by (nonlinear_arith)
            requires
                0 <= num <= den,
                m >= 0,
        ;
        lemma_round_div_bounds(num * m, den, m);
    }
    if m <= 0 {
        assert(den * m <= num * m <= 0) by (nonlinear_arith)
            requires
                0 <= num <= den,
                m <= 0,
        ;
        lemma_round_div_bounds_neg(num * m, den, m);
    }
}

/// A point at a parameter in `[0, 1]` lies in every box around the origin
/// that holds both ends of the segment.
pub proof fn lemma_point_at_within(p: Point, q: Point, num: int, den: int, lim: int)
    requires
        0 <= num <= den,
        0 < den,
        p.within(lim),
        q.within(lim),
        lim <= i64::MAX,
    ensures
        point_at(p, q, num, den).within(lim),
        point_at(p, q, num, den).x == p.x + round_div(num * (q.x - p.x), den),
        point_at(p, q, num, den).y == p.y + round_div(num * (q.y - p.y), den),
{
    lemma_coord_between(p.x as int, q.x as int, num, den);
    lemma_coord_between(p.y as int, q.y as int, num, den);
}

/// Computes one coordinate of `point_at`.
fn coord_at(a: i64, b: i64, num: i128, den: i128) -> (c: i64)
    requires
        -COORD_MAX <= a <= COORD_MAX,
        -COORD_MAX <= b <= COORD_MAX,
        0 <= num <= den,
        0 < den <= RATIO_MAX,
    ensures
        c == a + round_div(num * (b - a), den as int),
{
    let m: i128 = b as i128 - a as i128;
    assert(-0x4000_0000_0000_0000_0000_0000 <= num * m <= 0x4000_0000_0000_0000_0000_0000)
        by (nonlinear_arith)
        requires
            0 <= num <= 0x8000_0000_0000_0000,
            -0x8000_0000 <= m <= 0x8000_0000,
    ;
    let t: i128 = num * m;
    let q: i128 = floor_div(2 * t + den, 2 * den);
    proof {
        lemma_coord_between(a as int, b as int, num as int, den as int);
    }
    (a as i128 + q) as i64
}

/// Tests two segments for a proper crossing. On a crossing, returns the
/// grid point nearest to it and its parameter along each segment.
///
/// Parallel segments, segments that miss each other, and segments that
/// merely touch at an end of either one do not cross.
pub fn intersect(s1: Point, s2: Point, c1: Point, c2: Point) -> (r: Option<(Point, Ratio, Ratio)>)
    requires
        s1.within(COORD_MAX as int),
        s2.within(COORD_MAX as int),
        c1.within(COORD_MAX as int),
        c2.within(COORD_MAX as int),
    ensures
        r.is_some() == properly_cross(s1, s2, c1, c2),
        r.is_some() ==> r.unwrap() == (
            cross_point(s1, s2, c1, c2),
            alpha_s(s1, s2, c1, c2),
            alpha_c(s1, s2, c1, c2),
        ),
        r.is_some() ==> r.unwrap().1.wf() && r.unwrap().2.wf(),
        r.is_some() ==> 0 < r.unwrap().1.num < r.unwrap().1.den,
        r.is_some() ==> 0 < r.unwrap().2.num < r.unwrap().2.den,
{
    let sx: i128 = s2.x as i128 - s1.x as i128;
    let sy: i128 = s2.y as i128 - s1.y as i128;
    let cx: i128 = c2.x as i128 - c1.x as i128;
    let cy: i128 = c2.y as i128 - c1.y as i128;
    let wx: i128 = s1.x as i128 - c1.x as i128;
    let wy: i128 = s1.y as i128 - c1.y as i128;
    let den0: i128 = det_exec(sx, sy, cx, cy);
    if den0 == 0 {
        return None;
    }
    proof {
        lemma_det_bound(sx as int, sy as int, cx as int, cy as int);
    }
    let ns0: i128 = det_exec(cx, cy, wx, wy);
    let nc0: i128 = det_exec(sx, sy, wx, wy);
    let den: i128 = if den0 < 0 { -den0 } else { den0 };
    let ns: i128 = if den0 < 0 { -ns0 } else { ns0 };
    let nc: i128 = if den0 < 0 { -nc0 } else { nc0 };
    if 0 < ns && ns < den && 0 < nc && nc < den {
        let x: i64 = coord_at(s1.x, s2.x, ns, den);
        let y: i64 = coord_at(s1.y, s2.y, ns, den);
        Some((Point { x, y }, Ratio { num: ns, den }, Ratio { num: nc, den }))
    } else {
        None
    }
}


/// In the plane, `det(s, c) * w + det(c, w) * s - det(s, w) * c` vanishes
/// in each coordinate.
proof fn lemma_cramer(sx: int, sy: int, cx: int, cy: int, wx: int, wy: int)
    ensures
        det(sx, sy, cx, cy) * wx + det(cx, cy, wx, wy) * sx - det(sx, sy, wx, wy) * cx == 0,
        det(sx, sy, cx, cy) * wy + det(cx, cy, wx, wy) * sy - det(sx, sy, wx, wy) * cy == 0,
{
    assert(det(sx, sy, cx, cy) * wx + det(cx, cy, wx, wy) * sx - det(sx, sy, wx, wy) * cx == 0)
        by (nonlinear_arith)
        requires
            det(sx, sy, cx, cy) == sx * cy - sy * cx,
            det(cx, cy, wx, wy) == cx * wy - cy * wx,
            det(sx, sy, wx, wy) == sx * wy - sy * wx,
    ;
    assert(det(sx, sy, cx, cy) * wy + det(cx, cy, wx, wy) * sy - det(sx, sy, wx, wy) * cy == 0)
        by (nonlinear_arith)
        requires
            det(sx, sy, cx, cy) == sx * cy - sy * cx,
            det(cx, cy, wx, wy) == cx * wy - cy * wx,
            det(sx, sy, wx, wy) == sx * wy - sy * wx,
    ;
}

/// Swapping the arguments of a determinant negates it.
proof fn lemma_det_swap(ax: int, ay: int, bx: int, by: int)
    ensures
        det(bx, by, ax, ay) == -det(ax, ay, bx, by),
        det(ax, ay, -bx, -by) == -det(ax, ay, bx, by),
{
    assert(det(bx, by, ax, ay) == -det(ax, ay, bx, by)) by (nonlinear_arith)
        requires
            det(bx, by, ax, ay) == bx * ay - by * ax,
            det(ax, ay, bx, by) == ax * by - ay * bx,
    ;
    assert(det(ax, ay, -bx, -by) == -det(ax, ay, bx, by)) by (nonlinear_arith)
        requires
            det(ax, ay, -bx, -by) == ax * (-by) - ay * (-bx),
            det(ax, ay, bx, by) == ax * by - ay * bx,
    ;
}

/// One coordinate of the crossing is the same from either segment: with
/// `a + ns * m / d` and `b + nc * k / d` the same rational number, the
/// two round to the same grid line.
proof fn lemma_same_rounding(a: int, b: int, ns: int, m: int, nc: int, k: int, d: int)
    requires
        d > 0,
        a * d + ns * m == b * d + nc * k,
    ensures
        a + round_div(ns * m, d) == b + round_div(nc * k, d),
{
    crate::arith::lemma_round_div_shift(ns * m, d, a);
    crate::arith::lemma_round_div_shift(nc * k, d, b);
    assert(ns * m + a * d == nc * k + b * d);
}

/// A crossing does not depend on which segment is taken first: the two
/// segments cross either way or neither, at the same grid point, and the
/// two parameters change places.
pub proof fn lemma_crossing_symmetric(s1: Point, s2: Point, c1: Point, c2: Point)
    ensures
        properly_cross(c1, c2, s1, s2) == properly_cross(s1, s2, c1, c2),
        properly_cross(s1, s2, c1, c2) ==> {
            &&& cross_point(c1, c2, s1, s2) == cross_point(s1, s2, c1, c2)
            &&& alpha_s(c1, c2, s1, s2) == alpha_c(s1, s2, c1, c2)
            &&& alpha_c(c1, c2, s1, s2) == alpha_s(s1, s2, c1, c2)
        },
{
    let sx = s2.x - s1.x;
    let sy = s2.y - s1.y;
    let cx = c2.x - c1.x;
    let cy = c2.y - c1.y;
    let wx = s1.x - c1.x;
    let wy = s1.y - c1.y;
    let den = det(sx, sy, cx, cy);
    let ns = det(cx, cy, wx, wy);
    let nc = det(sx, sy, wx, wy);
    lemma_det_swap(sx, sy, cx, cy);
    lemma_det_swap(sx, sy, wx, wy);
    lemma_det_swap(cx, cy, wx, wy);
    assert(seg_den(c1, c2, s1, s2) == -den);
    assert(seg_num_s(c1, c2, s1, s2) == det(sx, sy, -wx, -wy));
    assert(seg_num_s(c1, c2, s1, s2) == -nc);
    assert(seg_num_c(c1, c2, s1, s2) == det(cx, cy, -wx, -wy));
    assert(seg_num_c(c1, c2, s1, s2) == -ns);
    if properly_cross(s1, s2, c1, c2) {
        let g = seg_sign(s1, s2, c1, c2);
        let d = g * den;
        lemma_cramer(sx, sy, cx, cy, wx, wy);
        assert(s1.x * d + (g * ns) * sx == c1.x * d + (g * nc) * cx) by (nonlinear_arith)
            requires
                den * wx + ns * sx - nc * cx == 0,
                wx == s1.x - c1.x,
                d == g * den,
                g == 1 || g == -1,
        ;
        assert(s1.y * d + (g * ns) * sy == c1.y * d + (g * nc) * cy) by (nonlinear_arith)
            requires
                den * wy + ns * sy - nc * cy == 0,
                wy == s1.y - c1.y,
                d == g * den,
                g == 1 || g == -1,
        ;
        lemma_same_rounding(s1.x as int, c1.x as int, g * ns, sx, g * nc, cx, d);
        lemma_same_rounding(s1.y as int, c1.y as int, g * ns, sy, g * nc, cy, d);
    }
}


/// Tests two segments for a proper crossing. One segment may reach out
/// to a far probe.
pub fn properly_crossing(s1: Point, s2: Point, c1: Point, c2: Point) -> (b: bool)
    requires
        s1.within(REACH_MAX as int),
        s2.within(REACH_MAX as int),
        c1.within(COORD_MAX as int),
        c2.within(COORD_MAX as int),
    ensures
        b == properly_cross(s1, s2, c1, c2),
{
    let sx: i128 = s2.x as i128 - s1.x as i128;
    let sy: i128 = s2.y as i128 - s1.y as i128;
    let cx: i128 = c2.x as i128 - c1.x as i128;
    let cy: i128 = c2.y as i128 - c1.y as i128;
    let wx: i128 = s1.x as i128 - c1.x as i128;
    let wy: i128 = s1.y as i128 - c1.y as i128;
    let den0: i128 = det_exec(sx, sy, cx, cy);
    if den0 == 0 {
        return false;
    }
    let ns0: i128 = det_exec(cx, cy, wx, wy);
    let nc0: i128 = det_exec(sx, sy, wx, wy);
    let den: i128 = if den0 < 0 { -den0 } else { den0 };
    let ns: i128 = if den0 < 0 { -ns0 } else { ns0 };
    let nc: i128 = if den0 < 0 { -nc0 } else { nc0 };
    0 < ns && ns < den && 0 < nc && nc < den
}

/// The segment `pa pb` meets the member from `qa` to `qb`: the lines are
/// not parallel, both parameters lie in `[0, 1]`, and no end of one
/// segment coincides with an end of the other. A shared joint is no
/// meeting; a segment that ends on the inside of the other is one.
pub open spec fn segments_meet(pa: Point, pb: Point, qa: Point, qb: Point) -> bool {
    let g = seg_sign(pa, pb, qa, qb);
    let d = g * seg_den(pa, pb, qa, qb);
    let a = g * seg_num_s(pa, pb, qa, qb);
    let b = g * seg_num_c(pa, pb, qa, qb);
    d != 0 && 0 <= a <= d && 0 <= b <= d && pa != qa && pa != qb && pb != qa && pb != qb
}

/// The grid point nearest to where the lines through `pa pb` and `qa qb`
/// meet, taken along `pa pb`.
pub open spec fn meeting_point(pa: Point, pb: Point, qa: Point, qb: Point) -> Point {
    cross_point(pa, pb, qa, qb)
}

/// A meeting point lies in every box around the origin that holds both
/// ends of the first segment.
pub proof fn lemma_meeting_point_within(pa: Point, pb: Point, qa: Point, qb: Point, lim: int)
    requires
        segments_meet(pa, pb, qa, qb),
        pa.within(lim),
        pb.within(lim),
        lim <= i64::MAX,
    ensures
        meeting_point(pa, pb, qa, qb).within(lim),
{
    let g = seg_sign(pa, pb, qa, qb);
    lemma_point_at_within(
        pa,
        pb,
        g * seg_num_s(pa, pb, qa, qb),
        g * seg_den(pa, pb, qa, qb),
        lim,
    );
}

/// Tests whether the segment `pa pb` meets the member from `qa` to `qb`
/// and returns the grid point nearest to the meeting.
pub fn segment_meet(pa: Point, pb: Point, qa: Point, qb: Point) -> (r: Option<Point>)
    requires
        pa.within(COORD_MAX as int),
        pb.within(COORD_MAX as int),
        qa.within(COORD_MAX as int),
        qb.within(COORD_MAX as int),
    ensures
        r.is_some() == segments_meet(pa, pb, qa, qb),
        r.is_some() ==> r.unwrap() == meeting_point(pa, pb, qa, qb),
{
    let sx: i128 = pb.x as i128 - pa.x as i128;
    let sy: i128 = pb.y as i128 - pa.y as i128;
    let cx: i128 = qb.x as i128 - qa.x as i128;
    let cy: i128 = qb.y as i128 - qa.y as i128;
    let wx: i128 = pa.x as i128 - qa.x as i128;
    let wy: i128 = pa.y as i128 - qa.y as i128;
    let den0: i128 = det_exec(sx, sy, cx, cy);
    if den0 == 0 {
        return None;
    }
    proof {
        lemma_det_bound(sx as int, sy as int, cx as int, cy as int);
    }
    let ns0: i128 = det_exec(cx, cy, wx, wy);
    let nc0: i128 = det_exec(sx, sy, wx, wy);
    let den: i128 = if den0 < 0 { -den0 } else { den0 };
    let ns: i128 = if den0 < 0 { -ns0 } else { ns0 };
    let nc: i128 = if den0 < 0 { -nc0 } else { nc0 };
    if 0 <= ns && ns <= den && 0 <= nc && nc <= den && pa != qa && pa != qb && pb != qa && pb
        != qb {
        let x: i64 = coord_at(pa.x, pb.x, ns, den);
        let y: i64 = coord_at(pa.y, pb.y, ns, den);
        Some(Point { x, y })
    } else {
        None
    }
}

/// The squared distance from `point` to the line through `end1` and
/// `end2`, as the fraction `num / den`: `num` is the squared determinant
/// of the member and the offset of the point, `den` the squared length of
/// the member.
pub open spec fn line_distance_sq(end1: Point, end2: Point, point: Point) -> (int, int) {
    let c = det(end2.x - end1.x, end2.y - end1.y, end1.x - point.x, end1.y - point.y);
    let len = (end2.x - end1.x) * (end2.x - end1.x) + (end2.y - end1.y) * (end2.y - end1.y);
    (c * c, len)
}

/// The point lies closer than twice `thickness` to the line through the
/// member from `end1` to `end2`. A member without length is close to
/// nothing.
pub open spec fn too_close(end1: Point, end2: Point, point: Point, thickness: int) -> bool {
    let (num, den) = line_distance_sq(end1, end2, point);
    num < 4 * thickness * thickness * den
}

/// Largest thickness of a member: an eighth of `COORD_MAX`, so that
/// `NODE_MAX` and twice the thickness together stay within `COORD_MAX`.
pub const THICKNESS_MAX: i64 = 0x0800_0000;

/// Computes the squared distance from `point` to the line through `end1`
/// and `end2` as an exact fraction.
pub fn point2line(end1: Point, end2: Point, point: Point) -> (r: (i128, i128))
    requires
        end1.within(COORD_MAX as int),
        end2.within(COORD_MAX as int),
        point.within(COORD_MAX as int),
    ensures
        (r.0 as int, r.1 as int) == line_distance_sq(end1, end2, point),
        0 <= r.0 <= 0x4000_0000_0000_0000_0000_0000_0000_0000,
        0 <= r.1 <= 0x8000_0000_0000_0000,
{
    let dx: i128 = end2.x as i128 - end1.x as i128;
    let dy: i128 = end2.y as i128 - end1.y as i128;
    let ox: i128 = end1.x as i128 - point.x as i128;
    let oy: i128 = end1.y as i128 - point.y as i128;
    let c: i128 = det_exec(dx, dy, ox, oy);
    proof {
        lemma_det_bound(dx as int, dy as int, ox as int, oy as int);
    }
    assert(0 <= c * c <= 0x4000_0000_0000_0000_0000_0000_0000_0000) by (nonlinear_arith)
        requires
            -0x8000_0000_0000_0000 <= c <= 0x8000_0000_0000_0000,
    ;
    assert(0 <= dx * dx <= 0x4000_0000_0000_0000) by (nonlinear_arith)
        requires
            -0x8000_0000 <= dx <= 0x8000_0000,
    ;
    assert(0 <= dy * dy <= 0x4000_0000_0000_0000) by (nonlinear_arith)
        requires
            -0x8000_0000 <= dy <= 0x8000_0000,
    ;
    (c * c, dx * dx + dy * dy)
}

/// Decides whether `point` lies closer than twice `thickness` to the line
/// through the member from `end1` to `end2`.
pub fn is_too_close(end1: Point, end2: Point, point: Point, thickness: i64) -> (b: bool)
    requires
        end1.within(COORD_MAX as int),
        end2.within(COORD_MAX as int),
        point.within(COORD_MAX as int),
        0 < thickness <= THICKNESS_MAX,
    ensures
        b == too_close(end1, end2, point, thickness as int),
{
    let (num, den) = point2line(end1, end2, point);
    let t: i128 = thickness as i128;
    assert(0 < 4 * t * t <= 0x0100_0000_0000_0000) by (nonlinear_arith)
        requires
            0 < t <= 0x0800_0000,
    ;
    let tt: i128 = 4 * t * t;
    assert(0 <= tt * den <= 0x80_0000_0000_0000_0000_0000_0000_0000) by (nonlinear_arith)
        requires
            0 < tt <= 0x0100_0000_0000_0000,
            0 <= den <= 0x8000_0000_0000_0000,
    ;
    num < tt * den
}


/// Segments that share an end do not properly cross.
pub proof fn lemma_shared_end_no_crossing(s1: Point, s2: Point, c1: Point, c2: Point)
    requires
        s1 == c1 || s1 == c2 || s2 == c1 || s2 == c2,
    ensures
        !properly_cross(s1, s2, c1, c2),
{
    let sx = s2.x - s1.x;
    let sy = s2.y - s1.y;
    let cx = c2.x - c1.x;
    let cy = c2.y - c1.y;
    let wx = s1.x - c1.x;
    let wy = s1.y - c1.y;
    let den = det(sx, sy, cx, cy);
    let ns = det(cx, cy, wx, wy);
    let nc = det(sx, sy, wx, wy);
    if s1 == c1 {
        assert(ns == 0) by (nonlinear_arith)
            requires
                ns == cx * wy - cy * wx,
                wx == 0,
                wy == 0,
        ;
    } else if s1 == c2 {
        assert(ns == 0) by (nonlinear_arith)
            requires
                ns == cx * wy - cy * wx,
                wx == cx,
                wy == cy,
        ;
    } else if s2 == c1 {
        assert(nc == 0) by (nonlinear_arith)
            requires
                nc == sx * wy - sy * wx,
                wx == -sx,
                wy == -sy,
        ;
    } else {
        assert(ns == den) by (nonlinear_arith)
            requires
                ns == cx * wy - cy * wx,
                den == sx * cy - sy * cx,
                wx == cx - sx,
                wy == cy - sy,
        ;
    }
}

/// Segments of equal or opposite direction vectors do not properly cross.
pub proof fn lemma_parallel_no_crossing(s1: Point, s2: Point, c1: Point, c2: Point)
    requires
        (s2.x - s1.x == c2.x - c1.x && s2.y - s1.y == c2.y - c1.y) || (s2.x - s1.x == -(c2.x
            - c1.x) && s2.y - s1.y == -(c2.y - c1.y)),
    ensures
        !properly_cross(s1, s2, c1, c2),
{
    let sx = s2.x - s1.x;
    let sy = s2.y - s1.y;
    let cx = c2.x - c1.x;
    let cy = c2.y - c1.y;
    let den = det(sx, sy, cx, cy);
    assert(den == 0) by (nonlinear_arith)
        requires
            den == sx * cy - sy * cx,
            (sx == cx && sy == cy) || (sx == -cx && sy == -cy),
    ;
}


/// A determinant of differences of coordinates within `COORD_MAX` is at
/// most `RATIO_MAX` in magnitude.
pub proof fn lemma_det_bound(ax: int, ay: int, bx: int, by: int)
    requires
        -0x8000_0000 <= ax <= 0x8000_0000,
        -0x8000_0000 <= ay <= 0x8000_0000,
        -0x8000_0000 <= bx <= 0x8000_0000,
        -0x8000_0000 <= by <= 0x8000_0000,
    ensures
        -RATIO_MAX <= det(ax, ay, bx, by) <= RATIO_MAX,
{
    assert(-0x4000_0000_0000_0000 <= ax * by <= 0x4000_0000_0000_0000) by (nonlinear_arith)
        requires
            -0x8000_0000 <= ax <= 0x8000_0000,
            -0x8000_0000 <= by <= 0x8000_0000,
    ;
    assert(-0x4000_0000_0000_0000 <= ay * bx <= 0x4000_0000_0000_0000) by (nonlinear_arith)
        requires
            -0x8000_0000 <= ay <= 0x8000_0000,
            -0x8000_0000 <= bx <= 0x8000_0000,
    ;
}

/// A determinant of coordinates within `COORD_MAX` is at most a quarter
/// of `RATIO_MAX` in magnitude.
pub proof fn lemma_det_bound_small(ax: int, ay: int, bx: int, by: int)
    requires
        -0x4000_0000 <= ax <= 0x4000_0000,
        -0x4000_0000 <= ay <= 0x4000_0000,
        -0x4000_0000 <= bx <= 0x4000_0000,
        -0x4000_0000 <= by <= 0x4000_0000,
    ensures
        -0x2000_0000_0000_0000 <= det(ax, ay, bx, by) <= 0x2000_0000_0000_0000,
{
    assert(-0x1000_0000_0000_0000 <= ax * by <= 0x1000_0000_0000_0000) by (nonlinear_arith)
        requires
            -0x4000_0000 <= ax <= 0x4000_0000,
            -0x4000_0000 <= by <= 0x4000_0000,
    ;
    assert(-0x1000_0000_0000_0000 <= ay * bx <= 0x1000_0000_0000_0000) by (nonlinear_arith)
        requires
            -0x4000_0000 <= ay <= 0x4000_0000,
            -0x4000_0000 <= bx <= 0x4000_0000,
    ;
}

/// The parameters of a proper crossing are well-formed fractions strictly
/// between 0 and 1, and the crossing lies in every box around the origin
/// that holds both ends of the first segment.
pub proof fn lemma_crossing_parameters(s1: Point, s2: Point, c1: Point, c2: Point, lim: int)
    requires
        properly_cross(s1, s2, c1, c2),
        s1.within(COORD_MAX as int),
        s2.within(COORD_MAX as int),
        c1.within(COORD_MAX as int),
        c2.within(COORD_MAX as int),
        s1.within(lim),
        s2.within(lim),
        lim <= i64::MAX,
    ensures
        alpha_s(s1, s2, c1, c2).wf(),
        alpha_c(s1, s2, c1, c2).wf(),
        0 < alpha_s(s1, s2, c1, c2).num < alpha_s(s1, s2, c1, c2).den,
        0 < alpha_c(s1, s2, c1, c2).num < alpha_c(s1, s2, c1, c2).den,
        cross_point(s1, s2, c1, c2).within(lim),
{
    lemma_det_bound(s2.x - s1.x, s2.y - s1.y, c2.x - c1.x, c2.y - c1.y);
    let g = seg_sign(s1, s2, c1, c2);
    lemma_point_at_within(
        s1,
        s2,
        g * seg_num_s(s1, s2, c1, c2),
        g * seg_den(s1, s2, c1, c2),
        lim,
    );
}

} // verus!
