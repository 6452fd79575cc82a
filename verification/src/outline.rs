//! Outline fragments of joints: the ring of boundary points that the
//! members leaving one joint contribute to the section's outline.

use vstd::prelude::*;
use crate::arith::{
    floor_div, is_sqrt_floor, isqrt, lemma_round_sym_bounds, lemma_round_sym_negate,
    lemma_sqrt_floor_exists, lemma_sqrt_floor_unique, round_div, round_sym, round_sym_exec,
};
use crate::crossing::rectangle;
use crate::geometry::{
    det, det_exec, lemma_det_bound_small, Point, COORD_MAX, NODE_MAX, THICKNESS_MAX,
};
use crate::polygon::{all_within, succ};

verus! {

/// A member as seen from the joint it leaves: the position of its far
/// end and its thickness.
#[derive(Clone, Copy, Debug, PartialEq, Eq, Structural)]
pub struct Member {
    pub to: Point,
    pub thickness: i64,
}

/// The member leaves `from` with a length, inside the supported range.
pub open spec fn valid_member(from: Point, m: Member) -> bool {
    &&& from.within(NODE_MAX as int)
    &&& m.to.within(NODE_MAX as int)
    &&& m.to != from
    &&& 0 < m.thickness <= THICKNESS_MAX
}

/// The integer square root of `n`.
pub open spec fn sqrt_floor(n: int) -> int {
    choose|r: int| is_sqrt_floor(n, r)
}

/// The length of the member, rounded down to the grid.
pub open spec fn length(from: Point, m: Member) -> int {
    sqrt_floor(
        (m.to.x - from.x) * (m.to.x - from.x) + (m.to.y - from.y) * (m.to.y - from.y),
    )
}

/// The vector of half the member's thickness along the member, each
/// coordinate rounded to the grid, halves away from zero: the direction of
/// the member scaled to `thickness / 2`.
pub open spec fn offset(from: Point, m: Member) -> (int, int) {
    (
        round_sym(m.thickness * (m.to.x - from.x), 2 * length(from, m)),
        round_sym(m.thickness * (m.to.y - from.y), 2 * length(from, m)),
    )
}

/// The middle of the member, rounded down to the grid.
pub open spec fn middle(from: Point, m: Member) -> (int, int) {
    ((from.x + m.to.x) / 2, (from.y + m.to.y) / 2)
}

/// The point with the given coordinates.
pub open spec fn pt(x: int, y: int) -> Point {
    Point { x: x as i64, y: y as i64 }
}

/// The boundary points that a member contributes at a joint. With `f`
/// the offset along the member and `l` the same vector turned a quarter
/// to the left, they lie half a thickness beside and beyond three places
/// on the member: behind the joint, beyond the middle, beyond the far end.
#[derive(Clone, Copy, Debug, PartialEq, Eq, Structural)]
pub struct Corners {
    /// `joint - f + l`
    pub back_left: Point,
    /// `joint - f - l`
    pub back_right: Point,
    /// `middle + f + l`
    pub far_left: Point,
    /// `middle + f - l`
    pub far_right: Point,
    /// `end + f + l`
    pub tip_left: Point,
    /// `end + f - l`
    pub tip_right: Point,
}

/// The corners of member `m` at the joint `from`.
#[verifier::opaque]
pub open spec fn corners_of(from: Point, m: Member) -> Corners {
    let (fx, fy) = offset(from, m);
    let (mx, my) = middle(from, m);
    Corners {
        back_left: pt(from.x - fx - fy, from.y - fy + fx),
        back_right: pt(from.x - fx + fy, from.y - fy - fx),
        far_left: pt(mx + fx - fy, my + fy + fx),
        far_right: pt(mx + fx + fy, my + fy - fx),
        tip_left: pt(m.to.x + fx - fy, m.to.y + fy + fx),
        tip_right: pt(m.to.x + fx + fy, m.to.y + fy - fx),
    }
}

/// All six corners lie within the coordinate bound.
pub open spec fn corners_within(c: Corners) -> bool {
    &&& c.back_left.within(COORD_MAX as int)
    &&& c.back_right.within(COORD_MAX as int)
    &&& c.far_left.within(COORD_MAX as int)
    &&& c.far_right.within(COORD_MAX as int)
    &&& c.tip_left.within(COORD_MAX as int)
    &&& c.tip_right.within(COORD_MAX as int)
}

/// A coordinate difference is no longer than the rounded-down length.
proof fn lemma_leg_within_length(dx: int, dy: int, len: int)
    requires
        is_sqrt_floor(dx * dx + dy * dy, len),
    ensures
        -len <= dx <= len,
        -len <= dy <= len,
        (dx != 0 || dy != 0) ==> len >= 1,
{
    assert(-len <= dx <= len && -len <= dy <= len && ((dx != 0 || dy != 0) ==> len >= 1))
        by (nonlinear_arith)
        requires
            0 <= len,
            len * len <= dx * dx + dy * dy < (len + 1) * (len + 1),
    ;
}

/// A scaled coordinate difference is at most the thickness in magnitude.
proof fn lemma_scaled_leg(thickness: int, d: int, len: int)
    requires
        0 < thickness,
        1 <= len,
        -len <= d <= len,
    ensures
        -thickness <= round_sym(thickness * d, 2 * len) <= thickness,
{
    assert(-((2 * len) * thickness) <= thickness * d <= (2 * len) * thickness) by (nonlinear_arith)
        requires
            0 < thickness,
            1 <= len,
            -len <= d <= len,
    ;
    lemma_round_sym_bounds(thickness * d, 2 * len, thickness);
}

/// The length of a valid member is its integer square root and at least
/// one, and both coordinates of the offset are at most the thickness in
/// magnitude.
pub proof fn lemma_offset_bounds(from: Point, m: Member)
    requires
        valid_member(from, m),
    ensures
        is_sqrt_floor(
            (m.to.x - from.x) * (m.to.x - from.x) + (m.to.y - from.y) * (m.to.y - from.y),
            length(from, m),
        ),
        length(from, m) >= 1,
        -m.thickness <= offset(from, m).0 <= m.thickness,
        -m.thickness <= offset(from, m).1 <= m.thickness,
{
    let dx = m.to.x - from.x;
    let dy = m.to.y - from.y;
    assert(dx * dx + dy * dy >= 0) by (nonlinear_arith);
    lemma_sqrt_floor_exists(dx * dx + dy * dy);
    let len = length(from, m);
    lemma_leg_within_length(dx, dy, len);
    lemma_scaled_leg(m.thickness as int, dx, len);
    lemma_scaled_leg(m.thickness as int, dy, len);
}

/// One coordinate of the offset: `thickness * d / (2 * len)`, rounded.
fn scale_leg(thickness: i64, d: i64, len: i64) -> (f: i64)
    requires
        0 < thickness <= THICKNESS_MAX,
        1 <= len <= 0x8000_0000,
        -len <= d <= len,
    ensures
        f == round_sym(thickness * d, 2 * len),
        -thickness <= f <= thickness,
{
    let t: i128 = thickness as i128;
    let dd: i128 = d as i128;
    let l: i128 = len as i128;
    assert(-0x0400_0000_0000_0000 <= t * dd <= 0x0400_0000_0000_0000) by (nonlinear_arith)
        requires
            0 < t <= 0x0800_0000,
            -0x8000_0000 <= dd <= 0x8000_0000,
    ;
    proof {
        lemma_scaled_leg(thickness as int, d as int, len as int);
    }
    let q: i128 = round_sym_exec(t * dd, 2 * l);
    q as i64
}

/// Scales the direction from `(x0, y0)` to `(x1, y1)` to half of
/// `thickness`, rounding each coordinate to the grid.
pub fn normalize(x0: i64, y0: i64, x1: i64, y1: i64, thickness: i64) -> (f: (i64, i64))
    requires
        valid_member(
            (Point { x: x0, y: y0 }),
            (Member { to: Point { x: x1, y: y1 }, thickness }),
        ),
    ensures
        (f.0 as int, f.1 as int) == offset(
            (Point { x: x0, y: y0 }),
            (Member { to: Point { x: x1, y: y1 }, thickness }),
        ),
        -thickness <= f.0 <= thickness,
        -thickness <= f.1 <= thickness,
{
    let dx: i64 = x1 - x0;
    let dy: i64 = y1 - y0;
    assert(0 <= dx * dx <= 0x1000_0000_0000_0000) by (nonlinear_arith)
        requires
            -0x4000_0000 <= dx <= 0x4000_0000,
    ;
    assert(0 <= dy * dy <= 0x1000_0000_0000_0000) by (nonlinear_arith)
        requires
            -0x4000_0000 <= dy <= 0x4000_0000,
    ;
    let sq: u64 = (dx * dx + dy * dy) as u64;
    let len: u64 = isqrt(sq);
    proof {
        lemma_leg_within_length(dx as int, dy as int, len as int);
        let n = dx * dx + dy * dy;
        let r = sqrt_floor(n);
        assert(is_sqrt_floor(n, len as int));
        lemma_sqrt_floor_unique(n, len as int, r);
        assert(len * len <= 0x2000_0000_0000_0000);
        assert(len <= 0x8000_0000) by (nonlinear_arith)
            requires
                len * len <= 0x2000_0000_0000_0000,
                0 <= len,
        ;
    }
    let fx: i64 = scale_leg(thickness, dx, len as i64);
    let fy: i64 = scale_leg(thickness, dy, len as i64);
    (fx, fy)
}

/// Computes the corners of member `m` at the joint `from`.
pub fn corners(from: Point, m: &Member) -> (c: Corners)
    requires
        valid_member(from, *m),
    ensures
        c == corners_of(from, *m),
        corners_within(c),
{
    proof {
        reveal(corners_of);
    }
    let (fx, fy) = normalize(from.x, from.y, m.to.x, m.to.y, m.thickness);
    let mx: i64 = floor_div((from.x as i128) + (m.to.x as i128), 2) as i64;
    let my: i64 = floor_div((from.y as i128) + (m.to.y as i128), 2) as i64;
    Corners {
        back_left: Point { x: from.x - fx - fy, y: from.y - fy + fx },
        back_right: Point { x: from.x - fx + fy, y: from.y - fy - fx },
        far_left: Point { x: mx + fx - fy, y: my + fy + fx },
        far_right: Point { x: mx + fx + fy, y: my + fy - fx },
        tip_left: Point { x: m.to.x + fx - fy, y: m.to.y + fy + fx },
        tip_right: Point { x: m.to.x + fx + fy, y: m.to.y + fy - fx },
    }
}

/// Denominator of the meeting of the lines through `one two` and
/// `thr fou`; zero exactly when the lines are parallel.
pub open spec fn miter_den(one: Point, two: Point, thr: Point, fou: Point) -> int {
    det(one.x - two.x, one.y - two.y, thr.x - fou.x, thr.y - fou.y)
}

/// Numerators of the two coordinates of the meeting.
pub open spec fn miter_num(one: Point, two: Point, thr: Point, fou: Point) -> (int, int) {
    let part1 = det(one.x as int, one.y as int, two.x as int, two.y as int);
    let part2 = det(thr.x as int, thr.y as int, fou.x as int, fou.y as int);
    (
        part1 * (thr.x - fou.x) - (one.x - two.x) * part2,
        part1 * (thr.y - fou.y) - (one.y - two.y) * part2,
    )
}

/// The coordinates of the meeting, each rounded to the grid.
pub open spec fn miter_coords(one: Point, two: Point, thr: Point, fou: Point) -> (int, int) {
    let d = miter_den(one, two, thr, fou);
    let (nx, ny) = miter_num(one, two, thr, fou);
    if d > 0 {
        (round_div(nx, d), round_div(ny, d))
    } else {
        (round_div(-nx, -d), round_div(-ny, -d))
    }
}

/// The miter point of two boundary lines: the grid point nearest to
/// where the line through `one two` meets the line through `thr fou`.
/// Parallel lines have none, and a meeting beyond the coordinate bound
/// counts as none.
#[verifier::opaque]
pub open spec fn miter(one: Point, two: Point, thr: Point, fou: Point) -> Option<Point> {
    let (x, y) = miter_coords(one, two, thr, fou);
    if miter_den(one, two, thr, fou) != 0 && -COORD_MAX <= x <= COORD_MAX && -COORD_MAX <= y
        <= COORD_MAX {
        Some(pt(x, y))
    } else {
        None
    }
}

/// Computes the miter point of two boundary lines.
pub fn calc_intersect(one: Point, two: Point, thr: Point, fou: Point) -> (r: Option<Point>)
    requires
        one.within(COORD_MAX as int),
        two.within(COORD_MAX as int),
        thr.within(COORD_MAX as int),
        fou.within(COORD_MAX as int),
    ensures
        r == miter(one, two, thr, fou),
        r.is_some() ==> r.unwrap().within(COORD_MAX as int),
{
    proof {
        reveal(miter);
    }
    let ax: i128 = one.x as i128 - two.x as i128;
    let ay: i128 = one.y as i128 - two.y as i128;
    let bx: i128 = thr.x as i128 - fou.x as i128;
    let by: i128 = thr.y as i128 - fou.y as i128;
    let denom: i128 = det_exec(ax, ay, bx, by);
    if denom == 0 {
        return None;
    }
    let part1: i128 = det_exec(one.x as i128, one.y as i128, two.x as i128, two.y as i128);
    let part2: i128 = det_exec(thr.x as i128, thr.y as i128, fou.x as i128, fou.y as i128);
    proof {
        lemma_det_bound_small(one.x as int, one.y as int, two.x as int, two.y as int);
        lemma_det_bound_small(thr.x as int, thr.y as int, fou.x as int, fou.y as int);
    }
    let lim: i128 = 0x1000_0000_0000_0000_0000_0000;
    assert(-lim <= part1 * bx <= lim) by (nonlinear_arith)
        requires
            -0x2000_0000_0000_0000 <= part1 <= 0x2000_0000_0000_0000,
            -0x8000_0000 <= bx <= 0x8000_0000,
            lim == 0x1000_0000_0000_0000_0000_0000,
    ;
    assert(-lim <= ax * part2 <= lim) by (nonlinear_arith)
        requires
            -0x2000_0000_0000_0000 <= part2 <= 0x2000_0000_0000_0000,
            -0x8000_0000 <= ax <= 0x8000_0000,
            lim == 0x1000_0000_0000_0000_0000_0000,
    ;
    assert(-lim <= part1 * by <= lim) by (nonlinear_arith)
        requires
            -0x2000_0000_0000_0000 <= part1 <= 0x2000_0000_0000_0000,
            -0x8000_0000 <= by <= 0x8000_0000,
            lim == 0x1000_0000_0000_0000_0000_0000,
    ;
    assert(-lim <= ay * part2 <= lim) by (nonlinear_arith)
        requires
            -0x2000_0000_0000_0000 <= part2 <= 0x2000_0000_0000_0000,
            -0x8000_0000 <= ay <= 0x8000_0000,
            lim == 0x1000_0000_0000_0000_0000_0000,
    ;
    let nx: i128 = part1 * bx - ax * part2;
    let ny: i128 = part1 * by - ay * part2;
    let d: i128 = if denom < 0 { -denom } else { denom };
    let sx: i128 = if denom < 0 { -nx } else { nx };
    let sy: i128 = if denom < 0 { -ny } else { ny };
    let x: i128 = floor_div(2 * sx + d, 2 * d);
    let y: i128 = floor_div(2 * sy + d, 2 * d);
    if -(COORD_MAX as i128) <= x && x <= COORD_MAX as i128 && -(COORD_MAX as i128) <= y && y
        <= COORD_MAX as i128 {
        Some(Point { x: x as i64, y: y as i64 })
    } else {
        None
    }
}


/// The direction of the member: the vector from the joint to its far end.
pub open spec fn dir(from: Point, m: Member) -> (int, int) {
    (m.to.x - from.x, m.to.y - from.y)
}

/// The part of the full turn that a direction lies in, in the order of
/// rising angle from just above `-180` degrees: below the horizontal,
/// along it to the right, above it, along it to the left.
pub open spec fn sector(dx: int, dy: int) -> int {
    if dy < 0 {
        0
    } else if dy == 0 && dx > 0 {
        1
    } else if dy > 0 {
        2
    } else {
        3
    }
}

/// Member `a` leaves the joint at a smaller angle than member `b`,
/// angles measured counter-clockwise from the positive horizontal and
/// taken in `(-180, 180]` degrees.
pub open spec fn angle_lt(from: Point, a: Member, b: Member) -> bool {
    let (ax, ay) = dir(from, a);
    let (bx, by) = dir(from, b);
    sector(ax, ay) < sector(bx, by) || (sector(ax, ay) == sector(bx, by) && det(ax, ay, bx, by) > 0)
}

/// The two members leave the joint along one line, towards the same side
/// or towards opposite sides.
pub open spec fn collinear(from: Point, a: Member, b: Member) -> bool {
    let (ax, ay) = dir(from, a);
    let (bx, by) = dir(from, b);
    det(ax, ay, bx, by) == 0
}

/// The two members leave the joint in the same direction.
pub open spec fn same_dir(from: Point, a: Member, b: Member) -> bool {
    let (ax, ay) = dir(from, a);
    let (bx, by) = dir(from, b);
    sector(ax, ay) == sector(bx, by) && det(ax, ay, bx, by) == 0
}

/// The sector of a direction.
fn sector_exec(dx: i64, dy: i64) -> (s: u8)
    ensures
        s == sector(dx as int, dy as int),
{
    if dy < 0 {
        0
    } else if dy == 0 && dx > 0 {
        1
    } else if dy > 0 {
        2
    } else {
        3
    }
}

/// The determinant of the directions of two members.
fn turn(from: Point, a: &Member, b: &Member) -> (d: i128)
    requires
        valid_member(from, *a),
        valid_member(from, *b),
    ensures
        d == det(dir(from, *a).0, dir(from, *a).1, dir(from, *b).0, dir(from, *b).1),
{
    det_exec(
        a.to.x as i128 - from.x as i128,
        a.to.y as i128 - from.y as i128,
        b.to.x as i128 - from.x as i128,
        b.to.y as i128 - from.y as i128,
    )
}

/// Decides whether `a` leaves the joint at a smaller angle than `b`.
pub fn angle_less(from: Point, a: &Member, b: &Member) -> (r: bool)
    requires
        valid_member(from, *a),
        valid_member(from, *b),
    ensures
        r == angle_lt(from, *a, *b),
{
    let sa: u8 = sector_exec(a.to.x - from.x, a.to.y - from.y);
    let sb: u8 = sector_exec(b.to.x - from.x, b.to.y - from.y);
    if sa < sb {
        true
    } else if sa > sb {
        false
    } else {
        turn(from, a, b) > 0
    }
}

/// `s`, sorted by angle, with `m` put in behind every member that does
/// not leave at a greater angle.
pub open spec fn insert_by_angle(from: Point, s: Seq<Member>, m: Member) -> Seq<Member>
    decreases s.len(),
{
    if s.len() == 0 {
        seq![m]
    } else if angle_lt(from, m, s.last()) {
        insert_by_angle(from, s.drop_last(), m).push(s.last())
    } else {
        s.push(m)
    }
}

/// The members in the order of rising angle; members at equal angles
/// keep their order.
pub open spec fn sort_by_angle(from: Point, s: Seq<Member>) -> Seq<Member>
    decreases s.len(),
{
    if s.len() == 0 {
        Seq::empty()
    } else {
        insert_by_angle(from, sort_by_angle(from, s.drop_last()), s.last())
    }
}

/// Putting `m` in by angle places it at position `p` when every member
/// from `p` on leaves at a greater angle and the one before `p` does not.
proof fn lemma_insert_at(from: Point, s: Seq<Member>, m: Member, p: int)
    requires
        0 <= p <= s.len(),
        forall|j: int| p <= j < s.len() ==> angle_lt(from, m, #[trigger] s[j]),
        p > 0 ==> !angle_lt(from, m, s[p - 1]),
    ensures
        insert_by_angle(from, s, m) == s.insert(p, m),
    decreases s.len() - p,
{
    if p == s.len() {
        assert(s.insert(p, m) =~= s.push(m));
    } else {
        assert(angle_lt(from, m, s[s.len() - 1]));
        let t = s.drop_last();
        assert forall|j: int| p <= j < t.len() implies angle_lt(from, m, #[trigger] t[j]) by {
            assert(t[j] == s[j]);
        }
        lemma_insert_at(from, t, m, p);
        assert(t.insert(p, m).push(s.last()) =~= s.insert(p, m));
    }
}

/// Every member of the sequence is valid at the joint.
pub open spec fn valid_members(from: Point, s: Seq<Member>) -> bool {
    forall|i: int| 0 <= i < s.len() ==> valid_member(from, #[trigger] s[i])
}

/// Sorts the members by the angle at which they leave the joint.
pub fn sort_members(from: Point, members: &Vec<Member>) -> (out: Vec<Member>)
    requires
        valid_members(from, members@),
    ensures
        out@ == sort_by_angle(from, members@),
        valid_members(from, out@),
        out@.len() == members@.len(),
{
    let mut out: Vec<Member> = Vec::new();
    let mut i: usize = 0;
    assert(members@.take(0) =~= Seq::<Member>::empty());
    while i < members.len()
        invariant
            i <= members.len(),
            valid_members(from, members@),
            valid_members(from, out@),
            out@ == sort_by_angle(from, members@.take(i as int)),
            out@.len() == i,
        decreases members.len() - i,
    {
        let m = members[i];
        let mut p: usize = out.len();
        while p > 0 && angle_less(from, &m, &out[p - 1])
            invariant
                p <= out.len(),
                valid_member(from, m),
                valid_members(from, out@),
                forall|j: int| p <= j < out@.len() ==> angle_lt(from, m, #[trigger] out@[j]),
            decreases p,
        {
            p = p - 1;
        }
        proof {
            lemma_insert_at(from, out@, m, p as int);
            assert(members@.take(i + 1).drop_last() =~= members@.take(i as int));
            assert(members@.take(i + 1).last() == m);
        }
        out.insert(p, m);
        i = i + 1;
    }
    assert(members@.take(members.len() as int) =~= members@);
    out
}

/// Two members leave the joint along one line with unequal thickness.
pub open spec fn conflict(from: Point, s: Seq<Member>) -> bool {
    exists|i: int, j: int|
        0 <= i < j < s.len() && #[trigger] collinear(from, s[i], s[j]) && s[i].thickness
            != s[j].thickness
}

/// Looks for two members along one line with unequal thickness.
pub fn has_conflict(from: Point, members: &Vec<Member>) -> (b: bool)
    requires
        valid_members(from, members@),
    ensures
        b == conflict(from, members@),
{
    let n: usize = members.len();
    let mut j: usize = 0;
    while j < n
        invariant
            j <= n,
            n == members@.len(),
            valid_members(from, members@),
            forall|a: int, b: int|
                0 <= a < b < j ==> !(#[trigger] collinear(from, members@[a], members@[b])
                    && members@[a].thickness != members@[b].thickness),
        decreases n - j,
    {
        let mut i: usize = 0;
        while i < j
            invariant
                i <= j < n,
                n == members@.len(),
                valid_members(from, members@),
                forall|a: int, b: int|
                    0 <= a < b < j ==> !(#[trigger] collinear(from, members@[a], members@[b])
                        && members@[a].thickness != members@[b].thickness),
                forall|a: int|
                    0 <= a < i ==> !(#[trigger] collinear(from, members@[a], members@[j as int])
                        && members@[a].thickness != members@[j as int].thickness),
            decreases j - i,
        {
            if turn(from, &members[i], &members[j]) == 0 && members[i].thickness
                != members[j].thickness {
                assert(collinear(from, members@[i as int], members@[j as int]));
                return true;
            }
            i = i + 1;
        }
        j = j + 1;
    }
    false
}

/// The angular slots of a joint: the sorted members without those that
/// leave in the direction of the member before them.
pub open spec fn slots(from: Point, s: Seq<Member>) -> Seq<Member>
    decreases s.len(),
{
    if s.len() == 0 {
        Seq::empty()
    } else if s.len() >= 2 && same_dir(from, s[s.len() - 2], s.last()) {
        slots(from, s.drop_last())
    } else {
        slots(from, s.drop_last()).push(s.last())
    }
}

/// Drops every member that leaves in the direction of the one before it.
pub fn collapse_members(from: Point, sorted: &Vec<Member>) -> (out: Vec<Member>)
    requires
        valid_members(from, sorted@),
    ensures
        out@ == slots(from, sorted@),
        valid_members(from, out@),
        out@.len() <= sorted@.len(),
        sorted@.len() > 0 ==> out@.len() > 0,
{
    let mut out: Vec<Member> = Vec::new();
    let mut i: usize = 0;
    assert(sorted@.take(0) =~= Seq::<Member>::empty());
    while i < sorted.len()
        invariant
            i <= sorted.len(),
            valid_members(from, sorted@),
            valid_members(from, out@),
            out@ == slots(from, sorted@.take(i as int)),
            out@.len() <= i,
            i > 0 ==> out@.len() > 0,
        decreases sorted.len() - i,
    {
        let m = sorted[i];
        let repeat: bool = if i > 0 {
            let before = sorted[i - 1];
            let sa: u8 = sector_exec(before.to.x - from.x, before.to.y - from.y);
            let sb: u8 = sector_exec(m.to.x - from.x, m.to.y - from.y);
            sa == sb && turn(from, &before, &m) == 0
        } else {
            false
        };
        proof {
            let t = sorted@.take(i + 1);
            assert(t.drop_last() =~= sorted@.take(i as int));
            assert(t.last() == m);
            if i > 0 {
                assert(t[t.len() - 2] == sorted@[i - 1]);
            }
        }
        if !repeat {
            out.push(m);
        }
        i = i + 1;
    }
    assert(sorted@.take(sorted.len() as int) =~= sorted@);
    out
}

/// The boundary points between two neighbouring slots `a` and `b`: the
/// two far corners of `a`, and the miter point where the left boundary
/// of `a` meets the right boundary of `b`, if the two are not parallel.
pub open spec fn fragment(from: Point, a: Member, b: Member) -> Seq<Point> {
    let ca = corners_of(from, a);
    let cb = corners_of(from, b);
    match miter(ca.back_left, ca.far_left, cb.back_right, cb.tip_right) {
        Some(j) => seq![ca.far_right, ca.far_left, j],
        None => seq![ca.far_right, ca.far_left],
    }
}

/// The boundary points of the first `k` pairs of neighbouring slots; the
/// last slot is paired with the first.
pub open spec fn fragments(from: Point, s: Seq<Member>, k: int) -> Seq<Point>
    decreases k,
{
    if k <= 0 {
        Seq::empty()
    } else {
        fragments(from, s, k - 1) + fragment(from, s[k - 1], s[succ(k - 1, s.len() as int)])
    }
}

/// The squared end of a joint with a single member. A member that is
/// the whole section (`lone`) is boxed in from behind the joint to beyond
/// its far end; any other from behind the joint to beyond its middle.
pub open spec fn cap(from: Point, m: Member, lone: bool) -> Seq<Point> {
    let c = corners_of(from, m);
    if lone {
        seq![c.back_left, c.back_right, c.tip_right, c.tip_left]
    } else {
        seq![c.far_right, c.far_left, c.back_left, c.back_right]
    }
}

/// The ring of boundary points around a joint with the given slots: none
/// without a slot, a squared end for one, and the fragments of all pairs
/// of neighbours for more.
pub open spec fn joint_ring(from: Point, s: Seq<Member>, lone: bool) -> Seq<Point> {
    if s.len() == 0 {
        Seq::empty()
    } else if s.len() == 1 {
        cap(from, s[0], lone)
    } else {
        fragments(from, s, s.len() as int)
    }
}

/// Generates the ring of boundary points around a joint from its slots.
pub fn ring_of_joint(from: Point, slots: &Vec<Member>, lone: bool) -> (ring: Vec<Point>)
    requires
        valid_members(from, slots@),
    ensures
        ring@ == joint_ring(from, slots@, lone),
        all_within(ring@),
        ring@.len() <= 3 * slots@.len() + 1,
{
    let n: usize = slots.len();
    let mut points: Vec<Point> = Vec::new();
    if n == 0 {
        return points;
    }
    if n == 1 {
        let c = corners(from, &slots[0]);
        if lone {
            points.push(c.back_left);
            points.push(c.back_right);
            points.push(c.tip_right);
            points.push(c.tip_left);
        } else {
            points.push(c.far_right);
            points.push(c.far_left);
            points.push(c.back_left);
            points.push(c.back_right);
        }
        assert(points@ =~= cap(from, slots@[0], lone));
        return points;
    }
    let mut count: usize = 0;
    while count < n
        invariant
            count <= n,
            n == slots@.len(),
            n >= 2,
            valid_members(from, slots@),
            points@ == fragments(from, slots@, count as int),
            all_within(points@),
            points@.len() <= 3 * count,
        decreases n - count,
    {
        let next: usize = if count + 1 < n {
            count + 1
        } else {
            0
        };
        let ca = corners(from, &slots[count]);
        let cb = corners(from, &slots[next]);
        let ghost before = points@;
        points.push(ca.far_right);
        points.push(ca.far_left);
        match calc_intersect(ca.back_left, ca.far_left, cb.back_right, cb.tip_right) {
            Some(jp) => {
                points.push(jp);
            },
            None => {},
        }
        proof {
            assert(points@ =~= before + fragment(from, slots@[count as int], slots@[next as int]));
        }
        count = count + 1;
    }
    points
}


/// The order by angle is strict: no member leaves at a smaller angle
/// than itself, and of two members at most one leaves at the smaller
/// angle.
pub proof fn lemma_angle_lt_asymmetric(from: Point, a: Member, b: Member)
    ensures
        !angle_lt(from, a, a),
        angle_lt(from, a, b) ==> !angle_lt(from, b, a),
{
    let (ax, ay) = dir(from, a);
    let (bx, by) = dir(from, b);
    assert(det(ax, ay, ax, ay) == 0) by (nonlinear_arith)
        requires
            det(ax, ay, ax, ay) == ax * ay - ay * ax,
    ;
    assert(det(bx, by, ax, ay) == -det(ax, ay, bx, by)) by (nonlinear_arith)
        requires
            det(bx, by, ax, ay) == bx * ay - by * ax,
            det(ax, ay, bx, by) == ax * by - ay * bx,
    ;
}

proof fn lemma_insert_rearranges(from: Point, s: Seq<Member>, m: Member)
    ensures
        insert_by_angle(from, s, m).len() == s.len() + 1,
        insert_by_angle(from, s, m).to_multiset() == s.to_multiset().insert(m),
    decreases s.len(),
{
    let out = insert_by_angle(from, s, m);
    if s.len() == 0 {
        assert(out =~= Seq::<Member>::empty().push(m));
        vstd::seq_lib::to_multiset_build(Seq::<Member>::empty(), m);
        assert(s =~= Seq::<Member>::empty());
    } else if angle_lt(from, m, s.last()) {
        let t = s.drop_last();
        lemma_insert_rearranges(from, t, m);
        let u = insert_by_angle(from, t, m);
        assert(out == u.push(s.last()));
        vstd::seq_lib::to_multiset_build(u, s.last());
        vstd::seq_lib::to_multiset_build(t, s.last());
        assert(t.push(s.last()) =~= s);
        assert(out.to_multiset() =~= s.to_multiset().insert(m));
    } else {
        assert(out == s.push(m));
        vstd::seq_lib::to_multiset_build(s, m);
    }
}

/// Sorting by angle rearranges the members: it neither adds nor drops one.
pub proof fn lemma_sort_by_angle(from: Point, s: Seq<Member>)
    ensures
        sort_by_angle(from, s).len() == s.len(),
        sort_by_angle(from, s).to_multiset() == s.to_multiset(),
    decreases s.len(),
{
    if s.len() == 0 {
        assert(sort_by_angle(from, s) =~= s);
    } else {
        lemma_sort_by_angle(from, s.drop_last());
        lemma_insert_rearranges(from, sort_by_angle(from, s.drop_last()), s.last());
        vstd::seq_lib::to_multiset_build(s.drop_last(), s.last());
        assert(s.drop_last().push(s.last()) =~= s);
    }
}

/// A joint with two members along one line and of unequal thickness has
/// no ring of slots: the members are in conflict.
pub proof fn lemma_conflict(from: Point, s: Seq<Member>, i: int, j: int)
    requires
        0 <= i < s.len(),
        0 <= j < s.len(),
        i != j,
        collinear(from, s[i], s[j]),
        s[i].thickness != s[j].thickness,
    ensures
        conflict(from, s),
{
    let (ax, ay) = dir(from, s[i]);
    let (bx, by) = dir(from, s[j]);
    if i < j {
        assert(collinear(from, s[i], s[j]));
    } else {
        assert(det(bx, by, ax, ay) == -det(ax, ay, bx, by)) by (nonlinear_arith)
            requires
                det(bx, by, ax, ay) == bx * ay - by * ax,
                det(ax, ay, bx, by) == ax * by - ay * bx,
        ;
        assert(collinear(from, s[j], s[i]));
    }
}


/// Seen from its far end, a member has the same length and the opposite
/// offset.
pub proof fn lemma_offset_opposite(from: Point, m: Member)
    requires
        valid_member(from, m),
    ensures
        valid_member(m.to, (Member { to: from, thickness: m.thickness })),
        length(m.to, (Member { to: from, thickness: m.thickness })) == length(from, m),
        offset(m.to, (Member { to: from, thickness: m.thickness })) == (
            -offset(from, m).0,
            -offset(from, m).1,
        ),
        middle(m.to, (Member { to: from, thickness: m.thickness })) == middle(from, m),
{
    let back = Member { to: from, thickness: m.thickness };
    let dx = m.to.x - from.x;
    let dy = m.to.y - from.y;
    assert((-dx) * (-dx) + (-dy) * (-dy) == dx * dx + dy * dy) by (nonlinear_arith);
    assert(from.x - m.to.x == -dx);
    assert(from.y - m.to.y == -dy);
    lemma_offset_bounds(from, m);
    let len = length(from, m);
    assert(length(m.to, back) == len);
    assert(m.thickness * (-dx) == -(m.thickness * dx)) by (nonlinear_arith);
    assert(m.thickness * (-dy) == -(m.thickness * dy)) by (nonlinear_arith);
    lemma_round_sym_negate(m.thickness * dx, 2 * len);
    lemma_round_sym_negate(m.thickness * dy, 2 * len);
}

/// The coordinates of the corners of a valid member are the sums they
/// are defined by, and lie within the coordinate bound.
pub proof fn lemma_corners_exact(from: Point, m: Member)
    requires
        valid_member(from, m),
    ensures
        ({
            let (fx, fy) = offset(from, m);
            let (mx, my) = middle(from, m);
            let c = corners_of(from, m);
            &&& corners_within(c)
            &&& c.back_left.x == from.x - fx - fy && c.back_left.y == from.y - fy + fx
            &&& c.back_right.x == from.x - fx + fy && c.back_right.y == from.y - fy - fx
            &&& c.far_left.x == mx + fx - fy && c.far_left.y == my + fy + fx
            &&& c.far_right.x == mx + fx + fy && c.far_right.y == my + fy - fx
            &&& c.tip_left.x == m.to.x + fx - fy && c.tip_left.y == m.to.y + fy + fx
            &&& c.tip_right.x == m.to.x + fx + fy && c.tip_right.y == m.to.y + fy - fx
        }),
{
    reveal(corners_of);
    lemma_offset_bounds(from, m);
}

/// The squared end around a lone member is the same rectangle from
/// either end of the member: the ring at the far end is the ring at the
/// joint, started two corners later.
pub proof fn lemma_cap_from_far_end(from: Point, m: Member)
    requires
        valid_member(from, m),
    ensures
        ({
            let near = cap(from, m, true);
            let far = cap(m.to, (Member { to: from, thickness: m.thickness }), true);
            far == seq![near[2], near[3], near[0], near[1]]
        }),
{
    let back = Member { to: from, thickness: m.thickness };
    reveal(corners_of);
    lemma_offset_opposite(from, m);
    let near = cap(from, m, true);
    let far = cap(m.to, back, true);
    assert(far =~= seq![near[2], near[3], near[0], near[1]]);
}


/// The rounded offset of the member lies exactly along the member, as it
/// does for every member along an axis of the grid.
pub open spec fn offset_along(from: Point, m: Member) -> bool {
    det(dir(from, m).0, dir(from, m).1, offset(from, m).0, offset(from, m).1) == 0
}

/// The squared end around a lone member is a rectangle where the rounded
/// offset lies along the member.
pub proof fn lemma_cap_rectangle(from: Point, m: Member)
    requires
        valid_member(from, m),
        offset_along(from, m),
    ensures
        rectangle(cap(from, m, true)),
{
    lemma_corners_exact(from, m);
    let (fx, fy) = offset(from, m);
    let (dx, dy) = dir(from, m);
    let r = cap(from, m, true);
    assert(r[1].x - r[0].x == 2 * fy);
    assert(r[1].y - r[0].y == -2 * fx);
    assert(r[2].x - r[1].x == dx + 2 * fx);
    assert(r[2].y - r[1].y == dy + 2 * fy);
    assert((2 * fy) * (dx + 2 * fx) + (-2 * fx) * (dy + 2 * fy) == 0) by (nonlinear_arith)
        requires
            dx * fy - dy * fx == 0,
    ;
}


/// The order by angle is transitive.
pub proof fn lemma_angle_lt_transitive(from: Point, a: Member, b: Member, c: Member)
    requires
        angle_lt(from, a, b),
        angle_lt(from, b, c),
    ensures
        angle_lt(from, a, c),
{
    let (ax, ay) = dir(from, a);
    let (bx, by) = dir(from, b);
    let (cx, cy) = dir(from, c);
    if sector(ax, ay) == sector(bx, by) && sector(bx, by) == sector(cx, cy) {
        assert(det(ax, ay, cx, cy) > 0) by (nonlinear_arith)
            requires
                det(ax, ay, bx, by) == ax * by - ay * bx,
                det(bx, by, cx, cy) == bx * cy - by * cx,
                det(ax, ay, cx, cy) == ax * cy - ay * cx,
                det(ax, ay, bx, by) > 0,
                det(bx, by, cx, cy) > 0,
                (ay < 0 && by < 0 && cy < 0) || (ay > 0 && by > 0 && cy > 0) || (ay == 0 && by == 0
                    && cy == 0),
        ;
    }
}

/// "Not at a greater angle" is transitive.
pub proof fn lemma_angle_le_transitive(from: Point, a: Member, b: Member, c: Member)
    requires
        !angle_lt(from, b, a),
        !angle_lt(from, c, b),
    ensures
        !angle_lt(from, c, a),
{
    let (ax, ay) = dir(from, a);
    let (bx, by) = dir(from, b);
    let (cx, cy) = dir(from, c);
    if sector(ax, ay) == sector(bx, by) && sector(bx, by) == sector(cx, cy) {
        assert(det(cx, cy, ax, ay) <= 0) by (nonlinear_arith)
            requires
                det(bx, by, ax, ay) == bx * ay - by * ax,
                det(cx, cy, bx, by) == cx * by - cy * bx,
                det(cx, cy, ax, ay) == cx * ay - cy * ax,
                det(bx, by, ax, ay) <= 0,
                det(cx, cy, bx, by) <= 0,
                (ay < 0 && by < 0 && cy < 0) || (ay > 0 && by > 0 && cy > 0) || (ay == 0 && by == 0
                    && cy == 0),
        ;
    }
}

/// Two members leave in the same direction, or one of them at the
/// smaller angle.
pub proof fn lemma_angle_total(from: Point, a: Member, b: Member)
    ensures
        angle_lt(from, a, b) || angle_lt(from, b, a) || same_dir(from, a, b),
        same_dir(from, a, b) == same_dir(from, b, a),
{
    let (ax, ay) = dir(from, a);
    let (bx, by) = dir(from, b);
    assert(det(bx, by, ax, ay) == -det(ax, ay, bx, by)) by (nonlinear_arith)
        requires
            det(bx, by, ax, ay) == bx * ay - by * ax,
            det(ax, ay, bx, by) == ax * by - ay * bx,
    ;
}

/// Every member leaves at a smaller angle than all members behind it.
pub open spec fn strictly_sorted(from: Point, s: Seq<Member>) -> bool {
    forall|i: int, j: int| 0 <= i < j < s.len() ==> angle_lt(from, #[trigger] s[i], #[trigger] s[j])
}

/// No member leaves at a smaller angle than a member before it.
pub open spec fn weakly_sorted(from: Point, s: Seq<Member>) -> bool {
    forall|i: int, j: int| 0 <= i < j < s.len() ==> !angle_lt(from, #[trigger] s[j], #[trigger] s[i])
}

/// No two members leave in the same direction.
pub open spec fn distinct_dirs(from: Point, s: Seq<Member>) -> bool {
    forall|i: int, j: int| 0 <= i < j < s.len() ==> !same_dir(from, #[trigger] s[i], #[trigger] s[j])
}

/// A member of a sequence with `m` put in is `m` or a member of the
/// sequence.
proof fn lemma_insert_member(from: Point, s: Seq<Member>, m: Member, k: int)
    requires
        0 <= k < insert_by_angle(from, s, m).len(),
    ensures
        insert_by_angle(from, s, m)[k] == m || s.contains(insert_by_angle(from, s, m)[k]),
    decreases s.len(),
{
    let out = insert_by_angle(from, s, m);
    if s.len() == 0 {
    } else if angle_lt(from, m, s.last()) {
        let t = s.drop_last();
        let u = insert_by_angle(from, t, m);
        if k < u.len() {
            lemma_insert_member(from, t, m, k);
            if u[k] != m {
                let i = choose|i: int| 0 <= i < t.len() && t[i] == u[k];
                assert(s[i] == u[k]);
            }
        } else {
            assert(out[k] == s[s.len() - 1]);
        }
    } else {
        if k < s.len() {
            assert(out[k] == s[k]);
        }
    }
}

/// Putting a member in keeps a sorted sequence sorted, strictly so if
/// the sequence was strictly sorted and the member leaves in a direction
/// of its own.
proof fn lemma_insert_sorted(from: Point, s: Seq<Member>, m: Member)
    requires
        weakly_sorted(from, s),
    ensures
        weakly_sorted(from, insert_by_angle(from, s, m)),
        strictly_sorted(from, s) && (forall|i: int|
            0 <= i < s.len() ==> !same_dir(from, #[trigger] s[i], m)) ==> strictly_sorted(
            from,
            insert_by_angle(from, s, m),
        ),
    decreases s.len(),
{
    let out = insert_by_angle(from, s, m);
    let strict = strictly_sorted(from, s) && (forall|i: int|
        0 <= i < s.len() ==> !same_dir(from, #[trigger] s[i], m));
    if s.len() == 0 {
    } else if angle_lt(from, m, s.last()) {
        let t = s.drop_last();
        let last = s.last();
        assert forall|i: int, j: int| 0 <= i < j < t.len() implies !angle_lt(
            from,
            #[trigger] t[j],
            #[trigger] t[i],
        ) by {
            assert(t[i] == s[i] && t[j] == s[j]);
        }
        if strict {
            assert forall|i: int, j: int| 0 <= i < j < t.len() implies angle_lt(
                from,
                #[trigger] t[i],
                #[trigger] t[j],
            ) by {
                assert(t[i] == s[i] && t[j] == s[j]);
            }
            assert forall|i: int| 0 <= i < t.len() implies !same_dir(from, #[trigger] t[i], m) by {
                assert(t[i] == s[i]);
            }
        }
        lemma_insert_sorted(from, t, m);
        let u = insert_by_angle(from, t, m);
        assert(out == u.push(last));
        lemma_angle_lt_asymmetric(from, m, last);
        assert forall|i: int, j: int| 0 <= i < j < out.len() implies !angle_lt(
            from,
            #[trigger] out[j],
            #[trigger] out[i],
        ) by {
            if j < u.len() {
                assert(out[i] == u[i] && out[j] == u[j]);
            } else {
                assert(out[j] == last);
                assert(out[i] == u[i]);
                lemma_insert_member(from, t, m, i);
                if u[i] != m {
                    let x = choose|x: int| 0 <= x < t.len() && t[x] == u[i];
                    assert(s[x] == u[i]);
                    assert(!angle_lt(from, s[s.len() - 1], s[x]));
                }
            }
        }
        if strict {
            assert forall|i: int, j: int| 0 <= i < j < out.len() implies angle_lt(
                from,
                #[trigger] out[i],
                #[trigger] out[j],
            ) by {
                if j < u.len() {
                    assert(out[i] == u[i] && out[j] == u[j]);
                } else {
                    assert(out[j] == last);
                    assert(out[i] == u[i]);
                    lemma_insert_member(from, t, m, i);
                    if u[i] != m {
                        let x = choose|x: int| 0 <= x < t.len() && t[x] == u[i];
                        assert(s[x] == u[i]);
                        assert(angle_lt(from, s[x], s[s.len() - 1]));
                    }
                }
            }
        }
    } else {
        let last = s.last();
        assert(out == s.push(m));
        assert forall|i: int, j: int| 0 <= i < j < out.len() implies !angle_lt(
            from,
            #[trigger] out[j],
            #[trigger] out[i],
        ) by {
            if j < s.len() {
                assert(out[i] == s[i] && out[j] == s[j]);
            } else {
                assert(out[j] == m);
                assert(out[i] == s[i]);
                if i < s.len() - 1 {
                    assert(!angle_lt(from, s[s.len() - 1], s[i]));
                    lemma_angle_le_transitive(from, s[i], last, m);
                }
            }
        }
        if strict {
            assert(!same_dir(from, s[s.len() - 1], m));
            lemma_angle_total(from, last, m);
            assert(angle_lt(from, last, m));
            assert forall|i: int, j: int| 0 <= i < j < out.len() implies angle_lt(
                from,
                #[trigger] out[i],
                #[trigger] out[j],
            ) by {
                if j < s.len() {
                    assert(out[i] == s[i] && out[j] == s[j]);
                } else {
                    assert(out[j] == m);
                    assert(out[i] == s[i]);
                    if i < s.len() - 1 {
                        assert(angle_lt(from, s[i], s[s.len() - 1]));
                        lemma_angle_lt_transitive(from, s[i], last, m);
                    }
                }
            }
        }
    }
}

/// Sorted members stand in the order of rising angle, and strictly so if
/// no two of them leave in the same direction.
pub proof fn lemma_sort_sorted(from: Point, s: Seq<Member>)
    ensures
        weakly_sorted(from, sort_by_angle(from, s)),
        distinct_dirs(from, s) ==> strictly_sorted(from, sort_by_angle(from, s)),
    decreases s.len(),
{
    if s.len() > 0 {
        let t = s.drop_last();
        let u = sort_by_angle(from, t);
        lemma_sort_sorted(from, t);
        lemma_sort_by_angle(from, t);
        if distinct_dirs(from, s) {
            assert forall|i: int, j: int| 0 <= i < j < t.len() implies !same_dir(
                from,
                #[trigger] t[i],
                #[trigger] t[j],
            ) by {
                assert(t[i] == s[i] && t[j] == s[j]);
            }
            assert forall|i: int| 0 <= i < u.len() implies !same_dir(from, #[trigger] u[i], s.last()) by {
                assert(u.contains(u[i]));
                vstd::seq_lib::to_multiset_contains(u, u[i]);
                vstd::seq_lib::to_multiset_contains(t, u[i]);
                let x = choose|x: int| 0 <= x < t.len() && t[x] == u[i];
                assert(s[x] == u[i]);
                assert(!same_dir(from, s[x], s[s.len() - 1]));
            }
        }
        lemma_insert_sorted(from, u, s.last());
    }
}

/// A strictly sorted and a sorted arrangement of the same members are
/// equal.
proof fn lemma_sorted_unique(from: Point, a: Seq<Member>, b: Seq<Member>)
    requires
        strictly_sorted(from, a),
        weakly_sorted(from, b),
        a.to_multiset() == b.to_multiset(),
    ensures
        a == b,
    decreases a.len(),
{
    vstd::seq_lib::to_multiset_len(a);
    vstd::seq_lib::to_multiset_len(b);
    if a.len() == 0 {
        assert(a =~= b);
    } else {
        let n = a.len() as int;
        let x = a[n - 1];
        let y = b[n - 1];
        assert(a.contains(x));
        assert(b.contains(y));
        vstd::seq_lib::to_multiset_contains(a, x);
        vstd::seq_lib::to_multiset_contains(b, x);
        vstd::seq_lib::to_multiset_contains(a, y);
        vstd::seq_lib::to_multiset_contains(b, y);
        let j = choose|j: int| 0 <= j < b.len() && b[j] == x;
        let i = choose|i: int| 0 <= i < a.len() && a[i] == y;
        if i < n - 1 {
            assert(angle_lt(from, a[i], a[n - 1]));
            if j < n - 1 {
                assert(!angle_lt(from, b[n - 1], b[j]));
            }
            lemma_angle_lt_asymmetric(from, y, y);
            assert(false);
        }
        assert(x == y);
        let a0 = a.drop_last();
        let b0 = b.drop_last();
        assert(a0.push(x) =~= a);
        assert(b0.push(x) =~= b);
        vstd::seq_lib::to_multiset_build(a0, x);
        vstd::seq_lib::to_multiset_build(b0, x);
        assert forall|v: Member| a0.to_multiset().count(v) == b0.to_multiset().count(v) by {
            if v == x {
                vstd::multiset::lemma_insert_increases_count_by_1(a0.to_multiset(), x);
                vstd::multiset::lemma_insert_increases_count_by_1(b0.to_multiset(), x);
            } else {
                vstd::multiset::lemma_insert_other_elements_unchanged(a0.to_multiset(), x, v);
                vstd::multiset::lemma_insert_other_elements_unchanged(b0.to_multiset(), x, v);
            }
        }
        assert(a0.to_multiset() =~= b0.to_multiset());
        assert forall|p: int, q: int| 0 <= p < q < a0.len() implies angle_lt(
            from,
            #[trigger] a0[p],
            #[trigger] a0[q],
        ) by {
            assert(a0[p] == a[p] && a0[q] == a[q]);
        }
        assert forall|p: int, q: int| 0 <= p < q < b0.len() implies !angle_lt(
            from,
            #[trigger] b0[q],
            #[trigger] b0[p],
        ) by {
            assert(b0[p] == b[p] && b0[q] == b[q]);
        }
        lemma_sorted_unique(from, a0, b0);
    }
}

/// The order by angle does not depend on the order in which the members
/// come: members that leave a joint in pairwise distinct directions are
/// sorted into the same sequence from every arrangement.
pub proof fn lemma_sort_ignores_order(from: Point, s: Seq<Member>, t: Seq<Member>)
    requires
        distinct_dirs(from, s),
        s.to_multiset() == t.to_multiset(),
    ensures
        sort_by_angle(from, s) == sort_by_angle(from, t),
{
    lemma_sort_sorted(from, s);
    lemma_sort_sorted(from, t);
    lemma_sort_by_angle(from, s);
    lemma_sort_by_angle(from, t);
    lemma_sorted_unique(from, sort_by_angle(from, s), sort_by_angle(from, t));
}

} // verus!
