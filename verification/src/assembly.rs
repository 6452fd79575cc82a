//! From joints to the outline of the section: the rings of all joints are
//! merged by repeated union, and the result is centred on its centroid.

use vstd::prelude::*;
use crate::arith::{round_div, round_div_exec};
use crate::clipping::{clip_model, lemma_clip_without_crossing, too_large};
use crate::crossing::{lemma_parallelogram_no_crossing, no_crossing, parallelogram, rectangle};
use crate::geometry::{Point, COORD_MAX};
use crate::graph::{EdgeEntry, NodeWeight};
use crate::labelling::{is_probe, random_probe};
use crate::outline::{
    cap, lemma_cap_from_far_end, lemma_cap_rectangle, lemma_corners_exact, lemma_offset_opposite,
    offset_along, pt, valid_member, Member,
};
use crate::polygon::{all_within, lemma_ring_of_points, rings_of, succ, CPolygon};
use crate::section::{
    at, joint_outline, lemma_single_member_rectangle, valid_graph, Section, SectionError,
};

verus! {

/// The two far probes of one union: one for the subject's first vertex,
/// one for the clip polygon's.
#[derive(Clone, Copy, Debug, PartialEq, Eq, Structural)]
pub struct Probes {
    pub subject: Point,
    pub clip: Point,
}

/// The outline of a section.
#[derive(Debug)]
pub struct Outline {
    /// The rings of the outline, the outer ring first, moved so that the
    /// centroid lies at the origin.
    pub rings: Vec<Vec<Point>>,
    /// The area centroid of the outer ring before it was moved, if the
    /// ring encloses an area.
    pub centroid: Option<Point>,
}

/// Longest ring whose centroid is computed.
pub const MAX_RING: usize = 0xffff_ffff;

/// The rings of the joints of the first `k` nodes, in the order of the
/// nodes; joints without members contribute none. The first joint that
/// is refused decides the error.
pub open spec fn joint_rings(nodes: Seq<NodeWeight>, edges: Seq<EdgeEntry>, k: int) -> Result<
    Seq<Seq<Point>>,
    SectionError,
>
    decreases k,
{
    if k <= 0 {
        Ok(Seq::empty())
    } else {
        match joint_rings(nodes, edges, k - 1) {
            Err(e) => Err(e),
            Ok(rs) => match joint_outline(nodes, edges, (k - 1) as u32) {
                Err(e) => Err(e),
                Ok(r) => if r.len() == 0 {
                    Ok(rs)
                } else {
                    Ok(rs.push(r))
                },
            },
        }
    }
}

/// `s`, ordered by falling length, with `r` put in behind every ring
/// that is not shorter.
pub open spec fn insert_by_len(s: Seq<Seq<Point>>, r: Seq<Point>) -> Seq<Seq<Point>>
    decreases s.len(),
{
    if s.len() == 0 {
        seq![r]
    } else if r.len() > s.last().len() {
        insert_by_len(s.drop_last(), r).push(s.last())
    } else {
        s.push(r)
    }
}

/// The rings in the order of falling length; rings of equal length keep
/// their order.
pub open spec fn arranged(s: Seq<Seq<Point>>) -> Seq<Seq<Point>>
    decreases s.len(),
{
    if s.len() == 0 {
        Seq::empty()
    } else {
        insert_by_len(arranged(s.drop_last()), s.last())
    }
}

proof fn lemma_insert_len_at(s: Seq<Seq<Point>>, r: Seq<Point>, p: int)
    requires
        0 <= p <= s.len(),
        forall|j: int| p <= j < s.len() ==> r.len() > (#[trigger] s[j]).len(),
        p > 0 ==> r.len() <= s[p - 1].len(),
    ensures
        insert_by_len(s, r) == s.insert(p, r),
    decreases s.len() - p,
{
    if p == s.len() {
        assert(s.insert(p, r) =~= s.push(r));
    } else {
        assert(r.len() > s[s.len() - 1].len());
        let t = s.drop_last();
        assert forall|j: int| p <= j < t.len() implies r.len() > (#[trigger] t[j]).len() by {
            assert(t[j] == s[j]);
        }
        lemma_insert_len_at(t, r, p);
        assert(t.insert(p, r).push(s.last()) =~= s.insert(p, r));
    }
}

/// Every ring lies within the coordinate bound.
pub open spec fn rings_within(rings: Seq<Vec<Point>>) -> bool {
    forall|i: int| 0 <= i < rings.len() ==> all_within(#[trigger] rings[i]@)
}

/// Copies a ring.
fn copy_ring(ring: &Vec<Point>) -> (out: Vec<Point>)
    ensures
        out@ == ring@,
{
    let mut out: Vec<Point> = Vec::new();
    let mut i: usize = 0;
    while i < ring.len()
        invariant
            i <= ring.len(),
            out@ == ring@.take(i as int),
        decreases ring.len() - i,
    {
        out.push(ring[i]);
        assert(ring@.take(i as int).push(ring@[i as int]) =~= ring@.take(i + 1));
        i = i + 1;
    }
    assert(ring@.take(ring.len() as int) =~= ring@);
    out
}

/// Orders the rings by falling number of points.
pub fn arrange(rings: &Vec<Vec<Point>>) -> (out: Vec<Vec<Point>>)
    ensures
        rings_of(out@) == arranged(rings_of(rings@)),
        out@.len() == rings@.len(),
        rings_within(rings@) ==> rings_within(out@),
{
    let ghost all = rings_of(rings@);
    let mut out: Vec<Vec<Point>> = Vec::new();
    let mut i: usize = 0;
    assert(all.take(0) =~= Seq::<Seq<Point>>::empty());
    assert(rings_of(out@) =~= arranged(all.take(0)));
    while i < rings.len()
        invariant
            i <= rings.len(),
            all == rings_of(rings@),
            rings_of(out@) == arranged(all.take(i as int)),
            out@.len() == i,
            rings_within(rings@) ==> rings_within(out@),
        decreases rings.len() - i,
    {
        let ring = copy_ring(&rings[i]);
        let mut p: usize = out.len();
        while p > 0 && ring.len() > out[p - 1].len()
            invariant
                p <= out.len(),
                forall|j: int| p <= j < out@.len() ==> ring@.len() > (#[trigger] out@[j])@.len(),
            decreases p,
        {
            p = p - 1;
        }
        proof {
            let s = rings_of(out@);
            assert forall|j: int| p <= j < s.len() implies ring@.len() > (#[trigger] s[j]).len() by {
                assert(s[j] == out@[j]@);
            }
            lemma_insert_len_at(s, ring@, p as int);
            assert(all.take(i + 1).drop_last() =~= all.take(i as int));
            assert(all.take(i + 1).last() == ring@);
            assert(rings_of(out@.insert(p as int, ring)) =~= s.insert(p as int, ring@));
            if rings_within(rings@) {
                assert(all_within(rings@[i as int]@));
                assert forall|j: int| 0 <= j < out@.insert(p as int, ring).len() implies all_within(
                    #[trigger] out@.insert(p as int, ring)[j]@,
                ) by {
                    if j < p {
                        assert(out@.insert(p as int, ring)[j] == out@[j]);
                    } else if j > p {
                        assert(out@.insert(p as int, ring)[j] == out@[j - 1]);
                    }
                }
            }
        }
        out.insert(p, ring);
        i = i + 1;
    }
    assert(all.take(rings.len() as int) =~= all);
    out
}

/// The outline after the first `k` rings were merged: each ring in turn
/// is united, as the subject, with the outer ring of what was merged
/// before it; the first ring is united with the empty ring. `None` if a
/// union has more edge pairs than can be counted.
pub open spec fn merged_upto(rings: Seq<Seq<Point>>, probes: Seq<Probes>, k: int) -> Option<
    Seq<Seq<Point>>,
>
    decreases k,
{
    if k <= 0 {
        Some(seq![Seq::empty()])
    } else {
        match merged_upto(rings, probes, k - 1) {
            None => None,
            Some(prev) => if (rings[k - 1].len() + 1) * (prev[0].len() + 1) > usize::MAX {
                None
            } else {
                Some(
                    clip_model(
                        rings[k - 1],
                        prev[0],
                        false,
                        false,
                        probes[k - 1].subject,
                        probes[k - 1].clip,
                    ),
                )
            },
        }
    }
}

/// The outline of all `rings` merged.
pub open spec fn merged(rings: Seq<Seq<Point>>, probes: Seq<Probes>) -> Option<Seq<Seq<Point>>> {
    merged_upto(rings, probes, rings.len() as int)
}

/// Every pair of probes lies where far probes lie.
pub open spec fn probes_ok(probes: Seq<Probes>) -> bool {
    forall|i: int|
        0 <= i < probes.len() ==> is_probe((#[trigger] probes[i]).subject) && is_probe(
            probes[i].clip,
        )
}

/// Merges the rings into one outline by repeated union, judging
/// containment against the given probes, one pair for each ring.
pub fn merge_with(rings: &Vec<Vec<Point>>, probes: &Vec<Probes>) -> (r: Result<
    Vec<Vec<Point>>,
    SectionError,
>)
    requires
        rings_within(rings@),
        probes@.len() >= rings@.len(),
        probes_ok(probes@),
    ensures
        match r {
            Ok(list) => merged(rings_of(rings@), probes@) == Some(rings_of(list@)) && list@.len() > 0
                && rings_within(list@),
            Err(e) => e == SectionError::CapacityExceeded && merged(rings_of(rings@), probes@).is_none(),
        },
{
    let ghost all = rings_of(rings@);
    let mut acc: Vec<Vec<Point>> = Vec::new();
    acc.push(Vec::new());
    assert(rings_of(acc@) =~= seq![Seq::<Point>::empty()]);
    let mut k: usize = 0;
    while k < rings.len()
        invariant
            k <= rings.len(),
            all == rings_of(rings@),
            rings_within(rings@),
            probes@.len() >= rings@.len(),
            probes_ok(probes@),
            merged_upto(all, probes@, k as int) == Some(rings_of(acc@)),
            acc@.len() > 0,
            rings_within(acc@),
        decreases rings.len() - k,
    {
        let ring = &rings[k];
        let pair = probes[k];
        assert(all[k as int] == ring@);
        assert(rings_of(acc@)[0] == acc@[0]@);
        if too_large(ring.len(), acc[0].len()) {
            proof {
                assert(merged_upto(all, probes@, k + 1).is_none());
                lemma_merged_none(all, probes@, k + 1, rings.len() as int);
            }
            return Err(SectionError::CapacityExceeded);
        }
        let mut subject = CPolygon::from_vec(ring);
        let mut clip = CPolygon::from_vec(&acc[0]);
        proof {
            lemma_ring_of_points(ring@);
            lemma_ring_of_points(acc@[0]@);
            assert(all_within(ring@));
            assert(all_within(acc@[0]@));
        }
        acc = subject.clip_with(&mut clip, false, false, pair.subject, pair.clip);
        k = k + 1;
    }
    Ok(acc)
}

/// Once a union is too large, the merge has no result.
proof fn lemma_merged_none(rings: Seq<Seq<Point>>, probes: Seq<Probes>, k: int, n: int)
    requires
        k <= n,
        merged_upto(rings, probes, k).is_none(),
    ensures
        merged_upto(rings, probes, n).is_none(),
    decreases n - k,
{
    if k < n {
        lemma_merged_none(rings, probes, k, n - 1);
    }
}

/// Draws one pair of far probes for each of `n` unions.
pub fn draw_probes(n: usize) -> (probes: Vec<Probes>)
    ensures
        probes@.len() == n,
        probes_ok(probes@),
{
    let mut probes: Vec<Probes> = Vec::new();
    while probes.len() < n
        invariant
            probes@.len() <= n,
            probes_ok(probes@),
        decreases n - probes@.len(),
    {
        let subject = random_probe();
        let clip = random_probe();
        probes.push(Probes { subject, clip });
    }
    probes
}

/// Merges the rings into one outline by repeated union, judging
/// containment against randomly jittered far probes.
pub fn merge(rings: &Vec<Vec<Point>>) -> (r: Result<Vec<Vec<Point>>, SectionError>)
    requires
        rings_within(rings@),
    ensures
        exists|probes: Seq<Probes>|
            probes.len() == rings@.len() && probes_ok(probes) && match r {
                Ok(list) => #[trigger] merged(rings_of(rings@), probes) == Some(rings_of(list@))
                    && list@.len() > 0 && rings_within(list@),
                Err(e) => e == SectionError::CapacityExceeded && merged(
                    rings_of(rings@),
                    probes,
                ).is_none(),
            },
{
    let probes = draw_probes(rings.len());
    merge_with(rings, &probes)
}


/// The term of edge `i` in the area sum of a ring: the determinant of
/// the two ends of the edge.
pub open spec fn shoelace(pts: Seq<Point>, i: int) -> int {
    pts[i].x * pts[succ(i, pts.len() as int)].y - pts[succ(i, pts.len() as int)].x * pts[i].y
}

/// Twice the signed area enclosed by the first `k` edges of a ring.
pub open spec fn area2_upto(pts: Seq<Point>, k: int) -> int
    decreases k,
{
    if k <= 0 {
        0
    } else {
        area2_upto(pts, k - 1) + shoelace(pts, k - 1)
    }
}

/// The sum over the first `k` edges of `(x_i + x_next) * shoelace_i`: six
/// times the first moment of area about the vertical axis.
pub open spec fn moment_x_upto(pts: Seq<Point>, k: int) -> int
    decreases k,
{
    if k <= 0 {
        0
    } else {
        moment_x_upto(pts, k - 1) + (pts[k - 1].x + pts[succ(k - 1, pts.len() as int)].x) * shoelace(
            pts,
            k - 1,
        )
    }
}

/// The sum over the first `k` edges of `(y_i + y_next) * shoelace_i`.
pub open spec fn moment_y_upto(pts: Seq<Point>, k: int) -> int
    decreases k,
{
    if k <= 0 {
        0
    } else {
        moment_y_upto(pts, k - 1) + (pts[k - 1].y + pts[succ(k - 1, pts.len() as int)].y) * shoelace(
            pts,
            k - 1,
        )
    }
}

/// The quotient `num / (3 * a)` rounded to the nearest integer.
pub open spec fn third_ratio(num: int, a: int) -> int {
    if a > 0 {
        round_div(num, 3 * a)
    } else {
        round_div(-num, -3 * a)
    }
}

/// The area centroid of a ring by the polygon centroid formula, rounded
/// to the grid: with `A` the signed area, the coordinates are the first
/// moments divided by `6 A`. A ring without area has none, nor has a ring
/// of more than `MAX_RING` points or one whose centroid falls beyond the
/// coordinate bound.
pub open spec fn centroid_of(pts: Seq<Point>) -> Option<Point> {
    let n = pts.len() as int;
    let a = area2_upto(pts, n);
    let x = third_ratio(moment_x_upto(pts, n), a);
    let y = third_ratio(moment_y_upto(pts, n), a);
    if n > MAX_RING || a == 0 {
        None
    } else if -COORD_MAX <= x <= COORD_MAX && -COORD_MAX <= y <= COORD_MAX {
        Some(pt(x, y))
    } else {
        None
    }
}

/// Computes the term of one edge and its two weighted copies.
fn edge_terms(p: Point, q: Point) -> (t: (i128, i128, i128))
    requires
        p.within(COORD_MAX as int),
        q.within(COORD_MAX as int),
    ensures
        t.0 == p.x * q.y - q.x * p.y,
        t.1 == (p.x + q.x) * (p.x * q.y - q.x * p.y),
        t.2 == (p.y + q.y) * (p.x * q.y - q.x * p.y),
        -0x2000_0000_0000_0000 <= t.0 <= 0x2000_0000_0000_0000,
        -0x1000_0000_0000_0000_0000_0000 <= t.1 <= 0x1000_0000_0000_0000_0000_0000,
        -0x1000_0000_0000_0000_0000_0000 <= t.2 <= 0x1000_0000_0000_0000_0000_0000,
{
    let px: i128 = p.x as i128;
    let py: i128 = p.y as i128;
    let qx: i128 = q.x as i128;
    let qy: i128 = q.y as i128;
    assert(-0x1000_0000_0000_0000 <= px * qy <= 0x1000_0000_0000_0000) by (nonlinear_arith)
        requires
            -0x4000_0000 <= px <= 0x4000_0000,
            -0x4000_0000 <= qy <= 0x4000_0000,
    ;
    assert(-0x1000_0000_0000_0000 <= qx * py <= 0x1000_0000_0000_0000) by (nonlinear_arith)
        requires
            -0x4000_0000 <= qx <= 0x4000_0000,
            -0x4000_0000 <= py <= 0x4000_0000,
    ;
    let c: i128 = px * qy - qx * py;
    let sx: i128 = px + qx;
    let sy: i128 = py + qy;
    assert(-0x1000_0000_0000_0000_0000_0000 <= sx * c <= 0x1000_0000_0000_0000_0000_0000)
        by (nonlinear_arith)
        requires
            -0x8000_0000 <= sx <= 0x8000_0000,
            -0x2000_0000_0000_0000 <= c <= 0x2000_0000_0000_0000,
    ;
    assert(-0x1000_0000_0000_0000_0000_0000 <= sy * c <= 0x1000_0000_0000_0000_0000_0000)
        by (nonlinear_arith)
        requires
            -0x8000_0000 <= sy <= 0x8000_0000,
            -0x2000_0000_0000_0000 <= c <= 0x2000_0000_0000_0000,
    ;
    (c, sx * c, sy * c)
}

/// Computes the area centroid of a ring.
pub fn centroid(ring: &Vec<Point>) -> (c: Option<Point>)
    requires
        all_within(ring@),
    ensures
        c == centroid_of(ring@),
        c.is_some() ==> c.unwrap().within(COORD_MAX as int),
{
    let n: usize = ring.len();
    if n > MAX_RING {
        return None;
    }
    let ghost pts = ring@;
    let mut a: i128 = 0;
    let mut mx: i128 = 0;
    let mut my: i128 = 0;
    let mut k: usize = 0;
    while k < n
        invariant
            k <= n,
            n == pts.len(),
            n <= MAX_RING,
            pts == ring@,
            all_within(pts),
            a == area2_upto(pts, k as int),
            mx == moment_x_upto(pts, k as int),
            my == moment_y_upto(pts, k as int),
            -0x2000_0000_0000_0000 * (k as int) <= a <= 0x2000_0000_0000_0000 * (k as int),
            -0x1000_0000_0000_0000_0000_0000 * (k as int) <= mx <= 0x1000_0000_0000_0000_0000_0000 * (
                k as int
            ),
            -0x1000_0000_0000_0000_0000_0000 * (k as int) <= my <= 0x1000_0000_0000_0000_0000_0000 * (
                k as int
            ),
        decreases n - k,
    {
        let next: usize = if k + 1 < n {
            k + 1
        } else {
            0
        };
        let t = edge_terms(ring[k], ring[next]);
        a = a + t.0;
        mx = mx + t.1;
        my = my + t.2;
        k = k + 1;
    }
    if a == 0 {
        return None;
    }
    let d: i128 = if a > 0 {
        3 * a
    } else {
        -(3 * a)
    };
    let sx: i128 = if a > 0 {
        mx
    } else {
        -mx
    };
    let sy: i128 = if a > 0 {
        my
    } else {
        -my
    };
    let x: i128 = round_div_exec(sx, d);
    let y: i128 = round_div_exec(sy, d);
    if -(COORD_MAX as i128) <= x && x <= COORD_MAX as i128 && -(COORD_MAX as i128) <= y && y
        <= COORD_MAX as i128 {
        Some(Point { x: x as i64, y: y as i64 })
    } else {
        None
    }
}

/// The ring moved by `-by`.
pub open spec fn translated(pts: Seq<Point>, by: Point) -> Seq<Point> {
    Seq::new(pts.len(), |i: int| pt(pts[i].x - by.x, pts[i].y - by.y))
}

/// Moves a ring by `-by`.
pub fn translate(ring: &Vec<Point>, by: Point) -> (out: Vec<Point>)
    requires
        all_within(ring@),
        by.within(COORD_MAX as int),
    ensures
        out@ == translated(ring@, by),
{
    let mut out: Vec<Point> = Vec::new();
    let mut i: usize = 0;
    while i < ring.len()
        invariant
            i <= ring.len(),
            all_within(ring@),
            by.within(COORD_MAX as int),
            out@ == translated(ring@, by).take(i as int),
        decreases ring.len() - i,
    {
        let p = ring[i];
        out.push(Point { x: p.x - by.x, y: p.y - by.y });
        assert(translated(ring@, by).take(i as int).push(translated(ring@, by)[i as int])
            =~= translated(ring@, by).take(i + 1));
        i = i + 1;
    }
    assert(translated(ring@, by).take(ring.len() as int) =~= translated(ring@, by));
    out
}

/// The rings centred on the centroid of the first of them; unmoved if
/// that ring has no centroid.
pub open spec fn centred(rings: Seq<Seq<Point>>) -> Seq<Seq<Point>> {
    match centroid_of(rings[0]) {
        Some(c) => Seq::new(rings.len(), |i: int| translated(rings[i], c)),
        None => rings,
    }
}

/// Centres the rings on the area centroid of the first ring.
pub fn centre(rings: Vec<Vec<Point>>) -> (out: Outline)
    requires
        rings@.len() > 0,
        rings_within(rings@),
    ensures
        rings_of(out.rings@) == centred(rings_of(rings@)),
        out.centroid == centroid_of(rings@[0]@),
{
    assert(all_within(rings@[0]@));
    assert(rings_of(rings@)[0] == rings@[0]@);
    match centroid(&rings[0]) {
        None => Outline { rings, centroid: None },
        Some(c) => {
            let mut moved: Vec<Vec<Point>> = Vec::new();
            let mut i: usize = 0;
            while i < rings.len()
                invariant
                    i <= rings.len(),
                    rings_within(rings@),
                    c.within(COORD_MAX as int),
                    rings_of(moved@) == Seq::new(i as nat, |j: int| translated(rings_of(rings@)[j], c)),
                decreases rings.len() - i,
            {
                assert(all_within(rings@[i as int]@));
                let ring = translate(&rings[i], c);
                let ghost before = rings_of(moved@);
                moved.push(ring);
                assert(rings_of(moved@) =~= before.push(ring@));
                assert(rings_of(moved@) =~= Seq::new(
                    (i + 1) as nat,
                    |j: int| translated(rings_of(rings@)[j], c),
                ));
                i = i + 1;
            }
            assert(rings_of(moved@) =~= centred(rings_of(rings@)));
            Outline { rings: moved, centroid: Some(c) }
        },
    }
}

/// The outline of a section: the rings of its joints, ordered by falling
/// length, merged by union and centred; and the centroid. A section
/// without any member has the empty ring as its outline.
pub open spec fn outline_of(nodes: Seq<NodeWeight>, edges: Seq<EdgeEntry>, probes: Seq<Probes>) -> Result<
    (Seq<Seq<Point>>, Option<Point>),
    SectionError,
> {
    match joint_rings(nodes, edges, nodes.len() as int) {
        Err(e) => Err(e),
        Ok(rs) => match merged(arranged(rs), probes) {
            None => Err(SectionError::CapacityExceeded),
            Some(list) => Ok((centred(list), centroid_of(list[0]))),
        },
    }
}

impl Section {
    /// Generates the rings of all joints, in the order of the nodes.
    pub fn joints(&self) -> (r: Result<Vec<Vec<Point>>, SectionError>)
        requires
            self.wf(),
        ensures
            match r {
                Ok(rings) => joint_rings(self.nodes(), self.edges(), self.nodes().len() as int) == Ok::<
                    Seq<Seq<Point>>,
                    SectionError,
                >(rings_of(rings@)) && rings_within(rings@) && rings@.len() <= self.nodes().len(),
                Err(e) => joint_rings(self.nodes(), self.edges(), self.nodes().len() as int) == Err::<
                    Seq<Seq<Point>>,
                    SectionError,
                >(e),
            },
    {
        let n: usize = self.node_count();
        let mut clusters: Vec<Vec<Point>> = Vec::new();
        let mut k: usize = 0;
        assert(rings_of(clusters@) =~= Seq::<Seq<Point>>::empty());
        while k < n
            invariant
                k <= n,
                n == self.nodes().len(),
                n <= 0xffff_ffff,
                self.wf(),
                joint_rings(self.nodes(), self.edges(), k as int) == Ok::<
                    Seq<Seq<Point>>,
                    SectionError,
                >(rings_of(clusters@)),
                rings_within(clusters@),
                clusters@.len() <= k,
            decreases n - k,
        {
            match self.joint(k as u32) {
                Err(e) => {
                    proof {
                        lemma_joint_rings_err(self.nodes(), self.edges(), k + 1, n as int);
                    }
                    return Err(e);
                },
                Ok(ring) => {
                    if ring.len() > 0 {
                        let ghost before = rings_of(clusters@);
                        clusters.push(ring);
                        assert(rings_of(clusters@) =~= before.push(ring@));
                    }
                },
            }
            k = k + 1;
        }
        Ok(clusters)
    }

    /// Computes the outline of the section, judging containment in the
    /// unions against the given probes, one pair for each node. On
    /// success the derived results are current.
    pub fn build_with(&mut self, probes: &Vec<Probes>) -> (r: Result<Outline, SectionError>)
        requires
            old(self).wf(),
            probes@.len() >= old(self).nodes().len(),
            probes_ok(probes@),
        ensures
            final(self).wf(),
            final(self).nodes() == old(self).nodes(),
            final(self).edges() == old(self).edges(),
            final(self).poisson() == old(self).poisson(),
            final(self).limits() == old(self).limits(),
            match r {
                Ok(out) => outline_of(old(self).nodes(), old(self).edges(), probes@) == Ok::<
                    (Seq<Seq<Point>>, Option<Point>),
                    SectionError,
                >((rings_of(out.rings@), out.centroid)) && final(self).results(),
                Err(e) => outline_of(old(self).nodes(), old(self).edges(), probes@) == Err::<
                    (Seq<Seq<Point>>, Option<Point>),
                    SectionError,
                >(e) && final(self).results() == old(self).results(),
            },
    {
        let clusters = match self.joints() {
            Err(e) => {
                return Err(e);
            },
            Ok(c) => c,
        };
        let ordered = arrange(&clusters);
        let list = match merge_with(&ordered, probes) {
            Err(e) => {
                return Err(e);
            },
            Ok(l) => l,
        };
        assert(rings_of(list@)[0] == list@[0]@);
        let out = centre(list);
        self.set_results();
        Ok(out)
    }

    /// Computes the outline of the section, judging containment in the
    /// unions against randomly jittered far probes. On success the
    /// derived results are current.
    pub fn build(&mut self) -> (r: Result<Outline, SectionError>)
        requires
            old(self).wf(),
        ensures
            final(self).wf(),
            final(self).nodes() == old(self).nodes(),
            final(self).edges() == old(self).edges(),
            final(self).poisson() == old(self).poisson(),
            final(self).limits() == old(self).limits(),
            exists|probes: Seq<Probes>|
                probes.len() == old(self).nodes().len() && probes_ok(probes) && match r {
                    Ok(out) => #[trigger] outline_of(old(self).nodes(), old(self).edges(), probes)
                        == Ok::<(Seq<Seq<Point>>, Option<Point>), SectionError>(
                        (rings_of(out.rings@), out.centroid),
                    ) && final(self).results(),
                    Err(e) => outline_of(old(self).nodes(), old(self).edges(), probes) == Err::<
                        (Seq<Seq<Point>>, Option<Point>),
                        SectionError,
                    >(e) && final(self).results() == old(self).results(),
                },
    {
        let probes = draw_probes(self.node_count());
        self.build_with(&probes)
    }
}

/// Once a joint is refused, so are the joints of the section.
proof fn lemma_joint_rings_err(nodes: Seq<NodeWeight>, edges: Seq<EdgeEntry>, k: int, n: int)
    requires
        k <= n,
        joint_rings(nodes, edges, k).is_err(),
    ensures
        joint_rings(nodes, edges, n) == joint_rings(nodes, edges, k),
    decreases n - k,
{
    if k < n {
        lemma_joint_rings_err(nodes, edges, k, n - 1);
    }
}


/// The rings of a section of two nodes whose joints both have a ring.
proof fn lemma_two_joint_rings(
    nodes: Seq<NodeWeight>,
    edges: Seq<EdgeEntry>,
    ra: Seq<Point>,
    rb: Seq<Point>,
)
    requires
        joint_outline(nodes, edges, 0) == Ok::<Seq<Point>, SectionError>(ra),
        joint_outline(nodes, edges, 1) == Ok::<Seq<Point>, SectionError>(rb),
        ra.len() > 0,
        rb.len() > 0,
    ensures
        joint_rings(nodes, edges, 2) == Ok::<Seq<Seq<Point>>, SectionError>(seq![ra, rb]),
{
    assert(joint_rings(nodes, edges, 0) == Ok::<Seq<Seq<Point>>, SectionError>(Seq::empty()));
    assert(joint_rings(nodes, edges, 1) == Ok::<Seq<Seq<Point>>, SectionError>(
        Seq::<Seq<Point>>::empty().push(ra),
    ));
    let rs = Seq::<Seq<Point>>::empty().push(ra).push(rb);
    assert(joint_rings(nodes, edges, 2) == Ok::<Seq<Seq<Point>>, SectionError>(rs));
    assert(rs =~= seq![ra, rb]);
}

/// Two rings of equal length are arranged as they come.
proof fn lemma_arranged_pair(ra: Seq<Point>, rb: Seq<Point>)
    requires
        ra.len() == rb.len(),
    ensures
        arranged(seq![ra, rb]) == seq![ra, rb],
{
    let rs = seq![ra, rb];
    let one = rs.drop_last();
    assert(one =~= seq![ra]);
    assert(one.drop_last() =~= Seq::<Seq<Point>>::empty());
    assert(arranged(one.drop_last()) =~= Seq::<Seq<Point>>::empty());
    assert(arranged(one) =~= seq![ra]);
    assert(rs.last() == rb);
    assert(arranged(rs) =~= seq![ra, rb]);
}

/// Merging two rings of four points of which the second does not cross
/// the first leaves the second.
proof fn lemma_merge_pair(ra: Seq<Point>, rb: Seq<Point>, probes: Seq<Probes>)
    requires
        ra.len() == 4,
        rb.len() == 4,
        no_crossing(rb, ra),
    ensures
        merged(seq![ra, rb], probes) == Some(seq![rb]),
{
    let ar = seq![ra, rb];
    let empty = Seq::<Point>::empty();
    assert(ar[0] == ra && ar[1] == rb);
    assert(no_crossing(ra, empty));
    assert(merged_upto(ar, probes, 0) == Some(seq![empty]));
    lemma_clip_without_crossing(ra, empty, false, false, probes[0].subject, probes[0].clip);
    assert((ra.len() + 1) * (empty.len() + 1) == 5) by (nonlinear_arith)
        requires
            ra.len() == 4,
            empty.len() == 0,
    ;
    assert(merged_upto(ar, probes, 1) == Some(seq![ra]));
    lemma_clip_without_crossing(rb, ra, false, false, probes[1].subject, probes[1].clip);
    assert((rb.len() + 1) * (ra.len() + 1) == 25) by (nonlinear_arith)
        requires
            ra.len() == 4,
            rb.len() == 4,
    ;
    assert(merged_upto(ar, probes, 2) == Some(seq![rb]));
}

/// The squared ends around a lone member from its two nodes are
/// parallelograms, and the second does not cross the first.
proof fn lemma_single_member_caps(pa: Point, pb: Point, thickness: i64)
    requires
        valid_member(pa, (Member { to: pb, thickness })),
    ensures
        ({
            let ra = cap(pa, (Member { to: pb, thickness }), true);
            let rb = cap(pb, (Member { to: pa, thickness }), true);
            &&& ra.len() == 4
            &&& rb.len() == 4
            &&& parallelogram(rb)
            &&& no_crossing(rb, ra)
        }),
{
    let ma = Member { to: pb, thickness };
    let mb = Member { to: pa, thickness };
    let ra = cap(pa, ma, true);
    let rb = cap(pb, mb, true);
    lemma_offset_opposite(pa, ma);
    lemma_cap_from_far_end(pa, ma);
    lemma_corners_exact(pa, ma);
    lemma_corners_exact(pb, mb);
    assert(parallelogram(ra));
    assert(parallelogram(rb));
    assert(rb =~= seq![ra[2], ra[3], ra[0], ra[1]]);
    lemma_parallelogram_no_crossing(ra);
}

/// The outline of a section of one member between two nodes is a single
/// ring of four points, centred on its centroid: the corners that lie
/// half a thickness beside the member and beyond its ends. They form a
/// parallelogram, and a rectangle where the rounded offset lies along the
/// member.
pub proof fn lemma_single_member_outline(
    a: NodeWeight,
    b: NodeWeight,
    w: (i64, i64),
    probes: Seq<Probes>,
)
    requires
        valid_graph(seq![a, b], seq![(0u32, 1u32, w)]),
        at(a) != at(b),
    ensures
        ({
            let ring = cap(at(b), (Member { to: at(a), thickness: w.0 }), true);
            &&& ring.len() == 4
            &&& parallelogram(ring)
            &&& offset_along(at(b), (Member { to: at(a), thickness: w.0 })) ==> rectangle(ring)
            &&& outline_of(seq![a, b], seq![(0u32, 1u32, w)], probes) == Ok::<
                (Seq<Seq<Point>>, Option<Point>),
                SectionError,
            >((centred(seq![ring]), centroid_of(ring)))
        }),
{
    let nodes = seq![a, b];
    let edges = seq![(0u32, 1u32, w)];
    assert(nodes[0] == a && nodes[1] == b);
    assert(edges[0] == (0u32, 1u32, w));
    assert(valid_member(at(a), Member { to: at(b), thickness: w.0 }));
    let ra = cap(at(a), Member { to: at(b), thickness: w.0 }, true);
    let rb = cap(at(b), Member { to: at(a), thickness: w.0 }, true);
    lemma_single_member_rectangle(a, b, w);
    lemma_single_member_caps(at(a), at(b), w.0);
    lemma_two_joint_rings(nodes, edges, ra, rb);
    lemma_arranged_pair(ra, rb);
    lemma_merge_pair(ra, rb, probes);
    assert(seq![rb][0] == rb);
    lemma_offset_opposite(at(a), Member { to: at(b), thickness: w.0 });
    if offset_along(at(b), Member { to: at(a), thickness: w.0 }) {
        lemma_cap_rectangle(at(b), Member { to: at(a), thickness: w.0 });
    }
}

} // verus!
