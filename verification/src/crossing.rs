//! First phase of clipping: the crossings of two polygons are inserted
//! into both as twin records.

use vstd::prelude::*;
use crate::geometry::{
    alpha_c, alpha_s, cross_point, intersect, lemma_cross_needs_length,
    lemma_crossing_parameters, lemma_crossing_symmetric, lemma_parallel_no_crossing,
    lemma_shared_end_no_crossing, properly_cross, Point, Ratio, COORD_MAX,
};
use crate::polygon::{
    all_within, insert_pos, lemma_insert_pos_bounds, lemma_insert_wf, pts_within, ring_of,
    run_end, succ, CPolygon, Ring, Vertex,
};

verus! {

/// The record inserted into the subject for the crossing of its input
/// edge `i` with input edge `j` of the clip polygon; `link` is the arena
/// index of its twin.
pub open spec fn twin_s(sp: Seq<Point>, cp: Seq<Point>, i: int, j: int, link: int) -> Vertex {
    let (s1, s2) = (sp[i], sp[succ(i, sp.len() as int)]);
    let (c1, c2) = (cp[j], cp[succ(j, cp.len() as int)]);
    Vertex {
        pt: cross_point(s1, s2, c1, c2),
        alpha: alpha_s(s1, s2, c1, c2),
        inter: true,
        entry: false,
        checked: false,
        neighbour: Some(link as usize),
    }
}

/// The record inserted into the clip polygon for the same crossing.
pub open spec fn twin_c(sp: Seq<Point>, cp: Seq<Point>, i: int, j: int, link: int) -> Vertex {
    let (s1, s2) = (sp[i], sp[succ(i, sp.len() as int)]);
    let (c1, c2) = (cp[j], cp[succ(j, cp.len() as int)]);
    Vertex {
        pt: cross_point(s1, s2, c1, c2),
        alpha: alpha_c(s1, s2, c1, c2),
        inter: true,
        entry: false,
        checked: false,
        neighbour: Some(link as usize),
    }
}

/// Input edge `i` of `sp` properly crosses input edge `j` of `cp`.
pub open spec fn edges_cross(sp: Seq<Point>, cp: Seq<Point>, i: int, j: int) -> bool {
    properly_cross(sp[i], sp[succ(i, sp.len() as int)], cp[j], cp[succ(j, cp.len() as int)])
}

/// Where a record with parameter `alpha` goes on input edge `i` of a ring
/// with `n` input vertices: behind the input vertex `i` and behind every
/// crossing already on that edge that lies before `alpha`.
pub open spec fn slot(r: Ring, n: int, i: int, alpha: Ratio) -> int {
    insert_pos(r, r.place[i], run_end(r, succ(i, n)), alpha)
}

/// The two rings after the edge pair `(i, j)` was tested: on a proper
/// crossing each ring gains one record, placed on its edge by parameter.
pub open spec fn cross_step(s: Ring, c: Ring, sp: Seq<Point>, cp: Seq<Point>, i: int, j: int) -> (
    Ring,
    Ring,
) {
    if edges_cross(sp, cp, i, j) {
        let vs = twin_s(sp, cp, i, j, c.len());
        let vc = twin_c(sp, cp, i, j, s.len());
        (
            s.insert(slot(s, sp.len() as int, i, vs.alpha), vs),
            c.insert(slot(c, cp.len() as int, j, vc.alpha), vc),
        )
    } else {
        (s, c)
    }
}

/// The two rings after every edge pair before `(i, j)` was tested, pairs
/// taken row by row: all of edge 0 of the subject first.
pub open spec fn crossed_upto(sp: Seq<Point>, cp: Seq<Point>, i: int, j: int) -> (Ring, Ring)
    decreases i, j,
{
    if j > 0 {
        let (s, c) = crossed_upto(sp, cp, i, j - 1);
        cross_step(s, c, sp, cp, i, j - 1)
    } else if i > 0 {
        crossed_upto(sp, cp, i - 1, cp.len() as int)
    } else {
        (ring_of(sp), ring_of(cp))
    }
}

/// The rings of `sp` and `cp` with all their crossings inserted.
pub open spec fn crossed(sp: Seq<Point>, cp: Seq<Point>) -> (Ring, Ring) {
    crossed_upto(sp, cp, sp.len() as int, 0)
}

/// One side of the state between two insertions: `r` holds the `n` input
/// vertices `pts` at the front of its arena, in their order on the ring,
/// followed by crossings that are linked to arena index `base` onwards of
/// the other ring.
pub open spec fn staged_side(r: Ring, pts: Seq<Point>, base: int) -> bool {
    let n = pts.len() as int;
    &&& r.wf()
    &&& r.len() >= n
    &&& n == 0 ==> r.len() == 0
    &&& r.len() + base <= usize::MAX
    &&& forall|i: int| 0 <= i < n ==> (#[trigger] pts[i]).within(COORD_MAX as int)
    &&& forall|i: int|
        0 <= i < n ==> !(#[trigger] r.arena[i]).inter && r.arena[i].pt == pts[i] && r.arena[i].alpha
            == (Ratio { num: 0, den: 1 })
    &&& forall|x: int|
        n <= x < r.len() ==> (#[trigger] r.arena[x]).inter && r.arena[x].neighbour == Some(
            (base + x - n) as usize,
        ) && r.arena[x].alpha.wf() && r.arena[x].pt.within(COORD_MAX as int)
            && !r.arena[x].checked
    &&& forall|i: int, j: int| 0 <= i < j < n ==> #[trigger] r.place[i] < #[trigger] r.place[j]
}

/// The state between two insertions: both sides are staged and hold the
/// same number of crossings.
pub open spec fn staged(s: Ring, c: Ring, sp: Seq<Point>, cp: Seq<Point>) -> bool {
    &&& staged_side(s, sp, cp.len() as int)
    &&& staged_side(c, cp, sp.len() as int)
    &&& s.len() - sp.len() == c.len() - cp.len()
}

/// Every crossing of one ring has a crossing of the other as its twin,
/// and the two refer to each other.
pub open spec fn twinned(s: Ring, c: Ring) -> bool {
    &&& forall|x: int|
        0 <= x < s.len() && (#[trigger] s.arena[x]).inter ==> {
            &&& s.arena[x].neighbour.is_some()
            &&& s.arena[x].neighbour.unwrap() < c.len()
            &&& c.arena[s.arena[x].neighbour.unwrap() as int].inter
            &&& c.arena[s.arena[x].neighbour.unwrap() as int].neighbour == Some(x as usize)
        }
    &&& forall|y: int|
        0 <= y < c.len() && (#[trigger] c.arena[y]).inter ==> {
            &&& c.arena[y].neighbour.is_some()
            &&& c.arena[y].neighbour.unwrap() < s.len()
            &&& s.arena[c.arena[y].neighbour.unwrap() as int].inter
            &&& s.arena[c.arena[y].neighbour.unwrap() as int].neighbour == Some(y as usize)
        }
}

/// Staged rings are twinned, within bounds, and start with an input vertex.
pub proof fn lemma_staged_twinned(s: Ring, c: Ring, sp: Seq<Point>, cp: Seq<Point>)
    requires
        staged(s, c, sp, cp),
    ensures
        twinned(s, c),
        s.in_bounds(),
        c.in_bounds(),
        s.alphas_wf(),
        c.alphas_wf(),
        s.len() > 0 ==> sp.len() > 0 && !s.arena[0].inter,
        c.len() > 0 ==> cp.len() > 0 && !c.arena[0].inter,
{
    let n = sp.len() as int;
    let m = cp.len() as int;
    assert forall|x: int| 0 <= x < s.len() && (#[trigger] s.arena[x]).inter implies {
        &&& s.arena[x].neighbour.is_some()
        &&& s.arena[x].neighbour.unwrap() < c.len()
        &&& c.arena[s.arena[x].neighbour.unwrap() as int].inter
        &&& c.arena[s.arena[x].neighbour.unwrap() as int].neighbour == Some(x as usize)
    } by {
        assert(x >= n);
        let y = m + x - n;
        assert(c.arena[y].inter);
    }
    assert forall|y: int| 0 <= y < c.len() && (#[trigger] c.arena[y]).inter implies {
        &&& c.arena[y].neighbour.is_some()
        &&& c.arena[y].neighbour.unwrap() < s.len()
        &&& s.arena[c.arena[y].neighbour.unwrap() as int].inter
        &&& s.arena[c.arena[y].neighbour.unwrap() as int].neighbour == Some(y as usize)
    } by {
        assert(y >= m);
        let x = n + y - m;
        assert(s.arena[x].inter);
    }
    assert forall|i: int| 0 <= i < s.arena.len() implies (#[trigger] s.arena[i]).pt.within(
        COORD_MAX as int,
    ) by {
        if i < n {
            assert(pts_within(sp, i));
        }
    }
    assert forall|i: int| 0 <= i < c.arena.len() implies (#[trigger] c.arena[i]).pt.within(
        COORD_MAX as int,
    ) by {
        if i < m {
            assert(pts_within(cp, i));
        }
    }
}

/// Changing flags other than `inter` and the twin link keeps rings twinned.
pub proof fn lemma_flags_keep_twinned(s: Ring, c: Ring, s1: Ring, c1: Ring)
    requires
        twinned(s, c),
        s1.arena.len() == s.arena.len(),
        c1.arena.len() == c.arena.len(),
        forall|x: int|
            0 <= x < s.len() ==> (#[trigger] s1.arena[x]).inter == s.arena[x].inter
                && s1.arena[x].neighbour == s.arena[x].neighbour,
        forall|y: int|
            0 <= y < c.len() ==> (#[trigger] c1.arena[y]).inter == c.arena[y].inter
                && c1.arena[y].neighbour == c.arena[y].neighbour,
    ensures
        twinned(s1, c1),
{
    assert forall|x: int| 0 <= x < s1.len() && (#[trigger] s1.arena[x]).inter implies {
        &&& s1.arena[x].neighbour.is_some()
        &&& s1.arena[x].neighbour.unwrap() < c1.len()
        &&& c1.arena[s1.arena[x].neighbour.unwrap() as int].inter
        &&& c1.arena[s1.arena[x].neighbour.unwrap() as int].neighbour == Some(x as usize)
    } by {
        assert(s.arena[x].inter);
        let y = s.arena[x].neighbour.unwrap() as int;
        assert(c.arena[y].inter);
        assert(c1.arena[y].inter == c.arena[y].inter);
    }
    assert forall|y: int| 0 <= y < c1.len() && (#[trigger] c1.arena[y]).inter implies {
        &&& c1.arena[y].neighbour.is_some()
        &&& c1.arena[y].neighbour.unwrap() < s1.len()
        &&& s1.arena[c1.arena[y].neighbour.unwrap() as int].inter
        &&& s1.arena[c1.arena[y].neighbour.unwrap() as int].neighbour == Some(y as usize)
    } by {
        assert(c.arena[y].inter);
        let x = c.arena[y].neighbour.unwrap() as int;
        assert(s.arena[x].inter);
        assert(s1.arena[x].inter == s.arena[x].inter);
    }
}

/// The start of an edge lies before every positive parameter.
pub proof fn lemma_zero_before(alpha: Ratio)
    requires
        0 < alpha.num,
    ensures
        (Ratio { num: 0, den: 1 }).lt(alpha),
{
    assert(0 * alpha.den < alpha.num * 1) by (nonlinear_arith)
        requires
            0 < alpha.num,
    ;
}

/// Inserting a linked crossing on input edge `i` keeps a side staged.
pub proof fn lemma_insert_staged_side(r: Ring, pts: Seq<Point>, base: int, i: int, v: Vertex)
    requires
        staged_side(r, pts, base),
        0 <= i < pts.len(),
        v.inter,
        !v.checked,
        v.neighbour == Some((base + r.len() - pts.len()) as usize),
        v.alpha.wf(),
        0 < v.alpha.num,
        v.pt.within(COORD_MAX as int),
        r.len() + 1 + base <= usize::MAX,
    ensures
        r.place[i] < slot(r, pts.len() as int, i, v.alpha) <= run_end(
            r,
            succ(i, pts.len() as int),
        ),
        run_end(r, succ(i, pts.len() as int)) <= r.len(),
        staged_side(r.insert(slot(r, pts.len() as int, i, v.alpha), v), pts, base),
{
    let n = pts.len() as int;
    let e = succ(i, n);
    let limit = run_end(r, e);
    let k0 = r.place[i];
    assert(r.order[0] == 0);
    assert(r.place[r.order[0]] == 0);
    assert(r.order[r.place[i]] == i);
    assert(r.order[r.place[e]] == e);
    if i + 1 < n {
        assert(r.place[i] < r.place[i + 1]);
    }
    assert(k0 < limit <= r.len());
    assert(r.at(k0) == r.arena[i]);
    assert(r.at(k0).alpha.lt(v.alpha)) by {
        lemma_zero_before(v.alpha);
    }
    lemma_insert_pos_bounds(r, k0 + 1, limit, v.alpha);
    let p = slot(r, n, i, v.alpha);
    assert(p == insert_pos(r, k0 + 1, limit, v.alpha));
    lemma_insert_wf(r, p, v);
    let q = r.insert(p, v);
    assert forall|a: int, b: int| 0 <= a < b < n implies #[trigger] q.place[a] < #[trigger] q.place[b] by {
        assert(r.place[a] < r.place[b]);
    }
}

impl CPolygon {
    /// The polygon holds input vertices only, in arena order.
    pub open spec fn is_plain(&self) -> bool {
        self.model() == ring_of(self.model().points())
    }

    /// Inserts the crossings of the two polygons into both: every input
    /// edge of `self` is tested against every input edge of `poly`, and
    /// each proper crossing becomes a pair of twin records.
    pub fn phase_one(&mut self, poly: &mut CPolygon)
        requires
            old(self).wf(),
            old(poly).wf(),
            old(self).is_plain(),
            old(poly).is_plain(),
            all_within(old(self).model().points()),
            all_within(old(poly).model().points()),
            (old(self).model().len() + 1) * (old(poly).model().len() + 1) <= usize::MAX,
        ensures
            final(self).wf(),
            final(poly).wf(),
            (final(self).model(), final(poly).model()) == crossed(
                old(self).model().points(),
                old(poly).model().points(),
            ),
            staged(
                final(self).model(),
                final(poly).model(),
                old(self).model().points(),
                old(poly).model().points(),
            ),
    {
        let ghost sp = self.model().points();
        let ghost cp = poly.model().points();
        let n: usize = self.len();
        let m: usize = poly.len();
        let mut i: usize = 0;
        while i < n
            invariant
                i <= n,
                n == sp.len(),
                m == cp.len(),
                all_within(sp),
                all_within(cp),
                (sp.len() + 1) * (cp.len() + 1) <= usize::MAX,
                self.wf(),
                poly.wf(),
                (self.model(), poly.model()) == crossed_upto(sp, cp, i as int, 0),
            decreases n - i,
        {
            let s_next: usize = if i + 1 < n {
                i + 1
            } else {
                0
            };
            let mut j: usize = 0;
            while j < m
                invariant
                    i < n,
                    j <= m,
                    n == sp.len(),
                    m == cp.len(),
                    all_within(sp),
                    all_within(cp),
                    (sp.len() + 1) * (cp.len() + 1) <= usize::MAX,
                    s_next == succ(i as int, n as int),
                    self.wf(),
                    poly.wf(),
                    (self.model(), poly.model()) == crossed_upto(sp, cp, i as int, j as int),
                decreases m - j,
            {
                let c_next: usize = if j + 1 < m {
                    j + 1
                } else {
                    0
                };
                let ghost s0 = self.model();
                let ghost c0 = poly.model();
                proof {
                    lemma_crossed_upto_staged(sp, cp, i as int, j as int);
                    lemma_staged_twinned(s0, c0, sp, cp);
                    assert(pts_within(sp, i as int));
                    assert(pts_within(sp, s_next as int));
                    assert(pts_within(cp, j as int));
                    assert(pts_within(cp, c_next as int));
                    assert(s0.arena[i as int].pt == sp[i as int]);
                    assert(s0.arena[s_next as int].pt == sp[s_next as int]);
                    assert(c0.arena[j as int].pt == cp[j as int]);
                    assert(c0.arena[c_next as int].pt == cp[c_next as int]);
                }
                let s_pt = self.vertex(i).pt;
                let s_next_pt = self.vertex(s_next).pt;
                let c_pt = poly.vertex(j).pt;
                let c_next_pt = poly.vertex(c_next).pt;
                match intersect(s_pt, s_next_pt, c_pt, c_next_pt) {
                    Some((pt, on_s, on_c)) => {
                        let mut is = Vertex::new(pt, on_s, true, false, false);
                        let mut ic = Vertex::new(pt, on_c, true, false, false);
                        is.neighbour = Some(poly.len());
                        ic.neighbour = Some(self.len());
                        proof {
                            assert(is == twin_s(sp, cp, i as int, j as int, c0.len()));
                            assert(ic == twin_c(sp, cp, i as int, j as int, s0.len()));
                            lemma_crossed_upto_staged(sp, cp, i as int, j + 1);
                            lemma_zero_before(is.alpha);
                            lemma_zero_before(ic.alpha);
                            lemma_cross_needs_length(s_pt, s_next_pt, c_pt, c_next_pt);
                            lemma_slot_bounds(s0, sp, cp.len() as int, i as int);
                            lemma_slot_bounds(c0, cp, sp.len() as int, j as int);
                        }
                        self.insert(is, i, s_next);
                        poly.insert(ic, j, c_next);
                    },
                    None => {},
                }
                j = j + 1;
            }
            i = i + 1;
        }
        proof {
            lemma_crossed_upto_staged(sp, cp, n as int, 0);
        }
    }
}

/// No input edge of `sp` properly crosses an input edge of `cp`.
pub open spec fn no_crossing(sp: Seq<Point>, cp: Seq<Point>) -> bool {
    forall|i: int, j: int|
        0 <= i < sp.len() && 0 <= j < cp.len() ==> !#[trigger] edges_cross(sp, cp, i, j)
}

/// A ring none of whose edges properly crosses another of its edges.
pub open spec fn simple(pts: Seq<Point>) -> bool {
    no_crossing(pts, pts)
}

/// Rings without a crossing stay as they are while their edge pairs are
/// tested.
pub proof fn lemma_no_crossing_upto(sp: Seq<Point>, cp: Seq<Point>, i: int, j: int)
    requires
        no_crossing(sp, cp),
        0 <= i <= sp.len(),
        0 <= j <= cp.len(),
        i == sp.len() ==> j == 0,
    ensures
        crossed_upto(sp, cp, i, j) == (ring_of(sp), ring_of(cp)),
    decreases i, j,
{
    if j > 0 {
        lemma_no_crossing_upto(sp, cp, i, j - 1);
        assert(!edges_cross(sp, cp, i, j - 1));
    } else if i > 0 {
        lemma_no_crossing_upto(sp, cp, i - 1, cp.len() as int);
    }
}

/// The crossings of two rings do not depend on which ring is the subject:
/// an edge of one ring crosses an edge of the other either way or not at
/// all, and the twin records of the crossing are the same with their
/// roles exchanged.
pub proof fn lemma_crossings_symmetric(sp: Seq<Point>, cp: Seq<Point>, i: int, j: int, link: int)
    ensures
        edges_cross(cp, sp, j, i) == edges_cross(sp, cp, i, j),
        edges_cross(sp, cp, i, j) ==> twin_s(cp, sp, j, i, link) == twin_c(sp, cp, i, j, link)
            && twin_c(cp, sp, j, i, link) == twin_s(sp, cp, i, j, link),
        no_crossing(cp, sp) == no_crossing(sp, cp),
{
    lemma_crossing_symmetric(
        sp[i],
        sp[succ(i, sp.len() as int)],
        cp[j],
        cp[succ(j, cp.len() as int)],
    );
    if no_crossing(sp, cp) {
        assert forall|a: int, b: int| 0 <= a < cp.len() && 0 <= b < sp.len() implies !#[trigger] edges_cross(
            cp,
            sp,
            a,
            b,
        ) by {
            lemma_crossing_symmetric(
                sp[b],
                sp[succ(b, sp.len() as int)],
                cp[a],
                cp[succ(a, cp.len() as int)],
            );
            assert(!edges_cross(sp, cp, b, a));
        }
    }
    if no_crossing(cp, sp) {
        assert forall|a: int, b: int| 0 <= a < sp.len() && 0 <= b < cp.len() implies !#[trigger] edges_cross(
            sp,
            cp,
            a,
            b,
        ) by {
            lemma_crossing_symmetric(
                sp[a],
                sp[succ(a, sp.len() as int)],
                cp[b],
                cp[succ(b, cp.len() as int)],
            );
            assert(!edges_cross(cp, sp, b, a));
        }
    }
}

/// The four corners form a parallelogram: opposite sides are equal and
/// opposite vectors.
pub open spec fn parallelogram(a: Seq<Point>) -> bool {
    &&& a.len() == 4
    &&& a[1].x - a[0].x == -(a[3].x - a[2].x)
    &&& a[1].y - a[0].y == -(a[3].y - a[2].y)
    &&& a[2].x - a[1].x == -(a[0].x - a[3].x)
    &&& a[2].y - a[1].y == -(a[0].y - a[3].y)
}

/// A parallelogram whose neighbouring sides are perpendicular.
pub open spec fn rectangle(a: Seq<Point>) -> bool {
    &&& parallelogram(a)
    &&& (a[1].x - a[0].x) * (a[2].x - a[1].x) + (a[1].y - a[0].y) * (a[2].y - a[1].y) == 0
}

/// A parallelogram has no crossing with itself started two corners
/// later: any two of its sides share a corner or are parallel.
pub proof fn lemma_parallelogram_no_crossing(a: Seq<Point>)
    requires
        parallelogram(a),
    ensures
        no_crossing(seq![a[2], a[3], a[0], a[1]], a),
{
    let b = seq![a[2], a[3], a[0], a[1]];
    assert forall|i: int, j: int| 0 <= i < b.len() && 0 <= j < a.len() implies !#[trigger] edges_cross(
        b,
        a,
        i,
        j,
    ) by {
        if i == 0 && j == 0 {
            lemma_parallel_no_crossing(a[2], a[3], a[0], a[1]);
        }
        if i == 0 && j == 1 {
            lemma_shared_end_no_crossing(a[2], a[3], a[1], a[2]);
        }
        if i == 0 && j == 2 {
            lemma_shared_end_no_crossing(a[2], a[3], a[2], a[3]);
        }
        if i == 0 && j == 3 {
            lemma_shared_end_no_crossing(a[2], a[3], a[3], a[0]);
        }
        if i == 1 && j == 0 {
            lemma_shared_end_no_crossing(a[3], a[0], a[0], a[1]);
        }
        if i == 1 && j == 1 {
            lemma_parallel_no_crossing(a[3], a[0], a[1], a[2]);
        }
        if i == 1 && j == 2 {
            lemma_shared_end_no_crossing(a[3], a[0], a[2], a[3]);
        }
        if i == 1 && j == 3 {
            lemma_shared_end_no_crossing(a[3], a[0], a[3], a[0]);
        }
        if i == 2 && j == 0 {
            lemma_shared_end_no_crossing(a[0], a[1], a[0], a[1]);
        }
        if i == 2 && j == 1 {
            lemma_shared_end_no_crossing(a[0], a[1], a[1], a[2]);
        }
        if i == 2 && j == 2 {
            lemma_parallel_no_crossing(a[0], a[1], a[2], a[3]);
        }
        if i == 2 && j == 3 {
            lemma_shared_end_no_crossing(a[0], a[1], a[3], a[0]);
        }
        if i == 3 && j == 0 {
            lemma_shared_end_no_crossing(a[1], a[2], a[0], a[1]);
        }
        if i == 3 && j == 1 {
            lemma_shared_end_no_crossing(a[1], a[2], a[1], a[2]);
        }
        if i == 3 && j == 2 {
            lemma_shared_end_no_crossing(a[1], a[2], a[2], a[3]);
        }
        if i == 3 && j == 3 {
            lemma_parallel_no_crossing(a[1], a[2], a[3], a[0]);
        }
    }
}


/// Along the ring, no crossing lies before the record in front of it:
/// the crossings on an input edge come in the order of their parameters.
pub open spec fn sorted_runs(r: Ring) -> bool {
    forall|k: int|
        1 <= k < r.len() && (#[trigger] r.at(k)).inter ==> !r.at(k).alpha.lt(r.at(k - 1).alpha)
}

/// What the search for a place finds: every record it passes lies before
/// `alpha`, and the record it stops at, if it stops before the limit,
/// does not.
pub proof fn lemma_insert_pos_found(r: Ring, k: int, limit: int, alpha: Ratio)
    requires
        k <= limit,
    ensures
        forall|x: int|
            k <= x < insert_pos(r, k, limit, alpha) ==> (#[trigger] r.at(x)).alpha.lt(alpha),
        insert_pos(r, k, limit, alpha) < limit ==> !r.at(insert_pos(r, k, limit, alpha)).alpha.lt(
            alpha,
        ),
    decreases limit - k,
{
    if k < limit && r.at(k).alpha.lt(alpha) {
        lemma_insert_pos_found(r, k + 1, limit, alpha);
    }
}

/// Inserting a crossing on input edge `i` keeps the crossings of every
/// edge in the order of their parameters.
pub proof fn lemma_insert_keeps_runs(r: Ring, pts: Seq<Point>, base: int, i: int, v: Vertex)
    requires
        staged_side(r, pts, base),
        sorted_runs(r),
        0 <= i < pts.len(),
        v.inter,
        v.alpha.wf(),
        0 < v.alpha.num,
    ensures
        sorted_runs(r.insert(slot(r, pts.len() as int, i, v.alpha), v)),
{
    let n = pts.len() as int;
    let e = succ(i, n);
    let limit = run_end(r, e);
    let k0 = r.place[i];
    let p = slot(r, n, i, v.alpha);
    assert(r.order[0] == 0);
    assert(r.place[r.order[0]] == 0);
    assert(r.order[r.place[i]] == i);
    assert(r.order[r.place[e]] == e);
    if i + 1 < n {
        assert(r.place[i] < r.place[i + 1]);
    }
    assert(k0 < limit <= r.len());
    assert(r.at(k0) == r.arena[i]);
    lemma_zero_before(v.alpha);
    lemma_insert_pos_bounds(r, k0 + 1, limit, v.alpha);
    assert(p == insert_pos(r, k0 + 1, limit, v.alpha));
    lemma_insert_pos_found(r, k0, limit, v.alpha);
    let q = r.insert(p, v);
    assert forall|k: int| 1 <= k < q.len() && (#[trigger] q.at(k)).inter implies !q.at(k).alpha.lt(
        q.at(k - 1).alpha,
    ) by {
        if k < p {
            assert(q.order[k] == r.order[k]);
            assert(q.order[k - 1] == r.order[k - 1]);
            assert(q.at(k) == r.at(k));
            assert(q.at(k - 1) == r.at(k - 1));
        } else if k == p {
            assert(q.order[k] == r.len());
            assert(q.order[k - 1] == r.order[k - 1]);
            assert(q.at(k) == v);
            assert(q.at(k - 1) == r.at(k - 1));
            assert(r.at(k - 1).alpha.lt(v.alpha));
        } else if k == p + 1 {
            assert(q.order[k] == r.order[p]);
            assert(q.order[k - 1] == r.len());
            assert(q.at(k) == r.at(p));
            assert(q.at(k - 1) == v);
            if p == limit {
                assert(r.at(p) == r.arena[e]);
            }
        } else {
            assert(q.order[k] == r.order[k - 1]);
            assert(q.order[k - 1] == r.order[k - 2]);
            assert(q.at(k) == r.at(k - 1));
            assert(q.at(k - 1) == r.at(k - 2));
        }
    }
}

/// On a staged side, the run of input edge `i` begins before it ends.
pub proof fn lemma_slot_bounds(r: Ring, pts: Seq<Point>, base: int, i: int)
    requires
        staged_side(r, pts, base),
        0 <= i < pts.len(),
    ensures
        0 <= r.place[i] < run_end(r, succ(i, pts.len() as int)) <= r.len(),
        pts.len() > 1 ==> i != succ(i, pts.len() as int),
{
    let n = pts.len() as int;
    let e = succ(i, n);
    assert(r.order[0] == 0);
    assert(r.place[r.order[0]] == 0);
    assert(r.order[r.place[i]] == i);
    assert(r.order[r.place[e]] == e);
    if i + 1 < n {
        assert(r.place[i] < r.place[i + 1]);
    }
}

/// A ring of input vertices alone is one side of a staged state.
pub proof fn lemma_plain_staged(pts: Seq<Point>, base: int)
    requires
        all_within(pts),
        pts.len() + base <= usize::MAX,
    ensures
        staged_side(ring_of(pts), pts, base),
        sorted_runs(ring_of(pts)),
{
    let r = ring_of(pts);
    assert(r.wf());
}

/// The rings stay staged while their edge pairs are tested, they gain at
/// most one crossing for each pair, and the crossings of every input
/// edge stay in the order of their parameters.
pub proof fn lemma_crossed_upto_staged(sp: Seq<Point>, cp: Seq<Point>, i: int, j: int)
    requires
        all_within(sp),
        all_within(cp),
        (sp.len() + 1) * (cp.len() + 1) <= usize::MAX,
        0 <= i <= sp.len(),
        0 <= j <= cp.len(),
        i == sp.len() ==> j == 0,
    ensures
        staged(crossed_upto(sp, cp, i, j).0, crossed_upto(sp, cp, i, j).1, sp, cp),
        sorted_runs(crossed_upto(sp, cp, i, j).0),
        sorted_runs(crossed_upto(sp, cp, i, j).1),
        crossed_upto(sp, cp, i, j).0.len() - sp.len() <= i * cp.len() + j,
    decreases i, j,
{
    let n = sp.len() as int;
    let m = cp.len() as int;
    assert((n + 1) * (m + 1) == n * m + n + m + 1) by (nonlinear_arith);
    if j > 0 {
        lemma_crossed_upto_staged(sp, cp, i, j - 1);
        let (s, c) = crossed_upto(sp, cp, i, j - 1);
        assert(i * m + j <= n * m) by (nonlinear_arith)
            requires
                0 <= i < n,
                0 < j <= m,
        ;
        if edges_cross(sp, cp, i, j - 1) {
            let vs = twin_s(sp, cp, i, j - 1, c.len());
            let vc = twin_c(sp, cp, i, j - 1, s.len());
            assert(pts_within(sp, i));
            assert(pts_within(sp, succ(i, n)));
            assert(pts_within(cp, j - 1));
            assert(pts_within(cp, succ(j - 1, m)));
            lemma_crossing_parameters(
                sp[i],
                sp[succ(i, n)],
                cp[j - 1],
                cp[succ(j - 1, m)],
                COORD_MAX as int,
            );
            lemma_insert_staged_side(s, sp, m, i, vs);
            lemma_insert_staged_side(c, cp, n, j - 1, vc);
            lemma_insert_keeps_runs(s, sp, m, i, vs);
            lemma_insert_keeps_runs(c, cp, n, j - 1, vc);
        }
    } else if i > 0 {
        lemma_crossed_upto_staged(sp, cp, i - 1, m);
        assert((i - 1) * m + m == i * m) by (nonlinear_arith);
    } else {
        assert(n * m >= 0) by (nonlinear_arith)
            requires
                n >= 0,
                m >= 0,
        ;
        lemma_plain_staged(sp, m);
        lemma_plain_staged(cp, n);
    }
}

/// With all their crossings inserted, two rings are staged: the crossings
/// of each are linked to their twins in the other, every record lies
/// within the coordinate bound, and the crossings of every input edge
/// come in the order of their parameters.
pub proof fn lemma_crossed_staged(sp: Seq<Point>, cp: Seq<Point>)
    requires
        all_within(sp),
        all_within(cp),
        (sp.len() + 1) * (cp.len() + 1) <= usize::MAX,
    ensures
        staged(crossed(sp, cp).0, crossed(sp, cp).1, sp, cp),
        twinned(crossed(sp, cp).0, crossed(sp, cp).1),
        sorted_runs(crossed(sp, cp).0),
        sorted_runs(crossed(sp, cp).1),
{
    lemma_crossed_upto_staged(sp, cp, sp.len() as int, 0);
    lemma_staged_twinned(crossed(sp, cp).0, crossed(sp, cp).1, sp, cp);
}

} // verus!
