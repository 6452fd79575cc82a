//! Second phase of clipping: every crossing is labelled as an entry or
//! an exit, alternating along each polygon from a label that depends on
//! whether the polygon starts inside the other.

use vstd::prelude::*;
use crate::crossing::{lemma_flags_keep_twinned, twinned};
use crate::geometry::{properly_cross, properly_crossing, Point, COORD_MAX};
use crate::polygon::{lemma_next_plain_bounds, next_plain, succ, CPolygon, Ring, Vertex};

verus! {

/// Draws a number with `rand::random`, which takes it from the generator
/// of the running thread. Nothing is claimed of the value.
#[verifier::external_body]
fn random_u32() -> (r: u32) {
    rand::random::<u32>()
}

/// The number of places, in each direction, among which a far probe is
/// drawn.
pub const PROBE_SPREAD: u32 = 0x4000_0000;

/// A far probe for the point-in-polygon test: a point below and to the
/// left of every admissible vertex, at one of `PROBE_SPREAD` places in
/// each direction.
pub open spec fn is_probe(p: Point) -> bool {
    -COORD_MAX - PROBE_SPREAD <= p.x <= -COORD_MAX - 1 && -COORD_MAX - PROBE_SPREAD <= p.y
        <= -COORD_MAX - 1
}

/// The probe chosen by two drawn numbers.
pub open spec fn probe_of(a: u32, b: u32) -> Point {
    Point {
        x: (-COORD_MAX - 1 - (a % PROBE_SPREAD)) as i64,
        y: (-COORD_MAX - 1 - (b % PROBE_SPREAD)) as i64,
    }
}

/// Places the far probe from two drawn numbers.
pub fn probe_from(a: u32, b: u32) -> (p: Point)
    ensures
        p == probe_of(a, b),
        is_probe(p),
{
    let dx: i64 = (a % PROBE_SPREAD) as i64;
    let dy: i64 = (b % PROBE_SPREAD) as i64;
    Point { x: -COORD_MAX - 1 - dx, y: -COORD_MAX - 1 - dy }
}

/// Draws a far probe, jittered to dodge alignments with the polygon.
pub fn random_probe() -> (p: Point)
    ensures
        is_probe(p),
{
    let a: u32 = random_u32();
    let b: u32 = random_u32();
    probe_from(a, b)
}

/// The input edge that starts at position `k` of `r` is properly crossed
/// by the segment from `a` to `b`. The edge runs from the input vertex at
/// `k` to the next input vertex; crossings in between are passed over.
pub open spec fn edge_hit(r: Ring, k: int, a: Point, b: Point) -> bool {
    !r.at(k).inter && properly_cross(
        a,
        b,
        r.at(k).pt,
        r.at(next_plain(r, succ(k, r.len()))).pt,
    )
}

/// The number of input edges among those starting at the first `k`
/// positions of `r` that the segment from `a` to `b` properly crosses.
pub open spec fn hits(r: Ring, a: Point, b: Point, k: int) -> nat
    decreases k,
{
    if k <= 0 {
        0
    } else if edge_hit(r, k - 1, a, b) {
        hits(r, a, b, k - 1) + 1
    } else {
        hits(r, a, b, k - 1)
    }
}

/// Even-odd rule: the segment from `a` to the probe crosses an odd number
/// of input edges of `r`.
pub open spec fn inside(r: Ring, a: Point, probe: Point) -> bool {
    hits(r, a, probe, r.len()) % 2 == 1
}

impl Vertex {
    /// Test if the vertex is inside the polygon, by the even-odd rule
    /// against a randomly jittered far probe.
    pub fn is_inside(&self, poly: &CPolygon) -> (b: bool)
        requires
            poly.wf(),
            poly.model().in_bounds(),
            poly.model().len() > 0 ==> !poly.model().arena[0].inter,
            self.pt.within(COORD_MAX as int),
        ensures
            exists|probe: Point| is_probe(probe) && b == inside(poly.model(), self.pt, probe),
    {
        let probe = random_probe();
        self.is_inside_from(poly, probe)
    }

    /// Test if the vertex is inside the polygon, by the even-odd rule
    /// against the given far probe.
    pub fn is_inside_from(&self, poly: &CPolygon, probe: Point) -> (b: bool)
        requires
            poly.wf(),
            poly.model().in_bounds(),
            poly.model().len() > 0 ==> !poly.model().arena[0].inter,
            self.pt.within(COORD_MAX as int),
            is_probe(probe),
        ensures
            b == inside(poly.model(), self.pt, probe),
    {
        let ghost m = poly.model();
        let mut w: usize = 0;
        let mut it = poly.iter();
        loop
            invariant_except_break
                poly.wf(),
                m == poly.model(),
                m.in_bounds(),
                m.len() > 0 ==> !m.arena[0].inter,
                self.pt.within(COORD_MAX as int),
                is_probe(probe),
                it.wf(m),
                w == hits(m, self.pt, probe, it.position()),
                w <= it.position(),
            ensures
                w == hits(m, self.pt, probe, m.len()),
            decreases m.len() - it.position(),
        {
            let ghost k = it.position();
            match it.next(poly) {
                None => {
                    break ;
                },
                Some(q) => {
                    proof {
                        assert(m.place[m.order[k]] == k);
                    }
                    if !poly.vertex(q).inter {
                        let pt_q = poly.vertex(q).pt;
                        let q_next = poly.next(poly.following(q));
                        let pt_q_next = poly.vertex(q_next).pt;
                        proof {
                            let k1 = succ(k, m.len());
                            assert(m.place[q as int] == k);
                            assert(m.place[m.order[k1]] == k1);
                            assert(q_next == m.order[next_plain(m, k1)]);
                            assert(m.arena[q as int].pt.within(COORD_MAX as int));
                            assert(m.arena[q_next as int].pt.within(COORD_MAX as int));
                            lemma_next_plain_bounds(m, k1);
                            assert(m.at(k).pt == pt_q);
                            assert(m.at(next_plain(m, k1)).pt == pt_q_next);
                        }
                        if properly_crossing(self.pt, probe, pt_q, pt_q_next) {
                            assert(edge_hit(m, k, self.pt, probe));
                            w += 1;
                        } else {
                            assert(!edge_hit(m, k, self.pt, probe));
                        }
                    } else {
                        assert(!edge_hit(m, k, self.pt, probe));
                    }
                },
            }
        }
        w % 2 != 0
    }
}

/// The number of crossings among the first `k` positions of `r`.
pub open spec fn crossings_before(r: Ring, k: int) -> nat
    decreases k,
{
    if k <= 0 {
        0
    } else if r.at(k - 1).inter {
        crossings_before(r, k - 1) + 1
    } else {
        crossings_before(r, k - 1)
    }
}

/// The label of a crossing at position `k`: labels alternate along the
/// ring, starting with `first`.
pub open spec fn label_at(r: Ring, first: bool, k: int) -> bool {
    first != (crossings_before(r, k) % 2 == 1)
}

/// `r` with the crossings at its first `k` positions labelled.
pub open spec fn labelled_upto(r: Ring, first: bool, k: int) -> Ring {
    Ring {
        arena: Seq::new(
            r.arena.len(),
            |i: int|
                if r.arena[i].inter && r.place[i] < k {
                    Vertex { entry: label_at(r, first, r.place[i]), ..r.arena[i] }
                } else {
                    r.arena[i]
                },
        ),
        ..r
    }
}

/// `r` with every crossing labelled as an entry or an exit, alternating
/// along the ring from `first`.
pub open spec fn labelled(r: Ring, first: bool) -> Ring {
    labelled_upto(r, first, r.len())
}

/// Whether the first vertex of `a` lies inside `b`, judged against
/// `probe`; an empty ring lies inside nothing.
pub open spec fn first_inside(a: Ring, b: Ring, probe: Point) -> bool {
    a.len() > 0 && inside(b, a.arena[0].pt, probe)
}

/// Labelling keeps a ring within the coordinate bound.
pub proof fn lemma_labelled_in_bounds(r: Ring, first: bool)
    requires
        r.in_bounds(),
    ensures
        labelled(r, first).in_bounds(),
{
    let q = labelled(r, first);
    assert forall|j: int| 0 <= j < q.arena.len() implies (#[trigger] q.arena[j]).pt.within(
        COORD_MAX as int,
    ) by {
        assert(r.arena[j].pt.within(COORD_MAX as int));
    }
}

/// Labelling keeps rings twinned.
pub proof fn lemma_labelled_twinned(s: Ring, c: Ring, fs: bool, fc: bool)
    requires
        twinned(s, c),
    ensures
        twinned(labelled(s, fs), labelled(c, fc)),
{
    lemma_flags_keep_twinned(s, c, labelled(s, fs), labelled(c, fc));
}

impl CPolygon {
    /// Labels the crossings alternately along the ring, starting with `first`.
    pub fn label(&mut self, first: bool)
        requires
            old(self).wf(),
        ensures
            final(self).wf(),
            final(self).model() == labelled(old(self).model(), first),
    {
        let ghost r0 = self.model();
        let mut entry: bool = first;
        let mut it = self.iter();
        proof {
            self.lemma_wf_model();
        }
        assert(self.model().arena =~= labelled_upto(r0, first, 0).arena);
        loop
            invariant_except_break
                self.wf(),
                r0.wf(),
                it.wf(r0),
                self.model() == labelled_upto(r0, first, it.position()),
                entry == label_at(r0, first, it.position()),
            ensures
                self.wf(),
                self.model() == labelled(r0, first),
            decreases r0.len() - it.position(),
        {
            let ghost k = it.position();
            proof {
                it.lemma_wf_same_order(r0, self.model());
            }
            match it.next(self) {
                None => {
                    proof {
                        it.lemma_wf_same_order(self.model(), r0);
                        assert(labelled_upto(r0, first, k).arena =~= labelled(r0, first).arena);
                    }
                    break ;
                },
                Some(s) => {
                    proof {
                        it.lemma_wf_same_order(self.model(), r0);
                        assert(r0.place[r0.order[k]] == k);
                    }
                    if self.vertex(s).inter {
                        let mut v = self.vertex(s);
                        v.entry = entry;
                        self.put(s, v);
                        entry = !entry;
                    }
                    proof {
                        let a = self.model().arena;
                        let b = labelled_upto(r0, first, k + 1).arena;
                        let before = labelled_upto(r0, first, k).arena;
                        assert(s == r0.order[k]);
                        assert(r0.place[s as int] == k);
                        assert(before[s as int] == r0.arena[s as int]);
                        assert(r0.at(k) == r0.arena[s as int]);
                        assert forall|i: int| 0 <= i < a.len() implies a[i] == b[i] by {
                            assert(r0.order[r0.place[i]] == i);
                            if i != s {
                                assert(a[i] == before[i]);
                            }
                        }
                        assert(a =~= b);
                    }
                },
            }
        }
    }

    /// Labels the crossings of both polygons as entries and exits. Whether
    /// the first vertex of each polygon lies inside the other is judged
    /// against the given probes and combined with the seed of the
    /// operation.
    pub fn phase_two_with(
        &mut self,
        poly: &mut CPolygon,
        s_entry: bool,
        c_entry: bool,
        probe_s: Point,
        probe_c: Point,
    )
        requires
            old(self).wf(),
            old(poly).wf(),
            old(self).model().in_bounds(),
            old(poly).model().in_bounds(),
            old(self).model().len() > 0 ==> !old(self).model().arena[0].inter,
            old(poly).model().len() > 0 ==> !old(poly).model().arena[0].inter,
            is_probe(probe_s),
            is_probe(probe_c),
        ensures
            final(self).wf(),
            final(poly).wf(),
            final(self).model() == labelled(
                old(self).model(),
                s_entry != first_inside(old(self).model(), old(poly).model(), probe_s),
            ),
            final(poly).model() == labelled(
                old(poly).model(),
                c_entry != first_inside(old(poly).model(), old(self).model(), probe_c),
            ),
    {
        let s_in: bool = if self.len() > 0 {
            let v = self.vertex(0);
            v.is_inside_from(poly, probe_s)
        } else {
            false
        };
        let c_in: bool = if poly.len() > 0 {
            let v = poly.vertex(0);
            v.is_inside_from(self, probe_c)
        } else {
            false
        };
        self.label(s_entry != s_in);
        poly.label(c_entry != c_in);
    }

    /// Labels the crossings of both polygons as entries and exits, judging
    /// containment against randomly jittered far probes.
    pub fn phase_two(&mut self, poly: &mut CPolygon, s_entry: bool, c_entry: bool)
        requires
            old(self).wf(),
            old(poly).wf(),
            old(self).model().in_bounds(),
            old(poly).model().in_bounds(),
            old(self).model().len() > 0 ==> !old(self).model().arena[0].inter,
            old(poly).model().len() > 0 ==> !old(poly).model().arena[0].inter,
        ensures
            final(self).wf(),
            final(poly).wf(),
            exists|probe_s: Point, probe_c: Point|
                is_probe(probe_s) && is_probe(probe_c) && final(self).model() == labelled(
                    old(self).model(),
                    s_entry != #[trigger] first_inside(old(self).model(), old(poly).model(), probe_s),
                ) && final(poly).model() == labelled(
                    old(poly).model(),
                    c_entry != #[trigger] first_inside(old(poly).model(), old(self).model(), probe_c),
                ),
    {
        let probe_s = random_probe();
        let probe_c = random_probe();
        self.phase_two_with(poly, s_entry, c_entry, probe_s, probe_c);
    }
}

} // verus!
