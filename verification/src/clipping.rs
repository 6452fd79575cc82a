//! Polygon clipping after Weiler and Atherton: union, intersection and
//! difference of two polygons.
//!
//! The crossings of the two polygons are inserted into both, labelled as
//! entries and exits, and the result rings are traced through them.

use vstd::prelude::*;
pub use crate::polygon::{CPolyIter, CPolygon, Vertex};
use crate::crossing::{
    crossed, lemma_crossed_staged, lemma_no_crossing_upto, lemma_staged_twinned, no_crossing,
    simple,
};
use crate::geometry::{Point, COORD_MAX};
use crate::labelling::{
    first_inside, is_probe, labelled, lemma_labelled_in_bounds, lemma_labelled_twinned,
    random_probe,
};
use crate::polygon::{all_within, drawn_from, lemma_ring_of_points, ring_of, rings_of};
use crate::tracing::{
    clean, extract, first_open, lemma_extract_clean, lemma_first_open_plain, marked_alike, traced,
};

verus! {

/// The outline computed from the input rings `sp` (subject) and `cp`
/// (clip): crossings are inserted, labelled from the two seeds and the
/// containment of each ring's first vertex in the other ring, and the
/// result rings are traced.
pub open spec fn clip_model(
    sp: Seq<Point>,
    cp: Seq<Point>,
    s_entry: bool,
    c_entry: bool,
    probe_s: Point,
    probe_c: Point,
) -> Seq<Seq<Point>> {
    let (s1, c1) = crossed(sp, cp);
    let s2 = labelled(s1, s_entry != first_inside(s1, c1, probe_s));
    let c2 = labelled(c1, c_entry != first_inside(c1, s1, probe_c));
    traced(s2, c2)
}

/// The points that two rings hold once their crossings are inserted:
/// the vertices of both and the points of their crossings.
pub open spec fn vertices_and_crossings(sp: Seq<Point>, cp: Seq<Point>) -> Seq<Point> {
    crossed(sp, cp).0.points() + crossed(sp, cp).1.points()
}

/// What a clipping operation asks of its two polygons: both hold input
/// vertices only, within the coordinate bound, and are small enough for
/// all their crossings to be indexed.
pub open spec fn clip_ready(s: &CPolygon, c: &CPolygon) -> bool {
    &&& s.wf()
    &&& c.wf()
    &&& s.is_plain()
    &&& c.is_plain()
    &&& all_within(s.model().points())
    &&& all_within(c.model().points())
    &&& (s.model().len() + 1) * (c.model().len() + 1) <= usize::MAX
}

/// Decides whether every point of a ring lies within the coordinate
/// bound.
pub fn ring_fits(pts: &Vec<Point>) -> (b: bool)
    ensures
        b == all_within(pts@),
{
    let mut i: usize = 0;
    while i < pts.len()
        invariant
            i <= pts.len(),
            forall|k: int| 0 <= k < i ==> (#[trigger] pts@[k]).within(COORD_MAX as int),
        decreases pts.len() - i,
    {
        let p = pts[i];
        if p.x < -COORD_MAX || p.x > COORD_MAX || p.y < -COORD_MAX || p.y > COORD_MAX {
            return false;
        }
        i = i + 1;
    }
    true
}

/// Whether a union of rings with `n` and `m` points has more edge pairs
/// than can be counted.
pub fn too_large(n: usize, m: usize) -> (b: bool)
    ensures
        b == ((n + 1) * (m + 1) > usize::MAX),
{
    if n == usize::MAX || m == usize::MAX {
        assert((n + 1) * (m + 1) > usize::MAX) by (nonlinear_arith)
            requires
                n == usize::MAX || m == usize::MAX,
                n >= 0,
                m >= 0,
        ;
        return true;
    }
    match (n + 1).checked_mul(m + 1) {
        Some(_) => false,
        None => true,
    }
}

/// What a clipping operation asks of two rings given as point lists.
pub open spec fn rings_ready(sp: Seq<Point>, cp: Seq<Point>) -> bool {
    &&& all_within(sp)
    &&& all_within(cp)
    &&& (sp.len() + 1) * (cp.len() + 1) <= usize::MAX
}

/// Clips the ring `subject` against the ring `clip` with the given seeds:
/// `(false, false)` yields the union, `(true, true)` the intersection,
/// `(false, true)` the difference. Rings that reach beyond the
/// coordinate bound, or that have more edge pairs than can be counted,
/// are refused.
pub fn clip_rings(subject: &Vec<Point>, clip: &Vec<Point>, s_entry: bool, c_entry: bool) -> (r:
    Option<Vec<Vec<Point>>>)
    ensures
        r.is_some() == rings_ready(subject@, clip@),
        r.is_some() ==> exists|probe_s: Point, probe_c: Point|
            is_probe(probe_s) && is_probe(probe_c) && rings_of(r.unwrap()@) == #[trigger] clip_model(
                subject@,
                clip@,
                s_entry,
                c_entry,
                probe_s,
                probe_c,
            ),
        r.is_some() ==> r.unwrap()@.len() > 0,
        r.is_some() ==> forall|i: int|
            0 <= i < r.unwrap()@.len() ==> all_within(#[trigger] r.unwrap()@[i]@) && drawn_from(
                r.unwrap()@[i]@,
                vertices_and_crossings(subject@, clip@),
            ),
{
    if !ring_fits(subject) || !ring_fits(clip) || too_large(subject.len(), clip.len()) {
        return None;
    }
    let mut s = CPolygon::from_vec(subject);
    let mut c = CPolygon::from_vec(clip);
    proof {
        lemma_ring_of_points(subject@);
        lemma_ring_of_points(clip@);
    }
    Some(s.clip(&mut c, s_entry, c_entry))
}

impl CPolygon {
    /// Clips `self` (the subject) against `poly` with the given seeds and
    /// probes: `(false, false)` yields the union, `(true, true)` the
    /// intersection, `(false, true)` the difference.
    pub fn clip_with(
        &mut self,
        poly: &mut CPolygon,
        s_entry: bool,
        c_entry: bool,
        probe_s: Point,
        probe_c: Point,
    ) -> (list: Vec<Vec<Point>>)
        requires
            clip_ready(old(self), old(poly)),
            is_probe(probe_s),
            is_probe(probe_c),
        ensures
            rings_of(list@) == clip_model(
                old(self).model().points(),
                old(poly).model().points(),
                s_entry,
                c_entry,
                probe_s,
                probe_c,
            ),
            list@.len() > 0,
            forall|i: int| 0 <= i < list@.len() ==> all_within(#[trigger] list@[i]@),
            forall|i: int|
                0 <= i < list@.len() ==> drawn_from(
                    #[trigger] list@[i]@,
                    vertices_and_crossings(old(self).model().points(), old(poly).model().points()),
                ),
            final(self).wf(),
            final(poly).wf(),
            first_open(final(self).model(), 0) >= final(self).model().len(),
            first_open(final(poly).model(), 0) >= final(poly).model().len(),
            final(self).model().points() == crossed(
                old(self).model().points(),
                old(poly).model().points(),
            ).0.points(),
            final(poly).model().points() == crossed(
                old(self).model().points(),
                old(poly).model().points(),
            ).1.points(),
    {
        let ghost sp = self.model().points();
        let ghost cp = poly.model().points();
        self.phase_one(poly);
        let ghost s1 = self.model();
        let ghost c1 = poly.model();
        proof {
            lemma_staged_twinned(s1, c1, sp, cp);
        }
        self.phase_two_with(poly, s_entry, c_entry, probe_s, probe_c);
        proof {
            lemma_labelled_twinned(
                s1,
                c1,
                s_entry != first_inside(s1, c1, probe_s),
                c_entry != first_inside(c1, s1, probe_c),
            );
            lemma_labelled_in_bounds(s1, s_entry != first_inside(s1, c1, probe_s));
            lemma_labelled_in_bounds(c1, c_entry != first_inside(c1, s1, probe_c));
            assert(self.model().points() =~= s1.points());
            assert(poly.model().points() =~= c1.points());
            assert(marked_alike(self.model(), poly.model()));
        }
        self.phase_three(poly)
    }

    /// Clips `self` (the subject) against `poly` with the given seeds,
    /// judging containment against randomly jittered far probes.
    pub fn clip(&mut self, poly: &mut CPolygon, s_entry: bool, c_entry: bool) -> (list: Vec<
        Vec<Point>,
    >)
        requires
            clip_ready(old(self), old(poly)),
        ensures
            exists|probe_s: Point, probe_c: Point|
                is_probe(probe_s) && is_probe(probe_c) && rings_of(list@) == #[trigger] clip_model(
                    old(self).model().points(),
                    old(poly).model().points(),
                    s_entry,
                    c_entry,
                    probe_s,
                    probe_c,
                ),
            list@.len() > 0,
            forall|i: int| 0 <= i < list@.len() ==> all_within(#[trigger] list@[i]@),
            forall|i: int|
                0 <= i < list@.len() ==> drawn_from(
                    #[trigger] list@[i]@,
                    vertices_and_crossings(old(self).model().points(), old(poly).model().points()),
                ),
    {
        let probe_s = random_probe();
        let probe_c = random_probe();
        self.clip_with(poly, s_entry, c_entry, probe_s, probe_c)
    }

    /// The union of `self` and `poly`.
    pub fn union(&mut self, poly: &mut CPolygon) -> (list: Vec<Vec<Point>>)
        requires
            clip_ready(old(self), old(poly)),
        ensures
            exists|probe_s: Point, probe_c: Point|
                is_probe(probe_s) && is_probe(probe_c) && rings_of(list@) == #[trigger] clip_model(
                    old(self).model().points(),
                    old(poly).model().points(),
                    false,
                    false,
                    probe_s,
                    probe_c,
                ),
            list@.len() > 0,
            forall|i: int| 0 <= i < list@.len() ==> all_within(#[trigger] list@[i]@),
            forall|i: int|
                0 <= i < list@.len() ==> drawn_from(
                    #[trigger] list@[i]@,
                    vertices_and_crossings(old(self).model().points(), old(poly).model().points()),
                ),
    {
        self.clip(poly, false, false)
    }

    /// The intersection of `self` and `poly`.
    pub fn intersection(&mut self, poly: &mut CPolygon) -> (list: Vec<Vec<Point>>)
        requires
            clip_ready(old(self), old(poly)),
        ensures
            exists|probe_s: Point, probe_c: Point|
                is_probe(probe_s) && is_probe(probe_c) && rings_of(list@) == #[trigger] clip_model(
                    old(self).model().points(),
                    old(poly).model().points(),
                    true,
                    true,
                    probe_s,
                    probe_c,
                ),
            list@.len() > 0,
            forall|i: int| 0 <= i < list@.len() ==> all_within(#[trigger] list@[i]@),
            forall|i: int|
                0 <= i < list@.len() ==> drawn_from(
                    #[trigger] list@[i]@,
                    vertices_and_crossings(old(self).model().points(), old(poly).model().points()),
                ),
    {
        self.clip(poly, true, true)
    }

    /// The difference of `self` and `poly`: `self` without `poly`.
    pub fn difference(&mut self, poly: &mut CPolygon) -> (list: Vec<Vec<Point>>)
        requires
            clip_ready(old(self), old(poly)),
        ensures
            exists|probe_s: Point, probe_c: Point|
                is_probe(probe_s) && is_probe(probe_c) && rings_of(list@) == #[trigger] clip_model(
                    old(self).model().points(),
                    old(poly).model().points(),
                    false,
                    true,
                    probe_s,
                    probe_c,
                ),
            list@.len() > 0,
            forall|i: int| 0 <= i < list@.len() ==> all_within(#[trigger] list@[i]@),
            forall|i: int|
                0 <= i < list@.len() ==> drawn_from(
                    #[trigger] list@[i]@,
                    vertices_and_crossings(old(self).model().points(), old(poly).model().points()),
                ),
    {
        self.clip(poly, false, true)
    }
}

/// Without a crossing between the two rings, every clipping operation
/// returns the subject's own vertex sequence, whatever the seeds and
/// probes.
pub proof fn lemma_clip_without_crossing(
    sp: Seq<Point>,
    cp: Seq<Point>,
    s_entry: bool,
    c_entry: bool,
    probe_s: Point,
    probe_c: Point,
)
    requires
        no_crossing(sp, cp),
    ensures
        clip_model(sp, cp, s_entry, c_entry, probe_s, probe_c) == seq![sp],
{
    lemma_no_crossing_upto(sp, cp, sp.len() as int, 0);
    let s1 = ring_of(sp);
    let c1 = ring_of(cp);
    let fs = s_entry != first_inside(s1, c1, probe_s);
    let fc = c_entry != first_inside(c1, s1, probe_c);
    assert(labelled(s1, fs).arena =~= s1.arena);
    assert(labelled(c1, fc).arena =~= c1.arena);
    assert(labelled(s1, fs) == s1);
    assert(labelled(c1, fc) == c1);
    lemma_first_open_plain(sp, 0);
    assert(extract(s1, c1, s1.len() as nat) =~= Seq::<Seq<Point>>::empty());
    assert(s1.points() =~= sp);
}

/// Union is idempotent: the union of a simple ring with a copy of itself
/// is the ring itself.
pub proof fn lemma_union_idempotent(ring: Seq<Point>, probe_s: Point, probe_c: Point)
    requires
        simple(ring),
    ensures
        clip_model(ring, ring, false, false, probe_s, probe_c) == seq![ring],
{
    lemma_clip_without_crossing(ring, ring, false, false, probe_s, probe_c);
}


/// The result of a clipping operation holds at least one ring. Either
/// it is the subject's own vertex sequence, or every ring of it is free
/// of consecutive repetitions, the last point and the first counting as
/// consecutive.
pub proof fn lemma_clip_clean(
    sp: Seq<Point>,
    cp: Seq<Point>,
    s_entry: bool,
    c_entry: bool,
    probe_s: Point,
    probe_c: Point,
)
    requires
        rings_ready(sp, cp),
    ensures
        clip_model(sp, cp, s_entry, c_entry, probe_s, probe_c).len() > 0,
        clip_model(sp, cp, s_entry, c_entry, probe_s, probe_c) == seq![crossed(sp, cp).0.points()]
            || forall|i: int|
            0 <= i < clip_model(sp, cp, s_entry, c_entry, probe_s, probe_c).len() ==> clean(
                #[trigger] clip_model(sp, cp, s_entry, c_entry, probe_s, probe_c)[i],
            ),
{
    let (s1, c1) = crossed(sp, cp);
    let s2 = labelled(s1, s_entry != first_inside(s1, c1, probe_s));
    let c2 = labelled(c1, c_entry != first_inside(c1, s1, probe_c));
    lemma_extract_clean(s2, c2, s2.len() as nat);
    lemma_crossed_staged(sp, cp);
    assert(s2.points() =~= s1.points());
}

} // verus!
