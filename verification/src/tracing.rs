//! Third phase of clipping: the result rings are traced from crossing
//! to crossing, changing over between the two polygons at each.

use vstd::prelude::*;
use crate::crossing::{lemma_flags_keep_twinned, twinned};
use crate::geometry::{Point, COORD_MAX};
use crate::polygon::{
    all_within, collapse, drawn_from, lemma_collapse_no_repeats, lemma_collapse_within,
    lemma_drawn_from, lemma_push_points, no_repeats, pred, ring_of, rings_of, succ, CPolygon,
    Ring, Vertex,
};

verus! {

/// A crossing that no traced ring has used yet.
pub open spec fn is_open(v: Vertex) -> bool {
    v.inter && !v.checked
}

/// The first position from `k` on that holds an unused crossing, or the
/// length of the ring if there is none.
pub open spec fn first_open(r: Ring, k: int) -> int
    decreases r.len() - k,
{
    if k >= r.len() {
        r.len()
    } else if is_open(r.at(k)) {
        k
    } else {
        first_open(r, k + 1)
    }
}

/// The first unused crossing from `k` on is found between `k` and the
/// end of the ring, and an unused crossing stands there if it is found
/// before the end.
pub proof fn lemma_first_open_bounds(r: Ring, k: int)
    requires
        0 <= k <= r.len(),
    ensures
        k <= first_open(r, k) <= r.len(),
        first_open(r, k) < r.len() ==> is_open(r.at(first_open(r, k))),
    decreases r.len() - k,
{
    if k < r.len() && !is_open(r.at(k)) {
        lemma_first_open_bounds(r, k + 1);
    }
}

/// A ring of input vertices holds no unused crossing.
pub proof fn lemma_first_open_plain(pts: Seq<Point>, k: int)
    requires
        0 <= k <= pts.len(),
    ensures
        first_open(ring_of(pts), k) == pts.len(),
    decreases pts.len() - k,
{
    if k < pts.len() {
        lemma_first_open_plain(pts, k + 1);
    }
}

/// The positions passed when leaving position `k` forwards or backwards,
/// up to and including the next crossing; at most `fuel` of them.
pub open spec fn run(r: Ring, k: int, fwd: bool, fuel: nat) -> Seq<int>
    decreases fuel,
{
    if fuel == 0 {
        Seq::empty()
    } else {
        let k1 = if fwd {
            succ(k, r.len())
        } else {
            pred(k, r.len())
        };
        if r.at(k1).inter {
            seq![k1]
        } else {
            seq![k1] + run(r, k1, fwd, (fuel - 1) as nat)
        }
    }
}

/// The points at the positions `path` of `r`.
pub open spec fn points_at(r: Ring, path: Seq<int>) -> Seq<Point> {
    Seq::new(path.len(), |t: int| r.at(path[t]).pt)
}

/// A walk passes positions of the ring only, so that the points it
/// passes are points of the ring.
pub proof fn lemma_run_drawn(r: Ring, k: int, fwd: bool, fuel: nat)
    requires
        r.wf(),
        0 <= k < r.len(),
    ensures
        forall|t: int|
            0 <= t < run(r, k, fwd, fuel).len() ==> 0 <= #[trigger] run(r, k, fwd, fuel)[t]
                < r.len(),
        drawn_from(points_at(r, run(r, k, fwd, fuel)), r.points()),
    decreases fuel,
{
    if fuel > 0 {
        let k1 = if fwd {
            succ(k, r.len())
        } else {
            pred(k, r.len())
        };
        let path = run(r, k, fwd, fuel);
        if !r.at(k1).inter {
            let rest = run(r, k1, fwd, (fuel - 1) as nat);
            lemma_run_drawn(r, k1, fwd, (fuel - 1) as nat);
            assert forall|t: int| 0 <= t < path.len() implies 0 <= #[trigger] path[t] < r.len() by {
                if t > 0 {
                    assert(path[t] == rest[t - 1]);
                }
            }
        }
        assert forall|t: int| 0 <= t < path.len() implies r.points().contains(
            #[trigger] points_at(r, path)[t],
        ) by {
            assert(r.points()[path[t]] == r.at(path[t]).pt);
        }
    }
}

/// `r` with the record at arena index `i` marked as used.
pub open spec fn mark(r: Ring, i: int) -> Ring {
    r.set(i, Vertex { checked: true, ..r.arena[i] })
}

/// The twin of the crossing at arena index `i` of `r`.
pub open spec fn twin_of(r: Ring, i: int) -> int {
    r.arena[i].neighbour.unwrap() as int
}

/// The positions passed on the leg that leaves the crossing at arena
/// index `i` of `r`: forwards from an entry, backwards from an exit.
pub open spec fn leg_path(r: Ring, i: int) -> Seq<int> {
    run(r, r.place[i], r.arena[i].entry, r.len() as nat)
}

/// One leg of a traced ring, started at the crossing at arena index `i`
/// of the subject (`on_s`) or of the clip polygon: the crossing and its
/// twin are marked as used, the ring is followed forwards from an entry
/// and backwards from an exit up to the next crossing, and the walk
/// changes over to that crossing's twin. It goes on from there unless
/// the twin was used before. Returns the points passed and both rings
/// with their marks.
pub open spec fn trace(s: Ring, c: Ring, on_s: bool, i: int, fuel: nat) -> (Seq<Point>, Ring, Ring)
    decreases fuel,
{
    if fuel == 0 {
        (Seq::empty(), s, c)
    } else {
        let cur = mark(if on_s { s } else { c }, i);
        let oth = mark(if on_s { c } else { s }, twin_of(if on_s { s } else { c }, i));
        let path = leg_path(cur, i);
        let nxt = twin_of(cur, cur.order[path.last()]);
        let (s1, c1) = if on_s {
            (cur, oth)
        } else {
            (oth, cur)
        };
        if oth.arena[nxt].checked {
            (points_at(cur, path), s1, c1)
        } else {
            let (rest, s2, c2) = trace(s1, c1, !on_s, nxt, (fuel - 1) as nat);
            (points_at(cur, path) + rest, s2, c2)
        }
    }
}

/// One leg of `trace`, spelled out.
pub proof fn lemma_trace_unfold(s: Ring, c: Ring, on_s: bool, i: int, fuel: nat)
    requires
        fuel > 0,
    ensures
        ({
            let cur = mark(if on_s { s } else { c }, i);
            let oth = mark(if on_s { c } else { s }, twin_of(if on_s { s } else { c }, i));
            let path = leg_path(cur, i);
            let nxt = twin_of(cur, cur.order[path.last()]);
            let s1 = if on_s { cur } else { oth };
            let c1 = if on_s { oth } else { cur };
            let t = trace(s, c, on_s, i, fuel);
            let rest = trace(s1, c1, !on_s, nxt, (fuel - 1) as nat);
            if oth.arena[nxt].checked {
                t == (points_at(cur, path), s1, c1)
            } else {
                t == (points_at(cur, path) + rest.0, rest.1, rest.2)
            }
        }),
{
}

/// The rings traced from the unused crossings of the subject, each
/// started at the first unused crossing left and freed of repeated points.
pub open spec fn extract(s: Ring, c: Ring, fuel: nat) -> Seq<Seq<Point>>
    decreases fuel,
{
    if fuel == 0 || first_open(s, 0) >= s.len() {
        Seq::empty()
    } else {
        let start = s.order[first_open(s, 0)];
        let (pts, s1, c1) = trace(s, c, true, start, (s.len() + c.len()) as nat);
        seq![collapse(seq![s.arena[start].pt] + pts)] + extract(s1, c1, (fuel - 1) as nat)
    }
}

/// The two rings after the extraction, with the marks it leaves.
pub open spec fn settled(s: Ring, c: Ring, fuel: nat) -> (Ring, Ring)
    decreases fuel,
{
    if fuel == 0 || first_open(s, 0) >= s.len() {
        (s, c)
    } else {
        let start = s.order[first_open(s, 0)];
        let (pts, s1, c1) = trace(s, c, true, start, (s.len() + c.len()) as nat);
        settled(s1, c1, (fuel - 1) as nat)
    }
}

/// `b` is `a` with more crossings marked as used: the order is the same,
/// every record is the same but for its mark, no mark was taken away, and
/// the records of input vertices are untouched.
pub open spec fn same_but_marks(a: Ring, b: Ring) -> bool {
    &&& b.order == a.order
    &&& b.place == a.place
    &&& b.arena.len() == a.arena.len()
    &&& forall|i: int|
        0 <= i < a.arena.len() ==> (#[trigger] b.arena[i]) == (Vertex {
            checked: b.arena[i].checked,
            ..a.arena[i]
        }) && (a.arena[i].checked ==> b.arena[i].checked) && (!a.arena[i].inter
            ==> b.arena[i].checked == a.arena[i].checked)
}

/// Every crossing of `s` carries the same mark as its twin in `c`.
pub open spec fn marked_alike(s: Ring, c: Ring) -> bool {
    forall|x: int|
        0 <= x < s.len() && (#[trigger] s.arena[x]).inter ==> s.arena[x].checked
            == c.arena[twin_of(s, x)].checked
}

/// `r` with the record that `link` names marked as used; `r` itself if
/// the link names no record.
pub open spec fn marked_twin(r: Ring, link: Option<usize>) -> Ring {
    match link {
        Some(j) => if j < r.len() {
            mark(r, j as int)
        } else {
            r
        },
        None => r,
    }
}

/// A ring without consecutive repetitions, the last point and the first
/// counting as consecutive.
pub open spec fn clean(ring: Seq<Point>) -> bool {
    no_repeats(ring) && (ring.len() > 1 ==> ring.last() != ring[0])
}

/// The ring starts at the point of a crossing of `r`.
pub open spec fn starts_at_crossing(r: Ring, ring: Seq<Point>) -> bool {
    ring.len() > 0 && exists|x: int|
        0 <= x < r.len() && (#[trigger] r.arena[x]).inter && r.arena[x].pt == ring[0]
}

/// Every traced ring is free of consecutive repetitions, the last point
/// and the first counting as consecutive, and holds a point.
pub proof fn lemma_extract_clean(s: Ring, c: Ring, fuel: nat)
    ensures
        forall|i: int|
            0 <= i < extract(s, c, fuel).len() ==> clean(#[trigger] extract(s, c, fuel)[i])
                && extract(s, c, fuel)[i].len() > 0,
    decreases fuel,
{
    if fuel == 0 || first_open(s, 0) >= s.len() {
    } else {
        let start = s.order[first_open(s, 0)];
        let (pts, s1, c1) = trace(s, c, true, start, (s.len() + c.len()) as nat);
        let head = collapse(seq![s.arena[start].pt] + pts);
        let rest = extract(s1, c1, (fuel - 1) as nat);
        lemma_collapse_no_repeats(seq![s.arena[start].pt] + pts);
        lemma_extract_clean(s1, c1, (fuel - 1) as nat);
        let all = extract(s, c, fuel);
        assert(all == seq![head] + rest);
        assert forall|i: int| 0 <= i < all.len() implies clean(#[trigger] all[i]) && all[i].len()
            > 0 by {
            if i == 0 {
                assert(all[0] == head);
            } else {
                assert(all[i] == rest[i - 1]);
            }
        }
    }
}

/// Marking a crossing only adds a mark.
pub proof fn lemma_mark_same(r: Ring, i: int)
    requires
        0 <= i < r.len(),
        r.arena[i].inter,
    ensures
        same_but_marks(r, mark(r, i)),
{
}

/// Adding marks twice adds marks.
pub proof fn lemma_same_but_marks_trans(a: Ring, b: Ring, c: Ring)
    requires
        same_but_marks(a, b),
        same_but_marks(b, c),
    ensures
        same_but_marks(a, c),
{
    assert forall|i: int| 0 <= i < a.arena.len() implies (#[trigger] c.arena[i]) == (Vertex {
        checked: c.arena[i].checked,
        ..a.arena[i]
    }) && (a.arena[i].checked ==> c.arena[i].checked) && (!a.arena[i].inter ==> c.arena[i].checked
        == a.arena[i].checked) by {
        assert(b.arena[i] == (Vertex { checked: b.arena[i].checked, ..a.arena[i] }));
        assert(c.arena[i] == (Vertex { checked: c.arena[i].checked, ..b.arena[i] }));
    }
}

/// Marks change neither the points of a ring nor which records are
/// crossings.
pub proof fn lemma_same_but_marks_points(a: Ring, b: Ring)
    requires
        same_but_marks(a, b),
        a.wf(),
    ensures
        b.points() == a.points(),
        b.wf(),
        b.len() == a.len(),
{
    assert forall|k: int| 0 <= k < a.order.len() implies b.arena[b.order[k]].pt == a.arena[a.order[k]].pt by {
        let i = a.order[k];
        assert(b.arena[i] == (Vertex { checked: b.arena[i].checked, ..a.arena[i] }));
    }
    assert(b.points() =~= a.points());
}

/// Marking a crossing of one ring and its twin in the other keeps the
/// marks of all twins alike.
pub proof fn lemma_mark_pair_alike(s: Ring, c: Ring, x: int)
    requires
        twinned(s, c),
        marked_alike(s, c),
        s.len() <= usize::MAX,
        c.len() <= usize::MAX,
        0 <= x < s.len(),
        s.arena[x].inter,
    ensures
        marked_alike(mark(s, x), mark(c, twin_of(s, x))),
        marked_alike(mark(c, twin_of(s, x)), mark(s, x)),
{
    let y = twin_of(s, x);
    let s1 = mark(s, x);
    let c1 = mark(c, y);
    assert forall|a: int| 0 <= a < s1.len() && (#[trigger] s1.arena[a]).inter implies s1.arena[a].checked
        == c1.arena[twin_of(s1, a)].checked by {
        assert(s.arena[a].inter);
        if a != x {
            let b = twin_of(s, a);
            assert(c.arena[b].neighbour == Some(a as usize));
            assert(c.arena[y].neighbour == Some(x as usize));
        }
    }
    assert forall|b: int| 0 <= b < c1.len() && (#[trigger] c1.arena[b]).inter implies c1.arena[b].checked
        == s1.arena[twin_of(c1, b)].checked by {
        assert(c.arena[b].inter);
        let a = twin_of(c, b);
        assert(s.arena[a].inter);
        assert(s.arena[a].neighbour == Some(b as usize));
        assert(s.arena[a].checked == c.arena[twin_of(s, a)].checked);
        if b != y {
            assert(a != x);
        }
    }
}

/// Twins that are marked alike from one ring are marked alike from the
/// other.
pub proof fn lemma_marked_alike_sym(s: Ring, c: Ring)
    requires
        twinned(s, c),
        marked_alike(s, c),
        s.len() <= usize::MAX,
        c.len() <= usize::MAX,
    ensures
        marked_alike(c, s),
{
    assert forall|b: int| 0 <= b < c.len() && (#[trigger] c.arena[b]).inter implies c.arena[b].checked
        == s.arena[twin_of(c, b)].checked by {
        let a = twin_of(c, b);
        assert(s.arena[a].inter);
        assert(s.arena[a].neighbour == Some(b as usize));
    }
}

/// A ring whose search for an unused crossing fails holds none.
pub proof fn lemma_first_open_none(r: Ring, k: int)
    requires
        r.wf(),
        0 <= k <= r.len(),
        first_open(r, k) >= r.len(),
    ensures
        forall|x: int| k <= x < r.len() ==> !is_open(#[trigger] r.at(x)),
    decreases r.len() - k,
{
    if k < r.len() {
        lemma_first_open_none(r, k + 1);
    }
}

/// A ring without an unused crossing has none to start from.
pub proof fn lemma_no_open(r: Ring, k: int)
    requires
        r.wf(),
        0 <= k <= r.len(),
        forall|i: int| 0 <= i < r.len() ==> !is_open(#[trigger] r.arena[i]),
    ensures
        first_open(r, k) == r.len(),
    decreases r.len() - k,
{
    if k < r.len() {
        assert(!is_open(r.arena[r.order[k]]));
        lemma_no_open(r, k + 1);
    }
}

/// Once every crossing of one ring is used and twins are marked alike,
/// every crossing of the other ring is used as well.
pub proof fn lemma_twins_all_used(s: Ring, c: Ring)
    requires
        s.wf(),
        c.wf(),
        s.len() <= usize::MAX,
        c.len() <= usize::MAX,
        twinned(s, c),
        marked_alike(s, c),
        first_open(s, 0) >= s.len(),
    ensures
        first_open(c, 0) >= c.len(),
{
    lemma_first_open_none(s, 0);
    assert forall|b: int| 0 <= b < c.len() implies !is_open(#[trigger] c.arena[b]) by {
        if c.arena[b].inter {
            let a = twin_of(c, b);
            assert(s.arena[a].inter);
            assert(s.arena[a].neighbour == Some(b as usize));
            assert(s.order[s.place[a]] == a);
            assert(!is_open(s.at(s.place[a])));
        }
    }
    lemma_no_open(c, 0);
}

/// The result of the extraction: the traced rings, or the subject's own
/// vertex sequence if it has no crossing to start from.
pub open spec fn traced(s: Ring, c: Ring) -> Seq<Seq<Point>> {
    let rings = extract(s, c, s.len() as nat);
    if rings.len() == 0 {
        seq![s.points()]
    } else {
        rings
    }
}

/// The number of unused crossings among the first `k` records of an arena.
pub open spec fn open_upto(arena: Seq<Vertex>, k: int) -> nat
    decreases k,
{
    if k <= 0 {
        0
    } else if is_open(arena[k - 1]) {
        open_upto(arena, k - 1) + 1
    } else {
        open_upto(arena, k - 1)
    }
}

/// The number of unused crossings of a ring.
pub open spec fn open_count(r: Ring) -> nat {
    open_upto(r.arena, r.len())
}

proof fn lemma_open_upto_bound(arena: Seq<Vertex>, k: int)
    requires
        0 <= k,
    ensures
        open_upto(arena, k) <= k,
    decreases k,
{
    if k > 0 {
        lemma_open_upto_bound(arena, k - 1);
    }
}

proof fn lemma_open_upto_mark(arena: Seq<Vertex>, i: int, k: int)
    requires
        0 <= i < arena.len(),
        0 <= k <= arena.len(),
    ensures
        open_upto(arena.update(i, Vertex { checked: true, ..arena[i] }), k) == open_upto(arena, k)
            - (if i < k && is_open(arena[i]) {
            1int
        } else {
            0int
        }),
        i < k && is_open(arena[i]) ==> open_upto(arena, k) >= 1,
    decreases k,
{
    if k > 0 {
        lemma_open_upto_mark(arena, i, k - 1);
    }
}

/// Marking a record never adds an unused crossing, and removes one if the
/// record was an unused crossing.
pub proof fn lemma_mark_count(r: Ring, i: int)
    requires
        0 <= i < r.len(),
    ensures
        open_count(mark(r, i)) == open_count(r) - (if is_open(r.arena[i]) {
            1int
        } else {
            0int
        }),
        is_open(r.arena[i]) ==> open_count(r) >= 1,
        open_count(r) <= r.len(),
{
    lemma_open_upto_mark(r.arena, i, r.len());
    lemma_open_upto_bound(r.arena, r.len());
}

/// Marking a record keeps a ring within the coordinate bound.
pub proof fn lemma_mark_in_bounds(r: Ring, i: int)
    ensures
        r.in_bounds() && 0 <= i < r.len() ==> mark(r, i).in_bounds(),
{
    if r.in_bounds() && 0 <= i < r.len() {
        let q = mark(r, i);
        assert forall|j: int| 0 <= j < q.arena.len() implies (#[trigger] q.arena[j]).pt.within(
            COORD_MAX as int,
        ) by {
            assert(r.arena[j].pt.within(COORD_MAX as int));
        }
    }
}

impl CPolygon {
    /// Return the first unchecked intersection point in the polygon
    ///
    /// Without such a point the last vertex of the ring is returned, and
    /// nothing for an empty polygon.
    pub fn first_intersect(&self) -> (r: Option<usize>)
        requires
            self.wf(),
        ensures
            first_open(self.model(), 0) < self.model().len() ==> r.is_some() && r.unwrap()
                == self.model().order[first_open(self.model(), 0)],
            first_open(self.model(), 0) >= self.model().len() && self.model().len() > 0
                ==> r.is_some() && r.unwrap() == self.model().order[self.model().len() - 1],
            self.model().len() == 0 ==> r.is_none(),
            r.is_some() ==> r.unwrap() < self.model().len(),
    {
        let ghost m = self.model();
        let mut it = self.iter();
        let mut ve: Option<usize> = None;
        loop
            invariant_except_break
                self.wf(),
                m == self.model(),
                it.wf(m),
                first_open(m, 0) == first_open(m, it.position()),
                it.position() == 0 ==> ve.is_none(),
                it.position() > 0 ==> ve.is_some() && ve.unwrap() == m.order[it.position() - 1],
                ve.is_some() ==> ve.unwrap() < m.len(),
            ensures
                first_open(m, 0) < m.len() ==> ve.is_some() && ve.unwrap() == m.order[first_open(
                    m,
                    0,
                )],
                first_open(m, 0) >= m.len() && m.len() > 0 ==> ve.is_some() && ve.unwrap()
                    == m.order[m.len() - 1],
                m.len() == 0 ==> ve.is_none(),
                ve.is_some() ==> ve.unwrap() < m.len(),
            decreases m.len() - it.position(),
        {
            match it.next(self) {
                None => {
                    break ;
                },
                Some(v) => {
                    ve = Some(v);
                    if self.vertex(v).inter && !self.vertex(v).checked {
                        break ;
                    }
                },
            }
        }
        ve
    }

    /// Check if an unchecked intersection remain in the polygon
    pub fn unprocessed(&self) -> (b: bool)
        requires
            self.wf(),
        ensures
            b == (first_open(self.model(), 0) < self.model().len()),
    {
        let ghost m = self.model();
        let mut it = self.iter();
        loop
            invariant
                self.wf(),
                m == self.model(),
                it.wf(m),
                first_open(m, 0) == first_open(m, it.position()),
            decreases m.len() - it.position(),
        {
            match it.next(self) {
                None => {
                    return false;
                },
                Some(v) => {
                    if self.vertex(v).inter && !self.vertex(v).checked {
                        return true;
                    }
                },
            }
        }
    }

    /// Marks the record at arena index `i` as used, and with it the twin in
    /// `other` that the record is linked to, if it has one.
    pub fn set_checked(&mut self, other: &mut CPolygon, i: usize)
        requires
            old(self).wf(),
            old(other).wf(),
            i < old(self).model().len(),
        ensures
            final(self).wf(),
            final(other).wf(),
            final(self).model() == mark(old(self).model(), i as int),
            final(other).model() == marked_twin(
                old(other).model(),
                old(self).model().arena[i as int].neighbour,
            ),
    {
        let mut v = self.vertex(i);
        v.set_checked();
        self.put(i, v);
        match v.neighbour {
            Some(j) => {
                if j < other.len() {
                    let mut w = other.vertex(j);
                    w.set_checked();
                    other.put(j, w);
                }
            },
            None => {},
        }
    }

    /// Follows the ring from the crossing at arena index `start`, forwards
    /// or backwards, up to the next crossing, and appends a copy of every
    /// vertex passed to `clipped`. Returns the arena index of the crossing
    /// reached.
    pub fn walk(&self, start: usize, forward: bool, clipped: &mut CPolygon) -> (end: usize)
        requires
            self.wf(),
            old(clipped).wf(),
            start < self.model().len(),
            self.model().arena[start as int].inter,
        ensures
            final(clipped).wf(),
            end < self.model().len(),
            self.model().arena[end as int].inter,
            run(
                self.model(),
                self.model().place[start as int],
                forward,
                self.model().len() as nat,
            ).len() > 0,
            end == self.model().order[run(
                self.model(),
                self.model().place[start as int],
                forward,
                self.model().len() as nat,
            ).last()],
            final(clipped).model().points() == old(clipped).model().points() + points_at(
                self.model(),
                run(
                    self.model(),
                    self.model().place[start as int],
                    forward,
                    self.model().len() as nat,
                ),
            ),
            self.model().in_bounds() && all_within(old(clipped).model().points()) ==> all_within(
                final(clipped).model().points(),
            ),
            drawn_from(
                points_at(
                    self.model(),
                    run(
                        self.model(),
                        self.model().place[start as int],
                        forward,
                        self.model().len() as nat,
                    ),
                ),
                self.model().points(),
            ),
    {
        let ghost r = self.model();
        let ghost n = r.len();
        let ghost k0 = r.place[start as int];
        let ghost pts0 = clipped.model().points();
        let ghost full = run(r, k0, forward, n as nat);
        let mut curr: usize = start;
        let mut k: Ghost<int> = Ghost(k0);
        let mut j: Ghost<int> = Ghost(0);
        let mut seen: Ghost<Seq<int>> = Ghost(Seq::empty());
        proof {
            self.lemma_wf_model();
            lemma_run_drawn(r, k0, forward, n as nat);
            assert(r.order[k0] == start);
            assert(pts0 + points_at(r, seen@) =~= pts0);
            assert(seen@ + run(r, k0, forward, n as nat) =~= full);
        }
        loop
            invariant_except_break
                self.wf(),
                r == self.model(),
                r.wf(),
                n == r.len(),
                n <= usize::MAX,
                clipped.wf(),
                0 <= k0 < n,
                r.at(k0).inter,
                0 <= j@ < n,
                0 <= k@ < n,
                forward ==> k@ == (if k0 + j@ < n {
                    k0 + j@
                } else {
                    k0 + j@ - n
                }),
                !forward ==> k@ == (if k0 - j@ >= 0 {
                    k0 - j@
                } else {
                    k0 - j@ + n
                }),
                curr == r.order[k@],
                full == seen@ + run(r, k@, forward, (n - j@) as nat),
                seen@.len() == j@,
                clipped.model().points() == pts0 + points_at(r, seen@),
                r.in_bounds() && all_within(pts0) ==> all_within(clipped.model().points()),
            ensures
                clipped.wf(),
                curr < n,
                r.arena[curr as int].inter,
                full.len() > 0,
                curr == r.order[full.last()],
                clipped.model().points() == pts0 + points_at(r, full),
                r.in_bounds() && all_within(pts0) ==> all_within(clipped.model().points()),
            decreases n - j@,
        {
            proof {
                assert(r.place[r.order[k@]] == k@);
            }
            let ghost k1 = if forward {
                succ(k@, n)
            } else {
                pred(k@, n)
            };
            if forward {
                curr = self.following(curr);
            } else {
                curr = self.preceding(curr);
            }
            let v = Vertex::clone(&self.vertex(curr));
            let ghost before = clipped.model();
            proof {
                clipped.lemma_wf_model();
            }
            clipped.add(v);
            proof {
                lemma_push_points(before, v);
                assert(r.place[r.order[k1]] == k1);
                if r.in_bounds() && all_within(pts0) {
                    assert(r.arena[curr as int].pt.within(COORD_MAX as int));
                    assert(all_within(before.points().push(v.pt)));
                }
                assert(points_at(r, seen@.push(k1)) =~= points_at(r, seen@).push(v.pt));
                assert(pts0 + points_at(r, seen@.push(k1)) =~= (pts0 + points_at(r, seen@)).push(
                    v.pt,
                ));
            }
            if self.vertex(curr).inter {
                proof {
                    assert(run(r, k@, forward, (n - j@) as nat) =~= seq![k1]);
                    assert(full =~= seen@.push(k1));
                }
                break ;
            }
            proof {
                assert(run(r, k@, forward, (n - j@) as nat) =~= seq![k1] + run(
                    r,
                    k1,
                    forward,
                    (n - j@ - 1) as nat,
                ));
                assert(full =~= seen@.push(k1) + run(r, k1, forward, (n - j@ - 1) as nat));
                if j@ + 1 == n {
                    assert(k1 == k0);
                }
                seen@ = seen@.push(k1);
                k@ = k1;
                j@ = j@ + 1;
            }
        }
        curr
    }

    /// Walks one leg of a traced ring on `self`: the crossing at arena index
    /// `curr` and its twin in `other` are marked as used, the ring is
    /// followed forwards from an entry and backwards from an exit up to the
    /// next crossing, and copies of the vertices passed are appended to
    /// `clipped`. Returns the arena index in `other` of the twin of the
    /// crossing reached.
    pub fn leg(&mut self, other: &mut CPolygon, curr: usize, clipped: &mut CPolygon) -> (nxt: usize)
        requires
            old(self).wf(),
            old(other).wf(),
            old(clipped).wf(),
            twinned(old(self).model(), old(other).model()),
            curr < old(self).model().len(),
            old(self).model().arena[curr as int].inter,
        ensures
            final(self).wf(),
            final(other).wf(),
            final(clipped).wf(),
            twinned(final(self).model(), final(other).model()),
            final(self).model() == mark(old(self).model(), curr as int),
            final(other).model() == mark(old(other).model(), twin_of(old(self).model(), curr as int)),
            leg_path(final(self).model(), curr as int).len() > 0,
            nxt == twin_of(
                final(self).model(),
                final(self).model().order[leg_path(final(self).model(), curr as int).last()],
            ),
            nxt < final(other).model().len(),
            final(other).model().arena[nxt as int].inter,
            final(clipped).model().points() == old(clipped).model().points() + points_at(
                final(self).model(),
                leg_path(final(self).model(), curr as int),
            ),
            old(self).model().in_bounds() && all_within(old(clipped).model().points()) ==> all_within(
                final(clipped).model().points(),
            ),
            drawn_from(
                points_at(final(self).model(), leg_path(final(self).model(), curr as int)),
                final(self).model().points(),
            ),
    {
        let ghost s = self.model();
        let ghost c = other.model();
        self.set_checked(other, curr);
        proof {
            lemma_flags_keep_twinned(s, c, self.model(), other.model());
            lemma_mark_in_bounds(s, curr as int);
        }
        let e = self.walk(curr, self.vertex(curr).entry, clipped);
        self.vertex(e).neighbour.unwrap()
    }

    /// Traces one ring from the unused crossing at arena index `start` of
    /// `self`, changing over between the two polygons at every crossing
    /// reached, until the walk arrives at a crossing used before.
    pub fn trace_ring(&mut self, poly: &mut CPolygon, start: usize) -> (ring: Vec<Point>)
        requires
            old(self).wf(),
            old(poly).wf(),
            twinned(old(self).model(), old(poly).model()),
            start < old(self).model().len(),
            is_open(old(self).model().arena[start as int]),
        ensures
            final(self).wf(),
            final(poly).wf(),
            twinned(final(self).model(), final(poly).model()),
            ({
                let (pts, s1, c1) = trace(
                    old(self).model(),
                    old(poly).model(),
                    true,
                    start as int,
                    (old(self).model().len() + old(poly).model().len()) as nat,
                );
                &&& ring@ == collapse(seq![old(self).model().arena[start as int].pt] + pts)
                &&& final(self).model() == s1
                &&& final(poly).model() == c1
            }),
            open_count(final(self).model()) < open_count(old(self).model()),
            final(self).model().len() == old(self).model().len(),
            final(poly).model().len() == old(poly).model().len(),
            old(self).model().in_bounds() && old(poly).model().in_bounds() ==> all_within(ring@)
                && final(self).model().in_bounds() && final(poly).model().in_bounds(),
            same_but_marks(old(self).model(), final(self).model()),
            same_but_marks(old(poly).model(), final(poly).model()),
            marked_alike(old(self).model(), old(poly).model()) ==> marked_alike(
                final(self).model(),
                final(poly).model(),
            ),
            clean(ring@),
            ring@.len() > 0,
            ring@[0] == old(self).model().arena[start as int].pt,
            drawn_from(ring@, old(self).model().points() + old(poly).model().points()),
    {
        let ghost s0 = self.model();
        let ghost c0 = poly.model();
        let ghost bounded = s0.in_bounds() && c0.in_bounds();
        let ghost alike = marked_alike(s0, c0);
        let ghost whole = s0.points() + c0.points();
        let ghost goal = trace(s0, c0, true, start as int, (s0.len() + c0.len()) as nat);
        let ghost head = seq![s0.arena[start as int].pt];
        let mut clipped = CPolygon::new();
        let first = Vertex::clone(&self.vertex(start));
        clipped.add(first);
        let mut on_s: bool = true;
        let mut curr: usize = start;
        let mut fuel: Ghost<nat> = Ghost((s0.len() + c0.len()) as nat);
        let mut acc: Ghost<Seq<Point>> = Ghost(Seq::empty());
        proof {
            lemma_push_points(Ring::empty(), first);
            assert(Ring::empty().points() =~= Seq::<Point>::empty());
            assert(clipped.model().points() =~= head + acc@);
            lemma_mark_count(s0, start as int);
            lemma_open_upto_bound(c0.arena, c0.len());
            let t = trace(s0, c0, true, start as int, fuel@);
            assert(acc@ + t.0 =~= goal.0);
            assert(same_but_marks(s0, s0));
            assert(same_but_marks(c0, c0));
            self.lemma_wf_model();
            poly.lemma_wf_model();
            assert(s0.order[s0.place[start as int]] == start);
            assert(s0.points()[s0.place[start as int]] == first.pt);
            assert(whole[s0.place[start as int]] == first.pt);
            assert(drawn_from(head + acc@, whole)) by {
                assert((head + acc@) =~= head);
                assert(whole.contains(head[0]));
            }
            if bounded {
                assert(s0.arena[start as int].pt.within(COORD_MAX as int));
                assert(all_within(Ring::empty().points().push(first.pt)));
            }
        }
        loop
            invariant_except_break
                self.wf(),
                poly.wf(),
                clipped.wf(),
                twinned(self.model(), poly.model()),
                self.model().len() == s0.len(),
                poly.model().len() == c0.len(),
                on_s ==> curr < self.model().len() && is_open(self.model().arena[curr as int]),
                !on_s ==> curr < poly.model().len() && is_open(poly.model().arena[curr as int]),
                fuel@ >= open_count(self.model()) + open_count(poly.model()),
                open_count(self.model()) <= open_count(s0),
                !(on_s && curr == start && self.model() == s0) ==> open_count(self.model())
                    < open_count(s0),
                clipped.model().points() == head + acc@,
                bounded ==> self.model().in_bounds() && poly.model().in_bounds() && all_within(
                    clipped.model().points(),
                ),
                same_but_marks(s0, self.model()),
                same_but_marks(c0, poly.model()),
                alike ==> marked_alike(self.model(), poly.model()),
                s0.wf(),
                c0.wf(),
                whole == s0.points() + c0.points(),
                drawn_from(clipped.model().points(), whole),
                goal.0 == acc@ + trace(self.model(), poly.model(), on_s, curr as int, fuel@).0,
                goal.1 == trace(self.model(), poly.model(), on_s, curr as int, fuel@).1,
                goal.2 == trace(self.model(), poly.model(), on_s, curr as int, fuel@).2,
            ensures
                self.wf(),
                poly.wf(),
                clipped.wf(),
                twinned(self.model(), poly.model()),
                self.model().len() == s0.len(),
                poly.model().len() == c0.len(),
                open_count(self.model()) < open_count(s0),
                clipped.model().points() == head + goal.0,
                self.model() == goal.1,
                poly.model() == goal.2,
                bounded ==> self.model().in_bounds() && poly.model().in_bounds() && all_within(
                    clipped.model().points(),
                ),
                same_but_marks(s0, self.model()),
                same_but_marks(c0, poly.model()),
                alike ==> marked_alike(self.model(), poly.model()),
                drawn_from(clipped.model().points(), whole),
            decreases fuel@,
        {
            let ghost s = self.model();
            let ghost c = poly.model();
            let ghost f = fuel@;
            let ghost was_s = on_s;
            let ghost i = curr as int;
            let used: bool;
            proof {
                self.lemma_wf_model();
                poly.lemma_wf_model();
            }
            if on_s {
                proof {
                    lemma_mark_count(s, i);
                    lemma_mark_count(c, twin_of(s, i));
                    lemma_mark_in_bounds(s, i);
                    lemma_mark_in_bounds(c, twin_of(s, i));
                    lemma_mark_same(s, i);
                    lemma_mark_same(c, twin_of(s, i));
                    lemma_same_but_marks_trans(s0, s, mark(s, i));
                    lemma_same_but_marks_trans(c0, c, mark(c, twin_of(s, i)));
                    if alike {
                        lemma_mark_pair_alike(s, c, i);
                    }
                }
                curr = self.leg(poly, curr, &mut clipped);
                on_s = false;
                used = poly.vertex(curr).checked;
            } else {
                proof {
                    lemma_mark_count(c, i);
                    lemma_mark_count(s, twin_of(c, i));
                    lemma_mark_in_bounds(c, i);
                    lemma_mark_in_bounds(s, twin_of(c, i));
                    lemma_mark_same(c, i);
                    lemma_mark_same(s, twin_of(c, i));
                    lemma_same_but_marks_trans(s0, s, mark(s, twin_of(c, i)));
                    lemma_same_but_marks_trans(c0, c, mark(c, i));
                    if alike {
                        lemma_marked_alike_sym(s, c);
                        lemma_mark_pair_alike(c, s, i);
                    }
                }
                curr = poly.leg(self, curr, &mut clipped);
                on_s = true;
                used = self.vertex(curr).checked;
            }
            proof {
                let cur = mark(if was_s { s } else { c }, i);
                let leg_pts = points_at(cur, leg_path(cur, i));
                lemma_same_but_marks_points(s0, self.model());
                lemma_same_but_marks_points(c0, poly.model());
                lemma_drawn_from(leg_pts, leg_pts, s0.points(), c0.points());
                lemma_drawn_from(leg_pts, leg_pts, c0.points(), s0.points());
                lemma_drawn_from(head + acc@, leg_pts, whole, whole);
                lemma_trace_unfold(s, c, was_s, i, f);
                assert(head + acc@ + leg_pts =~= head + (acc@ + leg_pts));
                let rest = trace(self.model(), poly.model(), on_s, curr as int, (f - 1) as nat).0;
                assert(acc@ + (leg_pts + rest) =~= acc@ + leg_pts + rest);
                acc@ = acc@ + leg_pts;
                fuel@ = (f - 1) as nat;
            }
            if used {
                break ;
            }
        }
        proof {
            lemma_collapse_within(clipped.model().points());
            lemma_drawn_from(
                collapse(clipped.model().points()),
                clipped.model().points(),
                whole,
                whole,
            );
            lemma_collapse_no_repeats(clipped.model().points());
            assert((head + goal.0)[0] == s0.arena[start as int].pt);
        }
        clipped.points()
    }

    /// Traces the result rings: as long as an unused crossing remains in
    /// `self`, a ring is traced from the first one. Without any crossing
    /// the result is the vertex sequence of `self`.
    pub fn phase_three(&mut self, poly: &mut CPolygon) -> (list: Vec<Vec<Point>>)
        requires
            old(self).wf(),
            old(poly).wf(),
            twinned(old(self).model(), old(poly).model()),
        ensures
            final(self).wf(),
            final(poly).wf(),
            rings_of(list@) == traced(old(self).model(), old(poly).model()),
            (final(self).model(), final(poly).model()) == settled(
                old(self).model(),
                old(poly).model(),
                old(self).model().len() as nat,
            ),
            list@.len() > 0,
            old(self).model().in_bounds() && old(poly).model().in_bounds() ==> forall|i: int|
                0 <= i < list@.len() ==> all_within(#[trigger] list@[i]@),
            first_open(final(self).model(), 0) >= final(self).model().len(),
            same_but_marks(old(self).model(), final(self).model()),
            same_but_marks(old(poly).model(), final(poly).model()),
            final(self).model().points() == old(self).model().points(),
            final(poly).model().points() == old(poly).model().points(),
            marked_alike(old(self).model(), old(poly).model()) ==> marked_alike(
                final(self).model(),
                final(poly).model(),
            ) && first_open(final(poly).model(), 0) >= final(poly).model().len(),
            first_open(old(self).model(), 0) < old(self).model().len() ==> forall|i: int|
                0 <= i < list@.len() ==> clean(#[trigger] list@[i]@) && starts_at_crossing(
                    old(self).model(),
                    list@[i]@,
                ),
            first_open(old(self).model(), 0) < old(self).model().len() ==> list@.len()
                <= open_count(old(self).model()),
            forall|i: int|
                0 <= i < list@.len() ==> drawn_from(
                    #[trigger] list@[i]@,
                    old(self).model().points() + old(poly).model().points(),
                ),
    {
        let ghost s0 = self.model();
        let ghost c0 = poly.model();
        let ghost bounded = s0.in_bounds() && c0.in_bounds();
        let ghost alike = marked_alike(s0, c0);
        let ghost goal = extract(s0, c0, s0.len() as nat);
        let ghost end = settled(s0, c0, s0.len() as nat);
        proof {
            self.lemma_wf_model();
        }
        let mut list: Vec<Vec<Point>> = Vec::new();
        let mut fuel: Ghost<nat> = Ghost(s0.len() as nat);
        proof {
            lemma_open_upto_bound(s0.arena, s0.len());
            assert(rings_of(list@) + extract(s0, c0, fuel@) =~= goal);
            assert(same_but_marks(s0, s0));
            assert(same_but_marks(c0, c0));
            poly.lemma_wf_model();
        }
        while self.unprocessed()
            invariant
                self.wf(),
                poly.wf(),
                twinned(self.model(), poly.model()),
                fuel@ >= open_count(self.model()),
                goal == rings_of(list@) + extract(self.model(), poly.model(), fuel@),
                end == settled(self.model(), poly.model(), fuel@),
                list@.len() == 0 ==> self.model() == s0,
                same_but_marks(s0, self.model()),
                same_but_marks(c0, poly.model()),
                alike ==> marked_alike(self.model(), poly.model()),
                forall|i: int|
                    0 <= i < list@.len() ==> clean(#[trigger] list@[i]@) && starts_at_crossing(
                        s0,
                        list@[i]@,
                    ),
                list@.len() + open_count(self.model()) <= open_count(s0),
                s0.wf(),
                c0.wf(),
                forall|i: int|
                    0 <= i < list@.len() ==> drawn_from(
                        #[trigger] list@[i]@,
                        s0.points() + c0.points(),
                    ),
                bounded ==> self.model().in_bounds() && poly.model().in_bounds(),
                bounded ==> forall|i: int| 0 <= i < list@.len() ==> all_within(#[trigger] list@[i]@),
            decreases open_count(self.model()),
        {
            let ghost s = self.model();
            let ghost c = poly.model();
            let ghost f = fuel@;
            let ghost done = rings_of(list@);
            let start = self.first_intersect().unwrap();
            proof {
                self.lemma_wf_model();
                lemma_first_open_bounds(s, 0);
                assert(s.place[s.order[first_open(s, 0)]] == first_open(s, 0));
                lemma_mark_count(s, start as int);
            }
            let ring = self.trace_ring(poly, start);
            list.push(ring);
            proof {
                lemma_same_but_marks_points(s0, s);
                lemma_same_but_marks_points(c0, c);
                lemma_same_but_marks_trans(s0, s, self.model());
                lemma_same_but_marks_trans(c0, c, poly.model());
                assert(s0.arena[start as int].inter && s0.arena[start as int].pt == ring@[0]) by {
                    assert(s.arena[start as int] == (Vertex {
                        checked: s.arena[start as int].checked,
                        ..s0.arena[start as int]
                    }));
                }
                assert(starts_at_crossing(s0, ring@));
                fuel@ = (f - 1) as nat;
                let t = trace(s, c, true, start as int, (s.len() + c.len()) as nat);
                assert(f > 0);
                lemma_first_open_bounds(s, 0);
                assert(start == s.order[first_open(s, 0)]);
                assert(extract(s, c, f) == seq![collapse(seq![s.arena[start as int].pt] + t.0)]
                    + extract(t.1, t.2, (f - 1) as nat));
                assert(ring@ == collapse(seq![s.arena[start as int].pt] + t.0));
                assert(rings_of(list@) =~= done.push(ring@));
                assert(done + (seq![ring@] + extract(self.model(), poly.model(), fuel@))
                    =~= done.push(ring@) + extract(self.model(), poly.model(), fuel@));
            }
        }
        proof {
            assert(rings_of(list@) + Seq::<Seq<Point>>::empty() =~= rings_of(list@));
            self.lemma_wf_model();
            poly.lemma_wf_model();
            lemma_same_but_marks_points(s0, self.model());
            lemma_same_but_marks_points(c0, poly.model());
            if alike {
                lemma_twins_all_used(self.model(), poly.model());
            }
        }
        if list.is_empty() {
            let clipped = self.raw_points();
            proof {
                if bounded {
                    assert forall|k: int| 0 <= k < clipped@.len() implies (#[trigger] clipped@[k]).within(
                        COORD_MAX as int,
                    ) by {
                        assert(s0.wf());
                        assert(s0.arena[s0.order[k]].pt.within(COORD_MAX as int));
                    }
                }
            }
            list.push(clipped);
            proof {
                assert(rings_of(list@) =~= seq![s0.points()]);
                lemma_drawn_from(s0.points(), s0.points(), s0.points(), c0.points());
            }
        }
        list
    }
}

} // verus!
