//! Polygons as circular sequences of vertex records in an arena.
//!
//! Records are addressed by their index in the arena, and the circular
//! order is held in successor and predecessor tables. The mathematical
//! content of a polygon is its `Ring`: the arena together with the order
//! of its indices.

use vstd::prelude::*;
use crate::geometry::{Point, Ratio, COORD_MAX};

verus! {

/// One vertex record of a polygon.
#[derive(Clone, Copy, Debug)]
pub struct Vertex {
    /// Position.
    pub pt: Point,
    /// Parametric position along the edge the vertex was inserted on.
    pub alpha: Ratio,
    /// Whether the vertex is a crossing with the other polygon.
    pub inter: bool,
    /// For a crossing: whether the walk leaves it forwards.
    pub entry: bool,
    /// For a crossing: whether it was already used by a traced ring.
    pub checked: bool,
    /// For a crossing: the index of its twin in the other polygon.
    pub neighbour: Option<usize>,
}

impl Vertex {
    /// A record that is not linked to a twin.
    pub fn new(pt: Point, alpha: Ratio, inter: bool, entry: bool, checked: bool) -> (v: Vertex)
        ensures
            v == (Vertex { pt, alpha, inter, entry, checked, neighbour: None }),
    {
        Vertex { pt, alpha, inter, entry, checked, neighbour: None }
    }

    /// A copy of the record that is not linked to a twin.
    pub fn clone(vertex: &Vertex) -> (v: Vertex)
        ensures
            v == (Vertex { neighbour: None, ..*vertex }),
    {
        Vertex::new(vertex.pt, vertex.alpha, vertex.inter, vertex.entry, vertex.checked)
    }

    /// Marks the record as used. The record holds only the index of its
    /// twin, which lives in the other polygon; `CPolygon::set_checked` marks
    /// a crossing together with its twin.
    pub fn set_checked(&mut self)
        ensures
            *final(self) == (Vertex { checked: true, ..*old(self) }),
    {
        self.checked = true;
    }
}

/// The record of an input vertex at `p`.
pub open spec fn plain_vertex(p: Point) -> Vertex {
    Vertex {
        pt: p,
        alpha: Ratio { num: 0, den: 1 },
        inter: false,
        entry: true,
        checked: false,
        neighbour: None,
    }
}

/// Position after `k` on a circle of `n` positions.
pub open spec fn succ(k: int, n: int) -> int {
    if k + 1 < n {
        k + 1
    } else {
        0
    }
}

/// Position before `k` on a circle of `n` positions.
pub open spec fn pred(k: int, n: int) -> int {
    if k == 0 {
        n - 1
    } else {
        k - 1
    }
}

/// The mathematical content of a polygon: the arena of records, the arena
/// indices in circular order starting at the first vertex, and for each
/// arena index its position in that order.
pub struct Ring {
    pub arena: Seq<Vertex>,
    pub order: Seq<int>,
    pub place: Seq<int>,
}

impl Ring {
    /// `order` and `place` are inverse permutations of the arena indices,
    /// and the first record of the arena comes first.
    pub open spec fn wf(self) -> bool {
        &&& self.order.len() == self.arena.len()
        &&& self.place.len() == self.arena.len()
        &&& forall|k: int|
            0 <= k < self.order.len() ==> 0 <= #[trigger] self.order[k] < self.arena.len()
                && self.place[self.order[k]] == k
        &&& forall|i: int|
            0 <= i < self.place.len() ==> 0 <= #[trigger] self.place[i] < self.arena.len()
                && self.order[self.place[i]] == i
        &&& self.arena.len() > 0 ==> self.order[0] == 0
    }

    pub open spec fn len(self) -> int {
        self.arena.len() as int
    }

    /// The record at position `k` of the circular order.
    pub open spec fn at(self, k: int) -> Vertex {
        self.arena[self.order[k]]
    }

    /// The records in circular order.
    pub open spec fn seq(self) -> Seq<Vertex> {
        Seq::new(self.order.len(), |k: int| self.arena[self.order[k]])
    }

    /// The positions in circular order.
    pub open spec fn points(self) -> Seq<Point> {
        Seq::new(self.order.len(), |k: int| self.arena[self.order[k]].pt)
    }

    pub open spec fn empty() -> Ring {
        Ring { arena: Seq::empty(), order: Seq::empty(), place: Seq::empty() }
    }

    /// The ring with `v` placed at position `p`; later positions shift by one.
    pub open spec fn insert(self, p: int, v: Vertex) -> Ring {
        Ring {
            arena: self.arena.push(v),
            order: self.order.insert(p, self.len()),
            place: Seq::new(
                (self.len() + 1) as nat,
                |i: int|
                    if i == self.len() {
                        p
                    } else if self.place[i] >= p {
                        self.place[i] + 1
                    } else {
                        self.place[i]
                    },
            ),
        }
    }

    /// The ring with `v` appended after the last position.
    pub open spec fn push(self, v: Vertex) -> Ring {
        self.insert(self.len(), v)
    }

    /// The ring with the record at arena index `i` replaced.
    pub open spec fn set(self, i: int, v: Vertex) -> Ring {
        Ring { arena: self.arena.update(i, v), ..self }
    }

    /// Every coordinate is at most `COORD_MAX` in magnitude.
    pub open spec fn in_bounds(self) -> bool {
        forall|i: int| 0 <= i < self.arena.len() ==> (#[trigger] self.arena[i]).pt.within(COORD_MAX as int)
    }

    /// Every parametric position is well formed.
    pub open spec fn alphas_wf(self) -> bool {
        forall|i: int| 0 <= i < self.arena.len() ==> (#[trigger] self.arena[i]).alpha.wf()
    }
}

/// The ring of the input vertices `pts`, in their order.
pub open spec fn ring_of(pts: Seq<Point>) -> Ring {
    Ring {
        arena: Seq::new(pts.len(), |i: int| plain_vertex(pts[i])),
        order: Seq::new(pts.len(), |i: int| i),
        place: Seq::new(pts.len(), |i: int| i),
    }
}

/// Point `i` of `pts` is within the coordinate bound.
pub open spec fn pts_within(pts: Seq<Point>, i: int) -> bool {
    pts[i].within(COORD_MAX as int)
}

/// Every point of `pts` is within the coordinate bound.
pub open spec fn all_within(pts: Seq<Point>) -> bool {
    forall|i: int| 0 <= i < pts.len() ==> (#[trigger] pts[i]).within(COORD_MAX as int)
}

/// The point sequences held by a list of rings.
pub open spec fn rings_of(list: Seq<Vec<Point>>) -> Seq<Seq<Point>> {
    Seq::new(list.len(), |i: int| list[i]@)
}

/// Inserting at a valid position keeps a ring well formed, as long as the
/// first vertex stays first.
pub proof fn lemma_insert_wf(r: Ring, p: int, v: Vertex)
    requires
        r.wf(),
        0 <= p <= r.len(),
        r.len() > 0 ==> p > 0,
    ensures
        r.insert(p, v).wf(),
        r.insert(p, v).len() == r.len() + 1,
{
    let q = r.insert(p, v);
    let n = r.len();
    assert forall|k: int| 0 <= k < q.order.len() implies 0 <= #[trigger] q.order[k] < q.arena.len()
        && q.place[q.order[k]] == k by {
        if k < p {
            assert(q.order[k] == r.order[k]);
        } else if k == p {
            assert(q.order[k] == n);
        } else {
            assert(q.order[k] == r.order[k - 1]);
        }
    }
    assert forall|i: int| 0 <= i < q.place.len() implies 0 <= #[trigger] q.place[i] < q.arena.len()
        && q.order[q.place[i]] == i by {
        if i < n {
            let k = r.place[i];
            assert(r.order[k] == i);
        }
    }
}

/// Appending a record to a ring appends its point.
pub proof fn lemma_push_points(r: Ring, v: Vertex)
    requires
        r.wf(),
    ensures
        r.push(v).points() == r.points().push(v.pt),
        r.push(v).wf(),
{
    lemma_insert_wf(r, r.len(), v);
    assert(r.push(v).points() =~= r.points().push(v.pt));
}

/// Position just past the run of vertices that ends before arena index
/// `end`: the position of `end`, or the length of the ring when `end` is
/// the first vertex.
pub open spec fn run_end(r: Ring, end: int) -> int {
    if r.place[end] == 0 {
        r.len()
    } else {
        r.place[end]
    }
}

/// The first position from `k` on, and before `limit`, whose record does
/// not lie before `alpha`; `limit` if there is none.
pub open spec fn insert_pos(r: Ring, k: int, limit: int, alpha: Ratio) -> int
    decreases limit - k,
{
    if k >= limit {
        limit
    } else if !r.at(k).alpha.lt(alpha) {
        k
    } else {
        insert_pos(r, k + 1, limit, alpha)
    }
}

/// The place found for a record lies between the start and the limit of
/// the search.
pub proof fn lemma_insert_pos_bounds(r: Ring, k: int, limit: int, alpha: Ratio)
    requires
        k <= limit,
    ensures
        k <= insert_pos(r, k, limit, alpha) <= limit,
    decreases limit - k,
{
    if k < limit && r.at(k).alpha.lt(alpha) {
        lemma_insert_pos_bounds(r, k + 1, limit, alpha);
    }
}

/// The first position from `k` on that holds an input vertex, or the first
/// position of the ring if there is none up to its end.
pub open spec fn next_plain(r: Ring, k: int) -> int
    decreases r.len() - k,
{
    if k >= r.len() {
        0
    } else if !r.at(k).inter {
        k
    } else {
        next_plain(r, k + 1)
    }
}

/// The next input vertex is found at a position of the ring.
pub proof fn lemma_next_plain_bounds(r: Ring, k: int)
    requires
        0 <= k,
        r.len() > 0,
    ensures
        0 <= next_plain(r, k) < r.len(),
    decreases r.len() - k,
{
    if k < r.len() && r.at(k).inter {
        lemma_next_plain_bounds(r, k + 1);
    }
}

/// Point `k` of `pts` does not repeat the point before it; the first
/// point repeats nothing.
pub open spec fn fresh(pts: Seq<Point>, k: int) -> bool {
    k == 0 || pts[k - 1] != pts[k]
}

/// The first `k` points of `pts` without those that repeat the point
/// before them.
pub open spec fn dedup_upto(pts: Seq<Point>, k: int) -> Seq<Point>
    decreases k,
{
    if k <= 0 {
        Seq::empty()
    } else if fresh(pts, k - 1) {
        dedup_upto(pts, k - 1).push(pts[k - 1])
    } else {
        dedup_upto(pts, k - 1)
    }
}

/// `pts` without the points that repeat the point before them.
pub open spec fn dedup(pts: Seq<Point>) -> Seq<Point> {
    dedup_upto(pts, pts.len() as int)
}

/// `pts` as a closed ring without consecutive repetitions: no point
/// repeats the point before it, and the last point does not repeat the
/// first.
pub open spec fn collapse(pts: Seq<Point>) -> Seq<Point> {
    let d = dedup(pts);
    if d.len() > 1 && d.last() == d[0] {
        d.drop_last()
    } else {
        d
    }
}

/// No two neighbours in the sequence are equal.
pub open spec fn no_repeats(pts: Seq<Point>) -> bool {
    forall|i: int| 0 <= i < pts.len() - 1 ==> #[trigger] pts[i] != pts[i + 1]
}

/// Every point of `part` is a point of `whole`.
pub open spec fn drawn_from(part: Seq<Point>, whole: Seq<Point>) -> bool {
    forall|i: int| 0 <= i < part.len() ==> whole.contains(#[trigger] part[i])
}

/// Points drawn from a sequence are drawn from every sequence that holds
/// it, and so are two such sequences joined.
pub proof fn lemma_drawn_from(a: Seq<Point>, b: Seq<Point>, x: Seq<Point>, y: Seq<Point>)
    ensures
        drawn_from(a, x) ==> drawn_from(a, x + y) && drawn_from(a, y + x),
        drawn_from(a, x) && drawn_from(b, x) ==> drawn_from(a + b, x),
        drawn_from(a, b) && drawn_from(b, x) ==> drawn_from(a, x),
        drawn_from(x, x),
{
    if drawn_from(a, x) {
        assert forall|i: int| 0 <= i < a.len() implies (x + y).contains(#[trigger] a[i]) && (y
            + x).contains(a[i]) by {
            let j = choose|j: int| 0 <= j < x.len() && x[j] == a[i];
            assert((x + y)[j] == a[i]);
            assert((y + x)[y.len() + j] == a[i]);
        }
        if drawn_from(b, x) {
            assert forall|i: int| 0 <= i < (a + b).len() implies x.contains(#[trigger] (a + b)[i]) by {
                if i < a.len() {
                    assert((a + b)[i] == a[i]);
                } else {
                    assert((a + b)[i] == b[i - a.len()]);
                }
            }
        }
    }
    if drawn_from(a, b) && drawn_from(b, x) {
        assert forall|i: int| 0 <= i < a.len() implies x.contains(#[trigger] a[i]) by {
            let j = choose|j: int| 0 <= j < b.len() && b[j] == a[i];
            assert(x.contains(b[j]));
        }
    }
    assert forall|i: int| 0 <= i < x.len() implies x.contains(#[trigger] x[i]) by {
    }
}

/// What removing repetitions leaves of the first `k` points: it starts
/// with the first point, ends with the last, and holds no two equal
/// neighbours.
pub proof fn lemma_dedup_upto(pts: Seq<Point>, k: int)
    requires
        0 <= k <= pts.len(),
    ensures
        dedup_upto(pts, k).len() <= k,
        k > 0 ==> dedup_upto(pts, k).len() > 0 && dedup_upto(pts, k)[0] == pts[0] && dedup_upto(
            pts,
            k,
        ).last() == pts[k - 1],
        no_repeats(dedup_upto(pts, k)),
        all_within(pts) ==> all_within(dedup_upto(pts, k)),
        drawn_from(dedup_upto(pts, k), pts),
    decreases k,
{
    if k > 0 {
        lemma_dedup_upto(pts, k - 1);
        if all_within(pts) {
            assert(pts[k - 1].within(COORD_MAX as int));
        }
        assert(pts.contains(pts[k - 1]));
    }
}

/// A collapsed ring holds no two equal neighbours, the last point and
/// the first counting as neighbours. It starts with the first point of
/// the ring and is no longer than the ring.
pub proof fn lemma_collapse_no_repeats(pts: Seq<Point>)
    ensures
        no_repeats(collapse(pts)),
        collapse(pts).len() > 1 ==> collapse(pts).last() != collapse(pts)[0],
        collapse(pts).len() <= pts.len(),
        pts.len() > 0 ==> collapse(pts).len() > 0 && collapse(pts)[0] == pts[0],
{
    lemma_dedup_upto(pts, pts.len() as int);
    let d = dedup(pts);
    if d.len() > 1 && d.last() == d[0] {
        let c = d.drop_last();
        assert(d[d.len() - 2] != d[d.len() - 2 + 1]);
        assert forall|i: int| 0 <= i < c.len() - 1 implies #[trigger] c[i] != c[i + 1] by {
            assert(d[i] != d[i + 1]);
        }
    }
}

/// Collapsing keeps a point sequence within the coordinate bound, and
/// adds no point.
pub proof fn lemma_collapse_within(pts: Seq<Point>)
    ensures
        all_within(pts) ==> all_within(collapse(pts)),
        drawn_from(collapse(pts), pts),
{
    lemma_dedup_upto(pts, pts.len() as int);
    let d = dedup(pts);
    if d.len() > 1 && d.last() == d[0] {
        let c = d.drop_last();
        assert forall|i: int| 0 <= i < c.len() implies pts.contains(#[trigger] c[i]) by {
            assert(c[i] == d[i]);
        }
    }
}

/// A polygon: an arena of vertex records in circular order.
pub struct CPolygon {
    verts: Vec<Vertex>,
    next: Vec<usize>,
    prev: Vec<usize>,
    order: Ghost<Seq<int>>,
    place: Ghost<Seq<int>>,
}

impl CPolygon {
    /// The mathematical content of the polygon.
    pub closed spec fn model(&self) -> Ring {
        Ring { arena: self.verts@, order: self.order@, place: self.place@ }
    }

    /// The successor and predecessor tables agree with the circular order.
    pub closed spec fn wf(&self) -> bool {
        &&& self.model().wf()
        &&& self.next.len() == self.verts.len()
        &&& self.prev.len() == self.verts.len()
        &&& forall|k: int|
            0 <= k < self.order@.len() ==> (#[trigger] self.next[self.order@[k]]) as int
                == self.order@[succ(k, self.order@.len() as int)]
        &&& forall|k: int|
            0 <= k < self.order@.len() ==> (#[trigger] self.prev[self.order@[k]]) as int
                == self.order@[pred(k, self.order@.len() as int)]
    }

    /// The records in circular order.
    pub open spec fn view(&self) -> Seq<Vertex> {
        self.model().seq()
    }

    /// A well-formed polygon has a well-formed ring that can be indexed.
    pub proof fn lemma_wf_model(&self)
        requires
            self.wf(),
        ensures
            self.model().wf(),
            self.model().len() <= usize::MAX,
    {
    }

    /// Create a new empty polygon.
    pub fn new() -> (p: CPolygon)
        ensures
            p.wf(),
            p.model() == Ring::empty(),
    {
        CPolygon {
            verts: Vec::new(),
            next: Vec::new(),
            prev: Vec::new(),
            order: Ghost(Seq::empty()),
            place: Ghost(Seq::empty()),
        }
    }

    /// The number of vertex records.
    pub fn len(&self) -> (n: usize)
        ensures
            n == self.model().len(),
    {
        self.verts.len()
    }

    /// The record at arena index `i`.
    pub fn vertex(&self, i: usize) -> (v: Vertex)
        requires
            i < self.model().len(),
        ensures
            v == self.model().arena[i as int],
    {
        self.verts[i]
    }

    /// The arena index of the vertex that follows the one at arena index
    /// `i` in the circular order.
    pub fn following(&self, i: usize) -> (j: usize)
        requires
            self.wf(),
            i < self.model().len(),
        ensures
            j < self.model().len(),
            j == self.model().order[succ(self.model().place[i as int], self.model().len())],
    {
        proof {
            let m = self.model();
            assert(m.order[m.place[i as int]] == i);
        }
        self.next[i]
    }

    /// The arena index of the vertex that precedes the one at arena index
    /// `i` in the circular order.
    pub fn preceding(&self, i: usize) -> (j: usize)
        requires
            self.wf(),
            i < self.model().len(),
        ensures
            j < self.model().len(),
            j == self.model().order[pred(self.model().place[i as int], self.model().len())],
    {
        proof {
            let m = self.model();
            assert(m.order[m.place[i as int]] == i);
        }
        self.prev[i]
    }

    /// Replaces the record at arena index `i`; the order is untouched.
    pub fn put(&mut self, i: usize, v: Vertex)
        requires
            old(self).wf(),
            i < old(self).model().len(),
        ensures
            final(self).wf(),
            final(self).model() == old(self).model().set(i as int, v),
    {
        self.verts.set(i, v);
    }

    /// Add a vertex at the end of the polygon.
    pub fn add(&mut self, vertex: Vertex)
        requires
            old(self).wf(),
        ensures
            final(self).wf(),
            final(self).model() == old(self).model().push(vertex),
    {
        let n: usize = self.verts.len();
        if n == 0 {
            self.verts.push(vertex);
            self.next.push(0);
            self.prev.push(0);
            proof {
                self.order@ = self.order@.insert(0, 0);
                self.place@ = Seq::new(1, |i: int| 0int);
            }
            assert(self.model().order =~= old(self).model().push(vertex).order);
            assert(self.model().place =~= old(self).model().push(vertex).place);
        } else {
            let ghost r0 = self.model();
            let last: usize = self.prev[0];
            assert(r0.order[0] == 0);
            assert(last == r0.order[n - 1]);
            self.verts.push(vertex);
            self.next.push(0);
            self.prev.push(last);
            self.prev.set(0, n);
            self.next.set(last, n);
            proof {
                lemma_insert_wf(r0, n as int, vertex);
                self.order@ = r0.push(vertex).order;
                self.place@ = r0.push(vertex).place;
                let q = r0.push(vertex);
                assert forall|k: int| 0 <= k < q.order.len() implies (#[trigger] self.next[q.order[k]])
                    as int == q.order[succ(k, q.order.len() as int)] by {
                    if k < n {
                        assert(q.order[k] == r0.order[k]);
                        assert(r0.place[r0.order[k]] == k);
                        if k + 1 < n {
                            assert(q.order[k + 1] == r0.order[k + 1]);
                            assert(r0.order[k] != last);
                        }
                    }
                }
                assert forall|k: int| 0 <= k < q.order.len() implies (#[trigger] self.prev[q.order[k]])
                    as int == q.order[pred(k, q.order.len() as int)] by {
                    if k < n {
                        assert(q.order[k] == r0.order[k]);
                        assert(r0.place[r0.order[k]] == k);
                        if k > 0 {
                            assert(q.order[k - 1] == r0.order[k - 1]);
                            assert(r0.order[k] != 0);
                        }
                    }
                }
            }
        }
    }

    /// Create a polygon from a list of points
    pub fn from_vec(vec: &Vec<Point>) -> (p: CPolygon)
        ensures
            p.wf(),
            p.model() == ring_of(vec@),
    {
        let mut poly = Self::new();
        assert(poly.model().order =~= ring_of(vec@.take(0)).order);
        assert(poly.model().place =~= ring_of(vec@.take(0)).place);
        assert(poly.model().arena =~= ring_of(vec@.take(0)).arena);
        let mut i: usize = 0;
        while i < vec.len()
            invariant
                i <= vec.len(),
                poly.wf(),
                poly.model() == ring_of(vec@.take(i as int)),
            decreases vec.len() - i,
        {
            let vertex = Vertex::new(vec[i], Ratio::zero(), false, true, false);
            let ghost before = poly.model();
            poly.add(vertex);
            proof {
                let a = before.push(vertex);
                let b = ring_of(vec@.take(i + 1));
                assert(a.arena =~= b.arena);
                assert(a.order =~= b.order);
                assert(a.place =~= b.place);
            }
            i = i + 1;
        }
        assert(vec@.take(vec.len() as int) =~= vec@);
        poly
    }

    /// Insert and sort a vertex between a specified pair of vertices
    pub fn insert(&mut self, vertex: Vertex, start: usize, end: usize)
        requires
            old(self).wf(),
            old(self).model().alphas_wf(),
            vertex.alpha.wf(),
            start < old(self).model().len(),
            end < old(self).model().len(),
            start != end,
            old(self).model().place[start as int] < run_end(old(self).model(), end as int),
            old(self).model().arena[start as int].alpha.lt(vertex.alpha),
        ensures
            final(self).wf(),
            final(self).model() == old(self).model().insert(
                insert_pos(
                    old(self).model(),
                    old(self).model().place[start as int],
                    run_end(old(self).model(), end as int),
                    vertex.alpha,
                ),
                vertex,
            ),
            old(self).model().place[start as int] < insert_pos(
                old(self).model(),
                old(self).model().place[start as int],
                run_end(old(self).model(), end as int),
                vertex.alpha,
            ) <= run_end(old(self).model(), end as int),
    {
        let ghost r0 = self.model();
        let n: usize = self.verts.len();
        let ghost limit = run_end(r0, end as int);
        let ghost k0 = r0.place[start as int];
        let mut curr: usize = start;
        let mut k: Ghost<int> = Ghost(k0);
        assert(r0.order[k0] == start);
        while curr != end && self.verts[curr].alpha.less_than(&vertex.alpha)
            invariant
                self.wf(),
                self.model() == r0,
                r0.alphas_wf(),
                vertex.alpha.wf(),
                n == r0.len(),
                end < n,
                limit == run_end(r0, end as int),
                0 <= k0 <= k@ <= limit <= n,
                curr < n,
                k@ < n ==> curr == r0.order[k@],
                k@ == n ==> curr == 0,
                (curr == end) == (k@ == limit),
                insert_pos(r0, k0, limit, vertex.alpha) == insert_pos(r0, k@, limit, vertex.alpha),
                k@ == k0 ==> curr == start,
                k0 < limit,
            decreases limit - k@,
        {
            proof {
                assert(r0.place[r0.order[k@]] == k@);
                assert(r0.order[r0.place[end as int]] == end);
            }
            curr = self.next[curr];
            proof {
                k@ = k@ + 1;
                if k@ < n {
                    assert(r0.place[r0.order[k@]] == k@);
                }
            }
        }
        let ghost p = k@;
        assert(p == insert_pos(r0, k0, limit, vertex.alpha)) by {
            if curr != end {
                assert(r0.place[r0.order[p]] == p);
            }
        }
        assert(p > k0);
        let before: usize = self.prev[curr];
        proof {
            if p < n {
                assert(r0.place[r0.order[p]] == p);
                assert(before == r0.order[p - 1]);
            } else {
                assert(r0.order[0] == 0);
                assert(before == r0.order[n - 1]);
            }
        }
        self.verts.push(vertex);
        self.next.push(curr);
        self.prev.push(before);
        self.next.set(before, n);
        self.prev.set(curr, n);
        proof {
            lemma_insert_wf(r0, p, vertex);
            let q = r0.insert(p, vertex);
            self.order@ = q.order;
            self.place@ = q.place;
            assert forall|j: int| 0 <= j < q.order.len() implies (#[trigger] self.next[q.order[j]])
                as int == q.order[succ(j, q.order.len() as int)] by {
                if j < p {
                    assert(q.order[j] == r0.order[j]);
                    assert(r0.place[r0.order[j]] == j);
                    if j + 1 < p {
                        assert(q.order[j + 1] == r0.order[j + 1]);
                        assert(r0.place[r0.order[p - 1]] == p - 1);
                    }
                } else if j > p {
                    assert(q.order[j] == r0.order[j - 1]);
                    assert(r0.place[r0.order[j - 1]] == j - 1);
                    assert(r0.place[r0.order[p - 1]] == p - 1);
                    if j + 1 < q.order.len() {
                        assert(q.order[j + 1] == r0.order[j]);
                    } else {
                        assert(q.order[0] == r0.order[0]);
                    }
                } else {
                    if p < n {
                        assert(q.order[p + 1] == r0.order[p]);
                    } else {
                        assert(q.order[0] == r0.order[0]);
                    }
                }
            }
            assert forall|j: int| 0 <= j < q.order.len() implies (#[trigger] self.prev[q.order[j]])
                as int == q.order[pred(j, q.order.len() as int)] by {
                if j < p {
                    assert(q.order[j] == r0.order[j]);
                    assert(r0.place[r0.order[j]] == j);
                    if p < n {
                        assert(r0.place[r0.order[p]] == p);
                    }
                    if j > 0 {
                        assert(q.order[j - 1] == r0.order[j - 1]);
                    } else {
                        if p == n {
                            assert(q.order[n as int] == n);
                        } else {
                            assert(q.order[n as int] == r0.order[n - 1]);
                        }
                    }
                } else if j > p {
                    assert(q.order[j] == r0.order[j - 1]);
                    assert(r0.place[r0.order[j - 1]] == j - 1);
                    if p < n {
                        assert(r0.place[r0.order[p]] == p);
                    }
                    if j - 1 > p {
                        assert(q.order[j - 1] == r0.order[j - 2]);
                    }
                } else {
                    assert(q.order[p - 1] == r0.order[p - 1]);
                }
            }
        }
    }

    /// Return the next non intersecting vertex after the one specified
    pub fn next(&self, v: usize) -> (c: usize)
        requires
            self.wf(),
            v < self.model().len(),
            !self.model().arena[0].inter,
        ensures
            c < self.model().len(),
            c == self.model().order[next_plain(self.model(), self.model().place[v as int])],
            !self.model().arena[c as int].inter,
    {
        let ghost r = self.model();
        let n: usize = self.verts.len();
        let mut c: usize = v;
        let mut k: Ghost<int> = Ghost(r.place[v as int]);
        assert(r.order[r.place[v as int]] == v);
        assert(r.order[0] == 0);
        while self.verts[c].inter
            invariant
                self.wf(),
                r == self.model(),
                n == r.len(),
                n > 0,
                0 <= k@ <= n,
                c < n,
                k@ < n ==> c == r.order[k@],
                k@ == n ==> c == 0,
                !r.arena[0].inter,
                next_plain(r, r.place[v as int]) == next_plain(r, k@),
            decreases n - k@,
        {
            proof {
                assert(r.place[r.order[k@]] == k@);
            }
            c = self.next[c];
            proof {
                k@ = k@ + 1;
                if k@ < n {
                    assert(r.place[r.order[k@]] == k@);
                }
            }
        }
        proof {
            assert(r.order[0] == 0);
        }
        c
    }

    /// A cursor at the first vertex.
    pub fn iter(&self) -> (it: CPolyIter)
        requires
            self.wf(),
        ensures
            it.wf(self.model()),
            it.position() == 0,
    {
        CPolyIter::new(self)
    }

    /// Return the polygon points as a list of points, clear consecutive equals points
    ///
    /// The ring is closed: the last point counts as followed by the first.
    pub fn points(&self) -> (pts: Vec<Point>)
        requires
            self.wf(),
        ensures
            pts@ == collapse(self.model().points()),
    {
        let ghost m = self.model();
        let ghost all = m.points();
        let mut poly: Vec<Point> = Vec::new();
        let mut it = self.iter();
        loop
            invariant_except_break
                self.wf(),
                m == self.model(),
                all == m.points(),
                it.wf(m),
                poly@ == dedup_upto(all, it.position()),
            ensures
                poly@ == dedup(all),
            decreases m.len() - it.position(),
        {
            let ghost k = it.position();
            match it.next(self) {
                None => {
                    break ;
                },
                Some(vertex) => {
                    let pt = self.verts[vertex].pt;
                    proof {
                        assert(m.place[m.order[k]] == k);
                        assert(m.place[m.order[0]] == 0);
                        assert(all[k] == pt);
                        if k > 0 {
                            assert(all[k - 1] == m.arena[m.order[k - 1]].pt);
                        }
                    }
                    if vertex == 0 {
                        poly.push(pt);
                    } else {
                        let prev = self.verts[self.prev[vertex]].pt;
                        if prev != pt {
                            poly.push(pt);
                        }
                    }
                },
            }
        }
        let n: usize = poly.len();
        if n > 1 && poly[n - 1] == poly[0] {
            poly.pop();
        }
        poly
    }

    /// The points of the polygon in circular order, repetitions included.
    pub fn raw_points(&self) -> (pts: Vec<Point>)
        requires
            self.wf(),
        ensures
            pts@ == self.model().points(),
    {
        let ghost m = self.model();
        let mut out: Vec<Point> = Vec::new();
        let mut it = self.iter();
        loop
            invariant_except_break
                self.wf(),
                m == self.model(),
                it.wf(m),
                out@ == m.points().take(it.position()),
            ensures
                out@ == m.points(),
            decreases m.len() - it.position(),
        {
            let ghost k = it.position();
            match it.next(self) {
                None => {
                    proof {
                        assert(m.points().take(k) =~= m.points());
                    }
                    break ;
                },
                Some(s) => {
                    out.push(self.verts[s].pt);
                    proof {
                        assert(m.points().take(k).push(m.points()[k]) =~= m.points().take(k + 1));
                    }
                },
            }
        }
        out
    }
}

/// Cursor over the arena indices of a polygon in circular order.
pub struct CPolyIter {
    first: Option<usize>,
    curr: Option<usize>,
    fst: bool,
    pos: Ghost<int>,
}

impl CPolyIter {
    /// The number of vertices handed out so far.
    pub closed spec fn position(&self) -> int {
        self.pos@
    }

    /// The cursor stands at `position()` of the circular order of `r`.
    pub closed spec fn wf(&self, r: Ring) -> bool {
        let n = r.len();
        &&& 0 <= self.pos@ <= n
        &&& n == 0 ==> self.fst && self.curr.is_none() && self.first.is_none()
        &&& n > 0 ==> self.first == Some(0usize) && (self.fst <==> self.pos@ == 0) && self.curr
            == Some(
            (if self.pos@ < n {
                r.order[self.pos@]
            } else {
                0
            }) as usize,
        )
    }

    /// A cursor keeps its place when records change but the order does not.
    pub proof fn lemma_wf_same_order(&self, r: Ring, q: Ring)
        requires
            self.wf(r),
            q.order == r.order,
            q.arena.len() == r.arena.len(),
        ensures
            self.wf(q),
    {
    }

    pub fn new(poly: &CPolygon) -> (it: Self)
        requires
            poly.wf(),
        ensures
            it.wf(poly.model()),
            it.position() == 0,
    {
        let head: Option<usize> = if poly.verts.len() > 0 {
            Some(0)
        } else {
            None
        };
        proof {
            if poly.verts.len() > 0 {
                assert(poly.model().order[0] == 0);
            }
        }
        Self { first: head, curr: head, fst: true, pos: Ghost(0) }
    }

    /// Hands out the arena index at the cursor and steps forward; `None`
    /// once every vertex was handed out.
    pub fn next(&mut self, poly: &CPolygon) -> (r: Option<usize>)
        requires
            poly.wf(),
            old(self).wf(poly.model()),
        ensures
            final(self).wf(poly.model()),
            poly.model().wf(),
            0 <= old(self).position() <= poly.model().len() <= usize::MAX,
            old(self).position() < poly.model().len() ==> r.is_some() && r.unwrap()
                == poly.model().order[old(self).position()] && final(self).position()
                == old(self).position() + 1,
            old(self).position() >= poly.model().len() ==> r.is_none() && final(self).position()
                == old(self).position(),
            r.is_some() ==> r.unwrap() < poly.model().len(),
    {
        let ghost m = poly.model();
        if self.fst {
            match self.curr {
                None => None,
                Some(i) => {
                    assert(m.place[m.order[0]] == 0);
                    self.curr = Some(poly.next[i]);
                    self.fst = false;
                    proof {
                        self.pos@ = 1;
                    }
                    Some(i)
                },
            }
        } else {
            match self.curr {
                None => None,
                Some(i) => {
                    if i == 0 {
                        proof {
                            if self.pos@ < m.len() {
                                assert(m.place[m.order[self.pos@]] == self.pos@);
                                assert(m.place[m.order[0]] == 0);
                            }
                        }
                        None
                    } else {
                        assert(m.place[m.order[self.pos@]] == self.pos@);
                        self.curr = Some(poly.next[i]);
                        proof {
                            self.pos@ = self.pos@ + 1;
                        }
                        Some(i)
                    }
                },
            }
        }
    }
}

/// The ring of a point sequence holds these points.
pub proof fn lemma_ring_of_points(pts: Seq<Point>)
    ensures
        ring_of(pts).points() == pts,
        ring_of(ring_of(pts).points()) == ring_of(pts),
{
    assert(ring_of(pts).points() =~= pts);
}

} // verus!
