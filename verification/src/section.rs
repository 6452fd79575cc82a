//! The section graph: joints, the members between them, and the rules
//! that keep the graph fit for an outline.

use vstd::prelude::*;
use crate::geometry::{
    is_too_close, lemma_meeting_point_within, meeting_point, segment_meet, segments_meet,
    too_close, Point, NODE_MAX, THICKNESS_MAX,
};
use crate::graph::{
    clear_of, edges_without, graph_add_edge, graph_add_node, graph_clone, graph_edge_count,
    graph_edge_endpoints, graph_edge_weight, graph_edges, graph_new, graph_node_count,
    graph_node_weight, graph_nodes, graph_remove_edge, graph_remove_node, graph_set_node_weight,
    moved, swap_removed, EdgeEntry, NodeWeight, SectionGraph,
};
use crate::outline::{
    cap, collapse_members, collinear, conflict, has_conflict, joint_ring, lemma_conflict,
    ring_of_joint, slots, sort_by_angle, sort_members, valid_members, Member,
};
use crate::polygon::all_within;

verus! {

/// Grid steps per unit of length.
pub const UNIT: i64 = 1_000_000;

/// Thickness of a member added without one: two units of length.
pub const DEFAULT_THICKNESS: i64 = 2_000_000;

/// Elastic modulus of a member added without one.
pub const DEFAULT_ELASTIC: i64 = 29_000;

/// Largest number of nodes, and of members, that the index type of the
/// graph can tell apart.
pub const INDEX_MAX: usize = 0xffff_ffff;

/// How many nodes and members a section may hold.
#[derive(Clone, Copy, Debug, PartialEq, Eq, Structural)]
pub struct Limits {
    pub nodes: usize,
    pub members: usize,
}

impl Limits {
    /// Both limits are within what the graph can index.
    pub open spec fn wf(self) -> bool {
        self.nodes <= INDEX_MAX && self.members <= INDEX_MAX
    }
}

/// A joint of the section.
#[derive(Clone, Copy, Debug, PartialEq, Eq, Structural)]
pub struct Node {
    /// The position of the node
    pub x: i64,
    pub y: i64,
}

/// A member of the section.
#[derive(Clone, Copy, Debug, PartialEq, Eq, Structural)]
pub struct Element {
    /// The joints at the two ends.
    pub a: u32,
    pub b: u32,
    pub thickness: i64,
    pub elastic: i64,
}

/// Why an operation on a section was refused.
#[derive(Clone, Copy, Debug, PartialEq, Eq, Structural)]
pub enum SectionError {
    /// The operation names a node or member that the section does not hold.
    NotFound,
    /// The new node lies too close to an existing member.
    ConstraintViolation,
    /// Two members leave a joint along one line with unequal thickness.
    ConfigInconsistency,
    /// A coordinate or a thickness is beyond the supported range.
    OutOfRange,
    /// The section or its outline cannot hold more items.
    CapacityExceeded,
}

/// The position stored in a node weight.
pub open spec fn at(w: NodeWeight) -> Point {
    Point { x: w.0, y: w.1 }
}

/// Nodes and edges that form a section: counts that can be indexed, positions
/// and thicknesses within range, every edge between existing nodes.
pub open spec fn valid_graph(nodes: Seq<NodeWeight>, edges: Seq<EdgeEntry>) -> bool {
    &&& nodes.len() <= INDEX_MAX
    &&& edges.len() <= INDEX_MAX
    &&& forall|i: int| 0 <= i < nodes.len() ==> at(#[trigger] nodes[i]).within(NODE_MAX as int)
    &&& forall|k: int| 0 <= k < edges.len() ==> valid_edge(#[trigger] edges[k], nodes.len() as int)
}

/// An edge between two of `n` nodes with a thickness within range.
pub open spec fn valid_edge(e: EdgeEntry, n: int) -> bool {
    e.0 < n && e.1 < n && 0 < e.2.0 <= THICKNESS_MAX
}

/// The member at index `k` passes within twice its thickness of `p`.
pub open spec fn near_member(
    nodes: Seq<NodeWeight>,
    edges: Seq<EdgeEntry>,
    p: Point,
    k: int,
) -> bool {
    too_close(at(nodes[edges[k].0 as int]), at(nodes[edges[k].1 as int]), p, edges[k].2.0 as int)
}

/// Some member passes within twice its thickness of `p`.
pub open spec fn near_any(nodes: Seq<NodeWeight>, edges: Seq<EdgeEntry>, p: Point) -> bool {
    exists|k: int| 0 <= k < edges.len() && #[trigger] near_member(nodes, edges, p, k)
}

/// A section: its graph, its material constant, and whether its derived
/// results are current.
pub struct Section {
    /// A graph structure containing most of the information about the section
    graph: SectionGraph,
    poisson: i64,
    /// A bool indicating whether or not results are current
    results: bool,
    limits: Limits,
}

impl Section {
    /// The node positions, by node index.
    pub closed spec fn nodes(&self) -> Seq<NodeWeight> {
        graph_nodes(self.graph)
    }

    /// The members, by member index: the two ends and `(thickness, elastic)`.
    pub closed spec fn edges(&self) -> Seq<EdgeEntry> {
        graph_edges(self.graph)
    }

    /// Whether the derived results are current.
    pub closed spec fn results(&self) -> bool {
        self.results
    }

    /// Poisson's ratio, in millionths.
    pub closed spec fn poisson(&self) -> i64 {
        self.poisson
    }

    /// How many nodes and members the section may hold.
    pub closed spec fn limits(&self) -> Limits {
        self.limits
    }

    /// The section's graph is valid and its limits can be indexed.
    pub open spec fn wf(&self) -> bool {
        valid_graph(self.nodes(), self.edges()) && self.limits().wf()
    }

    /// This function instantiates a section
    ///
    /// The section may hold as many nodes and members as the graph can
    /// index.
    pub fn new(poisson: i64) -> (s: Section)
        ensures
            s.wf(),
            s.nodes().len() == 0,
            s.edges().len() == 0,
            s.poisson() == poisson,
            !s.results(),
            s.limits() == (Limits { nodes: INDEX_MAX, members: INDEX_MAX }),
    {
        Section {
            graph: graph_new(),
            poisson,
            results: false,
            limits: Limits { nodes: INDEX_MAX, members: INDEX_MAX },
        }
    }

    /// Instantiates a section that may hold at most `nodes` nodes and
    /// `members` members; limits beyond what the graph can index are cut
    /// down to it.
    pub fn with_limits(poisson: i64, nodes: usize, members: usize) -> (s: Section)
        ensures
            s.wf(),
            s.nodes().len() == 0,
            s.edges().len() == 0,
            s.poisson() == poisson,
            !s.results(),
            s.limits().nodes == (if nodes <= INDEX_MAX {
                nodes
            } else {
                INDEX_MAX
            }),
            s.limits().members == (if members <= INDEX_MAX {
                members
            } else {
                INDEX_MAX
            }),
    {
        let n: usize = if nodes <= INDEX_MAX {
            nodes
        } else {
            INDEX_MAX
        };
        let m: usize = if members <= INDEX_MAX {
            members
        } else {
            INDEX_MAX
        };
        Section { graph: graph_new(), poisson, results: false, limits: Limits { nodes: n, members: m } }
    }

    /// How many nodes and members the section may hold.
    pub fn capacity(&self) -> (l: Limits)
        ensures
            l == self.limits(),
    {
        self.limits
    }

    /// The number of nodes.
    pub fn node_count(&self) -> (n: usize)
        ensures
            n == self.nodes().len(),
    {
        graph_node_count(&self.graph)
    }

    /// The number of members.
    pub fn element_count(&self) -> (n: usize)
        ensures
            n == self.edges().len(),
    {
        graph_edge_count(&self.graph)
    }

    /// The node with the given index.
    pub fn node(&self, id: u32) -> (r: Option<Node>)
        ensures
            id < self.nodes().len() ==> r == Some(
                (Node { x: self.nodes()[id as int].0, y: self.nodes()[id as int].1 }),
            ),
            id >= self.nodes().len() ==> r.is_none(),
    {
        match graph_node_weight(&self.graph, id) {
            Some(w) => Some(Node { x: w.0, y: w.1 }),
            None => None,
        }
    }

    /// The member with the given index.
    pub fn element(&self, id: u32) -> (r: Option<Element>)
        ensures
            id < self.edges().len() ==> r == Some(
                (Element {
                    a: self.edges()[id as int].0,
                    b: self.edges()[id as int].1,
                    thickness: self.edges()[id as int].2.0,
                    elastic: self.edges()[id as int].2.1,
                }),
            ),
            id >= self.edges().len() ==> r.is_none(),
    {
        match graph_edge_endpoints(&self.graph, id) {
            Some(ends) => match graph_edge_weight(&self.graph, id) {
                Some(w) => Some(Element { a: ends.0, b: ends.1, thickness: w.0, elastic: w.1 }),
                None => None,
            },
            None => None,
        }
    }

    /// Poisson's ratio, in millionths.
    pub fn poisson_ratio(&self) -> (p: i64)
        ensures
            p == self.poisson(),
    {
        self.poisson
    }

    /// Whether the derived results are current.
    pub fn results_valid(&self) -> (b: bool)
        ensures
            b == self.results(),
    {
        self.results
    }

    /// Records that the derived results are current.
    pub(crate) fn set_results(&mut self)
        ensures
            final(self).nodes() == old(self).nodes(),
            final(self).edges() == old(self).edges(),
            final(self).poisson() == old(self).poisson(),
            final(self).limits() == old(self).limits(),
            final(self).results(),
    {
        self.results = true;
    }

    /// Adds a node at `(x, y)` and returns its index. A position beyond
    /// the supported range, a full section, and a position within twice
    /// the thickness of an existing member's line are refused, in this
    /// order, and leave the section as it was.
    pub fn add_node(&mut self, x: i64, y: i64) -> (r: Result<u32, SectionError>)
        requires
            old(self).wf(),
        ensures
            final(self).wf(),
            final(self).poisson() == old(self).poisson(),
            final(self).limits() == old(self).limits(),
            r == add_node_result(old(self).nodes(), old(self).edges(), old(self).limits(), x, y),
            r.is_ok() ==> final(self).nodes() == old(self).nodes().push((x, y)),
            r.is_ok() ==> final(self).edges() == old(self).edges() && !final(self).results(),
            r.is_err() ==> final(self).nodes() == old(self).nodes(),
            r.is_err() ==> final(self).edges() == old(self).edges(),
            r.is_err() ==> final(self).results() == old(self).results(),
    {
        if x < -NODE_MAX || x > NODE_MAX || y < -NODE_MAX || y > NODE_MAX {
            return Err(SectionError::OutOfRange);
        }
        if graph_node_count(&self.graph) >= self.limits.nodes {
            return Err(SectionError::CapacityExceeded);
        }
        if near(self, x, y) {
            return Err(SectionError::ConstraintViolation);
        }
        let id = graph_add_node(&mut self.graph, (x, y));
        self.results = false;
        Ok(id)
    }

    /// This function moves a node
    pub fn move_node(&mut self, a: u32, x: i64, y: i64) -> (r: Result<(), SectionError>)
        requires
            old(self).wf(),
        ensures
            final(self).wf(),
            final(self).poisson() == old(self).poisson(),
            final(self).limits() == old(self).limits(),
            final(self).edges() == old(self).edges(),
            r == move_node_result(old(self).nodes(), a, x, y),
            r.is_ok() ==> final(self).nodes() == old(self).nodes().update(a as int, (x, y))
                && !final(self).results(),
            r.is_err() ==> final(self).nodes() == old(self).nodes(),
            r.is_err() ==> final(self).results() == old(self).results(),
    {
        if a as usize >= graph_node_count(&self.graph) {
            return Err(SectionError::NotFound);
        }
        if x < -NODE_MAX || x > NODE_MAX || y < -NODE_MAX || y > NODE_MAX {
            return Err(SectionError::OutOfRange);
        }
        graph_set_node_weight(&mut self.graph, a, (x, y));
        self.results = false;
        Ok(())
    }

    /// This function deletes a member
    pub fn delete_member(&mut self, ab: u32) -> (r: Result<(), SectionError>)
        requires
            old(self).wf(),
        ensures
            final(self).wf(),
            final(self).poisson() == old(self).poisson(),
            final(self).limits() == old(self).limits(),
            final(self).nodes() == old(self).nodes(),
            r.is_ok() == (ab < old(self).edges().len()),
            r.is_ok() ==> final(self).edges() == swap_removed(old(self).edges(), ab as int)
                && !final(self).results(),
            r.is_err() ==> r == Err::<(), SectionError>(SectionError::NotFound),
            r.is_err() ==> final(self).edges() == old(self).edges(),
            r.is_err() ==> final(self).results() == old(self).results(),
    {
        match graph_remove_edge(&mut self.graph, ab) {
            Some(_) => {
                self.results = false;
                Ok(())
            },
            None => Err(SectionError::NotFound),
        }
    }

    /// This function deletes a node, together with the members attached
    /// to it. The last node takes over the index of the deleted one.
    pub fn delete_node(&mut self, a: u32) -> (r: Result<(), SectionError>)
        requires
            old(self).wf(),
        ensures
            final(self).wf(),
            final(self).poisson() == old(self).poisson(),
            final(self).limits() == old(self).limits(),
            r.is_ok() == (a < old(self).nodes().len()),
            r.is_ok() ==> {
                &&& final(self).nodes() == swap_removed(old(self).nodes(), a as int)
                &&& final(self).edges().to_multiset() == edges_without(
                    old(self).edges(),
                    a,
                    (old(self).nodes().len() - 1) as u32,
                ).to_multiset()
                &&& !final(self).results()
            },
            r.is_err() ==> r == Err::<(), SectionError>(SectionError::NotFound),
            r.is_err() ==> final(self).nodes() == old(self).nodes(),
            r.is_err() ==> final(self).edges() == old(self).edges(),
            r.is_err() ==> final(self).results() == old(self).results(),
    {
        let ghost nodes0 = self.nodes();
        let ghost edges0 = self.edges();
        match graph_remove_node(&mut self.graph, a) {
            Some(_) => {
                self.results = false;
                proof {
                    lemma_edges_without_valid(nodes0, edges0, a, self.edges());
                }
                Ok(())
            },
            None => Err(SectionError::NotFound),
        }
    }
}

/// What `add_node` answers for the position `(x, y)`.
pub open spec fn add_node_result(
    nodes: Seq<NodeWeight>,
    edges: Seq<EdgeEntry>,
    lim: Limits,
    x: i64,
    y: i64,
) -> Result<u32, SectionError> {
    if !(Point { x, y }).within(NODE_MAX as int) {
        Err(SectionError::OutOfRange)
    } else if nodes.len() >= lim.nodes {
        Err(SectionError::CapacityExceeded)
    } else if near_any(nodes, edges, Point { x, y }) {
        Err(SectionError::ConstraintViolation)
    } else {
        Ok(nodes.len() as u32)
    }
}

/// What `move_node` answers for node `a` and the position `(x, y)`.
pub open spec fn move_node_result(nodes: Seq<NodeWeight>, a: u32, x: i64, y: i64) -> Result<
    (),
    SectionError,
> {
    if a >= nodes.len() {
        Err(SectionError::NotFound)
    } else if !(Point { x, y }).within(NODE_MAX as int) {
        Err(SectionError::OutOfRange)
    } else {
        Ok(())
    }
}

/// The edges that remain after a node was removed form a valid graph with
/// the remaining nodes.
pub proof fn lemma_edges_without_valid(
    nodes: Seq<NodeWeight>,
    edges: Seq<EdgeEntry>,
    a: u32,
    after: Seq<EdgeEntry>,
)
    requires
        valid_graph(nodes, edges),
        a < nodes.len(),
        after.to_multiset() == edges_without(edges, a, (nodes.len() - 1) as u32).to_multiset(),
    ensures
        valid_graph(swap_removed(nodes, a as int), after),
{
    let n = nodes.len() as int;
    let last = (n - 1) as u32;
    let kept = edges.filter(|e: EdgeEntry| clear_of(e, a));
    let want = edges_without(edges, a, last);
    edges.lemma_filter_len(|e: EdgeEntry| clear_of(e, a));
    vstd::seq_lib::to_multiset_len(after);
    vstd::seq_lib::to_multiset_len(want);
    assert(after.len() == want.len());
    assert(want.len() == kept.len());
    let left = swap_removed(nodes, a as int);
    assert forall|k: int| 0 <= k < after.len() implies valid_edge(#[trigger] after[k], left.len() as int) by {
        let e = after[k];
        assert(after.contains(e));
        vstd::seq_lib::to_multiset_contains(after, e);
        vstd::seq_lib::to_multiset_contains(want, e);
        assert(want.contains(e));
        let j = choose|j: int| 0 <= j < want.len() && want[j] == e;
        let f = kept[j];
        assert(e == moved(f, last, a));
        edges.lemma_filter_pred(|e: EdgeEntry| clear_of(e, a), j);
        assert(kept.contains(f));
        edges.lemma_filter_contains_rev(|e: EdgeEntry| clear_of(e, a), f);
        let i = choose|i: int| 0 <= i < edges.len() && edges[i] == f;
        assert(valid_edge(edges[i], n));
    }
    assert forall|i: int| 0 <= i < left.len() implies at(#[trigger] left[i]).within(NODE_MAX as int) by {
        if i == a {
            assert(at(nodes[n - 1]).within(NODE_MAX as int));
        } else {
            assert(at(nodes[i]).within(NODE_MAX as int));
        }
    }
}

/// Tests whether the position `(x0, y0)` lies within twice the thickness
/// of the line of some member.
pub fn near(section: &Section, x0: i64, y0: i64) -> (b: bool)
    requires
        section.wf(),
        (Point { x: x0, y: y0 }).within(NODE_MAX as int),
    ensures
        b == near_any(section.nodes(), section.edges(), (Point { x: x0, y: y0 })),
{
    let ghost nodes = section.nodes();
    let ghost edges = section.edges();
    let p = Point { x: x0, y: y0 };
    let m: usize = graph_edge_count(&section.graph);
    let mut k: usize = 0;
    while k < m
        invariant
            k <= m,
            m == edges.len(),
            nodes == section.nodes(),
            edges == section.edges(),
            section.wf(),
            p == (Point { x: x0, y: y0 }),
            p.within(NODE_MAX as int),
            forall|j: int| 0 <= j < k ==> !near_member(nodes, edges, p, j),
        decreases m - k,
    {
        assert(valid_edge(edges[k as int], nodes.len() as int));
        let ends = graph_edge_endpoints(&section.graph, k as u32).unwrap();
        let w = graph_edge_weight(&section.graph, k as u32).unwrap();
        let n1 = graph_node_weight(&section.graph, ends.0).unwrap();
        let n2 = graph_node_weight(&section.graph, ends.1).unwrap();
        let end1 = Point { x: n1.0, y: n1.1 };
        let end2 = Point { x: n2.0, y: n2.1 };
        assert(at(nodes[ends.0 as int]).within(NODE_MAX as int));
        assert(at(nodes[ends.1 as int]).within(NODE_MAX as int));
        if is_too_close(end1, end2, p, w.0) {
            assert(near_member(nodes, edges, p, k as int));
            return true;
        }
        k = k + 1;
    }
    false
}


/// A member that a new segment meets.
#[derive(Clone, Copy, Debug, PartialEq, Eq, Structural)]
pub struct Crossing {
    /// The index of the member.
    pub element: u32,
    /// The thickness of the member.
    pub thickness: i64,
    /// The joints at the ends of the member.
    pub a: u32,
    pub b: u32,
    /// The grid point nearest to the meeting.
    pub at: Point,
}

/// A member waiting to be added between two existing nodes.
#[derive(Clone, Copy, Debug, PartialEq, Eq, Structural)]
pub struct Request {
    pub a: u32,
    pub b: u32,
    pub thickness: i64,
    pub elastic: i64,
}

/// The segment between the positions `pa` and `pb` meets the member at
/// index `k`.
pub open spec fn meets(
    nodes: Seq<NodeWeight>,
    edges: Seq<EdgeEntry>,
    pa: Point,
    pb: Point,
    k: int,
) -> bool {
    segments_meet(pa, pb, at(nodes[edges[k].0 as int]), at(nodes[edges[k].1 as int]))
}

/// The index of the first member from `k` on that the segment meets, or
/// the number of members if it meets none.
pub open spec fn first_meeting(
    nodes: Seq<NodeWeight>,
    edges: Seq<EdgeEntry>,
    pa: Point,
    pb: Point,
    k: int,
) -> int
    decreases edges.len() - k,
{
    if k >= edges.len() {
        edges.len() as int
    } else if meets(nodes, edges, pa, pb, k) {
        k
    } else {
        first_meeting(nodes, edges, pa, pb, k + 1)
    }
}

/// The first member that the segment between nodes `a` and `b` meets.
pub open spec fn crossing_of(nodes: Seq<NodeWeight>, edges: Seq<EdgeEntry>, a: u32, b: u32) -> Option<
    Crossing,
> {
    let pa = at(nodes[a as int]);
    let pb = at(nodes[b as int]);
    let k = first_meeting(nodes, edges, pa, pb, 0);
    if k >= edges.len() {
        None
    } else {
        Some(
            Crossing {
                element: k as u32,
                thickness: edges[k].2.0,
                a: edges[k].0,
                b: edges[k].1,
                at: meeting_point(pa, pb, at(nodes[edges[k].0 as int]), at(nodes[edges[k].1 as int])),
            },
        )
    }
}

/// A request between two of `n` nodes with a thickness within range.
pub open spec fn valid_request(r: Request, n: int) -> bool {
    r.a < n && r.b < n && 0 < r.thickness <= THICKNESS_MAX
}

/// The requests that take the place of `r` when it meets the member `m`
/// and the node `n` was placed at the meeting: the two halves of `r`,
/// and on top of them the two halves of the member, which keep its
/// thickness. The top of the stack is the end of the sequence.
pub open spec fn split_requests(r: Request, m: Crossing, n: u32) -> Seq<Request> {
    seq![
        Request { a: n, b: r.b, thickness: r.thickness, elastic: r.elastic },
        Request { a: r.a, b: n, thickness: r.thickness, elastic: r.elastic },
        Request { a: n, b: m.b, thickness: m.thickness, elastic: DEFAULT_ELASTIC },
        Request { a: n, b: m.a, thickness: m.thickness, elastic: DEFAULT_ELASTIC },
    ]
}

/// The graph after all pending requests were served, with the index of
/// the member added last, or `None` if the section cannot hold the
/// result.
///
/// The request on top of the stack is served first. If its segment meets
/// no member, it becomes a member. Otherwise a node is placed at the
/// meeting with the first such member, the member is removed, and the
/// halves of the member and of the request are pushed in its place.
pub open spec fn settle(
    nodes: Seq<NodeWeight>,
    edges: Seq<EdgeEntry>,
    pending: Seq<Request>,
    last: u32,
    lim: Limits,
) -> Option<(Seq<NodeWeight>, Seq<EdgeEntry>, u32)>
    decreases lim.nodes - nodes.len(), pending.len(),
{
    if pending.len() == 0 {
        Some((nodes, edges, last))
    } else {
        let r = pending.last();
        let rest = pending.drop_last();
        match crossing_of(nodes, edges, r.a, r.b) {
            None => {
                if edges.len() >= lim.members {
                    None
                } else {
                    settle(
                        nodes,
                        edges.push((r.a, r.b, (r.thickness, r.elastic))),
                        rest,
                        edges.len() as u32,
                        lim,
                    )
                }
            },
            Some(m) => {
                if nodes.len() >= lim.nodes {
                    None
                } else {
                    settle(
                        nodes.push((m.at.x, m.at.y)),
                        swap_removed(edges, m.element as int),
                        rest + split_requests(r, m, nodes.len() as u32),
                        last,
                        lim,
                    )
                }
            },
        }
    }
}

/// What `add_edge` answers.
pub open spec fn add_edge_result(
    nodes: Seq<NodeWeight>,
    edges: Seq<EdgeEntry>,
    a: u32,
    b: u32,
    thickness: i64,
    elastic: i64,
    lim: Limits,
) -> Result<u32, SectionError> {
    if a >= nodes.len() || b >= nodes.len() {
        Err(SectionError::NotFound)
    } else if !(0 < thickness <= THICKNESS_MAX) {
        Err(SectionError::OutOfRange)
    } else {
        match settle(nodes, edges, seq![Request { a, b, thickness, elastic }], 0, lim) {
            Some(done) => Ok(done.2),
            None => Err(SectionError::CapacityExceeded),
        }
    }
}

/// The first meeting from `k` on lies between `k` and the number of
/// members; a member stands there that the segment meets, and it meets
/// none before.
pub proof fn lemma_first_meeting(
    nodes: Seq<NodeWeight>,
    edges: Seq<EdgeEntry>,
    pa: Point,
    pb: Point,
    k: int,
)
    requires
        0 <= k <= edges.len(),
    ensures
        k <= first_meeting(nodes, edges, pa, pb, k) <= edges.len(),
        first_meeting(nodes, edges, pa, pb, k) < edges.len() ==> meets(
            nodes,
            edges,
            pa,
            pb,
            first_meeting(nodes, edges, pa, pb, k),
        ),
        forall|j: int|
            k <= j < first_meeting(nodes, edges, pa, pb, k) ==> !meets(nodes, edges, pa, pb, j),
    decreases edges.len() - k,
{
    if k < edges.len() && !meets(nodes, edges, pa, pb, k) {
        lemma_first_meeting(nodes, edges, pa, pb, k + 1);
    }
}

/// Looks for the first member of `g` that the segment between the nodes
/// `node1` and `node2` meets.
fn find_crossing(g: &SectionGraph, node1: u32, node2: u32) -> (r: Option<Crossing>)
    requires
        valid_graph(graph_nodes(*g), graph_edges(*g)),
        node1 < graph_nodes(*g).len(),
        node2 < graph_nodes(*g).len(),
    ensures
        r == crossing_of(graph_nodes(*g), graph_edges(*g), node1, node2),
        r.is_some() ==> r.unwrap().element < graph_edges(*g).len() && r.unwrap().at.within(
            NODE_MAX as int,
        ),
{
    let ghost nodes = graph_nodes(*g);
    let ghost edges = graph_edges(*g);
    let w1 = graph_node_weight(g, node1).unwrap();
    let w2 = graph_node_weight(g, node2).unwrap();
    let pa = Point { x: w1.0, y: w1.1 };
    let pb = Point { x: w2.0, y: w2.1 };
    assert(at(nodes[node1 as int]).within(NODE_MAX as int));
    assert(at(nodes[node2 as int]).within(NODE_MAX as int));
    let m: usize = graph_edge_count(g);
    let mut k: usize = 0;
    while k < m
        invariant
            k <= m,
            m == edges.len(),
            nodes == graph_nodes(*g),
            edges == graph_edges(*g),
            valid_graph(nodes, edges),
            pa == at(nodes[node1 as int]),
            pb == at(nodes[node2 as int]),
            pa.within(NODE_MAX as int),
            pb.within(NODE_MAX as int),
            first_meeting(nodes, edges, pa, pb, 0) == first_meeting(nodes, edges, pa, pb, k as int),
        decreases m - k,
    {
        assert(valid_edge(edges[k as int], nodes.len() as int));
        let ends = graph_edge_endpoints(g, k as u32).unwrap();
        let n3 = graph_node_weight(g, ends.0).unwrap();
        let n4 = graph_node_weight(g, ends.1).unwrap();
        let qa = Point { x: n3.0, y: n3.1 };
        let qb = Point { x: n4.0, y: n4.1 };
        assert(at(nodes[ends.0 as int]).within(NODE_MAX as int));
        assert(at(nodes[ends.1 as int]).within(NODE_MAX as int));
        match segment_meet(pa, pb, qa, qb) {
            Some(pt) => {
                let w = graph_edge_weight(g, k as u32).unwrap();
                proof {
                    lemma_meeting_point_within(pa, pb, qa, qb, NODE_MAX as int);
                }
                return Some(
                    Crossing { element: k as u32, thickness: w.0, a: ends.0, b: ends.1, at: pt },
                );
            },
            None => {},
        }
        k = k + 1;
    }
    None
}

/// Looks for the first member that the segment between the nodes `node1`
/// and `node2` meets. Members that share a joint position with the
/// segment do not count.
pub fn intersects(section: &Section, node1: u32, node2: u32) -> (r: Option<Crossing>)
    requires
        section.wf(),
        node1 < section.nodes().len(),
        node2 < section.nodes().len(),
    ensures
        r == crossing_of(section.nodes(), section.edges(), node1, node2),
{
    find_crossing(&section.graph, node1, node2)
}

impl Section {
    /// This function creates a new element to connect two nodes
    ///
    /// Where the segment between the two nodes meets an existing member,
    /// a node is placed at the meeting, the member is replaced by its two
    /// halves, which keep its thickness, and the request is served in two
    /// halves, each of which may meet further members. Returns the index
    /// of the member added last. A refused request leaves the section as
    /// it was.
    pub fn add_edge(&mut self, a: u32, b: u32, thickness: Option<i64>, elastic: Option<i64>) -> (r:
        Result<u32, SectionError>)
        requires
            old(self).wf(),
        ensures
            final(self).wf(),
            final(self).poisson() == old(self).poisson(),
            final(self).limits() == old(self).limits(),
            r == add_edge_result(
                old(self).nodes(),
                old(self).edges(),
                a,
                b,
                thickness.unwrap_or(DEFAULT_THICKNESS),
                elastic.unwrap_or(DEFAULT_ELASTIC),
                old(self).limits(),
            ),
            r.is_ok() ==> settle(
                old(self).nodes(),
                old(self).edges(),
                seq![
                    (Request {
                        a,
                        b,
                        thickness: thickness.unwrap_or(DEFAULT_THICKNESS),
                        elastic: elastic.unwrap_or(DEFAULT_ELASTIC),
                    }),
                ],
                0,
                old(self).limits(),
            ) == Some((final(self).nodes(), final(self).edges(), r.unwrap())),
            r.is_ok() ==> !final(self).results(),
            r.is_err() ==> final(self).nodes() == old(self).nodes(),
            r.is_err() ==> final(self).edges() == old(self).edges(),
            r.is_err() ==> final(self).results() == old(self).results(),
    {
        let n: usize = graph_node_count(&self.graph);
        if a as usize >= n || b as usize >= n {
            return Err(SectionError::NotFound);
        }
        let t: i64 = match thickness {
            Some(t) => t,
            None => DEFAULT_THICKNESS,
        };
        let e: i64 = match elastic {
            Some(e) => e,
            None => DEFAULT_ELASTIC,
        };
        if t <= 0 || t > THICKNESS_MAX {
            return Err(SectionError::OutOfRange);
        }
        let lim = self.limits;
        let ghost nodes0 = self.nodes();
        let ghost edges0 = self.edges();
        let ghost first = Request { a, b, thickness: t, elastic: e };
        let ghost goal = settle(nodes0, edges0, seq![first], 0, lim);
        let mut work = graph_clone(&self.graph);
        let mut pending: Vec<Request> = Vec::new();
        pending.push(Request { a, b, thickness: t, elastic: e });
        let mut last: u32 = 0;
        assert(pending@ =~= seq![Request { a, b, thickness: t, elastic: e }]);
        while pending.len() > 0
            invariant
                valid_graph(graph_nodes(work), graph_edges(work)),
                forall|i: int|
                    0 <= i < pending@.len() ==> valid_request(
                        #[trigger] pending@[i],
                        graph_nodes(work).len() as int,
                    ),
                goal == settle(graph_nodes(work), graph_edges(work), pending@, last, lim),
                first == (Request { a, b, thickness: t, elastic: e }),
                goal == settle(nodes0, edges0, seq![first], 0, lim),
                valid_graph(nodes0, edges0),
                a < nodes0.len(),
                b < nodes0.len(),
                0 < t <= THICKNESS_MAX,
                t == thickness.unwrap_or(DEFAULT_THICKNESS),
                e == elastic.unwrap_or(DEFAULT_ELASTIC),
                self.nodes() == nodes0,
                self.edges() == edges0,
                self.results() == old(self).results(),
                self.poisson() == old(self).poisson(),
                self.limits() == old(self).limits(),
                lim == self.limits(),
                lim.wf(),
            decreases lim.nodes - graph_nodes(work).len(), pending.len(),
        {
            let ghost nodes = graph_nodes(work);
            let ghost edges = graph_edges(work);
            let ghost before = pending@;
            let r = pending.pop().unwrap();
            assert(pending@ =~= before.drop_last());
            assert(valid_request(before[before.len() - 1], nodes.len() as int));
            match find_crossing(&work, r.a, r.b) {
                None => {
                    if graph_edge_count(&work) >= lim.members {
                        return Err(SectionError::CapacityExceeded);
                    }
                    last = graph_add_edge(&mut work, r.a, r.b, (r.thickness, r.elastic));
                },
                Some(m) => {
                    if graph_node_count(&work) >= lim.nodes {
                        return Err(SectionError::CapacityExceeded);
                    }
                    let node = graph_add_node(&mut work, (m.at.x, m.at.y));
                    let _gone = graph_remove_edge(&mut work, m.element);
                    let ghost rest = pending@;
                    pending.push(
                        Request { a: node, b: r.b, thickness: r.thickness, elastic: r.elastic },
                    );
                    pending.push(
                        Request { a: r.a, b: node, thickness: r.thickness, elastic: r.elastic },
                    );
                    let half_b = Request {
                        a: node,
                        b: m.b,
                        thickness: m.thickness,
                        elastic: DEFAULT_ELASTIC,
                    };
                    let half_a = Request {
                        a: node,
                        b: m.a,
                        thickness: m.thickness,
                        elastic: DEFAULT_ELASTIC,
                    };
                    pending.push(half_b);
                    pending.push(half_a);
                    proof {
                        assert(pending@ =~= rest + split_requests(r, m, node));
                        lemma_first_meeting(
                            nodes,
                            edges,
                            at(nodes[r.a as int]),
                            at(nodes[r.b as int]),
                            0,
                        );
                        assert(valid_edge(edges[m.element as int], nodes.len() as int));
                        assert(valid_edge(edges[edges.len() - 1], nodes.len() as int));
                    }
                },
            }
        }
        self.graph = work;
        self.results = false;
        Ok(last)
    }
}


/// A request whose segment meets no member becomes exactly one new
/// member between its two nodes, and `add_edge` returns its index.
pub proof fn lemma_add_edge_direct(
    nodes: Seq<NodeWeight>,
    edges: Seq<EdgeEntry>,
    a: u32,
    b: u32,
    thickness: i64,
    elastic: i64,
    lim: Limits,
)
    requires
        a < nodes.len(),
        b < nodes.len(),
        0 < thickness <= THICKNESS_MAX,
        edges.len() < lim.members,
        crossing_of(nodes, edges, a, b).is_none(),
    ensures
        settle(nodes, edges, seq![(Request { a, b, thickness, elastic })], 0, lim) == Some(
            (nodes, edges.push((a, b, (thickness, elastic))), edges.len() as u32),
        ),
        add_edge_result(nodes, edges, a, b, thickness, elastic, lim) == Ok::<u32, SectionError>(
            edges.len() as u32,
        ),
{
    let r = Request { a, b, thickness, elastic };
    let pending = seq![r];
    assert(pending.last() == r);
    assert(pending.drop_last() =~= Seq::<Request>::empty());
    let edges1 = edges.push((a, b, (thickness, elastic)));
    assert(settle(nodes, edges1, Seq::<Request>::empty(), edges.len() as u32, lim) == Some(
        (nodes, edges1, edges.len() as u32),
    ));
}

/// Serving a request that meets no member, on top of a stack of others.
proof fn lemma_settle_direct(
    nodes: Seq<NodeWeight>,
    edges: Seq<EdgeEntry>,
    rest: Seq<Request>,
    r: Request,
    last: u32,
    lim: Limits,
)
    requires
        edges.len() < lim.members,
        crossing_of(nodes, edges, r.a, r.b).is_none(),
    ensures
        settle(nodes, edges, rest.push(r), last, lim) == settle(
            nodes,
            edges.push((r.a, r.b, (r.thickness, r.elastic))),
            rest,
            edges.len() as u32,
            lim,
        ),
{
    assert(rest.push(r).last() == r);
    assert(rest.push(r).drop_last() =~= rest);
}

/// A request whose segment meets exactly one member splits that member:
/// afterwards the section holds a node at the meeting, the member is
/// replaced by its two halves, each with the member's thickness, and the
/// request is served by its own two halves.
///
/// The halves are taken to meet no member themselves. Because the node
/// is placed on the grid, a half can differ slightly from the segment it
/// came from and meet a member that the segment missed; such requests
/// are split further and are left out here.
pub proof fn lemma_add_edge_split(
    nodes: Seq<NodeWeight>,
    edges: Seq<EdgeEntry>,
    a: u32,
    b: u32,
    thickness: i64,
    elastic: i64,
    k: int,
    lim: Limits,
)
    requires
        a < nodes.len(),
        b < nodes.len(),
        0 < thickness <= THICKNESS_MAX,
        lim.wf(),
        nodes.len() < lim.nodes,
        edges.len() + 3 <= lim.members,
        0 <= k < edges.len(),
        forall|j: int|
            0 <= j < edges.len() ==> (meets(nodes, edges, at(nodes[a as int]), at(nodes[b as int]), j)
                <==> j == k),
        ({
            let p = meeting_point(
                at(nodes[a as int]),
                at(nodes[b as int]),
                at(nodes[edges[k].0 as int]),
                at(nodes[edges[k].1 as int]),
            );
            let n = nodes.len() as u32;
            let nodes1 = nodes.push((p.x, p.y));
            let e1 = swap_removed(edges, k);
            let e2 = e1.push((n, edges[k].0, (edges[k].2.0, DEFAULT_ELASTIC)));
            let e3 = e2.push((n, edges[k].1, (edges[k].2.0, DEFAULT_ELASTIC)));
            let e4 = e3.push((a, n, (thickness, elastic)));
            &&& crossing_of(nodes1, e1, n, edges[k].0).is_none()
            &&& crossing_of(nodes1, e2, n, edges[k].1).is_none()
            &&& crossing_of(nodes1, e3, a, n).is_none()
            &&& crossing_of(nodes1, e4, n, b).is_none()
        }),
    ensures
        ({
            let p = meeting_point(
                at(nodes[a as int]),
                at(nodes[b as int]),
                at(nodes[edges[k].0 as int]),
                at(nodes[edges[k].1 as int]),
            );
            let n = nodes.len() as u32;
            let half = (edges[k].2.0, DEFAULT_ELASTIC);
            settle(nodes, edges, seq![(Request { a, b, thickness, elastic })], 0, lim) == Some(
                (
                    nodes.push((p.x, p.y)),
                    swap_removed(edges, k).push((n, edges[k].0, half)).push((n, edges[k].1, half)).push(
                        (a, n, (thickness, elastic)),
                    ).push((n, b, (thickness, elastic))),
                    (edges.len() + 2) as u32,
                ),
            )
        }),
{
    let pa = at(nodes[a as int]);
    let pb = at(nodes[b as int]);
    let r = Request { a, b, thickness, elastic };
    lemma_first_meeting(nodes, edges, pa, pb, 0);
    let f = first_meeting(nodes, edges, pa, pb, 0);
    assert(f == k) by {
        if f < edges.len() {
            assert(meets(nodes, edges, pa, pb, f));
        } else {
            assert(!meets(nodes, edges, pa, pb, k));
        }
    }
    let m = crossing_of(nodes, edges, a, b).unwrap();
    let p = m.at;
    let n = nodes.len() as u32;
    let half = (edges[k].2.0, DEFAULT_ELASTIC);
    let nodes1 = nodes.push((p.x, p.y));
    let e1 = swap_removed(edges, k);
    let e2 = e1.push((n, edges[k].0, half));
    let e3 = e2.push((n, edges[k].1, half));
    let e4 = e3.push((a, n, (thickness, elastic)));
    let e5 = e4.push((n, b, (thickness, elastic)));
    let pending = seq![r];
    assert(pending.last() == r);
    assert(pending.drop_last() =~= Seq::<Request>::empty());
    let q = split_requests(r, m, n);
    assert(Seq::<Request>::empty() + q =~= q);
    assert(settle(nodes, edges, pending, 0, lim) == settle(nodes1, e1, q, 0, lim));
    let q3 = seq![q[0], q[1], q[2]];
    let q2 = seq![q[0], q[1]];
    let q1 = seq![q[0]];
    assert(q =~= q3.push(q[3]));
    assert(q3 =~= q2.push(q[2]));
    assert(q2 =~= q1.push(q[1]));
    assert(q1 =~= Seq::<Request>::empty().push(q[0]));
    assert(e1.len() == edges.len() - 1);
    lemma_settle_direct(nodes1, e1, q3, q[3], 0, lim);
    lemma_settle_direct(nodes1, e2, q2, q[2], e1.len() as u32, lim);
    lemma_settle_direct(nodes1, e3, q1, q[1], e2.len() as u32, lim);
    lemma_settle_direct(nodes1, e4, Seq::<Request>::empty(), q[0], e3.len() as u32, lim);
    assert(settle(nodes1, e5, Seq::<Request>::empty(), e4.len() as u32, lim) == Some(
        (nodes1, e5, e4.len() as u32),
    ));
}


/// The member that the edge `e` is at node `node`, seen from the node:
/// none if the edge is not attached to the node or has no length.
pub open spec fn member_at(nodes: Seq<NodeWeight>, e: EdgeEntry, node: u32) -> Option<Member> {
    if e.0 == node && at(nodes[e.1 as int]) != at(nodes[node as int]) {
        Some(Member { to: at(nodes[e.1 as int]), thickness: e.2.0 })
    } else if e.1 == node && at(nodes[e.0 as int]) != at(nodes[node as int]) {
        Some(Member { to: at(nodes[e.0 as int]), thickness: e.2.0 })
    } else {
        None
    }
}

/// The members at `node` among the first `k` edges, in the order of
/// their indices.
pub open spec fn members_upto(nodes: Seq<NodeWeight>, edges: Seq<EdgeEntry>, node: u32, k: int) -> Seq<
    Member,
>
    decreases k,
{
    if k <= 0 {
        Seq::empty()
    } else {
        match member_at(nodes, edges[k - 1], node) {
            Some(m) => members_upto(nodes, edges, node, k - 1).push(m),
            None => members_upto(nodes, edges, node, k - 1),
        }
    }
}

/// The members at `node`.
pub open spec fn members_of(nodes: Seq<NodeWeight>, edges: Seq<EdgeEntry>, node: u32) -> Seq<
    Member,
> {
    members_upto(nodes, edges, node, edges.len() as int)
}

/// The outline fragment of the joint at `node`: the ring of boundary
/// points around it. An empty ring stands for a joint without members.
/// Two members along one line with unequal thickness are refused.
pub open spec fn joint_outline(nodes: Seq<NodeWeight>, edges: Seq<EdgeEntry>, node: u32) -> Result<
    Seq<Point>,
    SectionError,
> {
    if node >= nodes.len() {
        Err(SectionError::NotFound)
    } else {
        let from = at(nodes[node as int]);
        let ms = members_of(nodes, edges, node);
        if conflict(from, ms) {
            Err(SectionError::ConfigInconsistency)
        } else {
            Ok(joint_ring(from, slots(from, sort_by_angle(from, ms)), nodes.len() < 3))
        }
    }
}

impl Section {
    /// Collects the members attached to `node` that have a length, in
    /// the order of their indices.
    pub fn members_at(&self, node: u32) -> (out: Vec<Member>)
        requires
            self.wf(),
            node < self.nodes().len(),
        ensures
            out@ == members_of(self.nodes(), self.edges(), node),
            valid_members(at(self.nodes()[node as int]), out@),
    {
        let ghost nodes = self.nodes();
        let ghost edges = self.edges();
        let w0 = graph_node_weight(&self.graph, node).unwrap();
        let from = Point { x: w0.0, y: w0.1 };
        assert(at(nodes[node as int]).within(NODE_MAX as int));
        let mut out: Vec<Member> = Vec::new();
        let m: usize = graph_edge_count(&self.graph);
        let mut k: usize = 0;
        while k < m
            invariant
                k <= m,
                m == edges.len(),
                nodes == self.nodes(),
                edges == self.edges(),
                self.wf(),
                node < nodes.len(),
                from == at(nodes[node as int]),
                from.within(NODE_MAX as int),
                out@ == members_upto(nodes, edges, node, k as int),
                valid_members(from, out@),
            decreases m - k,
        {
            assert(valid_edge(edges[k as int], nodes.len() as int));
            let ends = graph_edge_endpoints(&self.graph, k as u32).unwrap();
            let w = graph_edge_weight(&self.graph, k as u32).unwrap();
            assert(at(nodes[ends.0 as int]).within(NODE_MAX as int));
            assert(at(nodes[ends.1 as int]).within(NODE_MAX as int));
            if ends.0 == node {
                let far = graph_node_weight(&self.graph, ends.1).unwrap();
                let to = Point { x: far.0, y: far.1 };
                if to != from {
                    out.push(Member { to, thickness: w.0 });
                }
            } else if ends.1 == node {
                let far = graph_node_weight(&self.graph, ends.0).unwrap();
                let to = Point { x: far.0, y: far.1 };
                if to != from {
                    out.push(Member { to, thickness: w.0 });
                }
            }
            k = k + 1;
        }
        out
    }

    /// Generates the outline fragment of the joint at `node`.
    pub fn joint(&self, node: u32) -> (r: Result<Vec<Point>, SectionError>)
        requires
            self.wf(),
        ensures
            match r {
                Ok(ring) => joint_outline(self.nodes(), self.edges(), node) == Ok::<
                    Seq<Point>,
                    SectionError,
                >(ring@) && all_within(ring@),
                Err(e) => joint_outline(self.nodes(), self.edges(), node) == Err::<
                    Seq<Point>,
                    SectionError,
                >(e),
            },
    {
        let n: usize = graph_node_count(&self.graph);
        if node as usize >= n {
            return Err(SectionError::NotFound);
        }
        let w0 = graph_node_weight(&self.graph, node).unwrap();
        let from = Point { x: w0.0, y: w0.1 };
        let members = self.members_at(node);
        if has_conflict(from, &members) {
            return Err(SectionError::ConfigInconsistency);
        }
        let sorted = sort_members(from, &members);
        let slots = collapse_members(from, &sorted);
        Ok(ring_of_joint(from, &slots, n < 3))
    }
}


/// Where the member of edge `k` stands among the members of `node`.
proof fn lemma_member_listed(
    nodes: Seq<NodeWeight>,
    edges: Seq<EdgeEntry>,
    node: u32,
    k: int,
    n: int,
)
    requires
        0 <= k < n <= edges.len(),
        member_at(nodes, edges[k], node).is_some(),
    ensures
        members_upto(nodes, edges, node, k).len() < members_upto(nodes, edges, node, n).len(),
        members_upto(nodes, edges, node, n)[members_upto(nodes, edges, node, k).len() as int]
            == member_at(nodes, edges[k], node).unwrap(),
    decreases n - k,
{
    if n == k + 1 {
    } else {
        lemma_member_listed(nodes, edges, node, k, n - 1);
    }
}

/// Collinearity is refused: a joint at which two members leave along one
/// line with unequal thickness has no outline fragment, but the error
/// `ConfigInconsistency`.
pub proof fn lemma_collinear_mismatch_refused(
    nodes: Seq<NodeWeight>,
    edges: Seq<EdgeEntry>,
    node: u32,
    i: int,
    j: int,
)
    requires
        node < nodes.len(),
        0 <= i < j < edges.len(),
        member_at(nodes, edges[i], node).is_some(),
        member_at(nodes, edges[j], node).is_some(),
        collinear(
            at(nodes[node as int]),
            member_at(nodes, edges[i], node).unwrap(),
            member_at(nodes, edges[j], node).unwrap(),
        ),
        edges[i].2.0 != edges[j].2.0,
    ensures
        joint_outline(nodes, edges, node) == Err::<Seq<Point>, SectionError>(
            SectionError::ConfigInconsistency,
        ),
{
    let n = edges.len() as int;
    let ms = members_of(nodes, edges, node);
    let pi = members_upto(nodes, edges, node, i).len() as int;
    let pj = members_upto(nodes, edges, node, j).len() as int;
    lemma_member_listed(nodes, edges, node, i, n);
    lemma_member_listed(nodes, edges, node, j, n);
    lemma_member_listed(nodes, edges, node, i, j);
    assert(pi < pj);
    lemma_conflict(at(nodes[node as int]), ms, pi, pj);
}

/// A section of one member between two nodes: at either node the outline
/// fragment is the rectangle around the member, four corners that lie
/// half a thickness beside the member and beyond its ends.
pub proof fn lemma_single_member_rectangle(a: NodeWeight, b: NodeWeight, w: (i64, i64))
    requires
        at(a) != at(b),
    ensures
        joint_outline(seq![a, b], seq![(0u32, 1u32, w)], 0) == Ok::<Seq<Point>, SectionError>(
            cap(at(a), (Member { to: at(b), thickness: w.0 }), true),
        ),
        joint_outline(seq![a, b], seq![(0u32, 1u32, w)], 1) == Ok::<Seq<Point>, SectionError>(
            cap(at(b), (Member { to: at(a), thickness: w.0 }), true),
        ),
        cap(at(a), (Member { to: at(b), thickness: w.0 }), true).len() == 4,
{
    let nodes = seq![a, b];
    let edges = seq![(0u32, 1u32, w)];
    let ma = Member { to: at(b), thickness: w.0 };
    let mb = Member { to: at(a), thickness: w.0 };
    assert(nodes[0] == a && nodes[1] == b);
    assert(edges[0] == (0u32, 1u32, w));
    assert(members_upto(nodes, edges, 0, 0) =~= Seq::<Member>::empty());
    assert(members_upto(nodes, edges, 1, 0) =~= Seq::<Member>::empty());
    assert(member_at(nodes, edges[0], 0) == Some(ma));
    assert(member_at(nodes, edges[0], 1) == Some(mb));
    assert(members_of(nodes, edges, 0) =~= seq![ma]);
    assert(members_of(nodes, edges, 1) =~= seq![mb]);
    lemma_lone_slots(at(a), ma);
    lemma_lone_slots(at(b), mb);
}

/// A single member is its own sorted list of slots and is in conflict
/// with nothing.
proof fn lemma_lone_slots(from: Point, m: Member)
    ensures
        slots(from, sort_by_angle(from, seq![m])) == seq![m],
        !conflict(from, seq![m]),
{
    let s = seq![m];
    assert(s.drop_last() =~= Seq::<Member>::empty());
    assert(s.last() == m);
    assert(sort_by_angle(from, s.drop_last()) =~= Seq::<Member>::empty());
    assert(sort_by_angle(from, s) =~= seq![m]);
    assert(slots(from, s.drop_last()) =~= Seq::<Member>::empty());
    assert(slots(from, s) =~= seq![m]);
}

} // verus!
