use section_outline::geometry::{is_too_close, point2line, segment_meet, Point, NODE_MAX};
use section_outline::section::{
    intersects, near, Element, Limits, Node, Section, SectionError, DEFAULT_ELASTIC,
    DEFAULT_THICKNESS, INDEX_MAX, UNIT,
};

fn u(x: i64) -> i64 {
    x * UNIT
}

#[test]
fn new_section_is_empty() {
    let s = Section::new(300_000);
    assert_eq!(s.node_count(), 0);
    assert_eq!(s.element_count(), 0);
    assert_eq!(s.poisson_ratio(), 300_000);
    assert!(!s.results_valid());
}

#[test]
fn add_node_returns_fresh_indices() {
    let mut s = Section::new(300_000);
    assert_eq!(s.add_node(u(-9), u(9)), Ok(0));
    assert_eq!(s.add_node(0, u(9)), Ok(1));
    assert_eq!(s.node(1), Some(Node { x: 0, y: u(9) }));
    assert_eq!(s.node(2), None);
}

#[test]
fn add_edge_without_crossing_connects_a_and_b() {
    let mut s = Section::new(300_000);
    let a = s.add_node(u(-9), u(9)).unwrap();
    let b = s.add_node(0, u(9)).unwrap();
    let ab = s.add_edge(a, b, None, None).unwrap();
    assert_eq!(ab, 0);
    assert_eq!(s.element_count(), 1);
    assert_eq!(
        s.element(ab),
        Some(Element { a, b, thickness: DEFAULT_THICKNESS, elastic: DEFAULT_ELASTIC })
    );
    assert_eq!(DEFAULT_THICKNESS, 2 * UNIT);
    assert_eq!(DEFAULT_ELASTIC, 29000);
}

#[test]
fn add_edge_keeps_given_thickness_and_elastic() {
    let mut s = Section::new(300_000);
    let a = s.add_node(0, 0).unwrap();
    let b = s.add_node(u(5), 0).unwrap();
    let ab = s.add_edge(a, b, Some(90_000), Some(10_000)).unwrap();
    assert_eq!(s.element(ab), Some(Element { a, b, thickness: 90_000, elastic: 10_000 }));
}

#[test]
fn add_edge_unknown_node_is_not_found() {
    let mut s = Section::new(300_000);
    let a = s.add_node(0, 0).unwrap();
    assert_eq!(s.add_edge(a, 7, None, None), Err(SectionError::NotFound));
    assert_eq!(s.add_edge(7, a, None, None), Err(SectionError::NotFound));
    assert_eq!(s.element_count(), 0);
}

#[test]
fn add_edge_bad_thickness_is_out_of_range() {
    let mut s = Section::new(300_000);
    let a = s.add_node(0, 0).unwrap();
    let b = s.add_node(u(5), 0).unwrap();
    assert_eq!(s.add_edge(a, b, Some(0), None), Err(SectionError::OutOfRange));
    assert_eq!(s.add_edge(a, b, Some(-5), None), Err(SectionError::OutOfRange));
    assert_eq!(s.add_edge(a, b, Some(i64::MAX), None), Err(SectionError::OutOfRange));
    assert_eq!(s.element_count(), 0);
}

#[test]
fn add_edge_across_a_member_splits_it() {
    let mut s = Section::new(300_000);
    let a = s.add_node(u(-4), 0).unwrap();
    let b = s.add_node(u(4), 0).unwrap();
    let c = s.add_node(0, u(-6)).unwrap();
    let d = s.add_node(0, u(6)).unwrap();
    let cd = s.add_edge(c, d, Some(500_000), Some(1_000)).unwrap();
    assert_eq!(cd, 0);
    let id = s.add_edge(a, b, Some(300_000), Some(2_000)).unwrap();
    // a node at the meeting
    assert_eq!(s.node_count(), 5);
    let n = 4;
    assert_eq!(s.node(n), Some(Node { x: 0, y: 0 }));
    // the member c-d is replaced by its halves, which keep its thickness
    assert_eq!(s.element_count(), 4);
    assert_eq!(
        s.element(0),
        Some(Element { a: n, b: c, thickness: 500_000, elastic: DEFAULT_ELASTIC })
    );
    assert_eq!(
        s.element(1),
        Some(Element { a: n, b: d, thickness: 500_000, elastic: DEFAULT_ELASTIC })
    );
    // the request is served in two halves
    assert_eq!(s.element(2), Some(Element { a, b: n, thickness: 300_000, elastic: 2_000 }));
    assert_eq!(s.element(3), Some(Element { a: n, b, thickness: 300_000, elastic: 2_000 }));
    assert_eq!(id, 3);
}

#[test]
fn add_edge_across_two_members_splits_both() {
    let mut s = Section::new(300_000);
    let a = s.add_node(u(-4), 0).unwrap();
    let b = s.add_node(u(8), 0).unwrap();
    let c = s.add_node(0, u(-6)).unwrap();
    let d = s.add_node(0, u(6)).unwrap();
    let e = s.add_node(u(4), u(-6)).unwrap();
    let f = s.add_node(u(4), u(6)).unwrap();
    s.add_edge(c, d, None, None).unwrap();
    s.add_edge(e, f, None, None).unwrap();
    s.add_edge(a, b, None, None).unwrap();
    assert_eq!(s.node_count(), 8);
    assert_eq!(s.element_count(), 7);
    assert_eq!(s.node(6), Some(Node { x: 0, y: 0 }));
    assert_eq!(s.node(7), Some(Node { x: u(4), y: 0 }));
}

#[test]
fn shared_joint_is_no_crossing() {
    let mut s = Section::new(300_000);
    let a = s.add_node(0, 0).unwrap();
    let b = s.add_node(u(5), 0).unwrap();
    let c = s.add_node(u(5), u(5)).unwrap();
    s.add_edge(a, b, None, None).unwrap();
    assert_eq!(intersects(&s, b, c), None);
    assert_eq!(s.add_edge(b, c, None, None), Ok(1));
    assert_eq!(s.node_count(), 3);
}

#[test]
fn intersects_reports_first_member_met() {
    let mut s = Section::new(300_000);
    let a = s.add_node(u(-4), 0).unwrap();
    let b = s.add_node(u(4), 0).unwrap();
    let c = s.add_node(u(2), u(-6)).unwrap();
    let d = s.add_node(u(2), u(6)).unwrap();
    s.add_edge(c, d, Some(70_000), None).unwrap();
    let m = intersects(&s, a, b).unwrap();
    assert_eq!(m.element, 0);
    assert_eq!(m.thickness, 70_000);
    assert_eq!((m.a, m.b), (c, d));
    assert_eq!(m.at, Point { x: u(2), y: 0 });
}

#[test]
fn add_node_near_member_is_constraint_violation() {
    let mut s = Section::new(300_000);
    let a = s.add_node(0, 0).unwrap();
    let b = s.add_node(u(10), 0).unwrap();
    s.add_edge(a, b, Some(u(1)), None).unwrap();
    // closer than twice the thickness to the member's line
    assert_eq!(s.add_node(u(5), u(2) - 1), Err(SectionError::ConstraintViolation));
    assert_eq!(s.add_node(u(5), -u(2) + 1), Err(SectionError::ConstraintViolation));
    // the line, not the segment, counts
    assert_eq!(s.add_node(u(50), u(1)), Err(SectionError::ConstraintViolation));
    assert_eq!(s.node_count(), 2);
    assert_eq!(s.element_count(), 1);
    assert_eq!(s.node(0), Some(Node { x: 0, y: 0 }));
    assert_eq!(s.node(1), Some(Node { x: u(10), y: 0 }));
    // exactly twice the thickness away is far enough
    assert_eq!(s.add_node(u(5), u(2)), Ok(2));
}

#[test]
fn near_agrees_with_add_node() {
    let mut s = Section::new(300_000);
    let a = s.add_node(0, 0).unwrap();
    let b = s.add_node(u(3), u(4)).unwrap();
    s.add_edge(a, b, Some(u(1)), None).unwrap();
    assert!(near(&s, u(3), u(4)));
    assert!(near(&s, u(1), u(3)));
    // (-4, 3) lies five units from the line through (0,0) and (3,4)
    assert!(!near(&s, u(-4), u(3)));
}

#[test]
fn point2line_is_squared_distance() {
    let (num, den) = point2line(Point { x: 0, y: 0 }, Point { x: 3, y: 4 }, Point { x: -4, y: 3 });
    assert_eq!(den, 25);
    assert_eq!(num, 25 * 25);
    assert!(!is_too_close(Point { x: 0, y: 0 }, Point { x: 3, y: 4 }, Point { x: -4, y: 3 }, 2));
    assert!(is_too_close(Point { x: 0, y: 0 }, Point { x: 3, y: 4 }, Point { x: -4, y: 3 }, 3));
    // a member without length is close to nothing
    assert!(!is_too_close(Point { x: 1, y: 1 }, Point { x: 1, y: 1 }, Point { x: 1, y: 1 }, 3));
}

#[test]
fn segment_meet_counts_touching_inside() {
    // a segment that ends on the inside of the member meets it
    let r = segment_meet(
        Point { x: 0, y: 0 },
        Point { x: 5, y: 0 },
        Point { x: 5, y: -5 },
        Point { x: 5, y: 5 },
    );
    assert_eq!(r, Some(Point { x: 5, y: 0 }));
    // a shared end does not
    let r = segment_meet(
        Point { x: 0, y: 0 },
        Point { x: 5, y: 0 },
        Point { x: 5, y: 0 },
        Point { x: 5, y: 5 },
    );
    assert_eq!(r, None);
    // parallel segments do not
    let r = segment_meet(
        Point { x: 0, y: 0 },
        Point { x: 5, y: 0 },
        Point { x: 0, y: 1 },
        Point { x: 5, y: 1 },
    );
    assert_eq!(r, None);
}

#[test]
fn ranges_are_what_the_arithmetic_allows() {
    assert_eq!(section_outline::geometry::COORD_MAX, 1 << 30);
    assert_eq!(NODE_MAX, 1 << 29);
    assert_eq!(section_outline::geometry::THICKNESS_MAX, 1 << 27);
    // members as far apart and as thick as allowed
    let mut s = Section::new(300_000);
    let a = s.add_node(-NODE_MAX, -NODE_MAX).unwrap();
    let b = s.add_node(NODE_MAX, NODE_MAX).unwrap();
    let c = s.add_node(-NODE_MAX, NODE_MAX).unwrap();
    let d = s.add_node(NODE_MAX, -NODE_MAX).unwrap();
    s.add_edge(a, b, Some(1 << 27), None).unwrap();
    s.add_edge(c, d, Some(1 << 27), None).unwrap();
    assert_eq!(s.node(4), Some(Node { x: 0, y: 0 }));
    assert_eq!(s.element_count(), 4);
    assert_eq!(s.add_node(1, 0), Err(SectionError::ConstraintViolation));
    let out = s.build().unwrap();
    assert!(!out.rings.is_empty());
}

#[test]
fn add_node_out_of_range() {
    let mut s = Section::new(300_000);
    assert_eq!(s.add_node(NODE_MAX + 1, 0), Err(SectionError::OutOfRange));
    assert_eq!(s.add_node(0, -NODE_MAX - 1), Err(SectionError::OutOfRange));
    assert_eq!(s.add_node(NODE_MAX, -NODE_MAX), Ok(0));
}

#[test]
fn add_node_full_section() {
    let mut s = Section::with_limits(300_000, 1000, 10);
    assert_eq!(s.capacity(), Limits { nodes: 1000, members: 10 });
    for i in 0..1000 {
        assert_eq!(s.add_node(i as i64, 0), Ok(i as u32));
    }
    assert_eq!(s.add_node(0, 1), Err(SectionError::CapacityExceeded));
    assert_eq!(s.node_count(), 1000);
}

#[test]
fn limits_default_to_what_the_graph_can_index() {
    let s = Section::new(300_000);
    assert_eq!(INDEX_MAX, u32::MAX as usize);
    assert_eq!(s.capacity(), Limits { nodes: INDEX_MAX, members: INDEX_MAX });
    let s = Section::with_limits(300_000, usize::MAX, 7);
    assert_eq!(s.capacity(), Limits { nodes: INDEX_MAX, members: 7 });
}

#[test]
fn add_edge_in_a_full_section_changes_nothing() {
    // room for two members only
    let mut s = Section::with_limits(300_000, 100, 2);
    let a = s.add_node(u(-4), 0).unwrap();
    let b = s.add_node(u(4), 0).unwrap();
    let c = s.add_node(0, u(-6)).unwrap();
    let d = s.add_node(0, u(6)).unwrap();
    s.add_edge(c, d, Some(u(1)), None).unwrap();
    // the split would leave four members
    assert_eq!(s.add_edge(a, b, Some(u(1)), None), Err(SectionError::CapacityExceeded));
    assert_eq!(s.node_count(), 4);
    assert_eq!(s.element_count(), 1);
    assert_eq!(s.element(0).unwrap().a, c);
    // no room for the node of a split
    let mut s = Section::with_limits(300_000, 4, 100);
    let a = s.add_node(u(-4), 0).unwrap();
    let b = s.add_node(u(4), 0).unwrap();
    let c = s.add_node(0, u(-6)).unwrap();
    let d = s.add_node(0, u(6)).unwrap();
    s.add_edge(c, d, Some(u(1)), None).unwrap();
    assert_eq!(s.add_edge(a, b, Some(u(1)), None), Err(SectionError::CapacityExceeded));
    assert_eq!((s.node_count(), s.element_count()), (4, 1));
}

#[test]
fn move_node_overwrites_position() {
    let mut s = Section::new(300_000);
    let a = s.add_node(0, 0).unwrap();
    assert_eq!(s.move_node(a, u(3), u(-2)), Ok(()));
    assert_eq!(s.node(a), Some(Node { x: u(3), y: u(-2) }));
    assert_eq!(s.move_node(5, 0, 0), Err(SectionError::NotFound));
    assert_eq!(s.move_node(a, NODE_MAX + 1, 0), Err(SectionError::OutOfRange));
    assert_eq!(s.node(a), Some(Node { x: u(3), y: u(-2) }));
}

#[test]
fn delete_member_moves_last_member_in() {
    let mut s = Section::new(300_000);
    let a = s.add_node(0, 0).unwrap();
    let b = s.add_node(u(5), 0).unwrap();
    let c = s.add_node(u(5), u(5)).unwrap();
    let ab = s.add_edge(a, b, Some(1000), None).unwrap();
    s.add_edge(b, c, Some(2000), None).unwrap();
    s.add_edge(c, a, Some(3000), None).unwrap();
    assert_eq!(s.delete_member(ab), Ok(()));
    assert_eq!(s.element_count(), 2);
    assert_eq!(s.element(0), Some(Element { a: c, b: a, thickness: 3000, elastic: DEFAULT_ELASTIC }));
    assert_eq!(s.element(1), Some(Element { a: b, b: c, thickness: 2000, elastic: DEFAULT_ELASTIC }));
    assert_eq!(s.delete_member(2), Err(SectionError::NotFound));
    assert_eq!(s.element_count(), 2);
}

#[test]
fn delete_node_cascades_to_members() {
    let mut s = Section::new(300_000);
    let a = s.add_node(0, 0).unwrap();
    let b = s.add_node(u(5), 0).unwrap();
    let c = s.add_node(u(5), u(5)).unwrap();
    let d = s.add_node(0, u(5)).unwrap();
    s.add_edge(a, b, Some(1000), None).unwrap();
    s.add_edge(b, c, Some(2000), None).unwrap();
    s.add_edge(c, d, Some(3000), None).unwrap();
    s.add_edge(d, a, Some(4000), None).unwrap();
    assert_eq!(s.delete_node(b), Ok(()));
    // node d took the index of b
    assert_eq!(s.node_count(), 3);
    assert_eq!(s.node(b), Some(Node { x: 0, y: u(5) }));
    // the members at b are gone, the others name d by its new index
    assert_eq!(s.element_count(), 2);
    let mut left = vec![s.element(0).unwrap(), s.element(1).unwrap()];
    left.sort_by_key(|e| e.thickness);
    assert_eq!(left[0], Element { a: c, b, thickness: 3000, elastic: DEFAULT_ELASTIC });
    assert_eq!(left[1], Element { a: b, b: a, thickness: 4000, elastic: DEFAULT_ELASTIC });
    assert_eq!(s.delete_node(3), Err(SectionError::NotFound));
    assert_eq!(s.node_count(), 3);
}

#[test]
fn move_node_does_not_check_the_distance_rule() {
    let mut s = Section::new(300_000);
    let a = s.add_node(0, 0).unwrap();
    let b = s.add_node(u(10), 0).unwrap();
    let c = s.add_node(u(5), u(8)).unwrap();
    s.add_edge(a, b, Some(u(1)), None).unwrap();
    assert_eq!(s.add_node(u(5), u(1)), Err(SectionError::ConstraintViolation));
    assert_eq!(s.move_node(c, u(5), u(1)), Ok(()));
    assert_eq!(s.node(c), Some(Node { x: u(5), y: u(1) }));
}

#[test]
fn mutations_clear_the_results_flag() {
    let mut s = Section::new(300_000);
    let a = s.add_node(0, 0).unwrap();
    let b = s.add_node(u(10), 0).unwrap();
    let ab = s.add_edge(a, b, Some(u(1)), None).unwrap();
    s.build().unwrap();
    assert!(s.results_valid());
    // a refused operation leaves the flag alone
    assert_eq!(s.move_node(9, 0, 0), Err(SectionError::NotFound));
    assert!(s.results_valid());
    s.move_node(b, u(12), 0).unwrap();
    assert!(!s.results_valid());
    s.build().unwrap();
    s.delete_member(ab).unwrap();
    assert!(!s.results_valid());
    s.build().unwrap();
    s.delete_node(a).unwrap();
    assert!(!s.results_valid());
}

#[test]
fn joint_without_members_has_no_ring() {
    let mut s = Section::new(300_000);
    let a = s.add_node(0, 0).unwrap();
    let b = s.add_node(u(10), 0).unwrap();
    let lonely = s.add_node(u(50), u(50)).unwrap();
    s.add_edge(a, b, Some(u(1)), None).unwrap();
    assert_eq!(s.joint(lonely), Ok(vec![]));
    assert_eq!(s.members_at(lonely), vec![]);
    assert_eq!(s.joints().unwrap().len(), 2);
    // a member without length counts for nothing
    s.add_edge(lonely, lonely, Some(u(1)), None).unwrap();
    assert_eq!(s.joint(lonely), Ok(vec![]));
}
