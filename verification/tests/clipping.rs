use section_outline::clipping::{clip_rings, ring_fits, too_large, CPolygon, Vertex};
use section_outline::geometry::COORD_MAX;
use section_outline::geometry::{intersect, Point, Ratio};

fn pts(v: &[(i64, i64)]) -> Vec<Point> {
    v.iter().map(|&(x, y)| Point { x, y }).collect()
}

fn square(x0: i64, y0: i64, side: i64) -> Vec<Point> {
    pts(&[(x0, y0), (x0 + side, y0), (x0 + side, y0 + side), (x0, y0 + side)])
}

#[test]
fn intersect_crossing_diagonals() {
    let r = intersect(
        Point { x: 0, y: 0 },
        Point { x: 10, y: 10 },
        Point { x: 0, y: 10 },
        Point { x: 10, y: 0 },
    );
    let (p, a, b) = r.unwrap();
    assert_eq!(p, Point { x: 5, y: 5 });
    assert_eq!(a.num * 2, a.den);
    assert_eq!(b.num * 2, b.den);
}

#[test]
fn intersect_parallel_is_none() {
    let r = intersect(
        Point { x: 0, y: 0 },
        Point { x: 10, y: 0 },
        Point { x: 0, y: 5 },
        Point { x: 10, y: 5 },
    );
    assert!(r.is_none());
}

#[test]
fn intersect_touching_end_is_none() {
    let r = intersect(
        Point { x: 0, y: 0 },
        Point { x: 10, y: 0 },
        Point { x: 5, y: 0 },
        Point { x: 5, y: 10 },
    );
    assert!(r.is_none());
}

#[test]
fn intersect_rounds_to_nearest() {
    // the lines meet at (1/3, 1/3)
    let r = intersect(
        Point { x: 0, y: 0 },
        Point { x: 1, y: 1 },
        Point { x: 0, y: 1 },
        Point { x: 1, y: -1 },
    );
    let (p, a, b) = r.unwrap();
    assert_eq!(p, Point { x: 0, y: 0 });
    assert_eq!(a.num * 3, a.den);
    assert_eq!(b.num * 3, b.den);
    // the lines meet at (1/2, 1/2): halves round up
    let r = intersect(
        Point { x: 0, y: 0 },
        Point { x: 1, y: 1 },
        Point { x: 0, y: 1 },
        Point { x: 2, y: -1 },
    );
    assert_eq!(r.unwrap().0, Point { x: 1, y: 1 });
    // the lines meet at (-1/2, -1/2): halves round up on the negative side too
    let r = intersect(
        Point { x: 0, y: 0 },
        Point { x: -1, y: -1 },
        Point { x: 0, y: -1 },
        Point { x: -2, y: 1 },
    );
    assert_eq!(r.unwrap().0, Point { x: 0, y: 0 });
}

#[test]
fn ratio_order() {
    let a = Ratio { num: 1, den: 3 };
    let b = Ratio { num: 1, den: 2 };
    assert!(a.less_than(&b));
    assert!(!b.less_than(&a));
    assert!(!a.less_than(&a));
}

#[test]
fn points_collapse_repeats() {
    let p = CPolygon::from_vec(&pts(&[(0, 0), (0, 0), (4, 0), (4, 4), (4, 4), (0, 0)]));
    assert_eq!(p.points(), pts(&[(0, 0), (4, 0), (4, 4)]));
}

#[test]
fn points_collapse_a_repeated_last_point() {
    let p = CPolygon::from_vec(&pts(&[(0, 0), (1, 0), (1, 0)]));
    assert_eq!(p.points(), pts(&[(0, 0), (1, 0)]));
    // the ring is closed: a run at the end that repeats the first point goes as well
    let p = CPolygon::from_vec(&pts(&[(0, 0), (1, 0), (0, 0), (0, 0)]));
    assert_eq!(p.points(), pts(&[(0, 0), (1, 0)]));
    let p = CPolygon::from_vec(&pts(&[(0, 0), (1, 0), (2, 0), (0, 0)]));
    assert_eq!(p.points(), pts(&[(0, 0), (1, 0), (2, 0)]));
    // a single point stays
    let p = CPolygon::from_vec(&pts(&[(3, 3), (3, 3), (3, 3)]));
    assert_eq!(p.points(), pts(&[(3, 3)]));
    assert_eq!(p.raw_points().len(), 3);
}

#[test]
fn union_overlapping_squares() {
    let mut a = CPolygon::from_vec(&square(0, 0, 10));
    let mut b = CPolygon::from_vec(&square(5, 5, 10));
    let rings = a.union(&mut b);
    assert_eq!(rings.len(), 1);
    assert_eq!(
        rings[0],
        pts(&[(10, 5), (10, 0), (0, 0), (0, 10), (5, 10), (5, 15), (15, 15), (15, 5)])
    );
}

#[test]
fn intersection_overlapping_squares() {
    let mut a = CPolygon::from_vec(&square(0, 0, 10));
    let mut b = CPolygon::from_vec(&square(5, 5, 10));
    let rings = a.intersection(&mut b);
    assert_eq!(rings.len(), 1);
    assert_eq!(rings[0], pts(&[(10, 5), (10, 10), (5, 10), (5, 5)]));
}

#[test]
fn difference_overlapping_squares() {
    let mut a = CPolygon::from_vec(&square(0, 0, 10));
    let mut b = CPolygon::from_vec(&square(5, 5, 10));
    let rings = a.difference(&mut b);
    assert_eq!(rings.len(), 1);
    assert_eq!(
        rings[0],
        pts(&[(10, 5), (10, 0), (0, 0), (0, 10), (5, 10), (5, 5)])
    );
}

#[test]
fn union_without_crossing_returns_subject() {
    let mut a = CPolygon::from_vec(&square(0, 0, 10));
    let mut b = CPolygon::from_vec(&square(100, 100, 10));
    let rings = a.union(&mut b);
    assert_eq!(rings, vec![square(0, 0, 10)]);
}

#[test]
fn union_with_itself_is_idempotent() {
    let mut a = CPolygon::from_vec(&square(0, 0, 10));
    let mut b = CPolygon::from_vec(&square(0, 0, 10));
    let rings = a.union(&mut b);
    assert_eq!(rings, vec![square(0, 0, 10)]);
}

#[test]
fn union_with_empty_accumulator() {
    let mut a = CPolygon::from_vec(&square(0, 0, 10));
    let mut b = CPolygon::new();
    let rings = a.union(&mut b);
    assert_eq!(rings, vec![square(0, 0, 10)]);
}

#[test]
fn vertex_clone_drops_link() {
    let mut v = Vertex::new(Point { x: 1, y: 2 }, Ratio { num: 0, den: 1 }, true, false, false);
    v.neighbour = Some(3);
    let w = Vertex::clone(&v);
    assert_eq!(w.neighbour, None);
    assert_eq!(w.pt, Point { x: 1, y: 2 });
    assert!(w.inter);
}

#[test]
fn ring_fits_within_the_coordinate_bound() {
    assert!(ring_fits(&square(-COORD_MAX, -COORD_MAX, 2 * COORD_MAX)));
    assert!(!ring_fits(&square(0, 0, COORD_MAX + 1)));
    assert!(ring_fits(&vec![]));
}

#[test]
fn too_large_counts_edge_pairs() {
    assert!(!too_large(4, 4));
    assert!(!too_large(0, usize::MAX - 1));
    assert!(too_large(1, usize::MAX - 1));
    assert!(too_large(usize::MAX, 0));
}

#[test]
fn clip_rings_checks_its_rings() {
    let a = square(0, 0, 10);
    let b = square(5, 5, 10);
    let union = clip_rings(&a, &b, false, false).unwrap();
    assert_eq!(union.len(), 1);
    assert_eq!(union[0].len(), 8);
    let common = clip_rings(&a, &b, true, true).unwrap();
    assert_eq!(common, vec![pts(&[(10, 5), (10, 10), (5, 10), (5, 5)])]);
    let far = square(COORD_MAX, 0, 10);
    assert_eq!(clip_rings(&a, &far, false, false), None);
    assert_eq!(clip_rings(&far, &a, false, false), None);
}
