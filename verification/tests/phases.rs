use section_outline::labelling::{probe_from, random_probe, PROBE_SPREAD};
use section_outline::polygon::{CPolyIter, CPolygon, Vertex};
use section_outline::geometry::{Point, Ratio, COORD_MAX};

fn p(x: i64, y: i64) -> Point {
    Point { x, y }
}

fn square(x0: i64, y0: i64, side: i64) -> Vec<Point> {
    vec![p(x0, y0), p(x0 + side, y0), p(x0 + side, y0 + side), p(x0, y0 + side)]
}

fn probe() -> Point {
    p(-COORD_MAX - 17, -COORD_MAX - 5)
}

fn order(poly: &CPolygon) -> Vec<usize> {
    let mut it = CPolyIter::new(poly);
    let mut out = vec![];
    while let Some(i) = it.next(poly) {
        out.push(i);
    }
    out
}

/// The same ring, whatever its first point and its direction.
fn canonical(ring: &[Point]) -> Vec<Point> {
    let n = ring.len();
    let mut best: Option<Vec<Point>> = None;
    for dir in 0..2 {
        for start in 0..n {
            let cand: Vec<Point> = (0..n)
                .map(|k| {
                    if dir == 0 {
                        ring[(start + k) % n]
                    } else {
                        ring[(start + n - k) % n]
                    }
                })
                .collect();
            let key = |v: &Vec<Point>| v.iter().map(|q| (q.x, q.y)).collect::<Vec<_>>();
            if best.as_ref().map_or(true, |b| key(&cand) < key(b)) {
                best = Some(cand);
            }
        }
    }
    best.unwrap_or_default()
}

#[test]
fn probes_lie_beyond_every_vertex() {
    assert_eq!(probe_from(0, 0), p(-COORD_MAX - 1, -COORD_MAX - 1));
    assert_eq!(probe_from(199, 1234), p(-COORD_MAX - 200, -COORD_MAX - 1235));
    assert_eq!(PROBE_SPREAD as i64, COORD_MAX);
    assert_eq!(probe_from(PROBE_SPREAD, 2 * PROBE_SPREAD + 7), p(-COORD_MAX - 1, -COORD_MAX - 8));
    let mut seen = std::collections::HashSet::new();
    for _ in 0..50 {
        let q = random_probe();
        assert!(-2 * COORD_MAX <= q.x && q.x <= -COORD_MAX - 1);
        assert!(-2 * COORD_MAX <= q.y && q.y <= -COORD_MAX - 1);
        seen.insert((q.x, q.y));
    }
    // the probes are jittered
    assert!(seen.len() > 1);
}

#[test]
fn new_polygon_is_empty() {
    let poly = CPolygon::new();
    assert_eq!(poly.len(), 0);
    assert_eq!(order(&poly), Vec::<usize>::new());
    assert_eq!(poly.points(), vec![]);
    assert_eq!(poly.raw_points(), vec![]);
    assert!(!poly.unprocessed());
    assert_eq!(poly.first_intersect(), None);
}

#[test]
fn first_intersect_without_an_open_crossing_is_the_last_vertex() {
    let mut s = CPolygon::from_vec(&square(0, 0, 10));
    assert_eq!(s.first_intersect(), Some(3));
    let mut c = CPolygon::from_vec(&square(5, 5, 10));
    s.phase_one(&mut c);
    // ring order of the subject: 0, 1, crossing 4, 2, crossing 5, 3
    assert_eq!(s.first_intersect(), Some(4));
    s.set_checked(&mut c, 4);
    s.set_checked(&mut c, 5);
    assert!(!s.unprocessed());
    assert_eq!(s.first_intersect(), Some(3));
    assert_eq!(c.first_intersect(), Some(5));
}

#[test]
fn phase_three_leaves_every_crossing_used() {
    let mut s = CPolygon::from_vec(&square(0, 0, 10));
    let mut c = CPolygon::from_vec(&square(5, 5, 10));
    s.phase_one(&mut c);
    s.phase_two_with(&mut c, false, false, probe(), probe());
    let before_s = s.raw_points();
    let before_c = c.raw_points();
    let rings = s.phase_three(&mut c);
    assert!(!s.unprocessed());
    assert!(!c.unprocessed());
    assert_eq!(s.raw_points(), before_s);
    assert_eq!(c.raw_points(), before_c);
    for i in 0..4 {
        assert!(!s.vertex(i).checked && !c.vertex(i).checked);
    }
    // no ring repeats a point, the last and the first counting as neighbours
    for r in rings.iter() {
        for k in 0..r.len() {
            assert_ne!(r[k], r[(k + 1) % r.len()]);
        }
    }
}

#[test]
fn add_appends_in_circular_order() {
    let mut poly = CPolygon::new();
    for (k, q) in square(0, 0, 4).iter().enumerate() {
        poly.add(Vertex::new(*q, Ratio::zero(), false, true, false));
        assert_eq!(poly.len(), k + 1);
    }
    assert_eq!(order(&poly), vec![0, 1, 2, 3]);
    assert_eq!(poly.raw_points(), square(0, 0, 4));
    assert_eq!(poly.vertex(2).pt, p(4, 4));
}

#[test]
fn insert_sorts_by_parameter() {
    let mut poly = CPolygon::from_vec(&square(0, 0, 12));
    let at = |num: i128, x: i64| Vertex::new(p(x, 0), Ratio { num, den: 12 }, true, false, false);
    poly.insert(at(6, 6), 0, 1);
    poly.insert(at(3, 3), 0, 1);
    poly.insert(at(9, 9), 0, 1);
    // a record at an equal parameter goes in front of the one already there
    poly.insert(at(6, 6), 0, 1);
    assert_eq!(order(&poly), vec![0, 5, 7, 4, 6, 1, 2, 3]);
    // on the last edge the record goes behind the last vertex
    poly.insert(Vertex::new(p(0, 6), Ratio { num: 1, den: 2 }, true, false, false), 3, 0);
    assert_eq!(order(&poly), vec![0, 5, 7, 4, 6, 1, 2, 3, 8]);
    // the next input vertex after a crossing
    assert_eq!(poly.next(5), 1);
    assert_eq!(poly.next(2), 2);
    assert_eq!(poly.next(8), 0);
}

#[test]
fn is_inside_by_even_odd_rule() {
    let poly = CPolygon::from_vec(&square(0, 0, 10));
    let v = |x: i64, y: i64| Vertex::new(p(x, y), Ratio::zero(), false, true, false);
    assert!(v(5, 5).is_inside_from(&poly, probe()));
    assert!(v(1, 9).is_inside_from(&poly, probe()));
    assert!(!v(15, 5).is_inside_from(&poly, probe()));
    assert!(!v(-3, -3).is_inside_from(&poly, probe()));
    assert!(v(5, 5).is_inside(&poly));
    assert!(!v(25, 7).is_inside(&poly));
    assert!(!v(5, 5).is_inside(&CPolygon::new()));
}

#[test]
fn phase_one_inserts_twins() {
    let mut s = CPolygon::from_vec(&square(0, 0, 10));
    let mut c = CPolygon::from_vec(&square(5, 5, 10));
    s.phase_one(&mut c);
    assert_eq!(s.len(), 6);
    assert_eq!(c.len(), 6);
    assert_eq!(order(&s), vec![0, 1, 4, 2, 5, 3]);
    assert_eq!(order(&c), vec![0, 4, 1, 2, 3, 5]);
    for (i, j, at) in [(4, 4, p(10, 5)), (5, 5, p(5, 10))] {
        let a = s.vertex(i);
        let b = c.vertex(j);
        assert!(a.inter && b.inter);
        assert_eq!(a.neighbour, Some(j));
        assert_eq!(b.neighbour, Some(i));
        assert_eq!(a.pt, at);
        assert_eq!(b.pt, at);
        assert_eq!(a.alpha.num * 2, a.alpha.den);
        assert_eq!(b.alpha.num * 2, b.alpha.den);
    }
    assert!(s.unprocessed());
    assert_eq!(s.first_intersect(), Some(4));
}

#[test]
fn phase_two_labels_alternate() {
    let mut s = CPolygon::from_vec(&square(0, 0, 10));
    let mut c = CPolygon::from_vec(&square(5, 5, 10));
    s.phase_one(&mut c);
    // union: the subject starts outside the clip ring, the clip ring inside the subject
    s.phase_two_with(&mut c, false, false, probe(), probe());
    assert!(!s.vertex(4).entry);
    assert!(s.vertex(5).entry);
    assert!(!c.vertex(5).entry);
    assert!(c.vertex(4).entry);
    // labelling by hand starts over
    s.label(true);
    assert!(s.vertex(4).entry);
    assert!(!s.vertex(5).entry);
    // input vertices keep their record
    assert!(s.vertex(0).entry && !s.vertex(0).inter);
}

#[test]
fn phase_three_traces_the_union() {
    let mut s = CPolygon::from_vec(&square(0, 0, 10));
    let mut c = CPolygon::from_vec(&square(5, 5, 10));
    s.phase_one(&mut c);
    s.phase_two_with(&mut c, false, false, probe(), probe());
    let rings = s.phase_three(&mut c);
    assert_eq!(
        rings,
        vec![vec![
            p(10, 5),
            p(10, 0),
            p(0, 0),
            p(0, 10),
            p(5, 10),
            p(5, 15),
            p(15, 15),
            p(15, 5)
        ]]
    );
    assert!(!s.unprocessed());
    assert!(s.vertex(4).checked && s.vertex(5).checked);
    assert!(c.vertex(4).checked && c.vertex(5).checked);
}

#[test]
fn set_checked_marks_a_record_and_its_twin() {
    let mut s = CPolygon::from_vec(&square(0, 0, 10));
    let mut c = CPolygon::from_vec(&square(5, 5, 10));
    s.phase_one(&mut c);
    s.set_checked(&mut c, 4);
    assert!(s.vertex(4).checked);
    assert!(c.vertex(4).checked);
    assert!(!s.vertex(5).checked && !c.vertex(5).checked);
    assert_eq!(s.first_intersect(), Some(5));
    // from the other polygon as well
    c.set_checked(&mut s, 5);
    assert!(s.vertex(5).checked && c.vertex(5).checked);
    // an input vertex has no twin
    s.set_checked(&mut c, 0);
    assert!(s.vertex(0).checked);
    assert!(!c.vertex(0).checked);
    // the record alone
    let mut v = c.vertex(1);
    v.set_checked();
    assert!(v.checked);
    assert!(!c.vertex(1).checked);
}

#[test]
fn walk_follows_the_ring_to_the_next_crossing() {
    let mut s = CPolygon::from_vec(&square(0, 0, 10));
    let mut c = CPolygon::from_vec(&square(5, 5, 10));
    s.phase_one(&mut c);
    let mut out = CPolygon::new();
    assert_eq!(s.walk(4, true, &mut out), 5);
    assert_eq!(out.raw_points(), vec![p(10, 10), p(5, 10)]);
    let mut out = CPolygon::new();
    assert_eq!(s.walk(4, false, &mut out), 5);
    assert_eq!(out.raw_points(), vec![p(10, 0), p(0, 0), p(0, 10), p(5, 10)]);
}

#[test]
fn clip_with_fixed_probes_is_repeatable() {
    let run = || {
        let mut s = CPolygon::from_vec(&square(0, 0, 10));
        let mut c = CPolygon::from_vec(&square(5, 5, 10));
        s.clip_with(&mut c, true, true, probe(), probe())
    };
    assert_eq!(run(), run());
    assert_eq!(run(), vec![vec![p(10, 5), p(10, 10), p(5, 10), p(5, 5)]]);
}

#[test]
fn union_commutes_on_overlapping_squares() {
    let ab = CPolygon::from_vec(&square(0, 0, 10)).union(&mut CPolygon::from_vec(&square(5, 5, 10)));
    let ba = CPolygon::from_vec(&square(5, 5, 10)).union(&mut CPolygon::from_vec(&square(0, 0, 10)));
    assert_eq!(ab.len(), 1);
    assert_eq!(ba.len(), 1);
    assert_eq!(canonical(&ab[0]), canonical(&ba[0]));
}

#[test]
fn union_of_a_cross_leaves_a_hole_free_outline() {
    // two bars that cross in four points
    let h = vec![p(0, 4), p(12, 4), p(12, 8), p(0, 8)];
    let v = vec![p(4, 0), p(8, 0), p(8, 12), p(4, 12)];
    let rings = CPolygon::from_vec(&h).union(&mut CPolygon::from_vec(&v));
    assert_eq!(rings.len(), 1);
    assert_eq!(rings[0].len(), 12);
    let other = CPolygon::from_vec(&v).union(&mut CPolygon::from_vec(&h));
    assert_eq!(canonical(&rings[0]), canonical(&other[0]));
    let both = CPolygon::from_vec(&h).intersection(&mut CPolygon::from_vec(&v));
    assert_eq!(both.len(), 1);
    assert_eq!(
        canonical(&both[0]),
        canonical(&[p(4, 4), p(8, 4), p(8, 8), p(4, 8)])
    );
}

#[test]
fn clipping_leaves_no_crossing_unprocessed() {
    let mut s = CPolygon::from_vec(&square(0, 0, 10));
    let mut c = CPolygon::from_vec(&square(5, 5, 10));
    let rings = s.clip_with(&mut c, false, true, probe(), probe());
    assert!(!s.unprocessed() && !c.unprocessed());
    assert_eq!(s.len(), 6);
    assert_eq!(c.len(), 6);
    // every point of the result is a vertex of a square or a crossing
    let mut known = s.raw_points();
    known.extend(c.raw_points());
    for r in rings.iter() {
        assert_eq!(r[0], p(10, 5));
        for q in r.iter() {
            assert!(known.contains(q));
        }
    }
}
