use section_outline::arith::{floor_div, isqrt, round_div_exec};
use section_outline::assembly::{
    arrange, centre, centroid, merge_with, translate, Probes, MAX_RING,
};
use section_outline::geometry::{Point, COORD_MAX};
use section_outline::outline::{
    angle_less, calc_intersect, collapse_members, corners, has_conflict, normalize,
    ring_of_joint, sort_members, Member,
};
use section_outline::section::{Section, SectionError, UNIT};

fn p(x: i64, y: i64) -> Point {
    Point { x, y }
}

fn m(x: i64, y: i64, thickness: i64) -> Member {
    Member { to: p(x, y), thickness }
}

fn probes(n: usize) -> Vec<Probes> {
    (0..n)
        .map(|i| Probes {
            subject: p(-COORD_MAX - 1 - (i as i64 % 100), -COORD_MAX - 7),
            clip: p(-COORD_MAX - 3, -COORD_MAX - 1 - (i as i64 % 100)),
        })
        .collect()
}

#[test]
fn isqrt_exact_values() {
    assert_eq!(isqrt(0), 0);
    assert_eq!(isqrt(1), 1);
    assert_eq!(isqrt(24), 4);
    assert_eq!(isqrt(25), 5);
    assert_eq!(isqrt(26), 5);
    assert_eq!(isqrt(u64::MAX), 0xffff_ffff);
}

#[test]
fn division_rounds_as_stated() {
    assert_eq!(floor_div(7, 2), 3);
    assert_eq!(floor_div(-7, 2), -4);
    assert_eq!(round_div_exec(7, 2), 4);
    assert_eq!(round_div_exec(-7, 2), -3);
    assert_eq!(round_div_exec(5, 3), 2);
    assert_eq!(round_div_exec(-5, 3), -2);
    assert_eq!(round_div_exec(4, 3), 1);
}

#[test]
fn normalize_scales_to_half_thickness() {
    assert_eq!(normalize(0, 0, 10, 0, 4), (2, 0));
    assert_eq!(normalize(0, 0, 0, -10, 4), (0, -2));
    // direction (3, 4) of length 5, half thickness 5
    assert_eq!(normalize(0, 0, 3, 4, 10), (3, 4));
    assert_eq!(normalize(1, 1, -2, -3, 10), (-3, -4));
}

#[test]
fn corners_of_horizontal_member() {
    let c = corners(p(0, 0), &m(10, 0, 4));
    assert_eq!(c.back_left, p(-2, 2));
    assert_eq!(c.back_right, p(-2, -2));
    assert_eq!(c.far_left, p(7, 2));
    assert_eq!(c.far_right, p(7, -2));
    assert_eq!(c.tip_left, p(12, 2));
    assert_eq!(c.tip_right, p(12, -2));
}

#[test]
fn calc_intersect_meets_and_parallel() {
    assert_eq!(calc_intersect(p(0, 0), p(10, 0), p(5, -5), p(5, 5)), Some(p(5, 0)));
    assert_eq!(calc_intersect(p(0, 0), p(10, 10), p(0, 10), p(10, 0)), Some(p(5, 5)));
    assert_eq!(calc_intersect(p(0, 0), p(10, 0), p(0, 1), p(10, 1)), None);
    // the lines meet beyond the coordinate bound
    assert_eq!(
        calc_intersect(p(0, 0), p(COORD_MAX, 1), p(0, 2), p(COORD_MAX, 2)),
        None
    );
}

#[test]
fn angular_sort_ignores_insertion_order() {
    let from = p(0, 0);
    let east = m(10, 0, 2);
    let north = m(0, 10, 2);
    let west = m(-10, 0, 2);
    let south = m(0, -10, 2);
    // 270 degrees is -90 degrees: south comes first, the cyclic order is the same
    let want = vec![south, east, north, west];
    let orders = [
        vec![east, north, west, south],
        vec![south, west, north, east],
        vec![north, south, east, west],
        vec![west, east, south, north],
    ];
    for o in orders.iter() {
        assert_eq!(sort_members(from, o), want);
    }
    assert!(angle_less(from, &south, &east));
    assert!(angle_less(from, &east, &north));
    assert!(angle_less(from, &north, &west));
    assert!(!angle_less(from, &west, &south));
    assert!(!angle_less(from, &east, &east));
}

#[test]
fn angular_sort_within_a_sector() {
    let from = p(1, 1);
    let a = m(11, 2, 2);
    let b = m(6, 6, 2);
    let c = m(2, 11, 2);
    let d = m(-9, 2, 2);
    assert_eq!(sort_members(from, &vec![d, c, b, a]), vec![a, b, c, d]);
}

#[test]
fn collinear_members_with_unequal_thickness_conflict() {
    let from = p(0, 0);
    // opposite directions
    assert!(has_conflict(from, &vec![m(10, 0, 2), m(0, 5, 3), m(-7, 0, 4)]));
    // same direction
    assert!(has_conflict(from, &vec![m(10, 10, 2), m(3, 3, 4)]));
    assert!(!has_conflict(from, &vec![m(10, 0, 2), m(0, 5, 3), m(-7, 0, 2)]));
    assert!(!has_conflict(from, &vec![m(10, 0, 2), m(0, 5, 3)]));
}

#[test]
fn collapse_drops_repeated_directions() {
    let from = p(0, 0);
    let sorted = sort_members(from, &vec![m(10, 0, 2), m(0, 5, 2), m(4, 0, 2), m(0, 9, 2)]);
    assert_eq!(
        collapse_members(from, &sorted),
        vec![m(10, 0, 2), m(0, 5, 2)]
    );
}

#[test]
fn end_cap_of_a_single_member() {
    let ring = ring_of_joint(p(0, 0), &vec![m(10, 0, 4)], false);
    assert_eq!(ring, vec![p(7, -2), p(7, 2), p(-2, 2), p(-2, -2)]);
    let ring = ring_of_joint(p(0, 0), &vec![m(10, 0, 4)], true);
    assert_eq!(ring, vec![p(-2, 2), p(-2, -2), p(12, -2), p(12, 2)]);
    assert_eq!(ring_of_joint(p(0, 0), &vec![], true), vec![]);
}

#[test]
fn ring_of_a_right_angle_joint() {
    // members to the east and to the north, thickness 4
    let ring = ring_of_joint(p(0, 0), &vec![m(10, 0, 4), m(0, 10, 4)], false);
    assert_eq!(
        ring,
        vec![p(7, -2), p(7, 2), p(2, 2), p(2, 7), p(-2, 7), p(-2, -2)]
    );
}

#[test]
fn ring_of_a_pass_through_joint() {
    let ring = ring_of_joint(p(0, 0), &vec![m(10, 0, 4), m(-10, 0, 4)], false);
    assert_eq!(ring, vec![p(7, -2), p(7, 2), p(-7, 2), p(-7, -2)]);
}

#[test]
fn arrange_orders_by_falling_length() {
    let a = vec![p(0, 0); 3];
    let b = vec![p(1, 1); 5];
    let c = vec![p(2, 2); 3];
    let d = vec![p(3, 3); 4];
    assert_eq!(
        arrange(&vec![a.clone(), b.clone(), c.clone(), d.clone()]),
        vec![b, d, a, c]
    );
}

#[test]
fn centroid_of_a_square() {
    let ring = vec![p(0, 0), p(10, 0), p(10, 10), p(0, 10)];
    assert_eq!(centroid(&ring), Some(p(5, 5)));
    // clockwise winding gives the same centroid
    let ring = vec![p(0, 10), p(10, 10), p(10, 0), p(0, 0)];
    assert_eq!(centroid(&ring), Some(p(5, 5)));
    // a triangle: (0,0), (9,0), (0,9) has its centroid at (3,3)
    assert_eq!(centroid(&vec![p(0, 0), p(9, 0), p(0, 9)]), Some(p(3, 3)));
    // no area, no centroid
    assert_eq!(centroid(&vec![p(0, 0), p(5, 5), p(10, 10)]), None);
    assert_eq!(centroid(&vec![]), None);
    assert_eq!(MAX_RING, 0xffff_ffff);
}

#[test]
fn translate_moves_every_point() {
    let ring = vec![p(0, 0), p(10, 0), p(10, 10)];
    assert_eq!(translate(&ring, p(5, 5)), vec![p(-5, -5), p(5, -5), p(5, 5)]);
}

#[test]
fn centre_puts_the_centroid_at_the_origin() {
    let out = centre(vec![vec![p(0, 0), p(10, 0), p(10, 10), p(0, 10)]]);
    assert_eq!(out.centroid, Some(p(5, 5)));
    assert_eq!(out.rings, vec![vec![p(-5, -5), p(5, -5), p(5, 5), p(-5, 5)]]);
    assert_eq!(centroid(&out.rings[0]), Some(p(0, 0)));
}

#[test]
fn merge_unites_overlapping_rings() {
    let a = vec![p(0, 0), p(10, 0), p(10, 10), p(0, 10)];
    let b = vec![p(5, 5), p(15, 5), p(15, 15), p(5, 15)];
    let out = merge_with(&vec![a.clone(), b], &probes(2)).unwrap();
    assert_eq!(out.len(), 1);
    assert_eq!(out[0].len(), 8);
    // the first ring alone is united with the empty ring
    let out = merge_with(&vec![a.clone()], &probes(1)).unwrap();
    assert_eq!(out, vec![a]);
    // nothing to merge leaves the empty ring
    let out = merge_with(&vec![], &probes(0)).unwrap();
    assert_eq!(out, vec![Vec::<Point>::new()]);
}

#[test]
fn single_member_section_is_a_rectangle() {
    let mut s = Section::new(300_000);
    let a = s.add_node(0, 0).unwrap();
    let b = s.add_node(10 * UNIT, 0).unwrap();
    s.add_edge(a, b, Some(4 * UNIT), None).unwrap();
    assert_eq!(
        s.joint(a).unwrap(),
        vec![
            p(-2 * UNIT, 2 * UNIT),
            p(-2 * UNIT, -2 * UNIT),
            p(12 * UNIT, -2 * UNIT),
            p(12 * UNIT, 2 * UNIT)
        ]
    );
    let out = s.build_with(&probes(2)).unwrap();
    assert!(s.results_valid());
    assert_eq!(out.rings.len(), 1);
    let ring = &out.rings[0];
    assert_eq!(ring.len(), 4);
    assert_eq!(out.centroid, Some(p(5 * UNIT, 0)));
    // the four corners of the member's rectangle, centred on the origin
    let mut corners = ring.clone();
    corners.sort_by_key(|q| (q.x, q.y));
    assert_eq!(
        corners,
        vec![
            p(-7 * UNIT, -2 * UNIT),
            p(-7 * UNIT, 2 * UNIT),
            p(7 * UNIT, -2 * UNIT),
            p(7 * UNIT, 2 * UNIT)
        ]
    );
}

#[test]
fn build_rejects_collinear_mismatch() {
    let mut s = Section::new(300_000);
    let a = s.add_node(-10 * UNIT, 0).unwrap();
    let b = s.add_node(0, 0).unwrap();
    let c = s.add_node(10 * UNIT, 0).unwrap();
    s.add_edge(a, b, Some(UNIT), None).unwrap();
    s.add_edge(b, c, Some(2 * UNIT), None).unwrap();
    assert_eq!(s.joint(b), Err(SectionError::ConfigInconsistency));
    assert_eq!(s.build().err(), Some(SectionError::ConfigInconsistency));
    assert!(!s.results_valid());
    assert_eq!(s.joint(9), Err(SectionError::NotFound));
}

#[test]
fn build_of_an_empty_section() {
    let mut s = Section::new(300_000);
    let out = s.build().unwrap();
    assert_eq!(out.rings, vec![Vec::<Point>::new()]);
    assert_eq!(out.centroid, None);
    assert!(s.results_valid());
    s.add_node(0, 0).unwrap();
    assert!(!s.results_valid());
}

#[test]
fn six_node_scenario() {
    // coordinates in units of length, scaled to the grid
    let h = UNIT / 2;
    let mut s = Section::new(300_000);
    let a = s.add_node(-h, h).unwrap();
    let b = s.add_node(0, h).unwrap();
    let c = s.add_node(h, h).unwrap();
    let d = s.add_node(-h, 4 * UNIT / 10).unwrap();
    let e = s.add_node(0, -h).unwrap();
    let f = s.add_node(h, -h).unwrap();
    s.add_edge(a, b, Some(9 * UNIT / 100), None).unwrap();
    s.add_edge(b, c, None, None).unwrap();
    s.add_edge(b, e, None, None).unwrap();
    s.add_edge(d, e, None, None).unwrap();
    s.add_edge(e, f, None, None).unwrap();
    // a-b and b-c pass through b along one line with unequal thickness
    assert_eq!(s.build().err(), Some(SectionError::ConfigInconsistency));
    // with matching thickness every connected joint yields a ring
    let mut s = Section::new(300_000);
    let a = s.add_node(-h, h).unwrap();
    let b = s.add_node(0, h).unwrap();
    let c = s.add_node(h, h).unwrap();
    let d = s.add_node(-h, 4 * UNIT / 10).unwrap();
    let e = s.add_node(0, -h).unwrap();
    let f = s.add_node(h, -h).unwrap();
    let t = Some(9 * UNIT / 100);
    s.add_edge(a, b, t, None).unwrap();
    s.add_edge(b, c, t, None).unwrap();
    s.add_edge(b, e, t, None).unwrap();
    s.add_edge(d, e, t, None).unwrap();
    s.add_edge(e, f, t, None).unwrap();
    for n in 0..6 {
        assert!(s.joint(n).unwrap().len() >= 4);
    }
    let out = s.build_with(&probes(6)).unwrap();
    assert!(!out.rings.is_empty());
    assert!(out.rings.len() <= 6);
    assert!(out.rings[0].len() >= 3);
    let c0 = out.centroid.unwrap();
    // the centred outer ring has its centroid at the origin, up to rounding
    let again = centroid(&out.rings[0]).unwrap();
    assert!(again.x.abs() <= 1 && again.y.abs() <= 1);
    assert!(c0.x.abs() <= UNIT && c0.y.abs() <= UNIT);
}

#[test]
fn joints_of_an_i_section() {
    // two flanges and a web, all members two units thick
    let mut s = Section::new(300_000);
    let u = |v: i64| v * UNIT;
    let a = s.add_node(u(-9), u(9)).unwrap();
    let b = s.add_node(0, u(9)).unwrap();
    let c = s.add_node(u(9), u(9)).unwrap();
    let d = s.add_node(u(-9), u(-9)).unwrap();
    let e = s.add_node(0, u(-9)).unwrap();
    let f = s.add_node(u(9), u(-9)).unwrap();
    s.add_edge(a, b, None, None).unwrap();
    s.add_edge(b, c, None, None).unwrap();
    s.add_edge(b, e, None, None).unwrap();
    s.add_edge(d, e, None, None).unwrap();
    s.add_edge(e, f, None, None).unwrap();
    let h = UNIT / 2;
    let q = |x: i64, y: i64| p(x * h, y * h);
    // the end of the left half of the upper flange
    assert_eq!(s.joint(a).unwrap(), vec![q(-7, 16), q(-7, 20), q(-20, 20), q(-20, 16)]);
    // the joint of the upper flange and the web: three slots, two miters
    assert_eq!(
        s.joint(b).unwrap(),
        vec![
            q(-2, -2),
            q(2, -2),
            q(2, 16),
            q(11, 16),
            q(11, 20),
            q(-11, 20),
            q(-11, 16),
            q(-2, 16)
        ]
    );
    let rings = s.joints().unwrap();
    assert_eq!(rings.len(), 6);
    let out = s.build_with(&probes(6)).unwrap();
    assert!(!out.rings.is_empty());
    assert!(out.centroid.is_some());
}
