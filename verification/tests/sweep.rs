use section_outline::assembly::Probes;
use section_outline::clipping::{ring_fits, CPolygon};
use section_outline::geometry::{Point, COORD_MAX};
use section_outline::section::{Section, SectionError, INDEX_MAX, UNIT};

/// A small generator of repeatable numbers.
struct Lcg(u64);

impl Lcg {
    fn next(&mut self) -> u64 {
        self.0 = self.0.wrapping_mul(6364136223846793005).wrapping_add(1442695040888963407);
        self.0 >> 33
    }

    fn below(&mut self, n: u64) -> i64 {
        (self.next() % n) as i64
    }
}

fn probe(k: i64) -> Point {
    Point { x: -COORD_MAX - 1 - 7919 * k, y: -COORD_MAX - 1 - 104729 * k }
}

fn ring(g: &mut Lcg, corners: usize, spread: u64) -> Vec<Point> {
    (0..corners)
        .map(|_| Point { x: g.below(spread) - (spread / 2) as i64, y: g.below(spread) - (spread / 2) as i64 })
        .collect()
}

#[test]
fn clipping_random_rings_ends_within_bounds() {
    let mut g = Lcg(2024);
    for round in 0..300 {
        let a = ring(&mut g, 3 + (round % 6), 1000);
        let b = ring(&mut g, 3 + (round % 5), 1000);
        for (s_entry, c_entry) in [(false, false), (true, true), (false, true)] {
            let mut s = CPolygon::from_vec(&a);
            let mut c = CPolygon::from_vec(&b);
            let rings = s.clip_with(&mut c, s_entry, c_entry, probe(1 + round as i64), probe(2));
            assert!(!rings.is_empty());
            for r in rings.iter() {
                assert!(ring_fits(r));
                assert!(r.len() <= s.len() + c.len() + 1);
            }
        }
    }
}

#[test]
fn clipping_gives_the_subject_back_without_crossings() {
    let mut g = Lcg(7);
    for _ in 0..100 {
        let a = ring(&mut g, 5, 100);
        let far: Vec<Point> = ring(&mut g, 4, 100)
            .iter()
            .map(|q| Point { x: q.x + 10_000, y: q.y })
            .collect();
        let rings = CPolygon::from_vec(&a).union(&mut CPolygon::from_vec(&far));
        assert_eq!(rings, vec![a]);
    }
}

#[test]
fn random_sections_stay_consistent() {
    let mut g = Lcg(99);
    for _ in 0..40 {
        let mut s = Section::new(300_000);
        let mut nodes = vec![];
        for _ in 0..8 {
            let x = (g.below(41) - 20) * UNIT;
            let y = (g.below(41) - 20) * UNIT;
            match s.add_node(x, y) {
                Ok(id) => nodes.push(id),
                Err(e) => assert_eq!(e, SectionError::ConstraintViolation),
            }
            if nodes.len() >= 2 && g.below(2) == 0 {
                let a = nodes[g.below(nodes.len() as u64) as usize];
                let b = nodes[g.below(nodes.len() as u64) as usize];
                let before = (s.node_count(), s.element_count());
                match s.add_edge(a, b, Some(UNIT / 4), None) {
                    Ok(id) => {
                        assert!((id as usize) < s.element_count());
                        assert!(s.element_count() > before.1);
                        assert!(s.node_count() >= before.0);
                    }
                    Err(e) => {
                        assert_eq!(e, SectionError::CapacityExceeded);
                        assert_eq!((s.node_count(), s.element_count()), before);
                    }
                }
            }
        }
        assert!(s.node_count() <= INDEX_MAX);
        for k in 0..s.element_count() {
            let m = s.element(k as u32).unwrap();
            assert!((m.a as usize) < s.node_count());
            assert!((m.b as usize) < s.node_count());
            assert_eq!(m.thickness, UNIT / 4);
        }
        let probes: Vec<Probes> = (0..s.node_count() as i64)
            .map(|k| Probes { subject: probe(k + 1), clip: probe(k + 50) })
            .collect();
        match s.build_with(&probes) {
            Ok(out) => {
                assert!(!out.rings.is_empty());
                assert!(s.results_valid());
            }
            Err(e) => {
                assert_eq!(e, SectionError::ConfigInconsistency);
                assert!(!s.results_valid());
            }
        }
    }
}
