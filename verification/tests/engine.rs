use dogwalker::geom::{direction, on_segment, segments_intersect};
use dogwalker::rng::Rng;
use dogwalker::sim::Simulator;
use dogwalker::walker::Walker;
use dogwalker::{size_of_steps, Point};

fn p32(x: i32, y: i32) -> Point<i32> {
    Point { x, y }
}

fn p64(x: i64, y: i64) -> Point<i64> {
    Point { x, y }
}

fn steps(v: &[(i32, i32)]) -> Vec<Point<i32>> {
    v.iter().map(|&(x, y)| p32(x, y)).collect()
}

#[test]
fn direction_signs() {
    // The two sides of the oriented line, and a collinear point.
    assert!(direction(p64(0, 0), p64(1, 0), p64(1, 1)) < 0);
    assert!(direction(p64(0, 0), p64(1, 0), p64(1, -1)) > 0);
    assert_eq!(direction(p64(0, 0), p64(2, 0), p64(1, 0)), 0);
}

#[test]
fn on_segment_bbox() {
    assert!(on_segment(p64(0, 0), p64(2, 2), p64(1, 1)));
    assert!(!on_segment(p64(0, 0), p64(2, 2), p64(3, 1)));
}

#[test]
fn proper_crossing_is_loose_and_strict() {
    // Segments (0,0)-(2,2) and (0,2)-(2,0) cross in their interiors.
    let p = [p64(0, 0), p64(2, 2), p64(0, 2), p64(2, 0)];
    assert!(segments_intersect(p, false));
    assert!(segments_intersect(p, true));
}

#[test]
fn collinear_overlap_is_strict_only() {
    // The segments overlap along the x axis: the strict predicate sees it,
    // the loose one does not.
    let p = [p64(0, 0), p64(2, 0), p64(1, 0), p64(3, 0)];
    assert!(!segments_intersect(p, false));
    assert!(segments_intersect(p, true));
}

#[test]
fn endpoint_touch_is_strict() {
    // The segments share the point (1,0).
    let p = [p64(0, 0), p64(1, 0), p64(1, 0), p64(2, 1)];
    assert!(segments_intersect(p, true));
}

#[test]
fn disjoint_segments_intersect_neither_way() {
    let p = [p64(0, 0), p64(1, 0), p64(0, 2), p64(1, 2)];
    assert!(!segments_intersect(p, false));
    assert!(!segments_intersect(p, true));
}

#[test]
fn triangle_simpleness_index_is_six() {
    // The single closed step set of length 3: every ordering stays a simple
    // triangle, so all 3! orderings count.
    let mut w = Walker::new(3, false);
    let s = steps(&[(1, 0), (0, 1), (-1, -1)]);
    w.set_steps(&s);
    assert!(w.is_walk_closed());
    assert!(!w.has_collinear_steps());
    assert_eq!(w.simpleness_index(true), 6);
    assert_eq!(w.simpleness_index(false), 6);
    // The steps are left in their original order.
    assert_eq!(w.steps().as_slice(), s.as_slice());
}

#[test]
fn relabeled_steps_keep_their_index() {
    // Rearranging step positions never changes the simpleness index.
    let mut w = Walker::new(4, false);
    let a = steps(&[(3, 1), (1, 3), (-2, 1), (-1, -4)]);
    let b = steps(&[(1, 3), (3, 1), (-1, -4), (-2, 1)]);
    w.set_steps(&a);
    let si_a = w.simpleness_index(true);
    w.set_steps(&b);
    let si_b = w.simpleness_index(true);
    assert_eq!(si_a, si_b);
}

#[test]
fn collinear_pair_detected() {
    // Steps 0 and 1 are parallel.
    let mut w = Walker::new(4, false);
    w.set_steps(&steps(&[(1, 0), (2, 0), (0, 1), (-3, -1)]));
    assert!(w.has_collinear_steps());
}

#[test]
fn all_zero_steps_are_collinear() {
    let mut w = Walker::new(3, false);
    w.set_steps(&steps(&[(0, 0), (0, 0), (0, 0)]));
    assert!(w.has_collinear_steps());
}

#[test]
fn open_walk_not_closed() {
    let mut w = Walker::new(3, false);
    w.set_steps(&steps(&[(1, 0), (0, 1), (5, 5)]));
    assert!(!w.is_walk_closed());
}

#[test]
fn minify_halves_to_canonical_triangle() {
    // Two halvings are accepted; the third produces collinear steps and is
    // rejected, so the canonical representative remains.
    let mut w = Walker::new(3, false);
    w.set_steps(&steps(&[(4, 0), (0, 4), (-4, -4)]));
    let si = w.simpleness_index(true);
    assert_eq!(si, 6);
    assert!(w.minify_steps(si));
    assert_eq!(w.steps().as_slice(), steps(&[(1, 0), (0, 1), (-1, -1)]).as_slice());
    // The walk stayed closed.
    assert!(w.is_walk_closed());
    // Minifying again changes nothing: minification is idempotent.
    assert!(!w.minify_steps(si));
    assert_eq!(w.steps().as_slice(), steps(&[(1, 0), (0, 1), (-1, -1)]).as_slice());
}

#[test]
fn minify_flips_negative_orientation() {
    // No halving is accepted, but the x signs sum negative, so the x
    // components are negated; size is unchanged by the flip.
    let mut w = Walker::new(3, false);
    let orig = steps(&[(-1, 0), (-1, 2), (2, -2)]);
    w.set_steps(&orig);
    let si = w.simpleness_index(true);
    let size_before = size_of_steps(w.steps());
    assert!(w.minify_steps(si));
    assert_eq!(w.steps().as_slice(), steps(&[(1, 0), (1, 2), (-2, -2)]).as_slice());
    assert_eq!(size_of_steps(w.steps()), size_before);
}

#[test]
fn minify_never_grows_components() {
    let orig = steps(&[(8, 2), (2, 8), (5, 5)]);
    let mut w = Walker::new(3, false);
    w.set_steps(&orig);
    let si = w.simpleness_index(true);
    w.minify_steps(si);
    assert_eq!(w.simpleness_index(true), si);
    for (after, before) in w.steps().iter().zip(orig.iter()) {
        assert!(after.x.abs() <= before.x.abs());
        assert!(after.y.abs() <= before.y.abs());
    }
}

#[test]
fn size_of_steps_value() {
    assert_eq!(size_of_steps(&steps(&[(1, 2), (-3, 4)])), 1 + 4 + 9 + 16);
    assert_eq!(size_of_steps(&steps(&[])), 0);
}

#[test]
fn rng_is_deterministic_from_seed() {
    let mut a = Rng::new(42);
    let mut b = Rng::new(42);
    for _ in 0..16 {
        assert_eq!(a.gen(), b.gen());
    }
    let mut c = Rng::new(43);
    assert_ne!(a.gen(), c.gen());
}

#[test]
fn rng_matches_wyhash_mixing() {
    let mut r = Rng::new(7);
    let s = 7u64.wrapping_add(0xa0761d6478bd642f);
    let t = (s as u128) * ((s ^ 0xe7037ed1a0b428db) as u128);
    let expected = ((t >> 64) ^ t) as u64;
    assert_eq!(r.gen(), expected);
}

#[test]
fn simulator_samples_closed_walks() {
    let mut sim = Simulator::new(5, true, false, 1234);
    for _ in 0..10 {
        let _si = sim.prepare();
        let sum = sim
            .steps()
            .iter()
            .fold((0i64, 0i64), |(x, y), s| (x + s.x as i64, y + s.y as i64));
        assert_eq!(sum, (0, 0));
    }
}

#[test]
fn simulator_closed_triangles_always_score_six() {
    // For n = 3 every closed walk has simpleness index 6.
    let mut sim = Simulator::new(3, true, false, 99);
    for _ in 0..10 {
        assert_eq!(sim.prepare(), 6);
    }
}

#[test]
fn strict_index_never_exceeds_loose() {
    for s in [
        steps(&[(3, 1), (1, 3), (-2, 1), (-1, -4)]),
        steps(&[(1, 0), (0, 1), (-1, -1), (1, 1)]),
        steps(&[(2, 0), (0, 2), (-1, -1)]),
    ] {
        let mut w = Walker::new(s.len(), false);
        w.set_steps(&s);
        let strict = w.simpleness_index(true);
        let loose = w.simpleness_index(false);
        assert!(strict <= loose);
    }
}

#[test]
fn same_seed_same_candidates() {
    // Sampling is a function of the generator state alone.
    let mut a = Simulator::new(4, false, true, 5);
    let mut b = Simulator::new(4, false, true, 5);
    for _ in 0..5 {
        assert_eq!(a.prepare(), b.prepare());
        assert_eq!(a.steps(), b.steps());
        for s in a.steps().iter() {
            assert!((-0x8000..=0x7fff).contains(&s.x));
            assert!((-0x8000..=0x7fff).contains(&s.y));
        }
    }
}
