use polycomp::constants::{should_mutate, Rng, ALPHA_BAND, ALPHA_MIN, BLUR_MAX, BLUR_MIN};
use polycomp::compress::{default_config, Compressor};
use polycomp::encoding::{Color, Point, Polygon, Rgb};
use polycomp::mutation::rand_color;

#[test]
fn generator_first_draw() {
    let mut rng = Rng::new(0);
    assert_eq!(rng.next(), 167951807);
    assert_eq!(rng.state, 1442695040888963407);
}

#[test]
fn should_mutate_matches_draw() {
    let mut a = Rng::new(42);
    let mut b = Rng::new(42);
    for rate in [2u64, 3, 7, 30, 50, 100] {
        let fired = should_mutate(&mut a, rate);
        assert_eq!(fired, b.next() % rate == 0);
    }
    // a rate of one always fires
    let mut c = Rng::new(5);
    for _ in 0..100 {
        assert!(should_mutate(&mut c, 1));
    }
}

#[test]
fn recolor_stays_a_byte() {
    let mut rng = Rng::new(3);
    let mut changed = false;
    for i in 0..5000u32 {
        let base = (i % 256) as u8;
        let v = rand_color(&mut rng, base);
        if v != base {
            changed = true;
            assert!((v as i64 - base as i64).abs() <= 75);
        }
    }
    assert!(changed);
}

#[test]
fn point_mutation_stays_on_canvas() {
    let mut rng = Rng::new(11);
    let mut p = Point { x: 0, y: 9 };
    let mut fired = 0;
    for _ in 0..2000 {
        let before = p;
        if p.mutate(&mut rng, (10, 10)) {
            fired += 1;
        } else {
            assert_eq!(p, before);
        }
        assert!(0 <= p.x && p.x < 10 && 0 <= p.y && p.y < 10);
    }
    assert!(fired > 0);
}

#[test]
fn mutation_invariants_hold() {
    let compressor = Compressor::new(vec![Rgb { r: 9, g: 9, b: 9 }; 1200], (40, 30), default_config());
    let mut rng = Rng::new(2024);
    let mut poly = Polygon::new(
        vec![Point { x: 2, y: 2 }, Point { x: 30, y: 3 }, Point { x: 20, y: 25 }],
        Color { r: 100, g: 150, b: 200, a: 180 },
    );
    poly.blur = 700;
    let mut alpha_seen = std::collections::BTreeSet::new();
    for _ in 0..5000 {
        poly.mutate(&compressor, &mut rng);
        assert!(poly.vertices.len() >= 3);
        for v in poly.vertices.iter() {
            assert!(0 <= v.x && v.x < 40 && 0 <= v.y && v.y < 30);
        }
        assert!(poly.color.a >= ALPHA_MIN && (poly.color.a as u64) < ALPHA_MIN as u64 + ALPHA_BAND);
        assert!(BLUR_MIN <= poly.blur && poly.blur <= BLUR_MAX);
        assert_eq!(poly.edges.len(), poly.vertices.len());
        alpha_seen.insert(poly.color.a);
    }
    assert!(alpha_seen.len() > 1);
}
