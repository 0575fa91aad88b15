use polycomp::constants::Rng;
use polycomp::encoding::{orientation, segment_distance, Color, Encoding, Pixel, Point, Polygon, Rgb};
use polycomp::hull::order_points;

fn pt(x: i64, y: i64) -> Point {
    Point { x, y }
}

fn square() -> Polygon {
    Polygon::new(
        vec![pt(0, 0), pt(10, 0), pt(10, 10), pt(0, 10)],
        Color { r: 10, g: 20, b: 30, a: 200 },
    )
}

#[test]
fn square_contains_center() {
    let (inside, _) = square().query(&pt(5, 5), false);
    assert!(inside);
}

#[test]
fn square_excludes_far_point() {
    let (inside, _) = square().query(&pt(15, 15), false);
    assert!(!inside);
}

#[test]
fn outline_counts_as_inside() {
    let poly = square();
    assert!(poly.query(&pt(10, 5), false).0);
    assert!(poly.query(&pt(5, 10), false).0);
    assert!(poly.query(&pt(0, 0), false).0);
    assert!(!poly.query(&pt(11, 5), false).0);
}

#[test]
fn query_distance_is_scaled_square() {
    let poly = square();
    // 3 pixels right of the right edge: 256 * 9
    assert_eq!(poly.query(&pt(13, 5), true), (false, 2304));
    // inside, 2 pixels from the nearest edge
    assert_eq!(poly.query(&pt(2, 5), true), (true, 1024));
    assert_eq!(poly.query(&pt(13, 5), false), (false, 0));
}

#[test]
fn segment_distance_cases() {
    let (a, b) = (pt(0, 0), pt(10, 0));
    assert_eq!(segment_distance(&a, &b, &pt(5, 3)), 256 * 9);
    assert_eq!(segment_distance(&a, &b, &pt(13, 4)), 256 * 25);
    assert_eq!(segment_distance(&a, &b, &pt(0, 0)), 0);
    // diagonal segment: distance^2 from (0, 2) to the line y = x is 2
    assert_eq!(segment_distance(&a, &pt(10, 10), &pt(0, 2)), 512);
}

#[test]
fn cached_geometry() {
    let poly = Polygon::new(vec![pt(0, 0), pt(4, 0), pt(4, 2), pt(0, 2)], Color { r: 0, g: 0, b: 0, a: 0 });
    assert_eq!(poly.center, pt(2, 1));
    assert_eq!(poly.max_dist, 5);
    assert_eq!(poly.bounding_box.min, pt(0, 0));
    assert_eq!(poly.bounding_box.max, pt(4, 2));
    assert_eq!(poly.edges.len(), 4);
    assert_eq!(poly.edges[3].a, pt(0, 2));
    assert_eq!(poly.edges[3].b, pt(0, 0));
}

#[test]
fn point_helpers() {
    assert_eq!(pt(1, 2).distance_squared(&pt(4, 6)), 25);
    assert_eq!(pt(1, 2).dot(&pt(3, -4)), -5);
    assert_eq!(orientation(&pt(0, 0), &pt(1, 0), &pt(0, 1)), 1);
    assert_eq!(orientation(&pt(0, 0), &pt(0, 1), &pt(1, 0)), -1);
}

fn assert_convex(h: &[Point], from: &[Point]) {
    let n = h.len();
    assert!(n >= 3);
    for i in 0..n {
        assert!(orientation(&h[i], &h[(i + 1) % n], &h[(i + 2) % n]) > 0);
        assert!(from.contains(&h[i]));
    }
}

#[test]
fn hull_is_convex() {
    let input = vec![pt(5, 5), pt(0, 0), pt(10, 0), pt(5, 2), pt(10, 10), pt(0, 10), pt(5, 0), pt(3, 7)];
    let hull = order_points(input.clone());
    assert_convex(&hull, &input);
    assert_eq!(hull.len(), 4);
    for corner in [pt(0, 0), pt(10, 0), pt(10, 10), pt(0, 10)] {
        assert!(hull.contains(&corner));
    }
}

#[test]
fn hull_of_scattered_points_is_convex() {
    let mut rng = Rng::new(7);
    for _ in 0..200 {
        let mut input = vec![];
        for _ in 0..8 {
            input.push(pt(rng.below(40) as i64, rng.below(40) as i64));
        }
        let hull = order_points(input.clone());
        if hull.len() >= 3 {
            assert_convex(&hull, &input);
        }
    }
}

#[test]
fn hull_of_collinear_points_is_degenerate() {
    let hull = order_points(vec![pt(0, 0), pt(1, 1), pt(2, 2), pt(3, 3)]);
    assert!(hull.len() < 3);
    assert!(order_points(vec![]).is_empty());
}

#[test]
fn size_of_two_pentagons() {
    let pentagon = || {
        Polygon::new(
            vec![pt(0, 0), pt(4, 0), pt(5, 3), pt(2, 5), pt(0, 3)],
            Color { r: 1, g: 2, b: 3, a: 200 },
        )
    };
    let e = Encoding { polygons: vec![pentagon(), pentagon()], dimensions: (10, 10), pixels: vec![] };
    assert_eq!(e.size(), 42);
}

#[test]
fn size_counts_overrides() {
    let px = Pixel { pos: pt(1, 1), color: Rgb { r: 0, g: 0, b: 0 } };
    let e = Encoding { polygons: vec![square()], dimensions: (20, 20), pixels: vec![px, px, px] };
    assert_eq!(e.size(), 16 + 15 + 3 + 8);
    assert_eq!(Encoding { polygons: vec![], dimensions: (1, 1), pixels: vec![] }.size(), 16);
}

#[test]
fn hull_has_distinct_points() {
    let input = vec![pt(0, 0), pt(0, 0), pt(5, 0), pt(5, 0), pt(0, 5), pt(0, 5), pt(1, 1)];
    let hull = order_points(input.clone());
    assert_eq!(hull.len(), 3);
    for i in 0..hull.len() {
        for j in 0..hull.len() {
            if i != j {
                assert_ne!(hull[i], hull[j]);
            }
        }
    }
    assert_eq!(order_points(vec![pt(2, 2), pt(2, 2)]), vec![pt(2, 2)]);
}

#[test]
fn new_polygon_starts_at_least_blur() {
    assert_eq!(square().blur, polycomp::constants::BLUR_MIN);
}
