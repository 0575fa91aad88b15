use polycomp::encoding::{Color, Encoding, Pixel, Point, Polygon, Rgb};
use polycomp::render::{add, blend, fade, int_sqrt, render};

fn pt(x: i64, y: i64) -> Point {
    Point { x, y }
}

fn sample() -> Encoding {
    let a = Polygon::new(vec![pt(1, 1), pt(8, 2), pt(5, 8)], Color { r: 200, g: 10, b: 30, a: 180 });
    let b = Polygon::new(vec![pt(0, 5), pt(9, 5), pt(9, 9), pt(0, 9)], Color { r: 10, g: 220, b: 40, a: 130 });
    Encoding {
        polygons: vec![a, b],
        dimensions: (10, 10),
        pixels: vec![Pixel { pos: pt(0, 0), color: Rgb { r: 1, g: 2, b: 3 } }],
    }
}

#[test]
fn render_is_deterministic() {
    let e = sample();
    assert_eq!(render(&e, false), render(&e, false));
    assert_eq!(render(&e, true), render(&e, true));
    let copy = e.clone();
    assert_eq!(render(&copy, true), render(&e, true));
}

#[test]
fn empty_encoding_is_white() {
    let e = Encoding { polygons: vec![], dimensions: (3, 2), pixels: vec![] };
    assert_eq!(render(&e, true), vec![Rgb { r: 255, g: 255, b: 255 }; 6]);
}

#[test]
fn channel_blend_values() {
    assert_eq!(add(0, 255, 255), 255);
    assert_eq!(add(255, 0, 128), 127);
    assert_eq!(add(100, 200, 0), 100);
    assert_eq!(add(10, 20, 51), 4 + 8);
    let c = blend(Rgb { r: 255, g: 255, b: 255 }, Color { r: 255, g: 0, b: 0, a: 255 });
    assert_eq!(c, Rgb { r: 255, g: 0, b: 0 });
}

#[test]
fn square_root_and_fade() {
    assert_eq!(int_sqrt(0), 0);
    assert_eq!(int_sqrt(2303), 47);
    assert_eq!(int_sqrt(2304), 48);
    assert_eq!(fade(200, 0), 200);
    // one pixel away: (1 + 1)^2 = 4
    assert_eq!(fade(200, 256), 50);
}

#[test]
fn opaque_square_covers_its_pixels() {
    let sq = Polygon::new(vec![pt(1, 1), pt(3, 1), pt(3, 3), pt(1, 3)], Color { r: 0, g: 0, b: 0, a: 255 });
    let e = Encoding { polygons: vec![sq], dimensions: (5, 5), pixels: vec![] };
    let r = render(&e, false);
    for y in 0..5 {
        for x in 0..5 {
            let inside = (1..=3).contains(&x) && (1..=3).contains(&y);
            let want = if inside { Rgb { r: 0, g: 0, b: 0 } } else { Rgb { r: 255, g: 255, b: 255 } };
            assert_eq!(r[y * 5 + x], want);
        }
    }
    // antialiasing softens the pixels next to the outline only
    let soft = render(&e, true);
    assert_eq!(soft[2 * 5 + 2], Rgb { r: 0, g: 0, b: 0 });
    // one pixel from the edge: alpha 255 / 4 = 63
    let g = 255 - 63 * 255 / 255;
    assert_eq!(soft[2 * 5 + 0], Rgb { r: g as u8, g: g as u8, b: g as u8 });
}

#[test]
fn overrides_win() {
    let e = sample();
    let r = render(&e, true);
    assert_eq!(r[0], Rgb { r: 1, g: 2, b: 3 });
    assert_eq!(r.len(), 100);
}
