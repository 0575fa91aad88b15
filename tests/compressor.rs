use polycomp::compress::{compress, default_config, iterations, threshold, Compressor, Config};
use polycomp::errormap::hot_cell;
use polycomp::fitness::{converged, diff, fitness};
use polycomp::generator::average_inside;
use polycomp::constants::{Rng, FITNESS_THRESHOLD, POPULATION_SIZE};
use polycomp::encoding::{Color, Encoding, Point, Polygon, Rgb};
use polycomp::render::render;

const RED: Rgb = Rgb { r: 255, g: 0, b: 0 };
const WHITE: Rgb = Rgb { r: 255, g: 255, b: 255 };

fn config(threshold: u32, iterations: u64, population: usize) -> Config {
    Config { threshold, iterations, fix_residual: true, fix_threshold: 30, population }
}

fn gradient(w: u32, h: u32) -> Vec<Rgb> {
    let mut v = vec![];
    for y in 0..h {
        for x in 0..w {
            v.push(Rgb { r: (x * 255 / w) as u8, g: (y * 255 / h) as u8, b: 90 });
        }
    }
    v
}

#[test]
fn diff_is_absolute() {
    assert_eq!(diff(3, 10), 7);
    assert_eq!(diff(10, 3), 7);
    assert_eq!(diff(0, 255), 255);
}

#[test]
fn fitness_of_blank_canvas() {
    let base = vec![RED; 4];
    let e = Encoding::new((2, 2));
    assert_eq!(fitness((2, 2), &base, &e), 4 * 2 * 255 * 255);
    let c = Compressor::new(base, (2, 2), config(900, 10, 4));
    assert_eq!(c.max_score(), 4 * 2 * 255 * 255);
}

#[test]
fn fitness_counts_squares() {
    let base = vec![Rgb { r: 250, g: 255, b: 252 }];
    assert_eq!(fitness((1, 1), &base, &Encoding::new((1, 1))), 25 + 9);
}

#[test]
fn convergence_test_values() {
    assert!(converged(10, 100, 900));
    assert!(!converged(11, 100, 900));
    assert!(converged(0, 0, 1000));
    assert!(!converged(1, 0, 1));
}

#[test]
fn config_accessors() {
    let c = default_config();
    assert_eq!(threshold(&c), FITNESS_THRESHOLD);
    assert_eq!(iterations(&c), 0);
    assert_eq!(c.population, POPULATION_SIZE);
}

#[test]
fn ranked_cells() {
    let mut error = vec![0u64; 64];
    error[10] = 50;
    error[3] = 70;
    error[40] = 50;
    error[63] = 60;
    assert_eq!(hot_cell(&error, 0), 3);
    assert_eq!(hot_cell(&error, 1), 63);
    assert_eq!(hot_cell(&error, 2), 10);
    assert_eq!(hot_cell(&error, 3), 40);
    assert_eq!(hot_cell(&error, 4), 0);
    assert_eq!(hot_cell(&error, 64), 0);
}

#[test]
fn average_color_under_polygon() {
    let mut base = vec![WHITE; 16];
    base[5] = Rgb { r: 0, g: 0, b: 0 };
    base[6] = Rgb { r: 100, g: 50, b: 0 };
    let poly = Polygon::new(
        vec![Point { x: 1, y: 1 }, Point { x: 2, y: 1 }, Point { x: 2, y: 2 }, Point { x: 1, y: 2 }],
        Color { r: 0, g: 0, b: 0, a: 0 },
    );
    // covers pixels (1,1), (2,1), (1,2), (2,2): 5, 6, 9, 10
    let avg = average_inside(&poly, &base, (4, 4)).unwrap();
    assert_eq!(avg, Rgb { r: 152, g: 140, b: 127 });
}

#[test]
fn error_map_cells() {
    // 8x8 target: each pixel is its own cell
    let mut base = vec![WHITE; 64];
    base[9] = Rgb { r: 255, g: 245, b: 255 };
    base[63] = Rgb { r: 0, g: 255, b: 255 };
    let mut c = Compressor::new(base, (8, 8), config(900, 10, 4));
    c.compute_error(&Encoding::new((8, 8)));
    assert_eq!(c.error[9], 100);
    assert_eq!(c.error[63], 255 * 255);
    assert_eq!(c.error.iter().sum::<u64>(), 100 + 255 * 255);
}

#[test]
fn error_map_on_wide_canvas() {
    // 16x8: two pixels per cell horizontally
    let mut base = vec![WHITE; 128];
    base[2] = Rgb { r: 255, g: 255, b: 250 };
    base[3] = Rgb { r: 255, g: 255, b: 252 };
    let mut c = Compressor::new(base, (16, 8), config(900, 10, 4));
    c.compute_error(&Encoding::new((16, 8)));
    assert_eq!(c.error[1], 25 + 9);
}

#[test]
fn edges_found_at_step() {
    let mut base = vec![Rgb { r: 0, g: 0, b: 0 }; 25];
    for y in 0..5 {
        for x in 3..5 {
            base[y * 5 + x] = WHITE;
        }
    }
    let mut c = Compressor::new(base, (5, 5), config(900, 10, 4));
    c.detect_edges();
    let positions: Vec<(i64, i64)> = c.edges.iter().map(|e| (e.pos.x, e.pos.y)).collect();
    assert_eq!(positions, vec![(2, 1), (3, 1), (2, 2), (3, 2), (2, 3), (3, 3)]);
    assert_eq!(c.edges[0].gx, 765);
    assert_eq!(c.edges[0].gy, 0);
}

#[test]
fn generated_polygons_are_valid() {
    let base = gradient(30, 20);
    let mut c = Compressor::new(base, (30, 20), config(900, 10, 4));
    let mut rng = Rng::new(99);
    let mut made = 0;
    for round in 0..300 {
        if round == 150 {
            c.compute_error(&Encoding::new((30, 20)));
        }
        if let Some(p) = Polygon::random(&c, &mut rng) {
            made += 1;
            assert!(p.vertices.len() >= 3);
            for v in p.vertices.iter() {
                assert!(0 <= v.x && v.x < 30 && 0 <= v.y && v.y < 20);
            }
            assert!(p.color.a >= 125 && p.color.a <= 254);
            assert!(p.blur >= 500 && p.blur <= 1000);
        }
    }
    assert!(made > 0);
}

#[test]
fn best_score_never_increases() {
    let base = gradient(12, 12);
    let c = Compressor::new(base.clone(), (12, 12), config(999, 10, 6));
    let mut rng = Rng::new(17);
    let mut population = c.create_population(&mut rng);
    assert_eq!(population.len(), 6);
    let mut last = u64::MAX;
    for _ in 0..60 {
        let (next, best, index) = c.mutate(population, &mut rng);
        assert!(best <= last);
        assert_eq!(fitness((12, 12), &base, &next[index]), best);
        for e in next.iter() {
            assert!(fitness((12, 12), &base, e) >= best);
        }
        last = best;
        population = next;
    }
}

#[test]
fn solid_red_converges() {
    let base = vec![RED; 16];
    let max = Compressor::new(base.clone(), (4, 4), config(900, 100, 4)).max_score();
    for seed in 0..5u64 {
        let (fixed, raw) = compress(base.clone(), (4, 4), config(900, 100, 4), seed);
        let best = fitness((4, 4), &base, &raw);
        // normalized score 1 - best / max >= 0.9
        assert!(best * 10 <= max, "seed {} ended at {} of {}", seed, best, max);
        assert_eq!(fixed.dimensions, (4, 4));
    }
}

#[test]
fn zero_fix_threshold_fixes_every_mismatch() {
    let base = gradient(9, 7);
    let c = Compressor::new(base.clone(), (9, 7), Config { threshold: 900, iterations: 5, fix_residual: true, fix_threshold: 0, population: 4 });
    let tri = Polygon::new(vec![Point { x: 0, y: 0 }, Point { x: 8, y: 1 }, Point { x: 3, y: 6 }], Color { r: 90, g: 40, b: 200, a: 170 });
    let img = Encoding { polygons: vec![tri], dimensions: (9, 7), pixels: vec![] };
    let before = render(&img, true);
    let mismatched = before.iter().zip(base.iter()).filter(|(a, b)| a != b).count();
    let fixed = c.fix_pixels(img);
    assert_eq!(fixed.pixels.len(), mismatched);
    assert_eq!(render(&fixed, true), base);
}

#[test]
fn pixel_fix_respects_threshold() {
    let base = vec![Rgb { r: 250, g: 255, b: 255 }, Rgb { r: 200, g: 255, b: 255 }];
    let c = Compressor::new(base, (2, 1), config(900, 5, 4));
    // weighted differences: 0.9 * 5 = 4.5 (kept) and 0.9 * 55 = 49.5 (fixed)
    let fixed = c.fix_pixels(Encoding::new((2, 1)));
    assert_eq!(fixed.pixels.len(), 1);
    assert_eq!(fixed.pixels[0].pos, Point { x: 1, y: 0 });
    assert_eq!(fixed.pixels[0].color, Rgb { r: 200, g: 255, b: 255 });
    let off = Compressor::new(vec![RED; 2], (2, 1), Config { fix_residual: false, ..config(900, 5, 4) });
    assert_eq!(off.fix_pixels(Encoding::new((2, 1))).pixels.len(), 0);
}

#[test]
fn single_pixel_canvas_yields_no_polygon() {
    let c = Compressor::new(vec![RED], (1, 1), config(900, 10, 4));
    let mut rng = Rng::new(1);
    for _ in 0..50 {
        assert!(Polygon::random(&c, &mut rng).is_none());
    }
    let (fixed, raw) = compress(vec![RED], (1, 1), config(900, 3, 4), 8);
    assert!(raw.polygons.is_empty());
    // white against red is fixed by an override
    assert_eq!(fixed.pixels.len(), 1);
    assert_eq!(render(&fixed, true), vec![RED]);
}

#[test]
fn generation_sizes_and_order() {
    let base = gradient(10, 10);
    let c = Compressor::new(base.clone(), (10, 10), config(900, 10, 4));
    let mut rng = Rng::new(23);
    let population = c.create_population(&mut rng);
    let candidates = c.offspring(population, &mut rng);
    assert_eq!(candidates.len(), 12);
    let fits: Vec<u64> = candidates.iter().map(|e| fitness((10, 10), &base, e)).collect();
    let (next, best, index) = c.select(candidates, fits.clone());
    assert_eq!(next.len(), 4);
    assert_eq!(index, 0);
    assert_eq!(best, *fits.iter().min().unwrap());
    let kept: Vec<u64> = next.iter().map(|e| fitness((10, 10), &base, e)).collect();
    let mut sorted = fits.clone();
    sorted.sort();
    assert_eq!(kept, sorted[..4].to_vec());
}

#[test]
fn decisions_after_generation() {
    let c = config(900, 50, 4);
    let d = polycomp::compress::after_generation(&c, 30, 50, 100);
    assert!(d.refresh_error && !d.stop);
    let d = polycomp::compress::after_generation(&c, 31, 10, 100);
    assert!(!d.refresh_error && d.stop);
    let d = polycomp::compress::after_generation(&c, 50, 99, 100);
    assert!(d.stop);
    let unlimited = config(900, 0, 4);
    assert!(!polycomp::compress::after_generation(&unlimited, 5000, 99, 100).stop);
}

#[test]
fn collinear_scatter_yields_no_polygon() {
    let c = Compressor::new(gradient(10, 10), (10, 10), config(900, 10, 4));
    let mut rng = Rng::new(4);
    let line = vec![Point { x: 1, y: 1 }, Point { x: 3, y: 3 }, Point { x: 6, y: 6 }];
    assert!(Polygon::from_scatter(line, &c, &mut rng).is_none());
    let tri = vec![Point { x: 1, y: 1 }, Point { x: 8, y: 1 }, Point { x: 4, y: 8 }, Point { x: 4, y: 3 }];
    let p = Polygon::from_scatter(tri, &c, &mut rng).unwrap();
    assert_eq!(p.vertices.len(), 3);
}

#[test]
fn run_respects_iteration_cap() {
    let base = gradient(8, 8);
    let (_, raw, n) = polycomp::compress::compress_run(base.clone(), (8, 8), config(1000, 7, 4), 3);
    assert!(n >= 1 && n <= 7);
    assert!(raw.pixels.is_empty());
    let (_, _, m) = polycomp::compress::compress_run(vec![RED; 16], (4, 4), config(900, 100, 4), 0);
    assert!(m < 100);
}
