//! The software rasterizer: an encoding and an antialias flag in, a
//! row-major RGB raster out.
use vstd::prelude::*;
use crate::encoding::{
    Color, Encoding, Pixel, Point, Polygon, Rgb, dims_ok, in_canvas, on_grid, same_encoding,
    same_polygon,
};

verus! {

/// Flat row-major raster.
pub type Image = Vec<Rgb>;

/// Fill of the raster before any polygon is composited.
pub open spec fn background() -> Rgb {
    Rgb { r: 255, g: 255, b: 255 }
}

/// Pixels scanned beyond the bounding box when antialiasing.
pub const AA_MARGIN: i64 = 4;

/// Soft edges reach pixels whose `boundary_dist` is below this (3 pixels).
pub const AA_CUTOFF: u64 = 2304;

/// Over-blend of one channel: `new * alpha / 255 + old * (255 - alpha) / 255`.
pub open spec fn mix(old: u8, new: u8, alpha: u8) -> u8 {
    (new as int * alpha as int / 255 + old as int * (255 - alpha as int) / 255) as u8
}

pub open spec fn blend_spec(old: Rgb, c: Color) -> Rgb {
    Rgb { r: mix(old.r, c.r, c.a), g: mix(old.g, c.g, c.a), b: mix(old.b, c.b, c.a) }
}

/// Integer square root, rounded down.
pub open spec fn isqrt(n: nat) -> nat
    decreases n,
{
    if n == 0 {
        0
    } else {
        let r = isqrt((n - 1) as nat);
        if (r + 1) * (r + 1) <= n {
            r + 1
        } else {
            r
        }
    }
}

/// Alpha scaled by `1 / (1 + d)^2`, where `d` is the distance in pixels and
/// `dist` is `256 * d^2`; distances are taken in sixteenths of a pixel.
pub open spec fn faded(alpha: u8, dist: int) -> u8 {
    let s = isqrt(dist as nat) as int;
    (alpha as int * 256 / ((16 + s) * (16 + s))) as u8
}

/// Pixels that the scan over a polygon visits (before clipping to the canvas).
pub open spec fn in_window(poly: Polygon, antialias: bool, p: Point) -> bool {
    let m = if antialias { AA_MARGIN as int } else { 0 };
    &&& poly.bounding_box.min.x - m <= p.x <= poly.bounding_box.max.x + m
    &&& poly.bounding_box.min.y - m <= p.y <= poly.bounding_box.max.y + m
}

/// Color that `poly` lays on pixel `p`, if any.
pub open spec fn shade(poly: Polygon, antialias: bool, p: Point) -> Option<Color> {
    if !in_window(poly, antialias, p) {
        None
    } else if poly.contains(p) {
        Some(poly.color)
    } else if antialias && poly.boundary_dist(p) < AA_CUTOFF {
        Some(Color { a: faded(poly.color.a, poly.boundary_dist(p)), ..poly.color })
    } else {
        None
    }
}

pub open spec fn paint_px(old: Rgb, poly: Polygon, antialias: bool, p: Point) -> Rgb {
    match shade(poly, antialias, p) {
        Some(c) => blend_spec(old, c),
        None => old,
    }
}

pub open spec fn pos_of(i: int, w: int) -> Point {
    Point { x: (i % w) as i64, y: (i / w) as i64 }
}

/// Raster `r` of width `w` after compositing `poly`.
pub open spec fn paint(r: Seq<Rgb>, poly: Polygon, antialias: bool, w: int) -> Seq<Rgb> {
    Seq::new(r.len(), |i: int| paint_px(r[i], poly, antialias, pos_of(i, w)))
}

/// Raster after compositing the first `k` polygons over the background.
pub open spec fn composite(polys: Seq<Polygon>, antialias: bool, dims: (u32, u32), k: nat) -> Seq<Rgb>
    decreases k,
{
    if k == 0 {
        Seq::new((dims.0 as int * dims.1 as int) as nat, |i: int| background())
    } else {
        paint(composite(polys, antialias, dims, (k - 1) as nat), polys[k - 1], antialias, dims.0 as int)
    }
}

/// Raster after writing the first `k` overrides, in order.
pub open spec fn overlay(r: Seq<Rgb>, pixels: Seq<Pixel>, w: int, k: nat) -> Seq<Rgb>
    decreases k,
{
    if k == 0 {
        r
    } else {
        let px = pixels[k - 1];
        overlay(r, pixels, w, (k - 1) as nat).update(px.pos.y * w + px.pos.x, px.color)
    }
}

/// What `render` produces.
pub open spec fn rendered(e: Encoding, antialias: bool) -> Seq<Rgb> {
    overlay(
        composite(e.polygons@, antialias, e.dimensions, e.polygons.len() as nat),
        e.pixels@,
        e.dimensions.0 as int,
        e.pixels.len() as nat,
    )
}

/// One channel of the over-blend.
pub fn add(old: u8, new: u8, alpha: u8) -> (r: u8)
    ensures
        r == mix(old, new, alpha),
{
    assert((new as u32) * (alpha as u32) <= 65025 && (old as u32) * ((255 - alpha) as u32) <= 65025)
        by (nonlinear_arith)
        requires 0 <= new <= 255, 0 <= old <= 255, 0 <= alpha <= 255;
    let addend = (new as u32) * (alpha as u32) / 255;
    let kept = (old as u32) * ((255 - alpha) as u32) / 255;
    assert(addend + kept <= 255) by (nonlinear_arith)
        requires
            addend == (new as int) * (alpha as int) / 255,
            kept == (old as int) * (255 - alpha as int) / 255,
            0 <= new <= 255, 0 <= old <= 255, 0 <= alpha <= 255;
    (addend + kept) as u8
}

/// Composite `new_color` over `old_color` with the new color's alpha.
pub fn blend(old_color: Rgb, new_color: Color) -> (r: Rgb)
    ensures
        r == blend_spec(old_color, new_color),
{
    Rgb {
        r: crate::render::add(old_color.r, new_color.r, new_color.a),
        g: crate::render::add(old_color.g, new_color.g, new_color.a),
        b: crate::render::add(old_color.b, new_color.b, new_color.a),
    }
}

proof fn lemma_isqrt(n: nat)
    ensures
        isqrt(n) * isqrt(n) <= n < (isqrt(n) + 1) * (isqrt(n) + 1),
    decreases n,
{
    if n > 0 {
        lemma_isqrt((n - 1) as nat);
        let r = isqrt((n - 1) as nat);
        if (r + 1) * (r + 1) <= n {
            assert(isqrt(n) == r + 1);
            assert(n < (r + 2) * (r + 2)) by (nonlinear_arith)
                requires n - 1 < (r + 1) * (r + 1);
            assert((r + 1) + 1 == r + 2);
        } else {
            assert(isqrt(n) == r);
            assert(r * r <= n);
        }
    } else {
        assert(isqrt(0) == 0);
        assert((0nat + 1) * (0nat + 1) == 1) by (nonlinear_arith);
    }
}

proof fn lemma_isqrt_unique(n: nat, s: nat)
    requires
        s * s <= n < (s + 1) * (s + 1),
    ensures
        isqrt(n) == s,
{
    lemma_isqrt(n);
    let t = isqrt(n);
    if t < s {
        assert((t + 1) * (t + 1) <= s * s) by (nonlinear_arith) requires t + 1 <= s;
    } else if t > s {
        assert((s + 1) * (s + 1) <= t * t) by (nonlinear_arith) requires s + 1 <= t;
    }
}

/// `isqrt(n)`.
pub fn int_sqrt(n: u64) -> (r: u64)
    requires
        n < 0x1_0000_0000,
    ensures
        r == isqrt(n as nat),
        r < 0x1_0000,
{
    let mut s: u64 = 0;
    loop
        invariant
            s * s <= n < 0x1_0000_0000,
            s < 0x1_0000,
        ensures
            s * s <= n < (s + 1) * (s + 1),
            s < 0x1_0000,
        decreases n - s,
    {
        let t = s + 1;
        assert(t * t <= 0x1_0000_0000) by (nonlinear_arith) requires 1 <= t <= 0x1_0000;
        if t * t > n {
            break;
        }
        assert(t < 0x1_0000) by (nonlinear_arith)
            requires t * t <= n < 0x1_0000_0000, t >= 1;
        assert(t <= n) by (nonlinear_arith) requires t * t <= n, t >= 1;
        s = t;
    }
    proof { lemma_isqrt_unique(n as nat, s as nat); }
    s
}

/// `faded(alpha, dist)` for distances under the soft-edge cutoff.
pub fn fade(alpha: u8, dist: u64) -> (r: u8)
    requires
        dist < AA_CUTOFF,
    ensures
        r == faded(alpha, dist as int),
        r <= alpha,
{
    let s = int_sqrt(dist);
    assert((16 + s) * (16 + s) <= 0x1_0020_0100) by (nonlinear_arith) requires 0 <= s < 0x1_0000;
    let d = (16 + s) * (16 + s);
    assert(256 <= d) by (nonlinear_arith) requires d == (16 + s) * (16 + s), s >= 0;
    assert((alpha as int) * 256 / (d as int) <= alpha) by (nonlinear_arith)
        requires 256 <= d, 0 <= alpha;
    ((alpha as u64) * 256 / d) as u8
}

/// `shade(poly, antialias, p)`.
pub fn shade_at(poly: &Polygon, antialias: bool, p: &Point) -> (r: Option<Color>)
    requires
        poly.wf(),
        on_grid(*p),
    ensures
        r == shade(*poly, antialias, *p),
{
    let m = if antialias { AA_MARGIN } else { 0 };
    let bb = poly.bounding_box;
    proof {
        crate::encoding::lemma_bbox_on_grid(poly.vertices@);
    }
    if p.x < bb.min.x - m || p.x > bb.max.x + m || p.y < bb.min.y - m || p.y > bb.max.y + m {
        return None;
    }
    let (contains, dist) = poly.query(p, antialias);
    if contains {
        Some(poly.color)
    } else if antialias && dist < AA_CUTOFF {
        Some(Color { a: fade(poly.color.a, dist), ..poly.color })
    } else {
        None
    }
}

pub(crate) proof fn lemma_index(x: int, y: int, w: int, h: int)
    requires
        0 <= x < w,
        0 <= y < h,
    ensures
        (y * w + x) % w == x,
        (y * w + x) / w == y,
        0 <= y * w + x < w * h,
{
    vstd::arithmetic::div_mod::lemma_fundamental_div_mod_converse(y * w + x, w, y, x);
    assert(y * w + x < w * h) by (nonlinear_arith) requires 0 <= x < w, 0 <= y < h;
    assert(0 <= y * w) by (nonlinear_arith) requires 0 <= y, 0 <= w;
}

pub(crate) proof fn lemma_pos(i: int, w: int, h: int)
    requires
        0 <= i < w * h,
        w > 0,
    ensures
        0 <= i % w < w,
        0 <= i / w < h,
        i == (i / w) * w + i % w,
{
    vstd::arithmetic::div_mod::lemma_fundamental_div_mod(i, w);
    vstd::arithmetic::div_mod::lemma_mod_bound(i, w);
    vstd::arithmetic::div_mod::lemma_div_pos_is_pos(i, w);
    let q = i / w;
    assert(w * q == q * w) by (nonlinear_arith);
    assert(q < h) by (nonlinear_arith)
        requires i == q * w + i % w, 0 <= i % w, i < w * h, w > 0;
}

/// Composite `poly` onto the raster: every pixel of its (clipped) window
/// that `shade` reaches is blended with the shaded color.
pub fn paint_polygon(buf: &mut Vec<Rgb>, poly: &Polygon, antialias: bool, dims: (u32, u32))
    requires
        dims_ok(dims),
        old(buf).len() == dims.0 as int * dims.1 as int,
        poly.wf(),
    ensures
        final(buf)@ == paint(old(buf)@, *poly, antialias, dims.0 as int),
{
    let ghost orig = buf@;
    let ghost wi = dims.0 as int;
    let ghost hi = dims.1 as int;
    let w = dims.0 as i64;
    let h = dims.1 as i64;
    let m = if antialias { AA_MARGIN } else { 0 };
    let bb = poly.bounding_box;
    proof {
        crate::encoding::lemma_bbox_on_grid(poly.vertices@);
    }
    let x_lo = if bb.min.x - m < 0 { 0 } else { bb.min.x - m };
    let x_hi = if bb.max.x + m > w - 1 { w - 1 } else { bb.max.x + m };
    let y_lo = if bb.min.y - m < 0 { 0 } else { bb.min.y - m };
    let y_hi = if bb.max.y + m > h - 1 { h - 1 } else { bb.max.y + m };
    let mut y = y_lo;
    while y <= y_hi
        invariant
            dims_ok(dims),
            wi == dims.0,
            hi == dims.1,
            w == wi,
            h == hi,
            poly.wf(),
            buf.len() == orig.len(),
            orig.len() == wi * hi,
            m == if antialias { AA_MARGIN } else { 0 },
            bb == poly.bounding_box,
            0 <= x_lo,
            x_lo == if bb.min.x - m < 0 { 0 } else { bb.min.x - m },
            x_hi == if bb.max.x + m > w - 1 { w - 1 } else { bb.max.x + m },
            y_lo == if bb.min.y - m < 0 { 0 } else { bb.min.y - m },
            y_hi == if bb.max.y + m > h - 1 { h - 1 } else { bb.max.y + m },
            y_lo <= y,
            y <= y_hi + 1 || y == y_lo,
            forall|i: int|
                0 <= i < orig.len() ==> #[trigger] buf@[i] == if i / wi < y {
                    paint_px(orig[i], *poly, antialias, pos_of(i, wi))
                } else {
                    orig[i]
                },
        decreases h - y,
    {
        let mut x = x_lo;
        while x <= x_hi
            invariant
                dims_ok(dims),
                wi == dims.0,
                hi == dims.1,
                w == wi,
                h == hi,
                poly.wf(),
                buf.len() == orig.len(),
                orig.len() == wi * hi,
                m == if antialias { AA_MARGIN } else { 0 },
                bb == poly.bounding_box,
                0 <= x_lo <= x,
                x <= x_hi + 1 || x == x_lo,
                x_hi == if bb.max.x + m > w - 1 { w - 1 } else { bb.max.x + m },
                x_lo == if bb.min.x - m < 0 { 0 } else { bb.min.x - m },
                0 <= y_lo <= y <= y_hi,
                y_hi <= h - 1,
                forall|i: int|
                    0 <= i < orig.len() ==> #[trigger] buf@[i] == if i / wi < y || (i / wi == y && i % wi < x) {
                        paint_px(orig[i], *poly, antialias, pos_of(i, wi))
                    } else {
                        orig[i]
                    },
            decreases w - x,
        {
            proof { lemma_index(x as int, y as int, wi, hi); }
            let idx = (y as usize) * (w as usize) + (x as usize);
            let p = Point { x, y };
            assert(p == pos_of(idx as int, wi));
            let old_px = buf[idx];
            match shade_at(poly, antialias, &p) {
                Some(c) => {
                    buf.set(idx, blend(old_px, c));
                },
                None => {},
            }
            assert forall|i: int|
                0 <= i < orig.len() implies #[trigger] buf@[i] == if i / wi < y || (i / wi == y && i % wi < x + 1) {
                    paint_px(orig[i], *poly, antialias, pos_of(i, wi))
                } else {
                    orig[i]
                } by {
                lemma_pos(i, wi, hi);
                if i != idx {
                    assert(i / wi != y || i % wi != x);
                }
            }
            x += 1;
        }
        assert forall|i: int|
            0 <= i < orig.len() implies #[trigger] buf@[i] == if i / wi < y + 1 {
                paint_px(orig[i], *poly, antialias, pos_of(i, wi))
            } else {
                orig[i]
            } by {
            lemma_pos(i, wi, hi);
            if i / wi == y && i % wi >= x {
                assert(!in_window(*poly, antialias, pos_of(i, wi)));
            }
        }
        y += 1;
    }
    assert forall|i: int| 0 <= i < orig.len() implies #[trigger] buf@[i] == paint(orig, *poly, antialias, wi)[i] by {
        lemma_pos(i, wi, hi);
        if i / wi >= y {
            assert(!in_window(*poly, antialias, pos_of(i, wi)));
        }
    }
    assert(buf@ =~= paint(orig, *poly, antialias, wi));
}

/// Rasterize `img`: background, then each polygon in order, then each
/// pixel override in order.
pub fn render(img: &Encoding, antialias: bool) -> (r: Image)
    requires
        img.wf(),
    ensures
        r@ == rendered(*img, antialias),
        r.len() == img.dimensions.0 as int * img.dimensions.1 as int,
{
    let dims = img.dimensions;
    let w = dims.0;
    let h = dims.1;
    let n = (w as usize) * (h as usize);
    let mut buf: Vec<Rgb> = Vec::new();
    let mut i: usize = 0;
    while i < n
        invariant
            i <= n,
            n == w as int * h as int,
            buf@ =~= Seq::new(i as nat, |j: int| background()),
        decreases n - i,
    {
        buf.push(Rgb { r: 255, g: 255, b: 255 });
        i += 1;
    }
    let ghost polys = img.polygons@;
    let mut k: usize = 0;
    while k < img.polygons.len()
        invariant
            img.wf(),
            dims == img.dimensions,
            w == dims.0,
            h == dims.1,
            polys == img.polygons@,
            k <= polys.len(),
            buf.len() == n,
            n == w as int * h as int,
            buf@ == composite(polys, antialias, dims, k as nat),
        decreases polys.len() - k,
    {
        assert(polys[k as int].within(dims));
        paint_polygon(&mut buf, &img.polygons[k], antialias, dims);
        k += 1;
    }
    let ghost base = buf@;
    let mut k: usize = 0;
    while k < img.pixels.len()
        invariant
            img.wf(),
            dims == img.dimensions,
            w == dims.0,
            h == dims.1,
            k <= img.pixels.len(),
            buf.len() == n,
            n == w as int * h as int,
            buf@ == overlay(base, img.pixels@, w as int, k as nat),
        decreases img.pixels.len() - k,
    {
        let px = img.pixels[k];
        assert(in_canvas(img.pixels@[k as int].pos, dims));
        proof { lemma_index(px.pos.x as int, px.pos.y as int, w as int, h as int); }
        let idx = (px.pos.y as usize) * (w as usize) + (px.pos.x as usize);
        buf.set(idx, px.color);
        k += 1;
    }
    buf
}

/// Rendering is a function of the encoding's contents: two encodings with
/// the same canvas, overrides and polygons (a value and its clone, say)
/// render to identical rasters, with or without antialiasing.
pub proof fn render_deterministic(e: Encoding, f: Encoding, antialias: bool)
    requires
        same_encoding(e, f),
    ensures
        rendered(e, antialias) == rendered(f, antialias),
{
    let dims = e.dimensions;
    assert forall|k: nat| k <= e.polygons.len() implies #[trigger] composite(e.polygons@, antialias, dims, k)
        == composite(f.polygons@, antialias, dims, k) by {
        lemma_composite_same(e, f, antialias, k);
    }
}

proof fn lemma_composite_same(e: Encoding, f: Encoding, antialias: bool, k: nat)
    requires
        same_encoding(e, f),
        k <= e.polygons.len(),
    ensures
        composite(e.polygons@, antialias, e.dimensions, k) == composite(f.polygons@, antialias, f.dimensions, k),
    decreases k,
{
    if k > 0 {
        lemma_composite_same(e, f, antialias, (k - 1) as nat);
        let p = e.polygons@[k - 1];
        let q = f.polygons@[k - 1];
        assert(same_polygon(p, q));
        let prev = composite(e.polygons@, antialias, e.dimensions, (k - 1) as nat);
        assert(paint(prev, p, antialias, e.dimensions.0 as int) =~= paint(prev, q, antialias, e.dimensions.0 as int));
    }
}

/// Writing overrides `a + b` in order is writing `a`, then `b`.
pub proof fn lemma_overlay_concat(r: Seq<Rgb>, a: Seq<Pixel>, b: Seq<Pixel>, w: int)
    ensures
        overlay(r, a + b, w, (a.len() + b.len()) as nat) == overlay(overlay(r, a, w, a.len()), b, w, b.len()),
    decreases b.len(),
{
    if b.len() == 0 {
        assert(a + b =~= a);
        lemma_overlay_prefix(r, a, a + b, w, a.len());
    } else {
        let b0 = b.drop_last();
        lemma_overlay_concat(r, a, b0, w);
        assert((a + b).drop_last() =~= a + b0);
        lemma_overlay_prefix(r, a + b0, a + b, w, (a.len() + b0.len()) as nat);
        lemma_overlay_prefix(overlay(r, a, w, a.len()), b0, b, w, b0.len());
        assert((a + b)[a.len() + b.len() - 1] == b[b.len() - 1]);
    }
}

/// `overlay` reads only the first `k` overrides.
pub proof fn lemma_overlay_prefix(r: Seq<Rgb>, p: Seq<Pixel>, q: Seq<Pixel>, w: int, k: nat)
    requires
        k <= p.len(),
        k <= q.len(),
        forall|i: int| 0 <= i < k ==> p[i] == q[i],
    ensures
        overlay(r, p, w, k) == overlay(r, q, w, k),
    decreases k,
{
    if k > 0 {
        lemma_overlay_prefix(r, p, q, w, (k - 1) as nat);
    }
}

/// Compositing keeps the raster size.
pub proof fn lemma_composite_len(polys: Seq<Polygon>, antialias: bool, dims: (u32, u32), k: nat)
    requires
        k <= polys.len(),
    ensures
        composite(polys, antialias, dims, k).len() == dims.0 as int * dims.1 as int,
    decreases k,
{
    assert(0 <= dims.0 as int * dims.1 as int) by (nonlinear_arith);
    if k > 0 {
        lemma_composite_len(polys, antialias, dims, (k - 1) as nat);
    }
}

/// Overrides on the canvas keep the raster size.
pub proof fn lemma_overlay_len(r: Seq<Rgb>, p: Seq<Pixel>, dims: (u32, u32), k: nat)
    requires
        k <= p.len(),
        r.len() == dims.0 as int * dims.1 as int,
        forall|j: int| 0 <= j < k ==> in_canvas(#[trigger] p[j].pos, dims),
    ensures
        overlay(r, p, dims.0 as int, k).len() == r.len(),
    decreases k,
{
    if k > 0 {
        lemma_overlay_len(r, p, dims, (k - 1) as nat);
        let q = p[k - 1].pos;
        assert(in_canvas(q, dims));
        lemma_index(q.x as int, q.y as int, dims.0 as int, dims.1 as int);
    }
}

} // verus!
