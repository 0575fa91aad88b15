//! Random polygon placement, biased towards the cells of highest error.
use vstd::prelude::*;
use crate::compress::{good_polygon, Compressor};
use crate::constants::{
    lcg_next, lcg_output, Rng, ALPHA_BAND, ALPHA_MIN, BLUR_MAX, BLUR_MIN, CHANGE_COLOR_RATE, POLY_SIZE_INIT,
    VERTICES,
};
use crate::encoding::{all_in_canvas, all_on_grid, dims_ok, in_canvas, on_grid, Color, Point, Polygon, Rgb};
use crate::hull::{drawn_from, has_corner, left_turning, order_points};
use crate::mutation::{alpha_ok, blur_ok, after_op, clamp_coord, draw_offset, rand_color, recolor, roll_alpha, roll_blur};
use crate::errormap::hot_cell;
use crate::render::{in_window, pos_of};

verus! {

/// Pixel `i` of a `w`-wide raster is within `poly`'s bounding box and
/// covered by it.
pub open spec fn covered(poly: Polygon, i: int, w: int) -> bool {
    in_window(poly, false, pos_of(i, w)) && poly.contains(pos_of(i, w))
}

/// Count and channel sums of the covered pixels among the first `n`.
pub open spec fn coverage(poly: Polygon, t: Seq<Rgb>, w: int, n: nat) -> (int, int, int, int)
    decreases n,
{
    if n == 0 {
        (0, 0, 0, 0)
    } else {
        let (k, r, g, b) = coverage(poly, t, w, (n - 1) as nat);
        let px = t[n - 1];
        if covered(poly, n - 1, w) {
            (k + 1, r + px.r, g + px.g, b + px.b)
        } else {
            (k, r, g, b)
        }
    }
}

/// Average target color of the pixels that `poly` covers among the first
/// `n`, rounded down; `None` when it covers none.
pub open spec fn covered_average(poly: Polygon, t: Seq<Rgb>, w: int, n: nat) -> Option<Rgb> {
    let (k, sr, sg, sb) = coverage(poly, t, w, n);
    if k <= 0 {
        None
    } else {
        Some(Rgb { r: (sr / k) as u8, g: (sg / k) as u8, b: (sb / k) as u8 })
    }
}

/// Average target color under `poly`, or `None` when it covers no pixel.
pub fn average_inside(poly: &Polygon, base: &Vec<Rgb>, dims: (u32, u32)) -> (r: Option<Rgb>)
    requires
        poly.wf(),
        dims_ok(dims),
        base.len() == dims.0 as int * dims.1 as int,
    ensures
        r == covered_average(*poly, base@, dims.0 as int, base.len() as nat),
{
    let w = dims.0;
    let h = dims.1;
    let n = base.len();
    assert(n <= 0x1_0000_0000) by (nonlinear_arith)
        requires n == w * h, 1 <= w <= 65536, 1 <= h <= 65536;
    let (mut k, mut sr, mut sg, mut sb): (u64, u64, u64, u64) = (0, 0, 0, 0);
    let mut i: usize = 0;
    while i < n
        invariant
            poly.wf(),
            dims_ok(dims),
            w == dims.0,
            h == dims.1,
            n == base.len(),
            n == w * h,
            n <= 0x1_0000_0000,
            i <= n,
            (k as int, sr as int, sg as int, sb as int) == coverage(*poly, base@, w as int, i as nat),
            k <= i,
            sr <= k * 255,
            sg <= k * 255,
            sb <= k * 255,
        decreases n - i,
    {
        proof { crate::render::lemma_pos(i as int, w as int, h as int); }
        let p = Point { x: (i as u64 % w as u64) as i64, y: (i as u64 / w as u64) as i64 };
        assert(p == pos_of(i as int, w as int));
        let bb = poly.bounding_box;
        let inside = if p.x < bb.min.x || p.x > bb.max.x || p.y < bb.min.y || p.y > bb.max.y {
            false
        } else {
            poly.query(&p, false).0
        };
        if inside {
            let t = base[i];
            k = k + 1;
            sr = sr + t.r as u64;
            sg = sg + t.g as u64;
            sb = sb + t.b as u64;
        }
        i += 1;
    }
    if k == 0 {
        None
    } else {
        assert(sr / k <= 255 && sg / k <= 255 && sb / k <= 255) by (nonlinear_arith)
            requires sr <= k * 255, sg <= k * 255, sb <= k * 255, k > 0;
        Some(Rgb { r: (sr / k) as u8, g: (sg / k) as u8, b: (sb / k) as u8 })
    }
}

impl Polygon {
    /// Random polygon generator. The origin falls in one of the four cells
    /// of highest accumulated error when the error map holds any error, and
    /// anywhere on the canvas otherwise; the other vertices are scattered
    /// around it, and `from_scatter` does the rest.
    pub fn random(compressor: &Compressor, rng: &mut Rng) -> (r: Option<Polygon>)
        requires
            compressor.wf(),
        ensures
            r.is_some() ==> good_polygon(r.unwrap(), compressor.dimensions),
            r.is_some() ==> left_turning(r.unwrap().vertices@),
            r.is_some() ==> covered_average(r.unwrap(), compressor.base@, compressor.dimensions.0 as int, compressor.base.len() as nat).is_some(),
    {
        let vertices = compressor.scatter(rng);
        let ghost vs = vertices@;
        let ghost s = rng.state;
        let r = Polygon::from_scatter(vertices, compressor, rng);
        proof {
            if r.is_some() {
                lemma_colored_good(r.unwrap(), vs, *compressor, s);
            }
        }
        r
    }

    /// The generator's work on scattered `vertices`: hull-order them; `None`
    /// when the hull has fewer than three corners or covers no target pixel;
    /// otherwise the polygon colored with the covered average, each channel
    /// passed through the recolor operator, with fresh alpha and blur.
    pub fn from_scatter(vertices: Vec<Point>, compressor: &Compressor, rng: &mut Rng) -> (r: Option<Polygon>)
        requires
            compressor.wf(),
            all_in_canvas(vertices@, compressor.dimensions),
        ensures
            !has_corner(vertices@) ==> r.is_none(),
            r.is_none() && has_corner(vertices@) ==> exists|q: Polygon| #[trigger] barren_hull(q, vertices@, *compressor),
            r.is_some() ==> colored_hull(r.unwrap(), vertices@, *compressor, old(rng).state),
    {
        let dims = compressor.dimensions;
        let ghost scattered = vertices@;
        let polygon = match hull_polygon(vertices, dims) {
            Some(p) => p,
            None => {
                return None;
            },
        };
        finish(polygon, Ghost(scattered), compressor, rng)
    }
}

/// The generator's last step on the uncolored hull polygon `polygon`.
fn finish(polygon: Polygon, vs: Ghost<Seq<Point>>, compressor: &Compressor, rng: &mut Rng) -> (r: Option<Polygon>)
    requires
        compressor.wf(),
        polygon.within(compressor.dimensions),
        left_turning(polygon.vertices@),
        drawn_from(polygon.vertices@, vs@),
    ensures
        r.is_none() ==> barren_hull(polygon, vs@, *compressor),
        r.is_some() ==> colored_hull(r.unwrap(), vs@, *compressor, old(rng).state),
{
    let dims = compressor.dimensions;
    let avg = match average_inside(&polygon, &compressor.base, dims) {
        Some(a) => a,
        None => {
            proof { lemma_barren(polygon, vs@, *compressor); }
            return None;
        },
    };
    let ghost shape = polygon;
    let ghost s0 = rng.state;
    let p = tint(polygon, avg, rng);
    proof { lemma_colored(shape, p, avg, vs@, *compressor, s0); }
    Some(p)
}

/// The polygon on the hull of `vertices`, uncolored; `None` when the hull
/// has fewer than three corners.
fn hull_polygon(vertices: Vec<Point>, dims: (u32, u32)) -> (r: Option<Polygon>)
    requires
        dims_ok(dims),
        all_in_canvas(vertices@, dims),
    ensures
        r.is_none() <==> !has_corner(vertices@),
        r.is_some() ==> r.unwrap().within(dims) && left_turning(r.unwrap().vertices@) && drawn_from(r.unwrap().vertices@, vertices@),
{
    proof { lemma_in_canvas_on_grid(vertices@, dims); }
    let ghost scattered = vertices@;
    let hull = order_points(vertices);
    if hull.len() < 3 {
        return None;
    }
    assert forall|j: int| 0 <= j < hull.len() implies #[trigger] in_canvas(hull@[j], dims) by {
        assert(scattered.contains(hull@[j]));
    }
    Some(Polygon::new(hull, Color { r: 0, g: 0, b: 0, a: 0 }))
}

/// `p` with color `avg` passed channel by channel through the recolor
/// operator, then fresh alpha and blur.
fn tint(p: Polygon, avg: Rgb, rng: &mut Rng) -> (r: Polygon)
    ensures
        r.vertices == p.vertices,
        r.edges == p.edges,
        r.center == p.center,
        r.max_dist == p.max_dist,
        r.bounding_box == p.bounding_box,
        ({
            let s = old(rng).state;
            let s_g = after_op(s, CHANGE_COLOR_RATE);
            let s_b = after_op(s_g, CHANGE_COLOR_RATE);
            let s_a = after_op(s_b, CHANGE_COLOR_RATE);
            &&& r.color.r == recolor(s, avg.r)
            &&& r.color.g == recolor(s_g, avg.g)
            &&& r.color.b == recolor(s_b, avg.b)
            &&& r.color.a == ALPHA_MIN + lcg_output(lcg_next(s_a)) % ALPHA_BAND
            &&& r.blur == BLUR_MIN + lcg_output(lcg_next(lcg_next(s_a))) % ((BLUR_MAX - BLUR_MIN + 1) as u64)
        }),
        alpha_ok(r.color.a),
        blur_ok(r.blur),
{
    let mut p = p;
    let r = rand_color(rng, avg.r);
    let g = rand_color(rng, avg.g);
    let b = rand_color(rng, avg.b);
    let a = roll_alpha(rng);
    p.color = Color { r, g, b, a };
    p.blur = roll_blur(rng);
    p
}

/// `q` is a hull-ordered polygon drawn from `vs` that covers no target
/// pixel.
#[verifier::opaque]
pub open spec fn barren_hull(q: Polygon, vs: Seq<Point>, c: Compressor) -> bool {
    &&& q.within(c.dimensions)
    &&& left_turning(q.vertices@)
    &&& drawn_from(q.vertices@, vs)
    &&& covered_average(q, c.base@, c.dimensions.0 as int, c.base.len() as nat).is_none()
}

/// `p` is a hull-ordered polygon drawn from `vs` that covers some target
/// pixels, colored with their average passed channel by channel through the
/// recolor operator from generator state `s`, then given fresh alpha and
/// blur.
#[verifier::opaque]
pub open spec fn colored_hull(p: Polygon, vs: Seq<Point>, c: Compressor, s: u64) -> bool {
    let avg = covered_average(p, c.base@, c.dimensions.0 as int, c.base.len() as nat);
    let s_g = after_op(s, CHANGE_COLOR_RATE);
    let s_b = after_op(s_g, CHANGE_COLOR_RATE);
    let s_a = after_op(s_b, CHANGE_COLOR_RATE);
    &&& good_polygon(p, c.dimensions)
    &&& left_turning(p.vertices@)
    &&& drawn_from(p.vertices@, vs)
    &&& avg.is_some()
    &&& p.color.r == recolor(s, avg.unwrap().r)
    &&& p.color.g == recolor(s_g, avg.unwrap().g)
    &&& p.color.b == recolor(s_b, avg.unwrap().b)
    &&& p.color.a == ALPHA_MIN + lcg_output(lcg_next(s_a)) % ALPHA_BAND
    &&& p.blur == BLUR_MIN + lcg_output(lcg_next(lcg_next(s_a))) % ((BLUR_MAX - BLUR_MIN + 1) as u64)
}

proof fn lemma_barren(q: Polygon, vs: Seq<Point>, c: Compressor)
    requires
        q.within(c.dimensions),
        left_turning(q.vertices@),
        drawn_from(q.vertices@, vs),
        covered_average(q, c.base@, c.dimensions.0 as int, c.base.len() as nat).is_none(),
    ensures
        barren_hull(q, vs, c),
{
    reveal(barren_hull);
}

proof fn lemma_colored(shape: Polygon, p: Polygon, avg: Rgb, vs: Seq<Point>, c: Compressor, s: u64)
    requires
        shape.within(c.dimensions),
        left_turning(shape.vertices@),
        drawn_from(shape.vertices@, vs),
        covered_average(shape, c.base@, c.dimensions.0 as int, c.base.len() as nat) == Some(avg),
        p.vertices == shape.vertices,
        p.edges == shape.edges,
        p.center == shape.center,
        p.max_dist == shape.max_dist,
        p.bounding_box == shape.bounding_box,
        ({
            let s_g = after_op(s, CHANGE_COLOR_RATE);
            let s_b = after_op(s_g, CHANGE_COLOR_RATE);
            let s_a = after_op(s_b, CHANGE_COLOR_RATE);
            &&& p.color.r == recolor(s, avg.r)
            &&& p.color.g == recolor(s_g, avg.g)
            &&& p.color.b == recolor(s_b, avg.b)
            &&& p.color.a == ALPHA_MIN + lcg_output(lcg_next(s_a)) % ALPHA_BAND
            &&& p.blur == BLUR_MIN + lcg_output(lcg_next(lcg_next(s_a))) % ((BLUR_MAX - BLUR_MIN + 1) as u64)
        }),
        alpha_ok(p.color.a),
        blur_ok(p.blur),
    ensures
        colored_hull(p, vs, c, s),
{
    reveal(colored_hull);
    lemma_coverage_shape(shape, p, c.base@, c.dimensions.0 as int, c.base.len() as nat);
}

proof fn lemma_colored_good(p: Polygon, vs: Seq<Point>, c: Compressor, s: u64)
    requires
        colored_hull(p, vs, c, s),
    ensures
        good_polygon(p, c.dimensions),
        left_turning(p.vertices@),
        covered_average(p, c.base@, c.dimensions.0 as int, c.base.len() as nat).is_some(),
{
    reveal(colored_hull);
}

/// `coverage` reads a polygon only through its vertices and bounding box.
proof fn lemma_coverage_shape(p: Polygon, q: Polygon, t: Seq<Rgb>, w: int, n: nat)
    requires
        p.vertices@ == q.vertices@,
        p.bounding_box == q.bounding_box,
    ensures
        coverage(p, t, w, n) == coverage(q, t, w, n),
    decreases n,
{
    if n > 0 {
        lemma_coverage_shape(p, q, t, w, (n - 1) as nat);
        assert(covered(p, n - 1, w) == covered(q, n - 1, w));
    }
}

proof fn lemma_in_canvas_on_grid(vs: Seq<Point>, dims: (u32, u32))
    requires
        dims_ok(dims),
        all_in_canvas(vs, dims),
    ensures
        all_on_grid(vs),
{
    assert forall|i: int| 0 <= i < vs.len() implies #[trigger] on_grid(vs[i]) by {
        assert(in_canvas(vs[i], dims));
    }
}

impl Compressor {
    /// Scattered vertices for a new polygon: the origin, then
    /// `VERTICES - 1` points within `POLY_SIZE_INIT / 2` of it on each
    /// axis, clamped onto the canvas.
    pub fn scatter(&self, rng: &mut Rng) -> (r: Vec<Point>)
        requires
            self.wf(),
        ensures
            r.len() == VERTICES,
            all_in_canvas(r@, self.dimensions),
    {
        let dims = self.dimensions;
        let w = dims.0;
        let h = dims.1;
        let origin = self.pick_origin(rng);
        let mut vertices: Vec<Point> = Vec::new();
        vertices.push(origin);
        let mut i: usize = 1;
        while i < VERTICES
            invariant
                dims_ok(dims),
                w == dims.0,
                h == dims.1,
                1 <= i <= VERTICES,
                vertices.len() == i,
                in_canvas(origin, dims),
                forall|j: int| 0 <= j < vertices.len() ==> #[trigger] in_canvas(vertices@[j], dims),
            decreases VERTICES - i,
        {
            let ox = draw_offset(rng, POLY_SIZE_INIT);
            let oy = draw_offset(rng, POLY_SIZE_INIT);
            vertices.push(Point { x: clamp_coord(origin.x + ox, w), y: clamp_coord(origin.y + oy, h) });
            i += 1;
        }
        vertices
    }
}

impl Compressor {
    /// Origin of a new polygon: a uniform point of one of the four cells
    /// of highest error when the map holds any error, else of the canvas.
    fn pick_origin(&self, rng: &mut Rng) -> (r: Point)
        requires
            self.wf(),
        ensures
            in_canvas(r, self.dimensions),
    {
        let w = self.dimensions.0;
        let h = self.dimensions.1;
        let mut hot = false;
        let mut c: usize = 0;
        while c < 64
            invariant
                self.wf(),
                c <= 64,
            decreases 64 - c,
        {
            if self.error[c] > 0 {
                hot = true;
            }
            c += 1;
        }
        if hot {
            let k = rng.below(4);
            let cell = hot_cell(&self.error, k) as u64;
            let (cx, cy) = (cell % 8, cell / 8);
            assert(cx * (w as u64) <= 7 * 65536 && cy * (h as u64) <= 7 * 65536 && (cx + 1) * (w as u64) <= 8 * 65536
                && (cy + 1) * (h as u64) <= 8 * 65536) by (nonlinear_arith)
                requires cx < 8, cy < 8, w <= 65536, h <= 65536;
            let x0 = cx * (w as u64) / 8;
            let x1 = (cx + 1) * (w as u64) / 8;
            let y0 = cy * (h as u64) / 8;
            let y1 = (cy + 1) * (h as u64) / 8;
            assert(x0 <= x1 <= w && y0 <= y1 <= h) by (nonlinear_arith)
                requires
                    x0 == cx * w / 8, x1 == (cx + 1) * w / 8, cx < 8,
                    y0 == cy * h / 8, y1 == (cy + 1) * h / 8, cy < 8;
            let dx = rng.below(if x1 > x0 { x1 - x0 } else { 1 });
            let dy = rng.below(if y1 > y0 { y1 - y0 } else { 1 });
            Point { x: clamp_coord((x0 + dx) as i64, w), y: clamp_coord((y0 + dy) as i64, h) }
        } else {
            let x = rng.below(w as u64);
            let y = rng.below(h as u64);
            Point { x: x as i64, y: y as i64 }
        }
    }
}

} // verus!
