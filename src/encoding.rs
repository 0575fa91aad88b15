//! The vector data model: points, polygons with cached derived geometry,
//! pixel overrides and encodings, and the point-in-polygon test.
use vstd::prelude::*;

verus! {

/// Largest canvas side; every coordinate of the model fits in 16 bits.
pub const MAX_SIDE: u32 = 65536;

/// Integer canvas coordinates, in whole pixels.
#[derive(Clone, Copy, Debug, PartialEq, Eq, Structural)]
pub struct Point {
    pub x: i64,
    pub y: i64,
}

/// Red, green, blue and alpha.
#[derive(Clone, Copy, Debug, PartialEq, Eq, Structural)]
pub struct Color {
    pub r: u8,
    pub g: u8,
    pub b: u8,
    pub a: u8,
}

/// Red, green and blue.
#[derive(Clone, Copy, Debug, PartialEq, Eq, Structural)]
pub struct Rgb {
    pub r: u8,
    pub g: u8,
    pub b: u8,
}

/// A directed segment, used for polygon edges.
#[derive(Clone, Copy, Debug, PartialEq, Eq, Structural)]
pub struct Segment {
    pub a: Point,
    pub b: Point,
}

/// An axis-aligned box given by its least and greatest corners.
#[derive(Clone, Copy, Debug, PartialEq, Eq, Structural)]
pub struct Rect {
    pub min: Point,
    pub max: Point,
}

/// Canvas sizes that the model supports.
pub open spec fn dims_ok(dims: (u32, u32)) -> bool {
    1 <= dims.0 <= MAX_SIDE && 1 <= dims.1 <= MAX_SIDE
}

/// A coordinate pair small enough for exact products in 64 bits.
pub open spec fn bounded(p: Point) -> bool {
    -(MAX_SIDE as int) <= p.x <= MAX_SIDE as int && -(MAX_SIDE as int) <= p.y <= MAX_SIDE as int
}

/// A point on the grid of a `w` by `h` canvas.
pub open spec fn in_canvas(p: Point, dims: (u32, u32)) -> bool {
    0 <= p.x < dims.0 as int && 0 <= p.y < dims.1 as int
}

/// A point with coordinates in `[0, MAX_SIDE)`.
pub open spec fn on_grid(p: Point) -> bool {
    0 <= p.x < MAX_SIDE as int && 0 <= p.y < MAX_SIDE as int
}

pub open spec fn dist_sq(a: Point, b: Point) -> int {
    (a.x - b.x) * (a.x - b.x) + (a.y - b.y) * (a.y - b.y)
}

pub open spec fn dot_of(a: Point, b: Point) -> int {
    a.x * b.x + a.y * b.y
}

/// Twice the signed area of triangle `o a b`: positive for a left turn.
pub open spec fn turn(o: Point, a: Point, b: Point) -> int {
    (a.x - o.x) * (b.y - o.y) - (a.y - o.y) * (b.x - o.x)
}

/// Clamp `v` into `[0, hi - 1]`.
pub open spec fn clamp_to(v: int, hi: int) -> int {
    if v < 0 {
        0
    } else if v > hi - 1 {
        hi - 1
    } else {
        v
    }
}

impl Point {
    pub fn distance_squared(&self, other: &Point) -> (r: i64)
        requires
            on_grid(*self),
            on_grid(*other),
        ensures
            r == dist_sq(*self, *other),
            0 <= r <= 0x2_0000_0000,
    {
        let dx = self.x - other.x;
        let dy = self.y - other.y;
        assert(0 <= dx * dx <= 0x1_0000_0000 && 0 <= dy * dy <= 0x1_0000_0000) by (nonlinear_arith)
            requires -65536 <= dx <= 65536, -65536 <= dy <= 65536;
        dx * dx + dy * dy
    }

    pub fn dot(&self, other: &Point) -> (r: i64)
        requires
            bounded(*self),
            bounded(*other),
        ensures
            r == dot_of(*self, *other),
    {
        assert(-0x1_0000_0000 <= self.x * other.x <= 0x1_0000_0000
            && -0x1_0000_0000 <= self.y * other.y <= 0x1_0000_0000) by (nonlinear_arith)
            requires bounded(*self), bounded(*other);
        self.x * other.x + self.y * other.y
    }
}

/// `turn(o, a, b)` computed exactly.
pub fn orientation(o: &Point, a: &Point, b: &Point) -> (r: i64)
    requires
        on_grid(*o),
        on_grid(*a),
        on_grid(*b),
    ensures
        r == turn(*o, *a, *b),
        -0x2_0000_0000 <= r <= 0x2_0000_0000,
{
    let (ax, ay, bx, by) = (a.x - o.x, a.y - o.y, b.x - o.x, b.y - o.y);
    assert(-0x1_0000_0000 <= ax * by <= 0x1_0000_0000 && -0x1_0000_0000 <= ay * bx <= 0x1_0000_0000)
        by (nonlinear_arith)
        requires -65536 <= ax <= 65536, -65536 <= ay <= 65536, -65536 <= bx <= 65536, -65536 <= by <= 65536;
    ax * by - ay * bx
}

// ---------------------------------------------------------------------------
// Point-in-polygon and distance to the boundary

/// The horizontal ray from `p` towards +x crosses edge `(a, b)`.
pub open spec fn crosses(a: Point, b: Point, p: Point) -> bool {
    &&& (a.y > p.y) != (b.y > p.y)
    &&& if b.y > a.y {
        (p.x - a.x) * (b.y - a.y) < (b.x - a.x) * (p.y - a.y)
    } else {
        (p.x - a.x) * (b.y - a.y) > (b.x - a.x) * (p.y - a.y)
    }
}

/// Even-odd parity of the crossings of the first `n` edges.
pub open spec fn odd_crossings(es: Seq<Segment>, p: Point, n: nat) -> bool
    decreases n,
{
    if n == 0 {
        false
    } else {
        odd_crossings(es, p, (n - 1) as nat) != crosses(es[n - 1].a, es[n - 1].b, p)
    }
}

/// `p` lies on the closed segment `ab`.
pub open spec fn on_segment(a: Point, b: Point, p: Point) -> bool {
    &&& turn(a, b, p) == 0
    &&& (a.x <= p.x <= b.x || b.x <= p.x <= a.x)
    &&& (a.y <= p.y <= b.y || b.y <= p.y <= a.y)
}

/// `p` lies on one of the first `n` edges.
pub open spec fn touches(es: Seq<Segment>, p: Point, n: nat) -> bool
    decreases n,
{
    if n == 0 {
        false
    } else {
        touches(es, p, (n - 1) as nat) || on_segment(es[n - 1].a, es[n - 1].b, p)
    }
}

/// 256 times the squared distance from `p` to segment `ab`, rounded down.
pub open spec fn seg_dist(a: Point, b: Point, p: Point) -> int {
    let (dx, dy) = (b.x - a.x, b.y - a.y);
    let mag = dx * dx + dy * dy;
    let along = (p.x - a.x) * dx + (p.y - a.y) * dy;
    if mag == 0 || along <= 0 {
        256 * dist_sq(p, a)
    } else if along >= mag {
        256 * dist_sq(p, b)
    } else {
        256 * (turn(a, b, p) * turn(a, b, p)) / mag
    }
}

/// Least `seg_dist` over the first `n >= 1` edges.
pub open spec fn min_dist(es: Seq<Segment>, p: Point, n: nat) -> int
    decreases n,
{
    if n <= 1 {
        seg_dist(es[0].a, es[0].b, p)
    } else {
        let m = min_dist(es, p, (n - 1) as nat);
        let d = seg_dist(es[n - 1].a, es[n - 1].b, p);
        if d < m {
            d
        } else {
            m
        }
    }
}

proof fn lemma_product_of_sums(x: int, y: int, z: int, w: int)
    ensures
        (x + y) * (z + w) == x * z + x * w + y * z + y * w,
{
    assert((x + y) * (z + w) == x * z + x * w + y * z + y * w) by (nonlinear_arith);
}

proof fn lemma_square_of_product(u: int, v: int)
    ensures
        (u * v) * (u * v) == (u * u) * (v * v),
{
    assert((u * v) * (u * v) == (u * u) * (v * v)) by (nonlinear_arith);
}

/// Lagrange's identity in two dimensions: `cross^2 + dot^2 = |q|^2 |d|^2`.
proof fn lemma_lagrange(qx: int, qy: int, dx: int, dy: int)
    ensures
        (qx * dy - qy * dx) * (qx * dy - qy * dx) + (qx * dx + qy * dy) * (qx * dx + qy * dy)
            == (qx * qx + qy * qy) * (dx * dx + dy * dy),
{
    let (a, b, c, d) = (qx * dy, qy * dx, qx * dx, qy * dy);
    assert((a - b) * (a - b) == a * a - 2 * (a * b) + b * b) by (nonlinear_arith);
    assert((c + d) * (c + d) == c * c + 2 * (c * d) + d * d) by (nonlinear_arith);
    assert(a * b == c * d) by (nonlinear_arith)
        requires a == qx * dy, b == qy * dx, c == qx * dx, d == qy * dy;
    lemma_square_of_product(qx, dy);
    lemma_square_of_product(qy, dx);
    lemma_square_of_product(qx, dx);
    lemma_square_of_product(qy, dy);
    lemma_product_of_sums(qx * qx, qy * qy, dx * dx, dy * dy);
}

/// `seg_dist(a, b, p)`, which never exceeds `256 * dist_sq(p, a)`.
pub fn segment_distance(a: &Point, b: &Point, p: &Point) -> (r: u64)
    requires
        on_grid(*a),
        on_grid(*b),
        on_grid(*p),
    ensures
        r == seg_dist(*a, *b, *p),
        r <= 256 * dist_sq(*p, *a),
{
    let d = Point { x: b.x - a.x, y: b.y - a.y };
    let q = Point { x: p.x - a.x, y: p.y - a.y };
    let mag = d.dot(&d);
    let along = q.dot(&d);
    let pa = p.distance_squared(a);
    assert(0 <= dist_sq(*p, *a)) by (nonlinear_arith);
    if mag == 0 || along <= 0 {
        (256 * pa) as u64
    } else if along >= mag {
        let pb = p.distance_squared(b);
        assert(0 <= dist_sq(*p, *b)) by (nonlinear_arith);
        // along >= mag puts b no farther from p than a is
        assert(dist_sq(*p, *b) <= dist_sq(*p, *a)) by (nonlinear_arith)
            requires
                along >= mag,
                mag == d.x * d.x + d.y * d.y,
                along == q.x * d.x + q.y * d.y,
                d.x == b.x - a.x, d.y == b.y - a.y, q.x == p.x - a.x, q.y == p.y - a.y;
        (256 * pb) as u64
    } else {
        let t = orientation(a, b, p);
        assert(0 <= t * t <= 0x4_0000_0000_0000_0000) by (nonlinear_arith)
            requires -0x2_0000_0000 <= t <= 0x2_0000_0000;
        let t2 = (t as i128) * (t as i128);
        proof {
            let (qx, qy, dx, dy) = (q.x as int, q.y as int, d.x as int, d.y as int);
            lemma_lagrange(qx, qy, dx, dy);
            assert(t == dx * qy - dy * qx);
            assert(t2 == (qx * dy - qy * dx) * (qx * dy - qy * dx)) by (nonlinear_arith)
                requires t == dx * qy - dy * qx, t2 == t * t;
            assert(dist_sq(*p, *a) == qx * qx + qy * qy);
            assert(0 <= along * along) by (nonlinear_arith);
            assert(t2 <= dist_sq(*p, *a) * mag);
            assert(256 * t2 / (mag as int) <= 256 * dist_sq(*p, *a)) by (nonlinear_arith)
                requires t2 <= dist_sq(*p, *a) * mag, mag > 0, t2 >= 0, dist_sq(*p, *a) >= 0;
        }
        ((256 * t2) / (mag as i128)) as u64
    }
}

// ---------------------------------------------------------------------------
// Polygons and their cached geometry

/// A pixel forced to an exact color after the polygons are composited.
#[derive(Clone, Copy, Debug)]
pub struct Pixel {
    pub pos: Point,
    pub color: Rgb,
}

/// A translucent polygon together with geometry derived from its vertices.
/// The blur factor is kept in thousandths, within `[BLUR_MIN, BLUR_MAX]`.
#[derive(Debug)]
pub struct Polygon {
    pub vertices: Vec<Point>,
    pub color: Color,
    pub blur: u32,
    /// Closed loop of consecutive vertex pairs.
    pub edges: Vec<Segment>,
    /// Vertex average, rounded down.
    pub center: Point,
    /// Largest squared distance from a vertex to `center`.
    pub max_dist: i64,
    /// Least and greatest vertex coordinates.
    pub bounding_box: Rect,
}

pub open spec fn edges_of(vs: Seq<Point>) -> Seq<Segment> {
    Seq::new(vs.len(), |i: int| Segment { a: vs[i], b: vs[(i + 1) % (vs.len() as int)] })
}

pub open spec fn sum_x(vs: Seq<Point>, n: nat) -> int
    decreases n,
{
    if n == 0 {
        0
    } else {
        sum_x(vs, (n - 1) as nat) + vs[n - 1].x
    }
}

pub open spec fn sum_y(vs: Seq<Point>, n: nat) -> int
    decreases n,
{
    if n == 0 {
        0
    } else {
        sum_y(vs, (n - 1) as nat) + vs[n - 1].y
    }
}

pub open spec fn centroid(vs: Seq<Point>) -> Point {
    Point { x: (sum_x(vs, vs.len()) / (vs.len() as int)) as i64, y: (sum_y(vs, vs.len()) / (vs.len() as int)) as i64 }
}

/// Largest squared distance from one of the first `n` vertices to `c`.
pub open spec fn spread(vs: Seq<Point>, c: Point, n: nat) -> int
    decreases n,
{
    if n == 0 {
        0
    } else {
        let m = spread(vs, c, (n - 1) as nat);
        let d = dist_sq(vs[n - 1], c);
        if d > m {
            d
        } else {
            m
        }
    }
}

pub open spec fn coord(p: Point, vertical: bool) -> int {
    if vertical {
        p.y as int
    } else {
        p.x as int
    }
}

/// Least coordinate among the first `n >= 1` vertices.
pub open spec fn least(vs: Seq<Point>, n: nat, vertical: bool) -> int
    decreases n,
{
    if n <= 1 {
        coord(vs[0], vertical)
    } else {
        let m = least(vs, (n - 1) as nat, vertical);
        let c = coord(vs[n - 1], vertical);
        if c < m {
            c
        } else {
            m
        }
    }
}

/// Greatest coordinate among the first `n >= 1` vertices.
pub open spec fn greatest(vs: Seq<Point>, n: nat, vertical: bool) -> int
    decreases n,
{
    if n <= 1 {
        coord(vs[0], vertical)
    } else {
        let m = greatest(vs, (n - 1) as nat, vertical);
        let c = coord(vs[n - 1], vertical);
        if c > m {
            c
        } else {
            m
        }
    }
}

pub open spec fn bbox_of(vs: Seq<Point>) -> Rect {
    Rect {
        min: Point { x: least(vs, vs.len(), false) as i64, y: least(vs, vs.len(), true) as i64 },
        max: Point { x: greatest(vs, vs.len(), false) as i64, y: greatest(vs, vs.len(), true) as i64 },
    }
}

pub open spec fn all_on_grid(vs: Seq<Point>) -> bool {
    forall|i: int| 0 <= i < vs.len() ==> #[trigger] on_grid(vs[i])
}

pub open spec fn all_in_canvas(vs: Seq<Point>, dims: (u32, u32)) -> bool {
    forall|i: int| 0 <= i < vs.len() ==> #[trigger] in_canvas(vs[i], dims)
}

proof fn lemma_least_bounds(vs: Seq<Point>, n: nat, vertical: bool)
    requires
        1 <= n <= vs.len(),
        all_on_grid(vs),
    ensures
        0 <= least(vs, n, vertical) < MAX_SIDE,
        0 <= greatest(vs, n, vertical) < MAX_SIDE,
        forall|i: int| 0 <= i < n ==> least(vs, n, vertical) <= #[trigger] coord(vs[i], vertical) <= greatest(vs, n, vertical),
    decreases n,
{
    assert(on_grid(vs[n - 1]));
    if n > 1 {
        lemma_least_bounds(vs, (n - 1) as nat, vertical);
    }
}

/// Two polygons with the same vertices, color, blur and cached data.
pub open spec fn same_polygon(p: Polygon, q: Polygon) -> bool {
    &&& p.vertices@ == q.vertices@
    &&& p.color == q.color
    &&& p.blur == q.blur
    &&& p.edges@ == q.edges@
    &&& p.center == q.center
    &&& p.max_dist == q.max_dist
    &&& p.bounding_box == q.bounding_box
}

impl Clone for Polygon {
    fn clone(&self) -> (r: Self)
        ensures
            same_polygon(r, *self),
    {
        let vertices = self.vertices.clone();
        let edges = self.edges.clone();
        assert(vertices@ =~= self.vertices@);
        assert(edges@ =~= self.edges@);
        Polygon {
            vertices,
            color: self.color,
            blur: self.blur,
            edges,
            center: self.center,
            max_dist: self.max_dist,
            bounding_box: self.bounding_box,
        }
    }
}

impl Polygon {
    /// Cached data agrees with `vertices`, which number at least three.
    pub open spec fn wf(&self) -> bool {
        &&& self.vertices.len() >= 3
        &&& all_on_grid(self.vertices@)
        &&& self.edges@ == edges_of(self.vertices@)
        &&& self.center == centroid(self.vertices@)
        &&& self.max_dist == spread(self.vertices@, self.center, self.vertices.len() as nat)
        &&& self.bounding_box == bbox_of(self.vertices@)
    }

    /// Well formed, with every vertex on the canvas.
    pub open spec fn within(&self, dims: (u32, u32)) -> bool {
        &&& self.wf()
        &&& all_in_canvas(self.vertices@, dims)
    }

    /// Point-in-polygon test: `p` is on the outline, or inside by the
    /// even-odd rule. Counting the outline makes the test closed, so that
    /// pixels of the last row and column can be covered.
    pub open spec fn contains(&self, p: Point) -> bool {
        ||| touches(edges_of(self.vertices@), p, self.vertices.len() as nat)
        ||| odd_crossings(edges_of(self.vertices@), p, self.vertices.len() as nat)
    }

    /// 256 times the squared distance from `p` to the boundary, rounded down.
    pub open spec fn boundary_dist(&self, p: Point) -> int {
        min_dist(edges_of(self.vertices@), p, self.vertices.len() as nat)
    }

    pub fn new(vertices: Vec<Point>, color: Color) -> (r: Polygon)
        requires
            vertices.len() >= 3,
            all_on_grid(vertices@),
        ensures
            r.wf(),
            r.vertices@ == vertices@,
            r.color == color,
            r.blur == crate::constants::BLUR_MIN,
    {
        let mut polygon = Polygon {
            vertices,
            color,
            blur: crate::constants::BLUR_MIN,
            edges: Vec::new(),
            center: Point { x: 0, y: 0 },
            max_dist: 0,
            bounding_box: Rect { min: Point { x: 0, y: 0 }, max: Point { x: 0, y: 0 } },
        };
        polygon.update_data();
        polygon
    }

    /// Recompute edges, centroid, spread and bounding box from `vertices`.
    pub fn update_data(&mut self)
        requires
            old(self).vertices.len() >= 3,
            all_on_grid(old(self).vertices@),
        ensures
            final(self).wf(),
            final(self).vertices == old(self).vertices,
            final(self).color == old(self).color,
            final(self).blur == old(self).blur,
    {
        let len = self.vertices.len();
        let mut edges: Vec<Segment> = Vec::new();
        let mut i: usize = 0;
        while i < len
            invariant
                len == self.vertices.len(),
                i <= len,
                edges@ =~= edges_of(self.vertices@).subrange(0, i as int),
            decreases len - i,
        {
            let j = if i + 1 == len { 0 } else { i + 1 };
            proof {
                if i + 1 == len {
                    vstd::arithmetic::div_mod::lemma_mod_self_0(len as int);
                } else {
                    vstd::arithmetic::div_mod::lemma_small_mod((i + 1) as nat, len as nat);
                }
            }
            edges.push(Segment { a: self.vertices[i], b: self.vertices[j] });
            i += 1;
        }
        assert(edges@ =~= edges_of(self.vertices@));

        let mut sx: i128 = 0;
        let mut sy: i128 = 0;
        let mut i: usize = 0;
        while i < len
            invariant
                len == self.vertices.len(),
                i <= len,
                all_on_grid(self.vertices@),
                sx == sum_x(self.vertices@, i as nat),
                sy == sum_y(self.vertices@, i as nat),
                0 <= sx <= i * 65535,
                0 <= sy <= i * 65535,
            decreases len - i,
        {
            assert(on_grid(self.vertices@[i as int]));
            sx = sx + self.vertices[i].x as i128;
            sy = sy + self.vertices[i].y as i128;
            i += 1;
        }
        assert((sx as int) / (len as int) < 65536 && (sy as int) / (len as int) < 65536) by (nonlinear_arith)
            requires 0 <= sx <= len * 65535, 0 <= sy <= len * 65535, len > 0;
        let center = Point { x: (sx / len as i128) as i64, y: (sy / len as i128) as i64 };
        assert(on_grid(center));

        let mut max_dist: i64 = 0;
        let mut i: usize = 0;
        while i < len
            invariant
                len == self.vertices.len(),
                i <= len,
                all_on_grid(self.vertices@),
                on_grid(center),
                max_dist == spread(self.vertices@, center, i as nat),
            decreases len - i,
        {
            assert(on_grid(self.vertices@[i as int]));
            let d = self.vertices[i].distance_squared(&center);
            if d > max_dist {
                max_dist = d;
            }
            i += 1;
        }

        let mut lo = self.vertices[0];
        let mut hi = self.vertices[0];
        let mut i: usize = 1;
        while i < len
            invariant
                len == self.vertices.len(),
                1 <= i <= len,
                lo.x == least(self.vertices@, i as nat, false),
                lo.y == least(self.vertices@, i as nat, true),
                hi.x == greatest(self.vertices@, i as nat, false),
                hi.y == greatest(self.vertices@, i as nat, true),
            decreases len - i,
        {
            let v = self.vertices[i];
            if v.x < lo.x {
                lo.x = v.x;
            }
            if v.y < lo.y {
                lo.y = v.y;
            }
            if v.x > hi.x {
                hi.x = v.x;
            }
            if v.y > hi.y {
                hi.y = v.y;
            }
            i += 1;
        }

        self.edges = edges;
        self.center = center;
        self.max_dist = max_dist;
        self.bounding_box = Rect { min: lo, max: hi };
    }
}

/// `crosses(a, b, p)` computed exactly.
pub fn edge_crosses(a: &Point, b: &Point, p: &Point) -> (r: bool)
    requires
        on_grid(*a),
        on_grid(*b),
        on_grid(*p),
    ensures
        r == crosses(*a, *b, *p),
{
    if (a.y > p.y) == (b.y > p.y) {
        return false;
    }
    let (px, dy, dx, py) = (p.x - a.x, b.y - a.y, b.x - a.x, p.y - a.y);
    assert(-0x1_0000_0000 <= px * dy <= 0x1_0000_0000 && -0x1_0000_0000 <= dx * py <= 0x1_0000_0000)
        by (nonlinear_arith)
        requires -65536 <= px <= 65536, -65536 <= dy <= 65536, -65536 <= dx <= 65536, -65536 <= py <= 65536;
    if b.y > a.y {
        px * dy < dx * py
    } else {
        px * dy > dx * py
    }
}

impl Polygon {
    /// Whether `pt` is on the outline or inside (even-odd rule) and, when `antialias` is set,
    /// 256 times the squared distance from `pt` to the nearest edge, rounded
    /// down (otherwise 0).
    pub fn query(&self, pt: &Point, antialias: bool) -> (r: (bool, u64))
        requires
            self.wf(),
            on_grid(*pt),
        ensures
            r.0 == self.contains(*pt),
            r.1 == if antialias { self.boundary_dist(*pt) } else { 0 },
    {
        let len = self.edges.len();
        let ghost es = edges_of(self.vertices@);
        let mut inside = false;
        let mut touch = false;
        let mut best: u64 = 0;
        let mut i: usize = 0;
        while i < len
            invariant
                self.wf(),
                on_grid(*pt),
                len == self.edges.len(),
                es == self.edges@,
                i <= len,
                inside == odd_crossings(es, *pt, i as nat),
                touch == touches(es, *pt, i as nat),
                antialias && i > 0 ==> best == min_dist(es, *pt, i as nat),
                !antialias ==> best == 0,
            decreases len - i,
        {
            let e = self.edges[i];
            assert(on_grid(self.vertices@[i as int]));
            assert(on_grid(self.vertices@[(i + 1) % (len as int)])) by {
                vstd::arithmetic::div_mod::lemma_mod_bound((i + 1) as int, len as int);
            }
            if edge_crosses(&e.a, &e.b, pt) {
                inside = !inside;
            }
            if !touch && orientation(&e.a, &e.b, pt) == 0 && (e.a.x <= pt.x && pt.x <= e.b.x
                || e.b.x <= pt.x && pt.x <= e.a.x) && (e.a.y <= pt.y && pt.y <= e.b.y || e.b.y
                <= pt.y && pt.y <= e.a.y) {
                touch = true;
            }
            if antialias {
                let d = segment_distance(&e.a, &e.b, pt);
                if i == 0 || d < best {
                    best = d;
                }
            }
            i += 1;
        }
        (touch || inside, best)
    }
}

// ---------------------------------------------------------------------------
// Encodings

/// An image approximation: polygons composited in order over the
/// background, then exact pixel overrides.
#[derive(Debug)]
pub struct Encoding {
    pub polygons: Vec<Polygon>,
    pub dimensions: (u32, u32),
    pub pixels: Vec<Pixel>,
}

/// Estimated byte size of an encoding with `n_pixels` overrides whose
/// polygons have the given vertex counts.
pub open spec fn size_of(vertex_counts: Seq<nat>, n_pixels: nat) -> int
    decreases vertex_counts.len(),
{
    if vertex_counts.len() == 0 {
        16 + 5 * n_pixels as int
    } else {
        size_of(vertex_counts.drop_last(), n_pixels) + 3 + 2 * vertex_counts.last()
    }
}

pub open spec fn vertex_counts(polys: Seq<Polygon>) -> Seq<nat> {
    Seq::new(polys.len(), |i: int| polys[i].vertices.len() as nat)
}

/// Two encodings with the same canvas, overrides and (pairwise the same)
/// polygons.
pub open spec fn same_encoding(e: Encoding, f: Encoding) -> bool {
    &&& e.dimensions == f.dimensions
    &&& e.pixels@ == f.pixels@
    &&& e.polygons.len() == f.polygons.len()
    &&& forall|i: int| 0 <= i < e.polygons.len() ==> same_polygon(#[trigger] e.polygons@[i], f.polygons@[i])
}

impl Clone for Encoding {
    fn clone(&self) -> (r: Self)
        ensures
            same_encoding(r, *self),
    {
        let polygons = self.polygons.clone();
        let pixels = self.pixels.clone();
        assert(pixels@ =~= self.pixels@);
        assert forall|i: int| 0 <= i < polygons.len() implies same_polygon(#[trigger] polygons@[i], self.polygons@[i]) by {
            assert(cloned(self.polygons@[i], polygons@[i]));
        }
        Encoding { polygons, dimensions: self.dimensions, pixels }
    }
}

impl Encoding {
    /// An encoding with no polygons and no overrides.
    pub fn new(dims: (u32, u32)) -> (r: Encoding)
        ensures
            r.dimensions == dims,
            r.polygons@ == Seq::<Polygon>::empty(),
            r.pixels@ == Seq::<Pixel>::empty(),
    {
        Encoding { polygons: Vec::new(), dimensions: dims, pixels: Vec::new() }
    }

    /// Canvas supported, raster size addressable, every polygon well formed
    /// on the canvas and every override on it.
    pub open spec fn wf(&self) -> bool {
        &&& dims_ok(self.dimensions)
        &&& self.dimensions.0 as int * self.dimensions.1 as int <= usize::MAX
        &&& forall|i: int| 0 <= i < self.polygons.len() ==> #[trigger] self.polygons@[i].within(self.dimensions)
        &&& forall|i: int| 0 <= i < self.pixels.len() ==> in_canvas(#[trigger] self.pixels@[i].pos, self.dimensions)
    }

    pub open spec fn size_spec(&self) -> int {
        size_of(vertex_counts(self.polygons@), self.pixels.len() as nat)
    }

    /// `16 + 5 * overrides + sum over polygons of (3 + 2 * vertices)`.
    pub fn size(&self) -> (r: u64)
        requires
            self.size_spec() <= u64::MAX,
        ensures
            r == self.size_spec(),
    {
        let ghost counts = vertex_counts(self.polygons@);
        proof { lemma_size_monotone(counts, self.pixels.len() as nat); }
        let mut size: u64 = 16 + (self.pixels.len() as u64) * 5;
        let mut i: usize = 0;
        while i < self.polygons.len()
            invariant
                i <= self.polygons.len(),
                counts == vertex_counts(self.polygons@),
                size == size_of(counts.subrange(0, i as int), self.pixels.len() as nat),
                forall|k: nat| k <= counts.len() ==> size_of(#[trigger] counts.subrange(0, k as int), self.pixels.len() as nat) <= size_of(counts, self.pixels.len() as nat),
                self.size_spec() <= u64::MAX,
            decreases self.polygons.len() - i,
        {
            assert(counts.subrange(0, i + 1).drop_last() =~= counts.subrange(0, i as int));
            size = size + 3 + 2 * (self.polygons[i].vertices.len() as u64);
            i += 1;
        }
        assert(counts.subrange(0, i as int) =~= counts);
        size
    }
}

proof fn lemma_size_monotone(counts: Seq<nat>, n_pixels: nat)
    ensures
        forall|k: nat| k <= counts.len() ==> size_of(#[trigger] counts.subrange(0, k as int), n_pixels) <= size_of(counts, n_pixels),
        size_of(counts.subrange(0, 0), n_pixels) == 16 + 5 * n_pixels,
    decreases counts.len(),
{
    assert(counts.subrange(0, 0) =~= Seq::<nat>::empty());
    if counts.len() > 0 {
        let init = counts.drop_last();
        lemma_size_monotone(init, n_pixels);
        assert forall|k: nat| k <= counts.len() implies size_of(#[trigger] counts.subrange(0, k as int), n_pixels) <= size_of(counts, n_pixels) by {
            if k < counts.len() {
                assert(counts.subrange(0, k as int) =~= init.subrange(0, k as int));
            } else {
                assert(counts.subrange(0, k as int) =~= counts);
            }
        }
    }
}

/// The corners of a well-formed polygon's bounding box lie on the grid.
pub proof fn lemma_bbox_on_grid(vs: Seq<Point>)
    requires
        vs.len() >= 1,
        all_on_grid(vs),
    ensures
        on_grid(bbox_of(vs).min),
        on_grid(bbox_of(vs).max),
{
    lemma_least_bounds(vs, vs.len(), false);
    lemma_least_bounds(vs, vs.len(), true);
}

} // verus!
