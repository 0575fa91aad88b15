//! Mutation operators on points and polygons.
use vstd::prelude::*;
use crate::compress::Compressor;
use crate::constants::{
    ADD_VERTEX_RATE, ALPHA_BAND, ALPHA_MIN, BLUR_MAX, BLUR_MIN, CHANGE_BLUR_RATE, CHANGE_COLOR_MAX,
    CHANGE_COLOR_RATE, FIRE, MOVE_VERTEX_MAX, MOVE_VERTEX_RATE, REMOVE_VERTEX_RATE, Rng, lcg_next,
    lcg_output, should_mutate,
};
use crate::encoding::{
    all_in_canvas, all_on_grid, clamp_to, dims_ok, in_canvas, on_grid, Color, Point, Polygon,
};
use crate::hull::{drawn_from, left_turning, order_points};

verus! {

/// Alpha within the band `[ALPHA_MIN, ALPHA_MIN + ALPHA_BAND)`.
pub open spec fn alpha_ok(a: u8) -> bool {
    ALPHA_MIN <= a < ALPHA_MIN + ALPHA_BAND
}

pub open spec fn blur_ok(b: u32) -> bool {
    BLUR_MIN <= b <= BLUR_MAX
}

/// The draw taken by the next generator step fires an operator of this rate.
pub open spec fn fires(state: u64, rate: u64) -> bool {
    lcg_output(lcg_next(state)) % rate == FIRE
}

/// Offset in `[-half_width, half_width]` drawn by the step after `state`.
pub open spec fn offset(state: u64, width: u64) -> int {
    (lcg_output(lcg_next(state)) as int) % (width as int + 1) - (width / 2) as int
}

pub open spec fn clamp_channel(v: int) -> u8 {
    (if v < 0 {
        0
    } else if v > 255 {
        255
    } else {
        v
    }) as u8
}

/// Clamp `v` into `[0, hi - 1]` for `hi >= 1`.
pub fn clamp_coord(v: i64, hi: u32) -> (r: i64)
    requires
        hi >= 1,
    ensures
        r == clamp_to(v as int, hi as int),
{
    if v < 0 {
        0
    } else if v > hi as i64 - 1 {
        hi as i64 - 1
    } else {
        v
    }
}

/// Uniform offset in `[-width/2, width/2]`, for even `width`.
pub fn draw_offset(rng: &mut Rng, width: u64) -> (r: i64)
    requires
        width <= 1000,
    ensures
        final(rng).state == lcg_next(old(rng).state),
        r == offset(old(rng).state, width),
        -(width as int) <= r <= width,
{
    let v = rng.below(width + 1);
    v as i64 - (width / 2) as i64
}

impl Point {
    /// Move-vertex operator: when it fires, both coordinates move by an
    /// offset in `[-MOVE_VERTEX_MAX/2, MOVE_VERTEX_MAX/2]` and are clamped
    /// onto the canvas. Returns whether the operator fired.
    pub fn mutate(&mut self, rng: &mut Rng, dims: (u32, u32)) -> (r: bool)
        requires
            dims_ok(dims),
            in_canvas(*old(self), dims),
        ensures
            r == fires(old(rng).state, MOVE_VERTEX_RATE),
            in_canvas(*final(self), dims),
            !r ==> *final(self) == *old(self) && final(rng).state == lcg_next(old(rng).state),
            r ==> ({
                let s1 = lcg_next(old(rng).state);
                let s2 = lcg_next(s1);
                &&& final(self).x == clamp_to(old(self).x + offset(s1, MOVE_VERTEX_MAX), dims.0 as int)
                &&& final(self).y == clamp_to(old(self).y + offset(s2, MOVE_VERTEX_MAX), dims.1 as int)
                &&& final(rng).state == lcg_next(s2)
            }),
    {
        let mutated = should_mutate(rng, MOVE_VERTEX_RATE);
        if mutated {
            let dx = draw_offset(rng, MOVE_VERTEX_MAX);
            let dy = draw_offset(rng, MOVE_VERTEX_MAX);
            self.x = clamp_coord(self.x + dx, dims.0);
            self.y = clamp_coord(self.y + dy, dims.1);
        }
        mutated
    }
}

/// Recolor operator on one channel: when it fires, `base` moves by an
/// offset in `[-CHANGE_COLOR_MAX/2, CHANGE_COLOR_MAX/2]`, clamped to a byte.
pub fn rand_color(rng: &mut Rng, base: u8) -> (r: u8)
    ensures
        fires(old(rng).state, CHANGE_COLOR_RATE) ==> ({
            let s1 = lcg_next(old(rng).state);
            &&& r == clamp_channel(base + offset(s1, CHANGE_COLOR_MAX))
            &&& final(rng).state == lcg_next(s1)
        }),
        !fires(old(rng).state, CHANGE_COLOR_RATE) ==> r == base && final(rng).state == lcg_next(old(rng).state),
{
    if should_mutate(rng, CHANGE_COLOR_RATE) {
        let v = base as i64 + draw_offset(rng, CHANGE_COLOR_MAX);
        if v < 0 {
            0
        } else if v > 255 {
            255
        } else {
            v as u8
        }
    } else {
        base
    }
}

/// A fresh alpha in the band.
pub fn roll_alpha(rng: &mut Rng) -> (r: u8)
    ensures
        alpha_ok(r),
        r == ALPHA_MIN + lcg_output(final(rng).state) % ALPHA_BAND,
        final(rng).state == lcg_next(old(rng).state),
{
    ALPHA_MIN + rng.below(ALPHA_BAND) as u8
}

/// A fresh blur factor in `[BLUR_MIN, BLUR_MAX]`.
pub fn roll_blur(rng: &mut Rng) -> (r: u32)
    ensures
        blur_ok(r),
        r == BLUR_MIN + lcg_output(final(rng).state) % ((BLUR_MAX - BLUR_MIN + 1) as u64),
        final(rng).state == lcg_next(old(rng).state),
{
    BLUR_MIN + rng.below((BLUR_MAX - BLUR_MIN + 1) as u64) as u32
}

impl Polygon {
    /// `rand_color` applied to one channel of this polygon's color.
    pub fn rand_color(&self, rng: &mut Rng, base: u8) -> (r: u8)
        ensures
            fires(old(rng).state, CHANGE_COLOR_RATE) ==> ({
                let s1 = lcg_next(old(rng).state);
                &&& r == clamp_channel(base + offset(s1, CHANGE_COLOR_MAX))
                &&& final(rng).state == lcg_next(s1)
            }),
            !fires(old(rng).state, CHANGE_COLOR_RATE) ==> r == base && final(rng).state == lcg_next(old(rng).state),
    {
        rand_color(rng, base)
    }

    /// Apply every polygon-level operator once: recolor each channel,
    /// reroll alpha, move vertices (re-ordering into hull order when any
    /// moved), add a midpoint vertex, remove a vertex (never below three),
    /// reroll blur. The outcome is `mutated(old, new, s)` for the generator
    /// state `s` at the call, and the generator ends in
    /// `mutate_state(s, old vertex count)`.
    pub fn mutate(&mut self, compressor: &Compressor, rng: &mut Rng)
        requires
            compressor.wf(),
            old(self).within(compressor.dimensions),
        ensures
            final(self).within(compressor.dimensions),
            mutated(*old(self), *final(self), old(rng).state),
            final(rng).state == mutate_state(old(rng).state, old(self).vertices.len() as nat),
            alpha_ok(old(self).color.a) ==> alpha_ok(final(self).color.a),
            blur_ok(old(self).blur) ==> blur_ok(final(self).blur),
    {
        let dims = compressor.dimensions;
        let ghost s0 = rng.state;
        let ghost p0 = *self;
        self.mutate_color(rng);
        let ghost p1 = *self;
        self.move_vertices(rng, dims);
        let ghost p2 = *self;
        self.add_vertex(rng, dims);
        let ghost p3 = *self;
        self.remove_vertex(rng, dims);
        let ghost p4 = *self;
        if should_mutate(rng, CHANGE_BLUR_RATE) {
            self.blur = roll_blur(rng);
        }
        proof { lemma_mutated_chain(p0, p1, p2, p3, p4, *self, s0); }
    }

    /// Recolor each channel, then maybe reroll alpha.
    pub fn mutate_color(&mut self, rng: &mut Rng)
        ensures
            final(self).vertices == old(self).vertices,
            final(self).edges == old(self).edges,
            final(self).center == old(self).center,
            final(self).max_dist == old(self).max_dist,
            final(self).bounding_box == old(self).bounding_box,
            final(self).blur == old(self).blur,
            ({
                let s0 = old(rng).state;
                let sg = after_op(s0, CHANGE_COLOR_RATE);
                let sb = after_op(sg, CHANGE_COLOR_RATE);
                let sa = after_op(sb, CHANGE_COLOR_RATE);
                &&& final(self).color.r == recolor(s0, old(self).color.r)
                &&& final(self).color.g == recolor(sg, old(self).color.g)
                &&& final(self).color.b == recolor(sb, old(self).color.b)
                &&& final(self).color.a == reroll_alpha(sa, old(self).color.a)
                &&& final(rng).state == after_op(sa, CHANGE_COLOR_RATE)
            }),
            alpha_ok(old(self).color.a) ==> alpha_ok(final(self).color.a),
    {
        let r = rand_color(rng, self.color.r);
        let g = rand_color(rng, self.color.g);
        let b = rand_color(rng, self.color.b);
        let a = if should_mutate(rng, CHANGE_COLOR_RATE) { roll_alpha(rng) } else { self.color.a };
        self.color = Color { r, g, b, a };
    }

    /// Move-vertex operator on every vertex; if any moved, re-order into
    /// hull order, or keep the old vertices when the hull has fewer than
    /// three corners.
    pub fn move_vertices(&mut self, rng: &mut Rng, dims: (u32, u32))
        requires
            dims_ok(dims),
            old(self).within(dims),
        ensures
            final(self).within(dims),
            final(self).color == old(self).color,
            final(self).blur == old(self).blur,
            final(rng).state == after_moves(old(rng).state, old(self).vertices.len() as nat),
            final(self).vertices.len() <= old(self).vertices.len(),
            !any_moved(old(rng).state, old(self).vertices.len() as nat) ==> final(self).vertices@ == old(self).vertices@,
            any_moved(old(rng).state, old(self).vertices.len() as nat) ==> left_turning(final(self).vertices@)
                || final(self).vertices@ == old(self).vertices@,
    {
        let ghost s0 = rng.state;
        let before = self.vertices.clone();
        assert(before@ =~= self.vertices@);
        let len = self.vertices.len();
        let mut moved = false;
        let mut i: usize = 0;
        while i < len
            invariant
                dims_ok(dims),
                len == self.vertices.len(),
                i <= len,
                all_in_canvas(self.vertices@, dims),
                all_in_canvas(before@, dims),
                before@.len() >= 3,
                !moved ==> self.vertices@ == before@,
                moved == any_moved(s0, i as nat),
                rng.state == after_moves(s0, i as nat),
                self.color == old(self).color,
                self.blur == old(self).blur,
                self.edges == old(self).edges,
                self.center == old(self).center,
                self.max_dist == old(self).max_dist,
                self.bounding_box == old(self).bounding_box,
                before@ == old(self).vertices@,
            decreases len - i,
        {
            let mut v = self.vertices[i];
            assert(in_canvas(self.vertices@[i as int], dims));
            let m = v.mutate(rng, dims);
            if m {
                moved = true;
            }
            let ghost pre = self.vertices@;
            self.vertices.set(i, v);
            assert forall|j: int| 0 <= j < self.vertices@.len() implies #[trigger] in_canvas(self.vertices@[j], dims) by {
                if j != i {
                    assert(self.vertices@[j] == pre[j]);
                }
            }
            proof {
                if !m {
                    assert(self.vertices@ =~= pre);
                }
            }
            i += 1;
        }
        proof { lemma_canvas_grid(self.vertices@, dims); lemma_canvas_grid(before@, dims); }
        if moved {
            let hull = order_points(self.vertices.clone());
            if hull.len() >= 3 {
                proof { lemma_drawn_in_canvas(hull@, self.vertices@, dims); lemma_canvas_grid(hull@, dims); }
                self.vertices = hull;
            } else {
                self.vertices = before;
            }
            self.update_data();
        }
    }

    /// Add-vertex operator: insert the midpoint of a random adjacent pair.
    pub fn add_vertex(&mut self, rng: &mut Rng, dims: (u32, u32))
        requires
            dims_ok(dims),
            old(self).within(dims),
        ensures
            final(self).within(dims),
            final(self).color == old(self).color,
            final(self).blur == old(self).blur,
            final(rng).state == after_op(old(rng).state, ADD_VERTEX_RATE),
            final(self).vertices.len() == old(self).vertices.len() + if fires(old(rng).state, ADD_VERTEX_RATE) { 1int } else { 0int },
            !fires(old(rng).state, ADD_VERTEX_RATE) ==> final(self).vertices@ == old(self).vertices@,
    {
        if should_mutate(rng, ADD_VERTEX_RATE) {
            let n = self.vertices.len();
            let index = rng.below((n - 1) as u64) as usize;
            let u = self.vertices[index];
            let v = self.vertices[index + 1];
            assert(in_canvas(self.vertices@[index as int], dims) && in_canvas(self.vertices@[index + 1], dims));
            let mid = Point { x: (u.x + v.x) / 2, y: (u.y + v.y) / 2 };
            let ghost pre = self.vertices@;
            self.vertices.insert(index + 1, mid);
            assert forall|j: int| 0 <= j < self.vertices@.len() implies #[trigger] in_canvas(self.vertices@[j], dims) by {
                if j < index + 1 {
                    assert(self.vertices@[j] == pre[j]);
                } else if j > index + 1 {
                    assert(self.vertices@[j] == pre[j - 1]);
                }
            }
            proof { lemma_canvas_grid(self.vertices@, dims); }
            self.update_data();
        }
    }

    /// Remove-vertex operator, guarded so that three vertices remain. The
    /// index is drawn whenever the operator fires.
    pub fn remove_vertex(&mut self, rng: &mut Rng, dims: (u32, u32))
        requires
            dims_ok(dims),
            old(self).within(dims),
        ensures
            final(self).within(dims),
            final(self).color == old(self).color,
            final(self).blur == old(self).blur,
            final(rng).state == after_op(old(rng).state, REMOVE_VERTEX_RATE),
            final(self).vertices.len() == old(self).vertices.len()
                - if fires(old(rng).state, REMOVE_VERTEX_RATE) && old(self).vertices.len() > 3 { 1int } else { 0int },
            !(fires(old(rng).state, REMOVE_VERTEX_RATE) && old(self).vertices.len() > 3) ==> final(self).vertices@ == old(self).vertices@,
    {
        if should_mutate(rng, REMOVE_VERTEX_RATE) {
            let n = self.vertices.len();
            let index = rng.below(n as u64) as usize;
            if n > 3 {
                let ghost pre = self.vertices@;
                self.vertices.remove(index);
                assert forall|j: int| 0 <= j < self.vertices@.len() implies #[trigger] in_canvas(self.vertices@[j], dims) by {
                    if j < index {
                        assert(self.vertices@[j] == pre[j]);
                    } else {
                        assert(self.vertices@[j] == pre[j + 1]);
                    }
                }
                proof { lemma_canvas_grid(self.vertices@, dims); }
                self.update_data();
            }
        }
    }
}

/// State after an operator of `rate` that takes one more draw when it fires.
pub open spec fn after_op(s: u64, rate: u64) -> u64 {
    if fires(s, rate) {
        lcg_next(lcg_next(s))
    } else {
        lcg_next(s)
    }
}

/// Channel value after the recolor operator, starting from state `s`.
pub open spec fn recolor(s: u64, base: u8) -> u8 {
    if fires(s, CHANGE_COLOR_RATE) {
        clamp_channel(base + offset(lcg_next(s), CHANGE_COLOR_MAX))
    } else {
        base
    }
}

/// Alpha after the reroll-alpha operator, starting from state `s`.
pub open spec fn reroll_alpha(s: u64, a: u8) -> u8 {
    if fires(s, CHANGE_COLOR_RATE) {
        (ALPHA_MIN + lcg_output(lcg_next(lcg_next(s))) % ALPHA_BAND) as u8
    } else {
        a
    }
}

/// Blur after the reroll-blur operator, starting from state `s`.
pub open spec fn reroll_blur(s: u64, b: u32) -> u32 {
    if fires(s, CHANGE_BLUR_RATE) {
        (BLUR_MIN + lcg_output(lcg_next(lcg_next(s))) % ((BLUR_MAX - BLUR_MIN + 1) as u64)) as u32
    } else {
        b
    }
}

/// State after the move-vertex operator on one vertex.
pub open spec fn after_move(s: u64) -> u64 {
    if fires(s, MOVE_VERTEX_RATE) {
        lcg_next(lcg_next(lcg_next(s)))
    } else {
        lcg_next(s)
    }
}

/// State after the move-vertex operator on `n` vertices.
pub open spec fn after_moves(s: u64, n: nat) -> u64
    decreases n,
{
    if n == 0 {
        s
    } else {
        after_move(after_moves(s, (n - 1) as nat))
    }
}

/// The move-vertex operator fires on one of `n` vertices.
pub open spec fn any_moved(s: u64, n: nat) -> bool
    decreases n,
{
    if n == 0 {
        false
    } else {
        any_moved(s, (n - 1) as nat) || fires(after_moves(s, (n - 1) as nat), MOVE_VERTEX_RATE)
    }
}

/// State at the move step of a polygon mutation started in state `s`.
pub open spec fn move_state(s: u64) -> u64 {
    after_op(after_op(after_op(after_op(s, CHANGE_COLOR_RATE), CHANGE_COLOR_RATE), CHANGE_COLOR_RATE), CHANGE_COLOR_RATE)
}

/// State after a whole polygon mutation started in state `s` on `n` vertices.
pub open spec fn mutate_state(s: u64, n: nat) -> u64 {
    let s_add = after_moves(move_state(s), n);
    let s_rem = after_op(s_add, ADD_VERTEX_RATE);
    let s_blur = after_op(s_rem, REMOVE_VERTEX_RATE);
    after_op(s_blur, CHANGE_BLUR_RATE)
}

/// Vertex count after moving (`n2` corners kept), adding and removing.
pub open spec fn move_outcome(old: Polygon, n2: nat, s_move: u64, s_add: u64, s_rem: u64, len: nat) -> bool {
    let added: int = if fires(s_add, ADD_VERTEX_RATE) { 1 } else { 0 };
    let removed: int = if fires(s_rem, REMOVE_VERTEX_RATE) && n2 + added > 3 { 1 } else { 0 };
    &&& 3 <= n2 <= old.vertices.len()
    &&& !any_moved(s_move, old.vertices.len() as nat) ==> n2 == old.vertices.len()
    &&& len == n2 + added - removed
}

/// After a move with no vertex added or removed, the vertices are in hull
/// order (or unchanged, when the moved points were collinear).
pub open spec fn convexity_kept(old: Polygon, n2: nat, s_move: u64, s_add: u64, s_rem: u64, vs: Seq<Point>) -> bool {
    any_moved(s_move, old.vertices.len() as nat) && !fires(s_add, ADD_VERTEX_RATE)
        && !(fires(s_rem, REMOVE_VERTEX_RATE) && n2 > 3) ==> left_turning(vs) || vs == old.vertices@
}

/// `new` is what `Polygon::mutate` makes of `old` from generator state `s`:
/// channels recolored and alpha and blur rerolled by their draws, the vertex
/// count changed by exactly the add and remove draws that fired.
pub open spec fn mutated(old: Polygon, new: Polygon, s: u64) -> bool {
    let sg = after_op(s, CHANGE_COLOR_RATE);
    let sb = after_op(sg, CHANGE_COLOR_RATE);
    let sa = after_op(sb, CHANGE_COLOR_RATE);
    let s_move = move_state(s);
    let s_add = after_moves(s_move, old.vertices.len() as nat);
    let s_rem = after_op(s_add, ADD_VERTEX_RATE);
    let s_blur = after_op(s_rem, REMOVE_VERTEX_RATE);
    &&& new.color.r == recolor(s, old.color.r)
    &&& new.color.g == recolor(sg, old.color.g)
    &&& new.color.b == recolor(sb, old.color.b)
    &&& new.color.a == reroll_alpha(sa, old.color.a)
    &&& new.blur == reroll_blur(s_blur, old.blur)
    &&& exists|n2: nat|
        #[trigger] move_outcome(old, n2, s_move, s_add, s_rem, new.vertices@.len())
            && convexity_kept(old, n2, s_move, s_add, s_rem, new.vertices@)
}

/// The steps of `Polygon::mutate`, chained.
proof fn lemma_mutated_chain(p0: Polygon, p1: Polygon, p2: Polygon, p3: Polygon, p4: Polygon, p5: Polygon, s0: u64)
    requires
        p0.vertices.len() >= 3,
        ({
            let sg = after_op(s0, CHANGE_COLOR_RATE);
            let sb = after_op(sg, CHANGE_COLOR_RATE);
            let sa = after_op(sb, CHANGE_COLOR_RATE);
            &&& p1.vertices == p0.vertices
            &&& p1.blur == p0.blur
            &&& p1.color.r == recolor(s0, p0.color.r)
            &&& p1.color.g == recolor(sg, p0.color.g)
            &&& p1.color.b == recolor(sb, p0.color.b)
            &&& p1.color.a == reroll_alpha(sa, p0.color.a)
        }),
        p2.vertices.len() >= 3,
        p2.vertices.len() <= p1.vertices.len(),
        p2.color == p1.color,
        p2.blur == p1.blur,
        !any_moved(move_state(s0), p1.vertices.len() as nat) ==> p2.vertices@ == p1.vertices@,
        any_moved(move_state(s0), p1.vertices.len() as nat) ==> left_turning(p2.vertices@) || p2.vertices@ == p1.vertices@,
        ({
            let s_add = after_moves(move_state(s0), p1.vertices.len() as nat);
            let s_rem = after_op(s_add, ADD_VERTEX_RATE);
            let s_blur = after_op(s_rem, REMOVE_VERTEX_RATE);
            &&& p3.color == p2.color
            &&& p3.blur == p2.blur
            &&& p3.vertices.len() == p2.vertices.len() + if fires(s_add, ADD_VERTEX_RATE) { 1int } else { 0int }
            &&& !fires(s_add, ADD_VERTEX_RATE) ==> p3.vertices@ == p2.vertices@
            &&& p4.color == p3.color
            &&& p4.blur == p3.blur
            &&& p4.vertices.len() == p3.vertices.len()
                - if fires(s_rem, REMOVE_VERTEX_RATE) && p3.vertices.len() > 3 { 1int } else { 0int }
            &&& !(fires(s_rem, REMOVE_VERTEX_RATE) && p3.vertices.len() > 3) ==> p4.vertices@ == p3.vertices@
            &&& p5.vertices == p4.vertices
            &&& p5.color == p4.color
            &&& p5.blur == reroll_blur(s_blur, p4.blur)
        }),
    ensures
        mutated(p0, p5, s0),
{
    let s_move = move_state(s0);
    let s_add = after_moves(s_move, p0.vertices.len() as nat);
    let s_rem = after_op(s_add, ADD_VERTEX_RATE);
    let n2 = p2.vertices.len() as nat;
    assert(move_outcome(p0, n2, s_move, s_add, s_rem, p5.vertices@.len()));
    assert(convexity_kept(p0, n2, s_move, s_add, s_rem, p5.vertices@));
}

proof fn lemma_canvas_grid(vs: Seq<Point>, dims: (u32, u32))
    requires
        dims_ok(dims),
        all_in_canvas(vs, dims),
    ensures
        all_on_grid(vs),
{
    assert forall|i: int| 0 <= i < vs.len() implies #[trigger] on_grid(vs[i]) by {
        assert(in_canvas(vs[i], dims));
    }
}

proof fn lemma_drawn_in_canvas(s: Seq<Point>, t: Seq<Point>, dims: (u32, u32))
    requires
        drawn_from(s, t),
        all_in_canvas(t, dims),
    ensures
        all_in_canvas(s, dims),
{
    assert forall|i: int| 0 <= i < s.len() implies #[trigger] in_canvas(s[i], dims) by {
        assert(t.contains(s[i]));
    }
}

} // verus!
