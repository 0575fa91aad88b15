//! The coarse error map that biases polygon placement, and edge
//! detection on the target.
use vstd::prelude::*;
use crate::encoding::{dims_ok, Point, Rgb};
use crate::fitness::px_error;

verus! {

/// Error-map cell of flat pixel index `i` on a `dims` canvas.
pub open spec fn cell_of(i: int, dims: (u32, u32)) -> int {
    let (w, h) = (dims.0 as int, dims.1 as int);
    (i % w) * 8 / w + ((i / w) * 8 / h) * 8
}

/// `cell_of` for the pixel at `(x, y)`.
pub fn cell_at(x: u64, y: u64, dims: (u32, u32)) -> (r: usize)
    requires
        dims_ok(dims),
        x < dims.0,
        y < dims.1,
    ensures
        r == cell_of(y * dims.0 + x, dims),
        r < 64,
{
    let w = dims.0 as u64;
    let h = dims.1 as u64;
    proof { crate::render::lemma_index(x as int, y as int, w as int, h as int); }
    assert((x * 8) as int / (w as int) < 8 && (y * 8) as int / (h as int) < 8) by (nonlinear_arith)
        requires x < w, y < h, w >= 1, h >= 1;
    ((x * 8 / w) + (y * 8 / h) * 8) as usize
}

/// Error map after accumulating the first `n` pixels.
pub open spec fn error_acc(t: Seq<Rgb>, c: Seq<Rgb>, dims: (u32, u32), n: nat) -> Seq<int>
    decreases n,
{
    if n == 0 {
        Seq::new(64, |k: int| 0)
    } else {
        let i = n - 1;
        let prev = error_acc(t, c, dims, (n - 1) as nat);
        prev.update(cell_of(i, dims), prev[cell_of(i, dims)] + px_error(t[i], c[i]))
    }
}

/// A target pixel with a strong intensity gradient: `gx` and `gy` are the
/// central differences of the channel sums.
#[derive(Clone, Copy, Debug, PartialEq, Eq, Structural)]
pub struct Edgel {
    pub pos: Point,
    pub gx: i64,
    pub gy: i64,
}

/// Cell `j` ranks before cell `c`: more error, or as much and a lower index.
pub open spec fn outranks(e: Seq<u64>, j: int, c: int) -> bool {
    e[j] > e[c] || (e[j] == e[c] && j < c)
}

/// Number of cells among the first `n` that rank before `c`.
pub open spec fn rank(e: Seq<u64>, c: int, n: nat) -> nat
    decreases n,
{
    if n == 0 {
        0
    } else {
        rank(e, c, (n - 1) as nat) + if outranks(e, n - 1, c) { 1nat } else { 0nat }
    }
}

proof fn lemma_rank_step(e: Seq<u64>, c: int, d: int, n: nat)
    requires
        0 <= c < e.len(),
        0 <= d < e.len(),
        n <= e.len(),
        outranks(e, c, d),
    ensures
        rank(e, d, n) >= rank(e, c, n) + if c < n { 1int } else { 0int },
    decreases n,
{
    if n > 0 {
        lemma_rank_step(e, c, d, (n - 1) as nat);
    }
}

proof fn lemma_rank_bound(e: Seq<u64>, c: int, n: nat)
    requires
        0 <= c < e.len(),
        n <= e.len(),
    ensures
        rank(e, c, n) + (if c < n { 1int } else { 0int }) <= n,
    decreases n,
{
    if n > 0 {
        lemma_rank_bound(e, c, (n - 1) as nat);
    }
}

/// Ranks of the 64 cells are 0 to 63, each held by exactly one cell.
proof fn lemma_rank_onto(e: Seq<u64>, k: int)
    requires
        e.len() == 64,
        0 <= k < 64,
    ensures
        exists|c: int| 0 <= c < 64 && rank(e, c, 64) == k,
{
    let cells = vstd::set_lib::set_int_range(0, 64);
    let f = |c: int| rank(e, c, 64) as int;
    vstd::set_lib::lemma_int_range(0, 64);
    assert(vstd::relations::injective_on(f, cells)) by {
        assert forall|c: int, d: int| cells.contains(c) && cells.contains(d) && #[trigger] f(c) == #[trigger] f(d) implies c == d by {
            if c != d {
                if outranks(e, c, d) {
                    lemma_rank_step(e, c, d, 64);
                } else {
                    lemma_rank_step(e, d, c, 64);
                }
            }
        }
    }
    let image = cells.map(f);
    vstd::set_lib::lemma_map_size(cells, image, f);
    if forall|c: int| 0 <= c < 64 ==> rank(e, c, 64) != k {
        let rest = vstd::set_lib::set_int_range(0, 64).remove(k);
        assert forall|v: int| image.contains(v) implies rest.contains(v) by {
            let c = choose|c: int| cells.contains(c) && f(c) == v;
            lemma_rank_bound(e, c, 64);
        }
        vstd::set_lib::lemma_len_subset(image, rest);
    }
}

/// The cell in position `k` when the 64 cells are ranked by error,
/// descending (ties by index); 0 when `k >= 64`.
pub fn hot_cell(error: &Vec<u64>, k: u64) -> (r: usize)
    requires
        error.len() == 64,
    ensures
        r < 64,
        k < 64 ==> rank(error@, r as int, 64) == k,
        k >= 64 ==> r == 0,
{
    let mut c: usize = 0;
    while c < 64
        invariant
            error.len() == 64,
            c <= 64,
            forall|d: int| 0 <= d < c ==> rank(error@, d, 64) != k,
        decreases 64 - c,
    {
        let mut count: u64 = 0;
        let mut j: usize = 0;
        while j < 64
            invariant
                error.len() == 64,
                c < 64,
                j <= 64,
                count == rank(error@, c as int, j as nat),
                count <= j,
            decreases 64 - j,
        {
            if error[j] > error[c] || (error[j] == error[c] && j < c) {
                count += 1;
            }
            j += 1;
        }
        if count == k {
            proof { lemma_rank_bound(error@, c as int, 64); }
            return c;
        }
        c += 1;
    }
    proof {
        if k < 64 {
            lemma_rank_onto(error@, k as int);
        }
    }
    0
}

/// Gradient magnitude, in channel-sum units, above which a pixel is an edge.
pub const EDGE_MIN: i64 = 50;

pub open spec fn sum_of(c: Rgb) -> int {
    c.r + c.g + c.b
}

/// `sum_of(c)`.
pub fn channel_sum(c: Rgb) -> (r: i64)
    ensures
        r == sum_of(c),
        0 <= r <= 765,
{
    c.r as i64 + c.g as i64 + c.b as i64
}

/// Edge pixels among the first `n` (row-major) of a target raster.
pub open spec fn edgels(t: Seq<Rgb>, dims: (u32, u32), n: nat) -> Seq<Edgel>
    decreases n,
{
    if n == 0 {
        Seq::empty()
    } else {
        let i = n - 1;
        let (w, h) = (dims.0 as int, dims.1 as int);
        let (x, y) = (i % w, i / w);
        let prev = edgels(t, dims, (n - 1) as nat);
        if 1 <= x && x + 1 < w && 1 <= y && y + 1 < h {
            let gx = sum_of(t[i + 1]) - sum_of(t[i - 1]);
            let gy = sum_of(t[i + w]) - sum_of(t[i - w]);
            if gx * gx + gy * gy > 4 * EDGE_MIN * EDGE_MIN {
                prev.push(Edgel { pos: Point { x: x as i64, y: y as i64 }, gx: gx as i64, gy: gy as i64 })
            } else {
                prev
            }
        } else {
            prev
        }
    }
}

} // verus!
