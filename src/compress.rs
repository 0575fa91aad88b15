//! The population manager: run configuration, seeding, mutation and
//! selection of candidates, the pixel fixer and the generational loop.
use vstd::prelude::*;
use crate::constants::{
    ADD_POLYGON_RATE, INITIAL_POLYGONS, MAX_POLYGONS, MUTATIONS, REMOVE_POLYGON_RATE, Rng,
    should_mutate,
};
use crate::encoding::{
    dims_ok, in_canvas, same_encoding, same_polygon, Encoding, Pixel, Point, Polygon, Rgb,
};
use crate::errormap::{cell_at, channel_sum, edgels, error_acc, Edgel, EDGE_MIN};
use crate::fitness::{
    converged, converged_spec, diff, diff_spec, fitness, pixel_error, px_error, score, sq_error,
    MAX_PIXEL_ERROR,
};
use crate::mutation::{alpha_ok, blur_ok, fires, mutate_state, mutated};
use crate::constants::lcg_next;
use crate::render::{composite, overlay, pos_of, render, rendered, Image};

verus! {

/// Generations between two refreshes of the error map.
pub const ERROR_REFRESH: u64 = 30;

/// Run configuration, passed explicitly into the compressor.
#[derive(Clone, Copy, Debug, PartialEq, Eq, Structural)]
pub struct Config {
    /// Quality target in thousandths, in `1..=1000`.
    pub threshold: u32,
    /// Iteration cap; 0 leaves only the convergence test (and the range of
    /// the 64-bit iteration counter).
    pub iterations: u64,
    /// Whether the finished encoding gets pixel overrides at all.
    pub fix_residual: bool,
    /// Weighted channel difference (red, green and blue weighted 0.9, 1.5
    /// and 0.6) that a pixel must exceed to get an override.
    pub fix_threshold: u64,
    /// Individuals kept from one generation to the next.
    pub population: usize,
}

/// Weighted channel difference in tenths: `9 dr + 15 dg + 6 db`.
pub open spec fn weighted(t: Rgb, c: Rgb) -> int {
    9 * diff_spec(t.r, c.r) + 15 * diff_spec(t.g, c.g) + 6 * diff_spec(t.b, c.b)
}

/// Overrides that the pixel fixer adds for the first `n` pixels: one with
/// the target color wherever the weighted difference exceeds `thr` (whole
/// units, so `10 * thr` tenths).
pub open spec fn fixes(t: Seq<Rgb>, c: Seq<Rgb>, w: int, thr: int, n: nat) -> Seq<Pixel>
    decreases n,
{
    if n == 0 {
        Seq::empty()
    } else {
        let i = n - 1;
        let prev = fixes(t, c, w, thr, (n - 1) as nat);
        if weighted(t[i], c[i]) > 10 * thr {
            prev.push(Pixel { pos: pos_of(i, w), color: t[i] })
        } else {
            prev
        }
    }
}

/// A target raster together with the run's state.
pub struct Compressor {
    pub dimensions: (u32, u32),
    /// Target raster, row-major.
    pub base: Image,
    /// Accumulated squared error per cell of an 8 by 8 grid.
    pub error: Vec<u64>,
    /// Strong-gradient pixels of the target, kept for inspection.
    pub edges: Vec<Edgel>,
    pub config: Config,
}

/// Threshold within `1..=1000`, a nonempty population, and a fix threshold
/// whose tenfold fits in 64 bits.
pub open spec fn config_ok(c: Config) -> bool {
    1 <= c.threshold <= 1000 && c.population >= 1 && c.fix_threshold <= 0xffff_ffff
}

/// The quality target of `config`, in thousandths.
pub fn threshold(config: &Config) -> (r: u32)
    ensures
        r == config.threshold,
{
    config.threshold
}

/// The iteration cap of `config` (0 for none).
pub fn iterations(config: &Config) -> (r: u64)
    ensures
        r == config.iterations,
{
    config.iterations
}

/// The default run: 95% quality target, no cap, fixing pixels whose
/// weighted difference exceeds `PIXEL_FIX_THRESHOLD`.
pub fn default_config() -> (r: Config)
    ensures
        config_ok(r),
        r.threshold == crate::constants::FITNESS_THRESHOLD,
        r.iterations == 0,
        r.fix_residual,
        r.fix_threshold == crate::constants::PIXEL_FIX_THRESHOLD,
        r.population == crate::constants::POPULATION_SIZE,
{
    Config {
        threshold: crate::constants::FITNESS_THRESHOLD,
        iterations: 0,
        fix_residual: true,
        fix_threshold: crate::constants::PIXEL_FIX_THRESHOLD,
        population: crate::constants::POPULATION_SIZE,
    }
}

impl Compressor {
    /// Supported canvas, target raster of its size, 64 error cells and a
    /// valid configuration.
    pub open spec fn wf(&self) -> bool {
        &&& dims_ok(self.dimensions)
        &&& self.base.len() == self.dimensions.0 as int * self.dimensions.1 as int
        &&& self.error.len() == 64
        &&& config_ok(self.config)
    }

    /// A run on target `base` of a `dims` canvas: empty error map, no edges.
    pub fn new(base: Image, dims: (u32, u32), config: Config) -> (r: Compressor)
        requires
            dims_ok(dims),
            base.len() == dims.0 as int * dims.1 as int,
            config_ok(config),
        ensures
            r.wf(),
            r.dimensions == dims,
            r.base@ == base@,
            r.error@ == Seq::new(64, |k: int| 0u64),
            r.edges@ == Seq::<Edgel>::empty(),
            r.config == config,
    {
        let mut error: Vec<u64> = Vec::new();
        let mut k: usize = 0;
        while k < 64
            invariant
                k <= 64,
                error@ =~= Seq::new(k as nat, |j: int| 0u64),
            decreases 64 - k,
        {
            error.push(0);
            k += 1;
        }
        Compressor { dimensions: dims, base, error, edges: Vec::new(), config }
    }

    /// Fitness of the empty encoding: the error of the bare background.
    pub fn max_score(&self) -> (r: u64)
        requires
            self.wf(),
        ensures
            r == sq_error(self.base@, Seq::new(self.base.len() as nat, |i: int| crate::render::background()), self.base.len() as nat),
    {
        let empty = Encoding::new(self.dimensions);
        let r = fitness(self.dimensions, &self.base, &empty);
        assert(rendered(empty, false) =~= Seq::new(self.base.len() as nat, |i: int| crate::render::background()));
        r
    }

    /// Pixel fixer: render `img` with antialiasing and append an override
    /// with the target color for every pixel whose weighted difference
    /// exceeds the configured threshold (none when fixing is off).
    pub fn fix_pixels(&self, img: Encoding) -> (r: Encoding)
        requires
            self.wf(),
            img.wf(),
            img.dimensions == self.dimensions,
        ensures
            r.wf(),
            r.dimensions == img.dimensions,
            r.polygons == img.polygons,
            r.pixels@ == if self.config.fix_residual {
                img.pixels@ + fixes(self.base@, rendered(img, true), self.dimensions.0 as int, self.config.fix_threshold as int, self.base.len() as nat)
            } else {
                img.pixels@
            },
    {
        if !self.config.fix_residual {
            return img;
        }
        let mut img = img;
        let ghost orig = img.pixels@;
        let ghost polys = img.polygons;
        let new_render = render(&img, true);
        let ghost c = new_render@;
        let w = self.dimensions.0;
        let h = self.dimensions.1;
        let limit = self.config.fix_threshold * 10;
        let n = self.base.len();
        let mut i: usize = 0;
        while i < n
            invariant
                self.wf(),
                img.wf(),
                img.dimensions == self.dimensions,
                img.polygons == polys,
                w == self.dimensions.0,
                h == self.dimensions.1,
                n == self.base.len(),
                new_render@ == c,
                c.len() == n,
                limit == 10 * self.config.fix_threshold,
                i <= n,
                img.pixels@ == orig + fixes(self.base@, c, w as int, self.config.fix_threshold as int, i as nat),
            decreases n - i,
        {
            let t = self.base[i];
            let q = new_render[i];
            let score = 9 * diff(t.r, q.r) + 15 * diff(t.g, q.g) + 6 * diff(t.b, q.b);
            if score > limit {
                proof { crate::render::lemma_pos(i as int, w as int, h as int); }
                let pos = Point { x: (i as u64 % w as u64) as i64, y: (i as u64 / w as u64) as i64 };
                assert(pos == pos_of(i as int, w as int));
                let ghost pre = img.pixels@;
                img.pixels.push(Pixel { pos, color: t });
                assert forall|k: int| 0 <= k < img.pixels.len() implies crate::encoding::in_canvas(#[trigger] img.pixels@[k].pos, img.dimensions) by {
                    if k < pre.len() {
                        assert(img.pixels@[k] == pre[k]);
                    }
                }
            }
            i += 1;
        }
        img
    }

    /// Refresh the error map from `img` rendered with antialiasing: each
    /// pixel's squared error is added to its cell of the 8 by 8 grid.
    pub fn compute_error(&mut self, img: &Encoding)
        requires
            old(self).wf(),
            img.wf(),
            img.dimensions == old(self).dimensions,
        ensures
            final(self).wf(),
            final(self).dimensions == old(self).dimensions,
            final(self).base == old(self).base,
            final(self).edges == old(self).edges,
            final(self).config == old(self).config,
            forall|k: int| 0 <= k < 64 ==> final(self).error@[k] == #[trigger] error_acc(
                old(self).base@, rendered(*img, true), old(self).dimensions, old(self).base.len() as nat)[k],
    {
        let new_render = render(img, true);
        let ghost c = new_render@;
        let w = self.dimensions.0 as u64;
        let h = self.dimensions.1 as u64;
        let mut error: Vec<u64> = Vec::new();
        let mut k: usize = 0;
        while k < 64
            invariant
                k <= 64,
                error@ =~= Seq::new(k as nat, |j: int| 0u64),
            decreases 64 - k,
        {
            error.push(0);
            k += 1;
        }
        let n = self.base.len();
        assert(n <= 0x1_0000_0000) by (nonlinear_arith)
            requires n == w * h, 1 <= w <= 65536, 1 <= h <= 65536;
        let mut i: usize = 0;
        while i < n
            invariant
                self.wf(),
                w == self.dimensions.0,
                h == self.dimensions.1,
                n == self.base.len(),
                n <= 0x1_0000_0000,
                new_render@ == c,
                c.len() == n,
                i <= n,
                error.len() == 64,
                forall|k: int| 0 <= k < 64 ==> error@[k] == #[trigger] error_acc(self.base@, c, self.dimensions, i as nat)[k],
                forall|k: int| 0 <= k < 64 ==> #[trigger] error_acc(self.base@, c, self.dimensions, i as nat)[k] <= i * MAX_PIXEL_ERROR,
                error_acc(self.base@, c, self.dimensions, i as nat).len() == 64,
            decreases n - i,
        {
            proof { crate::render::lemma_pos(i as int, w as int, h as int); }
            let x = i as u64 % w;
            let y = i as u64 / w;
            let cell = cell_at(x, y, self.dimensions);
            assert(y * w + x == i);
            let e = pixel_error(self.base[i], new_render[i]);
            assert(i * MAX_PIXEL_ERROR + MAX_PIXEL_ERROR <= 0x1_0000_0000 * MAX_PIXEL_ERROR) by (nonlinear_arith)
                requires i < 0x1_0000_0000;
            let ghost prev = error_acc(self.base@, c, self.dimensions, i as nat);
            assert(prev[cell as int] <= i * MAX_PIXEL_ERROR);
            assert forall|k: int| 0 <= k < 64 implies #[trigger] prev[k] <= (i + 1) * MAX_PIXEL_ERROR by {
                assert(prev[k] <= i * MAX_PIXEL_ERROR);
            }
            let v = error[cell] + e;
            error.set(cell, v);
            assert(error_acc(self.base@, c, self.dimensions, (i + 1) as nat) == prev.update(cell as int, prev[cell as int] + px_error(self.base@[i as int], c[i as int])));
            i += 1;
        }
        self.error = error;
    }
}

/// A polygon fit to be placed in an encoding of the run.
pub open spec fn good_polygon(p: Polygon, dims: (u32, u32)) -> bool {
    p.within(dims) && alpha_ok(p.color.a) && blur_ok(p.blur)
}

/// An encoding fit to be an individual of the run: well formed on the
/// canvas, no overrides, at most `MAX_POLYGONS` polygons, each good.
pub open spec fn good_encoding(e: Encoding, dims: (u32, u32)) -> bool {
    &&& e.wf()
    &&& e.dimensions == dims
    &&& e.pixels.len() == 0
    &&& e.polygons.len() <= MAX_POLYGONS
    &&& forall|i: int| 0 <= i < e.polygons.len() ==> good_polygon(#[trigger] e.polygons@[i], dims)
}

/// Generator state once the polygon loop of `mutate_candidate` has
/// handled the first `k` polygons: one draw for the remove-polygon operator,
/// then a whole polygon mutation for a kept polygon.
pub open spec fn loop_state(polys: Seq<Polygon>, s: u64, k: nat) -> u64
    decreases k,
{
    if k == 0 {
        s
    } else {
        let t = loop_state(polys, s, (k - 1) as nat);
        if fires(t, REMOVE_POLYGON_RATE) {
            lcg_next(t)
        } else {
            mutate_state(lcg_next(t), polys[k - 1].vertices.len() as nat)
        }
    }
}

/// Indices, in order, of the first `k` polygons that the remove-polygon
/// operator keeps.
pub open spec fn kept(polys: Seq<Polygon>, s: u64, k: nat) -> Seq<int>
    decreases k,
{
    if k == 0 {
        Seq::empty()
    } else {
        let prev = kept(polys, s, (k - 1) as nat);
        if fires(loop_state(polys, s, (k - 1) as nat), REMOVE_POLYGON_RATE) {
            prev
        } else {
            prev.push(k - 1)
        }
    }
}

/// `r` is what `mutate_candidate` makes of `c` from generator state `s`:
/// same canvas and overrides; first, in order, each kept polygon mutated
/// with its own draws; then at most one new polygon, and only when the
/// add-polygon draw fires below `MAX_POLYGONS`.
pub open spec fn candidate_step(c: Encoding, r: Encoding, s: u64) -> bool {
    let polys = c.polygons@;
    let ks = kept(polys, s, polys.len());
    let s_add = loop_state(polys, s, polys.len());
    &&& r.dimensions == c.dimensions
    &&& r.pixels@ == c.pixels@
    &&& ks.len() <= r.polygons.len() <= ks.len() + 1
    &&& r.polygons.len() == ks.len() + 1 ==> fires(s_add, ADD_POLYGON_RATE) && ks.len() < MAX_POLYGONS
    &&& forall|j: int|
        0 <= j < ks.len() ==> mutated(polys[ks[j]], #[trigger] r.polygons@[j], lcg_next(loop_state(polys, s, ks[j] as nat)))
}

/// Position of copy `m` of individual `k` among a generation's
/// candidates (`m == MUTATIONS` for the individual itself).
pub open spec fn slot(k: int, m: int) -> int {
    (MUTATIONS as int + 1) * k + m
}

proof fn lemma_slot_bounds(k: int, m: int, i: int)
    requires
        0 <= k < i,
        0 <= m <= MUTATIONS,
    ensures
        0 <= slot(k, m) < slot(i, 0),
{
    assert(0 <= slot(k, m) < slot(i, 0)) by (nonlinear_arith)
        requires 0 <= k < i, 0 <= m <= MUTATIONS, MUTATIONS == 2;
}

proof fn lemma_slot_before(i: int)
    requires
        0 <= i,
    ensures
        slot(i, 0) >= 0,
{
    assert(slot(i, 0) >= 0) by (nonlinear_arith) requires 0 <= i, MUTATIONS == 2;
}

proof fn lemma_slot_step(i: int)
    ensures
        slot(i + 1, 0) == slot(i, 0) + MUTATIONS + 1,
        slot(i, MUTATIONS as int) == slot(i, 0) + MUTATIONS,
{
    assert(slot(i + 1, 0) == slot(i, 0) + MUTATIONS + 1) by (nonlinear_arith) requires MUTATIONS == 2;
}

/// `child` is what `mutate_candidate` makes of a copy of `parent`.
pub open spec fn derived(parent: Encoding, child: Encoding) -> bool {
    exists|c: Encoding, s: u64| same_encoding(c, parent) && #[trigger] candidate_step(c, child, s)
}

/// `cands` are the candidates `offspring` makes of `pop`: for each
/// individual in order, `MUTATIONS` derived copies, then the individual.
pub open spec fn offspring_of(pop: Seq<Encoding>, cands: Seq<Encoding>) -> bool {
    &&& cands.len() == (MUTATIONS + 1) * pop.len()
    &&& forall|k: int| 0 <= k < pop.len() ==> cands[slot(k, MUTATIONS as int)] == #[trigger] pop[k]
    &&& forall|k: int, m: int| 0 <= k < pop.len() && 0 <= m < MUTATIONS ==> derived(pop[k], #[trigger] cands[slot(k, m)])
}

impl Compressor {
    /// Seed population: `config.population` individuals, each given
    /// `INITIAL_POLYGONS` tries of the random generator.
    pub fn create_population(&self, rng: &mut Rng) -> (r: Vec<Encoding>)
        requires
            self.wf(),
        ensures
            r.len() == self.config.population,
            forall|i: int| 0 <= i < r.len() ==> good_encoding(#[trigger] r@[i], self.dimensions),
            forall|i: int| 0 <= i < r.len() ==> (#[trigger] r@[i]).polygons.len() <= INITIAL_POLYGONS,
    {
        let mut population: Vec<Encoding> = Vec::new();
        let mut i: usize = 0;
        while i < self.config.population
            invariant
                self.wf(),
                i <= self.config.population,
                population.len() == i,
                forall|j: int| 0 <= j < population.len() ==> good_encoding(#[trigger] population@[j], self.dimensions),
                forall|j: int| 0 <= j < population.len() ==> (#[trigger] population@[j]).polygons.len() <= INITIAL_POLYGONS,
            decreases self.config.population - i,
        {
            let mut polygons: Vec<Polygon> = Vec::new();
            let mut k: usize = 0;
            while k < INITIAL_POLYGONS
                invariant
                    self.wf(),
                    k <= INITIAL_POLYGONS,
                    polygons.len() <= k,
                    forall|j: int| 0 <= j < polygons.len() ==> good_polygon(#[trigger] polygons@[j], self.dimensions),
                decreases INITIAL_POLYGONS - k,
            {
                match Polygon::random(self, rng) {
                    Some(p) => {
                        polygons.push(p);
                    },
                    None => {},
                }
                k += 1;
            }
            let e = Encoding { dimensions: self.dimensions, polygons, pixels: Vec::new() };
            assert(good_encoding(e, self.dimensions));
            population.push(e);
            i += 1;
        }
        population
    }
}

impl Compressor {
    /// One mutated copy of `candidate`: each polygon is dropped by the
    /// remove-polygon operator or else mutated, then the add-polygon operator
    /// may append a new random polygon (below `MAX_POLYGONS`). The kept
    /// polygons and the draws they were mutated with are fixed by the
    /// generator state at the call.
    pub fn mutate_candidate(&self, candidate: Encoding, rng: &mut Rng) -> (r: Encoding)
        requires
            self.wf(),
            good_encoding(candidate, self.dimensions),
        ensures
            good_encoding(r, self.dimensions),
            candidate_step(candidate, r, old(rng).state),
    {
        let dims = self.dimensions;
        let ghost s0 = rng.state;
        let ghost polys = candidate.polygons@;
        let Encoding { polygons: mut source, dimensions: _, pixels } = candidate;
        let n = source.len();
        let mut polygons: Vec<Polygon> = Vec::new();
        let mut i: usize = 0;
        while i < n
            invariant
                self.wf(),
                dims == self.dimensions,
                good_encoding(candidate, dims),
                polys == candidate.polygons@,
                n == polys.len(),
                source@ == polys.subrange(i as int, n as int),
                i <= n,
                polygons.len() <= i,
                polygons.len() == kept(polys, s0, i as nat).len(),
                rng.state == loop_state(polys, s0, i as nat),
                forall|j: int| 0 <= j < polygons.len() ==> good_polygon(#[trigger] polygons@[j], dims),
                forall|j: int| 0 <= j < polygons.len() ==> mutated(
                    polys[kept(polys, s0, i as nat)[j]],
                    #[trigger] polygons@[j],
                    lcg_next(loop_state(polys, s0, kept(polys, s0, i as nat)[j] as nat)),
                ),
                forall|j: int| 0 <= j < kept(polys, s0, i as nat).len() ==> 0 <= #[trigger] kept(polys, s0, i as nat)[j] < i,
            decreases n - i,
        {
            let ghost pre = polygons@;
            let mut polygon = source.remove(0);
            assert(polygon == polys[i as int]);
            assert(source@ =~= polys.subrange(i + 1, n as int));
            if !should_mutate(rng, REMOVE_POLYGON_RATE) {
                assert(good_polygon(polygon, dims));
                polygon.mutate(self, rng);
                polygons.push(polygon);
                assert(kept(polys, s0, (i + 1) as nat) == kept(polys, s0, i as nat).push(i as int));
                assert forall|j: int| 0 <= j < polygons.len() implies mutated(
                    polys[kept(polys, s0, (i + 1) as nat)[j]],
                    #[trigger] polygons@[j],
                    lcg_next(loop_state(polys, s0, kept(polys, s0, (i + 1) as nat)[j] as nat)),
                ) by {
                    if j < pre.len() {
                        assert(polygons@[j] == pre[j]);
                    }
                }
            } else {
                assert(kept(polys, s0, (i + 1) as nat) == kept(polys, s0, i as nat));
            }
            i += 1;
        }
        let ghost n_kept = polygons.len();
        if should_mutate(rng, ADD_POLYGON_RATE) && polygons.len() < MAX_POLYGONS {
            match Polygon::random(self, rng) {
                Some(p) => {
                    polygons.push(p);
                },
                None => {},
            }
        }
        let r = Encoding { polygons, dimensions: dims, pixels };
        assert forall|j: int| 0 <= j < r.polygons.len() implies #[trigger] r.polygons@[j].within(dims) by {
            assert(good_polygon(r.polygons@[j], dims));
        }
        assert forall|j: int| 0 <= j < n_kept implies mutated(
            polys[kept(polys, s0, polys.len())[j]],
            #[trigger] r.polygons@[j],
            lcg_next(loop_state(polys, s0, kept(polys, s0, polys.len())[j] as nat)),
        ) by {}
        r
    }

    /// One generation: every individual yields `MUTATIONS` mutated copies
    /// plus itself; all candidates are scored; the best
    /// `config.population` survive, least score first (ties by candidate
    /// order). Returns the survivors, the best score and the index of the
    /// best survivor. The best score is that of a survivor and no worse than
    /// the score of any candidate, the individuals handed in among them.
    pub fn mutate(&self, population: Vec<Encoding>, rng: &mut Rng) -> (r: (Vec<Encoding>, u64, usize))
        requires
            self.wf(),
            population.len() >= 1,
            forall|i: int| 0 <= i < population.len() ==> good_encoding(#[trigger] population@[i], self.dimensions),
        ensures
            r.0.len() == if (MUTATIONS + 1) * population.len() < self.config.population {
                ((MUTATIONS + 1) * population.len()) as int
            } else {
                self.config.population as int
            },
            forall|i: int| 0 <= i < r.0.len() ==> good_encoding(#[trigger] r.0@[i], self.dimensions),
            r.2 == 0,
            r.1 == score(self.base@, r.0@[r.2 as int]),
            forall|i: int| 0 <= i < population.len() ==> r.1 <= score(self.base@, #[trigger] population@[i]),
            exists|cands: Seq<Encoding>| #[trigger] offspring_of(population@, cands) && survivors_of(self.base@, cands, r.0@, r.1),
    {
        let dims = self.dimensions;
        let ghost orig = population@;
        let cands = self.offspring(population, rng);
        let mut fits: Vec<u64> = Vec::new();
        let mut j: usize = 0;
        while j < cands.len()
            invariant
                self.wf(),
                dims == self.dimensions,
                j <= cands.len(),
                fits.len() == j,
                forall|k: int| 0 <= k < cands.len() ==> good_encoding(#[trigger] cands@[k], dims),
                forall|k: int| 0 <= k < j ==> fits@[k] == score(self.base@, #[trigger] cands@[k]),
            decreases cands.len() - j,
        {
            assert(good_encoding(cands@[j as int], dims));
            fits.push(fitness(dims, &self.base, &cands[j]));
            j += 1;
        }

        let ghost all_c = cands@;
        assert(fits@ =~= scores(self.base@, all_c));
        let r = self.select(cands, fits);
        assert(offspring_of(orig, all_c));
        assert(survivors_of(self.base@, all_c, r.0@, r.1));
        assert forall|i: int| 0 <= i < orig.len() implies r.1 <= score(self.base@, #[trigger] orig[i]) by {
            assert(cands@.contains(orig[i]));
            let q = choose|q: int| 0 <= q < cands@.len() && cands@[q] == orig[i];
            assert(fits@[q] == score(self.base@, cands@[q]));
        }
        r
    }
}

impl Compressor {
    /// Candidates of one generation: for each individual in order,
    /// `MUTATIONS` copies made by `mutate_candidate`, then the individual
    /// itself.
    pub fn offspring(&self, population: Vec<Encoding>, rng: &mut Rng) -> (r: Vec<Encoding>)
        requires
            self.wf(),
            forall|i: int| 0 <= i < population.len() ==> good_encoding(#[trigger] population@[i], self.dimensions),
        ensures
            offspring_of(population@, r@),
            forall|j: int| 0 <= j < r.len() ==> good_encoding(#[trigger] r@[j], self.dimensions),
            forall|i: int| 0 <= i < population.len() ==> r@.contains(#[trigger] population@[i]),
    {
        let dims = self.dimensions;
        let ghost orig = population@;
        let n = population.len();
        let mut population = population;
        let mut cands: Vec<Encoding> = Vec::new();
        let mut i: usize = 0;
        while i < n
            invariant
                self.wf(),
                dims == self.dimensions,
                n == orig.len(),
                i <= n,
                population@ == orig.subrange(i as int, n as int),
                forall|k: int| 0 <= k < orig.len() ==> good_encoding(#[trigger] orig[k], dims),
                forall|j: int| 0 <= j < cands.len() ==> good_encoding(#[trigger] cands@[j], dims),
                cands.len() == slot(i as int, 0),
                forall|k: int| 0 <= k < i ==> cands@[slot(k, MUTATIONS as int)] == #[trigger] orig[k],
                forall|k: int, m: int|
                    0 <= k < i && 0 <= m < MUTATIONS ==> derived(orig[k], #[trigger] cands@[slot(k, m)]),
            decreases n - i,
        {
            let parent = population.remove(0);
            assert(parent == orig[i as int]);
            assert(population@ =~= orig.subrange(i + 1, n as int));
            let ghost base_len = cands.len();
            let mut m: usize = 0;
            while m < MUTATIONS
                invariant
                    self.wf(),
                    dims == self.dimensions,
                    i < n,
                    n == orig.len(),
                    parent == orig[i as int],
                    good_encoding(parent, dims),
                    forall|j: int| 0 <= j < cands.len() ==> good_encoding(#[trigger] cands@[j], dims),
                    m <= MUTATIONS,
                    base_len == slot(i as int, 0),
                    cands.len() == base_len + m,
                    forall|k: int| 0 <= k < i ==> cands@[slot(k, MUTATIONS as int)] == #[trigger] orig[k],
                    forall|k: int, q: int|
                        0 <= k < i && 0 <= q < MUTATIONS ==> derived(orig[k], #[trigger] cands@[slot(k, q)]),
                    forall|q: int| 0 <= q < m ==> derived(orig[i as int], #[trigger] cands@[base_len + q]),
                decreases MUTATIONS - m,
            {
                let copy = parent.clone();
                assert forall|j: int| 0 <= j < copy.polygons.len() implies good_polygon(#[trigger] copy.polygons@[j], dims) by {
                    assert(crate::encoding::same_polygon(copy.polygons@[j], parent.polygons@[j]));
                    assert(good_polygon(parent.polygons@[j], dims));
                    assert(copy.polygons@[j].vertices@ == parent.polygons@[j].vertices@);
                }
                assert forall|j: int| 0 <= j < copy.pixels.len() implies in_canvas(#[trigger] copy.pixels@[j].pos, dims) by {
                    assert(copy.pixels@[j] == parent.pixels@[j]);
                }
                let ghost s = rng.state;
                let ghost c = copy;
                let ghost pre = cands@;
                let child = self.mutate_candidate(copy, rng);
                assert(derived(orig[i as int], child));
                cands.push(child);
                proof { lemma_slot_before(i as int); }
                assert forall|k: int| 0 <= k < i implies cands@[slot(k, MUTATIONS as int)] == #[trigger] orig[k] by {
                    lemma_slot_bounds(k, MUTATIONS as int, i as int);
                    assert(cands@[slot(k, MUTATIONS as int)] == pre[slot(k, MUTATIONS as int)]);
                }
                assert forall|k: int, q: int| 0 <= k < i && 0 <= q < MUTATIONS implies derived(orig[k], #[trigger] cands@[slot(k, q)]) by {
                    lemma_slot_bounds(k, q, i as int);
                    assert(cands@[slot(k, q)] == pre[slot(k, q)]);
                }
                assert forall|q: int| 0 <= q < m + 1 implies derived(orig[i as int], #[trigger] cands@[base_len + q]) by {
                    if q < m {
                        assert(cands@[base_len + q] == pre[base_len + q]);
                    }
                }
                m += 1;
            }
            let ghost pre = cands@;
            cands.push(parent);
            proof {
                lemma_slot_step(i as int);
                assert forall|k: int| 0 <= k < i + 1 implies cands@[slot(k, MUTATIONS as int)] == #[trigger] orig[k] by {
                    if k < i {
                        lemma_slot_bounds(k, MUTATIONS as int, i as int);
                        assert(cands@[slot(k, MUTATIONS as int)] == pre[slot(k, MUTATIONS as int)]);
                    }
                }
                assert forall|k: int, q: int| 0 <= k < i + 1 && 0 <= q < MUTATIONS implies derived(orig[k], #[trigger] cands@[slot(k, q)]) by {
                    if k < i {
                        lemma_slot_bounds(k, q, i as int);
                        assert(cands@[slot(k, q)] == pre[slot(k, q)]);
                    } else {
                        assert(slot(k, q) == base_len + q);
                        assert(cands@[slot(k, q)] == pre[base_len + q]);
                    }
                }
            }
            i += 1;
        }
        proof {
            assert forall|k: int| 0 <= k < orig.len() implies cands@.contains(#[trigger] orig[k]) by {
                lemma_slot_bounds(k, MUTATIONS as int, n as int);
                assert(cands@[slot(k, MUTATIONS as int)] == orig[k]);
            }
        }
        cands
    }

    /// Survivors of one generation, given every candidate's score: the
    /// `config.population` candidates (or all, if fewer) of least score,
    /// in ascending order of (score, candidate index). Returns them, the
    /// best score and the index of the best survivor.
    pub fn select(&self, cands: Vec<Encoding>, fits: Vec<u64>) -> (r: (Vec<Encoding>, u64, usize))
        requires
            self.wf(),
            cands.len() >= 1,
            fits.len() == cands.len(),
            forall|k: int| 0 <= k < cands.len() ==> good_encoding(#[trigger] cands@[k], self.dimensions),
            forall|k: int| 0 <= k < cands.len() ==> fits@[k] == score(self.base@, #[trigger] cands@[k]),
        ensures
            r.0.len() == if cands.len() < self.config.population { cands.len() as int } else { self.config.population as int },
            exists|chosen: Seq<int>|
                selection(fits@, chosen, r.0.len() as nat) && forall|t: int|
                    0 <= t < chosen.len() ==> r.0@[t] == cands@[#[trigger] chosen[t]],
            forall|i: int| 0 <= i < r.0.len() ==> good_encoding(#[trigger] r.0@[i], self.dimensions),
            r.2 == 0,
            r.1 == score(self.base@, r.0@[r.2 as int]),
            forall|k: int| 0 <= k < fits.len() ==> r.1 <= #[trigger] fits@[k],
    {
        let dims = self.dimensions;
        let ghost all_f = fits@;
        let ghost all_c = cands@;
        let ghost n = cands.len() as int;
        let mut cands = cands;
        let mut fits = fits;
        let ghost mut idx: Seq<int> = Seq::new(n as nat, |j: int| j);
        let ghost mut chosen: Seq<int> = Seq::empty();
        let count = if cands.len() < self.config.population { cands.len() } else { self.config.population };
        let mut next: Vec<Encoding> = Vec::new();
        let mut best: u64 = 0;
        let mut t: usize = 0;
        proof {
            assert forall|k: int| 0 <= k < n implies chosen.contains(k) || idx.contains(k) by {
                assert(idx[k] == k);
            }
        }
        while t < count
            invariant
                self.wf(),
                dims == self.dimensions,
                1 <= count <= self.config.population,
                count <= n,
                n == all_c.len(),
                n == all_f.len(),
                t <= count,
                next.len() == t,
                cands.len() == fits.len(),
                cands.len() == n - t,
                idx.len() == cands.len(),
                forall|j: int| 0 <= j < idx.len() ==> 0 <= #[trigger] idx[j] < n,
                forall|j: int, q: int| 0 <= j < q < idx.len() ==> #[trigger] idx[j] < #[trigger] idx[q],
                forall|j: int| 0 <= j < cands.len() ==> cands@[j] == all_c[#[trigger] idx[j]],
                forall|j: int| 0 <= j < cands.len() ==> fits@[j] == all_f[#[trigger] idx[j]],
                chosen.len() == t,
                forall|q: int| 0 <= q < t ==> 0 <= #[trigger] chosen[q] < n,
                forall|q: int| 0 <= q < t ==> next@[q] == all_c[#[trigger] chosen[q]],
                forall|a: int, b: int| 0 <= a < b < t ==> ranks_before(all_f, #[trigger] chosen[a], #[trigger] chosen[b]),
                forall|a: int, j: int| 0 <= a < t && 0 <= j < idx.len() ==> ranks_before(all_f, #[trigger] chosen[a], #[trigger] idx[j]),
                forall|k: int| 0 <= k < n ==> chosen.contains(k) || idx.contains(k),
                forall|k: int| 0 <= k < n ==> good_encoding(#[trigger] all_c[k], dims),
                forall|k: int| 0 <= k < n ==> all_f[k] == score(self.base@, #[trigger] all_c[k]),
                t > 0 ==> best == all_f[chosen[0]],
            decreases count - t,
        {
            let mut arg: usize = 0;
            let mut k: usize = 1;
            while k < fits.len()
                invariant
                    1 <= k <= fits.len(),
                    arg < fits.len(),
                    forall|q: int| 0 <= q < k ==> fits@[arg as int] <= #[trigger] fits@[q],
                    forall|q: int| 0 <= q < arg ==> fits@[arg as int] < #[trigger] fits@[q],
                decreases fits.len() - k,
            {
                if fits[k] < fits[arg] {
                    arg = k;
                }
                k += 1;
            }
            let ghost pre_c = cands@;
            let ghost pre_f = fits@;
            let ghost pre_idx = idx;
            let ghost pre_chosen = chosen;
            let ghost pick = idx[arg as int];
            proof {
                assert forall|j: int| 0 <= j < pre_idx.len() && j != arg implies ranks_before(all_f, pick, #[trigger] pre_idx[j]) by {
                    assert(pre_f[j] == all_f[pre_idx[j]]);
                    assert(pre_f[arg as int] == all_f[pick]);
                    if j > arg {
                        assert(pre_idx[arg as int] < pre_idx[j]);
                    }
                }
            }
            let f = fits.remove(arg);
            let e = cands.remove(arg);
            proof {
                idx = pre_idx.remove(arg as int);
                chosen = pre_chosen.push(pick);
                assert forall|j: int, q: int| 0 <= j < q < idx.len() implies #[trigger] idx[j] < #[trigger] idx[q] by {
                    let jj = if j < arg { j } else { j + 1 };
                    let qq = if q < arg { q } else { q + 1 };
                    assert(idx[j] == pre_idx[jj] && idx[q] == pre_idx[qq]);
                }
                assert forall|j: int| 0 <= j < cands.len() implies cands@[j] == all_c[#[trigger] idx[j]] && fits@[j] == all_f[idx[j]] by {
                    let jj = if j < arg { j } else { j + 1 };
                    assert(idx[j] == pre_idx[jj]);
                    assert(cands@[j] == pre_c[jj] && fits@[j] == pre_f[jj]);
                }
                assert forall|j: int| 0 <= j < idx.len() implies 0 <= #[trigger] idx[j] < n by {
                    let jj = if j < arg { j } else { j + 1 };
                    assert(idx[j] == pre_idx[jj]);
                }
                assert forall|a: int, b: int| 0 <= a < b < t + 1 implies ranks_before(all_f, #[trigger] chosen[a], #[trigger] chosen[b]) by {
                    if b == t {
                        assert(chosen[b] == pick);
                        assert(ranks_before(all_f, pre_chosen[a], pre_idx[arg as int]));
                    } else {
                        assert(chosen[a] == pre_chosen[a] && chosen[b] == pre_chosen[b]);
                    }
                }
                assert forall|a: int, j: int| 0 <= a < t + 1 && 0 <= j < idx.len() implies ranks_before(all_f, #[trigger] chosen[a], #[trigger] idx[j]) by {
                    let jj = if j < arg { j } else { j + 1 };
                    assert(idx[j] == pre_idx[jj]);
                    if a == t {
                        assert(chosen[a] == pick);
                    } else {
                        assert(chosen[a] == pre_chosen[a]);
                    }
                }
                assert forall|k: int| 0 <= k < n implies chosen.contains(k) || idx.contains(k) by {
                    if pre_chosen.contains(k) {
                        let q = choose|q: int| 0 <= q < pre_chosen.len() && pre_chosen[q] == k;
                        assert(chosen[q] == k);
                    } else {
                        assert(pre_idx.contains(k));
                        let j = choose|j: int| 0 <= j < pre_idx.len() && pre_idx[j] == k;
                        if j == arg {
                            assert(chosen[t as int] == k);
                        } else {
                            let jj = if j < arg { j } else { j - 1 };
                            assert(idx[jj] == k);
                        }
                    }
                }
                assert(e == all_c[pick]);
            }
            assert(f == score(self.base@, e));
            if t == 0 {
                best = f;
            }
            next.push(e);
            t += 1;
        }
        proof {
            assert forall|k: int| 0 <= k < n implies best <= #[trigger] all_f[k] by {
                if chosen.contains(k) {
                    let q = choose|q: int| 0 <= q < chosen.len() && chosen[q] == k;
                    if q > 0 {
                        assert(ranks_before(all_f, chosen[0], chosen[q]));
                    }
                } else {
                    let j = choose|j: int| 0 <= j < idx.len() && idx[j] == k;
                    assert(ranks_before(all_f, chosen[0], idx[j]));
                }
            }
            assert forall|k: int| 0 <= k < n && !chosen.contains(k) implies forall|q: int|
                0 <= q < chosen.len() ==> ranks_before(all_f, #[trigger] chosen[q], k) by {
                let j = choose|j: int| 0 <= j < idx.len() && idx[j] == k;
                assert forall|q: int| 0 <= q < chosen.len() implies ranks_before(all_f, #[trigger] chosen[q], k) by {
                    assert(ranks_before(all_f, chosen[q], idx[j]));
                }
            }
            assert(selection(all_f, chosen, next.len() as nat));
            assert forall|i: int| 0 <= i < next.len() implies good_encoding(#[trigger] next@[i], dims) by {
                assert(next@[i] == all_c[chosen[i]]);
            }
            assert(next@[0] == all_c[chosen[0]]);
        }
        (next, best, 0)
    }
}

/// Candidate `a` ranks before candidate `b`: lower score, or the same
/// score and a lower index.
pub open spec fn ranks_before(f: Seq<u64>, a: int, b: int) -> bool {
    f[a] < f[b] || (f[a] == f[b] && a < b)
}

/// `chosen` lists the `m` candidates that rank first under `ranks_before`,
/// in that order: distinct, ascending, and ranking before every candidate
/// left out.
pub open spec fn selection(f: Seq<u64>, chosen: Seq<int>, m: nat) -> bool {
    &&& chosen.len() == m
    &&& forall|t: int| 0 <= t < m ==> 0 <= #[trigger] chosen[t] < f.len()
    &&& forall|a: int, b: int| 0 <= a < b < m ==> ranks_before(f, #[trigger] chosen[a], #[trigger] chosen[b])
    &&& forall|k: int|
        0 <= k < f.len() && !chosen.contains(k) ==> forall|t: int| 0 <= t < m ==> ranks_before(f, #[trigger] chosen[t], k)
}

/// Scores of `cands` against `base`.
pub open spec fn scores(base: Seq<Rgb>, cands: Seq<Encoding>) -> Seq<u64> {
    Seq::new(cands.len(), |k: int| score(base, cands[k]) as u64)
}

/// `next` are the candidates of least score in (score, index) order, and
/// `best` is no more than any candidate's score.
pub open spec fn survivors_of(base: Seq<Rgb>, cands: Seq<Encoding>, next: Seq<Encoding>, best: u64) -> bool {
    &&& exists|chosen: Seq<int>|
        selection(scores(base, cands), chosen, next.len()) && forall|t: int|
            0 <= t < chosen.len() ==> next[t] == cands[#[trigger] chosen[t]]
    &&& forall|k: int| 0 <= k < cands.len() ==> best <= score(base, #[trigger] cands[k])
}

/// Whether the run stops after `iteration` generations with best score
/// `best`: converged, iteration cap reached, or counter exhausted.
pub open spec fn stops(c: Config, iteration: u64, best: int, max: int) -> bool {
    ||| converged_spec(best, max, c.threshold as int)
    ||| (c.iterations != 0 && iteration >= c.iterations)
    ||| iteration == u64::MAX
}

/// What the run does once generation `iteration` is done.
#[derive(Clone, Copy, Debug, PartialEq, Eq, Structural)]
pub struct Decision {
    /// Refresh the error map from the best individual.
    pub refresh_error: bool,
    /// Stop and finalize.
    pub stop: bool,
}

/// The decision after generation `iteration` (counted from 1) ended with
/// best score `best`, against the empty encoding's score `max`.
pub fn after_generation(config: &Config, iteration: u64, best: u64, max: u64) -> (r: Decision)
    requires
        config_ok(*config),
    ensures
        r.refresh_error == (iteration % ERROR_REFRESH == 0),
        r.stop == stops(*config, iteration, best as int, max as int),
{
    Decision {
        refresh_error: iteration % ERROR_REFRESH == 0,
        stop: converged(best, max, config.threshold) || (config.iterations != 0 && iteration
            >= config.iterations) || iteration == u64::MAX,
    }
}

/// Squared error of the bare background against target `t`.
pub open spec fn blank_error(t: Seq<Rgb>) -> int {
    sq_error(t, Seq::new(t.len(), |i: int| crate::render::background()), t.len())
}

/// `bests` are the best scores of generations 1 to `n` of a run: no
/// increase from one generation to the next, no stop before generation
/// `n`, and a stop (convergence, cap or counter) at `n`.
pub open spec fn run_history(c: Config, bests: Seq<int>, n: u64, max: int) -> bool {
    &&& n >= 1
    &&& bests.len() == n
    &&& stops(c, n, bests[n - 1], max)
    &&& forall|k: int| 0 <= k < n - 1 ==> !stops(c, (k + 1) as u64, #[trigger] bests[k], max)
    &&& forall|k: int| 0 <= k < n - 1 ==> #[trigger] bests[k + 1] <= bests[k]
}

/// A run on `target` stopped after `n` generations, by the stop rule, with
/// `raw` scoring the best of generation `n`.
pub open spec fn ran(c: Config, target: Seq<Rgb>, n: u64, raw: Encoding) -> bool {
    exists|bests: Seq<int>| #[trigger] run_history(c, bests, n, blank_error(target)) && bests[n - 1] == score(target, raw)
}

/// Compress target raster `img` of size `dims`: evolve a population from
/// the generator seeded with `seed` until the normalized score reaches the
/// threshold or the iteration cap, refreshing the error map every
/// `ERROR_REFRESH` generations. Returns the pixel-fixed best encoding and
/// the raw best encoding.
pub fn compress(img: Image, dims: (u32, u32), config: Config, seed: u64) -> (r: (Encoding, Encoding))
    requires
        dims_ok(dims),
        img.len() == dims.0 as int * dims.1 as int,
        config_ok(config),
    ensures
        good_encoding(r.1, dims),
        r.0.wf(),
        r.0.dimensions == dims,
        r.0.polygons.len() == r.1.polygons.len(),
        forall|i: int| 0 <= i < r.0.polygons.len() ==> same_polygon(#[trigger] r.0.polygons@[i], r.1.polygons@[i]),
        r.0.pixels@ == if config.fix_residual {
            r.1.pixels@ + fixes(img@, rendered(r.1, true), dims.0 as int, config.fix_threshold as int, img.len() as nat)
        } else {
            r.1.pixels@
        },
        exists|n: u64| #[trigger] ran(config, img@, n, r.1),
{
    let (fixed, raw, n) = compress_run(img, dims, config, seed);
    (fixed, raw)
}

/// `compress`, also returning the number of generations run.
pub fn compress_run(img: Image, dims: (u32, u32), config: Config, seed: u64) -> (r: (Encoding, Encoding, u64))
    requires
        dims_ok(dims),
        img.len() == dims.0 as int * dims.1 as int,
        config_ok(config),
    ensures
        good_encoding(r.1, dims),
        r.0.wf(),
        r.0.dimensions == dims,
        r.0.polygons.len() == r.1.polygons.len(),
        forall|i: int| 0 <= i < r.0.polygons.len() ==> same_polygon(#[trigger] r.0.polygons@[i], r.1.polygons@[i]),
        r.0.pixels@ == if config.fix_residual {
            r.1.pixels@ + fixes(img@, rendered(r.1, true), dims.0 as int, config.fix_threshold as int, img.len() as nat)
        } else {
            r.1.pixels@
        },
        config.iterations != 0 ==> r.2 <= config.iterations,
        ran(config, img@, r.2, r.1),
{
    let ghost target = img@;
    let mut rng = Rng::new(seed);
    let mut compressor = Compressor::new(img, dims, config);
    compressor.detect_edges();
    let mut population = compressor.create_population(&mut rng);
    let max_score = compressor.max_score();
    assert(Seq::new(target.len(), |i: int| crate::render::background()) =~= Seq::new(compressor.base.len() as nat, |i: int| crate::render::background()));
    let mut iteration: u64 = 0;
    let ghost mut bests: Seq<int> = Seq::empty();
    loop
        invariant
            compressor.wf(),
            compressor.dimensions == dims,
            compressor.config == config,
            compressor.base@ == target,
            target == img@,
            population.len() >= 1,
            forall|i: int| 0 <= i < population.len() ==> good_encoding(#[trigger] population@[i], dims),
            iteration < u64::MAX,
            max_score == blank_error(target),
            bests.len() == iteration,
            iteration > 0 ==> bests[iteration - 1] == score(target, population@[0]),
            forall|k: int| 0 <= k < iteration ==> !stops(config, (k + 1) as u64, #[trigger] bests[k], max_score as int),
            forall|k: int| 0 <= k < iteration - 1 ==> #[trigger] bests[k + 1] <= bests[k],
            config.iterations != 0 ==> iteration < config.iterations,
        decreases u64::MAX - iteration,
    {
        let ghost prev = population@;
        let (next, best, index) = compressor.mutate(population, &mut rng);
        proof {
            if iteration > 0 {
                assert(best <= score(target, prev[0]));
            }
            bests = bests.push(best as int);
        }
        population = next;
        iteration += 1;
        assert(good_encoding(population@[index as int], dims));
        let decision = after_generation(&config, iteration, best, max_score);
        if decision.refresh_error {
            compressor.compute_error(&population[index]);
        }
        if decision.stop {
            let raw = population[index].clone();
            let copy = population[index].clone();
            proof {
                let best_e = population@[index as int];
                assert forall|j: int| 0 <= j < copy.polygons.len() implies same_polygon(#[trigger] copy.polygons@[j], raw.polygons@[j]) by {
                    assert(same_polygon(copy.polygons@[j], best_e.polygons@[j]));
                    assert(same_polygon(raw.polygons@[j], best_e.polygons@[j]));
                }
                assert(same_encoding(copy, raw));
                crate::render::render_deterministic(copy, raw, true);
                assert forall|j: int| 0 <= j < copy.polygons.len() implies #[trigger] copy.polygons@[j].within(dims) by {
                    assert(same_polygon(copy.polygons@[j], best_e.polygons@[j]));
                    assert(good_polygon(best_e.polygons@[j], dims));
                    assert(copy.polygons@[j].vertices@ == best_e.polygons@[j].vertices@);
                }
                assert forall|j: int| 0 <= j < copy.pixels.len() implies in_canvas(#[trigger] copy.pixels@[j].pos, dims) by {
                    assert(copy.pixels@[j] == best_e.pixels@[j]);
                }
            }
            let ghost copy_pixels = copy.pixels@;
            let ghost copy_render = rendered(copy, true);
            let fixed = compressor.fix_pixels(copy);
            assert(copy_pixels == raw.pixels@);
            assert(copy_render == rendered(raw, true));
            assert(compressor.base@ == target);
            assert forall|j: int| 0 <= j < raw.polygons.len() implies good_polygon(#[trigger] raw.polygons@[j], dims) by {
                assert(crate::encoding::same_polygon(raw.polygons@[j], population@[index as int].polygons@[j]));
                assert(good_polygon(population@[index as int].polygons@[j], dims));
                assert(raw.polygons@[j].vertices@ == population@[index as int].polygons@[j].vertices@);
            }
            assert forall|j: int| 0 <= j < raw.pixels.len() implies in_canvas(#[trigger] raw.pixels@[j].pos, dims) by {
                assert(raw.pixels@[j] == population@[index as int].pixels@[j]);
            }
            proof {
                crate::render::render_deterministic(raw, population@[index as int], false);
                assert(score(target, raw) == best);
                assert(run_history(config, bests, iteration, max_score as int));
                assert(bests[iteration - 1] == score(target, raw));
                assert(run_history(config, bests, iteration, blank_error(img@)) && bests[iteration - 1] == score(img@, raw));
                assert(ran(config, target, iteration, raw));
            }
            return (fixed, raw, iteration);
        }
    }
}

impl Compressor {
    /// Edge detection on the target: every interior pixel whose central
    /// differences of channel sums `(gx, gy)` (each twice the gradient
    /// component) satisfy `gx^2 + gy^2 > 4 * EDGE_MIN^2`.
    pub fn detect_edges(&mut self)
        requires
            old(self).wf(),
        ensures
            final(self).wf(),
            final(self).dimensions == old(self).dimensions,
            final(self).base == old(self).base,
            final(self).error == old(self).error,
            final(self).config == old(self).config,
            final(self).edges@ == edgels(old(self).base@, old(self).dimensions, old(self).base.len() as nat),
    {
        let w = self.dimensions.0 as u64;
        let h = self.dimensions.1 as u64;
        let n = self.base.len();
        assert(n <= 0x1_0000_0000) by (nonlinear_arith)
            requires n == w * h, 1 <= w <= 65536, 1 <= h <= 65536;
        let mut edges: Vec<Edgel> = Vec::new();
        let mut i: usize = 0;
        while i < n
            invariant
                self.wf(),
                w == self.dimensions.0,
                h == self.dimensions.1,
                n == self.base.len(),
                i <= n,
                edges@ == edgels(self.base@, self.dimensions, i as nat),
            decreases n - i,
        {
            proof { crate::render::lemma_pos(i as int, w as int, h as int); }
            let x = i as u64 % w;
            let y = i as u64 / w;
            if x >= 1 && x + 1 < w && y >= 1 && y + 1 < h {
                assert(i - 1 >= 0 && i + 1 < n && i - w >= 0 && i + w < n) by (nonlinear_arith)
                    requires i == y * w + x, x >= 1, x + 1 < w, y >= 1, y + 1 < h, n == w * h;
                let gx = channel_sum(self.base[i + 1]) - channel_sum(self.base[i - 1]);
                let gy = channel_sum(self.base[i + w as usize]) - channel_sum(self.base[i - w as usize]);
                assert(0 <= gx * gx <= 765 * 765 && 0 <= gy * gy <= 765 * 765) by (nonlinear_arith)
                    requires -765 <= gx <= 765, -765 <= gy <= 765;
                if gx * gx + gy * gy > 4 * EDGE_MIN * EDGE_MIN {
                    edges.push(Edgel { pos: Point { x: x as i64, y: y as i64 }, gx, gy });
                }
            }
            i += 1;
        }
        self.edges = edges;
    }
}

/// Pixels among the first `n` where target `t` and raster `c` differ.
pub open spec fn mismatches(t: Seq<Rgb>, c: Seq<Rgb>, n: nat) -> nat
    decreases n,
{
    if n == 0 {
        0
    } else {
        mismatches(t, c, (n - 1) as nat) + if t[n - 1] != c[n - 1] { 1nat } else { 0nat }
    }
}

proof fn lemma_fixes_exact(t: Seq<Rgb>, c: Seq<Rgb>, dims: (u32, u32), n: nat)
    requires
        dims_ok(dims),
        t.len() == c.len(),
        c.len() == dims.0 as int * dims.1 as int,
        n <= t.len(),
    ensures
        fixes(t, c, dims.0 as int, 0, n).len() == mismatches(t, c, n),
        overlay(c, fixes(t, c, dims.0 as int, 0, n), dims.0 as int, fixes(t, c, dims.0 as int, 0, n).len()).len() == c.len(),
        forall|i: int| 0 <= i < n ==> #[trigger] overlay(c, fixes(t, c, dims.0 as int, 0, n), dims.0 as int, fixes(t, c, dims.0 as int, 0, n).len())[i] == t[i],
        forall|i: int| n <= i < c.len() ==> #[trigger] overlay(c, fixes(t, c, dims.0 as int, 0, n), dims.0 as int, fixes(t, c, dims.0 as int, 0, n).len())[i] == c[i],
    decreases n,
{
    let w = dims.0 as int;
    if n > 0 {
        lemma_fixes_exact(t, c, dims, (n - 1) as nat);
        let i = n - 1;
        let f0 = fixes(t, c, w, 0, (n - 1) as nat);
        let f = fixes(t, c, w, 0, n);
        let o0 = overlay(c, f0, w, f0.len());
        if weighted(t[i], c[i]) > 0 {
            crate::render::lemma_pos(i, w, dims.1 as int);
            let px = Pixel { pos: pos_of(i, w), color: t[i] };
            assert(f == f0.push(px));
            assert(px.pos.y * w + px.pos.x == i);
            crate::render::lemma_overlay_prefix(c, f0, f, w, f0.len());
            assert(overlay(c, f, w, f.len()) == o0.update(i, t[i]));
            assert(t[i] != c[i]);
        } else {
            assert(f == f0);
            assert(t[i] == c[i]);
        }
    }
}

/// With fixing on and a fix threshold of 0, the pixel fixer forces an
/// override onto every pixel that the antialiased render gets wrong, and
/// on no other: the fixed encoding renders exactly to the target, and it
/// has exactly as many new overrides as there were mismatched pixels.
pub proof fn fix_with_zero_threshold_is_exact(c: Compressor, img: Encoding, r: Encoding)
    requires
        c.wf(),
        img.wf(),
        img.dimensions == c.dimensions,
        c.config.fix_residual,
        c.config.fix_threshold == 0,
        r.dimensions == img.dimensions,
        r.polygons == img.polygons,
        r.pixels@ == img.pixels@ + fixes(c.base@, rendered(img, true), c.dimensions.0 as int, 0, c.base.len() as nat),
    ensures
        rendered(r, true) == c.base@,
        r.pixels.len() - img.pixels.len() == mismatches(c.base@, rendered(img, true), c.base.len() as nat),
{
    let dims = c.dimensions;
    let w = dims.0 as int;
    let ren = rendered(img, true);
    let f = fixes(c.base@, ren, w, 0, c.base.len() as nat);
    let comp = composite(img.polygons@, true, dims, img.polygons.len() as nat);
    crate::render::lemma_composite_len(img.polygons@, true, dims, img.polygons.len() as nat);
    crate::render::lemma_overlay_len(comp, img.pixels@, dims, img.pixels.len() as nat);
    crate::render::lemma_overlay_concat(comp, img.pixels@, f, w);
    assert(rendered(r, true) == overlay(ren, f, w, f.len()));
    lemma_fixes_exact(c.base@, ren, dims, c.base.len() as nat);
    assert(rendered(r, true) =~= c.base@);
}

/// Elitism across generations: if generation `g` ended with best score
/// `best_g`, the score of its individual `population_g[index_g]`, and the
/// next generation's best score is no worse than that of any individual of
/// generation `g` (what `Compressor::mutate` ensures), then best scores do
/// not increase.
pub proof fn best_score_never_increases(
    base: Seq<Rgb>,
    population_g: Seq<Encoding>,
    best_g: u64,
    index_g: int,
    best_next: u64,
)
    requires
        0 <= index_g < population_g.len(),
        best_g == score(base, population_g[index_g]),
        forall|i: int| 0 <= i < population_g.len() ==> best_next <= score(base, #[trigger] population_g[i]),
    ensures
        best_next <= best_g,
{
    assert(best_next <= score(base, population_g[index_g]));
}

} // verus!
