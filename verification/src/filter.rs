//! The multi-seed likelihood-weighted particle filter, one well and one seed.
//!
//! A cloud of particles tracks a depth and a rate along the hole. Every evaluation
//! row moves the cloud, weights it by how well the type-well log explains the gamma
//! ray, and takes the weighted mean as the estimate; when the weights degenerate the
//! cloud is resampled. Random numbers are a function of the stream, the particle's
//! slot, the row and the draw, so nothing carries generator state.
//!
//! The same filter exists with two sets of [`Formulas`].
use vstd::prelude::*;
use crate::arith;
use crate::arith::Arith;
use crate::batch::PfConfig;
use crate::ieee;
use crate::kernel;
use crate::kernel::{
    cos_precise, exp_precise, hash32, interp1, ln_precise, recip_precise, sin_precise,
    sqrt_precise, to_u32, unit_f,
};
use crate::scan;
use crate::scan::{lane_bounds, lane_len, lower_bound, tree_sum3, two_level_scan};

verus! {

/// Largest squared mismatch that counts: `600`.
pub const DD_MAX: u32 = 0x4416_0000;

/// Initial spread of the rates: `0.01`.
pub const RATE_SPREAD: u32 = 0x3C23_D70A;

/// How far a particle may stray beyond the grid: `100`.
pub const MARGIN: u32 = 0x42C8_0000;

/// Stream key of the resampling offset.
pub const RESAMPLE_KEY: u32 = 0xA5A5_5A5A;

/// How the filter's formulas are evaluated.
#[derive(Debug, Clone, Copy, PartialEq, Eq, Structural)]
pub enum Formulas {
    /// As written: separate multiplications and additions, divisions, and the
    /// arithmetic's own `ln`, `sqrt`, `sin`, `cos` and `exp`.
    Plain,
    /// Pinned down for devices whose compilers contract and approximate at will:
    /// explicit fused multiply-adds, reciprocals, and the functions of
    /// [`crate::kernel`].
    Pinned,
}

// ---------------------------------------------------------------------------
// Formulas
// ---------------------------------------------------------------------------

/// `c + a * b`.
pub open spec fn mul_added<A: Arith>(m: A, f: Formulas, a: u32, b: u32, c: u32) -> u32 {
    match f {
        Formulas::Plain => arith::sum32(m, c, arith::product32(m, a, b)),
        Formulas::Pinned => arith::fused32(m, a, b, c),
    }
}

/// `c + a * b`.
fn mul_add<A: Arith>(m: &A, f: Formulas, a: u32, b: u32, c: u32) -> (r: u32)
    ensures
        arith::deterministic(*m) ==> r == mul_added(*m, f, a, b, c),
{
    match f {
        Formulas::Plain => {
            let ab = arith::mul32(m, a, b);
            arith::add32(m, c, ab)
        },
        Formulas::Pinned => arith::fma32(m, a, b, c),
    }
}

/// `base + scale * (rad * trig)`: a normal draw of deviation `scale` around `base`.
pub open spec fn shifted<A: Arith>(
    m: A,
    f: Formulas,
    base: u32,
    scale: u32,
    rad: u32,
    trig: u32,
) -> u32 {
    match f {
        Formulas::Plain => arith::sum32(
            m,
            base,
            arith::product32(m, scale, arith::product32(m, rad, trig)),
        ),
        Formulas::Pinned => arith::fused32(m, arith::product32(m, scale, rad), trig, base),
    }
}

/// `base + scale * (rad * trig)`.
fn shift<A: Arith>(m: &A, f: Formulas, base: u32, scale: u32, rad: u32, trig: u32) -> (r: u32)
    ensures
        arith::deterministic(*m) ==> r == shifted(*m, f, base, scale, rad, trig),
{
    match f {
        Formulas::Plain => {
            let g = arith::mul32(m, rad, trig);
            let d = arith::mul32(m, scale, g);
            arith::add32(m, base, d)
        },
        Formulas::Pinned => {
            let d = arith::mul32(m, scale, rad);
            arith::fma32(m, d, trig, base)
        },
    }
}

/// `x / y`.
pub open spec fn ratio_of<A: Arith>(m: A, f: Formulas, x: u32, y: u32) -> u32 {
    match f {
        Formulas::Plain => arith::quotient32(m, x, y),
        Formulas::Pinned => arith::product32(m, x, kernel::reciprocal(m, y)),
    }
}

/// `x / y`.
fn ratio<A: Arith>(m: &A, f: Formulas, x: u32, y: u32) -> (r: u32)
    ensures
        arith::deterministic(*m) ==> r == ratio_of(*m, f, x, y),
{
    match f {
        Formulas::Plain => arith::div32(m, x, y),
        Formulas::Pinned => {
            let inv = recip_precise(m, y);
            arith::mul32(m, x, inv)
        },
    }
}

/// Whether a NaN gives way to the bound it is compared with.
pub open spec fn yields(f: Formulas, x: u32) -> bool {
    f == Formulas::Plain && ieee::nan32(x)
}

/// `x`, but at least `lo`.
pub open spec fn raised(f: Formulas, x: u32, lo: u32) -> u32 {
    if ieee::less32(x, lo) || yields(f, x) {
        lo
    } else {
        x
    }
}

/// `x`, but at least `lo`.
pub(crate) fn raise(f: Formulas, x: u32, lo: u32) -> (r: u32)
    ensures
        r == raised(f, x, lo),
{
    if ieee::lt32(x, lo) || (f == Formulas::Plain && ieee::is_nan32(x)) {
        lo
    } else {
        x
    }
}

/// `x`, but at most `hi`.
pub open spec fn capped(f: Formulas, x: u32, hi: u32) -> u32 {
    if ieee::less32(hi, x) || yields(f, x) {
        hi
    } else {
        x
    }
}

/// `x`, but at most `hi`.
fn cap(f: Formulas, x: u32, hi: u32) -> (r: u32)
    ensures
        r == capped(f, x, hi),
{
    if ieee::lt32(hi, x) || (f == Formulas::Plain && ieee::is_nan32(x)) {
        hi
    } else {
        x
    }
}

/// `x` held between `lo` and `hi`; a NaN passes.
pub open spec fn clamped(x: u32, lo: u32, hi: u32) -> u32 {
    let y = if ieee::less32(x, lo) {
        lo
    } else {
        x
    };
    if ieee::less32(hi, y) {
        hi
    } else {
        y
    }
}

/// `x` held between `lo` and `hi`.
pub(crate) fn clamp(x: u32, lo: u32, hi: u32) -> (r: u32)
    ensures
        r == clamped(x, lo, hi),
{
    let y = if ieee::lt32(x, lo) {
        lo
    } else {
        x
    };
    if ieee::lt32(hi, y) {
        hi
    } else {
        y
    }
}

/// One Box-Muller pair: the radius, and the cosine and sine of the angle.
pub struct Draw {
    pub rad: u32,
    pub cos: u32,
    pub sin: u32,
}

/// Radius of a Box-Muller pair: `sqrt(-2 ln u)`.
pub open spec fn draw_radius<A: Arith>(m: A, f: Formulas, u: u32) -> u32 {
    match f {
        Formulas::Plain => arith::root32(
            m,
            arith::product32(m, kernel::NEG_TWO, arith::log32(m, u)),
        ),
        Formulas::Pinned => kernel::sqrt_refined(
            m,
            arith::product32(m, kernel::NEG_TWO, kernel::ln_reduced(m, u)),
        ),
    }
}

/// The pair that counter `ctr` gives with the keys `k0` and `k1`.
pub open spec fn drawn<A: Arith>(m: A, f: Formulas, ctr: u32, k0: u32, k1: u32) -> Draw {
    let ang = arith::product32(m, kernel::TWO_PI, kernel::unit(kernel::hashed(ctr, k1)));
    Draw {
        rad: draw_radius(m, f, kernel::unit(kernel::hashed(ctr, k0))),
        cos: match f {
            Formulas::Plain => arith::cosine32(m, ang),
            Formulas::Pinned => kernel::cos_reduced(m, ang),
        },
        sin: match f {
            Formulas::Plain => arith::sine32(m, ang),
            Formulas::Pinned => kernel::sin_reduced(m, ang),
        },
    }
}

/// The pair that counter `ctr` gives with the keys `k0` and `k1`.
pub fn normals<A: Arith>(m: &A, f: Formulas, ctr: u32, k0: u32, k1: u32) -> (d: Draw)
    ensures
        arith::deterministic(*m) ==> d == drawn(*m, f, ctr, k0, k1),
{
    let u1 = unit_f(hash32(ctr, k0));
    let u2 = unit_f(hash32(ctr, k1));
    let ang = arith::mul32(m, kernel::TWO_PI, u2);
    match f {
        Formulas::Plain => {
            let ln = arith::ln32(m, u1);
            let x = arith::mul32(m, kernel::NEG_TWO, ln);
            let rad = arith::sqrt32(m, x);
            let cos = arith::cos32(m, ang);
            let sin = arith::sin32(m, ang);
            Draw { rad, cos, sin }
        },
        Formulas::Pinned => {
            let ln = ln_precise(m, u1);
            let x = arith::mul32(m, kernel::NEG_TWO, ln);
            let rad = sqrt_precise(m, x);
            let cos = cos_precise(m, ang);
            let sin = sin_precise(m, ang);
            Draw { rad, cos, sin }
        },
    }
}

/// Per-well parameters of the filter, as the layout holds them.
#[derive(Debug, Clone, Copy)]
pub struct WellParams {
    /// Depth of the first grid sample.
    pub vmin: u32,
    /// Grid spacing.
    pub step: u32,
    /// Mismatch sigma.
    pub gs: u32,
    /// Initial position.
    pub ls: u32,
    /// Initial rate.
    pub ir: u32,
    /// Initial position spread.
    pub init_spr: u32,
    /// Reciprocal of `step`.
    pub inv_step: u32,
    /// Reciprocal of `gs`.
    pub inv_gs: u32,
    /// Seed base.
    pub seed_base: u32,
}

/// Linear interpolation at `v` on the grid, dividing by the spacing.
pub open spec fn plain_lookup<A: Arith>(
    m: A,
    grid: Seq<u32>,
    v: u32,
    vmin: u32,
    step: u32,
) -> u32 {
    let fi = arith::quotient32(m, arith::difference32(m, v, vmin), step);
    let i = kernel::int_of_u32(m, fi) as int;
    if ieee::less32(fi, ieee::ZERO32) {
        grid[0]
    } else if i >= grid.len() - 1 {
        grid[grid.len() - 1]
    } else {
        let t = arith::difference32(m, fi, arith::of_int32(m, i as u64));
        arith::sum32(
            m,
            arith::product32(m, grid[i], arith::difference32(m, ieee::ONE32, t)),
            arith::product32(m, grid[i + 1], t),
        )
    }
}

/// Type-well value at depth `v`.
pub open spec fn looked_up<A: Arith>(
    m: A,
    f: Formulas,
    grid: Seq<u32>,
    v: u32,
    p: WellParams,
) -> u32 {
    match f {
        Formulas::Plain => plain_lookup(m, grid, v, p.vmin, p.step),
        Formulas::Pinned => kernel::interpolated(m, grid, v, p.vmin, p.inv_step),
    }
}

/// Type-well value at depth `v`.
fn look_up<A: Arith>(m: &A, f: Formulas, grid: &[u32], v: u32, p: &WellParams) -> (r: u32)
    requires
        grid@.len() > 0,
    ensures
        arith::deterministic(*m) ==> r == looked_up(*m, f, grid@, v, *p),
{
    match f {
        Formulas::Plain => {
            let d = arith::sub32(m, v, p.vmin);
            let fi = arith::div32(m, d, p.step);
            if ieee::lt32(fi, ieee::ZERO32) {
                return grid[0];
            }
            let i = to_u32(m, fi) as usize;
            let n = grid.len();
            if i >= n - 1 {
                return grid[n - 1];
            }
            let whole = arith::from_int32(m, i as u64);
            let t = arith::sub32(m, fi, whole);
            let s = arith::sub32(m, ieee::ONE32, t);
            let a = arith::mul32(m, grid[i], s);
            let b = arith::mul32(m, grid[i + 1], t);
            arith::add32(m, a, b)
        },
        Formulas::Pinned => interp1(m, grid, v, p.vmin, p.inv_step),
    }
}

/// Likelihood of reading `gri` where the type well reads `eg`, with a floor.
pub open spec fn likelihood_of<A: Arith>(
    m: A,
    f: Formulas,
    gri: u32,
    eg: u32,
    p: WellParams,
    floor: u32,
) -> u32 {
    let miss = arith::difference32(m, gri, eg);
    let d = match f {
        Formulas::Plain => arith::quotient32(m, miss, p.gs),
        Formulas::Pinned => arith::product32(m, miss, p.inv_gs),
    };
    let dd = capped(f, arith::product32(m, d, d), DD_MAX);
    let x = arith::product32(m, kernel::NEG_HALF, dd);
    let e = match f {
        Formulas::Plain => arith::exponential32(m, x),
        Formulas::Pinned => kernel::exp_reduced(m, x),
    };
    raised(f, e, floor)
}

/// Likelihood of reading `gri` where the type well reads `eg`, with a floor.
fn likelihood<A: Arith>(
    m: &A,
    f: Formulas,
    gri: u32,
    eg: u32,
    p: &WellParams,
    floor: u32,
) -> (r: u32)
    ensures
        arith::deterministic(*m) ==> r == likelihood_of(*m, f, gri, eg, *p, floor),
{
    let miss = arith::sub32(m, gri, eg);
    let d = match f {
        Formulas::Plain => arith::div32(m, miss, p.gs),
        Formulas::Pinned => arith::mul32(m, miss, p.inv_gs),
    };
    let d2 = arith::mul32(m, d, d);
    let dd = cap(f, d2, DD_MAX);
    let x = arith::mul32(m, kernel::NEG_HALF, dd);
    let e = match f {
        Formulas::Plain => arith::exp32(m, x),
        Formulas::Pinned => exp_precise(m, x),
    };
    raise(f, e, floor)
}

// ---------------------------------------------------------------------------
// The filter as a function
// ---------------------------------------------------------------------------

/// Positions, rates and weights of the particles.
pub struct Cloud {
    pub pos: Seq<u32>,
    pub rate: Seq<u32>,
    pub w: Seq<u32>,
}

/// A cloud after it was moved and weighted: the new cloud, its weights not yet
/// normalised, and the depth of each particle.
pub struct Moved {
    pub pos: Seq<u32>,
    pub rate: Seq<u32>,
    pub w: Seq<u32>,
    pub tvt: Seq<u32>,
}

/// What one row leaves: the cloud, the estimate and the sum of the weights.
pub struct Step {
    pub cloud: Cloud,
    pub est: u32,
    pub ws: u32,
}

/// `xs[start] * ys[start] + ... + xs[end - 1] * ys[end - 1]`, added from the left.
pub open spec fn dot<A: Arith>(
    m: A,
    f: Formulas,
    xs: Seq<u32>,
    ys: Seq<u32>,
    start: int,
    end: int,
) -> u32
    decreases end - start,
{
    if end <= start {
        ieee::ZERO32
    } else {
        mul_added(m, f, xs[end - 1], ys[end - 1], dot(m, f, xs, ys, start, end - 1))
    }
}

/// Sum of `xs`: lane by lane, then over the lanes by a tree.
pub open spec fn cloud_sum<A: Arith>(m: A, xs: Seq<u32>, lanes: int, chunk: int) -> u32 {
    scan::tree(
        scan::plus(m),
        scan::lane_totals(scan::plus(m), ieee::ZERO32, xs, lanes, chunk),
    )
}

/// Sum of the products of `xs` and `ys`, in the same order.
pub open spec fn cloud_dot<A: Arith>(
    m: A,
    f: Formulas,
    xs: Seq<u32>,
    ys: Seq<u32>,
    lanes: int,
    chunk: int,
) -> u32 {
    scan::tree(
        scan::plus(m),
        Seq::new(
            lanes as nat,
            |t: int|
                dot(
                    m,
                    f,
                    xs,
                    ys,
                    scan::lane_start(t, chunk),
                    scan::lane_end(t, chunk, xs.len() as int),
                ),
        ),
    )
}

/// One well and one seed: what a filter run is a function of.
pub struct Filter<A> {
    /// The arithmetic.
    pub m: A,
    /// How formulas are evaluated.
    pub f: Formulas,
    /// Measured depth of the evaluation rows.
    pub md: Seq<u32>,
    /// Vertical offset of the evaluation rows.
    pub z: Seq<u32>,
    /// Gamma ray of the evaluation rows.
    pub gr: Seq<u32>,
    /// Type-well grid.
    pub grid: Seq<u32>,
    /// Well parameters.
    pub p: WellParams,
    /// Hyper-parameters.
    pub cfg: PfConfig,
    /// Seed number.
    pub seed: u32,
}

impl<A: Arith> Filter<A> {
    /// Number of particles.
    pub open spec fn n(self) -> nat {
        self.cfg.n_particles as nat
    }

    /// Number of lanes.
    pub open spec fn lanes(self) -> int {
        self.cfg.cube_dim as int
    }

    /// Particles per lane.
    pub open spec fn chunk(self) -> int {
        scan::lane_chunk(self.n() as int, self.lanes())
    }

    /// The random stream: seed bases and seeds add up modulo `2^32`.
    pub open spec fn stream(self) -> u32 {
        self.p.seed_base.wrapping_add(self.seed)
    }

    /// The number of particles as a float.
    pub open spec fn n_f(self) -> u32 {
        arith::of_int32(self.m, self.cfg.n_particles as u64)
    }

    /// The weight of one particle among equals.
    pub open spec fn inv_n(self) -> u32 {
        arith::quotient32(self.m, ieee::ONE32, self.n_f())
    }

    /// Shallowest depth a particle may take.
    pub open spec fn lo(self) -> u32 {
        arith::difference32(self.m, self.p.vmin, MARGIN)
    }

    /// Deepest depth a particle may take.
    pub open spec fn hi(self) -> u32 {
        let tmax = mul_added(
            self.m,
            self.f,
            arith::of_int32(self.m, self.grid.len() as u64),
            self.p.step,
            self.p.vmin,
        );
        arith::sum32(self.m, tmax, MARGIN)
    }

    /// The draw that places particle `j`.
    pub open spec fn first_draw(self, j: int) -> Draw {
        drawn(self.m, self.f, kernel::hashed(self.stream(), j as u32), 0, 1)
    }

    /// The draw of particle `j` at row `i` under two keys.
    pub open spec fn row_draw(self, j: int, i: int, k0: u32, k1: u32) -> Draw {
        drawn(
            self.m,
            self.f,
            kernel::hashed(kernel::hashed(self.stream(), j as u32), i as u32),
            k0,
            k1,
        )
    }

    /// The cloud before the first row.
    pub open spec fn initial(self) -> Cloud {
        Cloud {
            pos: Seq::new(
                self.n(),
                |j: int|
                    {
                        let d = self.first_draw(j);
                        shifted(self.m, self.f, self.p.ls, self.p.init_spr, d.rad, d.cos)
                    },
            ),
            rate: Seq::new(
                self.n(),
                |j: int|
                    {
                        let d = self.first_draw(j);
                        shifted(self.m, self.f, self.p.ir, RATE_SPREAD, d.rad, d.sin)
                    },
            ),
            w: Seq::new(self.n(), |j: int| self.inv_n()),
        }
    }

    /// Measured depth covered on the way to row `i`: at least one.
    pub open spec fn gap(self, i: int) -> u32 {
        if i > 0 {
            raised(self.f, arith::difference32(self.m, self.md[i], self.md[i - 1]), ieee::ONE32)
        } else {
            ieee::ONE32
        }
    }

    /// Rate of particle `j` after it moved to row `i`.
    pub open spec fn moved_rate(self, c: Cloud, i: int, j: int) -> u32 {
        let d = self.row_draw(j, i, 0, 1);
        shifted(
            self.m,
            self.f,
            arith::product32(self.m, self.cfg.mom, c.rate[j]),
            self.cfg.vn,
            d.rad,
            d.cos,
        )
    }

    /// Depth of particle `j` after it moved to row `i`.
    pub open spec fn moved_tvt(self, c: Cloud, i: int, j: int) -> u32 {
        let d = self.row_draw(j, i, 0, 1);
        let along = mul_added(self.m, self.f, self.moved_rate(c, i, j), self.gap(i), c.pos[j]);
        let at = shifted(self.m, self.f, along, self.cfg.pn, d.rad, d.sin);
        clamped(arith::difference32(self.m, at, self.z[i]), self.lo(), self.hi())
    }

    /// Weight of particle `j` after it was compared with row `i`.
    pub open spec fn moved_weight(self, c: Cloud, i: int, j: int) -> u32 {
        let eg = looked_up(self.m, self.f, self.grid, self.moved_tvt(c, i, j), self.p);
        arith::product32(
            self.m,
            c.w[j],
            likelihood_of(self.m, self.f, self.gr[i], eg, self.p, self.cfg.lik_floor),
        )
    }

    /// The cloud moved to row `i` and weighted by it.
    pub open spec fn moved(self, c: Cloud, i: int) -> Moved {
        Moved {
            pos: Seq::new(
                self.n(),
                |j: int| arith::sum32(self.m, self.moved_tvt(c, i, j), self.z[i]),
            ),
            rate: Seq::new(self.n(), |j: int| self.moved_rate(c, i, j)),
            w: Seq::new(self.n(), |j: int| self.moved_weight(c, i, j)),
            tvt: Seq::new(self.n(), |j: int| self.moved_tvt(c, i, j)),
        }
    }

    /// Sum of the weights.
    pub open spec fn weight_sum(self, v: Moved) -> u32 {
        cloud_sum(self.m, v.w, self.lanes(), self.chunk())
    }

    /// Sum of the squared weights.
    pub open spec fn square_sum(self, v: Moved) -> u32 {
        cloud_dot(self.m, self.f, v.w, v.w, self.lanes(), self.chunk())
    }

    /// Sum of the depths by weight.
    pub open spec fn depth_sum(self, v: Moved) -> u32 {
        cloud_dot(self.m, self.f, v.w, v.tvt, self.lanes(), self.chunk())
    }

    /// Effective number of particles.
    pub open spec fn neff(self, v: Moved) -> u32 {
        let ws = self.weight_sum(v);
        let ws2 = self.square_sum(v);
        if ieee::less32(ieee::ZERO32, ws2) {
            ratio_of(self.m, self.f, arith::product32(self.m, ws, ws), ws2)
        } else {
            self.n_f()
        }
    }

    /// Whether the cloud is resampled.
    pub open spec fn degenerate(self, v: Moved) -> bool {
        ieee::less32(self.neff(v), arith::product32(self.m, self.cfg.resamp, self.n_f()))
    }

    /// The weights divided by their sum.
    pub open spec fn normalised(self, v: Moved) -> Seq<u32> {
        Seq::new(
            self.n(),
            |j: int| ratio_of(self.m, self.f, v.w[j], self.weight_sum(v)),
        )
    }

    /// Offset of the first resampling point at row `i`.
    pub open spec fn offset(self, i: int) -> u32 {
        arith::product32(
            self.m,
            kernel::unit(
                kernel::hashed(kernel::hashed(self.stream(), RESAMPLE_KEY), i as u32),
            ),
            self.inv_n(),
        )
    }

    /// Particle that slot `a` of the resampled cloud copies: the first whose
    /// cumulative weight reaches the slot's point.
    pub open spec fn source(self, v: Moved, i: int, a: int) -> int {
        let cum = scan::two_level(
            scan::plus(self.m),
            ieee::ZERO32,
            self.normalised(v),
            self.lanes(),
            self.chunk(),
        );
        let u = mul_added(
            self.m,
            self.f,
            arith::of_int32(self.m, a as u64),
            self.inv_n(),
            self.offset(i),
        );
        scan::searched(cum, 0, self.n() - 1, u)
    }

    /// The resampled cloud.
    pub open spec fn resampled(self, v: Moved, i: int) -> Cloud {
        Cloud {
            pos: Seq::new(
                self.n(),
                |a: int|
                    {
                        let d = self.row_draw(a, i, 2, 3);
                        shifted(
                            self.m,
                            self.f,
                            v.pos[self.source(v, i, a)],
                            self.cfg.rough_p,
                            d.rad,
                            d.cos,
                        )
                    },
            ),
            rate: Seq::new(
                self.n(),
                |a: int|
                    {
                        let d = self.row_draw(a, i, 2, 3);
                        shifted(
                            self.m,
                            self.f,
                            v.rate[self.source(v, i, a)],
                            self.cfg.rough_r,
                            d.rad,
                            d.sin,
                        )
                    },
            ),
            w: Seq::new(self.n(), |a: int| self.inv_n()),
        }
    }

    /// Depths of a cloud at row `i`.
    pub open spec fn depths(self, c: Cloud, i: int) -> Seq<u32> {
        Seq::new(self.n(), |j: int| arith::difference32(self.m, c.pos[j], self.z[i]))
    }

    /// Row `i`: move, weight, estimate, and resample where the weights degenerate.
    #[verifier::opaque]
    pub open spec fn step(self, c: Cloud, i: int) -> Step {
        let v = self.moved(c, i);
        if self.degenerate(v) {
            let after = self.resampled(v, i);
            Step {
                cloud: after,
                est: arith::product32(
                    self.m,
                    cloud_sum(self.m, self.depths(after, i), self.lanes(), self.chunk()),
                    self.inv_n(),
                ),
                ws: self.weight_sum(v),
            }
        } else {
            Step {
                cloud: Cloud { pos: v.pos, rate: v.rate, w: self.normalised(v) },
                est: ratio_of(self.m, self.f, self.depth_sum(v), self.weight_sum(v)),
                ws: self.weight_sum(v),
            }
        }
    }

    /// The cloud before row `k`.
    pub open spec fn cloud(self, k: int) -> Cloud
        decreases k,
    {
        if k <= 0 {
            self.initial()
        } else {
            self.step(self.cloud(k - 1), k - 1).cloud
        }
    }

    /// The estimate for row `k`.
    pub open spec fn estimate(self, k: int) -> u32 {
        self.step(self.cloud(k), k).est
    }

    /// Log-likelihood of the first `k` rows.
    pub open spec fn log_lik(self, k: int) -> u32
        decreases k,
    {
        if k <= 0 {
            ieee::ZERO32
        } else {
            arith::sum32(
                self.m,
                self.log_lik(k - 1),
                arith::log32(self.m, self.step(self.cloud(k - 1), k - 1).ws),
            )
        }
    }
}

// ---------------------------------------------------------------------------
// Running the filter
// ---------------------------------------------------------------------------

/// Sum of `xs`: lane by lane, then over the lanes by a tree.
fn sum_cloud<A: Arith>(m: &A, xs: &Vec<u32>, lanes: usize, chunk: usize) -> (r: u32)
    requires
        lanes > 0,
        chunk == scan::lane_chunk(xs@.len() as int, lanes as int),
    ensures
        arith::deterministic(*m) ==> r == cloud_sum(*m, xs@, lanes as int, chunk as int),
{
    let n = xs.len();
    let mut r0: Vec<u32> = Vec::new();
    let mut t: usize = 0;
    while t < lanes
        invariant
            t <= lanes,
            n == xs@.len(),
            chunk == scan::lane_chunk(n as int, lanes as int),
            r0@.len() == t,
            arith::deterministic(*m) ==> forall|u: int|
                0 <= u < t ==> #[trigger] r0@[u] == scan::run_sum(
                    scan::plus(*m),
                    ieee::ZERO32,
                    xs@,
                    scan::lane_start(u, chunk as int),
                    scan::lane_end(u, chunk as int, n as int),
                ),
        decreases lanes - t,
    {
        let (start, end) = lane_bounds(t, lanes, chunk, n);
        let mut acc: u32 = ieee::ZERO32;
        let mut p: usize = start;
        while p < end
            invariant
                start <= p <= end <= n,
                n == xs@.len(),
                arith::deterministic(*m) ==> acc == scan::run_sum(
                    scan::plus(*m),
                    ieee::ZERO32,
                    xs@,
                    start as int,
                    p as int,
                ),
            decreases end - p,
        {
            acc = arith::add32(m, acc, xs[p]);
            p = p + 1;
        }
        r0.push(acc);
        t = t + 1;
    }
    let mut r1: Vec<u32> = vec![0; lanes];
    let mut r2: Vec<u32> = vec![0; lanes];
    proof {
        if arith::deterministic(*m) {
            assert(r0@ =~= scan::lane_totals(
                scan::plus(*m),
                ieee::ZERO32,
                xs@,
                lanes as int,
                chunk as int,
            ));
        }
    }
    let (s, _, _) = tree_sum3(m, &mut r0, &mut r1, &mut r2);
    s
}

/// The three sums of a weighted cloud: of the weights, of their squares, and of the
/// depths by weight.
fn weigh<A: Arith>(
    m: &A,
    f: Formulas,
    w: &Vec<u32>,
    tvt: &Vec<u32>,
    lanes: usize,
    chunk: usize,
) -> (r: (u32, u32, u32))
    requires
        lanes > 0,
        tvt@.len() == w@.len(),
        chunk == scan::lane_chunk(w@.len() as int, lanes as int),
    ensures
        arith::deterministic(*m) ==> {
            &&& r.0 == cloud_sum(*m, w@, lanes as int, chunk as int)
            &&& r.1 == cloud_dot(*m, f, w@, w@, lanes as int, chunk as int)
            &&& r.2 == cloud_dot(*m, f, w@, tvt@, lanes as int, chunk as int)
        },
{
    let n = w.len();
    let mut r0: Vec<u32> = Vec::new();
    let mut r1: Vec<u32> = Vec::new();
    let mut r2: Vec<u32> = Vec::new();
    let mut t: usize = 0;
    while t < lanes
        invariant
            t <= lanes,
            n == w@.len(),
            n == tvt@.len(),
            chunk == scan::lane_chunk(n as int, lanes as int),
            r0@.len() == t,
            r1@.len() == t,
            r2@.len() == t,
            arith::deterministic(*m) ==> forall|u: int|
                0 <= u < t ==> #[trigger] r0@[u] == scan::run_sum(
                    scan::plus(*m),
                    ieee::ZERO32,
                    w@,
                    scan::lane_start(u, chunk as int),
                    scan::lane_end(u, chunk as int, n as int),
                ),
            arith::deterministic(*m) ==> forall|u: int|
                0 <= u < t ==> #[trigger] r1@[u] == dot(
                    *m,
                    f,
                    w@,
                    w@,
                    scan::lane_start(u, chunk as int),
                    scan::lane_end(u, chunk as int, n as int),
                ),
            arith::deterministic(*m) ==> forall|u: int|
                0 <= u < t ==> #[trigger] r2@[u] == dot(
                    *m,
                    f,
                    w@,
                    tvt@,
                    scan::lane_start(u, chunk as int),
                    scan::lane_end(u, chunk as int, n as int),
                ),
        decreases lanes - t,
    {
        let (start, end) = lane_bounds(t, lanes, chunk, n);
        let mut s_w: u32 = ieee::ZERO32;
        let mut s_w2: u32 = ieee::ZERO32;
        let mut s_wt: u32 = ieee::ZERO32;
        let mut p: usize = start;
        while p < end
            invariant
                start <= p <= end <= n,
                n == w@.len(),
                n == tvt@.len(),
                arith::deterministic(*m) ==> {
                    &&& s_w == scan::run_sum(
                        scan::plus(*m),
                        ieee::ZERO32,
                        w@,
                        start as int,
                        p as int,
                    )
                    &&& s_w2 == dot(*m, f, w@, w@, start as int, p as int)
                    &&& s_wt == dot(*m, f, w@, tvt@, start as int, p as int)
                },
            decreases end - p,
        {
            s_w = arith::add32(m, s_w, w[p]);
            s_w2 = mul_add(m, f, w[p], w[p], s_w2);
            s_wt = mul_add(m, f, w[p], tvt[p], s_wt);
            p = p + 1;
        }
        r0.push(s_w);
        r1.push(s_w2);
        r2.push(s_wt);
        t = t + 1;
    }
    proof {
        if arith::deterministic(*m) {
            assert(r0@ =~= scan::lane_totals(
                scan::plus(*m),
                ieee::ZERO32,
                w@,
                lanes as int,
                chunk as int,
            ));
            let squares = Seq::new(
                lanes as nat,
                |u: int|
                    dot(
                        *m,
                        f,
                        w@,
                        w@,
                        scan::lane_start(u, chunk as int),
                        scan::lane_end(u, chunk as int, n as int),
                    ),
            );
            assert(r1@ =~= squares);
            let depths = Seq::new(
                lanes as nat,
                |u: int|
                    dot(
                        *m,
                        f,
                        w@,
                        tvt@,
                        scan::lane_start(u, chunk as int),
                        scan::lane_end(u, chunk as int, n as int),
                    ),
            );
            assert(r2@ =~= depths);
        }
    }
    tree_sum3(m, &mut r0, &mut r1, &mut r2)
}

/// One well and one seed, ready to run.
pub struct Task<'a> {
    /// How formulas are evaluated.
    pub f: Formulas,
    /// Measured depth of the evaluation rows.
    pub md: &'a [u32],
    /// Vertical offset of the evaluation rows.
    pub z: &'a [u32],
    /// Gamma ray of the evaluation rows.
    pub gr: &'a [u32],
    /// Type-well grid.
    pub grid: &'a [u32],
    /// Well parameters.
    pub p: WellParams,
    /// Hyper-parameters.
    pub cfg: PfConfig,
    /// Seed number.
    pub seed: u32,
}

/// Values that stay the same for a whole run.
struct Fixed {
    n: usize,
    lanes: usize,
    chunk: usize,
    stream: u32,
    n_f: u32,
    inv_n: u32,
    lo: u32,
    hi: u32,
}

impl<'a> Task<'a> {
    /// The filter that the task runs.
    pub open spec fn filter<A: Arith>(self, m: A) -> Filter<A> {
        Filter {
            m,
            f: self.f,
            md: self.md@,
            z: self.z@,
            gr: self.gr@,
            grid: self.grid@,
            p: self.p,
            cfg: self.cfg,
            seed: self.seed,
        }
    }

    /// The task can run: there is a lane, and the logs and the grid cover the rows.
    pub open spec fn ready(self) -> bool {
        &&& self.cfg.cube_dim > 0
        &&& self.z@.len() >= self.md@.len()
        &&& self.gr@.len() >= self.md@.len()
        &&& self.md@.len() > 0 && self.cfg.n_particles > 0 ==> self.grid@.len() > 0
    }

    /// Whether `k` holds the fixed values of the task.
    spec fn fixed_by<A: Arith>(self, m: A, k: Fixed) -> bool {
        &&& k.n == self.cfg.n_particles
        &&& k.lanes == self.cfg.cube_dim
        &&& k.chunk == scan::lane_chunk(k.n as int, k.lanes as int)
        &&& k.stream == self.p.seed_base.wrapping_add(self.seed)
        &&& arith::deterministic(m) ==> {
            &&& k.n_f == self.filter(m).n_f()
            &&& k.inv_n == self.filter(m).inv_n()
            &&& k.lo == self.filter(m).lo()
            &&& k.hi == self.filter(m).hi()
        }
    }

    fn fixed<A: Arith>(&self, m: &A) -> (k: Fixed)
        requires
            self.ready(),
        ensures
            self.fixed_by(*m, k),
    {
        let n: usize = self.cfg.n_particles as usize;
        let lanes: usize = self.cfg.cube_dim as usize;
        let chunk = lane_len(n, lanes);
        let n_f = arith::from_int32(m, self.cfg.n_particles as u64);
        let inv_n = arith::div32(m, ieee::ONE32, n_f);
        let samples = arith::from_int32(m, self.grid.len() as u64);
        let tmax = mul_add(m, self.f, samples, self.p.step, self.p.vmin);
        let lo = arith::sub32(m, self.p.vmin, MARGIN);
        let hi = arith::add32(m, tmax, MARGIN);
        let stream = self.p.seed_base.wrapping_add(self.seed);
        Fixed { n, lanes, chunk, stream, n_f, inv_n, lo, hi }
    }

    /// Draws the cloud before the first row.
    fn draw_cloud<A: Arith>(&self, m: &A, k: &Fixed) -> (r: (Vec<u32>, Vec<u32>, Vec<u32>))
        requires
            self.fixed_by(*m, *k),
        ensures
            r.0@.len() == k.n,
            r.1@.len() == k.n,
            r.2@.len() == k.n,
            arith::deterministic(*m) ==> (Cloud { pos: r.0@, rate: r.1@, w: r.2@ })
                == self.filter(*m).initial(),
    {
        let ghost fl = self.filter(*m);
        let mut pos: Vec<u32> = Vec::new();
        let mut rate: Vec<u32> = Vec::new();
        let mut w: Vec<u32> = Vec::new();
        let mut j: usize = 0;
        while j < k.n
            invariant
                j <= k.n,
                self.fixed_by(*m, *k),
                fl == self.filter(*m),
                pos@.len() == j,
                rate@.len() == j,
                w@.len() == j,
                arith::deterministic(*m) ==> {
                    &&& forall|i: int| 0 <= i < j ==> #[trigger] pos@[i] == fl.initial().pos[i]
                    &&& forall|i: int| 0 <= i < j ==> #[trigger] rate@[i] == fl.initial().rate[i]
                    &&& forall|i: int| 0 <= i < j ==> #[trigger] w@[i] == fl.initial().w[i]
                },
            decreases k.n - j,
        {
            let d = normals(m, self.f, hash32(k.stream, j as u32), 0, 1);
            pos.push(shift(m, self.f, self.p.ls, self.p.init_spr, d.rad, d.cos));
            rate.push(shift(m, self.f, self.p.ir, RATE_SPREAD, d.rad, d.sin));
            w.push(k.inv_n);
            j = j + 1;
        }
        proof {
            if arith::deterministic(*m) {
                assert(pos@ =~= fl.initial().pos);
                assert(rate@ =~= fl.initial().rate);
                assert(w@ =~= fl.initial().w);
            }
        }
        (pos, rate, w)
    }

    /// Moves the cloud to row `i` and weights it. Returns the depths.
    fn propagate<A: Arith>(
        &self,
        m: &A,
        k: &Fixed,
        i: usize,
        pos: &mut Vec<u32>,
        rate: &mut Vec<u32>,
        w: &mut Vec<u32>,
    ) -> (tvt: Vec<u32>)
        requires
            self.ready(),
            self.fixed_by(*m, *k),
            i < self.md@.len(),
            old(pos)@.len() == k.n,
            old(rate)@.len() == k.n,
            old(w)@.len() == k.n,
        ensures
            final(pos)@.len() == k.n,
            final(rate)@.len() == k.n,
            final(w)@.len() == k.n,
            tvt@.len() == k.n,
            arith::deterministic(*m) ==> (Moved {
                pos: final(pos)@,
                rate: final(rate)@,
                w: final(w)@,
                tvt: tvt@,
            }) == self.filter(*m).moved(
                Cloud { pos: old(pos)@, rate: old(rate)@, w: old(w)@ },
                i as int,
            ),
    {
        let ghost fl = self.filter(*m);
        let ghost c = Cloud { pos: pos@, rate: rate@, w: w@ };
        let ghost v = fl.moved(c, i as int);
        let zi = self.z[i];
        let gri = self.gr[i];
        let dm = if i > 0 {
            let d = arith::sub32(m, self.md[i], self.md[i - 1]);
            raise(self.f, d, ieee::ONE32)
        } else {
            ieee::ONE32
        };
        let mut tvt: Vec<u32> = Vec::new();
        let mut p: usize = 0;
        while p < k.n
            invariant
                p <= k.n,
                self.ready(),
                self.fixed_by(*m, *k),
                i < self.md@.len(),
                fl == self.filter(*m),
                c.pos.len() == k.n,
                c.rate.len() == k.n,
                c.w.len() == k.n,
                v == fl.moved(c, i as int),
                zi == self.z@[i as int],
                gri == self.gr@[i as int],
                arith::deterministic(*m) ==> dm == fl.gap(i as int),
                pos@.len() == k.n,
                rate@.len() == k.n,
                w@.len() == k.n,
                tvt@.len() == p,
                forall|j: int| p <= j < k.n ==> #[trigger] pos@[j] == c.pos[j],
                forall|j: int| p <= j < k.n ==> #[trigger] rate@[j] == c.rate[j],
                forall|j: int| p <= j < k.n ==> #[trigger] w@[j] == c.w[j],
                arith::deterministic(*m) ==> {
                    &&& forall|j: int| 0 <= j < p ==> #[trigger] pos@[j] == v.pos[j]
                    &&& forall|j: int| 0 <= j < p ==> #[trigger] rate@[j] == v.rate[j]
                    &&& forall|j: int| 0 <= j < p ==> #[trigger] w@[j] == v.w[j]
                    &&& forall|j: int| 0 <= j < p ==> #[trigger] tvt@[j] == v.tvt[j]
                },
            decreases k.n - p,
        {
            let ctr = hash32(hash32(k.stream, p as u32), i as u32);
            let d = normals(m, self.f, ctr, 0, 1);
            let kept = arith::mul32(m, self.cfg.mom, rate[p]);
            let rj = shift(m, self.f, kept, self.cfg.vn, d.rad, d.cos);
            let along = mul_add(m, self.f, rj, dm, pos[p]);
            let at = shift(m, self.f, along, self.cfg.pn, d.rad, d.sin);
            let free = arith::sub32(m, at, zi);
            let depth = clamp(free, k.lo, k.hi);
            let here = arith::add32(m, depth, zi);
            let eg = look_up(m, self.f, self.grid, depth, &self.p);
            let lk = likelihood(m, self.f, gri, eg, &self.p, self.cfg.lik_floor);
            let wn = arith::mul32(m, w[p], lk);
            proof {
                if arith::deterministic(*m) {
                    let j = p as int;
                    assert(rj == fl.moved_rate(c, i as int, j));
                    assert(depth == fl.moved_tvt(c, i as int, j));
                    assert(wn == fl.moved_weight(c, i as int, j));
                }
            }
            rate.set(p, rj);
            pos.set(p, here);
            w.set(p, wn);
            tvt.push(depth);
            p = p + 1;
        }
        proof {
            if arith::deterministic(*m) {
                assert(pos@ =~= v.pos);
                assert(rate@ =~= v.rate);
                assert(w@ =~= v.w);
                assert(tvt@ =~= v.tvt);
            }
        }
        tvt
    }

    /// Divides the weights by their sum.
    fn normalise<A: Arith>(&self, m: &A, k: &Fixed, ws: u32, w: &mut Vec<u32>)
        requires
            old(w)@.len() == k.n,
        ensures
            final(w)@.len() == k.n,
            arith::deterministic(*m) ==> forall|j: int|
                0 <= j < k.n ==> #[trigger] final(w)@[j] == ratio_of(*m, self.f, old(w)@[j], ws),
    {
        let ghost was = w@;
        let mut q: usize = 0;
        while q < k.n
            invariant
                q <= k.n,
                w@.len() == k.n,
                was.len() == k.n,
                forall|j: int| q <= j < k.n ==> #[trigger] w@[j] == was[j],
                arith::deterministic(*m) ==> forall|j: int|
                    0 <= j < q ==> #[trigger] w@[j] == ratio_of(*m, self.f, was[j], ws),
            decreases k.n - q,
        {
            let x = ratio(m, self.f, w[q], ws);
            w.set(q, x);
            q = q + 1;
        }
    }

    /// Resamples the cloud at row `i`. `w` holds the normalised weights. Returns the
    /// estimate.
    fn resample<A: Arith>(
        &self,
        m: &A,
        k: &Fixed,
        i: usize,
        pos: &mut Vec<u32>,
        rate: &mut Vec<u32>,
        w: &mut Vec<u32>,
        Ghost(v): Ghost<Moved>,
    ) -> (est: u32)
        requires
            self.ready(),
            self.fixed_by(*m, *k),
            i < self.md@.len(),
            old(pos)@.len() == k.n,
            old(rate)@.len() == k.n,
            old(w)@.len() == k.n,
            arith::deterministic(*m) ==> {
                &&& old(pos)@ == v.pos
                &&& old(rate)@ == v.rate
                &&& old(w)@ == self.filter(*m).normalised(v)
            },
        ensures
            final(pos)@.len() == k.n,
            final(rate)@.len() == k.n,
            final(w)@.len() == k.n,
            arith::deterministic(*m) ==> {
                let fl = self.filter(*m);
                let after = fl.resampled(v, i as int);
                &&& (Cloud { pos: final(pos)@, rate: final(rate)@, w: final(w)@ }) == after
                &&& est == arith::product32(
                    *m,
                    cloud_sum(*m, fl.depths(after, i as int), fl.lanes(), fl.chunk()),
                    fl.inv_n(),
                )
            },
    {
        let ghost fl = self.filter(*m);
        let ghost after = fl.resampled(v, i as int);
        let zi = self.z[i];
        let cum = two_level_scan(m, w, k.lanes, k.chunk);
        let seat = unit_f(hash32(hash32(k.stream, RESAMPLE_KEY), i as u32));
        let u0 = arith::mul32(m, seat, k.inv_n);
        let mut npos: Vec<u32> = Vec::new();
        let mut nrate: Vec<u32> = Vec::new();
        let mut nw: Vec<u32> = Vec::new();
        let mut depths: Vec<u32> = Vec::new();
        let mut a: usize = 0;
        while a < k.n
            invariant
                a <= k.n,
                self.fixed_by(*m, *k),
                fl == self.filter(*m),
                after == fl.resampled(v, i as int),
                i < self.md@.len(),
                self.ready(),
                zi == self.z@[i as int],
                pos@.len() == k.n,
                rate@.len() == k.n,
                cum@.len() == k.n,
                arith::deterministic(*m) ==> {
                    &&& pos@ == v.pos
                    &&& rate@ == v.rate
                    &&& cum@ == scan::two_level(
                        scan::plus(*m),
                        ieee::ZERO32,
                        fl.normalised(v),
                        fl.lanes(),
                        fl.chunk(),
                    )
                    &&& u0 == fl.offset(i as int)
                },
                npos@.len() == a,
                nrate@.len() == a,
                nw@.len() == a,
                depths@.len() == a,
                arith::deterministic(*m) ==> {
                    &&& forall|j: int| 0 <= j < a ==> #[trigger] npos@[j] == after.pos[j]
                    &&& forall|j: int| 0 <= j < a ==> #[trigger] nrate@[j] == after.rate[j]
                    &&& forall|j: int| 0 <= j < a ==> #[trigger] nw@[j] == after.w[j]
                    &&& forall|j: int|
                        0 <= j < a ==> #[trigger] depths@[j] == fl.depths(after, i as int)[j]
                },
            decreases k.n - a,
        {
            let fa = arith::from_int32(m, a as u64);
            let u = mul_add(m, self.f, fa, k.inv_n, u0);
            let ci = lower_bound(&cum, u);
            let rctr = hash32(hash32(k.stream, a as u32), i as u32);
            let d = normals(m, self.f, rctr, 2, 3);
            let x = shift(m, self.f, pos[ci], self.cfg.rough_p, d.rad, d.cos);
            let y = shift(m, self.f, rate[ci], self.cfg.rough_r, d.rad, d.sin);
            let depth = arith::sub32(m, x, zi);
            proof {
                if arith::deterministic(*m) {
                    assert(ci == fl.source(v, i as int, a as int));
                }
            }
            npos.push(x);
            nrate.push(y);
            nw.push(k.inv_n);
            depths.push(depth);
            a = a + 1;
        }
        proof {
            if arith::deterministic(*m) {
                assert(npos@ =~= after.pos);
                assert(nrate@ =~= after.rate);
                assert(nw@ =~= after.w);
                assert(depths@ =~= fl.depths(after, i as int));
            }
        }
        let acc = sum_cloud(m, &depths, k.lanes, k.chunk);
        let est = arith::mul32(m, acc, k.inv_n);
        *pos = npos;
        *rate = nrate;
        *w = nw;
        est
    }

    /// Takes the cloud through row `i`. Returns the estimate and the sum of the
    /// weights.
    fn row<A: Arith>(
        &self,
        m: &A,
        k: &Fixed,
        i: usize,
        pos: &mut Vec<u32>,
        rate: &mut Vec<u32>,
        w: &mut Vec<u32>,
    ) -> (r: (u32, u32))
        requires
            self.ready(),
            self.fixed_by(*m, *k),
            i < self.md@.len(),
            old(pos)@.len() == k.n,
            old(rate)@.len() == k.n,
            old(w)@.len() == k.n,
        ensures
            final(pos)@.len() == k.n,
            final(rate)@.len() == k.n,
            final(w)@.len() == k.n,
            arith::deterministic(*m) ==> (Step {
                cloud: Cloud { pos: final(pos)@, rate: final(rate)@, w: final(w)@ },
                est: r.0,
                ws: r.1,
            }) == self.filter(*m).step(
                Cloud { pos: old(pos)@, rate: old(rate)@, w: old(w)@ },
                i as int,
            ),
    {
        let ghost fl = self.filter(*m);
        let ghost c = Cloud { pos: pos@, rate: rate@, w: w@ };
        let ghost v = fl.moved(c, i as int);
        reveal(Filter::step);
        let tvt = self.propagate(m, k, i, pos, rate, w);
        let (ws, ws2, wt) = weigh(m, self.f, w, &tvt, k.lanes, k.chunk);
        let neff = if ieee::lt32(ieee::ZERO32, ws2) {
            let sq = arith::mul32(m, ws, ws);
            ratio(m, self.f, sq, ws2)
        } else {
            k.n_f
        };
        self.normalise(m, k, ws, w);
        proof {
            if arith::deterministic(*m) {
                assert(ws == fl.weight_sum(v));
                assert(ws2 == fl.square_sum(v));
                assert(wt == fl.depth_sum(v));
                assert(w@ =~= fl.normalised(v));
                assert(neff == fl.neff(v));
            }
        }
        let need = arith::mul32(m, self.cfg.resamp, k.n_f);
        if ieee::lt32(neff, need) {
            let est = self.resample(m, k, i, pos, rate, w, Ghost(v));
            (est, ws)
        } else {
            let est = ratio(m, self.f, wt, ws);
            (est, ws)
        }
    }

    /// Runs the task: the estimate for every row, and the total log-likelihood.
    pub fn run<A: Arith>(&self, m: &A) -> (r: (Vec<u32>, u32))
        requires
            self.ready(),
        ensures
            r.0@.len() == self.md@.len(),
            arith::deterministic(*m) ==> {
                let fl = self.filter(*m);
                &&& forall|i: int|
                    0 <= i < self.md@.len() ==> #[trigger] r.0@[i] == fl.estimate(i)
                &&& r.1 == fl.log_lik(self.md@.len() as int)
            },
    {
        let ghost fl = self.filter(*m);
        let k = self.fixed(m);
        let (mut pos, mut rate, mut w) = self.draw_cloud(m, &k);
        let mut log_lik: u32 = ieee::ZERO32;
        let mut preds: Vec<u32> = Vec::new();
        let n_rows = self.md.len();
        let mut i: usize = 0;
        while i < n_rows
            invariant
                i <= n_rows,
                n_rows == self.md@.len(),
                self.ready(),
                self.fixed_by(*m, k),
                fl == self.filter(*m),
                pos@.len() == k.n,
                rate@.len() == k.n,
                w@.len() == k.n,
                preds@.len() == i,
                arith::deterministic(*m) ==> {
                    &&& (Cloud { pos: pos@, rate: rate@, w: w@ }) == fl.cloud(i as int)
                    &&& forall|j: int| 0 <= j < i ==> #[trigger] preds@[j] == fl.estimate(j)
                    &&& log_lik == fl.log_lik(i as int)
                },
            decreases n_rows - i,
        {
            let (est, ws) = self.row(m, &k, i, &mut pos, &mut rate, &mut w);
            let ln = arith::ln32(m, ws);
            log_lik = arith::add32(m, log_lik, ln);
            preds.push(est);
            i = i + 1;
        }
        (preds, log_lik)
    }
}

// ---------------------------------------------------------------------------
// Laws of the filter
// ---------------------------------------------------------------------------

/// A particle stays within the margin of its grid, unless its depth is no number.
pub proof fn lemma_particles_stay_near_the_grid<A: Arith>(
    fl: Filter<A>,
    c: Cloud,
    i: int,
    j: int,
)
    requires
        ieee::at_most32(fl.lo(), fl.hi()),
    ensures
        ({
            let tvt = fl.moved_tvt(c, i, j);
            ieee::nan32(tvt) || (ieee::at_most32(fl.lo(), tvt) && ieee::at_most32(tvt, fl.hi()))
        }),
{
}

/// Resampling copies particles of the cloud: the source of every slot is one of
/// them.
pub proof fn lemma_sources_are_particles<A: Arith>(fl: Filter<A>, v: Moved, i: int, a: int)
    requires
        fl.cfg.n_particles > 0,
    ensures
        0 <= fl.source(v, i, a) < fl.n(),
{
    let cum = scan::two_level(
        scan::plus(fl.m),
        ieee::ZERO32,
        fl.normalised(v),
        fl.lanes(),
        fl.chunk(),
    );
    let u = mul_added(
        fl.m,
        fl.f,
        arith::of_int32(fl.m, a as u64),
        fl.inv_n(),
        fl.offset(i),
    );
    scan::lemma_searched_in_range(cum, 0, fl.n() - 1, u);
}

/// The configuration without what does not concern a single run: the number of
/// seeds, the budget and the choice of outputs.
pub open spec fn run_config(c: PfConfig) -> PfConfig {
    PfConfig {
        n_seeds: 0,
        pred_budget_bytes: 0,
        with_std: false,
        with_seed_paths: false,
        ..c
    }
}

/// Two runs that see the same thing up to row `k`: the same arithmetic, grid and
/// parameters, the same random stream, and the same first `k + 1` rows.
pub open spec fn agree<A: Arith>(a: Filter<A>, b: Filter<A>, k: int) -> bool {
    &&& a.m == b.m
    &&& a.f == b.f
    &&& a.grid == b.grid
    &&& run_config(a.cfg) == run_config(b.cfg)
    &&& a.stream() == b.stream()
    &&& (WellParams { seed_base: 0, ..a.p }) == (WellParams { seed_base: 0, ..b.p })
    &&& forall|i: int|
        0 <= i <= k ==> #[trigger] a.md[i] == b.md[i] && a.z[i] == b.z[i] && a.gr[i] == b.gr[i]
}

/// The filter does not look ahead, and of the seed base and the seed only their sum
/// counts: runs that agree up to a row estimate the same there.
pub proof fn lemma_filter_is_causal<A: Arith>(a: Filter<A>, b: Filter<A>, k: int)
    requires
        agree(a, b, k),
        k >= 0,
    ensures
        a.estimate(k) == b.estimate(k),
        a.log_lik(k + 1) == b.log_lik(k + 1),
        a.cloud(k + 1) == b.cloud(k + 1),
    decreases k,
{
    if k > 0 {
        lemma_filter_is_causal(a, b, k - 1);
    } else {
        assert(a.initial().pos =~= b.initial().pos);
        assert(a.initial().rate =~= b.initial().rate);
        assert(a.initial().w =~= b.initial().w);
    }
    assert(a.cloud(k) == b.cloud(k));
    assert(a.log_lik(k) == b.log_lik(k));
    lemma_same_step(a, b, a.cloud(k), k);
}

/// Runs that agree take the same step.
proof fn lemma_same_step<A: Arith>(a: Filter<A>, b: Filter<A>, c: Cloud, i: int)
    requires
        agree(a, b, i),
        i >= 0,
    ensures
        a.step(c, i) == b.step(c, i),
{
    reveal(Filter::step);
    assert(a.md[i] == b.md[i]);
    if i > 0 {
        assert(a.md[i - 1] == b.md[i - 1]);
    }
    assert forall|j: int| true implies #[trigger] a.moved_tvt(c, i, j) == b.moved_tvt(c, i, j)
        && a.moved_rate(c, i, j) == b.moved_rate(c, i, j) && a.moved_weight(c, i, j)
        == b.moved_weight(c, i, j) by {
        assert(a.moved_rate(c, i, j) == b.moved_rate(c, i, j));
        assert(a.moved_tvt(c, i, j) == b.moved_tvt(c, i, j));
        assert(looked_up(a.m, a.f, a.grid, a.moved_tvt(c, i, j), a.p) == looked_up(
            b.m,
            b.f,
            b.grid,
            b.moved_tvt(c, i, j),
            b.p,
        ));
    }
    let (va, vb) = (a.moved(c, i), b.moved(c, i));
    assert forall|j: int| 0 <= j < a.n() implies #[trigger] va.pos[j] == vb.pos[j] && va.rate[j]
        == vb.rate[j] && va.w[j] == vb.w[j] && va.tvt[j] == vb.tvt[j] by {
        assert(a.moved_tvt(c, i, j) == b.moved_tvt(c, i, j));
    }
    assert(va.pos =~= vb.pos);
    assert(va.rate =~= vb.rate) by {
        assert forall|j: int| 0 <= j < a.n() implies #[trigger] va.rate[j] == vb.rate[j] by {
            assert(va.pos[j] == vb.pos[j]);
        }
    }
    assert(va.w =~= vb.w) by {
        assert forall|j: int| 0 <= j < a.n() implies #[trigger] va.w[j] == vb.w[j] by {
            assert(va.pos[j] == vb.pos[j]);
        }
    }
    assert(va.tvt =~= vb.tvt) by {
        assert forall|j: int| 0 <= j < a.n() implies #[trigger] va.tvt[j] == vb.tvt[j] by {
            assert(va.pos[j] == vb.pos[j]);
        }
    }
    assert(va == vb);
    assert(a.normalised(va) =~= b.normalised(va));
    let (ra, rb) = (a.resampled(va, i), b.resampled(va, i));
    assert forall|j: int| 0 <= j < a.n() implies #[trigger] a.source(va, i, j) == b.source(
        va,
        i,
        j,
    ) by {}
    assert(ra.pos =~= rb.pos);
    assert(ra.rate =~= rb.rate);
    assert(ra.w =~= rb.w);
    assert(a.depths(ra, i) =~= b.depths(ra, i));
}

} // verus!
