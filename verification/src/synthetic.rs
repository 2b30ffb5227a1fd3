//! Synthetic wells with the shape of real ones, for tests and benchmarks, and the
//! error measures that go with them. The generator is deterministic given a seed.
use vstd::prelude::*;
use crate::arith;
use crate::arith::Arith;
use crate::batch::WellInput;
use crate::beam::BeamWellInput;
use crate::filter;
use crate::filter::Formulas;
use crate::ieee;
use crate::kernel;

verus! {

/// Samples of the type-well grid.
pub const GRID_LEN: usize = 4000;

/// Half-width of the window that smooths the grid.
pub const GRID_HALF: usize = 12;

/// Depth of the first grid sample: `-300`.
pub const VMIN: u32 = 0xC396_0000;

/// Grid spacing: `0.2`.
pub const STEP: u32 = 0x3E4C_CCCD;

/// `2^24`.
pub const TWO_24: u32 = 0x4B80_0000;

/// `1e-7`.
pub const TINY: u32 = 0x33D6_BF95;

/// `70`.
pub const MID: u32 = 0x428C_0000;

/// `90`.
pub const SWING: u32 = 0x42B4_0000;

/// `5`.
pub const LOW: u32 = 0x40A0_0000;

/// `160`.
pub const HIGH: u32 = 0x4320_0000;

/// `-40`.
pub const START: u32 = 0xC220_0000;

/// `0.995`.
pub const KEEP: u32 = 0x3F7E_B852;

/// `0.006`.
pub const DRIFT: u32 = 0x3BC4_9BA6;

/// `9000`.
pub const TOP: u32 = 0x460C_A000;

/// `12`.
pub const TWELVE: u32 = 0x4140_0000;

/// `700`.
pub const WAVE: u32 = 0x442F_0000;

/// `6`.
pub const SIX: u32 = 0x40C0_0000;

/// `4.5`.
pub const SPREAD: u32 = 0x4090_0000;

/// `0.05`.
pub const JITTER: u32 = 0x3D4C_CCCD;

/// `0.7`.
pub const TURN: u32 = 0x3F33_3333;

// ---------------------------------------------------------------------------
// Random numbers
// ---------------------------------------------------------------------------

/// The state of the generator after one more draw.
pub open spec fn drawn(x: u32) -> u32 {
    x.wrapping_mul(1_664_525).wrapping_add(1_013_904_223)
}

/// The state of the generator after `j` draws from `x`.
pub open spec fn after_draws(x: u32, j: int) -> u32
    decreases j,
{
    if j <= 0 {
        x
    } else {
        drawn(after_draws(x, j - 1))
    }
}

/// The state as a fraction of one.
pub open spec fn fraction<A: Arith>(m: A, x: u32) -> u32 {
    arith::quotient32(m, arith::of_int32(m, (x >> 8) as u64), TWO_24)
}

/// A normal draw from the states `a` and `b`.
pub open spec fn normal_of<A: Arith>(m: A, a: u32, b: u32) -> u32 {
    let u1 = filter::raised(Formulas::Plain, fraction(m, a), TINY);
    let rad = arith::root32(m, arith::product32(m, kernel::NEG_TWO, arith::log32(m, u1)));
    let ang = arith::product32(m, kernel::TWO_PI, fraction(m, b));
    arith::product32(m, rad, arith::cosine32(m, ang))
}

/// A 32-bit linear congruential generator.
struct Lcg(u32);

impl Lcg {
    /// A number in the unit interval.
    fn next_f32<A: Arith>(&mut self, m: &A) -> (r: u32)
        ensures
            final(self).0 == drawn(old(self).0),
            arith::deterministic(*m) ==> r == fraction(*m, drawn(old(self).0)),
    {
        self.0 = self.0.wrapping_mul(1_664_525).wrapping_add(1_013_904_223);
        let x = arith::from_int32(m, (self.0 >> 8) as u64);
        arith::div32(m, x, TWO_24)
    }

    /// A normal draw.
    fn normal<A: Arith>(&mut self, m: &A) -> (r: u32)
        ensures
            final(self).0 == drawn(drawn(old(self).0)),
            arith::deterministic(*m) ==> r == normal_of(
                *m,
                drawn(old(self).0),
                drawn(drawn(old(self).0)),
            ),
    {
        let f1 = self.next_f32(m);
        let u1 = filter::raise(Formulas::Plain, f1, TINY);
        let u2 = self.next_f32(m);
        let ln = arith::ln32(m, u1);
        let x = arith::mul32(m, kernel::NEG_TWO, ln);
        let rad = arith::sqrt32(m, x);
        let ang = arith::mul32(m, kernel::TWO_PI, u2);
        let cos = arith::cos32(m, ang);
        arith::mul32(m, rad, cos)
    }
}

// ---------------------------------------------------------------------------
// The well as a function of the seed
// ---------------------------------------------------------------------------

/// A synthetic well: the arithmetic and the seed.
pub struct Synthetic<A> {
    pub m: A,
    pub seed: u32,
}

/// Sum of `xs[lo..hi]`, added up from the left.
pub open spec fn window_sum<A: Arith>(m: A, xs: Seq<u32>, lo: int, hi: int) -> u32
    decreases hi - lo,
{
    if hi <= lo {
        ieee::ZERO32
    } else {
        arith::sum32(m, window_sum(m, xs, lo, hi - 1), xs[hi - 1])
    }
}

/// A grid sample from the noise around it.
pub open spec fn grid_sample<A: Arith>(m: A, raw: Seq<u32>, i: int) -> u32 {
    let lo = if i < GRID_HALF {
        0
    } else {
        i - GRID_HALF
    };
    let hi = if i + GRID_HALF + 1 < raw.len() {
        i + GRID_HALF + 1
    } else {
        raw.len() as int
    };
    let mean = arith::quotient32(
        m,
        window_sum(m, raw, lo, hi),
        arith::of_int32(m, (hi - lo) as u64),
    );
    filter::clamped(arith::sum32(m, MID, arith::product32(m, SWING, mean)), LOW, HIGH)
}

/// Linear interpolation on the grid at depth `tvt`.
pub open spec fn grid_at<A: Arith>(m: A, grid: Seq<u32>, tvt: u32) -> u32 {
    let fi = arith::quotient32(m, arith::difference32(m, tvt, VMIN), STEP);
    let whole = arith::int_of32(m, fi) as int;
    let k = if whole < grid.len() - 2 {
        whole
    } else {
        grid.len() - 2
    };
    let t = arith::difference32(m, fi, arith::of_int32(m, k as u64));
    arith::sum32(
        m,
        arith::product32(m, grid[k], arith::difference32(m, ieee::ONE32, t)),
        arith::product32(m, grid[k + 1], t),
    )
}

impl<A: Arith> Synthetic<A> {
    /// The generator's first state: an odd number.
    pub open spec fn state(self) -> u32 {
        self.seed.wrapping_mul(2_654_435_761).wrapping_add(12345) | 1
    }

    /// The `k`-th normal draw.
    pub open spec fn normal(self, k: int) -> u32 {
        normal_of(
            self.m,
            after_draws(self.state(), 2 * k + 1),
            after_draws(self.state(), 2 * k + 2),
        )
    }

    /// The noise under the grid.
    pub open spec fn raw(self) -> Seq<u32> {
        Seq::new(GRID_LEN as nat, |i: int| self.normal(i))
    }

    /// The type-well grid: smoothed noise around a mean, held in range.
    pub open spec fn grid(self) -> Seq<u32> {
        Seq::new(GRID_LEN as nat, |i: int| grid_sample(self.m, self.raw(), i))
    }

    /// The rate of the true path at row `r`.
    pub open spec fn rate(self, r: int) -> u32
        decreases r,
    {
        let before = if r <= 0 {
            ieee::ZERO32
        } else {
            self.rate(r - 1)
        };
        arith::sum32(
            self.m,
            arith::product32(self.m, KEEP, before),
            arith::product32(self.m, DRIFT, self.normal(GRID_LEN + 2 * r)),
        )
    }

    /// The depth of the true path at row `r`.
    pub open spec fn truth(self, r: int) -> u32
        decreases r,
    {
        let before = if r <= 0 {
            START
        } else {
            self.truth(r - 1)
        };
        arith::sum32(self.m, before, arith::product32(self.m, self.rate(r), ieee::ONE32))
    }

    /// Measured depth of row `r`.
    pub open spec fn md(self, r: int) -> u32 {
        arith::sum32(self.m, TOP, arith::of_int32(self.m, r as u64))
    }

    /// Vertical offset of row `r`.
    pub open spec fn z(self, r: int) -> u32 {
        arith::product32(
            self.m,
            TWELVE,
            arith::sine32(
                self.m,
                arith::quotient32(self.m, arith::of_int32(self.m, r as u64), WAVE),
            ),
        )
    }

    /// Gamma ray of row `r`: the grid at the true depth, plus noise.
    pub open spec fn gr(self, r: int) -> u32 {
        arith::sum32(
            self.m,
            grid_at(self.m, self.grid(), self.truth(r)),
            arith::product32(
                self.m,
                kernel::FOUR,
                self.normal(GRID_LEN + 2 * r + 1),
            ),
        )
    }

    /// Initial position: the first true depth and its offset.
    pub open spec fn ls(self) -> u32 {
        arith::sum32(self.m, self.truth(0), self.z(0))
    }

    /// Initial rate: what the first two rows cover.
    pub open spec fn ir(self) -> u32 {
        arith::quotient32(
            self.m,
            arith::difference32(
                self.m,
                arith::sum32(self.m, self.truth(1), self.z(1)),
                arith::sum32(self.m, self.truth(0), self.z(0)),
            ),
            arith::difference32(self.m, self.md(1), self.md(0)),
        )
    }
}

/// Whether a well and its true path are the synthetic ones of `n_rows` rows.
pub open spec fn is_synthetic<A: Arith>(
    m: A,
    seed: u32,
    n_rows: int,
    well: WellInput,
    truth: Seq<u32>,
) -> bool {
    let s = Synthetic { m, seed };
    &&& forall|r: int| 0 <= r < n_rows ==> #[trigger] truth[r] == s.truth(r)
    &&& forall|r: int| 0 <= r < n_rows ==> #[trigger] well.md@[r] == s.md(r)
    &&& forall|r: int| 0 <= r < n_rows ==> #[trigger] well.z@[r] == s.z(r)
    &&& forall|r: int| 0 <= r < n_rows ==> #[trigger] well.gr@[r] == s.gr(r)
    &&& well.grid@ == s.grid()
    &&& well.ls == s.ls()
    &&& well.ir == s.ir()
}

/// Draws the type-well grid. The generator is left after its draws.
fn draw_grid<A: Arith>(m: &A, seed: u32, rng: &mut Lcg) -> (grid: Vec<u32>)
    requires
        old(rng).0 == (Synthetic { m: *m, seed }).state(),
    ensures
        grid@.len() == GRID_LEN,
        final(rng).0 == after_draws((Synthetic { m: *m, seed }).state(), 2 * GRID_LEN),
        arith::deterministic(*m) ==> grid@ == (Synthetic { m: *m, seed }).grid(),
{
    let ghost s = Synthetic { m: *m, seed };
    let mut raw: Vec<u32> = Vec::new();
    let mut i: usize = 0;
    while i < GRID_LEN
        invariant
            i <= GRID_LEN,
            s == (Synthetic { m: *m, seed }),
            raw@.len() == i,
            rng.0 == after_draws(s.state(), 2 * i),
            arith::deterministic(*m) ==> forall|j: int|
                0 <= j < i ==> #[trigger] raw@[j] == s.raw()[j],
        decreases GRID_LEN - i,
    {
        let ghost was = rng.0;
        let v = rng.normal(m);
        proof {
            assert(after_draws(s.state(), 2 * i + 1) == drawn(was));
            assert(after_draws(s.state(), 2 * i + 2) == drawn(drawn(was)));
        }
        raw.push(v);
        i = i + 1;
    }
    let mut grid: Vec<u32> = Vec::new();
    let mut i: usize = 0;
    while i < GRID_LEN
        invariant
            i <= GRID_LEN,
            s == (Synthetic { m: *m, seed }),
            raw@.len() == GRID_LEN,
            grid@.len() == i,
            arith::deterministic(*m) ==> forall|j: int|
                0 <= j < GRID_LEN ==> #[trigger] raw@[j] == s.raw()[j],
            arith::deterministic(*m) ==> forall|j: int|
                0 <= j < i ==> #[trigger] grid@[j] == s.grid()[j],
        decreases GRID_LEN - i,
    {
        let v = smooth_sample(m, &raw, i);
        proof {
            if arith::deterministic(*m) {
                assert(raw@ =~= s.raw());
            }
        }
        grid.push(v);
        i = i + 1;
    }
    proof {
        if arith::deterministic(*m) {
            assert(grid@ =~= s.grid());
        }
    }
    grid
}

/// A grid sample from the noise around it.
fn smooth_sample<A: Arith>(m: &A, raw: &Vec<u32>, i: usize) -> (v: u32)
    requires
        raw@.len() == GRID_LEN,
        i < GRID_LEN,
    ensures
        arith::deterministic(*m) ==> v == grid_sample(*m, raw@, i as int),
{
    let lo: usize = if i < GRID_HALF {
        0
    } else {
        i - GRID_HALF
    };
    let hi: usize = if i + GRID_HALF + 1 < GRID_LEN {
        i + GRID_HALF + 1
    } else {
        GRID_LEN
    };
    let mut acc: u32 = ieee::ZERO32;
    let mut j: usize = lo;
    while j < hi
        invariant
            lo <= j <= hi <= GRID_LEN,
            raw@.len() == GRID_LEN,
            arith::deterministic(*m) ==> acc == window_sum(*m, raw@, lo as int, j as int),
        decreases hi - j,
    {
        acc = arith::add32(m, acc, raw[j]);
        j = j + 1;
    }
    let count = arith::from_int32(m, (hi - lo) as u64);
    let mean = arith::div32(m, acc, count);
    let swing = arith::mul32(m, SWING, mean);
    let free = arith::add32(m, MID, swing);
    filter::clamp(free, LOW, HIGH)
}

/// Linear interpolation on the grid at depth `tvt`.
fn sample_grid<A: Arith>(m: &A, grid: &Vec<u32>, tvt: u32) -> (v: u32)
    requires
        grid@.len() == GRID_LEN,
    ensures
        arith::deterministic(*m) ==> v == grid_at(*m, grid@, tvt),
{
    let d = arith::sub32(m, tvt, VMIN);
    let fi = arith::div32(m, d, STEP);
    let whole = arith::to_int32(m, fi);
    let last: usize = GRID_LEN - 2;
    let k: usize = if whole < last as u64 {
        whole as usize
    } else {
        last
    };
    let fk = arith::from_int32(m, k as u64);
    let t = arith::sub32(m, fi, fk);
    let s = arith::sub32(m, ieee::ONE32, t);
    let a = arith::mul32(m, grid[k], s);
    let b = arith::mul32(m, grid[k + 1], t);
    arith::add32(m, a, b)
}

/// Builds one synthetic well with `n_rows` evaluation rows, and its true path.
///
/// The type-well log is smoothed noise, which has no period for a tracker to lock
/// onto; the true path is a slow random walk in depth; the gamma ray is that path
/// read through the log, plus noise.
pub fn synthetic_well<A: Arith>(m: &A, seed: u32, n_rows: usize) -> (r: (WellInput, Vec<u32>))
    requires
        n_rows >= 2,
    ensures
        r.0.md@.len() == n_rows,
        r.0.z@.len() == n_rows,
        r.0.gr@.len() == n_rows,
        r.0.grid@.len() == GRID_LEN,
        r.0.vmin == VMIN,
        r.0.step == STEP,
        r.0.gs == SIX,
        r.0.init_spr == SPREAD,
        r.0.seed_base == seed,
        r.1@.len() == n_rows,
        arith::deterministic(*m) ==> is_synthetic(*m, seed, n_rows as int, r.0, r.1@),
{
    let ghost s = Synthetic { m: *m, seed };
    let mut rng = Lcg(seed.wrapping_mul(2_654_435_761).wrapping_add(12345) | 1);
    let grid = draw_grid(m, seed, &mut rng);
    let mut truth: Vec<u32> = Vec::new();
    let mut md: Vec<u32> = Vec::new();
    let mut z: Vec<u32> = Vec::new();
    let mut gr: Vec<u32> = Vec::new();
    let mut tvt: u32 = START;
    let mut rate: u32 = ieee::ZERO32;
    let mut i: usize = 0;
    while i < n_rows
        invariant
            i <= n_rows,
            s == (Synthetic { m: *m, seed }),
            grid@.len() == GRID_LEN,
            rng.0 == after_draws(s.state(), 2 * GRID_LEN + 4 * i),
            truth@.len() == i,
            md@.len() == i,
            z@.len() == i,
            gr@.len() == i,
            arith::deterministic(*m) ==> {
                &&& grid@ == s.grid()
                &&& rate == if i == 0 {
                    ieee::ZERO32
                } else {
                    s.rate(i - 1)
                }
                &&& tvt == if i == 0 {
                    START
                } else {
                    s.truth(i - 1)
                }
                &&& forall|r: int| 0 <= r < i ==> #[trigger] truth@[r] == s.truth(r)
                &&& forall|r: int| 0 <= r < i ==> #[trigger] md@[r] == s.md(r)
                &&& forall|r: int| 0 <= r < i ==> #[trigger] z@[r] == s.z(r)
                &&& forall|r: int| 0 <= r < i ==> #[trigger] gr@[r] == s.gr(r)
            },
        decreases n_rows - i,
    {
        let ghost s0 = rng.0;
        let n1 = rng.normal(m);
        let ghost s2 = rng.0;
        let kept = arith::mul32(m, KEEP, rate);
        let drift = arith::mul32(m, DRIFT, n1);
        rate = arith::add32(m, kept, drift);
        let step = arith::mul32(m, rate, ieee::ONE32);
        tvt = arith::add32(m, tvt, step);
        let fi = arith::from_int32(m, i as u64);
        let depth = arith::add32(m, TOP, fi);
        let phase = arith::div32(m, fi, WAVE);
        let wave = arith::sin32(m, phase);
        let offset = arith::mul32(m, TWELVE, wave);
        let clean = sample_grid(m, &grid, tvt);
        let n2 = rng.normal(m);
        let noise = arith::mul32(m, kernel::FOUR, n2);
        let seen = arith::add32(m, clean, noise);
        proof {
            let base = 2 * GRID_LEN + 4 * i;
            assert(after_draws(s.state(), base + 1) == drawn(s0));
            assert(after_draws(s.state(), base + 2) == drawn(drawn(s0)));
            assert(after_draws(s.state(), base + 3) == drawn(s2));
            assert(after_draws(s.state(), base + 4) == drawn(drawn(s2)));
            if arith::deterministic(*m) {
                assert(2 * (GRID_LEN + 2 * i) + 1 == base + 1);
                assert(n1 == s.normal(GRID_LEN + 2 * i));
                assert(n2 == s.normal(GRID_LEN + 2 * i + 1));
                assert(rate == s.rate(i as int));
                assert(tvt == s.truth(i as int));
            }
        }
        truth.push(tvt);
        md.push(depth);
        z.push(offset);
        gr.push(seen);
        i = i + 1;
    }
    let p0 = arith::add32(m, truth[0], z[0]);
    let p1 = arith::add32(m, truth[1], z[1]);
    let rise = arith::sub32(m, p1, p0);
    let run = arith::sub32(m, md[1], md[0]);
    let ir = arith::div32(m, rise, run);
    let well = WellInput {
        md,
        z,
        gr,
        grid,
        vmin: VMIN,
        step: STEP,
        gs: SIX,
        ls: p0,
        ir,
        init_spr: SPREAD,
        seed_base: seed,
    };
    (well, truth)
}

// ---------------------------------------------------------------------------
// The beam search's shape
// ---------------------------------------------------------------------------

/// Depth of type-well sample `i`: the uniform axis with a jitter well under one step.
pub open spec fn jittered_depth<A: Arith>(m: A, vmin: u32, step: u32, i: int) -> u32 {
    let fi = arith::of_int32(m, i as u64);
    arith::sum32(
        m,
        arith::sum32(m, vmin, arith::product32(m, fi, step)),
        arith::product32(
            m,
            arith::product32(m, JITTER, step),
            arith::sine32(m, arith::product32(m, fi, TURN)),
        ),
    )
}

/// The samples of a log in double precision.
pub open spec fn widened_all<A: Arith>(m: A, xs: Seq<u32>) -> Seq<u64> {
    Seq::new(xs.len(), |i: int| arith::widened(m, xs[i]))
}

/// Whether a well and its true path are the synthetic ones shaped for the beam search.
pub open spec fn is_synthetic_beam<A: Arith>(
    m: A,
    seed: u32,
    n_rows: int,
    well: BeamWellInput,
    truth: Seq<u64>,
) -> bool {
    let s = Synthetic { m, seed };
    &&& forall|r: int| 0 <= r < n_rows ==> #[trigger] well.gr@[r] == arith::widened(m, s.gr(r))
    &&& forall|r: int| 0 <= r < n_rows ==> #[trigger] truth[r] == arith::widened(m, s.truth(r))
    &&& forall|i: int|
        0 <= i < GRID_LEN ==> #[trigger] well.tw_gr@[i] == arith::widened(m, s.grid()[i])
    &&& forall|i: int|
        0 <= i < GRID_LEN ==> #[trigger] well.tw_tvt@[i] == arith::widened(
            m,
            jittered_depth(m, VMIN, STEP, i),
        )
    &&& well.last_tvt == arith::widened(m, s.truth(0))
}

/// Widens every sample of a log.
fn widen_all<A: Arith>(m: &A, xs: &Vec<u32>) -> (out: Vec<u64>)
    ensures
        out@.len() == xs@.len(),
        arith::deterministic(*m) ==> out@ == widened_all(*m, xs@),
{
    let mut out: Vec<u64> = Vec::new();
    let mut i: usize = 0;
    while i < xs.len()
        invariant
            i <= xs@.len(),
            out@.len() == i,
            arith::deterministic(*m) ==> forall|j: int|
                0 <= j < i ==> #[trigger] out@[j] == arith::widened(*m, xs@[j]),
        decreases xs@.len() - i,
    {
        let x = arith::widen(m, xs[i]);
        out.push(x);
        i = i + 1;
    }
    proof {
        if arith::deterministic(*m) {
            assert(out@ =~= widened_all(*m, xs@));
        }
    }
    out
}

/// The same synthetic well shaped for the beam search, and its true path.
///
/// The beam search walks the type-well log itself rather than a uniform grid, so the
/// samples are handed over as they are, with a little jitter on their depths.
pub fn synthetic_beam_well<A: Arith>(m: &A, seed: u32, n_rows: usize) -> (r: (
    BeamWellInput,
    Vec<u64>,
))
    requires
        n_rows >= 2,
    ensures
        r.0.gr@.len() == n_rows,
        r.0.tw_tvt@.len() == GRID_LEN,
        r.0.tw_gr@.len() == GRID_LEN,
        r.1@.len() == n_rows,
        arith::deterministic(*m) ==> is_synthetic_beam(*m, seed, n_rows as int, r.0, r.1@),
{
    let (w, truth) = synthetic_well(m, seed, n_rows);
    let mut tw_tvt: Vec<u64> = Vec::new();
    let mut i: usize = 0;
    while i < w.grid.len()
        invariant
            i <= w.grid@.len() == GRID_LEN,
            w.vmin == VMIN,
            w.step == STEP,
            tw_tvt@.len() == i,
            arith::deterministic(*m) ==> forall|j: int|
                0 <= j < i ==> #[trigger] tw_tvt@[j] == arith::widened(
                    *m,
                    jittered_depth(*m, VMIN, STEP, j),
                ),
        decreases w.grid@.len() - i,
    {
        let fi = arith::from_int32(m, i as u64);
        let along = arith::mul32(m, fi, w.step);
        let even = arith::add32(m, w.vmin, along);
        let scale = arith::mul32(m, JITTER, w.step);
        let turn = arith::mul32(m, fi, TURN);
        let wave = arith::sin32(m, turn);
        let shift = arith::mul32(m, scale, wave);
        let depth = arith::add32(m, even, shift);
        let wide = arith::widen(m, depth);
        tw_tvt.push(wide);
        i = i + 1;
    }
    let gr = widen_all(m, &w.gr);
    let tw_gr = widen_all(m, &w.grid);
    let last_tvt = arith::widen(m, truth[0]);
    let path = widen_all(m, &truth);
    (BeamWellInput { gr, tw_tvt, tw_gr, last_tvt }, path)
}

// ---------------------------------------------------------------------------
// Error measures
// ---------------------------------------------------------------------------

/// Sum of the squared differences of the first `n` samples: single-precision
/// differences, summed in double precision.
pub open spec fn squares32<A: Arith>(m: A, a: Seq<u32>, b: Seq<u32>, n: int) -> u64
    decreases n,
{
    if n <= 0 {
        ieee::ZERO64
    } else {
        let d = arith::widened(m, arith::difference32(m, a[n - 1], b[n - 1]));
        arith::sum64(m, squares32(m, a, b, n - 1), arith::product64(m, d, d))
    }
}

/// Sum of the squared differences of the first `n` samples.
pub open spec fn squares64<A: Arith>(m: A, a: Seq<u64>, b: Seq<u64>, n: int) -> u64
    decreases n,
{
    if n <= 0 {
        ieee::ZERO64
    } else {
        let d = arith::difference64(m, a[n - 1], b[n - 1]);
        arith::sum64(m, squares64(m, a, b, n - 1), arith::product64(m, d, d))
    }
}

/// Root of the mean of `n` squares.
pub open spec fn root_mean<A: Arith>(m: A, squares: u64, n: int) -> u64 {
    arith::root64(m, arith::quotient64(m, squares, arith::of_int64(m, n as u64)))
}

/// Root-mean-square error between two equally long series.
pub fn rmse<A: Arith>(m: &A, a: &[u32], b: &[u32]) -> (r: u32)
    requires
        a@.len() == b@.len(),
    ensures
        arith::deterministic(*m) ==> r == arith::narrowed(
            *m,
            root_mean(*m, squares32(*m, a@, b@, a@.len() as int), a@.len() as int),
        ),
{
    let n = a.len();
    let mut s: u64 = ieee::ZERO64;
    let mut i: usize = 0;
    while i < n
        invariant
            i <= n == a@.len() == b@.len(),
            arith::deterministic(*m) ==> s == squares32(*m, a@, b@, i as int),
        decreases n - i,
    {
        let d = arith::sub32(m, a[i], b[i]);
        let w = arith::widen(m, d);
        let sq = arith::mul64(m, w, w);
        s = arith::add64(m, s, sq);
        i = i + 1;
    }
    let count = arith::from_int64(m, n as u64);
    let mean = arith::div64(m, s, count);
    let root = arith::sqrt64(m, mean);
    arith::narrow(m, root)
}

/// Root-mean-square error between two equally long series in double precision.
pub fn rmse64<A: Arith>(m: &A, a: &[u64], b: &[u64]) -> (r: u64)
    requires
        a@.len() == b@.len(),
    ensures
        arith::deterministic(*m) ==> r == root_mean(
            *m,
            squares64(*m, a@, b@, a@.len() as int),
            a@.len() as int,
        ),
{
    let n = a.len();
    let mut s: u64 = ieee::ZERO64;
    let mut i: usize = 0;
    while i < n
        invariant
            i <= n == a@.len() == b@.len(),
            arith::deterministic(*m) ==> s == squares64(*m, a@, b@, i as int),
        decreases n - i,
    {
        let d = arith::sub64(m, a[i], b[i]);
        let sq = arith::mul64(m, d, d);
        s = arith::add64(m, s, sq);
        i = i + 1;
    }
    let count = arith::from_int64(m, n as u64);
    let mean = arith::div64(m, s, count);
    arith::sqrt64(m, mean)
}

/// A synthetic well is fixed by its seed and its length: two runs of the generator
/// agree sample for sample.
pub proof fn lemma_synthetic_is_reproducible<A: Arith>(
    m: A,
    seed: u32,
    n_rows: int,
    a: WellInput,
    ta: Seq<u32>,
    b: WellInput,
    tb: Seq<u32>,
)
    requires
        a.md@.len() == n_rows,
        a.z@.len() == n_rows,
        a.gr@.len() == n_rows,
        ta.len() == n_rows,
        b.md@.len() == n_rows,
        b.z@.len() == n_rows,
        b.gr@.len() == n_rows,
        tb.len() == n_rows,
        is_synthetic(m, seed, n_rows, a, ta),
        is_synthetic(m, seed, n_rows, b, tb),
    ensures
        ta == tb,
        a.md@ == b.md@,
        a.z@ == b.z@,
        a.gr@ == b.gr@,
        a.grid@ == b.grid@,
        a.ls == b.ls,
        a.ir == b.ir,
{
    let s = Synthetic { m, seed };
    assert forall|r: int| 0 <= r < n_rows implies #[trigger] ta[r] == tb[r] by {
        assert(ta[r] == s.truth(r));
        assert(tb[r] == s.truth(r));
    }
    assert(ta =~= tb);
    assert(a.md@ =~= b.md@);
    assert(a.z@ =~= b.z@);
    assert(a.gr@ =~= b.gr@);
}

/// A longer synthetic well begins with the shorter one: a row is not touched by the
/// rows after it.
pub proof fn lemma_synthetic_prefix<A: Arith>(
    m: A,
    seed: u32,
    n: int,
    longer: int,
    a: WellInput,
    ta: Seq<u32>,
    b: WellInput,
    tb: Seq<u32>,
    r: int,
)
    requires
        n <= longer,
        is_synthetic(m, seed, n, a, ta),
        is_synthetic(m, seed, longer, b, tb),
        0 <= r < n,
    ensures
        ta[r] == tb[r],
        a.md@[r] == b.md@[r],
        a.z@[r] == b.z@[r],
        a.gr@[r] == b.gr@[r],
{
}

} // verus!
