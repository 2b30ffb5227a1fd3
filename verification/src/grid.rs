//! Resampling of a type-well log onto the uniform grid that the particle filter reads.
use vstd::prelude::*;
use crate::arith;
use crate::arith::Arith;
use crate::filter;
use crate::ieee;

verus! {

/// A type-well log on a uniform axis: sample `i` stands at depth `vmin + i * step`.
pub struct Grid {
    pub grid: Vec<u32>,
    pub vmin: u32,
    pub step: u32,
}

/// Why a log cannot be resampled.
#[derive(Clone, Copy, Debug, PartialEq, Eq, Structural)]
pub enum GridIssue {
    /// Depths and samples differ in number, or there are fewer than two.
    Lengths,
    /// The uniform axis would have more samples than can be counted.
    TooLong,
}

/// The smallest of the first `n` numbers, leaving out those that are not numbers.
pub open spec fn lowest(xs: Seq<u32>, n: int) -> u32
    decreases n,
{
    if n <= 0 {
        ieee::INF32
    } else {
        let rest = lowest(xs, n - 1);
        if ieee::less32(xs[n - 1], rest) {
            xs[n - 1]
        } else {
            rest
        }
    }
}

/// The largest of the first `n` numbers, leaving out those that are not numbers.
pub open spec fn highest(xs: Seq<u32>, n: int) -> u32
    decreases n,
{
    if n <= 0 {
        ieee::NEG_INF32
    } else {
        let rest = highest(xs, n - 1);
        if ieee::less32(rest, xs[n - 1]) {
            xs[n - 1]
        } else {
            rest
        }
    }
}

/// Whole steps between the shallowest and the deepest sample.
pub open spec fn steps<A: Arith>(m: A, tvt: Seq<u32>, step: u32) -> u64 {
    let n = tvt.len() as int;
    arith::int_of32(
        m,
        arith::quotient32(m, arith::difference32(m, highest(tvt, n), lowest(tvt, n)), step),
    )
}

/// Depth of grid sample `i`.
pub open spec fn depth<A: Arith>(m: A, vmin: u32, step: u32, i: int) -> u32 {
    arith::sum32(m, vmin, arith::product32(m, arith::of_int32(m, i as u64), step))
}

/// The first segment, from segment `k` on, that does not end before `x`; the last
/// segment if all do.
pub open spec fn segment_from(tvt: Seq<u32>, x: u32, k: int) -> int
    decreases tvt.len() - k,
{
    if k + 2 < tvt.len() && ieee::less32(tvt[k + 1], x) {
        segment_from(tvt, x, k + 1)
    } else {
        k
    }
}

/// The segment that grid sample `i` is read from. The search goes on from the segment
/// of the sample before.
pub open spec fn segment<A: Arith>(m: A, tvt: Seq<u32>, vmin: u32, step: u32, i: int) -> int
    decreases i,
{
    let k = if i <= 0 {
        0
    } else {
        segment(m, tvt, vmin, step, i - 1)
    };
    segment_from(tvt, depth(m, vmin, step, i), k)
}

/// Linear interpolation at `x` on segment `k`, held at the segment's ends.
pub open spec fn on_segment<A: Arith>(m: A, tvt: Seq<u32>, gr: Seq<u32>, k: int, x: u32) -> u32 {
    let width = arith::difference32(m, tvt[k + 1], tvt[k]);
    let t = if ieee::less32(ieee::ZERO32, width) || ieee::less32(width, ieee::ZERO32) {
        filter::clamped(
            arith::quotient32(m, arith::difference32(m, x, tvt[k]), width),
            ieee::ZERO32,
            ieee::ONE32,
        )
    } else {
        ieee::ZERO32
    };
    arith::sum32(
        m,
        arith::product32(m, gr[k], arith::difference32(m, ieee::ONE32, t)),
        arith::product32(m, gr[k + 1], t),
    )
}

/// Grid sample `i`.
pub open spec fn resampled<A: Arith>(
    m: A,
    tvt: Seq<u32>,
    gr: Seq<u32>,
    vmin: u32,
    step: u32,
    i: int,
) -> u32 {
    on_segment(m, tvt, gr, segment(m, tvt, vmin, step, i), depth(m, vmin, step, i))
}

/// A grid sample is read from a segment of the log.
pub proof fn lemma_segment_in_range(tvt: Seq<u32>, x: u32, k: int)
    requires
        0 <= k <= tvt.len() - 2,
    ensures
        k <= segment_from(tvt, x, k) <= tvt.len() - 2,
        segment_from(tvt, x, k) == tvt.len() - 2 || !ieee::less32(
            tvt[segment_from(tvt, x, k) + 1],
            x,
        ),
    decreases tvt.len() - k,
{
    if k + 2 < tvt.len() && ieee::less32(tvt[k + 1], x) {
        lemma_segment_in_range(tvt, x, k + 1);
    }
}

/// The segments of the grid samples never go back along the log, and each sample's
/// segment reaches its depth unless the log ends before.
pub proof fn lemma_segments_advance<A: Arith>(m: A, tvt: Seq<u32>, vmin: u32, step: u32, i: int)
    requires
        tvt.len() >= 2,
        0 <= i,
    ensures
        0 <= segment(m, tvt, vmin, step, i) <= tvt.len() - 2,
        segment(m, tvt, vmin, step, i) <= segment(m, tvt, vmin, step, i + 1),
        segment(m, tvt, vmin, step, i) == tvt.len() - 2 || !ieee::less32(
            tvt[segment(m, tvt, vmin, step, i) + 1],
            depth(m, vmin, step, i),
        ),
    decreases i,
{
    let k = if i <= 0 {
        0
    } else {
        segment(m, tvt, vmin, step, i - 1)
    };
    if i > 0 {
        lemma_segments_advance(m, tvt, vmin, step, i - 1);
    }
    lemma_segment_in_range(tvt, depth(m, vmin, step, i), k);
    lemma_segment_in_range(
        tvt,
        depth(m, vmin, step, i + 1),
        segment(m, tvt, vmin, step, i),
    );
}

/// No sample of the log lies outside the range that the grid covers.
pub proof fn lemma_extent_covers_the_log(xs: Seq<u32>, n: int, j: int)
    requires
        0 <= j < n <= xs.len(),
        !ieee::nan32(xs[j]),
    ensures
        ieee::at_most32(lowest(xs, n), xs[j]),
        ieee::at_most32(xs[j], highest(xs, n)),
    decreases n,
{
    lemma_extent_is_a_number(xs, n - 1);
    if j < n - 1 {
        lemma_extent_covers_the_log(xs, n - 1, j);
    } else {
        lemma_extent_is_a_number(xs, n);
    }
}

/// The ends of the range are numbers, whatever the log holds.
proof fn lemma_extent_is_a_number(xs: Seq<u32>, n: int)
    requires
        n <= xs.len(),
    ensures
        !ieee::nan32(lowest(xs, n)),
        !ieee::nan32(highest(xs, n)),
    decreases n,
{
    if n > 0 {
        lemma_extent_is_a_number(xs, n - 1);
    }
}

/// The shallowest and the deepest sample.
fn extent(tvt: &[u32]) -> (r: (u32, u32))
    ensures
        r.0 == lowest(tvt@, tvt@.len() as int),
        r.1 == highest(tvt@, tvt@.len() as int),
{
    let mut lo: u32 = ieee::INF32;
    let mut hi: u32 = ieee::NEG_INF32;
    let mut i: usize = 0;
    while i < tvt.len()
        invariant
            i <= tvt@.len(),
            lo == lowest(tvt@, i as int),
            hi == highest(tvt@, i as int),
        decreases tvt@.len() - i,
    {
        let x = tvt[i];
        if ieee::lt32(x, lo) {
            lo = x;
        }
        if ieee::lt32(hi, x) {
            hi = x;
        }
        i = i + 1;
    }
    (lo, hi)
}

/// Linear interpolation at `x` on segment `k`, held at the segment's ends.
fn interpolate<A: Arith>(m: &A, tvt: &[u32], gr: &[u32], k: usize, x: u32) -> (v: u32)
    requires
        tvt@.len() == gr@.len(),
        k + 1 < tvt@.len(),
    ensures
        arith::deterministic(*m) ==> v == on_segment(*m, tvt@, gr@, k as int, x),
{
    let x0 = tvt[k];
    let x1 = tvt[k + 1];
    let width = arith::sub32(m, x1, x0);
    let t = if ieee::lt32(ieee::ZERO32, width) || ieee::lt32(width, ieee::ZERO32) {
        let d = arith::sub32(m, x, x0);
        let q = arith::div32(m, d, width);
        filter::clamp(q, ieee::ZERO32, ieee::ONE32)
    } else {
        ieee::ZERO32
    };
    let s = arith::sub32(m, ieee::ONE32, t);
    let a = arith::mul32(m, gr[k], s);
    let b = arith::mul32(m, gr[k + 1], t);
    arith::add32(m, a, b)
}

/// Reads the log at `n` depths, `step` apart, from `vmin` on.
pub fn resample<A: Arith>(
    m: &A,
    tvt: &[u32],
    gr: &[u32],
    vmin: u32,
    step: u32,
    n: usize,
) -> (out: Vec<u32>)
    requires
        tvt@.len() == gr@.len(),
        tvt@.len() >= 2,
    ensures
        out@.len() == n,
        arith::deterministic(*m) ==> forall|i: int|
            0 <= i < n ==> #[trigger] out@[i] == resampled(*m, tvt@, gr@, vmin, step, i),
{
    let mut out: Vec<u32> = Vec::new();
    let len = tvt.len();
    let mut k: usize = 0;
    let mut i: usize = 0;
    while i < n
        invariant
            i <= n,
            len == tvt@.len(),
            tvt@.len() == gr@.len(),
            k <= len - 2,
            len >= 2,
            out@.len() == i,
            arith::deterministic(*m) ==> k == if i == 0 {
                0
            } else {
                segment(*m, tvt@, vmin, step, i - 1)
            },
            arith::deterministic(*m) ==> forall|j: int|
                0 <= j < i ==> #[trigger] out@[j] == resampled(*m, tvt@, gr@, vmin, step, j),
        decreases n - i,
    {
        let fi = arith::from_int32(m, i as u64);
        let along = arith::mul32(m, fi, step);
        let x = arith::add32(m, vmin, along);
        let ghost k0 = k as int;
        while k < len - 2 && ieee::lt32(tvt[k + 1], x)
            invariant
                len == tvt@.len(),
                len >= 2,
                k0 <= k <= len - 2,
                segment_from(tvt@, x, k0) == segment_from(tvt@, x, k as int),
            decreases len - k,
        {
            k = k + 1;
        }
        proof {
            if arith::deterministic(*m) {
                assert(x == depth(*m, vmin, step, i as int));
                assert(k == segment(*m, tvt@, vmin, step, i as int));
            }
        }
        let v = interpolate(m, tvt, gr, k, x);
        out.push(v);
        i = i + 1;
    }
    out
}

/// Resamples a type-well log onto the uniform grid from its shallowest sample on.
///
/// The log is refused unless it has equally many depths and samples, at least two; and
/// where the grid would have more samples than a `usize` counts.
pub fn make_grid<A: Arith>(m: &A, tvt: &[u32], gr: &[u32], step: u32) -> (r: Result<
    Grid,
    GridIssue,
>)
    ensures
        (tvt@.len() != gr@.len() || tvt@.len() < 2) <==> (r matches Err(e)
            && e == GridIssue::Lengths),
        r matches Ok(g) ==> g.vmin == lowest(tvt@, tvt@.len() as int) && g.step == step
            && g.grid@.len() > 0,
        arith::deterministic(*m) ==> match r {
            Ok(g) => {
                &&& g.grid@.len() == steps(*m, tvt@, step) + 1
                &&& forall|i: int|
                    0 <= i < g.grid@.len() ==> #[trigger] g.grid@[i] == resampled(
                        *m,
                        tvt@,
                        gr@,
                        g.vmin,
                        step,
                        i,
                    )
            },
            Err(e) => e == GridIssue::TooLong ==> steps(*m, tvt@, step) >= usize::MAX,
        },
{
    if tvt.len() != gr.len() || tvt.len() < 2 {
        return Err(GridIssue::Lengths);
    }
    let (tmin, tmax) = extent(tvt);
    let span = arith::sub32(m, tmax, tmin);
    let ratio = arith::div32(m, span, step);
    let cells = arith::to_int32(m, ratio);
    if cells >= usize::MAX as u64 {
        return Err(GridIssue::TooLong);
    }
    let n = cells as usize + 1;
    let grid = resample(m, tvt, gr, tmin, step, n);
    Ok(Grid { grid, vmin: tmin, step })
}

} // verus!
