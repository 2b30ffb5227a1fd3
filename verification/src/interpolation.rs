//! What the interpolations read: the straight line between two neighbouring samples,
//! whether the log rises or falls there, and the end samples beyond the log.
use vstd::prelude::*;
use vstd::arithmetic::power2::*;
use crate::arith;
use crate::arith::Arith;
use crate::exact;
use crate::filter;
use crate::filter::{Formulas, WellParams};
use crate::grid;
use crate::ieee;
use crate::kernel;

verus! {

// ---------------------------------------------------------------------------
// A straight line
// ---------------------------------------------------------------------------

/// The line through `(x0, y0)` and `(x1, y1)`, at `x`.
pub open spec fn line(x0: real, y0: real, x1: real, y1: real, x: real) -> real {
    y0 + (y1 - y0) * ((x - x0) / (x1 - x0))
}

/// The line goes through its two points, and rises in proportion in between.
pub proof fn lemma_line(x0: real, y0: real, x1: real, y1: real, x: real)
    requires
        x0 < x1,
    ensures
        line(x0, y0, x1, y1, x0) == y0,
        line(x0, y0, x1, y1, x1) == y1,
        (line(x0, y0, x1, y1, x) - y0) * (x1 - x0) == (x - x0) * (y1 - y0),
{
    let (d, h) = (x1 - x0, y1 - y0);
    let t = (x - x0) / d;
    assert(t * d == x - x0 && d / d == 1 as real && (0 as real) / d == 0 as real) by (nonlinear_arith)
        requires
            d > 0 as real,
            t == (x - x0) / d,
    ;
    assert((h * t) * d == (t * d) * h) by (nonlinear_arith);
    assert(h * (1 as real) == h && h * (0 as real) == 0 as real) by (nonlinear_arith);
}

proof fn lemma_share(n: real, d: real)
    requires
        d > 0 as real,
        0 as real <= n <= d,
    ensures
        0 as real <= n / d <= 1 as real,
{
    assert(0 as real <= n / d <= 1 as real) by (nonlinear_arith)
        requires
            d > 0 as real,
            0 as real <= n <= d,
    ;
}

/// A number between zero and one is left alone by the clamp.
proof fn lemma_clamp_passes(q: u32)
    requires
        ieee::finite32(q),
        0 as real <= exact::number32(q) <= 1 as real,
    ensures
        filter::clamped(q, ieee::ZERO32, ieee::ONE32) == q,
{
    exact::lemma_constants32();
    exact::lemma_order32(q, ieee::ZERO32);
    exact::lemma_order32(ieee::ONE32, q);
}

// ---------------------------------------------------------------------------
// Resampling a log
// ---------------------------------------------------------------------------

/// The steps of an interpolation on segment `k` at `x` have patterns: the distances, the
/// share of the segment and of what is left, and the two shares of the readings.
pub open spec fn segment_fits(tvt: Seq<u32>, gr: Seq<u32>, k: int, x: real) -> bool {
    let (x0, x1) = (exact::number32(tvt[k]), exact::number32(tvt[k + 1]));
    let (y0, y1) = (exact::number32(gr[k]), exact::number32(gr[k + 1]));
    let t = (x - x0) / (x1 - x0);
    &&& exact::fits32(x1 - x0)
    &&& exact::fits32(x - x0)
    &&& exact::fits32(t)
    &&& exact::fits32(1 as real - t)
    &&& exact::fits32(y0 * (1 as real - t))
    &&& exact::fits32(y1 * t)
}

/// Line of segment `k` of a log, at depth `x`.
pub open spec fn segment_line(tvt: Seq<u32>, gr: Seq<u32>, k: int, x: u32) -> real {
    line(
        exact::number32(tvt[k]),
        exact::number32(gr[k]),
        exact::number32(tvt[k + 1]),
        exact::number32(gr[k + 1]),
        exact::number32(x),
    )
}

/// Between two samples of the log the reading is on the straight line through them,
/// rounded once, and at a sample it is that sample, whether the log rises or falls.
pub proof fn lemma_reading_is_on_the_line<A: Arith>(
    m: A,
    tvt: Seq<u32>,
    gr: Seq<u32>,
    k: int,
    x: u32,
)
    requires
        exact::faithful32(m),
        0 <= k < tvt.len() - 1,
        tvt.len() == gr.len(),
        ieee::finite32(tvt[k]) && ieee::finite32(tvt[k + 1]),
        ieee::finite32(gr[k]) && ieee::finite32(gr[k + 1]),
        ieee::finite32(x),
        exact::number32(tvt[k]) < exact::number32(tvt[k + 1]),
        exact::number32(tvt[k]) <= exact::number32(x) <= exact::number32(tvt[k + 1]),
        segment_fits(tvt, gr, k, exact::number32(x)),
    ensures
        exact::near32(grid::on_segment(m, tvt, gr, k, x), segment_line(tvt, gr, k, x)),
        exact::number32(x) == exact::number32(tvt[k]) ==> exact::is32(
            grid::on_segment(m, tvt, gr, k, x),
            exact::number32(gr[k]),
        ),
        exact::number32(x) == exact::number32(tvt[k + 1]) ==> exact::is32(
            grid::on_segment(m, tvt, gr, k, x),
            exact::number32(gr[k + 1]),
        ),
{
    let (x0, x1) = (exact::number32(tvt[k]), exact::number32(tvt[k + 1]));
    let (y0, y1) = (exact::number32(gr[k]), exact::number32(gr[k + 1]));
    let d = x1 - x0;
    let s = (exact::number32(x) - x0) / d;
    exact::lemma_constants32();
    let width = arith::difference32(m, tvt[k + 1], tvt[k]);
    exact::lemma_difference32(m, tvt[k + 1], tvt[k]);
    exact::lemma_order32(ieee::ZERO32, width);
    let along = arith::difference32(m, x, tvt[k]);
    exact::lemma_difference32(m, x, tvt[k]);
    let t = arith::quotient32(m, along, width);
    exact::lemma_quotient32(m, along, width);
    lemma_share(exact::number32(x) - x0, d);
    lemma_clamp_passes(t);
    let rest = arith::difference32(m, ieee::ONE32, t);
    exact::lemma_difference32(m, ieee::ONE32, t);
    let (a, b) = (arith::product32(m, gr[k], rest), arith::product32(m, gr[k + 1], t));
    exact::lemma_product32(m, gr[k], rest);
    exact::lemma_product32(m, gr[k + 1], t);
    exact::lemma_sum32(m, a, b);
    assert(y0 * (1 as real - s) + y1 * s == y0 + (y1 - y0) * s) by (nonlinear_arith);
    lemma_line(x0, y0, x1, y1, exact::number32(x));
    let v = grid::on_segment(m, tvt, gr, k, x);
    if exact::number32(x) == x0 {
        assert(exact::number32(gr[k]) == y0);
        exact::lemma_near_is32(v, y0);
    }
    if exact::number32(x) == x1 {
        assert(exact::number32(gr[k + 1]) == y1);
        exact::lemma_near_is32(v, y1);
    }
}

/// Depth `vmin + i * step`, as numbers.
pub open spec fn axis(vmin: u32, step: u32, i: int) -> real {
    exact::number32(vmin) + i as real * exact::number32(step)
}

/// Grid sample `i` stands at `vmin + i * step`.
pub proof fn lemma_grid_depth<A: Arith>(m: A, vmin: u32, step: u32, i: int)
    requires
        exact::faithful32(m),
        ieee::finite32(vmin),
        ieee::finite32(step),
        0 <= i <= 0x100_0000,
        exact::fits32(i as real * exact::number32(step)),
        exact::fits32(axis(vmin, step, i)),
    ensures
        exact::is32(grid::depth(m, vmin, step, i), axis(vmin, step, i)),
{
    exact::lemma_of_int32(m, i as u64);
    exact::lemma_product32(m, arith::of_int32(m, i as u64), step);
    exact::lemma_sum32(
        m,
        vmin,
        arith::product32(m, arith::of_int32(m, i as u64), step),
    );
}

/// The log's depths are numbers, each deeper than the one before.
pub open spec fn ascending(tvt: Seq<u32>) -> bool {
    &&& forall|i: int| 0 <= i < tvt.len() ==> ieee::finite32(#[trigger] tvt[i])
    &&& forall|i: int, j: int|
        0 <= i < j < tvt.len() ==> exact::number32(#[trigger] tvt[i]) < exact::number32(
            #[trigger] tvt[j],
        )
}

/// The depths of the first `n + 1` grid samples have patterns.
pub open spec fn axis_fits(vmin: u32, step: u32, n: int) -> bool {
    forall|i: int|
        0 <= i <= n ==> exact::fits32(#[trigger] axis(vmin, step, i)) && exact::fits32(
            i as real * exact::number32(step),
        )
}

/// The segment that a grid sample is read from holds its depth, or is the last one.
proof fn lemma_segment_holds<A: Arith>(m: A, tvt: Seq<u32>, vmin: u32, step: u32, i: int)
    requires
        exact::faithful32(m),
        tvt.len() >= 2,
        ascending(tvt),
        ieee::finite32(vmin),
        ieee::finite32(step),
        exact::number32(step) > 0 as real,
        exact::number32(tvt[0]) <= exact::number32(vmin),
        0 <= i <= 0x100_0000,
        axis_fits(vmin, step, i),
    ensures
        ({
            let k = grid::segment(m, tvt, vmin, step, i);
            &&& 0 <= k <= tvt.len() - 2
            &&& exact::number32(tvt[k]) <= axis(vmin, step, i)
            &&& axis(vmin, step, i) <= exact::number32(tvt[k + 1]) || k == tvt.len() - 2
        }),
    decreases i,
{
    let x = grid::depth(m, vmin, step, i);
    assert(exact::fits32(axis(vmin, step, i)));
    lemma_grid_depth(m, vmin, step, i);
    let k0 = if i <= 0 {
        0
    } else {
        grid::segment(m, tvt, vmin, step, i - 1)
    };
    let d = exact::number32(step);
    if i > 0 {
        lemma_segment_holds(m, tvt, vmin, step, i - 1);
        let (p, q) = ((i - 1) as real, i as real);
        assert(p * d <= q * d) by (nonlinear_arith)
            requires
                p <= q,
                d > 0 as real,
        ;
    } else {
        assert((0 as real) * d == 0 as real) by (nonlinear_arith);
    }
    lemma_segment_from_holds(tvt, x, k0);
}

proof fn lemma_segment_from_holds(tvt: Seq<u32>, x: u32, k: int)
    requires
        0 <= k <= tvt.len() - 2,
        ascending(tvt),
        ieee::finite32(x),
        exact::number32(tvt[k]) <= exact::number32(x),
    ensures
        ({
            let s = grid::segment_from(tvt, x, k);
            &&& k <= s <= tvt.len() - 2
            &&& exact::number32(tvt[s]) <= exact::number32(x)
            &&& exact::number32(x) <= exact::number32(tvt[s + 1]) || s == tvt.len() - 2
        }),
    decreases tvt.len() - k,
{
    exact::lemma_order32(tvt[k + 1], x);
    if k + 2 < tvt.len() && ieee::less32(tvt[k + 1], x) {
        lemma_segment_from_holds(tvt, x, k + 1);
    }
}

/// A grid sample that lies on the log reads the straight line between the two samples
/// around its depth, rounded once; one at the depth of a sample reads that sample.
pub proof fn lemma_grid_follows_the_log<A: Arith>(
    m: A,
    tvt: Seq<u32>,
    gr: Seq<u32>,
    vmin: u32,
    step: u32,
    i: int,
    k: int,
)
    requires
        exact::faithful32(m),
        tvt.len() == gr.len(),
        ascending(tvt),
        forall|j: int| 0 <= j < gr.len() ==> ieee::finite32(#[trigger] gr[j]),
        ieee::finite32(vmin),
        ieee::finite32(step),
        exact::number32(step) > 0 as real,
        exact::number32(tvt[0]) <= exact::number32(vmin),
        0 <= i <= 0x100_0000,
        axis_fits(vmin, step, i),
        0 <= k < tvt.len() - 1,
        exact::number32(tvt[k]) <= axis(vmin, step, i) <= exact::number32(tvt[k + 1]),
        forall|j: int|
            0 <= j < tvt.len() - 1 && exact::number32(tvt[j]) <= axis(vmin, step, i)
                <= exact::number32(tvt[j + 1]) ==> #[trigger] segment_fits(
                tvt,
                gr,
                j,
                axis(vmin, step, i),
            ),
    ensures
        ({
            let v = grid::resampled(m, tvt, gr, vmin, step, i);
            let x = axis(vmin, step, i);
            &&& exact::near32(
                v,
                line(
                    exact::number32(tvt[k]),
                    exact::number32(gr[k]),
                    exact::number32(tvt[k + 1]),
                    exact::number32(gr[k + 1]),
                    x,
                ),
            )
            &&& x == exact::number32(tvt[k]) ==> exact::is32(v, exact::number32(gr[k]))
            &&& x == exact::number32(tvt[k + 1]) ==> exact::is32(v, exact::number32(gr[k + 1]))
        }),
{
    let x = grid::depth(m, vmin, step, i);
    assert(exact::fits32(axis(vmin, step, i)));
    lemma_grid_depth(m, vmin, step, i);
    lemma_segment_holds(m, tvt, vmin, step, i);
    let s = grid::segment(m, tvt, vmin, step, i);
    let v = grid::resampled(m, tvt, gr, vmin, step, i);
    assert(exact::number32(tvt[s]) < exact::number32(tvt[s + 1]));
    assert(exact::number32(tvt[k]) < exact::number32(tvt[k + 1]));
    if s < k {
        assert(s + 1 == k || exact::number32(tvt[s + 1]) < exact::number32(tvt[k]));
    } else if k < s {
        assert(k + 1 == s || exact::number32(tvt[k + 1]) < exact::number32(tvt[s]));
    }
    assert(exact::number32(x) <= exact::number32(tvt[s + 1])) by {
        if k < s {
            assert(exact::number32(tvt[s]) < exact::number32(tvt[s + 1]));
        }
    }
    assert(segment_fits(tvt, gr, s, axis(vmin, step, i)));
    lemma_reading_is_on_the_line(m, tvt, gr, s, x);
    if s != k {
        lemma_line(
            exact::number32(tvt[k]),
            exact::number32(gr[k]),
            exact::number32(tvt[k + 1]),
            exact::number32(gr[k + 1]),
            exact::number32(x),
        );
        exact::lemma_is_near32(v);
    }
}

/// The grid's axis starts at the shallowest sample of the log, wherever in the log it is,
/// and reaches as many whole steps as fit between it and the deepest.
pub proof fn lemma_grid_spans_the_log<A: Arith>(m: A, tvt: Seq<u32>, step: u32, a: int, b: int)
    requires
        exact::faithful32(m),
        0 <= a < tvt.len(),
        0 <= b < tvt.len(),
        forall|j: int|
            0 <= j < tvt.len() ==> ieee::finite32(#[trigger] tvt[j]) && exact::number32(tvt[a])
                <= exact::number32(tvt[j]) <= exact::number32(tvt[b]),
        ieee::finite32(step),
        exact::number32(step) > 0 as real,
        exact::fits32(exact::number32(tvt[b]) - exact::number32(tvt[a])),
        exact::fits32(
            (exact::number32(tvt[b]) - exact::number32(tvt[a])) / exact::number32(step),
        ),
        (exact::number32(tvt[b]) - exact::number32(tvt[a])) / exact::number32(step) < pow2(
            64,
        ) as real,
    ensures
        exact::is32(grid::lowest(tvt, tvt.len() as int), exact::number32(tvt[a])),
        exact::is32(grid::highest(tvt, tvt.len() as int), exact::number32(tvt[b])),
        ({
            let n = grid::steps(m, tvt, step) as int;
            let span = exact::number32(tvt[b]) - exact::number32(tvt[a]);
            n as real * exact::number32(step) <= span < (n + 1) as real * exact::number32(step)
        }),
{
    let n = tvt.len() as int;
    let (lo, hi) = (grid::lowest(tvt, n), grid::highest(tvt, n));
    assert(ieee::finite32(tvt[a]) && ieee::finite32(tvt[b]));
    let (p, q) = lemma_ends_are_samples(tvt, n);
    grid::lemma_extent_covers_the_log(tvt, n, a);
    grid::lemma_extent_covers_the_log(tvt, n, b);
    assert(ieee::finite32(tvt[p]) && ieee::finite32(tvt[q]));
    exact::lemma_order32(lo, tvt[a]);
    exact::lemma_order32(tvt[b], hi);
    let span = exact::number32(tvt[b]) - exact::number32(tvt[a]);
    let d = exact::number32(step);
    exact::lemma_difference32(m, hi, lo);
    let fspan = arith::difference32(m, hi, lo);
    exact::lemma_quotient32(m, fspan, step);
    let quotient = arith::quotient32(m, fspan, step);
    assert(0 as real <= span / d && (span / d) * d == span) by (nonlinear_arith)
        requires
            0 as real <= span,
            d > 0 as real,
    ;
    exact::lemma_int_of32(m, quotient);
    let c = grid::steps(m, tvt, step) as int as real;
    assert(c * d <= span && span < (c + 1 as real) * d) by (nonlinear_arith)
        requires
            c <= span / d,
            span / d < c + 1 as real,
            (span / d) * d == span,
            d > 0 as real,
    ;
}

/// The ends of the range are samples of the log.
proof fn lemma_ends_are_samples(tvt: Seq<u32>, n: int) -> (r: (int, int))
    requires
        1 <= n <= tvt.len(),
        forall|j: int| 0 <= j < tvt.len() ==> ieee::finite32(#[trigger] tvt[j]),
    ensures
        0 <= r.0 < n,
        0 <= r.1 < n,
        grid::lowest(tvt, n) == tvt[r.0],
        grid::highest(tvt, n) == tvt[r.1],
    decreases n,
{
    assert(ieee::finite32(tvt[n - 1]));
    if n > 1 {
        let (p, q) = lemma_ends_are_samples(tvt, n - 1);
        (
            if grid::lowest(tvt, n) == tvt[n - 1] {
                n - 1
            } else {
                p
            },
            if grid::highest(tvt, n) == tvt[n - 1] {
                n - 1
            } else {
                q
            },
        )
    } else {
        assert(grid::lowest(tvt, 0) == ieee::INF32);
        assert(grid::highest(tvt, 0) == ieee::NEG_INF32);
        (0, 0)
    }
}

// ---------------------------------------------------------------------------
// Looking a depth up on the grid
// ---------------------------------------------------------------------------

/// Well parameters as the filter needs them: a positive spacing and sigma, and their
/// reciprocals, all of them patterns.
pub open spec fn exact_params(p: WellParams) -> bool {
    &&& ieee::finite32(p.vmin) && ieee::finite32(p.step) && ieee::finite32(p.gs)
    &&& exact::number32(p.step) > 0 as real
    &&& exact::number32(p.gs) > 0 as real
    &&& exact::is32(p.inv_step, 1 as real / exact::number32(p.step))
    &&& exact::is32(p.inv_gs, 1 as real / exact::number32(p.gs))
}

/// How far along the grid the depth `v` lies, in samples, under either set of formulas.
proof fn lemma_place<A: Arith>(m: A, v: u32, p: WellParams)
    requires
        exact::faithful32(m),
        exact_params(p),
        ieee::finite32(v),
        exact::fits32(exact::number32(v) - exact::number32(p.vmin)),
        exact::fits32(
            (exact::number32(v) - exact::number32(p.vmin)) / exact::number32(p.step),
        ),
    ensures
        ({
            let d = arith::difference32(m, v, p.vmin);
            let at = (exact::number32(v) - exact::number32(p.vmin)) / exact::number32(p.step);
            &&& exact::is32(arith::quotient32(m, d, p.step), at)
            &&& exact::is32(arith::product32(m, d, p.inv_step), at)
        }),
{
    exact::lemma_difference32(m, v, p.vmin);
    let d = arith::difference32(m, v, p.vmin);
    exact::lemma_quotient32(m, d, p.step);
    exact::lemma_product32(m, d, p.inv_step);
    let (n, s) = (exact::number32(d), exact::number32(p.step));
    assert(n * (1 as real / s) == n / s) by (nonlinear_arith)
        requires
            s > 0 as real,
    ;
}

/// The type-well value at a depth is on the straight line between the two grid samples
/// around it, rounded once: at depth `vmin + (i + t) * step` it is `1 - t` parts of
/// sample `i` and `t` parts of the next.
pub proof fn lemma_lookup_is_on_the_line<A: Arith>(
    m: A,
    f: Formulas,
    grid: Seq<u32>,
    v: u32,
    p: WellParams,
    i: int,
    t: real,
)
    requires
        exact::faithful32(m),
        exact_params(p),
        grid.len() <= 0x100_0000,
        0 <= i < grid.len() - 1,
        ieee::finite32(grid[i]) && ieee::finite32(grid[i + 1]),
        0 as real <= t < 1 as real,
        ieee::finite32(v),
        exact::number32(v) == exact::number32(p.vmin) + (i as real + t) * exact::number32(p.step),
        exact::fits32((i as real + t) * exact::number32(p.step)),
        exact::fits32(i as real + t),
        exact::fits32(t),
        exact::fits32(1 as real - t),
        exact::fits32(exact::number32(grid[i]) * (1 as real - t)),
        exact::fits32(exact::number32(grid[i + 1]) * t),
    ensures
        exact::near32(
            filter::looked_up(m, f, grid, v, p),
            exact::number32(grid[i]) + t * (exact::number32(grid[i + 1]) - exact::number32(
                grid[i],
            )),
        ),
        t == 0 as real ==> exact::is32(
            filter::looked_up(m, f, grid, v, p),
            exact::number32(grid[i]),
        ),
{
    exact::lemma_constants32();
    let d = exact::number32(p.step);
    let at = i as real + t;
    assert((at * d) / d == at) by (nonlinear_arith)
        requires
            d > 0 as real,
    ;
    lemma_place(m, v, p);
    let diff = arith::difference32(m, v, p.vmin);
    let fi = match f {
        Formulas::Plain => arith::quotient32(m, diff, p.step),
        Formulas::Pinned => arith::product32(m, diff, p.inv_step),
    };
    assert(exact::is32(fi, at));
    exact::lemma_order32(fi, ieee::ZERO32);
    exact::lemma_order32(ieee::ZERO32, fi);
    lemma2_to64();
    lemma2_to64_rest();
    assert(pow2(64) as real > 0x100_0000 as real);
    exact::lemma_int_of32(m, fi);
    let c = arith::int_of32(m, fi) as int;
    assert(c == i) by {
        assert(c as real <= at && at < c as real + 1 as real);
        assert(i as real <= at && at < (i + 1) as real);
    }
    assert(kernel::int_of_u32(m, fi) == i);
    exact::lemma_of_int32(m, i as u64);
    exact::lemma_difference32(m, fi, arith::of_int32(m, i as u64));
    let ft = arith::difference32(m, fi, arith::of_int32(m, i as u64));
    assert(exact::is32(ft, t));
    exact::lemma_difference32(m, ieee::ONE32, ft);
    let rest = arith::difference32(m, ieee::ONE32, ft);
    exact::lemma_product32(m, grid[i], rest);
    exact::lemma_product32(m, grid[i + 1], ft);
    let (a, b) = (arith::product32(m, grid[i], rest), arith::product32(m, grid[i + 1], ft));
    exact::lemma_sum32(m, a, b);
    exact::lemma_fused32(m, grid[i], rest, b);
    let (y0, y1) = (exact::number32(grid[i]), exact::number32(grid[i + 1]));
    assert(y0 * (1 as real - t) + y1 * t == y0 + t * (y1 - y0)) by (nonlinear_arith);
    if t == 0 as real {
        assert(t * (y1 - y0) == 0 as real) by (nonlinear_arith)
            requires
                t == 0 as real,
        ;
        assert(exact::number32(grid[i]) == y0);
        exact::lemma_near_is32(filter::looked_up(m, f, grid, v, p), y0);
    }
}

/// Beyond the grid the lookup reads its first or its last sample.
pub proof fn lemma_lookup_holds_the_ends<A: Arith>(
    m: A,
    f: Formulas,
    grid: Seq<u32>,
    v: u32,
    p: WellParams,
)
    requires
        exact::faithful32(m),
        exact_params(p),
        0 < grid.len() <= 0x100_0000,
        ieee::finite32(v),
        exact::fits32(exact::number32(v) - exact::number32(p.vmin)),
        exact::fits32(
            (exact::number32(v) - exact::number32(p.vmin)) / exact::number32(p.step),
        ),
        (exact::number32(v) - exact::number32(p.vmin)) / exact::number32(p.step) < pow2(
            64,
        ) as real,
    ensures
        exact::number32(v) < exact::number32(p.vmin) ==> filter::looked_up(m, f, grid, v, p)
            == grid[0],
        exact::number32(v) >= exact::number32(p.vmin) + (grid.len() - 1) as real
            * exact::number32(p.step) ==> filter::looked_up(m, f, grid, v, p) == grid[grid.len()
            - 1],
{
    exact::lemma_constants32();
    lemma_place(m, v, p);
    let d = exact::number32(p.step);
    let off = exact::number32(v) - exact::number32(p.vmin);
    let at = off / d;
    let last = (grid.len() - 1) as real;
    assert(off < 0 as real ==> at < 0 as real) by (nonlinear_arith)
        requires
            d > 0 as real,
            at == off / d,
    ;
    assert(off >= last * d ==> at >= last) by (nonlinear_arith)
        requires
            d > 0 as real,
            at == off / d,
    ;
    assert(last * d >= 0 as real) by (nonlinear_arith)
        requires
            d > 0 as real,
            last >= 0 as real,
    ;
    let diff = arith::difference32(m, v, p.vmin);
    let fi = match f {
        Formulas::Plain => arith::quotient32(m, diff, p.step),
        Formulas::Pinned => arith::product32(m, diff, p.inv_step),
    };
    exact::lemma_order32(fi, ieee::ZERO32);
    exact::lemma_order32(ieee::ZERO32, fi);
    if off >= last * d {
        assert(at >= 0 as real);
        exact::lemma_int_of32(m, fi);
        let c = arith::int_of32(m, fi) as int;
        assert(c >= grid.len() - 1) by {
            assert(last <= at && at < c as real + 1 as real);
        }
        assert(kernel::int_of_u32(m, fi) >= grid.len() - 1);
    }
}

} // verus!
