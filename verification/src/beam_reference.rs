//! The beam search on one processor: smoothing, the search itself and the ensemble.
//!
//! The search keeps the cheapest `beam_size` hypotheses, each an index into the
//! type-well log, and moves every one of them by up to two samples per evaluation
//! row. Of several hypotheses on one sample the cheapest survives; equal costs go
//! to the lower candidate slot. After the last row the cheapest slot is traced back
//! through its ancestors.
use vstd::prelude::*;
use crate::arith;
use crate::arith::Arith;
use crate::beam;
use crate::beam::{
    smoothing_planes, BeamConfig, BeamOptions, BeamOutput, BeamWellInput, FlatBeamBatch,
    SmoothingKind,
};
use crate::error::PfError;
use crate::ieee;
use crate::layout;

verus! {

/// Cost of a slot that holds no hypothesis: `1e30`.
pub const BEAM_INF: u64 = 0x4629_3E59_39A0_8CEA;

/// Costs from here on mark a slot as dead: `5e29`.
pub const BEAM_DEAD: u64 = 0x4619_3E59_39A0_8CEA;

// ---------------------------------------------------------------------------
// Smoothing
// ---------------------------------------------------------------------------

/// Sum of `xs[lo..hi]`, added up from the left.
pub open spec fn sum_of<A: Arith>(m: A, xs: Seq<u64>, lo: int, hi: int) -> u64
    decreases hi - lo,
{
    if hi <= lo {
        ieee::ZERO64
    } else {
        arith::sum64(m, sum_of(m, xs, lo, hi - 1), xs[hi - 1])
    }
}

/// First row of the window of radius `r` around row `i`.
pub open spec fn window_start(r: int, i: int) -> int {
    if i < r {
        0
    } else {
        i - r
    }
}

/// One past the last row of the window of radius `r` around row `i` of `n`.
pub open spec fn window_end(n: int, r: int, i: int) -> int {
    if i + r + 1 < n {
        i + r + 1
    } else {
        n
    }
}

/// Mean of the part of the window around row `i` that lies inside the log.
pub open spec fn rolling_mean<A: Arith>(m: A, gr: Seq<u64>, r: int, i: int) -> u64 {
    let lo = window_start(r, i);
    let hi = window_end(gr.len() as int, r, i);
    arith::quotient64(m, sum_of(m, gr, lo, hi), arith::of_int64(m, (hi - lo) as u64))
}

/// First row of the full window that serves row `i`: shifted inwards at the ends.
pub open spec fn fit_start(n: int, r: int, i: int) -> int {
    if i < r {
        0
    } else if i + r >= n {
        n - (2 * r + 1)
    } else {
        i - r
    }
}

/// Moments of a fit window: of the positions (`s0`, `s2`, `s4`) and of the values
/// against them (`t0`, `t1`, `t2`).
pub struct Moments {
    pub s0: u64,
    pub s2: u64,
    pub s4: u64,
    pub t0: u64,
    pub t1: u64,
    pub t2: u64,
}

/// Position `j` of a window of radius `r`, measured from its centre.
pub open spec fn centred<A: Arith>(m: A, r: int, j: int) -> u64 {
    arith::difference64(m, arith::of_int64(m, j as u64), arith::of_int64(m, r as u64))
}

/// Moments of the first `k` rows of the window that starts at row `s`.
pub open spec fn moments<A: Arith>(m: A, gr: Seq<u64>, r: int, s: int, k: int) -> Moments
    decreases k,
{
    if k <= 0 {
        Moments {
            s0: ieee::ZERO64,
            s2: ieee::ZERO64,
            s4: ieee::ZERO64,
            t0: ieee::ZERO64,
            t1: ieee::ZERO64,
            t2: ieee::ZERO64,
        }
    } else {
        let p = moments(m, gr, r, s, k - 1);
        let x = centred(m, r, k - 1);
        let x2 = arith::product64(m, x, x);
        let y = gr[s + k - 1];
        Moments {
            s0: arith::sum64(m, p.s0, ieee::ONE64),
            s2: arith::sum64(m, p.s2, x2),
            s4: arith::sum64(m, p.s4, arith::product64(m, x2, x2)),
            t0: arith::sum64(m, p.t0, y),
            t1: arith::sum64(m, p.t1, arith::product64(m, x, y)),
            t2: arith::sum64(m, p.t2, arith::product64(m, x2, y)),
        }
    }
}

/// The quadratic with moments `p`, at `xe`.
pub open spec fn quadratic_at<A: Arith>(m: A, p: Moments, xe: u64) -> u64 {
    let det = arith::difference64(
        m,
        arith::product64(m, p.s0, p.s4),
        arith::product64(m, p.s2, p.s2),
    );
    let a0 = arith::quotient64(
        m,
        arith::difference64(
            m,
            arith::product64(m, p.t0, p.s4),
            arith::product64(m, p.t2, p.s2),
        ),
        det,
    );
    let a1 = arith::quotient64(m, p.t1, p.s2);
    let a2 = arith::quotient64(
        m,
        arith::difference64(
            m,
            arith::product64(m, p.t2, p.s0),
            arith::product64(m, p.t0, p.s2),
        ),
        det,
    );
    arith::sum64(
        m,
        arith::sum64(m, a0, arith::product64(m, a1, xe)),
        arith::product64(m, arith::product64(m, a2, xe), xe),
    )
}

/// Least-squares quadratic through the window that serves row `i`, at that row.
pub open spec fn quadratic_fit<A: Arith>(m: A, gr: Seq<u64>, r: int, i: int) -> u64 {
    let s = fit_start(gr.len() as int, r, i);
    let xe = arith::difference64(
        m,
        arith::difference64(m, arith::of_int64(m, i as u64), arith::of_int64(m, s as u64)),
        arith::of_int64(m, r as u64),
    );
    quadratic_at(m, moments(m, gr, r, s, 2 * r + 1), xe)
}

/// Whether smoothing hands the log through: there is no window, or the log is too
/// short for a fit.
pub open spec fn unsmoothed(n: int, r: int, kind: SmoothingKind) -> bool {
    r == 0 || (kind == SmoothingKind::SavitzkyGolay && (n <= 3 || n <= 2 * r + 1))
}

/// Row `i` of the smoothed log.
pub open spec fn smoothed<A: Arith>(m: A, gr: Seq<u64>, r: int, kind: SmoothingKind, i: int) -> u64 {
    if unsmoothed(gr.len() as int, r, kind) {
        gr[i]
    } else {
        match kind {
            SmoothingKind::RollingMean => rolling_mean(m, gr, r, i),
            SmoothingKind::SavitzkyGolay => quadratic_fit(m, gr, r, i),
        }
    }
}

/// Smooths the gamma ray of one well with a window of `2 * radius + 1` rows.
///
/// `out` has a row for each of the well's. A mean may be asked for fewer, or for rows
/// past the end whose window still touches the log; a fit for any, as it extends beyond
/// the log.
pub fn sg_smooth<A: Arith>(
    m: &A,
    gr: &[u64],
    radius: u32,
    out: &mut [u64],
    kind: SmoothingKind,
)
    requires
        unsmoothed(gr@.len() as int, radius as int, kind) ==> old(out)@.len() == gr@.len(),
        kind == SmoothingKind::RollingMean ==> old(out)@.len() <= gr@.len() + radius + 1,
    ensures
        final(out)@.len() == old(out)@.len(),
        unsmoothed(gr@.len() as int, radius as int, kind) ==> final(out)@ == gr@,
        arith::deterministic(*m) ==> forall|i: int|
            0 <= i < old(out)@.len() ==> #[trigger] final(out)@[i] == smoothed(
                *m,
                gr@,
                radius as int,
                kind,
                i,
            ),
{
    let n = gr.len();
    if radius == 0 {
        copy_rows(gr, out);
        return;
    }
    let rows = out.len();
    match kind {
        SmoothingKind::RollingMean => {
            let mut i: usize = 0;
            while i < rows
                invariant
                    i <= rows,
                    rows <= n + radius + 1,
                    n == gr@.len(),
                    out@.len() == rows,
                    arith::deterministic(*m) ==> forall|j: int|
                        0 <= j < i ==> #[trigger] out@[j] == rolling_mean(*m, gr@, radius as int, j),
                decreases rows - i,
            {
                let v = rolling_mean_at(m, gr, radius, i);
                out[i] = v;
                i = i + 1;
            }
        },
        SmoothingKind::SavitzkyGolay => {
            if n <= 3 || n as u64 <= 2 * radius as u64 + 1 {
                copy_rows(gr, out);
                return;
            }
            let mut i: usize = 0;
            while i < rows
                invariant
                    i <= rows,
                    n == gr@.len(),
                    n > 2 * radius + 1,
                    out@.len() == rows,
                    arith::deterministic(*m) ==> forall|j: int|
                        0 <= j < i ==> #[trigger] out@[j] == quadratic_fit(
                            *m,
                            gr@,
                            radius as int,
                            j,
                        ),
                decreases rows - i,
            {
                let v = quadratic_fit_at(m, gr, radius, i);
                out[i] = v;
                i = i + 1;
            }
        },
    }
}

/// Copies `src` over `out`.
fn copy_rows(src: &[u64], out: &mut [u64])
    requires
        old(out)@.len() == src@.len(),
    ensures
        final(out)@ == src@,
{
    let n = src.len();
    let mut i: usize = 0;
    while i < n
        invariant
            i <= n,
            n == src@.len(),
            out@.len() == n,
            forall|j: int| 0 <= j < i ==> #[trigger] out@[j] == src@[j],
        decreases n - i,
    {
        out[i] = src[i];
        i = i + 1;
    }
    assert(out@ =~= src@);
}

/// Mean of the part of the window around row `i` that lies inside the log.
fn rolling_mean_at<A: Arith>(m: &A, gr: &[u64], radius: u32, i: usize) -> (v: u64)
    requires
        i <= gr@.len() + radius,
    ensures
        arith::deterministic(*m) ==> v == rolling_mean(*m, gr@, radius as int, i as int),
{
    let n = gr.len();
    let r: usize = radius as usize;
    let lo: usize = if i < r {
        0
    } else {
        i - r
    };
    let hi: usize = if i < n && r < n - i - 1 {
        i + r + 1
    } else {
        n
    };
    let mut acc: u64 = ieee::ZERO64;
    let mut j: usize = lo;
    while j < hi
        invariant
            lo <= j <= hi <= n,
            n == gr@.len(),
            arith::deterministic(*m) ==> acc == sum_of(*m, gr@, lo as int, j as int),
        decreases hi - j,
    {
        acc = arith::add64(m, acc, gr[j]);
        j = j + 1;
    }
    let count = arith::from_int64(m, (hi - lo) as u64);
    arith::div64(m, acc, count)
}

/// Least-squares quadratic through the window that serves row `i`, at that row.
fn quadratic_fit_at<A: Arith>(m: &A, gr: &[u64], radius: u32, i: usize) -> (v: u64)
    requires
        gr@.len() > 2 * radius + 1,
    ensures
        arith::deterministic(*m) ==> v == quadratic_fit(*m, gr@, radius as int, i as int),
{
    let n = gr.len();
    let r: usize = radius as usize;
    let w: usize = 2 * r + 1;
    let s: usize = if i < r {
        0
    } else if i >= n || r >= n - i {
        n - w
    } else {
        i - r
    };
    let fr = arith::from_int64(m, r as u64);
    let fi = arith::from_int64(m, i as u64);
    let fs = arith::from_int64(m, s as u64);
    let from_start = arith::sub64(m, fi, fs);
    let xe = arith::sub64(m, from_start, fr);

    let mut s0: u64 = ieee::ZERO64;
    let mut s2: u64 = ieee::ZERO64;
    let mut s4: u64 = ieee::ZERO64;
    let mut t0: u64 = ieee::ZERO64;
    let mut t1: u64 = ieee::ZERO64;
    let mut t2: u64 = ieee::ZERO64;
    let mut j: usize = 0;
    while j < w
        invariant
            j <= w,
            w == 2 * r + 1,
            s + w <= n,
            n == gr@.len(),
            arith::deterministic(*m) ==> fr == arith::of_int64(*m, r as u64),
            arith::deterministic(*m) ==> (Moments { s0, s2, s4, t0, t1, t2 }) == moments(
                *m,
                gr@,
                r as int,
                s as int,
                j as int,
            ),
        decreases w - j,
    {
        let fj = arith::from_int64(m, j as u64);
        let x = arith::sub64(m, fj, fr);
        let x2 = arith::mul64(m, x, x);
        let y = gr[s + j];
        s0 = arith::add64(m, s0, ieee::ONE64);
        s2 = arith::add64(m, s2, x2);
        let x4 = arith::mul64(m, x2, x2);
        s4 = arith::add64(m, s4, x4);
        t0 = arith::add64(m, t0, y);
        let xy = arith::mul64(m, x, y);
        t1 = arith::add64(m, t1, xy);
        let x2y = arith::mul64(m, x2, y);
        t2 = arith::add64(m, t2, x2y);
        j = j + 1;
    }
    let s0s4 = arith::mul64(m, s0, s4);
    let s2s2 = arith::mul64(m, s2, s2);
    let det = arith::sub64(m, s0s4, s2s2);
    let t0s4 = arith::mul64(m, t0, s4);
    let t2s2 = arith::mul64(m, t2, s2);
    let n0 = arith::sub64(m, t0s4, t2s2);
    let a0 = arith::div64(m, n0, det);
    let a1 = arith::div64(m, t1, s2);
    let t2s0 = arith::mul64(m, t2, s0);
    let t0s2 = arith::mul64(m, t0, s2);
    let n2 = arith::sub64(m, t2s0, t0s2);
    let a2 = arith::div64(m, n2, det);
    let linear = arith::mul64(m, a1, xe);
    let a2x = arith::mul64(m, a2, xe);
    let square = arith::mul64(m, a2x, xe);
    let below = arith::add64(m, a0, linear);
    arith::add64(m, below, square)
}

// ---------------------------------------------------------------------------
// Start of the search
// ---------------------------------------------------------------------------

/// Where a binary search of `tw[lo..hi]` for the first sample not below `v` ends.
pub open spec fn partition_point(tw: Seq<u64>, lo: int, hi: int, v: u64) -> int
    decreases hi - lo,
{
    if lo >= hi {
        lo
    } else if ieee::less64(tw[(lo + hi) / 2], v) {
        partition_point(tw, (lo + hi) / 2 + 1, hi, v)
    } else {
        partition_point(tw, lo, (lo + hi) / 2, v)
    }
}

/// First sample of the run of equal samples that ends at `i`.
pub open spec fn run_start(tw: Seq<u64>, i: int) -> int
    decreases i,
{
    if i > 0 && ieee::equal64(tw[i - 1], tw[i]) {
        run_start(tw, i - 1)
    } else {
        i
    }
}

/// Whether the sample below the partition point `lo` is at least as near `v` as
/// the one at it.
pub open spec fn below_is_nearer<A: Arith>(m: A, tw: Seq<u64>, v: u64, lo: int) -> bool {
    let d_prev = arith::difference64(m, v, tw[lo - 1]);
    let d_cur = if lo < tw.len() {
        arith::difference64(m, tw[lo], v)
    } else {
        BEAM_INF
    };
    lo > 0 && ieee::at_most64(d_prev, d_cur)
}

/// Index of the type-well sample nearest `v`, ties going to the lower index.
pub open spec fn nearest<A: Arith>(m: A, tw: Seq<u64>, v: u64) -> int {
    let lo = partition_point(tw, 0, tw.len() as int, v);
    if below_is_nearer(m, tw, v, lo) {
        run_start(tw, lo - 1)
    } else if lo < tw.len() {
        lo
    } else {
        tw.len() - 1
    }
}

/// Index of the type-well sample nearest `v`, ties going to the lower index.
pub fn nearest_index<A: Arith>(m: &A, tw: &[u64], v: u64) -> (r: usize)
    requires
        tw@.len() > 0,
    ensures
        r < tw@.len(),
        arith::deterministic(*m) ==> r == nearest(*m, tw@, v),
{
    let n = tw.len();
    let mut lo: usize = 0;
    let mut hi: usize = n;
    while lo < hi
        invariant
            lo <= hi <= n,
            n == tw@.len(),
            partition_point(tw@, lo as int, hi as int, v) == partition_point(tw@, 0, n as int, v),
        decreases hi - lo,
    {
        let mid: usize = lo + (hi - lo) / 2;
        assert(mid == (lo + hi) / 2);
        if ieee::lt64(tw[mid], v) {
            lo = mid + 1;
        } else {
            hi = mid;
        }
    }
    let mut si: usize = if lo < n {
        lo
    } else {
        n - 1
    };
    if lo > 0 {
        let d_prev = arith::sub64(m, v, tw[lo - 1]);
        let d_cur = if lo < n {
            arith::sub64(m, tw[lo], v)
        } else {
            BEAM_INF
        };
        if ieee::le64(d_prev, d_cur) {
            si = lo - 1;
            while si > 0 && ieee::eq64(tw[si - 1], tw[si])
                invariant
                    si < n,
                    n == tw@.len(),
                    run_start(tw@, si as int) == run_start(tw@, lo - 1),
                ensures
                    si < n,
                    si == run_start(tw@, lo - 1),
                decreases si,
            {
                si = si - 1;
            }
        }
    }
    si
}

/// In an ascending log no sample lies strictly between `v` and the one the search
/// starts on, and of a run of equal samples it starts on the first. A `v` so far
/// beyond the log that its distance is not at most `1e30` starts on the last sample
/// as it is.
pub proof fn lemma_nearest_is_a_neighbour<A: Arith>(m: A, tw: Seq<u64>, v: u64)
    requires
        tw.len() > 0,
        !ieee::nan64(v),
        forall|i: int, j: int|
            0 <= i <= j < tw.len() ==> ieee::at_most64(#[trigger] tw[i], #[trigger] tw[j]),
    ensures
        ({
            let r = nearest(m, tw, v);
            &&& 0 <= r < tw.len()
            &&& forall|i: int|
                0 <= i < tw.len() ==> !(ieee::less64(tw[r], #[trigger] tw[i]) && ieee::less64(
                    tw[i],
                    v,
                ))
            &&& forall|i: int|
                0 <= i < tw.len() ==> !(ieee::less64(v, #[trigger] tw[i]) && ieee::less64(
                    tw[i],
                    tw[r],
                ))
            &&& (ieee::at_most64(v, tw.last()) || ieee::at_most64(
                arith::difference64(m, v, tw.last()),
                BEAM_INF,
            )) ==> forall|i: int| 0 <= i < r ==> ieee::less64(#[trigger] tw[i], tw[r])
        }),
{
    let n = tw.len() as int;
    lemma_partition_point(tw, 0, n, v);
    let lo = partition_point(tw, 0, n, v);
    let r = nearest(m, tw, v);
    if lo > 0 {
        lemma_run_start(tw, lo - 1);
        assert(ieee::less64(tw[lo - 1], v));
    }
    assert(ieee::at_most64(tw[0], tw[0]));
    assert forall|i: int| 0 <= i < n implies !(ieee::less64(tw[r], #[trigger] tw[i])
        && ieee::less64(tw[i], v)) && !(ieee::less64(v, tw[i]) && ieee::less64(tw[i], tw[r])) by {
        assert(ieee::at_most64(tw[i], tw[i]));
        if i < lo {
            assert(ieee::at_most64(tw[i], tw[lo - 1]));
            assert(ieee::less64(tw[i], v));
        } else {
            assert(ieee::at_most64(tw[lo], tw[i]));
        }
    }
    if ieee::at_most64(v, tw.last()) || ieee::at_most64(
        arith::difference64(m, v, tw.last()),
        BEAM_INF,
    ) {
        assert forall|i: int| 0 <= i < r implies ieee::less64(#[trigger] tw[i], tw[r]) by {
            assert(ieee::at_most64(tw[i], tw[r - 1]));
            assert(ieee::at_most64(tw[r - 1], tw[r]));
            if below_is_nearer(m, tw, v, lo) {
                assert(!ieee::equal64(tw[r - 1], tw[r]));
            } else {
                assert(lo < n);
                assert(ieee::less64(tw[r - 1], v));
            }
        }
    }
}

/// Distance between `v` and a sample, as the search measures it.
pub open spec fn gap<A: Arith>(m: A, v: u64, x: u64) -> u64 {
    if ieee::less64(x, v) {
        arith::difference64(m, v, x)
    } else {
        arith::difference64(m, x, v)
    }
}

/// Rounding keeps the order of distances: on either side of `v`, of two samples the
/// one further off is never measured as the nearer one.
pub open spec fn gaps_grow<A: Arith>(m: A, tw: Seq<u64>, v: u64) -> bool {
    &&& forall|i: int, j: int|
        0 <= i < tw.len() && 0 <= j < tw.len() && ieee::at_most64(
            #[trigger] tw[i],
            #[trigger] tw[j],
        ) && ieee::less64(tw[j], v) ==> ieee::at_most64(gap(m, v, tw[j]), gap(m, v, tw[i]))
    &&& forall|i: int, j: int|
        0 <= i < tw.len() && 0 <= j < tw.len() && ieee::at_most64(
            #[trigger] tw[i],
            #[trigger] tw[j],
        ) && ieee::at_most64(v, tw[i]) ==> ieee::at_most64(gap(m, v, tw[i]), gap(m, v, tw[j]))
}

/// Rounding keeps different samples below `v` at different distances.
pub open spec fn gaps_differ<A: Arith>(m: A, tw: Seq<u64>, v: u64) -> bool {
    forall|i: int, j: int|
        0 <= i < tw.len() && 0 <= j < tw.len() && ieee::less64(#[trigger] tw[i], #[trigger] tw[j])
            && ieee::less64(tw[j], v) ==> ieee::less64(gap(m, v, tw[j]), gap(m, v, tw[i]))
}

/// In an ascending log, where rounding keeps the order of distances, no sample is
/// nearer `v` than the one the search starts on; where it keeps them apart as well,
/// that sample is the first of the nearest. A `v` so far beyond the log that its
/// distance is not at most `1e30` starts on the last sample, nearest or not.
pub proof fn lemma_nearest_is_the_first_minimiser<A: Arith>(m: A, tw: Seq<u64>, v: u64)
    requires
        tw.len() > 0,
        !ieee::nan64(v),
        forall|i: int, j: int|
            0 <= i <= j < tw.len() ==> ieee::at_most64(#[trigger] tw[i], #[trigger] tw[j]),
        gaps_grow(m, tw, v),
    ensures
        ({
            let r = nearest(m, tw, v);
            &&& 0 <= r < tw.len()
            &&& forall|i: int|
                0 <= i < tw.len() ==> ieee::at_most64(gap(m, v, tw[r]), gap(m, v, #[trigger] tw[i]))
            &&& gaps_differ(m, tw, v) && (ieee::at_most64(v, tw.last()) || ieee::at_most64(
                arith::difference64(m, v, tw.last()),
                BEAM_INF,
            )) ==> forall|i: int|
                0 <= i < r ==> ieee::less64(gap(m, v, tw[r]), gap(m, v, #[trigger] tw[i]))
        }),
{
    let n = tw.len() as int;
    lemma_nearest_is_a_neighbour(m, tw, v);
    lemma_partition_point(tw, 0, n, v);
    let lo = partition_point(tw, 0, n, v);
    let r = nearest(m, tw, v);
    assert(ieee::at_most64(tw[r], tw[r]));
    if lo > 0 {
        lemma_run_start(tw, lo - 1);
        assert(ieee::at_most64(tw[lo - 1], tw[lo - 1]));
        assert(ieee::less64(tw[lo - 1], v));
        assert(ieee::at_most64(gap(m, v, tw[lo - 1]), gap(m, v, tw[lo - 1])));
    }
    if lo < n {
        assert(ieee::at_most64(tw[lo], tw[lo]));
        assert(ieee::at_most64(v, tw[lo]));
        assert(ieee::at_most64(gap(m, v, tw[lo]), gap(m, v, tw[lo])));
    }
    assert forall|i: int| 0 <= i < n implies ieee::at_most64(
        gap(m, v, tw[r]),
        gap(m, v, #[trigger] tw[i]),
    ) by {
        if i < lo {
            assert(ieee::at_most64(tw[i], tw[lo - 1]));
            assert(ieee::at_most64(gap(m, v, tw[lo - 1]), gap(m, v, tw[i])));
        } else {
            assert(ieee::at_most64(tw[lo], tw[i]));
            assert(ieee::at_most64(gap(m, v, tw[lo]), gap(m, v, tw[i])));
        }
        if below_is_nearer(m, tw, v, lo) {
            assert(ieee::at_most64(tw[lo - 1], tw[r]));
            assert(ieee::at_most64(gap(m, v, tw[r]), gap(m, v, tw[lo - 1])));
        }
    }
    if gaps_differ(m, tw, v) && (ieee::at_most64(v, tw.last()) || ieee::at_most64(
        arith::difference64(m, v, tw.last()),
        BEAM_INF,
    )) {
        assert forall|i: int| 0 <= i < r implies ieee::less64(
            gap(m, v, tw[r]),
            gap(m, v, #[trigger] tw[i]),
        ) by {
            assert(ieee::less64(tw[i], tw[r]));
            if below_is_nearer(m, tw, v, lo) {
                assert(ieee::less64(tw[r], v));
            } else {
                assert(lo < n && r == lo && lo > 0);
                assert(ieee::at_most64(tw[i], tw[lo - 1]));
                assert(ieee::at_most64(gap(m, v, tw[lo - 1]), gap(m, v, tw[i])));
                assert(!ieee::at_most64(gap(m, v, tw[lo - 1]), gap(m, v, tw[lo])));
            }
        }
    }
}

proof fn lemma_partition_point(tw: Seq<u64>, lo: int, hi: int, v: u64)
    requires
        0 <= lo <= hi <= tw.len(),
        !ieee::nan64(v),
        forall|i: int, j: int|
            0 <= i <= j < tw.len() ==> ieee::at_most64(#[trigger] tw[i], #[trigger] tw[j]),
        forall|i: int| 0 <= i < lo ==> ieee::less64(#[trigger] tw[i], v),
        hi < tw.len() ==> !ieee::less64(tw[hi], v),
    ensures
        ({
            let r = partition_point(tw, lo, hi, v);
            &&& lo <= r <= hi
            &&& forall|i: int| 0 <= i < r ==> ieee::less64(#[trigger] tw[i], v)
            &&& r < tw.len() ==> !ieee::less64(tw[r], v)
        }),
    decreases hi - lo,
{
    if lo < hi {
        let mid = (lo + hi) / 2;
        if ieee::less64(tw[mid], v) {
            assert forall|i: int| 0 <= i < mid + 1 implies ieee::less64(#[trigger] tw[i], v) by {
                assert(ieee::at_most64(tw[i], tw[mid]));
            }
            lemma_partition_point(tw, mid + 1, hi, v);
        } else {
            lemma_partition_point(tw, lo, mid, v);
        }
    }
}

proof fn lemma_run_start(tw: Seq<u64>, i: int)
    requires
        0 <= i < tw.len(),
        !ieee::nan64(tw[i]),
    ensures
        ({
            let r = run_start(tw, i);
            &&& 0 <= r <= i
            &&& ieee::equal64(tw[r], tw[i])
            &&& r > 0 ==> !ieee::equal64(tw[r - 1], tw[r])
        }),
    decreases i,
{
    if i > 0 && ieee::equal64(tw[i - 1], tw[i]) {
        lemma_run_start(tw, i - 1);
    }
}

// ---------------------------------------------------------------------------
// One step of the search
// ---------------------------------------------------------------------------

/// The hypotheses of the search: the type-well sample and the cost of each slot.
pub struct Beam {
    pub idx: Seq<u32>,
    pub cost: Seq<u64>,
}

/// What the hypotheses of a beam move to: five candidates per slot.
pub struct Candidates {
    pub idx: Seq<u32>,
    pub cost: Seq<u64>,
}

/// Sample that candidate `u` of a beam lies on. Candidate `u` moves the hypothesis
/// in slot `u / 5` by `u % 5 - 2`.
pub open spec fn target(b: Beam, u: int) -> int {
    b.idx[u / 5] + u % 5 - 2
}

/// Samples moved by candidate `u`, up or down.
pub open spec fn distance(u: int) -> int {
    if u % 5 < 2 {
        2 - u % 5
    } else {
        u % 5 - 2
    }
}

/// Whether candidate `u` is a move of a live hypothesis that stays on a log of `nt`
/// samples.
pub open spec fn reachable(b: Beam, nt: int, u: int) -> bool {
    ieee::less64(b.cost[u / 5], BEAM_DEAD) && 0 <= target(b, u) < nt
}

/// Cost of a hypothesis that cost `base` and moves `steps` samples onto one that
/// reads `tw` where the well reads `gv`.
pub open spec fn moved_cost<A: Arith>(
    m: A,
    base: u64,
    gv: u64,
    tw: u64,
    steps: int,
    cfg: BeamConfig,
) -> u64 {
    let d = arith::difference64(m, gv, tw);
    let mismatch = arith::quotient64(m, arith::product64(m, d, d), cfg.err_scale);
    arith::sum64(
        m,
        arith::sum64(m, base, mismatch),
        arith::product64(m, cfg.move_cost, arith::of_int64(m, steps as u64)),
    )
}

/// Candidate `u`'s sample; zero where it is not reachable.
pub open spec fn candidate_idx(b: Beam, nt: int, u: int) -> u32 {
    if reachable(b, nt, u) {
        target(b, u) as u32
    } else {
        0
    }
}

/// Candidate `u`'s cost.
pub open spec fn candidate_cost<A: Arith>(
    m: A,
    b: Beam,
    gv: u64,
    tw_gr: Seq<u64>,
    nt: int,
    cfg: BeamConfig,
    u: int,
) -> u64 {
    if reachable(b, nt, u) {
        moved_cost(m, b.cost[u / 5], gv, tw_gr[target(b, u)], distance(u), cfg)
    } else {
        BEAM_INF
    }
}

/// Candidates of a beam for a row that reads `gv`.
pub open spec fn expanded<A: Arith>(
    m: A,
    b: Beam,
    gv: u64,
    tw_gr: Seq<u64>,
    nt: int,
    cfg: BeamConfig,
) -> Candidates {
    Candidates {
        idx: Seq::new(5 * b.idx.len(), |u: int| candidate_idx(b, nt, u)),
        cost: Seq::new(5 * b.idx.len(), |u: int| candidate_cost(m, b, gv, tw_gr, nt, cfg, u)),
    }
}

/// Candidate `v` is cheaper than `u`, or as cheap and in a lower slot.
pub open spec fn ahead(c: Candidates, v: int, u: int) -> bool {
    ieee::less64(c.cost[v], c.cost[u]) || (ieee::equal64(c.cost[v], c.cost[u]) && v < u)
}

/// Candidate `v` is alive on the same sample as `u`, and ahead of it.
pub open spec fn displaces(c: Candidates, v: int, u: int) -> bool {
    ieee::less64(c.cost[v], BEAM_DEAD) && c.idx[v] == c.idx[u] && ahead(c, v, u)
}

/// Candidate `u` is out: dead, or displaced on its own sample.
pub open spec fn dropped(c: Candidates, u: int) -> bool {
    ieee::at_most64(BEAM_DEAD, c.cost[u]) || exists|v: int|
        0 <= v < c.cost.len() && #[trigger] displaces(c, v, u)
}

/// How many of the first `n` candidates are still in and ahead of `u`.
pub open spec fn rank(c: Candidates, u: int, n: int) -> int
    decreases n,
{
    if n <= 0 {
        0
    } else {
        rank(c, u, n - 1) + if !dropped(c, n - 1) && ahead(c, n - 1, u) {
            1int
        } else {
            0
        }
    }
}

/// The last of the first `n` candidates that is still in and ranks `slot`-th; `-1`
/// where there is none.
pub open spec fn holder(c: Candidates, slot: int, n: int) -> int
    decreases n,
{
    if n <= 0 {
        -1
    } else if !dropped(c, n - 1) && rank(c, n - 1, c.cost.len() as int) == slot {
        n - 1
    } else {
        holder(c, slot, n - 1)
    }
}

/// The candidate that takes `slot`; `-1` where the slot stays empty.
pub open spec fn winner(c: Candidates, slot: int) -> int {
    holder(c, slot, c.cost.len() as int)
}

/// Sample recorded for `slot`; zero where it is empty.
pub open spec fn survivor(c: Candidates, slot: int) -> u32 {
    if winner(c, slot) >= 0 {
        c.idx[winner(c, slot)]
    } else {
        0
    }
}

/// Slot that the hypothesis in `slot` came from; zero where it is empty.
pub open spec fn parent(c: Candidates, slot: int) -> u32 {
    if winner(c, slot) >= 0 {
        (winner(c, slot) / 5) as u32
    } else {
        0
    }
}

/// Cost that `slot` is taken at.
pub open spec fn taken_cost(c: Candidates, slot: int) -> u64 {
    if winner(c, slot) >= 0 {
        c.cost[winner(c, slot)]
    } else {
        BEAM_INF
    }
}

/// Sample of `slot` after the step: an empty slot keeps the one it had.
pub open spec fn kept_idx(b: Beam, c: Candidates, slot: int) -> u32 {
    if winner(c, slot) >= 0 {
        c.idx[winner(c, slot)]
    } else {
        b.idx[slot]
    }
}

/// A live cost measured from the cheapest one.
pub open spec fn renormalised<A: Arith>(m: A, cost: u64, best: u64) -> u64 {
    if ieee::less64(cost, BEAM_DEAD) {
        arith::difference64(m, cost, best)
    } else {
        cost
    }
}

/// The beam after a step: the winners of each slot, costs measured from the first.
pub open spec fn advanced<A: Arith>(m: A, b: Beam, c: Candidates) -> Beam {
    Beam {
        idx: Seq::new(b.idx.len(), |s: int| kept_idx(b, c, s)),
        cost: Seq::new(
            b.idx.len(),
            |s: int| renormalised(m, taken_cost(c, s), taken_cost(c, 0)),
        ),
    }
}

/// Expands a beam: every move of every hypothesis, with its cost.
fn expand<A: Arith>(
    m: &A,
    b_idx: &Vec<u32>,
    b_cost: &Vec<u64>,
    gv: u64,
    tw_gr: &[u64],
    nt: usize,
    cfg: &BeamConfig,
) -> (r: (Vec<u32>, Vec<u64>))
    requires
        b_cost@.len() == b_idx@.len(),
        5 * b_idx@.len() <= usize::MAX,
        nt <= tw_gr@.len(),
        nt <= u32::MAX,
    ensures
        r.0@.len() == 5 * b_idx@.len(),
        r.1@.len() == 5 * b_idx@.len(),
        ({
            let b = Beam { idx: b_idx@, cost: b_cost@ };
            &&& forall|u: int|
                0 <= u < 5 * b_idx@.len() ==> #[trigger] r.0@[u] == candidate_idx(b, nt as int, u)
            &&& forall|u: int|
                0 <= u < 5 * b_idx@.len() && !reachable(b, nt as int, u) ==> #[trigger] r.1@[u]
                    == BEAM_INF
            &&& arith::deterministic(*m) ==> (Candidates { idx: r.0@, cost: r.1@ }) == expanded(
                *m,
                b,
                gv,
                tw_gr@,
                nt as int,
                *cfg,
            )
        }),
{
    let n_cand: usize = 5 * b_idx.len();
    let ghost b = Beam { idx: b_idx@, cost: b_cost@ };
    let mut c_idx: Vec<u32> = Vec::new();
    let mut c_cost: Vec<u64> = Vec::new();
    let mut u: usize = 0;
    while u < n_cand
        invariant
            u <= n_cand,
            n_cand == 5 * b_idx@.len(),
            b_cost@.len() == b_idx@.len(),
            nt <= tw_gr@.len(),
            nt <= u32::MAX,
            b == (Beam { idx: b_idx@, cost: b_cost@ }),
            c_idx@.len() == u,
            c_cost@.len() == u,
            forall|v: int| 0 <= v < u ==> #[trigger] c_idx@[v] == candidate_idx(b, nt as int, v),
            forall|v: int|
                0 <= v < u && !reachable(b, nt as int, v) ==> #[trigger] c_cost@[v] == BEAM_INF,
            arith::deterministic(*m) ==> forall|v: int|
                0 <= v < u ==> #[trigger] c_cost@[v] == candidate_cost(
                    *m,
                    b,
                    gv,
                    tw_gr@,
                    nt as int,
                    *cfg,
                    v,
                ),
        decreases n_cand - u,
    {
        let base: u64 = b_idx[u / 5] as u64;
        let bc: u64 = b_cost[u / 5];
        let mv: u64 = (u % 5) as u64;
        let steps: u64 = if mv < 2 {
            2 - mv
        } else {
            mv - 2
        };
        if ieee::lt64(bc, BEAM_DEAD) && base + mv >= 2 && base + mv - 2 < nt as u64 {
            let ni: usize = (base + mv - 2) as usize;
            let d = arith::sub64(m, gv, tw_gr[ni]);
            let dd = arith::mul64(m, d, d);
            let mismatch = arith::div64(m, dd, cfg.err_scale);
            let seen = arith::add64(m, bc, mismatch);
            let fsteps = arith::from_int64(m, steps);
            let penalty = arith::mul64(m, cfg.move_cost, fsteps);
            let cost = arith::add64(m, seen, penalty);
            c_idx.push(ni as u32);
            c_cost.push(cost);
        } else {
            c_idx.push(0);
            c_cost.push(BEAM_INF);
        }
        u = u + 1;
    }
    proof {
        if arith::deterministic(*m) {
            let e = expanded(*m, b, gv, tw_gr@, nt as int, *cfg);
            assert(c_idx@ =~= e.idx);
            assert(c_cost@ =~= e.cost);
        }
    }
    (c_idx, c_cost)
}

/// Whether candidate `u` is out.
fn is_dropped(c_idx: &Vec<u32>, c_cost: &Vec<u64>, u: usize) -> (r: bool)
    requires
        c_idx@.len() == c_cost@.len(),
        u < c_cost@.len(),
    ensures
        r == dropped(Candidates { idx: c_idx@, cost: c_cost@ }, u as int),
{
    let ghost c = Candidates { idx: c_idx@, cost: c_cost@ };
    let n = c_cost.len();
    let cu = c_cost[u];
    let iu = c_idx[u];
    if ieee::le64(BEAM_DEAD, cu) {
        return true;
    }
    let mut v: usize = 0;
    while v < n
        invariant
            v <= n,
            n == c_cost@.len(),
            c_idx@.len() == n,
            u < n,
            cu == c_cost@[u as int],
            iu == c_idx@[u as int],
            c == (Candidates { idx: c_idx@, cost: c_cost@ }),
            forall|w: int| 0 <= w < v ==> !#[trigger] displaces(c, w, u as int),
        decreases n - v,
    {
        let cv = c_cost[v];
        if ieee::lt64(cv, BEAM_DEAD) && c_idx[v] == iu && (ieee::lt64(cv, cu) || (ieee::eq64(cv, cu)
            && v < u)) {
            assert(displaces(c, v as int, u as int));
            return true;
        }
        v = v + 1;
    }
    false
}

/// Rank of candidate `u` among those still in.
fn rank_of(c_idx: &Vec<u32>, c_cost: &Vec<u64>, out: &Vec<bool>, u: usize) -> (r: usize)
    requires
        c_idx@.len() == c_cost@.len(),
        out@.len() == c_cost@.len(),
        u < c_cost@.len(),
        forall|v: int|
            0 <= v < out@.len() ==> #[trigger] out@[v] == dropped(
                Candidates { idx: c_idx@, cost: c_cost@ },
                v,
            ),
    ensures
        r == rank(
            Candidates { idx: c_idx@, cost: c_cost@ },
            u as int,
            c_cost@.len() as int,
        ),
{
    let ghost c = Candidates { idx: c_idx@, cost: c_cost@ };
    let n = c_cost.len();
    let cu = c_cost[u];
    let mut r: usize = 0;
    let mut v: usize = 0;
    while v < n
        invariant
            v <= n,
            r <= v,
            n == c_cost@.len(),
            out@.len() == n,
            u < n,
            cu == c_cost@[u as int],
            c == (Candidates { idx: c_idx@, cost: c_cost@ }),
            forall|w: int| 0 <= w < n ==> #[trigger] out@[w] == dropped(c, w),
            r == rank(c, u as int, v as int),
        decreases n - v,
    {
        if !out[v] {
            let cv = c_cost[v];
            if ieee::lt64(cv, cu) || (ieee::eq64(cv, cu) && v < u) {
                r = r + 1;
            }
        }
        v = v + 1;
    }
    r
}

/// What a step leaves: the beam, and per slot the survivor and its parent.
struct Advance {
    b_idx: Vec<u32>,
    b_cost: Vec<u64>,
    idx: Vec<u32>,
    parent: Vec<u32>,
}

/// Advances a beam over its candidates.
fn advance<A: Arith>(m: &A, b_idx: &Vec<u32>, c_idx: &Vec<u32>, c_cost: &Vec<u64>) -> (r: Advance)
    requires
        b_idx@.len() > 0,
        b_idx@.len() <= u32::MAX,
        c_idx@.len() == 5 * b_idx@.len(),
        c_cost@.len() == c_idx@.len(),
    ensures
        r.b_idx@.len() == b_idx@.len(),
        r.b_cost@.len() == b_idx@.len(),
        r.idx@.len() == b_idx@.len(),
        r.parent@.len() == b_idx@.len(),
        ({
            let c = Candidates { idx: c_idx@, cost: c_cost@ };
            &&& forall|s: int| 0 <= s < b_idx@.len() ==> #[trigger] r.idx@[s] == survivor(c, s)
            &&& forall|s: int| 0 <= s < b_idx@.len() ==> #[trigger] r.parent@[s] == parent(c, s)
            &&& forall|s: int|
                0 <= s < b_idx@.len() ==> #[trigger] r.b_idx@[s] == if winner(c, s) >= 0 {
                    c_idx@[winner(c, s)]
                } else {
                    b_idx@[s]
                }
            &&& forall|s: int|
                0 <= s < b_idx@.len() && winner(c, s) < 0 ==> #[trigger] r.b_cost@[s] == BEAM_INF
            &&& arith::deterministic(*m) ==> forall|s: int|
                0 <= s < b_idx@.len() ==> #[trigger] r.b_cost@[s] == renormalised(
                    *m,
                    taken_cost(c, s),
                    taken_cost(c, 0),
                )
        }),
{
    let ghost c = Candidates { idx: c_idx@, cost: c_cost@ };
    let bs = b_idx.len();
    let n = c_cost.len();
    let mut out: Vec<bool> = Vec::new();
    let mut u: usize = 0;
    while u < n
        invariant
            u <= n,
            n == c_cost@.len(),
            c_idx@.len() == n,
            c == (Candidates { idx: c_idx@, cost: c_cost@ }),
            out@.len() == u,
            forall|v: int| 0 <= v < u ==> #[trigger] out@[v] == dropped(c, v),
        decreases n - u,
    {
        let d = is_dropped(c_idx, c_cost, u);
        out.push(d);
        u = u + 1;
    }

    let mut nb_idx: Vec<u32> = Vec::new();
    let mut nb_cost: Vec<u64> = Vec::new();
    let mut idx: Vec<u32> = Vec::new();
    let mut par: Vec<u32> = Vec::new();
    let mut s: usize = 0;
    while s < bs
        invariant
            s <= bs,
            bs == b_idx@.len(),
            nb_idx@.len() == s,
            nb_cost@.len() == s,
            idx@.len() == s,
            par@.len() == s,
            forall|t: int| 0 <= t < s ==> #[trigger] nb_idx@[t] == b_idx@[t],
            forall|t: int| 0 <= t < s ==> #[trigger] nb_cost@[t] == BEAM_INF,
            forall|t: int| 0 <= t < s ==> #[trigger] idx@[t] == 0,
            forall|t: int| 0 <= t < s ==> #[trigger] par@[t] == 0,
        decreases bs - s,
    {
        nb_idx.push(b_idx[s]);
        nb_cost.push(BEAM_INF);
        idx.push(0);
        par.push(0);
        s = s + 1;
    }

    let mut u: usize = 0;
    while u < n
        invariant
            u <= n,
            n == c_cost@.len(),
            n == 5 * bs,
            bs <= u32::MAX,
            c_idx@.len() == n,
            bs == b_idx@.len(),
            c == (Candidates { idx: c_idx@, cost: c_cost@ }),
            out@.len() == n,
            forall|v: int| 0 <= v < n ==> #[trigger] out@[v] == dropped(c, v),
            nb_idx@.len() == bs,
            nb_cost@.len() == bs,
            idx@.len() == bs,
            par@.len() == bs,
            forall|t: int|
                0 <= t < bs ==> #[trigger] nb_idx@[t] == if holder(c, t, u as int) >= 0 {
                    c_idx@[holder(c, t, u as int)]
                } else {
                    b_idx@[t]
                },
            forall|t: int|
                0 <= t < bs ==> #[trigger] nb_cost@[t] == if holder(c, t, u as int) >= 0 {
                    c_cost@[holder(c, t, u as int)]
                } else {
                    BEAM_INF
                },
            forall|t: int|
                0 <= t < bs ==> #[trigger] idx@[t] == if holder(c, t, u as int) >= 0 {
                    c_idx@[holder(c, t, u as int)]
                } else {
                    0
                },
            forall|t: int|
                0 <= t < bs ==> #[trigger] par@[t] == if holder(c, t, u as int) >= 0 {
                    (holder(c, t, u as int) / 5) as u32
                } else {
                    0
                },
        decreases n - u,
    {
        if !out[u] {
            let rk = rank_of(c_idx, c_cost, &out, u);
            if rk < bs {
                nb_idx.set(rk, c_idx[u]);
                nb_cost.set(rk, c_cost[u]);
                idx.set(rk, c_idx[u]);
                par.set(rk, (u / 5) as u32);
            }
        }
        u = u + 1;
    }

    let best = nb_cost[0];
    let ghost taken = nb_cost@;
    assert(forall|t: int| 0 <= t < bs ==> #[trigger] taken[t] == taken_cost(c, t));
    let mut s: usize = 0;
    while s < bs
        invariant
            s <= bs,
            nb_cost@.len() == bs,
            taken.len() == bs,
            bs > 0,
            best == taken[0],
            ieee::at_most64(BEAM_DEAD, BEAM_INF),
            forall|t: int| s <= t < bs ==> #[trigger] nb_cost@[t] == taken[t],
            forall|t: int|
                0 <= t < s && taken[t] == BEAM_INF ==> #[trigger] nb_cost@[t] == BEAM_INF,
            arith::deterministic(*m) ==> forall|t: int|
                0 <= t < s ==> #[trigger] nb_cost@[t] == renormalised(*m, taken[t], taken[0]),
        decreases bs - s,
    {
        let cost = nb_cost[s];
        if ieee::lt64(cost, BEAM_DEAD) {
            let d = arith::sub64(m, cost, best);
            nb_cost.set(s, d);
        }
        s = s + 1;
    }
    Advance { b_idx: nb_idx, b_cost: nb_cost, idx, parent: par }
}

// ---------------------------------------------------------------------------
// The whole search
// ---------------------------------------------------------------------------

/// One well and one configuration: what a search is a function of.
pub struct Search<A> {
    /// The arithmetic.
    pub m: A,
    /// Smoothed gamma ray of the evaluation rows.
    pub sgr: Seq<u64>,
    /// Type-well depth.
    pub tw_tvt: Seq<u64>,
    /// Type-well gamma ray.
    pub tw_gr: Seq<u64>,
    /// Depth of the last known row.
    pub last_tvt: u64,
    /// Beam parameters.
    pub cfg: BeamConfig,
}

impl<A: Arith> Search<A> {
    /// The beam before the first row: one hypothesis, on the start sample.
    pub open spec fn initial(self) -> Beam {
        Beam {
            idx: Seq::new(
                self.cfg.beam_size as nat,
                |s: int| nearest(self.m, self.tw_tvt, self.last_tvt) as u32,
            ),
            cost: Seq::new(
                self.cfg.beam_size as nat,
                |s: int|
                    if s == 0 {
                        ieee::ZERO64
                    } else {
                        BEAM_INF
                    },
            ),
        }
    }

    /// The candidates that a beam has at row `k`.
    pub open spec fn moves(self, b: Beam, k: int) -> Candidates {
        expanded(self.m, b, self.sgr[k], self.tw_gr, self.tw_tvt.len() as int, self.cfg)
    }

    /// The beam before row `k`.
    pub open spec fn beam(self, k: int) -> Beam
        decreases k,
    {
        if k <= 0 {
            self.initial()
        } else {
            let b = self.beam(k - 1);
            advanced(self.m, b, self.moves(b, k - 1))
        }
    }

    /// The candidates at row `k`.
    pub open spec fn candidates(self, k: int) -> Candidates {
        self.moves(self.beam(k), k)
    }

    /// The cheapest slot after the last row.
    pub open spec fn best(self) -> int {
        cheapest(self.beam(self.sgr.len() as int).cost, self.cfg.beam_size as int)
    }

    /// The slot that the traced path goes through at row `k`.
    pub open spec fn slot(self, k: int) -> int
        decreases self.sgr.len() - k,
    {
        if k >= self.sgr.len() - 1 {
            self.best()
        } else {
            parent(self.candidates(k + 1), self.slot(k + 1)) as int
        }
    }

    /// The type-well sample of the traced path at row `k`.
    pub open spec fn sample(self, k: int) -> int {
        survivor(self.candidates(k), self.slot(k)) as int
    }

    /// The traced path holds a hypothesis at the last row: the search was not lost.
    pub open spec fn found(self) -> bool {
        let n = self.sgr.len() as int;
        n > 0 && winner(self.candidates(n - 1), self.best()) >= 0
    }
}

/// First of the cheapest of the first `n` slots.
pub open spec fn cheapest(cost: Seq<u64>, n: int) -> int
    decreases n,
{
    if n <= 1 {
        0
    } else {
        let b = cheapest(cost, n - 1);
        if ieee::less64(cost[n - 1], cost[b]) {
            n - 1
        } else {
            b
        }
    }
}

/// Tracks one well under one configuration. `sgr` is the already-smoothed gamma ray
/// of the evaluation rows; `out` receives the depth of each row.
pub fn beam_search_one<A: Arith>(
    m: &A,
    sgr: &[u64],
    tw_tvt: &[u64],
    tw_gr: &[u64],
    last_tvt: u64,
    cfg: &BeamConfig,
    out: &mut [u64],
)
    requires
        cfg.beam_size > 0,
        0 < tw_tvt@.len() <= u32::MAX,
        tw_gr@.len() >= tw_tvt@.len(),
        old(out)@.len() >= sgr@.len(),
        5 * cfg.beam_size <= usize::MAX,
        sgr@.len() * cfg.beam_size <= usize::MAX,
    ensures
        final(out)@.len() == old(out)@.len(),
        forall|k: int|
            0 <= k < sgr@.len() ==> tw_tvt@.contains(#[trigger] final(out)@[k]),
        forall|k: int|
            sgr@.len() <= k < old(out)@.len() ==> #[trigger] final(out)@[k] == old(out)@[k],
        arith::deterministic(*m) ==> forall|k: int|
            0 <= k < sgr@.len() ==> #[trigger] final(out)@[k] == tw_tvt@[
                (Search {
                    m: *m,
                    sgr: sgr@,
                    tw_tvt: tw_tvt@,
                    tw_gr: tw_gr@,
                    last_tvt,
                    cfg: *cfg,
                }).sample(k)
            ],
{
    let ghost search = Search {
        m: *m,
        sgr: sgr@,
        tw_tvt: tw_tvt@,
        tw_gr: tw_gr@,
        last_tvt,
        cfg: *cfg,
    };
    let bs: usize = cfg.beam_size as usize;
    let nt = tw_tvt.len();
    let n = sgr.len();

    let si = nearest_index(m, tw_tvt, last_tvt);
    let mut b_idx: Vec<u32> = Vec::new();
    let mut b_cost: Vec<u64> = Vec::new();
    let mut s: usize = 0;
    while s < bs
        invariant
            s <= bs,
            bs == cfg.beam_size,
            si < nt,
            b_idx@.len() == s,
            b_cost@.len() == s,
            forall|t: int| 0 <= t < s ==> #[trigger] b_idx@[t] == si as u32,
            forall|t: int|
                0 <= t < s ==> #[trigger] b_cost@[t] == if t == 0 {
                    ieee::ZERO64
                } else {
                    BEAM_INF
                },
        decreases bs - s,
    {
        b_idx.push(si as u32);
        b_cost.push(
            if s == 0 {
                ieee::ZERO64
            } else {
                BEAM_INF
            },
        );
        s = s + 1;
    }
    proof {
        if arith::deterministic(*m) {
            assert(b_idx@ =~= search.initial().idx);
            assert(b_cost@ =~= search.initial().cost);
        }
    }

    let mut hist_idx: Vec<u32> = Vec::new();
    let mut hist_parent: Vec<u32> = Vec::new();
    let mut step: usize = 0;
    assert(0 * bs == 0) by (nonlinear_arith);
    while step < n
        invariant
            step <= n,
            n == sgr@.len(),
            bs == cfg.beam_size,
            bs > 0,
            5 * bs <= usize::MAX,
            n * bs <= usize::MAX,
            nt == tw_tvt@.len(),
            0 < nt <= u32::MAX,
            tw_gr@.len() >= nt,
            search == (Search {
                m: *m,
                sgr: sgr@,
                tw_tvt: tw_tvt@,
                tw_gr: tw_gr@,
                last_tvt,
                cfg: *cfg,
            }),
            b_idx@.len() == bs,
            b_cost@.len() == bs,
            forall|t: int| 0 <= t < bs ==> (#[trigger] b_idx@[t]) < nt,
            hist_idx@.len() == step * bs,
            hist_parent@.len() == step * bs,
            forall|i: int| 0 <= i < hist_idx@.len() ==> (#[trigger] hist_idx@[i]) < nt,
            forall|i: int| 0 <= i < hist_parent@.len() ==> (#[trigger] hist_parent@[i]) < bs,
            arith::deterministic(*m) ==> {
                &&& (Beam { idx: b_idx@, cost: b_cost@ }) == search.beam(step as int)
                &&& forall|k: int, t: int|
                    0 <= k < step && 0 <= t < bs ==> hist_idx@[#[trigger] at(k, t, bs as int)]
                        == survivor(search.candidates(k), t)
                &&& forall|k: int, t: int|
                    0 <= k < step && 0 <= t < bs ==> hist_parent@[#[trigger] at(k, t, bs as int)]
                        == parent(search.candidates(k), t)
            },
        decreases n - step,
    {
        let gv = sgr[step];
        let ghost b = Beam { idx: b_idx@, cost: b_cost@ };
        let (c_idx, c_cost) = expand(m, &b_idx, &b_cost, gv, tw_gr, nt, cfg);
        let ghost c = Candidates { idx: c_idx@, cost: c_cost@ };
        let next = advance(m, &b_idx, &c_idx, &c_cost);
        proof {
            assert(step * bs + bs == (step + 1) * bs) by (nonlinear_arith);
            assert((step + 1) * bs <= n * bs) by (nonlinear_arith)
                requires
                    step + 1 <= n,
                    bs >= 0,
            ;
            assert forall|t: int| 0 <= t < bs && winner(c, t) >= 0 implies c.idx[#[trigger] winner(
                c,
                t,
            )] < nt && 0 <= winner(c, t) < 5 * bs by {
                lemma_holder(c, t, c.cost.len() as int);
                let u = winner(c, t);
                assert(c_idx@[u] == candidate_idx(b, nt as int, u));
            }
            assert forall|t: int| 0 <= t < bs implies (#[trigger] next.b_idx@[t]) < nt by {
                assert(b_idx@[t] < nt);
            }
            assert forall|t: int| 0 <= t < bs implies (#[trigger] next.idx@[t]) < nt by {
                assert(survivor(c, t) < nt);
            }
            assert forall|t: int| 0 <= t < bs implies (#[trigger] next.parent@[t]) < bs by {
                assert(parent(c, t) < bs);
            }
        }
        let ghost old_idx = hist_idx@;
        let ghost old_parent = hist_parent@;
        hist_idx.extend_from_slice(&next.idx);
        hist_parent.extend_from_slice(&next.parent);
        proof {
            if arith::deterministic(*m) {
                assert(c == search.candidates(step as int));
                let after = advanced(*m, b, c);
                assert(next.b_idx@ =~= after.idx);
                assert(next.b_cost@ =~= after.cost);
                assert forall|k: int, t: int| 0 <= k < step + 1 && 0 <= t < bs implies hist_idx@[
                #[trigger] at(k, t, bs as int)] == survivor(search.candidates(k), t)
                    && hist_parent@[at(k, t, bs as int)] == parent(search.candidates(k), t) by {
                    lemma_at(k, t, bs as int, step as int);
                    if k == step {
                        assert(hist_idx@[at(k, t, bs as int)] == next.idx@[t]);
                        assert(hist_parent@[at(k, t, bs as int)] == next.parent@[t]);
                    } else {
                        assert(old_idx[at(k, t, bs as int)] == hist_idx@[at(k, t, bs as int)]);
                        assert(old_parent[at(k, t, bs as int)] == hist_parent@[at(k, t, bs as int)]);
                    }
                }
            }
        }
        b_idx = next.b_idx;
        b_cost = next.b_cost;
        step = step + 1;
    }

    let mut best: usize = 0;
    let mut s: usize = 1;
    while s < bs
        invariant
            1 <= s <= bs,
            best < bs,
            bs == b_cost@.len(),
            best == cheapest(b_cost@, s as int),
        decreases bs - s,
    {
        if ieee::lt64(b_cost[s], b_cost[best]) {
            best = s;
        }
        s = s + 1;
    }

    let mut slot: usize = best;
    let mut k: usize = n;
    let ghost was = out@;
    while k > 0
        invariant
            k <= n,
            n == sgr@.len(),
            bs > 0,
            slot < bs,
            n * bs <= usize::MAX,
            nt == tw_tvt@.len(),
            search.sgr == sgr@,
            out@.len() == was.len(),
            was.len() >= n,
            hist_idx@.len() == n * bs,
            hist_parent@.len() == n * bs,
            forall|i: int| 0 <= i < hist_idx@.len() ==> (#[trigger] hist_idx@[i]) < nt,
            forall|i: int| 0 <= i < hist_parent@.len() ==> (#[trigger] hist_parent@[i]) < bs,
            forall|i: int| n <= i < was.len() ==> #[trigger] out@[i] == was[i],
            forall|i: int| k <= i < n ==> tw_tvt@.contains(#[trigger] out@[i]),
            arith::deterministic(*m) ==> {
                &&& forall|i: int, t: int|
                    0 <= i < n && 0 <= t < bs ==> hist_idx@[#[trigger] at(i, t, bs as int)]
                        == survivor(search.candidates(i), t)
                &&& forall|i: int, t: int|
                    0 <= i < n && 0 <= t < bs ==> hist_parent@[#[trigger] at(i, t, bs as int)]
                        == parent(search.candidates(i), t)
                &&& k > 0 ==> slot == search.slot(k - 1)
                &&& forall|i: int|
                    k <= i < n ==> #[trigger] out@[i] == tw_tvt@[search.sample(i)]
            },
        decreases k,
    {
        k = k - 1;
        proof {
            lemma_at(k as int, slot as int, bs as int, n as int);
        }
        let ghost here = at(k as int, slot as int, bs as int);
        let j: usize = k * bs + slot;
        assert(j == here);
        let i: usize = hist_idx[j] as usize;
        assert(tw_tvt@[i as int] == tw_tvt@[i as int]);
        out[k] = tw_tvt[i];
        slot = hist_parent[j] as usize;
    }
}

/// Place of slot `t` at row `k` in the history of beams of `bs` slots.
spec fn at(k: int, t: int, bs: int) -> int {
    k * bs + t
}

proof fn lemma_at(k: int, t: int, bs: int, n: int)
    requires
        0 <= t < bs,
        0 <= k <= n,
    ensures
        0 <= at(k, t, bs),
        0 <= k * bs,
        k < n ==> at(k, t, bs) < n * bs,
        k == n ==> at(k, t, bs) == n * bs + t,
{
    assert(0 <= k * bs && (k < n ==> k * bs + t < n * bs)) by (nonlinear_arith)
        requires
            0 <= t < bs,
            0 <= k <= n,
    ;
}

/// The winner of a slot is a candidate that is still in and ranks there.
pub(crate) proof fn lemma_holder(c: Candidates, slot: int, n: int)
    requires
        0 <= n <= c.cost.len(),
    ensures
        -1 <= holder(c, slot, n) < n || (n == 0 && holder(c, slot, n) == -1),
        holder(c, slot, n) >= 0 ==> {
            &&& !dropped(c, holder(c, slot, n))
            &&& rank(c, holder(c, slot, n), c.cost.len() as int) == slot
        },
    decreases n,
{
    if n > 0 {
        lemma_holder(c, slot, n - 1);
    }
}

// ---------------------------------------------------------------------------
// Laws of the search
// ---------------------------------------------------------------------------

/// Every candidate cost is a number.
pub open spec fn comparable(c: Candidates) -> bool {
    forall|u: int| 0 <= u < c.cost.len() ==> !ieee::nan64(#[trigger] c.cost[u])
}

/// A candidate that is in and ahead of another ranks before it.
proof fn lemma_rank_strict(c: Candidates, u: int, v: int, n: int)
    requires
        comparable(c),
        0 <= u < c.cost.len(),
        0 <= v < c.cost.len(),
        0 <= n <= c.cost.len(),
        ahead(c, u, v),
        !dropped(c, u),
    ensures
        rank(c, u, n) + (if u < n {
            1int
        } else {
            0
        }) <= rank(c, v, n),
    decreases n,
{
    assert(!ieee::nan64(c.cost[u]) && !ieee::nan64(c.cost[v]));
    if n > 0 {
        lemma_rank_strict(c, u, v, n - 1);
        assert(!ieee::nan64(c.cost[n - 1]));
    }
}

/// Candidates that are in take the slot of their rank: where costs are numbers, no
/// two of them compete for a slot.
pub proof fn lemma_rank_is_slot(c: Candidates, u: int)
    requires
        comparable(c),
        0 <= u < c.cost.len(),
        !dropped(c, u),
    ensures
        winner(c, rank(c, u, c.cost.len() as int)) == u,
{
    lemma_holder_is(c, u, c.cost.len() as int);
}

proof fn lemma_holder_is(c: Candidates, u: int, n: int)
    requires
        comparable(c),
        0 <= u < n <= c.cost.len(),
        !dropped(c, u),
    ensures
        holder(c, rank(c, u, c.cost.len() as int), n) == u,
    decreases n,
{
    let len = c.cost.len() as int;
    if u < n - 1 {
        assert(!ieee::nan64(c.cost[u]) && !ieee::nan64(c.cost[n - 1]));
        if !dropped(c, n - 1) {
            if ahead(c, u, n - 1) {
                lemma_rank_strict(c, u, n - 1, len);
            } else {
                lemma_rank_strict(c, n - 1, u, len);
            }
        }
        lemma_holder_is(c, u, n - 1);
    }
}

/// Where costs are numbers, the survivors stand in order of cost and each on a
/// sample of its own.
pub proof fn lemma_survivors_ordered_and_distinct(c: Candidates, s: int, t: int)
    requires
        comparable(c),
        c.idx.len() == c.cost.len(),
        0 <= s < t,
        winner(c, s) >= 0,
        winner(c, t) >= 0,
    ensures
        ahead(c, winner(c, s), winner(c, t)),
        survivor(c, s) != survivor(c, t),
{
    let len = c.cost.len() as int;
    lemma_holder(c, s, len);
    lemma_holder(c, t, len);
    let (u, v) = (winner(c, s), winner(c, t));
    assert(!ieee::nan64(c.cost[u]) && !ieee::nan64(c.cost[v]));
    if !ahead(c, u, v) {
        assert(u != v);
        lemma_rank_strict(c, v, u, len);
    }
    if c.idx[u] == c.idx[v] {
        assert(displaces(c, u, v));
    }
}

/// Where costs are numbers, the survivors fill the slots from the first on.
pub proof fn lemma_survivors_leave_no_gap(c: Candidates, s: int, t: int)
    requires
        comparable(c),
        0 <= s < t,
        winner(c, t) >= 0,
    ensures
        winner(c, s) >= 0,
    decreases t,
{
    let len = c.cost.len() as int;
    lemma_holder(c, t, len);
    let u = winner(c, t);
    lemma_rank_bound(c, u, len);
    let v = lemma_predecessor(c, u, len);
    lemma_rank_counts_one_more(c, v, u, len);
    lemma_rank_is_slot(c, v);
    if s < t - 1 {
        lemma_survivors_leave_no_gap(c, s, t - 1);
    }
}

pub(crate) proof fn lemma_rank_bound(c: Candidates, u: int, n: int)
    requires
        0 <= n,
    ensures
        rank(c, u, n) >= 0,
        rank(c, u, n) > 0 ==> exists|v: int|
            0 <= v < n && !#[trigger] dropped(c, v) && ahead(c, v, u),
    decreases n,
{
    if n > 0 {
        lemma_rank_bound(c, u, n - 1);
        if !dropped(c, n - 1) && ahead(c, n - 1, u) {
        } else if rank(c, u, n) > 0 {
            let v = choose|v: int| 0 <= v < n - 1 && !#[trigger] dropped(c, v) && ahead(c, v, u);
            assert(!dropped(c, v));
        }
    }
}

/// The last candidate ahead of `u` among the first `n` that are in.
proof fn lemma_predecessor(c: Candidates, u: int, n: int) -> (v: int)
    requires
        comparable(c),
        0 <= u < c.cost.len(),
        0 <= n <= c.cost.len(),
        rank(c, u, n) > 0,
    ensures
        0 <= v < n,
        !dropped(c, v),
        ahead(c, v, u),
        forall|w: int|
            0 <= w < n && !#[trigger] dropped(c, w) && ahead(c, w, u) && w != v ==> ahead(c, w, v),
    decreases n,
{
    lemma_rank_bound(c, u, n - 1);
    assert(!ieee::nan64(c.cost[n - 1]) && !ieee::nan64(c.cost[u]));
    if rank(c, u, n - 1) > 0 {
        let v = lemma_predecessor(c, u, n - 1);
        assert(!ieee::nan64(c.cost[v]));
        if !dropped(c, n - 1) && ahead(c, n - 1, u) && ahead(c, v, n - 1) {
            assert forall|w: int|
                0 <= w < n && !#[trigger] dropped(c, w) && ahead(c, w, u) && w != n
                    - 1 implies ahead(c, w, n - 1) by {
                assert(!ieee::nan64(c.cost[w]));
                if w != v {
                    assert(ahead(c, w, v));
                }
            }
            n - 1
        } else {
            v
        }
    } else {
        assert forall|w: int|
            0 <= w < n && !#[trigger] dropped(c, w) && ahead(c, w, u) && w != n
                - 1 implies ahead(c, w, n - 1) by {
            lemma_rank_counts(c, u, w, n - 1);
        }
        n - 1
    }
}

/// A candidate that is in and ahead of `u` counts.
proof fn lemma_rank_counts(c: Candidates, u: int, w: int, n: int)
    requires
        0 <= w < n,
        !dropped(c, w),
        ahead(c, w, u),
    ensures
        rank(c, u, n) > 0,
    decreases n,
{
    if w < n - 1 {
        lemma_rank_counts(c, u, w, n - 1);
    } else {
        lemma_rank_bound(c, u, n - 1);
    }
}

/// Next to its predecessor a candidate has one more ahead of it.
proof fn lemma_rank_counts_one_more(c: Candidates, v: int, u: int, n: int)
    requires
        comparable(c),
        0 <= u < c.cost.len(),
        0 <= v < c.cost.len(),
        0 <= n <= c.cost.len(),
        !dropped(c, v),
        ahead(c, v, u),
        forall|w: int|
            0 <= w < c.cost.len() && !#[trigger] dropped(c, w) && ahead(c, w, u) && w != v
                ==> ahead(c, w, v),
    ensures
        rank(c, u, n) == rank(c, v, n) + (if v < n {
            1int
        } else {
            0
        }),
    decreases n,
{
    if n > 0 {
        lemma_rank_counts_one_more(c, v, u, n - 1);
        let w = n - 1;
        assert(!ieee::nan64(c.cost[w]) && !ieee::nan64(c.cost[u]) && !ieee::nan64(c.cost[v]));
        if !dropped(c, w) && w != v {
            assert(ahead(c, w, u) ==> ahead(c, w, v));
        }
    }
}

impl<A: Arith> Search<A> {
    /// The search is well posed: a beam, a log, and indices that fit.
    pub open spec fn posed(self) -> bool {
        self.cfg.beam_size > 0 && 0 < self.tw_tvt.len() <= u32::MAX
    }

    /// The traced path goes through winners all the way back, and each of them is a
    /// move of the one before.
    proof fn lemma_step(self, k: int)
        requires
            self.posed(),
            0 <= k < self.sgr.len(),
            0 <= self.slot(k) < self.cfg.beam_size,
            winner(self.candidates(k), self.slot(k)) >= 0,
        ensures
            0 <= self.sample(k) < self.tw_tvt.len(),
            k > 0 ==> {
                &&& 0 <= self.slot(k - 1) < self.cfg.beam_size
                &&& winner(self.candidates(k - 1), self.slot(k - 1)) >= 0
                &&& -2 <= self.sample(k) - self.sample(k - 1) <= 2
            },
            k == 0 ==> -2 <= self.sample(0) - nearest(self.m, self.tw_tvt, self.last_tvt) <= 2,
    {
        let c = self.candidates(k);
        let b = self.beam(k);
        let nt = self.tw_tvt.len() as int;
        self.lemma_beam_width(k);
        lemma_holder(c, self.slot(k), c.cost.len() as int);
        let u = winner(c, self.slot(k));
        assert(reachable(b, nt, u)) by {
            if !reachable(b, nt, u) {
                assert(c.cost[u] == BEAM_INF);
                assert(dropped(c, u));
            }
        }
        assert(c.idx[u] == candidate_idx(b, nt, u));
        assert(self.sample(k) == target(b, u));
        let p = u / 5;
        assert(0 <= p < self.cfg.beam_size);
        assert(parent(c, self.slot(k)) == p);
        if k > 0 {
            let prev = self.candidates(k - 1);
            let pb = self.beam(k - 1);
            self.lemma_beam_width(k - 1);
            assert(b == advanced(self.m, pb, prev));
            assert(b.cost[p] == renormalised(self.m, taken_cost(prev, p), taken_cost(prev, 0)));
            assert(winner(prev, p) >= 0);
            assert(b.idx[p] == kept_idx(pb, prev, p));
            assert(self.slot(k - 1) == p);
        } else {
            assert(b.cost[p] == if p == 0 {
                ieee::ZERO64
            } else {
                BEAM_INF
            });
            lemma_nearest_in_range(self.m, self.tw_tvt, self.last_tvt);
        }
    }

    pub(crate) proof fn lemma_beam_width(self, k: int)
        requires
            0 <= k,
        ensures
            self.beam(k).idx.len() == self.cfg.beam_size,
            self.beam(k).cost.len() == self.cfg.beam_size,
        decreases k,
    {
        if k > 0 {
            self.lemma_beam_width(k - 1);
        }
    }

    pub(crate) proof fn lemma_path_back(self, k: int)
        requires
            self.posed(),
            self.found(),
            0 <= k < self.sgr.len(),
        ensures
            0 <= self.slot(k) < self.cfg.beam_size,
            winner(self.candidates(k), self.slot(k)) >= 0,
        decreases self.sgr.len() - k,
    {
        if k == self.sgr.len() - 1 {
            lemma_cheapest(self.beam(self.sgr.len() as int).cost, self.cfg.beam_size as int);
        } else {
            self.lemma_path_back(k + 1);
            self.lemma_step(k + 1);
        }
    }
}

/// A search that was not lost walks the log: it starts within two samples of the
/// one nearest the last known depth, moves by at most two samples per row, and never
/// leaves the log.
pub proof fn lemma_path_walks_the_log<A: Arith>(search: Search<A>, k: int)
    requires
        search.posed(),
        search.found(),
        0 <= k < search.sgr.len(),
    ensures
        0 <= search.sample(k) < search.tw_tvt.len(),
        k == 0 ==> -2 <= search.sample(0) - nearest(search.m, search.tw_tvt, search.last_tvt) <= 2,
        k > 0 ==> -2 <= search.sample(k) - search.sample(k - 1) <= 2,
{
    search.lemma_path_back(k);
    search.lemma_step(k);
}

proof fn lemma_cheapest(cost: Seq<u64>, n: int)
    requires
        n > 0,
    ensures
        0 <= cheapest(cost, n) < n,
    decreases n,
{
    if n > 1 {
        lemma_cheapest(cost, n - 1);
    }
}

/// The start sample lies on the log, whatever the log's order.
pub proof fn lemma_nearest_in_range<A: Arith>(m: A, tw: Seq<u64>, v: u64)
    requires
        tw.len() > 0,
    ensures
        0 <= nearest(m, tw, v) < tw.len(),
{
    let n = tw.len() as int;
    lemma_partition_in_range(tw, 0, n, v);
    let lo = partition_point(tw, 0, n, v);
    if lo > 0 {
        lemma_run_in_range(tw, lo - 1);
    }
}

proof fn lemma_partition_in_range(tw: Seq<u64>, lo: int, hi: int, v: u64)
    requires
        0 <= lo <= hi,
    ensures
        lo <= partition_point(tw, lo, hi, v) <= hi,
    decreases hi - lo,
{
    if lo < hi {
        let mid = (lo + hi) / 2;
        if ieee::less64(tw[mid], v) {
            lemma_partition_in_range(tw, mid + 1, hi, v);
        } else {
            lemma_partition_in_range(tw, lo, mid, v);
        }
    }
}

proof fn lemma_run_in_range(tw: Seq<u64>, i: int)
    requires
        0 <= i,
    ensures
        0 <= run_start(tw, i) <= i,
    decreases i,
{
    if i > 0 && ieee::equal64(tw[i - 1], tw[i]) {
        lemma_run_in_range(tw, i - 1);
    }
}

/// The search reads smoothed rows: the radius they were smoothed with plays no part
/// in it.
pub proof fn lemma_radius_plays_no_part<A: Arith>(a: Search<A>, b: Search<A>, k: int)
    requires
        a == (Search { cfg: BeamConfig { radius: a.cfg.radius, ..b.cfg }, ..b }),
    ensures
        a.sample(k) == b.sample(k),
{
    let n = a.sgr.len() as int;
    lemma_same_beam(a, b, n);
    lemma_same_slot(a, b, k);
    lemma_same_beam(a, b, k);
    lemma_same_moves(a, b, a.beam(k), k);
}

proof fn lemma_same_moves<A: Arith>(a: Search<A>, b: Search<A>, x: Beam, k: int)
    requires
        a == (Search { cfg: BeamConfig { radius: a.cfg.radius, ..b.cfg }, ..b }),
    ensures
        a.moves(x, k) == b.moves(x, k),
{
    assert(a.moves(x, k).idx =~= b.moves(x, k).idx);
    assert(a.moves(x, k).cost =~= b.moves(x, k).cost);
}

proof fn lemma_same_beam<A: Arith>(a: Search<A>, b: Search<A>, k: int)
    requires
        a == (Search { cfg: BeamConfig { radius: a.cfg.radius, ..b.cfg }, ..b }),
    ensures
        a.beam(k) == b.beam(k),
    decreases k,
{
    if k > 0 {
        lemma_same_beam(a, b, k - 1);
        lemma_same_moves(a, b, a.beam(k - 1), k - 1);
    } else {
        assert(a.initial().idx =~= b.initial().idx);
        assert(a.initial().cost =~= b.initial().cost);
    }
}

proof fn lemma_same_slot<A: Arith>(a: Search<A>, b: Search<A>, k: int)
    requires
        a == (Search { cfg: BeamConfig { radius: a.cfg.radius, ..b.cfg }, ..b }),
    ensures
        a.slot(k) == b.slot(k),
    decreases a.sgr.len() - k,
{
    if k >= a.sgr.len() - 1 {
        lemma_same_beam(a, b, a.sgr.len() as int);
    } else {
        lemma_same_slot(a, b, k + 1);
        lemma_same_beam(a, b, k + 1);
        lemma_same_moves(a, b, a.beam(k + 1), k + 1);
    }
}

// ---------------------------------------------------------------------------
// The ensemble
// ---------------------------------------------------------------------------

/// The smoothed gamma ray of a well.
pub open spec fn smoothed_log<A: Arith>(
    m: A,
    gr: Seq<u64>,
    r: int,
    kind: SmoothingKind,
) -> Seq<u64> {
    Seq::new(gr.len(), |i: int| smoothed(m, gr, r, kind, i))
}

/// The search of one well under one configuration.
pub open spec fn search_of<A: Arith>(
    m: A,
    well: BeamWellInput,
    cfg: BeamConfig,
    kind: SmoothingKind,
) -> Search<A> {
    Search {
        m,
        sgr: smoothed_log(m, well.gr@, cfg.radius as int, kind),
        tw_tvt: well.tw_tvt@,
        tw_gr: well.tw_gr@,
        last_tvt: well.last_tvt,
        cfg,
    }
}

/// Depth tracked for row `i` of a well under one configuration.
pub open spec fn depth_at<A: Arith>(
    m: A,
    well: BeamWellInput,
    cfg: BeamConfig,
    kind: SmoothingKind,
    i: int,
) -> u64 {
    well.tw_tvt@[search_of(m, well, cfg, kind).sample(i)]
}

/// Sum over the first `n` configurations of the depth tracked for row `i`.
pub open spec fn depth_sum<A: Arith>(
    m: A,
    well: BeamWellInput,
    configs: Seq<BeamConfig>,
    kind: SmoothingKind,
    i: int,
    n: int,
) -> u64
    decreases n,
{
    if n <= 0 {
        ieee::ZERO64
    } else {
        arith::sum64(
            m,
            depth_sum(m, well, configs, kind, i, n - 1),
            depth_at(m, well, configs[n - 1], kind, i),
        )
    }
}

/// Mean over the configurations of the depth tracked for row `i` of a well.
pub open spec fn ensemble_mean<A: Arith>(
    m: A,
    well: BeamWellInput,
    configs: Seq<BeamConfig>,
    kind: SmoothingKind,
    i: int,
) -> u64 {
    arith::quotient64(
        m,
        depth_sum(m, well, configs, kind, i, configs.len() as int),
        arith::of_int64(m, configs.len() as u64),
    )
}

/// The ensemble's buffers can be addressed.
pub open spec fn beam_runnable(wells: Seq<BeamWellInput>, configs: Seq<BeamConfig>) -> bool {
    &&& beam::beam_addressable(wells)
    &&& configs.len() <= u32::MAX
    &&& configs.len() * beam::beam_rows(wells, wells.len() as int) <= usize::MAX
    &&& forall|c: int|
        0 <= c < configs.len() ==> 5 * (#[trigger] configs[c]).beam_size <= usize::MAX
    &&& forall|c: int|
        0 <= c < configs.len() ==> beam::beam_rows(wells, wells.len() as int) * (
        #[trigger] configs[c]).beam_size <= usize::MAX
}

/// Whether [`run_beam_reference`] can take the wells.
pub fn is_beam_runnable(wells: &[BeamWellInput], configs: &[BeamConfig]) -> (r: bool)
    ensures
        r == beam_runnable(wells@, configs@),
{
    if !beam::is_beam_addressable(wells) {
        return false;
    }
    match beam::count_beam_rows(wells) {
        None => false,
        Some(rows) => {
            let n = configs.len();
            if n as u64 > 0xFFFF_FFFF || n.checked_mul(rows).is_none() {
                return false;
            }
            let mut c: usize = 0;
            while c < n
                invariant
                    c <= n,
                    n == configs@.len(),
                    rows == beam::beam_rows(wells@, wells@.len() as int),
                    forall|k: int|
                        0 <= k < c ==> 5 * (#[trigger] configs@[k]).beam_size <= usize::MAX,
                    forall|k: int|
                        0 <= k < c ==> beam::beam_rows(wells@, wells@.len() as int) * (
                        #[trigger] configs@[k]).beam_size <= usize::MAX,
                decreases n - c,
            {
                let size = configs[c].beam_size as usize;
                if size > usize::MAX / 5 || rows.checked_mul(size).is_none() {
                    assert(configs@[c as int].beam_size == size);
                    return false;
                }
                c = c + 1;
            }
            true
        },
    }
}

/// Whether `out` has the shape of an ensemble's output: every non-empty well in
/// order, its rows at their offsets, and trajectories where they were asked for.
pub open spec fn is_ensemble_shaped(
    wells: Seq<BeamWellInput>,
    configs: Seq<BeamConfig>,
    opts: BeamOptions,
    out: BeamOutput,
) -> bool {
    &&& out.wf()
    &&& out.kept@ == beam::kept_beam_wells(wells, wells.len() as int)
    &&& out.ev_lens@.len() == out.kept@.len()
    &&& forall|k: int|
        0 <= k < out.kept@.len() ==> #[trigger] out.ev_lens@[k]
            == wells[out.kept@[k] as int].gr@.len()
    &&& out.per_config is Some <==> opts.with_per_config
    &&& out.per_config matches Some(pc) ==> pc@.len() == configs.len() * out.mean@.len()
}

/// Whether `out` holds the mean and the trajectories of the first `n` kept wells.
pub open spec fn holds_tracks<A: Arith>(
    m: A,
    wells: Seq<BeamWellInput>,
    configs: Seq<BeamConfig>,
    kind: SmoothingKind,
    out: BeamOutput,
    n: int,
) -> bool {
    &&& forall|k: int, i: int|
        0 <= k < n && 0 <= i < out.ev_lens@[k] ==> out.mean@[#[trigger] layout::row(
            out.ev_lens@,
            k,
            i,
        )] == ensemble_mean(m, wells[out.kept@[k] as int], configs, kind, i)
    &&& out.per_config matches Some(pc) ==> forall|c: int, k: int, i: int|
        0 <= c < configs.len() && 0 <= k < n && 0 <= i < out.ev_lens@[k]
            ==> pc@[#[trigger] layout::slot(out.ev_lens@, c, k, i)] == depth_at(
            m,
            wells[out.kept@[k] as int],
            configs[c],
            kind,
            i,
        )
}

/// Whether `out` is the output of the ensemble over `wells`: its shape, and, for
/// arithmetic that is a function of its operands, the mean and the trajectories that
/// the searches give.
pub open spec fn is_ensemble<A: Arith>(
    m: A,
    wells: Seq<BeamWellInput>,
    configs: Seq<BeamConfig>,
    opts: BeamOptions,
    out: BeamOutput,
) -> bool {
    &&& is_ensemble_shaped(wells, configs, opts, out)
    &&& arith::deterministic(m) ==> holds_tracks(
        m,
        wells,
        configs,
        opts.smoothing,
        out,
        out.kept@.len() as int,
    )
}

/// The output is a function of the wells, the configurations, the smoothing and
/// whether trajectories were asked for: running again, or with cubes of another
/// width or another budget, gives the same bits.
pub proof fn lemma_ensemble_is_reproducible<A: Arith>(
    m: A,
    wells: Seq<BeamWellInput>,
    configs: Seq<BeamConfig>,
    p: BeamOptions,
    a: BeamOutput,
    q: BeamOptions,
    b: BeamOutput,
)
    requires
        arith::deterministic(m),
        is_ensemble(m, wells, configs, p, a),
        is_ensemble(m, wells, configs, q, b),
        p.smoothing == q.smoothing,
        p.with_per_config == q.with_per_config,
    ensures
        a.kept@ == b.kept@,
        a.ev_lens@ == b.ev_lens@,
        a.ev_offsets@ == b.ev_offsets@,
        a.mean@ == b.mean@,
        a.per_config is Some == b.per_config is Some,
        a.per_config is Some ==> a.per_config->0@ == b.per_config->0@,
{
    let n = a.kept@.len() as int;
    assert(a.ev_lens@ =~= b.ev_lens@);
    assert(a.ev_offsets@ =~= b.ev_offsets@);
    assert forall|r: int| 0 <= r < a.mean@.len() implies #[trigger] a.mean@[r] == b.mean@[r] by {
        let k = layout::lemma_row_has_owner(a.ev_lens@, n, r);
        let i = r - layout::before(a.ev_lens@, k);
        assert(layout::row(a.ev_lens@, k, i) == r);
    }
    assert(a.mean@ =~= b.mean@);
    if p.with_per_config {
        let (x, y) = (a.per_config->0@, b.per_config->0@);
        assert forall|r: int| 0 <= r < x.len() implies #[trigger] x[r] == y[r] by {
            let (c, k, i) = layout::lemma_slot_has_owner(a.ev_lens@, configs.len() as int, r);
            assert(layout::slot(b.ev_lens@, c, k, i) == r);
        }
        assert(x =~= y);
    }
}

/// Wells are searched independently of their neighbours: a well that stands in two
/// batches, wherever it stands, comes out the same.
pub proof fn lemma_beam_wells_are_independent<A: Arith>(
    m: A,
    configs: Seq<BeamConfig>,
    opts: BeamOptions,
    wells: Seq<BeamWellInput>,
    a: BeamOutput,
    k: int,
    others: Seq<BeamWellInput>,
    b: BeamOutput,
    j: int,
)
    requires
        arith::deterministic(m),
        is_ensemble(m, wells, configs, opts, a),
        is_ensemble(m, others, configs, opts, b),
        0 <= k < a.kept@.len(),
        0 <= j < b.kept@.len(),
        wells[a.kept@[k] as int] == others[b.kept@[j] as int],
    ensures
        a.ev_lens@[k] == b.ev_lens@[j],
        forall|i: int|
            0 <= i < a.ev_lens@[k] ==> a.mean@[#[trigger] layout::row(a.ev_lens@, k, i)]
                == b.mean@[layout::row(b.ev_lens@, j, i)],
        opts.with_per_config ==> forall|c: int, i: int|
            0 <= c < configs.len() && 0 <= i < a.ev_lens@[k]
                ==> a.per_config->0@[#[trigger] layout::slot(a.ev_lens@, c, k, i)]
                == b.per_config->0@[layout::slot(b.ev_lens@, c, j, i)],
{
}

/// The trajectories of one well: one per configuration, a depth per row.
spec fn are_tracks<A: Arith>(
    m: A,
    tracks: Seq<Vec<u64>>,
    well: BeamWellInput,
    configs: Seq<BeamConfig>,
    kind: SmoothingKind,
) -> bool {
    &&& tracks.len() == configs.len()
    &&& forall|c: int| 0 <= c < configs.len() ==> (#[trigger] tracks[c])@.len() == well.gr@.len()
    &&& arith::deterministic(m) ==> forall|c: int, i: int|
        0 <= c < configs.len() && 0 <= i < well.gr@.len() ==> #[trigger] tracks[c]@[i] == depth_at(
            m,
            well,
            configs[c],
            kind,
            i,
        )
}

/// In a batch that passes its check every well does.
proof fn lemma_checked_well(wells: Seq<BeamWellInput>, i: int, k: int)
    requires
        beam::first_beam_issue(wells, i) is None,
        0 <= i <= k < wells.len(),
    ensures
        wells[k].issue(k) is None,
    decreases k - i,
{
    if i < k {
        lemma_checked_well(wells, i + 1, k);
    }
}

/// Tracks one well under every configuration, smoothing once per distinct radius.
fn track_well<A: Arith>(
    m: &A,
    well: &BeamWellInput,
    configs: &[BeamConfig],
    radii: &Vec<u32>,
    plane_of: &Vec<u32>,
    kind: SmoothingKind,
) -> (tracks: Vec<Vec<u64>>)
    requires
        0 < well.tw_tvt@.len() <= u32::MAX,
        well.tw_gr@.len() == well.tw_tvt@.len(),
        plane_of@.len() == configs@.len(),
        forall|c: int|
            0 <= c < configs@.len() ==> (#[trigger] plane_of@[c]) < radii@.len()
                && radii@[plane_of@[c] as int] == configs@[c].radius,
        forall|c: int|
            0 <= c < configs@.len() ==> {
                &&& (#[trigger] configs@[c]).beam_size > 0
                &&& 5 * configs@[c].beam_size <= usize::MAX
                &&& well.gr@.len() * configs@[c].beam_size <= usize::MAX
            },
    ensures
        are_tracks(*m, tracks@, *well, configs@, kind),
{
    let len = well.gr.len();
    let n_planes = radii.len();
    let mut planes: Vec<Vec<u64>> = Vec::new();
    let mut p: usize = 0;
    while p < n_planes
        invariant
            p <= n_planes,
            n_planes == radii@.len(),
            len == well.gr@.len(),
            planes@.len() == p,
            forall|q: int| 0 <= q < p ==> (#[trigger] planes@[q])@.len() == len,
            arith::deterministic(*m) ==> forall|q: int|
                0 <= q < p ==> (#[trigger] planes@[q])@ == smoothed_log(
                    *m,
                    well.gr@,
                    radii@[q] as int,
                    kind,
                ),
        decreases n_planes - p,
    {
        let mut plane: Vec<u64> = vec![0; len];
        sg_smooth(m, &well.gr, radii[p], plane.as_mut_slice(), kind);
        proof {
            if arith::deterministic(*m) {
                assert(plane@ =~= smoothed_log(*m, well.gr@, radii@[p as int] as int, kind));
            }
        }
        planes.push(plane);
        p = p + 1;
    }

    let n_configs = configs.len();
    let mut tracks: Vec<Vec<u64>> = Vec::new();
    let mut c: usize = 0;
    while c < n_configs
        invariant
            c <= n_configs,
            n_configs == configs@.len(),
            len == well.gr@.len(),
            0 < well.tw_tvt@.len() <= u32::MAX,
            well.tw_gr@.len() == well.tw_tvt@.len(),
            plane_of@.len() == configs@.len(),
            planes@.len() == radii@.len(),
            forall|i: int|
                0 <= i < configs@.len() ==> (#[trigger] plane_of@[i]) < radii@.len()
                    && radii@[plane_of@[i] as int] == configs@[i].radius,
            forall|i: int|
                0 <= i < configs@.len() ==> {
                    &&& (#[trigger] configs@[i]).beam_size > 0
                    &&& 5 * configs@[i].beam_size <= usize::MAX
                    &&& well.gr@.len() * configs@[i].beam_size <= usize::MAX
                },
            forall|q: int| 0 <= q < planes@.len() ==> (#[trigger] planes@[q])@.len() == len,
            arith::deterministic(*m) ==> forall|q: int|
                0 <= q < planes@.len() ==> (#[trigger] planes@[q])@ == smoothed_log(
                    *m,
                    well.gr@,
                    radii@[q] as int,
                    kind,
                ),
            tracks@.len() == c,
            forall|i: int| 0 <= i < c ==> (#[trigger] tracks@[i])@.len() == len,
            arith::deterministic(*m) ==> forall|i: int, j: int|
                0 <= i < c && 0 <= j < len ==> #[trigger] tracks@[i]@[j] == depth_at(
                    *m,
                    *well,
                    configs@[i],
                    kind,
                    j,
                ),
        decreases n_configs - c,
    {
        let mut track: Vec<u64> = vec![0; len];
        let cfg: &BeamConfig = &configs[c];
        let plane: &Vec<u64> = &planes[plane_of[c] as usize];
        beam_search_one(
            m,
            plane,
            &well.tw_tvt,
            &well.tw_gr,
            well.last_tvt,
            cfg,
            track.as_mut_slice(),
        );
        proof {
            if arith::deterministic(*m) {
                assert(plane@ == smoothed_log(*m, well.gr@, cfg.radius as int, kind));
                assert forall|j: int| 0 <= j < len implies #[trigger] track@[j] == depth_at(
                    *m,
                    *well,
                    configs@[c as int],
                    kind,
                    j,
                ) by {}
            }
        }
        tracks.push(track);
        c = c + 1;
    }
    tracks
}

/// The layout that the trajectories of a batch are joined in.
spec fn are_batch_tracks<A: Arith>(
    m: A,
    tracks: Seq<Vec<Vec<u64>>>,
    wells: Seq<BeamWellInput>,
    configs: Seq<BeamConfig>,
    kept: Seq<usize>,
    kind: SmoothingKind,
    ev_lens: Seq<u32>,
) -> bool {
    &&& tracks.len() == kept.len()
    &&& ev_lens.len() == kept.len()
    &&& forall|j: int|
        0 <= j < kept.len() ==> (#[trigger] kept[j]) < wells.len() && ev_lens[j]
            == wells[kept[j] as int].gr@.len()
    &&& forall|j: int|
        0 <= j < kept.len() ==> are_tracks(
            m,
            #[trigger] tracks[j]@,
            wells[kept[j] as int],
            configs,
            kind,
        )
}

/// Mean over the configurations, row by row, well after well.
fn mean_rows<A: Arith>(
    m: &A,
    wells: &[BeamWellInput],
    configs: &[BeamConfig],
    kept: &Vec<usize>,
    tracks: &Vec<Vec<Vec<u64>>>,
    kind: SmoothingKind,
    Ghost(ev_lens): Ghost<Seq<u32>>,
) -> (mean: Vec<u64>)
    requires
        are_batch_tracks(*m, tracks@, wells@, configs@, kept@, kind, ev_lens),
    ensures
        mean@.len() == layout::before(ev_lens, ev_lens.len() as int),
        arith::deterministic(*m) ==> forall|k: int, i: int|
            0 <= k < kept@.len() && 0 <= i < ev_lens[k] ==> mean@[#[trigger] layout::row(
                ev_lens,
                k,
                i,
            )] == ensemble_mean(*m, wells@[kept@[k] as int], configs@, kind, i),
{
    let n = kept.len();
    let n_configs = configs.len();
    let mut mean: Vec<u64> = Vec::new();
    let mut k: usize = 0;
    while k < n
        invariant
            k <= n,
            n == kept@.len(),
            n_configs == configs@.len(),
            are_batch_tracks(*m, tracks@, wells@, configs@, kept@, kind, ev_lens),
            mean@.len() == layout::before(ev_lens, k as int),
            arith::deterministic(*m) ==> forall|j: int, i: int|
                0 <= j < k && 0 <= i < ev_lens[j] ==> mean@[#[trigger] layout::row(ev_lens, j, i)]
                    == ensemble_mean(*m, wells@[kept@[j] as int], configs@, kind, i),
        decreases n - k,
    {
        let well: &BeamWellInput = &wells[kept[k]];
        let of_well: &Vec<Vec<u64>> = &tracks[k];
        let len = well.gr.len();
        let ghost was = mean@;
        let mut i: usize = 0;
        while i < len
            invariant
                i <= len,
                len == well.gr@.len(),
                n_configs == configs@.len(),
                are_tracks(*m, of_well@, *well, configs@, kind),
                mean@.len() == was.len() + i,
                forall|r: int| 0 <= r < was.len() ==> #[trigger] mean@[r] == was[r],
                arith::deterministic(*m) ==> forall|j: int|
                    0 <= j < i ==> mean@[was.len() + j] == #[trigger] ensemble_mean(
                        *m,
                        *well,
                        configs@,
                        kind,
                        j,
                    ),
            decreases len - i,
        {
            let mut acc: u64 = ieee::ZERO64;
            let mut c: usize = 0;
            while c < n_configs
                invariant
                    c <= n_configs,
                    i < len,
                    len == well.gr@.len(),
                    n_configs == configs@.len(),
                    are_tracks(*m, of_well@, *well, configs@, kind),
                    arith::deterministic(*m) ==> acc == depth_sum(
                        *m,
                        *well,
                        configs@,
                        kind,
                        i as int,
                        c as int,
                    ),
                decreases n_configs - c,
            {
                assert(of_well@[c as int]@.len() == len);
                acc = arith::add64(m, acc, of_well[c][i]);
                c = c + 1;
            }
            let count = arith::from_int64(m, n_configs as u64);
            mean.push(arith::div64(m, acc, count));
            i = i + 1;
        }
        proof {
            assert(kept@[k as int] < wells@.len());
            if arith::deterministic(*m) {
                assert forall|j: int, i: int| 0 <= j < k + 1 && 0 <= i < ev_lens[j] implies mean@[
                #[trigger] layout::row(ev_lens, j, i)] == ensemble_mean(
                    *m,
                    wells@[kept@[j] as int],
                    configs@,
                    kind,
                    i,
                ) by {
                    layout::lemma_before_monotone(ev_lens, 0, j);
                    if j < k {
                        layout::lemma_before_monotone(ev_lens, j + 1, k as int);
                        assert(was[layout::row(ev_lens, j, i)] == mean@[layout::row(ev_lens, j, i)]);
                    } else {
                        assert(mean@[was.len() + i] == ensemble_mean(*m, *well, configs@, kind, i));
                    }
                }
            }
        }
        k = k + 1;
    }
    mean
}

/// Runs the beam-search ensemble over `wells` and returns, per evaluation row, the
/// mean over `configs` of the tracked depth. The cube width plays no part in the
/// result.
pub fn run_beam_reference<A: Arith>(
    m: &A,
    wells: &[BeamWellInput],
    configs: &[BeamConfig],
    opts: &BeamOptions,
) -> (r: Result<BeamOutput, PfError>)
    requires
        beam_runnable(wells@, configs@),
    ensures
        match opts.issue(configs@) {
            Some(e) => r == Err::<BeamOutput, PfError>(PfError::Config(e)),
            None => match beam::first_beam_issue(wells@, 0) {
                Some(e) => r == Err::<BeamOutput, PfError>(PfError::Config(e)),
                None => r is Ok,
            },
        },
        r matches Ok(out) ==> is_ensemble(*m, wells@, configs@, *opts, out),
{
    match opts.validate(configs) {
        Err(e) => {
            return Err(e);
        },
        Ok(()) => {},
    }
    let (batch, kept) = match FlatBeamBatch::build(wells) {
        Err(e) => {
            return Err(e);
        },
        Ok(built) => built,
    };
    let n_given = wells.len();
    let n = kept.len();
    let (radii, plane_of) = smoothing_planes(configs);
    proof {
        assert(n_given == wells@.len());
        batch.lemma_table_lengths();
        beam::lemma_kept_beam_wells(wells@, wells@.len() as int);
    }

    let mut tracks: Vec<Vec<Vec<u64>>> = Vec::new();
    let mut k: usize = 0;
    while k < n
        invariant
            k <= n,
            n == kept@.len(),
            n == batch.ev_lens@.len(),
            batch.wf(),
            beam_runnable(wells@, configs@),
            batch.gr@.len() == beam::beam_rows(wells@, wells@.len() as int),
            opts.issue(configs@) is None,
            beam::first_beam_issue(wells@, 0) is None,
            radii@.len() > 0,
            plane_of@.len() == configs@.len(),
            forall|c: int|
                0 <= c < configs@.len() ==> (#[trigger] plane_of@[c]) < radii@.len()
                    && radii@[plane_of@[c] as int] == configs@[c].radius,
            forall|j: int| 0 <= j < n ==> (#[trigger] kept@[j]) < wells@.len(),
            forall|j: int| 0 <= j < n ==> #[trigger] batch.holds(j, wells@[kept@[j] as int]),
            tracks@.len() == k,
            forall|j: int|
                0 <= j < k ==> are_tracks(
                    *m,
                    #[trigger] tracks@[j]@,
                    wells@[kept@[j] as int],
                    configs@,
                    opts.smoothing,
                ),
        decreases n - k,
    {
        let well: &BeamWellInput = &wells[kept[k]];
        proof {
            assert(batch.holds(k as int, *well));
            batch.lemma_table_lengths();
            batch.lemma_well_in_bounds(k as int);
            let (len, total) = (well.gr@.len() as int, batch.gr@.len() as int);
            assert(len == batch.ev_lens@[k as int]);
            lemma_checked_well(wells@, 0, kept@[k as int] as int);
            assert forall|c: int| 0 <= c < configs@.len() implies {
                &&& (#[trigger] configs@[c]).beam_size > 0
                &&& 5 * configs@[c].beam_size <= usize::MAX
                &&& len * configs@[c].beam_size <= usize::MAX
            } by {
                beam::lemma_checked_ensemble(configs@, 0, c);
                let size = configs@[c].beam_size as int;
                assert(len * size <= total * size) by (nonlinear_arith)
                    requires
                        0 <= len <= total,
                        size >= 0,
                ;
            }
        }
        let t = track_well(m, well, configs, &radii, &plane_of, opts.smoothing);
        tracks.push(t);
        k = k + 1;
    }

    proof {
        assert forall|j: int| 0 <= j < n implies (#[trigger] kept@[j]) < wells@.len()
            && batch.ev_lens@[j] == wells@[kept@[j] as int].gr@.len()
            && batch.ev_offsets@[j] == layout::before(batch.ev_lens@, j) by {
            assert(batch.holds(j, wells@[kept@[j] as int]));
            batch.lemma_well_in_bounds(j);
        }
    }
    let mean = mean_rows(m, wells, configs, &kept, &tracks, opts.smoothing, Ghost(batch.ev_lens@));
    let per_config = if opts.with_per_config {
        proof {
            assert forall|k: int| 0 <= k < tracks@.len() implies (#[trigger] tracks@[k])@.len()
                == configs@.len() by {
                assert(kept@[k] < wells@.len());
            }
            assert forall|k: int, c: int|
                0 <= k < tracks@.len() && 0 <= c < configs@.len() implies (
            #[trigger] tracks@[k]@[c])@.len() == batch.ev_lens@[k] by {
                assert(kept@[k] < wells@.len());
            }
        }
        Some(layout::join_channels(&tracks, configs.len(), Ghost(batch.ev_lens@)))
    } else {
        None
    };
    let out = BeamOutput {
        mean,
        per_config,
        ev_offsets: batch.ev_offsets,
        ev_lens: batch.ev_lens,
        kept,
    };
    proof {
        assert forall|k: int| 0 <= k < out.ev_lens@.len() implies #[trigger] out.ev_offsets@[k]
            == layout::before(out.ev_lens@, k) && out.ev_lens@[k]
            == wells@[out.kept@[k] as int].gr@.len() by {
            assert(kept@[k] < wells@.len());
        }
        assert forall|k: int| 0 <= k < out.kept@.len() implies #[trigger] out.ev_lens@[k]
            == wells@[out.kept@[k] as int].gr@.len() by {
            assert(kept@[k] < wells@.len());
        }
    }
    Ok(out)
}

} // verus!
