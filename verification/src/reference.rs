//! The particle filter on one processor: every seed of every well, and the blended
//! output channels.
use vstd::prelude::*;
use crate::arith;
use crate::arith::Arith;
use crate::batch;
use crate::batch::{seed_weights, PfConfig, WellInput};
use crate::blend;
use crate::blend::{blend_at, spread_at};
use crate::error::PfError;
use crate::filter::{Filter, Formulas, Task, WellParams};
use crate::ieee;
use crate::layout;
use crate::output::PfOutput;
use crate::text;
use crate::text::channel_names;

verus! {

// ---------------------------------------------------------------------------
// The output as a function
// ---------------------------------------------------------------------------

/// Parameters of a well, with the reciprocals of its grid step and its sigma.
pub open spec fn params_of<A: Arith>(m: A, well: WellInput) -> WellParams {
    WellParams {
        vmin: well.vmin,
        step: well.step,
        gs: well.gs,
        ls: well.ls,
        ir: well.ir,
        init_spr: well.init_spr,
        inv_step: arith::quotient32(m, ieee::ONE32, well.step),
        inv_gs: arith::quotient32(m, ieee::ONE32, well.gs),
        seed_base: well.seed_base,
    }
}

/// The filter of one well under one seed.
pub open spec fn well_filter<A: Arith>(
    m: A,
    f: Formulas,
    well: WellInput,
    cfg: PfConfig,
    seed: int,
) -> Filter<A> {
    Filter {
        m,
        f,
        md: well.md@,
        z: well.z@,
        gr: well.gr@,
        grid: well.grid@,
        p: params_of(m, well),
        cfg,
        seed: seed as u32,
    }
}

/// Log-likelihood of every seed of a well.
pub open spec fn well_liks<A: Arith>(m: A, f: Formulas, well: WellInput, cfg: PfConfig) -> Seq<
    u32,
> {
    Seq::new(
        cfg.n_seeds as nat,
        |s: int| well_filter(m, f, well, cfg, s).log_lik(well.md@.len() as int),
    )
}

/// Estimate of every seed of a well for row `i`.
pub open spec fn row_estimates<A: Arith>(
    m: A,
    f: Formulas,
    well: WellInput,
    cfg: PfConfig,
    i: int,
) -> Seq<u32> {
    Seq::new(cfg.n_seeds as nat, |s: int| well_filter(m, f, well, cfg, s).estimate(i))
}

/// Weights of the seeds in channel `c`.
pub open spec fn channel_weights<A: Arith>(
    m: A,
    liks: Seq<u32>,
    scales: Seq<u32>,
    c: int,
) -> Seq<u32> {
    Seq::new(
        liks.len(),
        |s: int|
            if c < scales.len() {
                batch::seed_weight(m, liks, scales[c], s)
            } else {
                batch::equal_share(m, liks.len() as int)
            },
    )
}

/// Value of channel `c` for a row, from the seeds' estimates for it and their
/// log-likelihoods: a blend by scale, the mean, or the spread.
pub open spec fn channel_value<A: Arith>(
    m: A,
    f: Formulas,
    estimates: Seq<u32>,
    liks: Seq<u32>,
    scales: Seq<u32>,
    c: int,
) -> u32 {
    if c <= scales.len() {
        blend::blended(m, estimates, channel_weights(m, liks, scales, c), liks.len() as int)
    } else {
        blend::spread(m, f, estimates)
    }
}

/// Number of output channels.
pub open spec fn n_channels(scales: Seq<u32>, with_std: bool) -> int {
    scales.len() + if with_std {
        2int
    } else {
        1
    }
}

/// Slot of the estimate of seed `s` for row `i` of well `k` in the per-seed
/// trajectories.
pub open spec fn path_slot(lens: Seq<u32>, n_seeds: int, k: int, s: int, i: int) -> int {
    layout::before(lens, k) * n_seeds + s * lens[k] + i
}

/// Slot of the log-likelihood of seed `s` of well `k`.
pub open spec fn lik_slot(n_seeds: int, k: int, s: int) -> int {
    k * n_seeds + s
}

/// Whether `out` has the shape of a filtered batch: every non-empty well in order,
/// the channels by name, and arrays of the lengths that the tables call for.
pub open spec fn is_shaped(
    wells: Seq<WellInput>,
    cfg: PfConfig,
    scales: Seq<u32>,
    out: PfOutput,
) -> bool {
    let n = out.kept@.len() as int;
    &&& out.wf()
    &&& out.kept@ == batch::kept_wells(wells, wells.len() as int)
    &&& out.ev_lens@.len() == n
    &&& forall|k: int|
        0 <= k < n ==> #[trigger] out.ev_lens@[k] == wells[out.kept@[k] as int].md@.len()
    &&& out.channels@.len() == n_channels(scales, cfg.with_std)
    &&& forall|c: int|
        #![trigger out.channels@[c]]
        0 <= c < out.channels@.len() ==> out.channels@[c]@ == text::channel_name(scales, c)
    &&& out.n_seeds == cfg.n_seeds
    &&& out.liks@.len() == n * cfg.n_seeds
    &&& out.pred_offsets@.len() == n
    &&& forall|k: int|
        0 <= k < n ==> #[trigger] out.pred_offsets@[k] == (layout::before(out.ev_lens@, k)
            * cfg.n_seeds) as u32
    &&& out.seed_paths is Some <==> cfg.with_seed_paths
    &&& out.seed_paths matches Some(paths) ==> paths@.len() == out.rows() * cfg.n_seeds
}

/// Whether `out` holds what the filters of the first `n` kept wells compute with the
/// formulas `f`.
pub open spec fn holds_first<A: Arith>(
    m: A,
    f: Formulas,
    wells: Seq<WellInput>,
    cfg: PfConfig,
    scales: Seq<u32>,
    out: PfOutput,
    n: int,
) -> bool {
    &&& forall|k: int, s: int|
        0 <= k < n && 0 <= s < cfg.n_seeds ==> out.liks@[#[trigger] lik_slot(
            cfg.n_seeds as int,
            k,
            s,
        )] == well_liks(m, f, wells[out.kept@[k] as int], cfg)[s]
    &&& forall|c: int, k: int, i: int|
        0 <= c < n_channels(scales, cfg.with_std) && 0 <= k < n && 0 <= i < out.ev_lens@[k]
            ==> out.values@[#[trigger] layout::slot(out.ev_lens@, c, k, i)] == channel_value(
            m,
            f,
            row_estimates(m, f, wells[out.kept@[k] as int], cfg, i),
            well_liks(m, f, wells[out.kept@[k] as int], cfg),
            scales,
            c,
        )
    &&& out.seed_paths matches Some(paths) ==> forall|k: int, s: int, i: int|
        0 <= k < n && 0 <= s < cfg.n_seeds && 0 <= i < out.ev_lens@[k]
            ==> paths@[#[trigger] path_slot(out.ev_lens@, cfg.n_seeds as int, k, s, i)]
            == row_estimates(m, f, wells[out.kept@[k] as int], cfg, i)[s]
}

/// Whether `out` holds what the filters of a batch compute with the formulas `f`.
pub open spec fn holds_filters<A: Arith>(
    m: A,
    f: Formulas,
    wells: Seq<WellInput>,
    cfg: PfConfig,
    scales: Seq<u32>,
    out: PfOutput,
) -> bool {
    holds_first(m, f, wells, cfg, scales, out, out.kept@.len() as int)
}

/// In an output of the shape of a batch every well has its block of trajectories where
/// they were asked for, and each block starts where the one before it ends, as long as
/// the offsets fit the table's 32 bits.
pub proof fn lemma_shaped_paths_are_in_place(
    wells: Seq<WellInput>,
    cfg: PfConfig,
    scales: Seq<u32>,
    out: PfOutput,
)
    requires
        is_shaped(wells, cfg, scales, out),
    ensures
        out.paths_wf(),
        out.seed_paths is Some <==> cfg.with_seed_paths,
        out.rows() * cfg.n_seeds <= u32::MAX ==> forall|k: int|
            0 <= k < out.ev_lens@.len() ==> #[trigger] out.pred_offsets@[k] == layout::before(
                out.ev_lens@,
                k,
            ) * cfg.n_seeds,
{
    let n = cfg.n_seeds as int;
    assert forall|k: int| 0 <= k < out.ev_lens@.len() implies {
        let start = layout::before(out.ev_lens@, k) * n;
        &&& #[trigger] out.pred_offsets@[k] <= start
        &&& start <= u32::MAX ==> out.pred_offsets@[k] == start
        &&& start + out.ev_lens@[k] * n <= out.rows() * n
    } by {
        layout::lemma_before_monotone(out.ev_lens@, 0, k);
        layout::lemma_before_monotone(out.ev_lens@, k + 1, out.ev_lens@.len() as int);
        let (a, len, b) = (
            layout::before(out.ev_lens@, k),
            out.ev_lens@[k] as int,
            out.rows(),
        );
        assert(0 <= a * n && a * n + len * n <= b * n) by (nonlinear_arith)
            requires
                0 <= a,
                a + len <= b,
                0 <= n,
        ;
    }
    assert forall|k: int|
        0 <= k < out.ev_lens@.len() && out.rows() * n
            <= u32::MAX implies #[trigger] out.pred_offsets@[k] == layout::before(out.ev_lens@, k)
        * n by {
        assert(0 <= out.ev_lens@[k] * n) by (nonlinear_arith)
            requires
                0 <= out.ev_lens@[k],
                0 <= n,
        ;
        assert(out.pred_offsets@[k] <= layout::before(out.ev_lens@, k) * n);
    }
}

/// Whether `out` is the output of the filter over `wells`.
pub open spec fn is_filtered<A: Arith>(
    m: A,
    f: Formulas,
    wells: Seq<WellInput>,
    cfg: PfConfig,
    scales: Seq<u32>,
    out: PfOutput,
) -> bool {
    &&& is_shaped(wells, cfg, scales, out)
    &&& arith::deterministic(m) ==> holds_filters(m, f, wells, cfg, scales, out)
}

// ---------------------------------------------------------------------------
// One filter
// ---------------------------------------------------------------------------

/// Parameters of a well, with the reciprocals of its grid step and its sigma.
fn well_params<A: Arith>(m: &A, wl: &WellInput) -> (p: WellParams)
    ensures
        arith::deterministic(*m) ==> p == params_of(*m, *wl),
        p.seed_base == wl.seed_base,
{
    let inv_step = arith::div32(m, ieee::ONE32, wl.step);
    let inv_gs = arith::div32(m, ieee::ONE32, wl.gs);
    WellParams {
        vmin: wl.vmin,
        step: wl.step,
        gs: wl.gs,
        ls: wl.ls,
        ir: wl.ir,
        init_spr: wl.init_spr,
        inv_step,
        inv_gs,
        seed_base: wl.seed_base,
    }
}

/// The well can be filtered: its logs and its grid cover the rows.
pub open spec fn runnable_well(well: WellInput, cfg: PfConfig) -> bool {
    &&& well.z@.len() >= well.md@.len()
    &&& well.gr@.len() >= well.md@.len()
    &&& well.md@.len() > 0 && cfg.n_particles > 0 ==> well.grid@.len() > 0
}

/// Runs one seed of one well under the given formulas: the estimate for every row goes
/// to `preds`, the total log-likelihood is returned.
pub fn run_single_with<A: Arith>(
    m: &A,
    f: Formulas,
    wl: &WellInput,
    cfg: &PfConfig,
    seed: u32,
    preds: &mut [u32],
) -> (lik: u32)
    requires
        cfg.cube_dim > 0,
        runnable_well(*wl, *cfg),
        old(preds)@.len() >= wl.md@.len(),
    ensures
        final(preds)@.len() == old(preds)@.len(),
        forall|i: int|
            wl.md@.len() <= i < old(preds)@.len() ==> #[trigger] final(preds)@[i] == old(preds)@[i],
        arith::deterministic(*m) ==> {
            let fl = well_filter(*m, f, *wl, *cfg, seed as int);
            &&& forall|i: int|
                0 <= i < wl.md@.len() ==> #[trigger] final(preds)@[i] == fl.estimate(i)
            &&& lik == fl.log_lik(wl.md@.len() as int)
        },
{
    let task = Task {
        f,
        md: &wl.md,
        z: &wl.z,
        gr: &wl.gr,
        grid: &wl.grid,
        p: well_params(m, wl),
        cfg: *cfg,
        seed,
    };
    let (ests, lik) = task.run(m);
    let n = ests.len();
    let ghost was = preds@;
    let mut i: usize = 0;
    while i < n
        invariant
            i <= n,
            n == ests@.len(),
            n == wl.md@.len(),
            preds@.len() == was.len(),
            was.len() >= n,
            forall|j: int| 0 <= j < i ==> #[trigger] preds@[j] == ests@[j],
            forall|j: int| i <= j < was.len() ==> #[trigger] preds@[j] == was[j],
        decreases n - i,
    {
        preds[i] = ests[i];
        i = i + 1;
    }
    lik
}

/// Runs one seed of one well: the estimate for every row goes to `preds`, the total
/// log-likelihood is returned. The formulas are those of the kernels, statement for
/// statement.
pub fn run_single<A: Arith>(
    m: &A,
    wl: &WellInput,
    cfg: &PfConfig,
    seed: u32,
    preds: &mut [u32],
) -> (lik: u32)
    requires
        cfg.cube_dim > 0,
        runnable_well(*wl, *cfg),
        old(preds)@.len() >= wl.md@.len(),
    ensures
        final(preds)@.len() == old(preds)@.len(),
        forall|i: int|
            wl.md@.len() <= i < old(preds)@.len() ==> #[trigger] final(preds)@[i] == old(preds)@[i],
        arith::deterministic(*m) ==> {
            let fl = well_filter(*m, Formulas::Pinned, *wl, *cfg, seed as int);
            &&& forall|i: int|
                0 <= i < wl.md@.len() ==> #[trigger] final(preds)@[i] == fl.estimate(i)
            &&& lik == fl.log_lik(wl.md@.len() as int)
        },
{
    run_single_with(m, Formulas::Pinned, wl, cfg, seed, preds)
}

// ---------------------------------------------------------------------------
// All seeds of a well
// ---------------------------------------------------------------------------

/// Place of row `i` of seed `s` in the trajectories of a well of `len` rows.
pub open spec fn seed_row(s: int, len: int, i: int) -> int {
    s * len + i
}

/// The trajectories and log-likelihoods of a well, seed after seed.
pub open spec fn are_seed_runs<A: Arith>(
    m: A,
    f: Formulas,
    well: WellInput,
    cfg: PfConfig,
    preds: Seq<u32>,
    liks: Seq<u32>,
) -> bool {
    let len = well.md@.len() as int;
    &&& preds.len() == cfg.n_seeds * len
    &&& liks.len() == cfg.n_seeds
    &&& arith::deterministic(m) ==> {
        &&& liks == well_liks(m, f, well, cfg)
        &&& forall|s: int, i: int|
            0 <= s < cfg.n_seeds && 0 <= i < len ==> preds[#[trigger] seed_row(s, len, i)]
                == row_estimates(m, f, well, cfg, i)[s]
    }
}

/// Runs every seed of one well.
fn run_seeds<A: Arith>(m: &A, f: Formulas, wl: &WellInput, cfg: &PfConfig) -> (r: (
    Vec<u32>,
    Vec<u32>,
))
    requires
        cfg.cube_dim > 0,
        runnable_well(*wl, *cfg),
        cfg.n_seeds * wl.md@.len() <= usize::MAX,
    ensures
        are_seed_runs(*m, f, *wl, *cfg, r.0@, r.1@),
{
    let len = wl.md.len();
    let seeds = cfg.n_seeds;
    let mut preds: Vec<u32> = Vec::new();
    let mut liks: Vec<u32> = Vec::new();
    let mut s: u32 = 0;
    proof {
        assert(0 * len == 0) by (nonlinear_arith);
    }
    while s < seeds
        invariant
            s <= seeds,
            seeds == cfg.n_seeds,
            len == wl.md@.len(),
            cfg.cube_dim > 0,
            runnable_well(*wl, *cfg),
            preds@.len() == s * len,
            liks@.len() == s,
            arith::deterministic(*m) ==> forall|t: int|
                0 <= t < s ==> #[trigger] liks@[t] == well_liks(
                    *m,
                    f,
                    *wl,
                    *cfg,
                )[t],
            arith::deterministic(*m) ==> forall|t: int, i: int|
                0 <= t < s && 0 <= i < len ==> preds@[#[trigger] seed_row(t, len as int, i)]
                    == row_estimates(*m, f, *wl, *cfg, i)[t],
        decreases seeds - s,
    {
        let mut own: Vec<u32> = vec![0; len];
        let lik = run_single_with(m, f, wl, cfg, s, own.as_mut_slice());
        let ghost was = preds@;
        preds.extend_from_slice(&own);
        liks.push(lik);
        proof {
            assert(s * len + len == (s + 1) * len) by (nonlinear_arith);
            if arith::deterministic(*m) {
                assert forall|t: int, i: int|
                    0 <= t < s + 1 && 0 <= i < len implies preds@[#[trigger] seed_row(
                    t,
                    len as int,
                    i,
                )] == row_estimates(*m, f, *wl, *cfg, i)[t] by {
                    let at = seed_row(t, len as int, i);
                    if t < s {
                        assert(0 <= at < s * len) by (nonlinear_arith)
                            requires
                                at == t * len + i,
                                0 <= t < s,
                                0 <= i < len,
                        ;
                        assert(preds@[at] == was[at]);
                    } else {
                        assert(preds@[at] == own@[i]);
                    }
                }
            }
        }
        s = s + 1;
    }
    proof {
        if arith::deterministic(*m) {
            assert(liks@ =~= well_liks(*m, f, *wl, *cfg));
        }
    }
    (preds, liks)
}

/// Weights of the seeds in channel `c`.
pub(crate) fn weigh_channel<A: Arith>(m: &A, liks: &[u32], scales: &[u32], c: usize) -> (wts: Vec<
    u32,
>)
    ensures
        wts@.len() == liks@.len(),
        arith::deterministic(*m) ==> wts@ == channel_weights(*m, liks@, scales@, c as int),
{
    let n = liks.len();
    let mut wts: Vec<u32> = vec![0; n];
    if c < scales.len() {
        seed_weights(m, liks, scales[c], wts.as_mut_slice());
    } else {
        let count = arith::from_int32(m, n as u64);
        let share = arith::div32(m, ieee::ONE32, count);
        let mut s: usize = 0;
        while s < n
            invariant
                s <= n,
                wts@.len() == n,
                forall|t: int| 0 <= t < s ==> #[trigger] wts@[t] == share,
            decreases n - s,
        {
            wts.set(s, share);
            s = s + 1;
        }
    }
    proof {
        if arith::deterministic(*m) {
            assert(wts@ =~= channel_weights(*m, liks@, scales@, c as int));
        }
    }
    wts
}

/// The output channels of a well.
spec fn are_channels<A: Arith>(
    m: A,
    f: Formulas,
    well: WellInput,
    cfg: PfConfig,
    scales: Seq<u32>,
    rows: Seq<Vec<u32>>,
) -> bool {
    &&& rows.len() == n_channels(scales, cfg.with_std)
    &&& forall|c: int| 0 <= c < rows.len() ==> (#[trigger] rows[c])@.len() == well.md@.len()
    &&& arith::deterministic(m) ==> forall|c: int, i: int|
        0 <= c < rows.len() && 0 <= i < well.md@.len() ==> #[trigger] rows[c]@[i] == channel_value(
            m,
            f,
            row_estimates(m, f, well, cfg, i),
            well_liks(m, f, well, cfg),
            scales,
            c,
        )
}

/// Blends the trajectories of a well into its output channels.
fn blend_well<A: Arith>(
    m: &A,
    f: Formulas,
    wl: &WellInput,
    cfg: &PfConfig,
    scales: &[u32],
    preds: &Vec<u32>,
    liks: &Vec<u32>,
) -> (rows: Vec<Vec<u32>>)
    requires
        are_seed_runs(*m, f, *wl, *cfg, preds@, liks@),
        scales@.len() + 2 <= usize::MAX,
    ensures
        are_channels(*m, f, *wl, *cfg, scales@, rows@),
{
    let len = wl.md.len();
    let seeds: usize = liks.len();
    let n_blends: usize = scales.len() + 1;
    let mut rows: Vec<Vec<u32>> = Vec::new();
    let mut c: usize = 0;
    while c < n_blends
        invariant
            c <= n_blends,
            n_blends == scales@.len() + 1,
            len == wl.md@.len(),
            seeds == liks@.len(),
            are_seed_runs(*m, f, *wl, *cfg, preds@, liks@),
            rows@.len() == c,
            forall|d: int| 0 <= d < c ==> (#[trigger] rows@[d])@.len() == len,
            arith::deterministic(*m) ==> forall|d: int, i: int|
                0 <= d < c && 0 <= i < len ==> #[trigger] rows@[d]@[i] == channel_value(
                    *m,
                    f,
                    row_estimates(*m, f, *wl, *cfg, i),
                    well_liks(*m, f, *wl, *cfg),
                    scales@,
                    d,
                ),
        decreases n_blends - c,
    {
        let wts = weigh_channel(m, liks, scales, c);
        let mut out: Vec<u32> = Vec::new();
        let mut i: usize = 0;
        while i < len
            invariant
                i <= len,
                c < n_blends,
                n_blends == scales@.len() + 1,
                len == wl.md@.len(),
                seeds == liks@.len(),
                seeds == wts@.len(),
                are_seed_runs(*m, f, *wl, *cfg, preds@, liks@),
                arith::deterministic(*m) ==> wts@ == channel_weights(*m, liks@, scales@, c as int),
                out@.len() == i,
                arith::deterministic(*m) ==> forall|j: int|
                    0 <= j < i ==> #[trigger] out@[j] == channel_value(
                        *m,
                        f,
                        row_estimates(*m, f, *wl, *cfg, j),
                        well_liks(*m, f, *wl, *cfg),
                        scales@,
                        c as int,
                    ),
            decreases len - i,
        {
            let v = blend_at(m, preds, 0, len, i, &wts);
            proof {
                if arith::deterministic(*m) {
                    lemma_column(*m, f, *wl, *cfg, preds@, liks@, i as int);
                }
            }
            out.push(v);
            i = i + 1;
        }
        rows.push(out);
        c = c + 1;
    }
    if cfg.with_std {
        let mut out: Vec<u32> = Vec::new();
        let mut i: usize = 0;
        while i < len
            invariant
                i <= len,
                len == wl.md@.len(),
                seeds == liks@.len(),
                are_seed_runs(*m, f, *wl, *cfg, preds@, liks@),
                out@.len() == i,
                arith::deterministic(*m) ==> forall|j: int|
                    0 <= j < i ==> #[trigger] out@[j] == channel_value(
                        *m,
                        f,
                        row_estimates(*m, f, *wl, *cfg, j),
                        well_liks(*m, f, *wl, *cfg),
                        scales@,
                        scales@.len() + 1int,
                    ),
            decreases len - i,
        {
            let v = spread_at(m, f, preds, 0, len, i, seeds);
            proof {
                if arith::deterministic(*m) {
                    lemma_column(*m, f, *wl, *cfg, preds@, liks@, i as int);
                }
            }
            out.push(v);
            i = i + 1;
        }
        rows.push(out);
    }
    rows
}

/// A row of the trajectories, seed by seed, is what the seeds estimate for it.
proof fn lemma_column<A: Arith>(
    m: A,
    f: Formulas,
    well: WellInput,
    cfg: PfConfig,
    preds: Seq<u32>,
    liks: Seq<u32>,
    i: int,
)
    requires
        arith::deterministic(m),
        are_seed_runs(m, f, well, cfg, preds, liks),
        0 <= i < well.md@.len(),
    ensures
        blend::column(preds, 0, well.md@.len() as int, cfg.n_seeds as int, i) == row_estimates(
            m,
            f,
            well,
            cfg,
            i,
        ),
{
    let len = well.md@.len() as int;
    let a = blend::column(preds, 0, len, cfg.n_seeds as int, i);
    let b = row_estimates(m, f, well, cfg, i);
    assert forall|s: int| 0 <= s < cfg.n_seeds implies #[trigger] a[s] == b[s] by {
        assert(seed_row(s, len, i) == 0 + s * len + i);
    }
    assert(a =~= b);
}

// ---------------------------------------------------------------------------
// The whole batch
// ---------------------------------------------------------------------------

/// The batch's buffers can be addressed.
pub open spec fn runnable(wells: Seq<WellInput>, cfg: PfConfig, scales: Seq<u32>) -> bool {
    &&& batch::rows_of(wells) <= u32::MAX
    &&& batch::rows_of(wells) * cfg.n_seeds <= usize::MAX
    &&& scales.len() + 2 <= usize::MAX
}

/// Whether [`run_reference`] can take the batch.
pub fn is_runnable(wells: &[WellInput], cfg: &PfConfig, scales: &[u32]) -> (r: bool)
    ensures
        r == runnable(wells@, *cfg, scales@),
{
    match batch::count_rows(wells) {
        None => false,
        Some(rows) => rows.checked_mul(cfg.n_seeds as usize).is_some() && scales.len()
            <= usize::MAX - 2,
    }
}

/// Indices of the wells with rows.
fn keep_wells(wells: &[WellInput]) -> (kept: Vec<usize>)
    ensures
        kept@ == batch::kept_wells(wells@, wells@.len() as int),
{
    let n = wells.len();
    let mut kept: Vec<usize> = Vec::new();
    let mut i: usize = 0;
    while i < n
        invariant
            i <= n,
            n == wells@.len(),
            kept@ == batch::kept_wells(wells@, i as int),
        decreases n - i,
    {
        if wells[i].md.len() > 0 {
            kept.push(i);
        }
        i = i + 1;
    }
    kept
}

/// Rows of the first `n` kept wells are rows of the batch.
proof fn lemma_kept_rows(wells: Seq<WellInput>, n: int)
    requires
        0 <= n <= wells.len(),
        wells.len() <= usize::MAX,
    ensures
        kept_rows(wells, batch::kept_wells(wells, n), batch::kept_wells(wells, n).len() as int)
            == batch::total_over(wells, |w: WellInput| w.md@.len() as int, n),
    decreases n,
{
    if n > 0 {
        lemma_kept_rows(wells, n - 1);
        let prev = batch::kept_wells(wells, n - 1);
        let now = batch::kept_wells(wells, n);
        if wells[n - 1].md@.len() > 0 {
            lemma_kept_rows_agree(wells, now, prev, prev.len() as int);
        }
    }
}

/// Rows of the first `n` of the wells `kept`.
spec fn kept_rows(wells: Seq<WellInput>, kept: Seq<usize>, n: int) -> int
    decreases n,
{
    if n <= 0 {
        0
    } else {
        kept_rows(wells, kept, n - 1) + wells[kept[n - 1] as int].md@.len()
    }
}

proof fn lemma_kept_rows_agree(wells: Seq<WellInput>, a: Seq<usize>, b: Seq<usize>, n: int)
    requires
        forall|i: int| 0 <= i < n ==> a[i] == b[i],
    ensures
        kept_rows(wells, a, n) == kept_rows(wells, b, n),
    decreases n,
{
    if n > 0 {
        lemma_kept_rows_agree(wells, a, b, n - 1);
    }
}

proof fn lemma_kept_rows_monotone(wells: Seq<WellInput>, kept: Seq<usize>, i: int, j: int)
    requires
        0 <= i <= j,
    ensures
        0 <= kept_rows(wells, kept, i) <= kept_rows(wells, kept, j),
    decreases j - i, i,
{
    if i < j {
        lemma_kept_rows_monotone(wells, kept, i, j - 1);
    } else if i > 0 {
        lemma_kept_rows_monotone(wells, kept, i - 1, i - 1);
    }
}

/// The offset tables of a batch of kept wells.
struct Tables {
    ev_offsets: Vec<u32>,
    ev_lens: Vec<u32>,
    pred_offsets: Vec<u32>,
}

impl Tables {
    spec fn wf(self, wells: Seq<WellInput>, kept: Seq<usize>, n_seeds: u32) -> bool {
        &&& self.ev_offsets@.len() == kept.len()
        &&& self.ev_lens@.len() == kept.len()
        &&& self.pred_offsets@.len() == kept.len()
        &&& forall|k: int|
            0 <= k < kept.len() ==> #[trigger] self.ev_lens@[k] == wells[kept[k] as int].md@.len()
        &&& forall|k: int|
            0 <= k < kept.len() ==> #[trigger] self.ev_offsets@[k] == layout::before(
                self.ev_lens@,
                k,
            )
        &&& forall|k: int|
            0 <= k < kept.len() ==> #[trigger] self.pred_offsets@[k] == (layout::before(
                self.ev_lens@,
                k,
            ) * n_seeds) as u32
        &&& layout::before(self.ev_lens@, kept.len() as int) == kept_rows(
            wells,
            kept,
            kept.len() as int,
        )
    }
}

/// Computes the offset tables.
fn tabulate(wells: &[WellInput], kept: &Vec<usize>, n_seeds: u32) -> (t: Tables)
    requires
        forall|k: int| 0 <= k < kept@.len() ==> (#[trigger] kept@[k]) < wells@.len(),
        kept_rows(wells@, kept@, kept@.len() as int) <= u32::MAX,
        kept_rows(wells@, kept@, kept@.len() as int) * n_seeds <= usize::MAX,
    ensures
        t.wf(wells@, kept@, n_seeds),
{
    let n = kept.len();
    let mut ev_offsets: Vec<u32> = Vec::new();
    let mut ev_lens: Vec<u32> = Vec::new();
    let mut pred_offsets: Vec<u32> = Vec::new();
    let mut total: u32 = 0;
    let mut k: usize = 0;
    while k < n
        invariant
            k <= n,
            n == kept@.len(),
            forall|j: int| 0 <= j < kept@.len() ==> (#[trigger] kept@[j]) < wells@.len(),
            kept_rows(wells@, kept@, n as int) <= u32::MAX,
            kept_rows(wells@, kept@, n as int) * n_seeds <= usize::MAX,
            total == kept_rows(wells@, kept@, k as int),
            total == layout::before(ev_lens@, k as int),
            ev_lens@.len() == k,
            ev_offsets@.len() == k,
            pred_offsets@.len() == k,
            forall|j: int|
                0 <= j < k ==> #[trigger] ev_lens@[j] == wells@[kept@[j] as int].md@.len(),
            forall|j: int|
                0 <= j < k ==> #[trigger] ev_offsets@[j] == layout::before(ev_lens@, j),
            forall|j: int|
                0 <= j < k ==> #[trigger] pred_offsets@[j] == (layout::before(ev_lens@, j)
                    * n_seeds) as u32,
        decreases n - k,
    {
        proof {
            lemma_kept_rows_monotone(wells@, kept@, k + 1, n as int);
            lemma_kept_rows_monotone(wells@, kept@, 0, k as int);
            let (a, b, s) = (
                total as int,
                kept_rows(wells@, kept@, n as int),
                n_seeds as int,
            );
            assert(0 <= a * s <= b * s) by (nonlinear_arith)
                requires
                    0 <= a <= b,
                    s >= 0,
            ;
        }
        let len = wells[kept[k]].md.len() as u32;
        let ghost old_lens = ev_lens@;
        ev_offsets.push(total);
        pred_offsets.push((total as usize * n_seeds as usize) as u32);
        ev_lens.push(len);
        proof {
            assert forall|j: int| 0 <= j <= k implies #[trigger] layout::before(ev_lens@, j)
                == layout::before(old_lens, j) by {
                layout::lemma_before_agree(ev_lens@, old_lens, j);
            }
            assert(layout::before(ev_lens@, k + 1) == layout::before(ev_lens@, k as int) + len);
        }
        total = total + len;
        k = k + 1;
    }
    Tables { ev_offsets, ev_lens, pred_offsets }
}

/// Filters every well and blends its seeds.
///
/// The channels are one per scale, then the mean, then the spread across seeds where
/// it was asked for.
pub fn run_reference_with<A: Arith>(
    m: &A,
    f: Formulas,
    wells: &[WellInput],
    cfg: &PfConfig,
    scales: &[u32],
) -> (r: Result<PfOutput, PfError>)
    requires
        runnable(wells@, *cfg, scales@),
    ensures
        match cfg.issue() {
            Some(e) => r == Err::<PfOutput, PfError>(PfError::Config(e)),
            None => match batch::first_issue(wells@, 0) {
                Some(e) => r == Err::<PfOutput, PfError>(PfError::Config(e)),
                None => r is Ok,
            },
        },
        r matches Ok(out) ==> is_filtered(*m, f, wells@, *cfg, scales@, out),
{
    match cfg.validate() {
        Err(e) => {
            return Err(e);
        },
        Ok(()) => {},
    }
    match batch::check_wells(wells) {
        Err(e) => {
            return Err(e);
        },
        Ok(()) => {},
    }
    let n_given = wells.len();
    let kept = keep_wells(wells);
    proof {
        assert(n_given == wells@.len());
        batch::lemma_kept_wells(wells@, wells@.len() as int);
        lemma_kept_rows(wells@, wells@.len() as int);
    }
    let tables = tabulate(wells, &kept, cfg.n_seeds);
    let n = kept.len();
    let mut parts: Vec<Vec<Vec<u32>>> = Vec::new();
    let mut liks: Vec<Vec<u32>> = Vec::new();
    let mut paths: Vec<Vec<u32>> = Vec::new();
    let mut k: usize = 0;
    while k < n
        invariant
            k <= n,
            n == kept@.len(),
            cfg.issue() is None,
            batch::first_issue(wells@, 0) is None,
            runnable(wells@, *cfg, scales@),
            tables.wf(wells@, kept@, cfg.n_seeds),
            kept_rows(wells@, kept@, n as int) == batch::rows_of(wells@),
            forall|j: int| 0 <= j < n ==> (#[trigger] kept@[j]) < wells@.len(),
            forall|j: int| 0 <= j < n ==> wells@[(#[trigger] kept@[j]) as int].md@.len() > 0,
            parts@.len() == k,
            liks@.len() == k,
            forall|j: int|
                0 <= j < k ==> are_channels(
                    *m,
                    f,
                    wells@[kept@[j] as int],
                    *cfg,
                    scales@,
                    #[trigger] parts@[j]@,
                ),
            forall|j: int| 0 <= j < k ==> (#[trigger] liks@[j])@.len() == cfg.n_seeds,
            arith::deterministic(*m) ==> forall|j: int|
                0 <= j < k ==> (#[trigger] liks@[j])@ == well_liks(
                    *m,
                    f,
                    wells@[kept@[j] as int],
                    *cfg,
                ),
            cfg.with_seed_paths ==> paths@.len() == k,
            cfg.with_seed_paths ==> forall|j: int|
                0 <= j < k ==> are_paths(
                    *m,
                    f,
                    wells@[kept@[j] as int],
                    *cfg,
                    (#[trigger] paths@[j])@,
                ),
        decreases n - k,
    {
        let wl: &WellInput = &wells[kept[k]];
        proof {
            lemma_one_well_fits(wells@, kept@, *cfg, k as int);
            layout::lemma_pow2_is_positive(cfg.cube_dim as int);
            assert(wells@[kept@[k as int] as int].md@.len() > 0);
            batch::lemma_checked_well(wells@, 0, kept@[k as int] as int);
        }
        let (preds, own) = run_seeds(m, f, wl, cfg);
        let rows = blend_well(m, f, wl, cfg, scales, &preds, &own);
        parts.push(rows);
        liks.push(own);
        if cfg.with_seed_paths {
            paths.push(preds);
        }
        k = k + 1;
    }
    proof {
        assert forall|j: int| 0 <= j < n implies (#[trigger] parts@[j])@.len() == n_channels(
            scales@,
            cfg.with_std,
        ) by {
            assert(kept@[j] < wells@.len());
        }
        assert forall|j: int, c: int|
            0 <= j < n && 0 <= c < n_channels(scales@, cfg.with_std) implies (
        #[trigger] parts@[j]@[c])@.len() == tables.ev_lens@[j] by {
            assert(kept@[j] < wells@.len());
        }
    }
    let channels = channel_names(scales, cfg.with_std);
    let values = layout::join_channels(&parts, channels.len(), Ghost(tables.ev_lens@));
    let flat_liks = layout::flatten(&liks);
    let seed_paths = if cfg.with_seed_paths {
        Some(layout::flatten(&paths))
    } else {
        None
    };
    let out = PfOutput {
        channels,
        values,
        liks: flat_liks,
        n_seeds: cfg.n_seeds,
        seed_paths,
        pred_offsets: tables.pred_offsets,
        ev_offsets: tables.ev_offsets,
        ev_lens: tables.ev_lens,
        kept,
    };
    proof {
        lemma_lik_lists(liks@, cfg.n_seeds as int, n as int);
        if cfg.with_seed_paths {
            assert forall|j: int| 0 <= j < n implies (#[trigger] paths@[j])@.len() == cfg.n_seeds
                * out.ev_lens@[j] by {
                assert(kept@[j] < wells@.len());
            }
            lemma_path_lists(paths@, out.ev_lens@, cfg.n_seeds as int, n as int);
        }
        if arith::deterministic(*m) {
            assert forall|k: int, s: int| 0 <= k < n && 0 <= s < cfg.n_seeds implies out.liks@[
            #[trigger] lik_slot(cfg.n_seeds as int, k, s)] == well_liks(
                *m,
                f,
                wells@[out.kept@[k] as int],
                *cfg,
            )[s] by {
                lemma_lik_lists(liks@, cfg.n_seeds as int, k);
                assert(layout::list_place(liks@, k, s) == lik_slot(cfg.n_seeds as int, k, s));
            }
            if cfg.with_seed_paths {
                assert forall|k: int, s: int, i: int|
                    0 <= k < n && 0 <= s < cfg.n_seeds && 0 <= i < out.ev_lens@[k] implies (
                out.seed_paths->0)@[#[trigger] path_slot(
                    out.ev_lens@,
                    cfg.n_seeds as int,
                    k,
                    s,
                    i,
                )] == row_estimates(
                    *m,
                    f,
                    wells@[out.kept@[k] as int],
                    *cfg,
                    i,
                )[s] by {
                    let len = out.ev_lens@[k] as int;
                    lemma_path_lists(paths@, out.ev_lens@, cfg.n_seeds as int, k);
                    blend::lemma_in_block(0, len, cfg.n_seeds as int, s, i);
                    let at = seed_row(s, len, i);
                    assert(layout::list_place(paths@, k, at) == path_slot(
                        out.ev_lens@,
                        cfg.n_seeds as int,
                        k,
                        s,
                        i,
                    ));
                    assert(are_paths(*m, f, wells@[kept@[k] as int], *cfg, paths@[k]@));
                }
            }
        }
    }
    Ok(out)
}

/// Runs the whole batch on one processor, with the kernels' formulas: bit for bit what
/// [`crate::run_pf`] returns, errors included.
pub fn run_reference<A: Arith>(
    m: &A,
    wells: &[WellInput],
    cfg: &PfConfig,
    scales: &[u32],
) -> (r: Result<PfOutput, PfError>)
    requires
        runnable(wells@, *cfg, scales@),
    ensures
        match cfg.issue() {
            Some(e) => r == Err::<PfOutput, PfError>(PfError::Config(e)),
            None => match batch::first_issue(wells@, 0) {
                Some(e) => r == Err::<PfOutput, PfError>(PfError::Config(e)),
                None => r is Ok,
            },
        },
        r matches Ok(out) ==> is_filtered(*m, Formulas::Pinned, wells@, *cfg, scales@, out),
{
    run_reference_with(m, Formulas::Pinned, wells, cfg, scales)
}

/// The trajectories of a well, seed after seed.
spec fn are_paths<A: Arith>(
    m: A,
    f: Formulas,
    well: WellInput,
    cfg: PfConfig,
    preds: Seq<u32>,
) -> bool {
    let len = well.md@.len() as int;
    &&& preds.len() == cfg.n_seeds * len
    &&& arith::deterministic(m) ==> forall|s: int, i: int|
        0 <= s < cfg.n_seeds && 0 <= i < len ==> preds[#[trigger] seed_row(s, len, i)]
            == row_estimates(m, f, well, cfg, i)[s]
}

/// One kept well's trajectories can be addressed.
proof fn lemma_one_well_fits(wells: Seq<WellInput>, kept: Seq<usize>, cfg: PfConfig, k: int)
    requires
        0 <= k < kept.len(),
        kept_rows(wells, kept, kept.len() as int) * cfg.n_seeds <= usize::MAX,
    ensures
        cfg.n_seeds * wells[kept[k] as int].md@.len() <= usize::MAX,
{
    lemma_kept_rows_monotone(wells, kept, 0, k);
    lemma_kept_rows_monotone(wells, kept, k + 1, kept.len() as int);
    let (a, b, s) = (
        wells[kept[k] as int].md@.len() as int,
        kept_rows(wells, kept, kept.len() as int),
        cfg.n_seeds as int,
    );
    assert(s * a <= b * s) by (nonlinear_arith)
        requires
            0 <= a <= b,
            s >= 0,
    ;
}

/// Lists of `n_seeds` elements start at multiples of `n_seeds`.
pub(crate) proof fn lemma_lik_lists(lists: Seq<Vec<u32>>, n_seeds: int, k: int)
    requires
        0 <= k <= lists.len(),
        forall|j: int| 0 <= j < k ==> (#[trigger] lists[j])@.len() == n_seeds,
    ensures
        layout::list_start(lists, k) == k * n_seeds,
    decreases k,
{
    if k > 0 {
        lemma_lik_lists(lists, n_seeds, k - 1);
        assert((k - 1) * n_seeds + n_seeds == k * n_seeds) by (nonlinear_arith);
    } else {
        assert(0 * n_seeds == 0) by (nonlinear_arith);
    }
}

/// Trajectory blocks start at their rows' offset times the number of seeds.
pub(crate) proof fn lemma_path_lists(lists: Seq<Vec<u32>>, lens: Seq<u32>, n_seeds: int, k: int)
    requires
        0 <= k <= lists.len(),
        lists.len() == lens.len(),
        forall|j: int| 0 <= j < k ==> (#[trigger] lists[j])@.len() == n_seeds * lens[j],
    ensures
        layout::list_start(lists, k) == layout::before(lens, k) * n_seeds,
    decreases k,
{
    if k > 0 {
        lemma_path_lists(lists, lens, n_seeds, k - 1);
        let (a, b) = (layout::before(lens, k - 1), lens[k - 1] as int);
        assert(a * n_seeds + n_seeds * b == (a + b) * n_seeds) by (nonlinear_arith);
    } else {
        assert(0 * n_seeds == 0) by (nonlinear_arith);
    }
}

/// The output is a function of the wells, the scales and the configuration, and of
/// the latter the budget plays no part: running again, in chunks of another size, or on
/// one processor in place of the planned kernels, gives the same bits.
pub proof fn lemma_filtered_is_reproducible<A: Arith>(
    m: A,
    f: Formulas,
    wells: Seq<WellInput>,
    scales: Seq<u32>,
    p: PfConfig,
    a: PfOutput,
    q: PfConfig,
    b: PfOutput,
)
    requires
        arith::deterministic(m),
        is_filtered(m, f, wells, p, scales, a),
        is_filtered(m, f, wells, q, scales, b),
        p == (PfConfig { pred_budget_bytes: p.pred_budget_bytes, ..q }),
    ensures
        a.kept@ == b.kept@,
        a.ev_lens@ == b.ev_lens@,
        a.ev_offsets@ == b.ev_offsets@,
        a.pred_offsets@ == b.pred_offsets@,
        a.values@ == b.values@,
        a.liks@ == b.liks@,
        a.channels@.len() == b.channels@.len(),
        forall|c: int|
            0 <= c < a.channels@.len() ==> (#[trigger] a.channels@[c])@ == b.channels@[c]@,
        a.seed_paths is Some == b.seed_paths is Some,
        a.seed_paths is Some ==> a.seed_paths->0@ == b.seed_paths->0@,
{
    let n = a.kept@.len() as int;
    let seeds = p.n_seeds as int;
    assert(a.ev_lens@ =~= b.ev_lens@);
    assert(a.ev_offsets@ =~= b.ev_offsets@);
    assert(a.pred_offsets@ =~= b.pred_offsets@);
    assert forall|k: int| 0 <= k < n implies well_liks(m, f, wells[#[trigger] a.kept@[k] as int], p)
        == well_liks(m, f, wells[a.kept@[k] as int], q) by {
        lemma_same_liks(m, f, wells[a.kept@[k] as int], p, q);
    }
    assert forall|k: int, i: int|
        #![trigger layout::row(a.ev_lens@, k, i)]
        0 <= k < n && 0 <= i < a.ev_lens@[k] implies row_estimates(
        m,
        f,
        wells[a.kept@[k] as int],
        p,
        i,
    ) == row_estimates(m, f, wells[a.kept@[k] as int], q, i) by {
        lemma_same_estimates(m, f, wells[a.kept@[k] as int], p, q, i);
    }
    assert forall|r: int| 0 <= r < a.values@.len() implies #[trigger] a.values@[r]
        == b.values@[r] by {
        let (c, k, i) = layout::lemma_slot_has_owner(
            a.ev_lens@,
            n_channels(scales, p.with_std),
            r,
        );
        assert(layout::slot(b.ev_lens@, c, k, i) == r);
        assert(layout::row(a.ev_lens@, k, i) == layout::row(b.ev_lens@, k, i));
        assert(a.kept@[k] == b.kept@[k]);
    }
    assert(a.values@ =~= b.values@);
    assert forall|r: int| 0 <= r < a.liks@.len() implies #[trigger] a.liks@[r] == b.liks@[r] by {
        let (k, s) = lemma_lik_slot_has_owner(n, seeds, r);
        assert(lik_slot(seeds, k, s) == r);
        assert(a.kept@[k] == b.kept@[k]);
    }
    assert(a.liks@ =~= b.liks@);
    if p.with_seed_paths {
        let (x, y) = (a.seed_paths->0@, b.seed_paths->0@);
        assert forall|r: int| 0 <= r < x.len() implies #[trigger] x[r] == y[r] by {
            let (k, s, i) = lemma_path_slot_has_owner(a.ev_lens@, seeds, n, r);
            assert(path_slot(b.ev_lens@, seeds, k, s, i) == r);
            assert(layout::row(a.ev_lens@, k, i) == layout::row(b.ev_lens@, k, i));
            assert(a.kept@[k] == b.kept@[k]);
        }
        assert(x =~= y);
    }
}

/// Wells are filtered independently of their neighbours: a well that stands in two
/// batches, wherever it stands, comes out the same.
pub proof fn lemma_wells_are_independent<A: Arith>(
    m: A,
    f: Formulas,
    cfg: PfConfig,
    scales: Seq<u32>,
    wells: Seq<WellInput>,
    a: PfOutput,
    k: int,
    others: Seq<WellInput>,
    b: PfOutput,
    j: int,
)
    requires
        arith::deterministic(m),
        is_filtered(m, f, wells, cfg, scales, a),
        is_filtered(m, f, others, cfg, scales, b),
        0 <= k < a.kept@.len(),
        0 <= j < b.kept@.len(),
        wells[a.kept@[k] as int] == others[b.kept@[j] as int],
    ensures
        a.ev_lens@[k] == b.ev_lens@[j],
        forall|s: int|
            0 <= s < cfg.n_seeds ==> a.liks@[#[trigger] lik_slot(cfg.n_seeds as int, k, s)]
                == b.liks@[lik_slot(cfg.n_seeds as int, j, s)],
        forall|c: int, i: int|
            0 <= c < n_channels(scales, cfg.with_std) && 0 <= i < a.ev_lens@[k]
                ==> a.values@[#[trigger] layout::slot(a.ev_lens@, c, k, i)]
                == b.values@[layout::slot(b.ev_lens@, c, j, i)],
        cfg.with_seed_paths ==> forall|s: int, i: int|
            0 <= s < cfg.n_seeds && 0 <= i < a.ev_lens@[k]
                ==> a.seed_paths->0@[#[trigger] path_slot(
                a.ev_lens@,
                cfg.n_seeds as int,
                k,
                s,
                i,
            )] == b.seed_paths->0@[path_slot(b.ev_lens@, cfg.n_seeds as int, j, s, i)],
{
}

proof fn lemma_same_liks<A: Arith>(m: A, f: Formulas, well: WellInput, p: PfConfig, q: PfConfig)
    requires
        p == (PfConfig { pred_budget_bytes: p.pred_budget_bytes, ..q }),
    ensures
        well_liks(m, f, well, p) == well_liks(m, f, well, q),
{
    let len = well.md@.len() as int;
    let (a, b) = (well_liks(m, f, well, p), well_liks(m, f, well, q));
    assert forall|s: int| 0 <= s < p.n_seeds implies #[trigger] a[s] == b[s] by {
        let (x, y) = (well_filter(m, f, well, p, s), well_filter(m, f, well, q, s));
        if len > 0 {
            crate::filter::lemma_filter_is_causal(x, y, len - 1);
        }
    }
    assert(a =~= b);
}

proof fn lemma_same_estimates<A: Arith>(
    m: A,
    f: Formulas,
    well: WellInput,
    p: PfConfig,
    q: PfConfig,
    i: int,
)
    requires
        p == (PfConfig { pred_budget_bytes: p.pred_budget_bytes, ..q }),
        0 <= i,
    ensures
        row_estimates(m, f, well, p, i) == row_estimates(m, f, well, q, i),
{
    let (a, b) = (row_estimates(m, f, well, p, i), row_estimates(m, f, well, q, i));
    assert forall|s: int| 0 <= s < p.n_seeds implies #[trigger] a[s] == b[s] by {
        let (x, y) = (well_filter(m, f, well, p, s), well_filter(m, f, well, q, s));
        crate::filter::lemma_filter_is_causal(x, y, i);
    }
    assert(a =~= b);
}

/// Every log-likelihood belongs to some seed of some well.
pub proof fn lemma_lik_slot_has_owner(n: int, n_seeds: int, r: int) -> (o: (int, int))
    requires
        0 <= r < n * n_seeds,
        n_seeds >= 0,
    ensures
        0 <= o.0 < n,
        0 <= o.1 < n_seeds,
        lik_slot(n_seeds, o.0, o.1) == r,
{
    assert(n_seeds > 0) by (nonlinear_arith)
        requires
            0 <= r < n * n_seeds,
            n_seeds >= 0,
    ;
    let (k, s) = (r / n_seeds, r % n_seeds);
    vstd::arithmetic::div_mod::lemma_fundamental_div_mod(r, n_seeds);
    assert(0 <= k < n && k * n_seeds + s == r) by (nonlinear_arith)
        requires
            0 <= r < n * n_seeds,
            n_seeds > 0,
            r == n_seeds * k + s,
            0 <= s < n_seeds,
    ;
    (k, s)
}

/// Every place of the per-seed trajectories is some seed's row of some well.
pub proof fn lemma_path_slot_has_owner(lens: Seq<u32>, n_seeds: int, n: int, r: int) -> (o: (
    int,
    int,
    int,
))
    requires
        0 <= n <= lens.len(),
        n_seeds >= 0,
        0 <= r < layout::before(lens, n) * n_seeds,
    ensures
        0 <= o.0 < n,
        0 <= o.1 < n_seeds,
        0 <= o.2 < lens[o.0],
        path_slot(lens, n_seeds, o.0, o.1, o.2) == r,
    decreases n,
{
    if n == 0 {
        assert(0 * n_seeds == 0) by (nonlinear_arith);
        (0, 0, 0)
    } else {
        let (a, len) = (layout::before(lens, n - 1), lens[n - 1] as int);
        assert((a + len) * n_seeds == a * n_seeds + len * n_seeds) by (nonlinear_arith);
        if r < a * n_seeds {
            lemma_path_slot_has_owner(lens, n_seeds, n - 1, r)
        } else {
            let rest = r - a * n_seeds;
            assert(n_seeds * len == len * n_seeds) by (nonlinear_arith);
            let (s, i) = lemma_lik_slot_has_owner(n_seeds, len, rest);
            (n - 1, s, i)
        }
    }
}

} // verus!
