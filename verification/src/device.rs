//! What the device kernels of the particle filter compute, on one processor.
//!
//! A kernel launch is a function of its input buffers. These functions are that
//! function: task by task and row by row over the same flattened buffers, with the
//! pinned formulas.
use vstd::prelude::*;
use crate::arith;
use crate::arith::Arith;
use crate::batch::{FlatBatch, PfConfig, WellInput};
use crate::blend;
use crate::blend::{blend_at, spread_at};
use crate::filter::{Filter, Formulas, Task, WellParams};
use crate::layout;
use crate::reference;

verus! {

/// The filter of seed `seed` of well `k` of a flattened batch.
pub open spec fn flat_filter<A: Arith>(
    m: A,
    b: FlatBatch,
    cfg: PfConfig,
    k: int,
    seed: int,
) -> Filter<A> {
    let w = b.well(k);
    Filter {
        m,
        f: Formulas::Pinned,
        md: w.md,
        z: w.z,
        gr: w.gr,
        grid: w.grid,
        p: WellParams {
            vmin: w.meta_f[0],
            step: w.meta_f[1],
            gs: w.meta_f[2],
            ls: w.meta_f[3],
            ir: w.meta_f[4],
            init_spr: w.meta_f[5],
            inv_step: w.meta_f[6],
            inv_gs: w.meta_f[7],
            seed_base: w.seed_base,
        },
        cfg,
        seed: seed as u32,
    }
}

/// The filter of a well in a flattened batch is the filter of the well.
pub proof fn lemma_flat_filter_is_well_filter<A: Arith>(
    m: A,
    b: FlatBatch,
    well: WellInput,
    cfg: PfConfig,
    k: int,
    seed: int,
)
    requires
        b.holds(k, well),
        b.holds_reciprocals(m, k),
        b.well(k).meta_f.len() == 8,
    ensures
        flat_filter(m, b, cfg, k, seed) == reference::well_filter(
            m,
            Formulas::Pinned,
            well,
            cfg,
            seed,
        ),
{
    let f = b.well(k).meta_f;
    assert(f.take(6)[0] == f[0] && f.take(6)[1] == f[1] && f.take(6)[2] == f[2]);
    assert(f.take(6)[3] == f[3] && f.take(6)[4] == f[4] && f.take(6)[5] == f[5]);
}

/// The launch is sound: the batch is laid out for `n_seeds`, there is a lane, and
/// every well has a grid.
pub open spec fn launchable(b: FlatBatch, cfg: PfConfig) -> bool {
    &&& b.wf()
    &&& b.md@.len() * cfg.n_seeds <= usize::MAX
    &&& cfg.cube_dim > 0
    &&& forall|k: int| 0 <= k < b.ev_lens@.len() ==> #[trigger] b.grid_lens()[k] > 0
}

/// Every seed of every well of the batch: the trajectories by well, seed and row,
/// and the log-likelihoods by well and seed.
pub fn pf_lik_kernel<A: Arith>(m: &A, b: &FlatBatch, cfg: &PfConfig) -> (r: (Vec<u32>, Vec<u32>))
    requires
        launchable(*b, *cfg),
    ensures
        r.0@.len() == b.md@.len() * cfg.n_seeds,
        r.1@.len() == b.ev_lens@.len() * cfg.n_seeds,
        arith::deterministic(*m) ==> {
            &&& forall|k: int, s: int, i: int|
                0 <= k < b.ev_lens@.len() && 0 <= s < cfg.n_seeds && 0 <= i < b.ev_lens@[k]
                    ==> r.0@[#[trigger] reference::path_slot(
                    b.ev_lens@,
                    cfg.n_seeds as int,
                    k,
                    s,
                    i,
                )] == flat_filter(*m, *b, *cfg, k, s).estimate(i)
            &&& forall|k: int, s: int|
                0 <= k < b.ev_lens@.len() && 0 <= s < cfg.n_seeds
                    ==> r.1@[#[trigger] reference::lik_slot(cfg.n_seeds as int, k, s)]
                    == flat_filter(*m, *b, *cfg, k, s).log_lik(b.ev_lens@[k] as int)
        },
{
    let n_wells = b.ev_lens.len();
    let ghost seeds = cfg.n_seeds as int;
    let mut preds: Vec<Vec<u32>> = Vec::new();
    let mut liks: Vec<Vec<u32>> = Vec::new();
    let mut k: usize = 0;
    while k < n_wells
        invariant
            k <= n_wells,
            n_wells == b.ev_lens@.len(),
            seeds == cfg.n_seeds,
            launchable(*b, *cfg),
            preds@.len() == k,
            liks@.len() == k,
            forall|j: int|
                0 <= j < k ==> is_well_run(
                    *m,
                    *b,
                    *cfg,
                    j,
                    (#[trigger] preds@[j])@,
                    liks@[j]@,
                ),
        decreases n_wells - k,
    {
        let (own, lik) = well_tasks(m, b, cfg, k);
        preds.push(own);
        liks.push(lik);
        k = k + 1;
    }
    let flat_preds = layout::flatten(&preds);
    let flat_liks = layout::flatten(&liks);
    proof {
        b.lemma_table_lengths();
        assert forall|j: int| 0 <= j < n_wells implies (#[trigger] preds@[j])@.len() == seeds
            * b.ev_lens@[j] by {
            assert(is_well_run(*m, *b, *cfg, j, preds@[j]@, liks@[j]@));
        }
        assert forall|j: int| 0 <= j < n_wells implies (#[trigger] liks@[j])@.len() == seeds by {
            assert(is_well_run(*m, *b, *cfg, j, preds@[j]@, liks@[j]@));
        }
        reference::lemma_path_lists(preds@, b.ev_lens@, seeds, n_wells as int);
        reference::lemma_lik_lists(liks@, seeds, n_wells as int);
        if arith::deterministic(*m) {
            assert forall|k: int, s: int, i: int|
                0 <= k < n_wells && 0 <= s < seeds && 0 <= i < b.ev_lens@[k] implies flat_preds@[
            #[trigger] reference::path_slot(b.ev_lens@, seeds, k, s, i)] == flat_filter(
                *m,
                *b,
                *cfg,
                k,
                s,
            ).estimate(i) by {
                let len = b.ev_lens@[k] as int;
                reference::lemma_path_lists(preds@, b.ev_lens@, seeds, k);
                blend::lemma_in_block(0, len, seeds, s, i);
                let at = reference::seed_row(s, len, i);
                assert(is_well_run(*m, *b, *cfg, k, preds@[k]@, liks@[k]@));
                assert(layout::list_place(preds@, k, at) == reference::path_slot(
                    b.ev_lens@,
                    seeds,
                    k,
                    s,
                    i,
                ));
            }
            assert forall|k: int, s: int| 0 <= k < n_wells && 0 <= s < seeds implies flat_liks@[
            #[trigger] reference::lik_slot(seeds, k, s)] == flat_filter(
                *m,
                *b,
                *cfg,
                k,
                s,
            ).log_lik(b.ev_lens@[k] as int) by {
                reference::lemma_lik_lists(liks@, seeds, k);
                assert(is_well_run(*m, *b, *cfg, k, preds@[k]@, liks@[k]@));
                assert(layout::list_place(liks@, k, s) == reference::lik_slot(seeds, k, s));
            }
        }
    }
    (flat_preds, flat_liks)
}

/// The tasks of well `k`: its trajectories seed after seed, and its
/// log-likelihoods.
spec fn is_well_run<A: Arith>(
    m: A,
    b: FlatBatch,
    cfg: PfConfig,
    k: int,
    preds: Seq<u32>,
    liks: Seq<u32>,
) -> bool {
    let len = b.ev_lens@[k] as int;
    &&& preds.len() == cfg.n_seeds * len
    &&& liks.len() == cfg.n_seeds
    &&& arith::deterministic(m) ==> {
        &&& forall|s: int, i: int|
            0 <= s < cfg.n_seeds && 0 <= i < len ==> preds[#[trigger] reference::seed_row(
                s,
                len,
                i,
            )] == flat_filter(m, b, cfg, k, s).estimate(i)
        &&& forall|s: int|
            0 <= s < cfg.n_seeds ==> #[trigger] liks[s] == flat_filter(m, b, cfg, k, s).log_lik(
                len,
            )
    }
}

/// Runs the tasks of well `k`.
fn well_tasks<A: Arith>(m: &A, b: &FlatBatch, cfg: &PfConfig, k: usize) -> (r: (
    Vec<u32>,
    Vec<u32>,
))
    requires
        launchable(*b, *cfg),
        k < b.ev_lens@.len(),
    ensures
        is_well_run(*m, *b, *cfg, k as int, r.0@, r.1@),
{
    let ghost ki = k as int;
    proof {
        b.lemma_table_lengths();
        b.lemma_well_in_bounds(ki);
        assert(b.grid_lens()[ki] > 0);
    }
    let n_meta_u: usize = b.meta_u.len();
    let n_meta_f: usize = b.meta_f.len();
    assert(6 * k + 5 < n_meta_u && 8 * k + 7 < n_meta_f);
    let a: usize = b.ev_offsets[k] as usize;
    let len: usize = b.ev_lens[k] as usize;
    let e: usize = a + len;
    let g0: usize = b.meta_u[k * 6 + 2] as usize;
    let g1: usize = g0 + b.meta_u[k * 6 + 3] as usize;
    let p = WellParams {
        vmin: b.meta_f[k * 8],
        step: b.meta_f[k * 8 + 1],
        gs: b.meta_f[k * 8 + 2],
        ls: b.meta_f[k * 8 + 3],
        ir: b.meta_f[k * 8 + 4],
        init_spr: b.meta_f[k * 8 + 5],
        inv_step: b.meta_f[k * 8 + 6],
        inv_gs: b.meta_f[k * 8 + 7],
        seed_base: b.meta_u[k * 6 + 5],
    };
    let mut preds: Vec<u32> = Vec::new();
    let mut liks: Vec<u32> = Vec::new();
    let mut s: u32 = 0;
    proof {
        assert(0 * len == 0) by (nonlinear_arith);
    }
    while s < cfg.n_seeds
        invariant
            s <= cfg.n_seeds,
            launchable(*b, *cfg),
            ki == k,
            k < b.ev_lens@.len(),
            len == b.ev_lens@[ki],
            a == layout::before(b.ev_lens@, ki),
            e == a + len,
            e == layout::before(b.ev_lens@, ki + 1),
            e <= b.md@.len(),
            b.z@.len() == b.md@.len(),
            b.gr@.len() == b.md@.len(),
            g0 == layout::before(b.grid_lens(), ki),
            g1 == layout::before(b.grid_lens(), ki + 1),
            g0 < g1 <= b.grid@.len(),
            p == flat_filter(*m, *b, *cfg, ki, 0).p,
            preds@.len() == s * len,
            liks@.len() == s,
            arith::deterministic(*m) ==> forall|t: int, i: int|
                0 <= t < s && 0 <= i < len ==> preds@[#[trigger] reference::seed_row(
                    t,
                    len as int,
                    i,
                )] == flat_filter(*m, *b, *cfg, ki, t).estimate(i),
            arith::deterministic(*m) ==> forall|t: int|
                0 <= t < s ==> #[trigger] liks@[t] == flat_filter(*m, *b, *cfg, ki, t).log_lik(
                    len as int,
                ),
        decreases cfg.n_seeds - s,
    {
        let task = Task {
            f: Formulas::Pinned,
            md: &b.md[a..e],
            z: &b.z[a..e],
            gr: &b.gr[a..e],
            grid: &b.grid[g0..g1],
            p,
            cfg: *cfg,
            seed: s,
        };
        proof {
            assert(task.filter(*m) == flat_filter(*m, *b, *cfg, ki, s as int));
        }
        let (own, lik) = task.run(m);
        let ghost was = preds@;
        preds.extend_from_slice(&own);
        liks.push(lik);
        proof {
            assert(s * len + len == (s + 1) * len) by (nonlinear_arith);
            if arith::deterministic(*m) {
                assert forall|t: int, i: int|
                    0 <= t < s + 1 && 0 <= i < len implies preds@[#[trigger] reference::seed_row(
                    t,
                    len as int,
                    i,
                )] == flat_filter(*m, *b, *cfg, ki, t).estimate(i) by {
                    let at = reference::seed_row(t, len as int, i);
                    if t < s {
                        assert(0 <= at < s * len) by (nonlinear_arith)
                            requires
                                at == t * len + i,
                                0 <= t < s,
                                0 <= i < len,
                        ;
                        assert(preds@[at] == was[at]);
                    } else {
                        assert(preds@[at] == own@[i]);
                    }
                }
            }
        }
        s = s + 1;
    }
    (preds, liks)
}

/// Slot of the weight of seed `s` in channel `c` of well `k`.
pub open spec fn weight_slot(n_out: int, n_seeds: int, k: int, c: int, s: int) -> int {
    (k * n_out + c) * n_seeds + s
}

/// Weights of the seeds in channel `c` of well `k`.
pub open spec fn well_weights(wts: Seq<u32>, n_out: int, n_seeds: int, k: int, c: int) -> Seq<
    u32,
> {
    Seq::new(n_seeds as nat, |s: int| wts[weight_slot(n_out, n_seeds, k, c, s)])
}

/// What the seeds of well `k` estimate for row `i`, in a trajectory buffer.
pub open spec fn buffer_column(
    preds: Seq<u32>,
    lens: Seq<u32>,
    n_seeds: int,
    k: int,
    i: int,
) -> Seq<u32> {
    Seq::new(n_seeds as nat, |s: int| preds[reference::path_slot(lens, n_seeds, k, s, i)])
}

/// Channel `c` of row `i` of well `k`: the spread in channel `std_channel`, a blend
/// in any other.
pub open spec fn blended_value<A: Arith>(
    m: A,
    preds: Seq<u32>,
    wts: Seq<u32>,
    lens: Seq<u32>,
    n_seeds: int,
    n_out: int,
    std_channel: u32,
    c: int,
    k: int,
    i: int,
) -> u32 {
    let values = buffer_column(preds, lens, n_seeds, k, i);
    if c == std_channel {
        blend::spread(m, Formulas::Pinned, values)
    } else {
        blend::blended(m, values, well_weights(wts, n_out, n_seeds, k, c), n_seeds)
    }
}

/// Weighted reduction of the per-seed trajectories: channel by channel, one value
/// per row. Channel `std_channel` receives the unweighted standard deviation across
/// seeds.
pub fn pf_blend_kernel<A: Arith>(
    m: &A,
    preds: &[u32],
    wts: &[u32],
    b: &FlatBatch,
    n_seeds: u32,
    n_out: usize,
    std_channel: u32,
) -> (out: Vec<u32>)
    requires
        b.wf(),
        n_seeds > 0,
        preds@.len() == b.md@.len() * n_seeds,
        wts@.len() == b.ev_lens@.len() * n_out * n_seeds,
    ensures
        out@.len() == n_out * b.md@.len(),
        arith::deterministic(*m) ==> forall|c: int, k: int, i: int|
            0 <= c < n_out && 0 <= k < b.ev_lens@.len() && 0 <= i < b.ev_lens@[k]
                ==> out@[#[trigger] layout::slot(b.ev_lens@, c, k, i)] == blended_value(
                *m,
                preds@,
                wts@,
                b.ev_lens@,
                n_seeds as int,
                n_out as int,
                std_channel,
                c,
                k,
                i,
            ),
{
    let n_wells = b.ev_lens.len();
    let mut parts: Vec<Vec<Vec<u32>>> = Vec::new();
    let mut k: usize = 0;
    while k < n_wells
        invariant
            k <= n_wells,
            n_wells == b.ev_lens@.len(),
            b.wf(),
            n_seeds > 0,
            preds@.len() == b.md@.len() * n_seeds,
            wts@.len() == b.ev_lens@.len() * n_out * n_seeds,
            parts@.len() == k,
            forall|j: int| 0 <= j < k ==> (#[trigger] parts@[j])@.len() == n_out,
            forall|j: int, c: int|
                0 <= j < k && 0 <= c < n_out ==> (#[trigger] parts@[j]@[c])@.len()
                    == b.ev_lens@[j],
            arith::deterministic(*m) ==> forall|j: int, c: int, i: int|
                0 <= j < k && 0 <= c < n_out && 0 <= i < b.ev_lens@[j]
                    ==> #[trigger] parts@[j]@[c]@[i] == blended_value(
                    *m,
                    preds@,
                    wts@,
                    b.ev_lens@,
                    n_seeds as int,
                    n_out as int,
                    std_channel,
                    c,
                    j,
                    i,
                ),
        decreases n_wells - k,
    {
        let rows = blend_rows(m, preds, wts, b, n_seeds, n_out, std_channel, k);
        parts.push(rows);
        k = k + 1;
    }
    proof {
        b.lemma_table_lengths();
    }
    layout::join_channels(&parts, n_out, Ghost(b.ev_lens@))
}

/// The channels of well `k`.
fn blend_rows<A: Arith>(
    m: &A,
    preds: &[u32],
    wts: &[u32],
    b: &FlatBatch,
    n_seeds: u32,
    n_out: usize,
    std_channel: u32,
    k: usize,
) -> (rows: Vec<Vec<u32>>)
    requires
        b.wf(),
        n_seeds > 0,
        k < b.ev_lens@.len(),
        preds@.len() == b.md@.len() * n_seeds,
        wts@.len() == b.ev_lens@.len() * n_out * n_seeds,
    ensures
        rows@.len() == n_out,
        forall|c: int|
            0 <= c < n_out ==> (#[trigger] rows@[c])@.len() == b.ev_lens@[k as int],
        arith::deterministic(*m) ==> forall|c: int, i: int|
            0 <= c < n_out && 0 <= i < b.ev_lens@[k as int] ==> #[trigger] rows@[c]@[i]
                == blended_value(
                *m,
                preds@,
                wts@,
                b.ev_lens@,
                n_seeds as int,
                n_out as int,
                std_channel,
                c,
                k as int,
                i,
            ),
{
    let ghost ki = k as int;
    let n_preds = preds.len();
    let n_wts = wts.len();
    let seeds: usize = n_seeds as usize;
    proof {
        b.lemma_table_lengths();
        b.lemma_well_in_bounds(ki);
        layout::lemma_before_monotone(b.ev_lens@, 0, ki);
        lemma_block_fits(
            layout::before(b.ev_lens@, ki),
            b.ev_lens@[ki] as int,
            b.md@.len() as int,
            n_seeds as int,
        );
    }
    let len: usize = b.ev_lens[k] as usize;
    let base: usize = b.ev_offsets[k] as usize * seeds;
    let mut rows: Vec<Vec<u32>> = Vec::new();
    let mut c: usize = 0;
    while c < n_out
        invariant
            c <= n_out,
            ki == k,
            k < b.ev_lens@.len(),
            n_seeds > 0,
            seeds == n_seeds,
            n_preds == preds@.len(),
            n_wts == wts@.len(),
            wts@.len() == b.ev_lens@.len() * n_out * n_seeds,
            len == b.ev_lens@[ki],
            base == layout::before(b.ev_lens@, ki) * n_seeds,
            base + seeds * len <= n_preds,
            rows@.len() == c,
            forall|d: int| 0 <= d < c ==> (#[trigger] rows@[d])@.len() == len,
            arith::deterministic(*m) ==> forall|d: int, i: int|
                0 <= d < c && 0 <= i < len ==> #[trigger] rows@[d]@[i] == blended_value(
                    *m,
                    preds@,
                    wts@,
                    b.ev_lens@,
                    n_seeds as int,
                    n_out as int,
                    std_channel,
                    d,
                    ki,
                    i,
                ),
        decreases n_out - c,
    {
        proof {
            lemma_weights_fit(
                b.ev_lens@.len() as int,
                n_out as int,
                n_seeds as int,
                ki,
                c as int,
            );
        }
        let w0: usize = (k * n_out + c) * seeds;
        let own: &[u32] = &wts[w0..w0 + seeds];
        let mut out: Vec<u32> = Vec::new();
        let mut i: usize = 0;
        while i < len
            invariant
                i <= len,
                c < n_out,
                ki == k,
                k < b.ev_lens@.len(),
                seeds == n_seeds,
                n_preds == preds@.len(),
                len == b.ev_lens@[ki],
                base == layout::before(b.ev_lens@, ki) * n_seeds,
                base + seeds * len <= n_preds,
                w0 == (k * n_out + c) * seeds,
                w0 + seeds <= wts@.len(),
                own@ == wts@.subrange(w0 as int, w0 + seeds),
                out@.len() == i,
                arith::deterministic(*m) ==> forall|j: int|
                    0 <= j < i ==> #[trigger] out@[j] == blended_value(
                        *m,
                        preds@,
                        wts@,
                        b.ev_lens@,
                        n_seeds as int,
                        n_out as int,
                        std_channel,
                        c as int,
                        ki,
                        j,
                    ),
            decreases len - i,
        {
            let v = if c as u64 == std_channel as u64 {
                spread_at(m, Formulas::Pinned, preds, base, len, i, seeds)
            } else {
                blend_at(m, preds, base, len, i, own)
            };
            proof {
                assert(blend::column(preds@, base as int, len as int, seeds as int, i as int)
                    =~= buffer_column(preds@, b.ev_lens@, n_seeds as int, ki, i as int));
                assert(own@ =~= well_weights(
                    wts@,
                    n_out as int,
                    n_seeds as int,
                    ki,
                    c as int,
                ));
            }
            out.push(v);
            i = i + 1;
        }
        rows.push(out);
        c = c + 1;
    }
    rows
}

/// A well's trajectory block lies inside the buffer.
proof fn lemma_block_fits(off: int, len: int, rows: int, n_seeds: int)
    requires
        0 <= off,
        0 <= len,
        off + len <= rows,
        n_seeds >= 0,
    ensures
        0 <= off * n_seeds,
        off * n_seeds + n_seeds * len <= rows * n_seeds,
        n_seeds * len >= 0,
{
    assert(0 <= off * n_seeds && off * n_seeds + n_seeds * len <= rows * n_seeds && n_seeds * len
        >= 0) by (nonlinear_arith)
        requires
            0 <= off,
            0 <= len,
            off + len <= rows,
            n_seeds >= 0,
    ;
}

/// A channel's weights lie inside the buffer.
proof fn lemma_weights_fit(n: int, n_out: int, n_seeds: int, k: int, c: int)
    requires
        0 <= k < n,
        0 <= c < n_out,
        n_seeds > 0,
    ensures
        0 <= k * n_out,
        0 <= (k * n_out + c) * n_seeds,
        k * n_out + c < n * n_out <= n * n_out * n_seeds,
        (k * n_out + c) * n_seeds + n_seeds <= n * n_out * n_seeds,
{
    assert(0 <= k * n_out && k * n_out + n_out <= n * n_out) by (nonlinear_arith)
        requires
            0 <= k < n,
            n_out > 0,
    ;
    let (x, y) = (k * n_out + c, n * n_out);
    assert(0 <= x * n_seeds && x * n_seeds + n_seeds <= y * n_seeds && y <= y * n_seeds)
        by (nonlinear_arith)
        requires
            0 <= x < y,
            n_seeds > 0,
    ;
}

} // verus!
