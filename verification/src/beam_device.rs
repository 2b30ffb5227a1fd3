//! What the device kernels of the beam search compute, on one processor: the
//! smoothing planes, the trajectories by configuration, and their mean, over the
//! flattened buffers of a batch.
use vstd::prelude::*;
use crate::arith;
use crate::arith::Arith;
use crate::beam::{BeamConfig, FlatBeamBatch, SmoothingKind};
use crate::beam_reference;
use crate::beam_reference::{beam_search_one, sg_smooth, Search};
use crate::ieee;
use crate::layout;

verus! {

/// Smooths every well once per radius: a plane of all rows per radius.
pub fn sg_smooth_kernel<A: Arith>(
    m: &A,
    b: &FlatBeamBatch,
    radii: &[u32],
    kind: SmoothingKind,
) -> (sgr: Vec<u64>)
    requires
        b.wf(),
    ensures
        sgr@.len() == radii@.len() * b.gr@.len(),
        arith::deterministic(*m) ==> forall|p: int, k: int, i: int|
            0 <= p < radii@.len() && 0 <= k < b.ev_lens@.len() && 0 <= i < b.ev_lens@[k]
                ==> sgr@[#[trigger] layout::slot(b.ev_lens@, p, k, i)] == beam_reference::smoothed(
                *m,
                b.well(k).gr,
                radii@[p] as int,
                kind,
                i,
            ),
{
    let n_wells = b.ev_lens.len();
    let n_planes = radii.len();
    let mut parts: Vec<Vec<Vec<u64>>> = Vec::new();
    let mut k: usize = 0;
    while k < n_wells
        invariant
            k <= n_wells,
            n_wells == b.ev_lens@.len(),
            n_planes == radii@.len(),
            b.wf(),
            parts@.len() == k,
            forall|j: int| 0 <= j < k ==> (#[trigger] parts@[j])@.len() == n_planes,
            forall|j: int, p: int|
                0 <= j < k && 0 <= p < n_planes ==> (#[trigger] parts@[j]@[p])@.len()
                    == b.ev_lens@[j],
            arith::deterministic(*m) ==> forall|j: int, p: int, i: int|
                0 <= j < k && 0 <= p < n_planes && 0 <= i < b.ev_lens@[j]
                    ==> #[trigger] parts@[j]@[p]@[i] == beam_reference::smoothed(
                    *m,
                    b.well(j).gr,
                    radii@[p] as int,
                    kind,
                    i,
                ),
        decreases n_wells - k,
    {
        proof {
            b.lemma_table_lengths();
            b.lemma_well_in_bounds(k as int);
        }
        let a: usize = b.ev_offsets[k] as usize;
        let len: usize = b.ev_lens[k] as usize;
        let gr: &[u64] = &b.gr[a..a + len];
        assert(gr@ == b.well(k as int).gr);
        let mut planes: Vec<Vec<u64>> = Vec::new();
        let mut p: usize = 0;
        while p < n_planes
            invariant
                p <= n_planes,
                n_planes == radii@.len(),
                len == gr@.len(),
                planes@.len() == p,
                forall|q: int| 0 <= q < p ==> (#[trigger] planes@[q])@.len() == len,
                arith::deterministic(*m) ==> forall|q: int, i: int|
                    0 <= q < p && 0 <= i < len ==> #[trigger] planes@[q]@[i]
                        == beam_reference::smoothed(*m, gr@, radii@[q] as int, kind, i),
            decreases n_planes - p,
        {
            let mut plane: Vec<u64> = vec![0; len];
            sg_smooth(m, gr, radii[p], plane.as_mut_slice(), kind);
            planes.push(plane);
            p = p + 1;
        }
        parts.push(planes);
        k = k + 1;
    }
    proof {
        b.lemma_table_lengths();
    }
    layout::join_channels(&parts, n_planes, Ghost(b.ev_lens@))
}

/// Rows of well `k` in a plane of a smoothed batch.
pub open spec fn plane_rows(sgr: Seq<u64>, lens: Seq<u32>, p: int, k: int) -> Seq<u64> {
    Seq::new(lens[k] as nat, |i: int| sgr[layout::slot(lens, p, k, i)])
}

/// Configuration `c` as the launch holds it: its beam size and the plane it reads,
/// its move cost and its error scale.
pub open spec fn launched_config(cfg_u: Seq<u32>, cfg_f: Seq<u64>, c: int) -> BeamConfig {
    BeamConfig {
        beam_size: cfg_u[2 * c],
        move_cost: cfg_f[2 * c],
        err_scale: cfg_f[2 * c + 1],
        radius: 0,
    }
}

/// The search of well `k` under configuration `c` of a launch.
pub open spec fn launched_search<A: Arith>(
    m: A,
    b: FlatBeamBatch,
    sgr: Seq<u64>,
    cfg_u: Seq<u32>,
    cfg_f: Seq<u64>,
    c: int,
    k: int,
) -> Search<A> {
    let w = b.well(k);
    Search {
        m,
        sgr: plane_rows(sgr, b.ev_lens@, cfg_u[2 * c + 1] as int, k),
        tw_tvt: w.tw_tvt,
        tw_gr: w.tw_gr,
        last_tvt: w.last_tvt,
        cfg: launched_config(cfg_u, cfg_f, c),
    }
}

/// The launch is sound: every configuration has a beam and reads a plane that is
/// there, and the histories can be addressed.
pub open spec fn beam_launchable(
    b: FlatBeamBatch,
    sgr: Seq<u64>,
    cfg_u: Seq<u32>,
    cfg_f: Seq<u64>,
    n_configs: int,
) -> bool {
    &&& b.wf()
    &&& cfg_u.len() == 2 * n_configs
    &&& cfg_f.len() == 2 * n_configs
    &&& forall|c: int|
        0 <= c < n_configs ==> {
            &&& #[trigger] launched_config(cfg_u, cfg_f, c).beam_size > 0
            &&& 5 * cfg_u[2 * c] <= usize::MAX
            &&& b.gr@.len() * cfg_u[2 * c] <= usize::MAX
            &&& (cfg_u[2 * c + 1] + 1) * b.gr@.len() <= sgr.len()
        }
}

/// Tracks every well under every configuration: a trajectory of all rows per
/// configuration.
pub fn beam_search_kernel<A: Arith>(
    m: &A,
    b: &FlatBeamBatch,
    sgr: &[u64],
    cfg_u: &[u32],
    cfg_f: &[u64],
    n_configs: usize,
) -> (traj: Vec<u64>)
    requires
        beam_launchable(*b, sgr@, cfg_u@, cfg_f@, n_configs as int),
    ensures
        traj@.len() == n_configs * b.gr@.len(),
        arith::deterministic(*m) ==> forall|c: int, k: int, i: int|
            0 <= c < n_configs && 0 <= k < b.ev_lens@.len() && 0 <= i < b.ev_lens@[k]
                ==> traj@[#[trigger] layout::slot(b.ev_lens@, c, k, i)] == b.well(k).tw_tvt[
                launched_search(*m, *b, sgr@, cfg_u@, cfg_f@, c, k).sample(i)
            ],
{
    let n_wells = b.ev_lens.len();
    let mut parts: Vec<Vec<Vec<u64>>> = Vec::new();
    let mut k: usize = 0;
    while k < n_wells
        invariant
            k <= n_wells,
            n_wells == b.ev_lens@.len(),
            beam_launchable(*b, sgr@, cfg_u@, cfg_f@, n_configs as int),
            parts@.len() == k,
            forall|j: int| 0 <= j < k ==> (#[trigger] parts@[j])@.len() == n_configs,
            forall|j: int, c: int|
                0 <= j < k && 0 <= c < n_configs ==> (#[trigger] parts@[j]@[c])@.len()
                    == b.ev_lens@[j],
            arith::deterministic(*m) ==> forall|j: int, c: int, i: int|
                0 <= j < k && 0 <= c < n_configs && 0 <= i < b.ev_lens@[j]
                    ==> #[trigger] parts@[j]@[c]@[i] == b.well(j).tw_tvt[
                    launched_search(*m, *b, sgr@, cfg_u@, cfg_f@, c, j).sample(i)
                ],
        decreases n_wells - k,
    {
        let tracks = search_well(m, b, sgr, cfg_u, cfg_f, n_configs, k);
        parts.push(tracks);
        k = k + 1;
    }
    proof {
        b.lemma_table_lengths();
    }
    layout::join_channels(&parts, n_configs, Ghost(b.ev_lens@))
}

/// Tracks well `k` under every configuration.
fn search_well<A: Arith>(
    m: &A,
    b: &FlatBeamBatch,
    sgr: &[u64],
    cfg_u: &[u32],
    cfg_f: &[u64],
    n_configs: usize,
    k: usize,
) -> (tracks: Vec<Vec<u64>>)
    requires
        beam_launchable(*b, sgr@, cfg_u@, cfg_f@, n_configs as int),
        k < b.ev_lens@.len(),
    ensures
        tracks@.len() == n_configs,
        forall|c: int|
            0 <= c < n_configs ==> (#[trigger] tracks@[c])@.len() == b.ev_lens@[k as int],
        arith::deterministic(*m) ==> forall|c: int, i: int|
            0 <= c < n_configs && 0 <= i < b.ev_lens@[k as int] ==> #[trigger] tracks@[c]@[i]
                == b.well(k as int).tw_tvt[
                launched_search(*m, *b, sgr@, cfg_u@, cfg_f@, c, k as int).sample(i)
            ],
{
    let ghost ki = k as int;
    let n_sgr = sgr.len();
    let n_u = cfg_u.len();
    proof {
        b.lemma_table_lengths();
        b.lemma_well_in_bounds(ki);
    }
    let n_meta = b.meta_u.len();
    assert(4 * k + 3 < n_meta);
    let total = b.total_rows();
    let off: usize = b.ev_offsets[k] as usize;
    let len: usize = b.ev_lens[k] as usize;
    let t0: usize = b.meta_u[k * 4 + 2] as usize;
    let t1: usize = t0 + b.meta_u[k * 4 + 3] as usize;
    let tw_tvt: &[u64] = &b.tw_tvt[t0..t1];
    let tw_gr: &[u64] = &b.tw_gr[t0..t1];
    let last: u64 = b.meta_f[k];
    let mut tracks: Vec<Vec<u64>> = Vec::new();
    let mut c: usize = 0;
    while c < n_configs
        invariant
            c <= n_configs,
            ki == k,
            beam_launchable(*b, sgr@, cfg_u@, cfg_f@, n_configs as int),
            k < b.ev_lens@.len(),
            n_sgr == sgr@.len(),
            n_u == cfg_u@.len(),
            total == b.gr@.len(),
            total == layout::before(b.ev_lens@, b.ev_lens@.len() as int),
            off == layout::before(b.ev_lens@, ki),
            len == b.ev_lens@[ki],
            off + len <= total,
            tw_tvt@ == b.well(ki).tw_tvt,
            tw_gr@ == b.well(ki).tw_gr,
            last == b.well(ki).last_tvt,
            0 < tw_tvt@.len() <= u32::MAX,
            tw_gr@.len() == tw_tvt@.len(),
            tracks@.len() == c,
            forall|d: int| 0 <= d < c ==> (#[trigger] tracks@[d])@.len() == len,
            arith::deterministic(*m) ==> forall|d: int, i: int|
                0 <= d < c && 0 <= i < len ==> #[trigger] tracks@[d]@[i] == b.well(ki).tw_tvt[
                    launched_search(*m, *b, sgr@, cfg_u@, cfg_f@, d, ki).sample(i)
                ],
        decreases n_configs - c,
    {
        let cfg = BeamConfig {
            beam_size: cfg_u[c * 2],
            move_cost: cfg_f[c * 2],
            err_scale: cfg_f[c * 2 + 1],
            radius: 0,
        };
        let plane: usize = cfg_u[c * 2 + 1] as usize;
        proof {
            assert(launched_config(cfg_u@, cfg_f@, c as int).beam_size > 0);
            let (p, t, size) = (plane as int, total as int, cfg.beam_size as int);
            assert(0 <= p * t && p * t + t == (p + 1) * t) by (nonlinear_arith)
                requires
                    0 <= p,
                    0 <= t,
            ;
            let l = len as int;
            assert(l * size <= t * size) by (nonlinear_arith)
                requires
                    0 <= l <= t,
                    size >= 0,
            ;
        }
        let a: usize = plane * total + off;
        let rows: &[u64] = &sgr[a..a + len];
        let mut track: Vec<u64> = vec![0; len];
        beam_search_one(m, rows, tw_tvt, tw_gr, last, &cfg, track.as_mut_slice());
        proof {
            let search = launched_search(*m, *b, sgr@, cfg_u@, cfg_f@, c as int, ki);
            assert(rows@ =~= plane_rows(sgr@, b.ev_lens@, plane as int, ki));
            assert(search.sgr == rows@);
            assert(search.cfg == cfg);
        }
        tracks.push(track);
        c = c + 1;
    }
    tracks
}

/// Sum of row `r` over the first `n` configurations.
pub open spec fn config_sum<A: Arith>(m: A, traj: Seq<u64>, rows: int, r: int, n: int) -> u64
    decreases n,
{
    if n <= 0 {
        ieee::ZERO64
    } else {
        arith::sum64(
            m,
            config_sum(m, traj, rows, r, n - 1),
            traj[layout::cell(rows, n - 1, r)],
        )
    }
}

/// Mean over the configurations, row by row.
pub fn beam_mean_kernel<A: Arith>(m: &A, traj: &[u64], rows: usize, n_configs: usize) -> (mean: Vec<
    u64,
>)
    requires
        traj@.len() == n_configs * rows,
    ensures
        mean@.len() == rows,
        arith::deterministic(*m) ==> forall|r: int|
            0 <= r < rows ==> #[trigger] mean@[r] == arith::quotient64(
                *m,
                config_sum(*m, traj@, rows as int, r, n_configs as int),
                arith::of_int64(*m, n_configs as u64),
            ),
{
    let n_traj = traj.len();
    let mut mean: Vec<u64> = Vec::new();
    let mut r: usize = 0;
    while r < rows
        invariant
            r <= rows,
            n_traj == traj@.len(),
            traj@.len() == n_configs * rows,
            mean@.len() == r,
            arith::deterministic(*m) ==> forall|q: int|
                0 <= q < r ==> #[trigger] mean@[q] == arith::quotient64(
                    *m,
                    config_sum(*m, traj@, rows as int, q, n_configs as int),
                    arith::of_int64(*m, n_configs as u64),
                ),
        decreases rows - r,
    {
        let mut acc: u64 = ieee::ZERO64;
        let mut c: usize = 0;
        while c < n_configs
            invariant
                c <= n_configs,
                r < rows,
                n_traj == traj@.len(),
                traj@.len() == n_configs * rows,
                arith::deterministic(*m) ==> acc == config_sum(
                    *m,
                    traj@,
                    rows as int,
                    r as int,
                    c as int,
                ),
            decreases n_configs - c,
        {
            proof {
                layout::lemma_cell_in_range(
                    rows as int,
                    n_configs as int,
                    c as int,
                    r as int,
                );
            }
            acc = arith::add64(m, acc, traj[c * rows + r]);
            c = c + 1;
        }
        let count = arith::from_int64(m, n_configs as u64);
        mean.push(arith::div64(m, acc, count));
        r = r + 1;
    }
    mean
}

} // verus!
