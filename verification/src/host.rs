//! The host side of a particle-filter run on a device.
//!
//! A run is a plan and a loop. The plan validates the request, lays the batch out,
//! cuts it into chunks that fit the device budget and allocates the output. The loop
//! uploads a chunk, launches the filter, reads the log-likelihoods back, turns them
//! into seed weights, launches the blend and reads the channels back; the plan says
//! what to upload and puts every reply in its place. [`run_pf`] is that loop with the
//! kernels of [`crate::device`].
use vstd::prelude::*;
use crate::arith;
use crate::arith::Arith;
use crate::batch;
use crate::batch::{FlatBatch, PfConfig, WellInput};
use crate::bytes;
use crate::bytes::{bytes_of32, words_of32};
use crate::device;
use crate::device::{pf_blend_kernel, pf_lik_kernel};
use crate::error::{ConfigIssue, PfError};
use crate::filter::Formulas;
use crate::ieee;
use crate::layout;
use crate::output::PfOutput;
use crate::reference;
use crate::reference::weigh_channel;
use crate::text::channel_names;

verus! {

/// Bytes of a binary32 element.
pub const ELEM_BYTES: usize = 4;

/// Value of the spread channel that no channel has.
pub const NO_CHANNEL: u32 = 0xFFFF_FFFF;

// ---------------------------------------------------------------------------
// The plan
// ---------------------------------------------------------------------------

/// A run that was accepted: the laid-out batch, its chunks, and the output so far.
pub struct PfPlan {
    /// The batch.
    pub batch: FlatBatch,
    /// Consecutive ranges of wells to launch together.
    pub chunks: Vec<(usize, usize)>,
    /// Number of output channels.
    pub n_out: usize,
    /// The channel that receives the spread, or [`NO_CHANNEL`].
    pub std_channel: u32,
    /// Particles that the filter kernel's shared memory holds.
    pub smem: usize,
    /// The output, filled chunk by chunk.
    pub out: PfOutput,
}

/// The request can be addressed: offsets, buffers and byte counts fit.
pub open spec fn plannable(wells: Seq<WellInput>, cfg: PfConfig, scales: Seq<u32>) -> bool {
    &&& batch::addressable(wells, cfg.n_seeds)
    &&& cfg.n_seeds * 4 <= usize::MAX
    &&& cfg.demand() <= usize::MAX / 2 + 1
    &&& scales.len() + 2 <= u32::MAX
    &&& batch::rows_of(wells) * (scales.len() + 2) * cfg.n_seeds * 4 <= usize::MAX
    &&& batch::rows_of(wells) * (scales.len() + 2) * 4 <= usize::MAX
}

/// Whether a plan can be made of the request.
pub fn is_plannable(wells: &[WellInput], cfg: &PfConfig, scales: &[u32]) -> (r: bool)
    ensures
        r == plannable(wells@, *cfg, scales@),
{
    let demand: u32 = if cfg.n_particles > cfg.cube_dim {
        cfg.n_particles
    } else {
        cfg.cube_dim
    };
    if !batch::is_addressable(wells, cfg.n_seeds) || (cfg.n_seeds as usize).checked_mul(
        ELEM_BYTES,
    ).is_none() || demand as usize > usize::MAX / 2 + 1 {
        return false;
    }
    if scales.len() as u64 > 0xFFFF_FFFD {
        return false;
    }
    let channels = scales.len() + 2;
    match batch::count_rows(wells) {
        None => false,
        Some(rows) => match rows.checked_mul(channels) {
            None => false,
            Some(values) => match values.checked_mul(cfg.n_seeds as usize) {
                None => {
                    false
                },
                Some(weighed) => values.checked_mul(ELEM_BYTES).is_some() && weighed.checked_mul(
                    ELEM_BYTES,
                ).is_some(),
            },
        },
    }
}

/// Rows that a chunk may hold.
pub open spec fn chunk_rows(cfg: PfConfig) -> int {
    layout::rows_in_budget(cfg.n_seeds * 4, cfg.pred_budget_bytes as int)
}

/// Whether `plan` serves the request: the batch holds every non-empty well in order,
/// the chunks cut it greedily by the budget, and the output has its final shape.
pub open spec fn is_plan<A: Arith>(
    m: A,
    wells: Seq<WellInput>,
    cfg: PfConfig,
    scales: Seq<u32>,
    plan: PfPlan,
) -> bool {
    let n = plan.out.kept@.len() as int;
    &&& reference::is_shaped(wells, cfg, scales, plan.out)
    &&& plan.batch.wf()
    &&& plan.batch.preds_wf(cfg.n_seeds)
    &&& plan.batch.ev_lens@ == plan.out.ev_lens@
    &&& plan.batch.md@.len() == batch::rows_of(wells)
    &&& forall|k: int|
        0 <= k < n ==> #[trigger] plan.batch.holds(k, wells[plan.out.kept@[k] as int])
    &&& arith::deterministic(m) ==> forall|k: int|
        0 <= k < n ==> #[trigger] plan.batch.holds_reciprocals(m, k)
    &&& layout::is_greedy_split(plan.batch.ev_lens@, plan.chunks@, chunk_rows(cfg))
    &&& plan.n_out == reference::n_channels(scales, cfg.with_std)
    &&& plan.std_channel == if cfg.with_std {
        (scales.len() + 1) as u32
    } else {
        NO_CHANNEL
    }
    &&& layout::is_pow2_ceil(plan.smem as int, cfg.demand())
}

impl PfPlan {
    /// Accepts a request, or says what is wrong with it.
    pub fn start<A: Arith>(m: &A, wells: &[WellInput], cfg: &PfConfig, scales: &[u32]) -> (r: Result<
        PfPlan,
        PfError,
    >)
        requires
            plannable(wells@, *cfg, scales@),
        ensures
            match cfg.issue() {
                Some(e) => r == Err::<PfPlan, PfError>(PfError::Config(e)),
                None => match batch::first_issue(wells@, 0) {
                    Some(e) => r == Err::<PfPlan, PfError>(PfError::Config(e)),
                    None => r is Ok,
                },
            },
            r matches Ok(plan) ==> {
                &&& is_plan(*m, wells@, *cfg, scales@, plan)
                &&& plan.fits(*cfg, scales@)
            },
    {
        match cfg.validate() {
            Err(e) => {
                return Err(e);
            },
            Ok(()) => {},
        }
        let n_given = wells.len();
        let (b, kept) = match FlatBatch::build(m, wells, cfg.n_seeds) {
            Err(e) => {
                return Err(e);
            },
            Ok(built) => built,
        };
        let n_out: usize = scales.len() + if cfg.with_std {
            2
        } else {
            1
        };
        let std_channel: u32 = if cfg.with_std {
            (n_out - 1) as u32
        } else {
            NO_CHANNEL
        };
        let total = b.total_rows();
        let n_wells = b.n_wells();
        let seeds: usize = cfg.n_seeds as usize;
        proof {
            assert(n_given == wells@.len());
            batch::lemma_kept_wells(wells@, wells@.len() as int);
            b.lemma_table_lengths();
            layout::lemma_part_count(b.ev_lens@, b.ev_lens@.len() as int);
            lemma_output_fits(
                total as int,
                n_wells as int,
                n_out as int,
                scales@.len() as int,
                cfg.n_seeds as int,
            );
        }
        let smem = cfg.smem_particles();
        proof {
            layout::lemma_pow2_is_positive(cfg.cube_dim as int);
            batch::lemma_capacity_covers_the_cloud(*cfg, smem as int);
        }
        if cfg.n_particles as usize > smem {
            return Err(
                PfError::Config(
                    ConfigIssue::Capacity { n_particles: cfg.n_particles, capacity: smem },
                ),
            );
        }
        let chunks = b.chunks(cfg.n_seeds, cfg.pred_budget_bytes, ELEM_BYTES);
        let out = PfOutput {
            channels: channel_names(scales, cfg.with_std),
            values: vec![0; n_out * total],
            liks: vec![0; n_wells * seeds],
            n_seeds: cfg.n_seeds,
            seed_paths: if cfg.with_seed_paths {
                Some(vec![0; total * seeds])
            } else {
                None
            },
            pred_offsets: layout::copied(&b.pred_offsets),
            ev_offsets: layout::copied(&b.ev_offsets),
            ev_lens: layout::copied(&b.ev_lens),
            kept,
        };
        proof {
            assert forall|k: int| 0 <= k < out.ev_lens@.len() implies {
                &&& #[trigger] out.ev_offsets@[k] == layout::before(out.ev_lens@, k)
                &&& out.ev_lens@[k] == wells@[out.kept@[k] as int].md@.len()
            } by {
                b.lemma_well_in_bounds(k);
                assert(b.holds(k, wells@[out.kept@[k] as int]));
                assert(b.well(k).md.len() == b.ev_lens@[k]);
            }
            assert forall|k: int| 0 <= k < out.kept@.len() implies #[trigger] out.ev_lens@[k]
                == wells@[out.kept@[k] as int].md@.len() by {
                assert(out.ev_offsets@[k] == layout::before(out.ev_lens@, k));
            }
        }
        Ok(PfPlan { batch: b, chunks, n_out, std_channel, smem, out })
    }
}

/// The buffers of a batch of `total` rows can be addressed.
proof fn lemma_output_fits(total: int, n_wells: int, n_out: int, n_scales: int, n_seeds: int)
    requires
        0 <= n_wells <= total,
        0 < n_out <= n_scales + 2,
        n_seeds > 0,
        total * (n_scales + 2) * n_seeds * 4 <= usize::MAX,
        total * (n_scales + 2) * 4 <= usize::MAX,
    ensures
        0 <= n_out * total,
        n_out * total * 4 <= usize::MAX,
        0 <= n_wells * n_seeds,
        n_wells * n_seeds * 4 <= usize::MAX,
        0 <= total * n_seeds,
        total * n_seeds * 4 <= usize::MAX,
        0 <= n_wells * n_out,
        n_wells * n_out <= n_wells * n_out * n_seeds <= usize::MAX,
{
    let t = total * (n_scales + 2);
    assert(0 <= n_out * total <= t && total <= t && 0 <= n_wells * n_out <= t) by (nonlinear_arith)
        requires
            t == total * (n_scales + 2),
            0 <= n_wells <= total,
            0 < n_out <= n_scales + 2,
    ;
    assert(0 <= n_wells * n_seeds <= t * n_seeds && 0 <= total * n_seeds <= t * n_seeds)
        by (nonlinear_arith)
        requires
            0 <= n_wells <= total <= t,
            n_seeds > 0,
    ;
    let q = n_wells * n_out;
    assert(q <= q * n_seeds <= t * n_seeds) by (nonlinear_arith)
        requires
            0 <= q <= t,
            n_seeds > 0,
    ;
}

// ---------------------------------------------------------------------------
// Chunks
// ---------------------------------------------------------------------------

/// One launch: the wells `[w0, w1)` as a batch of their own.
pub struct PfChunk {
    /// The rebased wells.
    pub sub: FlatBatch,
    /// First well.
    pub w0: usize,
    /// One past the last well.
    pub w1: usize,
    /// First row in the whole batch.
    pub row0: usize,
    /// Filter tasks: one per well and seed.
    pub n_tasks: u32,
    /// Bytes of the trajectory buffer.
    pub pred_bytes: usize,
    /// Bytes of the log-likelihood buffer.
    pub liks_bytes: usize,
    /// Bytes of the channel buffer.
    pub out_bytes: usize,
}

/// Whether `c` is the wells `[w0, w1)` of the plan's batch.
pub open spec fn is_chunk(plan: PfPlan, cfg: PfConfig, w0: int, w1: int, c: PfChunk) -> bool {
    &&& c.w0 == w0
    &&& c.w1 == w1
    &&& c.sub.wf()
    &&& c.sub.preds_wf(cfg.n_seeds)
    &&& c.sub.ev_lens@ == plan.batch.ev_lens@.subrange(w0, w1)
    &&& forall|k: int| 0 <= k < w1 - w0 ==> #[trigger] c.sub.well(k) == plan.batch.well(w0 + k)
    &&& c.row0 == layout::before(plan.batch.ev_lens@, w0)
    &&& c.sub.md@.len() == layout::rows_between(plan.batch.ev_lens@, w0, w1)
    &&& c.n_tasks == ((w1 - w0) * cfg.n_seeds) as u32
    &&& c.pred_bytes == c.sub.md@.len() * cfg.n_seeds * 4
    &&& c.liks_bytes == (w1 - w0) * cfg.n_seeds * 4
    &&& c.out_bytes == plan.n_out * c.sub.md@.len() * 4
}

/// Log-likelihoods of the seeds of well `k`.
pub open spec fn liks_of(liks: Seq<u32>, n_seeds: int, k: int) -> Seq<u32> {
    liks.subrange(k * n_seeds, (k + 1) * n_seeds)
}

/// Weights of the seeds in channel `c` of a well: by scale, equal for the mean, zero
/// for the spread, which ignores them.
pub open spec fn wanted_weights<A: Arith>(
    m: A,
    liks: Seq<u32>,
    scales: Seq<u32>,
    c: int,
) -> Seq<u32> {
    if c <= scales.len() {
        reference::channel_weights(m, liks, scales, c)
    } else {
        Seq::new(liks.len(), |s: int| ieee::ZERO32)
    }
}

impl PfPlan {
    /// The plan's limits: what keeps the products of a chunk inside a `usize`.
    pub open spec fn fits(self, cfg: PfConfig, scales: Seq<u32>) -> bool {
        let rows = self.batch.md@.len();
        &&& cfg.n_seeds > 0
        &&& self.batch.wf()
        &&& self.n_out == reference::n_channels(scales, cfg.with_std)
        &&& rows * (scales.len() + 2) * cfg.n_seeds * 4 <= usize::MAX
        &&& rows * (scales.len() + 2) * 4 <= usize::MAX
    }

    /// A range of wells never needs more than the whole batch.
    proof fn lemma_part_fits(self, cfg: PfConfig, scales: Seq<u32>, w0: int, w1: int)
        requires
            self.fits(cfg, scales),
            0 <= w0 <= w1 <= self.batch.ev_lens@.len(),
        ensures
            ({
                let rows = layout::rows_between(self.batch.ev_lens@, w0, w1);
                let wells = w1 - w0;
                &&& 0 <= wells <= rows
                &&& rows <= self.batch.md@.len()
                &&& 0 <= self.n_out * rows
                &&& self.n_out * rows * 4 <= usize::MAX
                &&& 0 <= wells * cfg.n_seeds
                &&& wells * cfg.n_seeds * 4 <= usize::MAX
                &&& 0 <= rows * cfg.n_seeds
                &&& rows * cfg.n_seeds * 4 <= usize::MAX
                &&& 0 <= wells * self.n_out
                &&& wells * self.n_out <= wells * self.n_out * cfg.n_seeds <= usize::MAX
            }),
    {
        let lens = self.batch.ev_lens@;
        let n = lens.len() as int;
        self.batch.lemma_table_lengths();
        layout::lemma_before_monotone(lens, 0, w0);
        layout::lemma_before_monotone(lens, w0, w1);
        layout::lemma_before_monotone(lens, w1, n);
        let part = lens.subrange(w0, w1);
        layout::lemma_before_subrange(lens, w0, w1, w1 - w0);
        layout::lemma_part_count(part, w1 - w0);
        let rows = layout::rows_between(lens, w0, w1);
        let all = self.batch.md@.len() as int;
        let (c, s) = (scales.len() + 2, cfg.n_seeds as int);
        assert(rows * c * s <= all * c * s && rows * c <= all * c) by (nonlinear_arith)
            requires
                0 <= rows <= all,
                c > 0,
                s > 0,
        ;
        lemma_output_fits(rows, w1 - w0, self.n_out as int, scales.len() as int, s);
    }

    /// The `j`-th chunk.
    pub fn chunk(&self, cfg: &PfConfig, scales: &[u32], j: usize) -> (c: PfChunk)
        requires
            self.fits(*cfg, scales@),
            j < self.chunks@.len(),
            layout::covers(self.chunks@, self.batch.ev_lens@.len() as int),
        ensures
            is_chunk(
                *self,
                *cfg,
                self.chunks@[j as int].0 as int,
                self.chunks@[j as int].1 as int,
                c,
            ),
            c.w0 < c.w1 <= self.batch.ev_lens@.len(),
    {
        let (w0, w1) = self.chunks[j];
        proof {
            layout::lemma_chunk_in_range(
                self.chunks@,
                self.batch.ev_lens@.len() as int,
                j as int,
            );
            self.lemma_part_fits(*cfg, scales@, w0 as int, w1 as int);
        }
        let (sub, row0) = self.batch.sub_batch(w0, w1, cfg.n_seeds);
        let sub_wells = sub.n_wells();
        proof {
            sub.lemma_table_lengths();
        }
        let sub_rows = sub.total_rows();
        let seeds: usize = cfg.n_seeds as usize;
        let n_tasks: u32 = (sub_wells * seeds) as u32;
        let pred_bytes: usize = sub_rows * seeds * ELEM_BYTES;
        let liks_bytes: usize = sub_wells * seeds * ELEM_BYTES;
        let out_bytes: usize = self.n_out * sub_rows * ELEM_BYTES;
        PfChunk { sub, w0, w1, row0, n_tasks, pred_bytes, liks_bytes, out_bytes }
    }
}

/// Turns the log-likelihoods of `n_wells` wells into the weights of the blend.
pub fn blend_weights<A: Arith>(
    m: &A,
    liks: &[u32],
    n_wells: usize,
    n_seeds: u32,
    scales: &[u32],
    n_out: usize,
) -> (wts: Vec<u32>)
    requires
        liks@.len() == n_wells * n_seeds,
        scales@.len() < n_out,
        n_wells * n_out <= usize::MAX,
    ensures
        wts@.len() == n_wells * n_out * n_seeds,
        arith::deterministic(*m) ==> forall|k: int, c: int|
            0 <= k < n_wells && 0 <= c < n_out ==> #[trigger] device::well_weights(
                wts@,
                n_out as int,
                n_seeds as int,
                k,
                c,
            ) == wanted_weights(*m, liks_of(liks@, n_seeds as int, k), scales@, c),
{
    let seeds: usize = n_seeds as usize;
    let n_liks = liks.len();
    let mut lists: Vec<Vec<u32>> = Vec::new();
    let mut k: usize = 0;
    proof {
        assert(0 * n_out == 0) by (nonlinear_arith);
    }
    while k < n_wells
        invariant
            k <= n_wells,
            seeds == n_seeds,
            n_liks == liks@.len(),
            liks@.len() == n_wells * n_seeds,
            scales@.len() < n_out,
            lists@.len() == k * n_out,
            forall|q: int| 0 <= q < lists@.len() ==> (#[trigger] lists@[q])@.len() == seeds,
            arith::deterministic(*m) ==> forall|j: int, c: int|
                0 <= j < k && 0 <= c < n_out ==> lists@[#[trigger] reference::lik_slot(
                    n_out as int,
                    j,
                    c,
                )]@ == wanted_weights(*m, liks_of(liks@, n_seeds as int, j), scales@, c),
        decreases n_wells - k,
    {
        proof {
            let (x, y, z) = (k as int, n_wells as int, n_seeds as int);
            assert(0 <= x * z && (x + 1) * z <= y * z && (x + 1) * z == x * z + z)
                by (nonlinear_arith)
                requires
                    0 <= x < y,
                    z >= 0,
            ;
        }
        let own: &[u32] = &liks[k * seeds..k * seeds + seeds];
        assert(own@ =~= liks_of(liks@, n_seeds as int, k as int));
        let ghost before_k = lists@;
        let mut c: usize = 0;
        while c < n_out
            invariant
                c <= n_out,
                k < n_wells,
                seeds == n_seeds,
                own@.len() == seeds,
                own@ == liks_of(liks@, n_seeds as int, k as int),
                before_k.len() == k * n_out,
                lists@.len() == before_k.len() + c,
                forall|q: int| 0 <= q < before_k.len() ==> #[trigger] lists@[q] == before_k[q],
                forall|q: int| 0 <= q < lists@.len() ==> (#[trigger] lists@[q])@.len() == seeds,
                arith::deterministic(*m) ==> forall|d: int|
                    0 <= d < c ==> (#[trigger] lists@[before_k.len() + d])@ == wanted_weights(
                        *m,
                        own@,
                        scales@,
                        d,
                    ),
            decreases n_out - c,
        {
            let list = if c <= scales.len() {
                weigh_channel(m, own, scales, c)
            } else {
                vec![ieee::ZERO32; seeds]
            };
            proof {
                if arith::deterministic(*m) {
                    assert(list@ =~= wanted_weights(*m, own@, scales@, c as int));
                }
            }
            lists.push(list);
            c = c + 1;
        }
        proof {
            assert(k * n_out + n_out == (k + 1) * n_out) by (nonlinear_arith);
            if arith::deterministic(*m) {
                assert forall|j: int, c: int| 0 <= j < k + 1 && 0 <= c < n_out implies lists@[
                #[trigger] reference::lik_slot(n_out as int, j, c)]@ == wanted_weights(
                    *m,
                    liks_of(liks@, n_seeds as int, j),
                    scales@,
                    c,
                ) by {
                    let q = reference::lik_slot(n_out as int, j, c);
                    if j < k {
                        assert(0 <= q < k * n_out) by (nonlinear_arith)
                            requires
                                q == j * n_out + c,
                                0 <= j < k,
                                0 <= c < n_out,
                        ;
                        assert(lists@[q] == before_k[q]);
                    } else {
                        assert(q == before_k.len() + c);
                    }
                }
            }
        }
        k = k + 1;
    }
    let wts = layout::flatten(&lists);
    proof {
        reference::lemma_lik_lists(lists@, n_seeds as int, lists@.len() as int);
        if arith::deterministic(*m) {
            assert forall|k: int, c: int|
                0 <= k < n_wells && 0 <= c < n_out implies #[trigger] device::well_weights(
                wts@,
                n_out as int,
                n_seeds as int,
                k,
                c,
            ) == wanted_weights(*m, liks_of(liks@, n_seeds as int, k), scales@, c) by {
                let q = reference::lik_slot(n_out as int, k, c);
                assert(0 <= q < n_wells * n_out) by (nonlinear_arith)
                    requires
                        q == k * n_out + c,
                        0 <= k < n_wells,
                        0 <= c < n_out,
                ;
                reference::lemma_lik_lists(lists@, n_seeds as int, q);
                let a = device::well_weights(wts@, n_out as int, n_seeds as int, k, c);
                assert forall|s: int| 0 <= s < n_seeds implies #[trigger] a[s] == lists@[q]@[s] by {
                    assert(layout::list_place(lists@, q, s) == device::weight_slot(
                        n_out as int,
                        n_seeds as int,
                        k,
                        c,
                        s,
                    ));
                }
                assert(a =~= lists@[q]@);
            }
        }
    }
    wts
}

// ---------------------------------------------------------------------------
// Replies
// ---------------------------------------------------------------------------

/// Bytes to upload for a buffer of binary32 values or of `u32`s.
pub fn buffer32(words: &[u32]) -> (r: &[u8])
    ensures
        bytes::is_memory32(r@, words@, true) || bytes::is_memory32(r@, words@, false),
{
    bytes_of32(words)
}

impl PfPlan {
    /// Puts the log-likelihoods of a chunk in their place.
    pub fn put_liks(&mut self, cfg: &PfConfig, c: &PfChunk, liks: &[u32])
        requires
            liks@.len() == (c.w1 - c.w0) * cfg.n_seeds,
            c.w0 <= c.w1,
            c.w1 * cfg.n_seeds <= old(self).out.liks@.len(),
        ensures
            *final(self) == (PfPlan {
                out: PfOutput { liks: final(self).out.liks, ..old(self).out },
                ..*old(self)
            }),
            final(self).out.liks@.len() == old(self).out.liks@.len(),
            forall|p: int|
                0 <= p < old(self).out.liks@.len() ==> #[trigger] final(self).out.liks@[p] == if c.w0
                    * cfg.n_seeds <= p < c.w1 * cfg.n_seeds {
                    liks@[p - c.w0 * cfg.n_seeds]
                } else {
                    old(self).out.liks@[p]
                },
    {
        let len = self.out.liks.len();
        let n_liks = liks.len();
        proof {
            let (a, b, s) = (c.w0 as int, c.w1 as int, cfg.n_seeds as int);
            assert(0 <= a * s <= b * s && (b - a) * s == b * s - a * s) by (nonlinear_arith)
                requires
                    0 <= a <= b,
                    s >= 0,
            ;
        }
        let at: usize = c.w0 * cfg.n_seeds as usize;
        layout::place(&mut self.out.liks, at, liks);
    }

    /// Reads the log-likelihoods of a chunk from the device's bytes and puts them in
    /// their place.
    pub fn take_liks(&mut self, cfg: &PfConfig, c: &PfChunk, reply: &[u8]) -> (liks: Vec<u32>)
        requires
            reply@.len() == (c.w1 - c.w0) * cfg.n_seeds * 4,
            c.w0 <= c.w1,
            c.w1 * cfg.n_seeds <= old(self).out.liks@.len(),
        ensures
            bytes::is_memory32(reply@, liks@, true) || bytes::is_memory32(reply@, liks@, false),
            *final(self) == (PfPlan {
                out: PfOutput { liks: final(self).out.liks, ..old(self).out },
                ..*old(self)
            }),
            final(self).out.liks@.len() == old(self).out.liks@.len(),
            forall|p: int|
                0 <= p < old(self).out.liks@.len() ==> #[trigger] final(self).out.liks@[p] == if c.w0
                    * cfg.n_seeds <= p < c.w1 * cfg.n_seeds {
                    liks@[p - c.w0 * cfg.n_seeds]
                } else {
                    old(self).out.liks@[p]
                },
    {
        let liks = words_of32(reply);
        self.put_liks(cfg, c, &liks);
        liks
    }

    /// Puts the per-seed trajectories of a chunk in their place, where they were
    /// asked for.
    pub fn put_paths(&mut self, cfg: &PfConfig, c: &PfChunk, preds: &[u32])
        requires
            preds@.len() == c.sub.md@.len() * cfg.n_seeds,
            old(self).out.seed_paths matches Some(paths) ==> (c.row0 + c.sub.md@.len())
                * cfg.n_seeds <= paths@.len(),
        ensures
            *final(self) == (PfPlan {
                out: PfOutput { seed_paths: final(self).out.seed_paths, ..old(self).out },
                ..*old(self)
            }),
            final(self).out.seed_paths is Some == old(self).out.seed_paths is Some,
            old(self).out.seed_paths matches Some(was) ==> {
                let now = final(self).out.seed_paths->0;
                &&& now@.len() == was@.len()
                &&& forall|p: int|
                    0 <= p < was@.len() ==> #[trigger] now@[p] == if c.row0 * cfg.n_seeds <= p < c.row0
                        * cfg.n_seeds + preds@.len() {
                        preds@[p - c.row0 * cfg.n_seeds]
                    } else {
                        was@[p]
                    }
            },
    {
        let n_preds = preds.len();
        match &mut self.out.seed_paths {
            None => {},
            Some(paths) => {
                let len = paths.len();
                proof {
                    let (a, b, s) = (c.row0 as int, c.sub.md@.len() as int, cfg.n_seeds as int);
                    assert(0 <= a * s && (a + b) * s == a * s + b * s && 0 <= b * s)
                        by (nonlinear_arith)
                        requires
                            0 <= a,
                            0 <= b,
                            s >= 0,
                    ;
                }
                let at: usize = c.row0 * cfg.n_seeds as usize;
                layout::place(paths, at, preds);
            },
        }
    }

    /// Reads the per-seed trajectories of a chunk from the device's bytes and puts
    /// them in their place.
    pub fn take_paths(&mut self, cfg: &PfConfig, c: &PfChunk, reply: &[u8]) -> (preds: Vec<u32>)
        requires
            reply@.len() == c.sub.md@.len() * cfg.n_seeds * 4,
            old(self).out.seed_paths matches Some(paths) ==> (c.row0 + c.sub.md@.len())
                * cfg.n_seeds <= paths@.len(),
        ensures
            bytes::is_memory32(reply@, preds@, true) || bytes::is_memory32(reply@, preds@, false),
            *final(self) == (PfPlan {
                out: PfOutput { seed_paths: final(self).out.seed_paths, ..old(self).out },
                ..*old(self)
            }),
            final(self).out.seed_paths is Some == old(self).out.seed_paths is Some,
            old(self).out.seed_paths matches Some(was) ==> {
                let now = final(self).out.seed_paths->0;
                &&& now@.len() == was@.len()
                &&& forall|p: int|
                    0 <= p < was@.len() ==> #[trigger] now@[p] == if c.row0 * cfg.n_seeds <= p < c.row0
                        * cfg.n_seeds + preds@.len() {
                        preds@[p - c.row0 * cfg.n_seeds]
                    } else {
                        was@[p]
                    }
            },
    {
        let preds = words_of32(reply);
        self.put_paths(cfg, c, &preds);
        preds
    }

    /// Puts the output channels of a chunk in their place.
    pub fn put_values(&mut self, c: &PfChunk, vals: &[u32])
        requires
            c.sub.wf(),
            0 < c.sub.md@.len(),
            c.row0 + c.sub.md@.len() <= old(self).batch.md@.len(),
            old(self).batch.wf(),
            vals@.len() == old(self).n_out * c.sub.md@.len(),
            old(self).out.values@.len() == old(self).n_out * old(self).batch.md@.len(),
        ensures
            *final(self) == (PfPlan {
                out: PfOutput { values: final(self).out.values, ..old(self).out },
                ..*old(self)
            }),
            final(self).out.values@.len() == old(self).out.values@.len(),
            ({
                let total = old(self).batch.md@.len() as int;
                let rows = c.sub.md@.len() as int;
                forall|ch: int, r: int|
                    0 <= ch < old(self).n_out && 0 <= r < total ==> final(self).out.values@[
                    #[trigger] layout::cell(total, ch, r)] == if c.row0 <= r < c.row0 + rows {
                        vals@[layout::cell(rows, ch, r - c.row0)]
                    } else {
                        old(self).out.values@[layout::cell(total, ch, r)]
                    }
            }),
    {
        proof {
            c.sub.lemma_table_lengths();
            self.batch.lemma_table_lengths();
        }
        let total = self.batch.total_rows();
        let rows = c.sub.total_rows();
        let n_out = self.n_out;
        layout::scatter(&mut self.out.values, vals, n_out, total, rows, c.row0);
    }

    /// Reads the output channels of a chunk from the device's bytes and puts them in
    /// their place.
    pub fn take_values(&mut self, c: &PfChunk, reply: &[u8]) -> (vals: Vec<u32>)
        requires
            c.sub.wf(),
            0 < c.sub.md@.len(),
            c.row0 + c.sub.md@.len() <= old(self).batch.md@.len(),
            old(self).batch.wf(),
            reply@.len() == old(self).n_out * c.sub.md@.len() * 4,
            old(self).out.values@.len() == old(self).n_out * old(self).batch.md@.len(),
        ensures
            bytes::is_memory32(reply@, vals@, true) || bytes::is_memory32(reply@, vals@, false),
            *final(self) == (PfPlan {
                out: PfOutput { values: final(self).out.values, ..old(self).out },
                ..*old(self)
            }),
            final(self).out.values@.len() == old(self).out.values@.len(),
            ({
                let total = old(self).batch.md@.len() as int;
                let rows = c.sub.md@.len() as int;
                forall|ch: int, r: int|
                    0 <= ch < old(self).n_out && 0 <= r < total ==> final(self).out.values@[
                    #[trigger] layout::cell(total, ch, r)] == if c.row0 <= r < c.row0 + rows {
                        vals@[layout::cell(rows, ch, r - c.row0)]
                    } else {
                        old(self).out.values@[layout::cell(total, ch, r)]
                    }
            }),
    {
        let vals = words_of32(reply);
        self.put_values(c, &vals);
        vals
    }
}

// ---------------------------------------------------------------------------
// The loop
// ---------------------------------------------------------------------------

/// The replies of a device to one chunk: what the kernels compute from it.
struct Replies {
    preds: Vec<u32>,
    liks: Vec<u32>,
    vals: Vec<u32>,
}

/// Whether the replies are what the kernels compute for the wells of a chunk.
spec fn are_replies<A: Arith>(
    m: A,
    wells: Seq<WellInput>,
    cfg: PfConfig,
    scales: Seq<u32>,
    plan: PfPlan,
    c: PfChunk,
    r: Replies,
) -> bool {
    let seeds = cfg.n_seeds as int;
    let lens = c.sub.ev_lens@;
    &&& r.preds@.len() == c.sub.md@.len() * cfg.n_seeds
    &&& r.liks@.len() == lens.len() * cfg.n_seeds
    &&& r.vals@.len() == plan.n_out * c.sub.md@.len()
    &&& arith::deterministic(m) ==> forall|q: int, s: int|
        0 <= q < lens.len() && 0 <= s < seeds ==> r.liks@[#[trigger] reference::lik_slot(
            seeds,
            q,
            s,
        )] == reference::well_liks(
            m,
            Formulas::Pinned,
            wells[plan.out.kept@[c.w0 + q] as int],
            cfg,
        )[s]
    &&& arith::deterministic(m) ==> forall|q: int, s: int, i: int|
        0 <= q < lens.len() && 0 <= s < seeds && 0 <= i < lens[q]
            ==> r.preds@[#[trigger] reference::path_slot(lens, seeds, q, s, i)]
            == reference::row_estimates(
            m,
            Formulas::Pinned,
            wells[plan.out.kept@[c.w0 + q] as int],
            cfg,
            i,
        )[s]
    &&& arith::deterministic(m) ==> forall|ch: int, q: int, i: int|
        0 <= ch < plan.n_out && 0 <= q < lens.len() && 0 <= i < lens[q]
            ==> r.vals@[#[trigger] layout::slot(lens, ch, q, i)] == reference::channel_value(
            m,
            Formulas::Pinned,
            reference::row_estimates(
                m,
                Formulas::Pinned,
                wells[plan.out.kept@[c.w0 + q] as int],
                cfg,
                i,
            ),
            reference::well_liks(
                m,
                Formulas::Pinned,
                wells[plan.out.kept@[c.w0 + q] as int],
                cfg,
            ),
            scales,
            ch,
        )
}

/// Runs the kernels on a chunk.
fn launch<A: Arith>(
    m: &A,
    wells: &[WellInput],
    cfg: &PfConfig,
    scales: &[u32],
    plan: &PfPlan,
    c: &PfChunk,
) -> (r: Replies)
    requires
        is_plan(*m, wells@, *cfg, scales@, *plan),
        plan.fits(*cfg, scales@),
        cfg.cube_dim > 0,
        scales@.len() + 2 <= u32::MAX,
        c.w0 < c.w1 <= plan.batch.ev_lens@.len(),
        is_chunk(*plan, *cfg, c.w0 as int, c.w1 as int, *c),
        forall|k: int|
            0 <= k < plan.batch.ev_lens@.len() ==> #[trigger] plan.batch.grid_lens()[k] > 0,
    ensures
        are_replies(*m, wells@, *cfg, scales@, *plan, *c, r),
{
    let ghost seeds = cfg.n_seeds as int;
    let ghost lens = c.sub.ev_lens@;
    proof {
        plan.lemma_part_fits(*cfg, scales@, c.w0 as int, c.w1 as int);
        c.sub.lemma_table_lengths();
        assert forall|q: int| 0 <= q < lens.len() implies #[trigger] c.sub.grid_lens()[q] > 0 by {
            let k = c.w0 + q;
            assert(plan.batch.grid_lens()[k] > 0);
            plan.batch.lemma_well_in_bounds(k);
            c.sub.lemma_well_in_bounds(q);
            assert(c.sub.well(q) == plan.batch.well(k));
            assert(c.sub.well(q).grid.len() == c.sub.grid_lens()[q]);
            assert(plan.batch.well(k).grid.len() == plan.batch.grid_lens()[k]);
        }
    }
    let (preds, liks) = pf_lik_kernel(m, &c.sub, cfg);
    let sub_wells = c.sub.n_wells();
    let wts = blend_weights(m, &liks, sub_wells, cfg.n_seeds, scales, plan.n_out);
    let vals = pf_blend_kernel(
        m,
        &preds,
        &wts,
        &c.sub,
        cfg.n_seeds,
        plan.n_out,
        plan.std_channel,
    );
    proof {
        if arith::deterministic(*m) {
            assert forall|q: int, s: int| 0 <= q < lens.len() && 0 <= s < seeds implies liks@[
            #[trigger] reference::lik_slot(seeds, q, s)] == reference::well_liks(
                *m,
                Formulas::Pinned,
                wells@[plan.out.kept@[c.w0 + q] as int],
                *cfg,
            )[s] by {
                lemma_chunk_filter(*m, wells@, *cfg, scales@, *plan, *c, q, s);
            }
            assert forall|q: int, s: int, i: int|
                0 <= q < lens.len() && 0 <= s < seeds && 0 <= i < lens[q] implies preds@[
            #[trigger] reference::path_slot(lens, seeds, q, s, i)] == reference::row_estimates(
                *m,
                Formulas::Pinned,
                wells@[plan.out.kept@[c.w0 + q] as int],
                *cfg,
                i,
            )[s] by {
                lemma_chunk_filter(*m, wells@, *cfg, scales@, *plan, *c, q, s);
            }
            assert forall|ch: int, q: int, i: int|
                0 <= ch < plan.n_out && 0 <= q < lens.len() && 0 <= i < lens[q] implies vals@[
            #[trigger] layout::slot(lens, ch, q, i)] == reference::channel_value(
                *m,
                Formulas::Pinned,
                reference::row_estimates(
                    *m,
                    Formulas::Pinned,
                    wells@[plan.out.kept@[c.w0 + q] as int],
                    *cfg,
                    i,
                ),
                reference::well_liks(
                    *m,
                    Formulas::Pinned,
                    wells@[plan.out.kept@[c.w0 + q] as int],
                    *cfg,
                ),
                scales@,
                ch,
            ) by {
                let well = wells@[plan.out.kept@[c.w0 + q] as int];
                let wl = reference::well_liks(*m, Formulas::Pinned, well, *cfg);
                let own = liks_of(liks@, seeds, q);
                lemma_in_lists(lens.len() as int, seeds, q);
                assert forall|s: int| 0 <= s < seeds implies #[trigger] own[s] == wl[s] by {
                    assert(own[s] == liks@[reference::lik_slot(seeds, q, s)]);
                }
                assert(own =~= wl);
                let col = device::buffer_column(preds@, lens, seeds, q, i);
                let est = reference::row_estimates(*m, Formulas::Pinned, well, *cfg, i);
                assert forall|s: int| 0 <= s < seeds implies #[trigger] col[s] == est[s] by {
                    assert(col[s] == preds@[reference::path_slot(lens, seeds, q, s, i)]);
                }
                assert(col =~= est);
                assert(device::well_weights(wts@, plan.n_out as int, seeds, q, ch)
                    == wanted_weights(*m, own, scales@, ch));
            }
        }
    }
    Replies { preds, liks, vals }
}

/// The log-likelihoods of a well lie inside the reply.
proof fn lemma_in_lists(n: int, n_seeds: int, q: int)
    requires
        0 <= q < n,
        n_seeds >= 0,
    ensures
        0 <= q * n_seeds,
        (q + 1) * n_seeds == q * n_seeds + n_seeds,
        (q + 1) * n_seeds <= n * n_seeds,
{
    assert(0 <= q * n_seeds && (q + 1) * n_seeds == q * n_seeds + n_seeds && (q + 1) * n_seeds <= n
        * n_seeds) by (nonlinear_arith)
        requires
            0 <= q < n,
            n_seeds >= 0,
    ;
}

/// A filter of a chunk is the filter of the well that stands there.
proof fn lemma_chunk_filter<A: Arith>(
    m: A,
    wells: Seq<WellInput>,
    cfg: PfConfig,
    scales: Seq<u32>,
    plan: PfPlan,
    c: PfChunk,
    q: int,
    s: int,
)
    requires
        arith::deterministic(m),
        is_plan(m, wells, cfg, scales, plan),
        c.w0 < c.w1 <= plan.batch.ev_lens@.len(),
        is_chunk(plan, cfg, c.w0 as int, c.w1 as int, c),
        0 <= q < c.sub.ev_lens@.len(),
        0 <= s < cfg.n_seeds,
    ensures
        ({
            let well = wells[plan.out.kept@[c.w0 + q] as int];
            let a = device::flat_filter(m, c.sub, cfg, q, s);
            &&& a == reference::well_filter(m, Formulas::Pinned, well, cfg, s)
            &&& c.sub.ev_lens@[q] == well.md@.len()
        }),
{
    let k = c.w0 + q;
    let well = wells[plan.out.kept@[k] as int];
    assert(c.sub.well(q) == plan.batch.well(k));
    assert(plan.batch.holds(k, well));
    assert(plan.batch.holds_reciprocals(m, k));
    plan.batch.lemma_table_lengths();
    plan.batch.lemma_well_in_bounds(k);
    assert(plan.batch.well(k).meta_f.len() == 8);
    device::lemma_flat_filter_is_well_filter(m, plan.batch, well, cfg, k, s);
}

impl PfPlan {
    /// Puts the replies to one chunk in their place: the wells up to the chunk's end
    /// are then done.
    fn settle<A: Arith>(
        &mut self,
        m: &A,
        wells: &[WellInput],
        cfg: &PfConfig,
        scales: &[u32],
        c: &PfChunk,
        r: &Replies,
    )
        requires
            is_plan(*m, wells@, *cfg, scales@, *old(self)),
            old(self).fits(*cfg, scales@),
            c.w0 < c.w1 <= old(self).batch.ev_lens@.len(),
            is_chunk(*old(self), *cfg, c.w0 as int, c.w1 as int, *c),
            are_replies(*m, wells@, *cfg, scales@, *old(self), *c, *r),
            arith::deterministic(*m) ==> reference::holds_first(
                *m,
                Formulas::Pinned,
                wells@,
                *cfg,
                scales@,
                old(self).out,
                c.w0 as int,
            ),
        ensures
            is_plan(*m, wells@, *cfg, scales@, *final(self)),
            final(self).fits(*cfg, scales@),
            final(self).chunks == old(self).chunks,
            final(self).batch == old(self).batch,
            final(self).out.kept == old(self).out.kept,
            arith::deterministic(*m) ==> reference::holds_first(
                *m,
                Formulas::Pinned,
                wells@,
                *cfg,
                scales@,
                final(self).out,
                c.w1 as int,
            ),
    {
        let ghost was = *self;
        let ghost seeds = cfg.n_seeds as int;
        let ghost lens = self.batch.ev_lens@;
        let ghost n = lens.len() as int;
        proof {
            self.lemma_part_fits(*cfg, scales@, c.w0 as int, c.w1 as int);
            self.batch.lemma_table_lengths();
            c.sub.lemma_table_lengths();
            layout::lemma_before_monotone(lens, 0, c.w0 as int);
            layout::lemma_before_monotone(lens, c.w1 as int, n);
            let (a, b) = (c.w1 as int, n);
            assert(a * seeds <= b * seeds) by (nonlinear_arith)
                requires
                    0 <= a <= b,
                    seeds >= 0,
            ;
            let (x, y) = (c.row0 + c.sub.md@.len(), self.batch.md@.len() as int);
            assert(x * seeds <= y * seeds) by (nonlinear_arith)
                requires
                    0 <= x <= y,
                    seeds >= 0,
            ;
        }
        self.put_paths(cfg, c, &r.preds);
        self.put_liks(cfg, c, &r.liks);
        self.put_values(c, &r.vals);
        proof {
            if arith::deterministic(*m) {
                lemma_settled(*m, wells@, *cfg, scales@, was, *self, *c, *r);
            }
        }
    }
}

/// Once the replies to a chunk are placed, its wells are done and the ones before it
/// still are.
proof fn lemma_settled<A: Arith>(
    m: A,
    wells: Seq<WellInput>,
    cfg: PfConfig,
    scales: Seq<u32>,
    was: PfPlan,
    now: PfPlan,
    c: PfChunk,
    r: Replies,
)
    requires
        arith::deterministic(m),
        is_plan(m, wells, cfg, scales, was),
        was.fits(cfg, scales),
        c.w0 < c.w1 <= was.batch.ev_lens@.len(),
        is_chunk(was, cfg, c.w0 as int, c.w1 as int, c),
        are_replies(m, wells, cfg, scales, was, c, r),
        reference::holds_first(
            m,
            Formulas::Pinned,
            wells,
            cfg,
            scales,
            was.out,
            c.w0 as int,
        ),
        now.batch == was.batch,
        now.n_out == was.n_out,
        now.out.kept == was.out.kept,
        now.out.ev_lens == was.out.ev_lens,
        now.out.liks@.len() == was.out.liks@.len(),
        forall|p: int|
            0 <= p < was.out.liks@.len() ==> #[trigger] now.out.liks@[p] == if c.w0 * cfg.n_seeds
                <= p < c.w1 * cfg.n_seeds {
                r.liks@[p - c.w0 * cfg.n_seeds]
            } else {
                was.out.liks@[p]
            },
        now.out.seed_paths is Some == was.out.seed_paths is Some,
        was.out.seed_paths matches Some(old_paths) ==> forall|p: int|
            0 <= p < old_paths@.len() ==> #[trigger] (now.out.seed_paths->0)@[p] == if c.row0
                * cfg.n_seeds <= p < c.row0 * cfg.n_seeds + r.preds@.len() {
                r.preds@[p - c.row0 * cfg.n_seeds]
            } else {
                old_paths@[p]
            },
        ({
            let total = was.batch.md@.len() as int;
            let rows = c.sub.md@.len() as int;
            forall|ch: int, q: int|
                0 <= ch < was.n_out && 0 <= q < total ==> now.out.values@[#[trigger] layout::cell(
                    total,
                    ch,
                    q,
                )] == if c.row0 <= q < c.row0 + rows {
                    r.vals@[layout::cell(rows, ch, q - c.row0)]
                } else {
                    was.out.values@[layout::cell(total, ch, q)]
                }
        }),
    ensures
        reference::holds_first(
            m,
            Formulas::Pinned,
            wells,
            cfg,
            scales,
            now.out,
            c.w1 as int,
        ),
{
    let f = Formulas::Pinned;
    let seeds = cfg.n_seeds as int;
    let lens = was.batch.ev_lens@;
    let sub = c.sub.ev_lens@;
    let n = lens.len() as int;
    let (w0, w1) = (c.w0 as int, c.w1 as int);
    was.batch.lemma_table_lengths();
    c.sub.lemma_table_lengths();
    assert forall|k: int, s: int| 0 <= k < w1 && 0 <= s < seeds implies now.out.liks@[
    #[trigger] reference::lik_slot(seeds, k, s)] == reference::well_liks(
        m,
        f,
        wells[now.out.kept@[k] as int],
        cfg,
    )[s] by {
        let p = reference::lik_slot(seeds, k, s);
        lemma_lik_slot(seeds, n, w0, w1, k, s);
        if k >= w0 {
            let q = k - w0;
            assert(reference::lik_slot(seeds, q, s) == p - w0 * seeds);
            assert(r.liks@[reference::lik_slot(seeds, q, s)] == reference::well_liks(
                m,
                f,
                wells[was.out.kept@[c.w0 + q] as int],
                cfg,
            )[s]);
        }
    }
    assert forall|ch: int, k: int, i: int|
        0 <= ch < reference::n_channels(scales, cfg.with_std) && 0 <= k < w1 && 0 <= i
            < now.out.ev_lens@[k] implies now.out.values@[#[trigger] layout::slot(
        now.out.ev_lens@,
        ch,
        k,
        i,
    )] == reference::channel_value(
        m,
        f,
        reference::row_estimates(m, f, wells[now.out.kept@[k] as int], cfg, i),
        reference::well_liks(m, f, wells[now.out.kept@[k] as int], cfg),
        scales,
        ch,
    ) by {
        let total = was.batch.md@.len() as int;
        let rows = c.sub.md@.len() as int;
        let at = layout::row(lens, k, i);
        layout::lemma_slot_in_range(lens, was.n_out as int, ch, k, i);
        assert(layout::slot(lens, ch, k, i) == layout::cell(total, ch, at));
        layout::lemma_before_monotone(lens, 0, k);
        if k >= w0 {
            let q = k - w0;
            layout::lemma_before_subrange(lens, w0, w1, q);
            layout::lemma_before_subrange(lens, w0, w1, q + 1);
            layout::lemma_before_monotone(lens, w0, k);
            layout::lemma_before_monotone(lens, k + 1, w1);
            assert(layout::slot(sub, ch, q, i) == layout::cell(rows, ch, at - c.row0));
            assert(r.vals@[layout::slot(sub, ch, q, i)] == reference::channel_value(
                m,
                f,
                reference::row_estimates(
                    m,
                    f,
                    wells[was.out.kept@[c.w0 + q] as int],
                    cfg,
                    i,
                ),
                reference::well_liks(m, f, wells[was.out.kept@[c.w0 + q] as int], cfg),
                scales,
                ch,
            ));
        } else {
            layout::lemma_before_monotone(lens, k + 1, w0);
            assert(was.out.values@[layout::slot(was.out.ev_lens@, ch, k, i)]
                == now.out.values@[layout::cell(total, ch, at)]);
        }
    }
    if was.out.seed_paths is Some {
        let old_paths = was.out.seed_paths->0@;
        let new_paths = now.out.seed_paths->0@;
        assert forall|k: int, s: int, i: int|
            0 <= k < w1 && 0 <= s < seeds && 0 <= i < now.out.ev_lens@[k] implies new_paths[
        #[trigger] reference::path_slot(now.out.ev_lens@, seeds, k, s, i)]
            == reference::row_estimates(m, f, wells[now.out.kept@[k] as int], cfg, i)[s] by {
            let p = reference::path_slot(lens, seeds, k, s, i);
            lemma_path_slot(lens, seeds, w0, w1, k, s, i);
            if k >= w0 {
                let q = k - w0;
                layout::lemma_before_subrange(lens, w0, w1, q);
                assert(reference::path_slot(sub, seeds, q, s, i) == p - c.row0 * seeds)
                    by (nonlinear_arith)
                    requires
                        reference::path_slot(sub, seeds, q, s, i) == layout::before(sub, q) * seeds
                            + s * sub[q] + i,
                        p == layout::before(lens, k) * seeds + s * lens[k] + i,
                        layout::before(sub, q) == layout::before(lens, k) - c.row0,
                        sub[q] == lens[k],
                ;
                assert(r.preds@[reference::path_slot(sub, seeds, q, s, i)]
                    == reference::row_estimates(
                    m,
                    f,
                    wells[was.out.kept@[c.w0 + q] as int],
                    cfg,
                    i,
                )[s]);
            } else {
                assert(old_paths[reference::path_slot(was.out.ev_lens@, seeds, k, s, i)]
                    == new_paths[p]);
            }
        }
    }
}

proof fn lemma_lik_slot(seeds: int, n: int, w0: int, w1: int, k: int, s: int)
    requires
        0 <= w0 <= w1 <= n,
        0 <= k < w1,
        0 <= s < seeds,
    ensures
        0 <= reference::lik_slot(seeds, k, s) < n * seeds,
        reference::lik_slot(seeds, k, s) < w1 * seeds,
        k >= w0 ==> reference::lik_slot(seeds, k, s) >= w0 * seeds,
        k < w0 ==> reference::lik_slot(seeds, k, s) < w0 * seeds,
        reference::lik_slot(seeds, k - w0, s) == reference::lik_slot(seeds, k, s) - w0 * seeds,
{
    let p = reference::lik_slot(seeds, k, s);
    assert(0 <= p < w1 * seeds && w1 * seeds <= n * seeds && (k >= w0 ==> p >= w0 * seeds) && (k
        < w0 ==> p < w0 * seeds) && (k - w0) * seeds + s == p - w0 * seeds) by (nonlinear_arith)
        requires
            p == k * seeds + s,
            0 <= w0 <= w1 <= n,
            0 <= k < w1,
            0 <= s < seeds,
    ;
}

proof fn lemma_path_slot(lens: Seq<u32>, seeds: int, w0: int, w1: int, k: int, s: int, i: int)
    requires
        0 <= w0 <= w1 <= lens.len(),
        0 <= k < w1,
        0 <= s < seeds,
        0 <= i < lens[k],
    ensures
        ({
            let p = reference::path_slot(lens, seeds, k, s, i);
            &&& 0 <= p < layout::before(lens, lens.len() as int) * seeds
            &&& p < layout::before(lens, w0) * seeds + layout::rows_between(lens, w0, w1) * seeds
            &&& k >= w0 ==> p >= layout::before(lens, w0) * seeds
            &&& k < w0 ==> p < layout::before(lens, w0) * seeds
        }),
{
    let n = lens.len() as int;
    let p = reference::path_slot(lens, seeds, k, s, i);
    let (a, len) = (layout::before(lens, k), lens[k] as int);
    let (x, y, z) = (layout::before(lens, w0), layout::before(lens, w1), layout::before(lens, n));
    layout::lemma_before_monotone(lens, 0, k);
    layout::lemma_before_monotone(lens, k + 1, w1);
    layout::lemma_before_monotone(lens, w1, n);
    assert(a * seeds <= p < (a + len) * seeds && 0 <= a * seeds) by (nonlinear_arith)
        requires
            p == a * seeds + s * len + i,
            0 <= a,
            0 <= s < seeds,
            0 <= i < len,
    ;
    assert((a + len) * seeds <= y * seeds && y * seeds <= z * seeds && x * seeds + (y - x) * seeds
        == y * seeds) by (nonlinear_arith)
        requires
            a + len <= y,
            y <= z,
            seeds > 0,
    ;
    if k >= w0 {
        layout::lemma_before_monotone(lens, w0, k);
        assert(x * seeds <= a * seeds) by (nonlinear_arith)
            requires
                x <= a,
                seeds > 0,
        ;
    } else {
        layout::lemma_before_monotone(lens, k + 1, w0);
        assert((a + len) * seeds <= x * seeds) by (nonlinear_arith)
            requires
                a + len <= x,
                seeds > 0,
        ;
    }
}

/// Runs the multi-seed particle filter over `wells`, chunk by chunk, and returns per
/// output channel one value per evaluation row.
///
/// The output does not depend on how the batch was cut: it is that of the wells one
/// by one.
pub fn run_pf<A: Arith>(
    m: &A,
    wells: &[WellInput],
    cfg: &PfConfig,
    scales: &[u32],
) -> (r: Result<PfOutput, PfError>)
    requires
        plannable(wells@, *cfg, scales@),
    ensures
        match cfg.issue() {
            Some(e) => r == Err::<PfOutput, PfError>(PfError::Config(e)),
            None => match batch::first_issue(wells@, 0) {
                Some(e) => r == Err::<PfOutput, PfError>(PfError::Config(e)),
                None => r is Ok,
            },
        },
        r matches Ok(out) ==> reference::is_filtered(
            *m,
            Formulas::Pinned,
            wells@,
            *cfg,
            scales@,
            out,
        ),
{
    let mut plan = match PfPlan::start(m, wells, cfg, scales) {
        Err(e) => {
            return Err(e);
        },
        Ok(plan) => plan,
    };
    let n_given = wells.len();
    proof {
        assert(n_given == wells@.len());
        layout::lemma_pow2_is_positive(cfg.cube_dim as int);
        batch::lemma_kept_wells(wells@, wells@.len() as int);
        assert forall|k: int|
            0 <= k < plan.batch.ev_lens@.len() implies #[trigger] plan.batch.grid_lens()[k] > 0 by {
            let w = plan.out.kept@[k] as int;
            assert(plan.batch.holds(k, wells@[w]));
            plan.batch.lemma_table_lengths();
            plan.batch.lemma_well_in_bounds(k);
            assert(plan.batch.well(k).grid.len() == plan.batch.grid_lens()[k]);
            batch::lemma_checked_well(wells@, 0, w);
        }
    }
    let n_chunks = plan.chunks.len();
    let mut j: usize = 0;
    let ghost mut done: int = 0;
    while j < n_chunks
        invariant
            j <= n_chunks,
            n_chunks == plan.chunks@.len(),
            is_plan(*m, wells@, *cfg, scales@, plan),
            plan.fits(*cfg, scales@),
            cfg.cube_dim > 0,
            scales@.len() + 2 <= u32::MAX,
            forall|k: int|
                0 <= k < plan.batch.ev_lens@.len() ==> #[trigger] plan.batch.grid_lens()[k] > 0,
            j < n_chunks ==> done == plan.chunks@[j as int].0,
            j == n_chunks ==> done == plan.batch.ev_lens@.len(),
            arith::deterministic(*m) ==> reference::holds_first(
                *m,
                Formulas::Pinned,
                wells@,
                *cfg,
                scales@,
                plan.out,
                done,
            ),
        decreases n_chunks - j,
    {
        let c = plan.chunk(cfg, scales, j);
        let r = launch(m, wells, cfg, scales, &plan, &c);
        let ghost was = plan;
        plan.settle(m, wells, cfg, scales, &c, &r);
        proof {
            done = c.w1 as int;
            assert(plan.chunks@[j as int] == was.chunks@[j as int]);
        }
        j = j + 1;
    }
    Ok(plan.out)
}

} // verus!
