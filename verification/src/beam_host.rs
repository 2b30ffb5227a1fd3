//! The host side of a beam-search run on a device.
//!
//! As with the particle filter, a run is a plan and a loop: the plan validates the
//! request, lays the batch out, packs the configurations, cuts the batch into chunks
//! and allocates the output; the loop uploads a chunk, launches the smoothing, the
//! search and the mean, and puts the replies in their place. [`run_beam`] is that
//! loop with the kernels of [`crate::beam_device`].
use vstd::prelude::*;
use crate::arith;
use crate::arith::Arith;
use crate::beam;
use crate::beam::{
    max_beam_capacity, smoothing_planes, BeamConfig, BeamOptions, BeamOutput, BeamWellInput,
    FlatBeamBatch,
};
use crate::beam_device;
use crate::beam_device::{beam_mean_kernel, beam_search_kernel, sg_smooth_kernel};
use crate::beam_reference;
use crate::bytes;
use crate::bytes::{bytes_of64, words_of64};
use crate::error::PfError;
use crate::layout;

verus! {

/// Bytes of a binary64 element.
pub const BEAM_ELEM_BYTES: usize = 8;

/// Bytes of an entry of a history buffer.
pub const HISTORY_BYTES: usize = 4;

// ---------------------------------------------------------------------------
// The plan
// ---------------------------------------------------------------------------

/// A run that was accepted: the laid-out batch, the packed configurations, the
/// chunks, and the output so far.
pub struct BeamPlan {
    /// The batch.
    pub batch: FlatBeamBatch,
    /// Consecutive ranges of wells to launch together.
    pub chunks: Vec<(usize, usize)>,
    /// The distinct smoothing radii, one per plane.
    pub radii: Vec<u32>,
    /// Beam size and plane of every configuration.
    pub cfg_u: Vec<u32>,
    /// Move cost and error scale of every configuration.
    pub cfg_f: Vec<u64>,
    /// Beam slots that the search kernel's shared memory holds.
    pub max_beam: usize,
    /// The output, filled chunk by chunk.
    pub out: BeamOutput,
}

/// The request can be addressed: offsets, buffers and byte counts fit.
pub open spec fn beam_plannable(wells: Seq<BeamWellInput>, configs: Seq<BeamConfig>) -> bool {
    &&& beam_reference::beam_runnable(wells, configs)
    &&& beam::beam_demand(configs) <= usize::MAX / 2 + 1
    &&& configs.len() * 16 <= usize::MAX
    &&& configs.len() * (2 * beam::beam_demand(configs) + 3) * 8 <= usize::MAX
    &&& configs.len() * beam::beam_rows(wells, wells.len() as int) * 8 <= usize::MAX
    &&& configs.len() * beam::beam_rows(wells, wells.len() as int) * (2 * beam::beam_demand(configs)
        + 1) * 4 <= usize::MAX
}

/// Whether a plan can be made of the request.
pub fn is_beam_plannable(wells: &[BeamWellInput], configs: &[BeamConfig]) -> (r: bool)
    ensures
        r == beam_plannable(wells@, configs@),
{
    let n = configs.len();
    if !beam_reference::is_beam_runnable(wells, configs) || n.checked_mul(16).is_none() {
        return false;
    }
    let demand = beam::widest(configs) as usize;
    if demand > usize::MAX / 2 + 1 {
        return false;
    }
    if demand > (usize::MAX - 3) / 2 {
        assert(n * (2 * demand + 3) >= 2 * demand + 3) by (nonlinear_arith)
            requires
                n >= 1,
        ;
        return false;
    }
    let slots = 2 * demand + 3;
    let fits = match n.checked_mul(slots) {
        None => false,
        Some(per_row) => per_row.checked_mul(BEAM_ELEM_BYTES).is_some(),
    };
    match beam::count_beam_rows(wells) {
        None => false,
        Some(rows) => match n.checked_mul(rows) {
            None => false,
            Some(values) => fits && values.checked_mul(BEAM_ELEM_BYTES).is_some() && match values.checked_mul(
                slots - 2,
            ) {
                None => false,
                Some(kept) => kept.checked_mul(HISTORY_BYTES).is_some(),
            },
        },
    }
}

/// Whether slot `c` of the packed configurations is `cfg`, but for its radius.
pub open spec fn packs(cfg_u: Seq<u32>, cfg_f: Seq<u64>, c: int, cfg: BeamConfig) -> bool {
    &&& cfg_u[2 * c] == cfg.beam_size
    &&& cfg_f[2 * c] == cfg.move_cost
    &&& cfg_f[2 * c + 1] == cfg.err_scale
}

/// The plane that slot `c` of the packed configurations reads.
pub open spec fn plane_at(cfg_u: Seq<u32>, c: int) -> u32 {
    cfg_u[2 * c + 1]
}

/// Whether the packed configurations are `configs`, each with the plane of its
/// radius.
pub open spec fn is_packed(
    configs: Seq<BeamConfig>,
    radii: Seq<u32>,
    cfg_u: Seq<u32>,
    cfg_f: Seq<u64>,
) -> bool {
    &&& cfg_u.len() == 2 * configs.len()
    &&& cfg_f.len() == 2 * configs.len()
    &&& forall|c: int| 0 <= c < configs.len() ==> #[trigger] packs(cfg_u, cfg_f, c, configs[c])
    &&& forall|c: int|
        0 <= c < configs.len() ==> (#[trigger] plane_at(cfg_u, c)) < radii.len() && radii[plane_at(
            cfg_u,
            c,
        ) as int] == configs[c].radius
}

/// Packs the configurations for the search kernel: beam size and plane, move cost
/// and error scale.
pub fn pack_configs(configs: &[BeamConfig], plane_of: &Vec<u32>) -> (r: (Vec<u32>, Vec<u64>))
    requires
        plane_of@.len() == configs@.len(),
    ensures
        r.0@.len() == 2 * configs@.len(),
        r.1@.len() == 2 * configs@.len(),
        forall|c: int| 0 <= c < configs@.len() ==> #[trigger] packs(r.0@, r.1@, c, configs@[c]),
        forall|c: int| 0 <= c < configs@.len() ==> #[trigger] plane_at(r.0@, c) == plane_of@[c],
{
    let n = configs.len();
    let mut cfg_u: Vec<u32> = Vec::new();
    let mut cfg_f: Vec<u64> = Vec::new();
    let mut c: usize = 0;
    while c < n
        invariant
            c <= n,
            n == configs@.len(),
            plane_of@.len() == n,
            cfg_u@.len() == 2 * c,
            cfg_f@.len() == 2 * c,
            forall|d: int| 0 <= d < c ==> #[trigger] packs(cfg_u@, cfg_f@, d, configs@[d]),
            forall|d: int| 0 <= d < c ==> #[trigger] plane_at(cfg_u@, d) == plane_of@[d],
        decreases n - c,
    {
        let ghost old_u = cfg_u@;
        let ghost old_f = cfg_f@;
        cfg_u.push(configs[c].beam_size);
        cfg_u.push(plane_of[c]);
        cfg_f.push(configs[c].move_cost);
        cfg_f.push(configs[c].err_scale);
        proof {
            assert forall|d: int| 0 <= d < c + 1 implies #[trigger] packs(
                cfg_u@,
                cfg_f@,
                d,
                configs@[d],
            ) by {
                if d < c {
                    assert(packs(old_u, old_f, d, configs@[d]));
                }
            }
            assert forall|d: int| 0 <= d < c + 1 implies #[trigger] plane_at(cfg_u@, d)
                == plane_of@[d] by {
                if d < c {
                    assert(plane_at(old_u, d) == plane_of@[d]);
                }
            }
        }
        c = c + 1;
    }
    (cfg_u, cfg_f)
}

/// Rows that a chunk may hold. What scales with them are the planes, the trajectories
/// and, for every configuration and beam slot, an index and a parent.
pub open spec fn beam_chunk_rows(
    configs: Seq<BeamConfig>,
    opts: BeamOptions,
    max_beam: int,
) -> int {
    let planes = beam::distinct_radii(configs, configs.len() as int).len();
    layout::rows_in_budget(
        (planes + configs.len() + configs.len() * max_beam) * 8int,
        opts.budget_bytes as int,
    )
}

/// Whether `plan` serves the request.
pub open spec fn is_beam_plan(
    wells: Seq<BeamWellInput>,
    configs: Seq<BeamConfig>,
    opts: BeamOptions,
    plan: BeamPlan,
) -> bool {
    let n = plan.out.kept@.len() as int;
    &&& beam_reference::is_ensemble_shaped(wells, configs, opts, plan.out)
    &&& plan.batch.wf()
    &&& plan.batch.ev_lens@ == plan.out.ev_lens@
    &&& plan.batch.gr@.len() == beam::beam_rows(wells, wells.len() as int)
    &&& forall|k: int|
        0 <= k < n ==> #[trigger] plan.batch.holds(k, wells[plan.out.kept@[k] as int])
    &&& plan.radii@ == beam::distinct_radii(configs, configs.len() as int)
    &&& plan.radii@.len() <= configs.len()
    &&& is_packed(configs, plan.radii@, plan.cfg_u@, plan.cfg_f@)
    &&& layout::is_greedy_split(
        plan.batch.ev_lens@,
        plan.chunks@,
        beam_chunk_rows(configs, opts, plan.max_beam as int),
    )
    &&& layout::is_pow2_ceil(plan.max_beam as int, beam::beam_demand(configs))
}

impl BeamPlan {
    /// Accepts a request, or says what is wrong with it.
    pub fn start(wells: &[BeamWellInput], configs: &[BeamConfig], opts: &BeamOptions) -> (r: Result<
        BeamPlan,
        PfError,
    >)
        requires
            beam_plannable(wells@, configs@),
        ensures
            match opts.issue(configs@) {
                Some(e) => r == Err::<BeamPlan, PfError>(PfError::Config(e)),
                None => match beam::first_beam_issue(wells@, 0) {
                    Some(e) => r == Err::<BeamPlan, PfError>(PfError::Config(e)),
                    None => r is Ok,
                },
            },
            r matches Ok(plan) ==> {
                &&& is_beam_plan(wells@, configs@, *opts, plan)
                &&& plan.fits(configs@.len() as int)
            },
    {
        match opts.validate(configs) {
            Err(e) => {
                return Err(e);
            },
            Ok(()) => {},
        }
        let n_given = wells.len();
        let (b, kept) = match FlatBeamBatch::build(wells) {
            Err(e) => {
                return Err(e);
            },
            Ok(built) => built,
        };
        let n_configs = configs.len();
        let max_beam = max_beam_capacity(configs);
        let (radii, plane_of) = smoothing_planes(configs);
        let (cfg_u, cfg_f) = pack_configs(configs, &plane_of);
        proof {
            assert(n_given == wells@.len());
            b.lemma_table_lengths();
            beam::lemma_kept_beam_wells(wells@, wells@.len() as int);
            let (x, y) = (n_configs as int, b.gr@.len() as int);
            assert(0 <= x * y) by (nonlinear_arith)
                requires
                    0 <= x,
                    0 <= y,
            ;
            assert forall|c: int| 0 <= c < configs@.len() implies (#[trigger] plane_at(cfg_u@, c))
                < radii@.len() && radii@[plane_at(cfg_u@, c) as int] == configs@[c].radius by {
                assert(plane_of@[c] < radii@.len());
            }
        }
        let total = b.total_rows();
        let n_planes = radii.len();
        proof {
            let (x, d, mb) = (n_configs as int, beam::beam_demand(configs@), max_beam as int);
            layout::lemma_pow2_ceil_bound(mb, d);
            assert(x * mb <= x * (2 * d + 1) && x * (2 * d + 3) == x * (2 * d + 1) + 2 * x && 0 <= x
                * mb) by (nonlinear_arith)
                requires
                    0 <= x,
                    0 <= mb <= 2 * d + 1,
            ;
            let values = x * b.gr@.len();
            assert(0 <= values * mb <= values * (2 * d + 1)) by (nonlinear_arith)
                requires
                    0 <= values,
                    0 <= mb <= 2 * d + 1,
            ;
        }
        let per_row = n_planes + n_configs + n_configs * max_beam;
        let chunks = b.chunks(per_row, opts.budget_bytes, BEAM_ELEM_BYTES);
        let out = BeamOutput {
            mean: vec![0; total],
            per_config: if opts.with_per_config {
                Some(vec![0; n_configs * total])
            } else {
                None
            },
            ev_offsets: layout::copied(&b.ev_offsets),
            ev_lens: layout::copied(&b.ev_lens),
            kept,
        };
        proof {
            assert forall|k: int| 0 <= k < out.ev_lens@.len() implies {
                &&& #[trigger] out.ev_offsets@[k] == layout::before(out.ev_lens@, k)
                &&& out.ev_lens@[k] == wells@[out.kept@[k] as int].gr@.len()
            } by {
                b.lemma_well_in_bounds(k);
                assert(b.holds(k, wells@[out.kept@[k] as int]));
                assert(b.well(k).gr.len() == b.ev_lens@[k]);
            }
            assert forall|k: int| 0 <= k < out.kept@.len() implies #[trigger] out.ev_lens@[k]
                == wells@[out.kept@[k] as int].gr@.len() by {
                assert(out.ev_offsets@[k] == layout::before(out.ev_lens@, k));
            }
        }
        Ok(BeamPlan { batch: b, chunks, radii, cfg_u, cfg_f, max_beam, out })
    }
}

// ---------------------------------------------------------------------------
// Chunks
// ---------------------------------------------------------------------------

/// One launch: the wells `[w0, w1)` as a batch of their own.
pub struct BeamChunk {
    /// The rebased wells.
    pub sub: FlatBeamBatch,
    /// First well.
    pub w0: usize,
    /// One past the last well.
    pub w1: usize,
    /// First row in the whole batch.
    pub row0: usize,
    /// Search tasks: one per well and configuration.
    pub n_tasks: u32,
    /// Bytes of the smoothing planes.
    pub sgr_bytes: usize,
    /// Bytes of the trajectories.
    pub traj_bytes: usize,
    /// Bytes of the mean.
    pub mean_bytes: usize,
    /// Bytes of the history of beam slots, of the indices and of the parents each.
    pub hist_bytes: usize,
}

/// Whether `c` is the wells `[w0, w1)` of the plan's batch.
pub open spec fn is_beam_chunk(
    plan: BeamPlan,
    n_configs: int,
    w0: int,
    w1: int,
    c: BeamChunk,
) -> bool {
    &&& c.w0 == w0
    &&& c.w1 == w1
    &&& c.sub.wf()
    &&& c.sub.ev_lens@ == plan.batch.ev_lens@.subrange(w0, w1)
    &&& forall|k: int| 0 <= k < w1 - w0 ==> #[trigger] c.sub.well(k) == plan.batch.well(w0 + k)
    &&& c.row0 == layout::before(plan.batch.ev_lens@, w0)
    &&& c.sub.gr@.len() == layout::rows_between(plan.batch.ev_lens@, w0, w1)
    &&& c.n_tasks == ((w1 - w0) * n_configs) as u32
    &&& c.sgr_bytes == plan.radii@.len() * c.sub.gr@.len() * 8
    &&& c.traj_bytes == n_configs * c.sub.gr@.len() * 8
    &&& c.mean_bytes == c.sub.gr@.len() * 8
    &&& c.hist_bytes == n_configs * c.sub.gr@.len() * plan.max_beam * 4
}

impl BeamPlan {
    /// The plan's limits: what keeps the products of a chunk inside a `usize`.
    pub open spec fn fits(self, n_configs: int) -> bool {
        &&& self.batch.wf()
        &&& 0 < n_configs
        &&& self.radii@.len() <= n_configs
        &&& n_configs * self.batch.gr@.len() * 8 <= usize::MAX
        &&& n_configs * self.batch.gr@.len() * self.max_beam * 4 <= usize::MAX
    }

    /// A range of wells never needs more than the whole batch.
    proof fn lemma_part_fits(self, n_configs: int, w0: int, w1: int)
        requires
            self.fits(n_configs),
            0 <= w0 <= w1 <= self.batch.ev_lens@.len(),
        ensures
            ({
                let rows = layout::rows_between(self.batch.ev_lens@, w0, w1);
                let wells = w1 - w0;
                &&& 0 <= wells <= rows
                &&& rows <= self.batch.gr@.len()
                &&& rows * 8 <= usize::MAX
                &&& 0 <= n_configs * rows
                &&& n_configs * rows * 8 <= usize::MAX
                &&& 0 <= self.radii@.len() * rows
                &&& self.radii@.len() * rows * 8 <= usize::MAX
                &&& 0 <= wells * n_configs <= usize::MAX
                &&& 0 <= n_configs * rows * self.max_beam
                &&& n_configs * rows * self.max_beam * 4 <= usize::MAX
            }),
    {
        let lens = self.batch.ev_lens@;
        let n = lens.len() as int;
        self.batch.lemma_table_lengths();
        layout::lemma_before_monotone(lens, 0, w0);
        layout::lemma_before_monotone(lens, w0, w1);
        layout::lemma_before_monotone(lens, w1, n);
        let part = lens.subrange(w0, w1);
        layout::lemma_before_subrange(lens, w0, w1, w1 - w0);
        layout::lemma_part_count(part, w1 - w0);
        let rows = layout::rows_between(lens, w0, w1);
        let (all, planes, wells) = (
            self.batch.gr@.len() as int,
            self.radii@.len() as int,
            w1 - w0,
        );
        assert(0 <= n_configs * rows <= n_configs * all && 0 <= planes * rows <= n_configs * all
            && rows <= n_configs * all && 0 <= wells * n_configs <= n_configs * all)
            by (nonlinear_arith)
            requires
                0 <= wells <= rows <= all,
                0 <= planes <= n_configs,
                n_configs > 0,
        ;
        let (x, y, mb) = (n_configs * rows, n_configs * all, self.max_beam as int);
        assert(0 <= x * mb <= y * mb) by (nonlinear_arith)
            requires
                0 <= x <= y,
                0 <= mb,
        ;
    }

    /// The `j`-th chunk.
    pub fn chunk(&self, n_configs: usize, j: usize) -> (c: BeamChunk)
        requires
            self.fits(n_configs as int),
            j < self.chunks@.len(),
            layout::covers(self.chunks@, self.batch.ev_lens@.len() as int),
        ensures
            is_beam_chunk(
                *self,
                n_configs as int,
                self.chunks@[j as int].0 as int,
                self.chunks@[j as int].1 as int,
                c,
            ),
            c.w0 < c.w1 <= self.batch.ev_lens@.len(),
    {
        let (w0, w1) = self.chunks[j];
        proof {
            layout::lemma_chunk_in_range(
                self.chunks@,
                self.batch.ev_lens@.len() as int,
                j as int,
            );
            self.lemma_part_fits(n_configs as int, w0 as int, w1 as int);
        }
        let (sub, row0) = self.batch.sub_batch(w0, w1);
        let sub_wells = sub.n_wells();
        proof {
            sub.lemma_table_lengths();
        }
        let sub_rows = sub.total_rows();
        let n_planes = self.radii.len();
        let n_tasks: u32 = (sub_wells * n_configs) as u32;
        let sgr_bytes: usize = n_planes * sub_rows * BEAM_ELEM_BYTES;
        let traj_bytes: usize = n_configs * sub_rows * BEAM_ELEM_BYTES;
        let mean_bytes: usize = sub_rows * BEAM_ELEM_BYTES;
        let hist_bytes: usize = n_configs * sub_rows * self.max_beam * HISTORY_BYTES;
        BeamChunk { sub, w0, w1, row0, n_tasks, sgr_bytes, traj_bytes, mean_bytes, hist_bytes }
    }
}

// ---------------------------------------------------------------------------
// Replies
// ---------------------------------------------------------------------------

/// Bytes to upload for a buffer of binary64 values.
pub fn buffer64(words: &[u64]) -> (r: &[u8])
    ensures
        bytes::is_memory64(r@, words@, true) || bytes::is_memory64(r@, words@, false),
{
    bytes_of64(words)
}

impl BeamPlan {
    /// Puts the mean of a chunk in its place.
    pub fn put_mean(&mut self, c: &BeamChunk, mean: &[u64])
        requires
            c.row0 + mean@.len() <= old(self).out.mean@.len(),
        ensures
            *final(self) == (BeamPlan {
                out: BeamOutput { mean: final(self).out.mean, ..old(self).out },
                ..*old(self)
            }),
            final(self).out.mean@.len() == old(self).out.mean@.len(),
            forall|r: int|
                0 <= r < old(self).out.mean@.len() ==> #[trigger] final(self).out.mean@[r] == if c.row0
                    <= r < c.row0 + mean@.len() {
                    mean@[r - c.row0]
                } else {
                    old(self).out.mean@[r]
                },
    {
        layout::place(&mut self.out.mean, c.row0, mean);
    }

    /// Reads the mean of a chunk from the device's bytes and puts it in its place.
    pub fn take_mean(&mut self, c: &BeamChunk, reply: &[u8]) -> (mean: Vec<u64>)
        requires
            reply@.len() == c.sub.gr@.len() * 8,
            c.row0 + c.sub.gr@.len() <= old(self).out.mean@.len(),
        ensures
            bytes::is_memory64(reply@, mean@, true) || bytes::is_memory64(reply@, mean@, false),
            *final(self) == (BeamPlan {
                out: BeamOutput { mean: final(self).out.mean, ..old(self).out },
                ..*old(self)
            }),
            final(self).out.mean@.len() == old(self).out.mean@.len(),
            forall|r: int|
                0 <= r < old(self).out.mean@.len() ==> #[trigger] final(self).out.mean@[r] == if c.row0
                    <= r < c.row0 + mean@.len() {
                    mean@[r - c.row0]
                } else {
                    old(self).out.mean@[r]
                },
    {
        let mean = words_of64(reply);
        self.put_mean(c, &mean);
        mean
    }

    /// Puts the trajectories of a chunk in their place, where they were asked for.
    pub fn put_tracks(&mut self, c: &BeamChunk, n_configs: usize, traj: &[u64])
        requires
            0 < c.sub.gr@.len(),
            c.sub.wf(),
            traj@.len() == n_configs * c.sub.gr@.len(),
            c.row0 + c.sub.gr@.len() <= old(self).out.mean@.len(),
            old(self).out.per_config matches Some(pc) ==> pc@.len() == n_configs * old(
                self,
            ).out.mean@.len(),
        ensures
            *final(self) == (BeamPlan {
                out: BeamOutput { per_config: final(self).out.per_config, ..old(self).out },
                ..*old(self)
            }),
            final(self).out.per_config is Some == old(self).out.per_config is Some,
            old(self).out.per_config matches Some(was) ==> {
                let now = final(self).out.per_config->0;
                let total = old(self).out.mean@.len() as int;
                let rows = c.sub.gr@.len() as int;
                &&& now@.len() == was@.len()
                &&& forall|ch: int, r: int|
                    0 <= ch < n_configs && 0 <= r < total ==> now@[#[trigger] layout::cell(
                        total,
                        ch,
                        r,
                    )] == if c.row0 <= r < c.row0 + rows {
                        traj@[layout::cell(rows, ch, r - c.row0)]
                    } else {
                        was@[layout::cell(total, ch, r)]
                    }
            },
    {
        proof {
            c.sub.lemma_table_lengths();
        }
        let total = self.out.mean.len();
        let rows = c.sub.total_rows();
        match &mut self.out.per_config {
            None => {},
            Some(pc) => {
                layout::scatter(pc, traj, n_configs, total, rows, c.row0);
            },
        }
    }

    /// Reads the trajectories of a chunk from the device's bytes and puts them in
    /// their place.
    pub fn take_tracks(&mut self, c: &BeamChunk, n_configs: usize, reply: &[u8]) -> (traj: Vec<u64>)
        requires
            0 < c.sub.gr@.len(),
            c.sub.wf(),
            reply@.len() == n_configs * c.sub.gr@.len() * 8,
            c.row0 + c.sub.gr@.len() <= old(self).out.mean@.len(),
            old(self).out.per_config matches Some(pc) ==> pc@.len() == n_configs * old(
                self,
            ).out.mean@.len(),
        ensures
            bytes::is_memory64(reply@, traj@, true) || bytes::is_memory64(reply@, traj@, false),
            *final(self) == (BeamPlan {
                out: BeamOutput { per_config: final(self).out.per_config, ..old(self).out },
                ..*old(self)
            }),
            final(self).out.per_config is Some == old(self).out.per_config is Some,
            old(self).out.per_config matches Some(was) ==> {
                let now = final(self).out.per_config->0;
                let total = old(self).out.mean@.len() as int;
                let rows = c.sub.gr@.len() as int;
                &&& now@.len() == was@.len()
                &&& forall|ch: int, r: int|
                    0 <= ch < n_configs && 0 <= r < total ==> now@[#[trigger] layout::cell(
                        total,
                        ch,
                        r,
                    )] == if c.row0 <= r < c.row0 + rows {
                        traj@[layout::cell(rows, ch, r - c.row0)]
                    } else {
                        was@[layout::cell(total, ch, r)]
                    }
            },
    {
        let traj = words_of64(reply);
        self.put_tracks(c, n_configs, &traj);
        traj
    }
}

// ---------------------------------------------------------------------------
// The loop
// ---------------------------------------------------------------------------

/// The replies of a device to one chunk: what the kernels compute from it.
struct BeamReplies {
    traj: Vec<u64>,
    mean: Vec<u64>,
}

/// Whether the replies are what the kernels compute for the wells of a chunk.
spec fn are_beam_replies<A: Arith>(
    m: A,
    wells: Seq<BeamWellInput>,
    configs: Seq<BeamConfig>,
    opts: BeamOptions,
    plan: BeamPlan,
    c: BeamChunk,
    r: BeamReplies,
) -> bool {
    let lens = c.sub.ev_lens@;
    &&& r.traj@.len() == configs.len() * c.sub.gr@.len()
    &&& r.mean@.len() == c.sub.gr@.len()
    &&& arith::deterministic(m) ==> forall|d: int, q: int, i: int|
        0 <= d < configs.len() && 0 <= q < lens.len() && 0 <= i < lens[q]
            ==> r.traj@[#[trigger] layout::slot(lens, d, q, i)] == beam_reference::depth_at(
            m,
            wells[plan.out.kept@[c.w0 + q] as int],
            configs[d],
            opts.smoothing,
            i,
        )
    &&& arith::deterministic(m) ==> forall|q: int, i: int|
        0 <= q < lens.len() && 0 <= i < lens[q] ==> r.mean@[#[trigger] layout::row(lens, q, i)]
            == beam_reference::ensemble_mean(
            m,
            wells[plan.out.kept@[c.w0 + q] as int],
            configs,
            opts.smoothing,
            i,
        )
}

/// Runs the kernels on a chunk.
fn launch_beam<A: Arith>(
    m: &A,
    wells: &[BeamWellInput],
    configs: &[BeamConfig],
    opts: &BeamOptions,
    plan: &BeamPlan,
    c: &BeamChunk,
) -> (r: BeamReplies)
    requires
        is_beam_plan(wells@, configs@, *opts, *plan),
        plan.fits(configs@.len() as int),
        beam_reference::beam_runnable(wells@, configs@),
        opts.issue(configs@) is None,
        c.w0 < c.w1 <= plan.batch.ev_lens@.len(),
        is_beam_chunk(*plan, configs@.len() as int, c.w0 as int, c.w1 as int, *c),
    ensures
        are_beam_replies(*m, wells@, configs@, *opts, *plan, *c, r),
{
    let n_configs = configs.len();
    let ghost lens = c.sub.ev_lens@;
    let ghost kind = opts.smoothing;
    proof {
        plan.lemma_part_fits(n_configs as int, c.w0 as int, c.w1 as int);
        c.sub.lemma_table_lengths();
    }
    let rows = c.sub.total_rows();
    let sgr = sg_smooth_kernel(m, &c.sub, &plan.radii, opts.smoothing);
    proof {
        assert forall|d: int| 0 <= d < n_configs implies {
            &&& #[trigger] beam_device::launched_config(plan.cfg_u@, plan.cfg_f@, d).beam_size > 0
            &&& 5 * plan.cfg_u@[2 * d] <= usize::MAX
            &&& c.sub.gr@.len() * plan.cfg_u@[2 * d] <= usize::MAX
            &&& (plan.cfg_u@[2 * d + 1] + 1) * c.sub.gr@.len() <= sgr@.len()
        } by {
            assert(packs(plan.cfg_u@, plan.cfg_f@, d, configs@[d]));
            assert(plane_at(plan.cfg_u@, d) < plan.radii@.len());
            beam::lemma_checked_ensemble(configs@, 0, d);
            let (size, part, all) = (
                configs@[d].beam_size as int,
                c.sub.gr@.len() as int,
                plan.batch.gr@.len() as int,
            );
            assert(part * size <= all * size) by (nonlinear_arith)
                requires
                    0 <= part <= all,
                    size >= 0,
            ;
            let (p, planes) = (plane_at(plan.cfg_u@, d) as int, plan.radii@.len() as int);
            assert((p + 1) * part <= planes * part) by (nonlinear_arith)
                requires
                    p + 1 <= planes,
                    part >= 0,
            ;
        }
    }
    let traj = beam_search_kernel(m, &c.sub, &sgr, &plan.cfg_u, &plan.cfg_f, n_configs);
    let mean = beam_mean_kernel(m, &traj, rows, n_configs);
    proof {
        if arith::deterministic(*m) {
            assert forall|d: int, q: int, i: int|
                0 <= d < configs@.len() && 0 <= q < lens.len() && 0 <= i < lens[q] implies traj@[
            #[trigger] layout::slot(lens, d, q, i)] == beam_reference::depth_at(
                *m,
                wells@[plan.out.kept@[c.w0 + q] as int],
                configs@[d],
                kind,
                i,
            ) by {
                let well = wells@[plan.out.kept@[c.w0 + q] as int];
                assert(c.sub.well(q) == plan.batch.well(c.w0 + q));
                assert(plan.batch.holds(c.w0 + q, well));
                let a = beam_device::launched_search(
                    *m,
                    c.sub,
                    sgr@,
                    plan.cfg_u@,
                    plan.cfg_f@,
                    d,
                    q,
                );
                let b = beam_reference::search_of(*m, well, configs@[d], kind);
                assert(packs(plan.cfg_u@, plan.cfg_f@, d, configs@[d]));
                let p = plane_at(plan.cfg_u@, d) as int;
                assert(plan.radii@[p] == configs@[d].radius);
                c.sub.lemma_well_in_bounds(q);
                assert(c.sub.well(q).gr.len() == lens[q]);
                assert forall|j: int| 0 <= j < lens[q] implies #[trigger] a.sgr[j] == b.sgr[j] by {
                    assert(a.sgr[j] == sgr@[layout::slot(lens, p, q, j)]);
                }
                assert(a.sgr =~= b.sgr);
                beam_reference::lemma_radius_plays_no_part(a, b, i);
            }
            assert forall|q: int, i: int| 0 <= q < lens.len() && 0 <= i < lens[q] implies mean@[
            #[trigger] layout::row(lens, q, i)] == beam_reference::ensemble_mean(
                *m,
                wells@[plan.out.kept@[c.w0 + q] as int],
                configs@,
                kind,
                i,
            ) by {
                let well = wells@[plan.out.kept@[c.w0 + q] as int];
                layout::lemma_slot_in_range(lens, 1, 0, q, i);
                lemma_config_sum(*m, well, configs@, kind, traj@, lens, q, i, n_configs as int);
            }
        }
    }
    BeamReplies { traj, mean }
}

/// The sum of a row over the trajectories is the sum of the depths.
proof fn lemma_config_sum<A: Arith>(
    m: A,
    well: BeamWellInput,
    configs: Seq<BeamConfig>,
    kind: beam::SmoothingKind,
    traj: Seq<u64>,
    lens: Seq<u32>,
    q: int,
    i: int,
    n: int,
)
    requires
        0 <= n <= configs.len(),
        forall|d: int|
            0 <= d < configs.len() ==> traj[#[trigger] layout::slot(lens, d, q, i)]
                == beam_reference::depth_at(m, well, configs[d], kind, i),
    ensures
        beam_device::config_sum(
            m,
            traj,
            layout::before(lens, lens.len() as int),
            layout::row(lens, q, i),
            n,
        ) == beam_reference::depth_sum(m, well, configs, kind, i, n),
    decreases n,
{
    if n > 0 {
        lemma_config_sum(m, well, configs, kind, traj, lens, q, i, n - 1);
        assert(layout::slot(lens, n - 1, q, i) == layout::cell(
            layout::before(lens, lens.len() as int),
            n - 1,
            layout::row(lens, q, i),
        ));
    }
}

impl BeamPlan {
    /// Puts the replies to one chunk in their place: the wells up to the chunk's end
    /// are then done.
    fn settle<A: Arith>(
        &mut self,
        m: &A,
        wells: &[BeamWellInput],
        configs: &[BeamConfig],
        opts: &BeamOptions,
        c: &BeamChunk,
        r: &BeamReplies,
    )
        requires
            is_beam_plan(wells@, configs@, *opts, *old(self)),
            old(self).fits(configs@.len() as int),
            c.w0 < c.w1 <= old(self).batch.ev_lens@.len(),
            is_beam_chunk(*old(self), configs@.len() as int, c.w0 as int, c.w1 as int, *c),
            are_beam_replies(*m, wells@, configs@, *opts, *old(self), *c, *r),
            arith::deterministic(*m) ==> beam_reference::holds_tracks(
                *m,
                wells@,
                configs@,
                opts.smoothing,
                old(self).out,
                c.w0 as int,
            ),
        ensures
            is_beam_plan(wells@, configs@, *opts, *final(self)),
            final(self).fits(configs@.len() as int),
            final(self).chunks == old(self).chunks,
            final(self).batch == old(self).batch,
            arith::deterministic(*m) ==> beam_reference::holds_tracks(
                *m,
                wells@,
                configs@,
                opts.smoothing,
                final(self).out,
                c.w1 as int,
            ),
    {
        let ghost was = *self;
        let ghost lens = self.batch.ev_lens@;
        let ghost n = lens.len() as int;
        proof {
            self.lemma_part_fits(configs@.len() as int, c.w0 as int, c.w1 as int);
            self.batch.lemma_table_lengths();
            c.sub.lemma_table_lengths();
            layout::lemma_before_monotone(lens, 0, c.w0 as int);
            layout::lemma_before_monotone(lens, c.w1 as int, n);
        }
        self.put_tracks(c, configs.len(), &r.traj);
        self.put_mean(c, &r.mean);
        proof {
            if arith::deterministic(*m) {
                lemma_beam_settled(*m, wells@, configs@, *opts, was, *self, *c, *r);
            }
        }
    }
}

/// Once the replies to a chunk are placed, its wells are done and the ones before it
/// still are.
proof fn lemma_beam_settled<A: Arith>(
    m: A,
    wells: Seq<BeamWellInput>,
    configs: Seq<BeamConfig>,
    opts: BeamOptions,
    was: BeamPlan,
    now: BeamPlan,
    c: BeamChunk,
    r: BeamReplies,
)
    requires
        arith::deterministic(m),
        is_beam_plan(wells, configs, opts, was),
        c.w0 < c.w1 <= was.batch.ev_lens@.len(),
        is_beam_chunk(was, configs.len() as int, c.w0 as int, c.w1 as int, c),
        are_beam_replies(m, wells, configs, opts, was, c, r),
        beam_reference::holds_tracks(
            m,
            wells,
            configs,
            opts.smoothing,
            was.out,
            c.w0 as int,
        ),
        now.batch == was.batch,
        now.out.kept == was.out.kept,
        now.out.ev_lens == was.out.ev_lens,
        now.out.mean@.len() == was.out.mean@.len(),
        forall|p: int|
            0 <= p < was.out.mean@.len() ==> #[trigger] now.out.mean@[p] == if c.row0 <= p < c.row0
                + r.mean@.len() {
                r.mean@[p - c.row0]
            } else {
                was.out.mean@[p]
            },
        now.out.per_config is Some == was.out.per_config is Some,
        was.out.per_config matches Some(old_pc) ==> {
            let total = was.out.mean@.len() as int;
            let rows = c.sub.gr@.len() as int;
            forall|ch: int, p: int|
                0 <= ch < configs.len() && 0 <= p < total ==> (now.out.per_config->0)@[
                #[trigger] layout::cell(total, ch, p)] == if c.row0 <= p < c.row0 + rows {
                    r.traj@[layout::cell(rows, ch, p - c.row0)]
                } else {
                    old_pc@[layout::cell(total, ch, p)]
                }
        },
    ensures
        beam_reference::holds_tracks(
            m,
            wells,
            configs,
            opts.smoothing,
            now.out,
            c.w1 as int,
        ),
{
    let kind = opts.smoothing;
    let lens = was.batch.ev_lens@;
    let sub = c.sub.ev_lens@;
    let (w0, w1) = (c.w0 as int, c.w1 as int);
    let total = was.out.mean@.len() as int;
    let rows = c.sub.gr@.len() as int;
    was.batch.lemma_table_lengths();
    c.sub.lemma_table_lengths();
    assert forall|k: int, i: int| 0 <= k < w1 && 0 <= i < now.out.ev_lens@[k] implies now.out.mean@[
    #[trigger] layout::row(now.out.ev_lens@, k, i)] == beam_reference::ensemble_mean(
        m,
        wells[now.out.kept@[k] as int],
        configs,
        kind,
        i,
    ) by {
        let at = layout::row(lens, k, i);
        layout::lemma_slot_in_range(lens, 1, 0, k, i);
        lemma_row_in_chunk(lens, w0, w1, k, i);
        if k >= w0 {
            let q = k - w0;
            assert(layout::row(sub, q, i) == at - c.row0);
            assert(r.mean@[layout::row(sub, q, i)] == beam_reference::ensemble_mean(
                m,
                wells[was.out.kept@[c.w0 + q] as int],
                configs,
                kind,
                i,
            ));
        } else {
            assert(was.out.mean@[layout::row(was.out.ev_lens@, k, i)] == now.out.mean@[at]);
        }
    }
    if was.out.per_config is Some {
        let old_pc = was.out.per_config->0@;
        let new_pc = now.out.per_config->0@;
        assert forall|d: int, k: int, i: int|
            0 <= d < configs.len() && 0 <= k < w1 && 0 <= i < now.out.ev_lens@[k] implies new_pc[
        #[trigger] layout::slot(now.out.ev_lens@, d, k, i)] == beam_reference::depth_at(
            m,
            wells[now.out.kept@[k] as int],
            configs[d],
            kind,
            i,
        ) by {
            let at = layout::row(lens, k, i);
            layout::lemma_slot_in_range(lens, configs.len() as int, d, k, i);
            lemma_row_in_chunk(lens, w0, w1, k, i);
            assert(layout::slot(lens, d, k, i) == layout::cell(total, d, at));
            if k >= w0 {
                let q = k - w0;
                assert(layout::slot(sub, d, q, i) == layout::cell(rows, d, at - c.row0));
                assert(r.traj@[layout::slot(sub, d, q, i)] == beam_reference::depth_at(
                    m,
                    wells[was.out.kept@[c.w0 + q] as int],
                    configs[d],
                    kind,
                    i,
                ));
            } else {
                assert(old_pc[layout::slot(was.out.ev_lens@, d, k, i)] == new_pc[layout::cell(
                    total,
                    d,
                    at,
                )]);
            }
        }
    }
}

/// Where a row of the wells below `w1` stands next to the wells `[w0, w1)`.
proof fn lemma_row_in_chunk(lens: Seq<u32>, w0: int, w1: int, k: int, i: int)
    requires
        0 <= w0 <= w1 <= lens.len(),
        0 <= k < w1,
        0 <= i < lens[k],
    ensures
        k >= w0 ==> {
            &&& layout::before(lens, w0) <= layout::row(lens, k, i) < layout::before(lens, w1)
            &&& layout::row(lens.subrange(w0, w1), k - w0, i) == layout::row(lens, k, i)
                - layout::before(lens, w0)
        },
        k < w0 ==> layout::row(lens, k, i) < layout::before(lens, w0),
{
    if k >= w0 {
        layout::lemma_before_subrange(lens, w0, w1, k - w0);
        layout::lemma_before_monotone(lens, w0, k);
        layout::lemma_before_monotone(lens, k + 1, w1);
    } else {
        layout::lemma_before_monotone(lens, k + 1, w0);
    }
}

/// Runs the beam-search ensemble over `wells`, chunk by chunk, and returns, per
/// evaluation row, the mean over `configs` of the tracked depth.
///
/// The output does not depend on how the batch was cut, nor on the cube width: it is
/// that of the wells one by one.
pub fn run_beam<A: Arith>(
    m: &A,
    wells: &[BeamWellInput],
    configs: &[BeamConfig],
    opts: &BeamOptions,
) -> (r: Result<BeamOutput, PfError>)
    requires
        beam_plannable(wells@, configs@),
    ensures
        match opts.issue(configs@) {
            Some(e) => r == Err::<BeamOutput, PfError>(PfError::Config(e)),
            None => match beam::first_beam_issue(wells@, 0) {
                Some(e) => r == Err::<BeamOutput, PfError>(PfError::Config(e)),
                None => r is Ok,
            },
        },
        r matches Ok(out) ==> beam_reference::is_ensemble(*m, wells@, configs@, *opts, out),
{
    let mut plan = match BeamPlan::start(wells, configs, opts) {
        Err(e) => {
            return Err(e);
        },
        Ok(plan) => plan,
    };
    let n_configs = configs.len();
    let n_chunks = plan.chunks.len();
    let mut j: usize = 0;
    let ghost mut done: int = 0;
    while j < n_chunks
        invariant
            j <= n_chunks,
            n_chunks == plan.chunks@.len(),
            n_configs == configs@.len(),
            is_beam_plan(wells@, configs@, *opts, plan),
            plan.fits(configs@.len() as int),
            beam_reference::beam_runnable(wells@, configs@),
            opts.issue(configs@) is None,
            j < n_chunks ==> done == plan.chunks@[j as int].0,
            j == n_chunks ==> done == plan.batch.ev_lens@.len(),
            arith::deterministic(*m) ==> beam_reference::holds_tracks(
                *m,
                wells@,
                configs@,
                opts.smoothing,
                plan.out,
                done,
            ),
        decreases n_chunks - j,
    {
        let c = plan.chunk(n_configs, j);
        let r = launch_beam(m, wells, configs, opts, &plan, &c);
        let ghost was = plan;
        plan.settle(m, wells, configs, opts, &c, &r);
        proof {
            done = c.w1 as int;
            assert(plan.chunks@[j as int] == was.chunks@[j as int]);
        }
        j = j + 1;
    }
    Ok(plan.out)
}

} // verus!
