//! Host-side description of a particle-filter batch and its flattened device
//! layout.
use vstd::prelude::*;
use crate::arith;
use crate::arith::Arith;
use crate::error::{ConfigIssue, PfError};
use crate::ieee;
use crate::layout;

verus! {

/// Filter hyper-parameters. The float parameters are binary32 patterns.
#[derive(Debug, Clone, Copy)]
pub struct PfConfig {
    /// Particles per cloud.
    pub n_particles: u32,
    /// Independent seeds per well.
    pub n_seeds: u32,
    /// Units per cube. Must be a power of two.
    pub cube_dim: u32,
    /// Rate momentum.
    pub mom: u32,
    /// Rate process noise.
    pub vn: u32,
    /// Position process noise.
    pub pn: u32,
    /// Roughening applied to the position on resampling.
    pub rough_p: u32,
    /// Roughening applied to the rate on resampling.
    pub rough_r: u32,
    /// Resample when `neff < resamp * n_particles`.
    pub resamp: u32,
    /// Per-observation likelihood floor.
    pub lik_floor: u32,
    /// Device bytes to spend on the per-seed trajectories before splitting the
    /// batch into chunks.
    pub pred_budget_bytes: usize,
    /// Emit an extra `pf_pt_std` channel: the unweighted spread across seeds.
    pub with_std: bool,
    /// Also bring each seed's own trajectory back.
    pub with_seed_paths: bool,
}

/// The standard hyper-parameters.
pub open spec fn standard_config() -> PfConfig {
    PfConfig {
        n_particles: 500,
        n_seeds: 128,
        cube_dim: 256,
        mom: 0x3F7F_7CEE,
        vn: 0x3B03_126F,
        pn: 0x3BA3_D70A,
        rough_p: 0x3DCC_CCCD,
        rough_r: 0x3A83_126F,
        resamp: 0x3F00_0000,
        lik_floor: 0x2B8C_BCCC,
        pred_budget_bytes: 536_870_912,
        with_std: false,
        with_seed_paths: false,
    }
}

impl Default for PfConfig {
    /// 500 particles, 128 seeds, cubes of 256 units; `mom` 0.998, `vn` 0.002, `pn`
    /// 0.005, `rough_p` 0.1, `rough_r` 0.001, `resamp` 0.5, `lik_floor` 1e-12; a
    /// budget of 512 MiB and no extra output.
    fn default() -> (c: Self)
        ensures
            c == standard_config(),
            c.n_particles == 500,
            c.n_seeds == 128,
            c.cube_dim == 256,
            c.mom == 0x3F7F_7CEE,
            c.vn == 0x3B03_126F,
            c.pn == 0x3BA3_D70A,
            c.rough_p == 0x3DCC_CCCD,
            c.rough_r == 0x3A83_126F,
            c.resamp == 0x3F00_0000,
            c.lik_floor == 0x2B8C_BCCC,
            c.pred_budget_bytes == 536_870_912,
            !c.with_std,
            !c.with_seed_paths,
    {
        PfConfig {
            n_particles: 500,
            n_seeds: 128,
            cube_dim: 256,
            mom: 0x3F7F_7CEE,
            vn: 0x3B03_126F,
            pn: 0x3BA3_D70A,
            rough_p: 0x3DCC_CCCD,
            rough_r: 0x3A83_126F,
            resamp: 0x3F00_0000,
            lik_floor: 0x2B8C_BCCC,
            pred_budget_bytes: 536_870_912,
            with_std: false,
            with_seed_paths: false,
        }
    }
}

impl PfConfig {
    /// The larger of the particle count and the cube width.
    pub open spec fn demand(self) -> int {
        if self.n_particles > self.cube_dim {
            self.n_particles as int
        } else {
            self.cube_dim as int
        }
    }

    /// The first invariant of the kernels that the configuration breaks.
    pub open spec fn issue(self) -> Option<ConfigIssue> {
        if !layout::is_pow2(self.cube_dim as int) {
            Some(ConfigIssue::CubeDim { cube_dim: self.cube_dim })
        } else if self.n_particles == 0 {
            Some(ConfigIssue::NoParticles)
        } else if self.n_seeds == 0 {
            Some(ConfigIssue::NoSeeds)
        } else {
            None
        }
    }

    /// Shared-memory particle capacity the kernel is specialised for. Bucketed so
    /// that varying particle counts reuse a small number of compiled kernels.
    pub fn smem_particles(&self) -> (r: usize)
        requires
            self.demand() <= usize::MAX / 2 + 1,
        ensures
            layout::is_pow2_ceil(r as int, self.demand()),
    {
        let n: usize = if self.n_particles > self.cube_dim {
            self.n_particles as usize
        } else {
            self.cube_dim as usize
        };
        layout::next_power_of_two(n)
    }

    /// Checks the invariants the kernels rely on.
    pub fn validate(&self) -> (r: Result<(), PfError>)
        ensures
            match self.issue() {
                None => r is Ok,
                Some(e) => r == Err::<(), PfError>(PfError::Config(e)),
            },
    {
        if !layout::power_of_two(self.cube_dim) {
            return Err(PfError::Config(ConfigIssue::CubeDim { cube_dim: self.cube_dim }));
        }
        if self.n_particles == 0 {
            return Err(PfError::Config(ConfigIssue::NoParticles));
        }
        if self.n_seeds == 0 {
            return Err(PfError::Config(ConfigIssue::NoSeeds));
        }
        Ok(())
    }
}

/// The shared memory always holds the whole cloud, and the bucket less than
/// doubles the demand.
pub proof fn lemma_capacity_covers_the_cloud(c: PfConfig, capacity: int)
    requires
        layout::is_pow2_ceil(capacity, c.demand()),
        c.demand() > 0,
    ensures
        c.n_particles <= capacity,
        c.cube_dim <= capacity,
        capacity < 2 * c.demand(),
{
    let k = choose|k: nat| vstd::arithmetic::power2::pow2(k) == capacity;
    vstd::arithmetic::power2::lemma2_to64();
    if capacity >= 2 * c.demand() {
        assert(k > 0);
        vstd::arithmetic::power2::lemma_pow2_unfold(k);
        let half = vstd::arithmetic::power2::pow2((k - 1) as nat) as int;
        assert(layout::is_pow2(half));
    }
}

/// One well's evaluation zone plus its type-well grid. Floats are binary32
/// patterns.
#[derive(Debug, Clone)]
pub struct WellInput {
    /// Measured depth of every evaluation row, ascending.
    pub md: Vec<u32>,
    /// True vertical depth offset of every evaluation row.
    pub z: Vec<u32>,
    /// Gamma ray of every evaluation row, gaps already filled.
    pub gr: Vec<u32>,
    /// Type-well gamma ray resampled onto a uniform grid.
    pub grid: Vec<u32>,
    /// Depth of `grid[0]`.
    pub vmin: u32,
    /// Spacing of `grid`.
    pub step: u32,
    /// Mismatch sigma estimated on the known prefix.
    pub gs: u32,
    /// Initial particle position.
    pub ls: u32,
    /// Initial rate along the hole.
    pub ir: u32,
    /// Initial position spread.
    pub init_spr: u32,
    /// Seed base of this well.
    pub seed_base: u32,
}

/// A finite number above zero.
pub open spec fn positive32(x: u32) -> bool {
    ieee::finite32(x) && ieee::less32(ieee::ZERO32, x)
}

/// Whether `x` is a finite number above zero.
pub(crate) fn is_positive32(x: u32) -> (r: bool)
    ensures
        r == positive32(x),
{
    ieee::is_finite32(x) && ieee::lt32(ieee::ZERO32, x)
}

impl WellInput {
    /// What is wrong with the well, the `idx`-th of its batch.
    pub open spec fn issue(self, idx: int) -> Option<ConfigIssue> {
        if self.z@.len() != self.md@.len() || self.gr@.len() != self.md@.len() {
            Some(
                ConfigIssue::WellLengths {
                    well: idx as usize,
                    md: self.md@.len() as usize,
                    z: self.z@.len() as usize,
                    gr: self.gr@.len() as usize,
                },
            )
        } else if self.grid@.len() < 2 {
            Some(ConfigIssue::GridLength { well: idx as usize, len: self.grid@.len() as usize })
        } else if !positive32(self.step) {
            Some(ConfigIssue::GridStep { well: idx as usize, step: self.step })
        } else if !positive32(self.gs) {
            Some(ConfigIssue::Sigma { well: idx as usize, gs: self.gs })
        } else {
            None
        }
    }

    /// Checks one well of a batch.
    pub fn validate(&self, idx: usize) -> (r: Result<(), PfError>)
        ensures
            match self.issue(idx as int) {
                None => r is Ok,
                Some(e) => r == Err::<(), PfError>(PfError::Config(e)),
            },
    {
        let n = self.md.len();
        if self.z.len() != n || self.gr.len() != n {
            return Err(
                PfError::Config(
                    ConfigIssue::WellLengths {
                        well: idx,
                        md: n,
                        z: self.z.len(),
                        gr: self.gr.len(),
                    },
                ),
            );
        }
        if self.grid.len() < 2 {
            return Err(
                PfError::Config(ConfigIssue::GridLength { well: idx, len: self.grid.len() }),
            );
        }
        if !is_positive32(self.step) {
            return Err(PfError::Config(ConfigIssue::GridStep { well: idx, step: self.step }));
        }
        if !is_positive32(self.gs) {
            return Err(PfError::Config(ConfigIssue::Sigma { well: idx, gs: self.gs }));
        }
        Ok(())
    }
}

/// The first well that fails its check, and how.
pub open spec fn first_issue(wells: Seq<WellInput>, idx: int) -> Option<ConfigIssue>
    decreases wells.len() - idx,
{
    if idx < 0 || idx >= wells.len() {
        None
    } else {
        match wells[idx].issue(idx) {
            Some(e) => Some(e),
            None => first_issue(wells, idx + 1),
        }
    }
}

/// Checks every well of a batch.
pub fn check_wells(wells: &[WellInput]) -> (r: Result<(), PfError>)
    ensures
        match first_issue(wells@, 0) {
            None => r is Ok,
            Some(e) => r == Err::<(), PfError>(PfError::Config(e)),
        },
{
    let n = wells.len();
    let mut i: usize = 0;
    while i < n
        invariant
            i <= n,
            n == wells@.len(),
            first_issue(wells@, 0) == first_issue(wells@, i as int),
        decreases n - i,
    {
        match wells[i].validate(i) {
            Err(e) => {
                return Err(e);
            },
            Ok(()) => {},
        }
        i = i + 1;
    }
    Ok(())
}

/// In a batch that passes its check every well does.
pub proof fn lemma_checked_well(wells: Seq<WellInput>, i: int, k: int)
    requires
        first_issue(wells, i) is None,
        0 <= i <= k < wells.len(),
    ensures
        wells[k].issue(k) is None,
    decreases k - i,
{
    if i < k {
        lemma_checked_well(wells, i + 1, k);
    }
}

/// Indices below `n` of the wells with a non-empty evaluation zone, ascending.
pub open spec fn kept_wells(wells: Seq<WellInput>, n: int) -> Seq<usize>
    decreases n,
{
    if n <= 0 {
        Seq::empty()
    } else if wells[n - 1].md@.len() == 0 {
        kept_wells(wells, n - 1)
    } else {
        kept_wells(wells, n - 1).push((n - 1) as usize)
    }
}

/// Total length of a log over all wells, by a function that measures one well.
pub open spec fn total_over(wells: Seq<WellInput>, len: spec_fn(WellInput) -> int, n: int) -> int
    decreases n,
{
    if n <= 0 {
        0
    } else {
        total_over(wells, len, n - 1) + len(wells[n - 1])
    }
}

/// Evaluation rows of all wells.
pub open spec fn rows_of(wells: Seq<WellInput>) -> int {
    total_over(wells, |w: WellInput| w.md@.len() as int, wells.len() as int)
}

/// Grid samples of all wells.
pub open spec fn grid_samples_of(wells: Seq<WellInput>) -> int {
    total_over(wells, |w: WellInput| w.grid@.len() as int, wells.len() as int)
}

/// The batch can be addressed: offsets fit the `u32` slots of the layout and the
/// per-seed trajectories a `usize`.
pub open spec fn addressable(wells: Seq<WellInput>, n_seeds: u32) -> bool {
    &&& rows_of(wells) <= u32::MAX
    &&& grid_samples_of(wells) <= u32::MAX
    &&& rows_of(wells) * n_seeds <= usize::MAX
}

/// What the layout holds of one well.
pub struct FlatWell {
    pub md: Seq<u32>,
    pub z: Seq<u32>,
    pub gr: Seq<u32>,
    pub grid: Seq<u32>,
    pub meta_f: Seq<u32>,
    pub seed_base: u32,
}

/// Flattened, device-ready view of a set of wells.
#[derive(Debug, Clone)]
pub struct FlatBatch {
    pub md: Vec<u32>,
    pub z: Vec<u32>,
    pub gr: Vec<u32>,
    pub grid: Vec<u32>,
    /// Six entries per well: row offset, row count, grid offset, grid length,
    /// trajectory offset and seed base.
    pub meta_u: Vec<u32>,
    /// Eight entries per well: `vmin`, `step`, `gs`, `ls`, `ir`, `init_spr`,
    /// `1 / step` and `1 / gs`.
    pub meta_f: Vec<u32>,
    /// Well index of every flattened evaluation row.
    pub row_well: Vec<u32>,
    /// Evaluation row count per well.
    pub ev_lens: Vec<u32>,
    /// Start of each well's rows in `md`, `z` and `gr`.
    pub ev_offsets: Vec<u32>,
    /// Start of each well's `[n_seeds, ev_len]` block in the trajectory buffer.
    pub pred_offsets: Vec<u32>,
    /// Total per-seed trajectory elements.
    pub pred_len: usize,
}

impl Default for FlatBatch {
    /// A batch without wells.
    fn default() -> (b: Self)
        ensures
            b.wf(),
            forall|n_seeds: u32| b.preds_wf(n_seeds),
            b.md@.len() == 0,
            b.z@.len() == 0,
            b.gr@.len() == 0,
            b.grid@.len() == 0,
            b.meta_u@.len() == 0,
            b.meta_f@.len() == 0,
            b.row_well@.len() == 0,
            b.ev_lens@.len() == 0,
            b.ev_offsets@.len() == 0,
            b.pred_offsets@.len() == 0,
            b.pred_len == 0,
    {
        reveal(FlatBatch::wf);
        FlatBatch {
            md: Vec::new(),
            z: Vec::new(),
            gr: Vec::new(),
            grid: Vec::new(),
            meta_u: Vec::new(),
            meta_f: Vec::new(),
            row_well: Vec::new(),
            ev_lens: Vec::new(),
            ev_offsets: Vec::new(),
            pred_offsets: Vec::new(),
            pred_len: 0,
        }
    }
}

impl FlatBatch {
    /// Grid length of every well.
    pub open spec fn grid_lens(self) -> Seq<u32> {
        Seq::new(self.ev_lens@.len(), |k: int| self.meta_u@[6 * k + 3])
    }

    /// The offset tables agree with the lengths, and every array has the length the
    /// tables call for: what the kernels rely on to index the buffers.
    #[verifier::opaque]
    pub open spec fn wf(self) -> bool {
        let n = self.ev_lens@.len() as int;
        &&& self.ev_offsets@.len() == n
        &&& self.pred_offsets@.len() == n
        &&& self.meta_u@.len() == 6 * n
        &&& self.meta_f@.len() == 8 * n
        &&& self.md@.len() == layout::before(self.ev_lens@, n)
        &&& self.z@.len() == self.md@.len()
        &&& self.gr@.len() == self.md@.len()
        &&& self.row_well@.len() == self.md@.len()
        &&& self.md@.len() <= u32::MAX
        &&& self.grid@.len() == layout::before(self.grid_lens(), n)
        &&& self.grid@.len() <= u32::MAX
        &&& forall|k: int|
            0 <= k < n ==> {
                &&& #[trigger] self.ev_lens@[k] > 0
                &&& self.ev_offsets@[k] == layout::before(self.ev_lens@, k)
                &&& self.meta_u@[6 * k] == self.ev_offsets@[k]
                &&& self.meta_u@[6 * k + 1] == self.ev_lens@[k]
                &&& self.meta_u@[6 * k + 2] == layout::before(self.grid_lens(), k)
                &&& self.meta_u@[6 * k + 4] == self.pred_offsets@[k]
            }
        &&& forall|k: int, r: int|
            #![trigger self.ev_lens@[k], self.row_well@[r]]
            0 <= k < n && layout::before(self.ev_lens@, k) <= r < layout::before(self.ev_lens@, k + 1)
                ==> self.row_well@[r] == k
    }

    /// The trajectory buffer holds `n_seeds` rows-long blocks per well, one well
    /// after the other. An offset is stored modulo `2^32`.
    pub open spec fn preds_wf(self, n_seeds: u32) -> bool {
        &&& self.pred_len == self.md@.len() * n_seeds
        &&& forall|k: int|
            0 <= k < self.ev_lens@.len() ==> #[trigger] self.pred_offsets@[k] == (layout::before(
                self.ev_lens@,
                k,
            ) * n_seeds) as u32
    }

    /// Rows of `log` that belong to well `k`.
    pub open spec fn rows(self, log: Seq<u32>, k: int) -> Seq<u32> {
        log.subrange(layout::before(self.ev_lens@, k), layout::before(self.ev_lens@, k + 1))
    }

    /// Well `k` as the layout holds it.
    pub open spec fn well(self, k: int) -> FlatWell {
        FlatWell {
            md: self.rows(self.md@, k),
            z: self.rows(self.z@, k),
            gr: self.rows(self.gr@, k),
            grid: self.grid@.subrange(
                layout::before(self.grid_lens(), k),
                layout::before(self.grid_lens(), k + 1),
            ),
            meta_f: self.meta_f@.subrange(8 * k, 8 * k + 8),
            seed_base: self.meta_u@[6 * k + 5],
        }
    }

    /// Number of wells in the batch.
    pub fn n_wells(&self) -> (r: usize)
        ensures
            r == self.ev_lens@.len(),
    {
        self.ev_lens.len()
    }

    /// Total evaluation rows across all wells.
    pub fn total_rows(&self) -> (r: usize)
        ensures
            r == self.row_well@.len(),
    {
        self.row_well.len()
    }

    /// Lays out one more well behind the others.
    fn append(
        &mut self,
        md: &[u32],
        z: &[u32],
        gr: &[u32],
        grid: &[u32],
        meta_f: &[u32],
        seed_base: u32,
        n_seeds: u32,
    )
        requires
            old(self).wf(),
            old(self).preds_wf(n_seeds),
            md@.len() > 0,
            z@.len() == md@.len(),
            gr@.len() == md@.len(),
            meta_f@.len() == 8,
            old(self).md@.len() + md@.len() <= u32::MAX,
            old(self).grid@.len() + grid@.len() <= u32::MAX,
            (old(self).md@.len() + md@.len()) * n_seeds <= usize::MAX,
        ensures
            final(self).wf(),
            final(self).preds_wf(n_seeds),
            final(self).ev_lens@ == old(self).ev_lens@.push(md@.len() as u32),
            final(self).md@.len() == old(self).md@.len() + md@.len(),
            final(self).grid@.len() == old(self).grid@.len() + grid@.len(),
            forall|k: int|
                0 <= k < old(self).ev_lens@.len() ==> #[trigger] final(self).well(k) == old(
                    self,
                ).well(k),
            final(self).well(old(self).ev_lens@.len() as int) == (FlatWell {
                md: md@,
                z: z@,
                gr: gr@,
                grid: grid@,
                meta_f: meta_f@,
                seed_base,
            }),
    {
        reveal(FlatBatch::wf);
        let ghost was = *self;
        let ghost n = self.ev_lens@.len() as int;
        let ev_off: u32 = self.md.len() as u32;
        let ev_len: u32 = md.len() as u32;
        let g_off: u32 = self.grid.len() as u32;
        let g_len: u32 = grid.len() as u32;
        let p_off: u32 = self.pred_len as u32;
        let well_idx: u32 = self.ev_lens.len() as u32;
        proof {
            layout::lemma_part_count(self.ev_lens@, n);
            assert(self.md@.len() * n_seeds + md@.len() * n_seeds == (self.md@.len() + md@.len())
                * n_seeds) by (nonlinear_arith);
            assert(ev_len * n_seeds <= usize::MAX) by (nonlinear_arith)
                requires
                    self.md@.len() * n_seeds + md@.len() * n_seeds <= usize::MAX,
                    ev_len == md@.len(),
                    self.md@.len() >= 0,
                    n_seeds >= 0,
            ;
        }
        self.md.extend_from_slice(md);
        self.z.extend_from_slice(z);
        self.gr.extend_from_slice(gr);
        self.grid.extend_from_slice(grid);
        let mut i: u32 = 0;
        while i < ev_len
            invariant
                i <= ev_len,
                self.row_well@.len() == was.row_well@.len() + i,
                forall|r: int| 0 <= r < was.row_well@.len() ==> self.row_well@[r] == was.row_well@[r],
                forall|r: int|
                    was.row_well@.len() <= r < was.row_well@.len() + i ==> self.row_well@[r] == well_idx,
                *self == (FlatBatch { row_well: self.row_well, ..*self }),
                self.md@ == was.md@ + md@,
                self.z@ == was.z@ + z@,
                self.gr@ == was.gr@ + gr@,
                self.grid@ == was.grid@ + grid@,
                self.meta_u == was.meta_u,
                self.meta_f == was.meta_f,
                self.ev_lens == was.ev_lens,
                self.ev_offsets == was.ev_offsets,
                self.pred_offsets == was.pred_offsets,
                self.pred_len == was.pred_len,
            decreases ev_len - i,
        {
            self.row_well.push(well_idx);
            i = i + 1;
        }
        self.meta_u.push(ev_off);
        self.meta_u.push(ev_len);
        self.meta_u.push(g_off);
        self.meta_u.push(g_len);
        self.meta_u.push(p_off);
        self.meta_u.push(seed_base);
        self.meta_f.extend_from_slice(meta_f);
        self.ev_offsets.push(ev_off);
        self.ev_lens.push(ev_len);
        self.pred_offsets.push(p_off);
        self.pred_len = self.pred_len + ev_len as usize * n_seeds as usize;
        proof {
            assert(self.meta_u@ =~= was.meta_u@ + seq![
                ev_off,
                ev_len,
                g_off,
                g_len,
                p_off,
                seed_base,
            ]);
            assert(self.meta_f@ =~= was.meta_f@ + meta_f@);
            self.lemma_appended(was, md@, z@, gr@, grid@, meta_f@, seed_base, n_seeds);
        }
    }

    /// Whether well `k` of the layout is `well`: its logs row for row, and its
    /// parameters.
    pub open spec fn holds(self, k: int, well: WellInput) -> bool {
        let f = self.well(k);
        &&& f.md == well.md@
        &&& f.z == well.z@
        &&& f.gr == well.gr@
        &&& f.grid == well.grid@
        &&& f.meta_f.take(6) == seq![
            well.vmin,
            well.step,
            well.gs,
            well.ls,
            well.ir,
            well.init_spr,
        ]
        &&& f.seed_base == well.seed_base
    }

    /// The last two float slots of well `k` are the reciprocals of its grid step and
    /// its sigma.
    pub open spec fn holds_reciprocals<A: Arith>(self, m: A, k: int) -> bool {
        let f = self.well(k).meta_f;
        &&& f[6] == arith::quotient32(m, ieee::ONE32, f[1])
        &&& f[7] == arith::quotient32(m, ieee::ONE32, f[2])
    }

    /// Flattens `wells`, dropping any with an empty evaluation zone.
    ///
    /// Returns the flattened batch plus the indices of the wells that were kept, so
    /// callers can map results back to their own ordering. The reciprocals that the
    /// kernel multiplies by are computed here, because a device may round a division
    /// differently.
    pub fn build<A: Arith>(m: &A, wells: &[WellInput], n_seeds: u32) -> (r: Result<
        (FlatBatch, Vec<usize>),
        PfError,
    >)
        requires
            addressable(wells@, n_seeds),
        ensures
            match first_issue(wells@, 0) {
                Some(e) => r == Err::<(FlatBatch, Vec<usize>), PfError>(PfError::Config(e)),
                None => r is Ok,
            },
            r matches Ok((b, kept)) ==> {
                &&& b.wf()
                &&& b.preds_wf(n_seeds)
                &&& b.md@.len() == rows_of(wells@)
                &&& kept@ == kept_wells(wells@, wells@.len() as int)
                &&& b.ev_lens@.len() == kept@.len()
                &&& forall|k: int|
                    0 <= k < kept@.len() ==> #[trigger] b.holds(k, wells@[kept@[k] as int])
                &&& arith::deterministic(*m) ==> forall|k: int|
                    0 <= k < kept@.len() ==> #[trigger] b.holds_reciprocals(*m, k)
            },
    {
        let mut b = FlatBatch::default();
        let mut kept: Vec<usize> = Vec::new();
        let n = wells.len();
        let mut idx: usize = 0;
        let ghost rows = |w: WellInput| w.md@.len() as int;
        let ghost samples = |w: WellInput| w.grid@.len() as int;
        while idx < n
            invariant
                idx <= n,
                n == wells@.len(),
                addressable(wells@, n_seeds),
                rows == (|w: WellInput| w.md@.len() as int),
                samples == (|w: WellInput| w.grid@.len() as int),
                b.wf(),
                b.preds_wf(n_seeds),
                b.md@.len() == total_over(wells@, rows, idx as int),
                b.grid@.len() <= total_over(wells@, samples, idx as int),
                first_issue(wells@, 0) == first_issue(wells@, idx as int),
                kept@ == kept_wells(wells@, idx as int),
                b.ev_lens@.len() == kept@.len(),
                forall|k: int| 0 <= k < kept@.len() ==> (#[trigger] kept@[k]) < idx,
                forall|k: int|
                    0 <= k < kept@.len() ==> #[trigger] b.holds(k, wells@[kept@[k] as int]),
                arith::deterministic(*m) ==> forall|k: int|
                    0 <= k < kept@.len() ==> #[trigger] b.holds_reciprocals(*m, k),
            decreases n - idx,
        {
            let wl: &WellInput = &wells[idx];
            match wl.validate(idx) {
                Err(e) => {
                    return Err(e);
                },
                Ok(()) => {},
            }
            if wl.md.len() > 0 {
                let inv_step = arith::div32(m, ieee::ONE32, wl.step);
                let inv_gs = arith::div32(m, ieee::ONE32, wl.gs);
                let meta_f: [u32; 8] = [
                    wl.vmin,
                    wl.step,
                    wl.gs,
                    wl.ls,
                    wl.ir,
                    wl.init_spr,
                    inv_step,
                    inv_gs,
                ];
                let ghost was = b;
                proof {
                    lemma_total_over_bound(wells@, rows, idx + 1);
                    lemma_total_over_bound(wells@, samples, idx + 1);
                    let total = rows_of(wells@);
                    let part = b.md@.len() + wl.md@.len();
                    assert(part * n_seeds <= total * n_seeds) by (nonlinear_arith)
                        requires
                            part <= total,
                            n_seeds >= 0,
                    ;
                }
                b.append(&wl.md, &wl.z, &wl.gr, &wl.grid, &meta_f, wl.seed_base, n_seeds);
                kept.push(idx);
                proof {
                    let k0 = was.ev_lens@.len() as int;
                    assert(b.well(k0).meta_f.take(6) =~= seq![
                        wl.vmin,
                        wl.step,
                        wl.gs,
                        wl.ls,
                        wl.ir,
                        wl.init_spr,
                    ]);
                    assert(b.holds(k0, wells@[idx as int]));
                    assert forall|k: int| 0 <= k < kept@.len() implies #[trigger] b.holds(
                        k,
                        wells@[kept@[k] as int],
                    ) by {
                        if k < k0 {
                            assert(was.holds(k, wells@[kept@[k] as int]));
                            assert(b.well(k) == was.well(k));
                        }
                    }
                    if arith::deterministic(*m) {
                        assert forall|k: int|
                            0 <= k < kept@.len() implies #[trigger] b.holds_reciprocals(*m, k) by {
                            if k < k0 {
                                assert(was.holds_reciprocals(*m, k));
                                assert(b.well(k) == was.well(k));
                            }
                        }
                    }
                }
            }
            idx = idx + 1;
        }
        Ok((b, kept))
    }

    /// Splits the batch into consecutive well ranges whose trajectory buffers each
    /// stay under `budget_bytes`. A single well always gets its own chunk even if it
    /// exceeds the budget on its own.
    pub fn chunks(&self, n_seeds: u32, budget_bytes: usize, elem_size: usize) -> (r: Vec<
        (usize, usize),
    >)
        requires
            layout::before(self.ev_lens@, self.ev_lens@.len() as int) <= usize::MAX,
            0 < n_seeds * elem_size <= usize::MAX,
        ensures
            layout::is_greedy_split(
                self.ev_lens@,
                r@,
                layout::rows_in_budget(n_seeds * elem_size, budget_bytes as int),
            ),
    {
        let per_row: usize = n_seeds as usize * elem_size;
        let max_rows = layout::budget_rows(per_row, budget_bytes);
        layout::split_wells(&self.ev_lens, max_rows)
    }

    /// Rebases the wells `[w0, w1)` into a standalone batch.
    ///
    /// Returns the sub-batch and the index of its first row in the parent.
    pub fn sub_batch(&self, w0: usize, w1: usize, n_seeds: u32) -> (r: (FlatBatch, usize))
        requires
            self.wf(),
            w0 < w1 <= self.ev_lens@.len(),
            layout::rows_between(self.ev_lens@, w0 as int, w1 as int) * n_seeds <= usize::MAX,
        ensures
            r.0.wf(),
            r.0.preds_wf(n_seeds),
            r.0.ev_lens@ == self.ev_lens@.subrange(w0 as int, w1 as int),
            forall|k: int| 0 <= k < w1 - w0 ==> #[trigger] r.0.well(k) == self.well(w0 + k),
            r.1 == layout::before(self.ev_lens@, w0 as int),
            r.0.md@.len() == layout::rows_between(self.ev_lens@, w0 as int, w1 as int),
    {
        proof {
            self.lemma_table_lengths();
            self.lemma_well_in_bounds(w0 as int);
        }
        let row0: usize = self.ev_offsets[w0] as usize;
        let len_u: usize = self.meta_u.len();
        let len_f: usize = self.meta_f.len();
        let mut out = FlatBatch::default();
        let mut w: usize = w0;
        assert(out.ev_lens@ =~= self.ev_lens@.subrange(w0 as int, w0 as int));
        while w < w1
            invariant
                self.wf(),
                w0 <= w <= w1 <= self.ev_lens@.len(),
                self.ev_offsets@.len() == self.ev_lens@.len(),
                self.meta_u@.len() == 6 * self.ev_lens@.len(),
                self.meta_f@.len() == 8 * self.ev_lens@.len(),
                len_u == self.meta_u@.len(),
                len_f == self.meta_f@.len(),
                self.z@.len() == self.md@.len(),
                self.gr@.len() == self.md@.len(),
                layout::rows_between(self.ev_lens@, w0 as int, w1 as int) * n_seeds <= usize::MAX,
                out.wf(),
                out.preds_wf(n_seeds),
                out.ev_lens@ == self.ev_lens@.subrange(w0 as int, w as int),
                out.md@.len() == layout::rows_between(self.ev_lens@, w0 as int, w as int),
                out.grid@.len() == layout::before(self.grid_lens(), w as int) - layout::before(
                    self.grid_lens(),
                    w0 as int,
                ),
                forall|k: int| 0 <= k < w - w0 ==> #[trigger] out.well(k) == self.well(w0 + k),
            decreases w1 - w,
        {
            let ghost wi = w as int;
            proof {
                self.lemma_table_lengths();
                self.lemma_well_in_bounds(wi);
                layout::lemma_before_monotone(self.ev_lens@, 0, w0 as int);
                layout::lemma_before_monotone(self.ev_lens@, w0 as int, wi);
                layout::lemma_before_monotone(self.ev_lens@, wi + 1, w1 as int);
                layout::lemma_before_monotone(self.grid_lens(), 0, w0 as int);
                let part = layout::rows_between(self.ev_lens@, w0 as int, wi + 1);
                let whole = layout::rows_between(self.ev_lens@, w0 as int, w1 as int);
                assert(part * n_seeds <= whole * n_seeds) by (nonlinear_arith)
                    requires
                        part <= whole,
                        n_seeds >= 0,
                ;
            }
            let a: usize = self.ev_offsets[w] as usize;
            let b: usize = a + self.ev_lens[w] as usize;
            let g0: usize = self.meta_u[w * 6 + 2] as usize;
            let g1: usize = g0 + self.meta_u[w * 6 + 3] as usize;
            let ghost was = out;
            out.append(
                &self.md[a..b],
                &self.z[a..b],
                &self.gr[a..b],
                &self.grid[g0..g1],
                &self.meta_f[w * 8..w * 8 + 8],
                self.meta_u[w * 6 + 5],
                n_seeds,
            );
            proof {
                assert(out.well(wi - w0) == self.well(wi));
                assert forall|k: int| 0 <= k < wi + 1 - w0 implies #[trigger] out.well(k)
                    == self.well(w0 + k) by {
                    if k < wi - w0 {
                        assert(out.well(k) == was.well(k));
                    }
                }
                assert(out.ev_lens@ =~= self.ev_lens@.subrange(w0 as int, wi + 1));
            }
            w = w + 1;
        }
        (out, row0)
    }

    /// Array lengths of a consistent layout.
    pub proof fn lemma_table_lengths(self)
        requires
            self.wf(),
        ensures
            self.ev_offsets@.len() == self.ev_lens@.len(),
            self.pred_offsets@.len() == self.ev_lens@.len(),
            self.meta_u@.len() == 6 * self.ev_lens@.len(),
            self.meta_f@.len() == 8 * self.ev_lens@.len(),
            self.md@.len() == layout::before(self.ev_lens@, self.ev_lens@.len() as int),
            self.z@.len() == self.md@.len(),
            self.gr@.len() == self.md@.len(),
            self.row_well@.len() == self.md@.len(),
            self.md@.len() <= u32::MAX,
            self.grid@.len() <= u32::MAX,
            forall|k: int| 0 <= k < self.ev_lens@.len() ==> #[trigger] self.ev_lens@[k] > 0,
            self.ev_lens@.len() <= u32::MAX,
    {
        reveal(FlatBatch::wf);
        assert(forall|k: int| 0 <= k < self.ev_lens@.len() ==> #[trigger] self.ev_lens@[k] > 0);
        layout::lemma_part_count(self.ev_lens@, self.ev_lens@.len() as int);
    }

    /// Where well `k` stands in a consistent layout: inside the buffers.
    pub proof fn lemma_well_in_bounds(self, k: int)
        requires
            self.wf(),
            0 <= k < self.ev_lens@.len(),
        ensures
            self.ev_lens@[k] > 0,
            self.ev_offsets@[k] == layout::before(self.ev_lens@, k),
            self.ev_offsets@[k] + self.ev_lens@[k] == layout::before(self.ev_lens@, k + 1),
            self.ev_offsets@[k] + self.ev_lens@[k] <= self.md@.len(),
            self.meta_u@[6 * k] == self.ev_offsets@[k],
            self.meta_u@[6 * k + 1] == self.ev_lens@[k],
            self.meta_u@[6 * k + 2] == layout::before(self.grid_lens(), k),
            self.meta_u@[6 * k + 3] == self.grid_lens()[k],
            self.meta_u@[6 * k + 2] + self.meta_u@[6 * k + 3] == layout::before(
                self.grid_lens(),
                k + 1,
            ),
            self.meta_u@[6 * k + 2] + self.meta_u@[6 * k + 3] <= self.grid@.len(),
            self.meta_u@[6 * k + 4] == self.pred_offsets@[k],
    {
        reveal(FlatBatch::wf);
        let n = self.ev_lens@.len() as int;
        assert(self.ev_lens@[k] > 0);
        layout::lemma_before_monotone(self.ev_lens@, k + 1, n);
        layout::lemma_before_monotone(self.grid_lens(), k + 1, n);
        layout::lemma_before_monotone(self.grid_lens(), 0, k);
    }

    /// Appending one well keeps the layout consistent and the other wells in place.
    proof fn lemma_appended(
        self,
        was: FlatBatch,
        md: Seq<u32>,
        z: Seq<u32>,
        gr: Seq<u32>,
        grid: Seq<u32>,
        meta_f: Seq<u32>,
        seed_base: u32,
        n_seeds: u32,
    )
        requires
            was.wf(),
            was.preds_wf(n_seeds),
            md.len() > 0,
            z.len() == md.len(),
            gr.len() == md.len(),
            meta_f.len() == 8,
            was.md@.len() + md.len() <= u32::MAX,
            was.grid@.len() + grid.len() <= u32::MAX,
            self.md@ == was.md@ + md,
            self.z@ == was.z@ + z,
            self.gr@ == was.gr@ + gr,
            self.grid@ == was.grid@ + grid,
            self.meta_u@ == was.meta_u@ + seq![
                was.md@.len() as u32,
                md.len() as u32,
                was.grid@.len() as u32,
                grid.len() as u32,
                was.pred_len as u32,
                seed_base,
            ],
            self.meta_f@ == was.meta_f@ + meta_f,
            self.row_well@.len() == was.row_well@.len() + md.len(),
            forall|r: int| 0 <= r < was.row_well@.len() ==> self.row_well@[r] == was.row_well@[r],
            forall|r: int|
                was.row_well@.len() <= r < self.row_well@.len() ==> self.row_well@[r]
                    == was.ev_lens@.len(),
            self.ev_lens@ == was.ev_lens@.push(md.len() as u32),
            self.ev_offsets@ == was.ev_offsets@.push(was.md@.len() as u32),
            self.pred_offsets@ == was.pred_offsets@.push(was.pred_len as u32),
            self.pred_len == was.pred_len + md.len() * n_seeds,
        ensures
            self.wf(),
            self.preds_wf(n_seeds),
            forall|k: int|
                0 <= k < was.ev_lens@.len() ==> #[trigger] self.well(k) == was.well(k),
            self.well(was.ev_lens@.len() as int) == (FlatWell {
                md,
                z,
                gr,
                grid,
                meta_f,
                seed_base,
            }),
    {
        reveal(FlatBatch::wf);
        let n = was.ev_lens@.len() as int;
        assert forall|k: int| 0 <= k <= n implies #[trigger] layout::before(self.ev_lens@, k)
            == layout::before(was.ev_lens@, k) by {
            layout::lemma_before_agree(self.ev_lens@, was.ev_lens@, k);
        }
        assert forall|k: int| 0 <= k < n implies #[trigger] self.grid_lens()[k]
            == was.grid_lens()[k] by {}
        assert forall|k: int| 0 <= k <= n implies #[trigger] layout::before(self.grid_lens(), k)
            == layout::before(was.grid_lens(), k) by {
            layout::lemma_before_agree(self.grid_lens(), was.grid_lens(), k);
        }
        assert(self.grid_lens()[n] == grid.len());
        assert(layout::before(self.ev_lens@, n) == was.md@.len());
        assert(layout::before(self.grid_lens(), n) == was.grid@.len());
        assert(layout::before(self.ev_lens@, n + 1) == was.md@.len() + md.len());
        assert(layout::before(self.grid_lens(), n + 1) == was.grid@.len() + grid.len());
        assert(self.md@.len() * n_seeds == was.md@.len() * n_seeds + md.len() * n_seeds)
            by (nonlinear_arith)
            requires
                self.md@.len() == was.md@.len() + md.len(),
        ;
        assert forall|k: int, r: int|
            #![trigger self.ev_lens@[k], self.row_well@[r]]
            0 <= k < n + 1 && layout::before(self.ev_lens@, k) <= r < layout::before(
                self.ev_lens@,
                k + 1,
            ) implies self.row_well@[r] == k by {
            if k < n {
                layout::lemma_before_monotone(was.ev_lens@, 0, k);
                layout::lemma_before_monotone(was.ev_lens@, k + 1, n);
                assert(was.ev_lens@[k] > 0);
                assert(was.row_well@[r] == k);
            }
        }
        assert forall|k: int| 0 <= k < n + 1 implies {
            &&& #[trigger] self.ev_lens@[k] > 0
            &&& self.ev_offsets@[k] == layout::before(self.ev_lens@, k)
            &&& self.meta_u@[6 * k] == self.ev_offsets@[k]
            &&& self.meta_u@[6 * k + 1] == self.ev_lens@[k]
            &&& self.meta_u@[6 * k + 2] == layout::before(self.grid_lens(), k)
            &&& self.meta_u@[6 * k + 4] == self.pred_offsets@[k]
        } by {
            if k < n {
                assert(was.ev_lens@[k] > 0);
            }
        }
        assert forall|k: int| 0 <= k < n implies #[trigger] self.well(k) == was.well(k) by {
            layout::lemma_before_monotone(was.ev_lens@, 0, k);
            layout::lemma_before_monotone(was.ev_lens@, k, k + 1);
            layout::lemma_before_monotone(was.ev_lens@, k + 1, n);
            layout::lemma_before_monotone(was.grid_lens(), 0, k);
            layout::lemma_before_monotone(was.grid_lens(), k, k + 1);
            layout::lemma_before_monotone(was.grid_lens(), k + 1, n);
            assert(self.well(k).md =~= was.well(k).md);
            assert(self.well(k).z =~= was.well(k).z);
            assert(self.well(k).gr =~= was.well(k).gr);
            assert(self.well(k).grid =~= was.well(k).grid);
            assert(self.well(k).meta_f =~= was.well(k).meta_f);
        }
        assert(self.well(n).md =~= md);
        assert(self.well(n).z =~= z);
        assert(self.well(n).gr =~= gr);
        assert(self.well(n).grid =~= grid);
        assert(self.well(n).meta_f =~= meta_f);
    }
}

/// A part of a total is no more than the total.
proof fn lemma_total_over_bound(wells: Seq<WellInput>, len: spec_fn(WellInput) -> int, n: int)
    requires
        0 <= n <= wells.len(),
        forall|w: WellInput| #[trigger] len(w) >= 0,
    ensures
        total_over(wells, len, n) <= total_over(wells, len, wells.len() as int),
    decreases wells.len() - n,
{
    if n < wells.len() {
        lemma_total_over_bound(wells, len, n + 1);
        assert(len(wells[n]) >= 0);
    }
}

/// Checks that a batch can be addressed.
pub fn is_addressable(wells: &[WellInput], n_seeds: u32) -> (r: bool)
    ensures
        r == addressable(wells@, n_seeds),
{
    let ghost rows_fn = |w: WellInput| w.md@.len() as int;
    let ghost samples_fn = |w: WellInput| w.grid@.len() as int;
    let mut rows: u64 = 0;
    let mut samples: u64 = 0;
    let n = wells.len();
    let mut i: usize = 0;
    while i < n
        invariant
            i <= n,
            n == wells@.len(),
            rows_fn == (|w: WellInput| w.md@.len() as int),
            samples_fn == (|w: WellInput| w.grid@.len() as int),
            rows == total_over(wells@, rows_fn, i as int),
            samples == total_over(wells@, samples_fn, i as int),
            rows <= u32::MAX,
            samples <= u32::MAX,
        decreases n - i,
    {
        let a = wells[i].md.len();
        let g = wells[i].grid.len();
        proof {
            lemma_total_over_bound(wells@, rows_fn, i + 1);
            lemma_total_over_bound(wells@, samples_fn, i + 1);
        }
        if a as u64 > 0xFFFF_FFFF - rows || g as u64 > 0xFFFF_FFFF - samples {
            return false;
        }
        rows = rows + a as u64;
        samples = samples + g as u64;
        i = i + 1;
    }
    assert(rows * n_seeds <= u64::MAX) by (nonlinear_arith)
        requires
            rows <= u32::MAX,
            n_seeds <= u32::MAX,
    ;
    rows * n_seeds as u64 <= usize::MAX as u64
}

/// Rows of all wells, if a `u32` holds them.
pub fn count_rows(wells: &[WellInput]) -> (r: Option<usize>)
    ensures
        r is Some <==> rows_of(wells@) <= u32::MAX,
        r matches Some(rows) ==> rows == rows_of(wells@),
{
    let ghost rows_fn = |w: WellInput| w.md@.len() as int;
    let mut rows: u64 = 0;
    let n = wells.len();
    let mut i: usize = 0;
    while i < n
        invariant
            i <= n,
            n == wells@.len(),
            rows_fn == (|w: WellInput| w.md@.len() as int),
            rows == total_over(wells@, rows_fn, i as int),
            rows <= u32::MAX,
        decreases n - i,
    {
        let a = wells[i].md.len();
        proof {
            lemma_total_over_bound(wells@, rows_fn, i + 1);
        }
        if a as u64 > 0xFFFF_FFFF - rows {
            return None;
        }
        rows = rows + a as u64;
        i = i + 1;
    }
    Some(rows as usize)
}

// ---------------------------------------------------------------------------
// Seed weights
// ---------------------------------------------------------------------------

/// Largest of the first `n` log-likelihoods; a NaN counts for nothing.
pub open spec fn peak(liks: Seq<u32>, n: int) -> u32
    decreases n,
{
    if n <= 0 {
        ieee::NEG_INF32
    } else {
        let p = peak(liks, n - 1);
        if ieee::less32(p, liks[n - 1]) {
            liks[n - 1]
        } else {
            p
        }
    }
}

/// Weight of seed `s` before the weights are normalised.
pub open spec fn raw_weight<A: Arith>(m: A, liks: Seq<u32>, scale: u32, s: int) -> u32 {
    let above = arith::difference32(m, liks[s], peak(liks, liks.len() as int));
    arith::exponential32(m, arith::quotient32(m, above, scale))
}

/// Sum of the first `n` raw weights, in binary64.
pub open spec fn raw_sum<A: Arith>(m: A, liks: Seq<u32>, scale: u32, n: int) -> u64
    decreases n,
{
    if n <= 0 {
        ieee::ZERO64
    } else {
        arith::sum64(
            m,
            raw_sum(m, liks, scale, n - 1),
            arith::widened(m, raw_weight(m, liks, scale, n - 1)),
        )
    }
}

/// One over the number of seeds.
pub open spec fn equal_share<A: Arith>(m: A, n: int) -> u32 {
    arith::quotient32(m, ieee::ONE32, arith::of_int32(m, n as u64))
}

/// A raw weight over the sum of the first `k`; an equal share where those do not add
/// up to anything.
pub open spec fn shared_weight<A: Arith>(
    m: A,
    liks: Seq<u32>,
    scale: u32,
    k: int,
    raw: u32,
) -> u32 {
    let sum = raw_sum(m, liks, scale, k);
    if ieee::less64(ieee::ZERO64, sum) {
        arith::product32(m, raw, arith::narrowed(m, arith::quotient64(m, ieee::ONE64, sum)))
    } else {
        equal_share(m, liks.len() as int)
    }
}

/// Softmax weight of seed `s`; an equal share where the weights do not add up to
/// anything.
pub open spec fn seed_weight<A: Arith>(m: A, liks: Seq<u32>, scale: u32, s: int) -> u32 {
    shared_weight(m, liks, scale, liks.len() as int, raw_weight(m, liks, scale, s))
}

/// Softmax weights over seeds for one output channel of one well: the exponentials
/// of the log-likelihoods below the largest one, divided by `scale`, and then by
/// their sum.
///
/// Seeds and places go pairwise. Where there are more places than seeds, the rest are
/// scaled as they stand; where there are fewer, the sum is over the seeds that have
/// one.
pub fn seed_weights<A: Arith>(m: &A, liks: &[u32], scale: u32, out: &mut [u32])
    ensures
        final(out)@.len() == old(out)@.len(),
        arith::deterministic(*m) ==> forall|s: int|
            0 <= s < old(out)@.len() ==> #[trigger] final(out)@[s] == shared_weight(
                *m,
                liks@,
                scale,
                if liks@.len() < old(out)@.len() {
                    liks@.len() as int
                } else {
                    old(out)@.len() as int
                },
                if s < liks@.len() {
                    raw_weight(*m, liks@, scale, s)
                } else {
                    old(out)@[s]
                },
            ),
{
    let n = liks.len();
    let places = out.len();
    let k: usize = if n < places {
        n
    } else {
        places
    };
    let ghost was = out@;
    let mut max: u32 = ieee::NEG_INF32;
    let mut s: usize = 0;
    while s < n
        invariant
            s <= n,
            n == liks@.len(),
            max == peak(liks@, s as int),
        decreases n - s,
    {
        if ieee::lt32(max, liks[s]) {
            max = liks[s];
        }
        s = s + 1;
    }
    let mut sum: u64 = ieee::ZERO64;
    let mut s: usize = 0;
    while s < k
        invariant
            s <= k,
            k <= n,
            k <= places,
            n == liks@.len(),
            out@.len() == places,
            was.len() == places,
            max == peak(liks@, n as int),
            arith::deterministic(*m) ==> sum == raw_sum(*m, liks@, scale, s as int),
            arith::deterministic(*m) ==> forall|t: int|
                0 <= t < s ==> #[trigger] out@[t] == raw_weight(*m, liks@, scale, t),
            forall|t: int| s <= t < places ==> #[trigger] out@[t] == was[t],
        decreases k - s,
    {
        let above = arith::sub32(m, liks[s], max);
        let x = arith::div32(m, above, scale);
        let v = arith::exp32(m, x);
        out[s] = v;
        let wide = arith::widen(m, v);
        sum = arith::add64(m, sum, wide);
        s = s + 1;
    }
    if ieee::lt64(ieee::ZERO64, sum) {
        let wide = arith::div64(m, ieee::ONE64, sum);
        let inv = arith::narrow(m, wide);
        let ghost raw = out@;
        let mut s: usize = 0;
        while s < places
            invariant
                s <= places,
                out@.len() == places,
                raw.len() == places,
                forall|t: int| s <= t < places ==> #[trigger] out@[t] == raw[t],
                arith::deterministic(*m) ==> forall|t: int|
                    0 <= t < s ==> #[trigger] out@[t] == arith::product32(*m, raw[t], inv),
            decreases places - s,
        {
            let v = arith::mul32(m, out[s], inv);
            out[s] = v;
            s = s + 1;
        }
    } else {
        let count = arith::from_int32(m, n as u64);
        let share = arith::div32(m, ieee::ONE32, count);
        let mut s: usize = 0;
        while s < places
            invariant
                s <= places,
                out@.len() == places,
                forall|t: int| 0 <= t < s ==> #[trigger] out@[t] == share,
            decreases places - s,
        {
            out[s] = share;
            s = s + 1;
        }
    }
}

/// The largest log-likelihood is one of them, no other number exceeds it, and there
/// is one as soon as any of them is a number above negative infinity.
pub proof fn lemma_peak_is_largest(liks: Seq<u32>, n: int)
    requires
        0 <= n <= liks.len(),
    ensures
        forall|s: int| 0 <= s < n ==> !ieee::less32(peak(liks, n), #[trigger] liks[s]),
        peak(liks, n) == ieee::NEG_INF32 || exists|s: int|
            0 <= s < n && #[trigger] liks[s] == peak(liks, n),
        !ieee::nan32(peak(liks, n)),
    decreases n,
{
    if n > 0 {
        lemma_peak_is_largest(liks, n - 1);
        let p = peak(liks, n);
        if p == liks[n - 1] {
        } else if p != ieee::NEG_INF32 {
            let s = choose|s: int| 0 <= s < n - 1 && #[trigger] liks[s] == peak(liks, n - 1);
            assert(liks[s] == p);
        }
    }
}

// ---------------------------------------------------------------------------
// Laws of the layout
// ---------------------------------------------------------------------------

/// The kept wells are the ones with rows, in their own order.
pub proof fn lemma_kept_wells(wells: Seq<WellInput>, n: int)
    requires
        0 <= n <= wells.len(),
        wells.len() <= usize::MAX,
    ensures
        ({
            let kept = kept_wells(wells, n);
            &&& forall|i: int| 0 <= i < kept.len() ==> (#[trigger] kept[i]) < n
            &&& forall|i: int, j: int| 0 <= i < j < kept.len() ==> kept[i] < kept[j]
            &&& forall|w: int|
                0 <= w < n ==> (kept.contains(w as usize) <==> (#[trigger] wells[w]).md@.len() > 0)
        }),
    decreases n,
{
    if n > 0 {
        lemma_kept_wells(wells, n - 1);
        let prev = kept_wells(wells, n - 1);
        let kept = kept_wells(wells, n);
        assert forall|w: int| 0 <= w < n implies (kept.contains(w as usize) <==> (
        #[trigger] wells[w]).md@.len() > 0) by {
            if wells[n - 1].md@.len() > 0 {
                assert(kept[kept.len() - 1] == (n - 1) as usize);
                if w < n - 1 {
                    if prev.contains(w as usize) {
                        let i = choose|i: int| 0 <= i < prev.len() && prev[i] == w as usize;
                        assert(kept[i] == w as usize);
                    }
                    if kept.contains(w as usize) {
                        let i = choose|i: int| 0 <= i < kept.len() && kept[i] == w as usize;
                        assert(prev[i] == w as usize);
                    }
                }
            } else if w == n - 1 && kept.contains(w as usize) {
                let i = choose|i: int| 0 <= i < kept.len() && kept[i] == w as usize;
                assert(kept[i] < n - 1);
            }
        }
    }
}

/// A layout is determined by the wells it holds: two consistent layouts of the
/// same wells are the same, field by field. So the rebased sub-batch of a range of
/// wells is the batch that those wells give on their own.
pub proof fn lemma_layout_determined_by_wells(a: FlatBatch, b: FlatBatch, n_seeds: u32)
    requires
        a.wf(),
        b.wf(),
        a.preds_wf(n_seeds),
        b.preds_wf(n_seeds),
        a.ev_lens@.len() == b.ev_lens@.len(),
        forall|k: int| 0 <= k < a.ev_lens@.len() ==> #[trigger] a.well(k) == b.well(k),
    ensures
        a.md@ == b.md@,
        a.z@ == b.z@,
        a.gr@ == b.gr@,
        a.grid@ == b.grid@,
        a.meta_u@ == b.meta_u@,
        a.meta_f@ == b.meta_f@,
        a.row_well@ == b.row_well@,
        a.ev_lens@ == b.ev_lens@,
        a.ev_offsets@ == b.ev_offsets@,
        a.pred_offsets@ == b.pred_offsets@,
        a.pred_len == b.pred_len,
{
    let n = a.ev_lens@.len() as int;
    a.lemma_table_lengths();
    b.lemma_table_lengths();
    lemma_same_lengths(a, b, n);
    assert(a.ev_lens@ =~= b.ev_lens@);
    assert(a.grid_lens() =~= b.grid_lens());
    assert(a.grid@.len() == b.grid@.len()) by {
        reveal(FlatBatch::wf);
    }
    assert forall|k: int| 0 <= k < n implies {
        &&& #[trigger] a.ev_offsets@[k] == b.ev_offsets@[k]
        &&& a.pred_offsets@[k] == b.pred_offsets@[k]
    } by {
        a.lemma_well_in_bounds(k);
        b.lemma_well_in_bounds(k);
    }
    assert(a.ev_offsets@ =~= b.ev_offsets@);
    assert(a.pred_offsets@ =~= b.pred_offsets@) by {
        assert forall|k: int| 0 <= k < n implies a.pred_offsets@[k] == b.pred_offsets@[k] by {
            assert(a.ev_offsets@[k] == b.ev_offsets@[k]);
        }
    }
    assert forall|r: int| 0 <= r < a.md@.len() implies {
        &&& #[trigger] a.md@[r] == b.md@[r]
        &&& a.z@[r] == b.z@[r]
        &&& a.gr@[r] == b.gr@[r]
        &&& a.row_well@[r] == b.row_well@[r]
    } by {
        let k = layout::lemma_row_has_owner(a.ev_lens@, n, r);
        let i = r - layout::before(a.ev_lens@, k);
        a.lemma_well_in_bounds(k);
        b.lemma_well_in_bounds(k);
        assert(a.well(k) == b.well(k));
        assert(a.well(k).md[i] == a.md@[r] && b.well(k).md[i] == b.md@[r]);
        assert(a.well(k).z[i] == a.z@[r] && b.well(k).z[i] == b.z@[r]);
        assert(a.well(k).gr[i] == a.gr@[r] && b.well(k).gr[i] == b.gr@[r]);
        assert(a.row_well@[r] == k && b.row_well@[r] == k) by {
            reveal(FlatBatch::wf);
            assert(a.ev_lens@[k] > 0 && b.ev_lens@[k] > 0);
        }
    }
    assert(a.md@ =~= b.md@);
    assert forall|r: int| 0 <= r < a.md@.len() implies {
        &&& #[trigger] a.z@[r] == b.z@[r]
        &&& a.gr@[r] == b.gr@[r]
        &&& a.row_well@[r] == b.row_well@[r]
    } by {
        assert(a.md@[r] == b.md@[r]);
    }
    assert(a.z@ =~= b.z@);
    assert forall|r: int| 0 <= r < a.md@.len() implies #[trigger] a.gr@[r] == b.gr@[r] by {
        assert(a.z@[r] == b.z@[r]);
    }
    assert(a.gr@ =~= b.gr@);
    assert forall|r: int| 0 <= r < a.md@.len() implies #[trigger] a.row_well@[r]
        == b.row_well@[r] by {
        assert(a.z@[r] == b.z@[r]);
    }
    assert(a.row_well@ =~= b.row_well@);
    assert forall|r: int| 0 <= r < a.grid@.len() implies #[trigger] a.grid@[r] == b.grid@[r] by {
        assert(r < layout::before(a.grid_lens(), n)) by {
            reveal(FlatBatch::wf);
        }
        let k = layout::lemma_row_has_owner(a.grid_lens(), n, r);
        let i = r - layout::before(a.grid_lens(), k);
        a.lemma_well_in_bounds(k);
        b.lemma_well_in_bounds(k);
        assert(a.well(k) == b.well(k));
        assert(a.well(k).grid[i] == a.grid@[r] && b.well(k).grid[i] == b.grid@[r]);
    }
    assert(a.grid@ =~= b.grid@);
    assert forall|j: int| 0 <= j < 8 * n implies #[trigger] a.meta_f@[j] == b.meta_f@[j] by {
        let k = j / 8;
        assert(a.well(k) == b.well(k));
        assert(a.well(k).meta_f[j - 8 * k] == a.meta_f@[j]);
        assert(b.well(k).meta_f[j - 8 * k] == b.meta_f@[j]);
    }
    assert(a.meta_f@ =~= b.meta_f@);
    assert forall|j: int| 0 <= j < 6 * n implies #[trigger] a.meta_u@[j] == b.meta_u@[j] by {
        let k = j / 6;
        let c = j - 6 * k;
        a.lemma_well_in_bounds(k);
        b.lemma_well_in_bounds(k);
        assert(a.well(k) == b.well(k));
        assert(a.ev_offsets@[k] == b.ev_offsets@[k]);
        assert(a.pred_offsets@[k] == b.pred_offsets@[k]);
        assert(c == 0 || c == 1 || c == 2 || c == 3 || c == 4 || c == 5);
    }
    assert(a.meta_u@ =~= b.meta_u@);
}

/// Equal wells have equal lengths.
proof fn lemma_same_lengths(a: FlatBatch, b: FlatBatch, n: int)
    requires
        a.wf(),
        b.wf(),
        0 <= n <= a.ev_lens@.len(),
        a.ev_lens@.len() == b.ev_lens@.len(),
        forall|k: int| 0 <= k < a.ev_lens@.len() ==> #[trigger] a.well(k) == b.well(k),
    ensures
        forall|k: int| 0 <= k < n ==> #[trigger] a.ev_lens@[k] == b.ev_lens@[k],
        forall|k: int| 0 <= k < n ==> #[trigger] a.grid_lens()[k] == b.grid_lens()[k],
        layout::before(a.ev_lens@, n) == layout::before(b.ev_lens@, n),
        layout::before(a.grid_lens(), n) == layout::before(b.grid_lens(), n),
    decreases n,
{
    if n > 0 {
        lemma_same_lengths(a, b, n - 1);
        a.lemma_well_in_bounds(n - 1);
        b.lemma_well_in_bounds(n - 1);
        assert(a.well(n - 1) == b.well(n - 1));
        assert(a.well(n - 1).md.len() == a.ev_lens@[n - 1]);
        assert(b.well(n - 1).md.len() == b.ev_lens@[n - 1]);
        assert(a.well(n - 1).grid.len() == a.grid_lens()[n - 1]);
        assert(b.well(n - 1).grid.len() == b.grid_lens()[n - 1]);
    }
}

/// Slot of the estimate for row `i` of well `k` under `seed` in the trajectory
/// buffer.
pub open spec fn pred_slot(b: FlatBatch, k: int, seed: int, i: int) -> int {
    b.pred_offsets@[k] + seed * b.ev_lens@[k] + i
}

/// Every estimate has a slot inside the trajectory buffer, and no two share one.
pub proof fn lemma_pred_slots(
    b: FlatBatch,
    n_seeds: u32,
    k: int,
    seed: int,
    i: int,
    k2: int,
    seed2: int,
    i2: int,
)
    requires
        b.wf(),
        b.preds_wf(n_seeds),
        b.pred_len <= u32::MAX,
        0 <= k < b.ev_lens@.len(),
        0 <= seed < n_seeds,
        0 <= i < b.ev_lens@[k],
        0 <= k2 < b.ev_lens@.len(),
        0 <= seed2 < n_seeds,
        0 <= i2 < b.ev_lens@[k2],
    ensures
        0 <= pred_slot(b, k, seed, i) < b.pred_len,
        pred_slot(b, k, seed, i) == pred_slot(b, k2, seed2, i2) ==> k == k2 && seed == seed2 && i
            == i2,
{
    lemma_pred_block(b, n_seeds, k, seed, i);
    lemma_pred_block(b, n_seeds, k2, seed2, i2);
    if pred_slot(b, k, seed, i) == pred_slot(b, k2, seed2, i2) {
        if k < k2 {
            layout::lemma_before_monotone(b.ev_lens@, k + 1, k2);
            lemma_scaled(layout::before(b.ev_lens@, k + 1), layout::before(b.ev_lens@, k2), n_seeds);
        } else if k2 < k {
            layout::lemma_before_monotone(b.ev_lens@, k2 + 1, k);
            lemma_scaled(layout::before(b.ev_lens@, k2 + 1), layout::before(b.ev_lens@, k), n_seeds);
        }
        assert(k == k2);
        let len = b.ev_lens@[k] as int;
        assert(seed == seed2) by (nonlinear_arith)
            requires
                seed * len + i == seed2 * len + i2,
                0 <= i < len,
                0 <= i2 < len,
        ;
    }
}

proof fn lemma_scaled(x: int, y: int, s: u32)
    requires
        x <= y,
    ensures
        x * s <= y * s,
{
    assert(x * s <= y * s) by (nonlinear_arith)
        requires
            x <= y,
            s >= 0,
    ;
}

/// A well's estimates stay inside its own block.
proof fn lemma_pred_block(b: FlatBatch, n_seeds: u32, k: int, seed: int, i: int)
    requires
        b.wf(),
        b.preds_wf(n_seeds),
        b.pred_len <= u32::MAX,
        0 <= k < b.ev_lens@.len(),
        0 <= seed < n_seeds,
        0 <= i < b.ev_lens@[k],
    ensures
        layout::before(b.ev_lens@, k) * n_seeds <= pred_slot(b, k, seed, i),
        pred_slot(b, k, seed, i) < layout::before(b.ev_lens@, k + 1) * n_seeds,
        layout::before(b.ev_lens@, k + 1) * n_seeds <= b.pred_len,
        layout::before(b.ev_lens@, k) * n_seeds >= 0,
{
    let n = b.ev_lens@.len() as int;
    b.lemma_table_lengths();
    b.lemma_well_in_bounds(k);
    layout::lemma_before_monotone(b.ev_lens@, 0, k);
    layout::lemma_before_monotone(b.ev_lens@, k, n);
    layout::lemma_before_monotone(b.ev_lens@, k + 1, n);
    let off = layout::before(b.ev_lens@, k);
    let len = b.ev_lens@[k] as int;
    lemma_scaled(off, layout::before(b.ev_lens@, n), n_seeds);
    lemma_scaled(off + len, layout::before(b.ev_lens@, n), n_seeds);
    lemma_scaled(0, off, n_seeds);
    assert(b.pred_offsets@[k] == off * n_seeds);
    assert(seed * len + i < n_seeds * len && seed * len >= 0) by (nonlinear_arith)
        requires
            0 <= i < len,
            0 <= seed < n_seeds,
    ;
    assert((off + len) * n_seeds == off * n_seeds + n_seeds * len) by (nonlinear_arith);
}

} // verus!
