//! Host-side description of a beam-search batch and its flattened device layout.
//!
//! The search walks a type-well log sample by sample under a move penalty; an
//! ensemble of configurations is averaged into one trajectory per well. Floats are
//! binary64 patterns.
use vstd::prelude::*;
use crate::error::{ConfigIssue, PfError};
use crate::ieee;
use crate::layout;

verus! {

/// The moves the search may take on the type-well index grid: two down to two up.
pub const N_MOVES: usize = 5;

/// Largest accepted smoothing half-window. The cap exists so a mistyped radius
/// cannot turn into a very long kernel.
pub const MAX_RADIUS: u32 = 64;

/// Number of `u32` metadata slots per well.
pub const BEAM_META_U_STRIDE: usize = 4;

/// Number of float metadata slots per well.
pub const BEAM_META_F_STRIDE: usize = 1;

/// Beam size, move cost, error scale and smoothing radius of one search.
#[derive(Debug, Clone, Copy, PartialEq, Eq, Structural)]
pub struct BeamConfig {
    /// How many hypotheses survive each step.
    pub beam_size: u32,
    /// Penalty per grid cell moved.
    pub move_cost: u64,
    /// The observation term is the squared mismatch divided by this scale.
    pub err_scale: u64,
    /// Smoothing half-window applied to the gamma ray; `0` disables smoothing.
    pub radius: u32,
}

impl BeamConfig {
    /// A configuration from its four parameters.
    pub fn new(beam_size: u32, move_cost: u64, err_scale: u64, radius: u32) -> (c: Self)
        ensures
            c == (BeamConfig { beam_size, move_cost, err_scale, radius }),
    {
        BeamConfig { beam_size, move_cost, err_scale, radius }
    }

    /// What is wrong with the configuration, the `i`-th of its ensemble.
    pub open spec fn issue(self, i: int) -> Option<ConfigIssue> {
        if self.beam_size == 0 {
            Some(ConfigIssue::BeamSize { config: i as usize })
        } else if !ieee::finite64(self.err_scale) || !ieee::less64(ieee::ZERO64, self.err_scale) {
            Some(ConfigIssue::ErrScale { config: i as usize, err_scale: self.err_scale })
        } else if !ieee::finite64(self.move_cost) || ieee::less64(self.move_cost, ieee::ZERO64) {
            Some(ConfigIssue::MoveCost { config: i as usize, move_cost: self.move_cost })
        } else if self.radius > MAX_RADIUS {
            Some(ConfigIssue::Radius { config: i as usize, radius: self.radius })
        } else {
            None
        }
    }

    /// Checks one configuration of an ensemble.
    fn validate(&self, i: usize) -> (r: Result<(), PfError>)
        ensures
            match self.issue(i as int) {
                None => r is Ok,
                Some(e) => r == Err::<(), PfError>(PfError::Config(e)),
            },
    {
        if self.beam_size == 0 {
            return Err(PfError::Config(ConfigIssue::BeamSize { config: i }));
        }
        if !ieee::is_finite64(self.err_scale) || !ieee::lt64(ieee::ZERO64, self.err_scale) {
            return Err(
                PfError::Config(ConfigIssue::ErrScale { config: i, err_scale: self.err_scale }),
            );
        }
        if !ieee::is_finite64(self.move_cost) || ieee::lt64(self.move_cost, ieee::ZERO64) {
            return Err(
                PfError::Config(ConfigIssue::MoveCost { config: i, move_cost: self.move_cost }),
            );
        }
        if self.radius > MAX_RADIUS {
            return Err(PfError::Config(ConfigIssue::Radius { config: i, radius: self.radius }));
        }
        Ok(())
    }
}

/// Shorthand for [`BeamConfig::new`] in contracts.
pub open spec fn beam_config(
    beam_size: u32,
    move_cost: u64,
    err_scale: u64,
    radius: u32,
) -> BeamConfig {
    BeamConfig { beam_size, move_cost, err_scale, radius }
}

/// The standard ensemble.
pub open spec fn standard_ensemble() -> Seq<BeamConfig> {
    seq![
        beam_config(10, 0x4034_0000_0000_0000, 0x4062_0000_0000_0000, 2),
        beam_config(10, 0x4020_0000_0000_0000, 0x4050_0000_0000_0000, 2),
        beam_config(8, 0x4041_8000_0000_0000, 0x406B_8000_0000_0000, 1),
        beam_config(10, 0x402C_0000_0000_0000, 0x4056_8000_0000_0000, 5),
        beam_config(20, 0x4010_0000_0000_0000, 0x4042_0000_0000_0000, 3),
        beam_config(12, 0x4028_0000_0000_0000, 0x4059_0000_0000_0000, 3),
        beam_config(15, 0x4039_0000_0000_0000, 0x4066_8000_0000_0000, 2),
        beam_config(20, 0x403E_0000_0000_0000, 0x4069_0000_0000_0000, 2),
        beam_config(15, 0x4024_0000_0000_0000, 0x4054_0000_0000_0000, 4),
        beam_config(25, 0x4018_0000_0000_0000, 0x4049_0000_0000_0000, 3),
        beam_config(10, 0x4044_0000_0000_0000, 0x4072_C000_0000_0000, 1),
        beam_config(12, 0x4032_0000_0000_0000, 0x405E_0000_0000_0000, 5),
        beam_config(30, 0x4020_0000_0000_0000, 0x4051_8000_0000_0000, 2),
        beam_config(10, 0x4049_0000_0000_0000, 0x4079_0000_0000_0000, 0),
    ]
}

/// The standard ensemble of fourteen configurations, in order. In decimal, their
/// beam sizes, move costs, error scales and radii are (10, 20, 144, 2),
/// (10, 8, 64, 2), (8, 35, 220, 1), (10, 14, 90, 5), (20, 4, 36, 3),
/// (12, 12, 100, 3), (15, 25, 180, 2), (20, 30, 200, 2), (15, 10, 80, 4),
/// (25, 6, 50, 3), (10, 40, 300, 1), (12, 18, 120, 5), (30, 8, 70, 2) and
/// (10, 50, 400, 0).
pub fn notebook_beam_configs() -> (r: Vec<BeamConfig>)
    ensures
        r@ == standard_ensemble(),
        r@ == seq![
            beam_config(10, 0x4034_0000_0000_0000, 0x4062_0000_0000_0000, 2),
            beam_config(10, 0x4020_0000_0000_0000, 0x4050_0000_0000_0000, 2),
            beam_config(8, 0x4041_8000_0000_0000, 0x406B_8000_0000_0000, 1),
            beam_config(10, 0x402C_0000_0000_0000, 0x4056_8000_0000_0000, 5),
            beam_config(20, 0x4010_0000_0000_0000, 0x4042_0000_0000_0000, 3),
            beam_config(12, 0x4028_0000_0000_0000, 0x4059_0000_0000_0000, 3),
            beam_config(15, 0x4039_0000_0000_0000, 0x4066_8000_0000_0000, 2),
            beam_config(20, 0x403E_0000_0000_0000, 0x4069_0000_0000_0000, 2),
            beam_config(15, 0x4024_0000_0000_0000, 0x4054_0000_0000_0000, 4),
            beam_config(25, 0x4018_0000_0000_0000, 0x4049_0000_0000_0000, 3),
            beam_config(10, 0x4044_0000_0000_0000, 0x4072_C000_0000_0000, 1),
            beam_config(12, 0x4032_0000_0000_0000, 0x405E_0000_0000_0000, 5),
            beam_config(30, 0x4020_0000_0000_0000, 0x4051_8000_0000_0000, 2),
            beam_config(10, 0x4049_0000_0000_0000, 0x4079_0000_0000_0000, 0),
        ],
{
    let r: Vec<BeamConfig> = vec![
        BeamConfig::new(10, 0x4034_0000_0000_0000, 0x4062_0000_0000_0000, 2),
        BeamConfig::new(10, 0x4020_0000_0000_0000, 0x4050_0000_0000_0000, 2),
        BeamConfig::new(8, 0x4041_8000_0000_0000, 0x406B_8000_0000_0000, 1),
        BeamConfig::new(10, 0x402C_0000_0000_0000, 0x4056_8000_0000_0000, 5),
        BeamConfig::new(20, 0x4010_0000_0000_0000, 0x4042_0000_0000_0000, 3),
        BeamConfig::new(12, 0x4028_0000_0000_0000, 0x4059_0000_0000_0000, 3),
        BeamConfig::new(15, 0x4039_0000_0000_0000, 0x4066_8000_0000_0000, 2),
        BeamConfig::new(20, 0x403E_0000_0000_0000, 0x4069_0000_0000_0000, 2),
        BeamConfig::new(15, 0x4024_0000_0000_0000, 0x4054_0000_0000_0000, 4),
        BeamConfig::new(25, 0x4018_0000_0000_0000, 0x4049_0000_0000_0000, 3),
        BeamConfig::new(10, 0x4044_0000_0000_0000, 0x4072_C000_0000_0000, 1),
        BeamConfig::new(12, 0x4032_0000_0000_0000, 0x405E_0000_0000_0000, 5),
        BeamConfig::new(30, 0x4020_0000_0000_0000, 0x4051_8000_0000_0000, 2),
        BeamConfig::new(10, 0x4049_0000_0000_0000, 0x4079_0000_0000_0000, 0)
    ];
    r
}

/// How the gamma ray is smoothed before the search.
#[derive(Debug, Clone, Copy, PartialEq, Eq, Structural)]
pub enum SmoothingKind {
    /// A centred moving average that shrinks at the ends of the log.
    RollingMean,
    /// A quadratic fit over the window.
    SavitzkyGolay,
}

/// Launch-shape and output options.
#[derive(Debug, Clone, Copy)]
pub struct BeamOptions {
    /// Units per cube. Must be a power of two. The work of a step is five times the
    /// beam size, so there is nothing to gain from a cube much wider than the widest
    /// beam.
    pub cube_dim: u32,
    /// Also return the trajectories of the individual configurations.
    pub with_per_config: bool,
    /// Device bytes to spend on the per-row buffers before splitting the batch into
    /// chunks.
    pub budget_bytes: usize,
    /// Gamma-ray smoothing.
    pub smoothing: SmoothingKind,
}

impl Default for BeamOptions {
    /// Cubes of 64 units, the mean only, a budget of 512 MiB, a rolling mean.
    fn default() -> (o: Self)
        ensures
            o == (BeamOptions {
                cube_dim: 64,
                with_per_config: false,
                budget_bytes: 536_870_912,
                smoothing: SmoothingKind::RollingMean,
            }),
    {
        BeamOptions {
            cube_dim: 64,
            with_per_config: false,
            budget_bytes: 536_870_912,
            smoothing: SmoothingKind::RollingMean,
        }
    }
}

/// The first configuration, from the `i`-th on, that fails its check, and how.
pub open spec fn first_config_issue(configs: Seq<BeamConfig>, i: int) -> Option<ConfigIssue>
    decreases configs.len() - i,
{
    if i < 0 || i >= configs.len() {
        None
    } else {
        match configs[i].issue(i) {
            Some(e) => Some(e),
            None => first_config_issue(configs, i + 1),
        }
    }
}

impl BeamOptions {
    /// The first invariant of the search that the options or the ensemble break.
    pub open spec fn issue(self, configs: Seq<BeamConfig>) -> Option<ConfigIssue> {
        if !layout::is_pow2(self.cube_dim as int) {
            Some(ConfigIssue::CubeDim { cube_dim: self.cube_dim })
        } else if configs.len() == 0 {
            Some(ConfigIssue::NoBeamConfigs)
        } else {
            first_config_issue(configs, 0)
        }
    }

    /// Checks the invariants the search relies on.
    pub fn validate(&self, configs: &[BeamConfig]) -> (r: Result<(), PfError>)
        ensures
            match self.issue(configs@) {
                None => r is Ok,
                Some(e) => r == Err::<(), PfError>(PfError::Config(e)),
            },
    {
        if !layout::power_of_two(self.cube_dim) {
            return Err(PfError::Config(ConfigIssue::CubeDim { cube_dim: self.cube_dim }));
        }
        let n = configs.len();
        if n == 0 {
            return Err(PfError::Config(ConfigIssue::NoBeamConfigs));
        }
        let mut i: usize = 0;
        while i < n
            invariant
                i <= n,
                n == configs@.len(),
                first_config_issue(configs@, 0) == first_config_issue(configs@, i as int),
                self.issue(configs@) == first_config_issue(configs@, 0),
            decreases n - i,
        {
            match configs[i].validate(i) {
                Err(e) => {
                    return Err(e);
                },
                Ok(()) => {},
            }
            i = i + 1;
        }
        Ok(())
    }
}

/// In an ensemble that passes its check every configuration does.
pub proof fn lemma_checked_ensemble(configs: Seq<BeamConfig>, i: int, c: int)
    requires
        first_config_issue(configs, i) is None,
        0 <= i <= c < configs.len(),
    ensures
        configs[c].issue(c) is None,
    decreases c - i,
{
    if i < c {
        lemma_checked_ensemble(configs, i + 1, c);
    }
}

/// The widest beam of the first `n` configurations.
pub open spec fn widest_beam(configs: Seq<BeamConfig>, n: int) -> int
    decreases n,
{
    if n <= 0 {
        0
    } else if configs[n - 1].beam_size > widest_beam(configs, n - 1) {
        configs[n - 1].beam_size as int
    } else {
        widest_beam(configs, n - 1)
    }
}

/// The beam width that the kernel has to hold: one for an empty ensemble.
pub open spec fn beam_demand(configs: Seq<BeamConfig>) -> int {
    if configs.len() == 0 {
        1
    } else {
        widest_beam(configs, configs.len() as int)
    }
}

/// The beam width that the kernel has to hold.
pub(crate) fn widest(configs: &[BeamConfig]) -> (r: u32)
    ensures
        r == beam_demand(configs@),
{
    let n = configs.len();
    if n == 0 {
        return 1;
    }
    let mut widest: u32 = 0;
    let mut i: usize = 0;
    while i < n
        invariant
            i <= n,
            n == configs@.len(),
            widest == widest_beam(configs@, i as int),
        decreases n - i,
    {
        if configs[i].beam_size > widest {
            widest = configs[i].beam_size;
        }
        i = i + 1;
    }
    widest
}

/// Shared-memory beam capacity the kernel is specialised for. Bucketed to a power
/// of two so that varying beam sizes reuse a small number of compiled kernels.
pub fn max_beam_capacity(configs: &[BeamConfig]) -> (r: usize)
    requires
        beam_demand(configs@) <= usize::MAX / 2 + 1,
    ensures
        layout::is_pow2_ceil(r as int, beam_demand(configs@)),
{
    layout::next_power_of_two(widest(configs) as usize)
}

/// The capacity covers every beam of the ensemble.
pub proof fn lemma_capacity_covers_every_beam(configs: Seq<BeamConfig>, capacity: int, c: int)
    requires
        layout::is_pow2_ceil(capacity, beam_demand(configs)),
        0 <= c < configs.len(),
    ensures
        configs[c].beam_size <= capacity,
{
    lemma_widest(configs, configs.len() as int, c);
}

proof fn lemma_widest(configs: Seq<BeamConfig>, n: int, c: int)
    requires
        0 <= c < n <= configs.len(),
    ensures
        configs[c].beam_size <= widest_beam(configs, n),
    decreases n,
{
    if c < n - 1 {
        lemma_widest(configs, n - 1, c);
    }
}

// ---------------------------------------------------------------------------
// Wells and their layout
// ---------------------------------------------------------------------------

/// One well's evaluation-zone gamma ray plus the type-well log the search walks
/// along. Floats are binary64 patterns.
#[derive(Debug, Clone)]
pub struct BeamWellInput {
    /// Gamma ray of every evaluation row, gaps already filled, in order of depth.
    pub gr: Vec<u64>,
    /// Type-well depth, ascending.
    pub tw_tvt: Vec<u64>,
    /// Type-well gamma ray, aligned with `tw_tvt`.
    pub tw_gr: Vec<u64>,
    /// Depth of the last known row: where the search starts.
    pub last_tvt: u64,
}

impl BeamWellInput {
    /// What is wrong with the well, the `idx`-th of its batch.
    pub open spec fn issue(self, idx: int) -> Option<ConfigIssue> {
        if self.tw_tvt@.len() != self.tw_gr@.len() {
            Some(
                ConfigIssue::LogLengths {
                    well: idx as usize,
                    tw_tvt: self.tw_tvt@.len() as usize,
                    tw_gr: self.tw_gr@.len() as usize,
                },
            )
        } else if self.tw_tvt@.len() == 0 {
            Some(ConfigIssue::EmptyLog { well: idx as usize })
        } else if !ieee::finite64(self.last_tvt) {
            Some(ConfigIssue::LastTvt { well: idx as usize, last_tvt: self.last_tvt })
        } else {
            None
        }
    }

    /// Checks one well of a batch.
    pub fn validate(&self, idx: usize) -> (r: Result<(), PfError>)
        ensures
            match self.issue(idx as int) {
                None => r is Ok,
                Some(e) => r == Err::<(), PfError>(PfError::Config(e)),
            },
    {
        if self.tw_tvt.len() != self.tw_gr.len() {
            return Err(
                PfError::Config(
                    ConfigIssue::LogLengths {
                        well: idx,
                        tw_tvt: self.tw_tvt.len(),
                        tw_gr: self.tw_gr.len(),
                    },
                ),
            );
        }
        if self.tw_tvt.len() == 0 {
            return Err(PfError::Config(ConfigIssue::EmptyLog { well: idx }));
        }
        if !ieee::is_finite64(self.last_tvt) {
            return Err(
                PfError::Config(ConfigIssue::LastTvt { well: idx, last_tvt: self.last_tvt }),
            );
        }
        Ok(())
    }
}

/// The first well, from the `idx`-th on, that fails its check, and how.
pub open spec fn first_beam_issue(wells: Seq<BeamWellInput>, idx: int) -> Option<ConfigIssue>
    decreases wells.len() - idx,
{
    if idx < 0 || idx >= wells.len() {
        None
    } else {
        match wells[idx].issue(idx) {
            Some(e) => Some(e),
            None => first_beam_issue(wells, idx + 1),
        }
    }
}

/// Indices below `n` of the wells with a non-empty evaluation zone, ascending.
pub open spec fn kept_beam_wells(wells: Seq<BeamWellInput>, n: int) -> Seq<usize>
    decreases n,
{
    if n <= 0 {
        Seq::empty()
    } else if wells[n - 1].gr@.len() == 0 {
        kept_beam_wells(wells, n - 1)
    } else {
        kept_beam_wells(wells, n - 1).push((n - 1) as usize)
    }
}

/// Evaluation rows of the first `n` wells.
pub open spec fn beam_rows(wells: Seq<BeamWellInput>, n: int) -> int
    decreases n,
{
    if n <= 0 {
        0
    } else {
        beam_rows(wells, n - 1) + wells[n - 1].gr@.len()
    }
}

/// Type-well samples of the first `n` wells.
pub open spec fn log_samples(wells: Seq<BeamWellInput>, n: int) -> int
    decreases n,
{
    if n <= 0 {
        0
    } else {
        log_samples(wells, n - 1) + wells[n - 1].tw_tvt@.len()
    }
}

/// The batch can be addressed: offsets fit the `u32` slots of the layout.
pub open spec fn beam_addressable(wells: Seq<BeamWellInput>) -> bool {
    &&& beam_rows(wells, wells.len() as int) <= u32::MAX
    &&& log_samples(wells, wells.len() as int) <= u32::MAX
}

proof fn lemma_beam_rows_monotone(wells: Seq<BeamWellInput>, i: int, j: int)
    requires
        0 <= i <= j,
    ensures
        0 <= beam_rows(wells, i) <= beam_rows(wells, j),
        0 <= log_samples(wells, i) <= log_samples(wells, j),
    decreases j - i, i,
{
    if i < j {
        lemma_beam_rows_monotone(wells, i, j - 1);
    } else if i > 0 {
        lemma_beam_rows_monotone(wells, i - 1, i - 1);
    }
}

/// Checks that a batch can be addressed.
pub fn is_beam_addressable(wells: &[BeamWellInput]) -> (r: bool)
    ensures
        r == beam_addressable(wells@),
{
    let mut rows: u64 = 0;
    let mut samples: u64 = 0;
    let n = wells.len();
    let mut i: usize = 0;
    while i < n
        invariant
            i <= n,
            n == wells@.len(),
            rows == beam_rows(wells@, i as int),
            samples == log_samples(wells@, i as int),
            rows <= u32::MAX,
            samples <= u32::MAX,
        decreases n - i,
    {
        let a = wells[i].gr.len();
        let t = wells[i].tw_tvt.len();
        proof {
            lemma_beam_rows_monotone(wells@, i + 1, n as int);
        }
        if a as u64 > 0xFFFF_FFFF - rows || t as u64 > 0xFFFF_FFFF - samples {
            return false;
        }
        rows = rows + a as u64;
        samples = samples + t as u64;
        i = i + 1;
    }
    true
}

/// Rows of all wells, if a `u32` holds them.
pub fn count_beam_rows(wells: &[BeamWellInput]) -> (r: Option<usize>)
    ensures
        r is Some <==> beam_rows(wells@, wells@.len() as int) <= u32::MAX,
        r matches Some(rows) ==> rows == beam_rows(wells@, wells@.len() as int),
{
    let mut rows: u64 = 0;
    let n = wells.len();
    let mut i: usize = 0;
    while i < n
        invariant
            i <= n,
            n == wells@.len(),
            rows == beam_rows(wells@, i as int),
            rows <= u32::MAX,
        decreases n - i,
    {
        let a = wells[i].gr.len();
        proof {
            lemma_beam_rows_monotone(wells@, i + 1, n as int);
        }
        if a as u64 > 0xFFFF_FFFF - rows {
            return None;
        }
        rows = rows + a as u64;
        i = i + 1;
    }
    Some(rows as usize)
}

/// What the layout holds of one well.
pub struct FlatBeamWell {
    pub gr: Seq<u64>,
    pub tw_tvt: Seq<u64>,
    pub tw_gr: Seq<u64>,
    pub last_tvt: u64,
}

/// Flattened, device-ready view of a set of wells.
#[derive(Debug, Clone)]
pub struct FlatBeamBatch {
    pub gr: Vec<u64>,
    pub tw_tvt: Vec<u64>,
    pub tw_gr: Vec<u64>,
    /// Four entries per well: row offset, row count, log offset and log length.
    pub meta_u: Vec<u32>,
    /// One entry per well: the depth of its last known row.
    pub meta_f: Vec<u64>,
    /// Well index of every flattened evaluation row.
    pub row_well: Vec<u32>,
    /// Evaluation row count per well.
    pub ev_lens: Vec<u32>,
    /// Start of each well's rows in `gr`.
    pub ev_offsets: Vec<u32>,
}

impl Default for FlatBeamBatch {
    /// A batch without wells.
    fn default() -> (b: Self)
        ensures
            b.wf(),
            b.gr@.len() == 0,
            b.tw_tvt@.len() == 0,
            b.tw_gr@.len() == 0,
            b.meta_u@.len() == 0,
            b.meta_f@.len() == 0,
            b.row_well@.len() == 0,
            b.ev_lens@.len() == 0,
            b.ev_offsets@.len() == 0,
    {
        reveal(FlatBeamBatch::wf);
        FlatBeamBatch {
            gr: Vec::new(),
            tw_tvt: Vec::new(),
            tw_gr: Vec::new(),
            meta_u: Vec::new(),
            meta_f: Vec::new(),
            row_well: Vec::new(),
            ev_lens: Vec::new(),
            ev_offsets: Vec::new(),
        }
    }
}

impl FlatBeamBatch {
    /// Log length of every well.
    pub open spec fn log_lens(self) -> Seq<u32> {
        Seq::new(self.ev_lens@.len(), |k: int| self.meta_u@[4 * k + 3])
    }

    /// The offset tables agree with the lengths, and every array has the length the
    /// tables call for: what the kernels rely on to index the buffers.
    #[verifier::opaque]
    pub open spec fn wf(self) -> bool {
        let n = self.ev_lens@.len() as int;
        &&& self.ev_offsets@.len() == n
        &&& self.meta_u@.len() == 4 * n
        &&& self.meta_f@.len() == n
        &&& self.gr@.len() == layout::before(self.ev_lens@, n)
        &&& self.row_well@.len() == self.gr@.len()
        &&& self.gr@.len() <= u32::MAX
        &&& self.tw_tvt@.len() == layout::before(self.log_lens(), n)
        &&& self.tw_gr@.len() == self.tw_tvt@.len()
        &&& self.tw_tvt@.len() <= u32::MAX
        &&& forall|k: int|
            0 <= k < n ==> {
                &&& #[trigger] self.ev_lens@[k] > 0
                &&& self.ev_offsets@[k] == layout::before(self.ev_lens@, k)
                &&& self.meta_u@[4 * k] == self.ev_offsets@[k]
                &&& self.meta_u@[4 * k + 1] == self.ev_lens@[k]
                &&& self.meta_u@[4 * k + 2] == layout::before(self.log_lens(), k)
                &&& self.meta_u@[4 * k + 3] > 0
            }
        &&& forall|k: int, r: int|
            #![trigger self.ev_lens@[k], self.row_well@[r]]
            0 <= k < n && layout::before(self.ev_lens@, k) <= r < layout::before(self.ev_lens@, k + 1)
                ==> self.row_well@[r] == k
    }

    /// Well `k` as the layout holds it.
    pub open spec fn well(self, k: int) -> FlatBeamWell {
        let r0 = layout::before(self.ev_lens@, k);
        let r1 = layout::before(self.ev_lens@, k + 1);
        let t0 = layout::before(self.log_lens(), k);
        let t1 = layout::before(self.log_lens(), k + 1);
        FlatBeamWell {
            gr: self.gr@.subrange(r0, r1),
            tw_tvt: self.tw_tvt@.subrange(t0, t1),
            tw_gr: self.tw_gr@.subrange(t0, t1),
            last_tvt: self.meta_f@[k],
        }
    }

    /// Whether well `k` of the layout is `well`.
    pub open spec fn holds(self, k: int, well: BeamWellInput) -> bool {
        let f = self.well(k);
        &&& f.gr == well.gr@
        &&& f.tw_tvt == well.tw_tvt@
        &&& f.tw_gr == well.tw_gr@
        &&& f.last_tvt == well.last_tvt
    }

    /// Number of wells in the batch.
    pub fn n_wells(&self) -> (r: usize)
        ensures
            r == self.ev_lens@.len(),
    {
        self.ev_lens.len()
    }

    /// Total evaluation rows across all wells.
    pub fn total_rows(&self) -> (r: usize)
        ensures
            r == self.row_well@.len(),
    {
        self.row_well.len()
    }

    /// Lays out one more well behind the others.
    fn append(&mut self, gr: &[u64], tw_tvt: &[u64], tw_gr: &[u64], last_tvt: u64)
        requires
            old(self).wf(),
            gr@.len() > 0,
            tw_tvt@.len() > 0,
            tw_gr@.len() == tw_tvt@.len(),
            old(self).gr@.len() + gr@.len() <= u32::MAX,
            old(self).tw_tvt@.len() + tw_tvt@.len() <= u32::MAX,
        ensures
            final(self).wf(),
            final(self).ev_lens@ == old(self).ev_lens@.push(gr@.len() as u32),
            final(self).gr@.len() == old(self).gr@.len() + gr@.len(),
            final(self).tw_tvt@.len() == old(self).tw_tvt@.len() + tw_tvt@.len(),
            forall|k: int|
                0 <= k < old(self).ev_lens@.len() ==> #[trigger] final(self).well(k) == old(
                    self,
                ).well(k),
            final(self).well(old(self).ev_lens@.len() as int) == (FlatBeamWell {
                gr: gr@,
                tw_tvt: tw_tvt@,
                tw_gr: tw_gr@,
                last_tvt,
            }),
    {
        reveal(FlatBeamBatch::wf);
        let ghost was = *self;
        let ev_off: u32 = self.gr.len() as u32;
        let ev_len: u32 = gr.len() as u32;
        let tw_off: u32 = self.tw_tvt.len() as u32;
        let tw_len: u32 = tw_tvt.len() as u32;
        let well_idx: u32 = self.ev_lens.len() as u32;
        proof {
            layout::lemma_part_count(self.ev_lens@, self.ev_lens@.len() as int);
        }
        self.gr.extend_from_slice(gr);
        self.tw_tvt.extend_from_slice(tw_tvt);
        self.tw_gr.extend_from_slice(tw_gr);
        let mut i: u32 = 0;
        while i < ev_len
            invariant
                i <= ev_len,
                self.row_well@.len() == was.row_well@.len() + i,
                forall|r: int| 0 <= r < was.row_well@.len() ==> self.row_well@[r] == was.row_well@[r],
                forall|r: int|
                    was.row_well@.len() <= r < was.row_well@.len() + i ==> self.row_well@[r]
                        == well_idx,
                self.gr@ == was.gr@ + gr@,
                self.tw_tvt@ == was.tw_tvt@ + tw_tvt@,
                self.tw_gr@ == was.tw_gr@ + tw_gr@,
                self.meta_u == was.meta_u,
                self.meta_f == was.meta_f,
                self.ev_lens == was.ev_lens,
                self.ev_offsets == was.ev_offsets,
            decreases ev_len - i,
        {
            self.row_well.push(well_idx);
            i = i + 1;
        }
        self.meta_u.push(ev_off);
        self.meta_u.push(ev_len);
        self.meta_u.push(tw_off);
        self.meta_u.push(tw_len);
        self.meta_f.push(last_tvt);
        self.ev_offsets.push(ev_off);
        self.ev_lens.push(ev_len);
        proof {
            assert(self.meta_u@ =~= was.meta_u@ + seq![ev_off, ev_len, tw_off, tw_len]);
            self.lemma_appended(was, gr@, tw_tvt@, tw_gr@, last_tvt);
        }
    }

    /// Flattens `wells`, dropping any with an empty evaluation zone.
    ///
    /// Returns the flattened batch plus the indices of the wells that were kept, so
    /// callers can map results back to their own ordering.
    pub fn build(wells: &[BeamWellInput]) -> (r: Result<(FlatBeamBatch, Vec<usize>), PfError>)
        requires
            beam_addressable(wells@),
        ensures
            match first_beam_issue(wells@, 0) {
                Some(e) => r == Err::<(FlatBeamBatch, Vec<usize>), PfError>(PfError::Config(e)),
                None => r is Ok,
            },
            r matches Ok((b, kept)) ==> {
                &&& b.wf()
                &&& b.gr@.len() == beam_rows(wells@, wells@.len() as int)
                &&& kept@ == kept_beam_wells(wells@, wells@.len() as int)
                &&& b.ev_lens@.len() == kept@.len()
                &&& forall|k: int|
                    0 <= k < kept@.len() ==> #[trigger] b.holds(k, wells@[kept@[k] as int])
            },
    {
        let mut b = FlatBeamBatch::default();
        let mut kept: Vec<usize> = Vec::new();
        let n = wells.len();
        let mut idx: usize = 0;
        while idx < n
            invariant
                idx <= n,
                n == wells@.len(),
                beam_addressable(wells@),
                b.wf(),
                b.gr@.len() == beam_rows(wells@, idx as int),
                b.tw_tvt@.len() <= log_samples(wells@, idx as int),
                first_beam_issue(wells@, 0) == first_beam_issue(wells@, idx as int),
                kept@ == kept_beam_wells(wells@, idx as int),
                b.ev_lens@.len() == kept@.len(),
                forall|k: int| 0 <= k < kept@.len() ==> (#[trigger] kept@[k]) < idx,
                forall|k: int|
                    0 <= k < kept@.len() ==> #[trigger] b.holds(k, wells@[kept@[k] as int]),
            decreases n - idx,
        {
            let wl: &BeamWellInput = &wells[idx];
            match wl.validate(idx) {
                Err(e) => {
                    return Err(e);
                },
                Ok(()) => {},
            }
            if wl.gr.len() > 0 {
                let ghost was = b;
                proof {
                    lemma_beam_rows_monotone(wells@, idx + 1, n as int);
                }
                b.append(&wl.gr, &wl.tw_tvt, &wl.tw_gr, wl.last_tvt);
                kept.push(idx);
                proof {
                    let k0 = was.ev_lens@.len() as int;
                    assert(b.holds(k0, wells@[idx as int]));
                    assert forall|k: int| 0 <= k < kept@.len() implies #[trigger] b.holds(
                        k,
                        wells@[kept@[k] as int],
                    ) by {
                        if k < k0 {
                            assert(was.holds(k, wells@[kept@[k] as int]));
                            assert(b.well(k) == was.well(k));
                        }
                    }
                }
            }
            idx = idx + 1;
        }
        Ok((b, kept))
    }

    /// Splits the batch into consecutive well ranges whose per-row device buffers,
    /// `n_planes` elements to a row, each stay under `budget_bytes`. A single well
    /// always gets its own chunk even if it exceeds the budget on its own.
    pub fn chunks(&self, n_planes: usize, budget_bytes: usize, elem_size: usize) -> (r: Vec<
        (usize, usize),
    >)
        requires
            layout::before(self.ev_lens@, self.ev_lens@.len() as int) <= usize::MAX,
            n_planes * elem_size <= usize::MAX,
        ensures
            layout::is_greedy_split(
                self.ev_lens@,
                r@,
                layout::rows_in_budget(n_planes * elem_size, budget_bytes as int),
            ),
    {
        let per_row: usize = n_planes * elem_size;
        let max_rows = layout::budget_rows(per_row, budget_bytes);
        layout::split_wells(&self.ev_lens, max_rows)
    }

    /// Rebases the wells `[w0, w1)` into a standalone batch.
    ///
    /// Returns the sub-batch and the index of its first row in the parent.
    pub fn sub_batch(&self, w0: usize, w1: usize) -> (r: (FlatBeamBatch, usize))
        requires
            self.wf(),
            w0 < w1 <= self.ev_lens@.len(),
        ensures
            r.0.wf(),
            r.0.ev_lens@ == self.ev_lens@.subrange(w0 as int, w1 as int),
            forall|k: int| 0 <= k < w1 - w0 ==> #[trigger] r.0.well(k) == self.well(w0 + k),
            r.1 == layout::before(self.ev_lens@, w0 as int),
            r.0.gr@.len() == layout::rows_between(self.ev_lens@, w0 as int, w1 as int),
    {
        proof {
            self.lemma_table_lengths();
            self.lemma_well_in_bounds(w0 as int);
        }
        let row0: usize = self.ev_offsets[w0] as usize;
        let len_u: usize = self.meta_u.len();
        let mut out = FlatBeamBatch::default();
        let mut w: usize = w0;
        assert(out.ev_lens@ =~= self.ev_lens@.subrange(w0 as int, w0 as int));
        while w < w1
            invariant
                self.wf(),
                w0 <= w <= w1 <= self.ev_lens@.len(),
                self.ev_offsets@.len() == self.ev_lens@.len(),
                self.meta_u@.len() == 4 * self.ev_lens@.len(),
                self.meta_f@.len() == self.ev_lens@.len(),
                len_u == self.meta_u@.len(),
                out.wf(),
                out.ev_lens@ == self.ev_lens@.subrange(w0 as int, w as int),
                out.gr@.len() == layout::rows_between(self.ev_lens@, w0 as int, w as int),
                out.tw_tvt@.len() == layout::before(self.log_lens(), w as int) - layout::before(
                    self.log_lens(),
                    w0 as int,
                ),
                forall|k: int| 0 <= k < w - w0 ==> #[trigger] out.well(k) == self.well(w0 + k),
            decreases w1 - w,
        {
            let ghost wi = w as int;
            proof {
                self.lemma_table_lengths();
                self.lemma_well_in_bounds(wi);
                layout::lemma_before_monotone(self.ev_lens@, 0, w0 as int);
                layout::lemma_before_monotone(self.log_lens(), 0, w0 as int);
            }
            let a: usize = self.ev_offsets[w] as usize;
            let b: usize = a + self.ev_lens[w] as usize;
            let t0: usize = self.meta_u[w * 4 + 2] as usize;
            let t1: usize = t0 + self.meta_u[w * 4 + 3] as usize;
            let ghost was = out;
            out.append(&self.gr[a..b], &self.tw_tvt[t0..t1], &self.tw_gr[t0..t1], self.meta_f[w]);
            proof {
                assert(out.well(wi - w0) == self.well(wi));
                assert forall|k: int| 0 <= k < wi + 1 - w0 implies #[trigger] out.well(k)
                    == self.well(w0 + k) by {
                    if k < wi - w0 {
                        assert(out.well(k) == was.well(k));
                    }
                }
                assert(out.ev_lens@ =~= self.ev_lens@.subrange(w0 as int, wi + 1));
            }
            w = w + 1;
        }
        (out, row0)
    }

    /// Array lengths of a consistent layout.
    pub proof fn lemma_table_lengths(self)
        requires
            self.wf(),
        ensures
            self.ev_offsets@.len() == self.ev_lens@.len(),
            self.meta_u@.len() == 4 * self.ev_lens@.len(),
            self.meta_f@.len() == self.ev_lens@.len(),
            self.gr@.len() == layout::before(self.ev_lens@, self.ev_lens@.len() as int),
            self.row_well@.len() == self.gr@.len(),
            self.gr@.len() <= u32::MAX,
            self.tw_gr@.len() == self.tw_tvt@.len(),
            self.tw_tvt@.len() <= u32::MAX,
            self.tw_tvt@.len() == layout::before(self.log_lens(), self.ev_lens@.len() as int),
            forall|k: int| 0 <= k < self.ev_lens@.len() ==> #[trigger] self.ev_lens@[k] > 0,
            self.ev_lens@.len() <= u32::MAX,
    {
        reveal(FlatBeamBatch::wf);
        assert(forall|k: int| 0 <= k < self.ev_lens@.len() ==> #[trigger] self.ev_lens@[k] > 0);
        layout::lemma_part_count(self.ev_lens@, self.ev_lens@.len() as int);
    }

    /// Where well `k` stands in a consistent layout: inside the buffers.
    pub proof fn lemma_well_in_bounds(self, k: int)
        requires
            self.wf(),
            0 <= k < self.ev_lens@.len(),
        ensures
            self.ev_lens@[k] > 0,
            self.ev_offsets@[k] == layout::before(self.ev_lens@, k),
            self.ev_offsets@[k] + self.ev_lens@[k] == layout::before(self.ev_lens@, k + 1),
            self.ev_offsets@[k] + self.ev_lens@[k] <= self.gr@.len(),
            self.meta_u@[4 * k] == self.ev_offsets@[k],
            self.meta_u@[4 * k + 1] == self.ev_lens@[k],
            self.meta_u@[4 * k + 2] == layout::before(self.log_lens(), k),
            self.meta_u@[4 * k + 3] == self.log_lens()[k],
            self.meta_u@[4 * k + 3] > 0,
            self.meta_u@[4 * k + 2] + self.meta_u@[4 * k + 3] == layout::before(
                self.log_lens(),
                k + 1,
            ),
            self.meta_u@[4 * k + 2] + self.meta_u@[4 * k + 3] <= self.tw_tvt@.len(),
    {
        reveal(FlatBeamBatch::wf);
        let n = self.ev_lens@.len() as int;
        assert(self.ev_lens@[k] > 0);
        layout::lemma_before_monotone(self.ev_lens@, k + 1, n);
        layout::lemma_before_monotone(self.log_lens(), k + 1, n);
        layout::lemma_before_monotone(self.log_lens(), 0, k);
    }

    /// Appending one well keeps the layout consistent and the other wells in place.
    proof fn lemma_appended(
        self,
        was: FlatBeamBatch,
        gr: Seq<u64>,
        tw_tvt: Seq<u64>,
        tw_gr: Seq<u64>,
        last_tvt: u64,
    )
        requires
            was.wf(),
            gr.len() > 0,
            tw_tvt.len() > 0,
            tw_gr.len() == tw_tvt.len(),
            was.gr@.len() + gr.len() <= u32::MAX,
            was.tw_tvt@.len() + tw_tvt.len() <= u32::MAX,
            self.gr@ == was.gr@ + gr,
            self.tw_tvt@ == was.tw_tvt@ + tw_tvt,
            self.tw_gr@ == was.tw_gr@ + tw_gr,
            self.meta_u@ == was.meta_u@ + seq![
                was.gr@.len() as u32,
                gr.len() as u32,
                was.tw_tvt@.len() as u32,
                tw_tvt.len() as u32,
            ],
            self.meta_f@ == was.meta_f@.push(last_tvt),
            self.row_well@.len() == was.row_well@.len() + gr.len(),
            forall|r: int| 0 <= r < was.row_well@.len() ==> self.row_well@[r] == was.row_well@[r],
            forall|r: int|
                was.row_well@.len() <= r < self.row_well@.len() ==> self.row_well@[r]
                    == was.ev_lens@.len(),
            self.ev_lens@ == was.ev_lens@.push(gr.len() as u32),
            self.ev_offsets@ == was.ev_offsets@.push(was.gr@.len() as u32),
        ensures
            self.wf(),
            forall|k: int|
                0 <= k < was.ev_lens@.len() ==> #[trigger] self.well(k) == was.well(k),
            self.well(was.ev_lens@.len() as int) == (FlatBeamWell { gr, tw_tvt, tw_gr, last_tvt }),
    {
        reveal(FlatBeamBatch::wf);
        let n = was.ev_lens@.len() as int;
        assert forall|k: int| 0 <= k <= n implies #[trigger] layout::before(self.ev_lens@, k)
            == layout::before(was.ev_lens@, k) by {
            layout::lemma_before_agree(self.ev_lens@, was.ev_lens@, k);
        }
        assert forall|k: int| 0 <= k < n implies #[trigger] self.log_lens()[k]
            == was.log_lens()[k] by {}
        assert forall|k: int| 0 <= k <= n implies #[trigger] layout::before(self.log_lens(), k)
            == layout::before(was.log_lens(), k) by {
            layout::lemma_before_agree(self.log_lens(), was.log_lens(), k);
        }
        assert(self.log_lens()[n] == tw_tvt.len());
        assert(layout::before(self.ev_lens@, n) == was.gr@.len());
        assert(layout::before(self.log_lens(), n) == was.tw_tvt@.len());
        assert(layout::before(self.ev_lens@, n + 1) == was.gr@.len() + gr.len());
        assert(layout::before(self.log_lens(), n + 1) == was.tw_tvt@.len() + tw_tvt.len());
        assert forall|k: int, r: int|
            #![trigger self.ev_lens@[k], self.row_well@[r]]
            0 <= k < n + 1 && layout::before(self.ev_lens@, k) <= r < layout::before(
                self.ev_lens@,
                k + 1,
            ) implies self.row_well@[r] == k by {
            if k < n {
                layout::lemma_before_monotone(was.ev_lens@, 0, k);
                layout::lemma_before_monotone(was.ev_lens@, k + 1, n);
                assert(was.ev_lens@[k] > 0);
                assert(was.row_well@[r] == k);
            }
        }
        assert forall|k: int| 0 <= k < n + 1 implies {
            &&& #[trigger] self.ev_lens@[k] > 0
            &&& self.ev_offsets@[k] == layout::before(self.ev_lens@, k)
            &&& self.meta_u@[4 * k] == self.ev_offsets@[k]
            &&& self.meta_u@[4 * k + 1] == self.ev_lens@[k]
            &&& self.meta_u@[4 * k + 2] == layout::before(self.log_lens(), k)
            &&& self.meta_u@[4 * k + 3] > 0
        } by {
            if k < n {
                assert(was.ev_lens@[k] > 0);
            }
        }
        assert(self.wf());
        assert forall|k: int| 0 <= k < n implies #[trigger] self.well(k) == was.well(k) by {
            was.lemma_well_in_bounds(k);
            layout::lemma_before_monotone(was.ev_lens@, 0, k);
            let (a, b) = (self.well(k), was.well(k));
            assert(a.gr =~= b.gr);
            assert(a.tw_tvt =~= b.tw_tvt);
            assert(a.tw_gr =~= b.tw_gr);
        }
        let f = self.well(n);
        assert(f.gr =~= gr);
        assert(f.tw_tvt =~= tw_tvt);
        assert(f.tw_gr =~= tw_gr);
    }
}

/// The kept wells are the ones with rows, in their own order.
pub proof fn lemma_kept_beam_wells(wells: Seq<BeamWellInput>, n: int)
    requires
        0 <= n <= wells.len(),
        wells.len() <= usize::MAX,
    ensures
        ({
            let kept = kept_beam_wells(wells, n);
            &&& forall|i: int| 0 <= i < kept.len() ==> (#[trigger] kept[i]) < n
            &&& forall|i: int, j: int| 0 <= i < j < kept.len() ==> kept[i] < kept[j]
            &&& forall|w: int|
                0 <= w < n ==> (kept.contains(w as usize) <==> (#[trigger] wells[w]).gr@.len() > 0)
        }),
    decreases n,
{
    if n > 0 {
        lemma_kept_beam_wells(wells, n - 1);
        let prev = kept_beam_wells(wells, n - 1);
        let kept = kept_beam_wells(wells, n);
        assert forall|w: int| 0 <= w < n implies (kept.contains(w as usize) <==> (
        #[trigger] wells[w]).gr@.len() > 0) by {
            if wells[n - 1].gr@.len() > 0 {
                assert(kept[kept.len() - 1] == (n - 1) as usize);
                if w < n - 1 {
                    if prev.contains(w as usize) {
                        let i = choose|i: int| 0 <= i < prev.len() && prev[i] == w as usize;
                        assert(kept[i] == w as usize);
                    }
                    if kept.contains(w as usize) {
                        let i = choose|i: int| 0 <= i < kept.len() && kept[i] == w as usize;
                        assert(prev[i] == w as usize);
                    }
                }
            } else if w == n - 1 && kept.contains(w as usize) {
                let i = choose|i: int| 0 <= i < kept.len() && kept[i] == w as usize;
                assert(kept[i] < n - 1);
            }
        }
    }
}

/// A layout is determined by the wells it holds: two consistent layouts of the
/// same wells are the same, field by field. So the rebased sub-batch of a range of
/// wells is the batch that those wells give on their own.
pub proof fn lemma_beam_layout_determined_by_wells(a: FlatBeamBatch, b: FlatBeamBatch)
    requires
        a.wf(),
        b.wf(),
        a.ev_lens@.len() == b.ev_lens@.len(),
        forall|k: int| 0 <= k < a.ev_lens@.len() ==> #[trigger] a.well(k) == b.well(k),
    ensures
        a.gr@ == b.gr@,
        a.tw_tvt@ == b.tw_tvt@,
        a.tw_gr@ == b.tw_gr@,
        a.meta_u@ == b.meta_u@,
        a.meta_f@ == b.meta_f@,
        a.row_well@ == b.row_well@,
        a.ev_lens@ == b.ev_lens@,
        a.ev_offsets@ == b.ev_offsets@,
{
    let n = a.ev_lens@.len() as int;
    a.lemma_table_lengths();
    b.lemma_table_lengths();
    lemma_same_beam_lengths(a, b, n);
    assert(a.ev_lens@ =~= b.ev_lens@);
    assert(a.log_lens() =~= b.log_lens());
    assert forall|k: int| 0 <= k < n implies #[trigger] a.ev_offsets@[k] == b.ev_offsets@[k] by {
        a.lemma_well_in_bounds(k);
        b.lemma_well_in_bounds(k);
    }
    assert(a.ev_offsets@ =~= b.ev_offsets@);
    assert forall|r: int| 0 <= r < a.gr@.len() implies #[trigger] a.gr@[r] == b.gr@[r]
        && a.row_well@[r] == b.row_well@[r] by {
        let k = layout::lemma_row_has_owner(a.ev_lens@, n, r);
        let i = r - layout::before(a.ev_lens@, k);
        a.lemma_well_in_bounds(k);
        b.lemma_well_in_bounds(k);
        assert(a.well(k) == b.well(k));
        assert(a.well(k).gr[i] == a.gr@[r] && b.well(k).gr[i] == b.gr@[r]);
        assert(a.row_well@[r] == k && b.row_well@[r] == k) by {
            reveal(FlatBeamBatch::wf);
            assert(a.ev_lens@[k] > 0 && b.ev_lens@[k] > 0);
        }
    }
    assert(a.gr@ =~= b.gr@);
    assert forall|r: int| 0 <= r < a.gr@.len() implies #[trigger] a.row_well@[r]
        == b.row_well@[r] by {
        assert(a.gr@[r] == b.gr@[r]);
    }
    assert(a.row_well@ =~= b.row_well@);
    assert forall|r: int| 0 <= r < a.tw_tvt@.len() implies #[trigger] a.tw_tvt@[r] == b.tw_tvt@[r]
        && a.tw_gr@[r] == b.tw_gr@[r] by {
        let k = layout::lemma_row_has_owner(a.log_lens(), n, r);
        let i = r - layout::before(a.log_lens(), k);
        a.lemma_well_in_bounds(k);
        b.lemma_well_in_bounds(k);
        assert(a.well(k) == b.well(k));
        assert(a.well(k).tw_tvt[i] == a.tw_tvt@[r] && b.well(k).tw_tvt[i] == b.tw_tvt@[r]);
        assert(a.well(k).tw_gr[i] == a.tw_gr@[r] && b.well(k).tw_gr[i] == b.tw_gr@[r]);
    }
    assert(a.tw_tvt@ =~= b.tw_tvt@);
    assert forall|r: int| 0 <= r < a.tw_gr@.len() implies #[trigger] a.tw_gr@[r] == b.tw_gr@[r] by {
        assert(a.tw_tvt@[r] == b.tw_tvt@[r]);
    }
    assert(a.tw_gr@ =~= b.tw_gr@);
    assert forall|k: int| 0 <= k < n implies #[trigger] a.meta_f@[k] == b.meta_f@[k] by {
        assert(a.well(k) == b.well(k));
    }
    assert(a.meta_f@ =~= b.meta_f@);
    assert forall|j: int| 0 <= j < 4 * n implies #[trigger] a.meta_u@[j] == b.meta_u@[j] by {
        let k = j / 4;
        let c = j - 4 * k;
        a.lemma_well_in_bounds(k);
        b.lemma_well_in_bounds(k);
        assert(a.ev_offsets@[k] == b.ev_offsets@[k]);
        assert(c == 0 || c == 1 || c == 2 || c == 3);
    }
    assert(a.meta_u@ =~= b.meta_u@);
}

/// Equal wells have equal lengths.
proof fn lemma_same_beam_lengths(a: FlatBeamBatch, b: FlatBeamBatch, n: int)
    requires
        a.wf(),
        b.wf(),
        0 <= n <= a.ev_lens@.len(),
        a.ev_lens@.len() == b.ev_lens@.len(),
        forall|k: int| 0 <= k < a.ev_lens@.len() ==> #[trigger] a.well(k) == b.well(k),
    ensures
        forall|k: int| 0 <= k < n ==> #[trigger] a.ev_lens@[k] == b.ev_lens@[k],
        forall|k: int| 0 <= k < n ==> #[trigger] a.log_lens()[k] == b.log_lens()[k],
        layout::before(a.ev_lens@, n) == layout::before(b.ev_lens@, n),
        layout::before(a.log_lens(), n) == layout::before(b.log_lens(), n),
    decreases n,
{
    if n > 0 {
        lemma_same_beam_lengths(a, b, n - 1);
        a.lemma_well_in_bounds(n - 1);
        b.lemma_well_in_bounds(n - 1);
        assert(a.well(n - 1) == b.well(n - 1));
        assert(a.well(n - 1).gr.len() == a.ev_lens@[n - 1]);
        assert(b.well(n - 1).gr.len() == b.ev_lens@[n - 1]);
        assert(a.well(n - 1).tw_tvt.len() == a.log_lens()[n - 1]);
        assert(b.well(n - 1).tw_tvt.len() == b.log_lens()[n - 1]);
    }
}

// ---------------------------------------------------------------------------
// Smoothing planes
// ---------------------------------------------------------------------------

/// The distinct radii of the first `n` configurations, by first use.
pub open spec fn distinct_radii(configs: Seq<BeamConfig>, n: int) -> Seq<u32>
    decreases n,
{
    if n <= 0 {
        Seq::empty()
    } else {
        let prev = distinct_radii(configs, n - 1);
        if prev.contains(configs[n - 1].radius) {
            prev
        } else {
            prev.push(configs[n - 1].radius)
        }
    }
}

/// Position of `radius` among `radii`; their number where it is not there.
fn radius_position(radii: &Vec<u32>, radius: u32) -> (p: usize)
    ensures
        p <= radii@.len(),
        p < radii@.len() ==> radii@[p as int] == radius,
        p == radii@.len() ==> !radii@.contains(radius),
{
    let n = radii.len();
    let mut p: usize = 0;
    while p < n
        invariant
            p <= n,
            n == radii@.len(),
            forall|i: int| 0 <= i < p ==> radii@[i] != radius,
        decreases n - p,
    {
        if radii[p] == radius {
            return p;
        }
        p = p + 1;
    }
    p
}

/// The distinct smoothing radii used by an ensemble, plus, for each configuration,
/// the index of the smoothing plane it reads.
///
/// Configurations routinely share a radius, and smoothing is a whole-batch pass, so
/// it is computed once per distinct radius rather than once per configuration.
pub fn smoothing_planes(configs: &[BeamConfig]) -> (r: (Vec<u32>, Vec<u32>))
    requires
        configs@.len() <= u32::MAX,
    ensures
        r.0@ == distinct_radii(configs@, configs@.len() as int),
        r.1@.len() == configs@.len(),
        forall|c: int|
            0 <= c < configs@.len() ==> (#[trigger] r.1@[c]) < r.0@.len() && r.0@[r.1@[c] as int]
                == configs@[c].radius,
        r.0@.no_duplicates(),
        r.0@.len() <= configs@.len(),
        configs@.len() > 0 ==> r.0@.len() > 0,
{
    let mut radii: Vec<u32> = Vec::new();
    let mut plane: Vec<u32> = Vec::new();
    let n = configs.len();
    let mut c: usize = 0;
    while c < n
        invariant
            c <= n,
            n == configs@.len(),
            n <= u32::MAX,
            radii@ == distinct_radii(configs@, c as int),
            radii@.len() <= c,
            c > 0 ==> radii@.len() > 0,
            radii@.no_duplicates(),
            plane@.len() == c,
            forall|i: int|
                0 <= i < c ==> (#[trigger] plane@[i]) < radii@.len() && radii@[plane@[i] as int]
                    == configs@[i].radius,
        decreases n - c,
    {
        let radius = configs[c].radius;
        let p = radius_position(&radii, radius);
        if p == radii.len() {
            radii.push(radius);
        } else {
            assert(radii@.contains(radius));
        }
        plane.push(p as u32);
        c = c + 1;
    }
    (radii, plane)
}

/// Two configurations read the same plane exactly when they share a radius.
pub proof fn lemma_planes_are_shared(
    configs: Seq<BeamConfig>,
    radii: Seq<u32>,
    plane: Seq<u32>,
    c: int,
    d: int,
)
    requires
        radii == distinct_radii(configs, configs.len() as int),
        plane.len() == configs.len(),
        forall|i: int|
            0 <= i < configs.len() ==> (#[trigger] plane[i]) < radii.len() && radii[plane[i] as int]
                == configs[i].radius,
        0 <= c < configs.len(),
        0 <= d < configs.len(),
    ensures
        plane[c] == plane[d] <==> configs[c].radius == configs[d].radius,
{
    lemma_radii_distinct(configs, configs.len() as int);
}

/// No radius is smoothed twice.
proof fn lemma_radii_distinct(configs: Seq<BeamConfig>, n: int)
    ensures
        distinct_radii(configs, n).no_duplicates(),
    decreases n,
{
    if n > 0 {
        lemma_radii_distinct(configs, n - 1);
    }
}

// ---------------------------------------------------------------------------
// Output
// ---------------------------------------------------------------------------

/// Beam-search trajectories for a batch of wells.
#[derive(Debug, Clone)]
pub struct BeamOutput {
    /// Ensemble mean over configurations, one value per evaluation row.
    pub mean: Vec<u64>,
    /// Trajectories by configuration and row, present only when
    /// [`BeamOptions::with_per_config`] was set.
    pub per_config: Option<Vec<u64>>,
    /// Start of each well's rows within a trajectory.
    pub ev_offsets: Vec<u32>,
    /// Evaluation row count per well.
    pub ev_lens: Vec<u32>,
    /// Indices into the caller's wells of the wells actually searched: wells with an
    /// empty evaluation zone are dropped.
    pub kept: Vec<usize>,
}

impl BeamOutput {
    /// The offset tables agree with the lengths and cover the rows.
    pub open spec fn wf(self) -> bool {
        &&& self.ev_offsets@.len() == self.ev_lens@.len()
        &&& self.mean@.len() == layout::before(self.ev_lens@, self.ev_lens@.len() as int)
        &&& forall|k: int|
            0 <= k < self.ev_lens@.len() ==> #[trigger] self.ev_offsets@[k] == layout::before(
                self.ev_lens@,
                k,
            )
    }

    /// Rows of well `k` in a trajectory.
    pub open spec fn rows_of(self, trajectory: Seq<u64>, k: int) -> Seq<u64> {
        trajectory.subrange(
            layout::before(self.ev_lens@, k),
            layout::before(self.ev_lens@, k + 1),
        )
    }

    /// The trajectory of configuration `c`, where it is there.
    pub open spec fn config_of(self, c: int) -> Option<Seq<u64>> {
        match self.per_config {
            None => None,
            Some(pc) => if (c + 1) * self.mean@.len() <= pc@.len() {
                Some(pc@.subrange(c * self.mean@.len(), (c + 1) * self.mean@.len()))
            } else {
                None
            },
        }
    }

    /// Total evaluation rows across all wells.
    pub fn total_rows(&self) -> (r: usize)
        ensures
            r == self.mean@.len(),
    {
        self.mean.len()
    }

    /// One well's slice of the ensemble mean.
    pub fn well_mean(&self, well: usize) -> (r: Option<&[u64]>)
        requires
            self.wf(),
        ensures
            well < self.ev_lens@.len() ==> r is Some && r->0@ == self.rows_of(
                self.mean@,
                well as int,
            ),
            well >= self.ev_lens@.len() ==> r is None,
    {
        if well >= self.ev_lens.len() {
            return None;
        }
        proof {
            layout::lemma_before_monotone(self.ev_lens@, well + 1, self.ev_lens@.len() as int);
            layout::lemma_before_monotone(self.ev_lens@, 0, well as int);
        }
        let n: usize = self.mean.len();
        let off: usize = self.ev_offsets[well] as usize;
        let len: usize = self.ev_lens[well] as usize;
        assert(off + len <= n);
        Some(&self.mean[off..off + len])
    }

    /// All rows of one configuration's trajectory, or `None` if the trajectories
    /// were not asked for or there is no such configuration.
    pub fn config_rows(&self, config: usize) -> (r: Option<&[u64]>)
        requires
            self.per_config is Some ==> (config + 1) * self.mean@.len() <= usize::MAX,
        ensures
            match self.config_of(config as int) {
                Some(rows) => r is Some && r->0@ == rows,
                None => r is None,
            },
    {
        match &self.per_config {
            None => None,
            Some(pc) => {
                let n: usize = self.mean.len();
                proof {
                    let (c, k) = (config as int, n as int);
                    assert(0 <= c * k <= (c + 1) * k) by (nonlinear_arith)
                        requires
                            c >= 0,
                            k >= 0,
                    ;
                    assert((c + 1) * k == c * k + k) by (nonlinear_arith);
                }
                let a: usize = config * n;
                let b: usize = a + n;
                if b <= pc.len() {
                    Some(&pc[a..b])
                } else {
                    None
                }
            },
        }
    }

    /// One well's slice of one configuration's trajectory.
    pub fn well_config(&self, config: usize, well: usize) -> (r: Option<&[u64]>)
        requires
            self.wf(),
            self.per_config is Some ==> (config + 1) * self.mean@.len() <= usize::MAX,
        ensures
            match self.config_of(config as int) {
                Some(rows) => if well < self.ev_lens@.len() {
                    r is Some && r->0@ == self.rows_of(rows, well as int)
                } else {
                    r is None
                },
                None => r is None,
            },
    {
        match self.config_rows(config) {
            None => None,
            Some(rows) => {
                if well >= self.ev_lens.len() {
                    return None;
                }
                proof {
                    layout::lemma_before_monotone(
                        self.ev_lens@,
                        well + 1,
                        self.ev_lens@.len() as int,
                    );
                    layout::lemma_before_monotone(self.ev_lens@, 0, well as int);
                    let (c, k) = (config as int, self.mean@.len() as int);
                    assert(c * k >= 0 && (c + 1) * k == c * k + k) by (nonlinear_arith)
                        requires
                            c >= 0,
                            k >= 0,
                    ;
                    assert(rows@.len() == self.mean@.len());
                }
                let n: usize = self.mean.len();
                let off: usize = self.ev_offsets[well] as usize;
                let len: usize = self.ev_lens[well] as usize;
                assert(off + len <= n);
                Some(&rows[off..off + len])
            },
        }
    }
}

/// The wells' rows tile a trajectory: every row of it is in exactly the one well
/// that owns it, in order.
pub proof fn lemma_wells_tile_the_rows(out: BeamOutput, r: int) -> (k: int)
    requires
        out.wf(),
        0 <= r < out.mean@.len(),
    ensures
        0 <= k < out.ev_lens@.len(),
        out.ev_offsets@[k] <= r < out.ev_offsets@[k] + out.ev_lens@[k],
        forall|j: int|
            0 <= j < out.ev_lens@.len() && j != k ==> !(#[trigger] out.ev_offsets@[j] <= r
                < out.ev_offsets@[j] + out.ev_lens@[j]),
{
    let n = out.ev_lens@.len() as int;
    let k = layout::lemma_row_has_owner(out.ev_lens@, n, r);
    assert forall|j: int| 0 <= j < n && j != k implies !(#[trigger] out.ev_offsets@[j] <= r
        < out.ev_offsets@[j] + out.ev_lens@[j]) by {
        if j < k {
            layout::lemma_before_monotone(out.ev_lens@, j + 1, k);
        } else {
            layout::lemma_before_monotone(out.ev_lens@, k + 1, j);
        }
    }
    k
}

} // verus!
