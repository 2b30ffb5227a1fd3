//! Errors of the drivers, and their messages.
use vstd::prelude::*;
use vstd::string::*;
use crate::arith;
use crate::arith::Arith;
use crate::text;
use crate::text::push_decimal;

verus! {

/// What a configuration or a batch violates. Float values are carried as their
/// bit patterns.
#[derive(Debug, Clone, PartialEq, Eq)]
pub enum ConfigIssue {
    /// `cube_dim` is zero or not a power of two.
    CubeDim { cube_dim: u32 },
    /// `n_particles` is zero.
    NoParticles,
    /// `n_seeds` is zero.
    NoSeeds,
    /// More particles than the shared memory is sized for.
    Capacity { n_particles: u32, capacity: usize },
    /// The evaluation logs of a well differ in length.
    WellLengths { well: usize, md: usize, z: usize, gr: usize },
    /// A type-well grid of fewer than two samples.
    GridLength { well: usize, len: usize },
    /// A grid spacing that is not a positive number.
    GridStep { well: usize, step: u32 },
    /// A mismatch sigma that is not a positive number.
    Sigma { well: usize, gs: u32 },
    /// No beam configuration at all.
    NoBeamConfigs,
    /// A beam of width zero.
    BeamSize { config: usize },
    /// An error scale that is not a positive number.
    ErrScale { config: usize, err_scale: u64 },
    /// A move cost that is not a non-negative number.
    MoveCost { config: usize, move_cost: u64 },
    /// A smoothing radius above the cap.
    Radius { config: usize, radius: u32 },
    /// Type-well depths and values differ in length.
    LogLengths { well: usize, tw_tvt: usize, tw_gr: usize },
    /// A type-well log without samples.
    EmptyLog { well: usize },
    /// A start depth that is not a finite number.
    LastTvt { well: usize, last_tvt: u64 },
    /// A backend name that is not known.
    UnknownBackend { name: String },
}

/// Errors surfaced by the drivers.
#[derive(Debug, Clone, PartialEq, Eq)]
pub enum PfError {
    /// The batch or configuration violates an invariant the kernels rely on.
    Config(ConfigIssue),
    /// A device operation failed.
    Device(String),
    /// No backend was built in, or none could be initialised.
    NoBackend(String),
}

/// A text quoted and escaped the way debug formatting does it.
pub uninterp spec fn debug_quoted(s: Seq<char>) -> Seq<char>;

/// A text quoted and escaped.
///
/// Trusted: `format!` of the standard library with the debug placeholder for `str`.
/// What it escapes is left unsaid; the result is given a name.
#[verifier::external_body]
fn debug_text(s: &str) -> (r: String)
    ensures
        r@ == debug_quoted(s@),
{
    format!("{:?}", s)
}

impl ConfigIssue {
    /// The message.
    pub open spec fn text<A: Arith>(self, m: A) -> Seq<char> {
        match self {
            ConfigIssue::CubeDim { cube_dim } => {
                "cube_dim must be a non-zero power of two, got "@ + text::decimal(cube_dim as nat)
            },
            ConfigIssue::NoParticles => "n_particles must be > 0"@,
            ConfigIssue::NoSeeds => "n_seeds must be > 0"@,
            ConfigIssue::Capacity { n_particles, capacity } => {
                "n_particles "@ + text::decimal(n_particles as nat)
                    + " exceeds shared-memory capacity "@ + text::decimal(capacity as nat)
            },
            ConfigIssue::WellLengths { well, md, z, gr } => {
                "well "@ + text::decimal(well as nat) + ": md/z/gr length mismatch ("@
                    + text::decimal(md as nat) + ", "@ + text::decimal(z as nat) + ", "@
                    + text::decimal(gr as nat) + ")"@
            },
            ConfigIssue::GridLength { well, len } => {
                "well "@ + text::decimal(well as nat) + ": GR grid needs at least 2 samples, got "@
                    + text::decimal(len as nat)
            },
            ConfigIssue::GridStep { well, step } => {
                "well "@ + text::decimal(well as nat) + ": grid step must be positive, got "@
                    + arith::shown32(m, step)
            },
            ConfigIssue::Sigma { well, gs } => {
                "well "@ + text::decimal(well as nat) + ": gr sigma must be positive, got "@
                    + arith::shown32(m, gs)
            },
            ConfigIssue::NoBeamConfigs => "at least one beam config is required"@,
            ConfigIssue::BeamSize { config } => {
                "beam config "@ + text::decimal(config as nat) + ": beam_size must be > 0"@
            },
            ConfigIssue::ErrScale { config, err_scale } => {
                "beam config "@ + text::decimal(config as nat)
                    + ": err_scale must be positive, got "@ + arith::shown64(m, err_scale)
            },
            ConfigIssue::MoveCost { config, move_cost } => {
                "beam config "@ + text::decimal(config as nat)
                    + ": move_cost must be non-negative, got "@ + arith::shown64(m, move_cost)
            },
            ConfigIssue::Radius { config, radius } => {
                "beam config "@ + text::decimal(config as nat) + ": radius must be <= 64, got "@
                    + text::decimal(radius as nat)
            },
            ConfigIssue::LogLengths { well, tw_tvt, tw_gr } => {
                "beam well "@ + text::decimal(well as nat) + ": tw_tvt/tw_gr length mismatch ("@
                    + text::decimal(tw_tvt as nat) + ", "@ + text::decimal(tw_gr as nat) + ")"@
            },
            ConfigIssue::EmptyLog { well } => {
                "beam well "@ + text::decimal(well as nat) + ": the type-well log is empty"@
            },
            ConfigIssue::LastTvt { well, last_tvt } => {
                "beam well "@ + text::decimal(well as nat) + ": last_tvt must be finite, got "@
                    + arith::shown64(m, last_tvt)
            },
            ConfigIssue::UnknownBackend { name } => "unknown backend "@ + debug_quoted(name@),
        }
    }

    /// Whether the message shows a float.
    pub open spec fn shows_float(self) -> bool {
        match self {
            ConfigIssue::GridStep { .. } => true,
            ConfigIssue::Sigma { .. } => true,
            ConfigIssue::ErrScale { .. } => true,
            ConfigIssue::MoveCost { .. } => true,
            ConfigIssue::LastTvt { .. } => true,
            _ => false,
        }
    }

    /// The message.
    pub fn message<A: Arith>(&self, m: &A) -> (r: String)
        ensures
            arith::deterministic(*m) || !self.shows_float() ==> r@ == self.text(*m),
    {
        let mut s = String::new();
        let ghost empty = s@;
        match self {
            ConfigIssue::CubeDim { cube_dim } => {
                s.append("cube_dim must be a non-zero power of two, got ");
                push_decimal(&mut s, *cube_dim as u64);
            },
            ConfigIssue::NoParticles => {
                s.append("n_particles must be > 0");
            },
            ConfigIssue::NoSeeds => {
                s.append("n_seeds must be > 0");
            },
            ConfigIssue::Capacity { n_particles, capacity } => {
                s.append("n_particles ");
                push_decimal(&mut s, *n_particles as u64);
                s.append(" exceeds shared-memory capacity ");
                push_decimal(&mut s, *capacity as u64);
            },
            ConfigIssue::WellLengths { well, md, z, gr } => {
                s.append("well ");
                push_decimal(&mut s, *well as u64);
                s.append(": md/z/gr length mismatch (");
                push_decimal(&mut s, *md as u64);
                s.append(", ");
                push_decimal(&mut s, *z as u64);
                s.append(", ");
                push_decimal(&mut s, *gr as u64);
                s.append(")");
            },
            ConfigIssue::GridLength { well, len } => {
                s.append("well ");
                push_decimal(&mut s, *well as u64);
                s.append(": GR grid needs at least 2 samples, got ");
                push_decimal(&mut s, *len as u64);
            },
            ConfigIssue::GridStep { well, step } => {
                s.append("well ");
                push_decimal(&mut s, *well as u64);
                s.append(": grid step must be positive, got ");
                let shown = arith::show32(m, *step);
                s.append(shown.as_str());
            },
            ConfigIssue::Sigma { well, gs } => {
                s.append("well ");
                push_decimal(&mut s, *well as u64);
                s.append(": gr sigma must be positive, got ");
                let shown = arith::show32(m, *gs);
                s.append(shown.as_str());
            },
            ConfigIssue::NoBeamConfigs => {
                s.append("at least one beam config is required");
            },
            ConfigIssue::BeamSize { config } => {
                s.append("beam config ");
                push_decimal(&mut s, *config as u64);
                s.append(": beam_size must be > 0");
            },
            ConfigIssue::ErrScale { config, err_scale } => {
                s.append("beam config ");
                push_decimal(&mut s, *config as u64);
                s.append(": err_scale must be positive, got ");
                let shown = arith::show64(m, *err_scale);
                s.append(shown.as_str());
            },
            ConfigIssue::MoveCost { config, move_cost } => {
                s.append("beam config ");
                push_decimal(&mut s, *config as u64);
                s.append(": move_cost must be non-negative, got ");
                let shown = arith::show64(m, *move_cost);
                s.append(shown.as_str());
            },
            ConfigIssue::Radius { config, radius } => {
                s.append("beam config ");
                push_decimal(&mut s, *config as u64);
                s.append(": radius must be <= 64, got ");
                push_decimal(&mut s, *radius as u64);
            },
            ConfigIssue::LogLengths { well, tw_tvt, tw_gr } => {
                s.append("beam well ");
                push_decimal(&mut s, *well as u64);
                s.append(": tw_tvt/tw_gr length mismatch (");
                push_decimal(&mut s, *tw_tvt as u64);
                s.append(", ");
                push_decimal(&mut s, *tw_gr as u64);
                s.append(")");
            },
            ConfigIssue::EmptyLog { well } => {
                s.append("beam well ");
                push_decimal(&mut s, *well as u64);
                s.append(": the type-well log is empty");
            },
            ConfigIssue::LastTvt { well, last_tvt } => {
                s.append("beam well ");
                push_decimal(&mut s, *well as u64);
                s.append(": last_tvt must be finite, got ");
                let shown = arith::show64(m, *last_tvt);
                s.append(shown.as_str());
            },
            ConfigIssue::UnknownBackend { name } => {
                s.append("unknown backend ");
                let q = debug_text(name.as_str());
                s.append(q.as_str());
            },
        }
        proof {
            if arith::deterministic(*m) || !self.shows_float() {
                assert(s@ =~= self.text(*m));
            }
        }
        s
    }
}

impl PfError {
    /// The message.
    pub open spec fn text<A: Arith>(self, m: A) -> Seq<char> {
        match self {
            PfError::Config(e) => "invalid particle-filter configuration: "@ + e.text(m),
            PfError::Device(e) => "device error: "@ + e@,
            PfError::NoBackend(e) => "no usable backend: "@ + e@,
        }
    }

    /// The message.
    pub fn message<A: Arith>(&self, m: &A) -> (r: String)
        ensures
            arith::deterministic(*m) || !(self is Config && self->Config_0.shows_float()) ==> r@
                == self.text(*m),
    {
        match self {
            PfError::Config(e) => {
                let mut s = String::from_str("invalid particle-filter configuration: ");
                let t = e.message(m);
                s.append(t.as_str());
                s
            },
            PfError::Device(e) => {
                let mut s = String::from_str("device error: ");
                s.append(e.as_str());
                s
            },
            PfError::NoBackend(e) => {
                let mut s = String::from_str("no usable backend: ");
                s.append(e.as_str());
                s
            },
        }
    }
}

} // verus!
