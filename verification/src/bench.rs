//! Command lines of the benchmark programs.
use vstd::prelude::*;
use vstd::string::*;
use crate::backend;
use crate::backend::Backend;
use crate::beam::BeamConfig;
use crate::text;
use crate::text::parse_number;

verus! {

/// What is wrong with a command line.
#[derive(Debug, Clone, Copy, PartialEq, Eq, Structural)]
pub enum ArgIssue {
    /// The last argument needs a value.
    NeedsValue,
    /// The value names no backend.
    NotABackend,
    /// The value is not a number in range.
    NotANumber,
    /// The argument is not known.
    Unknown,
}

/// What is wrong with a command line, and the index of the argument it is about.
#[derive(Debug, Clone, Copy, PartialEq, Eq, Structural)]
pub struct ArgError {
    pub at: usize,
    pub issue: ArgIssue,
}

/// Arguments of the beam-search benchmark.
#[derive(Debug, Clone, Copy)]
pub struct BeamArgs {
    pub backend: Backend,
    pub wells: usize,
    pub rows: usize,
    pub cube_dim: u32,
    /// Overrides the width of every configuration.
    pub beam_size: Option<u32>,
    /// Also run on one processor, and compare.
    pub verify: bool,
    pub repeat: usize,
}

/// The beam-search benchmark without arguments.
pub open spec fn default_beam_args() -> BeamArgs {
    BeamArgs {
        backend: Backend::Auto,
        wells: 16,
        rows: 2000,
        cube_dim: 64,
        beam_size: None,
        verify: false,
        repeat: 1,
    }
}

impl Default for BeamArgs {
    fn default() -> (a: Self)
        ensures
            a == default_beam_args(),
    {
        BeamArgs {
            backend: Backend::Auto,
            wells: 16,
            rows: 2000,
            cube_dim: 64,
            beam_size: None,
            verify: false,
            repeat: 1,
        }
    }
}

/// Arguments of the particle-filter benchmark.
#[derive(Debug, Clone, Copy)]
pub struct PfArgs {
    pub backend: Backend,
    pub wells: usize,
    pub rows: usize,
    pub particles: u32,
    pub seeds: u32,
    pub cube_dim: u32,
    /// Also run on one processor, and compare.
    pub verify: bool,
    pub repeat: usize,
}

/// The particle-filter benchmark without arguments.
pub open spec fn default_pf_args() -> PfArgs {
    PfArgs {
        backend: Backend::Auto,
        wells: 16,
        rows: 2000,
        particles: 500,
        seeds: 128,
        cube_dim: 256,
        verify: false,
        repeat: 1,
    }
}

impl Default for PfArgs {
    fn default() -> (a: Self)
        ensures
            a == default_pf_args(),
    {
        PfArgs {
            backend: Backend::Auto,
            wells: 16,
            rows: 2000,
            particles: 500,
            seeds: 128,
            cube_dim: 256,
            verify: false,
            repeat: 1,
        }
    }
}

/// Whether argument `i` reads `flag`.
fn is_flag(argv: &[String], i: usize, flag: &str) -> (r: bool)
    requires
        i < argv@.len(),
    ensures
        r == (argv@[i as int]@ == flag@),
{
    argv[i] == String::from_str(flag)
}

/// The number behind argument `i`.
pub open spec fn number_at(argv: Seq<String>, i: int, max: nat) -> Result<nat, ArgError> {
    if i + 1 >= argv.len() {
        Err(ArgError { at: i as usize, issue: ArgIssue::NeedsValue })
    } else {
        match text::parsed(argv[i + 1]@, max) {
            Some(v) => Ok(v),
            None => Err(ArgError { at: i as usize, issue: ArgIssue::NotANumber }),
        }
    }
}

/// Reads the number behind argument `i`.
fn read_number(argv: &[String], i: usize, max: u64) -> (r: Result<u64, ArgError>)
    requires
        i < argv@.len(),
    ensures
        match number_at(argv@, i as int, max as nat) {
            Ok(v) => r == Ok::<u64, ArgError>(v as u64) && v <= max,
            Err(e) => r == Err::<u64, ArgError>(e),
        },
{
    if argv.len() - i <= 1 {
        return Err(ArgError { at: i, issue: ArgIssue::NeedsValue });
    }
    match parse_number(argv[i + 1].as_str(), max) {
        Some(v) => Ok(v),
        None => Err(ArgError { at: i, issue: ArgIssue::NotANumber }),
    }
}

/// The backend behind argument `i`.
pub open spec fn backend_at(argv: Seq<String>, i: int) -> Result<Backend, ArgError> {
    if i + 1 >= argv.len() {
        Err(ArgError { at: i as usize, issue: ArgIssue::NeedsValue })
    } else {
        match backend::named(backend::lowercase(argv[i + 1]@)) {
            Some(b) => Ok(b),
            None => Err(ArgError { at: i as usize, issue: ArgIssue::NotABackend }),
        }
    }
}

/// Reads the backend behind argument `i`.
fn read_backend(argv: &[String], i: usize) -> (r: Result<Backend, ArgError>)
    requires
        i < argv@.len(),
    ensures
        r == backend_at(argv@, i as int),
{
    if argv.len() - i <= 1 {
        return Err(ArgError { at: i, issue: ArgIssue::NeedsValue });
    }
    match Backend::from_str(argv[i + 1].as_str()) {
        Ok(b) => Ok(b),
        Err(_) => Err(ArgError { at: i, issue: ArgIssue::NotABackend }),
    }
}

/// The beam-search command line from argument `i` on, on top of `a`.
pub open spec fn beam_args_from(argv: Seq<String>, i: int, a: BeamArgs) -> Result<
    BeamArgs,
    ArgError,
>
    decreases argv.len() - i,
{
    if i < 0 || i >= argv.len() {
        Ok(a)
    } else if argv[i]@ == "--backend"@ {
        match backend_at(argv, i) {
            Ok(backend) => beam_args_from(argv, i + 2, BeamArgs { backend, ..a }),
            Err(e) => Err(e),
        }
    } else if argv[i]@ == "--wells"@ {
        match number_at(argv, i, usize::MAX as nat) {
            Ok(v) => beam_args_from(argv, i + 2, BeamArgs { wells: v as usize, ..a }),
            Err(e) => Err(e),
        }
    } else if argv[i]@ == "--rows"@ {
        match number_at(argv, i, usize::MAX as nat) {
            Ok(v) => beam_args_from(argv, i + 2, BeamArgs { rows: v as usize, ..a }),
            Err(e) => Err(e),
        }
    } else if argv[i]@ == "--cube-dim"@ {
        match number_at(argv, i, u32::MAX as nat) {
            Ok(v) => beam_args_from(argv, i + 2, BeamArgs { cube_dim: v as u32, ..a }),
            Err(e) => Err(e),
        }
    } else if argv[i]@ == "--beam-size"@ {
        match number_at(argv, i, u32::MAX as nat) {
            Ok(v) => beam_args_from(argv, i + 2, BeamArgs { beam_size: Some(v as u32), ..a }),
            Err(e) => Err(e),
        }
    } else if argv[i]@ == "--repeat"@ {
        match number_at(argv, i, usize::MAX as nat) {
            Ok(v) => beam_args_from(argv, i + 2, BeamArgs { repeat: v as usize, ..a }),
            Err(e) => Err(e),
        }
    } else if argv[i]@ == "--verify"@ {
        beam_args_from(argv, i + 1, BeamArgs { verify: true, ..a })
    } else {
        Err(ArgError { at: i as usize, issue: ArgIssue::Unknown })
    }
}

/// Reads the command line of the beam-search benchmark.
pub fn parse_beam_args(argv: &[String]) -> (r: Result<BeamArgs, ArgError>)
    ensures
        r == beam_args_from(argv@, 0, default_beam_args()),
{
    let mut a = BeamArgs::default();
    let n = argv.len();
    let mut i: usize = 0;
    while i < n
        invariant
            i <= n,
            n == argv@.len(),
            beam_args_from(argv@, 0, default_beam_args()) == beam_args_from(argv@, i as int, a),
        decreases n - i,
    {
        if is_flag(argv, i, "--backend") {
            match read_backend(argv, i) {
                Ok(b) => {
                    a.backend = b;
                },
                Err(e) => {
                    return Err(e);
                },
            }
            i = i + 2;
        } else if is_flag(argv, i, "--wells") {
            match read_number(argv, i, usize::MAX as u64) {
                Ok(v) => {
                    a.wells = v as usize;
                },
                Err(e) => {
                    return Err(e);
                },
            }
            i = i + 2;
        } else if is_flag(argv, i, "--rows") {
            match read_number(argv, i, usize::MAX as u64) {
                Ok(v) => {
                    a.rows = v as usize;
                },
                Err(e) => {
                    return Err(e);
                },
            }
            i = i + 2;
        } else if is_flag(argv, i, "--cube-dim") {
            match read_number(argv, i, u32::MAX as u64) {
                Ok(v) => {
                    a.cube_dim = v as u32;
                },
                Err(e) => {
                    return Err(e);
                },
            }
            i = i + 2;
        } else if is_flag(argv, i, "--beam-size") {
            match read_number(argv, i, u32::MAX as u64) {
                Ok(v) => {
                    a.beam_size = Some(v as u32);
                },
                Err(e) => {
                    return Err(e);
                },
            }
            i = i + 2;
        } else if is_flag(argv, i, "--repeat") {
            match read_number(argv, i, usize::MAX as u64) {
                Ok(v) => {
                    a.repeat = v as usize;
                },
                Err(e) => {
                    return Err(e);
                },
            }
            i = i + 2;
        } else if is_flag(argv, i, "--verify") {
            a.verify = true;
            i = i + 1;
        } else {
            return Err(ArgError { at: i, issue: ArgIssue::Unknown });
        }
    }
    Ok(a)
}

/// The particle-filter command line from argument `i` on, on top of `a`.
pub open spec fn pf_args_from(argv: Seq<String>, i: int, a: PfArgs) -> Result<PfArgs, ArgError>
    decreases argv.len() - i,
{
    if i < 0 || i >= argv.len() {
        Ok(a)
    } else if argv[i]@ == "--backend"@ {
        match backend_at(argv, i) {
            Ok(backend) => pf_args_from(argv, i + 2, PfArgs { backend, ..a }),
            Err(e) => Err(e),
        }
    } else if argv[i]@ == "--wells"@ {
        match number_at(argv, i, usize::MAX as nat) {
            Ok(v) => pf_args_from(argv, i + 2, PfArgs { wells: v as usize, ..a }),
            Err(e) => Err(e),
        }
    } else if argv[i]@ == "--rows"@ {
        match number_at(argv, i, usize::MAX as nat) {
            Ok(v) => pf_args_from(argv, i + 2, PfArgs { rows: v as usize, ..a }),
            Err(e) => Err(e),
        }
    } else if argv[i]@ == "--particles"@ {
        match number_at(argv, i, u32::MAX as nat) {
            Ok(v) => pf_args_from(argv, i + 2, PfArgs { particles: v as u32, ..a }),
            Err(e) => Err(e),
        }
    } else if argv[i]@ == "--seeds"@ {
        match number_at(argv, i, u32::MAX as nat) {
            Ok(v) => pf_args_from(argv, i + 2, PfArgs { seeds: v as u32, ..a }),
            Err(e) => Err(e),
        }
    } else if argv[i]@ == "--cube-dim"@ {
        match number_at(argv, i, u32::MAX as nat) {
            Ok(v) => pf_args_from(argv, i + 2, PfArgs { cube_dim: v as u32, ..a }),
            Err(e) => Err(e),
        }
    } else if argv[i]@ == "--repeat"@ {
        match number_at(argv, i, usize::MAX as nat) {
            Ok(v) => pf_args_from(argv, i + 2, PfArgs { repeat: v as usize, ..a }),
            Err(e) => Err(e),
        }
    } else if argv[i]@ == "--verify"@ {
        pf_args_from(argv, i + 1, PfArgs { verify: true, ..a })
    } else {
        Err(ArgError { at: i as usize, issue: ArgIssue::Unknown })
    }
}

/// Reads the command line of the particle-filter benchmark.
pub fn parse_pf_args(argv: &[String]) -> (r: Result<PfArgs, ArgError>)
    ensures
        r == pf_args_from(argv@, 0, default_pf_args()),
{
    let mut a = PfArgs::default();
    let n = argv.len();
    let mut i: usize = 0;
    while i < n
        invariant
            i <= n,
            n == argv@.len(),
            pf_args_from(argv@, 0, default_pf_args()) == pf_args_from(argv@, i as int, a),
        decreases n - i,
    {
        if is_flag(argv, i, "--backend") {
            match read_backend(argv, i) {
                Ok(b) => {
                    a.backend = b;
                },
                Err(e) => {
                    return Err(e);
                },
            }
            i = i + 2;
        } else if is_flag(argv, i, "--wells") {
            match read_number(argv, i, usize::MAX as u64) {
                Ok(v) => {
                    a.wells = v as usize;
                },
                Err(e) => {
                    return Err(e);
                },
            }
            i = i + 2;
        } else if is_flag(argv, i, "--rows") {
            match read_number(argv, i, usize::MAX as u64) {
                Ok(v) => {
                    a.rows = v as usize;
                },
                Err(e) => {
                    return Err(e);
                },
            }
            i = i + 2;
        } else if is_flag(argv, i, "--particles") {
            match read_number(argv, i, u32::MAX as u64) {
                Ok(v) => {
                    a.particles = v as u32;
                },
                Err(e) => {
                    return Err(e);
                },
            }
            i = i + 2;
        } else if is_flag(argv, i, "--seeds") {
            match read_number(argv, i, u32::MAX as u64) {
                Ok(v) => {
                    a.seeds = v as u32;
                },
                Err(e) => {
                    return Err(e);
                },
            }
            i = i + 2;
        } else if is_flag(argv, i, "--cube-dim") {
            match read_number(argv, i, u32::MAX as u64) {
                Ok(v) => {
                    a.cube_dim = v as u32;
                },
                Err(e) => {
                    return Err(e);
                },
            }
            i = i + 2;
        } else if is_flag(argv, i, "--repeat") {
            match read_number(argv, i, usize::MAX as u64) {
                Ok(v) => {
                    a.repeat = v as usize;
                },
                Err(e) => {
                    return Err(e);
                },
            }
            i = i + 2;
        } else if is_flag(argv, i, "--verify") {
            a.verify = true;
            i = i + 1;
        } else {
            return Err(ArgError { at: i, issue: ArgIssue::Unknown });
        }
    }
    Ok(a)
}

/// The configurations of a benchmark: `configs`, every beam as wide as asked for.
pub fn bench_configs(configs: &[BeamConfig], beam_size: Option<u32>) -> (r: Vec<BeamConfig>)
    ensures
        r@.len() == configs@.len(),
        forall|c: int|
            0 <= c < configs@.len() ==> #[trigger] r@[c] == match beam_size {
                Some(bs) => BeamConfig { beam_size: bs, ..configs@[c] },
                None => configs@[c],
            },
{
    let n = configs.len();
    let mut r: Vec<BeamConfig> = Vec::new();
    let mut c: usize = 0;
    while c < n
        invariant
            c <= n,
            n == configs@.len(),
            r@.len() == c,
            forall|d: int|
                0 <= d < c ==> #[trigger] r@[d] == match beam_size {
                    Some(bs) => BeamConfig { beam_size: bs, ..configs@[d] },
                    None => configs@[d],
                },
        decreases n - c,
    {
        let cfg = configs[c];
        r.push(
            match beam_size {
                Some(bs) => BeamConfig { beam_size: bs, ..cfg },
                None => cfg,
            },
        );
        c = c + 1;
    }
    r
}

} // verus!
