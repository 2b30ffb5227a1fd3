//! The scenarios of the device backends, run through the planned kernels with this
//! machine's arithmetic.

use rog2_pf::beam::{BeamConfig, BeamOptions};
use rog2_pf::beam_host::is_beam_plannable;
use rog2_pf::beam_reference::{is_beam_runnable, run_beam_reference};
use rog2_pf::host::is_plannable;
use rog2_pf::reference::{is_runnable, run_reference};
use rog2_pf::synthetic::{synthetic_beam_well, synthetic_well};
use rog2_pf::{
    notebook_beam_configs, run_beam, run_pf, Arith, BeamOutput, BeamWellInput, PfConfig, PfError,
    PfOutput, WellInput,
};

/// The machine's own floating point.
struct Native;

fn f(x: u32) -> f32 {
    f32::from_bits(x)
}

fn d(x: u64) -> f64 {
    f64::from_bits(x)
}

impl Arith for Native {
    fn add32(&self, x: u32, y: u32) -> u32 {
        (f(x) + f(y)).to_bits()
    }
    fn sub32(&self, x: u32, y: u32) -> u32 {
        (f(x) - f(y)).to_bits()
    }
    fn mul32(&self, x: u32, y: u32) -> u32 {
        (f(x) * f(y)).to_bits()
    }
    fn div32(&self, x: u32, y: u32) -> u32 {
        (f(x) / f(y)).to_bits()
    }
    fn fma32(&self, x: u32, y: u32, z: u32) -> u32 {
        f(x).mul_add(f(y), f(z)).to_bits()
    }
    fn sqrt32(&self, x: u32) -> u32 {
        f(x).sqrt().to_bits()
    }
    fn ln32(&self, x: u32) -> u32 {
        f(x).ln().to_bits()
    }
    fn exp32(&self, x: u32) -> u32 {
        f(x).exp().to_bits()
    }
    fn pow2_32(&self, x: u32) -> u32 {
        f(x).exp2().to_bits()
    }
    fn sin32(&self, x: u32) -> u32 {
        f(x).sin().to_bits()
    }
    fn cos32(&self, x: u32) -> u32 {
        f(x).cos().to_bits()
    }
    fn round32(&self, x: u32) -> u32 {
        f(x).round().to_bits()
    }
    fn from_int32(&self, n: u64) -> u32 {
        (n as f32).to_bits()
    }
    fn to_int32(&self, x: u32) -> u64 {
        f(x) as u64
    }
    fn widen(&self, x: u32) -> u64 {
        (f(x) as f64).to_bits()
    }
    fn add64(&self, x: u64, y: u64) -> u64 {
        (d(x) + d(y)).to_bits()
    }
    fn sub64(&self, x: u64, y: u64) -> u64 {
        (d(x) - d(y)).to_bits()
    }
    fn mul64(&self, x: u64, y: u64) -> u64 {
        (d(x) * d(y)).to_bits()
    }
    fn div64(&self, x: u64, y: u64) -> u64 {
        (d(x) / d(y)).to_bits()
    }
    fn sqrt64(&self, x: u64) -> u64 {
        d(x).sqrt().to_bits()
    }
    fn from_int64(&self, n: u64) -> u64 {
        (n as f64).to_bits()
    }
    fn narrow(&self, x: u64) -> u32 {
        (d(x) as f32).to_bits()
    }
    fn show32(&self, x: u32) -> String {
        format!("{}", f(x))
    }
    fn show64(&self, x: u64) -> String {
        format!("{}", d(x))
    }
}

fn scales() -> Vec<u32> {
    [3.0f32, 8.0].iter().map(|s| s.to_bits()).collect()
}

fn small() -> PfConfig {
    PfConfig {
        n_particles: 32,
        n_seeds: 3,
        cube_dim: 16,
        ..PfConfig::default()
    }
}

fn wells(n: usize, rows: usize) -> Vec<WellInput> {
    (0..n)
        .map(|s| synthetic_well(&Native, s as u32 + 1, rows + 10 * s).0)
        .collect()
}

fn on_device(wells: &[WellInput], cfg: &PfConfig) -> Result<PfOutput, PfError> {
    assert!(is_plannable(wells, cfg, &scales()));
    run_pf(&Native, wells, cfg, &scales())
}

fn on_host(wells: &[WellInput], cfg: &PfConfig) -> Result<PfOutput, PfError> {
    assert!(is_runnable(wells, cfg, &scales()));
    run_reference(&Native, wells, cfg, &scales())
}

fn beam_on_device(
    wells: &[BeamWellInput],
    configs: &[BeamConfig],
    o: &BeamOptions,
) -> Result<BeamOutput, PfError> {
    assert!(is_beam_plannable(wells, configs));
    run_beam(&Native, wells, configs, o)
}

fn beam_on_host(
    wells: &[BeamWellInput],
    configs: &[BeamConfig],
    o: &BeamOptions,
) -> Result<BeamOutput, PfError> {
    assert!(is_beam_runnable(wells, configs));
    run_beam_reference(&Native, wells, configs, o)
}

fn worst_channel_dev(a: &PfOutput, b: &PfOutput) -> f32 {
    a.channels
        .iter()
        .map(|ch| {
            let (x, y) = (a.channel(ch).unwrap(), b.channel(ch).unwrap());
            x.iter()
                .zip(y)
                .map(|(p, q)| (f(*p) - f(*q)).abs())
                .fold(0.0f32, f32::max)
        })
        .fold(0.0f32, f32::max)
}

#[test]
fn hip_matches_reference() {
    let cfg = small();
    let wells: Vec<_> = (0..2)
        .map(|s| synthetic_well(&Native, s + 1, 40 + 10 * s as usize).0)
        .collect();

    let gpu = on_device(&wells, &cfg).expect("planned run");
    let cpu = on_host(&wells, &cfg).expect("reference run");

    assert_eq!(gpu.channels, cpu.channels);
    assert_eq!(gpu.ev_lens, cpu.ev_lens);

    for (i, (a, b)) in gpu.liks.iter().zip(&cpu.liks).enumerate() {
        let (a, b) = (f(*a), f(*b));
        let tol = 1e-3 * a.abs().max(1.0);
        assert!((a - b).abs() <= tol, "log-lik {i}: {a} vs reference {b}");
    }

    for ch in &gpu.channels {
        let a = gpu.channel(ch).unwrap();
        let b = cpu.channel(ch).unwrap();
        let worst = a
            .iter()
            .zip(b)
            .map(|(x, y)| (f(*x) - f(*y)).abs())
            .fold(0.0f32, f32::max);
        assert!(
            worst <= 1e-4,
            "channel {ch}: worst deviation {worst} exceeds 1e-4"
        );
    }
}

#[test]
fn hip_reruns_are_bit_identical() {
    let cfg = small();
    let wells: Vec<_> = (0..2)
        .map(|s| synthetic_well(&Native, s + 1, 40 + 10 * s as usize).0)
        .collect();

    let a = on_device(&wells, &cfg).expect("first run");
    let b = on_device(&wells, &cfg).expect("second run");

    assert_eq!(a.values, b.values, "output values differ between runs");
    assert_eq!(a.liks, b.liks, "log-likelihoods differ between runs");
}

#[test]
fn beam_backtrack_matches_reference_on_hip() {
    let configs = [
        BeamConfig::new(4, 20.0f64.to_bits(), 144.0f64.to_bits(), 2),
        BeamConfig::new(6, 8.0f64.to_bits(), 64.0f64.to_bits(), 0),
        BeamConfig::new(5, 12.0f64.to_bits(), 100.0f64.to_bits(), 3),
    ];
    let o = BeamOptions {
        cube_dim: 16,
        with_per_config: true,
        ..BeamOptions::default()
    };
    let wells: Vec<_> = (0..2)
        .map(|s| synthetic_beam_well(&Native, s + 1, 40 + 10 * s as usize).0)
        .collect();

    let gpu = beam_on_device(&wells, &configs, &o).expect("planned run");
    let cpu = beam_on_host(&wells, &configs, &o).expect("reference run");

    assert_eq!(gpu.ev_lens, cpu.ev_lens);
    assert_eq!(gpu.kept, cpu.kept);
    for c in 0..configs.len() {
        assert_eq!(
            gpu.config_rows(c).unwrap(),
            cpu.config_rows(c).unwrap(),
            "config {c} trajectory differs"
        );
    }
    assert_eq!(gpu.mean, cpu.mean);
}

#[test]
fn wgpu_matches_reference() {
    let cfg = small();
    let w = wells(2, 40);

    let gpu = on_device(&w, &cfg).expect("planned run");
    let cpu = on_host(&w, &cfg).expect("reference run");

    assert_eq!(gpu.channels, cpu.channels);
    assert_eq!(gpu.ev_lens, cpu.ev_lens);
    for (i, (a, b)) in gpu.liks.iter().zip(&cpu.liks).enumerate() {
        let (a, b) = (f(*a), f(*b));
        let tol = 1e-3 * a.abs().max(1.0);
        assert!((a - b).abs() <= tol, "log-lik {i}: {a} vs reference {b}");
    }
    let worst = worst_channel_dev(&gpu, &cpu);
    assert!(worst <= 1e-4, "worst channel deviation {worst} exceeds 1e-4");
}

/// A resample decision is discrete: once a rounding difference flips one boundary,
/// that seed's trajectory separates and stays separated, so what counts is how often
/// a seed diverges at all.
#[test]
fn wgpu_rarely_diverges_from_reference_across_seeds() {
    let mut diverged = 0usize;
    let mut total = 0usize;
    for well_seed in 1..=8u32 {
        let w = vec![synthetic_well(&Native, well_seed, 60).0];
        for n_particles in [128u32, 256, 500] {
            let cfg = PfConfig {
                n_particles,
                n_seeds: 8,
                cube_dim: 64,
                ..PfConfig::default()
            };
            let gpu = on_device(&w, &cfg).expect("planned run");
            let cpu = on_host(&w, &cfg).expect("reference run");
            for (a, b) in gpu.liks.iter().zip(&cpu.liks) {
                let (a, b) = (f(*a), f(*b));
                total += 1;
                if (a - b).abs() / a.abs().max(1.0) > 1e-4 {
                    diverged += 1;
                }
            }
        }
    }
    assert!(
        diverged * 5 <= total,
        "{diverged}/{total} seeds diverged from the reference"
    );
}

/// Seeds that trip no resample flip have to agree to single-precision noise.
#[test]
fn wgpu_agrees_to_f32_noise_when_no_resample_flips() {
    let cfg = PfConfig {
        n_particles: 500,
        n_seeds: 8,
        cube_dim: 64,
        resamp: 0.0f32.to_bits(), // never resample: no discrete decision to flip
        ..PfConfig::default()
    };
    let w = wells(2, 60);

    let gpu = on_device(&w, &cfg).expect("planned run");
    let cpu = on_host(&w, &cfg).expect("reference run");

    for (i, (a, b)) in gpu.liks.iter().zip(&cpu.liks).enumerate() {
        let (a, b) = (f(*a), f(*b));
        let rel = (a - b).abs() / a.abs().max(1.0);
        assert!(rel <= 1e-5, "log-lik {i}: {a} vs reference {b} (rel {rel:.2e})");
    }
    let worst = worst_channel_dev(&gpu, &cpu);
    assert!(worst <= 1e-3, "worst channel deviation {worst} exceeds 1e-3");
}

/// The filter must not depend on how the cloud is sliced across units.
#[test]
fn wgpu_is_stable_across_cube_dims() {
    let w = wells(1, 60);
    let base = PfConfig {
        n_particles: 128,
        n_seeds: 2,
        cube_dim: 64,
        ..PfConfig::default()
    };
    let cpu = on_host(&w, &base).expect("reference run");

    for cube_dim in [16u32, 32, 64, 128] {
        let cfg = PfConfig { cube_dim, ..base };
        let gpu = on_device(&w, &cfg).expect("planned run");
        let worst = worst_channel_dev(&gpu, &cpu);
        assert!(worst <= 1e-3, "cube_dim {cube_dim}: worst deviation {worst}");
    }
}

#[test]
fn wgpu_reruns_are_bit_identical() {
    let cfg = PfConfig {
        n_particles: 128,
        n_seeds: 4,
        cube_dim: 64,
        ..PfConfig::default()
    };
    let w = wells(2, 40);

    let a = on_device(&w, &cfg).expect("first run");
    let b = on_device(&w, &cfg).expect("second run");
    assert_eq!(a.values, b.values, "output values differ between runs");
    assert_eq!(a.liks, b.liks, "log-likelihoods differ between runs");
}

/// The beam search is deterministic, so it has to reproduce the reference exactly, at
/// the full ensemble.
#[test]
fn wgpu_beam_ensemble_matches_reference() {
    let configs = notebook_beam_configs();
    let o = BeamOptions {
        with_per_config: true,
        ..BeamOptions::default()
    };
    let w: Vec<_> = (0..4)
        .map(|s| synthetic_beam_well(&Native, s + 1, 300 + 37 * s as usize).0)
        .collect();

    let gpu = beam_on_device(&w, &configs, &o).expect("planned run");
    let cpu = beam_on_host(&w, &configs, &o).expect("reference run");

    assert_eq!(gpu.ev_lens, cpu.ev_lens);
    assert_eq!(gpu.kept, cpu.kept);
    for c in 0..configs.len() {
        assert_eq!(
            gpu.config_rows(c).unwrap(),
            cpu.config_rows(c).unwrap(),
            "config {c} trajectory differs"
        );
    }
    let worst = gpu
        .mean
        .iter()
        .zip(&cpu.mean)
        .map(|(a, b)| (d(*a) - d(*b)).abs())
        .fold(0.0f64, f64::max);
    assert!(worst <= 1e-12, "ensemble mean deviates by {worst}");
}
