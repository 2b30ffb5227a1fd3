//! The kernels of the particle filter must agree with the run on one processor.
//!
//! The configurations are small, so that every case stays quick.

use rog2_pf::filter::Formulas;
use rog2_pf::host::is_plannable;
use rog2_pf::reference::{
    is_runnable, run_reference, run_reference_with, run_single, run_single_with,
};
use rog2_pf::synthetic::{rmse, synthetic_well};
use rog2_pf::{run_pf, Arith, PfConfig, PfError, PfOutput, WellInput};

/// The machine's own floating point.
struct Native;

fn f(x: u32) -> f32 {
    f32::from_bits(x)
}

fn d(x: u64) -> f64 {
    f64::from_bits(x)
}

impl Arith for Native {
    fn add32(&self, x: u32, y: u32) -> u32 {
        (f(x) + f(y)).to_bits()
    }
    fn sub32(&self, x: u32, y: u32) -> u32 {
        (f(x) - f(y)).to_bits()
    }
    fn mul32(&self, x: u32, y: u32) -> u32 {
        (f(x) * f(y)).to_bits()
    }
    fn div32(&self, x: u32, y: u32) -> u32 {
        (f(x) / f(y)).to_bits()
    }
    fn fma32(&self, x: u32, y: u32, z: u32) -> u32 {
        f(x).mul_add(f(y), f(z)).to_bits()
    }
    fn sqrt32(&self, x: u32) -> u32 {
        f(x).sqrt().to_bits()
    }
    fn ln32(&self, x: u32) -> u32 {
        f(x).ln().to_bits()
    }
    fn exp32(&self, x: u32) -> u32 {
        f(x).exp().to_bits()
    }
    fn pow2_32(&self, x: u32) -> u32 {
        f(x).exp2().to_bits()
    }
    fn sin32(&self, x: u32) -> u32 {
        f(x).sin().to_bits()
    }
    fn cos32(&self, x: u32) -> u32 {
        f(x).cos().to_bits()
    }
    fn round32(&self, x: u32) -> u32 {
        f(x).round().to_bits()
    }
    fn from_int32(&self, n: u64) -> u32 {
        (n as f32).to_bits()
    }
    fn to_int32(&self, x: u32) -> u64 {
        f(x) as u64
    }
    fn widen(&self, x: u32) -> u64 {
        (f(x) as f64).to_bits()
    }
    fn add64(&self, x: u64, y: u64) -> u64 {
        (d(x) + d(y)).to_bits()
    }
    fn sub64(&self, x: u64, y: u64) -> u64 {
        (d(x) - d(y)).to_bits()
    }
    fn mul64(&self, x: u64, y: u64) -> u64 {
        (d(x) * d(y)).to_bits()
    }
    fn div64(&self, x: u64, y: u64) -> u64 {
        (d(x) / d(y)).to_bits()
    }
    fn sqrt64(&self, x: u64) -> u64 {
        d(x).sqrt().to_bits()
    }
    fn from_int64(&self, n: u64) -> u64 {
        (n as f64).to_bits()
    }
    fn narrow(&self, x: u64) -> u32 {
        (d(x) as f32).to_bits()
    }
    fn show32(&self, x: u32) -> String {
        format!("{}", f(x))
    }
    fn show64(&self, x: u64) -> String {
        format!("{}", d(x))
    }
}

fn cfg() -> PfConfig {
    PfConfig {
        n_particles: 32,
        n_seeds: 3,
        cube_dim: 16,
        ..PfConfig::default()
    }
}

fn scales() -> Vec<u32> {
    [3.0f32, 8.0].iter().map(|s| s.to_bits()).collect()
}

fn on_device(wells: &[WellInput], cfg: &PfConfig) -> Result<PfOutput, PfError> {
    assert!(is_plannable(wells, cfg, &scales()));
    run_pf(&Native, wells, cfg, &scales())
}

fn on_host(wells: &[WellInput], cfg: &PfConfig) -> Result<PfOutput, PfError> {
    assert!(is_runnable(wells, cfg, &scales()));
    run_reference(&Native, wells, cfg, &scales())
}

fn wells(n: usize, rows: usize) -> Vec<WellInput> {
    (0..n)
        .map(|s| synthetic_well(&Native, s as u32 + 1, rows + 10 * s).0)
        .collect()
}

fn worst(a: &[u32], b: &[u32]) -> f32 {
    a.iter()
        .zip(b)
        .map(|(x, y)| (f(*x) - f(*y)).abs())
        .fold(0.0f32, f32::max)
}

#[test]
fn parity_kernel_matches_reference_on_cpu_runtime() {
    let cfg = cfg();
    let wells: Vec<_> = (0..2)
        .map(|s| synthetic_well(&Native, s + 1, 40 + 10 * s as usize).0)
        .collect();

    let gpu = on_device(&wells, &cfg).expect("kernel run");
    let cpu = on_host(&wells, &cfg).expect("reference run");

    assert_eq!(gpu.channels, cpu.channels);
    assert_eq!(gpu.ev_lens, cpu.ev_lens);

    // Log-likelihoods accumulate one term per step, so compare relatively.
    for (i, (a, b)) in gpu.liks.iter().zip(&cpu.liks).enumerate() {
        let (a, b) = (f(*a), f(*b));
        let tol = 1e-3 * a.abs().max(1.0);
        assert!(
            (a - b).abs() <= tol,
            "log-lik {i}: kernel {a} vs reference {b}"
        );
    }

    for ch in &gpu.channels {
        let a = gpu.channel(ch).unwrap();
        let b = cpu.channel(ch).unwrap();
        let worst = worst(a, b);
        assert!(worst < 1e-2, "channel {ch}: max abs diff {worst}");
    }
}

#[test]
fn parity_reruns_are_bit_identical() {
    let cfg = cfg();
    let wells = vec![synthetic_well(&Native, 7, 40).0];
    let a = on_device(&wells, &cfg).unwrap();
    let b = on_device(&wells, &cfg).unwrap();
    assert_eq!(a.values, b.values);
    assert_eq!(a.liks, b.liks);
}

/// Changing `cube_dim` changes the reduction tree and the chunking, so results
/// shift slightly, but the trajectory must stay the same to within noise.
#[test]
fn cube_dim_does_not_change_the_answer_materially() {
    let base = PfConfig {
        n_particles: 32,
        n_seeds: 3,
        cube_dim: 8,
        ..PfConfig::default()
    };
    let wide = PfConfig {
        cube_dim: 32,
        ..base
    };
    let wells = vec![synthetic_well(&Native, 5, 60).0];

    let a = on_device(&wells, &base).unwrap();
    let b = on_device(&wells, &wide).unwrap();

    let x = a.channel("pf_scale_3").unwrap();
    let y = b.channel("pf_scale_3").unwrap();
    let d = f(rmse(&Native, x, y));
    assert!(d < 3.0, "cube_dim changed pf_scale_3 by RMSE {d}");
}

#[test]
fn parity_empty_wells_are_dropped_not_fatal() {
    let cfg = cfg();
    let mut wells = vec![synthetic_well(&Native, 3, 30).0];
    let mut empty = synthetic_well(&Native, 4, 30).0;
    empty.md.clear();
    empty.z.clear();
    empty.gr.clear();
    wells.insert(0, empty);

    let out = on_device(&wells, &cfg).unwrap();
    assert_eq!(out.kept, vec![1]);
    assert_eq!(out.ev_lens, vec![30]);
}

#[test]
fn parity_rejects_a_non_power_of_two_cube_dim() {
    let cfg = PfConfig {
        cube_dim: 100,
        ..PfConfig::default()
    };
    let wells = vec![synthetic_well(&Native, 1, 10).0];
    assert!(on_device(&wells, &cfg).is_err());
}

/// The filter must actually track: with enough particles it should beat the
/// last-known-value baseline on a drifting synthetic well.
#[test]
fn filter_beats_the_last_known_baseline() {
    let cfg = PfConfig {
        n_particles: 256,
        n_seeds: 16,
        cube_dim: 64,
        ..PfConfig::default()
    };
    let (well, truth) = synthetic_well(&Native, 11, 600);
    let out = on_host(std::slice::from_ref(&well), &cfg).unwrap();

    let pred = out.well_channel("pf_scale_3", 0).unwrap();
    let baseline = vec![(f(well.ls) - f(well.z[0])).to_bits(); truth.len()];

    let pf = f(rmse(&Native, pred, &truth));
    let base = f(rmse(&Native, &baseline, &truth));
    assert!(
        pf < base,
        "particle filter RMSE {pf} should beat last-known baseline {base}"
    );
}

/// A chunked run is the run in one launch, value for value.
#[test]
fn chunking_changes_nothing() {
    let whole = PfConfig {
        with_std: true,
        with_seed_paths: true,
        ..cfg()
    };
    let cut = PfConfig {
        pred_budget_bytes: 1,
        ..whole
    };
    let w = wells(3, 12);
    let a = on_device(&w, &whole).unwrap();
    let b = on_device(&w, &cut).unwrap();
    assert_eq!(a.channels, b.channels);
    assert_eq!(a.values, b.values);
    assert_eq!(a.liks, b.liks);
    assert_eq!(a.seed_paths, b.seed_paths);
    assert_eq!(a.ev_offsets, b.ev_offsets);
}

/// What was not asked for is not there; what was is, in its place.
#[test]
fn optional_outputs_come_when_asked_for() {
    let plain = cfg();
    let full = PfConfig {
        with_std: true,
        with_seed_paths: true,
        ..plain
    };
    let w = wells(2, 12);
    for run in [on_device(&w, &plain), on_host(&w, &plain)] {
        let out = run.unwrap();
        assert_eq!(out.channels, vec!["pf_scale_3", "pf_scale_8", "pf_mean"]);
        assert!(out.seed_paths.is_none());
        assert!(out.well_seed_paths(0).is_none());
        assert!(out.seed_path(0, 0).is_none());
        assert!(out.seed_path(0, usize::MAX).is_none());
        assert!(out.channel("pf_pt_std").is_none());
    }
    for run in [on_device(&w, &full), on_host(&w, &full)] {
        let out = run.unwrap();
        assert_eq!(
            out.channels,
            vec!["pf_scale_3", "pf_scale_8", "pf_mean", "pf_pt_std"]
        );
        assert_eq!(out.total_rows(), 12 + 22);
        assert_eq!(out.well_seed_paths(1).unwrap().len(), 3 * 22);
        assert_eq!(
            out.seed_path(1, 2).unwrap(),
            &out.well_seed_paths(1).unwrap()[44..66]
        );
        assert!(out.seed_path(1, 3).is_none());
        assert!(out.seed_path(2, 0).is_none());
        assert!(out.seed_path(1, usize::MAX).is_none());
        for k in 0..2 {
            let joined: Vec<u32> = (0..3)
                .flat_map(|s| out.seed_path(k, s).unwrap().to_vec())
                .collect();
            assert_eq!(joined, out.well_seed_paths(k).unwrap());
        }
        assert_eq!(
            out.well_channel("pf_mean", 1).unwrap(),
            &out.channel("pf_mean").unwrap()[12..34]
        );
        // The mean channel is the mean of the seeds' own trajectories.
        for r in 0..22 {
            let mean: f32 = (0..3).map(|s| f(out.seed_path(1, s).unwrap()[r])).sum::<f32>() / 3.0;
            let got = f(out.well_channel("pf_mean", 1).unwrap()[r]);
            assert!((mean - got).abs() < 1e-3, "row {r}: {mean} vs {got}");
        }
    }
}

/// A row's estimate does not depend on the rows after it.
#[test]
fn estimates_do_not_look_ahead() {
    let full = PfConfig {
        with_seed_paths: true,
        ..cfg()
    };
    let long = synthetic_well(&Native, 9, 40).0;
    let mut short = long.clone();
    short.md.truncate(25);
    short.z.truncate(25);
    short.gr.truncate(25);
    let a = on_device(&[long.clone()], &full).unwrap();
    let b = on_device(&[short.clone()], &full).unwrap();
    let p = on_host(&[long], &full).unwrap();
    let q = on_host(&[short], &full).unwrap();
    for s in 0..3 {
        assert_eq!(
            &a.seed_path(0, s).unwrap()[..25],
            b.seed_path(0, s).unwrap()
        );
        assert_eq!(
            &p.seed_path(0, s).unwrap()[..25],
            q.seed_path(0, s).unwrap()
        );
    }
}

/// Wells are filtered independently of their neighbours in the batch.
#[test]
fn wells_do_not_disturb_each_other() {
    let cfg = cfg();
    let w = wells(3, 10);
    let all = on_device(&w, &cfg).unwrap();
    for k in 0..3 {
        let alone = on_device(&w[k..k + 1], &cfg).unwrap();
        assert_eq!(&all.liks[3 * k..3 * k + 3], &alone.liks[..]);
        assert_eq!(
            all.well_channel("pf_scale_8", k).unwrap(),
            alone.well_channel("pf_scale_8", 0).unwrap()
        );
    }
}

/// The run on one processor is the planned run, bit for bit.
#[test]
fn reference_is_the_planned_run() {
    let full = PfConfig {
        with_std: true,
        with_seed_paths: true,
        ..cfg()
    };
    let w = wells(3, 20);
    let a = on_device(&w, &full).unwrap();
    let b = on_host(&w, &full).unwrap();
    assert_eq!(a.channels, b.channels);
    assert_eq!(a.values, b.values);
    assert_eq!(a.liks, b.liks);
    assert_eq!(a.seed_paths, b.seed_paths);
    assert_eq!(a.pred_offsets, b.pred_offsets);
    assert_eq!(a.ev_offsets, b.ev_offsets);
    assert_eq!(a.ev_lens, b.ev_lens);
    assert_eq!(a.kept, b.kept);
}

/// The formulas as written and the pinned ones track the same path.
#[test]
fn plain_formulas_stay_close_to_the_pinned_ones() {
    let cfg = cfg();
    let w = wells(2, 40);
    assert!(is_runnable(&w, &cfg, &scales()));
    let a = run_reference_with(&Native, Formulas::Plain, &w, &cfg, &scales()).unwrap();
    let b = on_host(&w, &cfg).unwrap();
    for (x, y) in a.liks.iter().zip(&b.liks) {
        let tol = 1e-3 * f(*x).abs().max(1.0);
        assert!((f(*x) - f(*y)).abs() <= tol, "{} vs {}", f(*x), f(*y));
    }
    for ch in &a.channels {
        let worst = worst(a.channel(ch).unwrap(), b.channel(ch).unwrap());
        assert!(worst < 1e-2, "channel {ch}: max abs diff {worst}");
    }
}

fn mix(a: u32, b: u32) -> u32 {
    let mut h = a
        .wrapping_mul(0x9E37_79B9)
        .wrapping_add(b.wrapping_mul(0x85EB_CA6B))
        .wrapping_add(0x1656_67B1);
    h ^= h >> 16;
    h = h.wrapping_mul(0x7FEB_352D);
    h ^= h >> 15;
    h = h.wrapping_mul(0x846C_A68B);
    h ^ (h >> 16)
}

fn unit(x: u32) -> f32 {
    ((x >> 8) + 1) as f32 * 5.960_464_5e-8
}

fn pair(ctr: u32, k0: u32, k1: u32) -> (f32, f32) {
    let rad = (-2.0 * unit(mix(ctr, k0)).ln()).sqrt();
    let ang = 6.283_185_5f32 * unit(mix(ctr, k1));
    (rad * ang.cos(), rad * ang.sin())
}

/// A filter with one particle written out by hand: no reduction, no resampling.
fn lone_particle(w: &WellInput, c: &PfConfig, seed: u32) -> (Vec<u32>, u32) {
    let (vmin, step) = (f(w.vmin), f(w.step));
    let top = vmin + w.grid.len() as f32 * step;
    let stream = w.seed_base.wrapping_add(seed);
    let (g1, g2) = pair(mix(stream, 0), 0, 1);
    let mut pos = f(w.ls) + f(w.init_spr) * g1;
    let mut rate = f(w.ir) + 0.01 * g2;
    let mut lik = 0.0f32;
    let mut out = vec![];
    for i in 0..w.md.len() {
        let z = f(w.z[i]);
        let gap = if i > 0 {
            (f(w.md[i]) - f(w.md[i - 1])).max(1.0)
        } else {
            1.0
        };
        let (g1, g2) = pair(mix(mix(stream, 0), i as u32), 0, 1);
        rate = f(c.mom) * rate + f(c.vn) * g1;
        let tvt = (pos + rate * gap + f(c.pn) * g2 - z).clamp(vmin - 100.0, top + 100.0);
        pos = tvt + z;
        let fi = (tvt - vmin) / step;
        let k = fi as usize;
        let t = fi - k as f32;
        let eg = f(w.grid[k]) * (1.0 - t) + f(w.grid[k + 1]) * t;
        let miss = (f(w.gr[i]) - eg) / f(w.gs);
        let p = (-0.5 * (miss * miss).min(600.0)).exp().max(f(c.lik_floor));
        lik += p.ln();
        out.push(((p * tvt) / p).to_bits());
    }
    (out, lik.to_bits())
}

/// One particle, exact values: its weight is one before each row.
#[test]
fn a_lone_particle_is_followed_exactly() {
    let c = PfConfig {
        n_particles: 1,
        n_seeds: 1,
        cube_dim: 1,
        resamp: 0.0f32.to_bits(),
        ..PfConfig::default()
    };
    let w = synthetic_well(&Native, 21, 30).0;
    for seed in 0..3 {
        let mut preds = vec![0u32; 30];
        let lik = run_single_with(&Native, Formulas::Plain, &w, &c, seed, &mut preds);
        let (want, total) = lone_particle(&w, &c, seed);
        assert_eq!(preds, want);
        assert_eq!(lik, total);
    }
}

/// A run of one seed is that seed's row in the whole run; what lies behind the rows is
/// left alone.
#[test]
fn a_single_run_is_a_seed_of_the_batch() {
    let full = PfConfig {
        with_seed_paths: true,
        ..cfg()
    };
    let w = wells(1, 15);
    let out = on_host(&w, &full).unwrap();
    for seed in 0..3u32 {
        let mut preds = vec![7u32; 17];
        let lik = run_single(&Native, &w[0], &full, seed, &mut preds);
        assert_eq!(&preds[..15], out.seed_path(0, seed as usize).unwrap());
        assert_eq!(&preds[15..], &[7, 7]);
        assert_eq!(lik, out.liks[seed as usize]);
    }
}

/// A table whose products would not fit a word has no trajectories to hand out.
#[test]
fn oversized_tables_have_no_paths() {
    let mut out = PfOutput {
        channels: vec![],
        values: vec![],
        liks: vec![],
        n_seeds: u32::MAX,
        seed_paths: None,
        pred_offsets: vec![u32::MAX],
        ev_offsets: vec![0],
        ev_lens: vec![u32::MAX],
        kept: vec![0],
    };
    assert!(out.well_seed_paths(0).is_none());
    assert!(out.seed_path(0, usize::MAX).is_none());
    out.seed_paths = Some(vec![1, 2, 3]);
    assert!(out.well_seed_paths(0).is_none());
    assert!(out.seed_path(0, 5).is_none());
}
