//! The kernels of the beam search must reproduce the run on one processor, and the
//! search itself must behave.

use rog2_pf::beam::{
    max_beam_capacity, smoothing_planes, BeamConfig, BeamOptions, SmoothingKind,
};
use rog2_pf::beam_host::is_beam_plannable;
use rog2_pf::beam_reference::{
    beam_search_one, is_beam_runnable, nearest_index, run_beam_reference, sg_smooth,
};
use rog2_pf::synthetic::{rmse64, synthetic_beam_well};
use rog2_pf::{notebook_beam_configs, run_beam, Arith, BeamOutput, BeamWellInput, PfError};

/// The machine's own floating point.
struct Native;

fn f(x: u32) -> f32 {
    f32::from_bits(x)
}

fn d(x: u64) -> f64 {
    f64::from_bits(x)
}

impl Arith for Native {
    fn add32(&self, x: u32, y: u32) -> u32 {
        (f(x) + f(y)).to_bits()
    }
    fn sub32(&self, x: u32, y: u32) -> u32 {
        (f(x) - f(y)).to_bits()
    }
    fn mul32(&self, x: u32, y: u32) -> u32 {
        (f(x) * f(y)).to_bits()
    }
    fn div32(&self, x: u32, y: u32) -> u32 {
        (f(x) / f(y)).to_bits()
    }
    fn fma32(&self, x: u32, y: u32, z: u32) -> u32 {
        f(x).mul_add(f(y), f(z)).to_bits()
    }
    fn sqrt32(&self, x: u32) -> u32 {
        f(x).sqrt().to_bits()
    }
    fn ln32(&self, x: u32) -> u32 {
        f(x).ln().to_bits()
    }
    fn exp32(&self, x: u32) -> u32 {
        f(x).exp().to_bits()
    }
    fn pow2_32(&self, x: u32) -> u32 {
        f(x).exp2().to_bits()
    }
    fn sin32(&self, x: u32) -> u32 {
        f(x).sin().to_bits()
    }
    fn cos32(&self, x: u32) -> u32 {
        f(x).cos().to_bits()
    }
    fn round32(&self, x: u32) -> u32 {
        f(x).round().to_bits()
    }
    fn from_int32(&self, n: u64) -> u32 {
        (n as f32).to_bits()
    }
    fn to_int32(&self, x: u32) -> u64 {
        f(x) as u64
    }
    fn widen(&self, x: u32) -> u64 {
        (f(x) as f64).to_bits()
    }
    fn add64(&self, x: u64, y: u64) -> u64 {
        (d(x) + d(y)).to_bits()
    }
    fn sub64(&self, x: u64, y: u64) -> u64 {
        (d(x) - d(y)).to_bits()
    }
    fn mul64(&self, x: u64, y: u64) -> u64 {
        (d(x) * d(y)).to_bits()
    }
    fn div64(&self, x: u64, y: u64) -> u64 {
        (d(x) / d(y)).to_bits()
    }
    fn sqrt64(&self, x: u64) -> u64 {
        d(x).sqrt().to_bits()
    }
    fn from_int64(&self, n: u64) -> u64 {
        (n as f64).to_bits()
    }
    fn narrow(&self, x: u64) -> u32 {
        (d(x) as f32).to_bits()
    }
    fn show32(&self, x: u32) -> String {
        format!("{}", f(x))
    }
    fn show64(&self, x: u64) -> String {
        format!("{}", d(x))
    }
}

fn bits(v: &[f64]) -> Vec<u64> {
    v.iter().map(|x| x.to_bits()).collect()
}

fn floats(v: &[u64]) -> Vec<f64> {
    v.iter().map(|x| d(*x)).collect()
}

fn config(beam_size: u32, move_cost: f64, err_scale: f64, radius: u32) -> BeamConfig {
    BeamConfig::new(beam_size, move_cost.to_bits(), err_scale.to_bits(), radius)
}

/// A smoothed configuration, an unsmoothed one, and three different beam widths.
fn configs() -> Vec<BeamConfig> {
    vec![
        config(4, 20.0, 144.0, 2),
        config(6, 8.0, 64.0, 0),
        config(5, 12.0, 100.0, 3),
    ]
}

fn opts() -> BeamOptions {
    BeamOptions {
        cube_dim: 16,
        with_per_config: true,
        ..BeamOptions::default()
    }
}

fn on_device(
    wells: &[BeamWellInput],
    configs: &[BeamConfig],
    o: &BeamOptions,
) -> Result<BeamOutput, PfError> {
    assert!(is_beam_plannable(wells, configs));
    run_beam(&Native, wells, configs, o)
}

fn on_host(
    wells: &[BeamWellInput],
    configs: &[BeamConfig],
    o: &BeamOptions,
) -> Result<BeamOutput, PfError> {
    assert!(is_beam_runnable(wells, configs));
    run_beam_reference(&Native, wells, configs, o)
}

fn smooth(gr: &[f64], radius: u32) -> Vec<f64> {
    let mut out = vec![0u64; gr.len()];
    sg_smooth(&Native, &bits(gr), radius, &mut out, SmoothingKind::SavitzkyGolay);
    floats(&out)
}

fn search(sgr: &[f64], tw_tvt: &[f64], tw_gr: &[f64], last: f64, cfg: &BeamConfig) -> Vec<f64> {
    let mut out = vec![0u64; sgr.len()];
    beam_search_one(
        &Native,
        &bits(sgr),
        &bits(tw_tvt),
        &bits(tw_gr),
        last.to_bits(),
        cfg,
        &mut out,
    );
    floats(&out)
}

/// The trajectory is a table lookup into `tw_tvt`, so agreement is not a matter
/// of tolerance: either the kernel picked the same type-well samples as the
/// reference or it did not.
#[test]
fn beam_parity_kernel_matches_reference_on_cpu_runtime() {
    let o = opts();
    let wells: Vec<_> = (0..2)
        .map(|s| synthetic_beam_well(&Native, s + 1, 40 + 10 * s as usize).0)
        .collect();

    let gpu = on_device(&wells, &configs(), &o).expect("kernel run");
    let cpu = on_host(&wells, &configs(), &o).expect("reference run");

    assert_eq!(gpu.ev_lens, cpu.ev_lens);
    assert_eq!(gpu.kept, cpu.kept);
    for c in 0..configs().len() {
        assert_eq!(
            gpu.config_rows(c).unwrap(),
            cpu.config_rows(c).unwrap(),
            "config {c} trajectory differs"
        );
    }
    assert_eq!(gpu.mean, cpu.mean);
}

#[test]
fn beam_parity_reruns_are_bit_identical() {
    let o = opts();
    let wells = vec![synthetic_beam_well(&Native, 7, 40).0];
    let a = on_device(&wells, &configs(), &o).unwrap();
    let b = on_device(&wells, &configs(), &o).unwrap();
    assert_eq!(a.mean, b.mean);
    assert_eq!(a.per_config, b.per_config);
}

/// Nothing in the beam search depends on how the work is split across units, so
/// changing `cube_dim` must change nothing at all.
#[test]
fn cube_dim_does_not_change_the_answer() {
    let wells = vec![synthetic_beam_well(&Native, 5, 60).0];
    let narrow = BeamOptions {
        cube_dim: 8,
        with_per_config: true,
        ..BeamOptions::default()
    };
    let wide = BeamOptions {
        cube_dim: 32,
        ..narrow
    };

    let a = on_device(&wells, &configs(), &narrow).unwrap();
    let b = on_device(&wells, &configs(), &wide).unwrap();
    assert_eq!(a.per_config, b.per_config);
    assert_eq!(a.mean, b.mean);
}

#[test]
fn beam_parity_empty_wells_are_dropped_not_fatal() {
    let o = opts();
    let mut wells = vec![synthetic_beam_well(&Native, 3, 30).0];
    let mut empty = synthetic_beam_well(&Native, 4, 30).0;
    empty.gr.clear();
    wells.insert(0, empty);

    let out = on_device(&wells, &configs(), &o).unwrap();
    assert_eq!(out.kept, vec![1]);
    assert_eq!(out.ev_lens, vec![30]);
}

#[test]
fn beam_parity_rejects_a_non_power_of_two_cube_dim() {
    let o = BeamOptions {
        cube_dim: 100,
        ..BeamOptions::default()
    };
    let wells = vec![synthetic_beam_well(&Native, 1, 10).0];
    assert!(on_device(&wells, &configs(), &o).is_err());
}

#[test]
fn rejects_a_degenerate_config() {
    let wells = vec![synthetic_beam_well(&Native, 1, 10).0];
    let o = BeamOptions::default();
    for bad in [
        config(0, 20.0, 144.0, 2),
        config(4, 20.0, 0.0, 2),
        config(4, -1.0, 144.0, 2),
        config(4, 20.0, 144.0, 10_000),
    ] {
        assert!(
            on_device(&wells, &[bad], &o).is_err(),
            "{bad:?} should have been rejected"
        );
    }
    assert!(on_device(&wells, &[], &o).is_err());
}

/// The search must actually track: on a drifting synthetic well it should beat
/// holding the last known depth.
#[test]
fn beam_beats_the_last_known_baseline() {
    let (well, truth) = synthetic_beam_well(&Native, 11, 600);
    let out = on_host(
        std::slice::from_ref(&well),
        &notebook_beam_configs(),
        &BeamOptions::default(),
    )
    .unwrap();

    let pred = out.well_mean(0).unwrap();
    let baseline = vec![well.last_tvt; truth.len()];

    let beam = d(rmse64(&Native, pred, &truth));
    let base = d(rmse64(&Native, &baseline, &truth));
    assert!(
        beam < base,
        "beam search RMSE {beam} should beat last-known baseline {base}"
    );
}

// ---------------------------------------------------------------------------
// Savitzky-Golay
// ---------------------------------------------------------------------------

/// A quadratic smoother reproduces quadratics exactly, including in the `r` edge
/// rows, where the end window is fitted instead of padded.
#[test]
fn sg_smooth_is_exact_on_quadratics() {
    let n = 40;
    let f = |i: usize| {
        let x = i as f64;
        3.0 - 0.5 * x + 0.02 * x * x
    };
    let gr: Vec<f64> = (0..n).map(f).collect();

    for r in 1..=5u32 {
        let out = smooth(&gr, r);
        for (i, v) in out.iter().enumerate() {
            assert!(
                (v - f(i)).abs() < 2e-3,
                "radius {r} row {i}: {v} vs exact {}",
                f(i)
            );
        }
    }
}

/// In the interior the smoother must equal the textbook quadratic Savitzky-Golay
/// convolution: for a 5-point window, `[-3, 12, 17, 12, -3] / 35`.
#[test]
fn sg_smooth_matches_the_textbook_five_point_kernel() {
    let gr: Vec<f64> = (0..30).map(|i| ((i * 37) % 23) as f64).collect();
    let out = smooth(&gr, 2);

    let coef = [-3.0, 12.0, 17.0, 12.0, -3.0];
    for i in 2..gr.len() - 2 {
        let expect: f64 = (0..5).map(|j| coef[j] * gr[i - 2 + j]).sum::<f64>() / 35.0;
        assert!(
            (out[i] - expect).abs() < 1e-3,
            "row {i}: {} vs {expect}",
            out[i]
        );
    }
}

#[test]
fn sg_smooth_passes_short_series_through_untouched() {
    // No smoothing unless `n > max(3, 2 * r + 1)`, so with five samples only radius 1
    // is wide enough to run at all.
    let gr = vec![5.0, 9.0, 2.0, 7.0, 1.0];
    for r in [0u32, 2, 3, 4] {
        let out = smooth(&gr, r);
        assert_eq!(out, gr, "radius {r} should have been skipped");
    }
}

/// A quadratic through three points is interpolation, not regression, so
/// `radius = 1` is the identity.
#[test]
fn sg_smooth_radius_one_is_the_identity() {
    let gr: Vec<f64> = (0..20).map(|i| ((i * 41) % 17) as f64).collect();
    let out = smooth(&gr, 1);
    for (a, b) in out.iter().zip(&gr) {
        assert!((a - b).abs() < 1e-4, "{a} vs {b}");
    }
}

/// Integer quadratics keep every step of the fit exact, and come out bit for bit. A fit
/// extends beyond the log, too.
#[test]
fn the_fit_reproduces_integer_quadratics_bit_for_bit() {
    let value = |i: usize| {
        let x = i as f64;
        7.0 - 3.0 * x + 2.0 * x * x
    };
    let gr: Vec<f64> = (0..20).map(value).collect();
    for r in 1..=5u32 {
        assert_eq!(bits(&smooth(&gr, r)), bits(&gr));
        let mut out = vec![0u64; 26];
        sg_smooth(&Native, &bits(&gr), r, &mut out, SmoothingKind::SavitzkyGolay);
        assert_eq!(floats(&out), (0..26).map(value).collect::<Vec<f64>>());
    }
}

/// A mean may be asked for fewer rows than the log has, or for rows past its end whose
/// window still touches it.
#[test]
fn a_mean_may_be_asked_for_other_rows() {
    let gr = bits(&[1.0, 2.0, 6.0, 4.0, 7.0, 8.0]);
    let mut out = vec![0u64; 3];
    sg_smooth(&Native, &gr, 1, &mut out, SmoothingKind::RollingMean);
    assert_eq!(floats(&out), vec![1.5, 3.0, 4.0]);
    let mut out = vec![0u64; 8];
    sg_smooth(&Native, &gr, 1, &mut out, SmoothingKind::RollingMean);
    assert_eq!(floats(&out[5..7]), vec![7.5, 8.0]);
    assert!(d(out[7]).is_nan());
}

/// The moving average shrinks at the ends of the log.
#[test]
fn rolling_mean_shrinks_at_the_ends() {
    let gr = bits(&[1.0, 2.0, 6.0, 4.0, 7.0, 8.0]);
    let mut out = vec![0u64; 6];
    sg_smooth(&Native, &gr, 1, &mut out, SmoothingKind::RollingMean);
    assert_eq!(
        floats(&out),
        vec![1.5, 3.0, 4.0, 17.0 / 3.0, 19.0 / 3.0, 7.5]
    );
    sg_smooth(&Native, &gr, 0, &mut out, SmoothingKind::RollingMean);
    assert_eq!(out, gr);
}

// ---------------------------------------------------------------------------
// Algorithmic properties of the search itself
// ---------------------------------------------------------------------------

/// With no move penalty the search is free to jump, so it should sit on the
/// type-well sample whose gamma ray is closest to the observation.
#[test]
fn zero_move_cost_tracks_the_nearest_gr_sample() {
    let tw_tvt: Vec<f64> = (0..200).map(|i| i as f64 * 0.5).collect();
    let tw_gr: Vec<f64> = (0..200).map(|i| i as f64).collect();

    // Ramp slowly enough that a 2-cell-per-step beam can keep up.
    let sgr: Vec<f64> = (0..80).map(|i| 100.0 + i as f64).collect();
    let out = search(&sgr, &tw_tvt, &tw_gr, 50.0, &config(8, 0.0, 1.0, 0));

    for (i, v) in out.iter().enumerate() {
        assert_eq!(*v, tw_tvt[100 + i], "row {i} left the matching sample");
    }
}

/// A huge move penalty should pin the search to wherever it started.
#[test]
fn prohibitive_move_cost_freezes_the_path() {
    let tw_tvt: Vec<f64> = (0..100).map(|i| i as f64 * 0.5).collect();
    let tw_gr: Vec<f64> = (0..100).map(|i| (i % 7) as f64 * 10.0).collect();
    let sgr = vec![65.0f64; 50];

    let out = search(&sgr, &tw_tvt, &tw_gr, 10.0, &config(6, 1e6, 1.0, 0));
    assert!(out.iter().all(|v| *v == 10.0), "path drifted: {out:?}");
}

/// The start index is the first of the nearest samples. A type well with repeated
/// depths must therefore start on the first of the run, not the last: a binary search
/// alone gets this wrong.
#[test]
fn duplicate_type_well_depths_start_on_the_first_sample() {
    // Samples 2..=4 all sit at depth 5.0 but log different gamma rays. Starting at
    // 5.4, the nearest depth is 5.0, and the start is index 2.
    let tw_tvt = vec![1.0f64, 3.0, 5.0, 5.0, 5.0, 9.0];
    let tw_gr = vec![0.0f64, 0.0, 100.0, 50.0, 20.0, 0.0];
    // Freeze the path so the output is purely a function of the start index.
    let sgr = vec![0.0f64; 6];

    assert_eq!(nearest_index(&Native, &bits(&tw_tvt), 5.4f64.to_bits()), 2);
    let out = search(&sgr, &tw_tvt, &tw_gr, 5.4, &config(1, 1e9, 1.0, 0));
    // A beam of one with a prohibitive move cost stays put, and index 2 is the
    // only one of the three whose gamma ray keeps it there at cost 100^2.
    assert!(out.iter().all(|v| *v == 5.0));

    // The same start, reached through the kernel, must agree with the reference.
    let well = BeamWellInput {
        gr: bits(&sgr),
        tw_tvt: bits(&tw_tvt),
        tw_gr: bits(&tw_gr),
        last_tvt: 5.4f64.to_bits(),
    };
    let cfgs = [config(1, 1e9, 1.0, 0)];
    let o = BeamOptions {
        cube_dim: 8,
        with_per_config: true,
        ..BeamOptions::default()
    };
    let gpu = on_device(std::slice::from_ref(&well), &cfgs, &o).unwrap();
    let cpu = on_host(std::slice::from_ref(&well), &cfgs, &o).unwrap();
    assert_eq!(gpu.config_rows(0).unwrap(), cpu.config_rows(0).unwrap());
    assert_eq!(gpu.config_rows(0).unwrap(), &bits(&out)[..]);
}

/// The start sample is the first of those at the smallest distance.
#[test]
fn the_start_sample_is_the_first_of_the_nearest() {
    let tw = [-4.0f64, -1.5, -1.5, 0.0, 2.0, 2.0, 2.0, 7.5, 9.0];
    for i in -60..120 {
        let v = i as f64 * 0.125;
        let gaps: Vec<f64> = tw.iter().map(|x| (v - x).abs()).collect();
        let least = gaps.iter().copied().fold(f64::INFINITY, f64::min);
        let first = gaps.iter().position(|g| *g == least).unwrap();
        assert_eq!(nearest_index(&Native, &bits(&tw), v.to_bits()), first, "{v}");
    }
}

/// Costs below the dead bound never lose the search. Costs beyond it do: the row then
/// reads the first sample.
#[test]
fn only_dead_costs_lose_the_search() {
    let tw_tvt: Vec<f64> = (0..9).map(|i| 10.0 + i as f64).collect();
    let tw_gr = vec![0.0f64; 9];
    let mut sgr = vec![5.0f64; 6];
    let alive = search(&sgr, &tw_tvt, &tw_gr, 14.0, &config(3, 1.0, 1.0, 0));
    assert!(alive.iter().all(|v| *v == 14.0));
    // So large a mismatch swallows the move costs: the first candidate wins the tie.
    sgr[5] = 6e14;
    let alive = search(&sgr, &tw_tvt, &tw_gr, 14.0, &config(3, 1.0, 1.0, 0));
    assert_eq!(alive, vec![14.0, 14.0, 14.0, 14.0, 14.0, 12.0]);
    sgr[5] = 1e15;
    let lost = search(&sgr, &tw_tvt, &tw_gr, 14.0, &config(3, 1.0, 1.0, 0));
    assert_eq!(lost[5], 10.0);
}

/// The search may not run off either end of the type-well log.
#[test]
fn moves_are_clamped_to_the_type_well() {
    let tw_tvt: Vec<f64> = (0..12).map(|i| i as f64).collect();
    let tw_gr = vec![0.0f64; 12];
    let sgr = vec![1000.0f64; 40];

    for start in [0.0f64, 11.0] {
        let out = search(&sgr, &tw_tvt, &tw_gr, start, &config(5, 0.0, 1.0, 0));
        assert!(
            out.iter().all(|v| *v >= 0.0 && *v <= 11.0),
            "escaped the log from {start}: {out:?}"
        );
    }
}

/// The cheapest path, by trying all of them: four rows on a log of seven samples, with
/// a beam wide enough to drop nothing.
#[test]
fn a_wide_beam_finds_the_cheapest_path() {
    let tw_tvt: Vec<f64> = (0..7).map(|i| i as f64 * 2.0).collect();
    let tw_gr = vec![10.0, 30.0, 15.0, 80.0, 40.0, 22.0, 60.0];
    let sgr = vec![31.0, 78.0, 41.0, 59.0];
    let (cost, scale) = (3.0, 16.0);

    let mut best = (f64::INFINITY, vec![]);
    for code in 0..7usize.pow(4) {
        let path: Vec<usize> = (0..4).map(|k| code / 7usize.pow(k) % 7).collect();
        let mut total = 0.0;
        let mut at = 2usize;
        let mut legal = true;
        for (i, &to) in path.iter().enumerate() {
            let moved = to.abs_diff(at);
            legal = legal && moved <= 2;
            let miss: f64 = sgr[i] - tw_gr[to];
            total += moved as f64 * cost + miss * miss / scale;
            at = to;
        }
        if legal && total < best.0 {
            best = (total, path);
        }
    }
    let out = search(&sgr, &tw_tvt, &tw_gr, 4.3, &config(50, cost, scale, 0));
    let want: Vec<f64> = best.1.iter().map(|&k| tw_tvt[k]).collect();
    assert_eq!(out, want);
}

// ---------------------------------------------------------------------------
// Batch plumbing
// ---------------------------------------------------------------------------

#[test]
fn smoothing_planes_are_shared_between_configs() {
    let all = notebook_beam_configs();
    let (radii, plane) = smoothing_planes(&all);
    // The ensemble's 14 configurations use only six distinct radii.
    assert_eq!(radii.len(), 6);
    assert_eq!(plane.len(), 14);
    for (c, p) in all.iter().zip(&plane) {
        assert_eq!(radii[*p as usize], c.radius);
    }
}

#[test]
fn beam_capacity_covers_the_widest_beam() {
    let all = notebook_beam_configs();
    let cap = max_beam_capacity(&all);
    assert!(cap.is_power_of_two());
    for c in all {
        assert!(c.beam_size as usize <= cap);
    }
}

/// A chunked run is the run in one launch, value for value.
#[test]
fn beam_chunking_changes_nothing() {
    let wells: Vec<_> = (0..3)
        .map(|s| synthetic_beam_well(&Native, s + 1, 12 + 5 * s as usize).0)
        .collect();
    let whole = on_device(&wells, &configs(), &opts()).unwrap();
    let cut = BeamOptions {
        budget_bytes: 1,
        ..opts()
    };
    let parts = on_device(&wells, &configs(), &cut).unwrap();
    assert_eq!(whole.mean, parts.mean);
    assert_eq!(whole.per_config, parts.per_config);
    assert_eq!(whole.ev_offsets, parts.ev_offsets);
    assert_eq!(whole.total_rows(), 12 + 17 + 22);
    assert_eq!(
        parts.well_config(2, 1).unwrap(),
        &parts.config_rows(2).unwrap()[12..29]
    );
    assert!(parts.config_rows(3).is_none());
    assert!(parts.well_mean(3).is_none());
}

/// The ensemble mean is the mean of the trajectories, and its weights are equal.
#[test]
fn the_mean_averages_the_trajectories() {
    let wells = vec![synthetic_beam_well(&Native, 2, 20).0];
    for out in [
        on_device(&wells, &configs(), &opts()).unwrap(),
        on_host(&wells, &configs(), &opts()).unwrap(),
    ] {
        for r in 0..20 {
            let mut acc = 0.0;
            for c in 0..3 {
                acc += d(out.config_rows(c).unwrap()[r]);
            }
            assert_eq!(d(out.mean[r]), acc / 3.0);
        }
    }
}

/// Every depth of a trajectory is a depth of the type-well log.
#[test]
fn trajectories_stay_on_the_log() {
    let wells = vec![synthetic_beam_well(&Native, 6, 50).0];
    let out = on_host(&wells, &configs(), &opts()).unwrap();
    for v in out.per_config.as_ref().unwrap() {
        assert!(wells[0].tw_tvt.contains(v));
    }
}

/// Wells are searched independently of their neighbours in the batch.
#[test]
fn beam_wells_do_not_disturb_each_other() {
    let wells: Vec<_> = (0..3)
        .map(|s| synthetic_beam_well(&Native, s + 1, 12 + 5 * s as usize).0)
        .collect();
    let all = on_device(&wells, &configs(), &opts()).unwrap();
    for k in 0..3 {
        let alone = on_device(&wells[k..k + 1], &configs(), &opts()).unwrap();
        assert_eq!(all.well_mean(k).unwrap(), alone.well_mean(0).unwrap());
        for c in 0..3 {
            assert_eq!(
                all.well_config(c, k).unwrap(),
                alone.well_config(c, 0).unwrap()
            );
        }
    }
}

/// A step of the path moves at most two samples along the log.
#[test]
fn paths_move_at_most_two_samples() {
    let well = synthetic_beam_well(&Native, 8, 60).0;
    let out = on_host(std::slice::from_ref(&well), &configs(), &opts()).unwrap();
    for c in 0..3 {
        let at: Vec<usize> = out
            .config_rows(c)
            .unwrap()
            .iter()
            .map(|v| well.tw_tvt.iter().position(|t| t == v).unwrap())
            .collect();
        assert!(at.windows(2).all(|p| p[0].abs_diff(p[1]) <= 2));
    }
}
