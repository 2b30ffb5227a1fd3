//! The parts of the library, one by one, on concrete values.

use rog2_pf::arith;
use rog2_pf::backend::{missing, probe, unavailable, Probe};
use rog2_pf::batch::count_rows;
use rog2_pf::decimal::six_digits;
use rog2_pf::reference::{run_reference, run_reference_with};
use rog2_pf::beam::{count_beam_rows, is_beam_addressable};
use rog2_pf::beam_host::{buffer64, is_beam_plannable, pack_configs, BeamPlan};
use rog2_pf::bench::{bench_configs, parse_beam_args, parse_pf_args, ArgError, ArgIssue};
use rog2_pf::blend::{blend_at, spread_at};
use rog2_pf::filter::Formulas;
use rog2_pf::grid::{make_grid, resample, GridIssue};
use rog2_pf::host::{blend_weights, buffer32, is_plannable, PfPlan, NO_CHANNEL};
use rog2_pf::ieee;
use rog2_pf::kernel::{
    cos_precise, exp_precise, hash32, interp1, ln_precise, recip_precise, sin_precise,
    sqrt_precise, unit_f,
};
use rog2_pf::layout::{budget_rows, next_power_of_two, power_of_two, split_wells};
use rog2_pf::scan::{lane_bounds, lane_len, lower_bound, tree_sum3, two_level_scan};
use rog2_pf::synthetic::{rmse, rmse64, synthetic_beam_well, synthetic_well};
use rog2_pf::text::{channel_names, fmt_g, parse_number};
use rog2_pf::{
    available_backends, notebook_beam_configs, run_beam, run_pf, seed_weights, Arith, Backend,
    BeamConfig, BeamOptions, BeamWellInput, Build, ConfigIssue, FlatBatch, FlatBeamBatch,
    PfConfig, PfError, WellInput,
};

/// The machine's own floating point.
struct Native;

fn f(x: u32) -> f32 {
    f32::from_bits(x)
}

fn d(x: u64) -> f64 {
    f64::from_bits(x)
}

impl Arith for Native {
    fn add32(&self, x: u32, y: u32) -> u32 {
        (f(x) + f(y)).to_bits()
    }
    fn sub32(&self, x: u32, y: u32) -> u32 {
        (f(x) - f(y)).to_bits()
    }
    fn mul32(&self, x: u32, y: u32) -> u32 {
        (f(x) * f(y)).to_bits()
    }
    fn div32(&self, x: u32, y: u32) -> u32 {
        (f(x) / f(y)).to_bits()
    }
    fn fma32(&self, x: u32, y: u32, z: u32) -> u32 {
        f(x).mul_add(f(y), f(z)).to_bits()
    }
    fn sqrt32(&self, x: u32) -> u32 {
        f(x).sqrt().to_bits()
    }
    fn ln32(&self, x: u32) -> u32 {
        f(x).ln().to_bits()
    }
    fn exp32(&self, x: u32) -> u32 {
        f(x).exp().to_bits()
    }
    fn pow2_32(&self, x: u32) -> u32 {
        f(x).exp2().to_bits()
    }
    fn sin32(&self, x: u32) -> u32 {
        f(x).sin().to_bits()
    }
    fn cos32(&self, x: u32) -> u32 {
        f(x).cos().to_bits()
    }
    fn round32(&self, x: u32) -> u32 {
        f(x).round().to_bits()
    }
    fn from_int32(&self, n: u64) -> u32 {
        (n as f32).to_bits()
    }
    fn to_int32(&self, x: u32) -> u64 {
        f(x) as u64
    }
    fn widen(&self, x: u32) -> u64 {
        (f(x) as f64).to_bits()
    }
    fn add64(&self, x: u64, y: u64) -> u64 {
        (d(x) + d(y)).to_bits()
    }
    fn sub64(&self, x: u64, y: u64) -> u64 {
        (d(x) - d(y)).to_bits()
    }
    fn mul64(&self, x: u64, y: u64) -> u64 {
        (d(x) * d(y)).to_bits()
    }
    fn div64(&self, x: u64, y: u64) -> u64 {
        (d(x) / d(y)).to_bits()
    }
    fn sqrt64(&self, x: u64) -> u64 {
        d(x).sqrt().to_bits()
    }
    fn from_int64(&self, n: u64) -> u64 {
        (n as f64).to_bits()
    }
    fn narrow(&self, x: u64) -> u32 {
        (d(x) as f32).to_bits()
    }
    fn show32(&self, x: u32) -> String {
        format!("{}", f(x))
    }
    fn show64(&self, x: u64) -> String {
        format!("{}", d(x))
    }
}

fn b32(v: &[f32]) -> Vec<u32> {
    v.iter().map(|x| x.to_bits()).collect()
}

fn b64(v: &[f64]) -> Vec<u64> {
    v.iter().map(|x| x.to_bits()).collect()
}

fn well(rows: usize, grid: &[f32]) -> WellInput {
    WellInput {
        md: b32(&(0..rows).map(|i| 100.0 + i as f32).collect::<Vec<_>>()),
        z: b32(&vec![0.0; rows]),
        gr: b32(&vec![50.0; rows]),
        grid: b32(grid),
        vmin: 0.0f32.to_bits(),
        step: 0.5f32.to_bits(),
        gs: 4.0f32.to_bits(),
        ls: 1.0f32.to_bits(),
        ir: 0.0f32.to_bits(),
        init_spr: 4.5f32.to_bits(),
        seed_base: 9,
    }
}

fn beam_well(rows: usize) -> BeamWellInput {
    BeamWellInput {
        gr: b64(&vec![50.0; rows]),
        tw_tvt: b64(&[1.0, 2.0, 3.0]),
        tw_gr: b64(&[40.0, 50.0, 60.0]),
        last_tvt: 2.0f64.to_bits(),
    }
}

// ---------------------------------------------------------------------------
// Bit patterns
// ---------------------------------------------------------------------------

#[test]
fn nans_come_out_canonical() {
    for odd in [0x7FC0_0001u32, 0xFFC0_0000, 0x7F80_0001, 0xFFFF_FFFF] {
        assert_eq!(arith::add32(&Native, odd, 1.0f32.to_bits()), 0x7FC0_0000);
        assert_eq!(arith::exp32(&Native, odd), 0x7FC0_0000);
        assert_eq!(arith::widen(&Native, odd), 0x7FF8_0000_0000_0000);
        assert_eq!(arith::to_int32(&Native, odd), 0);
    }
    let inf = f64::INFINITY.to_bits();
    assert_eq!(arith::sub64(&Native, inf, inf), 0x7FF8_0000_0000_0000);
    assert_eq!(arith::narrow(&Native, 0xFFF8_0000_0000_0123), 0x7FC0_0000);
    // Nothing else changes.
    assert_eq!(arith::mul64(&Native, inf, (-2.0f64).to_bits()), f64::NEG_INFINITY.to_bits());
    assert_eq!(arith::sub32(&Native, 0x8000_0000, 0), 0x8000_0000);
}

#[test]
fn comparisons_are_those_of_the_machine() {
    let samples = [
        0.0f32,
        -0.0,
        1.0,
        -1.0,
        1e-40,
        -1e-40,
        3.5,
        f32::INFINITY,
        f32::NEG_INFINITY,
        f32::NAN,
        -f32::NAN,
    ];
    for &x in &samples {
        assert_eq!(ieee::is_nan32(x.to_bits()), x.is_nan());
        assert_eq!(ieee::is_finite32(x.to_bits()), x.is_finite());
        assert_eq!(ieee::neg32(x.to_bits()), (-x).to_bits());
        let w = x as f64;
        assert_eq!(ieee::is_nan64(w.to_bits()), w.is_nan());
        assert_eq!(ieee::is_finite64(w.to_bits()), w.is_finite());
        for &y in &samples {
            assert_eq!(ieee::lt32(x.to_bits(), y.to_bits()), x < y, "{x} < {y}");
            assert_eq!(ieee::le32(x.to_bits(), y.to_bits()), x <= y, "{x} <= {y}");
            let v = y as f64;
            assert_eq!(ieee::lt64(w.to_bits(), v.to_bits()), w < v);
            assert_eq!(ieee::le64(w.to_bits(), v.to_bits()), w <= v);
            assert_eq!(ieee::eq64(w.to_bits(), v.to_bits()), w == v);
        }
    }
}

// ---------------------------------------------------------------------------
// Kernel functions
// ---------------------------------------------------------------------------

#[test]
fn random_bits_become_unit_floats() {
    assert_eq!(hash32(0, 0), hash32(0, 0));
    assert_ne!(hash32(0, 1), hash32(1, 0));
    for x in [0u32, 1, 255, 256, 0x8000_0000, 0x1234_5678, u32::MAX] {
        let want = ((x >> 8) + 1) as f32 * 5.960_464_5e-8;
        assert_eq!(unit_f(x), want.to_bits());
        assert!(want > 0.0 && want <= 1.0);
    }
}

#[test]
fn hash_is_the_documented_finalizer() {
    // Worked by hand: the first product and the offset alone.
    let mut h = 0x1656_67B1u32;
    h ^= h >> 16;
    h = h.wrapping_mul(0x7FEB_352D);
    h ^= h >> 15;
    h = h.wrapping_mul(0x846C_A68B);
    h ^= h >> 16;
    assert_eq!(hash32(0, 0), h);
}

#[test]
fn precise_functions_are_precise() {
    for k in 0..200 {
        let x = -0.15 * k as f32;
        let e = f(exp_precise(&Native, x.to_bits()));
        let want = (x as f64).exp();
        assert!(((e as f64 - want) / want).abs() < 3e-7, "exp({x}) = {e}");
    }
    for k in 1..200 {
        let u = k as f32 / 200.0;
        let l = f(ln_precise(&Native, u.to_bits()));
        let want = (u as f64).ln();
        assert!((l as f64 - want).abs() < 2e-6 * want.abs().max(1.0), "ln({u}) = {l}");
        let s = f(sqrt_precise(&Native, u.to_bits()));
        assert!((s as f64 - (u as f64).sqrt()).abs() < 2e-7, "sqrt({u}) = {s}");
        let r = f(recip_precise(&Native, u.to_bits()));
        assert!((r as f64 * u as f64 - 1.0).abs() < 3e-7, "1/{u} = {r}");
        let a = u * 6.283_185_5;
        let c = f(cos_precise(&Native, a.to_bits()));
        let n = f(sin_precise(&Native, a.to_bits()));
        assert!((c as f64 - (a as f64).cos()).abs() < 1e-6, "cos({a}) = {c}");
        assert!((n as f64 - (a as f64).sin()).abs() < 1e-6, "sin({a}) = {n}");
    }
    assert_eq!(f(exp_precise(&Native, 0.0f32.to_bits())), 1.0);
    assert_eq!(f(recip_precise(&Native, 4.0f32.to_bits())), 0.25);
    assert_eq!(f(sqrt_precise(&Native, 0.0f32.to_bits())), 0.0);
}

/// The chain of the logarithm, written out with native floats.
#[test]
fn logarithms_are_a_fixed_chain() {
    for u in [1.0f32, 0.75, 0.5, 0.3, 0.01, 1e-4, 5.960_464_5e-8] {
        let (mut m, mut k) = (u, 0.0f32);
        for (bound, factor, count) in [
            (1.0 / 65536.0, 65536.0, 16.0),
            (1.0 / 256.0, 256.0, 8.0),
            (1.0 / 16.0, 16.0, 4.0),
            (0.25, 4.0, 2.0),
            (0.5, 2.0, 1.0),
        ] {
            if m < bound {
                m *= factor;
                k += count;
            }
        }
        let z0 = 1.0 / (m + 1.0);
        let z1 = z0 * (-(m + 1.0)).mul_add(z0, 2.0);
        let z2 = z1 * (-(m + 1.0)).mul_add(z1, 2.0);
        let s = (m - 1.0) * z2;
        let mut p = 1.0f32 / 9.0;
        for c in [1.0f32 / 7.0, 1.0 / 5.0, 1.0 / 3.0, 1.0] {
            p = p.mul_add(s * s, c);
        }
        let want = (-k).mul_add(std::f32::consts::LN_2, 2.0 * (s * p));
        assert_eq!(ln_precise(&Native, u.to_bits()), want.to_bits(), "ln({u})");
    }
}

#[test]
fn interpolation_holds_at_the_ends() {
    let grid = b32(&[10.0, 20.0, 40.0]);
    let at = |v: f32| {
        f(interp1(
            &Native,
            &grid,
            v.to_bits(),
            1.0f32.to_bits(),
            2.0f32.to_bits(),
        ))
    };
    assert_eq!(at(0.0), 10.0);
    assert_eq!(at(1.0), 10.0);
    assert_eq!(at(1.25), 15.0);
    assert_eq!(at(1.75), 30.0);
    assert_eq!(at(2.0), 40.0);
    assert_eq!(at(9.0), 40.0);
}

// ---------------------------------------------------------------------------
// Reductions and scans
// ---------------------------------------------------------------------------

#[test]
fn reductions_pair_lanes_as_a_tree() {
    let mut a = b32(&[1.0, 2.0, 3.0, 4.0]);
    let mut b = b32(&[1e8, 1.0, -1e8, 1.0]);
    let mut c = b32(&[0.5; 4]);
    let (x, y, z) = tree_sum3(&Native, &mut a, &mut b, &mut c);
    assert_eq!(f(x), 10.0);
    // (1e8 - 1e8) + (1 + 1): the order of the tree, not from the left.
    assert_eq!(f(y), 2.0);
    assert_eq!(f(z), 2.0);
}

#[test]
fn lanes_cover_the_cloud() {
    assert_eq!(lane_len(10, 4), 3);
    assert_eq!(lane_bounds(0, 4, 3, 10), (0, 3));
    assert_eq!(lane_bounds(3, 4, 3, 10), (9, 10));
    let cum = two_level_scan(&Native, &b32(&[1.0; 10]), 4, 3);
    let want: Vec<f32> = (1..=10).map(|k| k as f32).collect();
    assert_eq!(cum, b32(&want));
}

#[test]
fn lower_bound_finds_the_first_that_reaches() {
    let cum = b32(&[0.1, 0.4, 0.4, 0.9]);
    assert_eq!(lower_bound(&cum, 0.0f32.to_bits()), 0);
    assert_eq!(lower_bound(&cum, 0.4f32.to_bits()), 1);
    assert_eq!(lower_bound(&cum, 0.5f32.to_bits()), 3);
    // Past the end the last particle is taken.
    assert_eq!(lower_bound(&cum, 2.0f32.to_bits()), 3);
}

// ---------------------------------------------------------------------------
// Layout
// ---------------------------------------------------------------------------

#[test]
fn powers_of_two_are_recognised() {
    for x in 0..200u32 {
        assert_eq!(power_of_two(x), x.is_power_of_two());
    }
    for n in 0..200usize {
        assert_eq!(next_power_of_two(n), n.next_power_of_two());
    }
    assert!(power_of_two(1 << 31));
}

#[test]
fn chunks_are_greedy() {
    assert_eq!(budget_rows(12, 100), 8);
    assert_eq!(budget_rows(12, 3), 1);
    assert_eq!(split_wells(&[3, 3, 3], 6), vec![(0, 2), (2, 3)]);
    // A well over the budget still gets a chunk of its own.
    assert_eq!(split_wells(&[9, 1, 1, 9], 4), vec![(0, 1), (1, 3), (3, 4)]);
    assert_eq!(split_wells(&[], 4), vec![]);
}

#[test]
fn chunks_read_row_counts_alone() {
    let b = FlatBeamBatch {
        ev_lens: vec![3, 3, 10, 2],
        ..Default::default()
    };
    assert_eq!(b.chunks(2, 48, 4), vec![(0, 2), (2, 3), (3, 4)]);
    let b = FlatBatch {
        ev_lens: vec![3, 3, 10, 2],
        ..Default::default()
    };
    assert_eq!(b.chunks(2, 48, 4), vec![(0, 2), (2, 3), (3, 4)]);
    assert!(FlatBatch::default().chunks(2, 48, 4).is_empty());
    assert!(FlatBeamBatch::default().chunks(2, 48, 4).is_empty());
    assert_eq!(FlatBatch::default().n_wells(), 0);
    assert_eq!(FlatBeamBatch::default().n_wells(), 0);
}

#[test]
fn batches_are_laid_out_flat() {
    let wells = vec![
        well(2, &[1.0, 2.0]),
        well(0, &[1.0, 2.0]),
        well(3, &[5.0, 6.0, 7.0]),
    ];
    assert_eq!(count_rows(&wells), Some(5));
    let (b, kept) = FlatBatch::build(&Native, &wells, 4).unwrap();
    assert_eq!(kept, vec![0, 2]);
    assert_eq!(b.n_wells(), 2);
    assert_eq!(b.total_rows(), 5);
    assert_eq!(b.ev_lens, vec![2, 3]);
    assert_eq!(b.ev_offsets, vec![0, 2]);
    assert_eq!(b.pred_offsets, vec![0, 8]);
    assert_eq!(b.pred_len, 20);
    assert_eq!(b.row_well, vec![0, 0, 1, 1, 1]);
    assert_eq!(b.meta_u, vec![0, 2, 0, 2, 0, 9, 2, 3, 2, 3, 8, 9]);
    assert_eq!(
        &b.meta_f[8..],
        &b32(&[0.0, 0.5, 4.0, 1.0, 0.0, 4.5, 2.0, 0.25])[..]
    );
    assert_eq!(b.grid, b32(&[1.0, 2.0, 5.0, 6.0, 7.0]));
    assert_eq!(b.chunks(4, 48, 4), vec![(0, 1), (1, 2)]);
    assert_eq!(b.chunks(4, 80, 4), vec![(0, 2)]);

    // A sub-batch is rebased.
    let (sub, row0) = b.sub_batch(1, 2, 4);
    assert_eq!(row0, 2);
    assert_eq!(sub.md, b32(&[100.0, 101.0, 102.0]));
    assert_eq!(sub.meta_u, vec![0, 3, 0, 3, 0, 9]);
    assert_eq!(sub.pred_offsets, vec![0]);
    assert_eq!(sub.pred_len, 12);
    assert_eq!(sub.row_well, vec![0, 0, 0]);
}

#[test]
fn beam_batches_are_laid_out_flat() {
    let wells = vec![beam_well(2), beam_well(0), beam_well(1)];
    assert_eq!(count_beam_rows(&wells), Some(3));
    assert!(is_beam_addressable(&wells));
    let (b, kept) = FlatBeamBatch::build(&wells).unwrap();
    assert_eq!(kept, vec![0, 2]);
    assert_eq!(b.n_wells(), 2);
    assert_eq!(b.total_rows(), 3);
    assert_eq!(b.meta_u, vec![0, 2, 0, 3, 2, 1, 3, 3]);
    assert_eq!(b.meta_f, b64(&[2.0, 2.0]));
    assert_eq!(b.row_well, vec![0, 0, 1]);
    assert_eq!(b.ev_offsets, vec![0, 2]);
    assert_eq!(b.chunks(3, 48, 8), vec![(0, 1), (1, 2)]);
    let (sub, row0) = b.sub_batch(1, 2);
    assert_eq!(row0, 2);
    assert_eq!(sub.meta_u, vec![0, 1, 0, 3]);
    assert_eq!(sub.tw_gr, b64(&[40.0, 50.0, 60.0]));
}

// ---------------------------------------------------------------------------
// Seed weights and blends
// ---------------------------------------------------------------------------

#[test]
fn seed_weights_are_a_softmax() {
    let mut w = vec![0u32; 3];
    seed_weights(&Native, &b32(&[-5.0, -5.0, -5.0]), 3.0f32.to_bits(), &mut w);
    for x in &w {
        assert!((f(*x) - 1.0 / 3.0).abs() < 1e-7);
    }
    seed_weights(&Native, &b32(&[0.0, -2.0, -4.0]), 2.0f32.to_bits(), &mut w);
    let e = [1.0f32, (-1.0f32).exp(), (-2.0f32).exp()];
    let sum: f64 = e.iter().map(|v| *v as f64).sum();
    let inv = (1.0 / sum) as f32;
    assert_eq!(w, b32(&[e[0] * inv, e[1] * inv, e[2] * inv]));
    // Nothing to prefer: equal shares.
    let nothing = b32(&[f32::NEG_INFINITY, f32::NEG_INFINITY]);
    let mut w = vec![0u32; 2];
    seed_weights(&Native, &nothing, 2.0f32.to_bits(), &mut w);
    assert_eq!(w, b32(&[0.5, 0.5]));
}

#[test]
fn seeds_and_places_go_pairwise() {
    let scale = 1.0f32.to_bits();
    let liks = b32(&[0.0, 0.0, 0.0, 0.0]);
    // Fewer places: the sum is over the seeds that have one.
    let mut few = vec![0u32; 2];
    seed_weights(&Native, &liks, scale, &mut few);
    assert_eq!(few, b32(&[0.5, 0.5]));
    // More places: the rest are scaled as they stand.
    let mut many = b32(&[9.0, 9.0, 9.0, 9.0, 8.0, 20.0]);
    seed_weights(&Native, &liks, scale, &mut many);
    assert_eq!(many, b32(&[0.25, 0.25, 0.25, 0.25, 2.0, 5.0]));
    // Nothing to prefer: every place gets the share of a seed.
    let nothing = b32(&[f32::NEG_INFINITY; 4]);
    let mut many = b32(&[9.0, 9.0, 9.0, 9.0, 8.0, 20.0]);
    seed_weights(&Native, &nothing, scale, &mut many);
    assert_eq!(many, b32(&[0.25; 6]));
}

#[test]
fn blends_and_spreads_are_weighted_moments() {
    // Two seeds of three rows.
    let preds = b32(&[1.0, 2.0, 3.0, 5.0, 6.0, 7.0]);
    let wts = b32(&[0.25, 0.75]);
    assert_eq!(f(blend_at(&Native, &preds, 0, 3, 1, &wts)), 5.0);
    for form in [Formulas::Plain, Formulas::Pinned] {
        assert_eq!(f(spread_at(&Native, form, &preds, 0, 3, 2, 2)), 2.0);
    }
    let all = blend_weights(&Native, &b32(&[0.0, 0.0]), 1, 2, &b32(&[3.0]), 2);
    assert_eq!(all, b32(&[0.5, 0.5, 0.5, 0.5]));
}

// ---------------------------------------------------------------------------
// Text
// ---------------------------------------------------------------------------

#[test]
fn channels_are_named_by_their_scales() {
    let s = b32(&[3.0, 0.5, -2.0, 12.0]);
    assert_eq!(
        channel_names(&s, true),
        vec![
            "pf_scale_3",
            "pf_scale_0.5",
            "pf_scale_-2",
            "pf_scale_12",
            "pf_mean",
            "pf_pt_std"
        ]
    );
    assert_eq!(channel_names(&s, false).len(), 5);
    assert_eq!(fmt_g(100.0f32.to_bits()), "100");
    assert_eq!(fmt_g(2.25f32.to_bits()), "2.25");
    assert_eq!(fmt_g(0.0f32.to_bits()), "0");
}

#[test]
fn scales_print_as_general_numbers() {
    let cases = [
        (3.0f32, "3"),
        (2.5, "2.5"),
        (0.1, "0.1"),
        (-0.0, "-0"),
        (-7.0, "-7"),
        (1.0 / 3.0, "0.333333"),
        (-2.0 / 3.0, "-0.666667"),
        (999_999.0, "999999"),
        (1_000_000.0, "1e+06"),
        (9_999_999.0, "1e+07"),
        (1_234_567.0, "1.23457e+06"),
        (1_500_000.0, "1.5e+06"),
        (999_999.5, "1e+06"),
        (123_456.5, "123456"),
        (123_457.5, "123458"),
        (99.999_99, "100"),
        (1234.5678, "1234.57"),
        (0.001, "0.001"),
        (0.0001, "0.0001"),
        (0.000_123_456_79, "0.000123457"),
        (0.000_01, "1e-05"),
        (0.000_099_999_99, "0.0001"),
        (1.5e-7, "1.5e-07"),
        (16_777_216.0, "1.67772e+07"),
        (1e10, "1e+10"),
        (2.5e-12, "2.5e-12"),
        (f32::MAX, "3.40282e+38"),
        (f32::MIN_POSITIVE, "1.17549e-38"),
        (f32::INFINITY, "inf"),
        (f32::NEG_INFINITY, "-inf"),
    ];
    for (v, text) in cases {
        assert_eq!(fmt_g(v.to_bits()), text, "{v:e}");
    }
    // The smallest positive number, and numbers that are none.
    assert_eq!(fmt_g(1), "1.4013e-45");
    assert_eq!(fmt_g(0x8000_0001), "-1.4013e-45");
    assert_eq!(fmt_g(f32::NAN.to_bits()), "nan");
    assert_eq!(fmt_g(0xFFC0_0000), "nan");
}

#[test]
fn six_digits_are_the_nearest_ones() {
    // The machine rounds decimals correctly, ties to even.
    let mut x: u32 = 0x1234_5678;
    for _ in 0..20_000 {
        x = x.wrapping_mul(1_664_525).wrapping_add(1_013_904_223);
        let v = x & 0x7FFF_FFFF;
        if v == 0 || v >= 0x7F80_0000 {
            continue;
        }
        let shown = format!("{:.5e}", f(v));
        let (digits, exponent) = shown.split_once('e').unwrap();
        let number: u32 = digits.replace('.', "").parse().unwrap();
        let power: i32 = exponent.parse().unwrap();
        assert_eq!(six_digits(v), (number, power), "{shown}");
    }
}

#[test]
fn numbers_are_parsed_in_range() {
    assert_eq!(parse_number("0", 10), Some(0));
    assert_eq!(parse_number("007", 10), Some(7));
    assert_eq!(parse_number("+10", 10), Some(10));
    assert_eq!(parse_number("11", 10), None);
    assert_eq!(parse_number("", 10), None);
    assert_eq!(parse_number("+", 10), None);
    assert_eq!(parse_number("-1", 10), None);
    assert_eq!(parse_number("1x", 10), None);
    assert_eq!(parse_number("18446744073709551615", u64::MAX), Some(u64::MAX));
    assert_eq!(parse_number("18446744073709551616", u64::MAX), None);
}

// ---------------------------------------------------------------------------
// Requests that are refused
// ---------------------------------------------------------------------------

fn pf_issue(wells: &[WellInput], cfg: &PfConfig) -> ConfigIssue {
    let scales = b32(&[3.0]);
    assert!(is_plannable(wells, cfg, &scales));
    match run_pf(&Native, wells, cfg, &scales) {
        Err(PfError::Config(e)) => e,
        other => panic!("{other:?} should have been refused"),
    }
}

fn beam_issue(wells: &[BeamWellInput], configs: &[BeamConfig], o: &BeamOptions) -> ConfigIssue {
    assert!(is_beam_plannable(wells, configs));
    match run_beam(&Native, wells, configs, o) {
        Err(PfError::Config(e)) => e,
        other => panic!("{other:?} should have been refused"),
    }
}

#[test]
fn particle_filter_requests_are_checked() {
    let ok = well(2, &[1.0, 2.0]);
    let cfg = PfConfig::default();
    let base = PfConfig {
        cube_dim: 100,
        ..cfg
    };
    let e = pf_issue(&[ok.clone()], &base);
    assert_eq!(e, ConfigIssue::CubeDim { cube_dim: 100 });
    assert_eq!(
        e.message(&Native),
        "cube_dim must be a non-zero power of two, got 100"
    );
    let zero = PfConfig { cube_dim: 0, ..cfg };
    assert_eq!(
        pf_issue(&[ok.clone()], &zero),
        ConfigIssue::CubeDim { cube_dim: 0 }
    );
    let none = PfConfig {
        n_particles: 0,
        ..cfg
    };
    assert_eq!(
        pf_issue(&[ok.clone()], &none).message(&Native),
        "n_particles must be > 0"
    );
    let seedless = PfConfig { n_seeds: 0, ..cfg };
    assert_eq!(
        pf_issue(&[ok.clone()], &seedless).message(&Native),
        "n_seeds must be > 0"
    );
    let mut bad = ok.clone();
    bad.z.push(0);
    assert_eq!(
        pf_issue(&[ok.clone(), bad], &cfg).message(&Native),
        "well 1: md/z/gr length mismatch (2, 3, 2)"
    );
    assert_eq!(
        pf_issue(&[well(2, &[1.0])], &cfg).message(&Native),
        "well 0: GR grid needs at least 2 samples, got 1"
    );
    // A well without rows is checked all the same.
    assert_eq!(
        pf_issue(&[ok.clone(), well(0, &[])], &cfg).message(&Native),
        "well 1: GR grid needs at least 2 samples, got 0"
    );
    let mut bad = ok.clone();
    bad.step = (-0.5f32).to_bits();
    assert_eq!(
        pf_issue(&[bad], &cfg).message(&Native),
        "well 0: grid step must be positive, got -0.5"
    );
    let mut bad = ok.clone();
    bad.step = f32::NAN.to_bits();
    assert_eq!(
        pf_issue(&[bad], &cfg).message(&Native),
        "well 0: grid step must be positive, got NaN"
    );
    let mut bad = ok;
    bad.gs = f32::INFINITY.to_bits();
    let e = pf_issue(&[bad], &cfg);
    assert_eq!(
        PfError::Config(e).message(&Native),
        "invalid particle-filter configuration: well 0: gr sigma must be positive, got inf"
    );
    let capacity = ConfigIssue::Capacity {
        n_particles: 9,
        capacity: 8,
    };
    assert_eq!(
        capacity.message(&Native),
        "n_particles 9 exceeds shared-memory capacity 8"
    );
}

#[test]
fn reference_refuses_what_the_plan_refuses() {
    let cfg = PfConfig {
        n_particles: 4,
        n_seeds: 2,
        ..Default::default()
    };
    let scales = b32(&[3.0]);
    let good = well(2, &[5.0, 6.0]);
    let one_sample = well(1, &[5.0]);
    let no_grid = well(1, &[]);
    let mut short = good.clone();
    short.z.pop();
    let mut long = good.clone();
    long.gr.push(0);
    let mut flat = good.clone();
    flat.step = 0.0f32.to_bits();
    let mut infinite = good.clone();
    infinite.step = f32::INFINITY.to_bits();
    let mut noiseless = good.clone();
    noiseless.gs = (-1.0f32).to_bits();
    let mut undefined = good.clone();
    undefined.gs = f32::NAN.to_bits();
    let bad = [
        one_sample, no_grid, short, long, flat, infinite, noiseless, undefined,
    ];
    for w in bad {
        let wells = vec![good.clone(), w];
        let r = run_reference(&Native, &wells, &cfg, &scales).err();
        assert!(matches!(r, Some(PfError::Config(_))));
        assert!(r == run_pf(&Native, &wells, &cfg, &scales).err());
        let plain = run_reference_with(&Native, Formulas::Plain, &wells, &cfg, &scales);
        assert!(plain.err() == r);
    }
    // The configuration is looked at first.
    let worse = PfConfig {
        n_particles: 0,
        ..cfg
    };
    let wells = vec![well(1, &[5.0])];
    let r = run_reference(&Native, &wells, &worse, &scales).err();
    assert!(r == run_pf(&Native, &[], &worse, &scales).err());
    assert!(run_reference(&Native, &[good], &cfg, &scales).is_ok());
}

#[test]
fn beam_requests_are_checked() {
    let o = BeamOptions::default();
    let w = [beam_well(3)];
    let c = |size: u32, cost: f64, scale: f64, radius: u32| {
        BeamConfig::new(size, cost.to_bits(), scale.to_bits(), radius)
    };
    let good = c(4, 20.0, 144.0, 2);
    let wide = BeamOptions { cube_dim: 3, ..o };
    assert_eq!(
        beam_issue(&w, &[good], &wide).message(&Native),
        "cube_dim must be a non-zero power of two, got 3"
    );
    assert_eq!(
        beam_issue(&w, &[], &o).message(&Native),
        "at least one beam config is required"
    );
    assert_eq!(
        beam_issue(&w, &[good, c(0, 1.0, 1.0, 0)], &o).message(&Native),
        "beam config 1: beam_size must be > 0"
    );
    assert_eq!(
        beam_issue(&w, &[c(4, 1.0, 0.0, 0)], &o).message(&Native),
        "beam config 0: err_scale must be positive, got 0"
    );
    assert_eq!(
        beam_issue(&w, &[c(4, -1.5, 1.0, 0)], &o).message(&Native),
        "beam config 0: move_cost must be non-negative, got -1.5"
    );
    assert_eq!(
        beam_issue(&w, &[c(4, 1.0, 1.0, 65)], &o).message(&Native),
        "beam config 0: radius must be <= 64, got 65"
    );
    let mut bad = beam_well(3);
    bad.tw_gr.pop();
    assert_eq!(
        beam_issue(&[beam_well(1), bad], &[good], &o).message(&Native),
        "beam well 1: tw_tvt/tw_gr length mismatch (3, 2)"
    );
    let mut bad = beam_well(3);
    bad.tw_tvt.clear();
    bad.tw_gr.clear();
    assert_eq!(
        beam_issue(&[bad], &[good], &o).message(&Native),
        "beam well 0: the type-well log is empty"
    );
    let mut bad = beam_well(3);
    bad.last_tvt = f64::NAN.to_bits();
    assert_eq!(
        beam_issue(&[bad], &[good], &o).message(&Native),
        "beam well 0: last_tvt must be finite, got NaN"
    );
}

// ---------------------------------------------------------------------------
// Backends
// ---------------------------------------------------------------------------

#[test]
fn backends_are_named_in_any_case() {
    for (name, want) in [
        ("auto", Backend::Auto),
        ("HIP", Backend::Hip),
        ("rocm", Backend::Hip),
        ("CUDA", Backend::Cuda),
        ("gpu", Backend::Cuda),
        ("Wgpu", Backend::Wgpu),
        ("vulkan", Backend::Wgpu),
        ("Metal", Backend::Wgpu),
        ("cPu", Backend::Cpu),
    ] {
        assert_eq!(Backend::from_str(name), Ok(want));
    }
    let e = Backend::from_str("TP\"U").unwrap_err();
    // The name is lowered, then quoted.
    assert_eq!(
        e.message(&Native),
        "invalid particle-filter configuration: unknown backend \"tp\\\"u\""
    );
    assert_eq!(Backend::Hip.label(), "hip");
    assert_eq!(Backend::from_str(&Backend::Wgpu.label()), Ok(Backend::Wgpu));
}

#[test]
fn backends_are_tried_in_order() {
    let build = Build {
        hip: false,
        cuda: true,
        wgpu: true,
        cpu: false,
    };
    let all = available_backends(build);
    assert_eq!(all, vec![Backend::Cuda, Backend::Wgpu]);
    assert!(matches!(probe(&all, 0, None), Probe::Try(Backend::Cuda)));
    let first = unavailable(Backend::Cuda, Some(String::from("no driver")));
    assert_eq!(
        first.message(&Native),
        "device error: Cuda backend unavailable: no driver"
    );
    assert!(matches!(
        probe(&all, 1, Some(first)),
        Probe::Try(Backend::Wgpu)
    ));
    let last = unavailable(Backend::Wgpu, None);
    match probe(&all, 2, Some(last)) {
        Probe::GiveUp(e) => assert_eq!(
            e.message(&Native),
            "device error: Wgpu backend unavailable: panicked while initialising"
        ),
        Probe::Try(_) => panic!("nothing is left to try"),
    }
    match probe(&[], 0, None) {
        Probe::GiveUp(e) => assert_eq!(
            e.message(&Native),
            "no usable backend: compile with one of the `hip`, `cuda`, `wgpu` or `cpu` features"
        ),
        Probe::Try(_) => panic!("nothing to try"),
    }
    assert_eq!(
        missing(Backend::Cpu),
        PfError::NoBackend(String::from("built without the `cpu` feature"))
    );
}

// ---------------------------------------------------------------------------
// Command lines
// ---------------------------------------------------------------------------

fn argv(words: &[&str]) -> Vec<String> {
    words.iter().map(|w| String::from(*w)).collect()
}

#[test]
fn benchmark_arguments_are_read() {
    let a = parse_pf_args(&argv(&[
        "--backend", "cpu", "--wells", "2", "--rows", "100", "--particles", "64", "--seeds", "8",
        "--cube-dim", "32", "--verify", "--repeat", "3",
    ]))
    .unwrap();
    assert_eq!(a.backend, Backend::Cpu);
    assert_eq!((a.wells, a.rows, a.repeat), (2, 100, 3));
    assert_eq!((a.particles, a.seeds, a.cube_dim), (64, 8, 32));
    assert!(a.verify);
    let d = parse_pf_args(&[]).unwrap();
    assert_eq!((d.wells, d.rows, d.particles, d.seeds), (16, 2000, 500, 128));

    let b = parse_beam_args(&argv(&["--beam-size", "7", "--wells", "4"])).unwrap();
    assert_eq!(b.beam_size, Some(7));
    assert_eq!((b.wells, b.cube_dim), (4, 64));
    let wide = bench_configs(&notebook_beam_configs(), b.beam_size);
    assert!(wide.iter().all(|c| c.beam_size == 7));
    assert_eq!(wide.len(), 14);

    for (words, at, issue) in [
        (vec!["--wells"], 0, ArgIssue::NeedsValue),
        (vec!["--verify", "--rows", "many"], 1, ArgIssue::NotANumber),
        (vec!["--cube-dim", "4294967296"], 0, ArgIssue::NotANumber),
        (vec!["--backend", "abacus"], 0, ArgIssue::NotABackend),
        (vec!["--frobnicate"], 0, ArgIssue::Unknown),
    ] {
        let want = ArgError { at, issue };
        assert_eq!(parse_pf_args(&argv(&words)).unwrap_err(), want);
        assert_eq!(parse_beam_args(&argv(&words)).unwrap_err(), want);
    }
}

// ---------------------------------------------------------------------------
// Synthetic wells and grids
// ---------------------------------------------------------------------------

/// The generator written out with native floats: the first normal and the first row.
#[test]
fn synthetic_wells_follow_their_recipe() {
    let (w, truth) = synthetic_well(&Native, 5, 8);
    assert_eq!(w.grid.len(), 4000);
    let mut x = 5u32.wrapping_mul(2_654_435_761).wrapping_add(12345) | 1;
    let mut next = || {
        x = x.wrapping_mul(1_664_525).wrapping_add(1_013_904_223);
        (x >> 8) as f32 / 16_777_216.0
    };
    let mut normal = || {
        let u1 = next().max(1e-7);
        let u2 = next();
        (-2.0 * u1.ln()).sqrt() * (std::f32::consts::TAU * u2).cos()
    };
    let raw: Vec<f32> = (0..4000).map(|_| normal()).collect();
    for i in [0usize, 5, 12, 2000, 3999] {
        let (lo, hi) = (i.saturating_sub(12), (i + 13).min(4000));
        let m = raw[lo..hi].iter().sum::<f32>() / (hi - lo) as f32;
        assert_eq!(f(w.grid[i]), (70.0 + 90.0 * m).clamp(5.0, 160.0), "sample {i}");
    }
    let rate = 0.995 * 0.0 + 0.006 * normal();
    let tvt = -40.0 + rate;
    assert_eq!(f(truth[0]), tvt);
    assert_eq!(f(w.md[3]), 9003.0);
    assert_eq!(f(w.z[3]), 12.0 * (3.0f32 / 700.0).sin());
    let fi = (tvt + 300.0) / 0.2f32;
    let k = fi as usize;
    let t = fi - k as f32;
    let clean = f(w.grid[k]) * (1.0 - t) + f(w.grid[k + 1]) * t;
    assert_eq!(f(w.gr[0]), clean + 4.0 * normal());
    assert_eq!(f(w.ls), f(truth[0]) + f(w.z[0]));
    assert_eq!(
        f(w.ir),
        (f(truth[1]) + f(w.z[1]) - (f(truth[0]) + f(w.z[0]))) / (f(w.md[1]) - f(w.md[0]))
    );
    assert_eq!((f(w.gs), f(w.init_spr), w.seed_base), (6.0, 4.5, 5));

    // The longer well begins with the shorter one.
    let (long, path) = synthetic_well(&Native, 5, 20);
    assert_eq!(&path[..8], &truth[..]);
    assert_eq!(&long.gr[..8], &w.gr[..]);

    // The beam search's shape holds the same samples.
    let (b, wide) = synthetic_beam_well(&Native, 5, 8);
    assert_eq!(d(wide[7]), f(truth[7]) as f64);
    assert_eq!(d(b.tw_gr[9]), f(w.grid[9]) as f64);
    assert_eq!(d(b.last_tvt), f(truth[0]) as f64);
    let i = 9.0f32;
    let at = -300.0f32 + i * 0.2 + 0.05 * 0.2 * (i * 0.7).sin();
    assert_eq!(d(b.tw_tvt[9]), at as f64);
    assert!(b.tw_tvt.windows(2).all(|p| d(p[0]) < d(p[1])));
}

#[test]
fn errors_are_root_mean_squares() {
    let a = b32(&[1.0, 2.0, 3.0, 4.0]);
    let b = b32(&[1.0, 4.0, 3.0, 0.0]);
    assert_eq!(f(rmse(&Native, &a, &b)), 5.0f64.sqrt() as f32);
    let a = b64(&[0.0, 3.0]);
    let b = b64(&[4.0, 0.0]);
    assert_eq!(d(rmse64(&Native, &a, &b)), 12.5f64.sqrt());
}

#[test]
fn logs_are_resampled_onto_a_grid() {
    let tvt = b32(&[1.0, 2.0, 2.0, 4.0]);
    let gr = b32(&[10.0, 20.0, 30.0, 50.0]);
    let g = make_grid(&Native, &tvt, &gr, 0.5f32.to_bits()).unwrap_or_else(|_| panic!());
    assert_eq!(f(g.vmin), 1.0);
    assert_eq!(f(g.step), 0.5);
    assert_eq!(
        g.grid,
        b32(&[10.0, 15.0, 20.0, 35.0, 40.0, 45.0, 50.0])
    );
    assert_eq!(
        resample(&Native, &tvt, &gr, 0.0f32.to_bits(), 8.0f32.to_bits(), 2),
        b32(&[10.0, 50.0])
    );
    for (t, s) in [(vec![0u32; 1], vec![0u32; 1]), (vec![0; 3], vec![0; 2])] {
        let r = make_grid(&Native, &t, &s, 0.5f32.to_bits());
        assert!(matches!(r, Err(GridIssue::Lengths)));
    }
    let far = make_grid(&Native, &b32(&[0.0, 1.0]), &b32(&[0.0, 1.0]), 1e-30f32.to_bits());
    assert!(matches!(far, Err(GridIssue::TooLong)));
}

// ---------------------------------------------------------------------------
// Plans
// ---------------------------------------------------------------------------

/// Bytes of a reply are read back as the words they were written from.
#[test]
fn filter_replies_go_to_their_place() {
    let cfg = PfConfig {
        n_particles: 8,
        n_seeds: 2,
        cube_dim: 4,
        with_seed_paths: true,
        pred_budget_bytes: 1,
        ..PfConfig::default()
    };
    let scales = b32(&[3.0]);
    let wells = vec![well(2, &[1.0, 2.0]), well(3, &[5.0, 6.0, 7.0])];
    assert!(is_plannable(&wells, &cfg, &scales));
    let mut plan = PfPlan::start(&Native, &wells, &cfg, &scales).unwrap_or_else(|_| panic!());
    assert_eq!(plan.chunks, vec![(0, 1), (1, 2)]);
    assert_eq!(plan.n_out, 2);
    assert_eq!(plan.std_channel, NO_CHANNEL);
    assert_eq!(plan.smem, 8);
    let c = plan.chunk(&cfg, &scales, 1);
    assert_eq!((c.w0, c.w1, c.row0, c.n_tasks), (1, 2, 2, 2));
    assert_eq!((c.pred_bytes, c.liks_bytes, c.out_bytes), (24, 8, 24));

    let liks = b32(&[-1.5, -2.5]);
    let bytes: Vec<u8> = liks.iter().flat_map(|w| w.to_ne_bytes()).collect();
    assert_eq!(buffer32(&liks), &bytes[..]);
    assert_eq!(plan.take_liks(&cfg, &c, &bytes), liks);
    assert_eq!(&plan.out.liks[2..], &liks[..]);
    assert_eq!(&plan.out.liks[..2], &[0, 0]);

    let preds: Vec<u32> = (1..=6).collect();
    assert_eq!(plan.take_paths(&cfg, &c, buffer32(&preds)), preds);
    let paths = plan.out.seed_paths.clone().unwrap();
    assert_eq!(paths, vec![0, 0, 0, 0, 1, 2, 3, 4, 5, 6]);

    let vals: Vec<u32> = (11..=16).collect();
    assert_eq!(plan.take_values(&c, buffer32(&vals)), vals);
    assert_eq!(plan.out.values, vec![0, 0, 11, 12, 13, 0, 0, 14, 15, 16]);
}

#[test]
fn beam_replies_go_to_their_place() {
    let configs = [
        BeamConfig::new(3, 1.0f64.to_bits(), 2.0f64.to_bits(), 4),
        BeamConfig::new(5, 6.0f64.to_bits(), 7.0f64.to_bits(), 0),
    ];
    let o = BeamOptions {
        with_per_config: true,
        budget_bytes: 1,
        ..BeamOptions::default()
    };
    let wells = vec![beam_well(1), beam_well(2)];
    assert!(is_beam_plannable(&wells, &configs));
    let mut plan = BeamPlan::start(&wells, &configs, &o).unwrap_or_else(|_| panic!());
    assert_eq!(plan.chunks, vec![(0, 1), (1, 2)]);
    assert_eq!(plan.max_beam, 8);
    let planes: Vec<u32> = vec![plan.cfg_u[1], plan.cfg_u[3]];
    assert_eq!(plan.radii[planes[0] as usize], 4);
    assert_eq!(plan.radii[planes[1] as usize], 0);
    let (u, p) = pack_configs(&configs, &planes);
    assert_eq!(u, vec![3, planes[0], 5, planes[1]]);
    assert_eq!(p, b64(&[1.0, 2.0, 6.0, 7.0]));
    let c = plan.chunk(2, 1);
    assert_eq!((c.w0, c.w1, c.row0, c.n_tasks), (1, 2, 1, 2));
    assert_eq!((c.traj_bytes, c.mean_bytes), (32, 16));

    let mean = b64(&[1.5, 2.5]);
    let bytes: Vec<u8> = mean.iter().flat_map(|w| w.to_ne_bytes()).collect();
    assert_eq!(buffer64(&mean), &bytes[..]);
    assert_eq!(plan.take_mean(&c, &bytes), mean);
    assert_eq!(plan.out.mean, vec![0, mean[0], mean[1]]);

    let traj: Vec<u64> = (1..=4).collect();
    assert_eq!(plan.take_tracks(&c, 2, buffer64(&traj)), traj);
    assert_eq!(plan.out.per_config.clone().unwrap(), vec![0, 1, 2, 0, 3, 4]);
}

// ---------------------------------------------------------------------------
// Laws on concrete values
// ---------------------------------------------------------------------------

/// Under one stream no two slots share a key, and under one slot no two streams.
#[test]
fn keys_never_collide() {
    let mut by_slot: Vec<u32> = (0..5000).map(|j| hash32(77, j)).collect();
    by_slot.sort();
    by_slot.dedup();
    assert_eq!(by_slot.len(), 5000);
    let mut by_stream: Vec<u32> = (0..5000).map(|s| hash32(s, 77)).collect();
    by_stream.sort();
    by_stream.dedup();
    assert_eq!(by_stream.len(), 5000);
}

/// The shared memory holds the cloud and a lane per unit.
#[test]
fn shared_memory_covers_the_cloud() {
    for (n_particles, cube_dim, want) in [(500, 256, 512), (3, 16, 16), (16, 16, 16), (1, 1, 1)] {
        let cfg = PfConfig {
            n_particles,
            cube_dim,
            ..PfConfig::default()
        };
        assert_eq!(cfg.smem_particles(), want);
        assert_eq!(cfg.validate(), Ok(()));
    }
}

/// However far a well's start lies off the grid, the estimates stay near it.
#[test]
fn estimates_stay_near_the_grid() {
    let mut w = synthetic_well(&Native, 3, 12).0;
    w.ls = 1e6f32.to_bits();
    let cfg = PfConfig {
        n_particles: 32,
        n_seeds: 2,
        cube_dim: 8,
        ..PfConfig::default()
    };
    let scales = b32(&[3.0]);
    assert!(is_plannable(&[w.clone()], &cfg, &scales));
    let out = run_pf(&Native, &[w.clone()], &cfg, &scales).unwrap();
    let top = f(w.vmin) + 4000.0 * f(w.step) + 100.0;
    for v in out.channel("pf_mean").unwrap() {
        assert!((f(*v) - top).abs() < 1.0, "{} is off {top}", f(*v));
    }
}

/// Integer scales that differ name different channels, and a printed number is read
/// back.
#[test]
fn numbers_are_read_back() {
    for n in [0u64, 9, 10, 4294967295, 10_000_000_000] {
        let text = format!("{n}");
        assert_eq!(parse_number(&text, u64::MAX), Some(n));
    }
    let names = channel_names(&b32(&[1.0, 10.0, 11.0]), false);
    assert_eq!(
        names,
        vec!["pf_scale_1", "pf_scale_10", "pf_scale_11", "pf_mean"]
    );
}
