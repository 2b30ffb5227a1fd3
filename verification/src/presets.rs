//! The standard configurations and limits in decimals.
use vstd::prelude::*;
use vstd::arithmetic::power2::*;
use crate::batch;
use crate::beam;
use crate::beam::BeamConfig;
use crate::beam_reference as beams;
use crate::exact;
use crate::ieee;

verus! {

// ---------------------------------------------------------------------------
// The particle filter
// ---------------------------------------------------------------------------

/// `x` is the binary32 number closest to `n / d`: within a ten millionth part of it.
pub open spec fn decimal32(x: u32, n: int, d: int) -> bool {
    let v = exact::number32(x) * d as real * 10_000_000 as real;
    &&& ieee::finite32(x)
    &&& v >= n as real * 9_999_999 as real
    &&& v <= n as real * 10_000_001 as real
}

/// The standard filter: 500 particles and 128 seeds, a momentum of 0.998, a rate noise of
/// 0.002, a position noise of 0.005, a roughening of 0.1 and 0.001, resampling below half
/// the particles, and a likelihood floor of 1e-12.
pub proof fn lemma_standard_filter()
    ensures
        ({
            let c = batch::standard_config();
            &&& (c.n_particles, c.n_seeds, c.cube_dim) == (500u32, 128u32, 256u32)
            &&& decimal32(c.mom, 998, 1000)
            &&& decimal32(c.vn, 2, 1000)
            &&& decimal32(c.pn, 5, 1000)
            &&& decimal32(c.rough_p, 1, 10)
            &&& decimal32(c.rough_r, 1, 1000)
            &&& decimal32(c.lik_floor, 1, 1_000_000_000_000)
            &&& exact::is32(c.resamp, 1 as real / 2 as real)
            &&& c.pred_budget_bytes == 512 * 1024 * 1024
            &&& !c.with_std && !c.with_seed_paths
        }),
{
    lemma2_to64();
    lemma2_to64_rest();
    exact::lemma_normal32(0x3F7F_7CEE, 126, 0xFF_7CEE, 0x1000000);
    exact::lemma_normal32(0x3B03_126F, 118, 0x83_126F, 0x100000000);
    exact::lemma_normal32(0x3BA3_D70A, 119, 0xA3_D70A, 0x80000000);
    exact::lemma_normal32(0x3DCC_CCCD, 123, 0xCC_CCCD, 0x8000000);
    exact::lemma_normal32(0x3A83_126F, 117, 0x83_126F, 0x200000000);
    exact::lemma_normal32(0x2B8C_BCCC, 87, 0x8C_BCCC, 0x8000000000000000);
    exact::lemma_normal32(0x3F00_0000, 126, 0x80_0000, 0x100_0000);
    let c = batch::standard_config();
    assert(exact::number32(c.mom) == 0xFF_7CEE as real / 0x100_0000 as real);
    assert(decimal32(c.mom, 998, 1000));
    assert(decimal32(c.vn, 2, 1000));
    assert(decimal32(c.pn, 5, 1000));
    assert(decimal32(c.rough_p, 1, 10));
    assert(decimal32(c.rough_r, 1, 1000));
    assert(decimal32(c.lik_floor, 1, 1_000_000_000_000));
    assert(exact::is32(c.resamp, 1 as real / 2 as real));
    assert(c.pred_budget_bytes == 512 * 1024 * 1024);
}

// ---------------------------------------------------------------------------
// The beam search
// ---------------------------------------------------------------------------

/// A configuration in decimal: beam size, move cost, error scale and radius.
pub open spec fn reads(c: BeamConfig, size: int, cost: int, scale: int, radius: int) -> bool {
    &&& c.beam_size == size
    &&& exact::is64(c.move_cost, cost as real)
    &&& exact::is64(c.err_scale, scale as real)
    &&& c.radius == radius
}

proof fn lemma_whole(x: u64, e: int, k: int)
    requires
        1023 <= e <= 1075,
        0x10_0000_0000_0000 <= k * pow2((1075 - e) as nat) < 0x20_0000_0000_0000,
        x as int == e * 0x10_0000_0000_0000 + (k * pow2((1075 - e) as nat) - 0x10_0000_0000_0000),
        x < 0x7FF0_0000_0000_0000,
    ensures
        exact::is64(x, k as real),
{
    let u = pow2((1075 - e) as nat) as int;
    lemma_pow2_pos((1075 - e) as nat);
    exact::lemma_normal64(x, e, k * u);
    assert((k * u) as real == k as real * u as real) by (nonlinear_arith);
    let (a, b, c) = (exact::number64(x), u as real, k as real);
    assert(a == c) by (nonlinear_arith)
        requires
            a * b == c * b,
            b > 0 as real,
    ;
}

/// The standard ensemble, in decimal.
pub proof fn lemma_standard_ensemble()
    ensures
        ({
            let t = beam::standard_ensemble();
            &&& t.len() == 14
            &&& reads(t[0], 10, 20, 144, 2)
            &&& reads(t[1], 10, 8, 64, 2)
            &&& reads(t[2], 8, 35, 220, 1)
            &&& reads(t[3], 10, 14, 90, 5)
            &&& reads(t[4], 20, 4, 36, 3)
            &&& reads(t[5], 12, 12, 100, 3)
            &&& reads(t[6], 15, 25, 180, 2)
            &&& reads(t[7], 20, 30, 200, 2)
            &&& reads(t[8], 15, 10, 80, 4)
            &&& reads(t[9], 25, 6, 50, 3)
            &&& reads(t[10], 10, 40, 300, 1)
            &&& reads(t[11], 12, 18, 120, 5)
            &&& reads(t[12], 30, 8, 70, 2)
            &&& reads(t[13], 10, 50, 400, 0)
        }),
{
    lemma2_to64();
    lemma2_to64_rest();
    lemma_whole(0x4010_0000_0000_0000, 1025, 4);
    lemma_whole(0x4018_0000_0000_0000, 1025, 6);
    lemma_whole(0x4020_0000_0000_0000, 1026, 8);
    lemma_whole(0x4024_0000_0000_0000, 1026, 10);
    lemma_whole(0x4028_0000_0000_0000, 1026, 12);
    lemma_whole(0x402C_0000_0000_0000, 1026, 14);
    lemma_whole(0x4032_0000_0000_0000, 1027, 18);
    lemma_whole(0x4034_0000_0000_0000, 1027, 20);
    lemma_whole(0x4039_0000_0000_0000, 1027, 25);
    lemma_whole(0x403E_0000_0000_0000, 1027, 30);
    lemma_whole(0x4041_8000_0000_0000, 1028, 35);
    lemma_whole(0x4042_0000_0000_0000, 1028, 36);
    lemma_whole(0x4044_0000_0000_0000, 1028, 40);
    lemma_whole(0x4049_0000_0000_0000, 1028, 50);
    lemma_whole(0x4050_0000_0000_0000, 1029, 64);
    lemma_whole(0x4051_8000_0000_0000, 1029, 70);
    lemma_whole(0x4054_0000_0000_0000, 1029, 80);
    lemma_whole(0x4056_8000_0000_0000, 1029, 90);
    lemma_whole(0x4059_0000_0000_0000, 1029, 100);
    lemma_whole(0x405E_0000_0000_0000, 1029, 120);
    lemma_whole(0x4062_0000_0000_0000, 1030, 144);
    lemma_whole(0x4066_8000_0000_0000, 1030, 180);
    lemma_whole(0x4069_0000_0000_0000, 1030, 200);
    lemma_whole(0x406B_8000_0000_0000, 1030, 220);
    lemma_whole(0x4072_C000_0000_0000, 1031, 300);
    lemma_whole(0x4079_0000_0000_0000, 1031, 400);
}

/// A slot is dead from half of `1e30` on, and an empty one costs `1e30`, to the precision
/// of binary64.
pub proof fn lemma_dead_costs_are_huge()
    ensures
        exact::is64(beams::BEAM_INF, 1_000_000_000_000_000_019_884_624_838_656int as real),
        exact::is64(beams::BEAM_DEAD, 500_000_000_000_000_009_942_312_419_328int as real),
{
    lemma2_to64();
    lemma2_to64_rest();
    exact::lemma_normal64(0x4629_3E59_39A0_8CEA, 1122, 0x19_3E59_39A0_8CEA);
    exact::lemma_normal64(0x4619_3E59_39A0_8CEA, 1121, 0x19_3E59_39A0_8CEA);
}

} // verus!
