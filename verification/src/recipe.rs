//! What a synthetic well is made of, as numbers: a type well of smoothed noise, a path that
//! wanders through it with momentum, and a gamma ray that reads the type well along the
//! path.
use vstd::prelude::*;
use vstd::arithmetic::power2::*;
use crate::arith;
use crate::arith::Arith;
use crate::averages;
use crate::exact;
use crate::ieee;
use crate::kernel;
use crate::synthetic;
use crate::synthetic::Synthetic;
use crate::tracking;

verus! {

// ---------------------------------------------------------------------------
// Constants
// ---------------------------------------------------------------------------

/// How much of a row's rate the next one keeps: `0.995`, to the precision of binary32.
pub open spec fn keep() -> real {
    exact::number32(0x3F7E_B852)
}

/// How far a row's noise changes the rate: `0.006`, to the precision of binary32.
pub open spec fn drift() -> real {
    exact::number32(0x3BC4_9BA6)
}

/// Spacing of the type well: `0.2`, to the precision of binary32.
pub open spec fn spacing() -> real {
    exact::number32(0x3E4C_CCCD)
}

/// The three constants, to seven decimals.
pub proof fn lemma_decimals()
    ensures
        keep() * 10_000_000 as real >= 9_949_999 as real,
        keep() * 10_000_000 as real <= 9_950_001 as real,
        drift() * 10_000_000 as real >= 59_999 as real,
        drift() * 10_000_000 as real <= 60_001 as real,
        spacing() * 10_000_000 as real >= 1_999_999 as real,
        spacing() * 10_000_000 as real <= 2_000_001 as real,
        ieee::finite32(0x3F7E_B852),
        ieee::finite32(0x3BC4_9BA6),
        ieee::finite32(0x3E4C_CCCD),
{
    lemma2_to64();
    exact::lemma_normal32(0x3F7E_B852, 126, 0xFE_B852, 0x100_0000);
    exact::lemma_normal32(0x3BC4_9BA6, 119, 0xC4_9BA6, 0x8000_0000);
    exact::lemma_normal32(0x3E4C_CCCD, 124, 0xCC_CCCD, 0x400_0000);
}

proof fn lemma_constants()
    ensures
        exact::is32(synthetic::START, -(40 as real)),
        exact::is32(synthetic::TOP, 9000 as real),
        exact::is32(synthetic::WAVE, 700 as real),
        exact::is32(synthetic::TWELVE, 12 as real),
        exact::is32(synthetic::VMIN, -(300 as real)),
        exact::is32(kernel::FOUR, 4 as real),
        exact::is32(synthetic::MID, 70 as real),
        exact::is32(synthetic::SWING, 90 as real),
        exact::is32(synthetic::LOW, 5 as real),
        exact::is32(synthetic::HIGH, 160 as real),
{
    lemma2_to64();
    exact::lemma_normal32(0x4220_0000, 132, 0xA0_0000, 0x4_0000);
    exact::lemma_normal32(0x460C_A000, 140, 0x8C_A000, 0x400);
    exact::lemma_normal32(0x442F_0000, 136, 0xAF_0000, 0x4000);
    exact::lemma_normal32(0x4140_0000, 130, 0xC0_0000, 0x10_0000);
    exact::lemma_normal32(0x4396_0000, 135, 0x96_0000, 0x8000);
    exact::lemma_normal32(0x4080_0000, 129, 0x80_0000, 0x20_0000);
    exact::lemma_normal32(0x428C_0000, 133, 0x8C_0000, 0x2_0000);
    exact::lemma_normal32(0x42B4_0000, 133, 0xB4_0000, 0x2_0000);
    exact::lemma_normal32(0x40A0_0000, 129, 0xA0_0000, 0x20_0000);
    exact::lemma_normal32(0x4320_0000, 134, 0xA0_0000, 0x1_0000);
}

// ---------------------------------------------------------------------------
// The path
// ---------------------------------------------------------------------------

/// The normal draw that row `r` steers the path by: two draws a row, behind the four
/// thousand of the type well.
pub open spec fn steer<A: Arith>(s: Synthetic<A>, r: int) -> u32 {
    s.normal(4000 + 2 * r)
}

/// Change of depth at row `r`: most of the change before, plus noise.
pub open spec fn change<A: Arith>(s: Synthetic<A>, r: int) -> real
    decreases r,
{
    if r <= 0 {
        drift() * exact::number32(steer(s, r))
    } else {
        keep() * change(s, r - 1) + drift() * exact::number32(steer(s, r))
    }
}

/// Depth at row `r`: the path starts from forty below zero.
pub open spec fn depth<A: Arith>(s: Synthetic<A>, r: int) -> real
    decreases r,
{
    if r <= 0 {
        -(40 as real) + change(s, r)
    } else {
        depth(s, r - 1) + change(s, r)
    }
}

/// Nothing rounds on the way to row `q`.
pub open spec fn path_fits<A: Arith>(s: Synthetic<A>, q: int) -> bool {
    &&& ieee::finite32(steer(s, q))
    &&& exact::fits32(drift() * exact::number32(steer(s, q)))
    &&& q > 0 ==> exact::fits32(keep() * change(s, q - 1))
    &&& exact::fits32(change(s, q))
    &&& exact::fits32(depth(s, q))
}

/// The true path wanders with momentum: each row keeps most of the change of the row
/// before it and adds noise to it, and the depth adds up the changes.
pub proof fn lemma_path_has_momentum<A: Arith>(s: Synthetic<A>, r: int)
    requires
        exact::faithful32(s.m),
        0 <= r,
        forall|q: int| 0 <= q <= r ==> #[trigger] path_fits(s, q),
    ensures
        exact::is32(s.rate(r), change(s, r)),
        exact::is32(s.truth(r), depth(s, r)),
    decreases r,
{
    let m = s.m;
    lemma_decimals();
    lemma_constants();
    exact::lemma_constants32();
    assert(path_fits(s, r));
    let n = steer(s, r);
    let before = if r <= 0 {
        ieee::ZERO32
    } else {
        s.rate(r - 1)
    };
    let at = if r <= 0 {
        synthetic::START
    } else {
        s.truth(r - 1)
    };
    if r > 0 {
        lemma_path_has_momentum(s, r - 1);
    }
    let k = keep();
    assert(k * (0 as real) == 0 as real) by (nonlinear_arith);
    let rest = arith::product32(m, synthetic::KEEP, before);
    assert(exact::fits32(keep() * exact::number32(before))) by {
        if r <= 0 {
            assert(exact::number32(ieee::ZERO32) == keep() * exact::number32(before));
        }
    }
    exact::lemma_product32(m, synthetic::KEEP, before);
    let noise = arith::product32(m, synthetic::DRIFT, n);
    exact::lemma_product32(m, synthetic::DRIFT, n);
    exact::lemma_sum32(m, rest, noise);
    let rate = s.rate(r);
    assert(rate == arith::sum32(m, rest, noise));
    exact::lemma_product32(m, rate, ieee::ONE32);
    let x = exact::number32(rate);
    assert(x * (1 as real) == x) by (nonlinear_arith);
    exact::lemma_sum32(m, at, arith::product32(m, rate, ieee::ONE32));
}

/// Measured depth grows by one a row, from nine thousand on.
pub proof fn lemma_rows_are_a_unit_apart<A: Arith>(s: Synthetic<A>, r: int)
    requires
        exact::faithful32(s.m),
        0 <= r <= 0x100_0000 - 9000,
    ensures
        exact::is32(s.md(r), (9000 + r) as real),
{
    lemma_constants();
    exact::lemma_of_int32(s.m, r as u64);
    exact::lemma_whole_fits32(9000 + r);
    exact::lemma_sum32(s.m, synthetic::TOP, arith::of_int32(s.m, r as u64));
}

/// The vertical offset swings by twelve either way, in a sine of the row over seven
/// hundred.
pub proof fn lemma_offset_is_a_wave<A: Arith>(s: Synthetic<A>, r: int)
    requires
        exact::faithful32(s.m),
        0 <= r <= 0x100_0000,
    ensures
        exists|ang: u32|
            #![trigger arith::sine32(s.m, ang)]
            exact::near32(ang, r as real / 700 as real) && (ieee::finite32(
                arith::sine32(s.m, ang),
            ) ==> exact::near32(
                s.z(r),
                12 as real * exact::number32(arith::sine32(s.m, ang)),
            )),
{
    lemma_constants();
    let fr = arith::of_int32(s.m, r as u64);
    exact::lemma_of_int32(s.m, r as u64);
    exact::lemma_quotient32(s.m, fr, synthetic::WAVE);
    let ang = arith::quotient32(s.m, fr, synthetic::WAVE);
    let wave = arith::sine32(s.m, ang);
    if ieee::finite32(wave) {
        exact::lemma_product32(s.m, synthetic::TWELVE, wave);
    }
}

/// The filter of a synthetic well starts where the path does: the initial position is the
/// first depth plus the first offset, and the initial rate what position the first two
/// rows cover, a unit apart.
pub proof fn lemma_start_is_on_the_path<A: Arith>(s: Synthetic<A>)
    requires
        exact::faithful32(s.m),
        ieee::finite32(s.truth(0)) && ieee::finite32(s.z(0)),
        ieee::finite32(s.truth(1)) && ieee::finite32(s.z(1)),
        exact::fits32(exact::number32(s.truth(0)) + exact::number32(s.z(0))),
        exact::fits32(exact::number32(s.truth(1)) + exact::number32(s.z(1))),
        exact::fits32(
            (exact::number32(s.truth(1)) + exact::number32(s.z(1))) - (exact::number32(s.truth(0))
                + exact::number32(s.z(0))),
        ),
    ensures
        exact::is32(s.ls(), exact::number32(s.truth(0)) + exact::number32(s.z(0))),
        exact::is32(
            s.ir(),
            (exact::number32(s.truth(1)) + exact::number32(s.z(1))) - (exact::number32(s.truth(0))
                + exact::number32(s.z(0))),
        ),
{
    let m = s.m;
    exact::lemma_sum32(m, s.truth(0), s.z(0));
    exact::lemma_sum32(m, s.truth(1), s.z(1));
    let (p0, p1) = (
        arith::sum32(m, s.truth(0), s.z(0)),
        arith::sum32(m, s.truth(1), s.z(1)),
    );
    exact::lemma_difference32(m, p1, p0);
    let d = arith::difference32(m, p1, p0);
    lemma_rows_are_a_unit_apart(s, 0);
    lemma_rows_are_a_unit_apart(s, 1);
    exact::lemma_constants32();
    exact::lemma_difference32(m, s.md(1), s.md(0));
    let one = arith::difference32(m, s.md(1), s.md(0));
    exact::lemma_whole_fits32(1);
    exact::lemma_quotient32(m, d, one);
    let x = exact::number32(d);
    assert(x / (1 as real) == x) by (nonlinear_arith);
}

// ---------------------------------------------------------------------------
// The gamma ray
// ---------------------------------------------------------------------------

/// The gamma ray of a row reads the type well at the row's depth, `1 - t` parts of sample
/// `i` and `t` parts of the next at `i + t` spacings from the first, plus four times a
/// normal draw of its own.
pub proof fn lemma_gamma_ray_reads_the_path<A: Arith>(s: Synthetic<A>, r: int, i: int, t: real)
    requires
        exact::faithful32(s.m),
        0 <= i < 3999,
        0 as real <= t < 1 as real,
        ieee::finite32(s.truth(r)),
        ieee::finite32(s.grid()[i]) && ieee::finite32(s.grid()[i + 1]),
        ieee::finite32(s.normal(4001 + 2 * r)),
        exact::number32(s.truth(r)) == -(300 as real) + (i as real + t) * spacing(),
        exact::fits32((i as real + t) * spacing()),
        exact::fits32(i as real + t),
        exact::fits32(t),
        exact::fits32(1 as real - t),
        exact::fits32(exact::number32(s.grid()[i]) * (1 as real - t)),
        exact::fits32(exact::number32(s.grid()[i + 1]) * t),
        exact::fits32(
            exact::number32(s.grid()[i]) + t * (exact::number32(s.grid()[i + 1])
                - exact::number32(s.grid()[i])),
        ),
        exact::fits32(4 as real * exact::number32(s.normal(4001 + 2 * r))),
    ensures
        exact::near32(
            s.gr(r),
            exact::number32(s.grid()[i]) + t * (exact::number32(s.grid()[i + 1])
                - exact::number32(s.grid()[i])) + 4 as real * exact::number32(
                s.normal(4001 + 2 * r),
            ),
        ),
{
    let m = s.m;
    let grid = s.grid();
    let noise = s.normal(4001 + 2 * r);
    lemma_constants();
    lemma_decimals();
    lemma_read(m, grid, s.truth(r), i, t);
    exact::lemma_product32(m, kernel::FOUR, noise);
    assert(s.normal(synthetic::GRID_LEN + 2 * r + 1) == noise);
    exact::lemma_sum32(
        m,
        synthetic::grid_at(m, grid, s.truth(r)),
        arith::product32(m, kernel::FOUR, noise),
    );
}

proof fn lemma_read<A: Arith>(m: A, grid: Seq<u32>, v: u32, i: int, t: real)
    requires
        exact::faithful32(m),
        grid.len() == 4000,
        0 <= i < 3999,
        0 as real <= t < 1 as real,
        ieee::finite32(v),
        ieee::finite32(grid[i]) && ieee::finite32(grid[i + 1]),
        exact::number32(v) == -(300 as real) + (i as real + t) * spacing(),
        exact::fits32((i as real + t) * spacing()),
        exact::fits32(i as real + t),
        exact::fits32(t),
        exact::fits32(1 as real - t),
        exact::fits32(exact::number32(grid[i]) * (1 as real - t)),
        exact::fits32(exact::number32(grid[i + 1]) * t),
        exact::fits32(
            exact::number32(grid[i]) + t * (exact::number32(grid[i + 1]) - exact::number32(
                grid[i],
            )),
        ),
    ensures
        exact::is32(
            synthetic::grid_at(m, grid, v),
            exact::number32(grid[i]) + t * (exact::number32(grid[i + 1]) - exact::number32(
                grid[i],
            )),
        ),
{
    lemma_constants();
    lemma_decimals();
    exact::lemma_constants32();
    let d = spacing();
    let at = i as real + t;
    assert((at * d) / d == at) by (nonlinear_arith)
        requires
            d > 0 as real,
    ;
    exact::lemma_difference32(m, v, synthetic::VMIN);
    let diff = arith::difference32(m, v, synthetic::VMIN);
    exact::lemma_quotient32(m, diff, synthetic::STEP);
    let fi = arith::quotient32(m, diff, synthetic::STEP);
    assert(exact::is32(fi, at));
    lemma2_to64();
    lemma2_to64_rest();
    assert(pow2(64) as real > 0x100_0000 as real);
    exact::lemma_int_of32(m, fi);
    let c = arith::int_of32(m, fi) as int;
    assert(c == i) by {
        assert(c as real <= at && at < c as real + 1 as real);
        assert(i as real <= at && at < (i + 1) as real);
    }
    exact::lemma_of_int32(m, i as u64);
    let ft = arith::difference32(m, fi, arith::of_int32(m, i as u64));
    exact::lemma_difference32(m, fi, arith::of_int32(m, i as u64));
    assert(exact::is32(ft, t));
    let rest = arith::difference32(m, ieee::ONE32, ft);
    exact::lemma_difference32(m, ieee::ONE32, ft);
    exact::lemma_product32(m, grid[i], rest);
    exact::lemma_product32(m, grid[i + 1], ft);
    exact::lemma_sum32(
        m,
        arith::product32(m, grid[i], rest),
        arith::product32(m, grid[i + 1], ft),
    );
    let (y0, y1) = (exact::number32(grid[i]), exact::number32(grid[i + 1]));
    assert(y0 * (1 as real - t) + y1 * t == y0 + t * (y1 - y0)) by (nonlinear_arith);
}

// ---------------------------------------------------------------------------
// The type well
// ---------------------------------------------------------------------------

/// Sum of the first `n` numbers that are within `r` of place `i`.
pub open spec fn sum_near(xs: Seq<u32>, i: int, r: int, n: int) -> real
    decreases n,
{
    if n <= 0 {
        0 as real
    } else {
        sum_near(xs, i, r, n - 1) + if averages::within(i, n - 1, r) {
            exact::number32(xs[n - 1])
        } else {
            0 as real
        }
    }
}

proof fn lemma_near(xs: Seq<u32>, ks: Seq<int>, g: real, i: int, r: int, n: int)
    requires
        tracking::on_grid32(xs, ks, g),
        0 <= i,
        0 <= r,
        0 <= n <= xs.len(),
    ensures
        ({
            let lo = if i < r {
                0
            } else {
                i - r
            };
            let hi = if i + r + 1 < n {
                i + r + 1
            } else {
                n
            };
            &&& sum_near(xs, i, r, n) == exact::scaled(averages::run(ks, lo, hi), g)
            &&& averages::count_within(i, r, n) == if lo < hi {
                hi - lo
            } else {
                0
            }
        }),
    decreases n,
{
    averages::lemma_scaled_sum(0, 0, g);
    let lo = if i < r {
        0
    } else {
        i - r
    };
    if n > 0 {
        lemma_near(xs, ks, g, i, r, n - 1);
        assert(exact::is32(xs[n - 1], exact::scaled(ks[n - 1], g)));
        if averages::within(i, n - 1, r) {
            averages::lemma_scaled_sum(averages::run(ks, lo, n - 1), ks[n - 1], g);
        }
    }
}

proof fn lemma_window_sum<A: Arith>(m: A, xs: Seq<u32>, ks: Seq<int>, g: real, lo: int, hi: int)
    requires
        exact::faithful32(m),
        tracking::on_grid32(xs, ks, g),
        0 <= lo,
        hi <= xs.len(),
        averages::mass(ks, 0, ks.len() as int) <= 0x100_0000,
    ensures
        exact::is32(
            synthetic::window_sum(m, xs, lo, hi),
            exact::scaled(averages::run(ks, lo, hi), g),
        ),
    decreases hi - lo,
{
    averages::lemma_scaled_sum(0, 0, g);
    exact::lemma_constants32();
    if lo < hi {
        lemma_window_sum(m, xs, ks, g, lo, hi - 1);
        averages::lemma_mass_part(ks, 0, ks.len() as int, lo, hi);
        averages::lemma_mass_bounds(ks, lo, hi);
        assert(exact::is32(xs[hi - 1], exact::scaled(ks[hi - 1], g)));
        exact::lemma_sum32(m, synthetic::window_sum(m, xs, lo, hi - 1), xs[hi - 1]);
        averages::lemma_scaled_sum(averages::run(ks, lo, hi - 1), ks[hi - 1], g);
        assert(exact::fits32(exact::scaled(averages::run(ks, lo, hi), g)));
    }
}

/// A sample of the type well is the mean of the noise within twelve samples of it, ninety
/// fold around seventy, held between five and a hundred and sixty.
pub proof fn lemma_type_well_is_smoothed_noise<A: Arith>(
    m: A,
    raw: Seq<u32>,
    i: int,
    ks: Seq<int>,
    g: real,
)
    requires
        exact::faithful32(m),
        0 <= i < raw.len() <= 0x100_0000,
        tracking::on_grid32(raw, ks, g),
        averages::mass(ks, 0, ks.len() as int) <= 0x100_0000,
        ({
            let n = raw.len() as int;
            let mean = sum_near(raw, i, 12, n) / averages::count_within(i, 12, n) as real;
            &&& exact::fits32(mean)
            &&& exact::fits32(90 as real * mean)
            &&& exact::fits32(70 as real + 90 as real * mean)
        }),
    ensures
        ({
            let n = raw.len() as int;
            let mean = sum_near(raw, i, 12, n) / averages::count_within(i, 12, n) as real;
            exact::is32(
                synthetic::grid_sample(m, raw, i),
                tracking::held(70 as real + 90 as real * mean, 5 as real, 160 as real),
            )
        }),
{
    let n = raw.len() as int;
    lemma_constants();
    lemma_near(raw, ks, g, i, 12, n);
    let lo = if i < 12 {
        0
    } else {
        i - 12
    };
    let hi = if i + 12 + 1 < n {
        i + 12 + 1
    } else {
        n
    };
    lemma_window_sum(m, raw, ks, g, lo, hi);
    exact::lemma_of_int32(m, (hi - lo) as u64);
    let (sum, count) = (
        synthetic::window_sum(m, raw, lo, hi),
        arith::of_int32(m, (hi - lo) as u64),
    );
    exact::lemma_quotient32(m, sum, count);
    let mean = arith::quotient32(m, sum, count);
    exact::lemma_product32(m, synthetic::SWING, mean);
    let swing = arith::product32(m, synthetic::SWING, mean);
    exact::lemma_sum32(m, synthetic::MID, swing);
    tracking::lemma_clamped(
        arith::sum32(m, synthetic::MID, swing),
        synthetic::LOW,
        synthetic::HIGH,
    );
}

} // verus!
