//! What the particle filter computes, as numbers: where a particle moves, how it is
//! weighed, when and from whom the cloud is resampled, and what a row's estimate is.
use vstd::prelude::*;
use vstd::arithmetic::power2::*;
use crate::arith;
use crate::arith::Arith;
use crate::averages;
use crate::exact;
use crate::filter;
use crate::filter::{Cloud, Draw, Filter, Formulas, Moved, WellParams};
use crate::ieee;
use crate::interpolation;
use crate::kernel;
use crate::scan;

verus! {

// ---------------------------------------------------------------------------
// Sums over a cloud
// ---------------------------------------------------------------------------

/// Binary32 patterns that stand for multiples of a common step.
pub open spec fn on_grid32(xs: Seq<u32>, ks: Seq<int>, g: real) -> bool {
    &&& xs.len() == ks.len()
    &&& exact::grid32(g)
    &&& forall|j: int| 0 <= j < xs.len() ==> exact::is32(#[trigger] xs[j], exact::scaled(ks[j], g))
}

proof fn lemma_halved_sums(ks: Seq<int>, h: int, i: int)
    requires
        ks.len() == 2 * h,
        0 <= i <= h,
    ensures
        ({
            let hs = scan::halved(scan::exact_plus(), ks);
            &&& averages::run(hs, 0, i) == averages::run(ks, 0, i) + averages::run(ks, h, h + i)
            &&& averages::mass(hs, 0, i) <= averages::mass(ks, 0, i) + averages::mass(ks, h, h + i)
        }),
    decreases i,
{
    if i > 0 {
        lemma_halved_sums(ks, h, i - 1);
        assert(scan::halved(scan::exact_plus(), ks)[i - 1] == ks[i - 1] + ks[i - 1 + h]);
    }
}

pub(crate) proof fn lemma_run_splits(ks: Seq<int>, a: int, b: int, c: int)
    requires
        a <= b <= c,
    ensures
        averages::run(ks, a, c) == averages::run(ks, a, b) + averages::run(ks, b, c),
        averages::mass(ks, a, c) == averages::mass(ks, a, b) + averages::mass(ks, b, c),
    decreases c - b,
{
    if b < c {
        lemma_run_splits(ks, a, b, c - 1);
    }
}

/// A tree of sums over a grid does not round, and counts every term once.
proof fn lemma_tree<A: Arith>(m: A, xs: Seq<u32>, ks: Seq<int>, g: real, k: nat)
    requires
        exact::faithful32(m),
        on_grid32(xs, ks, g),
        xs.len() == pow2(k),
        averages::mass(ks, 0, ks.len() as int) <= 0x100_0000,
    ensures
        exact::is32(
            scan::tree(scan::plus(m), xs),
            exact::scaled(averages::run(ks, 0, ks.len() as int), g),
        ),
    decreases k,
{
    lemma2_to64();
    if k == 0 {
        assert(averages::run(ks, 0, 0) == 0);
        assert(exact::is32(xs[0], exact::scaled(ks[0], g)));
    } else {
        lemma_pow2_unfold(k);
        lemma_pow2_pos((k - 1) as nat);
        let n = ks.len() as int;
        let h = n / 2;
        let ys = scan::halved(scan::plus(m), xs);
        let hs = scan::halved(scan::exact_plus(), ks);
        lemma_halved_sums(ks, h, h);
        lemma_run_splits(ks, 0, h, n);
        assert forall|j: int| 0 <= j < ys.len() implies exact::is32(
            #[trigger] ys[j],
            exact::scaled(hs[j], g),
        ) by {
            assert(exact::is32(xs[j], exact::scaled(ks[j], g)));
            assert(exact::is32(xs[j + h], exact::scaled(ks[j + h], g)));
            exact::lemma_sum32(m, xs[j], xs[j + h]);
            averages::lemma_scaled_sum(ks[j], ks[j + h], g);
            assert(hs[j] == ks[j] + ks[j + h]);
            averages::lemma_mass_part(hs, 0, h, j, j + 1);
            assert(averages::mass(hs, j, j) == 0);
            assert(averages::mass(hs, j, j + 1) == averages::size(hs[j]));
            assert(exact::fits32(exact::scaled(hs[j], g)));
        }
        lemma_tree(m, ys, hs, g, (k - 1) as nat);
    }
}

/// What a lane adds up.
pub open spec fn lane_runs(ks: Seq<int>, lanes: int, chunk: int) -> Seq<int> {
    Seq::new(
        lanes as nat,
        |t: int|
            averages::run(
                ks,
                scan::lane_start(t, chunk),
                scan::lane_end(t, chunk, ks.len() as int),
            ),
    )
}

pub(crate) proof fn lemma_lane_runs(ks: Seq<int>, lanes: int, chunk: int, t: int)
    requires
        0 <= t <= lanes,
        chunk >= 0,
    ensures
        ({
            let n = ks.len() as int;
            let upto = if t * chunk < n {
                t * chunk
            } else {
                n
            };
            let ts = lane_runs(ks, lanes, chunk);
            &&& averages::run(ts, 0, t) == averages::run(ks, 0, upto)
            &&& averages::mass(ts, 0, t) <= averages::mass(ks, 0, upto)
        }),
    decreases t,
{
    let n = ks.len() as int;
    let ts = lane_runs(ks, lanes, chunk);
    if t > 0 {
        lemma_lane_runs(ks, lanes, chunk, t - 1);
        let s = (t - 1) * chunk;
        assert(t * chunk == s + chunk && s >= 0) by (nonlinear_arith)
            requires
                s == (t - 1) * chunk,
                t >= 1,
                chunk >= 0,
        ;
        let e = scan::lane_end(t - 1, chunk, n);
        averages::lemma_mass_bounds(ks, s, e);
        if s < n {
            lemma_run_splits(ks, 0, s, e);
        }
        assert(ts[t - 1] == averages::run(ks, s, e));
    } else {
        assert(0 * chunk == 0) by (nonlinear_arith);
    }
}

/// A lane's sum does not round.
pub(crate) proof fn lemma_lane_sum<A: Arith>(
    m: A,
    xs: Seq<u32>,
    ks: Seq<int>,
    g: real,
    start: int,
    end: int,
)
    requires
        exact::faithful32(m),
        on_grid32(xs, ks, g),
        0 <= start,
        end <= xs.len(),
        averages::mass(ks, 0, ks.len() as int) <= 0x100_0000,
    ensures
        exact::is32(
            scan::run_sum(scan::plus(m), ieee::ZERO32, xs, start, end),
            exact::scaled(averages::run(ks, start, end), g),
        ),
    decreases end - start,
{
    averages::lemma_scaled_sum(0, 0, g);
    exact::lemma_constants32();
    if start < end {
        lemma_lane_sum(m, xs, ks, g, start, end - 1);
        averages::lemma_mass_part(ks, 0, ks.len() as int, start, end);
        averages::lemma_mass_bounds(ks, start, end);
        assert(exact::is32(xs[end - 1], exact::scaled(ks[end - 1], g)));
        exact::lemma_sum32(
            m,
            scan::run_sum(scan::plus(m), ieee::ZERO32, xs, start, end - 1),
            xs[end - 1],
        );
        averages::lemma_scaled_sum(averages::run(ks, start, end - 1), ks[end - 1], g);
        assert(exact::fits32(exact::scaled(averages::run(ks, start, end), g)));
    }
}

/// The number of lanes is a power of two.
pub open spec fn power_of_two_lanes(lanes: int) -> bool {
    exists|k: nat| lanes == #[trigger] pow2(k)
}

/// The lanes together hold the whole cloud.
pub(crate) proof fn lemma_all_lanes(ks: Seq<int>, lanes: int)
    requires
        lanes > 0,
    ensures
        ({
            let n = ks.len() as int;
            let ts = lane_runs(ks, lanes, scan::lane_chunk(n, lanes));
            &&& scan::lane_chunk(n, lanes) >= 0
            &&& averages::run(ts, 0, lanes) == averages::run(ks, 0, n)
            &&& averages::mass(ts, 0, lanes) <= averages::mass(ks, 0, n)
        }),
{
    let n = ks.len() as int;
    let chunk = scan::lane_chunk(n, lanes);
    scan::lemma_lane_chunk_positive(n, lanes);
    assert(chunk >= 0) by (nonlinear_arith)
        requires
            chunk == (n + lanes - 1) / lanes,
            lanes > 0,
            n >= 0,
    ;
    assert(lanes * chunk == chunk * lanes) by (nonlinear_arith);
    lemma_lane_runs(ks, lanes, chunk, lanes);
}

/// The sum over a cloud is the sum over its particles, each counted once.
pub proof fn lemma_cloud_sum<A: Arith>(m: A, xs: Seq<u32>, ks: Seq<int>, g: real, lanes: int)
    requires
        exact::faithful32(m),
        on_grid32(xs, ks, g),
        power_of_two_lanes(lanes),
        averages::mass(ks, 0, ks.len() as int) <= 0x100_0000,
    ensures
        exact::is32(
            filter::cloud_sum(m, xs, lanes, scan::lane_chunk(xs.len() as int, lanes)),
            averages::sum(|j: int| exact::number32(xs[j]), xs.len() as int),
        ),
        averages::sum(|j: int| exact::number32(xs[j]), xs.len() as int) == exact::scaled(
            averages::run(ks, 0, ks.len() as int),
            g,
        ),
{
    let k = choose|k: nat| lanes == #[trigger] pow2(k);
    lemma_pow2_pos(k);
    let n = xs.len() as int;
    let chunk = scan::lane_chunk(n, lanes);
    lemma_all_lanes(ks, lanes);
    let ys = scan::lane_totals(scan::plus(m), ieee::ZERO32, xs, lanes, chunk);
    let ts = lane_runs(ks, lanes, chunk);
    assert forall|t: int| 0 <= t < ys.len() implies exact::is32(
        #[trigger] ys[t],
        exact::scaled(ts[t], g),
    ) by {
        assert(0 <= t * chunk) by (nonlinear_arith)
            requires
                0 <= t,
                0 <= chunk,
        ;
        lemma_lane_sum(
            m,
            xs,
            ks,
            g,
            scan::lane_start(t, chunk),
            scan::lane_end(t, chunk, n),
        );
    }
    lemma_tree(m, ys, ts, g, k);
    lemma_number_sum(xs, ks, g, n);
}

pub(crate) proof fn lemma_number_sum(xs: Seq<u32>, ks: Seq<int>, g: real, n: int)
    requires
        on_grid32(xs, ks, g),
        0 <= n <= xs.len(),
    ensures
        averages::sum(|j: int| exact::number32(xs[j]), n) == exact::scaled(
            averages::run(ks, 0, n),
            g,
        ),
    decreases n,
{
    averages::lemma_scaled_sum(0, 0, g);
    if n > 0 {
        lemma_number_sum(xs, ks, g, n - 1);
        assert(exact::is32(xs[n - 1], exact::scaled(ks[n - 1], g)));
        averages::lemma_scaled_sum(averages::run(ks, 0, n - 1), ks[n - 1], g);
    }
}

/// Pairs whose products are multiples of a common step.
pub open spec fn pairs_on_grid(xs: Seq<u32>, ys: Seq<u32>, ks: Seq<int>, g: real) -> bool {
    &&& xs.len() == ks.len()
    &&& ys.len() == ks.len()
    &&& exact::grid32(g)
    &&& forall|j: int|
        0 <= j < xs.len() ==> {
            &&& ieee::finite32(#[trigger] xs[j]) && ieee::finite32(ys[j])
            &&& exact::number32(xs[j]) * exact::number32(ys[j]) == exact::scaled(ks[j], g)
        }
}

proof fn lemma_lane_dot<A: Arith>(
    m: A,
    f: Formulas,
    xs: Seq<u32>,
    ys: Seq<u32>,
    ks: Seq<int>,
    g: real,
    start: int,
    end: int,
)
    requires
        exact::faithful32(m),
        pairs_on_grid(xs, ys, ks, g),
        0 <= start,
        end <= xs.len(),
        averages::mass(ks, 0, ks.len() as int) <= 0x100_0000,
    ensures
        exact::is32(
            filter::dot(m, f, xs, ys, start, end),
            exact::scaled(averages::run(ks, start, end), g),
        ),
    decreases end - start,
{
    averages::lemma_scaled_sum(0, 0, g);
    exact::lemma_constants32();
    if start < end {
        let j = end - 1;
        lemma_lane_dot(m, f, xs, ys, ks, g, start, j);
        averages::lemma_mass_part(ks, 0, ks.len() as int, start, end);
        averages::lemma_mass_bounds(ks, start, end);
        averages::lemma_mass_part(ks, 0, ks.len() as int, j, end);
        assert(averages::mass(ks, j, j) == 0);
        assert(averages::mass(ks, j, end) == averages::size(ks[j]));
        assert(ieee::finite32(xs[j]));
        assert(exact::fits32(exact::scaled(ks[j], g)));
        let before = filter::dot(m, f, xs, ys, start, j);
        exact::lemma_product32(m, xs[j], ys[j]);
        exact::lemma_sum32(m, before, arith::product32(m, xs[j], ys[j]));
        exact::lemma_fused32(m, xs[j], ys[j], before);
        averages::lemma_scaled_sum(averages::run(ks, start, j), ks[j], g);
        assert(exact::fits32(exact::scaled(averages::run(ks, start, end), g)));
    }
}

/// The sum of products over a cloud takes every particle once, with its own partner.
pub proof fn lemma_cloud_dot<A: Arith>(
    m: A,
    f: Formulas,
    xs: Seq<u32>,
    ys: Seq<u32>,
    ks: Seq<int>,
    g: real,
    lanes: int,
)
    requires
        exact::faithful32(m),
        pairs_on_grid(xs, ys, ks, g),
        power_of_two_lanes(lanes),
        averages::mass(ks, 0, ks.len() as int) <= 0x100_0000,
    ensures
        exact::is32(
            filter::cloud_dot(m, f, xs, ys, lanes, scan::lane_chunk(xs.len() as int, lanes)),
            averages::sum(
                |j: int| exact::number32(xs[j]) * exact::number32(ys[j]),
                xs.len() as int,
            ),
        ),
{
    let k = choose|k: nat| lanes == #[trigger] pow2(k);
    lemma_pow2_pos(k);
    let n = xs.len() as int;
    let chunk = scan::lane_chunk(n, lanes);
    lemma_all_lanes(ks, lanes);
    let zs = Seq::new(
        lanes as nat,
        |t: int|
            filter::dot(
                m,
                f,
                xs,
                ys,
                scan::lane_start(t, chunk),
                scan::lane_end(t, chunk, n),
            ),
    );
    let ts = lane_runs(ks, lanes, chunk);
    assert forall|t: int| 0 <= t < zs.len() implies exact::is32(
        #[trigger] zs[t],
        exact::scaled(ts[t], g),
    ) by {
        assert(0 <= t * chunk) by (nonlinear_arith)
            requires
                0 <= t,
                0 <= chunk,
        ;
        lemma_lane_dot(
            m,
            f,
            xs,
            ys,
            ks,
            g,
            scan::lane_start(t, chunk),
            scan::lane_end(t, chunk, n),
        );
    }
    lemma_tree(m, zs, ts, g, k);
    lemma_pair_sum(xs, ys, ks, g, n);
}

proof fn lemma_pair_sum(xs: Seq<u32>, ys: Seq<u32>, ks: Seq<int>, g: real, n: int)
    requires
        pairs_on_grid(xs, ys, ks, g),
        0 <= n <= xs.len(),
    ensures
        averages::sum(|j: int| exact::number32(xs[j]) * exact::number32(ys[j]), n)
            == exact::scaled(averages::run(ks, 0, n), g),
    decreases n,
{
    averages::lemma_scaled_sum(0, 0, g);
    if n > 0 {
        lemma_pair_sum(xs, ys, ks, g, n - 1);
        assert(ieee::finite32(xs[n - 1]));
        averages::lemma_scaled_sum(averages::run(ks, 0, n - 1), ks[n - 1], g);
    }
}

// ---------------------------------------------------------------------------
// Ratios
// ---------------------------------------------------------------------------

/// A reciprocal that has a pattern stands through its Newton steps.
pub proof fn lemma_reciprocal<A: Arith>(m: A, a: u32)
    requires
        exact::faithful32(m),
        ieee::finite32(a),
        exact::number32(a) != 0 as real,
        exact::fits32(1 as real / exact::number32(a)),
    ensures
        exact::is32(kernel::reciprocal(m, a), 1 as real / exact::number32(a)),
{
    exact::lemma_constants32();
    exact::lemma_filter_constants32();
    let v = exact::number32(a);
    exact::lemma_quotient32(m, ieee::ONE32, a);
    let z = arith::quotient32(m, ieee::ONE32, a);
    exact::lemma_negated32(a);
    let na = ieee::negated32(a);
    assert((-v) * (1 as real / v) + 2 as real == 1 as real) by (nonlinear_arith)
        requires
            v != 0 as real,
    ;
    assert(exact::number32(ieee::ONE32) == 1 as real);
    exact::lemma_fused32(m, na, z, kernel::TWO);
    let c = arith::fused32(m, na, z, kernel::TWO);
    assert((1 as real / v) * (1 as real) == 1 as real / v) by (nonlinear_arith);
    exact::lemma_product32(m, z, c);
    let y = arith::product32(m, z, c);
    exact::lemma_fused32(m, na, y, kernel::TWO);
    exact::lemma_product32(m, y, arith::fused32(m, na, y, kernel::TWO));
}

/// A ratio is rounded once: always as written, and with reciprocals where the divisor's
/// has a pattern.
pub proof fn lemma_ratio<A: Arith>(m: A, f: Formulas, x: u32, y: u32)
    requires
        exact::faithful32(m),
        ieee::finite32(x),
        ieee::finite32(y),
        exact::number32(y) != 0 as real,
        f == Formulas::Plain || exact::fits32(1 as real / exact::number32(y)),
    ensures
        exact::near32(filter::ratio_of(m, f, x, y), exact::number32(x) / exact::number32(y)),
        exact::fits32(exact::number32(x) / exact::number32(y)) ==> exact::is32(
            filter::ratio_of(m, f, x, y),
            exact::number32(x) / exact::number32(y),
        ),
{
    let (a, b) = (exact::number32(x), exact::number32(y));
    exact::lemma_quotient32(m, x, y);
    if f == Formulas::Pinned {
        lemma_reciprocal(m, y);
        exact::lemma_product32(m, x, kernel::reciprocal(m, y));
        assert(a * (1 as real / b) == a / b) by (nonlinear_arith)
            requires
                b != 0 as real,
        ;
    }
    if exact::fits32(a / b) {
        exact::lemma_near_is32(filter::ratio_of(m, f, x, y), a / b);
    }
}

// ---------------------------------------------------------------------------
// The estimate of a row
// ---------------------------------------------------------------------------

/// Depth of a particle of a cloud at row `i`: its position less the row's vertical
/// offset.
pub open spec fn depth_of<A: Arith>(fl: Filter<A>, c: Cloud, i: int, j: int) -> real {
    exact::number32(c.pos[j]) - exact::number32(fl.z[i])
}

/// The depths of the cloud that row `k` leaves behind are multiples of a common step,
/// and add up without rounding.
pub open spec fn depths_add_up<A: Arith>(fl: Filter<A>, k: int, ks: Seq<int>, g: real) -> bool {
    &&& exact::faithful32(fl.m)
    &&& power_of_two_lanes(fl.lanes())
    &&& 0 < fl.n() <= 0x100_0000
    &&& 0 <= k < fl.z.len()
    &&& ieee::finite32(fl.z[k])
    &&& ks.len() == fl.n()
    &&& exact::grid32(g)
    &&& forall|j: int|
        0 <= j < fl.n() ==> ieee::finite32(#[trigger] fl.cloud(k + 1).pos[j]) && depth_of(
            fl,
            fl.cloud(k + 1),
            k,
            j,
        ) == exact::scaled(ks[j], g)
    &&& averages::mass(ks, 0, fl.n() as int) <= 0x100_0000
}

/// As [`depths_add_up`], of a number of particles whose reciprocal has a pattern.
pub open spec fn depths_fit<A: Arith>(fl: Filter<A>, k: int, ks: Seq<int>, g: real) -> bool {
    &&& depths_add_up(fl, k, ks, g)
    &&& exact::fits32(1 as real / (fl.n() as int) as real)
}

/// Where row `k` resamples, its estimate is the sum of the depths of the cloud it leaves
/// behind, rounded once, times one over the number of particles, itself rounded once.
#[verifier::rlimit(50)]
pub proof fn lemma_resampled_estimate_shares_the_depths<A: Arith>(
    fl: Filter<A>,
    k: int,
    ks: Seq<int>,
    g: real,
)
    requires
        depths_add_up(fl, k, ks, g),
        fl.degenerate(fl.moved(fl.cloud(k), k)),
    ensures
        exact::near32(fl.inv_n(), 1 as real / (fl.n() as int) as real),
        ieee::finite32(fl.inv_n()) ==> exact::near32(
            fl.estimate(k),
            averages::sum(|j: int| depth_of(fl, fl.cloud(k + 1), k, j), fl.n() as int)
                * exact::number32(fl.inv_n()),
        ),
{
    let m = fl.m;
    let n = fl.n() as int;
    let v = fl.moved(fl.cloud(k), k);
    let after = fl.resampled(v, k);
    assert(fl.cloud(k + 1) == after && fl.estimate(k) == arith::product32(
        m,
        filter::cloud_sum(m, fl.depths(after, k), fl.lanes(), fl.chunk()),
        fl.inv_n(),
    )) by {
        reveal(Filter::step);
        assert(fl.cloud(k + 1) == fl.step(fl.cloud(k), k).cloud);
    }
    let xs = fl.depths(after, k);
    assert forall|j: int| 0 <= j < xs.len() implies exact::is32(
        #[trigger] xs[j],
        exact::scaled(ks[j], g),
    ) by {
        assert(ieee::finite32(fl.cloud(k + 1).pos[j]));
        exact::lemma_difference32(m, after.pos[j], fl.z[k]);
        averages::lemma_mass_part(ks, 0, n, j, j + 1);
        assert(averages::mass(ks, j, j) == 0);
        assert(averages::mass(ks, j, j + 1) == averages::size(ks[j]));
        assert(exact::fits32(exact::scaled(ks[j], g)));
    }
    lemma_cloud_sum(m, xs, ks, g, fl.lanes());
    lemma_same_sums(
        |j: int| exact::number32(xs[j]),
        |j: int| depth_of(fl, fl.cloud(k + 1), k, j),
        n,
    );
    exact::lemma_constants32();
    exact::lemma_of_int32(m, fl.cfg.n_particles as u64);
    exact::lemma_quotient32(m, ieee::ONE32, fl.n_f());
    let total = filter::cloud_sum(m, xs, fl.lanes(), fl.chunk());
    if ieee::finite32(fl.inv_n()) {
        exact::lemma_product32(m, total, fl.inv_n());
    }
}

/// Where row `k` resamples, its estimate is the mean depth of the cloud it leaves
/// behind, rounded once.
#[verifier::rlimit(50)]
pub proof fn lemma_resampled_estimate_is_the_mean_depth<A: Arith>(
    fl: Filter<A>,
    k: int,
    ks: Seq<int>,
    g: real,
)
    requires
        depths_fit(fl, k, ks, g),
        fl.degenerate(fl.moved(fl.cloud(k), k)),
    ensures
        exact::near32(
            fl.estimate(k),
            averages::sum(|j: int| depth_of(fl, fl.cloud(k + 1), k, j), fl.n() as int) / (
            fl.n() as int) as real,
        ),
{
    let n = fl.n() as int;
    let total = averages::sum(|j: int| depth_of(fl, fl.cloud(k + 1), k, j), n);
    lemma_resampled_estimate_shares_the_depths(fl, k, ks, g);
    exact::lemma_near_is32(fl.inv_n(), 1 as real / n as real);
    let d = n as real;
    assert(total * (1 as real / d) == total / d) by (nonlinear_arith)
        requires
            d > 0 as real,
    ;
}

pub(crate) proof fn lemma_same_sums(p: spec_fn(int) -> real, q: spec_fn(int) -> real, n: int)
    requires
        forall|j: int| 0 <= j < n ==> #[trigger] p(j) == q(j),
    ensures
        averages::sum(p, n) == averages::sum(q, n),
    decreases n,
{
    if n > 0 {
        lemma_same_sums(p, q, n - 1);
    }
}

/// The weights that row `k` gives, and their products with the depths, are multiples of
/// common steps and add up without rounding; the weights are not negative, and not all
/// zero.
pub open spec fn weights_fit<A: Arith>(
    fl: Filter<A>,
    k: int,
    ws: Seq<int>,
    g: real,
    qs: Seq<int>,
    h: real,
) -> bool {
    let v = fl.moved(fl.cloud(k), k);
    &&& exact::faithful32(fl.m)
    &&& power_of_two_lanes(fl.lanes())
    &&& 0 <= k < fl.z.len()
    &&& ieee::finite32(fl.z[k])
    &&& on_grid32(v.w, ws, g)
    &&& pairs_on_grid(v.w, v.tvt, qs, h)
    &&& averages::mass(ws, 0, fl.n() as int) <= 0x100_0000
    &&& averages::mass(qs, 0, fl.n() as int) <= 0x100_0000
    &&& forall|j: int|
        0 <= j < fl.n() ==> exact::number32(#[trigger] v.w[j]) >= 0 as real && exact::fits32(
            exact::number32(v.tvt[j]) + exact::number32(fl.z[k]),
        )
    &&& weight_total(fl, k) > 0 as real
    &&& fl.f == Formulas::Plain || exact::fits32(1 as real / weight_total(fl, k))
}

/// Weight that row `k` gives particle `j`, not normalised.
pub open spec fn weight_of<A: Arith>(fl: Filter<A>, k: int, j: int) -> real {
    exact::number32(fl.moved(fl.cloud(k), k).w[j])
}

/// Sum of the weights that row `k` gives.
pub open spec fn weight_total<A: Arith>(fl: Filter<A>, k: int) -> real {
    averages::sum(|j: int| weight_of(fl, k, j), fl.n() as int)
}

/// Where row `k` does not resample, the cloud it leaves stands at the depths that were
/// weighed.
#[verifier::rlimit(50)]
proof fn lemma_kept_depth<A: Arith>(
    fl: Filter<A>,
    k: int,
    ws: Seq<int>,
    g: real,
    qs: Seq<int>,
    h: real,
    j: int,
)
    requires
        weights_fit(fl, k, ws, g, qs, h),
        !fl.degenerate(fl.moved(fl.cloud(k), k)),
        0 <= j < fl.n(),
    ensures
        depth_of(fl, fl.cloud(k + 1), k, j) == exact::number32(
            fl.moved(fl.cloud(k), k).tvt[j],
        ),
        ieee::finite32(fl.moved(fl.cloud(k), k).tvt[j]),
{
    reveal(Filter::step);
    let v = fl.moved(fl.cloud(k), k);
    assert(fl.cloud(k + 1) == fl.step(fl.cloud(k), k).cloud);
    assert(fl.cloud(k + 1).pos == v.pos);
    assert(ieee::finite32(v.w[j]) && ieee::finite32(v.tvt[j]));
    assert(exact::number32(v.w[j]) >= 0 as real);
    exact::lemma_sum32(fl.m, v.tvt[j], fl.z[k]);
    assert(v.pos[j] == arith::sum32(fl.m, v.tvt[j], fl.z[k]));
}

/// Where row `k` does not resample, its estimate is the mean depth of the cloud it
/// leaves behind, each particle by its weight, rounded once.
#[verifier::rlimit(50)]
pub proof fn lemma_estimate_is_the_weighted_mean_depth<A: Arith>(
    fl: Filter<A>,
    k: int,
    ws: Seq<int>,
    g: real,
    qs: Seq<int>,
    h: real,
)
    requires
        weights_fit(fl, k, ws, g, qs, h),
        !fl.degenerate(fl.moved(fl.cloud(k), k)),
    ensures
        exact::near32(
            fl.estimate(k),
            averages::sum(
                |j: int| weight_of(fl, k, j) * depth_of(fl, fl.cloud(k + 1), k, j),
                fl.n() as int,
            ) / weight_total(fl, k),
        ),
{
    reveal(Filter::step);
    let m = fl.m;
    let n = fl.n() as int;
    let v = fl.moved(fl.cloud(k), k);
    lemma_cloud_sum(m, v.w, ws, g, fl.lanes());
    lemma_cloud_dot(m, fl.f, v.w, v.tvt, qs, h, fl.lanes());
    assert(v.w.len() == n && v.tvt.len() == n);
    lemma_same_sums(|j: int| exact::number32(v.w[j]), |j: int| weight_of(fl, k, j), n);
    let p = |j: int| exact::number32(v.w[j]) * exact::number32(v.tvt[j]);
    let q = |j: int| weight_of(fl, k, j) * depth_of(fl, fl.cloud(k + 1), k, j);
    assert forall|j: int| 0 <= j < n implies #[trigger] p(j) == q(j) by {
        lemma_kept_depth(fl, k, ws, g, qs, h, j);
    }
    lemma_same_sums(p, q, n);
    lemma_ratio(m, fl.f, fl.depth_sum(v), fl.weight_sum(v));
}

proof fn lemma_mean_between(w: spec_fn(int) -> real, d: spec_fn(int) -> real, n: int, lo: real, hi: real)
    requires
        forall|j: int| 0 <= j < n ==> #[trigger] w(j) >= 0 as real && lo <= d(j) <= hi,
    ensures
        lo * averages::sum(w, n) <= averages::sum(|j: int| w(j) * d(j), n) <= hi * averages::sum(
            w,
            n,
        ),
    decreases n,
{
    if n > 0 {
        lemma_mean_between(w, d, n - 1, lo, hi);
        let (x, y, t) = (w(n - 1), d(n - 1), averages::sum(w, n - 1));
        assert(lo * x <= x * y <= hi * x) by (nonlinear_arith)
            requires
                x >= 0 as real,
                lo <= y <= hi,
        ;
        assert(lo * (t + x) == lo * t + lo * x && hi * (t + x) == hi * t + hi * x)
            by (nonlinear_arith);
    } else {
        assert(lo * (0 as real) == 0 as real && hi * (0 as real) == 0 as real) by (nonlinear_arith);
    }
}

proof fn lemma_constant_sum(n: int)
    requires
        n >= 0,
    ensures
        averages::sum(|j: int| 1 as real, n) == n as real,
    decreases n,
{
    if n > 0 {
        lemma_constant_sum(n - 1);
    }
}

/// An estimate is a depth, resampled or not: it lies between the least and the greatest
/// depth (position less the row's vertical offset) of the particles of the cloud that
/// the row leaves behind.
#[verifier::rlimit(50)]
pub proof fn lemma_estimate_lies_among_the_depths<A: Arith>(
    fl: Filter<A>,
    k: int,
    ks: Seq<int>,
    e: real,
    ws: Seq<int>,
    g: real,
    qs: Seq<int>,
    h: real,
    lo: u32,
    hi: u32,
)
    requires
        depths_fit(fl, k, ks, e),
        weights_fit(fl, k, ws, g, qs, h),
        ieee::finite32(lo),
        ieee::finite32(hi),
        forall|j: int|
            0 <= j < fl.n() ==> exact::number32(lo) <= #[trigger] depth_of(
                fl,
                fl.cloud(k + 1),
                k,
                j,
            ) <= exact::number32(hi),
    ensures
        ieee::at_most32(lo, fl.estimate(k)),
        ieee::at_most32(fl.estimate(k), hi),
{
    let n = fl.n() as int;
    let after = fl.cloud(k + 1);
    let (a, b) = (exact::number32(lo), exact::number32(hi));
    let depth = |j: int| depth_of(fl, after, k, j);
    if fl.degenerate(fl.moved(fl.cloud(k), k)) {
        lemma_resampled_estimate_is_the_mean_depth(fl, k, ks, e);
        let one = |j: int| 1 as real;
        assert forall|j: int| 0 <= j < n implies #[trigger] one(j) >= 0 as real && a <= depth(j)
            <= b by {
            assert(a <= depth_of(fl, after, k, j) <= b);
        }
        lemma_mean_between(one, depth, n, a, b);
        lemma_constant_sum(n);
        lemma_same_sums(|j: int| one(j) * depth(j), depth, n);
        lemma_same_sums(one, |j: int| 1 as real, n);
        let (s, d) = (averages::sum(depth, n), n as real);
        assert(a <= s / d <= b) by (nonlinear_arith)
            requires
                a * d <= s <= b * d,
                d > 0 as real,
        ;
        exact::lemma_near_between32(fl.estimate(k), s / d, lo, hi);
    } else {
        lemma_estimate_is_the_weighted_mean_depth(fl, k, ws, g, qs, h);
        let w = |j: int| weight_of(fl, k, j);
        let v = fl.moved(fl.cloud(k), k);
        assert forall|j: int| 0 <= j < n implies #[trigger] w(j) >= 0 as real && a <= depth(j)
            <= b by {
            assert(exact::number32(v.w[j]) >= 0 as real);
            assert(a <= depth_of(fl, after, k, j) <= b);
        }
        lemma_mean_between(w, depth, n, a, b);
        lemma_same_sums(
            |j: int| w(j) * depth(j),
            |j: int| weight_of(fl, k, j) * depth_of(fl, after, k, j),
            n,
        );
        let s = averages::sum(
            |j: int| weight_of(fl, k, j) * depth_of(fl, after, k, j),
            n,
        );
        let d = weight_total(fl, k);
        assert(a <= s / d <= b) by (nonlinear_arith)
            requires
                a * d <= s <= b * d,
                d > 0 as real,
        ;
        exact::lemma_near_between32(fl.estimate(k), s / d, lo, hi);
    }
}

// ---------------------------------------------------------------------------
// Moving a particle
// ---------------------------------------------------------------------------

/// `base + scale * (rad * trig)`, as numbers.
pub open spec fn displaced(base: real, scale: u32, rad: u32, trig: u32) -> real {
    base + exact::number32(scale) * (exact::number32(rad) * exact::number32(trig))
}

/// A displacement does not round, in whichever order its factors are taken.
pub open spec fn displacement_fits(base: real, scale: u32, rad: u32, trig: u32) -> bool {
    let (s, r, t) = (exact::number32(scale), exact::number32(rad), exact::number32(trig));
    &&& ieee::finite32(scale) && ieee::finite32(rad) && ieee::finite32(trig)
    &&& exact::fits32(r * t)
    &&& exact::fits32(s * r)
    &&& exact::fits32(s * (r * t))
    &&& exact::fits32(displaced(base, scale, rad, trig))
}

pub(crate) proof fn lemma_shifted<A: Arith>(m: A, f: Formulas, base: u32, scale: u32, rad: u32, trig: u32)
    requires
        exact::faithful32(m),
        ieee::finite32(base),
        displacement_fits(exact::number32(base), scale, rad, trig),
    ensures
        exact::is32(
            filter::shifted(m, f, base, scale, rad, trig),
            displaced(exact::number32(base), scale, rad, trig),
        ),
{
    exact::lemma_product32(m, rad, trig);
    exact::lemma_product32(m, scale, arith::product32(m, rad, trig));
    exact::lemma_sum32(
        m,
        base,
        arith::product32(m, scale, arith::product32(m, rad, trig)),
    );
    exact::lemma_product32(m, scale, rad);
    exact::lemma_fused32(m, arith::product32(m, scale, rad), trig, base);
    let (s, r, t) = (exact::number32(scale), exact::number32(rad), exact::number32(trig));
    assert((s * r) * t == s * (r * t)) by (nonlinear_arith);
}

pub(crate) proof fn lemma_mul_added<A: Arith>(m: A, f: Formulas, a: u32, b: u32, c: u32)
    requires
        exact::faithful32(m),
        ieee::finite32(a) && ieee::finite32(b) && ieee::finite32(c),
        exact::fits32(exact::number32(a) * exact::number32(b)),
        exact::fits32(exact::number32(c) + exact::number32(a) * exact::number32(b)),
    ensures
        exact::is32(
            filter::mul_added(m, f, a, b, c),
            exact::number32(c) + exact::number32(a) * exact::number32(b),
        ),
{
    exact::lemma_product32(m, a, b);
    exact::lemma_sum32(m, c, arith::product32(m, a, b));
    exact::lemma_fused32(m, a, b, c);
}

/// Before the first row a particle stands around the starting position and rate, apart
/// by its draw times the spreads, and all particles weigh the same.
pub proof fn lemma_first_cloud_surrounds_the_start<A: Arith>(fl: Filter<A>, j: int)
    requires
        exact::faithful32(fl.m),
        0 <= j < fl.n() <= 0x100_0000,
        ieee::finite32(fl.p.ls),
        ieee::finite32(fl.p.ir),
        displacement_fits(
            exact::number32(fl.p.ls),
            fl.p.init_spr,
            fl.first_draw(j).rad,
            fl.first_draw(j).cos,
        ),
        displacement_fits(
            exact::number32(fl.p.ir),
            filter::RATE_SPREAD,
            fl.first_draw(j).rad,
            fl.first_draw(j).sin,
        ),
    ensures
        ({
            let d = fl.first_draw(j);
            let c = fl.cloud(0);
            &&& exact::is32(
                c.pos[j],
                displaced(exact::number32(fl.p.ls), fl.p.init_spr, d.rad, d.cos),
            )
            &&& exact::is32(
                c.rate[j],
                displaced(exact::number32(fl.p.ir), 0x3C23_D70A, d.rad, d.sin),
            )
            &&& exact::near32(c.w[j], 1 as real / (fl.n() as int) as real)
        }),
{
    let d = fl.first_draw(j);
    lemma_shifted(fl.m, fl.f, fl.p.ls, fl.p.init_spr, d.rad, d.cos);
    lemma_shifted(fl.m, fl.f, fl.p.ir, filter::RATE_SPREAD, d.rad, d.sin);
    exact::lemma_constants32();
    exact::lemma_of_int32(fl.m, fl.cfg.n_particles as u64);
    exact::lemma_quotient32(fl.m, ieee::ONE32, fl.n_f());
}

/// Measured depth covered on the way to row `i`, at least one.
pub open spec fn stride<A: Arith>(fl: Filter<A>, i: int) -> real {
    if i <= 0 {
        1 as real
    } else {
        let d = exact::number32(fl.md[i]) - exact::number32(fl.md[i - 1]);
        if d < 1 as real {
            1 as real
        } else {
            d
        }
    }
}

/// `x` held between `lo` and `hi`.
pub open spec fn held(x: real, lo: real, hi: real) -> real {
    if x < lo {
        lo
    } else if x > hi {
        hi
    } else {
        x
    }
}

/// Rate of particle `j` on the way to row `i`: damped, and disturbed by its draw.
pub open spec fn next_rate<A: Arith>(fl: Filter<A>, c: Cloud, i: int, j: int) -> real {
    let d = fl.row_draw(j, i, 0, 1);
    displaced(
        exact::number32(fl.cfg.mom) * exact::number32(c.rate[j]),
        fl.cfg.vn,
        d.rad,
        d.cos,
    )
}

/// Where the rate alone takes particle `j` on the way to row `i`.
pub open spec fn drifted<A: Arith>(fl: Filter<A>, c: Cloud, i: int, j: int) -> real {
    exact::number32(c.pos[j]) + next_rate(fl, c, i, j) * stride(fl, i)
}

/// Depth that particle `j` gets to at row `i`: what the rate makes of its position,
/// disturbed by its draw, less the vertical offset, and held within a hundred of the
/// type well's range.
pub open spec fn next_depth<A: Arith>(fl: Filter<A>, c: Cloud, i: int, j: int) -> real {
    let d = fl.row_draw(j, i, 0, 1);
    let vmin = exact::number32(fl.p.vmin);
    let reach = (fl.grid.len() as int) as real * exact::number32(fl.p.step);
    held(
        displaced(drifted(fl, c, i, j), fl.cfg.pn, d.rad, d.sin) - exact::number32(fl.z[i]),
        vmin - 100 as real,
        vmin + reach + 100 as real,
    )
}

/// No step of the move of particle `j` to row `i` rounds.
pub open spec fn move_fits<A: Arith>(fl: Filter<A>, c: Cloud, i: int, j: int) -> bool {
    let d = fl.row_draw(j, i, 0, 1);
    let vmin = exact::number32(fl.p.vmin);
    let reach = (fl.grid.len() as int) as real * exact::number32(fl.p.step);
    let damped = exact::number32(fl.cfg.mom) * exact::number32(c.rate[j]);
    let at = displaced(drifted(fl, c, i, j), fl.cfg.pn, d.rad, d.sin);
    &&& exact::faithful32(fl.m)
    &&& 0 <= i < fl.md.len() && i < fl.z.len()
    &&& 0 <= j < fl.n()
    &&& fl.grid.len() <= 0x100_0000
    &&& ieee::finite32(fl.cfg.mom) && ieee::finite32(c.rate[j]) && ieee::finite32(c.pos[j])
    &&& ieee::finite32(fl.z[i]) && ieee::finite32(fl.p.vmin) && ieee::finite32(fl.p.step)
    &&& exact::number32(fl.p.step) >= 0 as real
    &&& ieee::finite32(fl.md[i])
    &&& i > 0 ==> ieee::finite32(fl.md[i - 1]) && exact::fits32(
        exact::number32(fl.md[i]) - exact::number32(fl.md[i - 1]),
    )
    &&& exact::fits32(damped)
    &&& displacement_fits(damped, fl.cfg.vn, d.rad, d.cos)
    &&& exact::fits32(next_rate(fl, c, i, j) * stride(fl, i))
    &&& exact::fits32(drifted(fl, c, i, j))
    &&& displacement_fits(drifted(fl, c, i, j), fl.cfg.pn, d.rad, d.sin)
    &&& exact::fits32(at - exact::number32(fl.z[i]))
    &&& exact::fits32(vmin - 100 as real)
    &&& exact::fits32(reach)
    &&& exact::fits32(vmin + reach)
    &&& exact::fits32(vmin + reach + 100 as real)
    &&& exact::fits32(next_depth(fl, c, i, j) + exact::number32(fl.z[i]))
}

proof fn lemma_gap<A: Arith>(fl: Filter<A>, c: Cloud, i: int, j: int)
    requires
        move_fits(fl, c, i, j),
    ensures
        exact::is32(fl.gap(i), stride(fl, i)),
{
    exact::lemma_constants32();
    if i > 0 {
        exact::lemma_difference32(fl.m, fl.md[i], fl.md[i - 1]);
        exact::lemma_order32(arith::difference32(fl.m, fl.md[i], fl.md[i - 1]), ieee::ONE32);
    }
}

pub(crate) proof fn lemma_clamped(x: u32, lo: u32, hi: u32)
    requires
        ieee::finite32(x) && ieee::finite32(lo) && ieee::finite32(hi),
        exact::number32(lo) <= exact::number32(hi),
    ensures
        exact::is32(
            filter::clamped(x, lo, hi),
            held(exact::number32(x), exact::number32(lo), exact::number32(hi)),
        ),
{
    exact::lemma_order32(x, lo);
    exact::lemma_order32(hi, x);
    exact::lemma_order32(hi, lo);
}

/// A row moves each particle by its own rate over the measured depth covered: the rate
/// is damped by the momentum and disturbed, the position follows the new rate and is
/// disturbed, and the depth, position less the vertical offset, is held within a
/// hundred of the type well's range.
#[verifier::rlimit(50)]
pub proof fn lemma_particles_move_by_their_rates<A: Arith>(fl: Filter<A>, c: Cloud, i: int, j: int)
    requires
        move_fits(fl, c, i, j),
    ensures
        ({
            let v = fl.moved(c, i);
            &&& exact::is32(v.rate[j], next_rate(fl, c, i, j))
            &&& exact::is32(v.tvt[j], next_depth(fl, c, i, j))
            &&& exact::is32(v.pos[j], next_depth(fl, c, i, j) + exact::number32(fl.z[i]))
        }),
{
    let m = fl.m;
    let d = fl.row_draw(j, i, 0, 1);
    exact::lemma_constants32();
    exact::lemma_filter_constants32();
    exact::lemma_product32(m, fl.cfg.mom, c.rate[j]);
    let damped = arith::product32(m, fl.cfg.mom, c.rate[j]);
    lemma_shifted(m, fl.f, damped, fl.cfg.vn, d.rad, d.cos);
    let rate = fl.moved_rate(c, i, j);
    lemma_gap(fl, c, i, j);
    lemma_mul_added(m, fl.f, rate, fl.gap(i), c.pos[j]);
    let along = filter::mul_added(m, fl.f, rate, fl.gap(i), c.pos[j]);
    lemma_shifted(m, fl.f, along, fl.cfg.pn, d.rad, d.sin);
    let at = filter::shifted(m, fl.f, along, fl.cfg.pn, d.rad, d.sin);
    exact::lemma_difference32(m, at, fl.z[i]);
    let depth = arith::difference32(m, at, fl.z[i]);
    exact::lemma_difference32(m, fl.p.vmin, filter::MARGIN);
    let len = fl.grid.len() as u64;
    exact::lemma_of_int32(m, len);
    lemma_mul_added(m, fl.f, arith::of_int32(m, len), fl.p.step, fl.p.vmin);
    let tmax = filter::mul_added(m, fl.f, arith::of_int32(m, len), fl.p.step, fl.p.vmin);
    exact::lemma_sum32(m, tmax, filter::MARGIN);
    let (n, s) = ((fl.grid.len() as int) as real, exact::number32(fl.p.step));
    assert(n * s >= 0 as real) by (nonlinear_arith)
        requires
            n >= 0 as real,
            s >= 0 as real,
    ;
    lemma_clamped(depth, fl.lo(), fl.hi());
    let tvt = fl.moved_tvt(c, i, j);
    exact::lemma_sum32(m, tvt, fl.z[i]);
}

// ---------------------------------------------------------------------------
// Weighing a particle
// ---------------------------------------------------------------------------

/// Squared mismatch of two readings in units of the sigma, at most six hundred.
pub open spec fn squared_mismatch(reading: real, expected: real, sigma: real) -> real {
    let d = (reading - expected) / sigma;
    if d * d > 600 as real {
        600 as real
    } else {
        d * d
    }
}

/// The exponential that the formulas use.
pub open spec fn bell<A: Arith>(m: A, f: Formulas, x: u32) -> u32 {
    match f {
        Formulas::Plain => arith::exponential32(m, x),
        Formulas::Pinned => kernel::exp_reduced(m, x),
    }
}

/// Exponent of a likelihood: minus half the squared mismatch.
pub open spec fn exponent(gri: u32, eg: u32, p: WellParams) -> real {
    -(squared_mismatch(
        exact::number32(gri),
        exact::number32(eg),
        exact::number32(p.gs),
    ) / 2 as real)
}

/// No step towards the exponent of a likelihood rounds.
pub open spec fn mismatch_fits(gri: u32, eg: u32, p: WellParams) -> bool {
    let d = (exact::number32(gri) - exact::number32(eg)) / exact::number32(p.gs);
    &&& interpolation::exact_params(p)
    &&& ieee::finite32(gri) && ieee::finite32(eg)
    &&& exact::fits32(exact::number32(gri) - exact::number32(eg))
    &&& exact::fits32(d)
    &&& exact::fits32(d * d)
    &&& exact::fits32(exponent(gri, eg, p))
}

/// The likelihood of a reading is the exponential of minus half its squared mismatch, and
/// never less than the floor.
#[verifier::rlimit(50)]
pub proof fn lemma_likelihood_is_gaussian<A: Arith>(
    m: A,
    f: Formulas,
    gri: u32,
    eg: u32,
    p: WellParams,
    floor: u32,
) -> (x: u32)
    requires
        exact::faithful32(m),
        mismatch_fits(gri, eg, p),
        ieee::finite32(floor),
        forall|y: u32|
            exact::is32(y, exponent(gri, eg, p)) ==> !ieee::nan32(#[trigger] bell(m, f, y)),
    ensures
        exact::is32(x, exponent(gri, eg, p)),
        filter::likelihood_of(m, f, gri, eg, p, floor) == if ieee::less32(bell(m, f, x), floor) {
            floor
        } else {
            bell(m, f, x)
        },
{
    exact::lemma_filter_constants32();
    let (a, b, g) = (exact::number32(gri), exact::number32(eg), exact::number32(p.gs));
    exact::lemma_difference32(m, gri, eg);
    let miss = arith::difference32(m, gri, eg);
    exact::lemma_quotient32(m, miss, p.gs);
    exact::lemma_product32(m, miss, p.inv_gs);
    assert((a - b) * (1 as real / g) == (a - b) / g) by (nonlinear_arith)
        requires
            g > 0 as real,
    ;
    let d = match f {
        Formulas::Plain => arith::quotient32(m, miss, p.gs),
        Formulas::Pinned => arith::product32(m, miss, p.inv_gs),
    };
    assert(exact::is32(d, (a - b) / g));
    exact::lemma_product32(m, d, d);
    let dd = arith::product32(m, d, d);
    exact::lemma_order32(filter::DD_MAX, dd);
    let capped = filter::capped(f, dd, filter::DD_MAX);
    let s = squared_mismatch(a, b, g);
    assert(exact::is32(capped, s));
    assert(-(1 as real / 2 as real) * s == -(s / 2 as real)) by (nonlinear_arith);
    exact::lemma_product32(m, kernel::NEG_HALF, capped);
    let x = arith::product32(m, kernel::NEG_HALF, capped);
    assert(!ieee::nan32(bell(m, f, x)));
    x
}

/// What the type well reads at the depth that particle `j` gets to at row `i`.
pub open spec fn expected_reading<A: Arith>(fl: Filter<A>, c: Cloud, i: int, j: int) -> u32 {
    filter::looked_up(fl.m, fl.f, fl.grid, fl.moved(c, i).tvt[j], fl.p)
}

/// `x`, but at least `lo`.
pub open spec fn at_least(x: real, lo: real) -> real {
    if x < lo {
        lo
    } else {
        x
    }
}

/// A row multiplies each particle's weight by the likelihood of the row's reading where
/// the type well reads what it does at the particle's depth, rounded once.
#[verifier::rlimit(50)]
pub proof fn lemma_particles_are_weighed_by_their_mismatch<A: Arith>(
    fl: Filter<A>,
    c: Cloud,
    i: int,
    j: int,
)
    requires
        exact::faithful32(fl.m),
        0 <= j < fl.n(),
        0 <= i < fl.gr.len(),
        ieee::finite32(c.w[j]),
        ieee::finite32(fl.cfg.lik_floor),
        mismatch_fits(fl.gr[i], expected_reading(fl, c, i, j), fl.p),
        forall|y: u32|
            exact::is32(y, exponent(fl.gr[i], expected_reading(fl, c, i, j), fl.p))
                ==> ieee::finite32(#[trigger] bell(fl.m, fl.f, y)),
    ensures
        exists|x: u32|
            #![trigger bell(fl.m, fl.f, x)]
            exact::is32(x, exponent(fl.gr[i], expected_reading(fl, c, i, j), fl.p))
                && exact::near32(
                fl.moved(c, i).w[j],
                exact::number32(c.w[j]) * at_least(
                    exact::number32(bell(fl.m, fl.f, x)),
                    exact::number32(fl.cfg.lik_floor),
                ),
            ),
{
    let expected = expected_reading(fl, c, i, j);
    let x = lemma_likelihood_is_gaussian(
        fl.m,
        fl.f,
        fl.gr[i],
        expected,
        fl.p,
        fl.cfg.lik_floor,
    );
    let e = bell(fl.m, fl.f, x);
    assert(ieee::finite32(e));
    exact::lemma_order32(e, fl.cfg.lik_floor);
    let l = filter::likelihood_of(
        fl.m,
        fl.f,
        fl.gr[i],
        expected,
        fl.p,
        fl.cfg.lik_floor,
    );
    exact::lemma_product32(fl.m, c.w[j], l);
    assert(fl.moved(c, i).w[j] == arith::product32(fl.m, c.w[j], l));
}

// ---------------------------------------------------------------------------
// Degenerate weights
// ---------------------------------------------------------------------------

/// Sum of the squared weights that row `k` gives.
pub open spec fn square_total<A: Arith>(fl: Filter<A>, k: int) -> real {
    averages::sum(|j: int| weight_of(fl, k, j) * weight_of(fl, k, j), fl.n() as int)
}

#[verifier::rlimit(50)]
pub(crate) proof fn lemma_weight_total<A: Arith>(
    fl: Filter<A>,
    k: int,
    ws: Seq<int>,
    g: real,
    qs: Seq<int>,
    h: real,
)
    requires
        weights_fit(fl, k, ws, g, qs, h),
    ensures
        exact::is32(fl.weight_sum(fl.moved(fl.cloud(k), k)), weight_total(fl, k)),
{
    let v = fl.moved(fl.cloud(k), k);
    lemma_cloud_sum(fl.m, v.w, ws, g, fl.lanes());
    lemma_same_sums(
        |j: int| exact::number32(v.w[j]),
        |j: int| weight_of(fl, k, j),
        fl.n() as int,
    );
}

/// The squares of the weights that row `k` gives are multiples of a common step, and add
/// up without rounding.
pub open spec fn squares_add_up<A: Arith>(fl: Filter<A>, k: int, ss: Seq<int>, e: real) -> bool {
    &&& pairs_on_grid(
        fl.moved(fl.cloud(k), k).w,
        fl.moved(fl.cloud(k), k).w,
        ss,
        e,
    )
    &&& averages::mass(ss, 0, fl.n() as int) <= 0x100_0000
}

/// The squares of the weights that row `k` gives add up without rounding to more than
/// zero.
pub open spec fn squares_fit<A: Arith>(fl: Filter<A>, k: int, ss: Seq<int>, e: real) -> bool {
    &&& squares_add_up(fl, k, ss, e)
    &&& square_total(fl, k) > 0 as real
    &&& fl.f == Formulas::Plain || exact::fits32(1 as real / square_total(fl, k))
}

#[verifier::rlimit(50)]
proof fn lemma_square_total<A: Arith>(fl: Filter<A>, k: int, ss: Seq<int>, e: real)
    requires
        exact::faithful32(fl.m),
        power_of_two_lanes(fl.lanes()),
        squares_add_up(fl, k, ss, e),
    ensures
        exact::is32(fl.square_sum(fl.moved(fl.cloud(k), k)), square_total(fl, k)),
{
    let v = fl.moved(fl.cloud(k), k);
    lemma_cloud_dot(fl.m, fl.f, v.w, v.w, ss, e, fl.lanes());
    lemma_same_sums(
        |j: int| exact::number32(v.w[j]) * exact::number32(v.w[j]),
        |j: int| weight_of(fl, k, j) * weight_of(fl, k, j),
        fl.n() as int,
    );
}

/// Effective number of particles at row `k`: the squared sum of the weights, over the sum
/// of their squares.
pub open spec fn effective_number<A: Arith>(fl: Filter<A>, k: int) -> real {
    (weight_total(fl, k) * weight_total(fl, k)) / square_total(fl, k)
}

/// Row `k` resamples exactly if the effective number of particles is less than the
/// configured share of their number.
#[verifier::rlimit(50)]
pub proof fn lemma_resampling_follows_the_effective_number<A: Arith>(
    fl: Filter<A>,
    k: int,
    ws: Seq<int>,
    g: real,
    qs: Seq<int>,
    h: real,
    ss: Seq<int>,
    e: real,
)
    requires
        weights_fit(fl, k, ws, g, qs, h),
        squares_fit(fl, k, ss, e),
        fl.n() <= 0x100_0000,
        exact::fits32(weight_total(fl, k) * weight_total(fl, k)),
        exact::fits32(effective_number(fl, k)),
        ieee::finite32(fl.cfg.resamp),
        exact::fits32(exact::number32(fl.cfg.resamp) * (fl.n() as int) as real),
    ensures
        fl.degenerate(fl.moved(fl.cloud(k), k)) <==> effective_number(fl, k) < exact::number32(
            fl.cfg.resamp,
        ) * (fl.n() as int) as real,
{
    let m = fl.m;
    let v = fl.moved(fl.cloud(k), k);
    exact::lemma_constants32();
    lemma_weight_total(fl, k, ws, g, qs, h);
    lemma_square_total(fl, k, ss, e);
    let (s, s2) = (fl.weight_sum(v), fl.square_sum(v));
    exact::lemma_order32(ieee::ZERO32, s2);
    exact::lemma_product32(m, s, s);
    lemma_ratio(m, fl.f, arith::product32(m, s, s), s2);
    exact::lemma_of_int32(m, fl.cfg.n_particles as u64);
    exact::lemma_product32(m, fl.cfg.resamp, fl.n_f());
    exact::lemma_order32(fl.neff(v), arith::product32(m, fl.cfg.resamp, fl.n_f()));
}

/// A cloud whose weights are all zero counts as effective in all of its particles.
pub proof fn lemma_weightless_clouds_count_in_full<A: Arith>(
    fl: Filter<A>,
    k: int,
    ss: Seq<int>,
    e: real,
)
    requires
        exact::faithful32(fl.m),
        power_of_two_lanes(fl.lanes()),
        squares_add_up(fl, k, ss, e),
        square_total(fl, k) == 0 as real,
        fl.n() <= 0x100_0000,
        ieee::finite32(fl.cfg.resamp),
        exact::fits32(exact::number32(fl.cfg.resamp) * (fl.n() as int) as real),
    ensures
        fl.degenerate(fl.moved(fl.cloud(k), k)) <==> exact::number32(fl.cfg.resamp) * (
        fl.n() as int) as real > (fl.n() as int) as real,
{
    let v = fl.moved(fl.cloud(k), k);
    exact::lemma_constants32();
    lemma_square_total(fl, k, ss, e);
    exact::lemma_order32(ieee::ZERO32, fl.square_sum(v));
    exact::lemma_of_int32(fl.m, fl.cfg.n_particles as u64);
    exact::lemma_product32(fl.m, fl.cfg.resamp, fl.n_f());
    exact::lemma_order32(fl.n_f(), arith::product32(fl.m, fl.cfg.resamp, fl.n_f()));
}

/// A row that does not resample leaves each particle its share of the weights, rounded
/// once.
#[verifier::rlimit(50)]
pub proof fn lemma_kept_weights_are_shares<A: Arith>(
    fl: Filter<A>,
    k: int,
    ws: Seq<int>,
    g: real,
    qs: Seq<int>,
    h: real,
    j: int,
)
    requires
        weights_fit(fl, k, ws, g, qs, h),
        !fl.degenerate(fl.moved(fl.cloud(k), k)),
        0 <= j < fl.n(),
    ensures
        exact::near32(
            fl.cloud(k + 1).w[j],
            weight_of(fl, k, j) / weight_total(fl, k),
        ),
{
    reveal(Filter::step);
    let v = fl.moved(fl.cloud(k), k);
    lemma_weight_total(fl, k, ws, g, qs, h);
    assert(fl.cloud(k + 1) == fl.step(fl.cloud(k), k).cloud);
    assert(exact::is32(v.w[j], exact::scaled(ws[j], g)));
    lemma_ratio(fl.m, fl.f, v.w[j], fl.weight_sum(v));
}

/// The log-likelihood grows, row by row, by the logarithm of the sum of the weights that
/// the row gives, rounded once.
#[verifier::rlimit(50)]
pub proof fn lemma_log_likelihood_adds_up_the_rows<A: Arith>(
    fl: Filter<A>,
    k: int,
    ws: Seq<int>,
    g: real,
    qs: Seq<int>,
    h: real,
)
    requires
        weights_fit(fl, k, ws, g, qs, h),
        ieee::finite32(fl.log_lik(k)),
        forall|y: u32|
            exact::is32(y, weight_total(fl, k)) ==> ieee::finite32(
                #[trigger] arith::log32(fl.m, y),
            ),
    ensures
        exact::number32(fl.log_lik(0)) == 0 as real,
        exists|s: u32|
            #[trigger] exact::is32(s, weight_total(fl, k)) && exact::near32(
                fl.log_lik(k + 1),
                exact::number32(fl.log_lik(k)) + exact::number32(arith::log32(fl.m, s)),
            ),
{
    reveal(Filter::step);
    let m = fl.m;
    let n = fl.n() as int;
    let v = fl.moved(fl.cloud(k), k);
    exact::lemma_constants32();
    lemma_weight_total(fl, k, ws, g, qs, h);
    let s = fl.weight_sum(v);
    assert(exact::is32(s, weight_total(fl, k)));
    assert(fl.step(fl.cloud(k), k).ws == s);
    assert(ieee::finite32(arith::log32(m, s)));
    exact::lemma_sum32(m, fl.log_lik(k), arith::log32(m, s));
    assert(fl.log_lik(k + 1) == arith::sum32(m, fl.log_lik(k), arith::log32(m, s)));
}

} // verus!
