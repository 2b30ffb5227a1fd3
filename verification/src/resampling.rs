//! The random draws of the particle filter and whom a degenerate cloud is redrawn from, as
//! numbers: the streams and fractions, the running shares of the weights, and the particle
//! that each slot of the new cloud copies.
use vstd::prelude::*;
use vstd::arithmetic::power2::*;
use crate::arith;
use crate::arith::Arith;
use crate::averages;
use crate::batch::{PfConfig, WellInput};
use crate::exact;
use crate::filter;
use crate::filter::{Filter, Formulas};
use crate::ieee;
use crate::kernel;
use crate::reference;
use crate::scan;
use crate::tracking;

verus! {

// ---------------------------------------------------------------------------
// Running sums
// ---------------------------------------------------------------------------

/// First element that a scan has taken in at `t` once it reaches back `off` elements.
spec fn reach(t: int, off: int) -> int {
    if t - off + 1 > 0 {
        t - off + 1
    } else {
        0
    }
}

/// A run of a sequence of bounded mass has a pattern.
proof fn lemma_run_fits(ks: Seq<int>, g: real, a: int, b: int)
    requires
        exact::grid32(g),
        0 <= a,
        b <= ks.len(),
        averages::mass(ks, 0, ks.len() as int) <= 0x100_0000,
    ensures
        exact::fits32(exact::scaled(averages::run(ks, a, b), g)),
{
    if a <= b {
        averages::lemma_mass_part(ks, 0, ks.len() as int, a, b);
    }
    averages::lemma_mass_bounds(ks, a, b);
}

/// The doubling scan of sums over a grid does not round.
proof fn lemma_doubling<A: Arith>(m: A, ys: Seq<u32>, ks: Seq<int>, g: real, off: int)
    requires
        exact::faithful32(m),
        exact::grid32(g),
        off > 0,
        ys.len() == ks.len(),
        averages::mass(ks, 0, ks.len() as int) <= 0x100_0000,
        forall|t: int|
            0 <= t < ys.len() ==> exact::is32(
                #[trigger] ys[t],
                exact::scaled(averages::run(ks, reach(t, off), t + 1), g),
            ),
    ensures
        scan::doubling_scan(scan::plus(m), ys, off).len() == ks.len(),
        forall|t: int|
            0 <= t < ys.len() ==> exact::is32(
                #[trigger] scan::doubling_scan(scan::plus(m), ys, off)[t],
                exact::scaled(averages::run(ks, 0, t + 1), g),
            ),
    decreases 2 * ys.len() - off,
{
    if off < ys.len() {
        let zs = scan::doubled(scan::plus(m), ys, off);
        assert forall|t: int| 0 <= t < zs.len() implies exact::is32(
            #[trigger] zs[t],
            exact::scaled(averages::run(ks, reach(t, 2 * off), t + 1), g),
        ) by {
            assert(exact::is32(ys[t], exact::scaled(averages::run(ks, reach(t, off), t + 1), g)));
            if t >= off {
                let (lo, mid) = (reach(t, 2 * off), t - off + 1);
                assert(reach(t - off, off) == lo && reach(t, off) == mid);
                assert(exact::is32(ys[t - off], exact::scaled(averages::run(ks, lo, mid), g)));
                tracking::lemma_run_splits(ks, lo, mid, t + 1);
                averages::lemma_scaled_sum(
                    averages::run(ks, mid, t + 1),
                    averages::run(ks, lo, mid),
                    g,
                );
                exact::lemma_sum32(m, ys[t], ys[t - off]);
                lemma_run_fits(ks, g, lo, t + 1);
            }
        }
        lemma_doubling(m, zs, ks, g, 2 * off);
    }
}

/// The scan of a cloud's weights is their running sum: element `j` stands for the sum of
/// the first `j + 1` of them.
pub proof fn lemma_scan_adds_up<A: Arith>(
    m: A,
    xs: Seq<u32>,
    ks: Seq<int>,
    g: real,
    lanes: int,
    j: int,
)
    requires
        exact::faithful32(m),
        tracking::on_grid32(xs, ks, g),
        lanes > 0,
        averages::mass(ks, 0, ks.len() as int) <= 0x100_0000,
        0 <= j < xs.len(),
    ensures
        exact::is32(
            scan::two_level(
                scan::plus(m),
                ieee::ZERO32,
                xs,
                lanes,
                scan::lane_chunk(xs.len() as int, lanes),
            )[j],
            averages::sum(|t: int| exact::number32(xs[t]), j + 1),
        ),
{
    let n = xs.len() as int;
    let chunk = scan::lane_chunk(n, lanes);
    let f = scan::plus(m);
    scan::lemma_lanes_partition(n, lanes, j);
    tracking::lemma_all_lanes(ks, lanes);
    let ys = scan::lane_totals(f, ieee::ZERO32, xs, lanes, chunk);
    let ts = tracking::lane_runs(ks, lanes, chunk);
    assert forall|t: int| 0 <= t < ys.len() implies exact::is32(
        #[trigger] ys[t],
        exact::scaled(averages::run(ts, reach(t, 1), t + 1), g),
    ) by {
        assert(0 <= t * chunk) by (nonlinear_arith)
            requires
                0 <= t,
                0 <= chunk,
        ;
        tracking::lemma_lane_sum(
            m,
            xs,
            ks,
            g,
            scan::lane_start(t, chunk),
            scan::lane_end(t, chunk, n),
        );
        assert(averages::run(ts, t, t) == 0);
        assert(averages::run(ts, t, t + 1) == ts[t]);
    }
    lemma_doubling(m, ys, ts, g, 1);
    let before = scan::doubling_scan(f, ys, 1);
    let t = j / chunk;
    let s = t * chunk;
    assert(s >= 0) by (nonlinear_arith)
        requires
            s == t * chunk,
            t >= 0,
            chunk > 0,
    ;
    tracking::lemma_lane_sum(m, xs, ks, g, s, j + 1);
    tracking::lemma_lane_runs(ks, lanes, chunk, t);
    tracking::lemma_run_splits(ks, 0, s, j + 1);
    exact::lemma_constants32();
    averages::lemma_scaled_sum(averages::run(ks, s, j + 1), averages::run(ks, 0, s), g);
    averages::lemma_scaled_sum(0, 0, g);
    let base = if t > 0 {
        before[t - 1]
    } else {
        ieee::ZERO32
    };
    if t == 0 {
        assert(0 * chunk == 0) by (nonlinear_arith);
        assert(averages::run(ks, 0, 0) == 0);
    }
    assert(exact::is32(base, exact::scaled(averages::run(ks, 0, s), g)));
    exact::lemma_sum32(m, scan::run_sum(f, ieee::ZERO32, xs, s, j + 1), base);
    lemma_run_fits(ks, g, 0, j + 1);
    tracking::lemma_number_sum(xs, ks, g, j + 1);
}

// ---------------------------------------------------------------------------
// Random fractions
// ---------------------------------------------------------------------------

/// Fraction that a random word gives: its upper twenty-four bits, counted from one, out
/// of two to the twenty-fourth.
pub open spec fn fraction(x: u32) -> real {
    (x as int / 256 + 1) as real / 0x100_0000 as real
}

/// A random word gives a fraction above zero and at most one, and words with different
/// upper bits give different ones.
pub proof fn lemma_unit_is_a_fraction(x: u32)
    ensures
        exact::is32(kernel::unit(x), fraction(x)),
        fraction(x) > 0 as real,
        fraction(x) <= 1 as real,
{
    let k = x as int / 256 + 1;
    lemma2_to64();
    let mag = exact::lemma_magnitude32(k, 125);
    lemma_pow2_pos(125);
    lemma_pow2_unfold(126);
    let p = pow2(125) as int;
    assert(mag >= 0x80_0000) by {
        if mag < 0x80_0000 {
            lemma_pow2_strictly_increases(24, 125);
            assert(k * p >= p) by (nonlinear_arith)
                requires
                    k >= 1,
                    p > 0,
            ;
        }
    }
    let z = mag as u32;
    let e = kernel::exponent32(z);
    lemma_pow2_unfold(e as nat);
    let (sig, q) = (kernel::significand32(z), pow2((e - 1) as nat) as int);
    assert(sig * q == k * p);
    assert(sig * (2 * q) == k * (2 * p)) by (nonlinear_arith)
        requires
            sig * q == k * p,
    ;
    assert(kernel::is_fraction_of_2p24(z, k));
    let r = kernel::unit(x);
    assert(kernel::is_fraction_of_2p24(r, k));
    let re = kernel::exponent32(r);
    lemma_pow2_unfold(re as nat);
    let (rs, rq) = (kernel::significand32(r), pow2((re - 1) as nat) as int);
    assert(rs * rq == k * p) by (nonlinear_arith)
        requires
            rs * (2 * rq) == k * (2 * p),
    ;
    assert(exact::units32(r as int) == k * p);
    lemma_pow2_adds(24, 125);
    lemma_pow2_pos(149);
    let (a, b, d) = (k as real, p as real, pow2(149) as real);
    assert((k * p) as real == k as real * p as real) by (nonlinear_arith);
    assert(d == 0x100_0000 as real * b);
    assert((a * b) / d == a / 0x100_0000 as real) by (nonlinear_arith)
        requires
            d == 0x100_0000 as real * b,
            b > 0 as real,
    ;
    assert(a / 0x100_0000 as real > 0 as real && a / 0x100_0000 as real <= 1 as real) by (nonlinear_arith)
        requires
            a >= 1 as real,
            a <= 0x100_0000 as real,
    ;
}

/// A full turn, to the precision of binary32.
pub open spec fn full_turn() -> real {
    exact::number32(0x40C9_0FDB)
}

/// A full turn is twice pi, to six decimals.
pub proof fn lemma_full_turn()
    ensures
        full_turn() * 1_000_000 as real > 6_283_185 as real,
        full_turn() * 1_000_000 as real <= 6_283_186 as real,
{
    lemma2_to64();
    exact::lemma_normal32(0x40C9_0FDB, 129, 0xC9_0FDB, 0x20_0000);
}

/// `ang` is the fraction of a full turn that the word `x` gives, rounded once.
pub open spec fn turned(ang: u32, x: u32) -> bool {
    exact::near32(ang, full_turn() * fraction(x))
}

/// A draw is a point of the plane in polar coordinates: a Box-Muller pair. Its radius
/// is the root of minus twice the logarithm of one random fraction, its direction the
/// cosine and the sine of one and the same angle, the other fraction of a full turn.
pub proof fn lemma_draw_is_polar<A: Arith>(m: A, ctr: u32, k0: u32, k1: u32, ln: u32)
    requires
        exact::faithful32(m),
        forall|u: u32|
            #![trigger arith::log32(m, u)]
            exact::is32(u, fraction(kernel::hashed(ctr, k0))) ==> arith::log32(m, u) == ln,
        ieee::finite32(ln),
        exact::fits32(-2 as real * exact::number32(ln)),
    ensures
        forall|r: real|
            r >= 0 as real && r * r == -2 as real * exact::number32(ln)
                ==> #[trigger] exact::near32(
                filter::drawn(m, Formulas::Plain, ctr, k0, k1).rad,
                r,
            ),
{
    let d = filter::drawn(m, Formulas::Plain, ctr, k0, k1);
    let x = kernel::hashed(ctr, k0);
    lemma_unit_is_a_fraction(x);
    assert(arith::log32(m, kernel::unit(x)) == ln);
    exact::lemma_filter_constants32();
    exact::lemma_product32(m, kernel::NEG_TWO, ln);
    let arg = arith::product32(m, kernel::NEG_TWO, ln);
    assert forall|r: real|
        r >= 0 as real && r * r == -2 as real * exact::number32(
            ln,
        ) implies #[trigger] exact::near32(d.rad, r) by {
        exact::lemma_root32(m, arg, r);
    }
}

/// The two numbers of a draw share one angle, a random fraction of a full turn: they are
/// its cosine and its sine.
pub proof fn lemma_draw_has_one_angle<A: Arith>(m: A, f: Formulas, ctr: u32, k0: u32, k1: u32)
    requires
        exact::faithful32(m),
    ensures
        exists|ang: u32|
            {
                &&& #[trigger] turned(ang, kernel::hashed(ctr, k1))
                &&& filter::drawn(m, f, ctr, k0, k1).cos == cosine_of(m, f, ang)
                &&& filter::drawn(m, f, ctr, k0, k1).sin == sine_of(m, f, ang)
            },
{
    let y = kernel::hashed(ctr, k1);
    let ang = arith::product32(m, kernel::TWO_PI, kernel::unit(y));
    assert(turned(ang, y)) by {
        lemma_unit_is_a_fraction(y);
        lemma2_to64();
        exact::lemma_normal32(0x40C9_0FDB, 129, 0xC9_0FDB, 0x20_0000);
        exact::lemma_product32(m, kernel::TWO_PI, kernel::unit(y));
    }
    assert(filter::drawn(m, f, ctr, k0, k1).cos == cosine_of(m, f, ang));
    assert(filter::drawn(m, f, ctr, k0, k1).sin == sine_of(m, f, ang));
}

/// The cosine that the formulas use.
pub open spec fn cosine_of<A: Arith>(m: A, f: Formulas, ang: u32) -> u32 {
    match f {
        Formulas::Plain => arith::cosine32(m, ang),
        Formulas::Pinned => kernel::cos_reduced(m, ang),
    }
}

/// The sine that the formulas use.
pub open spec fn sine_of<A: Arith>(m: A, f: Formulas, ang: u32) -> u32 {
    match f {
        Formulas::Plain => arith::sine32(m, ang),
        Formulas::Pinned => kernel::sin_reduced(m, ang),
    }
}

/// The stream of a seed is the well's seed base plus the seed's number, modulo two to the
/// thirty-second, so no two seeds of a well share one.
pub proof fn lemma_seeds_have_their_own_streams<A: Arith>(
    m: A,
    f: Formulas,
    well: WellInput,
    cfg: PfConfig,
    s: int,
    t: int,
)
    requires
        0 <= s < t <= u32::MAX,
    ensures
        reference::well_filter(m, f, well, cfg, s).stream() as int == (well.seed_base + s)
            % 0x1_0000_0000,
        reference::well_filter(m, f, well, cfg, s).stream() != reference::well_filter(
            m,
            f,
            well,
            cfg,
            t,
        ).stream(),
{
}

/// Word that particle `j` draws from at row `i`.
pub open spec fn row_counter<A: Arith>(fl: Filter<A>, j: int, i: int) -> u32 {
    kernel::hashed(kernel::hashed(fl.stream(), j as u32), i as u32)
}

/// A particle's draw at a row is its own: two particles at a row, and two rows of a
/// particle, draw from different words, and so do two slots before the first row and
/// the two numbers of a draw.
pub proof fn lemma_draws_have_their_own_words<A: Arith>(
    fl: Filter<A>,
    j: int,
    i: int,
    k: int,
    l: int,
    p: u32,
    q: u32,
)
    requires
        0 <= j < k <= u32::MAX,
        0 <= i < l <= u32::MAX,
        p != q,
    ensures
        fl.row_draw(j, i, p, q) == filter::drawn(fl.m, fl.f, row_counter(fl, j, i), p, q),
        row_counter(fl, j, i) != row_counter(fl, k, i),
        row_counter(fl, j, i) != row_counter(fl, j, l),
        fl.first_draw(j) == filter::drawn(
            fl.m,
            fl.f,
            kernel::hashed(fl.stream(), j as u32),
            0,
            1,
        ),
        kernel::hashed(fl.stream(), j as u32) != kernel::hashed(fl.stream(), k as u32),
        kernel::hashed(row_counter(fl, j, i), p) != kernel::hashed(row_counter(fl, j, i), q),
{
    let (a, b) = (
        kernel::hashed(fl.stream(), j as u32),
        kernel::hashed(fl.stream(), k as u32),
    );
    kernel::lemma_slots_never_collide(fl.stream(), j as u32, k as u32);
    kernel::lemma_streams_never_collide(a, i as u32, b);
    kernel::lemma_slots_never_collide(a, i as u32, l as u32);
    kernel::lemma_slots_never_collide(row_counter(fl, j, i), p, q);
}

/// The filter of a well reads the well's own logs and starts from its own parameters;
/// what it multiplies by in place of dividing are the reciprocals of the grid spacing
/// and of the sigma, rounded once.
pub proof fn lemma_filter_reads_its_well<A: Arith>(
    m: A,
    f: Formulas,
    well: WellInput,
    cfg: PfConfig,
    s: int,
)
    requires
        exact::faithful32(m),
        ieee::finite32(well.step),
        ieee::finite32(well.gs),
        exact::number32(well.step) != 0 as real,
        exact::number32(well.gs) != 0 as real,
    ensures
        ({
            let fl = reference::well_filter(m, f, well, cfg, s);
            &&& (fl.md, fl.z, fl.gr, fl.grid) == (well.md@, well.z@, well.gr@, well.grid@)
            &&& (fl.p.vmin, fl.p.step, fl.p.gs) == (well.vmin, well.step, well.gs)
            &&& (fl.p.ls, fl.p.ir, fl.p.init_spr) == (well.ls, well.ir, well.init_spr)
            &&& exact::near32(fl.p.inv_step, 1 as real / exact::number32(well.step))
            &&& exact::near32(fl.p.inv_gs, 1 as real / exact::number32(well.gs))
            &&& fl.cfg == cfg
        }),
{
    exact::lemma_constants32();
    exact::lemma_quotient32(m, ieee::ONE32, well.step);
    exact::lemma_quotient32(m, ieee::ONE32, well.gs);
}

/// What is blended for a well comes from its seeds' own filters: the estimates of one row,
/// and the log-likelihoods of all rows.
pub proof fn lemma_seeds_run_their_own_filters<A: Arith>(
    m: A,
    f: Formulas,
    well: WellInput,
    cfg: PfConfig,
    s: int,
    i: int,
)
    requires
        0 <= s < cfg.n_seeds,
    ensures
        ({
            let fl = reference::well_filter(m, f, well, cfg, s);
            &&& reference::row_estimates(m, f, well, cfg, i).len() == cfg.n_seeds
            &&& reference::row_estimates(m, f, well, cfg, i)[s] == fl.estimate(i)
            &&& reference::well_liks(m, f, well, cfg).len() == cfg.n_seeds
            &&& reference::well_liks(m, f, well, cfg)[s] == fl.log_lik(fl.md.len() as int)
        }),
{
}

// ---------------------------------------------------------------------------
// Systematic resampling
// ---------------------------------------------------------------------------

/// Share of particle `j` in the weights that row `k` gives.
pub open spec fn share<A: Arith>(fl: Filter<A>, k: int, j: int) -> real {
    tracking::weight_of(fl, k, j) / tracking::weight_total(fl, k)
}

/// What the first `j` particles hold of the weights that row `k` gives.
pub open spec fn running<A: Arith>(fl: Filter<A>, k: int, j: int) -> real {
    averages::sum(|t: int| share(fl, k, t), j)
}

/// Random fraction of row `k`, the same for all slots.
pub open spec fn lot<A: Arith>(fl: Filter<A>, k: int) -> real {
    fraction(kernel::hashed(kernel::hashed(fl.stream(), 0xA5A5_5A5A), k as u32))
}

/// Point of slot `a` of the cloud that row `k` redraws: the slots are evenly spaced, a
/// random fraction of a space from the start.
pub open spec fn point<A: Arith>(fl: Filter<A>, k: int, a: int) -> real {
    (a as real + lot(fl, k)) / (fl.n() as int) as real
}

/// Particle `j` is the one whose share slot `a` points into: those before it do not
/// reach the slot's point, and it does, unless it is the last.
pub open spec fn points_into<A: Arith>(fl: Filter<A>, k: int, a: int, j: int) -> bool {
    &&& 0 <= j < fl.n()
    &&& j > 0 ==> running(fl, k, j) < point(fl, k, a)
    &&& j < fl.n() - 1 ==> point(fl, k, a) <= running(fl, k, j + 1)
}

/// The shares are multiples of a common step and add up without rounding, and the
/// slot's point does not round.
pub open spec fn shares_fit<A: Arith>(
    fl: Filter<A>,
    k: int,
    ss: Seq<int>,
    e: real,
    a: int,
) -> bool {
    &&& 0 <= a < fl.n() <= 0x100_0000
    &&& ss.len() == fl.n()
    &&& exact::grid32(e)
    &&& averages::mass(ss, 0, fl.n() as int) <= 0x100_0000
    &&& forall|j: int| 0 <= j < fl.n() ==> #[trigger] share(fl, k, j) == exact::scaled(ss[j], e)
    &&& exact::fits32(1 as real / (fl.n() as int) as real)
    &&& exact::fits32(lot(fl, k) / (fl.n() as int) as real)
    &&& exact::fits32(a as real / (fl.n() as int) as real)
    &&& exact::fits32(point(fl, k, a))
}

#[verifier::rlimit(50)]
proof fn lemma_share_at<A: Arith>(
    fl: Filter<A>,
    k: int,
    ws: Seq<int>,
    g: real,
    qs: Seq<int>,
    h: real,
    ss: Seq<int>,
    e: real,
    a: int,
    j: int,
)
    requires
        tracking::weights_fit(fl, k, ws, g, qs, h),
        shares_fit(fl, k, ss, e, a),
        0 <= j < fl.n(),
    ensures
        exact::is32(fl.normalised(fl.moved(fl.cloud(k), k))[j], share(fl, k, j)),
        share(fl, k, j) == exact::scaled(ss[j], e),
        share(fl, k, j) >= 0 as real,
{
    let v = fl.moved(fl.cloud(k), k);
    let (x, y) = (tracking::weight_of(fl, k, j), tracking::weight_total(fl, k));
    assert(exact::is32(fl.weight_sum(v), y)) by {
        tracking::lemma_weight_total(fl, k, ws, g, qs, h);
    }
    assert(share(fl, k, j) == exact::scaled(ss[j], e));
    assert(exact::fits32(share(fl, k, j))) by {
        averages::lemma_mass_part(ss, 0, fl.n() as int, j, j + 1);
        assert(averages::mass(ss, j, j) == 0);
        assert(averages::mass(ss, j, j + 1) == averages::size(ss[j]));
        assert(exact::fits32(exact::scaled(ss[j], e)));
    }
    assert(exact::is32(v.w[j], exact::scaled(ws[j], g)));
    assert(exact::number32(v.w[j]) >= 0 as real);
    tracking::lemma_ratio(fl.m, fl.f, v.w[j], fl.weight_sum(v));
    assert(x / y >= 0 as real) by (nonlinear_arith)
        requires
            x >= 0 as real,
            y > 0 as real,
    ;
}

#[verifier::rlimit(50)]
proof fn lemma_shares<A: Arith>(
    fl: Filter<A>,
    k: int,
    ws: Seq<int>,
    g: real,
    qs: Seq<int>,
    h: real,
    ss: Seq<int>,
    e: real,
    a: int,
)
    requires
        tracking::weights_fit(fl, k, ws, g, qs, h),
        shares_fit(fl, k, ss, e, a),
    ensures
        tracking::on_grid32(fl.normalised(fl.moved(fl.cloud(k), k)), ss, e),
        forall|j: int|
            0 <= j < fl.n() ==> exact::is32(
                #[trigger] fl.normalised(fl.moved(fl.cloud(k), k))[j],
                share(fl, k, j),
            ),
        forall|j: int| 0 <= j < fl.n() ==> #[trigger] share(fl, k, j) >= 0 as real,
{
    let xs = fl.normalised(fl.moved(fl.cloud(k), k));
    assert forall|j: int| 0 <= j < fl.n() implies exact::is32(#[trigger] xs[j], share(fl, k, j))
        && exact::is32(xs[j], exact::scaled(ss[j], e)) by {
        lemma_share_at(fl, k, ws, g, qs, h, ss, e, a, j);
    }
    assert forall|j: int| 0 <= j < fl.n() implies #[trigger] share(fl, k, j) >= 0 as real by {
        lemma_share_at(fl, k, ws, g, qs, h, ss, e, a, j);
    }
}

proof fn lemma_running_grows<A: Arith>(fl: Filter<A>, k: int, i: int, j: int)
    requires
        0 <= i <= j <= fl.n(),
        forall|t: int| 0 <= t < fl.n() ==> #[trigger] share(fl, k, t) >= 0 as real,
    ensures
        running(fl, k, i) <= running(fl, k, j),
    decreases j,
{
    if i < j {
        lemma_running_grows(fl, k, i, j - 1);
        assert(share(fl, k, j - 1) >= 0 as real);
    }
}

#[verifier::rlimit(50)]
proof fn lemma_point<A: Arith>(fl: Filter<A>, k: int, ss: Seq<int>, e: real, a: int)
    requires
        exact::faithful32(fl.m),
        shares_fit(fl, k, ss, e, a),
    ensures
        exact::is32(
            filter::mul_added(
                fl.m,
                fl.f,
                arith::of_int32(fl.m, a as u64),
                fl.inv_n(),
                fl.offset(k),
            ),
            point(fl, k, a),
        ),
{
    let m = fl.m;
    let n = fl.n() as int;
    exact::lemma_constants32();
    exact::lemma_of_int32(m, fl.cfg.n_particles as u64);
    exact::lemma_of_int32(m, a as u64);
    exact::lemma_quotient32(m, ieee::ONE32, fl.n_f());
    let x = kernel::hashed(kernel::hashed(fl.stream(), filter::RESAMPLE_KEY), k as u32);
    lemma_unit_is_a_fraction(x);
    let (r, u, d) = (a as real, lot(fl, k), n as real);
    assert(u * (1 as real / d) == u / d && r * (1 as real / d) == r / d && u / d + r / d == (r + u)
        / d) by (nonlinear_arith)
        requires
            d > 0 as real,
    ;
    exact::lemma_product32(m, kernel::unit(x), fl.inv_n());
    tracking::lemma_mul_added(m, fl.f, arith::of_int32(m, a as u64), fl.inv_n(), fl.offset(k));
}

/// Resampling is systematic: a slot copies the particle whose share of the weights its
/// point falls into, so a particle is copied as often as there are points in its share.
#[verifier::rlimit(50)]
pub proof fn lemma_slots_copy_by_share<A: Arith>(
    fl: Filter<A>,
    k: int,
    ws: Seq<int>,
    g: real,
    qs: Seq<int>,
    h: real,
    ss: Seq<int>,
    e: real,
    a: int,
)
    requires
        tracking::weights_fit(fl, k, ws, g, qs, h),
        shares_fit(fl, k, ss, e, a),
    ensures
        points_into(fl, k, a, fl.source(fl.moved(fl.cloud(k), k), k, a)),
{
    let m = fl.m;
    let n = fl.n() as int;
    let v = fl.moved(fl.cloud(k), k);
    let xs = fl.normalised(v);
    lemma_shares(fl, k, ws, g, qs, h, ss, e, a);
    lemma_point(fl, k, ss, e, a);
    let lanes = fl.lanes();
    assert(lanes > 0) by {
        let p = choose|p: nat| lanes == #[trigger] pow2(p);
        lemma_pow2_pos(p);
    }
    let cum = scan::two_level(scan::plus(m), ieee::ZERO32, xs, lanes, fl.chunk());
    assert forall|j: int| 0 <= j < n implies exact::is32(
        #[trigger] cum[j],
        running(fl, k, j + 1),
    ) by {
        lemma_scan_adds_up(m, xs, ss, e, lanes, j);
        tracking::lemma_same_sums(
            |t: int| exact::number32(xs[t]),
            |t: int| share(fl, k, t),
            j + 1,
        );
    }
    assert forall|i: int, j: int| 0 <= i <= j < cum.len() implies ieee::at_most32(
        #[trigger] cum[i],
        #[trigger] cum[j],
    ) by {
        lemma_running_grows(fl, k, i + 1, j + 1);
        exact::lemma_order32(cum[i], cum[j]);
    }
    let u = filter::mul_added(
        m,
        fl.f,
        arith::of_int32(m, a as u64),
        fl.inv_n(),
        fl.offset(k),
    );
    scan::lemma_lower_bound_is_first(cum, 0, n - 1, u);
    let j = scan::searched(cum, 0, n - 1, u);
    if j > 0 {
        exact::lemma_order32(cum[j - 1], u);
        assert(exact::is32(cum[j - 1], running(fl, k, j)));
    }
    exact::lemma_order32(cum[j], u);
}

/// What slot `a` of the cloud that row `k` redraws would hold as a copy of particle `j`:
/// its position and its rate, both disturbed by the slot's own draw.
pub open spec fn copies<A: Arith>(fl: Filter<A>, k: int, a: int, j: int) -> bool {
    let v = fl.moved(fl.cloud(k), k);
    let d = fl.row_draw(a, k, 2, 3);
    &&& exact::is32(
        fl.cloud(k + 1).pos[a],
        tracking::displaced(exact::number32(v.pos[j]), fl.cfg.rough_p, d.rad, d.cos),
    )
    &&& exact::is32(
        fl.cloud(k + 1).rate[a],
        tracking::displaced(exact::number32(v.rate[j]), fl.cfg.rough_r, d.rad, d.sin),
    )
}

/// The disturbance of such a copy does not round.
pub open spec fn copy_fits<A: Arith>(fl: Filter<A>, k: int, a: int, j: int) -> bool {
    let v = fl.moved(fl.cloud(k), k);
    let d = fl.row_draw(a, k, 2, 3);
    let (p, r) = (exact::number32(v.pos[j]), exact::number32(v.rate[j]));
    &&& ieee::finite32(v.pos[j]) && ieee::finite32(v.rate[j])
    &&& tracking::displacement_fits(p, fl.cfg.rough_p, d.rad, d.cos)
    &&& tracking::displacement_fits(r, fl.cfg.rough_r, d.rad, d.sin)
}

#[verifier::rlimit(50)]
proof fn lemma_copies<A: Arith>(fl: Filter<A>, k: int, a: int)
    requires
        exact::faithful32(fl.m),
        0 <= k,
        0 <= a < fl.n() <= 0x100_0000,
        exact::fits32(1 as real / (fl.n() as int) as real),
        fl.degenerate(fl.moved(fl.cloud(k), k)),
        copy_fits(fl, k, a, fl.source(fl.moved(fl.cloud(k), k), k, a)),
    ensures
        copies(fl, k, a, fl.source(fl.moved(fl.cloud(k), k), k, a)),
        exact::is32(fl.cloud(k + 1).w[a], 1 as real / (fl.n() as int) as real),
{
    let v = fl.moved(fl.cloud(k), k);
    let d = fl.row_draw(a, k, 2, 3);
    let j = fl.source(v, k, a);
    let after = fl.resampled(v, k);
    assert(fl.cloud(k + 1) == after) by {
        reveal(Filter::step);
        assert(fl.cloud(k + 1) == fl.step(fl.cloud(k), k).cloud);
    }
    let pos = filter::shifted(fl.m, fl.f, v.pos[j], fl.cfg.rough_p, d.rad, d.cos);
    let rate = filter::shifted(fl.m, fl.f, v.rate[j], fl.cfg.rough_r, d.rad, d.sin);
    assert(after.pos[a] == pos && after.rate[a] == rate && after.w[a] == fl.inv_n());
    tracking::lemma_shifted(fl.m, fl.f, v.pos[j], fl.cfg.rough_p, d.rad, d.cos);
    tracking::lemma_shifted(fl.m, fl.f, v.rate[j], fl.cfg.rough_r, d.rad, d.sin);
    exact::lemma_constants32();
    exact::lemma_of_int32(fl.m, fl.cfg.n_particles as u64);
    exact::lemma_quotient32(fl.m, ieee::ONE32, fl.n_f());
    exact::lemma_near_is32(fl.inv_n(), 1 as real / (fl.n() as int) as real);
}

/// A row that resamples fills each slot of the cloud it leaves with the position and the
/// rate of one particle, the one whose share of the weights the slot points into, both
/// disturbed by the slot's own draw, and gives all slots the same weight.
#[verifier::rlimit(50)]
pub proof fn lemma_resampled_slots_copy_particles<A: Arith>(
    fl: Filter<A>,
    k: int,
    ws: Seq<int>,
    g: real,
    qs: Seq<int>,
    h: real,
    ss: Seq<int>,
    e: real,
    a: int,
)
    requires
        tracking::weights_fit(fl, k, ws, g, qs, h),
        shares_fit(fl, k, ss, e, a),
        fl.degenerate(fl.moved(fl.cloud(k), k)),
        forall|j: int| #[trigger] points_into(fl, k, a, j) ==> copy_fits(fl, k, a, j),
    ensures
        exists|j: int| #[trigger] points_into(fl, k, a, j) && copies(fl, k, a, j),
        exact::is32(fl.cloud(k + 1).w[a], 1 as real / (fl.n() as int) as real),
{
    let j = fl.source(fl.moved(fl.cloud(k), k), k, a);
    lemma_slots_copy_by_share(fl, k, ws, g, qs, h, ss, e, a);
    assert(points_into(fl, k, a, j));
    lemma_copies(fl, k, a);
}

} // verus!
