//! What sums, means and blends come to where their terms share a grid, so that no
//! addition rounds.
use vstd::prelude::*;
use crate::arith;
use crate::arith::Arith;
use crate::batch;
use crate::beam::{BeamConfig, BeamWellInput, SmoothingKind};
use crate::beam_reference as beams;
use crate::blend;
use crate::exact;
use crate::filter;
use crate::filter::Formulas;
use crate::ieee;
use crate::reference;
use crate::synthetic;

verus! {

// ---------------------------------------------------------------------------
// Sums of numbers
// ---------------------------------------------------------------------------

/// `f(0) + ... + f(n - 1)`.
pub open spec fn sum(f: spec_fn(int) -> real, n: int) -> real
    decreases n,
{
    if n <= 0 {
        0 as real
    } else {
        sum(f, n - 1) + f(n - 1)
    }
}

/// Magnitude of an integer.
pub open spec fn size(k: int) -> int {
    if k < 0 {
        -k
    } else {
        k
    }
}

/// `ks[lo] + ... + ks[hi - 1]`.
pub open spec fn run(ks: Seq<int>, lo: int, hi: int) -> int
    decreases hi - lo,
{
    if hi <= lo {
        0
    } else {
        run(ks, lo, hi - 1) + ks[hi - 1]
    }
}

/// Sum of the magnitudes of `ks[lo..hi]`.
pub open spec fn mass(ks: Seq<int>, lo: int, hi: int) -> int
    decreases hi - lo,
{
    if hi <= lo {
        0
    } else {
        mass(ks, lo, hi - 1) + size(ks[hi - 1])
    }
}

pub(crate) proof fn lemma_mass_bounds(ks: Seq<int>, lo: int, hi: int)
    ensures
        -mass(ks, lo, hi) <= run(ks, lo, hi) <= mass(ks, lo, hi),
        0 <= mass(ks, lo, hi),
    decreases hi - lo,
{
    if lo < hi {
        lemma_mass_bounds(ks, lo, hi - 1);
    }
}

pub(crate) proof fn lemma_mass_part(ks: Seq<int>, lo: int, hi: int, a: int, b: int)
    requires
        lo <= a <= b <= hi,
    ensures
        mass(ks, a, b) <= mass(ks, lo, hi),
    decreases hi - lo,
{
    lemma_mass_bounds(ks, lo, hi);
    lemma_mass_bounds(ks, a, b);
    if b < hi {
        lemma_mass_part(ks, lo, hi - 1, a, b);
    } else if lo < hi && a < b {
        lemma_mass_part(ks, lo, hi - 1, a, b - 1);
    }
}

pub(crate) proof fn lemma_scaled_sum(a: int, b: int, g: real)
    ensures
        exact::scaled(a, g) + exact::scaled(b, g) == exact::scaled(a + b, g),
        exact::scaled(0, g) == 0 as real,
{
    let (x, y) = (a as real, b as real);
    assert(x * g + y * g == (x + y) * g) by (nonlinear_arith);
    assert((0 as real) * g == 0 as real) by (nonlinear_arith);
}

/// Binary64 patterns that stand for multiples of a common step.
pub open spec fn on_grid64(xs: Seq<u64>, ks: Seq<int>, g: real) -> bool {
    &&& xs.len() == ks.len()
    &&& exact::grid64(g)
    &&& forall|j: int| 0 <= j < xs.len() ==> exact::is64(#[trigger] xs[j], exact::scaled(ks[j], g))
}

/// A sum over part of a grid does not round.
proof fn lemma_sum_of<A: Arith>(m: A, xs: Seq<u64>, ks: Seq<int>, g: real, lo: int, hi: int)
    requires
        exact::faithful64(m),
        on_grid64(xs, ks, g),
        0 <= lo <= hi <= xs.len(),
        mass(ks, lo, hi) <= 0x20_0000_0000_0000,
    ensures
        exact::is64(beams::sum_of(m, xs, lo, hi), exact::scaled(run(ks, lo, hi), g)),
    decreases hi - lo,
{
    lemma_scaled_sum(0, 0, g);
    exact::lemma_constants64();
    if lo < hi {
        lemma_mass_part(ks, lo, hi, lo, hi - 1);
        lemma_sum_of(m, xs, ks, g, lo, hi - 1);
        lemma_mass_bounds(ks, lo, hi);
        exact::lemma_sum64(m, beams::sum_of(m, xs, lo, hi - 1), xs[hi - 1]);
        lemma_scaled_sum(run(ks, lo, hi - 1), ks[hi - 1], g);
        assert(exact::fits64(exact::scaled(run(ks, lo, hi), g)));
    }
}

// ---------------------------------------------------------------------------
// The moving average
// ---------------------------------------------------------------------------

/// Whether row `j` is within `r` of row `i`.
pub open spec fn within(i: int, j: int, r: int) -> bool {
    -r <= j - i <= r
}

/// Sum of the readings of the rows within `r` of row `i`, of the first `n`.
pub open spec fn sum_within(gr: Seq<u64>, i: int, r: int, n: int) -> real {
    sum(
        |j: int|
            if within(i, j, r) {
                exact::number64(gr[j])
            } else {
                0 as real
            },
        n,
    )
}

/// Number of rows within `r` of row `i`, of the first `n`.
pub open spec fn count_within(i: int, r: int, n: int) -> int
    decreases n,
{
    if n <= 0 {
        0
    } else {
        count_within(i, r, n - 1) + if within(i, n - 1, r) {
            1int
        } else {
            0
        }
    }
}

proof fn lemma_within(gr: Seq<u64>, ks: Seq<int>, g: real, i: int, r: int, n: int)
    requires
        on_grid64(gr, ks, g),
        0 <= i,
        0 <= r,
        0 <= n <= gr.len(),
    ensures
        ({
            let lo = if i < r {
                0
            } else {
                i - r
            };
            let hi = if i + r + 1 < n {
                i + r + 1
            } else {
                n
            };
            &&& sum_within(gr, i, r, n) == exact::scaled(run(ks, lo, hi), g)
            &&& count_within(i, r, n) == if lo < hi {
                hi - lo
            } else {
                0
            }
        }),
    decreases n,
{
    lemma_scaled_sum(0, 0, g);
    let lo = if i < r {
        0
    } else {
        i - r
    };
    if n > 0 {
        lemma_within(gr, ks, g, i, r, n - 1);
        assert(exact::is64(gr[n - 1], exact::scaled(ks[n - 1], g)));
        if within(i, n - 1, r) {
            lemma_scaled_sum(run(ks, lo, n - 1), ks[n - 1], g);
        }
    }
}

/// The moving average of radius `r` at row `i` is the mean of the rows of the log that
/// are within `r` of it, rounded once.
pub proof fn lemma_moving_average_is_the_mean_of_its_window<A: Arith>(
    m: A,
    gr: Seq<u64>,
    r: int,
    i: int,
    ks: Seq<int>,
    g: real,
)
    requires
        exact::faithful64(m),
        0 <= r,
        0 <= i,
        gr.len() <= 0x20_0000_0000_0000,
        count_within(i, r, gr.len() as int) > 0,
        on_grid64(gr, ks, g),
        mass(ks, 0, gr.len() as int) <= 0x20_0000_0000_0000,
    ensures
        ({
            let n = gr.len() as int;
            let count = count_within(i, r, n) as real;
            let mean = sum_within(gr, i, r, n) / count;
            let v = beams::smoothed(m, gr, r, SmoothingKind::RollingMean, i);
            &&& exact::near64(v, mean)
            &&& exact::fits64(mean) ==> exact::number64(v) * count == sum_within(gr, i, r, n)
        }),
{
    let n = gr.len() as int;
    lemma_within(gr, ks, g, i, r, n);
    let lo = if i < r {
        0
    } else {
        i - r
    };
    let hi = if i + r + 1 < n {
        i + r + 1
    } else {
        n
    };
    let v = beams::smoothed(m, gr, r, SmoothingKind::RollingMean, i);
    let (s, c) = (sum_within(gr, i, r, n), count_within(i, r, n) as real);
    lemma_mass_part(ks, 0, n, lo, hi);
    lemma_sum_of(m, gr, ks, g, lo, hi);
    exact::lemma_of_int64(m, (hi - lo) as u64);
    exact::lemma_quotient64(
        m,
        beams::sum_of(m, gr, lo, hi),
        arith::of_int64(m, (hi - lo) as u64),
    );
    if r == 0 {
        assert(run(ks, i, i) == 0);
        assert(run(ks, i, i + 1) == ks[i]);
        assert(exact::is64(gr[i], exact::scaled(ks[i], g)));
        assert(s / c == s) by (nonlinear_arith)
            requires
                c == 1 as real,
        ;
        exact::lemma_is_near64(gr[i]);
    } else {
        assert(beams::window_start(r, i) == lo && beams::window_end(n, r, i) == hi);
        assert(v == beams::rolling_mean(m, gr, r, i));
    }
    assert(exact::near64(v, s / c));
    if exact::fits64(s / c) {
        exact::lemma_near_is64(v, s / c);
        assert((s / c) * c == s) by (nonlinear_arith)
            requires
                c > 0 as real,
        ;
    }
}

// ---------------------------------------------------------------------------
// The mean of an ensemble
// ---------------------------------------------------------------------------

/// Depths that the configurations track for row `i` of a well.
pub open spec fn depths_of<A: Arith>(
    m: A,
    well: BeamWellInput,
    configs: Seq<BeamConfig>,
    kind: SmoothingKind,
    i: int,
) -> Seq<u64> {
    Seq::new(configs.len(), |c: int| beams::depth_at(m, well, configs[c], kind, i))
}

/// A search reads its own well, row by row: the gamma ray as it is under a radius of zero,
/// and under a moving average the mean of the rows within the configuration's radius.
pub proof fn lemma_search_reads_its_well<A: Arith>(
    m: A,
    well: BeamWellInput,
    cfg: BeamConfig,
    i: int,
    ks: Seq<int>,
    g: real,
)
    requires
        exact::faithful64(m),
        0 <= i < well.gr@.len() <= 0x20_0000_0000_0000,
        on_grid64(well.gr@, ks, g),
        mass(ks, 0, well.gr@.len() as int) <= 0x20_0000_0000_0000,
    ensures
        ({
            let search = beams::search_of(m, well, cfg, SmoothingKind::RollingMean);
            let (r, n) = (cfg.radius as int, well.gr@.len() as int);
            &&& (search.tw_tvt, search.tw_gr) == (well.tw_tvt@, well.tw_gr@)
            &&& (search.last_tvt, search.cfg) == (well.last_tvt, cfg)
            &&& search.sgr.len() == n
            &&& r == 0 ==> search.sgr[i] == well.gr@[i]
            &&& exact::near64(
                search.sgr[i],
                sum_within(well.gr@, i, r, n) / count_within(i, r, n) as real,
            )
        }),
{
    lemma_within(well.gr@, ks, g, i, cfg.radius as int, well.gr@.len() as int);
    lemma_moving_average_is_the_mean_of_its_window(m, well.gr@, cfg.radius as int, i, ks, g);
}

/// The ensemble's depth is the mean of the depths of its configurations, each counted
/// once and equally, rounded once.
pub proof fn lemma_ensemble_is_the_mean_of_its_configurations<A: Arith>(
    m: A,
    well: BeamWellInput,
    configs: Seq<BeamConfig>,
    kind: SmoothingKind,
    i: int,
    ks: Seq<int>,
    g: real,
)
    requires
        exact::faithful64(m),
        0 < configs.len() <= 0x20_0000_0000_0000,
        on_grid64(depths_of(m, well, configs, kind, i), ks, g),
        mass(ks, 0, configs.len() as int) <= 0x20_0000_0000_0000,
    ensures
        exact::near64(
            beams::ensemble_mean(m, well, configs, kind, i),
            sum(
                |c: int| exact::number64(beams::depth_at(m, well, configs[c], kind, i)),
                configs.len() as int,
            ) / (configs.len() as int) as real,
        ),
{
    let n = configs.len() as int;
    lemma_depth_sum(m, well, configs, kind, i, ks, g, n);
    exact::lemma_of_int64(m, n as u64);
    exact::lemma_quotient64(
        m,
        beams::depth_sum(m, well, configs, kind, i, n),
        arith::of_int64(m, n as u64),
    );
}

proof fn lemma_depth_sum<A: Arith>(
    m: A,
    well: BeamWellInput,
    configs: Seq<BeamConfig>,
    kind: SmoothingKind,
    i: int,
    ks: Seq<int>,
    g: real,
    n: int,
)
    requires
        exact::faithful64(m),
        0 <= n <= configs.len(),
        on_grid64(depths_of(m, well, configs, kind, i), ks, g),
        mass(ks, 0, n) <= 0x20_0000_0000_0000,
    ensures
        exact::is64(
            beams::depth_sum(m, well, configs, kind, i, n),
            exact::scaled(run(ks, 0, n), g),
        ),
        sum(|c: int| exact::number64(beams::depth_at(m, well, configs[c], kind, i)), n)
            == exact::scaled(run(ks, 0, n), g),
    decreases n,
{
    lemma_scaled_sum(0, 0, g);
    exact::lemma_constants64();
    if n > 0 {
        lemma_mass_part(ks, 0, n, 0, n - 1);
        lemma_depth_sum(m, well, configs, kind, i, ks, g, n - 1);
        lemma_mass_bounds(ks, 0, n);
        let xs = depths_of(m, well, configs, kind, i);
        assert(exact::is64(xs[n - 1], exact::scaled(ks[n - 1], g)));
        exact::lemma_sum64(m, beams::depth_sum(m, well, configs, kind, i, n - 1), xs[n - 1]);
        lemma_scaled_sum(run(ks, 0, n - 1), ks[n - 1], g);
        assert(exact::fits64(exact::scaled(run(ks, 0, n), g)));
    }
}

// ---------------------------------------------------------------------------
// Blends of seeds
// ---------------------------------------------------------------------------

/// Products of weights and values that are multiples of a common step.
pub open spec fn products_on_grid(
    values: Seq<u32>,
    wts: Seq<u32>,
    ks: Seq<int>,
    g: real,
    n: int,
) -> bool {
    &&& exact::grid32(g)
    &&& forall|s: int|
        0 <= s < n ==> {
            &&& ieee::finite32(#[trigger] values[s]) && ieee::finite32(wts[s])
            &&& exact::number32(wts[s]) * exact::number32(values[s]) == exact::scaled(ks[s], g)
        }
    &&& forall|s: int| 0 <= s < n ==> size(#[trigger] ks[s]) <= 0x100_0000
}

/// A blend is the sum of the values, each times its own weight.
pub proof fn lemma_blend_is_the_weighted_sum<A: Arith>(
    m: A,
    values: Seq<u32>,
    wts: Seq<u32>,
    n: int,
    ks: Seq<int>,
    g: real,
)
    requires
        exact::faithful32(m),
        0 <= n,
        products_on_grid(values, wts, ks, g, n),
        mass(ks, 0, n) <= 0x100_0000,
    ensures
        exact::is32(
            blend::blended(m, values, wts, n),
            sum(|s: int| exact::number32(wts[s]) * exact::number32(values[s]), n),
        ),
        sum(|s: int| exact::number32(wts[s]) * exact::number32(values[s]), n) == exact::scaled(
            run(ks, 0, n),
            g,
        ),
    decreases n,
{
    lemma_scaled_sum(0, 0, g);
    exact::lemma_constants32();
    if n > 0 {
        lemma_mass_part(ks, 0, n, 0, n - 1);
        lemma_blend_is_the_weighted_sum(m, values, wts, n - 1, ks, g);
        lemma_mass_bounds(ks, 0, n);
        assert(ieee::finite32(values[n - 1]));
        assert(exact::fits32(exact::scaled(ks[n - 1], g)));
        exact::lemma_product32(m, wts[n - 1], values[n - 1]);
        exact::lemma_sum32(
            m,
            blend::blended(m, values, wts, n - 1),
            arith::product32(m, wts[n - 1], values[n - 1]),
        );
        lemma_scaled_sum(run(ks, 0, n - 1), ks[n - 1], g);
        assert(exact::fits32(exact::scaled(run(ks, 0, n), g)));
    }
}

/// What a blend adds up to, for one output channel: the seeds' estimates, each times
/// the seed's weight in that channel.
pub proof fn lemma_channel_is_the_weighted_sum<A: Arith>(
    m: A,
    f: Formulas,
    estimates: Seq<u32>,
    liks: Seq<u32>,
    scales: Seq<u32>,
    c: int,
    ks: Seq<int>,
    g: real,
)
    requires
        exact::faithful32(m),
        0 <= c <= scales.len(),
        products_on_grid(
            estimates,
            reference::channel_weights(m, liks, scales, c),
            ks,
            g,
            liks.len() as int,
        ),
        mass(ks, 0, liks.len() as int) <= 0x100_0000,
    ensures
        exact::is32(
            reference::channel_value(m, f, estimates, liks, scales, c),
            sum(
                |s: int|
                    exact::number32(reference::channel_weights(m, liks, scales, c)[s])
                        * exact::number32(estimates[s]),
                liks.len() as int,
            ),
        ),
{
    lemma_blend_is_the_weighted_sum(
        m,
        estimates,
        reference::channel_weights(m, liks, scales, c),
        liks.len() as int,
        ks,
        g,
    );
}

// ---------------------------------------------------------------------------
// Softmax weights
// ---------------------------------------------------------------------------

/// Each channel is tempered by its own scale: whatever else a batch asks for, a channel
/// weighs the seeds by their log-likelihoods and by the scale at its own place alone.
pub proof fn lemma_channel_is_tempered_by_its_own_scale<A: Arith>(
    m: A,
    liks: Seq<u32>,
    scales: Seq<u32>,
    c: int,
    others: Seq<u32>,
    d: int,
)
    requires
        0 <= c < scales.len(),
        0 <= d < others.len(),
        scales[c] == others[d],
    ensures
        reference::channel_weights(m, liks, scales, c) == reference::channel_weights(
            m,
            liks,
            others,
            d,
        ),
        reference::channel_weights(m, liks, scales, c) == reference::channel_weights(
            m,
            liks,
            seq![scales[c]],
            0,
        ),
{
    assert(reference::channel_weights(m, liks, scales, c) =~= reference::channel_weights(
        m,
        liks,
        others,
        d,
    ));
    assert(reference::channel_weights(m, liks, scales, c) =~= reference::channel_weights(
        m,
        liks,
        seq![scales[c]],
        0,
    ));
}

/// `xs[s]` stands for how far the log-likelihood of seed `s` lies below that of the
/// likeliest seed, over the scale.
pub open spec fn tempered(liks: Seq<u32>, scale: u32, top: int, xs: Seq<u32>) -> bool {
    &&& 0 <= top < liks.len()
    &&& xs.len() == liks.len()
    &&& ieee::finite32(scale) && exact::number32(scale) != 0 as real
    &&& forall|s: int|
        0 <= s < liks.len() ==> {
            let below = exact::number32(#[trigger] liks[s]) - exact::number32(liks[top]);
            &&& ieee::finite32(liks[s])
            &&& below <= 0 as real
            &&& exact::fits32(below)
            &&& exact::is32(xs[s], below / exact::number32(scale))
        }
}

/// The exponential does not tell the two zeros apart.
pub open spec fn exp_of_zero_is_one_value<A: Arith>(m: A) -> bool {
    arith::exponential32(m, 0x8000_0000) == arith::exponential32(m, 0)
}

/// Patterns that stand for the same number are the same, but for the two zeros.
proof fn lemma_same_pattern(x: u32, y: u32)
    requires
        ieee::finite32(x),
        ieee::finite32(y),
        exact::number32(x) == exact::number32(y),
    ensures
        x == y || (ieee::magnitude32(x) == 0 && ieee::magnitude32(y) == 0),
{
    exact::lemma_order32(x, y);
    exact::lemma_order32(y, x);
}

/// The raw weight of a seed is the exponential of its tempered log-likelihood.
proof fn lemma_raw_weight<A: Arith>(
    m: A,
    liks: Seq<u32>,
    scale: u32,
    top: int,
    xs: Seq<u32>,
    s: int,
)
    requires
        exact::faithful32(m),
        exp_of_zero_is_one_value(m),
        tempered(liks, scale, top, xs),
        0 <= s < liks.len(),
    ensures
        batch::raw_weight(m, liks, scale, s) == arith::exponential32(m, xs[s]),
{
    let n = liks.len() as int;
    let p = batch::peak(liks, n);
    batch::lemma_peak_is_largest(liks, n);
    assert(ieee::finite32(liks[top]));
    assert(!ieee::less32(p, liks[top]));
    assert(ieee::finite32(p) && exact::number32(p) == exact::number32(liks[top])) by {
        if p == ieee::NEG_INF32 {
            assert(ieee::less32(p, liks[top]));
        }
        let t = choose|t: int| 0 <= t < n && #[trigger] liks[t] == p;
        assert(ieee::finite32(liks[t]));
        exact::lemma_order32(p, liks[top]);
    }
    assert(ieee::finite32(liks[s]));
    exact::lemma_difference32(m, liks[s], p);
    let above = arith::difference32(m, liks[s], p);
    assert(exact::is32(xs[s], exact::number32(above) / exact::number32(scale)));
    assert(exact::number32(xs[s]) == exact::number32(above) / exact::number32(scale));
    exact::lemma_quotient32(m, above, scale);
    let x = arith::quotient32(m, above, scale);
    lemma_same_pattern(x, xs[s]);
}

/// A seed's weight in a channel is its share of the exponentials: of how far the
/// log-likelihoods lie below the largest, each over the channel's own scale. The weight
/// is rounded once, where the exponentials add up without rounding to a sum whose
/// reciprocal has a pattern.
pub proof fn lemma_weights_are_the_softmax_at_the_scale<A: Arith>(
    m: A,
    liks: Seq<u32>,
    scales: Seq<u32>,
    c: int,
    top: int,
    xs: Seq<u32>,
    ks: Seq<int>,
    g: real,
    s: int,
)
    requires
        exact::faithful32(m),
        exact::faithful64(m),
        exp_of_zero_is_one_value(m),
        0 <= c < scales.len(),
        tempered(liks, scales[c], top, xs),
        0 <= s < liks.len(),
        ks.len() == liks.len(),
        exact::grid64(g),
        forall|t: int|
            0 <= t < liks.len() ==> exact::is32(
                arith::exponential32(m, #[trigger] xs[t]),
                exact::scaled(ks[t], g),
            ),
        mass(ks, 0, liks.len() as int) <= 0x20_0000_0000_0000,
        exact::scaled(run(ks, 0, liks.len() as int), g) > 0 as real,
        exact::fits64(1 as real / exact::scaled(run(ks, 0, liks.len() as int), g)),
        exact::fits32(1 as real / exact::scaled(run(ks, 0, liks.len() as int), g)),
    ensures
        ({
            let total = sum(
                |t: int| exact::number32(arith::exponential32(m, xs[t])),
                liks.len() as int,
            );
            &&& total > 0 as real
            &&& exact::near32(
                reference::channel_weights(m, liks, scales, c)[s],
                exact::number32(arith::exponential32(m, xs[s])) / total,
            )
        }),
{
    let n = liks.len() as int;
    let scale = scales[c];
    lemma_raw_sum(m, liks, scale, top, xs, ks, g, n);
    let total = exact::scaled(run(ks, 0, n), g);
    let fsum = batch::raw_sum(m, liks, scale, n);
    exact::lemma_constants64();
    exact::lemma_order64(ieee::ZERO64, fsum);
    exact::lemma_quotient64(m, ieee::ONE64, fsum);
    let wide = arith::quotient64(m, ieee::ONE64, fsum);
    exact::lemma_narrowed(m, wide);
    let inv = arith::narrowed(m, wide);
    lemma_raw_weight(m, liks, scale, top, xs, s);
    let e = arith::exponential32(m, xs[s]);
    assert(exact::is32(e, exact::scaled(ks[s], g)));
    exact::lemma_product32(m, e, inv);
    let x = exact::number32(e);
    assert(x * (1 as real / total) == x / total) by (nonlinear_arith)
        requires
            total > 0 as real,
    ;
    assert(reference::channel_weights(m, liks, scales, c)[s] == batch::seed_weight(
        m,
        liks,
        scale,
        s,
    ));
}

proof fn lemma_raw_sum<A: Arith>(
    m: A,
    liks: Seq<u32>,
    scale: u32,
    top: int,
    xs: Seq<u32>,
    ks: Seq<int>,
    g: real,
    n: int,
)
    requires
        exact::faithful32(m),
        exact::faithful64(m),
        exp_of_zero_is_one_value(m),
        tempered(liks, scale, top, xs),
        0 <= n <= liks.len(),
        ks.len() == liks.len(),
        exact::grid64(g),
        forall|t: int|
            0 <= t < liks.len() ==> exact::is32(
                arith::exponential32(m, #[trigger] xs[t]),
                exact::scaled(ks[t], g),
            ),
        mass(ks, 0, n) <= 0x20_0000_0000_0000,
    ensures
        exact::is64(batch::raw_sum(m, liks, scale, n), exact::scaled(run(ks, 0, n), g)),
        sum(|t: int| exact::number32(arith::exponential32(m, xs[t])), n) == exact::scaled(
            run(ks, 0, n),
            g,
        ),
    decreases n,
{
    lemma_scaled_sum(0, 0, g);
    exact::lemma_constants64();
    if n > 0 {
        lemma_mass_part(ks, 0, n, 0, n - 1);
        lemma_raw_sum(m, liks, scale, top, xs, ks, g, n - 1);
        lemma_mass_bounds(ks, 0, n);
        lemma_raw_weight(m, liks, scale, top, xs, n - 1);
        let e = arith::exponential32(m, xs[n - 1]);
        assert(exact::is32(e, exact::scaled(ks[n - 1], g)));
        exact::lemma_widened(m, e);
        exact::lemma_sum64(m, batch::raw_sum(m, liks, scale, n - 1), arith::widened(m, e));
        lemma_scaled_sum(run(ks, 0, n - 1), ks[n - 1], g);
        assert(exact::fits64(exact::scaled(run(ks, 0, n), g)));
    }
}

/// In the mean channel every seed has the same weight, one over their number.
pub proof fn lemma_mean_channel_weighs_seeds_equally<A: Arith>(
    m: A,
    liks: Seq<u32>,
    scales: Seq<u32>,
    s: int,
)
    requires
        exact::faithful32(m),
        0 <= s < liks.len() <= 0x100_0000,
    ensures
        exact::near32(
            reference::channel_weights(m, liks, scales, scales.len() as int)[s],
            1 as real / (liks.len() as int) as real,
        ),
{
    exact::lemma_constants32();
    exact::lemma_of_int32(m, liks.len() as u64);
    exact::lemma_quotient32(m, ieee::ONE32, arith::of_int32(m, liks.len() as u64));
}

// ---------------------------------------------------------------------------
// The spread of the seeds
// ---------------------------------------------------------------------------

proof fn lemma_value_sum<A: Arith>(m: A, values: Seq<u32>, ks: Seq<int>, g: real, n: int)
    requires
        exact::faithful32(m),
        exact::grid32(g),
        0 <= n <= values.len(),
        forall|s: int|
            0 <= s < values.len() ==> exact::is32(
                #[trigger] values[s],
                exact::scaled(ks[s], g),
            ),
        mass(ks, 0, n) <= 0x100_0000,
    ensures
        exact::is32(blend::value_sum(m, values, n), exact::scaled(run(ks, 0, n), g)),
        sum(|s: int| exact::number32(values[s]), n) == exact::scaled(run(ks, 0, n), g),
    decreases n,
{
    lemma_scaled_sum(0, 0, g);
    exact::lemma_constants32();
    if n > 0 {
        lemma_mass_part(ks, 0, n, 0, n - 1);
        lemma_value_sum(m, values, ks, g, n - 1);
        lemma_mass_bounds(ks, 0, n);
        assert(exact::is32(values[n - 1], exact::scaled(ks[n - 1], g)));
        exact::lemma_sum32(m, blend::value_sum(m, values, n - 1), values[n - 1]);
        lemma_scaled_sum(run(ks, 0, n - 1), ks[n - 1], g);
        assert(exact::fits32(exact::scaled(run(ks, 0, n), g)));
    }
}

proof fn lemma_square_sum<A: Arith>(m: A, values: Seq<u32>, qs: Seq<int>, h: real, n: int)
    requires
        exact::faithful32(m),
        exact::grid32(h),
        0 <= n <= values.len(),
        forall|s: int| 0 <= s < values.len() ==> ieee::finite32(#[trigger] values[s]),
        forall|s: int|
            0 <= s < values.len() ==> exact::number32(#[trigger] values[s]) * exact::number32(
                values[s],
            ) == exact::scaled(qs[s], h),
        mass(qs, 0, n) <= 0x100_0000,
    ensures
        exact::is32(blend::square_sum(m, values, n), exact::scaled(run(qs, 0, n), h)),
        sum(|s: int| exact::number32(values[s]) * exact::number32(values[s]), n) == exact::scaled(
            run(qs, 0, n),
            h,
        ),
    decreases n,
{
    lemma_scaled_sum(0, 0, h);
    exact::lemma_constants32();
    if n > 0 {
        lemma_mass_part(qs, 0, n, 0, n - 1);
        lemma_square_sum(m, values, qs, h, n - 1);
        lemma_mass_bounds(qs, 0, n);
        lemma_mass_part(qs, 0, n, n - 1, n);
        lemma_mass_bounds(qs, n - 1, n);
        assert(run(qs, n - 1, n - 1) == 0 && run(qs, n - 1, n) == qs[n - 1]);
        assert(ieee::finite32(values[n - 1]));
        assert(exact::number32(values[n - 1]) * exact::number32(values[n - 1]) == exact::scaled(
            qs[n - 1],
            h,
        ));
        assert(exact::fits32(exact::scaled(qs[n - 1], h)));
        exact::lemma_product32(m, values[n - 1], values[n - 1]);
        exact::lemma_sum32(
            m,
            blend::square_sum(m, values, n - 1),
            arith::product32(m, values[n - 1], values[n - 1]),
        );
        lemma_scaled_sum(run(qs, 0, n - 1), qs[n - 1], h);
        assert(exact::fits32(exact::scaled(run(qs, 0, n), h)));
    }
}

/// The spread is the population standard deviation: its square is the mean of the
/// squares less the square of the mean. Rounded once, where nothing before it rounds.
pub proof fn lemma_spread_is_the_standard_deviation<A: Arith>(
    m: A,
    f: Formulas,
    values: Seq<u32>,
    ks: Seq<int>,
    g: real,
    qs: Seq<int>,
    h: real,
    deviation: real,
)
    requires
        exact::faithful32(m),
        0 < values.len() <= 0x100_0000,
        exact::fits32(1 as real / (values.len() as int) as real),
        exact::grid32(g),
        exact::grid32(h),
        forall|s: int|
            0 <= s < values.len() ==> exact::is32(
                #[trigger] values[s],
                exact::scaled(ks[s], g),
            ),
        forall|s: int|
            0 <= s < values.len() ==> exact::number32(#[trigger] values[s]) * exact::number32(
                values[s],
            ) == exact::scaled(qs[s], h),
        mass(ks, 0, values.len() as int) <= 0x100_0000,
        mass(qs, 0, values.len() as int) <= 0x100_0000,
        ({
            let n = (values.len() as int) as real;
            let mean = sum(|s: int| exact::number32(values[s]), values.len() as int) / n;
            let square = sum(
                |s: int| exact::number32(values[s]) * exact::number32(values[s]),
                values.len() as int,
            ) / n;
            &&& exact::fits32(mean)
            &&& exact::fits32(mean * mean)
            &&& exact::fits32(square)
            &&& exact::fits32(square - mean * mean)
            &&& deviation >= 0 as real
            &&& deviation * deviation == square - mean * mean
        }),
    ensures
        exact::near32(blend::spread(m, f, values), deviation),
{
    let n = values.len() as int;
    let d = n as real;
    exact::lemma_constants32();
    lemma_value_sum(m, values, ks, g, n);
    assert forall|s: int| 0 <= s < n implies ieee::finite32(#[trigger] values[s]) by {
        assert(exact::is32(values[s], exact::scaled(ks[s], g)));
    }
    lemma_square_sum(m, values, qs, h, n);
    exact::lemma_of_int32(m, n as u64);
    exact::lemma_quotient32(m, ieee::ONE32, arith::of_int32(m, n as u64));
    let inv = arith::quotient32(m, ieee::ONE32, arith::of_int32(m, n as u64));
    let (s1, s2) = (blend::value_sum(m, values, n), blend::square_sum(m, values, n));
    let (a, b) = (exact::number32(s1), exact::number32(s2));
    assert(a * (1 as real / d) == a / d && b * (1 as real / d) == b / d) by (nonlinear_arith)
        requires
            d > 0 as real,
    ;
    exact::lemma_product32(m, s1, inv);
    exact::lemma_product32(m, s2, inv);
    let (m1, m2) = (arith::product32(m, s1, inv), arith::product32(m, s2, inv));
    exact::lemma_product32(m, m1, m1);
    let sq = arith::product32(m, m1, m1);
    exact::lemma_difference32(m, m2, sq);
    let var = arith::difference32(m, m2, sq);
    exact::lemma_order32(var, ieee::ZERO32);
    assert(deviation * deviation >= 0 as real) by (nonlinear_arith);
    assert(filter::raised(f, var, ieee::ZERO32) == var);
    exact::lemma_root32(m, var, deviation);
}

// ---------------------------------------------------------------------------
// Error measures
// ---------------------------------------------------------------------------

/// Squared difference of two numbers.
pub open spec fn squared(a: real, b: real) -> real {
    (a - b) * (a - b)
}

proof fn lemma_squares64<A: Arith>(
    m: A,
    a: Seq<u64>,
    b: Seq<u64>,
    qs: Seq<int>,
    h: real,
    n: int,
)
    requires
        exact::faithful64(m),
        exact::grid64(h),
        0 <= n <= a.len(),
        a.len() == b.len() == qs.len(),
        mass(qs, 0, qs.len() as int) <= 0x20_0000_0000_0000,
        forall|i: int|
            0 <= i < a.len() ==> {
                &&& ieee::finite64(#[trigger] a[i]) && ieee::finite64(b[i])
                &&& exact::fits64(exact::number64(a[i]) - exact::number64(b[i]))
                &&& squared(exact::number64(a[i]), exact::number64(b[i])) == exact::scaled(qs[i], h)
            },
    ensures
        exact::is64(
            synthetic::squares64(m, a, b, n),
            sum(|i: int| squared(exact::number64(a[i]), exact::number64(b[i])), n),
        ),
        sum(|i: int| squared(exact::number64(a[i]), exact::number64(b[i])), n) == exact::scaled(
            run(qs, 0, n),
            h,
        ),
    decreases n,
{
    exact::lemma_constants64();
    lemma_scaled_sum(0, 0, h);
    if n > 0 {
        lemma_squares64(m, a, b, qs, h, n - 1);
        assert(ieee::finite64(a[n - 1]));
        lemma_square_step(synthetic::squares64(m, a, b, n - 1), qs, h, n);
        let d = arith::difference64(m, a[n - 1], b[n - 1]);
        exact::lemma_difference64(m, a[n - 1], b[n - 1]);
        exact::lemma_product64(m, d, d);
        exact::lemma_sum64(
            m,
            synthetic::squares64(m, a, b, n - 1),
            arith::product64(m, d, d),
        );
    }
}

/// Room for one more term in a sum of squares.
proof fn lemma_square_step(before: u64, qs: Seq<int>, h: real, n: int)
    requires
        exact::grid64(h),
        0 < n <= qs.len(),
        mass(qs, 0, qs.len() as int) <= 0x20_0000_0000_0000,
        exact::is64(before, exact::scaled(run(qs, 0, n - 1), h)),
    ensures
        exact::fits64(exact::scaled(qs[n - 1], h)),
        exact::fits64(exact::scaled(run(qs, 0, n), h)),
        exact::scaled(run(qs, 0, n), h) == exact::number64(before) + exact::scaled(qs[n - 1], h),
{
    lemma_mass_part(qs, 0, qs.len() as int, 0, n);
    lemma_mass_bounds(qs, 0, n);
    lemma_mass_part(qs, 0, qs.len() as int, n - 1, n);
    lemma_mass_bounds(qs, n - 1, n);
    assert(run(qs, n - 1, n - 1) == 0);
    assert(run(qs, n - 1, n) == run(qs, n - 1, n - 1) + qs[n - 1]);
    lemma_scaled_sum(run(qs, 0, n - 1), qs[n - 1], h);
}

/// The error between two series is the root of the mean squared difference: its square
/// times the number of samples is the sum of the squared differences. Rounded once,
/// where nothing before it rounds.
pub proof fn lemma_error_is_root_mean_square<A: Arith>(
    m: A,
    a: Seq<u64>,
    b: Seq<u64>,
    qs: Seq<int>,
    h: real,
    error: real,
)
    requires
        exact::faithful64(m),
        exact::grid64(h),
        0 < a.len() <= 0x20_0000_0000_0000,
        a.len() == b.len() == qs.len(),
        mass(qs, 0, qs.len() as int) <= 0x20_0000_0000_0000,
        forall|i: int|
            0 <= i < a.len() ==> {
                &&& ieee::finite64(#[trigger] a[i]) && ieee::finite64(b[i])
                &&& exact::fits64(exact::number64(a[i]) - exact::number64(b[i]))
                &&& squared(exact::number64(a[i]), exact::number64(b[i])) == exact::scaled(qs[i], h)
            },
        exact::fits64(error * error),
        error >= 0 as real,
        error * error * (a.len() as int) as real == sum(
            |i: int| squared(exact::number64(a[i]), exact::number64(b[i])),
            a.len() as int,
        ),
    ensures
        exact::near64(
            synthetic::root_mean(
                m,
                synthetic::squares64(m, a, b, a.len() as int),
                a.len() as int,
            ),
            error,
        ),
{
    let n = a.len() as int;
    lemma_squares64(m, a, b, qs, h, n);
    lemma_root_mean(m, synthetic::squares64(m, a, b, n), n, error);
}

proof fn lemma_root_mean<A: Arith>(m: A, squares: u64, n: int, error: real)
    requires
        exact::faithful64(m),
        0 < n <= 0x20_0000_0000_0000,
        ieee::finite64(squares),
        exact::fits64(error * error),
        error >= 0 as real,
        error * error * n as real == exact::number64(squares),
    ensures
        exact::near64(synthetic::root_mean(m, squares, n), error),
{
    exact::lemma_of_int64(m, n as u64);
    let count = arith::of_int64(m, n as u64);
    exact::lemma_quotient64(m, squares, count);
    let (e, d, s) = (error * error, n as real, exact::number64(squares));
    assert(s / d == e) by (nonlinear_arith)
        requires
            e * d == s,
            d > 0 as real,
    ;
    exact::lemma_root64(m, arith::quotient64(m, squares, count), error);
}

proof fn lemma_squares32<A: Arith>(
    m: A,
    a: Seq<u32>,
    b: Seq<u32>,
    qs: Seq<int>,
    h: real,
    n: int,
)
    requires
        exact::faithful32(m),
        exact::faithful64(m),
        exact::grid64(h),
        0 <= n <= a.len(),
        a.len() == b.len() == qs.len(),
        mass(qs, 0, qs.len() as int) <= 0x20_0000_0000_0000,
        forall|i: int|
            0 <= i < a.len() ==> {
                &&& ieee::finite32(#[trigger] a[i]) && ieee::finite32(b[i])
                &&& exact::fits32(exact::number32(a[i]) - exact::number32(b[i]))
                &&& squared(exact::number32(a[i]), exact::number32(b[i])) == exact::scaled(qs[i], h)
            },
    ensures
        exact::is64(
            synthetic::squares32(m, a, b, n),
            sum(|i: int| squared(exact::number32(a[i]), exact::number32(b[i])), n),
        ),
        sum(|i: int| squared(exact::number32(a[i]), exact::number32(b[i])), n) == exact::scaled(
            run(qs, 0, n),
            h,
        ),
    decreases n,
{
    exact::lemma_constants64();
    lemma_scaled_sum(0, 0, h);
    if n > 0 {
        lemma_squares32(m, a, b, qs, h, n - 1);
        assert(ieee::finite32(a[n - 1]));
        lemma_square_step(synthetic::squares32(m, a, b, n - 1), qs, h, n);
        exact::lemma_difference32(m, a[n - 1], b[n - 1]);
        let d = arith::widened(m, arith::difference32(m, a[n - 1], b[n - 1]));
        exact::lemma_widened(m, arith::difference32(m, a[n - 1], b[n - 1]));
        exact::lemma_product64(m, d, d);
        exact::lemma_sum64(
            m,
            synthetic::squares32(m, a, b, n - 1),
            arith::product64(m, d, d),
        );
    }
}

/// As [`lemma_error_is_root_mean_square`], of series in single precision. The error has
/// a pattern in double precision, and is rounded once to single.
pub proof fn lemma_single_error_is_root_mean_square<A: Arith>(
    m: A,
    a: Seq<u32>,
    b: Seq<u32>,
    qs: Seq<int>,
    h: real,
    error: real,
)
    requires
        exact::faithful32(m),
        exact::faithful64(m),
        exact::grid64(h),
        0 < a.len() <= 0x20_0000_0000_0000,
        a.len() == b.len() == qs.len(),
        mass(qs, 0, qs.len() as int) <= 0x20_0000_0000_0000,
        forall|i: int|
            0 <= i < a.len() ==> {
                &&& ieee::finite32(#[trigger] a[i]) && ieee::finite32(b[i])
                &&& exact::fits32(exact::number32(a[i]) - exact::number32(b[i]))
                &&& squared(exact::number32(a[i]), exact::number32(b[i])) == exact::scaled(qs[i], h)
            },
        exact::fits64(error * error),
        exact::fits64(error),
        error >= 0 as real,
        error * error * (a.len() as int) as real == sum(
            |i: int| squared(exact::number32(a[i]), exact::number32(b[i])),
            a.len() as int,
        ),
    ensures
        exact::near32(
            arith::narrowed(
                m,
                synthetic::root_mean(
                    m,
                    synthetic::squares32(m, a, b, a.len() as int),
                    a.len() as int,
                ),
            ),
            error,
        ),
{
    let n = a.len() as int;
    lemma_squares32(m, a, b, qs, h, n);
    let root = synthetic::root_mean(m, synthetic::squares32(m, a, b, n), n);
    lemma_root_mean(m, synthetic::squares32(m, a, b, n), n, error);
    exact::lemma_near_is64(root, error);
    exact::lemma_narrowed(m, root);
}

} // verus!
