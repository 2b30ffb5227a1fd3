//! What the quadratic smoother reproduces where its arithmetic does not round: every
//! quadratic, every log under a window of three rows, and the textbook weights of a
//! window of five.
use vstd::prelude::*;
use crate::arith;
use crate::arith::Arith;
use crate::beam::{BeamConfig, BeamWellInput, SmoothingKind};
use crate::beam_reference as beams;
use crate::beam_reference::Moments;
use crate::ieee;

verus! {

// ---------------------------------------------------------------------------
// A fit that does not round
// ---------------------------------------------------------------------------

/// No operation rounds in the moments of the first `k` rows of the window that starts
/// at row `s`.
pub open spec fn exact_moments<A: Arith>(m: A, gr: Seq<u64>, r: int, s: int, k: int) -> bool
    decreases k,
{
    k > 0 ==> {
        let p = beams::moments(m, gr, r, s, k - 1);
        let x = beams::centred(m, r, k - 1);
        let x2 = arith::product64(m, x, x);
        let x4 = arith::product64(m, x2, x2);
        let y = gr[s + k - 1];
        &&& exact_moments(m, gr, r, s, k - 1)
        &&& arith::exact_int64(m, (k - 1) as u64)
        &&& arith::exact_int64(m, r as u64)
        &&& arith::exact_difference64(
            m,
            arith::of_int64(m, (k - 1) as u64),
            arith::of_int64(m, r as u64),
        )
        &&& arith::exact_product64(m, x, x)
        &&& arith::exact_product64(m, x2, x2)
        &&& arith::exact_product64(m, x, y)
        &&& arith::exact_product64(m, x2, y)
        &&& arith::exact_sum64(m, p.s0, ieee::ONE64)
        &&& arith::exact_sum64(m, p.s2, x2)
        &&& arith::exact_sum64(m, p.s4, x4)
        &&& arith::exact_sum64(m, p.t0, y)
        &&& arith::exact_sum64(m, p.t1, arith::product64(m, x, y))
        &&& arith::exact_sum64(m, p.t2, arith::product64(m, x2, y))
    }
}

/// No operation rounds in the quadratic with moments `p`, at `xe`.
pub open spec fn exact_quadratic<A: Arith>(m: A, p: Moments, xe: u64) -> bool {
    let s0s4 = arith::product64(m, p.s0, p.s4);
    let s2s2 = arith::product64(m, p.s2, p.s2);
    let t0s4 = arith::product64(m, p.t0, p.s4);
    let t2s2 = arith::product64(m, p.t2, p.s2);
    let t2s0 = arith::product64(m, p.t2, p.s0);
    let t0s2 = arith::product64(m, p.t0, p.s2);
    let det = arith::difference64(m, s0s4, s2s2);
    let n0 = arith::difference64(m, t0s4, t2s2);
    let n2 = arith::difference64(m, t2s0, t0s2);
    let a0 = arith::quotient64(m, n0, det);
    let a1 = arith::quotient64(m, p.t1, p.s2);
    let a2 = arith::quotient64(m, n2, det);
    let linear = arith::product64(m, a1, xe);
    let half = arith::product64(m, a2, xe);
    let square = arith::product64(m, half, xe);
    &&& arith::exact_product64(m, p.s0, p.s4)
    &&& arith::exact_product64(m, p.s2, p.s2)
    &&& arith::exact_product64(m, p.t0, p.s4)
    &&& arith::exact_product64(m, p.t2, p.s2)
    &&& arith::exact_product64(m, p.t2, p.s0)
    &&& arith::exact_product64(m, p.t0, p.s2)
    &&& arith::exact_difference64(m, s0s4, s2s2)
    &&& arith::exact_difference64(m, t0s4, t2s2)
    &&& arith::exact_difference64(m, t2s0, t0s2)
    &&& arith::exact_quotient64(m, n0, det)
    &&& arith::exact_quotient64(m, p.t1, p.s2)
    &&& arith::exact_quotient64(m, n2, det)
    &&& arith::exact_product64(m, a1, xe)
    &&& arith::exact_product64(m, a2, xe)
    &&& arith::exact_product64(m, half, xe)
    &&& arith::exact_sum64(m, a0, linear)
    &&& arith::exact_sum64(m, arith::sum64(m, a0, linear), square)
}

/// No operation rounds in the fit that serves row `i`.
pub open spec fn exact_fit<A: Arith>(m: A, gr: Seq<u64>, r: int, i: int) -> bool {
    let s = beams::fit_start(gr.len() as int, r, i);
    let (fi, fs, fr) = (
        arith::of_int64(m, i as u64),
        arith::of_int64(m, s as u64),
        arith::of_int64(m, r as u64),
    );
    let from_start = arith::difference64(m, fi, fs);
    &&& arith::exact_int64(m, i as u64)
    &&& arith::exact_int64(m, s as u64)
    &&& arith::exact_int64(m, r as u64)
    &&& arith::exact_difference64(m, fi, fs)
    &&& arith::exact_difference64(m, from_start, fr)
    &&& exact_moments(m, gr, r, s, 2 * r + 1)
    &&& exact_quadratic(
        m,
        beams::moments(m, gr, r, s, 2 * r + 1),
        arith::difference64(m, from_start, fr),
    )
}

// ---------------------------------------------------------------------------
// Sums over a window
// ---------------------------------------------------------------------------

/// `x` to the `e`.
spec fn power(x: int, e: nat) -> int
    decreases e,
{
    if e == 0 {
        1
    } else {
        x * power(x, (e - 1) as nat)
    }
}

/// Sum of the first `k` positions of a window of radius `r`, to the `e`.
spec fn positions(r: int, k: int, e: nat) -> int
    decreases k,
{
    if k <= 0 {
        0
    } else {
        positions(r, k - 1, e) + power(k - 1 - r, e)
    }
}

/// Sum of the first `k` readings of the window that starts at row `s`, each times its
/// position to the `e`.
spec fn readings(gr: Seq<u64>, r: int, s: int, k: int, e: nat) -> int
    decreases k,
{
    if k <= 0 {
        0
    } else {
        readings(gr, r, s, k - 1, e) + power(k - 1 - r, e) * ieee::value64(gr[s + k - 1])
    }
}

proof fn lemma_powers(x: int)
    ensures
        power(x, 0) == 1,
        power(x, 1) == x,
        power(x, 2) == x * x,
        power(x, 3) == x * (x * x),
        power(x, 4) == (x * x) * (x * x),
{
    reveal_with_fuel(power, 5);
    assert(x * (x * (x * x)) == (x * x) * (x * x)) by (nonlinear_arith);
}

proof fn lemma_cancel(a: int, b: int, u: int)
    requires
        u > 0,
        a * u == b * u,
    ensures
        a == b,
{
    assert(a == b) by (nonlinear_arith)
        requires
            u > 0,
            a * u == b * u,
    ;
}

/// One is positive.
proof fn lemma_one()
    ensures
        ieee::value64(ieee::ONE64) > 0,
        ieee::value64(ieee::ZERO64) == 0,
{
    ieee::lemma_value_orders(ieee::ZERO64, ieee::ONE64);
}

/// Moments that do not round are the sums over the window.
proof fn lemma_moments<A: Arith>(m: A, gr: Seq<u64>, r: int, s: int, k: int)
    requires
        exact_moments(m, gr, r, s, k),
        0 <= r <= u32::MAX,
        0 <= k <= 2 * r + 1,
    ensures
        ({
            let p = beams::moments(m, gr, r, s, k);
            let u = ieee::value64(ieee::ONE64);
            &&& ieee::value64(p.s0) == positions(r, k, 0) * u
            &&& ieee::value64(p.s2) == positions(r, k, 2) * u
            &&& ieee::value64(p.s4) == positions(r, k, 4) * u
            &&& ieee::value64(p.t0) == readings(gr, r, s, k, 0)
            &&& ieee::value64(p.t1) == readings(gr, r, s, k, 1)
            &&& ieee::value64(p.t2) == readings(gr, r, s, k, 2)
        }),
    decreases k,
{
    let u = ieee::value64(ieee::ONE64);
    lemma_one();
    if k > 0 {
        lemma_moments(m, gr, r, s, k - 1);
        let x = k - 1 - r;
        lemma_powers(x);
        let fx = beams::centred(m, r, k - 1);
        let fx2 = arith::product64(m, fx, fx);
        let fx4 = arith::product64(m, fx2, fx2);
        let y = ieee::value64(gr[s + k - 1]);
        assert(ieee::value64(fx) == x * u) by (nonlinear_arith)
            requires
                ieee::value64(fx) == (k - 1) * u - r * u,
                x == k - 1 - r,
        ;
        assert((x * u) * (x * u) == ((x * x) * u) * u) by (nonlinear_arith);
        lemma_cancel(ieee::value64(fx2), (x * x) * u, u);
        let z = x * x;
        assert((z * u) * (z * u) == ((z * z) * u) * u) by (nonlinear_arith);
        lemma_cancel(ieee::value64(fx4), (z * z) * u, u);
        assert((x * u) * y == (x * y) * u) by (nonlinear_arith);
        lemma_cancel(ieee::value64(arith::product64(m, fx, gr[s + k - 1])), x * y, u);
        assert((z * u) * y == (z * y) * u) by (nonlinear_arith);
        lemma_cancel(ieee::value64(arith::product64(m, fx2, gr[s + k - 1])), z * y, u);
        let (p0, p2, p4) = (
            positions(r, k - 1, 0),
            positions(r, k - 1, 2),
            positions(r, k - 1, 4),
        );
        assert((p0 + 1) * u == p0 * u + u) by (nonlinear_arith);
        assert((p2 + z) * u == p2 * u + z * u) by (nonlinear_arith);
        assert((p4 + z * z) * u == p4 * u + (z * z) * u) by (nonlinear_arith);
    }
}

/// Over a whole window the odd powers of the positions cancel.
proof fn lemma_odd_positions(r: int, k: int)
    requires
        0 <= k,
    ensures
        2 * positions(r, k, 1) == k * (k - 1 - 2 * r),
        4 * positions(r, k, 3) == ((k - 1 - r) * (k - r)) * ((k - 1 - r) * (k - r)) - (r * (r + 1))
            * (r * (r + 1)),
    decreases k,
{
    if k > 0 {
        lemma_odd_positions(r, k - 1);
        let x = k - 1 - r;
        lemma_powers(x);
        assert(2 * x + (k - 1) * (k - 2 - 2 * r) == k * (k - 1 - 2 * r)) by (nonlinear_arith)
            requires
                x == k - 1 - r,
        ;
        let below = (x - 1) * x;
        let above = x * (x + 1);
        assert(above * above - below * below == 4 * (x * (x * x))) by (nonlinear_arith)
            requires
                below == (x - 1) * x,
                above == x * (x + 1),
        {
            assert(above - below == 2 * x);
            assert(above + below == 2 * (x * x));
            assert(above * above - below * below == (above - below) * (above + below));
        }
    } else {
        assert((-1 - r) * (-r) == r * (r + 1)) by (nonlinear_arith);
    }
}

/// Sum of the squared differences between `z` and the first `k` squared positions.
proof fn lemma_square_gaps(r: int, k: int, z: int)
    requires
        0 <= k,
    ensures
        positions(r, k, 4) - 2 * z * positions(r, k, 2) + z * z * positions(r, k, 0) >= 0,
        k >= 1 && z != r * r ==> positions(r, k, 4) - 2 * z * positions(r, k, 2) + z * z
            * positions(r, k, 0) > 0,
        positions(r, k, 0) == k,
    decreases k,
{
    if k > 0 {
        lemma_square_gaps(r, k - 1, z);
        let x = k - 1 - r;
        lemma_powers(x);
        let y = x * x;
        let (p0, p2, p4) = (
            positions(r, k - 1, 0),
            positions(r, k - 1, 2),
            positions(r, k - 1, 4),
        );
        assert((p4 + y * y) - 2 * z * (p2 + y) + z * z * (p0 + 1) == (p4 - 2 * z * p2 + z * z * p0)
            + (y - z) * (y - z)) by (nonlinear_arith);
        assert((y - z) * (y - z) >= 0) by (nonlinear_arith);
        if k == 1 && z != r * r {
            assert(y == r * r) by (nonlinear_arith)
                requires
                    y == (-r) * (-r),
            ;
            assert((y - z) * (y - z) > 0) by (nonlinear_arith)
                requires
                    y != z,
            ;
        }
    }
}

/// The determinant of a fit is positive from the second row on.
proof fn lemma_determinant(r: int, k: int)
    requires
        1 <= r,
        2 <= k <= 2 * r + 1,
    ensures
        positions(r, k, 0) * positions(r, k, 4) - positions(r, k, 2) * positions(r, k, 2) > 0,
        positions(r, k, 2) > 0,
    decreases k,
{
    let x = k - 1 - r;
    lemma_powers(x);
    let z = x * x;
    lemma_square_gaps(r, k - 1, z);
    let (p0, p2, p4) = (positions(r, k - 1, 0), positions(r, k - 1, 2), positions(r, k - 1, 4));
    assert(z >= 0) by (nonlinear_arith)
        requires
            z == x * x,
    ;
    assert((p0 + 1) * (p4 + z * z) - (p2 + z) * (p2 + z) == (p0 * p4 - p2 * p2) + (p4 - 2 * z * p2
        + z * z * p0)) by (nonlinear_arith);
    if k == 2 {
        lemma_powers(-r);
        reveal_with_fuel(positions, 2);
        assert(z != r * r && p2 > 0 && p0 * p4 - p2 * p2 == 0) by (nonlinear_arith)
            requires
                z == (1 - r) * (1 - r),
                r >= 1,
                p0 == 1,
                p2 == (-r) * (-r),
                p4 == ((-r) * (-r)) * ((-r) * (-r)),
        ;
    } else {
        lemma_determinant(r, k - 1);
    }
}

/// Readings that follow a quadratic in their position sum up as its terms do.
proof fn lemma_readings(
    gr: Seq<u64>,
    r: int,
    s: int,
    k: int,
    e: nat,
    a: int,
    b: int,
    c: int,
)
    requires
        0 <= k,
        forall|j: int|
            0 <= j < k ==> 2 * ieee::value64(#[trigger] gr[s + j]) == a + b * (j - r) + c * ((j - r)
                * (j - r)),
    ensures
        2 * readings(gr, r, s, k, e) == a * positions(r, k, e) + b * positions(r, k, e + 1) + c
            * positions(r, k, e + 2),
    decreases k,
{
    if k > 0 {
        lemma_readings(gr, r, s, k - 1, e, a, b, c);
        let x = k - 1 - r;
        let y = ieee::value64(gr[s + (k - 1)]);
        let w = power(x, e);
        reveal_with_fuel(power, 3);
        assert(power(x, e + 1) == x * w);
        assert(power(x, e + 2) == x * (x * w));
        assert(2 * (w * y) == a * w + b * (x * w) + c * (x * (x * w))) by (nonlinear_arith)
            requires
                2 * y == a + b * x + c * (x * x),
        ;
        let (p, q, t) = (
            positions(r, k - 1, e),
            positions(r, k - 1, e + 1),
            positions(r, k - 1, e + 2),
        );
        assert(a * (p + w) == a * p + a * w) by (nonlinear_arith);
        assert(b * (q + x * w) == b * q + b * (x * w)) by (nonlinear_arith);
        assert(c * (t + x * (x * w)) == c * t + c * (x * (x * w))) by (nonlinear_arith);
    } else {
        assert(a * 0 + b * 0 + c * 0 == 0);
    }
}

/// The fit's three coefficients: what the normal equations of the window call for.
proof fn lemma_coefficients<A: Arith>(m: A, gr: Seq<u64>, r: int, i: int) -> (q: (int, int, int))
    requires
        exact_fit(m, gr, r, i),
        1 <= r <= u32::MAX,
        2 * r + 1 < gr.len() <= usize::MAX,
        0 <= i <= usize::MAX,
    ensures
        ({
            let s = beams::fit_start(gr.len() as int, r, i);
            let w = 2 * r + 1;
            let (p0, p2, p4) = (positions(r, w, 0), positions(r, w, 2), positions(r, w, 4));
            let (t0, t1, t2) = (
                readings(gr, r, s, w, 0),
                readings(gr, r, s, w, 1),
                readings(gr, r, s, w, 2),
            );
            let x = i - s - r;
            &&& p0 * p4 - p2 * p2 > 0
            &&& p2 > 0
            &&& q.0 * (p0 * p4 - p2 * p2) == t0 * p4 - t2 * p2
            &&& q.1 * p2 == t1
            &&& q.2 * (p0 * p4 - p2 * p2) == t2 * p0 - t0 * p2
            &&& ieee::value64(beams::quadratic_fit(m, gr, r, i)) == q.0 + q.1 * x + q.2 * (x * x)
            &&& ieee::finite64(beams::quadratic_fit(m, gr, r, i))
        }),
{
    let s = beams::fit_start(gr.len() as int, r, i);
    let w = 2 * r + 1;
    let u = ieee::value64(ieee::ONE64);
    let p = beams::moments(m, gr, r, s, w);
    lemma_one();
    lemma_moments(m, gr, r, s, w);
    lemma_determinant(r, w);
    let (p0, p2, p4) = (positions(r, w, 0), positions(r, w, 2), positions(r, w, 4));
    let (t0, t1, t2) = (
        readings(gr, r, s, w, 0),
        readings(gr, r, s, w, 1),
        readings(gr, r, s, w, 2),
    );
    let det = p0 * p4 - p2 * p2;
    let x = i - s - r;

    let fi = arith::of_int64(m, i as u64);
    let fs = arith::of_int64(m, s as u64);
    let fr = arith::of_int64(m, r as u64);
    let xe = arith::difference64(m, arith::difference64(m, fi, fs), fr);
    assert(ieee::value64(xe) == x * u) by (nonlinear_arith)
        requires
            ieee::value64(xe) == i * u - s * u - r * u,
            x == i - s - r,
    ;

    let s0s4 = arith::product64(m, p.s0, p.s4);
    let s2s2 = arith::product64(m, p.s2, p.s2);
    let fdet = arith::difference64(m, s0s4, s2s2);
    assert((p0 * u) * (p4 * u) == ((p0 * p4) * u) * u) by (nonlinear_arith);
    lemma_cancel(ieee::value64(s0s4), (p0 * p4) * u, u);
    assert((p2 * u) * (p2 * u) == ((p2 * p2) * u) * u) by (nonlinear_arith);
    lemma_cancel(ieee::value64(s2s2), (p2 * p2) * u, u);
    assert((p0 * p4) * u - (p2 * p2) * u == det * u) by (nonlinear_arith)
        requires
            det == p0 * p4 - p2 * p2,
    ;

    let t0s4 = arith::product64(m, p.t0, p.s4);
    let t2s2 = arith::product64(m, p.t2, p.s2);
    let t2s0 = arith::product64(m, p.t2, p.s0);
    let t0s2 = arith::product64(m, p.t0, p.s2);
    lemma_scaled_product(t0, p4, u, ieee::value64(t0s4));
    lemma_scaled_product(t2, p2, u, ieee::value64(t2s2));
    lemma_scaled_product(t2, p0, u, ieee::value64(t2s0));
    lemma_scaled_product(t0, p2, u, ieee::value64(t0s2));

    let f0 = arith::quotient64(m, arith::difference64(m, t0s4, t2s2), fdet);
    let f1 = arith::quotient64(m, p.t1, p.s2);
    let f2 = arith::quotient64(m, arith::difference64(m, t2s0, t0s2), fdet);
    let (a0, a1, a2) = (ieee::value64(f0), ieee::value64(f1), ieee::value64(f2));
    lemma_scaled_quotient(a0, det, u, t0 * p4 - t2 * p2);
    lemma_scaled_quotient(a1, p2, u, t1);
    lemma_scaled_quotient(a2, det, u, t2 * p0 - t0 * p2);

    let linear = arith::product64(m, f1, xe);
    let half = arith::product64(m, f2, xe);
    let square = arith::product64(m, half, xe);
    lemma_scaled_product(a1, x, u, ieee::value64(linear));
    lemma_scaled_product(a2, x, u, ieee::value64(half));
    lemma_scaled_product(a2 * x, x, u, ieee::value64(square));
    assert((a2 * x) * x == a2 * (x * x)) by (nonlinear_arith);
    (a0, a1, a2)
}

proof fn lemma_scaled_product(a: int, b: int, u: int, v: int)
    requires
        u > 0,
        v * u == a * (b * u),
    ensures
        v == a * b,
{
    assert(a * (b * u) == (a * b) * u) by (nonlinear_arith);
    lemma_cancel(v, a * b, u);
}

proof fn lemma_scaled_quotient(v: int, d: int, u: int, n: int)
    requires
        u > 0,
        v * (d * u) == n * u,
    ensures
        v * d == n,
{
    assert(v * (d * u) == (v * d) * u) by (nonlinear_arith);
    lemma_cancel(v * d, n, u);
}

/// A fit through readings that follow a quadratic in their position is that quadratic.
proof fn lemma_fit_in_window<A: Arith>(
    m: A,
    gr: Seq<u64>,
    r: int,
    i: int,
    a: int,
    b: int,
    c: int,
)
    requires
        exact_fit(m, gr, r, i),
        1 <= r <= u32::MAX,
        2 * r + 1 < gr.len() <= usize::MAX,
        0 <= i <= usize::MAX,
        forall|j: int|
            0 <= j < 2 * r + 1 ==> 2 * ieee::value64(
                #[trigger] gr[beams::fit_start(gr.len() as int, r, i) + j],
            ) == a + b * (j - r) + c * ((j - r) * (j - r)),
    ensures
        ({
            let x = i - beams::fit_start(gr.len() as int, r, i) - r;
            2 * ieee::value64(beams::quadratic_fit(m, gr, r, i)) == a + b * x + c * (x * x)
        }),
        ieee::finite64(beams::quadratic_fit(m, gr, r, i)),
{
    let s = beams::fit_start(gr.len() as int, r, i);
    let w = 2 * r + 1;
    let (q0, q1, q2) = lemma_coefficients(m, gr, r, i);
    lemma_readings(gr, r, s, w, 0, a, b, c);
    lemma_readings(gr, r, s, w, 1, a, b, c);
    lemma_readings(gr, r, s, w, 2, a, b, c);
    lemma_odd_positions(r, w);
    let (p0, p1, p2, p3, p4) = (
        positions(r, w, 0),
        positions(r, w, 1),
        positions(r, w, 2),
        positions(r, w, 3),
        positions(r, w, 4),
    );
    assert(w * (w - 1 - 2 * r) == 0) by (nonlinear_arith)
        requires
            w == 2 * r + 1,
    ;
    assert((w - 1 - r) * (w - r) == r * (r + 1)) by (nonlinear_arith)
        requires
            w == 2 * r + 1,
    ;
    assert(p1 == 0 && p3 == 0);
    assert(b * 0 == 0 && a * 0 == 0 && c * 0 == 0);
    let (t0, t1, t2) = (
        readings(gr, r, s, w, 0),
        readings(gr, r, s, w, 1),
        readings(gr, r, s, w, 2),
    );
    let det = p0 * p4 - p2 * p2;
    assert(2 * (t0 * p4 - t2 * p2) == a * det) by (nonlinear_arith)
        requires
            2 * t0 == a * p0 + c * p2,
            2 * t2 == a * p2 + c * p4,
            det == p0 * p4 - p2 * p2,
    ;
    assert(2 * (t2 * p0 - t0 * p2) == c * det) by (nonlinear_arith)
        requires
            2 * t0 == a * p0 + c * p2,
            2 * t2 == a * p2 + c * p4,
            det == p0 * p4 - p2 * p2,
    ;
    assert((2 * q0) * det == 2 * (q0 * det)) by (nonlinear_arith);
    assert((2 * q2) * det == 2 * (q2 * det)) by (nonlinear_arith);
    assert((2 * q1) * p2 == 2 * (q1 * p2)) by (nonlinear_arith);
    lemma_cancel(2 * q0, a, det);
    lemma_cancel(2 * q1, b, p2);
    lemma_cancel(2 * q2, c, det);
    let x = i - s - r;
    assert(2 * (q0 + q1 * x + q2 * (x * x)) == a + b * x + c * (x * x)) by (nonlinear_arith)
        requires
            2 * q0 == a,
            2 * q1 == b,
            2 * q2 == c,
    ;
}

// ---------------------------------------------------------------------------
// Laws of the smoother
// ---------------------------------------------------------------------------

/// Where nothing rounds, the fit of a log that is quadratic in the row is that
/// quadratic, at every row: in the interior, at the edges, where the window is shifted
/// inwards, and beyond the log. Twice the readings are taken as `a + b i + c i^2`, so
/// that every quadratic that runs through integers has integer coefficients.
pub proof fn lemma_fit_reproduces_quadratics<A: Arith>(
    m: A,
    gr: Seq<u64>,
    r: int,
    i: int,
    a: int,
    b: int,
    c: int,
)
    requires
        1 <= r <= u32::MAX,
        2 * r + 1 < gr.len() <= usize::MAX,
        0 <= i <= usize::MAX,
        forall|j: int|
            0 <= j < gr.len() ==> ieee::finite64(#[trigger] gr[j]) && 2 * ieee::value64(gr[j]) == a
                + b * j + c * (j * j),
        exact_fit(m, gr, r, i),
    ensures
        2 * ieee::value64(beams::quadratic_fit(m, gr, r, i)) == a + b * i + c * (i * i),
        i < gr.len() ==> ieee::equal64(beams::quadratic_fit(m, gr, r, i), gr[i]),
{
    let s = beams::fit_start(gr.len() as int, r, i);
    let h = s + r;
    let (a2, b2) = (a + b * h + c * (h * h), b + 2 * (c * h));
    assert forall|j: int| 0 <= j < 2 * r + 1 implies 2 * ieee::value64(#[trigger] gr[s + j]) == a2
        + b2 * (j - r) + c * ((j - r) * (j - r)) by {
        lemma_shift(a, b, c, h, j - r);
        assert(h + (j - r) == s + j);
    }
    lemma_fit_in_window(m, gr, r, i, a2, b2, c);
    lemma_shift(a, b, c, h, i - h);
    if i < gr.len() {
        ieee::lemma_value_orders(beams::quadratic_fit(m, gr, r, i), gr[i]);
    }
}

proof fn lemma_shift(a: int, b: int, c: int, h: int, x: int)
    ensures
        (a + b * h + c * (h * h)) + (b + 2 * (c * h)) * x + c * (x * x) == a + b * (h + x) + c * ((h
            + x) * (h + x)),
{
    assert((b + 2 * (c * h)) * x == b * x + 2 * (c * h) * x) by (nonlinear_arith);
    assert(c * ((h + x) * (h + x)) == c * (h * h) + 2 * (c * h) * x + c * (x * x))
        by (nonlinear_arith);
    assert(b * (h + x) == b * h + b * x) by (nonlinear_arith);
}

/// Where nothing rounds, the quadratic smoother leaves a log that is quadratic in the
/// row as it is, edge rows included.
pub proof fn lemma_smoother_reproduces_quadratics<A: Arith>(
    m: A,
    gr: Seq<u64>,
    r: int,
    i: int,
    a: int,
    b: int,
    c: int,
)
    requires
        0 <= r <= u32::MAX,
        gr.len() <= usize::MAX,
        0 <= i < gr.len(),
        forall|j: int|
            0 <= j < gr.len() ==> ieee::finite64(#[trigger] gr[j]) && 2 * ieee::value64(gr[j]) == a
                + b * j + c * (j * j),
        beams::unsmoothed(gr.len() as int, r, SmoothingKind::SavitzkyGolay) || exact_fit(
            m,
            gr,
            r,
            i,
        ),
    ensures
        ieee::equal64(beams::smoothed(m, gr, r, SmoothingKind::SavitzkyGolay, i), gr[i]),
{
    assert(ieee::finite64(gr[i]));
    if !beams::unsmoothed(gr.len() as int, r, SmoothingKind::SavitzkyGolay) {
        lemma_fit_reproduces_quadratics(m, gr, r, i, a, b, c);
    }
}

/// Middle of the full window that is closest to row `i` of a log of `n` rows.
pub open spec fn centre(n: int, r: int, i: int) -> int {
    if i < r {
        r
    } else if i > n - 1 - r {
        n - 1 - r
    } else {
        i
    }
}

/// Squared distance between the readings around row `h`, from `r` rows before it on, `k`
/// of them, and the quadratic `a + b x + c x^2` in the rows' distance `x` from `h`.
pub open spec fn misfit(gr: Seq<u64>, h: int, r: int, a: int, b: int, c: int, k: int) -> int
    decreases k,
{
    if k <= 0 {
        0
    } else {
        let x = k - 1 - r;
        let d = ieee::value64(gr[h + x]) - (a + b * x + c * (x * x));
        misfit(gr, h, r, a, b, c, k - 1) + d * d
    }
}

/// What is left of the readings of a window, each times its position to the `e`, once a
/// quadratic is taken off.
spec fn leftover(gr: Seq<u64>, r: int, s: int, k: int, q: (int, int, int), e: nat) -> int {
    readings(gr, r, s, k, e) - q.0 * positions(r, k, e) - q.1 * positions(r, k, e + 1) - q.2
        * positions(r, k, e + 2)
}

proof fn lemma_leftover_grows(gr: Seq<u64>, r: int, s: int, k: int, q: (int, int, int), e: nat)
    requires
        k > 0,
    ensures
        ({
            let x = k - 1 - r;
            let d = ieee::value64(gr[s + k - 1]) - (q.0 + q.1 * x + q.2 * (x * x));
            leftover(gr, r, s, k, q, e) == leftover(gr, r, s, k - 1, q, e) + power(x, e) * d
        }),
{
    let x = k - 1 - r;
    let w = power(x, e);
    let y = ieee::value64(gr[s + k - 1]);
    reveal_with_fuel(power, 3);
    assert(power(x, e + 1) == x * w);
    assert(power(x, e + 2) == x * (x * w));
    let (p, p1, p2) = (
        positions(r, k - 1, e),
        positions(r, k - 1, e + 1),
        positions(r, k - 1, e + 2),
    );
    assert(w * (y - (q.0 + q.1 * x + q.2 * (x * x))) == w * y - q.0 * w - q.1 * (x * w) - q.2 * (x
        * (x * w))) by (nonlinear_arith);
    assert(q.0 * (p + w) == q.0 * p + q.0 * w) by (nonlinear_arith);
    assert(q.1 * (p1 + x * w) == q.1 * p1 + q.1 * (x * w)) by (nonlinear_arith);
    assert(q.2 * (p2 + x * (x * w)) == q.2 * p2 + q.2 * (x * (x * w))) by (nonlinear_arith);
}

/// How much further from the readings another quadratic is.
proof fn lemma_misfit_grows(
    gr: Seq<u64>,
    r: int,
    s: int,
    k: int,
    q: (int, int, int),
    a: int,
    b: int,
    c: int,
)
    requires
        0 <= k,
    ensures
        misfit(gr, s + r, r, q.0, q.1, q.2, k) <= misfit(gr, s + r, r, a, b, c, k) + 2 * ((a - q.0)
            * leftover(gr, r, s, k, q, 0) + (b - q.1) * leftover(gr, r, s, k, q, 1) + (c - q.2)
            * leftover(gr, r, s, k, q, 2)),
    decreases k,
{
    let (d0, d1, d2) = (a - q.0, b - q.1, c - q.2);
    if k > 0 {
        lemma_misfit_grows(gr, r, s, k - 1, q, a, b, c);
        lemma_leftover_grows(gr, r, s, k, q, 0);
        lemma_leftover_grows(gr, r, s, k, q, 1);
        lemma_leftover_grows(gr, r, s, k, q, 2);
        let x = k - 1 - r;
        lemma_powers(x);
        assert(s + r + x == s + k - 1);
        let y = ieee::value64(gr[s + k - 1]);
        let d = y - (q.0 + q.1 * x + q.2 * (x * x));
        let f = y - (a + b * x + c * (x * x));
        let t = d0 + d1 * x + d2 * (x * x);
        assert(f == d - t) by (nonlinear_arith)
            requires
                d == y - (q.0 + q.1 * x + q.2 * (x * x)),
                f == y - (a + b * x + c * (x * x)),
                t == d0 + d1 * x + d2 * (x * x),
                d0 == a - q.0,
                d1 == b - q.1,
                d2 == c - q.2,
        ;
        assert(d0 * (1 * d) + d1 * (x * d) + d2 * ((x * x) * d) == t * d) by (nonlinear_arith)
            requires
                t == d0 + d1 * x + d2 * (x * x),
        ;
        assert(d * d <= f * f + 2 * (t * d)) by (nonlinear_arith)
            requires
                f == d - t,
        ;
        let (l0, l1, l2) = (
            leftover(gr, r, s, k - 1, q, 0),
            leftover(gr, r, s, k - 1, q, 1),
            leftover(gr, r, s, k - 1, q, 2),
        );
        assert(d0 * (l0 + 1 * d) == d0 * l0 + d0 * (1 * d)) by (nonlinear_arith);
        assert(d1 * (l1 + x * d) == d1 * l1 + d1 * (x * d)) by (nonlinear_arith);
        assert(d2 * (l2 + (x * x) * d) == d2 * l2 + d2 * ((x * x) * d)) by (nonlinear_arith);
    } else {
        let (l0, l1, l2) = (
            leftover(gr, r, s, 0, q, 0),
            leftover(gr, r, s, 0, q, 1),
            leftover(gr, r, s, 0, q, 2),
        );
        assert(l0 == 0 && l1 == 0 && l2 == 0) by (nonlinear_arith)
            requires
                l0 == 0 - q.0 * 0 - q.1 * 0 - q.2 * 0,
                l1 == 0 - q.0 * 0 - q.1 * 0 - q.2 * 0,
                l2 == 0 - q.0 * 0 - q.1 * 0 - q.2 * 0,
        ;
        assert(d0 * 0 + d1 * 0 + d2 * 0 == 0) by (nonlinear_arith);
    }
}

proof fn lemma_combine(x: int, y: int, p: int, q: int, d: int, a: int, b: int)
    requires
        x * d == a,
        y * d == b,
    ensures
        (x * p + y * q) * d == a * p + b * q,
{
    assert((x * p + y * q) * d == (x * d) * p + (y * d) * q) by (nonlinear_arith);
}

/// Where nothing rounds, the quadratic smoother is a regression: its value at row `i` is
/// the value there of the quadratic that is closest, in the sum of the squared distances,
/// to the readings of the `2 r + 1` rows around the middle closest to `i`.
pub proof fn lemma_smoother_is_least_squares<A: Arith>(
    m: A,
    gr: Seq<u64>,
    r: int,
    i: int,
) -> (q: (int, int, int))
    requires
        1 <= r <= u32::MAX,
        2 * r + 1 < gr.len() <= usize::MAX,
        0 <= i <= usize::MAX,
        exact_fit(m, gr, r, i),
    ensures
        ({
            let h = centre(gr.len() as int, r, i);
            let x = i - h;
            ieee::value64(beams::smoothed(m, gr, r, SmoothingKind::SavitzkyGolay, i)) == q.0 + q.1
                * x + q.2 * (x * x)
        }),
        forall|a: int, b: int, c: int|
            misfit(gr, centre(gr.len() as int, r, i), r, q.0, q.1, q.2, 2 * r + 1)
                <= #[trigger] misfit(gr, centre(gr.len() as int, r, i), r, a, b, c, 2 * r + 1),
{
    let n = gr.len() as int;
    let s = beams::fit_start(n, r, i);
    let w = 2 * r + 1;
    let h = centre(n, r, i);
    assert(h == s + r);
    let q = lemma_coefficients(m, gr, r, i);
    lemma_odd_positions(r, w);
    let (p0, p1, p2, p3, p4) = (
        positions(r, w, 0),
        positions(r, w, 1),
        positions(r, w, 2),
        positions(r, w, 3),
        positions(r, w, 4),
    );
    assert(w * (w - 1 - 2 * r) == 0) by (nonlinear_arith)
        requires
            w == 2 * r + 1,
    ;
    assert((w - 1 - r) * (w - r) == r * (r + 1)) by (nonlinear_arith)
        requires
            w == 2 * r + 1,
    ;
    assert(p1 == 0 && p3 == 0);
    let (t0, t1, t2) = (
        readings(gr, r, s, w, 0),
        readings(gr, r, s, w, 1),
        readings(gr, r, s, w, 2),
    );
    let det = p0 * p4 - p2 * p2;
    let (n0, n2) = (t0 * p4 - t2 * p2, t2 * p0 - t0 * p2);
    lemma_combine(q.0, q.2, p0, p2, det, n0, n2);
    lemma_combine(q.0, q.2, p2, p4, det, n0, n2);
    assert((t0 * p4 - t2 * p2) * p0 + (t2 * p0 - t0 * p2) * p2 == t0 * (p0 * p4 - p2 * p2))
        by (nonlinear_arith);
    assert((t0 * p4 - t2 * p2) * p2 + (t2 * p0 - t0 * p2) * p4 == t2 * (p0 * p4 - p2 * p2))
        by (nonlinear_arith);
    lemma_cancel(q.0 * p0 + q.2 * p2, t0, det);
    lemma_cancel(q.0 * p2 + q.2 * p4, t2, det);
    assert(q.0 * 0 == 0 && q.1 * 0 == 0 && q.2 * 0 == 0);
    assert(leftover(gr, r, s, w, q, 0) == 0);
    assert(leftover(gr, r, s, w, q, 1) == 0);
    assert(leftover(gr, r, s, w, q, 2) == 0);
    assert forall|a: int, b: int, c: int| misfit(gr, h, r, q.0, q.1, q.2, w)
        <= #[trigger] misfit(gr, h, r, a, b, c, w) by {
        lemma_misfit_grows(gr, r, s, w, q, a, b, c);
        assert((a - q.0) * 0 + (b - q.1) * 0 + (c - q.2) * 0 == 0) by (nonlinear_arith);
    }
    q
}

/// A search under the quadratic smoother reads the regression of its own well, with the
/// configuration's own radius.
pub proof fn lemma_search_reads_the_regression<A: Arith>(
    m: A,
    well: BeamWellInput,
    cfg: BeamConfig,
    i: int,
) -> (q: (int, int, int))
    requires
        cfg.radius >= 1,
        2 * cfg.radius + 1 < well.gr@.len() <= usize::MAX,
        0 <= i < well.gr@.len(),
        exact_fit(m, well.gr@, cfg.radius as int, i),
    ensures
        ({
            let search = beams::search_of(m, well, cfg, SmoothingKind::SavitzkyGolay);
            let x = i - centre(well.gr@.len() as int, cfg.radius as int, i);
            &&& (search.tw_tvt, search.tw_gr) == (well.tw_tvt@, well.tw_gr@)
            &&& (search.last_tvt, search.cfg) == (well.last_tvt, cfg)
            &&& search.sgr.len() == well.gr@.len()
            &&& ieee::value64(search.sgr[i]) == q.0 + q.1 * x + q.2 * (x * x)
        }),
        forall|a: int, b: int, c: int|
            misfit(
                well.gr@,
                centre(well.gr@.len() as int, cfg.radius as int, i),
                cfg.radius as int,
                q.0,
                q.1,
                q.2,
                2 * cfg.radius + 1,
            ) <= #[trigger] misfit(
                well.gr@,
                centre(well.gr@.len() as int, cfg.radius as int, i),
                cfg.radius as int,
                a,
                b,
                c,
                2 * cfg.radius + 1,
            ),
{
    lemma_smoother_is_least_squares(m, well.gr@, cfg.radius as int, i)
}

/// A log with no row to spare outside one full window, or with three rows or fewer, goes
/// through the quadratic smoother as it is, and any log does under a radius of zero.
pub proof fn lemma_short_logs_are_not_smoothed<A: Arith>(m: A, gr: Seq<u64>, r: int, i: int)
    requires
        0 <= r,
        0 <= i < gr.len(),
        r == 0 || gr.len() <= 3 || gr.len() <= 2 * r + 1,
    ensures
        beams::smoothed(m, gr, r, SmoothingKind::SavitzkyGolay, i) == gr[i],
        r == 0 ==> beams::smoothed(m, gr, r, SmoothingKind::RollingMean, i) == gr[i],
{
}

/// Where nothing rounds, a window of three rows leaves every log as it is: a quadratic
/// through three readings is no regression.
pub proof fn lemma_fit_of_three_rows_interpolates<A: Arith>(m: A, gr: Seq<u64>, i: int)
    requires
        3 < gr.len() <= usize::MAX,
        0 <= i < gr.len(),
        ieee::finite64(gr[i]),
        exact_fit(m, gr, 1, i),
    ensures
        ieee::equal64(beams::quadratic_fit(m, gr, 1, i), gr[i]),
{
    let s = beams::fit_start(gr.len() as int, 1, i);
    let (y0, y1, y2) = (
        ieee::value64(gr[s]),
        ieee::value64(gr[s + 1]),
        ieee::value64(gr[s + 2]),
    );
    let (a, b, c) = (2 * y1, y2 - y0, y0 - 2 * y1 + y2);
    assert forall|j: int| 0 <= j < 2 * 1 + 1 implies 2 * ieee::value64(#[trigger] gr[s + j]) == a
        + b * (j - 1) + c * ((j - 1) * (j - 1)) by {
        if j == 0 {
            assert(b * (0 - 1) == -b && c * ((0 - 1) * (0 - 1)) == c) by (nonlinear_arith);
        } else if j == 1 {
            assert(b * (1 - 1) == 0 && c * ((1 - 1) * (1 - 1)) == 0) by (nonlinear_arith);
        } else {
            assert(b * (2 - 1) == b && c * ((2 - 1) * (2 - 1)) == c) by (nonlinear_arith);
        }
    }
    lemma_fit_in_window(m, gr, 1, i, a, b, c);
    let j = i - s;
    assert(0 <= j < 3);
    assert(2 * ieee::value64(gr[s + j]) == a + b * (j - 1) + c * ((j - 1) * (j - 1)));
    ieee::lemma_value_orders(beams::quadratic_fit(m, gr, 1, i), gr[i]);
}

/// Where nothing rounds, a window of five rows weighs the readings of the interior as
/// the textbook does: `-3, 12, 17, 12, -3`, out of 35.
pub proof fn lemma_fit_of_five_rows_is_the_textbook_kernel<A: Arith>(m: A, gr: Seq<u64>, i: int)
    requires
        5 < gr.len() <= usize::MAX,
        2 <= i < gr.len() - 2,
        exact_fit(m, gr, 2, i),
    ensures
        35 * ieee::value64(beams::quadratic_fit(m, gr, 2, i)) == -3 * ieee::value64(gr[i - 2]) + 12
            * ieee::value64(gr[i - 1]) + 17 * ieee::value64(gr[i]) + 12 * ieee::value64(gr[i + 1])
            - 3 * ieee::value64(gr[i + 2]),
{
    let s = i - 2;
    let (q0, q1, q2) = lemma_coefficients(m, gr, 2, i);
    lemma_five_positions();
    lemma_five_readings(gr, s);
    let (p0, p2, p4) = (positions(2, 5, 0), positions(2, 5, 2), positions(2, 5, 4));
    let (t0, t2) = (readings(gr, 2, s, 5, 0), readings(gr, 2, s, 5, 2));
    assert(70 * q0 == 34 * t0 - 10 * t2) by (nonlinear_arith)
        requires
            q0 * (p0 * p4 - p2 * p2) == t0 * p4 - t2 * p2,
            p0 == 5,
            p2 == 10,
            p4 == 34,
    ;
    let x = i - s - 2;
    assert(q1 * x == 0 && q2 * (x * x) == 0) by (nonlinear_arith)
        requires
            x == 0,
    ;
}

proof fn lemma_five_powers()
    ensures
        forall|x: int| #[trigger] power(x, 0) == 1,
        power(-2, 2) == 4,
        power(-1, 2) == 1,
        power(0, 2) == 0,
        power(1, 2) == 1,
        power(2, 2) == 4,
        power(-2, 4) == 16,
        power(-1, 4) == 1,
        power(0, 4) == 0,
        power(1, 4) == 1,
        power(2, 4) == 16,
{
    lemma_powers(-2);
    lemma_powers(-1);
    lemma_powers(0);
    lemma_powers(1);
    lemma_powers(2);
}

proof fn lemma_five_positions()
    ensures
        positions(2, 5, 0) == 5,
        positions(2, 5, 2) == 10,
        positions(2, 5, 4) == 34,
{
    lemma_five_powers();
    reveal_with_fuel(positions, 6);
}

proof fn lemma_five_readings(gr: Seq<u64>, s: int)
    ensures
        readings(gr, 2, s, 5, 0) == ieee::value64(gr[s]) + ieee::value64(gr[s + 1])
            + ieee::value64(gr[s + 2]) + ieee::value64(gr[s + 3]) + ieee::value64(gr[s + 4]),
        readings(gr, 2, s, 5, 2) == 4 * ieee::value64(gr[s]) + ieee::value64(gr[s + 1])
            + ieee::value64(gr[s + 3]) + 4 * ieee::value64(gr[s + 4]),
{
    lemma_five_powers();
    let y = |j: int| ieee::value64(gr[s + j]);
    assert forall|e: nat| #[trigger] readings(gr, 2, s, 5, e) == power(-2, e) * y(0) + power(-1, e)
        * y(1) + power(0, e) * y(2) + power(1, e) * y(3) + power(2, e) * y(4) by {
        assert(readings(gr, 2, s, 0, e) == 0);
        assert(readings(gr, 2, s, 1, e) == power(-2, e) * y(0));
        assert(readings(gr, 2, s, 2, e) == readings(gr, 2, s, 1, e) + power(-1, e) * y(1));
        assert(readings(gr, 2, s, 3, e) == readings(gr, 2, s, 2, e) + power(0, e) * y(2));
        assert(readings(gr, 2, s, 4, e) == readings(gr, 2, s, 3, e) + power(1, e) * y(3));
        assert(readings(gr, 2, s, 5, e) == readings(gr, 2, s, 4, e) + power(2, e) * y(4));
    }
    assert(readings(gr, 2, s, 5, 0) == y(0) + y(1) + y(2) + y(3) + y(4));
    assert(readings(gr, 2, s, 5, 2) == 4 * y(0) + y(1) + y(3) + 4 * y(4));
}

} // verus!
