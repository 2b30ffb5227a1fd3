//! Blending of the per-seed trajectories of a well into its output channels.
use vstd::prelude::*;
use crate::arith;
use crate::arith::Arith;
use crate::filter;
use crate::filter::Formulas;
use crate::ieee;

verus! {

/// What the `n` seeds of a well estimate for row `i`. The block of the well starts
/// at `base` and holds `stride` rows per seed.
pub open spec fn column(preds: Seq<u32>, base: int, stride: int, n: int, i: int) -> Seq<u32> {
    Seq::new(n as nat, |s: int| preds[base + s * stride + i])
}

/// Weighted sum of the first `n` seeds, added up in their order.
pub open spec fn blended<A: Arith>(m: A, values: Seq<u32>, wts: Seq<u32>, n: int) -> u32
    decreases n,
{
    if n <= 0 {
        ieee::ZERO32
    } else {
        arith::sum32(
            m,
            blended(m, values, wts, n - 1),
            arith::product32(m, wts[n - 1], values[n - 1]),
        )
    }
}

/// Sum of the first `n` values.
pub open spec fn value_sum<A: Arith>(m: A, values: Seq<u32>, n: int) -> u32
    decreases n,
{
    if n <= 0 {
        ieee::ZERO32
    } else {
        arith::sum32(m, value_sum(m, values, n - 1), values[n - 1])
    }
}

/// Sum of the squares of the first `n` values.
pub open spec fn square_sum<A: Arith>(m: A, values: Seq<u32>, n: int) -> u32
    decreases n,
{
    if n <= 0 {
        ieee::ZERO32
    } else {
        arith::sum32(
            m,
            square_sum(m, values, n - 1),
            arith::product32(m, values[n - 1], values[n - 1]),
        )
    }
}

/// Standard deviation of the values, unweighted; zero where rounding makes the
/// variance negative.
pub open spec fn spread<A: Arith>(m: A, f: Formulas, values: Seq<u32>) -> u32 {
    let n = values.len() as int;
    let inv = arith::quotient32(m, ieee::ONE32, arith::of_int32(m, n as u64));
    let m1 = arith::product32(m, value_sum(m, values, n), inv);
    let m2 = arith::product32(m, square_sum(m, values, n), inv);
    let var = arith::difference32(m, m2, arith::product32(m, m1, m1));
    arith::root32(m, filter::raised(f, var, ieee::ZERO32))
}

/// Where seed `s` of `n` keeps row `i`: inside the well's block.
pub(crate) proof fn lemma_in_block(base: int, stride: int, n: int, s: int, i: int)
    requires
        0 <= base,
        0 <= i < stride,
        0 <= s < n,
    ensures
        0 <= s * stride,
        0 <= base + s * stride + i < base + n * stride,
{
    assert(0 <= s * stride && s * stride + stride <= n * stride) by (nonlinear_arith)
        requires
            0 <= s < n,
            stride > 0,
    ;
}

/// Blends row `i` of a well over its seeds.
pub fn blend_at<A: Arith>(
    m: &A,
    preds: &[u32],
    base: usize,
    stride: usize,
    i: usize,
    wts: &[u32],
) -> (r: u32)
    requires
        i < stride,
        base + wts@.len() * stride <= preds@.len(),
    ensures
        arith::deterministic(*m) ==> r == blended(
            *m,
            column(preds@, base as int, stride as int, wts@.len() as int, i as int),
            wts@,
            wts@.len() as int,
        ),
{
    let n = wts.len();
    let total = preds.len();
    let ghost values = column(preds@, base as int, stride as int, n as int, i as int);
    let mut acc: u32 = ieee::ZERO32;
    let mut s: usize = 0;
    while s < n
        invariant
            s <= n,
            n == wts@.len(),
            i < stride,
            total == preds@.len(),
            base + n * stride <= total,
            values == column(preds@, base as int, stride as int, n as int, i as int),
            arith::deterministic(*m) ==> acc == blended(*m, values, wts@, s as int),
        decreases n - s,
    {
        proof {
            lemma_in_block(base as int, stride as int, n as int, s as int, i as int);
        }
        let v = preds[base + s * stride + i];
        let wv = arith::mul32(m, wts[s], v);
        acc = arith::add32(m, acc, wv);
        s = s + 1;
    }
    acc
}

/// Spread of row `i` of a well over its seeds.
pub fn spread_at<A: Arith>(
    m: &A,
    f: Formulas,
    preds: &[u32],
    base: usize,
    stride: usize,
    i: usize,
    n: usize,
) -> (r: u32)
    requires
        i < stride,
        base + n * stride <= preds@.len(),
    ensures
        arith::deterministic(*m) ==> r == spread(
            *m,
            f,
            column(preds@, base as int, stride as int, n as int, i as int),
        ),
{
    let total = preds.len();
    let ghost values = column(preds@, base as int, stride as int, n as int, i as int);
    let mut m1: u32 = ieee::ZERO32;
    let mut m2: u32 = ieee::ZERO32;
    let mut s: usize = 0;
    while s < n
        invariant
            s <= n,
            i < stride,
            total == preds@.len(),
            base + n * stride <= total,
            values == column(preds@, base as int, stride as int, n as int, i as int),
            arith::deterministic(*m) ==> m1 == value_sum(*m, values, s as int),
            arith::deterministic(*m) ==> m2 == square_sum(*m, values, s as int),
        decreases n - s,
    {
        proof {
            lemma_in_block(base as int, stride as int, n as int, s as int, i as int);
        }
        let v = preds[base + s * stride + i];
        m1 = arith::add32(m, m1, v);
        let vv = arith::mul32(m, v, v);
        m2 = arith::add32(m, m2, vv);
        s = s + 1;
    }
    let count = arith::from_int32(m, n as u64);
    let inv = arith::div32(m, ieee::ONE32, count);
    m1 = arith::mul32(m, m1, inv);
    m2 = arith::mul32(m, m2, inv);
    let sq = arith::mul32(m, m1, m1);
    let var = arith::sub32(m, m2, sq);
    let low = filter::raise(f, var, ieee::ZERO32);
    arith::sqrt32(m, low)
}

} // verus!
