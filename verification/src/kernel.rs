//! Building blocks of the particle filter: the counter-based random stream, the
//! elementary functions of the weight path and the type-well grid lookup.
//!
//! Every draw is a pure function of `(seed_base + seed, particle slot, step
//! index, draw index)`, so nothing carries generator state, and the elementary
//! functions are spelled as fixed chains of operations, so that two backends
//! with the same basic arithmetic agree bit for bit.
use vstd::prelude::*;
use vstd::arithmetic::div_mod::*;
use vstd::arithmetic::power2::*;
use crate::arith;
use crate::arith::Arith;
use crate::ieee;

verus! {

/// Number of `u32` metadata slots per well.
pub const META_U_STRIDE: usize = 6;

/// Number of float metadata slots per well.
pub const META_F_STRIDE: usize = 8;

/// `2 * pi`, binary32.
pub const TWO_PI: u32 = 0x40C9_0FDB;

/// `log2(e)`, binary32.
pub const LOG2_E: u32 = 0x3FB8_AA3B;

/// `ln 2`, binary32.
pub const LN2: u32 = 0x3F31_7218;

/// `2 / pi`, binary32.
pub const TWO_OVER_PI: u32 = 0x3F22_F983;

/// `pi / 2`, binary32.
pub const PI_OVER_2: u32 = 0x3FC9_0FDB;

/// `0.25`, `0.5`, `-0.5`, `1.5`, `2`, `-2`, `4` and `16`, binary32.
pub const QUARTER: u32 = 0x3E80_0000;

pub const HALF: u32 = 0x3F00_0000;

pub const NEG_HALF: u32 = 0xBF00_0000;

pub const THREE_HALVES: u32 = 0x3FC0_0000;

pub const TWO: u32 = 0x4000_0000;

pub const NEG_TWO: u32 = 0xC000_0000;

pub const FOUR: u32 = 0x4080_0000;

pub const EIGHT: u32 = 0x4100_0000;

pub const SIXTEEN: u32 = 0x4180_0000;

// ---------------------------------------------------------------------------
// Random stream
// ---------------------------------------------------------------------------

/// `h` with its high bits folded onto the low ones.
pub open spec fn folded(h: u32, shift: u32) -> u32 {
    h ^ (h >> shift)
}

/// The two counters combined linearly, modulo `2^32`.
pub open spec fn combined(a: u32, b: u32) -> u32 {
    a.wrapping_mul(0x9E37_79B9).wrapping_add(b.wrapping_mul(0x85EB_CA6B)).wrapping_add(0x1656_67B1)
}

/// The finalizer: two rounds of fold and multiply, and a last fold.
pub open spec fn finalized(h: u32) -> u32 {
    folded(
        folded(folded(h, 16).wrapping_mul(0x7FEB_352D), 15).wrapping_mul(0x846C_A68B),
        16,
    )
}

/// Murmur3-style hash of two counters.
pub open spec fn hashed(a: u32, b: u32) -> u32 {
    finalized(combined(a, b))
}

/// Murmur3-style 32-bit finalizer of two counters. Used both to key streams and
/// to draw from them, so no generator state has to be stored anywhere.
pub fn hash32(a: u32, b: u32) -> (r: u32)
    ensures
        r == hashed(a, b),
{
    let mut h: u32 = a.wrapping_mul(0x9E37_79B9).wrapping_add(
        b.wrapping_mul(0x85EB_CA6B),
    ).wrapping_add(0x1656_67B1);
    h = h ^ (h >> 16u32);
    h = h.wrapping_mul(0x7FEB_352D);
    h = h ^ (h >> 15u32);
    h = h.wrapping_mul(0x846C_A68B);
    h = h ^ (h >> 16u32);
    h
}

/// Multiplying by a constant that has an inverse modulo `2^32` can be undone.
proof fn lemma_odd_factor_cancels(x: u32, c: u32, inverse: u32, k: int)
    requires
        c * inverse == 1 + k * 0x1_0000_0000,
    ensures
        x.wrapping_mul(c).wrapping_mul(inverse) == x,
{
    let m = 0x1_0000_0000int;
    let xc = x as int * c as int;
    lemma_mul_mod_noop_left(xc, inverse as int, m);
    assert((xc % m) * inverse as int % m == (xc * inverse as int) % m);
    assert(xc * inverse as int == x + (x * k) * m) by (nonlinear_arith)
        requires
            xc == x as int * c as int,
            c * inverse == 1 + k * m,
    ;
    lemma_mod_multiples_vanish(x * k, x as int, m);
    assert((x + (x * k) * m) % m == x as int % m) by {
        assert(x + (x * k) * m == m * (x * k) + x) by (nonlinear_arith);
    }
}

/// The finalizer maps different words to different words.
proof fn lemma_finalized_injective(g: u32, h: u32)
    requires
        finalized(g) == finalized(h),
    ensures
        g == h,
{
    let g1 = folded(g, 16);
    let h1 = folded(h, 16);
    let g2 = g1.wrapping_mul(0x7FEB_352D);
    let h2 = h1.wrapping_mul(0x7FEB_352D);
    let g3 = folded(g2, 15);
    let h3 = folded(h2, 15);
    let g4 = g3.wrapping_mul(0x846C_A68B);
    let h4 = h3.wrapping_mul(0x846C_A68B);
    assert(g4 == h4) by (bit_vector)
        requires
            g4 ^ (g4 >> 16u32) == h4 ^ (h4 >> 16u32),
    ;
    lemma_odd_factor_cancels(g3, 0x846C_A68B, 0x4302_1123, 581534029);
    lemma_odd_factor_cancels(h3, 0x846C_A68B, 0x4302_1123, 581534029);
    assert(g3 == h3);
    assert(g2 == h2) by (bit_vector)
        requires
            g2 ^ (g2 >> 15u32) == h2 ^ (h2 >> 15u32),
    ;
    lemma_odd_factor_cancels(g1, 0x7FEB_352D, 0x1D69_E2A5, 246582719);
    lemma_odd_factor_cancels(h1, 0x7FEB_352D, 0x1D69_E2A5, 246582719);
    assert(g1 == h1);
    assert(g == h) by (bit_vector)
        requires
            g ^ (g >> 16u32) == h ^ (h >> 16u32),
    ;
}

/// Within one stream, two slots never share a counter: with the first key fixed,
/// different second keys hash to different words.
pub proof fn lemma_slots_never_collide(a: u32, b: u32, c: u32)
    requires
        b != c,
    ensures
        hashed(a, b) != hashed(a, c),
{
    if hashed(a, b) == hashed(a, c) {
        lemma_finalized_injective(combined(a, b), combined(a, c));
        lemma_odd_factor_cancels(b, 0x85EB_CA6B, 0xA5CB_9243, 1455126516);
        lemma_odd_factor_cancels(c, 0x85EB_CA6B, 0xA5CB_9243, 1455126516);
    }
}

/// Two streams never share a counter at one slot: with the second key fixed,
/// different first keys hash to different words.
pub proof fn lemma_streams_never_collide(a: u32, b: u32, c: u32)
    requires
        a != c,
    ensures
        hashed(a, b) != hashed(c, b),
{
    if hashed(a, b) == hashed(c, b) {
        lemma_finalized_injective(combined(a, b), combined(c, b));
        lemma_odd_factor_cancels(a, 0x9E37_79B9, 0x144C_BC89, 210485888);
        lemma_odd_factor_cancels(c, 0x9E37_79B9, 0x144C_BC89, 210485888);
    }
}

/// Significand of a positive normal binary32 number, hidden bit included.
pub open spec fn significand32(x: u32) -> int {
    0x80_0000 + x as int % 0x80_0000
}

/// Biased exponent of a positive binary32 number.
pub open spec fn exponent32(x: u32) -> int {
    x as int / 0x80_0000
}

/// `r` is a positive normal binary32 number equal to `k / 2^24`: a normal number
/// is its significand times two to its biased exponent less `150`.
pub open spec fn is_fraction_of_2p24(r: u32, k: int) -> bool {
    &&& 0 < exponent32(r) < 255
    &&& significand32(r) * pow2(exponent32(r) as nat) == k * pow2(126)
}

/// The binary32 number `k / 2^24`.
pub open spec fn fraction_of_2p24(k: int) -> u32 {
    choose|r: u32| is_fraction_of_2p24(r, k)
}

/// The binary32 fraction `((x >> 8) + 1) / 2^24`.
pub open spec fn unit(x: u32) -> u32 {
    fraction_of_2p24(x as int / 256 + 1)
}

/// A number has one normal representation only.
proof fn lemma_fraction_unique(r: u32, s: u32, k: int)
    requires
        is_fraction_of_2p24(r, k),
        is_fraction_of_2p24(s, k),
    ensures
        r == s,
{
    lemma_fraction_order(r, s, k);
    lemma_fraction_order(s, r, k);
    let p = pow2(exponent32(r) as nat) as int;
    lemma_pow2_pos(exponent32(r) as nat);
    assert(significand32(r) == significand32(s)) by (nonlinear_arith)
        requires
            significand32(r) * p == significand32(s) * p,
            p > 0,
    ;
}

proof fn lemma_fraction_order(r: u32, s: u32, k: int)
    requires
        is_fraction_of_2p24(r, k),
        is_fraction_of_2p24(s, k),
    ensures
        exponent32(s) <= exponent32(r),
{
    let e = exponent32(r) as nat;
    let f = exponent32(s) as nat;
    let p = pow2(e) as int;
    lemma_pow2_pos(e);
    lemma_pow2_unfold((e + 1) as nat);
    if e < f {
        if e + 1 < f {
            lemma_pow2_strictly_increases((e + 1) as nat, f);
        }
        assert(pow2(f) >= 2 * p);
        assert(significand32(r) * p < significand32(s) * pow2(f) as int) by (nonlinear_arith)
            requires
                significand32(r) < 0x100_0000,
                significand32(s) >= 0x80_0000,
                pow2(f) as int >= 2 * p,
                p > 0,
        ;
    }
}

/// Maps a random word to the binary32 fraction `((x >> 8) + 1) / 2^24`, which is
/// in `(0, 1]`: never zero, so its logarithm is finite.
pub fn unit_f(x: u32) -> (r: u32)
    ensures
        is_fraction_of_2p24(r, x as int / 256 + 1),
        r == unit(x),
        0 < r <= ieee::ONE32,
{
    assert(x >> 8u32 == x / 256) by (bit_vector);
    let k: u32 = (x >> 8u32) + 1;
    let mut sig: u32 = k;
    let mut exp: u32 = 126;
    if k == 0x100_0000 {
        sig = 0x80_0000;
        exp = 127;
        proof {
            lemma_pow2_unfold(127);
            assert(0x80_0000 * (2 * pow2(126)) == 0x100_0000 * pow2(126)) by (nonlinear_arith);
        }
    }
    proof {
        lemma2_to64();
    }
    while sig < 0x80_0000
        invariant
            0 < sig < 0x100_0000,
            103 <= exp <= 127,
            exp == 127 ==> sig == 0x80_0000,
            sig < 0x80_0000 ==> exp > 103,
            exp <= 126 ==> sig >= pow2((126 - exp) as nat),
            sig * pow2(exp as nat) == k * pow2(126),
        decreases 0x100_0000 - sig,
    {
        proof {
            lemma_pow2_unfold(exp as nat);
            lemma_pow2_unfold((127 - exp) as nat);
            assert((2 * sig) * pow2((exp - 1) as nat) == sig * pow2(exp as nat)) by (nonlinear_arith)
                requires
                    pow2(exp as nat) == 2 * pow2((exp - 1) as nat),
            ;
            lemma2_to64();
        }
        sig = sig * 2;
        exp = exp - 1;
    }
    assert(exp * 0x80_0000 <= 127 * 0x80_0000);
    let r: u32 = exp * 0x80_0000 + (sig - 0x80_0000);
    proof {
        assert(exponent32(r) == exp);
        assert(significand32(r) == sig);
        assert(is_fraction_of_2p24(r, x as int / 256 + 1));
        let s = unit(x);
        assert(is_fraction_of_2p24(s, x as int / 256 + 1));
        lemma_fraction_unique(r, s, x as int / 256 + 1);
    }
    r
}

// ---------------------------------------------------------------------------
// Elementary functions
// ---------------------------------------------------------------------------

/// Polynomial with the given coefficients, highest degree first, by Horner's rule
/// with one fused multiply-add per coefficient.
pub open spec fn polynomial<A: Arith>(m: A, coefficients: Seq<u32>, x: u32) -> u32
    decreases coefficients.len(),
{
    if coefficients.len() <= 1 {
        coefficients[0]
    } else {
        arith::fused32(
            m,
            polynomial(m, coefficients.drop_last(), x),
            x,
            coefficients.last(),
        )
    }
}

/// Evaluates a polynomial by Horner's rule.
fn horner<A: Arith>(m: &A, coefficients: &[u32], x: u32) -> (r: u32)
    requires
        coefficients@.len() > 0,
    ensures
        arith::deterministic(*m) ==> r == polynomial(*m, coefficients@, x),
{
    let mut p: u32 = coefficients[0];
    let mut i: usize = 1;
    let n: usize = coefficients.len();
    assert(coefficients@.take(1).len() == 1);
    while i < n
        invariant
            1 <= i <= n,
            n == coefficients@.len(),
            arith::deterministic(*m) ==> p == polynomial(*m, coefficients@.take(i as int), x),
        decreases n - i,
    {
        assert(coefficients@.take(i + 1).drop_last() =~= coefficients@.take(i as int));
        p = arith::fma32(m, p, x, coefficients[i]);
        i = i + 1;
    }
    assert(coefficients@.take(n as int) =~= coefficients@);
    p
}

/// Taylor coefficients of the exponential, degree seven down to zero.
pub open spec fn exp_series() -> Seq<u32> {
    seq![
        0x3950_0D01u32,
        0x3AB6_0B61,
        0x3C08_8889,
        0x3D2A_AAAB,
        0x3E2A_AAAB,
        HALF,
        ieee::ONE32,
        ieee::ONE32,
    ]
}

/// The exponential by argument reduction: `x = k ln 2 + r`, a degree-seven series
/// in `r`, scaled by `2^k`.
pub open spec fn exp_reduced<A: Arith>(m: A, x: u32) -> u32 {
    let k = arith::rounded32(m, arith::product32(m, x, LOG2_E));
    let r = arith::fused32(m, ieee::negated32(k), LN2, x);
    arith::product32(m, polynomial(m, exp_series(), r), arith::power_of_two32(m, k))
}

/// `exp(x)` as a fixed chain of basic operations, so that every backend gives the
/// same answer.
pub fn exp_precise<A: Arith>(m: &A, x: u32) -> (r: u32)
    ensures
        arith::deterministic(*m) ==> r == exp_reduced(*m, x),
{
    let k = arith::round32(m, arith::mul32(m, x, LOG2_E));
    let t = arith::fma32(m, ieee::neg32(k), LN2, x);
    let series: [u32; 8] = [
        0x3950_0D01,
        0x3AB6_0B61,
        0x3C08_8889,
        0x3D2A_AAAB,
        0x3E2A_AAAB,
        HALF,
        ieee::ONE32,
        ieee::ONE32,
    ];
    assert(series@ =~= exp_series());
    let p = horner(m, &series, t);
    arith::mul32(m, p, arith::pow2_32(m, k))
}

/// `1 / a` refined by two division-free Newton steps.
pub open spec fn reciprocal<A: Arith>(m: A, a: u32) -> u32 {
    let z0 = arith::quotient32(m, ieee::ONE32, a);
    let z1 = arith::product32(m, z0, arith::fused32(m, ieee::negated32(a), z0, TWO));
    arith::product32(m, z1, arith::fused32(m, ieee::negated32(a), z1, TWO))
}

/// `1 / a`: a division whose rounding two Newton steps wash out.
pub fn recip_precise<A: Arith>(m: &A, a: u32) -> (r: u32)
    ensures
        arith::deterministic(*m) ==> r == reciprocal(*m, a),
{
    let na = ieee::neg32(a);
    let z0 = arith::div32(m, ieee::ONE32, a);
    let z1 = arith::mul32(m, z0, arith::fma32(m, na, z0, TWO));
    arith::mul32(m, z1, arith::fma32(m, na, z1, TWO))
}

/// One stage of the logarithm's range reduction: a mantissa below `bound` is
/// scaled up by `factor`, a power of two, and `count` is added to the exponent.
pub open spec fn lifted<A: Arith>(
    m: A,
    s: (u32, u32),
    bound: u32,
    factor: u32,
    count: u32,
) -> (u32, u32) {
    if ieee::less32(s.0, bound) {
        (arith::product32(m, s.0, factor), arith::sum32(m, s.1, count))
    } else {
        s
    }
}

/// `x = s.0 * 2^-s.1` with `s.0` in `[0.5, 1]`, for `x` in `(0, 1]`.
pub open spec fn log_reduced<A: Arith>(m: A, x: u32) -> (u32, u32) {
    let s0 = (x, ieee::ZERO32);
    let s1 = lifted(m, s0, 0x3780_0000, 0x4780_0000, SIXTEEN);
    let s2 = lifted(m, s1, 0x3B80_0000, 0x4380_0000, EIGHT);
    let s3 = lifted(m, s2, 0x3D80_0000, SIXTEEN, FOUR);
    let s4 = lifted(m, s3, QUARTER, FOUR, TWO);
    lifted(m, s4, HALF, TWO, ieee::ONE32)
}

/// Coefficients `1/9, 1/7, 1/5, 1/3, 1` of the inverse hyperbolic tangent.
pub open spec fn atanh_series() -> Seq<u32> {
    seq![0x3DE3_8E39u32, 0x3E12_4925, 0x3E4C_CCCD, 0x3EAA_AAAB, ieee::ONE32]
}

/// The logarithm by range reduction: `ln x = 2 atanh((f - 1) / (f + 1)) - k ln 2`.
pub open spec fn ln_reduced<A: Arith>(m: A, x: u32) -> u32 {
    let (f, k) = log_reduced(m, x);
    let s = arith::product32(
        m,
        arith::difference32(m, f, ieee::ONE32),
        reciprocal(m, arith::sum32(m, f, ieee::ONE32)),
    );
    let p = polynomial(m, atanh_series(), arith::product32(m, s, s));
    arith::fused32(
        m,
        ieee::negated32(k),
        LN2,
        arith::product32(m, TWO, arith::product32(m, s, p)),
    )
}

/// One stage of the range reduction.
fn lift<A: Arith>(m: &A, s: (u32, u32), bound: u32, factor: u32, count: u32) -> (r: (u32, u32))
    ensures
        arith::deterministic(*m) ==> r == lifted(*m, s, bound, factor, count),
{
    if ieee::lt32(s.0, bound) {
        (arith::mul32(m, s.0, factor), arith::add32(m, s.1, count))
    } else {
        s
    }
}

/// `ln(x)` for `x` in `(0, 1]`, the range of [`unit_f`], as a fixed chain of basic
/// operations.
pub fn ln_precise<A: Arith>(m: &A, x: u32) -> (r: u32)
    ensures
        arith::deterministic(*m) ==> r == ln_reduced(*m, x),
{
    let s0: (u32, u32) = (x, ieee::ZERO32);
    let s1 = lift(m, s0, 0x3780_0000, 0x4780_0000, SIXTEEN);
    let s2 = lift(m, s1, 0x3B80_0000, 0x4380_0000, EIGHT);
    let s3 = lift(m, s2, 0x3D80_0000, SIXTEEN, FOUR);
    let s4 = lift(m, s3, QUARTER, FOUR, TWO);
    let (f, k) = lift(m, s4, HALF, TWO, ieee::ONE32);
    let d = arith::add32(m, f, ieee::ONE32);
    let s = arith::mul32(m, arith::sub32(m, f, ieee::ONE32), recip_precise(m, d));
    let u = arith::mul32(m, s, s);
    let series: [u32; 5] = [0x3DE3_8E39, 0x3E12_4925, 0x3E4C_CCCD, 0x3EAA_AAAB, ieee::ONE32];
    assert(series@ =~= atanh_series());
    let p = horner(m, &series, u);
    let ln_f = arith::mul32(m, TWO, arith::mul32(m, s, p));
    arith::fma32(m, ieee::neg32(k), LN2, ln_f)
}

/// One Newton step on the reciprocal square root `z` of `x`.
pub open spec fn rsqrt_step<A: Arith>(m: A, x: u32, z: u32) -> u32 {
    arith::product32(
        m,
        z,
        arith::fused32(
            m,
            NEG_HALF,
            arith::product32(m, arith::product32(m, x, z), z),
            THREE_HALVES,
        ),
    )
}

/// The square root by two Newton steps on its reciprocal; zero unless `x > 0`.
pub open spec fn sqrt_refined<A: Arith>(m: A, x: u32) -> u32 {
    if ieee::less32(ieee::ZERO32, x) {
        let z0 = arith::quotient32(m, ieee::ONE32, arith::root32(m, x));
        arith::product32(m, x, rsqrt_step(m, x, rsqrt_step(m, x, z0)))
    } else {
        ieee::ZERO32
    }
}

/// `sqrt(x)` for `x >= 0`: a seed that two Newton steps refine.
pub fn sqrt_precise<A: Arith>(m: &A, x: u32) -> (r: u32)
    ensures
        arith::deterministic(*m) ==> r == sqrt_refined(*m, x),
{
    if ieee::lt32(ieee::ZERO32, x) {
        let z0 = arith::div32(m, ieee::ONE32, arith::sqrt32(m, x));
        let xz0 = arith::mul32(m, x, z0);
        let c0 = arith::fma32(m, NEG_HALF, arith::mul32(m, xz0, z0), THREE_HALVES);
        let z1 = arith::mul32(m, z0, c0);
        let xz1 = arith::mul32(m, x, z1);
        let c1 = arith::fma32(m, NEG_HALF, arith::mul32(m, xz1, z1), THREE_HALVES);
        let z2 = arith::mul32(m, z1, c1);
        arith::mul32(m, x, z2)
    } else {
        ieee::ZERO32
    }
}

/// The integer part of `x`, saturating at the largest `u32`.
pub open spec fn int_of_u32<A: Arith>(m: A, x: u32) -> u32 {
    if arith::int_of32(m, x) > u32::MAX {
        u32::MAX
    } else {
        arith::int_of32(m, x) as u32
    }
}

/// The integer part of `x`, saturating at the largest `u32`.
pub(crate) fn to_u32<A: Arith>(m: &A, x: u32) -> (r: u32)
    ensures
        arith::deterministic(*m) ==> r == int_of_u32(*m, x),
{
    let n = arith::to_int32(m, x);
    if n > 0xFFFF_FFFF {
        0xFFFF_FFFF
    } else {
        n as u32
    }
}

/// Coefficients `1/9!, -1/7!, 1/5!, -1/3!, 1` of the sine in the square of its
/// argument.
pub open spec fn sin_series() -> Seq<u32> {
    seq![0x3638_EF1Du32, 0xB950_0D01, 0x3C08_8889, 0xBE2A_AAAB, ieee::ONE32]
}

/// Coefficients `1/8!, -1/6!, 1/4!, -1/2, 1` of the cosine in the square of its
/// argument.
pub open spec fn cos_series() -> Seq<u32> {
    seq![0x37D0_0D01u32, 0xBAB6_0B61, 0x3D2A_AAAB, NEG_HALF, ieee::ONE32]
}

/// The nearest quadrant boundary, in quarter turns.
pub open spec fn quadrant<A: Arith>(m: A, x: u32) -> u32 {
    arith::rounded32(m, arith::product32(m, x, TWO_OVER_PI))
}

/// What is left of `x` past the nearest quadrant boundary.
pub open spec fn quadrant_rest<A: Arith>(m: A, x: u32) -> u32 {
    arith::fused32(m, ieee::negated32(quadrant(m, x)), PI_OVER_2, x)
}

/// Sine and cosine of the rest of a quadrant.
pub open spec fn rest_sin_cos<A: Arith>(m: A, x: u32) -> (u32, u32) {
    let r = quadrant_rest(m, x);
    let r2 = arith::product32(m, r, r);
    (
        arith::product32(m, polynomial(m, sin_series(), r2), r),
        polynomial(m, cos_series(), r2),
    )
}

/// The sine by quadrant reduction.
pub open spec fn sin_reduced<A: Arith>(m: A, x: u32) -> u32 {
    let (s, c) = rest_sin_cos(m, x);
    let q = int_of_u32(m, quadrant(m, x)) % 4;
    if q == 0 {
        s
    } else if q == 1 {
        c
    } else if q == 2 {
        ieee::negated32(s)
    } else {
        ieee::negated32(c)
    }
}

/// The cosine by quadrant reduction.
pub open spec fn cos_reduced<A: Arith>(m: A, x: u32) -> u32 {
    let (s, c) = rest_sin_cos(m, x);
    let q = int_of_u32(m, quadrant(m, x)) % 4;
    if q == 0 {
        c
    } else if q == 1 {
        ieee::negated32(s)
    } else if q == 2 {
        ieee::negated32(c)
    } else {
        s
    }
}

/// Quadrant of `x` and the sine and cosine of what is left past it.
fn split_quadrant<A: Arith>(m: &A, x: u32) -> (r: (u32, u32, u32))
    ensures
        arith::deterministic(*m) ==> {
            &&& r.0 == int_of_u32(*m, quadrant(*m, x)) % 4
            &&& (r.1, r.2) == rest_sin_cos(*m, x)
        },
        r.0 < 4,
{
    let q = arith::round32(m, arith::mul32(m, x, TWO_OVER_PI));
    let t = arith::fma32(m, ieee::neg32(q), PI_OVER_2, x);
    let t2 = arith::mul32(m, t, t);
    let ss: [u32; 5] = [0x3638_EF1D, 0xB950_0D01, 0x3C08_8889, 0xBE2A_AAAB, ieee::ONE32];
    let cs: [u32; 5] = [0x37D0_0D01, 0xBAB6_0B61, 0x3D2A_AAAB, NEG_HALF, ieee::ONE32];
    assert(ss@ =~= sin_series());
    assert(cs@ =~= cos_series());
    let s = arith::mul32(m, horner(m, &ss, t2), t);
    let c = horner(m, &cs, t2);
    (to_u32(m, q) % 4, s, c)
}

/// `sin(x)` for `x` in `[0, 2 pi]` as a fixed chain of basic operations.
pub fn sin_precise<A: Arith>(m: &A, x: u32) -> (r: u32)
    ensures
        arith::deterministic(*m) ==> r == sin_reduced(*m, x),
{
    let (q, s, c) = split_quadrant(m, x);
    if q == 0 {
        s
    } else if q == 1 {
        c
    } else if q == 2 {
        ieee::neg32(s)
    } else {
        ieee::neg32(c)
    }
}

/// `cos(x)` for `x` in `[0, 2 pi]` as a fixed chain of basic operations.
pub fn cos_precise<A: Arith>(m: &A, x: u32) -> (r: u32)
    ensures
        arith::deterministic(*m) ==> r == cos_reduced(*m, x),
{
    let (q, s, c) = split_quadrant(m, x);
    if q == 0 {
        c
    } else if q == 1 {
        ieee::neg32(s)
    } else if q == 2 {
        ieee::neg32(c)
    } else {
        s
    }
}

// ---------------------------------------------------------------------------
// Type-well grid lookup
// ---------------------------------------------------------------------------

/// Linear interpolation at `v` on a uniform grid that starts at `vmin`, clamped to
/// the first and the last sample.
pub open spec fn interpolated<A: Arith>(
    m: A,
    grid: Seq<u32>,
    v: u32,
    vmin: u32,
    inv_step: u32,
) -> u32 {
    let fi = arith::product32(m, arith::difference32(m, v, vmin), inv_step);
    let i = int_of_u32(m, fi) as int;
    if !ieee::at_most32(ieee::ZERO32, fi) {
        grid[0]
    } else if i >= grid.len() - 1 {
        grid[grid.len() - 1]
    } else {
        let t = arith::difference32(m, fi, arith::of_int32(m, i as u64));
        arith::fused32(
            m,
            grid[i],
            arith::difference32(m, ieee::ONE32, t),
            arith::product32(m, grid[i + 1], t),
        )
    }
}

/// Looks `v` up on the uniform grid of type-well values. `inv_step` is the
/// reciprocal of the grid spacing.
pub fn interp1<A: Arith>(m: &A, grid: &[u32], v: u32, vmin: u32, inv_step: u32) -> (r: u32)
    requires
        grid@.len() > 0,
    ensures
        arith::deterministic(*m) ==> r == interpolated(*m, grid@, v, vmin, inv_step),
{
    let fi = arith::mul32(m, arith::sub32(m, v, vmin), inv_step);
    if !ieee::le32(ieee::ZERO32, fi) {
        return grid[0];
    }
    let i = to_u32(m, fi) as usize;
    let n = grid.len();
    if i >= n - 1 {
        return grid[n - 1];
    }
    let t = arith::sub32(m, fi, arith::from_int32(m, i as u64));
    let b = arith::mul32(m, grid[i + 1], t);
    arith::fma32(m, grid[i], arith::sub32(m, ieee::ONE32, t), b)
}

} // verus!
