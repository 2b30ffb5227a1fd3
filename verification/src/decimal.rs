//! The six significant decimal digits of a binary32 number, rounded exactly.
use vstd::prelude::*;
use vstd::arithmetic::div_mod::*;
use vstd::arithmetic::mul::*;
use vstd::arithmetic::power::*;
use vstd::arithmetic::power2::*;
use crate::ieee;

verus! {

// ---------------------------------------------------------------------------
// A number as a ratio
// ---------------------------------------------------------------------------

/// Significand of a finite binary32 pattern, the hidden bit included.
pub open spec fn significand(x: u32) -> nat {
    let mag = ieee::magnitude32(x);
    if mag < 0x80_0000 {
        mag as nat
    } else {
        (0x80_0000 + mag % 0x80_0000) as nat
    }
}

/// Exponent of two that the significand is scaled by.
pub open spec fn exponent(x: u32) -> int {
    let mag = ieee::magnitude32(x);
    if mag < 0x80_0000 {
        -149
    } else {
        mag / 0x80_0000 - 150
    }
}

/// Numerator of the magnitude of a finite binary32 pattern.
pub open spec fn numerator(x: u32) -> nat {
    if exponent(x) >= 0 {
        significand(x) * pow2(exponent(x) as nat)
    } else {
        significand(x)
    }
}

/// Denominator of the magnitude of a finite binary32 pattern.
pub open spec fn denominator(x: u32) -> nat {
    if exponent(x) >= 0 {
        1
    } else {
        pow2((-exponent(x)) as nat)
    }
}

// ---------------------------------------------------------------------------
// Six digits
// ---------------------------------------------------------------------------

/// How often `b` can be multiplied by ten without exceeding `a`.
pub open spec fn tens_above(a: nat, b: nat) -> nat
    decreases a - b,
{
    if b > 0 && a >= 10 * b {
        1 + tens_above(a, 10 * b)
    } else {
        0
    }
}

/// How often `a` has to be multiplied by ten to reach `b`.
pub open spec fn tens_below(a: nat, b: nat) -> nat
    decreases (if a < b {
        b - a
    } else {
        0
    }),
{
    if 0 < a < b {
        1 + tens_below(10 * a, b)
    } else {
        0
    }
}

/// Decimal exponent of the first digit of `a / b`.
pub open spec fn leading(a: nat, b: nat) -> int {
    if a >= b {
        tens_above(a, b) as int
    } else {
        -tens_below(a, b)
    }
}

/// The integer nearest `a / b`, ties to even.
pub open spec fn half_even(a: nat, b: nat) -> nat {
    let q = a / b;
    let r = a % b;
    if 2 * r > b || (2 * r == b && q % 2 == 1) {
        q + 1
    } else {
        q
    }
}

/// The six digits of `a / b` where the first stands for tens to the `e`: up to a
/// million, where the rounding carries through.
pub open spec fn scaled(a: nat, b: nat, e: int) -> nat {
    if e <= 5 {
        half_even(a * (pow(10, (5 - e) as nat) as nat), b)
    } else {
        half_even(a, b * (pow(10, (e - 5) as nat) as nat))
    }
}

/// The six significant digits of `a / b`, and the decimal exponent of the first.
pub open spec fn six(a: nat, b: nat) -> (nat, int) {
    let e = leading(a, b);
    let d = scaled(a, b, e);
    if d >= 1_000_000 {
        (100_000, e + 1)
    } else {
        (d, e)
    }
}

// ---------------------------------------------------------------------------
// Facts about powers
// ---------------------------------------------------------------------------

/// Powers of five up to the thirty-sixth stay below two to the eighty-fourth.
proof fn lemma_fives(j: nat)
    requires
        j <= 36,
    ensures
        0 < pow(5, j) < 0x10_0000_0000_0000_0000_0000,
{
    assert(pow(5, 12) == 244_140_625) by {
        reveal_with_fuel(pow, 13);
    }
    lemma_pow_adds(5, 12, 12);
    lemma_pow_adds(5, 24, 12);
    lemma_pow_positive(5, j);
    lemma_pow_increases(5, j, 36);
}

proof fn lemma_twos()
    ensures
        pow2(5) == 32,
        pow2(23) == 0x80_0000,
        pow2(24) == 0x100_0000,
        pow2(84) == 0x10_0000_0000_0000_0000_0000,
        pow2(108) == 0x1000_0000_0000_0000_0000_0000_0000,
        pow2(113) == 0x2_0000_0000_0000_0000_0000_0000_0000,
        pow2(125) == 0x2000_0000_0000_0000_0000_0000_0000_0000,
        pow2(126) == 0x4000_0000_0000_0000_0000_0000_0000_0000,
        pow2(127) == 0x8000_0000_0000_0000_0000_0000_0000_0000,
{
    lemma2_to64();
    lemma2_to64_rest();
    lemma_pow2_adds(63, 21);
    lemma_pow2_adds(63, 45);
    lemma_pow2_adds(63, 50);
    lemma_pow2_adds(63, 62);
    lemma_pow2_adds(63, 63);
    lemma_pow2_unfold(127);
}

/// Ten to the `j` is five to the `j` times two to the `j`.
proof fn lemma_ten_splits(j: nat)
    ensures
        pow(10, j) == pow(5, j) * pow2(j),
    decreases j,
{
    if j > 0 {
        lemma_ten_splits((j - 1) as nat);
        lemma_pow2_unfold(j);
        reveal(pow);
        let (a, b) = (pow(5, (j - 1) as nat), pow2((j - 1) as nat) as int);
        assert(10 * (a * b) == (5 * a) * (2 * b)) by (nonlinear_arith);
    } else {
        lemma_pow0(10);
        lemma_pow0(5);
        lemma2_to64();
    }
}

proof fn lemma_tens()
    ensures
        pow(10, 0) == 1,
        pow(10, 1) == 10,
        pow(10, 2) == 100,
        pow(10, 3) == 1000,
        pow(10, 4) == 10_000,
        pow(10, 5) == 100_000,
        pow(10, 6) == 1_000_000,
{
    reveal_with_fuel(pow, 7);
}

// ---------------------------------------------------------------------------
// Computing the digits
// ---------------------------------------------------------------------------

/// The integer nearest `a / b`, ties to even.
fn round_ratio(a: u128, b: u128) -> (r: u128)
    requires
        b > 0,
    ensures
        r == half_even(a as nat, b as nat),
        r <= a as int / b as int + 1,
{
    let q = a / b;
    let rest = a % b;
    if rest > b - rest || (rest == b - rest && q % 2 == 1) {
        assert(q < u128::MAX) by (nonlinear_arith)
            requires
                b >= 2,
                q == a / b,
                a <= u128::MAX,
        ;
        q + 1
    } else {
        q
    }
}

/// Two to the `n`.
fn two_to(n: u32) -> (p: u128)
    requires
        n <= 126,
    ensures
        p == pow2(n as nat),
        p > 0,
{
    let mut p: u128 = 1;
    let mut i: u32 = 0;
    proof {
        lemma_twos();
        lemma2_to64();
    }
    while i < n
        invariant
            i <= n <= 126,
            p == pow2(i as nat),
            p > 0,
            pow2(126) == 0x4000_0000_0000_0000_0000_0000_0000_0000,
        decreases n - i,
    {
        proof {
            lemma_pow2_unfold((i + 1) as nat);
            if i < 126 {
                lemma_pow2_strictly_increases(i as nat, 126);
            }
        }
        p = p * 2;
        i = i + 1;
    }
    p
}

/// How often `b` can be multiplied by ten without exceeding `a`, and where that leads.
fn tens_up(a: u128, b: u128) -> (r: (u32, u128))
    requires
        0 < b <= a,
    ensures
        r.0 == tens_above(a as nat, b as nat),
        r.0 <= 42,
        r.1 == b * pow(10, r.0 as nat),
        r.1 <= a < 10 * r.1,
        r.1 > 0,
{
    let mut p: u128 = b;
    let mut e: u32 = 0;
    proof {
        lemma_pow0(10);
        lemma2_to64();
    }
    while a / p >= 10
        invariant
            0 < b <= p <= a,
            e <= 42,
            p == b * pow(10, e as nat),
            p >= pow2(3 * e as nat),
            tens_above(a as nat, b as nat) == e + tens_above(a as nat, p as nat),
        decreases a - p,
    {
        proof {
            let (x, d) = (a as int, p as int);
            assert(x >= 10 * d) by (nonlinear_arith)
                requires
                    x / d >= 10,
                    d > 0,
            ;
            reveal(pow);
            assert(pow(10, (e + 1) as nat) == 10 * pow(10, e as nat));
            let t = pow(10, e as nat);
            assert(10 * (b * t) == b * (10 * t)) by (nonlinear_arith);
            lemma_pow2_unfold((3 * e + 1) as nat);
            lemma_pow2_unfold((3 * e + 2) as nat);
            lemma_pow2_unfold((3 * e + 3) as nat);
            if e == 42 {
                lemma_twos();
                lemma_pow2_unfold(128);
                lemma_pow2_unfold(129);
            }
        }
        p = p * 10;
        e = e + 1;
    }
    proof {
        let (x, d) = (a as int, p as int);
        assert(x < 10 * d) by (nonlinear_arith)
            requires
                x / d < 10,
                d > 0,
        ;
    }
    (e, p)
}

/// A common factor changes nothing in a rounding.
proof fn lemma_half_even_scales(a: nat, b: nat, c: nat)
    requires
        b > 0,
        c > 0,
    ensures
        half_even(a * c, b * c) == half_even(a, b),
{
    let (x, y, z) = (a as int, b as int, c as int);
    lemma_mul_is_commutative(x, z);
    lemma_mul_is_commutative(y, z);
    lemma_div_denominator(z * x, z, y);
    lemma_div_multiples_vanish(x, z);
    let q = x / y;
    lemma_fundamental_div_mod(x, y);
    lemma_fundamental_div_mod(z * x, z * y);
    let (r, s) = (x % y, (z * x) % (z * y));
    assert(s == z * r) by (nonlinear_arith)
        requires
            x == y * q + r,
            z * x == (z * y) * q + s,
    ;
    assert((2 * s > z * y) == (2 * r > y) && (2 * s == z * y) == (2 * r == y)) by (nonlinear_arith)
        requires
            s == z * r,
            z > 0,
    ;
}

/// A ratio below a million rounds to at most a million.
proof fn lemma_ratio_bound(a: int, b: int)
    requires
        b > 0,
        0 <= a < 1_000_000 * b,
    ensures
        0 <= a / b < 1_000_000,
{
    assert(0 <= a / b < 1_000_000) by (nonlinear_arith)
        requires
            b > 0,
            0 <= a < 1_000_000 * b,
    ;
}

/// Scales `n` up by two to the `k`.
fn double(n: u128, k: u32) -> (r: u128)
    requires
        n < 0x100_0000,
        k <= 104,
    ensures
        r == n * pow2(k as nat),
        r >= n,
{
    let mut r: u128 = n;
    let mut i: u32 = 0;
    proof {
        lemma_twos();
        lemma2_to64();
    }
    while i < k
        invariant
            i <= k <= 104,
            r == n * pow2(i as nat),
            n <= r < pow2((24 + i) as nat),
            pow2(127) == 0x8000_0000_0000_0000_0000_0000_0000_0000,
        decreases k - i,
    {
        proof {
            lemma_pow2_unfold((i + 1) as nat);
            lemma_pow2_unfold((25 + i) as nat);
            if 24 + i < 127 {
                lemma_pow2_strictly_increases((24 + i) as nat, 127);
            }
            let t = pow2(i as nat) as int;
            assert(2 * (n * t) == n * (2 * t)) by (nonlinear_arith);
        }
        r = r * 2;
        i = i + 1;
    }
    r
}

/// How often `n` has to be multiplied by ten to reach two to the `k`, and `n` times
/// five to that power.
fn tens_down(n: u128, k: u32) -> (r: (u32, u128))
    requires
        0 < n < 0x100_0000,
        24 <= k <= 149,
    ensures
        r.0 == tens_below(n as nat, pow2(k as nat)),
        1 <= r.0,
        r.0 + 5 <= k,
        r.1 == n * pow(5, r.0 as nat),
        pow2((k - r.0) as nat) <= r.1 < 10 * pow2((k - r.0) as nat),
        k - r.0 <= 112,
{
    let mut j: u32 = 0;
    let mut m: u128 = n;
    proof {
        lemma_pow0(10);
        lemma_pow0(5);
        lemma_twos();
        if k > 24 {
            lemma_pow2_strictly_increases(24, k as nat);
        }
    }
    while k - j >= 126 || m < two_to(k - j)
        invariant
            0 < n < 0x100_0000,
            24 <= k <= 149,
            j < k,
            j + 3 < k,
            m == n * pow(5, j as nat),
            m > 0,
            j == 0 ==> m < pow2(k as nat),
            j > 0 ==> m < 10 * pow2((k - j) as nat),
            tens_below(n as nat, pow2(k as nat)) == j + tens_below(
                (n * pow(10, j as nat)) as nat,
                pow2(k as nat),
            ),
        decreases k - j,
    {
        proof {
            lemma_twos();
            lemma_ten_splits(j as nat);
            lemma_pow2_adds((k - j) as nat, j as nat);
            lemma_pow2_pos(j as nat);
            let (f, t, h) = (pow(5, j as nat), pow2(j as nat) as int, pow2((k - j) as nat) as int);
            assert(n * (f * t) == (n * f) * t) by (nonlinear_arith);
            if k - j >= 126 {
                lemma_fives(j as nat);
                assert(n * f < 0x100_0000 * 0x10_0000_0000_0000_0000_0000) by (nonlinear_arith)
                    requires
                        0 < n < 0x100_0000,
                        0 < f < 0x10_0000_0000_0000_0000_0000,
                ;
                if k - j > 126 {
                    lemma_pow2_strictly_increases(126, (k - j) as nat);
                }
            }
            assert(m < h);
            assert((n * f) * t < h * t) by (nonlinear_arith)
                requires
                    n * f < h,
                    t > 0,
            ;
            assert(0 < n * pow(10, j as nat) < pow2(k as nat)) by {
                lemma_pow_positive(10, j as nat);
                let w = pow(10, j as nat);
                assert(n * w > 0) by (nonlinear_arith)
                    requires
                        n > 0,
                        w > 0,
                ;
            }
            reveal(pow);
            assert(pow(10, (j + 1) as nat) == 10 * pow(10, j as nat));
            assert(pow(5, (j + 1) as nat) == 5 * f);
            let w = pow(10, j as nat);
            assert(10 * (n * w) == n * (10 * w)) by (nonlinear_arith);
            assert(5 * (n * f) == n * (5 * f)) by (nonlinear_arith);
            // Room for the factor five.
            if k - j <= 125 {
                if k - j < 125 {
                    lemma_pow2_strictly_increases((k - j) as nat, 125);
                }
            }
            // The powers of two do not run out.
            assert(j + 4 < k) by {
                if j + 4 >= k {
                    lemma2_to64();
                    assert(pow2(4) == 16);
                    assert(k - j == 4);
                    lemma_pow_increases(5, 2, j as nat);
                    assert(pow(5, 2) == 25) by {
                        reveal_with_fuel(pow, 3);
                    }
                    assert(n * f >= 25) by (nonlinear_arith)
                        requires
                            n > 0,
                            f >= 25,
                    ;
                }
            }
            lemma_pow2_unfold((k - j) as nat);
        }
        m = m * 5;
        j = j + 1;
    }
    proof {
        lemma_twos();
        lemma_ten_splits(j as nat);
        lemma_pow2_adds((k - j) as nat, j as nat);
        let (f, t, h) = (pow(5, j as nat), pow2(j as nat) as int, pow2((k - j) as nat) as int);
        assert(n * (f * t) == (n * f) * t) by (nonlinear_arith);
        assert((n * f) * t >= h * t) by (nonlinear_arith)
            requires
                n * f >= h,
                t >= 0,
        ;
        if k - j > 112 {
            lemma_fives(j as nat);
            assert(n * f < 0x100_0000 * 0x10_0000_0000_0000_0000_0000) by (nonlinear_arith)
                requires
                    0 < n < 0x100_0000,
                    0 < f < 0x10_0000_0000_0000_0000_0000,
            ;
            if k - j > 113 {
                lemma_pow2_strictly_increases(113, (k - j) as nat);
            }
        }
        // With fewer than five powers of two left, five to the `j` would have been
        // enough before.
        assert(j + 5 <= k) by {
            if j + 5 > k {
                lemma2_to64();
                assert(k - j == 4);
                lemma_pow_increases(5, 4, j as nat);
                assert(pow(5, 4) == 625) by {
                    reveal_with_fuel(pow, 5);
                }
                assert(n * f >= 625) by (nonlinear_arith)
                    requires
                        n > 0,
                        f >= 625,
                ;
                assert(pow2(4) == 16);
            }
        }
    }
    (j, m)
}

/// The six significant digits of a finite number that is not zero, and the decimal
/// exponent of the first.
pub fn six_digits(x: u32) -> (r: (u32, i32))
    requires
        ieee::finite32(x),
        ieee::magnitude32(x) > 0,
    ensures
        (r.0 as nat, r.1 as int) == six(numerator(x), denominator(x)),
{
    let mag: u32 = if x < 0x8000_0000 {
        x
    } else {
        x - 0x8000_0000
    };
    let biased: u32 = mag / 0x80_0000;
    let sig: u128 = if biased == 0 {
        mag as u128
    } else {
        0x80_0000 + (mag % 0x80_0000) as u128
    };
    let (d, e): (u128, i32) = if biased >= 150 {
        large_digits(sig, biased - 150)
    } else {
        let k: u32 = if biased == 0 {
            149
        } else {
            150 - biased
        };
        if k <= 23 {
            medium_digits(sig, k)
        } else {
            small_digits(sig, k)
        }
    };
    if d >= 1_000_000 {
        (100_000, e + 1)
    } else {
        (d as u32, e)
    }
}

/// Digits of `sig` times two to the `k`.
fn large_digits(sig: u128, k: u32) -> (r: (u128, i32))
    requires
        0x80_0000 <= sig < 0x100_0000,
        k <= 104,
    ensures
        r.1 == leading(sig as nat * pow2(k as nat), 1),
        r.0 == scaled(sig as nat * pow2(k as nat), 1, r.1 as int),
        r.0 <= 1_000_000,
        -60 < r.1 < 60,
{
    let a = double(sig, k);
    let (e, p) = tens_up(a, 1);
    proof {
        lemma_tens();
        if e <= 5 {
            lemma_pow_increases(10, e as nat, 5);
        }
        lemma_pow_adds(10, (e - 5) as nat, 5);
        let w = pow(10, (e - 5) as nat);
        lemma_pow_positive(10, (e - 5) as nat);
        assert((w * 100_000) / 100_000 == w) by (nonlinear_arith);
        lemma_ratio_bound(a as int, w);
    }
    let w: u128 = p / 100_000;
    let d = round_ratio(a, w);
    (d, e as i32)
}

/// Digits of `sig` over two to the `k`, a number of at least one.
fn medium_digits(sig: u128, k: u32) -> (r: (u128, i32))
    requires
        0x80_0000 <= sig < 0x100_0000,
        k <= 23,
    ensures
        r.1 == leading(sig as nat, pow2(k as nat)),
        r.0 == scaled(sig as nat, pow2(k as nat), r.1 as int),
        r.0 <= 1_000_000,
        -60 < r.1 < 60,
{
    let b = two_to(k);
    proof {
        lemma_twos();
        if k < 23 {
            lemma_pow2_strictly_increases(k as nat, 23);
        }
    }
    let (e, p) = tens_up(sig, b);
    proof {
        lemma_tens();
    }
    let d = if e <= 5 {
        let mut w: u128 = 1;
        let mut i: u32 = e;
        proof {
            lemma_pow0(10);
        }
        while i < 5
            invariant
                e <= i <= 5,
                w == pow(10, (i - e) as nat),
                0 < w,
                (i == e ==> w == 1) && (i == e + 1 ==> w == 10) && (i == e + 2 ==> w == 100) && (i
                    == e + 3 ==> w == 1000) && (i == e + 4 ==> w == 10_000) && (i == e + 5 ==> w
                    == 100_000),
            decreases 5 - i,
        {
            proof {
                reveal(pow);
                assert(pow(10, (i + 1 - e) as nat) == 10 * pow(10, (i - e) as nat));
            }
            w = w * 10;
            i = i + 1;
        }
        proof {
            let (t, bb) = (pow(10, e as nat), b as int);
            lemma_pow_adds(10, (5 - e) as nat, e as nat);
            assert(sig * w <= 0x100_0000 * 100_000) by (nonlinear_arith)
                requires
                    0 <= sig <= 0x100_0000,
                    0 < w <= 100_000,
            ;
            assert(sig * w < 1_000_000 * bb) by (nonlinear_arith)
                requires
                    sig < 10 * (bb * t),
                    w * t == 100_000,
                    w > 0,
                    t > 0,
            ;
            lemma_ratio_bound(sig * w, bb);
        }
        round_ratio(sig * w, b)
    } else {
        proof {
            let (w, bb) = (pow(10, (e - 5) as nat), b as int);
            lemma_pow_adds(10, (e - 5) as nat, 5);
            lemma_pow_positive(10, (e - 5) as nat);
            assert(bb * (w * 100_000) == (bb * w) * 100_000) by (nonlinear_arith);
            assert(bb * w > 0) by (nonlinear_arith)
                requires
                    bb > 0,
                    w > 0,
            ;
            let v = bb * w;
            assert((v * 100_000) / 100_000 == v) by (nonlinear_arith);
            lemma_ratio_bound(sig as int, v);
        }
        let w: u128 = p / 100_000;
        round_ratio(sig, w)
    };
    (d, e as i32)
}

/// Digits of `sig` over two to the `k`, a number below one.
fn small_digits(sig: u128, k: u32) -> (r: (u128, i32))
    requires
        0 < sig < 0x100_0000,
        24 <= k <= 149,
    ensures
        r.1 == leading(sig as nat, pow2(k as nat)),
        r.0 == scaled(sig as nat, pow2(k as nat), r.1 as int),
        r.0 <= 1_000_000,
        -150 < r.1 < 60,
{
    proof {
        lemma_twos();
        if k > 24 {
            lemma_pow2_strictly_increases(24, k as nat);
        }
    }
    let (j, m) = tens_down(sig, k);
    let left: u32 = k - j - 5;
    proof {
        let (h, g) = (pow2((k - j) as nat) as int, pow2(left as nat) as int);
        lemma_pow2_adds(left as nat, 5);
        if k - j < 113 {
            lemma_pow2_strictly_increases((k - j) as nat, 113);
        }
        lemma_pow2_pos(left as nat);
        lemma_ratio_bound(m * 3125, g);
        // The same ratio, with the powers of two taken out.
        let t = (j + 5) as nat;
        lemma_ten_splits(t);
        lemma_pow_adds(5, j as nat, 5);
        assert(pow(5, 5) == 3125) by {
            reveal_with_fuel(pow, 6);
        }
        lemma_pow2_adds(left as nat, t);
        lemma_pow2_pos(t);
        let (f, c) = (pow(5, j as nat), pow2(t) as int);
        assert(sig * ((f * 3125) * c) == ((sig * f) * 3125) * c) by (nonlinear_arith);
        lemma_half_even_scales((m * 3125) as nat, g as nat, c as nat);
        assert(left as nat + t == k);
        lemma_pow_positive(10, t);
        assert(pow(10, t) == (f * 3125) * c);
        assert(((m * 3125) as nat) * (c as nat) == sig as nat * pow(10, t) as nat) by (nonlinear_arith)
            requires
                sig * pow(10, t) == ((sig * f) * 3125) * c,
                m == sig * f,
                pow(10, t) > 0,
                c > 0,
        ;
        assert((g as nat) * (c as nat) == pow2(k as nat));
        assert(scaled(sig as nat, pow2(k as nat), -(j as int)) == half_even(
            sig as nat * pow(10, t) as nat,
            pow2(k as nat),
        ));
    }
    let d = round_ratio(m * 3125, two_to(left));
    (d, -(j as i32))
}

// ---------------------------------------------------------------------------
// Laws of the digits
// ---------------------------------------------------------------------------

/// A rounded ratio is off by at most half a unit.
pub proof fn lemma_half_even_is_nearest(a: nat, b: nat)
    requires
        b > 0,
    ensures
        -(b as int) <= 2 * (half_even(a, b) * b - a) <= b,
{
    let (x, y) = (a as int, b as int);
    lemma_fundamental_div_mod(x, y);
    let (q, r) = (x / y, x % y);
    assert((q + 1) * y == y * q + y) by (nonlinear_arith);
    assert(q * y == y * q) by (nonlinear_arith);
}

proof fn lemma_tens_above(a: nat, b: nat)
    requires
        0 < b <= a,
    ensures
        b * pow(10, tens_above(a, b)) <= a < 10 * (b * pow(10, tens_above(a, b))),
    decreases a - b,
{
    let n = tens_above(a, b);
    if a >= 10 * b {
        lemma_tens_above(a, 10 * b);
        let m = (n - 1) as nat;
        reveal(pow);
        assert(pow(10, n) == 10 * pow(10, m));
        let t = pow(10, m);
        assert((10 * b) * t == b * (10 * t)) by (nonlinear_arith);
    } else {
        lemma_pow0(10);
        assert(b * 1 == b);
    }
}

proof fn lemma_tens_below(a: nat, b: nat)
    requires
        0 < a < 10 * b,
    ensures
        b <= a * pow(10, tens_below(a, b)) < 10 * b,
    decreases (if a < b {
        b - a
    } else {
        0
    }),
{
    let n = tens_below(a, b);
    if a < b {
        lemma_tens_below(10 * a, b);
        let m = (n - 1) as nat;
        reveal(pow);
        assert(pow(10, n) == 10 * pow(10, m));
        let t = pow(10, m);
        assert((10 * a) * t == a * (10 * t)) by (nonlinear_arith);
    } else {
        lemma_pow0(10);
        assert(a * 1 == a);
    }
}

/// Six significant digits are six: the first is not zero, and a carry past the last
/// place goes into the exponent.
pub proof fn lemma_six_digits_are_six(a: nat, b: nat)
    requires
        a > 0,
        b > 0,
    ensures
        100_000 <= six(a, b).0 <= 999_999,
{
    let e = leading(a, b);
    lemma_tens();
    if e <= 5 {
        let w = pow(10, (5 - e) as nat);
        lemma_pow_positive(10, (5 - e) as nat);
        let n = a * w;
        if a >= b {
            lemma_tens_above(a, b);
            let t = pow(10, e as nat);
            lemma_pow_adds(10, (5 - e) as nat, e as nat);
            assert(100_000 * b <= n < 1_000_000 * b) by (nonlinear_arith)
                requires
                    b * t <= a < 10 * (b * t),
                    w * t == 100_000,
                    w > 0,
                    n == a * w,
            ;
        } else {
            lemma_tens_below(a, b);
            let t = pow(10, (-e) as nat);
            lemma_pow_adds(10, (-e) as nat, 5);
            assert(n == (a * t) * 100_000) by (nonlinear_arith)
                requires
                    n == a * w,
                    w == t * 100_000,
            ;
        }
        lemma_six_digit_ratio(n as nat, b);
    } else {
        lemma_tens_above(a, b);
        let w = pow(10, (e - 5) as nat);
        lemma_pow_positive(10, (e - 5) as nat);
        lemma_pow_adds(10, (e - 5) as nat, 5);
        assert(b * (w * 100_000) == (b * w) * 100_000) by (nonlinear_arith);
        assert(b * w > 0) by (nonlinear_arith)
            requires
                b > 0,
                w > 0,
        ;
        lemma_six_digit_ratio(a, (b * w) as nat);
    }
}

proof fn lemma_six_digit_ratio(n: nat, d: nat)
    requires
        d > 0,
        100_000 * d <= n < 1_000_000 * d,
    ensures
        100_000 <= half_even(n, d) <= 1_000_000,
{
    let (x, y) = (n as int, d as int);
    assert(100_000 <= x / y < 1_000_000) by (nonlinear_arith)
        requires
            y > 0,
            100_000 * y <= x < 1_000_000 * y,
    ;
}

} // verus!
