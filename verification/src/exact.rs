//! The numbers behind the patterns, and arithmetic that is as exact as they allow.
//!
//! Every finite pattern stands for a real number. [`faithful32`] and [`faithful64`] say
//! of an arithmetic that no pattern lies strictly between an operation's true result
//! and the one returned; IEEE-754 arithmetic is of that kind in every rounding mode. A
//! result that has a pattern is then returned as it is, and bounds that have patterns
//! survive rounding. The laws about what the trackers compute are stated over these
//! numbers.
use vstd::prelude::*;
use vstd::arithmetic::power2::*;
use crate::arith;
use crate::arith::Arith;
use crate::ieee;

verus! {

// ---------------------------------------------------------------------------
// Numbers
// ---------------------------------------------------------------------------

/// Number that a binary32 magnitude stands for, in units of the smallest positive one,
/// `2^-149`.
pub open spec fn units32(mag: int) -> int {
    if mag < 0x80_0000 {
        mag
    } else {
        (0x80_0000 + mag % 0x80_0000) * pow2((mag / 0x80_0000 - 1) as nat)
    }
}

/// Number that a finite binary32 pattern stands for.
pub open spec fn number32(x: u32) -> real {
    let units = if x < 0x8000_0000 {
        units32(ieee::magnitude32(x))
    } else {
        -units32(ieee::magnitude32(x))
    };
    units as real / pow2(149) as real
}

/// Number that a finite binary64 pattern stands for.
pub open spec fn number64(x: u64) -> real {
    ieee::value64(x) as real / pow2(1074) as real
}

/// A larger magnitude stands for a larger number.
proof fn lemma_units_grow(a: int, b: int)
    requires
        0 <= a < b,
    ensures
        0 <= units32(a) < units32(b),
{
    let one: int = 0x80_0000;
    let (ea, eb) = (a / one, b / one);
    let (fa, fb) = (a % one, b % one);
    if b >= one {
        let tb = pow2((eb - 1) as nat) as int;
        lemma_pow2_pos((eb - 1) as nat);
        if a >= one {
            let ta = pow2((ea - 1) as nat) as int;
            lemma_pow2_pos((ea - 1) as nat);
            assert((one + fa) * ta >= 0) by (nonlinear_arith)
                requires
                    one + fa >= 0,
                    ta >= 0,
            ;
            if ea == eb {
                assert((one + fa) * ta < (one + fb) * ta) by (nonlinear_arith)
                    requires
                        fa < fb,
                        ta > 0,
                ;
            } else {
                lemma_pow2_unfold(ea as nat);
                let next = pow2(ea as nat) as int;
                if ea < eb - 1 {
                    lemma_pow2_strictly_increases(ea as nat, (eb - 1) as nat);
                }
                assert((one + fa) * ta < one * next) by (nonlinear_arith)
                    requires
                        next == 2 * ta,
                        fa < one,
                        ta > 0,
                ;
                assert(one * next <= (one + fb) * tb) by (nonlinear_arith)
                    requires
                        0 < next <= tb,
                        fb >= 0,
                        one > 0,
                ;
            }
        } else {
            assert((one + fb) * tb >= one) by (nonlinear_arith)
                requires
                    tb >= 1,
                    fb >= 0,
                    one > 0,
            ;
        }
    }
}

/// Integers keep their order, and differ as they did, over a common positive
/// denominator.
pub(crate) proof fn lemma_over(a: int, b: int, d: int)
    requires
        d > 0,
    ensures
        a < b <==> (a as real / d as real) < (b as real / d as real),
        a == b <==> (a as real / d as real) == (b as real / d as real),
{
    let (x, y, z) = (a as real, b as real, d as real);
    assert(x < y <==> x / z < y / z) by (nonlinear_arith)
        requires
            z > 0 as real,
    ;
    assert(x == y <==> x / z == y / z) by (nonlinear_arith)
        requires
            z > 0 as real,
    ;
}

/// The order of finite patterns is the order of the numbers they stand for.
pub proof fn lemma_order32(x: u32, y: u32)
    requires
        ieee::finite32(x),
        ieee::finite32(y),
    ensures
        ieee::less32(x, y) <==> number32(x) < number32(y),
        ieee::at_most32(x, y) <==> number32(x) <= number32(y),
{
    let (a, b) = (ieee::magnitude32(x), ieee::magnitude32(y));
    if a < b {
        lemma_units_grow(a, b);
    } else if b < a {
        lemma_units_grow(b, a);
    }
    if a > 0 {
        lemma_units_grow(0, a);
    }
    if b > 0 {
        lemma_units_grow(0, b);
    }
    let p = if x < 0x8000_0000 {
        units32(a)
    } else {
        -units32(a)
    };
    let q = if y < 0x8000_0000 {
        units32(b)
    } else {
        -units32(b)
    };
    lemma_pow2_pos(149);
    lemma_over(p, q, pow2(149) as int);
    lemma_over(q, p, pow2(149) as int);
}

/// As [`lemma_order32`], binary64.
pub proof fn lemma_order64(x: u64, y: u64)
    requires
        ieee::finite64(x),
        ieee::finite64(y),
    ensures
        ieee::less64(x, y) <==> number64(x) < number64(y),
        ieee::at_most64(x, y) <==> number64(x) <= number64(y),
{
    ieee::lemma_value_orders(x, y);
    lemma_pow2_pos(1074);
    lemma_over(ieee::value64(x), ieee::value64(y), pow2(1074) as int);
    lemma_over(ieee::value64(y), ieee::value64(x), pow2(1074) as int);
}

/// Zero and one, binary32.
pub proof fn lemma_constants32()
    ensures
        number32(ieee::ZERO32) == 0 as real,
        number32(ieee::ONE32) == 1 as real,
        ieee::finite32(ieee::ZERO32),
        ieee::finite32(ieee::ONE32),
{
    lemma_pow2_pos(149);
    lemma2_to64();
    lemma_pow2_adds(23, 126);
    let d = pow2(149) as real;
    assert(units32(0x3F80_0000) == 0x80_0000 * pow2(126));
    assert(d / d == 1 as real && 0 as real / d == 0 as real) by (nonlinear_arith)
        requires
            d > 0 as real,
    ;
}

/// A positive normal number with biased exponent `e` is its significand over
/// `2^(150 - e)`.
pub(crate) proof fn lemma_normal32(x: u32, e: int, sig: int, unit: int)
    requires
        x < 0x7F80_0000,
        1 <= e <= 150,
        x as int == e * 0x80_0000 + (sig - 0x80_0000),
        0x80_0000 <= sig < 0x100_0000,
        unit == pow2((150 - e) as nat),
    ensures
        is32(x, sig as real / unit as real),
        is32((x + 0x8000_0000) as u32, -(sig as real / unit as real)),
{
    assert(x as int / 0x80_0000 == e && x as int % 0x80_0000 == sig - 0x80_0000);
    lemma_pow2_adds((e - 1) as nat, (150 - e) as nat);
    lemma_pow2_pos((e - 1) as nat);
    lemma_pow2_pos((150 - e) as nat);
    let (s, p, u) = (sig as real, pow2((e - 1) as nat) as real, unit as real);
    let d = pow2(149) as real;
    assert((sig * pow2((e - 1) as nat) as int) as real == s * p) by (nonlinear_arith)
        requires
            s == sig as real,
            p == pow2((e - 1) as nat) as real,
    ;
    assert((pow2((e - 1) as nat) * pow2((150 - e) as nat)) as real == p * u) by (nonlinear_arith)
        requires
            p == pow2((e - 1) as nat) as real,
            u == pow2((150 - e) as nat) as real,
    ;
    assert((s * p) / d == s / u && (-(s * p)) / d == -(s / u)) by (nonlinear_arith)
        requires
            d == p * u,
            p > 0 as real,
            u > 0 as real,
    ;
    assert(ieee::magnitude32((x + 0x8000_0000) as u32) == x);
}

/// The constants of the filter that have patterns: two, minus two, minus one half, one
/// hundred and six hundred.
pub proof fn lemma_filter_constants32()
    ensures
        is32(0x4000_0000, 2 as real),
        is32(0xC000_0000, -(2 as real)),
        is32(0xBF00_0000, -(1 as real / 2 as real)),
        is32(0x3FC0_0000, 3 as real / 2 as real),
        is32(0x42C8_0000, 100 as real),
        is32(0x4416_0000, 600 as real),
{
    lemma2_to64();
    lemma_normal32(0x4000_0000, 128, 0x80_0000, 0x40_0000);
    lemma_normal32(0x3F00_0000, 126, 0x80_0000, 0x100_0000);
    lemma_normal32(0x3FC0_0000, 127, 0xC0_0000, 0x80_0000);
    lemma_normal32(0x42C8_0000, 133, 0xC8_0000, 0x2_0000);
    lemma_normal32(0x4416_0000, 136, 0x96_0000, 0x4000);
    assert(0x80_0000 as real / 0x40_0000 as real == 2 as real) by (nonlinear_arith);
    assert(0x80_0000 as real / 0x100_0000 as real == 1 as real / 2 as real) by (nonlinear_arith);
    assert(0xC0_0000 as real / 0x80_0000 as real == 3 as real / 2 as real) by (nonlinear_arith);
    assert(0xC8_0000 as real / 0x2_0000 as real == 100 as real) by (nonlinear_arith);
    assert(0x96_0000 as real / 0x4000 as real == 600 as real) by (nonlinear_arith);
}

/// Zero and one, binary64.
pub proof fn lemma_constants64()
    ensures
        number64(ieee::ZERO64) == 0 as real,
        number64(ieee::ONE64) == 1 as real,
        ieee::finite64(ieee::ZERO64),
        ieee::finite64(ieee::ONE64),
{
    lemma_pow2_pos(1074);
    lemma2_to64();
    lemma2_to64_rest();
    lemma_pow2_adds(52, 1022);
    let d = pow2(1074) as real;
    assert(ieee::units64(0x3FF0_0000_0000_0000) == 0x10_0000_0000_0000 * pow2(1022));
    assert(d / d == 1 as real && 0 as real / d == 0 as real) by (nonlinear_arith)
        requires
            d > 0 as real,
    ;
}

/// A normal binary64 number is its significand times two to its exponent.
pub(crate) proof fn lemma_normal64(x: u64, e: int, sig: int)
    requires
        x < 0x7FF0_0000_0000_0000,
        1 <= e,
        x as int == e * 0x10_0000_0000_0000 + (sig - 0x10_0000_0000_0000),
        0x10_0000_0000_0000 <= sig < 0x20_0000_0000_0000,
    ensures
        ieee::finite64(x),
        e <= 1075 ==> number64(x) * pow2((1075 - e) as nat) as real == sig as real,
        e >= 1075 ==> number64(x) == sig as real * pow2((e - 1075) as nat) as real,
{
    assert(x as int / 0x10_0000_0000_0000 == e && x as int % 0x10_0000_0000_0000 == sig
        - 0x10_0000_0000_0000);
    lemma_pow2_pos(1074);
    lemma_pow2_pos((e - 1) as nat);
    let p = pow2((e - 1) as nat) as int;
    assert(ieee::units64(x as int) == sig * p);
    let (a, b, d) = (sig as real, p as real, pow2(1074) as real);
    assert((sig * p) as real == sig as real * p as real) by (nonlinear_arith);
    if e <= 1075 {
        lemma_pow2_adds((e - 1) as nat, (1075 - e) as nat);
        let q = pow2((1075 - e) as nat) as int;
        assert((p * q) as real == p as real * q as real) by (nonlinear_arith);
        let c = q as real;
        assert((a * b) / d * c == a) by (nonlinear_arith)
            requires
                b * c == d,
                d > 0 as real,
        ;
    }
    if e >= 1075 {
        lemma_pow2_adds(1074, (e - 1075) as nat);
        let q = pow2((e - 1075) as nat) as int;
        assert((pow2(1074) as int * q) as real == pow2(1074) as int as real * q as real)
            by (nonlinear_arith);
        let c = q as real;
        assert((a * b) / d == a * c) by (nonlinear_arith)
            requires
                d * c == b,
                d > 0 as real,
        ;
    }
}

// ---------------------------------------------------------------------------
// Rounding
// ---------------------------------------------------------------------------

/// `r` is a rounding of the number `v`: a pattern, with no other one strictly between.
pub open spec fn near32(r: u32, v: real) -> bool {
    &&& !ieee::nan32(r)
    &&& forall|z: u32|
        ieee::finite32(z) && number32(z) <= v ==> #[trigger] ieee::at_most32(z, r)
    &&& forall|z: u32|
        ieee::finite32(z) && v <= number32(z) ==> #[trigger] ieee::at_most32(r, z)
}

/// As [`near32`], binary64.
pub open spec fn near64(r: u64, v: real) -> bool {
    &&& !ieee::nan64(r)
    &&& forall|z: u64|
        ieee::finite64(z) && number64(z) <= v ==> #[trigger] ieee::at_most64(z, r)
    &&& forall|z: u64|
        ieee::finite64(z) && v <= number64(z) ==> #[trigger] ieee::at_most64(r, z)
}

/// Some binary32 pattern stands for `v`.
pub open spec fn fits32(v: real) -> bool {
    exists|z: u32| ieee::finite32(z) && #[trigger] number32(z) == v
}

/// Some binary64 pattern stands for `v`.
pub open spec fn fits64(v: real) -> bool {
    exists|z: u64| ieee::finite64(z) && #[trigger] number64(z) == v
}

/// `x` is finite and stands for `v`.
pub open spec fn is32(x: u32, v: real) -> bool {
    ieee::finite32(x) && number32(x) == v
}

/// `x` is finite and stands for `v`.
pub open spec fn is64(x: u64, v: real) -> bool {
    ieee::finite64(x) && number64(x) == v
}

/// A number that has a pattern rounds to itself.
pub proof fn lemma_near_is32(r: u32, v: real)
    requires
        near32(r, v),
        fits32(v),
    ensures
        is32(r, v),
{
    let z = choose|z: u32| ieee::finite32(z) && #[trigger] number32(z) == v;
    assert(ieee::at_most32(z, r) && ieee::at_most32(r, z));
    lemma_order32(z, r);
    lemma_order32(r, z);
}

/// As [`lemma_near_is32`], binary64.
pub proof fn lemma_near_is64(r: u64, v: real)
    requires
        near64(r, v),
        fits64(v),
    ensures
        is64(r, v),
{
    let z = choose|z: u64| ieee::finite64(z) && #[trigger] number64(z) == v;
    assert(ieee::at_most64(z, r) && ieee::at_most64(r, z));
    lemma_order64(z, r);
    lemma_order64(r, z);
}

/// A pattern is a rounding of its own number.
pub proof fn lemma_is_near32(x: u32)
    requires
        ieee::finite32(x),
    ensures
        near32(x, number32(x)),
{
    assert forall|z: u32| ieee::finite32(z) && number32(z) <= number32(x) implies
    #[trigger] ieee::at_most32(z, x) by {
        lemma_order32(z, x);
    }
    assert forall|z: u32| ieee::finite32(z) && number32(x) <= number32(z) implies
    #[trigger] ieee::at_most32(x, z) by {
        lemma_order32(x, z);
    }
}

/// A pattern is a rounding of its own number.
pub proof fn lemma_is_near64(x: u64)
    requires
        ieee::finite64(x),
    ensures
        near64(x, number64(x)),
{
    assert forall|z: u64| ieee::finite64(z) && number64(z) <= number64(x) implies
    #[trigger] ieee::at_most64(z, x) by {
        lemma_order64(z, x);
    }
    assert forall|z: u64| ieee::finite64(z) && number64(x) <= number64(z) implies
    #[trigger] ieee::at_most64(x, z) by {
        lemma_order64(x, z);
    }
}

/// Bounds that have patterns survive rounding.
pub proof fn lemma_near_between32(r: u32, v: real, lo: u32, hi: u32)
    requires
        near32(r, v),
        ieee::finite32(lo),
        ieee::finite32(hi),
        number32(lo) <= v <= number32(hi),
    ensures
        ieee::finite32(r),
        number32(lo) <= number32(r) <= number32(hi),
        ieee::at_most32(lo, r),
        ieee::at_most32(r, hi),
{
    assert(ieee::at_most32(lo, r) && ieee::at_most32(r, hi));
    lemma_order32(lo, r);
    lemma_order32(r, hi);
}

/// Every binary32 operation returns a rounding of its true result.
#[verifier::opaque]
pub open spec fn faithful32<A: Arith>(m: A) -> bool {
    &&& forall|x: u32, y: u32|
        ieee::finite32(x) && ieee::finite32(y) ==> near32(
            #[trigger] arith::sum32(m, x, y),
            number32(x) + number32(y),
        )
    &&& forall|x: u32, y: u32|
        ieee::finite32(x) && ieee::finite32(y) ==> near32(
            #[trigger] arith::difference32(m, x, y),
            number32(x) - number32(y),
        )
    &&& forall|x: u32, y: u32|
        ieee::finite32(x) && ieee::finite32(y) ==> near32(
            #[trigger] arith::product32(m, x, y),
            number32(x) * number32(y),
        )
    &&& forall|x: u32, y: u32|
        ieee::finite32(x) && ieee::finite32(y) && number32(y) != 0 as real ==> near32(
            #[trigger] arith::quotient32(m, x, y),
            number32(x) / number32(y),
        )
    &&& forall|x: u32, y: u32, z: u32|
        ieee::finite32(x) && ieee::finite32(y) && ieee::finite32(z) ==> near32(
            #[trigger] arith::fused32(m, x, y, z),
            number32(x) * number32(y) + number32(z),
        )
    &&& forall|n: u64| near32(#[trigger] arith::of_int32(m, n), n as int as real)
    &&& forall|x: u32, v: real|
        ieee::finite32(x) && v >= 0 as real && v * v == number32(x) ==> #[trigger] near32(
            arith::root32(m, x),
            v,
        )
    &&& forall|x: u32|
        ieee::finite32(x) && 0 as real <= number32(x) < pow2(64) as real ==> {
            &&& #[trigger] arith::int_of32(m, x) as int as real <= number32(x)
            &&& number32(x) < arith::int_of32(m, x) as int as real + 1 as real
        }
}

/// Every binary64 operation returns a rounding of its true result, and so do the
/// conversions from and to binary32.
#[verifier::opaque]
pub open spec fn faithful64<A: Arith>(m: A) -> bool {
    &&& forall|x: u64, y: u64|
        ieee::finite64(x) && ieee::finite64(y) ==> near64(
            #[trigger] arith::sum64(m, x, y),
            number64(x) + number64(y),
        )
    &&& forall|x: u64, y: u64|
        ieee::finite64(x) && ieee::finite64(y) ==> near64(
            #[trigger] arith::difference64(m, x, y),
            number64(x) - number64(y),
        )
    &&& forall|x: u64, y: u64|
        ieee::finite64(x) && ieee::finite64(y) ==> near64(
            #[trigger] arith::product64(m, x, y),
            number64(x) * number64(y),
        )
    &&& forall|x: u64, y: u64|
        ieee::finite64(x) && ieee::finite64(y) && number64(y) != 0 as real ==> near64(
            #[trigger] arith::quotient64(m, x, y),
            number64(x) / number64(y),
        )
    &&& forall|n: u64| near64(#[trigger] arith::of_int64(m, n), n as int as real)
    &&& forall|x: u64, v: real|
        ieee::finite64(x) && v >= 0 as real && v * v == number64(x) ==> #[trigger] near64(
            arith::root64(m, x),
            v,
        )
    &&& forall|x: u32|
        ieee::finite32(x) ==> is64(#[trigger] arith::widened(m, x), number32(x))
    &&& forall|x: u64|
        ieee::finite64(x) ==> near32(#[trigger] arith::narrowed(m, x), number64(x))
}

// ---------------------------------------------------------------------------
// Operations whose result has a pattern
// ---------------------------------------------------------------------------

pub proof fn lemma_sum32<A: Arith>(m: A, x: u32, y: u32)
    requires
        faithful32(m),
        ieee::finite32(x),
        ieee::finite32(y),
    ensures
        near32(arith::sum32(m, x, y), number32(x) + number32(y)),
        fits32(number32(x) + number32(y)) ==> is32(
            arith::sum32(m, x, y),
            number32(x) + number32(y),
        ),
{
    reveal(faithful32);
    if fits32(number32(x) + number32(y)) {
        lemma_near_is32(arith::sum32(m, x, y), number32(x) + number32(y));
    }
}

pub proof fn lemma_difference32<A: Arith>(m: A, x: u32, y: u32)
    requires
        faithful32(m),
        ieee::finite32(x),
        ieee::finite32(y),
    ensures
        near32(arith::difference32(m, x, y), number32(x) - number32(y)),
        fits32(number32(x) - number32(y)) ==> is32(
            arith::difference32(m, x, y),
            number32(x) - number32(y),
        ),
{
    reveal(faithful32);
    if fits32(number32(x) - number32(y)) {
        lemma_near_is32(arith::difference32(m, x, y), number32(x) - number32(y));
    }
}

pub proof fn lemma_product32<A: Arith>(m: A, x: u32, y: u32)
    requires
        faithful32(m),
        ieee::finite32(x),
        ieee::finite32(y),
    ensures
        near32(arith::product32(m, x, y), number32(x) * number32(y)),
        fits32(number32(x) * number32(y)) ==> is32(
            arith::product32(m, x, y),
            number32(x) * number32(y),
        ),
{
    reveal(faithful32);
    if fits32(number32(x) * number32(y)) {
        lemma_near_is32(arith::product32(m, x, y), number32(x) * number32(y));
    }
}

pub proof fn lemma_quotient32<A: Arith>(m: A, x: u32, y: u32)
    requires
        faithful32(m),
        ieee::finite32(x),
        ieee::finite32(y),
        number32(y) != 0 as real,
    ensures
        near32(arith::quotient32(m, x, y), number32(x) / number32(y)),
        fits32(number32(x) / number32(y)) ==> is32(
            arith::quotient32(m, x, y),
            number32(x) / number32(y),
        ),
{
    reveal(faithful32);
    if fits32(number32(x) / number32(y)) {
        lemma_near_is32(arith::quotient32(m, x, y), number32(x) / number32(y));
    }
}

pub proof fn lemma_fused32<A: Arith>(m: A, x: u32, y: u32, z: u32)
    requires
        faithful32(m),
        ieee::finite32(x),
        ieee::finite32(y),
        ieee::finite32(z),
    ensures
        near32(arith::fused32(m, x, y, z), number32(x) * number32(y) + number32(z)),
        fits32(number32(x) * number32(y) + number32(z)) ==> is32(
            arith::fused32(m, x, y, z),
            number32(x) * number32(y) + number32(z),
        ),
{
    reveal(faithful32);
    if fits32(number32(x) * number32(y) + number32(z)) {
        lemma_near_is32(
            arith::fused32(m, x, y, z),
            number32(x) * number32(y) + number32(z),
        );
    }
}

pub proof fn lemma_of_int32<A: Arith>(m: A, n: u64)
    requires
        faithful32(m),
    ensures
        near32(arith::of_int32(m, n), n as int as real),
        n <= 0x100_0000 ==> is32(arith::of_int32(m, n), n as int as real),
{
    reveal(faithful32);
    if n <= 0x100_0000 {
        lemma_whole_fits32(n as int);
        lemma_near_is32(arith::of_int32(m, n), n as int as real);
    }
}

pub proof fn lemma_root32<A: Arith>(m: A, x: u32, v: real)
    requires
        faithful32(m),
        ieee::finite32(x),
        v >= 0 as real,
        v * v == number32(x),
    ensures
        near32(arith::root32(m, x), v),
{
    reveal(faithful32);
}

pub proof fn lemma_int_of32<A: Arith>(m: A, x: u32)
    requires
        faithful32(m),
        ieee::finite32(x),
        0 as real <= number32(x) < pow2(64) as real,
    ensures
        arith::int_of32(m, x) as int as real <= number32(x),
        number32(x) < arith::int_of32(m, x) as int as real + 1 as real,
{
    reveal(faithful32);
}

pub proof fn lemma_sum64<A: Arith>(m: A, x: u64, y: u64)
    requires
        faithful64(m),
        ieee::finite64(x),
        ieee::finite64(y),
    ensures
        near64(arith::sum64(m, x, y), number64(x) + number64(y)),
        fits64(number64(x) + number64(y)) ==> is64(
            arith::sum64(m, x, y),
            number64(x) + number64(y),
        ),
{
    reveal(faithful64);
    if fits64(number64(x) + number64(y)) {
        lemma_near_is64(arith::sum64(m, x, y), number64(x) + number64(y));
    }
}

pub proof fn lemma_difference64<A: Arith>(m: A, x: u64, y: u64)
    requires
        faithful64(m),
        ieee::finite64(x),
        ieee::finite64(y),
    ensures
        near64(arith::difference64(m, x, y), number64(x) - number64(y)),
        fits64(number64(x) - number64(y)) ==> is64(
            arith::difference64(m, x, y),
            number64(x) - number64(y),
        ),
{
    reveal(faithful64);
    if fits64(number64(x) - number64(y)) {
        lemma_near_is64(arith::difference64(m, x, y), number64(x) - number64(y));
    }
}

pub proof fn lemma_product64<A: Arith>(m: A, x: u64, y: u64)
    requires
        faithful64(m),
        ieee::finite64(x),
        ieee::finite64(y),
    ensures
        near64(arith::product64(m, x, y), number64(x) * number64(y)),
        fits64(number64(x) * number64(y)) ==> is64(
            arith::product64(m, x, y),
            number64(x) * number64(y),
        ),
{
    reveal(faithful64);
    if fits64(number64(x) * number64(y)) {
        lemma_near_is64(arith::product64(m, x, y), number64(x) * number64(y));
    }
}

pub proof fn lemma_quotient64<A: Arith>(m: A, x: u64, y: u64)
    requires
        faithful64(m),
        ieee::finite64(x),
        ieee::finite64(y),
        number64(y) != 0 as real,
    ensures
        near64(arith::quotient64(m, x, y), number64(x) / number64(y)),
        fits64(number64(x) / number64(y)) ==> is64(
            arith::quotient64(m, x, y),
            number64(x) / number64(y),
        ),
{
    reveal(faithful64);
    if fits64(number64(x) / number64(y)) {
        lemma_near_is64(arith::quotient64(m, x, y), number64(x) / number64(y));
    }
}

pub proof fn lemma_of_int64<A: Arith>(m: A, n: u64)
    requires
        faithful64(m),
    ensures
        near64(arith::of_int64(m, n), n as int as real),
        n <= 0x20_0000_0000_0000 ==> is64(arith::of_int64(m, n), n as int as real),
{
    reveal(faithful64);
    if n <= 0x20_0000_0000_0000 {
        lemma_whole_fits64(n as int);
        lemma_near_is64(arith::of_int64(m, n), n as int as real);
    }
}

pub proof fn lemma_root64<A: Arith>(m: A, x: u64, v: real)
    requires
        faithful64(m),
        ieee::finite64(x),
        v >= 0 as real,
        v * v == number64(x),
    ensures
        near64(arith::root64(m, x), v),
{
    reveal(faithful64);
}

pub proof fn lemma_widened<A: Arith>(m: A, x: u32)
    requires
        faithful64(m),
        ieee::finite32(x),
    ensures
        is64(arith::widened(m, x), number32(x)),
{
    reveal(faithful64);
}

pub proof fn lemma_narrowed<A: Arith>(m: A, x: u64)
    requires
        faithful64(m),
        ieee::finite64(x),
    ensures
        near32(arith::narrowed(m, x), number64(x)),
        fits32(number64(x)) ==> is32(arith::narrowed(m, x), number64(x)),
{
    reveal(faithful64);
    if fits32(number64(x)) {
        lemma_near_is32(arith::narrowed(m, x), number64(x));
    }
}

/// The other sign.
pub proof fn lemma_negated32(x: u32)
    requires
        ieee::finite32(x),
    ensures
        is32(ieee::negated32(x), -number32(x)),
{
    let u = units32(ieee::magnitude32(x)) as real;
    let d = pow2(149) as real;
    lemma_pow2_pos(149);
    assert(-(u / d) == (-u) / d && -((-u) / d) == u / d) by (nonlinear_arith)
        requires
            d > 0 as real,
    ;
}

// ---------------------------------------------------------------------------
// Numbers that have a pattern
// ---------------------------------------------------------------------------

/// Magnitude that stands for `k` times two to the `e` units, binary32.
pub(crate) proof fn lemma_magnitude32(k: int, e: nat) -> (mag: int)
    requires
        0 <= k <= 0x100_0000,
        e <= 229,
    ensures
        0 <= mag < 0x7F80_0000,
        units32(mag) == k * pow2(e),
    decreases e,
{
    lemma2_to64();
    if k == 0 {
        assert(0 * pow2(e) == 0) by (nonlinear_arith);
        0
    } else if e == 0 {
        assert(k * pow2(0) == k) by (nonlinear_arith)
            requires
                pow2(0) == 1,
        ;
        if k == 0x100_0000 {
            assert(pow2(1) == 2);
        } else if k >= 0x80_0000 {
            assert((0x80_0000 + k % 0x80_0000) * pow2(0) == k) by (nonlinear_arith)
                requires
                    pow2(0) == 1,
                    0x80_0000 <= k < 0x100_0000,
            ;
        }
        k
    } else if k < 0x80_0000 {
        lemma_pow2_unfold(e);
        let h = pow2((e - 1) as nat) as int;
        assert(k * (2 * h) == (2 * k) * h) by (nonlinear_arith);
        lemma_magnitude32(2 * k, (e - 1) as nat)
    } else if k == 0x100_0000 {
        lemma_pow2_unfold((e + 1) as nat);
        let mag = (e as int + 2) * 0x80_0000;
        let h = pow2(e) as int;
        assert(mag / 0x80_0000 == e + 2 && mag % 0x80_0000 == 0);
        assert(0x80_0000 * (2 * h) == 0x100_0000 * h) by (nonlinear_arith);
        assert(units32(mag) == 0x80_0000 * pow2((e + 1) as nat));
        mag
    } else {
        let mag = (e as int + 1) * 0x80_0000 + (k - 0x80_0000);
        assert(mag / 0x80_0000 == e + 1 && mag % 0x80_0000 == k - 0x80_0000);
        assert(units32(mag) == k * pow2(e));
        mag
    }
}

/// Magnitude that stands for `k` times two to the `e` units, binary64.
proof fn lemma_magnitude64(k: int, e: nat) -> (mag: int)
    requires
        0 <= k <= 0x20_0000_0000_0000,
        e <= 1992,
    ensures
        0 <= mag < 0x7FF0_0000_0000_0000,
        ieee::units64(mag) == k * pow2(e),
    decreases e,
{
    lemma2_to64();
    lemma2_to64_rest();
    if k == 0 {
        assert(0 * pow2(e) == 0) by (nonlinear_arith);
        0
    } else if e == 0 {
        assert(k * pow2(0) == k) by (nonlinear_arith)
            requires
                pow2(0) == 1,
        ;
        if k == 0x20_0000_0000_0000 {
            assert(pow2(1) == 2);
        } else if k >= 0x10_0000_0000_0000 {
            assert((0x10_0000_0000_0000 + k % 0x10_0000_0000_0000) * pow2(0) == k)
                by (nonlinear_arith)
                requires
                    pow2(0) == 1,
                    0x10_0000_0000_0000 <= k < 0x20_0000_0000_0000,
            ;
        }
        k
    } else if k < 0x10_0000_0000_0000 {
        lemma_pow2_unfold(e);
        let h = pow2((e - 1) as nat) as int;
        assert(k * (2 * h) == (2 * k) * h) by (nonlinear_arith);
        lemma_magnitude64(2 * k, (e - 1) as nat)
    } else if k == 0x20_0000_0000_0000 {
        lemma_pow2_unfold((e + 1) as nat);
        let mag = (e as int + 2) * 0x10_0000_0000_0000;
        let h = pow2(e) as int;
        assert(mag / 0x10_0000_0000_0000 == e + 2 && mag % 0x10_0000_0000_0000 == 0);
        assert(0x10_0000_0000_0000 * (2 * h) == 0x20_0000_0000_0000 * h) by (nonlinear_arith);
        assert(ieee::units64(mag) == 0x10_0000_0000_0000 * pow2((e + 1) as nat));
        mag
    } else {
        let mag = (e as int + 1) * 0x10_0000_0000_0000 + (k - 0x10_0000_0000_0000);
        assert(mag / 0x10_0000_0000_0000 == e + 1 && mag % 0x10_0000_0000_0000 == k - 0x10_0000_0000_0000);
        assert(ieee::units64(mag) == k * pow2(e));
        mag
    }
}

/// `k` steps of size `g`.
pub open spec fn scaled(k: int, g: real) -> real {
    k as real * g
}

/// Multiples of `g`, up to two to the twenty-fourth of them, have binary32 patterns.
pub open spec fn grid32(g: real) -> bool {
    forall|k: int| -0x100_0000 <= k <= 0x100_0000 ==> fits32(#[trigger] scaled(k, g))
}

/// Multiples of `g`, up to two to the fifty-third of them, have binary64 patterns.
pub open spec fn grid64(g: real) -> bool {
    forall|k: int|
        -0x20_0000_0000_0000 <= k <= 0x20_0000_0000_0000 ==> fits64(#[trigger] scaled(k, g))
}

/// Powers of two are the steps of such grids: `2^(e - 149)`.
pub proof fn lemma_powers_are_grids32(e: nat)
    requires
        e <= 229,
    ensures
        grid32(pow2(e) as real / pow2(149) as real),
{
    let g = pow2(e) as real / pow2(149) as real;
    lemma_pow2_pos(149);
    assert forall|k: int| -0x100_0000 <= k <= 0x100_0000 implies fits32(
        #[trigger] scaled(k, g),
    ) by {
        let (p, d) = (pow2(e) as real, pow2(149) as real);
        let a = if k < 0 {
            -k
        } else {
            k
        };
        let mag = lemma_magnitude32(a, e);
        let x = mag as u32;
        let z: u32 = if k < 0 {
            (x + 0x8000_0000) as u32
        } else {
            x
        };
        assert((a * pow2(e) as int) as real == a as real * p) by (nonlinear_arith)
            requires
                p == pow2(e) as real,
        ;
        assert((a as real * p) / d == a as real * (p / d)) by (nonlinear_arith)
            requires
                d > 0 as real,
        ;
        assert((-(a as real * p)) / d == -(a as real * (p / d))) by (nonlinear_arith)
            requires
                d > 0 as real,
        ;
        let b = a as real;
        assert((-b) * g == -(b * g)) by (nonlinear_arith);
        assert(ieee::magnitude32(z) == mag);
        assert(number32(z) == scaled(k, g));
    }
}

/// Powers of two are the steps of such grids: `2^(e - 1074)`.
pub proof fn lemma_powers_are_grids64(e: nat)
    requires
        e <= 1992,
    ensures
        grid64(pow2(e) as real / pow2(1074) as real),
{
    let g = pow2(e) as real / pow2(1074) as real;
    lemma_pow2_pos(1074);
    assert forall|k: int| -0x20_0000_0000_0000 <= k <= 0x20_0000_0000_0000 implies fits64(
        #[trigger] scaled(k, g),
    ) by {
        let (p, d) = (pow2(e) as real, pow2(1074) as real);
        let a = if k < 0 {
            -k
        } else {
            k
        };
        let mag = lemma_magnitude64(a, e);
        let x = mag as u64;
        let z: u64 = if k < 0 {
            (x + 0x8000_0000_0000_0000) as u64
        } else {
            x
        };
        assert((a * pow2(e) as int) as real == a as real * p) by (nonlinear_arith)
            requires
                p == pow2(e) as real,
        ;
        assert((a as real * p) / d == a as real * (p / d)) by (nonlinear_arith)
            requires
                d > 0 as real,
        ;
        assert((-(a as real * p)) / d == -(a as real * (p / d))) by (nonlinear_arith)
            requires
                d > 0 as real,
        ;
        let b = a as real;
        assert((-b) * g == -(b * g)) by (nonlinear_arith);
        assert(ieee::magnitude64(z) == mag);
        assert(number64(z) == scaled(k, g));
    }
}

/// Integers up to two to the twenty-fourth have binary32 patterns.
pub proof fn lemma_whole_fits32(k: int)
    requires
        -0x100_0000 <= k <= 0x100_0000,
    ensures
        fits32(k as real),
{
    lemma_powers_are_grids32(149);
    lemma_pow2_pos(149);
    let d = pow2(149) as real;
    assert(d / d == 1 as real) by (nonlinear_arith)
        requires
            d > 0 as real,
    ;
    assert(scaled(k, d / d) == k as real);
}

/// Integers up to two to the fifty-third have binary64 patterns.
pub proof fn lemma_whole_fits64(k: int)
    requires
        -0x20_0000_0000_0000 <= k <= 0x20_0000_0000_0000,
    ensures
        fits64(k as real),
{
    lemma_powers_are_grids64(1074);
    lemma_pow2_pos(1074);
    let d = pow2(1074) as real;
    assert(d / d == 1 as real) by (nonlinear_arith)
        requires
            d > 0 as real,
    ;
    assert(scaled(k, d / d) == k as real);
}

} // verus!
