//! Rounding arithmetic, supplied from outside.
//!
//! The trackers are written against [`Arith`], the floating-point operations on
//! bit patterns. Nothing is assumed of an implementation: no method carries a
//! contract. Contracts that depend on what an operation returns speak of
//! [`deterministic`] arithmetic, in which an operation's result is a function of
//! its operands, and name that function ([`sum32`], [`product64`], ...). Which of its
//! patterns a NaN comes in is left to the implementation: the functions of this module
//! hand on the canonical one.
use vstd::prelude::*;
use crate::ieee;

verus! {

/// The floating-point operations of the trackers, on IEEE-754 bit patterns.
pub trait Arith {
    /// `x + y`, binary32.
    fn add32(&self, x: u32, y: u32) -> u32;

    /// `x - y`, binary32.
    fn sub32(&self, x: u32, y: u32) -> u32;

    /// `x * y`, binary32.
    fn mul32(&self, x: u32, y: u32) -> u32;

    /// `x / y`, binary32.
    fn div32(&self, x: u32, y: u32) -> u32;

    /// `x * y + z` with one rounding, binary32.
    fn fma32(&self, x: u32, y: u32, z: u32) -> u32;

    /// Square root, binary32.
    fn sqrt32(&self, x: u32) -> u32;

    /// Natural logarithm, binary32.
    fn ln32(&self, x: u32) -> u32;

    /// Exponential, binary32.
    fn exp32(&self, x: u32) -> u32;

    /// `2` raised to `x`, binary32.
    fn pow2_32(&self, x: u32) -> u32;

    /// Sine, binary32.
    fn sin32(&self, x: u32) -> u32;

    /// Cosine, binary32.
    fn cos32(&self, x: u32) -> u32;

    /// Nearest integral value, ties away from zero, binary32.
    fn round32(&self, x: u32) -> u32;

    /// The binary32 value nearest the integer `n`.
    fn from_int32(&self, n: u64) -> u32;

    /// The integer part of `x`, saturating; zero for a NaN.
    fn to_int32(&self, x: u32) -> u64;

    /// A binary32 value as binary64.
    fn widen(&self, x: u32) -> u64;

    /// `x + y`, binary64.
    fn add64(&self, x: u64, y: u64) -> u64;

    /// `x - y`, binary64.
    fn sub64(&self, x: u64, y: u64) -> u64;

    /// `x * y`, binary64.
    fn mul64(&self, x: u64, y: u64) -> u64;

    /// `x / y`, binary64.
    fn div64(&self, x: u64, y: u64) -> u64;

    /// Square root, binary64.
    fn sqrt64(&self, x: u64) -> u64;

    /// The binary64 value nearest the integer `n`.
    fn from_int64(&self, n: u64) -> u64;

    /// The binary32 value nearest a binary64 one.
    fn narrow(&self, x: u64) -> u32;

    /// A binary32 value as shortest decimal text.
    fn show32(&self, x: u32) -> String;

    /// A binary64 value as shortest decimal text.
    fn show64(&self, x: u64) -> String;
}

/// What [`Arith::add32`] returns, a NaN in its canonical pattern.
pub open spec fn sum32<A: Arith>(m: A, x: u32, y: u32) -> u32 {
    ieee::canonical32(choose|r: u32| call_ensures(A::add32, (&m, x, y), r))
}

/// What [`Arith::sub32`] returns, a NaN in its canonical pattern.
pub open spec fn difference32<A: Arith>(m: A, x: u32, y: u32) -> u32 {
    ieee::canonical32(choose|r: u32| call_ensures(A::sub32, (&m, x, y), r))
}

/// What [`Arith::mul32`] returns, a NaN in its canonical pattern.
pub open spec fn product32<A: Arith>(m: A, x: u32, y: u32) -> u32 {
    ieee::canonical32(choose|r: u32| call_ensures(A::mul32, (&m, x, y), r))
}

/// What [`Arith::div32`] returns, a NaN in its canonical pattern.
pub open spec fn quotient32<A: Arith>(m: A, x: u32, y: u32) -> u32 {
    ieee::canonical32(choose|r: u32| call_ensures(A::div32, (&m, x, y), r))
}

/// What [`Arith::fma32`] returns, a NaN in its canonical pattern.
pub open spec fn fused32<A: Arith>(m: A, x: u32, y: u32, z: u32) -> u32 {
    ieee::canonical32(choose|r: u32| call_ensures(A::fma32, (&m, x, y, z), r))
}

/// What [`Arith::sqrt32`] returns, a NaN in its canonical pattern.
pub open spec fn root32<A: Arith>(m: A, x: u32) -> u32 {
    ieee::canonical32(choose|r: u32| call_ensures(A::sqrt32, (&m, x), r))
}

/// What [`Arith::ln32`] returns, a NaN in its canonical pattern.
pub open spec fn log32<A: Arith>(m: A, x: u32) -> u32 {
    ieee::canonical32(choose|r: u32| call_ensures(A::ln32, (&m, x), r))
}

/// What [`Arith::exp32`] returns, a NaN in its canonical pattern.
pub open spec fn exponential32<A: Arith>(m: A, x: u32) -> u32 {
    ieee::canonical32(choose|r: u32| call_ensures(A::exp32, (&m, x), r))
}

/// What [`Arith::pow2_32`] returns, a NaN in its canonical pattern.
pub open spec fn power_of_two32<A: Arith>(m: A, x: u32) -> u32 {
    ieee::canonical32(choose|r: u32| call_ensures(A::pow2_32, (&m, x), r))
}

/// What [`Arith::sin32`] returns, a NaN in its canonical pattern.
pub open spec fn sine32<A: Arith>(m: A, x: u32) -> u32 {
    ieee::canonical32(choose|r: u32| call_ensures(A::sin32, (&m, x), r))
}

/// What [`Arith::cos32`] returns, a NaN in its canonical pattern.
pub open spec fn cosine32<A: Arith>(m: A, x: u32) -> u32 {
    ieee::canonical32(choose|r: u32| call_ensures(A::cos32, (&m, x), r))
}

/// What [`Arith::round32`] returns, a NaN in its canonical pattern.
pub open spec fn rounded32<A: Arith>(m: A, x: u32) -> u32 {
    ieee::canonical32(choose|r: u32| call_ensures(A::round32, (&m, x), r))
}

/// What [`Arith::from_int32`] returns, a NaN in its canonical pattern.
pub open spec fn of_int32<A: Arith>(m: A, n: u64) -> u32 {
    ieee::canonical32(choose|r: u32| call_ensures(A::from_int32, (&m, n), r))
}

/// What [`Arith::to_int32`] returns.
pub open spec fn int_of32<A: Arith>(m: A, x: u32) -> u64 {
    choose|r: u64| call_ensures(A::to_int32, (&m, x), r)
}

/// What [`Arith::widen`] returns, a NaN in its canonical pattern.
pub open spec fn widened<A: Arith>(m: A, x: u32) -> u64 {
    ieee::canonical64(choose|r: u64| call_ensures(A::widen, (&m, x), r))
}

/// What [`Arith::add64`] returns, a NaN in its canonical pattern.
pub open spec fn sum64<A: Arith>(m: A, x: u64, y: u64) -> u64 {
    ieee::canonical64(choose|r: u64| call_ensures(A::add64, (&m, x, y), r))
}

/// What [`Arith::sub64`] returns, a NaN in its canonical pattern.
pub open spec fn difference64<A: Arith>(m: A, x: u64, y: u64) -> u64 {
    ieee::canonical64(choose|r: u64| call_ensures(A::sub64, (&m, x, y), r))
}

/// What [`Arith::mul64`] returns, a NaN in its canonical pattern.
pub open spec fn product64<A: Arith>(m: A, x: u64, y: u64) -> u64 {
    ieee::canonical64(choose|r: u64| call_ensures(A::mul64, (&m, x, y), r))
}

/// What [`Arith::div64`] returns, a NaN in its canonical pattern.
pub open spec fn quotient64<A: Arith>(m: A, x: u64, y: u64) -> u64 {
    ieee::canonical64(choose|r: u64| call_ensures(A::div64, (&m, x, y), r))
}

/// What [`Arith::sqrt64`] returns, a NaN in its canonical pattern.
pub open spec fn root64<A: Arith>(m: A, x: u64) -> u64 {
    ieee::canonical64(choose|r: u64| call_ensures(A::sqrt64, (&m, x), r))
}

/// What [`Arith::from_int64`] returns, a NaN in its canonical pattern.
pub open spec fn of_int64<A: Arith>(m: A, n: u64) -> u64 {
    ieee::canonical64(choose|r: u64| call_ensures(A::from_int64, (&m, n), r))
}

/// What [`Arith::narrow`] returns, a NaN in its canonical pattern.
pub open spec fn narrowed<A: Arith>(m: A, x: u64) -> u32 {
    ieee::canonical32(choose|r: u32| call_ensures(A::narrow, (&m, x), r))
}

/// What [`Arith::show32`] returns.
pub open spec fn shown32<A: Arith>(m: A, x: u32) -> Seq<char> {
    (choose|r: String| call_ensures(A::show32, (&m, x), r))@
}

/// What [`Arith::show64`] returns.
pub open spec fn shown64<A: Arith>(m: A, x: u64) -> Seq<char> {
    (choose|r: String| call_ensures(A::show64, (&m, x), r))@
}

/// Every operation's result is a function of its operands, but for the pattern of a
/// NaN.
#[verifier::opaque]
pub open spec fn deterministic<A: Arith>(m: A) -> bool {
    &&& forall|x: u32, y: u32, a: u32, b: u32|
        #![trigger call_ensures(A::add32, (&m, x, y), a), call_ensures(A::add32, (&m, x, y), b)]
        call_ensures(A::add32, (&m, x, y), a) && call_ensures(A::add32, (&m, x, y), b)
            ==> ieee::canonical32(a) == ieee::canonical32(b)
    &&& forall|x: u32, y: u32, a: u32, b: u32|
        #![trigger call_ensures(A::sub32, (&m, x, y), a), call_ensures(A::sub32, (&m, x, y), b)]
        call_ensures(A::sub32, (&m, x, y), a) && call_ensures(A::sub32, (&m, x, y), b)
            ==> ieee::canonical32(a) == ieee::canonical32(b)
    &&& forall|x: u32, y: u32, a: u32, b: u32|
        #![trigger call_ensures(A::mul32, (&m, x, y), a), call_ensures(A::mul32, (&m, x, y), b)]
        call_ensures(A::mul32, (&m, x, y), a) && call_ensures(A::mul32, (&m, x, y), b)
            ==> ieee::canonical32(a) == ieee::canonical32(b)
    &&& forall|x: u32, y: u32, a: u32, b: u32|
        #![trigger call_ensures(A::div32, (&m, x, y), a), call_ensures(A::div32, (&m, x, y), b)]
        call_ensures(A::div32, (&m, x, y), a) && call_ensures(A::div32, (&m, x, y), b)
            ==> ieee::canonical32(a) == ieee::canonical32(b)
    &&& forall|x: u32, y: u32, z: u32, a: u32, b: u32|
        #![trigger call_ensures(A::fma32, (&m, x, y, z), a), call_ensures(A::fma32, (&m, x, y, z), b)]
        call_ensures(A::fma32, (&m, x, y, z), a) && call_ensures(A::fma32, (&m, x, y, z), b)
            ==> ieee::canonical32(a) == ieee::canonical32(b)
    &&& forall|x: u32, a: u32, b: u32|
        #![trigger call_ensures(A::sqrt32, (&m, x), a), call_ensures(A::sqrt32, (&m, x), b)]
        call_ensures(A::sqrt32, (&m, x), a) && call_ensures(A::sqrt32, (&m, x), b)
            ==> ieee::canonical32(a) == ieee::canonical32(b)
    &&& forall|x: u32, a: u32, b: u32|
        #![trigger call_ensures(A::ln32, (&m, x), a), call_ensures(A::ln32, (&m, x), b)]
        call_ensures(A::ln32, (&m, x), a) && call_ensures(A::ln32, (&m, x), b)
            ==> ieee::canonical32(a) == ieee::canonical32(b)
    &&& forall|x: u32, a: u32, b: u32|
        #![trigger call_ensures(A::exp32, (&m, x), a), call_ensures(A::exp32, (&m, x), b)]
        call_ensures(A::exp32, (&m, x), a) && call_ensures(A::exp32, (&m, x), b)
            ==> ieee::canonical32(a) == ieee::canonical32(b)
    &&& forall|x: u32, a: u32, b: u32|
        #![trigger call_ensures(A::pow2_32, (&m, x), a), call_ensures(A::pow2_32, (&m, x), b)]
        call_ensures(A::pow2_32, (&m, x), a) && call_ensures(A::pow2_32, (&m, x), b)
            ==> ieee::canonical32(a) == ieee::canonical32(b)
    &&& forall|x: u32, a: u32, b: u32|
        #![trigger call_ensures(A::sin32, (&m, x), a), call_ensures(A::sin32, (&m, x), b)]
        call_ensures(A::sin32, (&m, x), a) && call_ensures(A::sin32, (&m, x), b)
            ==> ieee::canonical32(a) == ieee::canonical32(b)
    &&& forall|x: u32, a: u32, b: u32|
        #![trigger call_ensures(A::cos32, (&m, x), a), call_ensures(A::cos32, (&m, x), b)]
        call_ensures(A::cos32, (&m, x), a) && call_ensures(A::cos32, (&m, x), b)
            ==> ieee::canonical32(a) == ieee::canonical32(b)
    &&& forall|x: u32, a: u32, b: u32|
        #![trigger call_ensures(A::round32, (&m, x), a), call_ensures(A::round32, (&m, x), b)]
        call_ensures(A::round32, (&m, x), a) && call_ensures(A::round32, (&m, x), b)
            ==> ieee::canonical32(a) == ieee::canonical32(b)
    &&& forall|n: u64, a: u32, b: u32|
        #![trigger call_ensures(A::from_int32, (&m, n), a), call_ensures(A::from_int32, (&m, n), b)]
        call_ensures(A::from_int32, (&m, n), a) && call_ensures(A::from_int32, (&m, n), b)
            ==> ieee::canonical32(a) == ieee::canonical32(b)
    &&& forall|x: u32, a: u64, b: u64|
        #![trigger call_ensures(A::to_int32, (&m, x), a), call_ensures(A::to_int32, (&m, x), b)]
        call_ensures(A::to_int32, (&m, x), a) && call_ensures(A::to_int32, (&m, x), b) ==> a == b
    &&& forall|x: u32, a: u64, b: u64|
        #![trigger call_ensures(A::widen, (&m, x), a), call_ensures(A::widen, (&m, x), b)]
        call_ensures(A::widen, (&m, x), a) && call_ensures(A::widen, (&m, x), b)
            ==> ieee::canonical64(a) == ieee::canonical64(b)
    &&& forall|x: u64, y: u64, a: u64, b: u64|
        #![trigger call_ensures(A::add64, (&m, x, y), a), call_ensures(A::add64, (&m, x, y), b)]
        call_ensures(A::add64, (&m, x, y), a) && call_ensures(A::add64, (&m, x, y), b)
            ==> ieee::canonical64(a) == ieee::canonical64(b)
    &&& forall|x: u64, y: u64, a: u64, b: u64|
        #![trigger call_ensures(A::sub64, (&m, x, y), a), call_ensures(A::sub64, (&m, x, y), b)]
        call_ensures(A::sub64, (&m, x, y), a) && call_ensures(A::sub64, (&m, x, y), b)
            ==> ieee::canonical64(a) == ieee::canonical64(b)
    &&& forall|x: u64, y: u64, a: u64, b: u64|
        #![trigger call_ensures(A::mul64, (&m, x, y), a), call_ensures(A::mul64, (&m, x, y), b)]
        call_ensures(A::mul64, (&m, x, y), a) && call_ensures(A::mul64, (&m, x, y), b)
            ==> ieee::canonical64(a) == ieee::canonical64(b)
    &&& forall|x: u64, y: u64, a: u64, b: u64|
        #![trigger call_ensures(A::div64, (&m, x, y), a), call_ensures(A::div64, (&m, x, y), b)]
        call_ensures(A::div64, (&m, x, y), a) && call_ensures(A::div64, (&m, x, y), b)
            ==> ieee::canonical64(a) == ieee::canonical64(b)
    &&& forall|x: u64, a: u64, b: u64|
        #![trigger call_ensures(A::sqrt64, (&m, x), a), call_ensures(A::sqrt64, (&m, x), b)]
        call_ensures(A::sqrt64, (&m, x), a) && call_ensures(A::sqrt64, (&m, x), b)
            ==> ieee::canonical64(a) == ieee::canonical64(b)
    &&& forall|n: u64, a: u64, b: u64|
        #![trigger call_ensures(A::from_int64, (&m, n), a), call_ensures(A::from_int64, (&m, n), b)]
        call_ensures(A::from_int64, (&m, n), a) && call_ensures(A::from_int64, (&m, n), b)
            ==> ieee::canonical64(a) == ieee::canonical64(b)
    &&& forall|x: u64, a: u32, b: u32|
        #![trigger call_ensures(A::narrow, (&m, x), a), call_ensures(A::narrow, (&m, x), b)]
        call_ensures(A::narrow, (&m, x), a) && call_ensures(A::narrow, (&m, x), b)
            ==> ieee::canonical32(a) == ieee::canonical32(b)
    &&& forall|x: u32, a: String, b: String|
        #![trigger call_ensures(A::show32, (&m, x), a), call_ensures(A::show32, (&m, x), b)]
        call_ensures(A::show32, (&m, x), a) && call_ensures(A::show32, (&m, x), b) ==> a@ == b@
    &&& forall|x: u64, a: String, b: String|
        #![trigger call_ensures(A::show64, (&m, x), a), call_ensures(A::show64, (&m, x), b)]
        call_ensures(A::show64, (&m, x), a) && call_ensures(A::show64, (&m, x), b) ==> a@ == b@
}

// ---------------------------------------------------------------------------
// Results that do not round
// ---------------------------------------------------------------------------

/// `x + y` is finite and does not round.
pub open spec fn exact_sum64<A: Arith>(m: A, x: u64, y: u64) -> bool {
    &&& ieee::finite64(sum64(m, x, y))
    &&& ieee::value64(sum64(m, x, y)) == ieee::value64(x) + ieee::value64(y)
}

/// `x - y` is finite and does not round.
pub open spec fn exact_difference64<A: Arith>(m: A, x: u64, y: u64) -> bool {
    &&& ieee::finite64(difference64(m, x, y))
    &&& ieee::value64(difference64(m, x, y)) == ieee::value64(x) - ieee::value64(y)
}

/// `x * y` is finite and does not round.
pub open spec fn exact_product64<A: Arith>(m: A, x: u64, y: u64) -> bool {
    &&& ieee::finite64(product64(m, x, y))
    &&& ieee::value64(product64(m, x, y)) * ieee::value64(ieee::ONE64) == ieee::value64(x)
        * ieee::value64(y)
}

/// `x / y` is finite and does not round.
pub open spec fn exact_quotient64<A: Arith>(m: A, x: u64, y: u64) -> bool {
    &&& ieee::finite64(quotient64(m, x, y))
    &&& ieee::value64(quotient64(m, x, y)) * ieee::value64(y) == ieee::value64(x)
        * ieee::value64(ieee::ONE64)
}

/// The integer `n` converts without rounding.
pub open spec fn exact_int64<A: Arith>(m: A, n: u64) -> bool {
    &&& ieee::finite64(of_int64(m, n))
    &&& ieee::value64(of_int64(m, n)) == n * ieee::value64(ieee::ONE64)
}

// ---------------------------------------------------------------------------
// The operations
// ---------------------------------------------------------------------------

/// `x + y`, binary32.
pub fn add32<A: Arith>(m: &A, x: u32, y: u32) -> (r: u32)
    ensures
        deterministic(*m) ==> r == sum32(*m, x, y),
{
    let r = m.add32(x, y);
    assert(call_ensures(A::add32, (m, x, y), r));
    proof {
        reveal(deterministic);
    }
    ieee::canon32(r)
}

/// `x - y`, binary32.
pub fn sub32<A: Arith>(m: &A, x: u32, y: u32) -> (r: u32)
    ensures
        deterministic(*m) ==> r == difference32(*m, x, y),
{
    let r = m.sub32(x, y);
    assert(call_ensures(A::sub32, (m, x, y), r));
    proof {
        reveal(deterministic);
    }
    ieee::canon32(r)
}

/// `x * y`, binary32.
pub fn mul32<A: Arith>(m: &A, x: u32, y: u32) -> (r: u32)
    ensures
        deterministic(*m) ==> r == product32(*m, x, y),
{
    let r = m.mul32(x, y);
    assert(call_ensures(A::mul32, (m, x, y), r));
    proof {
        reveal(deterministic);
    }
    ieee::canon32(r)
}

/// `x / y`, binary32.
pub fn div32<A: Arith>(m: &A, x: u32, y: u32) -> (r: u32)
    ensures
        deterministic(*m) ==> r == quotient32(*m, x, y),
{
    let r = m.div32(x, y);
    assert(call_ensures(A::div32, (m, x, y), r));
    proof {
        reveal(deterministic);
    }
    ieee::canon32(r)
}

/// `x * y + z` with one rounding, binary32.
pub fn fma32<A: Arith>(m: &A, x: u32, y: u32, z: u32) -> (r: u32)
    ensures
        deterministic(*m) ==> r == fused32(*m, x, y, z),
{
    let r = m.fma32(x, y, z);
    assert(call_ensures(A::fma32, (m, x, y, z), r));
    proof {
        reveal(deterministic);
    }
    ieee::canon32(r)
}

/// Square root, binary32.
pub fn sqrt32<A: Arith>(m: &A, x: u32) -> (r: u32)
    ensures
        deterministic(*m) ==> r == root32(*m, x),
{
    let r = m.sqrt32(x);
    assert(call_ensures(A::sqrt32, (m, x), r));
    proof {
        reveal(deterministic);
    }
    ieee::canon32(r)
}

/// Natural logarithm, binary32.
pub fn ln32<A: Arith>(m: &A, x: u32) -> (r: u32)
    ensures
        deterministic(*m) ==> r == log32(*m, x),
{
    let r = m.ln32(x);
    assert(call_ensures(A::ln32, (m, x), r));
    proof {
        reveal(deterministic);
    }
    ieee::canon32(r)
}

/// Exponential, binary32.
pub fn exp32<A: Arith>(m: &A, x: u32) -> (r: u32)
    ensures
        deterministic(*m) ==> r == exponential32(*m, x),
{
    let r = m.exp32(x);
    assert(call_ensures(A::exp32, (m, x), r));
    proof {
        reveal(deterministic);
    }
    ieee::canon32(r)
}

/// `2` raised to `x`, binary32.
pub fn pow2_32<A: Arith>(m: &A, x: u32) -> (r: u32)
    ensures
        deterministic(*m) ==> r == power_of_two32(*m, x),
{
    let r = m.pow2_32(x);
    assert(call_ensures(A::pow2_32, (m, x), r));
    proof {
        reveal(deterministic);
    }
    ieee::canon32(r)
}

/// Sine, binary32.
pub fn sin32<A: Arith>(m: &A, x: u32) -> (r: u32)
    ensures
        deterministic(*m) ==> r == sine32(*m, x),
{
    let r = m.sin32(x);
    assert(call_ensures(A::sin32, (m, x), r));
    proof {
        reveal(deterministic);
    }
    ieee::canon32(r)
}

/// Cosine, binary32.
pub fn cos32<A: Arith>(m: &A, x: u32) -> (r: u32)
    ensures
        deterministic(*m) ==> r == cosine32(*m, x),
{
    let r = m.cos32(x);
    assert(call_ensures(A::cos32, (m, x), r));
    proof {
        reveal(deterministic);
    }
    ieee::canon32(r)
}

/// Nearest integral value, ties away from zero, binary32.
pub fn round32<A: Arith>(m: &A, x: u32) -> (r: u32)
    ensures
        deterministic(*m) ==> r == rounded32(*m, x),
{
    let r = m.round32(x);
    assert(call_ensures(A::round32, (m, x), r));
    proof {
        reveal(deterministic);
    }
    ieee::canon32(r)
}

/// The binary32 value nearest the integer `n`.
pub fn from_int32<A: Arith>(m: &A, n: u64) -> (r: u32)
    ensures
        deterministic(*m) ==> r == of_int32(*m, n),
{
    let r = m.from_int32(n);
    assert(call_ensures(A::from_int32, (m, n), r));
    proof {
        reveal(deterministic);
    }
    ieee::canon32(r)
}

/// The integer part of `x`, saturating; zero for a NaN.
pub fn to_int32<A: Arith>(m: &A, x: u32) -> (r: u64)
    ensures
        deterministic(*m) ==> r == int_of32(*m, x),
{
    let r = m.to_int32(x);
    assert(call_ensures(A::to_int32, (m, x), r));
    proof {
        reveal(deterministic);
    }
    r
}

/// A binary32 value as binary64.
pub fn widen<A: Arith>(m: &A, x: u32) -> (r: u64)
    ensures
        deterministic(*m) ==> r == widened(*m, x),
{
    let r = m.widen(x);
    assert(call_ensures(A::widen, (m, x), r));
    proof {
        reveal(deterministic);
    }
    ieee::canon64(r)
}

/// `x + y`, binary64.
pub fn add64<A: Arith>(m: &A, x: u64, y: u64) -> (r: u64)
    ensures
        deterministic(*m) ==> r == sum64(*m, x, y),
{
    let r = m.add64(x, y);
    assert(call_ensures(A::add64, (m, x, y), r));
    proof {
        reveal(deterministic);
    }
    ieee::canon64(r)
}

/// `x - y`, binary64.
pub fn sub64<A: Arith>(m: &A, x: u64, y: u64) -> (r: u64)
    ensures
        deterministic(*m) ==> r == difference64(*m, x, y),
{
    let r = m.sub64(x, y);
    assert(call_ensures(A::sub64, (m, x, y), r));
    proof {
        reveal(deterministic);
    }
    ieee::canon64(r)
}

/// `x * y`, binary64.
pub fn mul64<A: Arith>(m: &A, x: u64, y: u64) -> (r: u64)
    ensures
        deterministic(*m) ==> r == product64(*m, x, y),
{
    let r = m.mul64(x, y);
    assert(call_ensures(A::mul64, (m, x, y), r));
    proof {
        reveal(deterministic);
    }
    ieee::canon64(r)
}

/// `x / y`, binary64.
pub fn div64<A: Arith>(m: &A, x: u64, y: u64) -> (r: u64)
    ensures
        deterministic(*m) ==> r == quotient64(*m, x, y),
{
    let r = m.div64(x, y);
    assert(call_ensures(A::div64, (m, x, y), r));
    proof {
        reveal(deterministic);
    }
    ieee::canon64(r)
}

/// Square root, binary64.
pub fn sqrt64<A: Arith>(m: &A, x: u64) -> (r: u64)
    ensures
        deterministic(*m) ==> r == root64(*m, x),
{
    let r = m.sqrt64(x);
    assert(call_ensures(A::sqrt64, (m, x), r));
    proof {
        reveal(deterministic);
    }
    ieee::canon64(r)
}

/// The binary64 value nearest the integer `n`.
pub fn from_int64<A: Arith>(m: &A, n: u64) -> (r: u64)
    ensures
        deterministic(*m) ==> r == of_int64(*m, n),
{
    let r = m.from_int64(n);
    assert(call_ensures(A::from_int64, (m, n), r));
    proof {
        reveal(deterministic);
    }
    ieee::canon64(r)
}

/// The binary32 value nearest a binary64 one.
pub fn narrow<A: Arith>(m: &A, x: u64) -> (r: u32)
    ensures
        deterministic(*m) ==> r == narrowed(*m, x),
{
    let r = m.narrow(x);
    assert(call_ensures(A::narrow, (m, x), r));
    proof {
        reveal(deterministic);
    }
    ieee::canon32(r)
}

/// A binary32 value as shortest decimal text.
pub fn show32<A: Arith>(m: &A, x: u32) -> (r: String)
    ensures
        deterministic(*m) ==> r@ == shown32(*m, x),
{
    let r = m.show32(x);
    assert(call_ensures(A::show32, (m, x), r));
    proof {
        reveal(deterministic);
    }
    r
}

/// A binary64 value as shortest decimal text.
pub fn show64<A: Arith>(m: &A, x: u64) -> (r: String)
    ensures
        deterministic(*m) ==> r@ == shown64(*m, x),
{
    let r = m.show64(x);
    assert(call_ensures(A::show64, (m, x), r));
    proof {
        reveal(deterministic);
    }
    r
}

} // verus!
