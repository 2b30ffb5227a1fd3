//! IEEE-754 bit patterns.
//!
//! Floating-point values are held as their bit patterns: a `u32` is a binary32
//! value and a `u64` a binary64 value. What can be decided from the pattern
//! alone (classification, ordering, sign) is decided here, with integer
//! arithmetic; rounding operations live behind [`crate::arith::Arith`].
use vstd::prelude::*;
use vstd::arithmetic::power2::*;

verus! {

/// Positive zero and one, binary32.
pub const ZERO32: u32 = 0;

pub const ONE32: u32 = 0x3F80_0000;

/// Negative infinity, binary32.
pub const NEG_INF32: u32 = 0xFF80_0000;

/// Positive infinity, binary32.
pub const INF32: u32 = 0x7F80_0000;

/// The canonical NaN, binary32: quiet, positive, no payload.
pub const NAN32: u32 = 0x7FC0_0000;

/// The canonical NaN, binary64.
pub const NAN64: u64 = 0x7FF8_0000_0000_0000;

/// Positive zero and one, binary64.
pub const ZERO64: u64 = 0;

pub const ONE64: u64 = 0x3FF0_0000_0000_0000;

/// The pattern without its sign bit.
pub open spec fn magnitude32(x: u32) -> int {
    if x < 0x8000_0000 {
        x as int
    } else {
        x - 0x8000_0000
    }
}

/// Every exponent bit set and a non-zero fraction.
pub open spec fn nan32(x: u32) -> bool {
    magnitude32(x) > 0x7F80_0000
}

/// The pattern with all NaNs taken as one.
pub open spec fn canonical32(x: u32) -> u32 {
    if nan32(x) {
        NAN32
    } else {
        x
    }
}

/// Neither an infinity nor a NaN.
pub open spec fn finite32(x: u32) -> bool {
    magnitude32(x) < 0x7F80_0000
}

/// Position of a number on the line: IEEE-754 numbers are sign and magnitude, so
/// the signed magnitude orders them, and the two zeros share one position.
pub open spec fn key32(x: u32) -> int {
    if x < 0x8000_0000 {
        magnitude32(x)
    } else {
        -magnitude32(x)
    }
}

/// `x < y`; false as soon as one side is a NaN.
pub open spec fn less32(x: u32, y: u32) -> bool {
    !nan32(x) && !nan32(y) && key32(x) < key32(y)
}

/// `x <= y`; false as soon as one side is a NaN.
pub open spec fn at_most32(x: u32, y: u32) -> bool {
    !nan32(x) && !nan32(y) && key32(x) <= key32(y)
}

/// Sign flipped.
pub open spec fn negated32(x: u32) -> u32 {
    if x < 0x8000_0000 {
        (x + 0x8000_0000) as u32
    } else {
        (x - 0x8000_0000) as u32
    }
}

/// The pattern without its sign bit.
pub open spec fn magnitude64(x: u64) -> int {
    if x < 0x8000_0000_0000_0000 {
        x as int
    } else {
        x - 0x8000_0000_0000_0000
    }
}

/// Every exponent bit set and a non-zero fraction.
pub open spec fn nan64(x: u64) -> bool {
    magnitude64(x) > 0x7FF0_0000_0000_0000
}

/// The pattern with all NaNs taken as one.
pub open spec fn canonical64(x: u64) -> u64 {
    if nan64(x) {
        NAN64
    } else {
        x
    }
}

/// Neither an infinity nor a NaN.
pub open spec fn finite64(x: u64) -> bool {
    magnitude64(x) < 0x7FF0_0000_0000_0000
}

/// Position of a number on the line, as [`key32`].
pub open spec fn key64(x: u64) -> int {
    if x < 0x8000_0000_0000_0000 {
        magnitude64(x)
    } else {
        -magnitude64(x)
    }
}

/// `x < y`; false as soon as one side is a NaN.
pub open spec fn less64(x: u64, y: u64) -> bool {
    !nan64(x) && !nan64(y) && key64(x) < key64(y)
}

/// `x <= y`; false as soon as one side is a NaN.
pub open spec fn at_most64(x: u64, y: u64) -> bool {
    !nan64(x) && !nan64(y) && key64(x) <= key64(y)
}

/// `x == y` as numbers: the two zeros are equal, a NaN equals nothing.
pub open spec fn equal64(x: u64, y: u64) -> bool {
    !nan64(x) && !nan64(y) && key64(x) == key64(y)
}

/// Number that a magnitude stands for, in units of the smallest positive one,
/// `2^-1074`: below the first full exponent the fraction itself, from there on a
/// significand out of `2^52` times a power of two.
pub open spec fn units64(mag: int) -> int {
    if mag < 0x10_0000_0000_0000 {
        mag
    } else {
        (0x10_0000_0000_0000 + mag % 0x10_0000_0000_0000) * pow2(
            (mag / 0x10_0000_0000_0000 - 1) as nat,
        )
    }
}

/// Number that a finite pattern stands for, in units of `2^-1074`.
pub open spec fn value64(x: u64) -> int {
    if x < 0x8000_0000_0000_0000 {
        units64(magnitude64(x))
    } else {
        -units64(magnitude64(x))
    }
}

/// A larger magnitude stands for a larger number.
proof fn lemma_units_grow(a: int, b: int)
    requires
        0 <= a < b,
    ensures
        0 <= units64(a) < units64(b),
{
    let one: int = 0x10_0000_0000_0000;
    let (ea, eb) = (a / one, b / one);
    let (fa, fb) = (a % one, b % one);
    if b >= one {
        let tb = pow2((eb - 1) as nat) as int;
        lemma_pow2_pos((eb - 1) as nat);
        if a >= one {
            let ta = pow2((ea - 1) as nat) as int;
            lemma_pow2_pos((ea - 1) as nat);
            assert((one + fa) * ta >= 0) by (nonlinear_arith)
                requires
                    one + fa >= 0,
                    ta >= 0,
            ;
            if ea == eb {
                assert((one + fa) * ta < (one + fb) * ta) by (nonlinear_arith)
                    requires
                        fa < fb,
                        ta > 0,
                ;
            } else {
                lemma_pow2_unfold(ea as nat);
                let next = pow2(ea as nat) as int;
                if ea < eb - 1 {
                    lemma_pow2_strictly_increases(ea as nat, (eb - 1) as nat);
                }
                assert((one + fa) * ta < one * next) by (nonlinear_arith)
                    requires
                        next == 2 * ta,
                        fa < one,
                        ta > 0,
                ;
                assert(one * next <= (one + fb) * tb) by (nonlinear_arith)
                    requires
                        0 < next <= tb,
                        fb >= 0,
                        one > 0,
                ;
            }
        } else {
            assert((one + fb) * tb >= one) by (nonlinear_arith)
                requires
                    tb >= 1,
                    fb >= 0,
                    one > 0,
            ;
        }
    }
}

/// The order of finite patterns is the order of the numbers they stand for.
pub proof fn lemma_value_orders(x: u64, y: u64)
    requires
        finite64(x),
        finite64(y),
    ensures
        less64(x, y) <==> value64(x) < value64(y),
        at_most64(x, y) <==> value64(x) <= value64(y),
{
    let (a, b) = (magnitude64(x), magnitude64(y));
    if a < b {
        lemma_units_grow(a, b);
    } else if b < a {
        lemma_units_grow(b, a);
    }
    if a > 0 {
        lemma_units_grow(0, a);
    }
    if b > 0 {
        lemma_units_grow(0, b);
    }
}

/// Whether `x` is a NaN.
pub fn is_nan32(x: u32) -> (r: bool)
    ensures
        r == nan32(x),
{
    let mag: u32 = if x < 0x8000_0000 {
        x
    } else {
        x - 0x8000_0000
    };
    mag > 0x7F80_0000
}

/// The pattern with all NaNs taken as one.
pub fn canon32(x: u32) -> (r: u32)
    ensures
        r == canonical32(x),
{
    if is_nan32(x) {
        NAN32
    } else {
        x
    }
}

/// Whether `x` is neither an infinity nor a NaN.
pub fn is_finite32(x: u32) -> (r: bool)
    ensures
        r == finite32(x),
{
    let mag: u32 = if x < 0x8000_0000 {
        x
    } else {
        x - 0x8000_0000
    };
    mag < 0x7F80_0000
}

/// Signed magnitude.
fn signed32(x: u32) -> (r: i64)
    ensures
        r == key32(x),
{
    if x < 0x8000_0000 {
        x as i64
    } else {
        -((x - 0x8000_0000) as i64)
    }
}

/// `x < y`.
pub fn lt32(x: u32, y: u32) -> (r: bool)
    ensures
        r == less32(x, y),
{
    !is_nan32(x) && !is_nan32(y) && signed32(x) < signed32(y)
}

/// `x <= y`.
pub fn le32(x: u32, y: u32) -> (r: bool)
    ensures
        r == at_most32(x, y),
{
    !is_nan32(x) && !is_nan32(y) && signed32(x) <= signed32(y)
}

/// `-x`.
pub fn neg32(x: u32) -> (r: u32)
    ensures
        r == negated32(x),
{
    if x < 0x8000_0000 {
        x + 0x8000_0000
    } else {
        x - 0x8000_0000
    }
}

/// Whether `x` is a NaN.
pub fn is_nan64(x: u64) -> (r: bool)
    ensures
        r == nan64(x),
{
    let mag: u64 = if x < 0x8000_0000_0000_0000 {
        x
    } else {
        x - 0x8000_0000_0000_0000
    };
    mag > 0x7FF0_0000_0000_0000
}

/// The pattern with all NaNs taken as one.
pub fn canon64(x: u64) -> (r: u64)
    ensures
        r == canonical64(x),
{
    if is_nan64(x) {
        NAN64
    } else {
        x
    }
}

/// Whether `x` is neither an infinity nor a NaN.
pub fn is_finite64(x: u64) -> (r: bool)
    ensures
        r == finite64(x),
{
    let mag: u64 = if x < 0x8000_0000_0000_0000 {
        x
    } else {
        x - 0x8000_0000_0000_0000
    };
    mag < 0x7FF0_0000_0000_0000
}

/// Signed magnitude.
fn signed64(x: u64) -> (r: i64)
    ensures
        r == key64(x),
{
    if x < 0x8000_0000_0000_0000 {
        x as i64
    } else {
        -((x - 0x8000_0000_0000_0000) as i64)
    }
}

/// `x < y`.
pub fn lt64(x: u64, y: u64) -> (r: bool)
    ensures
        r == less64(x, y),
{
    !is_nan64(x) && !is_nan64(y) && signed64(x) < signed64(y)
}

/// `x <= y`.
pub fn le64(x: u64, y: u64) -> (r: bool)
    ensures
        r == at_most64(x, y),
{
    !is_nan64(x) && !is_nan64(y) && signed64(x) <= signed64(y)
}

/// `x == y`.
pub fn eq64(x: u64, y: u64) -> (r: bool)
    ensures
        r == equal64(x, y),
{
    !is_nan64(x) && !is_nan64(y) && signed64(x) == signed64(y)
}

} // verus!
