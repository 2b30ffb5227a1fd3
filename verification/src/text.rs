//! Decimal text.
use vstd::prelude::*;
use vstd::arithmetic::power::*;
use vstd::arithmetic::power2::*;
use vstd::string::*;
use crate::decimal;
use crate::ieee;

verus! {

/// The decimal digit `d`.
pub open spec fn digit(d: int) -> char {
    (48 + d) as char
}

/// `n` in decimal, without leading zeros.
pub open spec fn decimal(n: nat) -> Seq<char>
    decreases n,
{
    if n < 10 {
        seq![digit(n as int)]
    } else {
        decimal(n / 10).push(digit((n % 10) as int))
    }
}

/// Appends the digit `d`.
fn push_digit(s: &mut String, d: u64)
    requires
        d < 10,
    ensures
        final(s)@ == old(s)@.push(digit(d as int)),
{
    proof {
        reveal_strlit("0");
        reveal_strlit("1");
        reveal_strlit("2");
        reveal_strlit("3");
        reveal_strlit("4");
        reveal_strlit("5");
        reveal_strlit("6");
        reveal_strlit("7");
        reveal_strlit("8");
        reveal_strlit("9");
    }
    let t: &str = if d == 0 {
        "0"
    } else if d == 1 {
        "1"
    } else if d == 2 {
        "2"
    } else if d == 3 {
        "3"
    } else if d == 4 {
        "4"
    } else if d == 5 {
        "5"
    } else if d == 6 {
        "6"
    } else if d == 7 {
        "7"
    } else if d == 8 {
        "8"
    } else {
        "9"
    };
    assert(t@ =~= seq![digit(d as int)]);
    s.append(t);
    assert(s@ =~= old(s)@.push(digit(d as int)));
}

/// Appends `n` in decimal.
pub fn push_decimal(s: &mut String, n: u64)
    ensures
        final(s)@ == old(s)@ + decimal(n as nat),
    decreases n,
{
    if n < 10 {
        push_digit(s, n);
        assert(s@ =~= old(s)@ + decimal(n as nat));
    } else {
        push_decimal(s, n / 10);
        push_digit(s, n % 10);
        assert(s@ =~= old(s)@ + decimal(n as nat));
    }
}

/// Different numbers have different decimals.
pub proof fn lemma_decimal_injective(a: nat, b: nat)
    requires
        decimal(a) == decimal(b),
    ensures
        a == b,
    decreases a,
{
    lemma_decimal_length(a);
    lemma_decimal_length(b);
    let (x, y) = (decimal(a), decimal(b));
    assert(x.last() == y.last());
    if a >= 10 && b >= 10 {
        assert(x.drop_last() =~= decimal(a / 10));
        assert(y.drop_last() =~= decimal(b / 10));
        lemma_decimal_injective(a / 10, b / 10);
    }
}

proof fn lemma_decimal_length(n: nat)
    ensures
        decimal(n).len() >= 1,
        n >= 10 ==> decimal(n).len() >= 2,
        n < 10 ==> decimal(n).len() == 1,
    decreases n,
{
    if n >= 10 {
        lemma_decimal_length(n / 10);
    }
}

// ---------------------------------------------------------------------------
// Numbers from text
// ---------------------------------------------------------------------------

/// Whether `c` is a decimal digit.
pub open spec fn is_digit(c: char) -> bool {
    48 <= c as int <= 57
}

/// Number that a run of digits stands for.
pub open spec fn value_of(s: Seq<char>) -> nat
    decreases s.len(),
{
    if s.len() == 0 {
        0
    } else {
        value_of(s.drop_last()) * 10 + (s.last() as int - 48) as nat
    }
}

/// The digits of a number: what follows an optional plus sign.
pub open spec fn digits_of(s: Seq<char>) -> Seq<char> {
    if s.len() > 0 && s[0] == '+' {
        s.skip(1)
    } else {
        s
    }
}

/// Number that a text stands for: an optional plus sign and at least one digit,
/// nothing else, and a value of at most `max`.
pub open spec fn parsed(s: Seq<char>, max: nat) -> Option<nat> {
    let d = digits_of(s);
    if d.len() > 0 && (forall|i: int| 0 <= i < d.len() ==> is_digit(#[trigger] d[i])) && value_of(d)
        <= max {
        Some(value_of(d))
    } else {
        None
    }
}

/// Number that a text stands for, if it is at most `max`.
pub fn parse_number(s: &str, max: u64) -> (r: Option<u64>)
    ensures
        match parsed(s@, max as nat) {
            Some(v) => r == Some(v as u64),
            None => r is None,
        },
{
    let n = s.unicode_len();
    let start: usize = if n > 0 && s.get_char(0) == '+' {
        1
    } else {
        0
    };
    let ghost d = digits_of(s@);
    assert(d =~= s@.skip(start as int));
    if start >= n {
        return None;
    }
    let mut v: u64 = 0;
    let mut i: usize = start;
    while i < n
        invariant
            start <= i <= n,
            start < n,
            n == s@.len(),
            d == digits_of(s@),
            d == s@.skip(start as int),
            v <= max,
            v == value_of(d.take(i - start)),
            forall|j: int| 0 <= j < i - start ==> is_digit(#[trigger] d[j]),
        decreases n - i,
    {
        let c = s.get_char(i);
        let ghost k = i - start;
        assert(d[k] == c);
        let code: u32 = c as u32;
        if code < 48 || code > 57 {
            assert(!is_digit(d[k]));
            return None;
        }
        let x: u64 = (code - 48) as u64;
        proof {
            assert(d.take(k + 1).drop_last() =~= d.take(k));
            assert(value_of(d.take(k + 1)) == v * 10 + x);
            lemma_value_grows(d, k + 1, d.len() as int);
            assert(d.take(d.len() as int) =~= d);
        }
        if v > max / 10 || x > max - v * 10 {
            proof {
                if forall|j: int| 0 <= j < d.len() ==> is_digit(#[trigger] d[j]) {
                    assert(value_of(d) >= v * 10 + x);
                }
                assert(v > max / 10 ==> v * 10 > max);
            }
            return None;
        }
        v = v * 10 + x;
        i = i + 1;
    }
    assert(d.take(n - start) =~= d);
    Some(v)
}

/// More digits never make a smaller number.
proof fn lemma_value_grows(d: Seq<char>, i: int, j: int)
    requires
        0 <= i <= j <= d.len(),
    ensures
        (forall|k: int| 0 <= k < d.len() ==> is_digit(#[trigger] d[k])) ==> value_of(d.take(i))
            <= value_of(d.take(j)),
    decreases j - i,
{
    if i < j {
        lemma_value_grows(d, i, j - 1);
        assert(d.take(j).drop_last() =~= d.take(j - 1));
        assert(d.take(j).last() == d[j - 1]);
    }
}

/// A number survives being written and read.
pub proof fn lemma_parse_reads_decimals(n: nat, max: nat)
    requires
        n <= max,
    ensures
        parsed(decimal(n), max) == Some(n),
{
    lemma_decimal_value(n);
    let d = decimal(n);
    assert(is_digit(d[0]));
    assert(digits_of(d) == d);
}

proof fn lemma_decimal_value(n: nat)
    ensures
        decimal(n).len() > 0,
        value_of(decimal(n)) == n,
        forall|i: int| 0 <= i < decimal(n).len() ==> is_digit(#[trigger] decimal(n)[i]),
    decreases n,
{
    if n < 10 {
        let d = decimal(n);
        assert(d.drop_last() =~= Seq::<char>::empty());
        assert(value_of(d.drop_last()) == 0);
    } else {
        lemma_decimal_value(n / 10);
        let d = decimal(n);
        assert(d.drop_last() =~= decimal(n / 10));
        assert forall|i: int| 0 <= i < d.len() implies is_digit(#[trigger] d[i]) by {
            if i < d.len() - 1 {
                assert(d[i] == decimal(n / 10)[i]);
            }
        }
    }
}

// ---------------------------------------------------------------------------
// Floats as text
// ---------------------------------------------------------------------------

/// The integer that a binary32 pattern stands for, if it is one and its magnitude
/// is below a million.
pub open spec fn whole(x: u32) -> Option<int> {
    let n = decimal::numerator(x) as int;
    let d = decimal::denominator(x) as int;
    if n % d == 0 && n / d < 1_000_000 {
        Some(
            if x < 0x8000_0000 {
                n / d
            } else {
                -(n / d)
            },
        )
    } else {
        None
    }
}

/// Patterns that do not stand for an integer of the range: fractions, and what is at
/// least two to the twenty-third.
proof fn lemma_not_whole(x: u32)
    requires
        ieee::magnitude32(x) > 0,
        decimal::exponent(x) <= -24 || decimal::exponent(x) > 0,
    ensures
        whole(x) is None,
{
    let (n, d) = (decimal::numerator(x) as int, decimal::denominator(x) as int);
    let e = decimal::exponent(x);
    lemma2_to64();
    if e > 0 {
        let (sig, t) = (decimal::significand(x) as int, pow2(e as nat) as int);
        lemma_pow2_pos(e as nat);
        assert(sig * t >= sig) by (nonlinear_arith)
            requires
                sig >= 0,
                t >= 1,
        ;
    } else {
        if e < -24 {
            lemma_pow2_strictly_increases(24, (-e) as nat);
        }
        assert(n % d == n) by (nonlinear_arith)
            requires
                0 < n < d,
        ;
    }
}

/// Both zeros stand for zero.
proof fn lemma_zero_is_whole(x: u32)
    requires
        ieee::magnitude32(x) == 0,
    ensures
        whole(x) == Some(0int),
{
    lemma_pow2_pos(149);
    let d = pow2(149) as int;
    assert(0int % d == 0 && 0int / d == 0) by (nonlinear_arith)
        requires
            d > 0,
    ;
}

/// The integer that a binary32 pattern stands for, as sign and magnitude.
fn to_whole(x: u32) -> (r: Option<(bool, u64)>)
    ensures
        match r {
            None => whole(x) is None,
            Some((negative, q)) => {
                &&& whole(x) == Some(
                    if negative {
                        -(q as int)
                    } else {
                        q as int
                    },
                )
                &&& negative == (x >= 0x8000_0000)
            },
        },
{
    let mag: u32 = if x < 0x8000_0000 {
        x
    } else {
        x - 0x8000_0000
    };
    if mag == 0 {
        proof {
            lemma_zero_is_whole(x);
        }
        return Some((x >= 0x8000_0000, 0));
    }
    let biased: u32 = mag / 0x80_0000;
    if biased < 127 || biased > 150 {
        proof {
            lemma_not_whole(x);
        }
        return None;
    }
    let sig: u32 = 0x80_0000 + mag % 0x80_0000;
    let shift: u32 = 150 - biased;
    let mut unit: u32 = 1;
    let mut k: u32 = 0;
    proof {
        lemma2_to64();
    }
    while k < shift
        invariant
            k <= shift <= 23,
            unit == pow2(k as nat),
            1 <= unit <= 0x80_0000,
            pow2(23) == 0x80_0000,
        decreases shift - k,
    {
        proof {
            lemma_pow2_unfold((k + 1) as nat);
            if k + 1 < 23 {
                lemma_pow2_strictly_increases((k + 1) as nat, 23);
            }
        }
        unit = unit * 2;
        k = k + 1;
    }
    proof {
        assert(pow2(0) == 1);
        assert(decimal::exponent(x) == -(shift as int));
        assert(sig as nat * pow2(0) == sig) by (nonlinear_arith)
            requires
                pow2(0) == 1,
        ;
        assert(decimal::numerator(x) == sig && decimal::denominator(x) == unit);
    }
    let q: u32 = sig / unit;
    if sig % unit != 0 || q >= 1_000_000 {
        return None;
    }
    proof {
        let (a, b) = (sig as int, unit as int);
        assert(a / b > 0) by (nonlinear_arith)
            requires
                a >= b,
                b > 0,
        ;
    }
    Some((x >= 0x8000_0000, q as u64))
}

/// The sign of a binary32 pattern: a minus where its sign bit is set.
pub open spec fn sign_text(x: u32) -> Seq<char> {
    if x >= 0x8000_0000 {
        seq!['-']
    } else {
        Seq::empty()
    }
}

/// The magnitude of an integer.
pub open spec fn absolute(n: int) -> nat {
    if n < 0 {
        (-n) as nat
    } else {
        n as nat
    }
}

/// Digits as text.
pub open spec fn figures_text(f: Seq<u64>) -> Seq<char> {
    f.map_values(|d: u64| digit(d as int))
}

/// The last six decimal digits of `d`.
pub open spec fn figures(d: u32) -> Seq<u64> {
    seq![
        (d / 100_000 % 10) as u64,
        (d / 10_000 % 10) as u64,
        (d / 1_000 % 10) as u64,
        (d / 100 % 10) as u64,
        (d / 10 % 10) as u64,
        (d % 10) as u64,
    ]
}

/// Number of digits that are left without the zeros at the end.
pub open spec fn significant(f: Seq<u64>) -> int
    decreases f.len(),
{
    if f.len() == 0 || f.last() != 0 {
        f.len() as int
    } else {
        significant(f.drop_last())
    }
}

/// Digits behind the point, the point included: nothing where all of them are zero,
/// and none of the zeros at the end.
pub open spec fn fraction_text(f: Seq<u64>) -> Seq<char> {
    if significant(f) == 0 {
        Seq::empty()
    } else {
        seq!['.'] + figures_text(f.take(significant(f)))
    }
}

/// An exponent: its sign, and at least two digits.
pub open spec fn exponent_text(e: int) -> Seq<char> {
    seq!['e'] + (if e < 0 {
        seq!['-']
    } else {
        seq!['+']
    }) + (if absolute(e) < 10 {
        seq!['0']
    } else {
        Seq::empty()
    }) + decimal(absolute(e))
}

/// Six significant digits `d`, the first of which stands for tens to the `e`, as `%g`
/// prints them: in full for exponents from `-4` to `5`, else with an exponent.
pub open spec fn general_text(d: u32, e: int) -> Seq<char> {
    let f = figures(d);
    if 0 <= e < 6 {
        figures_text(f.take(e + 1)) + fraction_text(f.skip(e + 1))
    } else if -4 <= e < 0 {
        seq!['0'] + fraction_text(Seq::new((-e - 1) as nat, |i: int| 0u64) + f)
    } else {
        figures_text(f.take(1)) + fraction_text(f.skip(1)) + exponent_text(e)
    }
}

/// A scale as `%g` prints it: at most six significant digits, no zeros at the end of a
/// fraction, and an exponent where the number is very large or very small.
pub open spec fn scale_text(v: u32) -> Seq<char> {
    match whole(v) {
        Some(n) => sign_text(v) + decimal(absolute(n)),
        None => if ieee::nan32(v) {
            "nan"@
        } else if !ieee::finite32(v) {
            sign_text(v) + "inf"@
        } else {
            let (d, e) = decimal::six(decimal::numerator(v), decimal::denominator(v));
            sign_text(v) + general_text(d as u32, e)
        },
    }
}

/// Number that a run of digits stands for.
spec fn worth(f: Seq<u64>) -> int
    decreases f.len(),
{
    if f.len() == 0 {
        0
    } else {
        worth(f.drop_last()) * 10 + f.last()
    }
}

proof fn lemma_worth(f: Seq<u64>)
    requires
        forall|i: int| 0 <= i < f.len() ==> #[trigger] f[i] < 10,
    ensures
        value_of(figures_text(f)) == worth(f),
        forall|i: int| 0 <= i < f.len() ==> is_digit(#[trigger] figures_text(f)[i]),
        worth(f) >= 0,
    decreases f.len(),
{
    if f.len() > 0 {
        let g = f.drop_last();
        assert forall|i: int| 0 <= i < g.len() implies #[trigger] g[i] < 10 by {
            assert(f[i] < 10);
        }
        lemma_worth(g);
        assert(f[f.len() - 1] < 10);
        assert(figures_text(f).drop_last() =~= figures_text(g));
        assert(figures_text(f).last() == digit(f.last() as int));
        assert forall|i: int| 0 <= i < f.len() implies is_digit(#[trigger] figures_text(f)[i]) by {
            assert(f[i] < 10);
        }
    }
}

/// Six digits stand for the number they are taken from.
proof fn lemma_figures(d: u32)
    requires
        d <= 999_999,
    ensures
        worth(figures(d)) == d,
        forall|i: int| 0 <= i < 6 ==> #[trigger] figures(d)[i] < 10,
{
    let f = figures(d);
    assert(f.drop_last() =~= seq![f[0], f[1], f[2], f[3], f[4]]);
    let f5 = seq![f[0], f[1], f[2], f[3], f[4]];
    assert(f5.drop_last() =~= seq![f[0], f[1], f[2], f[3]]);
    let f4 = seq![f[0], f[1], f[2], f[3]];
    assert(f4.drop_last() =~= seq![f[0], f[1], f[2]]);
    let f3 = seq![f[0], f[1], f[2]];
    assert(f3.drop_last() =~= seq![f[0], f[1]]);
    let f2 = seq![f[0], f[1]];
    assert(f2.drop_last() =~= seq![f[0]]);
    let f1 = seq![f[0]];
    assert(f1.drop_last() =~= Seq::<u64>::empty());
    lemma_places(d);
    assert(worth(Seq::<u64>::empty()) == 0);
    assert(worth(f1) == worth(f1.drop_last()) * 10 + f[0]);
    assert(worth(f2) == worth(f1) * 10 + f[1]);
    assert(worth(f3) == worth(f2) * 10 + f[2]);
    assert(worth(f4) == worth(f3) * 10 + f[3]);
    assert(worth(f5) == worth(f4) * 10 + f[4]);
    assert(worth(f) == worth(f5) * 10 + f[5]);
}

proof fn lemma_places(d: u32)
    requires
        d <= 999_999,
    ensures
        d / 100_000 % 10 == d / 100_000,
        d / 10_000 == (d / 100_000) * 10 + d / 10_000 % 10,
        d / 1_000 == (d / 10_000) * 10 + d / 1_000 % 10,
        d / 100 == (d / 1_000) * 10 + d / 100 % 10,
        d / 10 == (d / 100) * 10 + d / 10 % 10,
        d == (d / 10) * 10 + d % 10,
{
}

/// Zeros in front of a number change nothing.
proof fn lemma_leading_zeros(p: nat, f: Seq<u64>)
    ensures
        worth(Seq::new(p, |i: int| 0u64) + f) == worth(f),
    decreases f.len(), p,
{
    let zeros = Seq::new(p, |i: int| 0u64);
    if f.len() > 0 {
        lemma_leading_zeros(p, f.drop_last());
        assert((zeros + f).drop_last() =~= zeros + f.drop_last());
    } else if p > 0 {
        let fewer = Seq::new((p - 1) as nat, |i: int| 0u64);
        lemma_leading_zeros((p - 1) as nat, f);
        assert((zeros + f).drop_last() =~= fewer + f);
    } else {
        assert(zeros + f =~= f);
    }
}

/// Zeros that are left out at the end of a number count as tens.
proof fn lemma_trailing_zeros(g: Seq<u64>, q: int) -> (z: nat)
    requires
        0 <= q <= g.len(),
    ensures
        z == g.len() - q - significant(g.skip(q)),
        worth(g.take(q + significant(g.skip(q)))) * pow(10, z) == worth(g),
        0 <= significant(g.skip(q)) <= g.len() - q,
        significant(g.skip(q)) > 0 ==> g[q + significant(g.skip(q)) - 1] != 0,
    decreases g.len(),
{
    let r = g.skip(q);
    if r.len() == 0 || r.last() != 0 {
        assert(g.take(g.len() as int) =~= g);
        lemma_pow0(10);
        assert(worth(g) * 1 == worth(g));
        0
    } else {
        let h = g.drop_last();
        assert(h.skip(q) =~= r.drop_last());
        let z = lemma_trailing_zeros(h, q);
        let k = q + significant(h.skip(q));
        assert(g.take(k) =~= h.take(k));
        reveal(pow);
        assert(pow(10, z + 1) == 10 * pow(10, z));
        assert(worth(h.take(k)) * (10 * pow(10, z)) == (worth(h.take(k)) * pow(10, z)) * 10)
            by (nonlinear_arith);
        z + 1
    }
}

/// A number printed in general form denotes its six digits: read without the point, the
/// digits before and after it are those six with the zeros at the end left out, and the
/// point stands where the exponent of the first digit calls for. No zero ends a fraction.
pub proof fn lemma_general_text_denotes(d: u32, e: int) -> (r: (Seq<char>, Seq<char>))
    requires
        100_000 <= d <= 999_999,
    ensures
        ({
            let (whole, fraction) = r;
            let fixed = -4 <= e < 6;
            let places = fraction.len() as int + (if fixed {
                e
            } else {
                0
            });
            &&& general_text(d, e) == whole + (if fraction.len() == 0 {
                Seq::empty()
            } else {
                seq!['.'] + fraction
            }) + (if fixed {
                Seq::empty()
            } else {
                exponent_text(e)
            })
            &&& whole.len() >= 1
            &&& !fixed ==> whole.len() == 1
            &&& forall|i: int| 0 <= i < whole.len() ==> is_digit(#[trigger] whole[i])
            &&& forall|i: int| 0 <= i < fraction.len() ==> is_digit(#[trigger] fraction[i])
            &&& fraction.len() > 0 ==> fraction.last() != '0'
            &&& places <= 5
            &&& value_of(whole + fraction) * pow(10, (5 - places) as nat) == d
        }),
{
    let f = figures(d);
    lemma_figures(d);
    let p = if -4 <= e < 0 {
        (-e) as nat
    } else {
        0
    };
    let q = if 0 <= e < 6 {
        e + 1
    } else {
        1
    };
    let zeros = Seq::new(p, |i: int| 0u64);
    let g = zeros + f;
    assert forall|i: int| 0 <= i < g.len() implies #[trigger] g[i] < 10 by {
        if i >= p {
            assert(f[i - p] < 10);
        }
    }
    lemma_leading_zeros(p, f);
    let z = lemma_trailing_zeros(g, q);
    let rest = g.skip(q);
    let n = significant(rest);
    let whole = figures_text(g.take(q));
    let fraction = figures_text(rest.take(n));
    let all = g.take(q + n);
    assert forall|i: int| 0 <= i < all.len() implies #[trigger] all[i] < 10 by {
        assert(g[i] < 10);
    }
    lemma_worth(all);
    assert(whole + fraction =~= figures_text(all));
    assert forall|i: int| 0 <= i < whole.len() implies is_digit(#[trigger] whole[i]) by {
        assert(figures_text(all)[i] == whole[i]);
    }
    assert forall|i: int| 0 <= i < fraction.len() implies is_digit(#[trigger] fraction[i]) by {
        assert(figures_text(all)[q + i] == fraction[i]);
    }
    if n > 0 {
        assert(fraction.last() == digit(g[q + n - 1] as int));
        assert(g[q + n - 1] < 10);
    }
    if 0 <= e < 6 {
        assert(zeros + f =~= f);
        assert(rest =~= f.skip(e + 1));
        assert(g.take(q) =~= f.take(e + 1));
    } else if -4 <= e < 0 {
        assert(rest =~= Seq::new((-e - 1) as nat, |i: int| 0u64) + f);
        assert(whole =~= seq!['0']);
    } else {
        assert(zeros + f =~= f);
        assert(rest =~= f.skip(1));
        assert(g.take(q) =~= f.take(1));
    }
    assert(general_text(d, e) =~= whole + (if fraction.len() == 0 {
        Seq::empty()
    } else {
        seq!['.'] + fraction
    }) + (if -4 <= e < 6 {
        Seq::empty()
    } else {
        exponent_text(e)
    }));
    (whole, fraction)
}

/// An exponent is printed with its sign and at least two digits, which read as its size.
pub proof fn lemma_exponent_text_denotes(e: int) -> (r: Seq<char>)
    ensures
        exponent_text(e) == seq![
            'e',
            if e < 0 {
                '-'
            } else {
                '+'
            },
        ] + r,
        r.len() >= 2,
        forall|i: int| 0 <= i < r.len() ==> is_digit(#[trigger] r[i]),
        value_of(r) == absolute(e),
{
    let n = absolute(e);
    lemma_decimal_value(n);
    let r = if n < 10 {
        seq!['0'] + decimal(n)
    } else {
        decimal(n)
    };
    if n < 10 {
        let c = decimal(n);
        assert(r.drop_last() =~= seq!['0']);
        assert(seq!['0'].drop_last() =~= Seq::<char>::empty());
        assert(value_of(seq!['0'].drop_last()) == 0);
        assert(value_of(seq!['0']) == 0);
        assert(c.drop_last() =~= Seq::<char>::empty());
        assert(value_of(c.drop_last()) == 0);
        assert(r.last() == c.last());
        assert(r[0] == '0' && r[1] == c[0]);
    } else {
        assert(decimal(n) == decimal(n / 10).push(digit((n % 10) as int)));
        lemma_decimal_value(n / 10);
    }
    assert(exponent_text(e) =~= seq![
        'e',
        if e < 0 {
            '-'
        } else {
            '+'
        },
    ] + r);
    r
}

/// The last six decimal digits of `d`.
fn to_figures(d: u32) -> (f: Vec<u64>)
    ensures
        f@ == figures(d),
        forall|i: int| 0 <= i < f@.len() ==> #[trigger] f@[i] < 10,
{
    let mut f: Vec<u64> = Vec::new();
    f.push((d / 100_000 % 10) as u64);
    f.push((d / 10_000 % 10) as u64);
    f.push((d / 1_000 % 10) as u64);
    f.push((d / 100 % 10) as u64);
    f.push((d / 10 % 10) as u64);
    f.push((d % 10) as u64);
    assert(f@ =~= figures(d));
    f
}

/// Appends the digits `from..to`.
fn push_figures(s: &mut String, f: &Vec<u64>, from: usize, to: usize)
    requires
        from <= to <= f@.len(),
        forall|i: int| 0 <= i < f@.len() ==> #[trigger] f@[i] < 10,
    ensures
        final(s)@ == old(s)@ + figures_text(f@.subrange(from as int, to as int)),
{
    let mut i: usize = from;
    let ghost was = s@;
    assert(was + figures_text(f@.subrange(from as int, from as int)) =~= was);
    while i < to
        invariant
            from <= i <= to <= f@.len(),
            forall|j: int| 0 <= j < f@.len() ==> #[trigger] f@[j] < 10,
            s@ == was + figures_text(f@.subrange(from as int, i as int)),
        decreases to - i,
    {
        push_digit(s, f[i]);
        i = i + 1;
        assert(s@ =~= was + figures_text(f@.subrange(from as int, i as int)));
    }
}

/// Appends the digits from `from` on as a fraction.
fn push_fraction(s: &mut String, f: &Vec<u64>, from: usize)
    requires
        from <= f@.len(),
        forall|i: int| 0 <= i < f@.len() ==> #[trigger] f@[i] < 10,
    ensures
        final(s)@ == old(s)@ + fraction_text(f@.skip(from as int)),
{
    let ghost was = s@;
    let n = f.len();
    let mut to: usize = n;
    assert(f@.subrange(from as int, n as int) =~= f@.skip(from as int));
    while to > from && f[to - 1] == 0
        invariant
            from <= to <= n,
            n == f@.len(),
            significant(f@.subrange(from as int, to as int)) == significant(f@.skip(from as int)),
        decreases to,
    {
        let ghost part = f@.subrange(from as int, to as int);
        assert(part.drop_last() =~= f@.subrange(from as int, to - 1));
        to = to - 1;
    }
    let ghost part = f@.subrange(from as int, to as int);
    assert(significant(part) == part.len());
    if to > from {
        proof {
            reveal_strlit(".");
        }
        s.append(".");
        push_figures(s, f, from, to);
        assert(f@.skip(from as int).take(to - from) =~= part);
        assert(s@ =~= was + fraction_text(f@.skip(from as int)));
    } else {
        assert(s@ =~= was + fraction_text(f@.skip(from as int)));
    }
}

/// Appends an exponent.
fn push_exponent(s: &mut String, e: i32)
    ensures
        final(s)@ == old(s)@ + exponent_text(e as int),
{
    let ghost was = s@;
    proof {
        reveal_strlit("e-");
        reveal_strlit("e+");
        reveal_strlit("0");
    }
    let wide: i64 = e as i64;
    let mag: u64 = if wide < 0 {
        s.append("e-");
        (-wide) as u64
    } else {
        s.append("e+");
        wide as u64
    };
    if mag < 10 {
        s.append("0");
    }
    push_decimal(s, mag);
    assert(s@ =~= was + exponent_text(e as int));
}

/// Appends six significant digits the way `%g` prints them.
fn push_general(s: &mut String, d: u32, e: i32)
    ensures
        final(s)@ == old(s)@ + general_text(d, e as int),
{
    let ghost was = s@;
    let f = to_figures(d);
    if 0 <= e && e < 6 {
        let k: usize = e as usize + 1;
        push_figures(s, &f, 0, k);
        push_fraction(s, &f, k);
        assert(f@.subrange(0, k as int) =~= f@.take(e + 1));
        assert(s@ =~= was + general_text(d, e as int));
    } else if -4 <= e && e < 0 {
        let zeros: usize = (-(e as i64) - 1) as usize;
        let mut g: Vec<u64> = vec![0; zeros];
        g.extend_from_slice(&f);
        proof {
            reveal_strlit("0");
            assert(g@ =~= Seq::new((-e - 1) as nat, |i: int| 0u64) + f@);
            assert(g@.skip(0) =~= g@);
        }
        s.append("0");
        push_fraction(s, &g, 0);
        assert(s@ =~= was + general_text(d, e as int));
    } else {
        push_figures(s, &f, 0, 1);
        push_fraction(s, &f, 1);
        push_exponent(s, e);
        assert(f@.subrange(0, 1) =~= f@.take(1));
        assert(s@ =~= was + general_text(d, e as int));
    }
}

/// Formats a scale the way numpy's `%g` does, so that channel names match the ones a
/// notebook builds with `:g`.
pub fn fmt_g(v: u32) -> (r: String)
    ensures
        r@ == scale_text(v),
{
    if ieee::is_nan32(v) {
        assert(whole(v) is None) by {
            if whole(v) is Some {
                lemma_whole_is_signed(v);
            }
        }
        return String::from_str("nan");
    }
    let mut s = String::new();
    if v >= 0x8000_0000 {
        proof {
            reveal_strlit("-");
        }
        s.append("-");
    }
    assert(s@ =~= sign_text(v));
    match to_whole(v) {
        Some((_, q)) => {
            push_decimal(&mut s, q);
        },
        None => {
            if ieee::is_finite32(v) {
                proof {
                    if ieee::magnitude32(v) == 0 {
                        lemma_zero_is_whole(v);
                    }
                }
                let (d, e) = decimal::six_digits(v);
                push_general(&mut s, d, e);
            } else {
                s.append("inf");
            }
        },
    }
    s
}

/// What stands for an integer is finite, and has its sign.
proof fn lemma_whole_is_signed(v: u32)
    requires
        whole(v) is Some,
    ensures
        ieee::finite32(v),
        v >= 0x8000_0000 ==> whole(v)->0 <= 0,
        v < 0x8000_0000 ==> whole(v)->0 >= 0,
{
    let (n, d) = (decimal::numerator(v) as int, decimal::denominator(v) as int);
    if decimal::exponent(v) > 0 {
        lemma_not_whole(v);
    }
    lemma_pow2_pos((-decimal::exponent(v)) as nat);
    assert(n / d >= 0) by (nonlinear_arith)
        requires
            n >= 0,
            d > 0,
    ;
}

/// Name of the channel blended with a scale.
pub open spec fn scale_channel(v: u32) -> Seq<char> {
    "pf_scale_"@ + scale_text(v)
}

/// Name of output channel `k`: one per scale, then the mean, then the spread.
pub open spec fn channel_name(scales: Seq<u32>, k: int) -> Seq<char> {
    if k < scales.len() {
        scale_channel(scales[k])
    } else if k == scales.len() {
        "pf_mean"@
    } else {
        "pf_pt_std"@
    }
}

/// Names of the output channels.
pub fn channel_names(scales: &[u32], with_std: bool) -> (r: Vec<String>)
    requires
        scales@.len() + 2 <= usize::MAX,
    ensures
        r@.len() == scales@.len() + if with_std {
            2int
        } else {
            1
        },
        forall|k: int|
            #![trigger r@[k]]
            0 <= k < r@.len() ==> r@[k]@ == channel_name(scales@, k),
{
    let n = scales.len();
    let mut r: Vec<String> = Vec::new();
    let mut k: usize = 0;
    while k < n
        invariant
            k <= n,
            n == scales@.len(),
            r@.len() == k,
            forall|j: int|
                #![trigger r@[j]]
                0 <= j < k ==> r@[j]@ == channel_name(scales@, j),
        decreases n - k,
    {
        let mut name = String::from_str("pf_scale_");
        let g = fmt_g(scales[k]);
        name.append(g.as_str());
        r.push(name);
        k = k + 1;
    }
    r.push(String::from_str("pf_mean"));
    if with_std {
        r.push(String::from_str("pf_pt_std"));
    }
    r
}

/// Two integer scales share a channel name only if they are the same integer.
pub proof fn lemma_scale_channels_distinct(v: u32, w: u32)
    requires
        whole(v) is Some,
        whole(w) is Some,
        scale_channel(v) == scale_channel(w),
    ensures
        whole(v) == whole(w),
{
    let (a, b) = (whole(v)->0, whole(w)->0);
    let p = "pf_scale_"@;
    assert(scale_channel(v).skip(p.len() as int) =~= sign_text(v) + decimal(absolute(a)));
    assert(scale_channel(w).skip(p.len() as int) =~= sign_text(w) + decimal(absolute(b)));
    let (x, y) = (sign_text(v) + decimal(absolute(a)), sign_text(w) + decimal(absolute(b)));
    lemma_decimal_value(absolute(a));
    lemma_decimal_value(absolute(b));
    assert(v >= 0x8000_0000 <==> x[0] == '-');
    assert(w >= 0x8000_0000 <==> y[0] == '-');
    assert(x.skip(sign_text(v).len() as int) =~= decimal(absolute(a)));
    assert(y.skip(sign_text(w).len() as int) =~= decimal(absolute(b)));
    lemma_decimal_injective(absolute(a), absolute(b));
    lemma_whole_is_signed(v);
    lemma_whole_is_signed(w);
}

} // verus!
