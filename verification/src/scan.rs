//! Reductions and scans over the lanes of a particle cloud.
//!
//! A cloud of `n` particles is split over `lanes` lanes of `chunk` consecutive
//! particles. Sums are taken lane by lane and then over the lanes by a tree; the
//! cumulative weights come from a scan inside each lane and a doubling scan over
//! the lane totals. The order of every addition is fixed, because rounding makes
//! the sums depend on it.
use vstd::prelude::*;
use crate::arith;
use crate::arith::Arith;
use crate::ieee;

verus! {

/// First particle of lane `t`.
pub open spec fn lane_start(t: int, chunk: int) -> int {
    t * chunk
}

/// One past the last particle of lane `t`.
pub open spec fn lane_end(t: int, chunk: int, n: int) -> int {
    if t * chunk + chunk < n {
        t * chunk + chunk
    } else {
        n
    }
}

/// Smallest lane length with which `lanes` lanes hold `n` particles.
pub open spec fn lane_chunk(n: int, lanes: int) -> int
    recommends
        lanes > 0,
{
    (n + lanes - 1) / lanes
}

/// Every particle belongs to one lane, and to one only.
pub proof fn lemma_lanes_partition(n: int, lanes: int, p: int)
    requires
        lanes > 0,
        0 <= p < n,
    ensures
        ({
            let chunk = lane_chunk(n, lanes);
            let t = p / chunk;
            &&& chunk > 0
            &&& 0 <= t < lanes
            &&& lane_start(t, chunk) <= p < lane_end(t, chunk, n)
            &&& forall|u: int|
                0 <= u < lanes && lane_start(u, chunk) <= p < #[trigger] lane_end(u, chunk, n)
                    ==> u == t
        }),
{
    let chunk = lane_chunk(n, lanes);
    assert(chunk * lanes >= n && chunk >= 1) by (nonlinear_arith)
        requires
            chunk == (n + lanes - 1) / lanes,
            lanes > 0,
            n > 0,
    ;
    let t = p / chunk;
    assert(t * chunk <= p < t * chunk + chunk) by (nonlinear_arith)
        requires
            t == p / chunk,
            chunk > 0,
    ;
    assert(t >= 0) by (nonlinear_arith)
        requires
            t == p / chunk,
            chunk > 0,
            p >= 0,
    ;
    assert(t < lanes) by (nonlinear_arith)
        requires
            t * chunk <= p,
            p < n,
            chunk * lanes >= n,
            chunk > 0,
    ;
    assert forall|u: int|
        0 <= u < lanes && lane_start(u, chunk) <= p < #[trigger] lane_end(u, chunk, n) implies u
        == t by {
        assert(u == t) by (nonlinear_arith)
            requires
                u * chunk <= p < u * chunk + chunk,
                t * chunk <= p < t * chunk + chunk,
                chunk > 0,
        ;
    }
}

// ---------------------------------------------------------------------------
// Tree reduction
// ---------------------------------------------------------------------------

/// The first half combined with the second, element by element.
pub open spec fn halved<T>(f: spec_fn(T, T) -> T, xs: Seq<T>) -> Seq<T> {
    Seq::new(xs.len() / 2, |t: int| f(xs[t], xs[t + (xs.len() / 2) as int]))
}

/// What is left after halving down to one element.
pub open spec fn tree<T>(f: spec_fn(T, T) -> T, xs: Seq<T>) -> T
    decreases xs.len(),
{
    if xs.len() <= 1 {
        xs[0]
    } else {
        tree(f, halved(f, xs))
    }
}

/// Addition as a function of two patterns.
pub open spec fn plus<A: Arith>(m: A) -> spec_fn(u32, u32) -> u32 {
    |x: u32, y: u32| arith::sum32(m, x, y)
}

/// Tree reduction of three lanes of partial sums at once. The inputs are used as
/// scratch space.
pub fn tree_sum3<A: Arith>(m: &A, r0: &mut Vec<u32>, r1: &mut Vec<u32>, r2: &mut Vec<u32>) -> (r: (
    u32,
    u32,
    u32,
))
    requires
        old(r0)@.len() > 0,
        old(r1)@.len() == old(r0)@.len(),
        old(r2)@.len() == old(r0)@.len(),
    ensures
        arith::deterministic(*m) ==> {
            &&& r.0 == tree(plus(*m), old(r0)@)
            &&& r.1 == tree(plus(*m), old(r1)@)
            &&& r.2 == tree(plus(*m), old(r2)@)
        },
        final(r0)@.len() == old(r0)@.len(),
        final(r1)@.len() == old(r1)@.len(),
        final(r2)@.len() == old(r2)@.len(),
{
    let ghost det = arith::deterministic(*m);
    let ghost f = plus(*m);
    let n = r0.len();
    let mut len: usize = n;
    proof {
        assert(r0@.take(n as int) =~= r0@);
        assert(r1@.take(n as int) =~= r1@);
        assert(r2@.take(n as int) =~= r2@);
    }
    while len > 1
        invariant
            1 <= len <= n,
            r0@.len() == n,
            r1@.len() == n,
            r2@.len() == n,
            f == plus(*m),
            det == arith::deterministic(*m),
            det ==> tree(f, r0@.take(len as int)) == tree(f, old(r0)@),
            det ==> tree(f, r1@.take(len as int)) == tree(f, old(r1)@),
            det ==> tree(f, r2@.take(len as int)) == tree(f, old(r2)@),
        decreases len,
    {
        let s: usize = len / 2;
        let ghost p0 = r0@;
        let ghost p1 = r1@;
        let ghost p2 = r2@;
        let mut t: usize = 0;
        while t < s
            invariant
                0 <= t <= s,
                s == len / 2,
                1 < len <= n,
                p0.len() == n,
                p1.len() == n,
                p2.len() == n,
                r0@.len() == n,
                r1@.len() == n,
                r2@.len() == n,
                f == plus(*m),
                det == arith::deterministic(*m),
                forall|i: int| t <= i < n ==> r0@[i] == p0[i],
                forall|i: int| t <= i < n ==> r1@[i] == p1[i],
                forall|i: int| t <= i < n ==> r2@[i] == p2[i],
                det ==> forall|i: int| 0 <= i < t ==> r0@[i] == #[trigger] halved(f, p0.take(len as int))[i],
                det ==> forall|i: int| 0 <= i < t ==> r1@[i] == #[trigger] halved(f, p1.take(len as int))[i],
                det ==> forall|i: int| 0 <= i < t ==> r2@[i] == #[trigger] halved(f, p2.take(len as int))[i],
            decreases s - t,
        {
            let a0 = arith::add32(m, r0[t], r0[t + s]);
            let a1 = arith::add32(m, r1[t], r1[t + s]);
            let a2 = arith::add32(m, r2[t], r2[t + s]);
            r0.set(t, a0);
            r1.set(t, a1);
            r2.set(t, a2);
            t = t + 1;
        }
        proof {
            if det {
                assert(r0@.take(s as int) =~= halved(f, p0.take(len as int)));
                assert(r1@.take(s as int) =~= halved(f, p1.take(len as int)));
                assert(r2@.take(s as int) =~= halved(f, p2.take(len as int)));
            }
        }
        len = s;
    }
    (r0[0], r1[0], r2[0])
}

/// Addition of integers.
pub open spec fn exact_plus() -> spec_fn(int, int) -> int {
    |x: int, y: int| x + y
}

/// Sum of a sequence.
pub open spec fn total(xs: Seq<int>) -> int
    decreases xs.len(),
{
    if xs.len() == 0 {
        0
    } else {
        total(xs.drop_last()) + xs.last()
    }
}

proof fn lemma_total_concat(a: Seq<int>, b: Seq<int>)
    ensures
        total(a + b) == total(a) + total(b),
    decreases b.len(),
{
    if b.len() == 0 {
        assert(a + b =~= a);
    } else {
        assert((a + b).drop_last() =~= a + b.drop_last());
        lemma_total_concat(a, b.drop_last());
    }
}

proof fn lemma_total_pairs(a: Seq<int>, b: Seq<int>, c: Seq<int>)
    requires
        a.len() == b.len(),
        c.len() == a.len(),
        forall|i: int| 0 <= i < a.len() ==> #[trigger] c[i] == a[i] + b[i],
    ensures
        total(c) == total(a) + total(b),
    decreases a.len(),
{
    if a.len() > 0 {
        lemma_total_pairs(a.drop_last(), b.drop_last(), c.drop_last());
    }
}

/// Over exact addition the tree reduction of a power-of-two number of lanes is
/// their sum: every lane is counted once.
pub proof fn lemma_tree_is_total(xs: Seq<int>, k: nat)
    requires
        xs.len() == vstd::arithmetic::power2::pow2(k),
    ensures
        tree(exact_plus(), xs) == total(xs),
    decreases k,
{
    let f = exact_plus();
    vstd::arithmetic::power2::lemma2_to64();
    if k == 0 {
        assert(xs.drop_last() =~= Seq::<int>::empty());
        assert(total(xs.drop_last()) == 0);
    } else {
        vstd::arithmetic::power2::lemma_pow2_unfold(k);
        vstd::arithmetic::power2::lemma_pow2_pos((k - 1) as nat);
        let h = (xs.len() / 2) as int;
        let ys = halved(f, xs);
        lemma_tree_is_total(ys, (k - 1) as nat);
        lemma_total_pairs(xs.take(h), xs.skip(h), ys);
        lemma_total_concat(xs.take(h), xs.skip(h));
        assert(xs.take(h) + xs.skip(h) =~= xs);
    }
}

// ---------------------------------------------------------------------------
// Two-level prefix scan
// ---------------------------------------------------------------------------

/// `w[start] + ... + w[end - 1]`, added from the left onto `zero`.
pub open spec fn run_sum<T>(f: spec_fn(T, T) -> T, zero: T, w: Seq<T>, start: int, end: int) -> T
    decreases end - start,
{
    if end <= start {
        zero
    } else {
        f(run_sum(f, zero, w, start, end - 1), w[end - 1])
    }
}

/// One round of the doubling scan: each element takes in the one `off` before it.
pub open spec fn doubled<T>(f: spec_fn(T, T) -> T, xs: Seq<T>, off: int) -> Seq<T> {
    Seq::new(
        xs.len(),
        |t: int|
            if t >= off {
                f(xs[t], xs[t - off])
            } else {
                xs[t]
            },
    )
}

/// The doubling (Hillis-Steele) scan from offset `off` on.
pub open spec fn doubling_scan<T>(f: spec_fn(T, T) -> T, xs: Seq<T>, off: int) -> Seq<T>
    decreases 2 * xs.len() - off,
{
    if off >= xs.len() || off <= 0 {
        xs
    } else {
        doubling_scan(f, doubled(f, xs, off), 2 * off)
    }
}

/// Sum of each lane.
pub open spec fn lane_totals<T>(
    f: spec_fn(T, T) -> T,
    zero: T,
    w: Seq<T>,
    lanes: int,
    chunk: int,
) -> Seq<T> {
    Seq::new(
        lanes as nat,
        |t: int| run_sum(f, zero, w, lane_start(t, chunk), lane_end(t, chunk, w.len() as int)),
    )
}

/// Inclusive prefix scan of `w`: the running sum inside the lane plus what the
/// lanes before it hold.
pub open spec fn two_level<T>(
    f: spec_fn(T, T) -> T,
    zero: T,
    w: Seq<T>,
    lanes: int,
    chunk: int,
) -> Seq<T> {
    let before = doubling_scan(f, lane_totals(f, zero, w, lanes, chunk), 1);
    Seq::new(
        w.len(),
        |j: int|
            {
                let t = j / chunk;
                f(
                    run_sum(f, zero, w, lane_start(t, chunk), j + 1),
                    if t > 0 {
                        before[t - 1]
                    } else {
                        zero
                    },
                )
            },
    )
}

/// The doubling scan over the lane totals, in place.
fn scan_lanes<A: Arith>(m: &A, red: &mut Vec<u32>)
    ensures
        final(red)@.len() == old(red)@.len(),
        arith::deterministic(*m) ==> final(red)@ == doubling_scan(plus(*m), old(red)@, 1),
{
    let ghost det = arith::deterministic(*m);
    let ghost f = plus(*m);
    let n = red.len();
    let mut off: usize = 1;
    while off < n
        invariant
            off > 0,
            red@.len() == n,
            n == old(red)@.len(),
            f == plus(*m),
            det == arith::deterministic(*m),
            det ==> doubling_scan(f, red@, off as int) == doubling_scan(f, old(red)@, 1),
        decreases n - off,
    {
        let ghost before = red@;
        let mut t: usize = n;
        while t > off
            invariant
                0 < off <= t <= n,
                off < n,
                red@.len() == n,
                before.len() == n,
                f == plus(*m),
                det == arith::deterministic(*m),
                forall|i: int| 0 <= i < t ==> red@[i] == before[i],
                det ==> forall|i: int| t <= i < n ==> red@[i] == #[trigger] doubled(f, before, off as int)[i],
            decreases t,
        {
            t = t - 1;
            let v = arith::add32(m, red[t], red[t - off]);
            red.set(t, v);
        }
        proof {
            if det {
                assert(red@ =~= doubled(f, before, off as int));
            }
        }
        if off >= n - off {
            assert(doubling_scan(f, red@, 2 * off) == doubling_scan(f, red@, n as int));
            off = n;
        } else {
            off = off * 2;
        }
    }
}

/// Splits `n` particles over `lanes` lanes.
pub fn lane_len(n: usize, lanes: usize) -> (r: usize)
    requires
        lanes > 0,
    ensures
        r == lane_chunk(n as int, lanes as int),
        n > 0 ==> r > 0,
        r <= n,
{
    let q: usize = n / lanes;
    let whole = n % lanes == 0;
    proof {
        let (a, b, c) = (n as int, lanes as int, q as int);
        assert(a == b * c + a % b && 0 <= a % b < b) by (nonlinear_arith)
            requires
                b > 0,
                c == a / b,
        ;
        if whole {
            assert((a + b - 1) / b == c) by (nonlinear_arith)
                requires
                    a == b * c,
                    b > 0,
            ;
        } else {
            assert((a + b - 1) / b == c + 1) by (nonlinear_arith)
                requires
                    a == b * c + a % b,
                    0 < a % b < b,
                    b > 0,
            ;
        }
        assert(c <= a && (!whole ==> c + 1 <= a) && (a > 0 && whole ==> c > 0)) by (nonlinear_arith)
            requires
                a == b * c + a % b,
                0 <= a % b < b,
                b > 0,
                c >= 0,
                whole == (a % b == 0),
        ;
    }
    if whole {
        q
    } else {
        q + 1
    }
}

/// Bounds of lane `t` of `lanes` over `n` particles.
pub fn lane_bounds(t: usize, lanes: usize, chunk: usize, n: usize) -> (r: (usize, usize))
    requires
        t < lanes,
        chunk == lane_chunk(n as int, lanes as int),
    ensures
        lane_start(t as int, chunk as int) < n ==> r.0 == lane_start(t as int, chunk as int),
        lane_start(t as int, chunk as int) < n ==> r.1 == lane_end(t as int, chunk as int, n as int),
        lane_start(t as int, chunk as int) >= n ==> r.0 == n,
        lane_start(t as int, chunk as int) >= n ==> r.1 == n,
        r.0 <= r.1 <= n,
{
    let full: usize = if chunk == 0 {
        0
    } else {
        n / chunk
    };
    proof {
        let (a, b, c, u) = (n as int, chunk as int, full as int, t as int);
        if b > 0 {
            assert(a == b * c + a % b && 0 <= a % b < b) by (nonlinear_arith)
                requires
                    b > 0,
                    c == a / b,
            ;
            if u > c {
                assert(u * b >= a) by (nonlinear_arith)
                    requires
                        a == b * c + a % b,
                        a % b < b,
                        u >= c + 1,
                        b > 0,
                ;
            } else {
                assert(u * b <= b * c) by (nonlinear_arith)
                    requires
                        u <= c,
                        b > 0,
                ;
            }
        } else {
            assert(u * b == 0) by (nonlinear_arith)
                requires
                    b == 0,
            ;
            assert(n == 0) by {
                lemma_lane_chunk_positive(n as int, lanes as int);
            }
        }
    }
    if chunk == 0 || t > full {
        (n, n)
    } else {
        let start: usize = t * chunk;
        if n - start > chunk {
            (start, start + chunk)
        } else {
            (start, n)
        }
    }
}

pub(crate) proof fn lemma_lane_chunk_positive(n: int, lanes: int)
    requires
        lanes > 0,
        n >= 0,
    ensures
        n > 0 ==> lane_chunk(n, lanes) > 0,
        lane_chunk(n, lanes) * lanes >= n,
{
    let chunk = lane_chunk(n, lanes);
    assert(chunk * lanes >= n && (n > 0 ==> chunk >= 1)) by (nonlinear_arith)
        requires
            chunk == (n + lanes - 1) / lanes,
            lanes > 0,
            n >= 0,
    ;
}

/// Inclusive prefix scan of the weights: the cumulative weight up to each
/// particle.
#[verifier::loop_isolation(false)]
pub fn two_level_scan<A: Arith>(m: &A, w: &[u32], lanes: usize, chunk: usize) -> (cum: Vec<u32>)
    requires
        lanes > 0,
        chunk == lane_chunk(w@.len() as int, lanes as int),
    ensures
        cum@.len() == w@.len(),
        arith::deterministic(*m) ==> cum@ == two_level(
            plus(*m),
            ieee::ZERO32,
            w@,
            lanes as int,
            chunk as int,
        ),
{
    let ghost det = arith::deterministic(*m);
    let ghost f = plus(*m);
    let n = w.len();
    let mut cum: Vec<u32> = Vec::new();
    let mut red: Vec<u32> = Vec::new();
    let mut t: usize = 0;
    while t < lanes
        invariant
            t <= lanes,
            red@.len() == t,
            t < lanes ==> cum@.len() == (if lane_start(t as int, chunk as int) < n {
                lane_start(t as int, chunk as int)
            } else {
                n as int
            }),
            t == lanes ==> cum@.len() == n,
            det ==> forall|j: int|
                0 <= j < cum@.len() ==> #[trigger] cum@[j] == run_sum(
                    f,
                    ieee::ZERO32,
                    w@,
                    lane_start(j / chunk as int, chunk as int),
                    j + 1,
                ),
            det ==> forall|u: int|
                0 <= u < t ==> #[trigger] red@[u] == run_sum(
                    f,
                    ieee::ZERO32,
                    w@,
                    lane_start(u, chunk as int),
                    lane_end(u, chunk as int, n as int),
                ),
        decreases lanes - t,
    {
        let (start, end) = lane_bounds(t, lanes, chunk, n);
        let mut acc: u32 = ieee::ZERO32;
        let mut j: usize = start;
        while j < end
            invariant
                start <= j <= end,
                cum@.len() == j,
                det ==> acc == run_sum(f, ieee::ZERO32, w@, start as int, j as int),
                det ==> forall|i: int|
                    0 <= i < cum@.len() ==> #[trigger] cum@[i] == run_sum(
                        f,
                        ieee::ZERO32,
                        w@,
                        lane_start(i / chunk as int, chunk as int),
                        i + 1,
                    ),
            decreases end - j,
        {
            acc = arith::add32(m, acc, w[j]);
            cum.push(acc);
            proof {
                assert(j as int / chunk as int == t) by (nonlinear_arith)
                    requires
                        t * chunk <= j < t * chunk + chunk,
                        chunk > 0,
                ;
            }
            j = j + 1;
        }
        red.push(acc);
        proof {
            lemma_lane_chunk_positive(n as int, lanes as int);
            assert((t + 1) * chunk == t * chunk + chunk) by (nonlinear_arith);
            if t + 1 == lanes {
                assert(lanes * chunk >= n);
            }
        }
        t = t + 1;
    }
    proof {
        if det {
            assert(red@ =~= lane_totals(f, ieee::ZERO32, w@, lanes as int, chunk as int));
        }
    }
    scan_lanes(m, &mut red);
    let ghost raw = cum@;
    let mut u: usize = 0;
    while u < lanes
        invariant
            u <= lanes,
            cum@.len() == n,
            red@.len() == lanes,
            forall|j: int|
                #![trigger cum@[j]]
                0 <= j < n && j >= lane_start(u as int, chunk as int) ==> cum@[j] == raw[j],
            det ==> forall|j: int|
                0 <= j < n && j < lane_start(u as int, chunk as int) ==> #[trigger] cum@[j]
                    == two_level(f, ieee::ZERO32, w@, lanes as int, chunk as int)[j],
        decreases lanes - u,
    {
        let base: u32 = if u > 0 {
            red[u - 1]
        } else {
            ieee::ZERO32
        };
        let (start, end) = lane_bounds(u, lanes, chunk, n);
        let mut k: usize = start;
        while k < end
            invariant
                start <= k <= end,
                cum@.len() == n,
                forall|j: int| #![trigger cum@[j]] k <= j < n ==> cum@[j] == raw[j],
                det ==> forall|j: int|
                    0 <= j < k ==> #[trigger] cum@[j] == two_level(
                        f,
                        ieee::ZERO32,
                        w@,
                        lanes as int,
                        chunk as int,
                    )[j],
            decreases end - k,
        {
            let v = arith::add32(m, cum[k], base);
            cum.set(k, v);
            proof {
                assert(k as int / chunk as int == u) by (nonlinear_arith)
                    requires
                        u * chunk <= k < u * chunk + chunk,
                        chunk > 0,
                ;
            }
            k = k + 1;
        }
        proof {
            assert((u + 1) * chunk == u * chunk + chunk) by (nonlinear_arith);
        }
        u = u + 1;
    }
    proof {
        lemma_lane_chunk_positive(n as int, lanes as int);
        if det {
            assert(cum@ =~= two_level(f, ieee::ZERO32, w@, lanes as int, chunk as int));
        }
    }
    cum
}

// ---------------------------------------------------------------------------
// Search in the cumulative weights
// ---------------------------------------------------------------------------

/// Where a binary search of `cum[lo..=hi]` for `u` ends.
pub open spec fn searched(cum: Seq<u32>, lo: int, hi: int, u: u32) -> int
    decreases hi - lo,
{
    if lo >= hi {
        lo
    } else if ieee::less32(cum[(lo + hi) / 2], u) {
        searched(cum, (lo + hi) / 2 + 1, hi, u)
    } else {
        searched(cum, lo, (lo + hi) / 2, u)
    }
}

/// Index of the first cumulative weight that reaches `u`, capped at the last
/// particle.
pub fn lower_bound(cum: &[u32], u: u32) -> (r: usize)
    requires
        cum@.len() > 0,
    ensures
        r == searched(cum@, 0, cum@.len() - 1, u),
        r < cum@.len(),
{
    let mut lo: usize = 0;
    let mut hi: usize = cum.len() - 1;
    while lo < hi
        invariant
            lo <= hi < cum@.len(),
            searched(cum@, lo as int, hi as int, u) == searched(cum@, 0, cum@.len() - 1, u),
        decreases hi - lo,
    {
        let mid: usize = lo + (hi - lo) / 2;
        assert(mid == (lo + hi) / 2);
        if ieee::lt32(cum[mid], u) {
            lo = mid + 1;
        } else {
            hi = mid;
        }
    }
    lo
}

/// The search ends inside its range, whatever the weights.
pub proof fn lemma_searched_in_range(cum: Seq<u32>, lo: int, hi: int, u: u32)
    requires
        lo <= hi,
    ensures
        lo <= searched(cum, lo, hi, u) <= hi,
    decreases hi - lo,
{
    if lo < hi {
        let mid = (lo + hi) / 2;
        if ieee::less32(cum[mid], u) {
            lemma_searched_in_range(cum, mid + 1, hi, u);
        } else {
            lemma_searched_in_range(cum, lo, mid, u);
        }
    }
}

/// In cumulative weights that never fall, the search names the smallest index
/// whose weight is not below `u`, capped at the last one.
pub proof fn lemma_lower_bound_is_first(cum: Seq<u32>, lo: int, hi: int, u: u32)
    requires
        0 <= lo <= hi < cum.len(),
        forall|i: int, j: int|
            0 <= i <= j < cum.len() ==> ieee::at_most32(#[trigger] cum[i], #[trigger] cum[j]),
        forall|i: int| 0 <= i < lo ==> ieee::less32(#[trigger] cum[i], u),
        hi < cum.len() - 1 ==> !ieee::less32(cum[hi], u),
    ensures
        ({
            let r = searched(cum, lo, hi, u);
            &&& lo <= r <= hi
            &&& forall|i: int| 0 <= i < r ==> ieee::less32(#[trigger] cum[i], u)
            &&& r < cum.len() - 1 ==> !ieee::less32(cum[r], u)
        }),
    decreases hi - lo,
{
    if lo < hi {
        let mid = (lo + hi) / 2;
        if ieee::less32(cum[mid], u) {
            assert forall|i: int| 0 <= i < mid + 1 implies ieee::less32(#[trigger] cum[i], u) by {
                assert(ieee::at_most32(cum[i], cum[mid]));
            }
            lemma_lower_bound_is_first(cum, mid + 1, hi, u);
        } else {
            lemma_lower_bound_is_first(cum, lo, mid, u);
        }
    }
}

/// Over exact addition a lane's running sum is the sum of its slice.
proof fn lemma_run_sum_is_total(w: Seq<int>, start: int, end: int)
    requires
        0 <= start <= end <= w.len(),
    ensures
        run_sum(exact_plus(), 0int, w, start, end) == total(w.subrange(start, end)),
    decreases end - start,
{
    if start < end {
        lemma_run_sum_is_total(w, start, end - 1);
        assert(w.subrange(start, end).drop_last() =~= w.subrange(start, end - 1));
    }
}

/// The doubling scan finishes a scan that has reached back `off` elements.
proof fn lemma_doubling_scan(xs: Seq<int>, ys: Seq<int>, off: int)
    requires
        off > 0,
        ys.len() == xs.len(),
        forall|t: int|
            0 <= t < xs.len() ==> #[trigger] ys[t] == total(
                xs.subrange(
                    if t - off + 1 > 0 {
                        t - off + 1
                    } else {
                        0
                    },
                    t + 1,
                ),
            ),
    ensures
        doubling_scan(exact_plus(), ys, off).len() == xs.len(),
        forall|t: int|
            0 <= t < xs.len() ==> #[trigger] doubling_scan(exact_plus(), ys, off)[t]
                == total(xs.take(t + 1)),
    decreases 2 * xs.len() - off,
{
    let f = exact_plus();
    if off >= xs.len() {
        assert forall|t: int| 0 <= t < xs.len() implies #[trigger] ys[t] == total(xs.take(t + 1)) by {
            assert(xs.subrange(0, t + 1) =~= xs.take(t + 1));
        }
    } else {
        let zs = doubled(f, ys, off);
        assert forall|t: int| 0 <= t < xs.len() implies #[trigger] zs[t] == total(
            xs.subrange(
                if t - 2 * off + 1 > 0 {
                    t - 2 * off + 1
                } else {
                    0
                },
                t + 1,
            ),
        ) by {
            if t >= off {
                let lo = if t - 2 * off + 1 > 0 {
                    t - 2 * off + 1
                } else {
                    0
                };
                let mid = t - off + 1;
                assert(ys[t] == total(xs.subrange(mid, t + 1)));
                assert(ys[t - off] == total(xs.subrange(lo, mid)));
                lemma_total_concat(xs.subrange(lo, mid), xs.subrange(mid, t + 1));
                assert(xs.subrange(lo, mid) + xs.subrange(mid, t + 1) =~= xs.subrange(lo, t + 1));
            }
        }
        lemma_doubling_scan(xs, zs, 2 * off);
    }
}

/// Sum of the lanes before lane `t` is the sum of the particles before it.
proof fn lemma_lanes_before(w: Seq<int>, lanes: int, chunk: int, t: int)
    requires
        chunk > 0,
        0 <= t <= lanes,
        (t - 1) * chunk < w.len() || t == 0,
    ensures
        t * chunk <= w.len() ==> total(
            lane_totals(exact_plus(), 0int, w, lanes, chunk).take(t),
        ) == total(w.take(t * chunk)),
    decreases t,
{
    let f = exact_plus();
    let ts = lane_totals(f, 0int, w, lanes, chunk);
    if t == 0 {
        assert(0 * chunk == 0) by (nonlinear_arith);
        assert(ts.take(0) =~= Seq::<int>::empty());
        assert(w.take(0) =~= Seq::<int>::empty());
    } else if t * chunk <= w.len() {
        let s = (t - 1) * chunk;
        assert(t * chunk == s + chunk && s >= 0) by (nonlinear_arith)
            requires
                s == (t - 1) * chunk,
                t >= 1,
                chunk > 0,
        ;
        if t > 1 {
            assert((t - 2) * chunk < w.len()) by (nonlinear_arith)
                requires
                    t * chunk <= w.len(),
                    chunk > 0,
            ;
        }
        lemma_lanes_before(w, lanes, chunk, t - 1);
        assert(ts.take(t).drop_last() =~= ts.take(t - 1));
        lemma_run_sum_is_total(w, s, s + chunk);
        lemma_total_concat(w.take(s), w.subrange(s, s + chunk));
        assert(w.take(s) + w.subrange(s, s + chunk) =~= w.take(t * chunk));
    }
}

/// Over exact addition the two-level scan is the prefix sum: element `j` is the
/// sum of the weights up to and including `j`.
pub proof fn lemma_scan_is_prefix_sum(w: Seq<int>, lanes: int, j: int)
    requires
        lanes > 0,
        0 <= j < w.len(),
    ensures
        two_level(
            exact_plus(),
            0int,
            w,
            lanes,
            lane_chunk(w.len() as int, lanes),
        )[j] == total(w.take(j + 1)),
{
    let f = exact_plus();
    let chunk = lane_chunk(w.len() as int, lanes);
    lemma_lanes_partition(w.len() as int, lanes, j);
    let t = j / chunk;
    let s = t * chunk;
    assert(s >= 0) by (nonlinear_arith)
        requires
            s == t * chunk,
            t >= 0,
            chunk > 0,
    ;
    let ts = lane_totals(f, 0int, w, lanes, chunk);
    assert forall|u: int| 0 <= u < ts.len() implies #[trigger] ts[u] == total(
        ts.subrange(
            if u - 1 + 1 > 0 {
                u - 1 + 1
            } else {
                0
            },
            u + 1,
        ),
    ) by {
        let one = ts.subrange(u, u + 1);
        assert(one.drop_last() =~= Seq::<int>::empty());
        assert(total(one) == total(one.drop_last()) + one.last());
    }
    lemma_doubling_scan(ts, ts, 1);
    lemma_run_sum_is_total(w, s, j + 1);
    lemma_total_concat(w.take(s), w.subrange(s, j + 1));
    assert(w.take(s) + w.subrange(s, j + 1) =~= w.take(j + 1));
    assert((t - 1) * chunk < w.len()) by (nonlinear_arith)
        requires
            s == t * chunk,
            s <= j,
            j < w.len(),
            chunk > 0,
    ;
    lemma_lanes_before(w, lanes, chunk, t);
    if t == 0 {
        assert(w.take(0) =~= Seq::<int>::empty());
        assert(0 * chunk == 0) by (nonlinear_arith);
    }
}

} // verus!
