//! Shared pieces of the flattened device layouts.
use vstd::prelude::*;
use vstd::arithmetic::power2::*;

verus! {

/// Sum of the first `k` lengths: where part `k` starts in the flattened array.
pub open spec fn before(lens: Seq<u32>, k: int) -> int
    decreases k,
{
    if k <= 0 {
        0
    } else {
        before(lens, k - 1) + lens[k - 1]
    }
}

/// Place of row `i` of part `k` in the flattened array.
pub open spec fn row(lens: Seq<u32>, k: int, i: int) -> int {
    before(lens, k) + i
}

/// Offsets never fall.
pub proof fn lemma_before_monotone(lens: Seq<u32>, i: int, j: int)
    requires
        0 <= i <= j,
    ensures
        0 <= before(lens, i) <= before(lens, j),
    decreases j - i, i,
{
    if i < j {
        lemma_before_monotone(lens, i, j - 1);
    } else if i > 0 {
        lemma_before_monotone(lens, i - 1, i - 1);
    }
}

/// Offsets inside a slice of the lengths, measured from the slice's start.
pub proof fn lemma_before_subrange(lens: Seq<u32>, a: int, b: int, k: int)
    requires
        0 <= a <= b <= lens.len(),
        0 <= k <= b - a,
    ensures
        before(lens.subrange(a, b), k) == before(lens, a + k) - before(lens, a),
    decreases k,
{
    if k > 0 {
        lemma_before_subrange(lens, a, b, k - 1);
    }
}

/// Offsets depend on the lengths before them only.
pub proof fn lemma_before_agree(lens: Seq<u32>, other: Seq<u32>, k: int)
    requires
        forall|i: int| 0 <= i < k ==> lens[i] == other[i],
    ensures
        before(lens, k) == before(other, k),
    decreases k,
{
    if k > 0 {
        lemma_before_agree(lens, other, k - 1);
    }
}

/// Every row of the flattened array belongs to a part.
pub proof fn lemma_row_has_owner(lens: Seq<u32>, n: int, r: int) -> (k: int)
    requires
        0 <= n <= lens.len(),
        0 <= r < before(lens, n),
    ensures
        0 <= k < n,
        before(lens, k) <= r < before(lens, k) + lens[k],
    decreases n,
{
    if r < before(lens, n - 1) {
        lemma_row_has_owner(lens, n - 1, r)
    } else {
        n - 1
    }
}

/// Non-empty parts are no more than the rows they hold.
pub proof fn lemma_part_count(lens: Seq<u32>, n: int)
    requires
        0 <= n <= lens.len(),
        forall|i: int| 0 <= i < n ==> #[trigger] lens[i] > 0,
    ensures
        before(lens, n) >= n,
    decreases n,
{
    if n > 0 {
        lemma_part_count(lens, n - 1);
    }
}

// ---------------------------------------------------------------------------
// Powers of two
// ---------------------------------------------------------------------------

/// Whether `x` is a power of two.
pub open spec fn is_pow2(x: int) -> bool {
    exists|k: nat| #[trigger] pow2(k) == x
}

/// A power of two is positive.
pub proof fn lemma_pow2_is_positive(x: int)
    requires
        is_pow2(x),
    ensures
        x > 0,
{
    let k = choose|k: nat| #[trigger] pow2(k) == x;
    lemma_pow2_pos(k);
}

/// Whether `p` is the smallest power of two that is at least `n`.
pub open spec fn is_pow2_ceil(p: int, n: int) -> bool {
    &&& is_pow2(p)
    &&& p >= n
    &&& forall|q: int| #[trigger] is_pow2(q) && q >= n ==> p <= q
}

/// Rounding up to a power of two does not more than double.
pub proof fn lemma_pow2_ceil_bound(p: int, n: int)
    requires
        is_pow2_ceil(p, n),
        n >= 0,
    ensures
        0 < p <= 2 * n + 1,
{
    lemma_pow2_is_positive(p);
    let k = choose|k: nat| #[trigger] pow2(k) == p;
    if k > 0 {
        lemma_pow2_unfold(k);
        let q = pow2((k - 1) as nat) as int;
        assert(is_pow2(q));
    } else {
        lemma2_to64();
    }
}

/// Whether `x` is a power of two.
pub fn power_of_two(x: u32) -> (r: bool)
    ensures
        r == is_pow2(x as int),
{
    let mut p: u64 = 1;
    let ghost mut k: nat = 0;
    proof {
        lemma2_to64();
    }
    while p < x as u64
        invariant
            p == pow2(k),
            1 <= p < 0x2_0000_0000,
            k == 0 || pow2((k - 1) as nat) < x,
        decreases 0x2_0000_0000 - p,
    {
        proof {
            lemma_pow2_unfold((k + 1) as nat);
            k = k + 1;
        }
        p = p * 2;
    }
    proof {
        if p != x && is_pow2(x as int) {
            let j = choose|j: nat| pow2(j) == x;
            if j < k {
                if j < k - 1 {
                    lemma_pow2_strictly_increases(j, (k - 1) as nat);
                }
            } else if j > k {
                lemma_pow2_strictly_increases(k, j);
            }
            lemma_pow2_pos(j);
        }
    }
    p == x as u64
}

/// Smallest power of two that is at least `n`.
pub fn next_power_of_two(n: usize) -> (p: usize)
    requires
        n <= usize::MAX / 2 + 1,
    ensures
        is_pow2_ceil(p as int, n as int),
{
    let mut p: usize = 1;
    let ghost mut k: nat = 0;
    proof {
        lemma2_to64();
    }
    while p < n
        invariant
            p == pow2(k),
            k == 0 || pow2((k - 1) as nat) < n,
            n <= usize::MAX / 2 + 1,
        decreases usize::MAX - p,
    {
        proof {
            lemma_pow2_unfold((k + 1) as nat);
            lemma_pow2_pos(k);
            k = k + 1;
        }
        p = p * 2;
    }
    proof {
        assert forall|q: int| #[trigger] is_pow2(q) && q >= n implies p <= q by {
            let j = choose|j: nat| pow2(j) == q;
            if j < k {
                if j < k - 1 {
                    lemma_pow2_strictly_increases(j, (k - 1) as nat);
                }
            } else if k < j {
                lemma_pow2_strictly_increases(k, j);
            }
            lemma_pow2_pos(j);
        }
    }
    p
}

// ---------------------------------------------------------------------------
// Chunks
// ---------------------------------------------------------------------------

/// Rows of the wells `[a, b)`.
pub open spec fn rows_between(lens: Seq<u32>, a: int, b: int) -> int {
    before(lens, b) - before(lens, a)
}

/// Rows of `per_row` bytes that a budget pays for, and at least one.
pub open spec fn rows_in_budget(per_row: int, budget_bytes: int) -> int {
    let per_row = if per_row < 1 {
        1
    } else {
        per_row
    };
    if budget_bytes < per_row {
        1
    } else {
        budget_bytes / per_row
    }
}

/// A chunk stays within its budget and leaves no room for another row, except that a row
/// always goes through.
pub proof fn lemma_budget_is_spent(per_row: int, budget_bytes: int)
    requires
        1 <= per_row,
        0 <= budget_bytes,
    ensures
        ({
            let r = rows_in_budget(per_row, budget_bytes);
            &&& r >= 1
            &&& budget_bytes >= per_row ==> r * per_row <= budget_bytes
            &&& budget_bytes < (r + 1) * per_row
        }),
{
    let r = rows_in_budget(per_row, budget_bytes);
    if budget_bytes >= per_row {
        assert(r >= 1 && r * per_row <= budget_bytes < (r + 1) * per_row) by (nonlinear_arith)
            requires
                r == budget_bytes / per_row,
                1 <= per_row <= budget_bytes,
        ;
    }
}

/// Rows of `per_row` bytes that a budget pays for, and at least one.
pub fn budget_rows(per_row: usize, budget_bytes: usize) -> (r: usize)
    ensures
        r == rows_in_budget(per_row as int, budget_bytes as int),
        r > 0,
{
    let per_row: usize = if per_row < 1 {
        1
    } else {
        per_row
    };
    let most: usize = budget_bytes / per_row;
    proof {
        let (x, d) = (budget_bytes as int, per_row as int);
        assert((x / d == 0) == (x < d)) by (nonlinear_arith)
            requires
                d > 0,
                x >= 0,
        ;
        assert(x / d >= 0) by (nonlinear_arith)
            requires
                d > 0,
                x >= 0,
        ;
    }
    if most > 1 {
        most
    } else {
        1
    }
}

/// `chunks` cuts the wells `0..n` into consecutive non-empty ranges.
pub open spec fn covers(chunks: Seq<(usize, usize)>, n: int) -> bool {
    &&& chunks.len() == 0 <==> n == 0
    &&& chunks.len() > 0 ==> chunks[0].0 == 0 && chunks.last().1 == n
    &&& forall|i: int| 0 <= i < chunks.len() ==> (#[trigger] chunks[i]).0 < chunks[i].1
    &&& forall|i: int| 0 <= i < chunks.len() - 1 ==> (#[trigger] chunks[i]).1 == chunks[i + 1].0
}

/// Every range of a cut lies inside the wells.
pub proof fn lemma_chunk_in_range(chunks: Seq<(usize, usize)>, n: int, j: int)
    requires
        covers(chunks, n),
        0 <= j < chunks.len(),
    ensures
        chunks[j].0 < chunks[j].1 <= n,
    decreases chunks.len() - j,
{
    if j < chunks.len() - 1 {
        lemma_chunk_in_range(chunks, n, j + 1);
        assert(chunks[j].1 == chunks[j + 1].0);
    }
}

/// A range holds at most `max_rows` rows, or all its rows are those of its last well.
pub open spec fn fits(lens: Seq<u32>, c: (usize, usize), max_rows: int) -> bool {
    rows_between(lens, c.0 as int, c.1 as int) <= max_rows || rows_between(
        lens,
        c.0 as int,
        c.1 - 1,
    ) == 0
}

/// A range holds rows, and could not have taken in the next well.
pub open spec fn is_full(lens: Seq<u32>, c: (usize, usize), max_rows: int) -> bool {
    &&& rows_between(lens, c.0 as int, c.1 as int) > 0
    &&& rows_between(lens, c.0 as int, c.1 + 1) > max_rows
}

/// The greedy split: every range fits, and every range but the last is full.
pub open spec fn is_greedy_split(
    lens: Seq<u32>,
    chunks: Seq<(usize, usize)>,
    max_rows: int,
) -> bool {
    &&& covers(chunks, lens.len() as int)
    &&& forall|i: int| 0 <= i < chunks.len() ==> fits(lens, #[trigger] chunks[i], max_rows)
    &&& forall|i: int| 0 <= i < chunks.len() - 1 ==> is_full(lens, #[trigger] chunks[i], max_rows)
}

/// Splits wells into consecutive ranges of at most `max_rows` rows; a well with more
/// rows than that gets a range of its own.
pub fn split_wells(lens: &[u32], max_rows: usize) -> (chunks: Vec<(usize, usize)>)
    requires
        max_rows > 0,
        before(lens@, lens@.len() as int) <= usize::MAX,
    ensures
        is_greedy_split(lens@, chunks@, max_rows as int),
{
    let mut out: Vec<(usize, usize)> = Vec::new();
    let mut start: usize = 0;
    let mut rows: usize = 0;
    let n: usize = lens.len();
    let mut w: usize = 0;
    while w < n
        invariant
            n == lens@.len(),
            0 <= start <= w <= n,
            max_rows > 0,
            before(lens@, n as int) <= usize::MAX,
            rows == rows_between(lens@, start as int, w as int),
            w > 0 ==> start < w,
            w == 0 ==> out@.len() == 0,
            out@.len() == 0 ==> start == 0,
            out@.len() > 0 ==> out@[0].0 == 0 && out@.last().1 == start,
            start < w ==> fits(lens@, (start, w), max_rows as int),
            forall|i: int| 0 <= i < out@.len() ==> (#[trigger] out@[i]).0 < out@[i].1 <= n,
            forall|i: int| 0 <= i < out@.len() - 1 ==> (#[trigger] out@[i]).1 == out@[i + 1].0,
            forall|i: int| 0 <= i < out@.len() ==> fits(lens@, #[trigger] out@[i], max_rows as int),
            forall|i: int|
                0 <= i < out@.len() ==> is_full(lens@, #[trigger] out@[i], max_rows as int),
        decreases n - w,
    {
        let len: usize = lens[w] as usize;
        proof {
            lemma_before_monotone(lens@, start as int, w as int);
            lemma_before_monotone(lens@, 0, start as int);
            lemma_before_monotone(lens@, w + 1, n as int);
            if start < w {
                lemma_before_monotone(lens@, start as int, w - 1);
            }
            assert(before(lens@, w + 1) == before(lens@, w as int) + lens@[w as int]);
        }
        if rows > 0 && rows + len > max_rows {
            let ghost prev = out@;
            out.push((start, w));
            start = w;
            rows = 0;
        }
        rows = rows + len;
        w = w + 1;
    }
    if start < n {
        out.push((start, n));
    }
    out
}

/// The greedy split is unique: the row limit and the well lengths determine it.
pub proof fn lemma_greedy_split_unique(
    lens: Seq<u32>,
    a: Seq<(usize, usize)>,
    b: Seq<(usize, usize)>,
    max_rows: int,
)
    requires
        is_greedy_split(lens, a, max_rows),
        is_greedy_split(lens, b, max_rows),
    ensures
        a == b,
{
    if lens.len() > 0 {
        lemma_split_prefix(lens, a, b, max_rows, a.len() as int);
        lemma_split_prefix(lens, b, a, max_rows, b.len() as int);
        assert(a =~= b);
    } else {
        assert(a =~= b);
    }
}

/// The first `k` ranges of one greedy split are those of the other.
proof fn lemma_split_prefix(
    lens: Seq<u32>,
    a: Seq<(usize, usize)>,
    b: Seq<(usize, usize)>,
    max_rows: int,
    k: int,
)
    requires
        is_greedy_split(lens, a, max_rows),
        is_greedy_split(lens, b, max_rows),
        lens.len() > 0,
        0 <= k <= a.len(),
    ensures
        k <= b.len(),
        forall|i: int| 0 <= i < k ==> a[i] == b[i],
    decreases k,
{
    if k > 0 {
        lemma_split_prefix(lens, a, b, max_rows, k - 1);
        let c = a[k - 1];
        if k > 1 {
            assert(a[k - 2].1 == a[k - 1].0);
        }
        lemma_range_bound(a, lens.len() as int, k - 1);
        if b.len() < k {
            assert(b.len() == k - 1);
            assert(k > 1);
            assert(b.last() == a[k - 2]);
            assert(false);
        }
        let d = b[k - 1];
        if k > 1 {
            assert(b[k - 2].1 == b[k - 1].0);
        }
        lemma_range_bound(b, lens.len() as int, k - 1);
        assert(c.0 == d.0);
        if c.1 < d.1 {
            lemma_range_end(lens, a, b, max_rows, k - 1);
        } else if d.1 < c.1 {
            lemma_range_end(lens, b, a, max_rows, k - 1);
        }
    }
}

/// Every range ends inside the wells, and the last one at their end.
proof fn lemma_range_bound(a: Seq<(usize, usize)>, n: int, i: int)
    requires
        covers(a, n),
        0 <= i < a.len(),
    ensures
        a[i].1 <= n,
        i < a.len() - 1 ==> a[i].1 < n,
    decreases a.len() - i,
{
    if i < a.len() - 1 {
        lemma_range_bound(a, n, i + 1);
        assert(a[i].1 == a[i + 1].0);
    }
}

/// Two greedy ranges with one start have one end.
proof fn lemma_range_end(
    lens: Seq<u32>,
    a: Seq<(usize, usize)>,
    b: Seq<(usize, usize)>,
    max_rows: int,
    i: int,
)
    requires
        is_greedy_split(lens, a, max_rows),
        is_greedy_split(lens, b, max_rows),
        0 <= i < a.len(),
        i < b.len(),
        a[i].0 == b[i].0,
    ensures
        a[i].1 >= b[i].1,
{
    let (c, d) = (a[i], b[i]);
    if c.1 < d.1 {
        lemma_range_bound(a, lens.len() as int, i);
        lemma_range_bound(b, lens.len() as int, i);
        assert(i < a.len() - 1);
        assert(is_full(lens, c, max_rows));
        lemma_before_monotone(lens, c.1 + 1, d.1 as int);
        lemma_before_monotone(lens, c.1 as int, d.1 - 1);
        assert(fits(lens, d, max_rows));
    }
}

// ---------------------------------------------------------------------------
// Channels
// ---------------------------------------------------------------------------

/// Place of row `i` of part `k` in channel `c`, channels one after the other.
pub open spec fn slot(lens: Seq<u32>, c: int, k: int, i: int) -> int {
    c * before(lens, lens.len() as int) + row(lens, k, i)
}

/// A slot lies inside its channel.
pub proof fn lemma_slot_in_range(lens: Seq<u32>, channels: int, c: int, k: int, i: int)
    requires
        0 <= c < channels,
        0 <= k < lens.len(),
        0 <= i < lens[k],
    ensures
        0 <= row(lens, k, i) < before(lens, lens.len() as int),
        0 <= slot(lens, c, k, i) < channels * before(lens, lens.len() as int),
{
    let total = before(lens, lens.len() as int);
    lemma_before_monotone(lens, 0, k);
    lemma_before_monotone(lens, k + 1, lens.len() as int);
    assert(0 <= c * total && c * total + total <= channels * total) by (nonlinear_arith)
        requires
            0 <= c < channels,
            total >= 0,
    ;
}

/// Every place of the channels is some part's row.
pub proof fn lemma_slot_has_owner(lens: Seq<u32>, channels: int, p: int) -> (r: (int, int, int))
    requires
        0 <= p < channels * before(lens, lens.len() as int),
    ensures
        0 <= r.0 < channels,
        0 <= r.1 < lens.len(),
        0 <= r.2 < lens[r.1],
        slot(lens, r.0, r.1, r.2) == p,
{
    let total = before(lens, lens.len() as int);
    lemma_before_monotone(lens, 0, lens.len() as int);
    let c = p / total;
    let rest = p % total;
    assert(total > 0) by (nonlinear_arith)
        requires
            0 <= p < channels * total,
            total >= 0,
    ;
    vstd::arithmetic::div_mod::lemma_fundamental_div_mod(p, total);
    assert(0 <= c < channels && c * total + rest == p && 0 <= rest < total) by (nonlinear_arith)
        requires
            0 <= p < channels * total,
            total > 0,
            p == total * c + rest,
            0 <= rest < total,
    ;
    let k = lemma_row_has_owner(lens, lens.len() as int, rest);
    (c, k, rest - before(lens, k))
}

/// Joins the channels of all parts: channel after channel, part after part.
pub fn join_channels<T: Copy>(
    parts: &Vec<Vec<Vec<T>>>,
    channels: usize,
    Ghost(lens): Ghost<Seq<u32>>,
) -> (joined: Vec<T>)
    requires
        lens.len() == parts@.len(),
        forall|k: int| 0 <= k < parts@.len() ==> (#[trigger] parts@[k])@.len() == channels,
        forall|k: int, c: int|
            0 <= k < parts@.len() && 0 <= c < channels ==> (#[trigger] parts@[k]@[c])@.len()
                == lens[k],
    ensures
        joined@.len() == channels * before(lens, lens.len() as int),
        forall|c: int, k: int, i: int|
            0 <= c < channels && 0 <= k < parts@.len() && 0 <= i < lens[k]
                ==> joined@[#[trigger] slot(lens, c, k, i)] == parts@[k]@[c]@[i],
{
    let n = parts.len();
    let ghost total = before(lens, n as int);
    let mut joined: Vec<T> = Vec::new();
    let mut c: usize = 0;
    proof {
        assert(0 * total == 0) by (nonlinear_arith);
        lemma_before_monotone(lens, 0, n as int);
    }
    while c < channels
        invariant
            c <= channels,
            n == parts@.len(),
            lens.len() == n,
            forall|k: int| 0 <= k < parts@.len() ==> (#[trigger] parts@[k])@.len() == channels,
            forall|k: int, d: int|
                0 <= k < parts@.len() && 0 <= d < channels ==> (#[trigger] parts@[k]@[d])@.len()
                    == lens[k],
            total == before(lens, n as int),
            total >= 0,
            joined@.len() == c * total,
            forall|d: int, k: int, i: int|
                0 <= d < c && 0 <= k < n && 0 <= i < lens[k] ==> joined@[#[trigger] slot(
                    lens,
                    d,
                    k,
                    i,
                )] == parts@[k]@[d]@[i],
        decreases channels - c,
    {
        let ghost before_c = joined@;
        let ghost base = c * total;
        let mut k: usize = 0;
        while k < n
            invariant
                c < channels,
                k <= n,
                n == parts@.len(),
                lens.len() == n,
                forall|j: int| 0 <= j < parts@.len() ==> (#[trigger] parts@[j])@.len() == channels,
                forall|j: int, d: int|
                    0 <= j < parts@.len() && 0 <= d < channels ==> (
                    #[trigger] parts@[j]@[d])@.len() == lens[j],
                base >= 0,
                base == before_c.len(),
                joined@.len() == base + before(lens, k as int),
                forall|r: int| 0 <= r < base ==> #[trigger] joined@[r] == before_c[r],
                forall|j: int, i: int|
                    0 <= j < k && 0 <= i < lens[j] ==> joined@[base + #[trigger] row(lens, j, i)]
                        == parts@[j]@[c as int]@[i],
            decreases n - k,
        {
            let list: &Vec<T> = &parts[k][c];
            let len = list.len();
            let ghost was = joined@;
            let mut i: usize = 0;
            while i < len
                invariant
                    i <= len,
                    len == list@.len(),
                    joined@.len() == was.len() + i,
                    forall|r: int| 0 <= r < was.len() ==> #[trigger] joined@[r] == was[r],
                    forall|j: int| 0 <= j < i ==> joined@[was.len() + j] == #[trigger] list@[j],
                decreases len - i,
            {
                joined.push(list[i]);
                i = i + 1;
            }
            proof {
                assert(list@ == parts@[k as int]@[c as int]@);
                assert(len == lens[k as int]);
                lemma_before_monotone(lens, 0, k as int);
                assert forall|r: int| 0 <= r < base implies #[trigger] joined@[r] == before_c[r] by {
                    assert(was[r] == before_c[r]);
                }
                assert forall|j: int, i: int| 0 <= j < k + 1 && 0 <= i < lens[j] implies joined@[base
                    + #[trigger] row(lens, j, i)] == parts@[j]@[c as int]@[i] by {
                    lemma_before_monotone(lens, 0, j);
                    if j < k {
                        lemma_before_monotone(lens, j + 1, k as int);
                        assert(was[base + row(lens, j, i)] == joined@[base + row(lens, j, i)]);
                    } else {
                        assert(joined@[was.len() + i] == list@[i]);
                    }
                }
            }
            k = k + 1;
        }
        proof {
            assert(c * total + total == (c + 1) * total) by (nonlinear_arith);
            assert forall|d: int, k: int, i: int|
                0 <= d < c + 1 && 0 <= k < n && 0 <= i < lens[k] implies joined@[#[trigger] slot(
                lens,
                d,
                k,
                i,
            )] == parts@[k]@[d]@[i] by {
                lemma_before_monotone(lens, 0, k);
                lemma_before_monotone(lens, k + 1, n as int);
                if d < c {
                    lemma_slot_in_range(lens, c as int, d, k, i);
                    assert(joined@[slot(lens, d, k, i)] == before_c[slot(lens, d, k, i)]);
                } else {
                    assert(joined@[base + row(lens, k, i)] == parts@[k]@[c as int]@[i]);
                }
            }
        }
        c = c + 1;
    }
    joined
}

// ---------------------------------------------------------------------------
// Lists
// ---------------------------------------------------------------------------

/// Where list `k` starts once the lists are flattened.
pub open spec fn list_start<T>(lists: Seq<Vec<T>>, k: int) -> int
    decreases k,
{
    if k <= 0 {
        0
    } else {
        list_start(lists, k - 1) + lists[k - 1]@.len()
    }
}

/// Place of element `i` of list `k` once the lists are flattened.
pub open spec fn list_place<T>(lists: Seq<Vec<T>>, k: int, i: int) -> int {
    list_start(lists, k) + i
}

/// Lists start where the ones before them end.
pub proof fn lemma_list_start_monotone<T>(lists: Seq<Vec<T>>, i: int, j: int)
    requires
        0 <= i <= j,
    ensures
        0 <= list_start(lists, i) <= list_start(lists, j),
    decreases j - i, i,
{
    if i < j {
        lemma_list_start_monotone(lists, i, j - 1);
    } else if i > 0 {
        lemma_list_start_monotone(lists, i - 1, i - 1);
    }
}

/// Joins lists one after the other.
pub fn flatten<T: Copy>(lists: &Vec<Vec<T>>) -> (flat: Vec<T>)
    ensures
        flat@.len() == list_start(lists@, lists@.len() as int),
        forall|k: int, i: int|
            0 <= k < lists@.len() && 0 <= i < lists@[k]@.len() ==> flat@[#[trigger] list_place(
                lists@,
                k,
                i,
            )] == lists@[k]@[i],
{
    let n = lists.len();
    let mut flat: Vec<T> = Vec::new();
    let mut k: usize = 0;
    while k < n
        invariant
            k <= n,
            n == lists@.len(),
            flat@.len() == list_start(lists@, k as int),
            forall|j: int, i: int|
                0 <= j < k && 0 <= i < lists@[j]@.len() ==> flat@[#[trigger] list_place(
                    lists@,
                    j,
                    i,
                )] == lists@[j]@[i],
        decreases n - k,
    {
        let list: &Vec<T> = &lists[k];
        let len = list.len();
        let ghost was = flat@;
        let mut i: usize = 0;
        while i < len
            invariant
                i <= len,
                len == list@.len(),
                flat@.len() == was.len() + i,
                forall|r: int| 0 <= r < was.len() ==> #[trigger] flat@[r] == was[r],
                forall|j: int| 0 <= j < i ==> flat@[was.len() + j] == #[trigger] list@[j],
            decreases len - i,
        {
            flat.push(list[i]);
            i = i + 1;
        }
        proof {
            assert forall|j: int, i: int|
                0 <= j < k + 1 && 0 <= i < lists@[j]@.len() implies flat@[#[trigger] list_place(
                lists@,
                j,
                i,
            )] == lists@[j]@[i] by {
                lemma_list_start_monotone(lists@, 0, j);
                if j < k {
                    lemma_list_start_monotone(lists@, j + 1, k as int);
                    assert(was[list_place(lists@, j, i)] == flat@[list_place(lists@, j, i)]);
                } else {
                    assert(flat@[was.len() + i] == list@[i]);
                }
            }
        }
        k = k + 1;
    }
    flat
}

// ---------------------------------------------------------------------------
// Placing blocks
// ---------------------------------------------------------------------------

/// Place of row `r` of channel `c` where a channel has `total` rows.
pub open spec fn cell(total: int, c: int, r: int) -> int {
    c * total + r
}

/// Different rows and channels have different places.
pub proof fn lemma_cells_differ(total: int, c: int, r: int, d: int, q: int)
    requires
        0 <= r < total,
        0 <= q < total,
        cell(total, c, r) == cell(total, d, q),
    ensures
        c == d,
        r == q,
{
    assert(c == d) by (nonlinear_arith)
        requires
            0 <= r < total,
            0 <= q < total,
            c * total + r == d * total + q,
    ;
}

pub proof fn lemma_cell_in_range(total: int, channels: int, c: int, r: int)
    requires
        0 <= r < total,
        0 <= c < channels,
    ensures
        0 <= c * total,
        0 <= cell(total, c, r) < channels * total,
        cell(total, c, r) <= channels * total - (total - r),
{
    assert(0 <= c * total && c * total + total <= channels * total) by (nonlinear_arith)
        requires
            0 <= c < channels,
            total > 0,
    ;
}

/// Copies `src` over `dst[at..]`.
pub fn place<T: Copy>(dst: &mut Vec<T>, at: usize, src: &[T])
    requires
        at + src@.len() <= old(dst)@.len(),
    ensures
        final(dst)@.len() == old(dst)@.len(),
        forall|p: int|
            0 <= p < old(dst)@.len() ==> #[trigger] final(dst)@[p] == if at <= p < at + src@.len() {
                src@[p - at]
            } else {
                old(dst)@[p]
            },
{
    let n = src.len();
    let len = dst.len();
    let ghost was = dst@;
    let mut i: usize = 0;
    while i < n
        invariant
            i <= n,
            n == src@.len(),
            len == was.len(),
            dst@.len() == was.len(),
            at + n <= was.len(),
            forall|p: int|
                0 <= p < was.len() ==> #[trigger] dst@[p] == if at <= p < at + i {
                    src@[p - at]
                } else {
                    was[p]
                },
        decreases n - i,
    {
        dst.set(at + i, src[i]);
        i = i + 1;
    }
}

/// Copies a block of `channels` channels of `rows` rows into `dst`, whose channels
/// have `total` rows, from row `row0` on.
pub fn scatter<T: Copy>(
    dst: &mut Vec<T>,
    src: &[T],
    channels: usize,
    total: usize,
    rows: usize,
    row0: usize,
)
    requires
        rows > 0,
        row0 + rows <= total,
        old(dst)@.len() == channels * total,
        src@.len() == channels * rows,
    ensures
        final(dst)@.len() == old(dst)@.len(),
        forall|c: int, r: int|
            0 <= c < channels && 0 <= r < total ==> final(dst)@[#[trigger] cell(
                total as int,
                c,
                r,
            )] == if row0 <= r < row0 + rows {
                src@[cell(rows as int, c, r - row0)]
            } else {
                old(dst)@[cell(total as int, c, r)]
            },
{
    let ghost was = dst@;
    let n_dst = dst.len();
    let n_src = src.len();
    let mut c: usize = 0;
    while c < channels
        invariant
            c <= channels,
            rows > 0,
            row0 + rows <= total,
            was.len() == channels * total,
            dst@.len() == was.len(),
            n_dst == was.len(),
            n_src == src@.len(),
            src@.len() == channels * rows,
            forall|d: int, r: int|
                0 <= d < channels && 0 <= r < total ==> dst@[#[trigger] cell(total as int, d, r)]
                    == if d < c && row0 <= r < row0 + rows {
                    src@[cell(rows as int, d, r - row0)]
                } else {
                    was[cell(total as int, d, r)]
                },
        decreases channels - c,
    {
        proof {
            lemma_cell_in_range(total as int, channels as int, c as int, row0 as int);
            lemma_cell_in_range(rows as int, channels as int, c as int, 0);
        }
        let ghost before = dst@;
        let a: usize = c * rows;
        let at: usize = c * total + row0;
        place(dst, at, &src[a..a + rows]);
        proof {
            assert forall|d: int, r: int|
                0 <= d < channels && 0 <= r < total implies dst@[#[trigger] cell(
                total as int,
                d,
                r,
            )] == if d < c + 1 && row0 <= r < row0 + rows {
                src@[cell(rows as int, d, r - row0)]
            } else {
                was[cell(total as int, d, r)]
            } by {
                lemma_cell_in_range(total as int, channels as int, d, r);
                let p = cell(total as int, d, r);
                if at <= p < at + rows {
                    let q = p - at + row0;
                    assert(cell(total as int, c as int, q) == p);
                    lemma_cells_differ(total as int, d, r, c as int, q);
                    assert(src@.subrange(a as int, a + rows)[p - at] == src@[a + (p - at)]);
                } else {
                    assert(dst@[p] == before[p]);
                    if d == c && row0 <= r < row0 + rows {
                        assert(p == at + (r - row0));
                    }
                }
            }
        }
        c = c + 1;
    }
}

/// A copy of a table.
pub fn copied(v: &Vec<u32>) -> (r: Vec<u32>)
    ensures
        r@ == v@,
{
    let mut r: Vec<u32> = Vec::new();
    r.extend_from_slice(v);
    assert(r@ =~= v@);
    r
}

} // verus!
