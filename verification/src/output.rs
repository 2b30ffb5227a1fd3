//! Seed-reduced trajectories of a particle-filter batch.
use vstd::prelude::*;
use vstd::string::*;
use crate::layout;

verus! {

/// Seed-reduced trajectories for a batch of wells. Floats are binary32 patterns.
#[derive(Debug, Clone)]
pub struct PfOutput {
    /// Output channel names: one per scale in the requested order, then `pf_mean`,
    /// then `pf_pt_std` where it was asked for.
    pub channels: Vec<String>,
    /// Values by channel and row.
    pub values: Vec<u32>,
    /// Total log-likelihood by well and seed.
    pub liks: Vec<u32>,
    /// Seeds per well: the stride of `liks` and `seed_paths`.
    pub n_seeds: u32,
    /// Every seed's own trajectory, by well, seed and row, present only when it was
    /// asked for.
    pub seed_paths: Option<Vec<u32>>,
    /// Start of each well's block within `seed_paths`.
    pub pred_offsets: Vec<u32>,
    /// Start of each well's rows within a channel.
    pub ev_offsets: Vec<u32>,
    /// Evaluation row count per well.
    pub ev_lens: Vec<u32>,
    /// Indices into the caller's wells of the wells actually filtered: wells with an
    /// empty evaluation zone are dropped.
    pub kept: Vec<usize>,
}

/// Position of the first channel from the `k`-th on that is called `name`.
pub open spec fn channel_position(channels: Seq<String>, name: Seq<char>, k: int) -> Option<int>
    decreases channels.len() - k,
{
    if k < 0 || k >= channels.len() {
        None
    } else if channels[k]@ == name {
        Some(k)
    } else {
        channel_position(channels, name, k + 1)
    }
}

impl PfOutput {
    /// Evaluation rows of all wells.
    pub open spec fn rows(self) -> int {
        layout::before(self.ev_lens@, self.ev_lens@.len() as int)
    }

    /// The offset tables agree with the lengths, and every channel covers the rows.
    pub open spec fn wf(self) -> bool {
        &&& self.ev_offsets@.len() == self.ev_lens@.len()
        &&& self.values@.len() == self.channels@.len() * self.rows()
        &&& self.rows() <= u32::MAX
        &&& forall|k: int|
            0 <= k < self.ev_lens@.len() ==> #[trigger] self.ev_offsets@[k] == layout::before(
                self.ev_lens@,
                k,
            )
    }

    /// Rows of channel `k`.
    pub open spec fn channel_rows(self, k: int) -> Seq<u32> {
        self.values@.subrange(k * self.rows(), (k + 1) * self.rows())
    }

    /// Rows of the first channel called `name`.
    pub open spec fn channel_of(self, name: Seq<char>) -> Option<Seq<u32>> {
        match channel_position(self.channels@, name, 0) {
            Some(k) => Some(self.channel_rows(k)),
            None => None,
        }
    }

    /// The trajectories of all seeds of a well: nothing where they were not kept or
    /// there is no such well.
    pub open spec fn paths_of(self, well: int) -> Option<Seq<u32>> {
        let off = self.pred_offsets@[well] as int;
        let len = self.ev_lens@[well] * self.n_seeds;
        match self.seed_paths {
            None => None,
            Some(paths) => if well < self.pred_offsets@.len() && well < self.ev_lens@.len() && off
                + len <= paths@.len() {
                Some(paths@.subrange(off, off + len))
            } else {
                None
            },
        }
    }

    /// The trajectory of one seed of a well: nothing where the well has none, or there
    /// is no such seed.
    pub open spec fn path_of(self, well: int, seed: int) -> Option<Seq<u32>> {
        let len = self.ev_lens@[well] as int;
        match self.paths_of(well) {
            None => None,
            Some(block) => if (seed + 1) * len <= block.len() {
                Some(block.subrange(seed * len, (seed + 1) * len))
            } else {
                None
            },
        }
    }

    /// Every well has a block of trajectories where they were kept.
    pub open spec fn paths_wf(self) -> bool {
        &&& self.pred_offsets@.len() == self.ev_lens@.len()
        &&& self.seed_paths matches Some(paths) ==> forall|k: int|
            0 <= k < self.ev_lens@.len() ==> #[trigger] self.pred_offsets@[k] + self.ev_lens@[k]
                * self.n_seeds <= paths@.len()
    }

    /// The first `k` trajectories of a well, one after the other.
    pub open spec fn joined_paths(self, well: int, k: int) -> Seq<u32>
        decreases k,
    {
        if k <= 0 {
            Seq::empty()
        } else {
            self.joined_paths(well, k - 1) + self.path_of(well, k - 1)->0
        }
    }

    /// Total evaluation rows across all wells.
    pub fn total_rows(&self) -> (r: usize)
        requires
            self.rows() <= usize::MAX,
        ensures
            r == self.rows(),
    {
        let n = self.ev_lens.len();
        let mut total: usize = 0;
        let mut k: usize = 0;
        while k < n
            invariant
                k <= n,
                n == self.ev_lens@.len(),
                self.rows() <= usize::MAX,
                total == layout::before(self.ev_lens@, k as int),
            decreases n - k,
        {
            proof {
                layout::lemma_before_monotone(self.ev_lens@, k + 1, n as int);
            }
            total = total + self.ev_lens[k] as usize;
            k = k + 1;
        }
        total
    }

    /// All rows of one output channel, or `None` if the name is unknown.
    pub fn channel(&self, name: &str) -> (r: Option<&[u32]>)
        requires
            self.wf(),
        ensures
            match self.channel_of(name@) {
                Some(rows) => r is Some && r->0@ == rows,
                None => r is None,
            },
    {
        let wanted = String::from_str(name);
        let n = self.channels.len();
        let total_len = self.values.len();
        let mut k: usize = 0;
        while k < n
            invariant
                k <= n,
                n == self.channels@.len(),
                total_len == self.values@.len(),
                wanted@ == name@,
                self.wf(),
                channel_position(self.channels@, name@, k as int) == channel_position(
                    self.channels@,
                    name@,
                    0,
                ),
            decreases n - k,
        {
            if self.channels[k] == wanted {
                proof {
                    layout::lemma_before_monotone(self.ev_lens@, 0, self.ev_lens@.len() as int);
                }
                let rows = self.total_rows();
                proof {
                    let (i, c, t) = (k as int, n as int, rows as int);
                    assert(0 <= i * t && (i + 1) * t <= c * t && (i + 1) * t == i * t + t)
                        by (nonlinear_arith)
                        requires
                            0 <= i < c,
                            t >= 0,
                    ;
                }
                return Some(&self.values[k * rows..k * rows + rows]);
            }
            k = k + 1;
        }
        None
    }

    /// One well's per-seed trajectories, by seed and row, or `None` if they were not
    /// asked for or there is no such well.
    pub fn well_seed_paths(&self, well: usize) -> (r: Option<&[u32]>)
        ensures
            match self.paths_of(well as int) {
                Some(rows) => r is Some && r->0@ == rows,
                None => r is None,
            },
    {
        match &self.seed_paths {
            None => None,
            Some(paths) => {
                if well >= self.pred_offsets.len() || well >= self.ev_lens.len() {
                    return None;
                }
                let first: u64 = self.pred_offsets[well] as u64;
                let (rows, seeds): (u64, u64) = (self.ev_lens[well] as u64, self.n_seeds as u64);
                proof {
                    assert(0 <= rows * seeds <= 0xFFFF_FFFF * 0xFFFF_FFFF) by (nonlinear_arith)
                        requires
                            0 <= rows <= 0xFFFF_FFFF,
                            0 <= seeds <= 0xFFFF_FFFF,
                    ;
                }
                let last: u64 = first + rows * seeds;
                if last <= paths.len() as u64 {
                    Some(&paths[first as usize..last as usize])
                } else {
                    None
                }
            },
        }
    }

    /// One seed's trajectory for one well, or `None` if trajectories were not asked
    /// for or there is no such well or seed.
    pub fn seed_path(&self, well: usize, seed: usize) -> (r: Option<&[u32]>)
        ensures
            match self.path_of(well as int, seed as int) {
                Some(rows) => r is Some && r->0@ == rows,
                None => r is None,
            },
    {
        match self.well_seed_paths(well) {
            None => None,
            Some(block) => {
                let len: usize = self.ev_lens[well] as usize;
                let (a, b): (usize, usize) = if len == 0 {
                    (0, 0)
                } else {
                    if seed >= block.len() / len {
                        proof {
                            lemma_beyond(seed as int, len as int, block@.len() as int);
                        }
                        return None;
                    }
                    proof {
                        lemma_within(seed as int, len as int, block@.len() as int);
                    }
                    (seed * len, seed * len + len)
                };
                proof {
                    lemma_next(seed as int, len as int);
                }
                Some(&block[a..b])
            },
        }
    }

    /// One well's slice of one output channel.
    pub fn well_channel(&self, name: &str, well: usize) -> (r: Option<&[u32]>)
        requires
            self.wf(),
        ensures
            match self.channel_of(name@) {
                Some(rows) => if well < self.ev_lens@.len() {
                    r is Some && r->0@ == rows.subrange(
                        layout::before(self.ev_lens@, well as int),
                        layout::before(self.ev_lens@, well + 1),
                    )
                } else {
                    r is None
                },
                None => r is None,
            },
    {
        match self.channel(name) {
            None => None,
            Some(rows) => {
                if well >= self.ev_lens.len() {
                    return None;
                }
                proof {
                    let k = channel_position(self.channels@, name@, 0)->0;
                    lemma_channel_position(self.channels@, name@, 0);
                    let (c, t) = (self.channels@.len() as int, self.rows());
                    layout::lemma_before_monotone(
                        self.ev_lens@,
                        well + 1,
                        self.ev_lens@.len() as int,
                    );
                    layout::lemma_before_monotone(self.ev_lens@, 0, well as int);
                    assert(0 <= k * t && (k + 1) * t <= c * t && (k + 1) * t == k * t + t)
                        by (nonlinear_arith)
                        requires
                            0 <= k < c,
                            t >= 0,
                    ;
                }
                let off: usize = self.ev_offsets[well] as usize;
                let len: usize = self.ev_lens[well] as usize;
                Some(&rows[off..off + len])
            },
        }
    }
}

proof fn lemma_next(s: int, l: int)
    ensures
        (s + 1) * l == s * l + l,
        l == 0 ==> s * l == 0,
{
    assert((s + 1) * l == s * l + l && (l == 0 ==> s * l == 0)) by (nonlinear_arith);
}

proof fn lemma_beyond(s: int, l: int, n: int)
    requires
        l > 0,
        n >= 0,
        s >= n / l,
    ensures
        (s + 1) * l > n,
{
    assert((s + 1) * l > n) by (nonlinear_arith)
        requires
            l > 0,
            s >= n / l,
    ;
}

proof fn lemma_within(s: int, l: int, n: int)
    requires
        l > 0,
        0 <= s < n / l,
    ensures
        0 <= s * l,
        s * l + l <= n,
{
    assert(0 <= s * l && s * l + l <= n) by (nonlinear_arith)
        requires
            l > 0,
            0 <= s < n / l,
    ;
}

proof fn lemma_seed_fits(s: int, l: int, n: int)
    requires
        0 <= s,
        0 <= l,
    ensures
        (s + 1) * l <= l * n <==> s < n || l == 0,
{
    assert((s + 1) * l <= l * n <==> s < n || l == 0) by (nonlinear_arith)
        requires
            0 <= s,
            0 <= l,
    ;
}

/// Where the wells have their blocks, a well has trajectories exactly if they were kept
/// and the well exists; each of its seeds has one, no other index does,
/// and one after the other they are the well's block.
pub proof fn lemma_seed_paths_tile_a_well(out: PfOutput, well: int)
    requires
        out.paths_wf(),
        0 <= well,
    ensures
        out.paths_of(well) is Some <==> out.seed_paths is Some && well < out.ev_lens@.len(),
        forall|s: int|
            0 <= s && well < out.ev_lens@.len() && out.ev_lens@[well] > 0 ==> ((
            #[trigger] out.path_of(well, s)) is Some <==> out.seed_paths is Some && s
                < out.n_seeds),
        well >= out.ev_lens@.len() ==> forall|s: int| (#[trigger] out.path_of(well, s)) is None,
        out.paths_of(well) is Some ==> {
            let len = out.ev_lens@[well] as int;
            &&& out.paths_of(well)->0.len() == len * out.n_seeds
            &&& forall|s: int|
                0 <= s < out.n_seeds ==> (#[trigger] out.path_of(well, s)) is Some && out.path_of(
                    well,
                    s,
                )->0.len() == len
            &&& out.joined_paths(well, out.n_seeds as int) == out.paths_of(well)->0
        },
{
    let n = out.n_seeds as int;
    if well < out.ev_lens@.len() {
        let len = out.ev_lens@[well] as int;
        assert(0 <= len * n) by (nonlinear_arith)
            requires
                0 <= len,
                0 <= n,
        ;
        assert(out.seed_paths matches Some(paths) ==> out.pred_offsets@[well] + len * n
            <= paths@.len());
        if out.seed_paths is Some {
            assert forall|s: int| 0 <= s < n implies (#[trigger] out.path_of(well, s)) is Some
                && out.path_of(well, s)->0.len() == len by {
                lemma_next(s, len);
                assert(0 <= s * len) by (nonlinear_arith)
                    requires
                        0 <= s,
                        0 <= len,
                ;
                lemma_seed_fits(s, len, n);
            }
            assert forall|s: int| 0 <= s && len > 0 implies ((#[trigger] out.path_of(well, s))
                is Some <==> s < n) by {
                lemma_seed_fits(s, len, n);
            }
            lemma_joined(out, well, n);
            let block = out.paths_of(well)->0;
            assert(n * len == len * n) by (nonlinear_arith);
            assert(block.take(n * len) =~= block);
        }
    }
}

proof fn lemma_joined(out: PfOutput, well: int, k: int)
    requires
        out.paths_of(well) is Some,
        out.paths_of(well)->0.len() == out.ev_lens@[well] * out.n_seeds,
        0 <= k <= out.n_seeds,
    ensures
        0 <= k * out.ev_lens@[well] <= out.ev_lens@[well] * out.n_seeds,
        out.joined_paths(well, k) == out.paths_of(well)->0.take(k * out.ev_lens@[well]),
    decreases k,
{
    let (len, n) = (out.ev_lens@[well] as int, out.n_seeds as int);
    let block = out.paths_of(well)->0;
    assert(0 <= k * len <= len * n) by (nonlinear_arith)
        requires
            0 <= k <= n,
            0 <= len,
    ;
    if k > 0 {
        lemma_joined(out, well, k - 1);
        lemma_next(k - 1, len);
        assert(block.take((k - 1) * len) + block.subrange((k - 1) * len, k * len) =~= block.take(
            k * len,
        ));
    } else {
        assert(block.take(0) =~= Seq::empty());
    }
}

/// A found channel exists and has the name, and no earlier one does.
pub proof fn lemma_channel_position(channels: Seq<String>, name: Seq<char>, k: int)
    requires
        0 <= k,
    ensures
        channel_position(channels, name, k) matches Some(p) ==> {
            &&& k <= p < channels.len()
            &&& channels[p]@ == name
            &&& forall|j: int| k <= j < p ==> (#[trigger] channels[j])@ != name
        },
        channel_position(channels, name, k) is None ==> forall|j: int|
            k <= j < channels.len() ==> (#[trigger] channels[j])@ != name,
    decreases channels.len() - k,
{
    if k < channels.len() && channels[k]@ != name {
        lemma_channel_position(channels, name, k + 1);
    }
}

/// The wells' rows tile a channel: every row of it is in exactly the one well that
/// owns it, in order.
pub proof fn lemma_wells_tile_a_channel(out: PfOutput, r: int) -> (k: int)
    requires
        out.wf(),
        0 <= r < out.rows(),
    ensures
        0 <= k < out.ev_lens@.len(),
        out.ev_offsets@[k] <= r < out.ev_offsets@[k] + out.ev_lens@[k],
        forall|j: int|
            0 <= j < out.ev_lens@.len() && j != k ==> !(#[trigger] out.ev_offsets@[j] <= r
                < out.ev_offsets@[j] + out.ev_lens@[j]),
{
    let n = out.ev_lens@.len() as int;
    let k = layout::lemma_row_has_owner(out.ev_lens@, n, r);
    assert forall|j: int| 0 <= j < n && j != k implies !(#[trigger] out.ev_offsets@[j] <= r
        < out.ev_offsets@[j] + out.ev_lens@[j]) by {
        if j < k {
            layout::lemma_before_monotone(out.ev_lens@, j + 1, k);
        } else {
            layout::lemma_before_monotone(out.ev_lens@, k + 1, j);
        }
    }
    k
}

} // verus!
