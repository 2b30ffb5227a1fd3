//! What the beam search achieves as a whole: while costs stay below the bound that
//! marks a slot dead it is not lost, and a beam as wide as the log finds a cheapest
//! path.
use vstd::prelude::*;
use vstd::arithmetic::power2::*;
use vstd::set_lib::*;
use crate::arith;
use crate::arith::Arith;
use crate::beam::BeamConfig;
use crate::beam_reference::{Beam, Candidates, Search, BEAM_DEAD, BEAM_INF};
use crate::beam_reference as beams;
use crate::exact;
use crate::ieee;

verus! {

// ---------------------------------------------------------------------------
// One step
// ---------------------------------------------------------------------------

/// Of the live candidates on the sample of a live one, the one that nothing
/// displaces.
proof fn lemma_front_runner(c: Candidates, u: int, n: int) -> (v: int)
    requires
        beams::comparable(c),
        0 <= n <= c.cost.len(),
        0 <= u < c.cost.len(),
        ieee::less64(c.cost[u], BEAM_DEAD),
    ensures
        0 <= v < c.cost.len(),
        ieee::less64(c.cost[v], BEAM_DEAD),
        c.idx[v] == c.idx[u],
        v == u || beams::ahead(c, v, u),
        forall|w: int| 0 <= w < n ==> !#[trigger] beams::displaces(c, w, v),
    decreases n,
{
    if n == 0 {
        u
    } else {
        let v = lemma_front_runner(c, u, n - 1);
        assert(!ieee::nan64(c.cost[u]) && !ieee::nan64(c.cost[v]) && !ieee::nan64(c.cost[n - 1]));
        if beams::displaces(c, n - 1, v) {
            assert forall|w: int| 0 <= w < n implies !#[trigger] beams::displaces(c, w, n - 1) by {
                assert(!ieee::nan64(c.cost[w]));
                if w < n - 1 && beams::displaces(c, w, n - 1) {
                    assert(beams::displaces(c, w, v));
                }
            }
            n - 1
        } else {
            v
        }
    }
}

/// Where a candidate is alive, one on its sample takes a slot, at no greater cost.
proof fn lemma_sample_survives(c: Candidates, u: int) -> (v: int)
    requires
        beams::comparable(c),
        0 <= u < c.cost.len(),
        ieee::less64(c.cost[u], BEAM_DEAD),
    ensures
        0 <= v < c.cost.len(),
        c.idx[v] == c.idx[u],
        ieee::at_most64(c.cost[v], c.cost[u]),
        ieee::less64(c.cost[v], BEAM_DEAD),
        !beams::dropped(c, v),
        beams::rank(c, v, c.cost.len() as int) >= 0,
        beams::winner(c, beams::rank(c, v, c.cost.len() as int)) == v,
{
    let len = c.cost.len() as int;
    let v = lemma_front_runner(c, u, len);
    assert(!ieee::nan64(c.cost[u]) && !ieee::nan64(c.cost[v]));
    beams::lemma_rank_bound(c, v, len);
    beams::lemma_rank_is_slot(c, v);
    v
}

/// Where any candidate is alive, the first slot is taken.
proof fn lemma_first_slot_is_taken(c: Candidates, u: int)
    requires
        beams::comparable(c),
        0 <= u < c.cost.len(),
        ieee::less64(c.cost[u], BEAM_DEAD),
    ensures
        beams::winner(c, 0) >= 0,
{
    let v = lemma_sample_survives(c, u);
    let s = beams::rank(c, v, c.cost.len() as int);
    if s > 0 {
        beams::lemma_survivors_leave_no_gap(c, 0, s);
    }
}

/// The cheapest slot costs no more than any slot whose cost is a number, as long as
/// the first slot's is one.
proof fn lemma_cheapest_is_cheapest(cost: Seq<u64>, n: int, s: int)
    requires
        0 <= s < n,
        !ieee::nan64(cost[0]),
        !ieee::nan64(cost[s]),
    ensures
        0 <= beams::cheapest(cost, n) < n,
        ieee::at_most64(cost[beams::cheapest(cost, n)], cost[s]),
        ieee::at_most64(cost[beams::cheapest(cost, n)], cost[0]),
    decreases n,
{
    if n > 1 {
        if s < n - 1 {
            lemma_cheapest_is_cheapest(cost, n - 1, s);
        } else {
            lemma_cheapest_is_cheapest(cost, n - 1, 0);
        }
    }
}

// ---------------------------------------------------------------------------
// A search that is not lost
// ---------------------------------------------------------------------------

impl<A: Arith> Search<A> {
    /// Every cost stays below the bound that marks a slot dead: of what a row's moves
    /// reach, and of what its survivors are left with.
    pub open spec fn stays_alive(self) -> bool {
        &&& forall|k: int, u: int|
            #![trigger self.candidates(k).cost[u]]
            0 <= k < self.sgr.len() && 0 <= u < 5 * self.cfg.beam_size && beams::reachable(
                self.beam(k),
                self.tw_tvt.len() as int,
                u,
            ) ==> ieee::less64(self.candidates(k).cost[u], BEAM_DEAD)
        &&& forall|k: int, s: int|
            #![trigger beams::winner(self.candidates(k), s)]
            0 <= k < self.sgr.len() && 0 <= s < self.cfg.beam_size && beams::winner(
                self.candidates(k),
                s,
            ) >= 0 ==> ieee::less64(self.beam(k + 1).cost[s], BEAM_DEAD)
    }

    /// Candidates of a search that stays alive: numbers, and dead exactly where they
    /// are out of reach.
    proof fn lemma_candidates(self, k: int)
        requires
            self.posed(),
            self.stays_alive(),
            0 <= k < self.sgr.len(),
        ensures
            beams::comparable(self.candidates(k)),
            self.candidates(k).cost.len() == 5 * self.cfg.beam_size,
            self.candidates(k).idx.len() == 5 * self.cfg.beam_size,
            forall|u: int|
                0 <= u < 5 * self.cfg.beam_size ==> (ieee::less64(
                    #[trigger] self.candidates(k).cost[u],
                    BEAM_DEAD,
                ) <==> beams::reachable(self.beam(k), self.tw_tvt.len() as int, u)),
            forall|u: int|
                0 <= u < 5 * self.cfg.beam_size && beams::reachable(
                    self.beam(k),
                    self.tw_tvt.len() as int,
                    u,
                ) ==> #[trigger] self.candidates(k).idx[u] == beams::target(self.beam(k), u),
    {
        let c = self.candidates(k);
        let b = self.beam(k);
        let nt = self.tw_tvt.len() as int;
        self.lemma_beam_width(k);
        assert forall|u: int| 0 <= u < c.cost.len() implies !ieee::nan64(#[trigger] c.cost[u]) && (
        ieee::less64(c.cost[u], BEAM_DEAD) <==> beams::reachable(b, nt, u)) by {
            assert(c.cost[u] == beams::candidate_cost(
                self.m,
                b,
                self.sgr[k],
                self.tw_gr,
                nt,
                self.cfg,
                u,
            ));
        }
        assert forall|u: int|
            0 <= u < c.cost.len() && beams::reachable(b, nt, u) implies #[trigger] c.idx[u]
            == beams::target(b, u) by {
            assert(c.idx[u] == beams::candidate_idx(b, nt, u));
        }
    }

    /// What a slot holds after row `k`.
    proof fn lemma_slot_after(self, k: int, s: int)
        requires
            self.posed(),
            self.stays_alive(),
            0 <= k < self.sgr.len(),
            0 <= s < self.cfg.beam_size,
        ensures
            ({
                let c = self.candidates(k);
                let u = beams::winner(c, s);
                let after = self.beam(k + 1);
                &&& ieee::less64(after.cost[s], BEAM_DEAD) <==> u >= 0
                &&& u >= 0 ==> {
                    &&& u < 5 * self.cfg.beam_size
                    &&& beams::reachable(self.beam(k), self.tw_tvt.len() as int, u)
                    &&& after.idx[s] == beams::target(self.beam(k), u)
                    &&& beams::survivor(c, s) == beams::target(self.beam(k), u)
                    &&& beams::parent(c, s) == u / 5
                    &&& beams::taken_cost(c, s) == c.cost[u]
                }
            }),
    {
        let c = self.candidates(k);
        let b = self.beam(k);
        let after = self.beam(k + 1);
        self.lemma_beam_width(k);
        self.lemma_candidates(k);
        beams::lemma_holder(c, s, c.cost.len() as int);
        assert(after == beams::advanced(self.m, b, c));
        assert(after.cost[s] == beams::renormalised(
            self.m,
            beams::taken_cost(c, s),
            beams::taken_cost(c, 0),
        ));
        assert(after.idx[s] == beams::kept_idx(b, c, s));
        let u = beams::winner(c, s);
        if u >= 0 {
            assert(!ieee::nan64(c.cost[u]));
            assert(ieee::less64(c.cost[u], BEAM_DEAD));
            assert(beams::reachable(b, self.tw_tvt.len() as int, u));
            assert(c.idx[u] == beams::target(b, u));
        }
    }

    /// Before every row the first slot is alive, and every live slot on the log.
    proof fn lemma_alive(self, k: int)
        requires
            self.posed(),
            self.stays_alive(),
            0 <= k <= self.sgr.len(),
        ensures
            ieee::less64(self.beam(k).cost[0], BEAM_DEAD),
            forall|s: int|
                0 <= s < self.cfg.beam_size && ieee::less64(
                    #[trigger] self.beam(k).cost[s],
                    BEAM_DEAD,
                ) ==> 0 <= self.beam(k).idx[s] < self.tw_tvt.len(),
        decreases k,
    {
        let nt = self.tw_tvt.len() as int;
        if k == 0 {
            beams::lemma_nearest_in_range(self.m, self.tw_tvt, self.last_tvt);
        } else {
            self.lemma_alive(k - 1);
            self.lemma_candidates(k - 1);
            let c = self.candidates(k - 1);
            let b = self.beam(k - 1);
            // Staying put is always open to the first slot.
            assert(b.cost[2int / 5] == b.cost[0]);
            assert(beams::target(b, 2) == b.idx[0]);
            assert(beams::reachable(b, nt, 2));
            assert(ieee::less64(c.cost[2], BEAM_DEAD));
            lemma_first_slot_is_taken(c, 2);
            self.lemma_slot_after(k - 1, 0);
            assert forall|s: int|
                0 <= s < self.cfg.beam_size && ieee::less64(
                    #[trigger] self.beam(k).cost[s],
                    BEAM_DEAD,
                ) implies 0 <= self.beam(k).idx[s] < nt by {
                self.lemma_slot_after(k - 1, s);
            }
        }
    }
}

/// A search whose costs all stay below the bound that marks a slot dead is not lost.
pub proof fn lemma_live_search_is_found<A: Arith>(search: Search<A>)
    requires
        search.posed(),
        search.sgr.len() > 0,
        search.stays_alive(),
    ensures
        search.found(),
{
    let n = search.sgr.len() as int;
    let cost = search.beam(n).cost;
    search.lemma_alive(n);
    lemma_cheapest_is_cheapest(cost, search.cfg.beam_size as int, 0);
    search.lemma_slot_after(n - 1, search.best());
}

// ---------------------------------------------------------------------------
// A beam as wide as the log
// ---------------------------------------------------------------------------

/// Samples of the first `n` candidates that are in and ahead of `u`.
spec fn samples_ahead(c: Candidates, u: int, n: int) -> Set<int>
    decreases n,
{
    if n <= 0 {
        Set::empty()
    } else if !beams::dropped(c, n - 1) && beams::ahead(c, n - 1, u) {
        samples_ahead(c, u, n - 1).insert(c.idx[n - 1] as int)
    } else {
        samples_ahead(c, u, n - 1)
    }
}

/// Candidates that are in stand on samples of their own, so a rank counts samples.
proof fn lemma_rank_counts_samples(c: Candidates, u: int, n: int)
    requires
        beams::comparable(c),
        0 <= u < c.cost.len(),
        0 <= n <= c.cost.len(),
        !beams::dropped(c, u),
    ensures
        samples_ahead(c, u, n).finite(),
        samples_ahead(c, u, n).len() == beams::rank(c, u, n),
        !samples_ahead(c, u, n).contains(c.idx[u] as int),
        forall|x: int| #[trigger]
            samples_ahead(c, u, n).contains(x) ==> exists|w: int|
                0 <= w < n && !beams::dropped(c, w) && beams::ahead(c, w, u)
                    && #[trigger] c.idx[w] == x,
    decreases n,
{
    if n > 0 {
        lemma_rank_counts_samples(c, u, n - 1);
        let set = samples_ahead(c, u, n - 1);
        let v = n - 1;
        if !beams::dropped(c, v) && beams::ahead(c, v, u) {
            assert(!ieee::nan64(c.cost[u]) && !ieee::nan64(c.cost[v]));
            if c.idx[v] == c.idx[u] {
                assert(beams::displaces(c, v, u));
            }
            if set.contains(c.idx[v] as int) {
                let w = choose|w: int|
                    0 <= w < n - 1 && !beams::dropped(c, w) && beams::ahead(c, w, u)
                        && #[trigger] c.idx[w] == c.idx[v];
                assert(!ieee::nan64(c.cost[w]));
                assert(beams::displaces(c, w, v) || beams::displaces(c, v, w));
            }
        }
        assert forall|x: int| #[trigger] samples_ahead(c, u, n).contains(x) implies exists|w: int|
            0 <= w < n && !beams::dropped(c, w) && beams::ahead(c, w, u)
                && #[trigger] c.idx[w] == x by {
            if set.contains(x) {
                let w = choose|w: int|
                    0 <= w < n - 1 && !beams::dropped(c, w) && beams::ahead(c, w, u)
                        && #[trigger] c.idx[w] == x;
                assert(c.idx[w] == x);
            } else {
                assert(c.idx[v] == x);
            }
        }
    }
}

/// Distance between two samples.
pub open spec fn span(i: int, j: int) -> int {
    if i < j {
        j - i
    } else {
        i - j
    }
}

impl<A: Arith> Search<A> {
    /// Sample that the search starts on.
    pub open spec fn start(self) -> int {
        beams::nearest(self.m, self.tw_tvt, self.last_tvt)
    }

    /// What row `k` adds to the cost of a path that gets to sample `j` by `steps`
    /// samples: the mismatch of the two readings, and the price of the move.
    pub open spec fn fare(self, k: int, j: int, steps: int) -> int {
        let d = arith::difference64(self.m, self.sgr[k], self.tw_gr[j]);
        let mismatch = arith::quotient64(
            self.m,
            arith::product64(self.m, d, d),
            self.cfg.err_scale,
        );
        let price = arith::product64(
            self.m,
            self.cfg.move_cost,
            arith::of_int64(self.m, steps as u64),
        );
        ieee::value64(mismatch) + ieee::value64(price)
    }

    /// Sample that a path comes from at row `k`.
    pub open spec fn before(self, path: Seq<int>, k: int) -> int {
        if k <= 0 {
            self.start()
        } else {
            path[k - 1]
        }
    }

    /// A path that a search may take: one sample of the log per row, at most two away
    /// from the one before, the first at most two away from the start.
    pub open spec fn legal(self, path: Seq<int>) -> bool {
        &&& path.len() == self.sgr.len()
        &&& forall|k: int|
            #![trigger path[k]]
            0 <= k < path.len() ==> 0 <= path[k] < self.tw_tvt.len() && span(
                self.before(path, k),
                path[k],
            ) <= 2
    }

    /// Cost of the first `k` rows of a path, in units of `2^-1074`.
    pub open spec fn path_cost(self, path: Seq<int>, k: int) -> int
        decreases k,
    {
        if k <= 0 {
            0
        } else {
            self.path_cost(path, k - 1) + self.fare(
                k - 1,
                path[k - 1],
                span(self.before(path, k - 1), path[k - 1]),
            )
        }
    }

    /// The path that the search traces back.
    pub open spec fn traced(self) -> Seq<int> {
        Seq::new(self.sgr.len(), |k: int| self.sample(k))
    }

    /// No sum or difference of costs rounds: a candidate costs what its hypothesis did
    /// and what the move adds, and a survivor what it was taken at, measured from the
    /// cheapest one.
    pub open spec fn sums_are_exact(self) -> bool {
        &&& forall|k: int, u: int|
            #![trigger self.candidates(k).cost[u]]
            0 <= k < self.sgr.len() && 0 <= u < 5 * self.cfg.beam_size && beams::reachable(
                self.beam(k),
                self.tw_tvt.len() as int,
                u,
            ) ==> {
                &&& ieee::finite64(self.candidates(k).cost[u])
                &&& ieee::value64(self.candidates(k).cost[u]) == ieee::value64(
                    self.beam(k).cost[u / 5],
                ) + self.fare(k, beams::target(self.beam(k), u), beams::distance(u))
            }
        &&& forall|k: int, s: int|
            #![trigger beams::winner(self.candidates(k), s)]
            0 <= k < self.sgr.len() && 0 <= s < self.cfg.beam_size && beams::winner(
                self.candidates(k),
                s,
            ) >= 0 ==> {
                &&& ieee::finite64(self.beam(k + 1).cost[s])
                &&& ieee::value64(self.beam(k + 1).cost[s]) == ieee::value64(
                    beams::taken_cost(self.candidates(k), s),
                ) - ieee::value64(beams::taken_cost(self.candidates(k), 0))
            }
    }

    /// What measuring from the cheapest hypothesis has taken off the costs before
    /// row `k`.
    spec fn taken_off(self, k: int) -> int
        decreases k,
    {
        if k <= 0 {
            0
        } else {
            self.taken_off(k - 1) + ieee::value64(beams::taken_cost(self.candidates(k - 1), 0))
        }
    }

    /// In a beam as wide as the log every sample that is reached keeps a slot.
    proof fn lemma_rank_fits(self, k: int, v: int)
        requires
            self.posed(),
            self.stays_alive(),
            self.cfg.beam_size >= self.tw_tvt.len(),
            0 <= k < self.sgr.len(),
            0 <= v < 5 * self.cfg.beam_size,
            !beams::dropped(self.candidates(k), v),
        ensures
            0 <= beams::rank(self.candidates(k), v, 5 * self.cfg.beam_size) < self.cfg.beam_size,
    {
        let c = self.candidates(k);
        let b = self.beam(k);
        let nt = self.tw_tvt.len() as int;
        let len = 5 * self.cfg.beam_size;
        self.lemma_candidates(k);
        lemma_rank_counts_samples(c, v, len);
        beams::lemma_rank_bound(c, v, len);
        let set = samples_ahead(c, v, len);
        assert(!ieee::nan64(c.cost[v]));
        assert(ieee::less64(c.cost[v], BEAM_DEAD));
        assert(c.idx[v] == beams::target(b, v));
        lemma_int_range(0, nt);
        let all = set_int_range(0, nt);
        let others = all.remove(c.idx[v] as int);
        assert(all.contains(c.idx[v] as int));
        assert(others.len() == nt - 1);
        assert(set.subset_of(others)) by {
            assert forall|x: int| set.contains(x) implies others.contains(x) by {
                let w = choose|w: int|
                    0 <= w < len && !beams::dropped(c, w) && beams::ahead(c, w, v)
                        && #[trigger] c.idx[w] == x;
                assert(!ieee::nan64(c.cost[w]));
                assert(ieee::less64(c.cost[w], BEAM_DEAD));
                assert(c.idx[w] == beams::target(b, w));
            }
        }
        lemma_len_subset(set, others);
    }

    /// Before every row, some live slot stands where a legal path does, at no greater
    /// cost.
    proof fn lemma_beam_keeps_up(self, path: Seq<int>, k: int) -> (s: int)
        requires
            self.posed(),
            self.stays_alive(),
            self.sums_are_exact(),
            self.cfg.beam_size >= self.tw_tvt.len(),
            self.legal(path),
            0 <= k <= self.sgr.len(),
        ensures
            0 <= s < self.cfg.beam_size,
            ieee::less64(self.beam(k).cost[s], BEAM_DEAD),
            ieee::finite64(self.beam(k).cost[s]),
            self.beam(k).idx[s] == self.before(path, k),
            ieee::value64(self.beam(k).cost[s]) + self.taken_off(k) <= self.path_cost(path, k),
        decreases k,
    {
        if k == 0 {
            beams::lemma_nearest_in_range(self.m, self.tw_tvt, self.last_tvt);
            0
        } else {
            let s = self.lemma_beam_keeps_up(path, k - 1);
            let b = self.beam(k - 1);
            let c = self.candidates(k - 1);
            let nt = self.tw_tvt.len() as int;
            let (from, to) = (self.before(path, k - 1), path[k - 1]);
            let u = 5 * s + (to - from + 2);
            assert(span(from, to) <= 2);
            assert(u / 5 == s && u % 5 == to - from + 2);
            assert(beams::target(b, u) == to);
            assert(beams::distance(u) == span(from, to));
            assert(beams::reachable(b, nt, u));
            self.lemma_candidates(k - 1);
            assert(ieee::less64(c.cost[u], BEAM_DEAD));
            let v = lemma_sample_survives(c, u);
            self.lemma_rank_fits(k - 1, v);
            let t = beams::rank(c, v, 5 * self.cfg.beam_size);
            assert(beams::winner(c, t) == v);
            self.lemma_slot_after(k - 1, t);
            assert(c.idx[u] == beams::target(b, u));
            assert(c.idx[v] == beams::target(b, v));
            ieee::lemma_value_orders(c.cost[v], c.cost[u]);
            t
        }
    }

    /// Slot that the traced path comes from at row `k`.
    spec fn slot_before(self, k: int) -> int {
        if k <= 0 {
            0
        } else {
            self.slot(k - 1)
        }
    }

    /// The traced path's slots stand where the path does, and cost what it does.
    proof fn lemma_traced_cost(self, k: int)
        requires
            self.posed(),
            self.stays_alive(),
            self.sums_are_exact(),
            self.found(),
            0 <= k <= self.sgr.len(),
        ensures
            0 <= self.slot_before(k) < self.cfg.beam_size,
            self.beam(k).idx[self.slot_before(k)] == self.before(self.traced(), k),
            ieee::value64(self.beam(k).cost[self.slot_before(k)]) + self.taken_off(k)
                == self.path_cost(self.traced(), k),
        decreases k,
    {
        if k == 0 {
            beams::lemma_nearest_in_range(self.m, self.tw_tvt, self.last_tvt);
        } else {
            self.lemma_traced_cost(k - 1);
            let b = self.beam(k - 1);
            let c = self.candidates(k - 1);
            let t = self.slot(k - 1);
            self.lemma_path_back(k - 1);
            self.lemma_slot_after(k - 1, t);
            self.lemma_candidates(k - 1);
            let u = beams::winner(c, t);
            let from = self.before(self.traced(), k - 1);
            assert(u / 5 == self.slot_before(k - 1)) by {
                if k - 1 == 0 {
                    assert(b.cost[u / 5] == if u / 5 == 0 {
                        ieee::ZERO64
                    } else {
                        BEAM_INF
                    });
                } else {
                    assert(self.slot(k - 2) == beams::parent(c, t));
                }
            }
            assert(self.sample(k - 1) == beams::target(b, u));
            assert(self.traced()[k - 1] == self.sample(k - 1));
            assert(beams::distance(u) == span(from, beams::target(b, u)));
            assert(ieee::less64(c.cost[u], BEAM_DEAD));
        }
    }
}

/// With a beam at least as wide as the log nothing is pruned: where costs stay below
/// the bound that marks a slot dead and no sum of costs rounds, the traced path is
/// legal, and no legal path costs less.
pub proof fn lemma_wide_beam_is_optimal<A: Arith>(search: Search<A>, path: Seq<int>)
    requires
        search.posed(),
        search.sgr.len() > 0,
        search.cfg.beam_size >= search.tw_tvt.len(),
        search.stays_alive(),
        search.sums_are_exact(),
        search.legal(path),
    ensures
        search.legal(search.traced()),
        search.path_cost(search.traced(), search.sgr.len() as int) <= search.path_cost(
            path,
            search.sgr.len() as int,
        ),
{
    let n = search.sgr.len() as int;
    lemma_live_search_is_found(search);
    let traced = search.traced();
    assert forall|k: int| #![trigger traced[k]] 0 <= k < traced.len() implies 0 <= traced[k]
        < search.tw_tvt.len() && span(search.before(traced, k), traced[k]) <= 2 by {
        beams::lemma_path_walks_the_log(search, k);
    }
    let s = search.lemma_beam_keeps_up(path, n);
    search.lemma_traced_cost(n);
    search.lemma_alive(n);
    let cost = search.beam(n).cost;
    let best = search.best();
    lemma_cheapest_is_cheapest(cost, search.cfg.beam_size as int, s);
    search.lemma_slot_after(n - 1, best);
    ieee::lemma_value_orders(cost[best], cost[s]);
}

// ---------------------------------------------------------------------------
// What a move costs
// ---------------------------------------------------------------------------

/// Cost of a move as a number: the squared difference of the two readings over the
/// error scale, and the move cost for every sample moved.
pub open spec fn toll(gv: u64, tw: u64, steps: int, err_scale: u64, move_cost: u64) -> real {
    let d = exact::number64(gv) - exact::number64(tw);
    (d * d) / exact::number64(err_scale) + exact::number64(move_cost) * steps as real
}

/// What goes into a toll is finite and does not round.
pub open spec fn toll_fits(gv: u64, tw: u64, steps: int, err_scale: u64, move_cost: u64) -> bool {
    let d = exact::number64(gv) - exact::number64(tw);
    &&& ieee::finite64(gv) && ieee::finite64(tw)
    &&& ieee::finite64(err_scale) && ieee::finite64(move_cost)
    &&& exact::number64(err_scale) != 0 as real
    &&& exact::fits64(d)
    &&& exact::fits64(d * d)
    &&& exact::fits64((d * d) / exact::number64(err_scale))
    &&& exact::fits64(exact::number64(move_cost) * steps as real)
}

proof fn lemma_moved_cost<A: Arith>(m: A, base: u64, gv: u64, tw: u64, steps: int, cfg: BeamConfig)
    requires
        exact::faithful64(m),
        ieee::finite64(base),
        0 <= steps <= 2,
        toll_fits(gv, tw, steps, cfg.err_scale, cfg.move_cost),
        ({
            let d = exact::number64(gv) - exact::number64(tw);
            exact::fits64(
                exact::number64(base) + (d * d) / exact::number64(cfg.err_scale),
            )
        }),
    ensures
        ({
            let d = arith::difference64(m, gv, tw);
            let mismatch = arith::quotient64(m, arith::product64(m, d, d), cfg.err_scale);
            let price = arith::product64(m, cfg.move_cost, arith::of_int64(m, steps as u64));
            let total = exact::number64(base) + toll(gv, tw, steps, cfg.err_scale, cfg.move_cost);
            &&& ieee::finite64(mismatch) && ieee::finite64(price)
            &&& exact::number64(mismatch) + exact::number64(price) == toll(
                gv,
                tw,
                steps,
                cfg.err_scale,
                cfg.move_cost,
            )
            &&& exact::near64(beams::moved_cost(m, base, gv, tw, steps, cfg), total)
        }),
{
    exact::lemma_difference64(m, gv, tw);
    let d = arith::difference64(m, gv, tw);
    exact::lemma_product64(m, d, d);
    let dd = arith::product64(m, d, d);
    exact::lemma_quotient64(m, dd, cfg.err_scale);
    let mismatch = arith::quotient64(m, dd, cfg.err_scale);
    exact::lemma_sum64(m, base, mismatch);
    exact::lemma_of_int64(m, steps as u64);
    exact::lemma_product64(m, cfg.move_cost, arith::of_int64(m, steps as u64));
    let price = arith::product64(m, cfg.move_cost, arith::of_int64(m, steps as u64));
    exact::lemma_sum64(m, arith::sum64(m, base, mismatch), price);
}

/// A hypothesis moves by up to two samples each way, and a move costs what the
/// hypothesis did, the squared difference of the readings over the error scale, and the
/// move cost for every sample moved, rounded once.
pub proof fn lemma_candidate_costs_its_move<A: Arith>(
    m: A,
    b: Beam,
    gv: u64,
    tw_gr: Seq<u64>,
    nt: int,
    cfg: BeamConfig,
    s: int,
    j: int,
)
    requires
        exact::faithful64(m),
        b.idx.len() == b.cost.len(),
        0 <= s < b.idx.len(),
        ieee::less64(b.cost[s], BEAM_DEAD),
        ieee::finite64(b.cost[s]),
        0 <= j < nt <= u32::MAX,
        span(b.idx[s] as int, j) <= 2,
        toll_fits(gv, tw_gr[j], span(b.idx[s] as int, j), cfg.err_scale, cfg.move_cost),
        ({
            let d = exact::number64(gv) - exact::number64(tw_gr[j]);
            exact::fits64(
                exact::number64(b.cost[s]) + (d * d) / exact::number64(cfg.err_scale),
            )
        }),
    ensures
        exists|u: int|
            0 <= u < 5 * b.idx.len() && u / 5 == s && #[trigger] beams::expanded(
                m,
                b,
                gv,
                tw_gr,
                nt,
                cfg,
            ).idx[u] == j && exact::near64(
                beams::expanded(m, b, gv, tw_gr, nt, cfg).cost[u],
                exact::number64(b.cost[s]) + toll(
                    gv,
                    tw_gr[j],
                    span(b.idx[s] as int, j),
                    cfg.err_scale,
                    cfg.move_cost,
                ),
            ),
{
    let from = b.idx[s] as int;
    let u = 5 * s + (j - from + 2);
    assert(u / 5 == s && u % 5 == j - from + 2);
    assert(beams::target(b, u) == j);
    assert(beams::distance(u) == span(from, j));
    assert(beams::reachable(b, nt, u));
    lemma_moved_cost(m, b.cost[s], gv, tw_gr[j], span(from, j), cfg);
    let c = beams::expanded(m, b, gv, tw_gr, nt, cfg);
    assert(c.idx[u] == beams::candidate_idx(b, nt, u));
    assert(c.cost[u] == beams::candidate_cost(m, b, gv, tw_gr, nt, cfg, u));
}

/// Nothing but those moves is on offer: a live candidate is at most two samples from the
/// hypothesis it comes from, on the log, and costs its move.
pub proof fn lemma_candidates_are_moves<A: Arith>(
    m: A,
    b: Beam,
    gv: u64,
    tw_gr: Seq<u64>,
    nt: int,
    cfg: BeamConfig,
    u: int,
)
    requires
        exact::faithful64(m),
        b.idx.len() == b.cost.len(),
        0 <= u < 5 * b.idx.len(),
        0 < nt <= u32::MAX,
        ieee::less64(beams::expanded(m, b, gv, tw_gr, nt, cfg).cost[u], BEAM_DEAD),
    ensures
        ({
            let c = beams::expanded(m, b, gv, tw_gr, nt, cfg);
            let (from, j) = (b.idx[u / 5] as int, c.idx[u] as int);
            let d = exact::number64(gv) - exact::number64(tw_gr[j]);
            &&& ieee::less64(b.cost[u / 5], BEAM_DEAD)
            &&& 0 <= j < nt
            &&& span(from, j) <= 2
            &&& ieee::finite64(b.cost[u / 5]) && toll_fits(
                gv,
                tw_gr[j],
                span(from, j),
                cfg.err_scale,
                cfg.move_cost,
            ) && exact::fits64(
                exact::number64(b.cost[u / 5]) + (d * d) / exact::number64(cfg.err_scale),
            ) ==> exact::near64(
                c.cost[u],
                exact::number64(b.cost[u / 5]) + toll(
                    gv,
                    tw_gr[j],
                    span(from, j),
                    cfg.err_scale,
                    cfg.move_cost,
                ),
            )
        }),
{
    let c = beams::expanded(m, b, gv, tw_gr, nt, cfg);
    assert(c.idx[u] == beams::candidate_idx(b, nt, u));
    assert(c.cost[u] == beams::candidate_cost(m, b, gv, tw_gr, nt, cfg, u));
    assert(beams::reachable(b, nt, u));
    let (from, j) = (b.idx[u / 5] as int, c.idx[u] as int);
    assert(j == from + u % 5 - 2);
    assert(beams::distance(u) == span(from, j));
    let d = exact::number64(gv) - exact::number64(tw_gr[j]);
    if ieee::finite64(b.cost[u / 5]) && toll_fits(
        gv,
        tw_gr[j],
        span(from, j),
        cfg.err_scale,
        cfg.move_cost,
    ) && exact::fits64(
        exact::number64(b.cost[u / 5]) + (d * d) / exact::number64(cfg.err_scale),
    ) {
        lemma_moved_cost(m, b.cost[u / 5], gv, tw_gr[j], span(from, j), cfg);
    }
}

/// Distance between two numbers.
pub open spec fn apart(a: real, b: real) -> real {
    if a < b {
        b - a
    } else {
        a - b
    }
}

proof fn lemma_gap_is_distance<A: Arith>(m: A, v: u64, x: u64)
    requires
        exact::faithful64(m),
        ieee::finite64(v),
        ieee::finite64(x),
        exact::fits64(apart(exact::number64(v), exact::number64(x))),
    ensures
        exact::is64(beams::gap(m, v, x), apart(exact::number64(v), exact::number64(x))),
{
    exact::lemma_order64(x, v);
    exact::lemma_difference64(m, v, x);
    exact::lemma_difference64(m, x, v);
}

/// The search starts on the sample nearest the last known depth, the first of them where
/// several are equally near, in an ascending log whose distances from it have patterns.
/// A depth more than `1e30` beyond the log's end starts on the last sample.
#[verifier::rlimit(50)]
pub proof fn lemma_start_is_the_nearest_sample<A: Arith>(m: A, tw: Seq<u64>, v: u64, i: int)
    requires
        exact::faithful64(m),
        ieee::finite64(v),
        forall|j: int|
            0 <= j < tw.len() ==> ieee::finite64(#[trigger] tw[j]) && exact::fits64(
                apart(exact::number64(v), exact::number64(tw[j])),
            ),
        forall|j: int, k: int|
            0 <= j <= k < tw.len() ==> exact::number64(#[trigger] tw[j]) <= exact::number64(
                #[trigger] tw[k],
            ),
        0 <= i < tw.len(),
    ensures
        ({
            let r = beams::nearest(m, tw, v);
            let (x, far) = (exact::number64(v), exact::number64(tw.last()));
            &&& 0 <= r < tw.len()
            &&& apart(x, exact::number64(tw[r])) <= apart(x, exact::number64(tw[i]))
            &&& i < r && x - far <= exact::number64(BEAM_INF) ==> apart(
                x,
                exact::number64(tw[r]),
            ) < apart(x, exact::number64(tw[i]))
        }),
{
    let n = tw.len() as int;
    let x = exact::number64(v);
    assert forall|j: int, k: int| 0 <= j <= k < n implies ieee::at_most64(
        #[trigger] tw[j],
        #[trigger] tw[k],
    ) by {
        exact::lemma_order64(tw[j], tw[k]);
    }
    assert forall|j: int, k: int| 0 <= j < n && 0 <= k < n implies {
        &&& ieee::at_most64(#[trigger] tw[j], #[trigger] tw[k]) && ieee::less64(tw[k], v)
            ==> ieee::at_most64(beams::gap(m, v, tw[k]), beams::gap(m, v, tw[j]))
        &&& ieee::at_most64(tw[j], tw[k]) && ieee::at_most64(v, tw[j]) ==> ieee::at_most64(
            beams::gap(m, v, tw[j]),
            beams::gap(m, v, tw[k]),
        )
        &&& ieee::less64(tw[j], tw[k]) && ieee::less64(tw[k], v) ==> ieee::less64(
            beams::gap(m, v, tw[k]),
            beams::gap(m, v, tw[j]),
        )
    } by {
        lemma_gap_is_distance(m, v, tw[j]);
        lemma_gap_is_distance(m, v, tw[k]);
        exact::lemma_order64(tw[j], tw[k]);
        exact::lemma_order64(tw[k], v);
        exact::lemma_order64(v, tw[j]);
        exact::lemma_order64(beams::gap(m, v, tw[k]), beams::gap(m, v, tw[j]));
        exact::lemma_order64(beams::gap(m, v, tw[j]), beams::gap(m, v, tw[k]));
    }
    assert(beams::gaps_grow(m, tw, v));
    assert(beams::gaps_differ(m, tw, v));
    beams::lemma_nearest_is_the_first_minimiser(m, tw, v);
    let r = beams::nearest(m, tw, v);
    assert(ieee::at_most64(tw[r], tw[r]) && ieee::at_most64(tw[i], tw[i]));
    lemma_gap_is_distance(m, v, tw[r]);
    lemma_gap_is_distance(m, v, tw[i]);
    exact::lemma_order64(beams::gap(m, v, tw[r]), beams::gap(m, v, tw[i]));
    let last = tw[n - 1];
    lemma_gap_is_distance(m, v, last);
    exact::lemma_order64(v, last);
    exact::lemma_order64(last, v);
    if ieee::less64(last, v) {
        exact::lemma_order64(arith::difference64(m, v, last), BEAM_INF);
    }
}

/// Slot `s` of a beam holds candidate `w`: its sample, and its cost less that of
/// candidate `f`, rounded once.
pub open spec fn holds_candidate(c: Candidates, after: Beam, s: int, w: int, f: int) -> bool {
    &&& 0 <= w < c.cost.len()
    &&& ieee::less64(c.cost[w], BEAM_DEAD)
    &&& after.idx[s] == c.idx[w]
    &&& ieee::finite64(c.cost[w]) && ieee::finite64(c.cost[f]) ==> exact::near64(
        after.cost[s],
        exact::number64(c.cost[w]) - exact::number64(c.cost[f]),
    )
}

/// A step keeps the cheapest: a live candidate is kept, or one on its sample that costs
/// no more, unless every slot holds one that costs no more. Costs are measured from a
/// candidate `f` that none is cheaper than.
#[verifier::rlimit(50)]
pub proof fn lemma_step_keeps_the_cheapest<A: Arith>(m: A, b: Beam, c: Candidates, u: int) -> (f:
    int)
    requires
        exact::faithful64(m),
        beams::comparable(c),
        b.idx.len() > 0,
        c.idx.len() == c.cost.len(),
        0 <= u < c.cost.len(),
        ieee::less64(c.cost[u], BEAM_DEAD),
    ensures
        0 <= f < c.cost.len(),
        forall|v: int|
            0 <= v < c.cost.len() && ieee::less64(#[trigger] c.cost[v], BEAM_DEAD)
                ==> ieee::at_most64(c.cost[f], c.cost[v]),
        (exists|s: int, w: int|
            0 <= s < b.idx.len() && #[trigger] holds_candidate(
                c,
                beams::advanced(m, b, c),
                s,
                w,
                f,
            ) && c.idx[w] == c.idx[u] && ieee::at_most64(c.cost[w], c.cost[u])) || (forall|s: int|
            0 <= s < b.idx.len() ==> #[trigger] filled(
                c,
                beams::advanced(m, b, c),
                s,
                c.cost[u],
                f,
            )),
{
    let after = beams::advanced(m, b, c);
    let len = c.cost.len() as int;
    lemma_first_slot_is_taken(c, u);
    let f = beams::winner(c, 0);
    beams::lemma_holder(c, 0, len);
    assert forall|v: int|
        0 <= v < len && ieee::less64(#[trigger] c.cost[v], BEAM_DEAD) implies ieee::at_most64(
        c.cost[f],
        c.cost[v],
    ) by {
        let w = lemma_sample_survives(c, v);
        lemma_slots_in_order(c, 0, w);
        assert(!ieee::nan64(c.cost[f]) && !ieee::nan64(c.cost[w]) && !ieee::nan64(c.cost[v]));
    }
    let v = lemma_sample_survives(c, u);
    let t = beams::rank(c, v, len);
    if t < b.idx.len() {
        lemma_taken_slot(m, b, c, t);
        assert(holds_candidate(c, after, t, v, f));
    } else {
        assert forall|s: int| 0 <= s < b.idx.len() implies #[trigger] filled(
            c,
            after,
            s,
            c.cost[u],
            f,
        ) by {
            beams::lemma_survivors_leave_no_gap(c, s, t);
            lemma_taken_slot(m, b, c, s);
            let w = beams::winner(c, s);
            lemma_slots_in_order(c, s, v);
            assert(!ieee::nan64(c.cost[w]) && !ieee::nan64(c.cost[v]) && !ieee::nan64(c.cost[u]));
            assert(holds_candidate(c, after, s, w, f));
        }
    }
    f
}

/// Equal costs go to the lower candidate: of two candidates at one cost the higher one is
/// kept only on another sample, and in a later slot.
pub proof fn lemma_ties_go_to_the_lower_candidate(c: Candidates, u: int, v: int, s: int, t: int)
    requires
        beams::comparable(c),
        c.idx.len() == c.cost.len(),
        0 <= u < v < c.cost.len(),
        ieee::equal64(c.cost[u], c.cost[v]),
        0 <= s,
        0 <= t,
        beams::winner(c, t) == v,
    ensures
        c.idx[u] != c.idx[v],
        beams::winner(c, s) == u ==> s < t,
{
    beams::lemma_holder(c, t, c.cost.len() as int);
    assert(!ieee::nan64(c.cost[u]) && !ieee::nan64(c.cost[v]));
    if c.idx[u] == c.idx[v] {
        assert(beams::displaces(c, u, v));
    }
    if beams::winner(c, s) == u && t < s {
        beams::lemma_survivors_ordered_and_distinct(c, t, s);
    }
}

/// Slot `s` holds a candidate that costs at most `x`.
pub open spec fn filled(c: Candidates, after: Beam, s: int, x: u64, f: int) -> bool {
    exists|w: int| #[trigger] holds_candidate(c, after, s, w, f) && ieee::at_most64(c.cost[w], x)
}

/// A candidate that is in costs no less than the one in a slot up to its own.
proof fn lemma_slots_in_order(c: Candidates, s: int, v: int)
    requires
        beams::comparable(c),
        c.idx.len() == c.cost.len(),
        0 <= v < c.cost.len(),
        beams::winner(c, beams::rank(c, v, c.cost.len() as int)) == v,
        0 <= s <= beams::rank(c, v, c.cost.len() as int),
        beams::winner(c, s) >= 0,
    ensures
        ieee::at_most64(c.cost[beams::winner(c, s)], c.cost[v]),
{
    let len = c.cost.len() as int;
    let t = beams::rank(c, v, len);
    beams::lemma_holder(c, s, len);
    assert(!ieee::nan64(c.cost[v]) && !ieee::nan64(c.cost[beams::winner(c, s)]));
    if s < t {
        beams::lemma_survivors_ordered_and_distinct(c, s, t);
    }
}

/// A slot that is taken holds its winner.
proof fn lemma_taken_slot<A: Arith>(m: A, b: Beam, c: Candidates, s: int)
    requires
        exact::faithful64(m),
        beams::comparable(c),
        0 <= s < b.idx.len(),
        beams::winner(c, s) >= 0,
        beams::winner(c, 0) >= 0,
    ensures
        holds_candidate(
            c,
            beams::advanced(m, b, c),
            s,
            beams::winner(c, s),
            beams::winner(c, 0),
        ),
{
    let len = c.cost.len() as int;
    let (w, f) = (beams::winner(c, s), beams::winner(c, 0));
    beams::lemma_holder(c, s, len);
    beams::lemma_holder(c, 0, len);
    assert(!ieee::nan64(c.cost[w]) && !ieee::nan64(c.cost[f]));
    let after = beams::advanced(m, b, c);
    assert(after.idx[s] == beams::kept_idx(b, c, s));
    assert(after.cost[s] == beams::renormalised(
        m,
        beams::taken_cost(c, s),
        beams::taken_cost(c, 0),
    ));
    if ieee::finite64(c.cost[w]) && ieee::finite64(c.cost[f]) {
        exact::lemma_difference64(m, c.cost[w], c.cost[f]);
    }
}

// ---------------------------------------------------------------------------
// The cheapest path, as numbers
// ---------------------------------------------------------------------------

impl<A: Arith> Search<A> {
    /// Toll of row `k` for getting from sample `from` to sample `to`.
    pub open spec fn row_toll(self, k: int, from: int, to: int) -> real {
        toll(
            self.sgr[k],
            self.tw_gr[to],
            span(from, to),
            self.cfg.err_scale,
            self.cfg.move_cost,
        )
    }

    /// What the first `k` rows of a path add up to.
    pub open spec fn path_toll(self, path: Seq<int>, k: int) -> real
        decreases k,
    {
        if k <= 0 {
            0 as real
        } else {
            self.path_toll(path, k - 1) + self.row_toll(
                k - 1,
                self.before(path, k - 1),
                path[k - 1],
            )
        }
    }

    /// Nothing that goes into a cost rounds: no toll, no sum of a hypothesis' cost with
    /// the parts of one, and no difference between a survivor's cost and the cheapest.
    #[verifier::opaque]
    pub open spec fn costs_fit(self) -> bool {
        &&& forall|k: int, j: int, steps: int|
            0 <= k < self.sgr.len() && 0 <= j < self.tw_tvt.len() && 0 <= steps <= 2
                ==> #[trigger] toll_fits(
                self.sgr[k],
                self.tw_gr[j],
                steps,
                self.cfg.err_scale,
                self.cfg.move_cost,
            )
        &&& forall|k: int, s: int, j: int|
            #![trigger self.beam(k).cost[s], self.tw_gr[j]]
            0 <= k < self.sgr.len() && 0 <= s < self.cfg.beam_size && 0 <= j < self.tw_tvt.len()
                && ieee::less64(self.beam(k).cost[s], BEAM_DEAD) && span(
                self.beam(k).idx[s] as int,
                j,
            ) <= 2 ==> {
                let base = exact::number64(self.beam(k).cost[s]);
                let d = exact::number64(self.sgr[k]) - exact::number64(self.tw_gr[j]);
                &&& ieee::finite64(self.beam(k).cost[s])
                &&& exact::fits64(base + (d * d) / exact::number64(self.cfg.err_scale))
                &&& exact::fits64(base + self.row_toll(k, self.beam(k).idx[s] as int, j))
            }
        &&& forall|k: int, s: int|
            #![trigger beams::winner(self.candidates(k), s)]
            0 <= k < self.sgr.len() && 0 <= s < self.cfg.beam_size && beams::winner(
                self.candidates(k),
                s,
            ) >= 0 ==> exact::fits64(
                exact::number64(beams::taken_cost(self.candidates(k), s)) - exact::number64(
                    beams::taken_cost(self.candidates(k), 0),
                ),
            )
    }

    /// A row's fare is its toll.
    proof fn lemma_fare_is_toll(self, k: int, from: int, to: int)
        requires
            exact::faithful64(self.m),
            self.costs_fit(),
            0 <= k < self.sgr.len(),
            0 <= to < self.tw_tvt.len(),
            span(from, to) <= 2,
        ensures
            self.fare(k, to, span(from, to)) as real / pow2(1074) as real == self.row_toll(
                k,
                from,
                to,
            ),
    {
        reveal(Search::costs_fit);
        let steps = span(from, to);
        let (gv, tw) = (self.sgr[k], self.tw_gr[to]);
        assert(toll_fits(gv, tw, steps, self.cfg.err_scale, self.cfg.move_cost));
        exact::lemma_constants64();
        let z = exact::number64(gv) - exact::number64(tw);
        let q = (z * z) / exact::number64(self.cfg.err_scale);
        assert(exact::number64(ieee::ZERO64) + q == q);
        lemma_moved_cost(self.m, ieee::ZERO64, gv, tw, steps, self.cfg);
        let d = arith::difference64(self.m, gv, tw);
        let mismatch = arith::quotient64(
            self.m,
            arith::product64(self.m, d, d),
            self.cfg.err_scale,
        );
        let price = arith::product64(
            self.m,
            self.cfg.move_cost,
            arith::of_int64(self.m, steps as u64),
        );
        lemma_values_add(ieee::value64(mismatch), ieee::value64(price));
    }

    /// Costs that do not round are exact sums.
    #[verifier::rlimit(50)]
    proof fn lemma_costs_are_exact(self)
        requires
            exact::faithful64(self.m),
            self.posed(),
            self.stays_alive(),
            self.costs_fit(),
        ensures
            self.sums_are_exact(),
    {
        reveal(Search::costs_fit);
        let nt = self.tw_tvt.len() as int;
        assert forall|k: int, u: int|
            #![trigger self.candidates(k).cost[u]]
            0 <= k < self.sgr.len() && 0 <= u < 5 * self.cfg.beam_size && beams::reachable(
                self.beam(k),
                nt,
                u,
            ) implies {
            &&& ieee::finite64(self.candidates(k).cost[u])
            &&& ieee::value64(self.candidates(k).cost[u]) == ieee::value64(
                self.beam(k).cost[u / 5],
            ) + self.fare(k, beams::target(self.beam(k), u), beams::distance(u))
        } by {
            self.lemma_candidate_is_exact(k, u);
        }
        assert forall|k: int, s: int|
            #![trigger beams::winner(self.candidates(k), s)]
            0 <= k < self.sgr.len() && 0 <= s < self.cfg.beam_size && beams::winner(
                self.candidates(k),
                s,
            ) >= 0 implies {
            &&& ieee::finite64(self.beam(k + 1).cost[s])
            &&& ieee::value64(self.beam(k + 1).cost[s]) == ieee::value64(
                beams::taken_cost(self.candidates(k), s),
            ) - ieee::value64(beams::taken_cost(self.candidates(k), 0))
        } by {
            let c = self.candidates(k);
            self.lemma_candidates(k);
            if s > 0 {
                beams::lemma_survivors_leave_no_gap(c, 0, s);
            }
            self.lemma_slot_after(k, s);
            self.lemma_slot_after(k, 0);
            self.lemma_beam_width(k);
            let (x, y) = (beams::taken_cost(c, s), beams::taken_cost(c, 0));
            self.lemma_candidate_is_exact(k, beams::winner(c, s));
            self.lemma_candidate_is_exact(k, beams::winner(c, 0));
            assert(ieee::less64(x, BEAM_DEAD));
            let after = self.beam(k + 1);
            assert(after == beams::advanced(self.m, self.beam(k), c));
            assert(after.cost[s] == beams::renormalised(self.m, x, y));
            exact::lemma_difference64(self.m, x, y);
            lemma_values_add(ieee::value64(after.cost[s]), ieee::value64(y));
            lemma_same_value(
                ieee::value64(x),
                ieee::value64(after.cost[s]) + ieee::value64(y),
            );
        }
    }

    #[verifier::rlimit(50)]
    proof fn lemma_candidate_is_exact(self, k: int, u: int)
        requires
            exact::faithful64(self.m),
            self.posed(),
            self.stays_alive(),
            self.costs_fit(),
            0 <= k < self.sgr.len(),
            0 <= u < 5 * self.cfg.beam_size,
            beams::reachable(self.beam(k), self.tw_tvt.len() as int, u),
        ensures
            ieee::finite64(self.candidates(k).cost[u]),
            ieee::value64(self.candidates(k).cost[u]) == ieee::value64(self.beam(k).cost[u / 5])
                + self.fare(k, beams::target(self.beam(k), u), beams::distance(u)),
    {
        reveal(Search::costs_fit);
        let nt = self.tw_tvt.len() as int;
        let b = self.beam(k);
        let c = self.candidates(k);
        self.lemma_beam_width(k);
        self.lemma_candidates(k);
        let s = u / 5;
        let (from, j) = (b.idx[s] as int, beams::target(b, u));
        assert(j == from + u % 5 - 2);
        assert(span(from, j) == beams::distance(u));
        assert(c.idx[u] == j);
        assert(ieee::less64(b.cost[s], BEAM_DEAD));
        assert(self.beam(k).cost[s] == b.cost[s] && self.tw_gr[j] == self.tw_gr[j]);
        assert(toll_fits(
            self.sgr[k],
            self.tw_gr[j],
            span(from, j),
            self.cfg.err_scale,
            self.cfg.move_cost,
        ));
        lemma_candidates_are_moves(self.m, b, self.sgr[k], self.tw_gr, nt, self.cfg, u);
        let total = exact::number64(b.cost[s]) + self.row_toll(k, from, j);
        exact::lemma_near_is64(c.cost[u], total);
        self.lemma_fare_is_toll(k, from, j);
        let f = self.fare(k, j, span(from, j));
        lemma_values_add(ieee::value64(b.cost[s]), f);
        lemma_same_value(ieee::value64(c.cost[u]), ieee::value64(b.cost[s]) + f);
    }

    /// The cost of a legal path is its toll.
    proof fn lemma_path_cost_is_toll(self, path: Seq<int>, k: int)
        requires
            exact::faithful64(self.m),
            self.costs_fit(),
            self.legal(path),
            0 <= k <= path.len(),
        ensures
            self.path_cost(path, k) as real / pow2(1074) as real == self.path_toll(path, k),
        decreases k,
    {
        if k > 0 {
            self.lemma_path_cost_is_toll(path, k - 1);
            assert(0 <= path[k - 1] < self.tw_tvt.len());
            let from = self.before(path, k - 1);
            self.lemma_fare_is_toll(k - 1, from, path[k - 1]);
            lemma_values_add(
                self.path_cost(path, k - 1),
                self.fare(k - 1, path[k - 1], span(from, path[k - 1])),
            );
        } else {
            lemma_values_add(0, 0);
        }
    }
}

proof fn lemma_values_add(a: int, b: int)
    ensures
        (a + b) as real / pow2(1074) as real == a as real / pow2(1074) as real + b as real / pow2(
            1074,
        ) as real,
        0 as real / pow2(1074) as real == 0 as real,
{
    lemma_pow2_pos(1074);
    let (x, y, d) = (a as real, b as real, pow2(1074) as real);
    assert((x + y) / d == x / d + y / d && 0 as real / d == 0 as real) by (nonlinear_arith)
        requires
            d > 0 as real,
    ;
}

proof fn lemma_same_value(a: int, b: int)
    requires
        a as real / pow2(1074) as real == b as real / pow2(1074) as real,
    ensures
        a == b,
{
    lemma_pow2_pos(1074);
    let (x, y, d) = (a as real, b as real, pow2(1074) as real);
    assert(x == y) by (nonlinear_arith)
        requires
            d > 0 as real,
            x / d == y / d,
    ;
}

/// With a beam at least as wide as the log the traced path is a cheapest one: of all
/// paths that start at most two samples from the start sample and move by at most two
/// samples a row, none has a smaller sum of squared differences over the error scale and
/// of move costs per sample moved. Nothing is asked of the search but that its
/// arithmetic rounds faithfully, that no cost of it rounds, and that none reaches the
/// bound that marks a slot dead.
#[verifier::rlimit(50)]
pub proof fn lemma_wide_beam_finds_a_cheapest_path<A: Arith>(search: Search<A>, path: Seq<int>)
    requires
        exact::faithful64(search.m),
        search.posed(),
        search.sgr.len() > 0,
        search.cfg.beam_size >= search.tw_tvt.len(),
        search.stays_alive(),
        search.costs_fit(),
        search.legal(path),
    ensures
        search.legal(search.traced()),
        search.path_toll(search.traced(), search.sgr.len() as int) <= search.path_toll(
            path,
            search.sgr.len() as int,
        ),
{
    let n = search.sgr.len() as int;
    let (a, b) = (search.path_cost(search.traced(), n), search.path_cost(path, n));
    assert(search.legal(search.traced()) && a <= b) by {
        search.lemma_costs_are_exact();
        lemma_wide_beam_is_optimal(search, path);
    }
    search.lemma_path_cost_is_toll(path, n);
    search.lemma_path_cost_is_toll(search.traced(), n);
    lemma_values_keep_order(a, b);
}

proof fn lemma_values_keep_order(a: int, b: int)
    requires
        a <= b,
    ensures
        a as real / pow2(1074) as real <= b as real / pow2(1074) as real,
{
    lemma_pow2_pos(1074);
    let (x, y, d) = (a as real, b as real, pow2(1074) as real);
    assert(x / d <= y / d) by (nonlinear_arith)
        requires
            x <= y,
            d > 0 as real,
    ;
}

} // verus!
