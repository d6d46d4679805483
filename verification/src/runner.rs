//! The runner: binds a wave, scratch context, wrap policy and forbid
//! hook into one algorithm session, with entropy-driven stochastic
//! collapse, contradiction handling, and retry.

use vstd::prelude::*;
use rand::Rng;
use crate::entropy::spec_entropy;
use crate::grid::{Grid, Size, MAX_DIM};
use crate::pattern::GlobalStats;
use crate::propagate::{propagate, Context, masks_subset};
use crate::sums::{
    sum_prefix, lemma_sum_prefix_update, lemma_sum_prefix_pointwise_le,
    lemma_sum_prefix_two_elements,
};
use vstd::arithmetic::div_mod::{
    lemma_fundamental_div_mod, lemma_fundamental_div_mod_converse, lemma_multiply_divide_lt,
};
use crate::wave::{Wave, WaveCell, count_vals};
use crate::wrap::Wrap;
use crate::WfcError;

verus! {

#[verifier::external_type_specification]
#[verifier::external_body]
pub struct ExStdRng(rand::rngs::StdRng);

/// Relies on rand's `Rng::gen_range` over `0..n`: the documentation
/// promises a value of the given range, and a panic only on an empty
/// range, which the precondition excludes.
#[verifier::external_body]
fn gen_below(rng: &mut rand::rngs::StdRng, n: u64) -> (r: u64)
    requires
        n >= 1,
    ensures
        r < n,
{
    rng.gen_range(0..n)
}

/// One (coordinate, pattern) pair to eliminate before an attempt.
#[derive(Clone, Copy, PartialEq, Eq, Structural, Debug)]
pub struct ForbidEntry {
    pub x: u32,
    pub y: u32,
    pub pattern: u32,
}

/// Pre-run constraint injection: eliminates chosen pattern candidates
/// at chosen coordinates, once per attempt, before the first
/// propagation pass.
pub enum Forbid {
    /// Eliminates nothing.
    Nothing,
    /// Eliminates each listed (coordinate, pattern) pair.
    Eliminate(Vec<ForbidEntry>),
}

impl Forbid {
    /// Entries of the hook, empty for the no-op variant.
    pub open spec fn entries(&self) -> Seq<ForbidEntry> {
        match self {
            Forbid::Nothing => Seq::empty(),
            Forbid::Eliminate(v) => v@,
        }
    }

    /// One of the first `k` entries names the pair ((x, y), p).
    pub open spec fn forbids_upto(&self, k: int, x: int, y: int, p: int) -> bool {
        exists|k2: int|
            0 <= k2 < k
                && (#[trigger] self.entries()[k2]).x as int == x
                && self.entries()[k2].y as int == y
                && self.entries()[k2].pattern as int == p
    }

    /// Some entry names the pair ((x, y), p).
    pub open spec fn forbids(&self, x: int, y: int, p: int) -> bool {
        self.forbids_upto(self.entries().len() as int, x, y, p)
    }

    /// All entries lie inside the output of `size` and name patterns of
    /// `stats`.
    pub open spec fn ok_for(&self, size: Size, stats: GlobalStats) -> bool {
        forall|k: int| 0 <= k < self.entries().len()
            ==> (#[trigger] self.entries()[k]).x < size.width
                && self.entries()[k].y < size.height
                && (self.entries()[k].pattern as int) < stats.num_patterns_spec()
    }

    fn check_ok(&self, size: Size, stats: &GlobalStats) -> (r: bool)
        ensures
            r == self.ok_for(size, *stats),
    {
        let num = stats.num_patterns();
        match self {
            Forbid::Nothing => true,
            Forbid::Eliminate(v) => {
                let mut k: usize = 0;
                while k < v.len()
                    invariant
                        num as int == stats.num_patterns_spec(),
                        self.entries() == v@,
                        k <= v@.len(),
                        forall|k2: int| 0 <= k2 < k as int
                            ==> (#[trigger] v@[k2]).x < size.width
                                && v@[k2].y < size.height
                                && (v@[k2].pattern as int) < stats.num_patterns_spec(),
                    decreases v@.len() - k as int,
                {
                    let e = v[k];
                    if e.x >= size.width || e.y >= size.height
                        || (e.pattern as usize) >= num {
                        proof {
                            assert(self.entries()[k as int] == e);
                        }
                        return false;
                    }
                    k = k + 1;
                }
                true
            }
        }
    }
}

/// What one successful step reports.
#[derive(Clone, Copy, PartialEq, Eq, Structural, Debug)]
pub enum Step {
    /// Every cell is collapsed.
    Complete,
    /// Cells remain to collapse.
    Incomplete,
}

/// How many full attempts `collapse_retrying` may make after a
/// contradiction: a fixed count of extra retries. Unbounded retry is
/// the caller's loop over `reset` and `collapse`.
#[derive(Clone, Copy, PartialEq, Eq, Structural, Debug)]
pub enum RetryPolicy {
    /// This many retries after the first attempt.
    NumTimes(u32),
}

/// A mask with `q` and nothing else counts one.
proof fn lemma_count_single(mask: Seq<bool>, q: int, k: int)
    requires
        0 <= q < mask.len(),
        mask[q],
        forall|p: int| 0 <= p < mask.len() && p != q ==> !mask[p],
        0 <= k <= mask.len(),
    ensures
        sum_prefix(count_vals(mask), k) == if q < k { 1int } else { 0int },
    decreases k,
{
    if k > 0 {
        lemma_count_single(mask, q, k - 1);
    }
}

/// Per-cell candidate counts only shrink under a mask subset.
proof fn lemma_subset_total_le(w1: Wave, w0: Wave, stats: GlobalStats)
    requires
        w0.wf(stats),
        w1.wf(stats),
        masks_subset(w1.masks(), w0.masks()),
    ensures
        crate::propagate::wave_count_total(w1) <= crate::propagate::wave_count_total(w0),
{
    let s1 = crate::propagate::cell_count_seq(w1.cells());
    let s0 = crate::propagate::cell_count_seq(w0.cells());
    assert forall|i: int| 0 <= i < s1.len() implies #[trigger] s1[i] <= s0[i] by {
        assert(w1.cells()[i].wf(stats));
        assert(w0.cells()[i].wf(stats));
        let m1 = w1.masks()[i];
        let m0 = w0.masks()[i];
        assert forall|p: int| 0 <= p < m1.len()
            implies #[trigger] count_vals(m1)[p] <= count_vals(m0)[p] by {
            if m1[p] {
                assert(m0[p]);
            }
        }
        lemma_sum_prefix_pointwise_le(count_vals(m1), count_vals(m0), m1.len() as int);
    }
    lemma_sum_prefix_pointwise_le(s1, s0, s1.len() as int);
}

/// The candidate family at the start of an attempt: every pattern
/// possible at every cell, except the pairs the hook names.
pub open spec fn seed_masks(forbid: Forbid, stats: GlobalStats, size: Size) -> Seq<Seq<bool>> {
    Seq::new(
        size.area() as nat,
        |i: int| Seq::new(
            stats.num_patterns_spec() as nat,
            |p: int| !forbid.forbids(i % size.width as int, i / size.width as int, p),
        ),
    )
}

proof fn lemma_forbids_upto_step(forbid: Forbid, k: int, x: int, y: int, p: int)
    requires
        0 <= k < forbid.entries().len(),
    ensures
        forbid.forbids_upto(k + 1, x, y, p) <==> (forbid.forbids_upto(k, x, y, p)
            || (forbid.entries()[k].x as int == x && forbid.entries()[k].y as int == y
                && forbid.entries()[k].pattern as int == p)),
{
    let e = forbid.entries()[k];
    if forbid.forbids_upto(k + 1, x, y, p) {
        let k2 = choose|k2: int|
            0 <= k2 < k + 1
                && (#[trigger] forbid.entries()[k2]).x as int == x
                && forbid.entries()[k2].y as int == y
                && forbid.entries()[k2].pattern as int == p;
        if k2 < k {
            assert(forbid.forbids_upto(k, x, y, p));
        }
    }
    if forbid.forbids_upto(k, x, y, p) {
        let k2 = choose|k2: int|
            0 <= k2 < k
                && (#[trigger] forbid.entries()[k2]).x as int == x
                && forbid.entries()[k2].y as int == y
                && forbid.entries()[k2].pattern as int == p;
        assert((forbid.entries()[k2]).x as int == x);
        assert(forbid.forbids_upto(k + 1, x, y, p));
    }
    if e.x as int == x && e.y as int == y && e.pattern as int == p {
        assert((forbid.entries()[k]).x as int == x);
        assert(forbid.forbids_upto(k + 1, x, y, p));
    }
}

proof fn lemma_forbids_upto_mono(forbid: Forbid, k: int, x: int, y: int, p: int)
    requires
        0 <= k <= forbid.entries().len(),
        forbid.forbids_upto(k, x, y, p),
    ensures
        forbid.forbids(x, y, p),
{
    let k2 = choose|k2: int|
        0 <= k2 < k
            && (#[trigger] forbid.entries()[k2]).x as int == x
            && forbid.entries()[k2].y as int == y
            && forbid.entries()[k2].pattern as int == p;
    assert((forbid.entries()[k2]).x as int == x);
}

/// No pair named by the hook is still possible in the wave.
pub open spec fn forbid_applied(forbid: Forbid, w: Wave) -> bool {
    forall|k: int| 0 <= k < forbid.entries().len()
        ==> !w.masks()[crate::propagate::cidx(
            w.size(),
            (#[trigger] forbid.entries()[k]).x as int,
            forbid.entries()[k].y as int,
        )][forbid.entries()[k].pattern as int]
}

/// Pointwise implication of candidate masks is transitive.
pub proof fn lemma_masks_subset_trans(m2: Seq<Seq<bool>>, m1: Seq<Seq<bool>>, m0: Seq<Seq<bool>>)
    requires
        masks_subset(m2, m1),
        masks_subset(m1, m0),
        forall|i: int| 0 <= i < m2.len() ==> (#[trigger] m2[i]).len() == m1[i].len(),
    ensures
        masks_subset(m2, m0),
{
    assert forall|i: int, p: int|
        0 <= i < m2.len() && 0 <= p < m2[i].len() && (#[trigger] m2[i][p])
        implies m0[i][p]
    by {
        assert(m1[i][p]);
    }
}

/// Eliminated pairs stay eliminated while candidate sets only shrink.
pub proof fn lemma_forbid_applied_subset(
    forbid: Forbid,
    w0: Wave,
    w1: Wave,
    stats: GlobalStats,
)
    requires
        stats.wf(),
        w0.wf(stats),
        w1.wf(stats),
        forbid_applied(forbid, w0),
        masks_subset(w1.masks(), w0.masks()),
        w1.size() == w0.size(),
        forbid.ok_for(w0.size(), stats),
    ensures
        forbid_applied(forbid, w1),
{
    assert forall|k: int| 0 <= k < forbid.entries().len()
        implies !w1.masks()[crate::propagate::cidx(
            w1.size(),
            (#[trigger] forbid.entries()[k]).x as int,
            forbid.entries()[k].y as int,
        )][forbid.entries()[k].pattern as int]
    by {
        let e = forbid.entries()[k];
        let idx = crate::propagate::cidx(w0.size(), e.x as int, e.y as int);
        crate::propagate::lemma_cidx_range(w0.size(), e.x as int, e.y as int);
        assert(w1.cells()[idx].wf(stats));
        if w1.masks()[idx][e.pattern as int] {
            assert(w0.masks()[idx][e.pattern as int]);
        }
    }
}

/// One algorithm session: a wave and scratch context, the wrap policy
/// and forbid hook, and whether the current attempt has contradicted.
pub struct Runner {
    wave: Wave,
    context: Context,
    wrap: Wrap,
    forbid: Forbid,
    contradicted: bool,
    attempts: u32,
}

impl Runner {
    pub closed spec fn wave_spec(&self) -> Wave {
        self.wave
    }

    pub closed spec fn contradicted_spec(&self) -> bool {
        self.contradicted
    }

    /// Attempts made by the most recent `collapse_retrying` call.
    pub closed spec fn attempts_spec(&self) -> int {
        self.attempts as int
    }

    pub closed spec fn ctx_spec(&self) -> Context {
        self.context
    }

    pub closed spec fn wrap_spec(&self) -> Wrap {
        self.wrap
    }

    pub open spec fn inv(&self, stats: GlobalStats) -> bool {
        &&& self.wave_spec().wf(stats)
        &&& self.ctx_spec().wf(self.wave_spec().size())
        &&& !self.contradicted_spec() ==> self.wave_spec().nonempty()
        &&& !self.contradicted_spec() ==> crate::propagate::arc_consistent(
            self.wave_spec().masks(), stats, self.wrap_spec(), self.wave_spec().size())
        &&& !self.contradicted_spec() ==> self.ctx_spec().worklist_spec().len() == 0
    }

    /// Every cell of the wave has exactly one remaining pattern.
    pub open spec fn completed(&self) -> bool {
        self.wave_spec().completed()
    }

    /// Runs the forbid hook, seeds the worklist with every coordinate,
    /// and performs the initial full propagation pass. On contradiction
    /// the runner is marked contradicted.
    fn begin_attempt(&mut self, stats: &GlobalStats)
        requires
            stats.wf(),
            old(self).wave_spec().wf(*stats),
            old(self).wave_spec().nonempty(),
            old(self).ctx_spec().wf(old(self).wave_spec().size()),
            old(self).forbid.ok_for(old(self).wave_spec().size(), *stats),
            !old(self).contradicted_spec(),
            forall|i: int, p: int|
                0 <= i < old(self).wave_spec().cells().len()
                    && 0 <= p < stats.num_patterns_spec()
                    ==> (#[trigger] old(self).wave_spec().masks()[i][p]),
        ensures
            final(self).inv(*stats),
            final(self).wave_spec().size() == old(self).wave_spec().size(),
            final(self).forbid == old(self).forbid,
            final(self).wrap == old(self).wrap,
            final(self).attempts == old(self).attempts,
            !final(self).contradicted_spec()
                ==> forbid_applied(old(self).forbid, final(self).wave_spec()),
            !final(self).contradicted_spec()
                ==> crate::propagate::is_ac_subfamily_max(
                    final(self).wave_spec().masks(),
                    seed_masks(old(self).forbid, *stats, old(self).wave_spec().size()),
                    *stats,
                    old(self).wrap,
                    old(self).wave_spec().size(),
                ),
            final(self).contradicted_spec() ==> (forall|m2: Seq<Seq<bool>>|
                crate::propagate::masks_shaped(m2, *stats, old(self).wave_spec().size())
                    && masks_subset(m2, seed_masks(
                        old(self).forbid, *stats, old(self).wave_spec().size()))
                    && #[trigger] crate::propagate::arc_consistent(
                        m2, *stats, old(self).wrap, old(self).wave_spec().size())
                    ==> !crate::propagate::masks_nonempty(m2, *stats)),
    {
        let size = self.wave.size_of();
        let mut k: usize = 0;
        let nentries = match &self.forbid {
            Forbid::Nothing => 0,
            Forbid::Eliminate(v) => v.len(),
        };
        while k < nentries
            invariant
                stats.wf(),
                self.wave.wf(*stats),
                self.wave.size() == size,
                size == old(self).wave_spec().size(),
                self.ctx_spec().wf(size),
                self.forbid.ok_for(size, *stats),
                self.forbid == old(self).forbid,
                self.wrap == old(self).wrap,
                self.attempts == old(self).attempts,
                self.contradicted == old(self).contradicted,
                nentries as int == self.forbid.entries().len(),
                k <= nentries,
                self.wave.nonempty(),
                forall|k2: int| 0 <= k2 < k as int
                    ==> !self.wave.masks()[crate::propagate::cidx(
                        size,
                        (#[trigger] self.forbid.entries()[k2]).x as int,
                        self.forbid.entries()[k2].y as int,
                    )][self.forbid.entries()[k2].pattern as int],
                forall|i: int, p: int|
                    0 <= i < self.wave.cells().len()
                        && 0 <= p < stats.num_patterns_spec()
                        ==> ((#[trigger] self.wave.masks()[i][p])
                            <==> !self.forbid.forbids_upto(
                                k as int,
                                i % size.width as int,
                                i / size.width as int,
                                p,
                            )),
            decreases nentries - k,
        {
            let e = match &self.forbid {
                Forbid::Nothing => ForbidEntry { x: 0, y: 0, pattern: 0 },
                Forbid::Eliminate(v) => v[k],
            };
            proof {
                assert(self.forbid.entries()[k as int] == e);
                crate::propagate::lemma_cidx_range(size, e.x as int, e.y as int);
                assert(self.wave.cells()[
                    crate::propagate::cidx(size, e.x as int, e.y as int)].wf(*stats));
            }
            let cell_count = self.wave.cell_at(e.x, e.y).count();
            let possible = self.wave.cell_at(e.x, e.y).is_possible(e.pattern as usize);
            if possible {
                if cell_count == 1 {
                    self.contradicted = true;
                    proof {
                        let w = size.width as int;
                        let idx = crate::propagate::cidx(size, e.x as int, e.y as int);
                        let cell = self.wave.cells()[idx];
                        let seed = seed_masks(self.forbid, *stats, size);
                        // The cell holds exactly the pattern this entry
                        // names, so the seed family is already empty here.
                        assert forall|p2: int|
                            0 <= p2 < stats.num_patterns_spec()
                                && p2 != e.pattern as int
                            implies !cell.mask()[p2]
                        by {
                            if cell.mask()[p2] {
                                let a = if p2 < e.pattern as int { p2 }
                                    else { e.pattern as int };
                                let b = if p2 < e.pattern as int { e.pattern as int }
                                    else { p2 };
                                lemma_sum_prefix_two_elements(
                                    count_vals(cell.mask()),
                                    cell.mask().len() as int,
                                    a,
                                    b,
                                );
                                assert(count_vals(cell.mask())[a] == 1);
                                assert(count_vals(cell.mask())[b] == 1);
                                assert(false);
                            }
                        }
                        lemma_fundamental_div_mod_converse(
                            idx, w, e.y as int, e.x as int);
                        assert forall|p2: int| 0 <= p2 < stats.num_patterns_spec()
                            implies !seed[idx][p2]
                        by {
                            if seed[idx][p2] {
                                if self.forbid.forbids_upto(
                                    k as int, e.x as int, e.y as int, p2) {
                                    lemma_forbids_upto_mono(
                                        self.forbid, k as int,
                                        e.x as int, e.y as int, p2);
                                    assert(false);
                                }
                                assert(self.wave.masks()[idx][p2]);
                                assert(p2 == e.pattern as int);
                                assert(self.forbid.entries()[k as int] == e);
                                assert((self.forbid.entries()[k as int]).x as int
                                    == e.x as int);
                                assert(self.forbid.forbids(
                                    e.x as int, e.y as int, p2));
                                assert(false);
                            }
                        }
                        assert forall|m2: Seq<Seq<bool>>|
                            crate::propagate::masks_shaped(m2, *stats, size)
                                && masks_subset(m2, seed)
                                && #[trigger] crate::propagate::arc_consistent(
                                    m2, *stats, self.wrap, size)
                            implies !crate::propagate::masks_nonempty(m2, *stats)
                        by {
                            crate::propagate::lemma_cidx_range(
                                size, e.x as int, e.y as int);
                            if crate::propagate::cell_nonempty(m2[idx], *stats) {
                                let p2 = choose|p2: int|
                                    0 <= p2 < stats.num_patterns_spec()
                                        && #[trigger] m2[idx][p2];
                                assert(seed[idx][p2]);
                                assert(false);
                            }
                            assert(!crate::propagate::cell_nonempty(m2[idx], *stats));
                        }
                    }
                    return;
                }
                let ghost w_before = self.wave;
                self.wave.remove_at(e.x, e.y, e.pattern as usize, stats);
                proof {
                    let idx = crate::propagate::cidx(size, e.x as int, e.y as int);
                    assert forall|i: int| 0 <= i < self.wave.cells().len()
                        implies (#[trigger] self.wave.cells()[i]).num_spec() >= 1
                    by {
                        if i != idx {
                            assert(self.wave.cells()[i] == w_before.cells()[i]);
                        }
                    }
                    assert forall|k2: int| 0 <= k2 < k as int + 1
                        implies !self.wave.masks()[crate::propagate::cidx(
                            size,
                            (#[trigger] self.forbid.entries()[k2]).x as int,
                            self.forbid.entries()[k2].y as int,
                        )][self.forbid.entries()[k2].pattern as int]
                    by {
                        let e2 = self.forbid.entries()[k2];
                        let idx2 = crate::propagate::cidx(
                            size, e2.x as int, e2.y as int);
                        crate::propagate::lemma_cidx_range(
                            size, e2.x as int, e2.y as int);
                        if k2 < k as int {
                            if idx2 == idx {
                            } else {
                                assert(self.wave.cells()[idx2]
                                    == w_before.cells()[idx2]);
                            }
                        }
                    }
                    let w = size.width as int;
                    lemma_fundamental_div_mod_converse(
                        idx, w, e.y as int, e.x as int);
                    assert forall|i: int, p2: int|
                        0 <= i < self.wave.cells().len()
                            && 0 <= p2 < stats.num_patterns_spec()
                        implies ((#[trigger] self.wave.masks()[i][p2])
                            <==> !self.forbid.forbids_upto(
                                k as int + 1, i % w, i / w, p2))
                    by {
                        let xi = i % w;
                        let yi = i / w;
                        lemma_forbids_upto_step(self.forbid, k as int, xi, yi, p2);
                        lemma_fundamental_div_mod(i, w);
                        assert(w * (i / w) == (i / w) * w) by (nonlinear_arith);
                        assert(i == crate::propagate::cidx(size, xi, yi));
                        assert(self.forbid.entries()[k as int] == e);
                        if xi == e.x as int && yi == e.y as int {
                            assert(i == idx);
                        }
                        if i == idx {
                            assert(xi == e.x as int && yi == e.y as int);
                        }
                        if i == idx && p2 == e.pattern as int {
                            assert(!self.wave.masks()[i][p2]);
                            assert(self.forbid.forbids_upto(
                                k as int + 1, xi, yi, p2));
                        } else {
                            if i != idx {
                                assert(self.wave.cells()[i] == w_before.cells()[i]);
                            }
                            assert(self.wave.masks()[i][p2]
                                == w_before.masks()[i][p2]);
                            assert(w_before.masks()[i][p2]
                                <==> !self.forbid.forbids_upto(
                                    k as int, xi, yi, p2));
                        }
                    }
                }
            } else {
                proof {
                    assert(self.forbid.entries()[k as int] == e);
                    let idx = crate::propagate::cidx(size, e.x as int, e.y as int);
                    assert(!self.wave.masks()[idx][e.pattern as int]);
                    let w = size.width as int;
                    lemma_fundamental_div_mod_converse(
                        idx, w, e.y as int, e.x as int);
                    assert forall|i: int, p2: int|
                        0 <= i < self.wave.cells().len()
                            && 0 <= p2 < stats.num_patterns_spec()
                        implies ((#[trigger] self.wave.masks()[i][p2])
                            <==> !self.forbid.forbids_upto(
                                k as int + 1, i % w, i / w, p2))
                    by {
                        let xi = i % w;
                        let yi = i / w;
                        lemma_forbids_upto_step(self.forbid, k as int, xi, yi, p2);
                        lemma_fundamental_div_mod(i, w);
                        assert(w * (i / w) == (i / w) * w) by (nonlinear_arith);
                        assert(i == crate::propagate::cidx(size, xi, yi));
                        if xi == e.x as int && yi == e.y as int {
                            assert(i == idx);
                        }
                        if i == idx {
                            assert(xi == e.x as int && yi == e.y as int);
                        }
                        assert(self.wave.masks()[i][p2]
                            <==> !self.forbid.forbids_upto(k as int, xi, yi, p2));
                    }
                }
            }
            k = k + 1;
        }
        proof {
            // After the hook, the wave holds exactly the seed family.
            let seed = seed_masks(self.forbid, *stats, size);
            let w = size.width as int;
            assert forall|i: int| 0 <= i < self.wave.masks().len()
                implies #[trigger] self.wave.masks()[i] =~= seed[i]
            by {
                assert(self.wave.cells()[i].wf(*stats));
                assert forall|p2: int| 0 <= p2 < stats.num_patterns_spec()
                    implies self.wave.masks()[i][p2] == seed[i][p2]
                by {
                    assert(self.wave.masks()[i][p2]
                        <==> !self.forbid.forbids_upto(
                            nentries as int, i % w, i / w, p2));
                }
            }
            assert(self.wave.masks() =~= seed);
        }
        self.context.seed_all(size);
        proof {
            assert forall|x2: int, y2: int, d2: int|
                0 <= x2 < size.width as int && 0 <= y2 < size.height as int && 0 <= d2 < 4
                implies self.context.in_worklist(x2, y2)
                    || #[trigger] crate::propagate::arc_ok_dir(
                        self.wave.masks(), *stats, self.wrap, size, x2, y2, d2)
            by {
                assert(self.context.in_worklist(x2, y2));
            }
        }
        let ghost w_pre = self.wave;
        proof {
            assert(w_pre.masks() == seed_masks(self.forbid, *stats, size));
        }
        let r = propagate(&mut self.wave, &mut self.context, stats, self.wrap);
        match r {
            Ok(()) => {
                proof {
                    assert forall|k2: int| 0 <= k2 < self.forbid.entries().len()
                        implies !self.wave.masks()[crate::propagate::cidx(
                            size,
                            (#[trigger] self.forbid.entries()[k2]).x as int,
                            self.forbid.entries()[k2].y as int,
                        )][self.forbid.entries()[k2].pattern as int]
                    by {
                        let e2 = self.forbid.entries()[k2];
                        let idx2 = crate::propagate::cidx(
                            size, e2.x as int, e2.y as int);
                        crate::propagate::lemma_cidx_range(
                            size, e2.x as int, e2.y as int);
                        if self.wave.masks()[idx2][e2.pattern as int] {
                            assert(w_pre.masks()[idx2][e2.pattern as int]);
                        }
                    }
                }
            }
            Err(_) => {
                self.contradicted = true;
                proof {
                    assert(w_pre.masks() == seed_masks(self.forbid, *stats, size));
                }
            }
        }
    }

    /// Builds a runner that allocates its own wave and scratch memory,
    /// applies the forbid hook and runs the initial full propagation.
    pub fn new(
        size: Size,
        stats: &GlobalStats,
        wrap: Wrap,
        forbid: Forbid,
    ) -> (r: Result<Runner, WfcError>)
        requires
            stats.wf(),
        ensures
            match r {
                Ok(run) => {
                    &&& run.inv(*stats)
                    &&& run.wave_spec().size() == size
                    &&& run.attempts_spec() == 0
                    &&& size.width >= 1 && size.height >= 1 && size.fits()
                    &&& run.forbid_spec().ok_for(size, *stats)
                    &&& run.wrap_spec() == wrap
                    &&& !run.contradicted_spec()
                        ==> forbid_applied(run.forbid_spec(), run.wave_spec())
                    &&& !run.contradicted_spec() ==> crate::propagate::is_ac_subfamily_max(
                        run.wave_spec().masks(),
                        seed_masks(run.forbid_spec(), *stats, size),
                        *stats,
                        run.wrap_spec(),
                        size,
                    )
                    &&& run.contradicted_spec() ==> (forall|m2: Seq<Seq<bool>>|
                        crate::propagate::masks_shaped(m2, *stats, size)
                            && masks_subset(m2, seed_masks(run.forbid_spec(), *stats, size))
                            && #[trigger] crate::propagate::arc_consistent(
                                m2, *stats, run.wrap_spec(), size)
                            ==> !crate::propagate::masks_nonempty(m2, *stats))
                },
                Err(e) => {
                    &&& e == WfcError::InvalidConfiguration
                    &&& (size.width == 0 || size.height == 0 || !size.fits()
                        || !forbid.ok_for(size, *stats))
                },
            },
            (size.width >= 1 && size.height >= 1 && size.fits()
                && forbid.ok_for(size, *stats)) ==> r is Ok,
    {
        Runner::new_with(size, stats, wrap, forbid, None)
    }

    /// Builds a runner that reuses caller-supplied scratch memory, with
    /// behavior identical to `new`.
    pub fn new_with(
        size: Size,
        stats: &GlobalStats,
        wrap: Wrap,
        forbid: Forbid,
        scratch: Option<Context>,
    ) -> (r: Result<Runner, WfcError>)
        requires
            stats.wf(),
        ensures
            match r {
                Ok(run) => {
                    &&& run.inv(*stats)
                    &&& run.wave_spec().size() == size
                    &&& run.attempts_spec() == 0
                    &&& size.width >= 1 && size.height >= 1 && size.fits()
                    &&& run.forbid_spec().ok_for(size, *stats)
                    &&& run.wrap_spec() == wrap
                    &&& !run.contradicted_spec()
                        ==> forbid_applied(run.forbid_spec(), run.wave_spec())
                    &&& !run.contradicted_spec() ==> crate::propagate::is_ac_subfamily_max(
                        run.wave_spec().masks(),
                        seed_masks(run.forbid_spec(), *stats, size),
                        *stats,
                        run.wrap_spec(),
                        size,
                    )
                    &&& run.contradicted_spec() ==> (forall|m2: Seq<Seq<bool>>|
                        crate::propagate::masks_shaped(m2, *stats, size)
                            && masks_subset(m2, seed_masks(run.forbid_spec(), *stats, size))
                            && #[trigger] crate::propagate::arc_consistent(
                                m2, *stats, run.wrap_spec(), size)
                            ==> !crate::propagate::masks_nonempty(m2, *stats))
                },
                Err(e) => {
                    &&& e == WfcError::InvalidConfiguration
                    &&& (size.width == 0 || size.height == 0 || !size.fits()
                        || !forbid.ok_for(size, *stats))
                },
            },
            (size.width >= 1 && size.height >= 1 && size.fits()
                && forbid.ok_for(size, *stats)) ==> r is Ok,
    {
        if size.width == 0 || size.height == 0 || size.width > MAX_DIM
            || size.height > MAX_DIM {
            return Err(WfcError::InvalidConfiguration);
        }
        if !forbid.check_ok(size, stats) {
            return Err(WfcError::InvalidConfiguration);
        }
        let wave = Wave::new(size, stats);
        let context = match scratch {
            Some(mut ctx) => {
                let have: usize = ctx.capacity();
                proof {
                    crate::propagate::lemma_size_area_bound(size);
                }
                if have == (size.width as usize) * (size.height as usize) {
                    ctx.clear(size);
                    ctx
                } else {
                    Context::new(size)
                }
            }
            None => Context::new(size),
        };
        let mut run = Runner {
            wave,
            context,
            wrap,
            forbid,
            contradicted: false,
            attempts: 0,
        };
        run.begin_attempt(stats);
        Ok(run)
    }

    pub closed spec fn forbid_spec(&self) -> Forbid {
        self.forbid
    }

    /// Attempts made by the most recent `collapse_retrying` call.
    pub fn attempts(&self) -> (r: u32)
        ensures
            r as int == self.attempts_spec(),
    {
        self.attempts
    }

    /// Whether the current attempt has reported a contradiction.
    pub fn is_contradicted(&self) -> (r: bool)
        ensures
            r == self.contradicted_spec(),
    {
        self.contradicted
    }

    /// The wave being solved.
    pub fn wave_ref(&self) -> (r: &Wave)
        ensures
            *r == self.wave_spec(),
    {
        &self.wave
    }

    /// Releases the wave and scratch memory for reuse.
    pub fn into_parts(self) -> (r: (Wave, Context))
        ensures
            r.0 == self.wave_spec(),
            r.1 == self.ctx_spec(),
    {
        (self.wave, self.context)
    }

    /// Resets the wave to all-possible, clears the scratch memory, and
    /// re-runs the forbid hook and initial propagation.
    pub fn reset(&mut self, stats: &GlobalStats)
        requires
            stats.wf(),
            old(self).inv(*stats),
            old(self).forbid_spec().ok_for(old(self).wave_spec().size(), *stats),
            old(self).wave_spec().size().width >= 1,
            old(self).wave_spec().size().height >= 1,
        ensures
            final(self).inv(*stats),
            final(self).wave_spec().size() == old(self).wave_spec().size(),
            final(self).attempts_spec() == old(self).attempts_spec(),
            final(self).forbid_spec() == old(self).forbid_spec(),
            final(self).wrap_spec() == old(self).wrap_spec(),
            !final(self).contradicted_spec()
                ==> forbid_applied(final(self).forbid_spec(), final(self).wave_spec()),
            !final(self).contradicted_spec()
                ==> crate::propagate::is_ac_subfamily_max(
                    final(self).wave_spec().masks(),
                    seed_masks(old(self).forbid_spec(), *stats,
                        old(self).wave_spec().size()),
                    *stats,
                    old(self).wrap_spec(),
                    old(self).wave_spec().size(),
                ),
            final(self).contradicted_spec() ==> (forall|m2: Seq<Seq<bool>>|
                crate::propagate::masks_shaped(
                    m2, *stats, old(self).wave_spec().size())
                    && masks_subset(m2, seed_masks(
                        old(self).forbid_spec(), *stats, old(self).wave_spec().size()))
                    && #[trigger] crate::propagate::arc_consistent(
                        m2, *stats, old(self).wrap_spec(), old(self).wave_spec().size())
                    ==> !crate::propagate::masks_nonempty(m2, *stats)),
    {
        let size = self.wave.size_of();
        self.wave = Wave::new(size, stats);
        self.context.clear(size);
        self.contradicted = false;
        self.begin_attempt(stats);
    }

    /// One collapse step: reports `Complete` when every cell is
    /// collapsed, otherwise picks the minimum-entropy uncollapsed cell
    /// (ties broken by a random perturbation), draws one of its
    /// patterns with probability proportional to weight, collapses the
    /// cell, and propagates. Once a contradiction is reported, further
    /// steps mutate nothing.
    pub fn step(
        &mut self,
        stats: &GlobalStats,
        rng: &mut rand::rngs::StdRng,
    ) -> (r: Result<Step, WfcError>)
        requires
            stats.wf(),
            old(self).inv(*stats),
        ensures
            final(self).inv(*stats),
            final(self).wave_spec().size() == old(self).wave_spec().size(),
            final(self).attempts_spec() == old(self).attempts_spec(),
            final(self).forbid_spec() == old(self).forbid_spec(),
            old(self).contradicted_spec() ==> r == Err::<Step, WfcError>(
                WfcError::Contradiction) && *final(self) == *old(self),
            r matches Err(e) ==> e == WfcError::Contradiction
                && final(self).contradicted_spec(),
            r matches Ok(s) ==> !final(self).contradicted_spec()
                && (s == Step::Complete <==> final(self).completed()),
            r == Ok::<Step, WfcError>(Step::Incomplete)
                ==> crate::propagate::wave_count_total(final(self).wave_spec())
                    < crate::propagate::wave_count_total(old(self).wave_spec()),
            !old(self).contradicted_spec() ==> masks_subset(
                final(self).wave_spec().masks(), old(self).wave_spec().masks()),
            !old(self).contradicted_spec() && old(self).completed()
                ==> r == Ok::<Step, WfcError>(Step::Complete)
                    && *final(self) == *old(self),
    {
        if self.contradicted {
            return Err(WfcError::Contradiction);
        }
        let sel = select_cell(&self.wave, stats, rng);
        match sel {
            None => Ok(Step::Complete),
            Some(i) => {
                proof {
                    if old(self).completed() {
                        assert(old(self).wave_spec().cells()[i as int].num_spec() == 1);
                        assert(false);
                    }
                }
                let size = self.wave.size_of();
                let w = size.width as usize;
                let x: u32 = (i % w) as u32;
                let y: u32 = (i / w) as u32;
                proof {
                    let wi = size.width as int;
                    let hi = size.height as int;
                    lemma_fundamental_div_mod(i as int, wi);
                    assert(wi * hi == hi * wi) by (nonlinear_arith);
                    lemma_multiply_divide_lt(i as int, wi, hi);
                    assert((y as int) < hi);
                    assert(wi * (i as int / wi) == (i as int / wi) * wi)
                        by (nonlinear_arith);
                    assert(crate::propagate::cidx(size, x as int, y as int) == i as int);
                }
                proof {
                    assert(self.wave.cells()[i as int].wf(*stats));
                }
                let q = pick_pattern(self.wave.cell_linear(i), stats, rng);
                let ghost w0 = self.wave;
                let num = stats.num_patterns();
                let mut p: usize = 0;
                while p < num
                    invariant
                        stats.wf(),
                        self.wave.wf(*stats),
                        self.wave.size() == size,
                        size == old(self).wave_spec().size(),
                        num as int == stats.num_patterns_spec(),
                        (i as int) < self.wave.cells().len(),
                        i as int == crate::propagate::cidx(size, x as int, y as int),
                        x < size.width,
                        y < size.height,
                        (q as int) < stats.num_patterns_spec(),
                        p <= num,
                        q < num,
                        self.context == old(self).ctx_spec(),
                        self.ctx_spec().wf(size),
                        self.contradicted == false,
                        self.attempts == old(self).attempts_spec(),
                        self.forbid == old(self).forbid_spec(),
                        self.wrap == old(self).wrap,
                        forall|j: int| 0 <= j < self.wave.cells().len() && j != i as int
                            ==> self.wave.cells()[j] == w0.cells()[j],
                        self.wave.cells().len() == w0.cells().len(),
                        self.wave.cells()[i as int].mask()[q as int],
                        forall|p2: int| 0 <= p2 < p as int && p2 != q as int
                            ==> !self.wave.cells()[i as int].mask()[p2],
                        forall|p2: int| p as int <= p2 < num as int
                            ==> self.wave.cells()[i as int].mask()[p2]
                                == w0.cells()[i as int].mask()[p2],
                        self.wave.nonempty(),
                        w0.nonempty(),
                        w0.wf(*stats),
                    decreases num - p,
                {
                    if p != q {
                        proof {
                            assert(self.wave.cells()[i as int].wf(*stats));
                        }
                        if self.wave.cell_at(x, y).is_possible(p) {
                            let ghost wb = self.wave;
                            self.wave.remove_at(x, y, p, stats);
                            proof {
                                let idx = i as int;
                                let cell = self.wave.cells()[idx];
                                crate::sums::lemma_sum_prefix_element_bound(
                                    count_vals(cell.mask()),
                                    cell.mask().len() as int,
                                    q as int,
                                );
                                assert(cell.num_spec() >= 1);
                                assert forall|j: int| 0 <= j < self.wave.cells().len()
                                    implies (#[trigger] self.wave.cells()[j]).num_spec() >= 1
                                by {
                                    if j != idx {
                                        assert(self.wave.cells()[j] == wb.cells()[j]);
                                    }
                                }
                            }
                        }
                    }
                    p = p + 1;
                }
                proof {
                    let cell = self.wave.cells()[i as int];
                    lemma_count_single(cell.mask(), q as int, cell.mask().len() as int);
                    assert(cell.num_spec() == 1);
                    assert(crate::propagate::cell_count_seq(self.wave.cells())
                        =~= crate::propagate::cell_count_seq(w0.cells())
                            .update(i as int, 1));
                    lemma_sum_prefix_update(
                        crate::propagate::cell_count_seq(w0.cells()),
                        w0.cells().len() as int,
                        i as int,
                        1,
                    );
                    assert(w0.cells()[i as int].num_spec() >= 2);
                }
                self.context.enqueue(size, x, y);
                let ghost w1 = self.wave;
                proof {
                    assert(w0 == old(self).wave_spec());
                    assert forall|x2: int, y2: int, d2: int|
                        0 <= x2 < size.width as int && 0 <= y2 < size.height as int
                            && 0 <= d2 < 4
                        implies self.context.in_worklist(x2, y2)
                            || #[trigger] crate::propagate::arc_ok_dir(
                                self.wave.masks(), *stats, self.wrap, size, x2, y2, d2)
                    by {
                        if x2 == x as int && y2 == y as int {
                            assert(self.context.in_worklist(x2, y2));
                        } else {
                            crate::propagate::lemma_cidx_range(size, x2, y2);
                            if crate::propagate::cidx(size, x2, y2) == i as int {
                                crate::propagate::lemma_cidx_injective(
                                    size, x2, y2, x as int, y as int);
                                assert(false);
                            }
                            assert(crate::propagate::arc_ok_dir(
                                w0.masks(), *stats, self.wrap, size, x2, y2, d2));
                            assert forall|p2: int|
                                0 <= p2 < self.wave.masks()[i as int].len()
                                    && (#[trigger] self.wave.masks()[i as int][p2])
                                implies w0.masks()[i as int][p2]
                            by {
                            }
                            crate::propagate::lemma_arc_dir_preserved(
                                w0.masks(), self.wave.masks(), *stats, self.wrap,
                                size, i as int, x2, y2, d2);
                        }
                    }
                }
                let pr = propagate(&mut self.wave, &mut self.context, stats, self.wrap);
                proof {
                    assert forall|i2: int, p2: int|
                        0 <= i2 < w1.masks().len() && 0 <= p2 < w1.masks()[i2].len()
                            && (#[trigger] w1.masks()[i2][p2])
                        implies w0.masks()[i2][p2]
                    by {
                        if i2 != i as int {
                            assert(w1.cells()[i2] == w0.cells()[i2]);
                        }
                    }
                    assert forall|i2: int| 0 <= i2 < self.wave.masks().len()
                        implies (#[trigger] self.wave.masks()[i2]).len()
                            == w1.masks()[i2].len()
                    by {
                        assert(self.wave.cells()[i2].wf(*stats));
                        assert(w1.cells()[i2].wf(*stats));
                    }
                    lemma_masks_subset_trans(
                        self.wave.masks(), w1.masks(), w0.masks());
                }
                match pr {
                    Err(_) => {
                        self.contradicted = true;
                        Err(WfcError::Contradiction)
                    }
                    Ok(()) => {
                        proof {
                            lemma_subset_total_le(self.wave, w1, *stats);
                        }
                        let done = all_collapsed(&self.wave);
                        if done {
                            Ok(Step::Complete)
                        } else {
                            Ok(Step::Incomplete)
                        }
                    }
                }
            }
        }
    }

    /// Steps until every cell is collapsed or a contradiction occurs.
    pub fn collapse(
        &mut self,
        stats: &GlobalStats,
        rng: &mut rand::rngs::StdRng,
    ) -> (r: Result<(), WfcError>)
        requires
            stats.wf(),
            old(self).inv(*stats),
        ensures
            final(self).inv(*stats),
            final(self).wave_spec().size() == old(self).wave_spec().size(),
            final(self).attempts_spec() == old(self).attempts_spec(),
            final(self).forbid_spec() == old(self).forbid_spec(),
            r is Ok ==> final(self).completed() && !final(self).contradicted_spec(),
            r is Ok ==> crate::propagate::arc_consistent(
                final(self).wave_spec().masks(), *stats, final(self).wrap_spec(),
                final(self).wave_spec().size()),
            r matches Err(e) ==> e == WfcError::Contradiction
                && final(self).contradicted_spec(),
            old(self).contradicted_spec() ==> *final(self) == *old(self) && r is Err,
            masks_subset(final(self).wave_spec().masks(), old(self).wave_spec().masks()),
            !old(self).contradicted_spec() && old(self).completed()
                ==> r is Ok && *final(self) == *old(self),
            r is Ok ==> final(self).ctx_spec().worklist_spec().len() == 0,
    {
        if self.contradicted {
            return Err(WfcError::Contradiction);
        }
        proof {
            crate::propagate::lemma_wave_count_nonneg(self.wave_spec(), *stats);
        }
        loop
            invariant
                stats.wf(),
                self.inv(*stats),
                !self.contradicted_spec(),
                !old(self).contradicted_spec(),
                old(self).completed() ==> *self == *old(self),
                self.wave_spec().size() == old(self).wave_spec().size(),
                self.attempts_spec() == old(self).attempts_spec(),
                self.forbid_spec() == old(self).forbid_spec(),
                masks_subset(self.wave_spec().masks(), old(self).wave_spec().masks()),
                0 <= crate::propagate::wave_count_total(self.wave_spec()),
            decreases crate::propagate::wave_count_total(self.wave_spec()),
        {
            let ghost pre = *self;
            match self.step(stats, rng) {
                Ok(Step::Complete) => {
                    proof {
                        lemma_masks_subset_trans(
                            self.wave_spec().masks(),
                            pre.wave_spec().masks(),
                            old(self).wave_spec().masks(),
                        );
                    }
                    return Ok(());
                }
                Ok(Step::Incomplete) => {
                    proof {
                        crate::propagate::lemma_wave_count_nonneg(
                            self.wave_spec(), *stats);
                        lemma_masks_subset_trans(
                            self.wave_spec().masks(),
                            pre.wave_spec().masks(),
                            old(self).wave_spec().masks(),
                        );
                    }
                }
                Err(e) => {
                    proof {
                        lemma_masks_subset_trans(
                            self.wave_spec().masks(),
                            pre.wave_spec().masks(),
                            old(self).wave_spec().masks(),
                        );
                    }
                    return Err(e);
                }
            }
        }
    }

    /// Collapses with retry: on contradiction, resets everything and
    /// attempts again, drawing further values from the same random
    /// source. A `NumTimes(k)` policy makes at most `k + 1` attempts in
    /// all and reports `RetryExhausted` only if every one contradicted.
    pub fn collapse_retrying(
        &mut self,
        stats: &GlobalStats,
        policy: RetryPolicy,
        rng: &mut rand::rngs::StdRng,
    ) -> (r: Result<(), WfcError>)
        requires
            stats.wf(),
            old(self).inv(*stats),
            old(self).forbid_spec().ok_for(old(self).wave_spec().size(), *stats),
            old(self).wave_spec().size().width >= 1,
            old(self).wave_spec().size().height >= 1,
            policy matches RetryPolicy::NumTimes(k) && (k as int) < u32::MAX as int,
        ensures
            final(self).inv(*stats),
            final(self).wave_spec().size() == old(self).wave_spec().size(),
            r is Ok ==> final(self).completed() && !final(self).contradicted_spec(),
            r is Ok ==> crate::propagate::arc_consistent(
                final(self).wave_spec().masks(), *stats, final(self).wrap_spec(),
                final(self).wave_spec().size()),
            r matches Err(e) ==> e == WfcError::RetryExhausted
                && final(self).contradicted_spec(),
            policy matches RetryPolicy::NumTimes(k) ==> ({
                &&& final(self).attempts_spec() <= k as int + 1
                &&& (r is Err ==> final(self).attempts_spec() == k as int + 1)
            }),
            !old(self).contradicted_spec() && old(self).completed() ==> r is Ok,
    {
        let k = match policy {
            RetryPolicy::NumTimes(n) => n,
        };
        self.attempts = 0;
        let mut i: u32 = 0;
        loop
            invariant
                stats.wf(),
                self.inv(*stats),
                self.wave_spec().size() == old(self).wave_spec().size(),
                self.forbid_spec() == old(self).forbid_spec(),
                self.forbid_spec().ok_for(self.wave_spec().size(), *stats),
                self.wave_spec().size().width >= 1,
                self.wave_spec().size().height >= 1,
                i <= k,
                (k as int) < u32::MAX as int,
                policy == RetryPolicy::NumTimes(k),
                self.attempts_spec() == i as int,
                !old(self).contradicted_spec() && old(self).completed()
                    ==> !self.contradicted_spec()
                        && self.wave_spec() == old(self).wave_spec(),
            decreases k - i,
        {
            self.attempts = self.attempts + 1;
            match self.collapse(stats, rng) {
                Ok(()) => {
                    return Ok(());
                }
                Err(_) => {
                    if i == k {
                        return Err(WfcError::RetryExhausted);
                    }
                    self.reset(stats);
                    i = i + 1;
                }
            }
        }
    }

    /// Representative values of a completed wave.
    pub fn values(&self, stats: &GlobalStats) -> (r: Grid<u64>)
        requires
            stats.wf(),
            self.inv(*stats),
            self.completed(),
        ensures
            r.wf(),
            r.size() == self.wave_spec().size(),
            forall|i: int| 0 <= i < r.contents().len()
                ==> crate::wave::represents(
                    *stats, self.wave_spec().masks()[i], r.contents()[i]),
    {
        self.wave.chosen_values(stats)
    }
}

/// Whether every cell has exactly one remaining pattern.
fn all_collapsed(wave: &Wave) -> (r: bool)
    requires
        wave.cells().len() == wave.size().area(),
        wave.size().fits(),
    ensures
        r == wave.completed(),
{
    proof {
        assert(wave.size().area() >= 0) by (nonlinear_arith)
            requires wave.size().width as int >= 0 && wave.size().height as int >= 0,
        ;
        assert(wave.size().area() <= MAX_DIM as int * MAX_DIM as int) by (nonlinear_arith)
            requires
                0 <= wave.size().width as int <= MAX_DIM as int,
                0 <= wave.size().height as int <= MAX_DIM as int,
        ;
    }
    let size = wave.size_of();
    let count: usize = (size.width as usize) * (size.height as usize);
    let mut i: usize = 0;
    while i < count
        invariant
            wave.cells().len() == wave.size().area(),
            wave.size().fits(),
            count as int == wave.cells().len(),
            i <= count,
            forall|k: int| 0 <= k < i as int
                ==> (#[trigger] wave.cells()[k]).num_spec() == 1,
        decreases count - i,
    {
        if wave.cell_linear(i).count() != 1 {
            return false;
        }
        i = i + 1;
    }
    true
}

/// Picks the uncollapsed cell with minimum entropy; equal-entropy ties
/// fall to a random per-cell perturbation. Returns `None` when every
/// cell is collapsed.
fn select_cell(
    wave: &Wave,
    stats: &GlobalStats,
    rng: &mut rand::rngs::StdRng,
) -> (r: Option<usize>)
    requires
        stats.wf(),
        wave.wf(*stats),
        wave.nonempty(),
    ensures
        r is None ==> wave.completed(),
        r matches Some(i) ==> ({
            &&& (i as int) < wave.cells().len()
            &&& wave.cells()[i as int].num_spec() >= 2
            &&& forall|j: int|
                0 <= j < wave.cells().len()
                    && (#[trigger] wave.cells()[j]).num_spec() >= 2
                    ==> spec_entropy(
                        wave.cells()[j].weight_sum_spec(),
                        wave.cells()[j].wlogw_sum_spec(),
                    ) >= spec_entropy(
                        wave.cells()[i as int].weight_sum_spec(),
                        wave.cells()[i as int].wlogw_sum_spec(),
                    )
        }),
{
    proof {
        assert(wave.size().area() >= 0) by (nonlinear_arith)
            requires wave.size().width as int >= 0 && wave.size().height as int >= 0,
        ;
        assert(wave.size().area() <= MAX_DIM as int * MAX_DIM as int) by (nonlinear_arith)
            requires
                0 <= wave.size().width as int <= MAX_DIM as int,
                0 <= wave.size().height as int <= MAX_DIM as int,
        ;
    }
    let size = wave.size_of();
    let count: usize = (size.width as usize) * (size.height as usize);
    let mut have = false;
    let mut best_i: usize = 0;
    let mut best_ent: u64 = 0;
    let mut best_noise: u64 = 0;
    let mut i: usize = 0;
    while i < count
        invariant
            stats.wf(),
            wave.wf(*stats),
            wave.nonempty(),
            count as int == wave.cells().len(),
            i <= count,
            have ==> ({
                &&& (best_i as int) < i as int
                &&& wave.cells()[best_i as int].num_spec() >= 2
                &&& best_ent as int == spec_entropy(
                    wave.cells()[best_i as int].weight_sum_spec(),
                    wave.cells()[best_i as int].wlogw_sum_spec(),
                )
            }),
            forall|j: int| 0 <= j < i as int
                && (#[trigger] wave.cells()[j]).num_spec() >= 2
                ==> have && spec_entropy(
                    wave.cells()[j].weight_sum_spec(),
                    wave.cells()[j].wlogw_sum_spec(),
                ) >= best_ent as int,
        decreases count - i,
    {
        proof {
            assert(wave.cells()[i as int].wf(*stats));
        }
        let cell = wave.cell_linear(i);
        if cell.count() >= 2 {
            let ent = cell.entropy(stats);
            let noise = gen_below(rng, 65536);
            if !have || ent < best_ent || (ent == best_ent && noise < best_noise) {
                have = true;
                best_i = i;
                best_ent = ent;
                best_noise = noise;
            }
        }
        i = i + 1;
    }
    if have {
        Some(best_i)
    } else {
        proof {
            assert forall|k: int| 0 <= k < wave.cells().len()
                implies (#[trigger] wave.cells()[k]).num_spec() == 1
            by {
                assert(wave.cells()[k].num_spec() >= 1);
            }
        }
        None
    }
}

/// Draws one pattern of the cell with probability proportional to its
/// weight: walks the cumulative weights up to a uniformly drawn target.
/// Draws one pattern of the cell with probability proportional to its
/// weight: a uniform target below the cell's total weight selects the
/// pattern whose cumulative-weight interval contains it.
fn pick_pattern(
    cell: &WaveCell,
    stats: &GlobalStats,
    rng: &mut rand::rngs::StdRng,
) -> (r: usize)
    requires
        stats.wf(),
        cell.wf(*stats),
        cell.num_spec() >= 1,
    ensures
        (r as int) < stats.num_patterns_spec(),
        cell.mask()[r as int],
{
    proof {
        cell.lemma_weight_sum_pos(*stats);
    }
    let total = cell.weight_total();
    let t = gen_below(rng, total);
    pattern_at_target(cell, stats, t)
}

/// The pattern whose cumulative-weight interval contains `t`: walking
/// ids upward, the first still-possible pattern whose running weight
/// total passes `t`. This pins the weighted draw down as a function of
/// the drawn target.
pub fn pattern_at_target(cell: &WaveCell, stats: &GlobalStats, t: u64) -> (r: usize)
    requires
        stats.wf(),
        cell.wf(*stats),
        (t as int) < cell.weight_sum_spec(),
    ensures
        (r as int) < stats.num_patterns_spec(),
        cell.mask()[r as int],
        sum_prefix(crate::wave::wsum_vals(cell.mask(), *stats), r as int) <= t as int,
        (t as int) < sum_prefix(crate::wave::wsum_vals(cell.mask(), *stats), r as int)
            + stats.weight_spec(r as int),
{
    let num = stats.num_patterns();
    let total = cell.weight_total();
    let mut acc: u64 = 0;
    let mut p: usize = 0;
    while p < num
        invariant
            stats.wf(),
            cell.wf(*stats),
            num as int == stats.num_patterns_spec(),
            p <= num,
            total as int == cell.weight_sum_spec(),
            (t as int) < cell.weight_sum_spec(),
            acc as int == sum_prefix(
                crate::wave::wsum_vals(cell.mask(), *stats), p as int),
            acc <= t,
        decreases num - p,
    {
        if cell.is_possible(p) {
            let w = stats.weight(p);
            proof {
                let vals = crate::wave::wsum_vals(cell.mask(), *stats);
                assert(vals[p as int] == stats.weight_spec(p as int));
                assert forall|j: int| p as int + 1 <= j < num as int
                    implies #[trigger] vals[j] >= 0 by {
                    if cell.mask()[j] {
                        assert(stats.weight_spec(j) >= 1);
                    }
                }
                crate::sums::lemma_sum_prefix_monotonic(
                    vals, p as int + 1, num as int);
                assert(sum_prefix(vals, p as int + 1)
                    == sum_prefix(vals, p as int) + vals[p as int]);
                assert(cell.mask().len() as int == num as int);
                assert(cell.weight_sum_spec() == sum_prefix(vals, num as int));
                assert(acc as int + w as int <= cell.weight_sum_spec());
            }
            if acc + (w as u64) > t {
                return p;
            }
            acc = acc + (w as u64);
        }
        p = p + 1;
    }
    proof {
        assert(false);
    }
    0
}
} // verus!
