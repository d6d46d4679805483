//! The wave: per-output-cell candidate-pattern sets with cached weight
//! aggregates for constant-time entropy.

use vstd::prelude::*;
use crate::entropy::{spec_log2_fixed, spec_entropy, log2_fixed, entropy_of, lemma_log2_fixed_bounds, LOG_SCALE};
use crate::grid::{Grid, Size, MAX_DIM};
use crate::pattern::GlobalStats;
use crate::sums::{
    sum_prefix, lemma_sum_prefix_update, lemma_sum_prefix_congruence,
    lemma_sum_prefix_element_bound, lemma_sum_prefix_nonneg, lemma_sum_prefix_monotonic,
    lemma_sum_prefix_all_zero, lemma_sum_prefix_two_elements, lemma_sum_prefix_scaled_le,
    lemma_sum_prefix_pointwise_le,
};

verus! {

/// Indicator contributions of a candidate mask.
pub open spec fn count_vals(mask: Seq<bool>) -> Seq<int> {
    Seq::new(mask.len(), |i: int| if mask[i] { 1int } else { 0int })
}

/// Weight contributions of the still-possible patterns.
pub open spec fn wsum_vals(mask: Seq<bool>, stats: GlobalStats) -> Seq<int> {
    Seq::new(mask.len(), |i: int| if mask[i] { stats.weight_spec(i) } else { 0int })
}

/// `w * log2(w)` contributions of the still-possible patterns.
pub open spec fn wlog_vals(mask: Seq<bool>, stats: GlobalStats) -> Seq<int> {
    Seq::new(
        mask.len(),
        |i: int| if mask[i] {
            stats.weight_spec(i) * spec_log2_fixed(stats.weight_spec(i))
        } else {
            0int
        },
    )
}

/// One output cell: the set of still-possible pattern ids (indexed by
/// id) and cached aggregates over their weights.
pub struct WaveCell {
    pub(crate) possible: Vec<bool>,
    pub(crate) num_possible: u32,
    pub(crate) weight_sum: u64,
    pub(crate) wlogw_sum: u64,
}

impl WaveCell {
    /// The candidate mask: entry `p` is whether pattern `p` remains.
    pub closed spec fn mask(&self) -> Seq<bool> {
        self.possible@
    }

    /// Number of still-possible patterns.
    pub closed spec fn num_spec(&self) -> int {
        self.num_possible as int
    }

    /// Cached sum of weights of still-possible patterns.
    pub closed spec fn weight_sum_spec(&self) -> int {
        self.weight_sum as int
    }

    /// Cached sum of `w * log2(w)` of still-possible patterns.
    pub closed spec fn wlogw_sum_spec(&self) -> int {
        self.wlogw_sum as int
    }

    /// Cached aggregates agree with the mask under `stats`.
    pub open spec fn wf(&self, stats: GlobalStats) -> bool {
        &&& self.mask().len() == stats.num_patterns_spec()
        &&& self.num_spec() >= 0
        &&& self.num_spec() == sum_prefix(count_vals(self.mask()), self.mask().len() as int)
        &&& self.weight_sum_spec() == sum_prefix(
            wsum_vals(self.mask(), stats),
            self.mask().len() as int,
        )
        &&& self.wlogw_sum_spec() == sum_prefix(
            wlog_vals(self.mask(), stats),
            self.mask().len() as int,
        )
    }

    /// A cell with every pattern still possible.
    pub fn new_all(stats: &GlobalStats) -> (r: WaveCell)
        requires
            stats.wf(),
        ensures
            r.wf(*stats),
            r.mask().len() == stats.num_patterns_spec(),
            forall|p: int| 0 <= p < r.mask().len() ==> r.mask()[p],
            r.num_spec() == stats.num_patterns_spec(),
    {
        let num = stats.num_patterns();
        let mut possible: Vec<bool> = Vec::new();
        let mut weight_sum: u64 = 0;
        let mut wlogw_sum: u64 = 0;
        let mut p: usize = 0;
        while p < num
            invariant
                stats.wf(),
                num as int == stats.num_patterns_spec(),
                p <= num,
                possible@.len() == p as int,
                forall|i: int| 0 <= i < p as int ==> possible@[i],
                weight_sum as int == sum_prefix(wsum_vals(possible@, *stats), p as int),
                wlogw_sum as int == sum_prefix(wlog_vals(possible@, *stats), p as int),
                weight_sum as int <= stats.total_weight_spec(),
                wlogw_sum as int <= 64 * LOG_SCALE as int * stats.total_weight_spec(),
            decreases num - p,
        {
            let ghost mask0 = possible@;
            let w = stats.weight(p);
            let w64 = w as u64;
            let lw = log2_fixed(w64);
            proof {
                lemma_wsum_vals_prefix_bound(mask0, *stats, p as int);
                lemma_wlog_vals_prefix_bound(mask0, *stats, p as int);
                assert(w as int * spec_log2_fixed(w as int)
                    == w64 as int * lw as int);
                assert(w64 as int * lw as int <= w as int * (64 * LOG_SCALE as int))
                    by (nonlinear_arith)
                    requires
                        w64 as int == w as int,
                        0 <= w as int,
                        0 <= lw as int <= 64 * LOG_SCALE as int,
                ;
                assert(w as int * (64 * LOG_SCALE as int) < u64::MAX as int)
                    by (nonlinear_arith)
                    requires 0 <= w as int <= u32::MAX as int,
                ;
            }
            possible.push(true);
            proof {
                lemma_sum_prefix_congruence(
                    wsum_vals(possible@, *stats),
                    wsum_vals(mask0, *stats),
                    p as int,
                );
                lemma_sum_prefix_congruence(
                    wlog_vals(possible@, *stats),
                    wlog_vals(mask0, *stats),
                    p as int,
                );
                lemma_sum_prefix_congruence(
                    count_vals(possible@),
                    count_vals(mask0),
                    p as int,
                );
                lemma_wsum_vals_prefix_bound(possible@, *stats, p as int + 1);
                lemma_wlog_vals_prefix_bound(possible@, *stats, p as int + 1);
                assert((64 * LOG_SCALE as int * stats.total_weight_spec())
                    < u64::MAX as int) by (nonlinear_arith)
                    requires 0 <= stats.total_weight_spec() <= u32::MAX as int,
                ;
            }
            weight_sum = weight_sum + w64;
            wlogw_sum = wlogw_sum + w64 * lw;
            p = p + 1;
        }
        proof {
            lemma_count_all_true(possible@);
        }
        WaveCell { possible, num_possible: num as u32, weight_sum, wlogw_sum }
    }

    /// A copy of the candidate mask.
    pub fn mask_clone(&self) -> (r: Vec<bool>)
        ensures
            r@ == self.mask(),
    {
        let n = self.possible.len();
        let mut r: Vec<bool> = Vec::new();
        let mut i: usize = 0;
        while i < n
            invariant
                n == self.mask().len(),
                i <= n,
                r@.len() == i as int,
                forall|k: int| 0 <= k < i as int ==> r@[k] == self.mask()[k],
            decreases n - i,
        {
            r.push(self.possible[i]);
            i = i + 1;
        }
        proof {
            assert(r@ =~= self.mask());
        }
        r
    }

    /// Cached sum of weights of still-possible patterns.
    pub fn weight_total(&self) -> (r: u64)
        ensures
            r as int == self.weight_sum_spec(),
    {
        self.weight_sum
    }

    /// Whether pattern `p` is still possible here.
    pub fn is_possible(&self, p: usize) -> (r: bool)
        requires
            (p as int) < self.mask().len(),
        ensures
            r == self.mask()[p as int],
    {
        self.possible[p]
    }

    /// Number of still-possible patterns.
    pub fn count(&self) -> (r: u32)
        ensures
            r as int == self.num_spec(),
    {
        self.num_possible
    }

    /// Removes pattern `p` from the candidate set, maintaining the
    /// cached aggregates.
    pub fn remove(&mut self, p: usize, stats: &GlobalStats)
        requires
            stats.wf(),
            old(self).wf(*stats),
            (p as int) < old(self).mask().len(),
            old(self).mask()[p as int],
        ensures
            final(self).wf(*stats),
            final(self).mask() == old(self).mask().update(p as int, false),
            final(self).num_spec() == old(self).num_spec() - 1,
            final(self).weight_sum_spec()
                == old(self).weight_sum_spec() - stats.weight_spec(p as int),
            final(self).wlogw_sum_spec() == old(self).wlogw_sum_spec()
                - stats.weight_spec(p as int) * spec_log2_fixed(stats.weight_spec(p as int)),
    {
        let ghost mask0 = self.possible@;
        let ghost len = mask0.len() as int;
        proof {
            assert(count_vals(mask0.update(p as int, false))
                =~= count_vals(mask0).update(p as int, 0));
            assert(wsum_vals(mask0.update(p as int, false), *stats)
                =~= wsum_vals(mask0, *stats).update(p as int, 0));
            assert(wlog_vals(mask0.update(p as int, false), *stats)
                =~= wlog_vals(mask0, *stats).update(p as int, 0));
            lemma_wlog_vals_nonneg(mask0, *stats);
            assert forall|i: int| 0 <= i < len
                implies #[trigger] wsum_vals(mask0, *stats)[i] >= 0 by {
                if mask0[i] {
                    assert(stats.weight_spec(i) >= 1);
                }
            }
            lemma_sum_prefix_update(count_vals(mask0), len, p as int, 0);
            lemma_sum_prefix_update(wsum_vals(mask0, *stats), len, p as int, 0);
            lemma_sum_prefix_update(wlog_vals(mask0, *stats), len, p as int, 0);
            lemma_sum_prefix_element_bound(count_vals(mask0), len, p as int);
            lemma_sum_prefix_element_bound(wsum_vals(mask0, *stats), len, p as int);
            lemma_sum_prefix_element_bound(wlog_vals(mask0, *stats), len, p as int);
        }
        self.possible.set(p, false);
        self.num_possible = self.num_possible - 1;
        let w = stats.weight(p);
        self.weight_sum = self.weight_sum - w as u64;
        let lw = log2_fixed(w as u64);
        self.wlogw_sum = self.wlogw_sum - (w as u64) * lw;
        proof {
            assert((w as u64) as int * lw as int
                == stats.weight_spec(p as int) * spec_log2_fixed(stats.weight_spec(p as int)));
        }
    }

    /// Entropy of this cell, from the cached aggregates.
    pub fn entropy(&self, stats: &GlobalStats) -> (r: u64)
        requires
            stats.wf(),
            self.wf(*stats),
            self.num_spec() >= 1,
        ensures
            r as int == spec_entropy(self.weight_sum_spec(), self.wlogw_sum_spec()),
    {
        proof {
            self.lemma_weight_sum_pos(*stats);
        }
        entropy_of(self.weight_sum, self.wlogw_sum)
    }

    /// A nonempty candidate set has positive cached weight.
    pub proof fn lemma_weight_sum_pos(&self, stats: GlobalStats)
        requires
            stats.wf(),
            self.wf(stats),
            self.num_spec() >= 1,
        ensures
            self.weight_sum_spec() >= 1,
    {
        let mask = self.mask();
        let len = mask.len() as int;
        if forall|p: int| 0 <= p < len ==> !mask[p] {
            lemma_sum_prefix_all_zero(count_vals(mask), len);
            assert(false);
        }
        let p = choose|p: int| 0 <= p < len && mask[p];
        lemma_sum_prefix_element_bound(wsum_vals(mask, stats), len, p);
    }

    /// The single remaining pattern of a collapsed cell.
    pub fn the_pattern(&self, stats: &GlobalStats) -> (r: usize)
        requires
            stats.wf(),
            self.wf(*stats),
            self.num_spec() == 1,
        ensures
            (r as int) < self.mask().len(),
            self.mask()[r as int],
            forall|p: int| 0 <= p < self.mask().len() && p != r as int ==> !self.mask()[p],
    {
        let n = self.possible.len();
        let mut i: usize = 0;
        while i < n
            invariant
                stats.wf(),
                self.wf(*stats),
                self.num_spec() == 1,
                n == self.mask().len(),
                i <= n,
                forall|p: int| 0 <= p < i as int ==> !self.mask()[p],
            decreases n - i,
        {
            if self.possible[i] {
                proof {
                    let mask = self.mask();
                    let len = mask.len() as int;
                    assert forall|p: int| 0 <= p < len && p != i as int
                        implies !mask[p]
                    by {
                        if p > i as int && mask[p] {
                            lemma_sum_prefix_two_elements(count_vals(mask), len, i as int, p);
                            assert(count_vals(mask)[i as int] == 1);
                            assert(count_vals(mask)[p] == 1);
                            assert(false);
                        }
                    }
                }
                return i;
            }
            i = i + 1;
        }
        proof {
            lemma_sum_prefix_all_zero(count_vals(self.mask()), self.mask().len() as int);
            assert(false);
        }
        0
    }
}

/// The masked weight sum of any prefix stays within the total weight.
proof fn lemma_wsum_vals_prefix_bound(mask: Seq<bool>, stats: GlobalStats, k: int)
    requires
        stats.wf(),
        0 <= k <= mask.len(),
        mask.len() <= stats.num_patterns_spec(),
    ensures
        sum_prefix(wsum_vals(mask, stats), k) <= stats.total_weight_spec(),
        sum_prefix(wsum_vals(mask, stats), k) >= 0,
{
    let full = crate::pattern::stats_weight_seq(stats);
    let num = stats.num_patterns_spec();
    assert forall|i: int| 0 <= i < k
        implies #[trigger] wsum_vals(mask, stats)[i] <= full[i] by {
        assert(stats.weight_spec(i) >= 1);
    }
    lemma_sum_prefix_pointwise_le(wsum_vals(mask, stats), full, k);
    assert forall|i: int| k <= i < num implies #[trigger] full[i] >= 0 by {
        assert(stats.weight_spec(i) >= 1);
    }
    lemma_sum_prefix_monotonic(full, k, num);
    assert forall|i: int| 0 <= i < k
        implies #[trigger] wsum_vals(mask, stats)[i] >= 0 by {
        if mask[i] {
            assert(stats.weight_spec(i) >= 1);
        }
    }
    lemma_sum_prefix_nonneg(wsum_vals(mask, stats), k);
}

/// The masked `w * log2(w)` sum of any prefix stays within
/// `64 * LOG_SCALE` times the total weight.
proof fn lemma_wlog_vals_prefix_bound(mask: Seq<bool>, stats: GlobalStats, k: int)
    requires
        stats.wf(),
        0 <= k <= mask.len(),
        mask.len() <= stats.num_patterns_spec(),
    ensures
        sum_prefix(wlog_vals(mask, stats), k)
            <= 64 * LOG_SCALE as int * stats.total_weight_spec(),
        sum_prefix(wlog_vals(mask, stats), k) >= 0,
{
    let c = 64 * LOG_SCALE as int;
    let wv = wsum_vals(mask, stats);
    let lv = wlog_vals(mask, stats);
    assert forall|i: int| 0 <= i < k implies 0 <= wv[i] && lv[i] <= c * wv[i] by {
        if mask[i] {
            lemma_log2_fixed_bounds(stats.weight_spec(i));
            assert(stats.weight_spec(i) * spec_log2_fixed(stats.weight_spec(i))
                <= c * stats.weight_spec(i)) by (nonlinear_arith)
                requires
                    0 <= stats.weight_spec(i),
                    0 <= spec_log2_fixed(stats.weight_spec(i)) <= c,
            ;
        }
    }
    lemma_sum_prefix_scaled_le(lv, wv, c, k);
    lemma_wsum_vals_prefix_bound(mask, stats, k);
    assert(c * sum_prefix(wv, k) <= c * stats.total_weight_spec()) by (nonlinear_arith)
        requires
            c >= 0,
            sum_prefix(wv, k) <= stats.total_weight_spec(),
    ;
    lemma_wlog_vals_nonneg_prefix(mask, stats, k);
}

proof fn lemma_wlog_vals_nonneg(mask: Seq<bool>, stats: GlobalStats)
    requires
        stats.wf(),
        mask.len() <= stats.num_patterns_spec(),
    ensures
        forall|i: int| 0 <= i < mask.len() ==> #[trigger] wlog_vals(mask, stats)[i] >= 0,
{
    assert forall|i: int| 0 <= i < mask.len()
        implies #[trigger] wlog_vals(mask, stats)[i] >= 0
    by {
        if mask[i] {
            lemma_log2_fixed_bounds(stats.weight_spec(i));
            assert(stats.weight_spec(i) * spec_log2_fixed(stats.weight_spec(i)) >= 0)
                by (nonlinear_arith)
                requires
                    stats.weight_spec(i) >= 0,
                    spec_log2_fixed(stats.weight_spec(i)) >= 0,
            ;
        }
    }
}

proof fn lemma_wlog_vals_nonneg_prefix(mask: Seq<bool>, stats: GlobalStats, k: int)
    requires
        stats.wf(),
        0 <= k <= mask.len(),
        mask.len() <= stats.num_patterns_spec(),
    ensures
        sum_prefix(wlog_vals(mask, stats), k) >= 0,
{
    lemma_wlog_vals_nonneg(mask, stats);
    lemma_sum_prefix_nonneg(wlog_vals(mask, stats), k);
}

/// The grid of candidate sets being solved.
pub struct Wave {
    pub(crate) grid: Grid<WaveCell>,
}

impl Wave {
    pub closed spec fn size(&self) -> Size {
        self.grid.size()
    }

    pub closed spec fn cells(&self) -> Seq<WaveCell> {
        self.grid.contents()
    }

    /// Candidate masks of all cells, row-major.
    pub open spec fn masks(&self) -> Seq<Seq<bool>> {
        Seq::new(self.cells().len(), |i: int| self.cells()[i].mask())
    }

    pub open spec fn index_of(&self, x: int, y: int) -> int {
        y * self.size().width as int + x
    }

    pub open spec fn in_bounds(&self, x: int, y: int) -> bool {
        0 <= x < self.size().width as int && 0 <= y < self.size().height as int
    }

    pub open spec fn wf(&self, stats: GlobalStats) -> bool {
        &&& self.cells().len() == self.size().area()
        &&& self.size().fits()
        &&& self.size().width >= 1
        &&& self.size().height >= 1
        &&& forall|i: int| 0 <= i < self.cells().len()
            ==> (#[trigger] self.cells()[i]).wf(stats)
    }

    /// No cell's candidate set is empty.
    pub open spec fn nonempty(&self) -> bool {
        forall|i: int| 0 <= i < self.cells().len()
            ==> (#[trigger] self.cells()[i]).num_spec() >= 1
    }

    /// Every cell has exactly one remaining pattern.
    pub open spec fn completed(&self) -> bool {
        forall|i: int| 0 <= i < self.cells().len()
            ==> (#[trigger] self.cells()[i]).num_spec() == 1
    }

    /// A wave with every pattern possible at every cell.
    pub fn new(size: Size, stats: &GlobalStats) -> (r: Wave)
        requires
            stats.wf(),
            size.fits(),
            size.width >= 1,
            size.height >= 1,
        ensures
            r.wf(*stats),
            r.size() == size,
            forall|i: int| 0 <= i < r.cells().len()
                ==> (#[trigger] r.cells()[i]).num_spec() == stats.num_patterns_spec(),
            forall|i: int, p: int|
                0 <= i < r.cells().len() && 0 <= p < stats.num_patterns_spec()
                    ==> (#[trigger] r.cells()[i].mask()[p]),
    {
        proof {
            assert(size.area() <= MAX_DIM as int * MAX_DIM as int) by (nonlinear_arith)
                requires
                    0 <= size.width as int <= MAX_DIM as int,
                    0 <= size.height as int <= MAX_DIM as int,
            ;
            assert(size.area() >= 0) by (nonlinear_arith)
                requires size.width as int >= 0 && size.height as int >= 0,
            ;
        }
        let count: usize = (size.width as usize) * (size.height as usize);
        let mut cells: Vec<WaveCell> = Vec::new();
        let mut i: usize = 0;
        while i < count
            invariant
                stats.wf(),
                i <= count,
                cells@.len() == i as int,
                forall|k: int| 0 <= k < i as int ==> (#[trigger] cells@[k]).wf(*stats),
                forall|k: int| 0 <= k < i as int
                    ==> (#[trigger] cells@[k]).num_spec() == stats.num_patterns_spec(),
                forall|k: int, p: int|
                    0 <= k < i as int && 0 <= p < stats.num_patterns_spec()
                        ==> (#[trigger] cells@[k].mask()[p]),
            decreases count - i,
        {
            let c = WaveCell::new_all(stats);
            cells.push(c);
            i = i + 1;
        }
        Wave { grid: Grid::from_vec(size.width, size.height, cells) }
    }

    pub fn size_of(&self) -> (r: Size)
        ensures
            r == self.size(),
    {
        self.grid.size_of()
    }

    /// The cell at (x, y).
    pub fn cell_at(&self, x: u32, y: u32) -> (r: &WaveCell)
        requires
            self.cells().len() == self.size().area(),
            self.size().fits(),
            self.in_bounds(x as int, y as int),
        ensures
            *r == self.cells()[self.index_of(x as int, y as int)],
    {
        self.grid.get(x, y)
    }

    /// The cell at row-major index `i`.
    pub fn cell_linear(&self, i: usize) -> (r: &WaveCell)
        requires
            self.cells().len() == self.size().area(),
            self.size().fits(),
            (i as int) < self.cells().len(),
        ensures
            *r == self.cells()[i as int],
    {
        self.grid.get_linear(i)
    }

    /// Removes pattern `p` at cell (x, y), maintaining the cell's
    /// cached aggregates.
    pub fn remove_at(&mut self, x: u32, y: u32, p: usize, stats: &GlobalStats)
        requires
            stats.wf(),
            old(self).wf(*stats),
            old(self).in_bounds(x as int, y as int),
            (p as int) < stats.num_patterns_spec(),
            old(self).cells()[old(self).index_of(x as int, y as int)].mask()[p as int],
        ensures
            final(self).wf(*stats),
            final(self).size() == old(self).size(),
            final(self).cells().len() == old(self).cells().len(),
            forall|i: int| 0 <= i < old(self).cells().len()
                && i != old(self).index_of(x as int, y as int)
                ==> final(self).cells()[i] == old(self).cells()[i],
            ({
                let idx = old(self).index_of(x as int, y as int);
                let c0 = old(self).cells()[idx];
                let c1 = final(self).cells()[idx];
                &&& c1.wf(*stats)
                &&& c1.mask() == c0.mask().update(p as int, false)
                &&& c1.num_spec() == c0.num_spec() - 1
            }),
    {
        proof {
            let idx = old(self).index_of(x as int, y as int);
            let w = old(self).size().width as int;
            let h = old(self).size().height as int;
            assert(0 <= y as int * w + x as int && y as int * w + (x as int) < h * w)
                by (nonlinear_arith)
                requires 0 <= x as int && (x as int) < w && 0 <= y as int && (y as int) < h,
            ;
            assert(old(self).cells()[idx].wf(*stats));
        }
        let cell = self.grid.get_mut(x, y);
        cell.remove(p, stats);
        proof {
            let idx = old(self).index_of(x as int, y as int);
            assert forall|i: int| 0 <= i < self.cells().len()
                implies (#[trigger] self.cells()[i]).wf(*stats)
            by {
                if i != idx {
                    assert(self.cells()[i] == old(self).cells()[i]);
                    assert(old(self).cells()[i].wf(*stats));
                }
            }
        }
    }
}

/// `v` is the reference-corner value of some still-possible pattern of
/// the mask.
pub open spec fn represents(stats: GlobalStats, mask: Seq<bool>, v: u64) -> bool {
    exists|p: int|
        0 <= p < stats.num_patterns_spec() && mask[p]
            && v == (#[trigger] stats.window_spec(p))[0]
}

impl Wave {
    /// Maps each collapsed cell to its pattern's representative value:
    /// the window's reference-corner entry.
    pub fn chosen_values(&self, stats: &GlobalStats) -> (r: Grid<u64>)
        requires
            stats.wf(),
            self.wf(*stats),
            self.completed(),
        ensures
            r.wf(),
            r.size() == self.size(),
            forall|i: int| 0 <= i < r.contents().len()
                ==> represents(*stats, self.masks()[i], r.contents()[i]),
    {
        let size = self.size_of();
        proof {
            assert(size.area() >= 0) by (nonlinear_arith)
                requires size.width as int >= 0 && size.height as int >= 0,
            ;
            assert(size.area() <= MAX_DIM as int * MAX_DIM as int) by (nonlinear_arith)
                requires
                    0 <= size.width as int <= MAX_DIM as int,
                    0 <= size.height as int <= MAX_DIM as int,
            ;
        }
        let count: usize = (size.width as usize) * (size.height as usize);
        let mut out: Vec<u64> = Vec::new();
        let mut i: usize = 0;
        while i < count
            invariant
                stats.wf(),
                self.wf(*stats),
                self.completed(),
                self.size() == size,
                count as int == self.cells().len(),
                i <= count,
                out@.len() == i as int,
                forall|k: int| 0 <= k < i as int
                    ==> represents(*stats, self.masks()[k], #[trigger] out@[k]),
            decreases count - i,
        {
            proof {
                assert(self.cells()[i as int].wf(*stats));
                assert(self.cells()[i as int].num_spec() == 1);
            }
            let cell = self.cell_linear(i);
            let p = cell.the_pattern(stats);
            let v = stats.top_left_value(p);
            out.push(v);
            proof {
                assert(self.masks()[i as int][p as int]);
                assert(out@[i as int] == (stats.window_spec(p as int))[0]);
                assert(represents(*stats, self.masks()[i as int], out@[i as int]));
            }
            i = i + 1;
        }
        Grid::from_vec(size.width, size.height, out)
    }
}

/// An all-true mask counts its full length.
proof fn lemma_count_all_true(mask: Seq<bool>)
    requires
        forall|i: int| 0 <= i < mask.len() ==> mask[i],
    ensures
        sum_prefix(count_vals(mask), mask.len() as int) == mask.len() as int,
{
    lemma_count_all_true_prefix(mask, mask.len() as int);
}

proof fn lemma_count_all_true_prefix(mask: Seq<bool>, k: int)
    requires
        k <= mask.len(),
        forall|i: int| 0 <= i < mask.len() ==> mask[i],
    ensures
        sum_prefix(count_vals(mask), k) == if k >= 0 { k } else { 0 },
    decreases k,
{
    if k > 0 {
        lemma_count_all_true_prefix(mask, k - 1);
    }
}

} // verus!
