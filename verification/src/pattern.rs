//! Pattern extraction: slides oriented windows over the sample grid,
//! deduplicates them into weighted patterns, and builds the directional
//! compatibility table used during propagation.

use vstd::prelude::*;
use vstd::arithmetic::div_mod::{lemma_fundamental_div_mod_converse, lemma_multiply_divide_lt};
use crate::grid::{Grid, MAX_DIM};
use crate::orientation::Orientation;
use crate::sums::{
    sum_prefix, lemma_sum_prefix_congruence, lemma_sum_prefix_update,
    lemma_sum_prefix_at_least_count,
};
use crate::wrap::{DIR_LEFT, DIR_RIGHT, DIR_UP};
use crate::WfcError;

verus! {

/// Value at offset `k` (row-major) of the edge-`n` window anchored at
/// (bx, by) of the toroidally-read sample, under orientation `o`.
pub open spec fn spec_window_at(
    sample: Grid<u64>,
    o: Orientation,
    bx: int,
    by: int,
    n: int,
    k: int,
) -> u64 {
    let dx = k % n;
    let dy = k / n;
    let ox = o.spec_src_x(n, dx, dy);
    let oy = o.spec_src_y(n, dx, dy);
    let w = sample.size().width as int;
    let h = sample.size().height as int;
    let sx = (bx + ox) % w;
    let sy = (by + oy) % h;
    sample.contents()[sy * w + sx]
}

/// The whole window as a sequence of `n * n` values.
pub open spec fn spec_window(
    sample: Grid<u64>,
    o: Orientation,
    bx: int,
    by: int,
    n: int,
) -> Seq<u64> {
    Seq::new((n * n) as nat, |k: int| spec_window_at(sample, o, bx, by, n, k))
}

/// Window number `j` in extraction order: orientations outermost, then
/// rows, then columns.
pub open spec fn spec_window_of_index(
    sample: Grid<u64>,
    orients: Seq<Orientation>,
    n: int,
    j: int,
) -> Seq<u64> {
    let area = sample.size().area();
    let w = sample.size().width as int;
    let rest = j % area;
    spec_window(sample, orients[j / area], rest % w, rest / w, n)
}

/// How many of the first `j` extracted windows carry content `wc`.
pub open spec fn spec_occurrences_upto(
    sample: Grid<u64>,
    orients: Seq<Orientation>,
    n: int,
    wc: Seq<u64>,
    j: int,
) -> int
    decreases j,
{
    if j <= 0 {
        0
    } else {
        spec_occurrences_upto(sample, orients, n, wc, j - 1)
            + if spec_window_of_index(sample, orients, n, j - 1) == wc { 1int } else { 0int }
    }
}

proof fn lemma_occurrences_nonneg(
    sample: Grid<u64>,
    orients: Seq<Orientation>,
    n: int,
    wc: Seq<u64>,
    j: int,
)
    ensures
        spec_occurrences_upto(sample, orients, n, wc, j) >= 0,
    decreases j,
{
    if j > 0 {
        lemma_occurrences_nonneg(sample, orients, n, wc, j - 1);
    }
}

proof fn lemma_occurrences_pos_witness(
    sample: Grid<u64>,
    orients: Seq<Orientation>,
    n: int,
    wc: Seq<u64>,
    j: int,
)
    requires
        spec_occurrences_upto(sample, orients, n, wc, j) >= 1,
    ensures
        exists|j2: int|
            0 <= j2 < j && spec_window_of_index(sample, orients, n, j2) == wc,
    decreases j,
{
    if j > 0 {
        if spec_window_of_index(sample, orients, n, j - 1) == wc {
            assert(0 <= j - 1 < j && spec_window_of_index(sample, orients, n, j - 1) == wc);
        } else {
            lemma_occurrences_pos_witness(sample, orients, n, wc, j - 1);
        }
    }
}

/// Reads the oriented window anchored at (bx, by).
fn extract_window(sample: &Grid<u64>, o: Orientation, bx: u32, by: u32, n: u32) -> (r: Vec<u64>)
    requires
        sample.wf(),
        sample.size().width >= 1,
        sample.size().height >= 1,
        bx < sample.size().width,
        by < sample.size().height,
        1 <= n <= MAX_DIM,
    ensures
        r@ =~= spec_window(*sample, o, bx as int, by as int, n as int),
{
    let w = sample.size_of().width;
    let h = sample.size_of().height;
    let mut r: Vec<u64> = Vec::new();
    let mut dy: u32 = 0;
    while dy < n
        invariant
            sample.wf(),
            sample.size().width == w >= 1,
            sample.size().height == h >= 1,
            bx < w,
            by < h,
            1 <= n <= MAX_DIM,
            dy <= n,
            r@.len() == dy as int * n as int,
            forall|k: int| 0 <= k < r@.len()
                ==> r@[k] == spec_window_at(*sample, o, bx as int, by as int, n as int, k),
        decreases n - dy,
    {
        let mut dx: u32 = 0;
        while dx < n
            invariant
                sample.wf(),
                sample.size().width == w >= 1,
                sample.size().height == h >= 1,
                bx < w,
                by < h,
                1 <= n <= MAX_DIM,
                dy < n,
                dx <= n,
                r@.len() == dy as int * n as int + dx as int,
                forall|k: int| 0 <= k < r@.len()
                    ==> r@[k] == spec_window_at(*sample, o, bx as int, by as int, n as int, k),
            decreases n - dx,
        {
            let (ox, oy) = o.src_offset(n, dx, dy);
            let sx = (bx + ox) % w;
            let sy = (by + oy) % h;
            let v = sample.at(sx, sy);
            proof {
                let k = dy as int * n as int + dx as int;
                lemma_fundamental_div_mod_converse(k, n as int, dy as int, dx as int);
                assert(k % n as int == dx as int && k / n as int == dy as int);
            }
            r.push(v);
            dx = dx + 1;
        }
        proof {
            assert(dy as int * n as int + n as int == (dy + 1) as int * n as int)
                by (nonlinear_arith);
        }
        dy = dy + 1;
    }
    proof {
        assert(n as int * n as int == r@.len());
    }
    r
}

/// Content equality of two value vectors.
fn vec_eq(a: &Vec<u64>, b: &Vec<u64>) -> (r: bool)
    ensures
        r <==> a@ == b@,
{
    if a.len() != b.len() {
        return false;
    }
    let mut i: usize = 0;
    while i < a.len()
        invariant
            a@.len() == b@.len(),
            i <= a@.len(),
            forall|k: int| 0 <= k < i as int ==> a@[k] == b@[k],
        decreases a@.len() - i as int,
    {
        if a[i] != b[i] {
            return false;
        }
        i = i + 1;
    }
    proof {
        assert(a@ =~= b@);
    }
    true
}

/// Index of the stored window equal to `wc`, if any.
fn find_window(windows: &Vec<Vec<u64>>, wc: &Vec<u64>) -> (r: Option<usize>)
    ensures
        match r {
            Some(p) => (p as int) < windows@.len() && windows@[p as int]@ == wc@,
            None => forall|p: int| 0 <= p < windows@.len() ==> windows@[p]@ != wc@,
        },
{
    let mut i: usize = 0;
    while i < windows.len()
        invariant
            i <= windows@.len(),
            forall|p: int| 0 <= p < i as int ==> windows@[p]@ != wc@,
        decreases windows@.len() - i as int,
    {
        if vec_eq(&windows[i], wc) {
            return Some(i);
        }
        i = i + 1;
    }
    None
}

/// Overlap agreement when `b` sits one cell to the right of `a`:
/// all of `a` except its leftmost column matches all of `b` except its
/// rightmost column. Offsets are row-major, so `k % n` is the column.
pub open spec fn spec_agree_right(a: Seq<u64>, b: Seq<u64>, n: int) -> bool {
    forall|k: int| 0 <= k < n * n && k % n >= 1 ==> #[trigger] a[k] == b[k - 1]
}

/// Overlap agreement when `b` sits one cell below `a`: all of `a` except
/// its top row matches all of `b` except its bottom row.
pub open spec fn spec_agree_down(a: Seq<u64>, b: Seq<u64>, n: int) -> bool {
    forall|k: int| n <= k < n * n ==> #[trigger] a[k] == b[k - n]
}

/// Overlap agreement with `b` one cell away from `a` in direction `d`.
pub open spec fn spec_compatible(a: Seq<u64>, b: Seq<u64>, d: int, n: int) -> bool {
    if d == DIR_LEFT as int {
        spec_agree_right(b, a, n)
    } else if d == DIR_RIGHT as int {
        spec_agree_right(a, b, n)
    } else if d == DIR_UP as int {
        spec_agree_down(b, a, n)
    } else {
        spec_agree_down(a, b, n)
    }
}

fn index_in_window(n: u32, x: u32, y: u32) -> (r: usize)
    requires
        1 <= n <= MAX_DIM,
        x < n,
        y < n,
    ensures
        r as int == y as int * n as int + x as int,
        (r as int) < n as int * n as int,
{
    proof {
        assert(y as int * n as int + (x as int) < n as int * n as int) by (nonlinear_arith)
            requires 0 <= x as int && (x as int) < n as int && 0 <= y as int
                && (y as int) < n as int,
        ;
        assert(y as int * n as int <= MAX_DIM as int * MAX_DIM as int) by (nonlinear_arith)
            requires 0 <= y as int <= MAX_DIM as int && 0 <= n as int <= MAX_DIM as int,
        ;
        assert(0 <= y as int * n as int) by (nonlinear_arith)
            requires 0 <= y as int && 0 <= n as int,
        ;
    }
    (y as usize) * (n as usize) + (x as usize)
}

fn agree_right(a: &Vec<u64>, b: &Vec<u64>, n: u32) -> (r: bool)
    requires
        1 <= n <= MAX_DIM,
        a@.len() == n as int * n as int,
        b@.len() == n as int * n as int,
    ensures
        r == spec_agree_right(a@, b@, n as int),
{
    let side: usize = n as usize;
    let len: usize = a.len();
    let mut k: usize = 0;
    while k < len
        invariant
            1 <= n <= MAX_DIM,
            a@.len() == n as int * n as int,
            b@.len() == n as int * n as int,
            side == n as int,
            len == a@.len(),
            k <= len,
            forall|k2: int|
                0 <= k2 < k as int && k2 % (n as int) >= 1 ==> #[trigger] a@[k2] == b@[k2 - 1],
        decreases len - k,
    {
        if k >= 1 && k % side >= 1 {
            proof {
                assert(k as int % (n as int) == (k % side) as int);
            }
            if a[k] != b[k - 1] {
                return false;
            }
        }
        k = k + 1;
    }
    true
}

fn agree_down(a: &Vec<u64>, b: &Vec<u64>, n: u32) -> (r: bool)
    requires
        1 <= n <= MAX_DIM,
        a@.len() == n as int * n as int,
        b@.len() == n as int * n as int,
    ensures
        r == spec_agree_down(a@, b@, n as int),
{
    let side: usize = n as usize;
    let len: usize = a.len();
    let mut k: usize = side;
    if len < side {
        proof {
            assert(n as int * n as int >= n as int) by (nonlinear_arith)
                requires n as int >= 1,
            ;
        }
    }
    while k < len
        invariant
            1 <= n <= MAX_DIM,
            a@.len() == n as int * n as int,
            b@.len() == n as int * n as int,
            side == n as int,
            len == a@.len(),
            side <= k <= len || (k == side && len <= side),
            forall|k2: int|
                n as int <= k2 < k as int ==> #[trigger] a@[k2] == b@[k2 - n as int],
        decreases len - k,
    {
        if a[k] != b[k - side] {
            return false;
        }
        k = k + 1;
    }
    true
}

/// Mapping of stored weights to mathematical integers.
pub open spec fn weight_vals(ws: Seq<u32>) -> Seq<int> {
    Seq::new(ws.len(), |i: int| ws[i] as int)
}

/// All pattern weights of `stats`, as integers in id order.
pub open spec fn stats_weight_seq(stats: GlobalStats) -> Seq<int> {
    Seq::new(stats.num_patterns_spec() as nat, |i: int| stats.weight_spec(i))
}

/// The immutable outcome of pattern extraction: deduplicated windows,
/// their occurrence weights, and the directional compatibility table.
pub struct GlobalStats {
    n: u32,
    windows: Vec<Vec<u64>>,
    weights: Vec<u32>,
    total_weight: u32,
    compat: Vec<Vec<Vec<bool>>>,
}

impl GlobalStats {
    /// Pattern edge length.
    pub closed spec fn edge_spec(&self) -> int {
        self.n as int
    }

    /// Number of distinct patterns.
    pub closed spec fn num_patterns_spec(&self) -> int {
        self.windows@.len() as int
    }

    /// Canonical window content of pattern `p`.
    pub closed spec fn window_spec(&self, p: int) -> Seq<u64> {
        self.windows@[p]@
    }

    /// Occurrence weight of pattern `p`.
    pub closed spec fn weight_spec(&self, p: int) -> int {
        self.weights@[p] as int
    }

    /// Sum of all pattern weights.
    pub closed spec fn total_weight_spec(&self) -> int {
        self.total_weight as int
    }

    /// `p` is a valid pattern id.
    pub open spec fn pattern_ok(&self, p: int) -> bool {
        0 <= p < self.num_patterns_spec()
    }

    /// Whether pattern `q` may sit one cell away from pattern `p` in
    /// direction `d`.
    pub closed spec fn compat_spec(&self, d: int, p: int, q: int) -> bool {
        self.compat@[d]@[p]@[q]
    }

    /// Internal table shapes line up with the pattern count.
    pub closed spec fn shape_ok(&self) -> bool {
        &&& self.weights@.len() == self.windows@.len()
        &&& self.compat@.len() == 4
        &&& forall|d: int| 0 <= d < 4 ==> (#[trigger] self.compat@[d])@.len()
            == self.windows@.len()
        &&& forall|d: int, p: int| 0 <= d < 4 && 0 <= p < self.windows@.len()
            ==> (#[trigger] self.compat@[d]@[p])@.len() == self.windows@.len()
    }

    /// Well-formedness: at least one pattern, windows of the declared
    /// edge length, pairwise-distinct windows, positive weights summing
    /// to the stored total, and a compatibility table that mirrors the
    /// geometric overlap-agreement rule.
    pub open spec fn wf(&self) -> bool {
        &&& 1 <= self.edge_spec() <= MAX_DIM as int
        &&& 1 <= self.num_patterns_spec()
        &&& self.num_patterns_spec() <= self.total_weight_spec()
        &&& self.total_weight_spec() <= u32::MAX as int
        &&& self.shape_ok()
        &&& sum_prefix(stats_weight_seq(*self), self.num_patterns_spec())
            == self.total_weight_spec()
        &&& forall|p: int| self.pattern_ok(p)
            ==> (#[trigger] self.window_spec(p)).len() == self.edge_spec() * self.edge_spec()
        &&& forall|p: int| self.pattern_ok(p) ==> 1 <= #[trigger] self.weight_spec(p)
        &&& forall|p: int| self.pattern_ok(p)
            ==> #[trigger] self.weight_spec(p) <= self.total_weight_spec()
        &&& forall|p1: int, p2: int|
            self.pattern_ok(p1) && self.pattern_ok(p2) && p1 != p2
                ==> #[trigger] self.window_spec(p1) != #[trigger] self.window_spec(p2)
        &&& forall|d: int, p: int, q: int|
            0 <= d < 4 && self.pattern_ok(p) && self.pattern_ok(q)
                ==> #[trigger] self.compat_spec(d, p, q) == spec_compatible(
                    self.window_spec(p),
                    self.window_spec(q),
                    d,
                    self.edge_spec(),
                )
    }

    /// The stats record exactly the windows of `sample` under `orients`:
    /// one pattern per distinct content, weighted by occurrence count.
    pub open spec fn extracted_from(&self, sample: Grid<u64>, orients: Seq<Orientation>) -> bool {
        &&& self.total_weight_spec() == orients.len() * sample.size().area()
        &&& forall|p: int| self.pattern_ok(p)
            ==> #[trigger] self.weight_spec(p) == spec_occurrences_upto(
                sample,
                orients,
                self.edge_spec(),
                self.window_spec(p),
                self.total_weight_spec(),
            )
        &&& forall|j: int| 0 <= j < self.total_weight_spec()
            ==> exists|p: int| self.pattern_ok(p)
                && self.window_spec(p) == #[trigger] spec_window_of_index(
                    sample,
                    orients,
                    self.edge_spec(),
                    j,
                )
    }

    pub fn num_patterns(&self) -> (r: usize)
        ensures
            r as int == self.num_patterns_spec(),
    {
        self.windows.len()
    }

    pub fn edge_len(&self) -> (r: u32)
        ensures
            r as int == self.edge_spec(),
    {
        self.n
    }

    pub fn weight(&self, p: usize) -> (r: u32)
        requires
            self.wf(),
            self.pattern_ok(p as int),
        ensures
            r as int == self.weight_spec(p as int),
    {
        self.weights[p]
    }

    pub fn total_weight(&self) -> (r: u32)
        ensures
            r as int == self.total_weight_spec(),
    {
        self.total_weight
    }

    pub fn compatible(&self, d: u32, p: usize, q: usize) -> (r: bool)
        requires
            self.wf(),
            d < 4,
            self.pattern_ok(p as int),
            self.pattern_ok(q as int),
        ensures
            r == self.compat_spec(d as int, p as int, q as int),
    {
        self.compat[d as usize][p][q]
    }

    /// Representative sample value of pattern `p`: the window's
    /// reference-corner entry.
    pub fn top_left_value(&self, p: usize) -> (r: u64)
        requires
            self.wf(),
            self.pattern_ok(p as int),
        ensures
            r == self.window_spec(p as int)[0],
    {
        proof {
            assert(self.edge_spec() * self.edge_spec() >= 1) by (nonlinear_arith)
                requires self.edge_spec() >= 1,
            ;
            assert(self.window_spec(p as int).len()
                == self.edge_spec() * self.edge_spec());
        }
        self.windows[p][0]
    }
}

/// Weight conservation: distinct patterns number at most one per sample
/// window per orientation, and windows of equal content share one
/// pattern id (whose weight counts their combined occurrences).
pub proof fn lemma_weight_conservation(
    stats: GlobalStats,
    sample: Grid<u64>,
    orients: Seq<Orientation>,
)
    requires
        stats.wf(),
        stats.extracted_from(sample, orients),
    ensures
        stats.num_patterns_spec() <= orients.len() * sample.size().area(),
        forall|p1: int, p2: int|
            stats.pattern_ok(p1) && stats.pattern_ok(p2)
                && #[trigger] stats.window_spec(p1) == #[trigger] stats.window_spec(p2)
                ==> p1 == p2,
{
}

/// Overlap agreement with `b` one cell away from `a` in direction `d`.
fn compatible_windows(a: &Vec<u64>, b: &Vec<u64>, d: u32, n: u32) -> (r: bool)
    requires
        d < 4,
        1 <= n <= MAX_DIM,
        a@.len() == n as int * n as int,
        b@.len() == n as int * n as int,
    ensures
        r == spec_compatible(a@, b@, d as int, n as int),
{
    if d == DIR_LEFT {
        agree_right(b, a, n)
    } else if d == DIR_RIGHT {
        agree_right(a, b, n)
    } else if d == DIR_UP {
        agree_down(b, a, n)
    } else {
        agree_down(a, b, n)
    }
}

impl GlobalStats {
    /// Scans every oriented window of the (toroidally-read) sample,
    /// deduplicates windows into weighted patterns, and derives the
    /// compatibility table from overlap agreement.
    pub fn from_sample(
        sample: &Grid<u64>,
        n: u32,
        orientations: &Vec<Orientation>,
    ) -> (r: Result<GlobalStats, WfcError>)
        requires
            sample.wf(),
        ensures
            match r {
                Ok(stats) => {
                    &&& stats.wf()
                    &&& stats.edge_spec() == n as int
                    &&& stats.extracted_from(*sample, orientations@)
                    &&& 1 <= n as int <= sample.size().width as int
                    &&& n as int <= sample.size().height as int
                    &&& orientations@.len() >= 1
                },
                Err(e) => {
                    &&& (e == WfcError::InvalidPatternSize || e == WfcError::InvalidConfiguration)
                    &&& (e == WfcError::InvalidPatternSize <==> (n == 0
                        || (sample.size().width as int) < n as int
                        || (sample.size().height as int) < n as int))
                    &&& (e == WfcError::InvalidConfiguration ==> (orientations@.len() == 0
                        || orientations@.len() * sample.size().area() > u32::MAX as int))
                },
            },
            (1 <= n as int && n as int <= sample.size().width as int
                && n as int <= sample.size().height as int
                && orientations@.len() >= 1
                && orientations@.len() * sample.size().area() <= u32::MAX as int)
                ==> r is Ok,
    {
        let w = sample.size_of().width;
        let h = sample.size_of().height;
        if n == 0 || w < n || h < n {
            return Err(WfcError::InvalidPatternSize);
        }
        if orientations.len() == 0 {
            return Err(WfcError::InvalidConfiguration);
        }
        proof {
            assert(w as int * (h as int) <= MAX_DIM as int * MAX_DIM as int)
                by (nonlinear_arith)
                requires 0 <= w as int <= MAX_DIM as int && 0 <= h as int <= MAX_DIM as int,
            ;
            assert(w as int * (h as int) >= 1) by (nonlinear_arith)
                requires w as int >= 1 && h as int >= 1,
            ;
        }
        let area64: u64 = (w as u64) * (h as u64);
        if (orientations.len() as u64) > u32::MAX as u64 {
            proof {
                assert(orientations@.len() * sample.size().area() > u32::MAX as int)
                    by (nonlinear_arith)
                    requires
                        orientations@.len() > u32::MAX as int,
                        sample.size().area() >= 1,
                ;
            }
            return Err(WfcError::InvalidConfiguration);
        }
        proof {
            let l = orientations@.len() as int;
            assert(l * area64 as int <= u32::MAX as int * area64 as int) by (nonlinear_arith)
                requires 0 <= l <= u32::MAX as int && area64 as int >= 0,
            ;
            assert((u32::MAX as int * area64 as int) < u64::MAX as int) by (nonlinear_arith)
                requires 0 <= area64 as int <= MAX_DIM as int * MAX_DIM as int,
            ;
        }
        let total64: u64 = (orientations.len() as u64) * area64;
        if total64 > u32::MAX as u64 {
            proof {
                assert(orientations@.len() * sample.size().area()
                    == total64 as int) by (nonlinear_arith)
                    requires
                        area64 as int == sample.size().width as int * sample.size().height as int,
                        total64 as int == orientations@.len() * area64 as int,
                ;
            }
            return Err(WfcError::InvalidConfiguration);
        }
        let area: u32 = area64 as u32;
        let total: u32 = total64 as u32;
        proof {
            assert(orientations@.len() * sample.size().area() == total as int)
                by (nonlinear_arith)
                requires
                    area64 as int == sample.size().width as int * sample.size().height as int,
                    total64 as int == orientations@.len() * area64 as int,
                    total as int == total64 as int,
            ;
            assert(total as int >= 1) by (nonlinear_arith)
                requires
                    total as int == orientations@.len() * sample.size().area(),
                    orientations@.len() >= 1,
                    sample.size().width as int >= 1,
                    sample.size().height as int >= 1,
            ;
            assert(area as int >= 1);
        }
        let ghost so = orientations@;
        let mut windows: Vec<Vec<u64>> = Vec::new();
        let mut weights: Vec<u32> = Vec::new();
        let mut j: u32 = 0;
        while j < total
            invariant
                sample.wf(),
                sample.size().width == w,
                sample.size().height == h,
                1 <= n <= w,
                n <= h,
                so == orientations@,
                so.len() >= 1,
                area as int == sample.size().area(),
                area >= 1,
                total as int == so.len() * sample.size().area(),
                j <= total,
                windows@.len() == weights@.len(),
                windows@.len() <= j as int,
                forall|p: int| 0 <= p < windows@.len()
                    ==> (#[trigger] windows@[p])@.len() == n as int * n as int,
                forall|p1: int, p2: int|
                    0 <= p1 < windows@.len() && 0 <= p2 < windows@.len() && p1 != p2
                        ==> (#[trigger] windows@[p1])@ != (#[trigger] windows@[p2])@,
                forall|p: int| 0 <= p < weights@.len()
                    ==> 1 <= #[trigger] weights@[p] && weights@[p] as int <= j as int,
                forall|p: int| 0 <= p < windows@.len()
                    ==> #[trigger] weights@[p] as int == spec_occurrences_upto(
                        *sample, so, n as int, windows@[p]@, j as int),
                forall|j2: int| 0 <= j2 < j as int
                    ==> exists|p: int| 0 <= p < windows@.len()
                        && windows@[p]@ == #[trigger] spec_window_of_index(
                            *sample, so, n as int, j2),
                sum_prefix(weight_vals(weights@), weights@.len() as int) == j as int,
            decreases total - j,
        {
            let o_idx: u32 = j / area;
            let rest: u32 = j % area;
            let bx: u32 = rest % w;
            let by: u32 = rest / w;
            proof {
                assert(area as int * so.len() == so.len() * area as int) by (nonlinear_arith);
                lemma_multiply_divide_lt(j as int, area as int, so.len() as int);
                assert((o_idx as int) < so.len());
                assert((rest as int) < area as int);
                assert(w as int * (h as int) == sample.size().area());
                lemma_multiply_divide_lt(rest as int, w as int, h as int);
                assert((by as int) < h as int);
            }
            let o = orientations[o_idx as usize];
            let wv = extract_window(sample, o, bx, by, n);
            proof {
                assert(wv@ == spec_window_of_index(*sample, so, n as int, j as int));
            }
            let found = find_window(&windows, &wv);
            match found {
                Some(p) => {
                    let ghost ws0 = weights@;
                    let wt = weights[p];
                    weights.set(p, wt + 1);
                    proof {
                        assert(weight_vals(weights@)
                            =~= weight_vals(ws0).update(p as int, wt as int + 1));
                        lemma_sum_prefix_update(
                            weight_vals(ws0),
                            ws0.len() as int,
                            p as int,
                            wt as int + 1,
                        );
                        assert forall|p2: int| 0 <= p2 < windows@.len()
                            implies #[trigger] weights@[p2] as int == spec_occurrences_upto(
                                *sample, so, n as int, windows@[p2]@, j as int + 1)
                        by {
                            if p2 != p as int {
                                assert(windows@[p2]@ != wv@);
                            }
                        }
                    }
                }
                None => {
                    proof {
                        lemma_occurrences_nonneg(*sample, so, n as int, wv@, j as int);
                        if spec_occurrences_upto(*sample, so, n as int, wv@, j as int) >= 1 {
                            lemma_occurrences_pos_witness(
                                *sample, so, n as int, wv@, j as int);
                            assert(false);
                        }
                    }
                    let ghost ws0 = weights@;
                    let ghost win0 = windows@;
                    windows.push(wv);
                    weights.push(1);
                    proof {
                        let len0 = win0.len() as int;
                        lemma_sum_prefix_congruence(
                            weight_vals(weights@),
                            weight_vals(ws0),
                            len0,
                        );
                        assert(sum_prefix(weight_vals(weights@), len0 + 1)
                            == j as int + 1);
                        assert forall|p2: int| 0 <= p2 < windows@.len()
                            implies #[trigger] weights@[p2] as int == spec_occurrences_upto(
                                *sample, so, n as int, windows@[p2]@, j as int + 1)
                        by {
                            if p2 < len0 {
                                assert(windows@[p2]@ == win0[p2]@);
                                assert(win0[p2]@ != wv@);
                            } else {
                                assert(windows@[p2]@ == wv@);
                            }
                        }
                        assert forall|j2: int| 0 <= j2 < j as int + 1
                            implies exists|p: int| 0 <= p < windows@.len()
                                && windows@[p]@ == #[trigger] spec_window_of_index(
                                    *sample, so, n as int, j2)
                        by {
                            if j2 < j as int {
                                let p0 = choose|p0: int| 0 <= p0 < win0.len()
                                    && win0[p0]@ == spec_window_of_index(
                                        *sample, so, n as int, j2);
                                assert(windows@[p0]@ == spec_window_of_index(
                                    *sample, so, n as int, j2));
                            } else {
                                assert(windows@[len0]@ == spec_window_of_index(
                                    *sample, so, n as int, j2));
                            }
                        }
                    }
                }
            }
            j = j + 1;
        }
        let num = windows.len();
        proof {
            assert(0 <= 0 < total as int);
            assert(num >= 1);
        }
        let mut compat: Vec<Vec<Vec<bool>>> = Vec::new();
        let mut d: u32 = 0;
        while d < 4
            invariant
                1 <= n <= MAX_DIM,
                num as int == windows@.len(),
                forall|p: int| 0 <= p < windows@.len()
                    ==> (#[trigger] windows@[p])@.len() == n as int * n as int,
                d <= 4,
                compat@.len() == d as int,
                forall|d2: int| 0 <= d2 < d as int
                    ==> (#[trigger] compat@[d2])@.len() == num as int,
                forall|d2: int, p2: int|
                    0 <= d2 < d as int && 0 <= p2 < num as int
                        ==> (#[trigger] compat@[d2]@[p2])@.len() == num as int,
                forall|d2: int, p2: int, q2: int|
                    0 <= d2 < d as int && 0 <= p2 < num as int && 0 <= q2 < num as int
                        ==> #[trigger] compat@[d2]@[p2]@[q2] == spec_compatible(
                            windows@[p2]@, windows@[q2]@, d2, n as int),
            decreases 4 - d,
        {
            let mut table: Vec<Vec<bool>> = Vec::new();
            let mut p: usize = 0;
            while p < num
                invariant
                    1 <= n <= MAX_DIM,
                    d < 4,
                    num as int == windows@.len(),
                    forall|p2: int| 0 <= p2 < windows@.len()
                        ==> (#[trigger] windows@[p2])@.len() == n as int * n as int,
                    p <= num,
                    table@.len() == p as int,
                    forall|p2: int| 0 <= p2 < p as int
                        ==> (#[trigger] table@[p2])@.len() == num as int,
                    forall|p2: int, q2: int|
                        0 <= p2 < p as int && 0 <= q2 < num as int
                            ==> #[trigger] table@[p2]@[q2] == spec_compatible(
                                windows@[p2]@, windows@[q2]@, d as int, n as int),
                decreases num - p,
            {
                let mut row: Vec<bool> = Vec::new();
                let mut q: usize = 0;
                while q < num
                    invariant
                        1 <= n <= MAX_DIM,
                        d < 4,
                        p < num,
                        num as int == windows@.len(),
                        forall|p2: int| 0 <= p2 < windows@.len()
                            ==> (#[trigger] windows@[p2])@.len() == n as int * n as int,
                        q <= num,
                        row@.len() == q as int,
                        forall|q2: int| 0 <= q2 < q as int
                            ==> #[trigger] row@[q2] == spec_compatible(
                                windows@[p as int]@, windows@[q2]@, d as int, n as int),
                    decreases num - q,
                {
                    let c = compatible_windows(&windows[p], &windows[q], d, n);
                    row.push(c);
                    q = q + 1;
                }
                table.push(row);
                p = p + 1;
            }
            compat.push(table);
            d = d + 1;
        }
        let ghost winfin = windows@;
        let stats = GlobalStats { n, windows, weights, total_weight: total, compat };
        proof {
            assert(stats_weight_seq(stats) =~= weight_vals(stats.weights@));
            lemma_sum_prefix_at_least_count(
                weight_vals(stats.weights@),
                stats.weights@.len() as int,
            );
            assert forall|j2: int| 0 <= j2 < stats.total_weight_spec()
                implies exists|p: int| stats.pattern_ok(p)
                    && stats.window_spec(p) == #[trigger] spec_window_of_index(
                        *sample, so, stats.edge_spec(), j2)
            by {
                let p0 = choose|p0: int| 0 <= p0 < winfin.len()
                    && winfin[p0]@ == spec_window_of_index(*sample, so, n as int, j2);
                assert(stats.pattern_ok(p0));
                assert(stats.window_spec(p0) == spec_window_of_index(
                    *sample, so, stats.edge_spec(), j2));
            }
        }
        Ok(stats)
    }
}

} // verus!
