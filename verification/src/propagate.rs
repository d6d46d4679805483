//! The propagation engine: a worklist-driven arc-consistency fixpoint
//! over the wave, re-run after every cell change, plus the reusable
//! scratch `Context` that carries the worklist between attempts.

use vstd::prelude::*;
use crate::grid::Size;
use crate::pattern::GlobalStats;
use crate::sums::{
    sum_prefix, lemma_sum_prefix_update, lemma_sum_prefix_nonneg,
    lemma_sum_prefix_element_bound,
};
use crate::wave::{Wave, WaveCell, count_vals};
use crate::wrap::Wrap;
use crate::WfcError;

verus! {

/// Row-major cell index of (x, y).
pub open spec fn cidx(size: Size, x: int, y: int) -> int {
    y * size.width as int + x
}

pub proof fn lemma_size_area_bound(size: Size)
    requires
        size.fits(),
    ensures
        0 <= size.area() < u32::MAX as int,
{
    assert(size.area() <= crate::grid::MAX_DIM as int * crate::grid::MAX_DIM as int)
        by (nonlinear_arith)
        requires
            0 <= size.width as int <= crate::grid::MAX_DIM as int,
            0 <= size.height as int <= crate::grid::MAX_DIM as int,
    ;
    assert(size.area() >= 0) by (nonlinear_arith)
        requires size.width as int >= 0 && size.height as int >= 0,
    ;
}

pub proof fn lemma_cidx_range(size: Size, x: int, y: int)
    requires
        0 <= x < size.width as int,
        0 <= y < size.height as int,
    ensures
        0 <= cidx(size, x, y) < size.area(),
{
    let w = size.width as int;
    let h = size.height as int;
    assert(y * w + x < h * w) by (nonlinear_arith)
        requires 0 <= x < w && 0 <= y < h,
    ;
    assert(0 <= y * w + x) by (nonlinear_arith)
        requires 0 <= x && 0 <= y && 0 <= w,
    ;
    assert(h * w == w * h) by (nonlinear_arith);
}

pub proof fn lemma_cidx_injective(size: Size, x1: int, y1: int, x2: int, y2: int)
    requires
        0 <= x1 < size.width as int,
        0 <= y1 < size.height as int,
        0 <= x2 < size.width as int,
        0 <= y2 < size.height as int,
        cidx(size, x1, y1) == cidx(size, x2, y2),
    ensures
        x1 == x2 && y1 == y2,
{
    let w = size.width as int;
    assert(y1 == y2 && x1 == x2) by (nonlinear_arith)
        requires
            0 <= x1 < w,
            0 <= x2 < w,
            y1 * w + x1 == y2 * w + x2,
    ;
}

/// Scratch memory for propagation: the worklist of coordinates pending
/// a pass, and a per-cell marker avoiding duplicate enqueueing.
pub struct Context {
    pub(crate) worklist: Vec<(u32, u32)>,
    pub(crate) queued: Vec<bool>,
}

impl Context {
    pub closed spec fn worklist_spec(&self) -> Seq<(u32, u32)> {
        self.worklist@
    }

    pub closed spec fn queued_spec(&self) -> Seq<bool> {
        self.queued@
    }

    /// Whether coordinate (x, y) awaits processing.
    pub open spec fn in_worklist(&self, x: int, y: int) -> bool {
        exists|k: int|
            0 <= k < self.worklist_spec().len()
                && (#[trigger] self.worklist_spec()[k]).0 == x
                && self.worklist_spec()[k].1 == y
    }

    pub open spec fn wf(&self, size: Size) -> bool {
        &&& size.fits()
        &&& self.queued_spec().len() == size.area()
        &&& forall|k: int| 0 <= k < self.worklist_spec().len()
            ==> (#[trigger] self.worklist_spec()[k]).0 < size.width
                && self.worklist_spec()[k].1 < size.height
        &&& forall|x: int, y: int|
            0 <= x < size.width as int && 0 <= y < size.height as int
                && self.queued_spec()[cidx(size, x, y)]
                ==> #[trigger] self.in_worklist(x, y)
    }

    /// Fresh, empty scratch memory for outputs of `size`.
    pub fn new(size: Size) -> (r: Context)
        requires
            size.fits(),
        ensures
            r.wf(size),
            r.worklist_spec().len() == 0,
    {
        proof {
            assert(size.area() <= crate::grid::MAX_DIM as int * crate::grid::MAX_DIM as int)
                by (nonlinear_arith)
                requires
                    0 <= size.width as int <= crate::grid::MAX_DIM as int,
                    0 <= size.height as int <= crate::grid::MAX_DIM as int,
            ;
            assert(size.area() >= 0) by (nonlinear_arith)
                requires size.width as int >= 0 && size.height as int >= 0,
            ;
        }
        let count: usize = (size.width as usize) * (size.height as usize);
        let mut queued: Vec<bool> = Vec::new();
        let mut i: usize = 0;
        while i < count
            invariant
                i <= count,
                queued@.len() == i as int,
                forall|k: int| 0 <= k < i as int ==> !(#[trigger] queued@[k]),
            decreases count - i,
        {
            queued.push(false);
            i = i + 1;
        }
        let ctx = Context { worklist: Vec::new(), queued };
        proof {
            assert forall|x: int, y: int|
                0 <= x < size.width as int && 0 <= y < size.height as int
                    && ctx.queued_spec()[cidx(size, x, y)]
                implies #[trigger] ctx.in_worklist(x, y)
            by {
                lemma_cidx_range(size, x, y);
                assert(!ctx.queued_spec()[cidx(size, x, y)]);
            }
        }
        ctx
    }

    /// Clears the worklist and all markers.
    pub fn clear(&mut self, size: Size)
        requires
            size.fits(),
            old(self).queued_spec().len() == size.area(),
        ensures
            final(self).wf(size),
            final(self).worklist_spec().len() == 0,
    {
        self.worklist = Vec::new();
        let count: usize = self.queued.len();
        let mut i: usize = 0;
        while i < count
            invariant
                count == self.queued@.len(),
                self.queued@.len() == size.area(),
                self.worklist@.len() == 0,
                size.fits(),
                i <= count,
                forall|k: int| 0 <= k < i as int ==> !(#[trigger] self.queued@[k]),
            decreases count - i,
        {
            self.queued.set(i, false);
            i = i + 1;
        }
        proof {
            assert forall|x: int, y: int|
                0 <= x < size.width as int && 0 <= y < size.height as int
                    && self.queued_spec()[cidx(size, x, y)]
                implies #[trigger] self.in_worklist(x, y)
            by {
                lemma_cidx_range(size, x, y);
                assert(!self.queued_spec()[cidx(size, x, y)]);
            }
        }
    }

    /// Number of per-cell markers held (the grid area it was built for).
    pub fn capacity(&self) -> (r: usize)
        ensures
            r as int == self.queued_spec().len(),
    {
        self.queued.len()
    }

    pub fn is_queued(&self, size: Size, x: u32, y: u32) -> (r: bool)
        requires
            self.wf(size),
            x < size.width,
            y < size.height,
        ensures
            r == self.queued_spec()[cidx(size, x as int, y as int)],
    {
        proof {
            lemma_cidx_range(size, x as int, y as int);
            lemma_size_area_bound(size);
        }
        let i: usize = (y as usize) * (size.width as usize) + (x as usize);
        self.queued[i]
    }

    /// Enqueues (x, y) unless it is already pending.
    pub fn enqueue(&mut self, size: Size, x: u32, y: u32)
        requires
            old(self).wf(size),
            x < size.width,
            y < size.height,
        ensures
            final(self).wf(size),
            final(self).in_worklist(x as int, y as int),
            forall|x2: int, y2: int|
                old(self).in_worklist(x2, y2) ==> #[trigger] final(self).in_worklist(x2, y2),
            final(self).worklist_spec().len() <= old(self).worklist_spec().len() + 1,
    {
        proof {
            lemma_cidx_range(size, x as int, y as int);
            lemma_size_area_bound(size);
        }
        let i: usize = (y as usize) * (size.width as usize) + (x as usize);
        if !self.queued[i] {
            self.queued.set(i, true);
            self.worklist.push((x, y));
            proof {
                let len0 = old(self).worklist_spec().len() as int;
                assert(self.worklist_spec()[len0] == (x, y));
                assert forall|x2: int, y2: int|
                    0 <= x2 < size.width as int && 0 <= y2 < size.height as int
                        && self.queued_spec()[cidx(size, x2, y2)]
                    implies #[trigger] self.in_worklist(x2, y2)
                by {
                    if cidx(size, x2, y2) == cidx(size, x as int, y as int) {
                        lemma_cidx_injective(size, x2, y2, x as int, y as int);
                        assert(self.worklist_spec()[len0].0 == x2);
                    } else {
                        lemma_cidx_range(size, x2, y2);
                        assert(old(self).queued_spec()[cidx(size, x2, y2)]);
                        assert(old(self).in_worklist(x2, y2));
                        let k = choose|k: int|
                            0 <= k < old(self).worklist_spec().len()
                                && (#[trigger] old(self).worklist_spec()[k]).0 == x2
                                && old(self).worklist_spec()[k].1 == y2;
                        assert(self.worklist_spec()[k].0 == x2);
                    }
                }
                assert forall|x2: int, y2: int| old(self).in_worklist(x2, y2)
                    implies #[trigger] self.in_worklist(x2, y2)
                by {
                    let k = choose|k: int|
                        0 <= k < old(self).worklist_spec().len()
                            && (#[trigger] old(self).worklist_spec()[k]).0 == x2
                            && old(self).worklist_spec()[k].1 == y2;
                    assert(self.worklist_spec()[k].0 == x2);
                }
            }
        } else {
            proof {
                assert(old(self).in_worklist(x as int, y as int));
            }
        }
    }

    /// Pops the most recently queued pending coordinate.
    pub fn pop(&mut self, size: Size) -> (r: Option<(u32, u32)>)
        requires
            old(self).wf(size),
        ensures
            final(self).wf(size),
            r is None ==> final(self).worklist_spec() == old(self).worklist_spec()
                && final(self).queued_spec() == old(self).queued_spec()
                && old(self).worklist_spec().len() == 0,
            r matches Some(c) ==> ({
                &&& old(self).worklist_spec().len() >= 1
                &&& c == old(self).worklist_spec().last()
                &&& c.0 < size.width
                &&& c.1 < size.height
                &&& final(self).worklist_spec() == old(self).worklist_spec().drop_last()
                &&& !final(self).queued_spec()[cidx(size, c.0 as int, c.1 as int)]
                &&& forall|x2: int, y2: int|
                    old(self).in_worklist(x2, y2) && !(x2 == c.0 as int && y2 == c.1 as int)
                        ==> #[trigger] final(self).in_worklist(x2, y2)
            }),
    {
        match self.worklist.pop() {
            None => {
                proof {
                    assert(self.queued_spec().len() == size.area());
                    assert forall|x2: int, y2: int|
                        0 <= x2 < size.width as int && 0 <= y2 < size.height as int
                            && self.queued_spec()[cidx(size, x2, y2)]
                        implies #[trigger] self.in_worklist(x2, y2)
                    by {
                        lemma_cidx_range(size, x2, y2);
                        assert(old(self).in_worklist(x2, y2));
                        let k = choose|k: int|
                            0 <= k < old(self).worklist_spec().len()
                                && (#[trigger] old(self).worklist_spec()[k]).0 == x2
                                && old(self).worklist_spec()[k].1 == y2;
                        assert(self.worklist_spec()[k].0 == x2);
                    }
                    assert(self.wf(size));
                }
                None
            }
            Some(c) => {
                proof {
                    lemma_cidx_range(size, c.0 as int, c.1 as int);
                    lemma_size_area_bound(size);
                }
                let i: usize = (c.1 as usize) * (size.width as usize) + (c.0 as usize);
                self.queued.set(i, false);
                proof {
                    let len0 = old(self).worklist_spec().len() as int;
                    assert forall|k: int| 0 <= k < self.worklist_spec().len()
                        implies (#[trigger] self.worklist_spec()[k]).0 < size.width
                            && self.worklist_spec()[k].1 < size.height
                    by {
                        assert(self.worklist_spec()[k]
                            == old(self).worklist_spec()[k]);
                    }
                    assert forall|x2: int, y2: int|
                        0 <= x2 < size.width as int && 0 <= y2 < size.height as int
                            && self.queued_spec()[cidx(size, x2, y2)]
                        implies #[trigger] self.in_worklist(x2, y2)
                    by {
                        lemma_cidx_range(size, x2, y2);
                        assert(cidx(size, x2, y2) != cidx(size, c.0 as int, c.1 as int));
                        assert(old(self).queued_spec()[cidx(size, x2, y2)]);
                        assert(old(self).in_worklist(x2, y2));
                        let k = choose|k: int|
                            0 <= k < old(self).worklist_spec().len()
                                && (#[trigger] old(self).worklist_spec()[k]).0 == x2
                                && old(self).worklist_spec()[k].1 == y2;
                        if k == len0 - 1 {
                            assert(x2 == c.0 as int && y2 == c.1 as int);
                            assert(false);
                        }
                        assert(self.worklist_spec()[k].0 == x2);
                    }
                    assert forall|x2: int, y2: int|
                        old(self).in_worklist(x2, y2)
                            && !(x2 == c.0 as int && y2 == c.1 as int)
                        implies #[trigger] self.in_worklist(x2, y2)
                    by {
                        let k = choose|k: int|
                            0 <= k < old(self).worklist_spec().len()
                                && (#[trigger] old(self).worklist_spec()[k]).0 == x2
                                && old(self).worklist_spec()[k].1 == y2;
                        if k == len0 - 1 {
                            assert(false);
                        }
                        assert(self.worklist_spec()[k].0 == x2);
                    }
                }
                proof {
                    assert(self.wf(size));
                }
                Some(c)
            }
        }
    }

    /// Enqueues every coordinate of the output grid.
    pub fn seed_all(&mut self, size: Size)
        requires
            old(self).wf(size),
            size.width >= 1,
            size.height >= 1,
        ensures
            final(self).wf(size),
            forall|x: int, y: int|
                0 <= x < size.width as int && 0 <= y < size.height as int
                    ==> #[trigger] final(self).in_worklist(x, y),
    {
        let mut y: u32 = 0;
        while y < size.height
            invariant
                self.wf(size),
                y <= size.height,
                forall|x2: int, y2: int|
                    0 <= x2 < size.width as int && 0 <= y2 < y as int
                        ==> #[trigger] self.in_worklist(x2, y2),
            decreases size.height - y,
        {
            let mut x: u32 = 0;
            while x < size.width
                invariant
                    self.wf(size),
                    y < size.height,
                    x <= size.width,
                    forall|x2: int, y2: int|
                        0 <= x2 < size.width as int && 0 <= y2 < y as int
                            ==> #[trigger] self.in_worklist(x2, y2),
                    forall|x2: int|
                        0 <= x2 < x as int ==> #[trigger] self.in_worklist(x2, y as int),
                decreases size.width - x,
            {
                self.enqueue(size, x, y);
                x = x + 1;
            }
            y = y + 1;
        }
    }
}

/// Pattern `q` is supported in direction `d` by some pattern of `mask`.
pub open spec fn spec_supported_by(mask: Seq<bool>, stats: GlobalStats, d: int, q: int) -> bool {
    exists|p: int|
        0 <= p < stats.num_patterns_spec() && mask[p] && #[trigger] stats.compat_spec(d, p, q)
}

/// The constraint of cell (x, y) towards direction `d`: every pattern
/// still possible at its neighbor there is supported by some pattern
/// still possible at (x, y).
pub open spec fn arc_ok_dir(
    m: Seq<Seq<bool>>,
    stats: GlobalStats,
    wrap: Wrap,
    size: Size,
    x: int,
    y: int,
    d: int,
) -> bool {
    wrap.spec_has_neighbor(size, x, y, d) ==> {
        let j = cidx(
            size,
            wrap.spec_neighbor_x(size, x, y, d),
            wrap.spec_neighbor_y(size, x, y, d),
        );
        forall|q: int|
            0 <= q < stats.num_patterns_spec() && (#[trigger] m[j][q])
                ==> spec_supported_by(m[cidx(size, x, y)], stats, d, q)
    }
}

/// Local consistency of the whole wave: every cell's constraint holds
/// towards every direction.
pub open spec fn arc_consistent(
    m: Seq<Seq<bool>>,
    stats: GlobalStats,
    wrap: Wrap,
    size: Size,
) -> bool {
    forall|x: int, y: int, d: int|
        0 <= x < size.width as int && 0 <= y < size.height as int && 0 <= d < 4
            ==> #[trigger] arc_ok_dir(m, stats, wrap, size, x, y, d)
}

/// Every cell's constraint either holds or the cell awaits processing.
pub open spec fn pending_or_arc_ok(
    ctx: Context,
    m: Seq<Seq<bool>>,
    stats: GlobalStats,
    wrap: Wrap,
    size: Size,
) -> bool {
    forall|x: int, y: int, d: int|
        0 <= x < size.width as int && 0 <= y < size.height as int && 0 <= d < 4
            ==> ctx.in_worklist(x, y) || #[trigger] arc_ok_dir(m, stats, wrap, size, x, y, d)
}

/// A family of candidate masks with one mask per cell of the grid and
/// one entry per pattern.
pub open spec fn masks_shaped(m: Seq<Seq<bool>>, stats: GlobalStats, size: Size) -> bool {
    &&& m.len() == size.area()
    &&& forall|i: int| 0 <= i < m.len() ==> (#[trigger] m[i]).len() == stats.num_patterns_spec()
}

/// At least one pattern remains in the mask.
pub open spec fn cell_nonempty(mask: Seq<bool>, stats: GlobalStats) -> bool {
    exists|p: int| 0 <= p < stats.num_patterns_spec() && #[trigger] mask[p]
}

/// Every cell of the family keeps at least one candidate.
pub open spec fn masks_nonempty(m: Seq<Seq<bool>>, stats: GlobalStats) -> bool {
    forall|i: int| 0 <= i < m.len() ==> #[trigger] cell_nonempty(m[i], stats)
}

/// `m` is the greatest arc-consistent subfamily of `m0`: it lies inside
/// `m0`, it is arc-consistent, and every arc-consistent subfamily of
/// `m0` lies inside it. This pins propagation down as sound: it removes
/// nothing that any arc-consistent assignment of `m0` could keep.
pub open spec fn is_ac_subfamily_max(
    m: Seq<Seq<bool>>,
    m0: Seq<Seq<bool>>,
    stats: GlobalStats,
    wrap: Wrap,
    size: Size,
) -> bool {
    &&& masks_subset(m, m0)
    &&& arc_consistent(m, stats, wrap, size)
    &&& forall|m2: Seq<Seq<bool>>|
        masks_shaped(m2, stats, size) && masks_subset(m2, m0)
            && #[trigger] arc_consistent(m2, stats, wrap, size)
            ==> masks_subset(m2, m)
}

/// A neighbor coordinate stays inside the grid.
pub proof fn lemma_neighbor_in_bounds(wrap: Wrap, size: Size, x: int, y: int, d: int)
    requires
        0 <= x < size.width as int,
        0 <= y < size.height as int,
        size.width >= 1,
        size.height >= 1,
        0 <= d < 4,
        wrap.spec_has_neighbor(size, x, y, d),
    ensures
        0 <= wrap.spec_neighbor_x(size, x, y, d) < size.width as int,
        0 <= wrap.spec_neighbor_y(size, x, y, d) < size.height as int,
{
}

/// Local consistency on completion: in a well-formed, arc-consistent,
/// completed wave, the patterns chosen at any two neighboring cells are
/// compatible in the direction that joins them.
pub proof fn lemma_local_consistency(
    w: Wave,
    stats: GlobalStats,
    wrap: Wrap,
    x: int,
    y: int,
    d: int,
    p: int,
    q: int,
)
    requires
        stats.wf(),
        w.wf(stats),
        w.completed(),
        arc_consistent(w.masks(), stats, wrap, w.size()),
        0 <= x < w.size().width as int,
        0 <= y < w.size().height as int,
        0 <= d < 4,
        wrap.spec_has_neighbor(w.size(), x, y, d),
        0 <= p < stats.num_patterns_spec(),
        0 <= q < stats.num_patterns_spec(),
        w.masks()[cidx(w.size(), x, y)][p],
        w.masks()[cidx(
            w.size(),
            wrap.spec_neighbor_x(w.size(), x, y, d),
            wrap.spec_neighbor_y(w.size(), x, y, d),
        )][q],
    ensures
        stats.compat_spec(d, p, q),
{
    let size = w.size();
    lemma_neighbor_in_bounds(wrap, size, x, y, d);
    let nx = wrap.spec_neighbor_x(size, x, y, d);
    let ny = wrap.spec_neighbor_y(size, x, y, d);
    let i = cidx(size, x, y);
    let nj = cidx(size, nx, ny);
    lemma_cidx_range(size, x, y);
    lemma_cidx_range(size, nx, ny);
    assert(arc_ok_dir(w.masks(), stats, wrap, size, x, y, d));
    assert(spec_supported_by(w.masks()[i], stats, d, q));
    let p2 = choose|p2: int|
        0 <= p2 < stats.num_patterns_spec() && w.masks()[i][p2]
            && #[trigger] stats.compat_spec(d, p2, q);
    if p2 != p {
        let cell = w.cells()[i];
        assert(cell.wf(stats));
        assert(cell.num_spec() == 1);
        let a = if p < p2 { p } else { p2 };
        let b = if p < p2 { p2 } else { p };
        crate::sums::lemma_sum_prefix_two_elements(
            count_vals(cell.mask()),
            cell.mask().len() as int,
            a,
            b,
        );
        assert(count_vals(cell.mask())[a] == 1);
        assert(count_vals(cell.mask())[b] == 1);
        assert(false);
    }
}

/// Shrinking one cell's candidate set breaks no other cell's
/// constraints: the shrunk set appears only on the "needs support" side
/// of their constraints.
pub proof fn lemma_arc_dir_preserved(
    m0: Seq<Seq<bool>>,
    m1: Seq<Seq<bool>>,
    stats: GlobalStats,
    wrap: Wrap,
    size: Size,
    j: int,
    x: int,
    y: int,
    d: int,
)
    requires
        m0.len() == size.area(),
        m1.len() == m0.len(),
        0 <= j < m0.len(),
        forall|i: int| 0 <= i < m0.len() && i != j ==> m1[i] == m0[i],
        m1[j].len() == m0[j].len(),
        m0[j].len() == stats.num_patterns_spec(),
        forall|p: int| 0 <= p < m1[j].len() && (#[trigger] m1[j][p]) ==> m0[j][p],
        0 <= x < size.width as int,
        0 <= y < size.height as int,
        size.width >= 1,
        size.height >= 1,
        0 <= d < 4,
        cidx(size, x, y) != j,
        arc_ok_dir(m0, stats, wrap, size, x, y, d),
    ensures
        arc_ok_dir(m1, stats, wrap, size, x, y, d),
{
    if wrap.spec_has_neighbor(size, x, y, d) {
        lemma_neighbor_in_bounds(wrap, size, x, y, d);
        let nx = wrap.spec_neighbor_x(size, x, y, d);
        let ny = wrap.spec_neighbor_y(size, x, y, d);
        let nj = cidx(size, nx, ny);
        let i = cidx(size, x, y);
        lemma_cidx_range(size, nx, ny);
        lemma_cidx_range(size, x, y);
        assert forall|q: int|
            0 <= q < stats.num_patterns_spec() && (#[trigger] m1[nj][q])
            implies spec_supported_by(m1[i], stats, d, q)
        by {
            if nj == j {
                assert(m1[j][q]);
                assert(m0[nj][q]);
            } else {
                assert(m1[nj] == m0[nj]);
            }
            assert(m0[nj][q]);
            assert(spec_supported_by(m0[i], stats, d, q));
            let p = choose|p: int|
                0 <= p < stats.num_patterns_spec() && m0[i][p]
                    && #[trigger] stats.compat_spec(d, p, q);
            assert(m1[i] == m0[i]);
            assert(m1[i][p] && stats.compat_spec(d, p, q));
        }
    }
}

/// Whether some still-possible pattern of `mask` admits `q` in direction `d`.
fn supported_by(mask: &Vec<bool>, stats: &GlobalStats, d: u32, q: usize) -> (r: bool)
    requires
        stats.wf(),
        mask@.len() == stats.num_patterns_spec(),
        d < 4,
        (q as int) < stats.num_patterns_spec(),
    ensures
        r == spec_supported_by(mask@, *stats, d as int, q as int),
{
    let num = stats.num_patterns();
    let mut p: usize = 0;
    while p < num
        invariant
            stats.wf(),
            mask@.len() == stats.num_patterns_spec(),
            d < 4,
            (q as int) < stats.num_patterns_spec(),
            num as int == stats.num_patterns_spec(),
            p <= num,
            forall|p2: int| 0 <= p2 < p as int
                ==> !(mask@[p2] && #[trigger] stats.compat_spec(d as int, p2, q as int)),
        decreases num - p,
    {
        if mask[p] && stats.compatible(d, p, q) {
            return true;
        }
        p = p + 1;
    }
    false
}

/// Per-cell candidate counts, in cell order.
pub open spec fn cell_count_seq(cells: Seq<WaveCell>) -> Seq<int> {
    Seq::new(cells.len(), |i: int| cells[i].num_spec())
}

/// Total number of (cell, pattern) possibilities left in the wave.
pub open spec fn wave_count_total(w: Wave) -> int {
    sum_prefix(cell_count_seq(w.cells()), w.cells().len() as int)
}

pub proof fn lemma_wave_count_nonneg(w: Wave, stats: GlobalStats)
    requires
        w.wf(stats),
    ensures
        wave_count_total(w) >= 0,
{
    assert forall|i: int| 0 <= i < w.cells().len()
        implies #[trigger] cell_count_seq(w.cells())[i] >= 0
    by {
        assert(w.cells()[i].wf(stats));
    }
    lemma_sum_prefix_nonneg(cell_count_seq(w.cells()), w.cells().len() as int);
}

/// Removing one possibility lowers the total by one.
proof fn lemma_wave_count_after_remove(w0: Wave, w1: Wave, idx: int)
    requires
        0 <= idx < w0.cells().len(),
        w1.cells().len() == w0.cells().len(),
        forall|i: int| 0 <= i < w0.cells().len() && i != idx
            ==> w1.cells()[i] == w0.cells()[i],
        w1.cells()[idx].num_spec() == w0.cells()[idx].num_spec() - 1,
    ensures
        wave_count_total(w1) == wave_count_total(w0) - 1,
{
    let s0 = cell_count_seq(w0.cells());
    let s1 = cell_count_seq(w1.cells());
    assert(s1 =~= s0.update(idx, w0.cells()[idx].num_spec() - 1));
    lemma_sum_prefix_update(s0, s0.len() as int, idx, w0.cells()[idx].num_spec() - 1);
}

/// One candidate mask per cell implies the next, pointwise.
pub open spec fn masks_subset(m1: Seq<Seq<bool>>, m0: Seq<Seq<bool>>) -> bool {
    &&& m1.len() == m0.len()
    &&& forall|i: int, p: int|
        0 <= i < m1.len() && 0 <= p < m1[i].len() && (#[trigger] m1[i][p]) ==> m0[i][p]
}

/// Worklist-driven local-consistency fixpoint. Pops pending coordinates
/// and filters each neighbor's candidates down to those supported by the
/// popped cell, enqueueing neighbors that changed, until the worklist is
/// empty or some cell runs out of candidates.
pub fn propagate(
    wave: &mut Wave,
    ctx: &mut Context,
    stats: &GlobalStats,
    wrap: Wrap,
) -> (r: Result<(), WfcError>)
    requires
        stats.wf(),
        old(wave).wf(*stats),
        old(wave).nonempty(),
        old(ctx).wf(old(wave).size()),
        pending_or_arc_ok(*old(ctx), old(wave).masks(), *stats, wrap, old(wave).size()),
    ensures
        final(wave).wf(*stats),
        final(wave).size() == old(wave).size(),
        final(ctx).wf(old(wave).size()),
        masks_subset(final(wave).masks(), old(wave).masks()),
        r matches Err(e) ==> e == WfcError::Contradiction,
        r is Ok ==> final(wave).nonempty(),
        r is Ok ==> final(ctx).worklist_spec().len() == 0,
        r is Ok ==> arc_consistent(final(wave).masks(), *stats, wrap, old(wave).size()),
        r is Ok ==> is_ac_subfamily_max(
            final(wave).masks(), old(wave).masks(), *stats, wrap, old(wave).size()),
        r is Err ==> (forall|m2: Seq<Seq<bool>>|
            masks_shaped(m2, *stats, old(wave).size())
                && masks_subset(m2, old(wave).masks())
                && #[trigger] arc_consistent(m2, *stats, wrap, old(wave).size())
                ==> !masks_nonempty(m2, *stats)),
        old(ctx).worklist_spec().len() == 0 ==> r is Ok && *final(wave) == *old(wave),
{
    let size = wave.size_of();
    let num = stats.num_patterns();
    let ghost m0 = wave.masks();
    proof {
        lemma_wave_count_nonneg(*wave, *stats);
    }
    let mut cont = true;
    while cont
        invariant
            stats.wf(),
            wave.wf(*stats),
            wave.nonempty(),
            wave.size() == size,
            size == old(wave).size(),
            ctx.wf(size),
            num as int == stats.num_patterns_spec(),
            masks_subset(wave.masks(), m0),
            m0 == old(wave).masks(),
            pending_or_arc_ok(*ctx, wave.masks(), *stats, wrap, size),
            !cont ==> ctx.worklist_spec().len() == 0,
            0 <= wave_count_total(*wave),
            forall|m2: Seq<Seq<bool>>|
                masks_shaped(m2, *stats, size) && masks_subset(m2, m0)
                    && #[trigger] arc_consistent(m2, *stats, wrap, size)
                    ==> masks_subset(m2, wave.masks()),
            old(ctx).worklist_spec().len() == 0
                ==> *wave == *old(wave) && ctx.worklist_spec().len() == 0,
        decreases
            wave_count_total(*wave) + ctx.worklist_spec().len() as int
                + if cont { 1int } else { 0int },
    {
        proof {
            lemma_wave_count_nonneg(*wave, *stats);
        }
        let ghost m_entry = wave_count_total(*wave) + ctx.worklist_spec().len() as int;
        let ghost ctx0 = *ctx;
        let popped = ctx.pop(size);
        match popped {
            None => {
                cont = false;
            }
            Some(c) => {
                let (cx, cy) = c;
                proof {
                    lemma_cidx_range(size, cx as int, cy as int);
                    assert(wave.cells()[cidx(size, cx as int, cy as int)].wf(*stats));
                    assert forall|x2: int, y2: int, d2: int|
                        0 <= x2 < size.width as int && 0 <= y2 < size.height as int
                            && 0 <= d2 < 4 && !(x2 == cx as int && y2 == cy as int)
                        implies ctx.in_worklist(x2, y2)
                            || #[trigger] arc_ok_dir(wave.masks(), *stats, wrap, size, x2, y2, d2)
                    by {
                        if !arc_ok_dir(wave.masks(), *stats, wrap, size, x2, y2, d2) {
                            assert(ctx0.in_worklist(x2, y2));
                            assert(ctx.in_worklist(x2, y2));
                        }
                    }
                }
                let snapshot = wave.cell_at(cx, cy).mask_clone();
                let ghost mut c_dirty: bool = false;
                proof {
                    lemma_wave_count_nonneg(*wave, *stats);
                    assert(ctx0.worklist_spec().len() >= 1);
                }
                let ghost ci = cidx(size, cx as int, cy as int);
                let mut d: u32 = 0;
                while d < 4
                    invariant
                        stats.wf(),
                        wave.wf(*stats),
                        wave.nonempty(),
                        wave.size() == size,
                        size == old(wave).size(),
                        ctx.wf(size),
                        num as int == stats.num_patterns_spec(),
                        masks_subset(wave.masks(), m0),
                        m0 == old(wave).masks(),
                        d <= 4,
                        cx < size.width,
                        cy < size.height,
                        ci == cidx(size, cx as int, cy as int),
                        snapshot@.len() == stats.num_patterns_spec(),
                        wave_count_total(*wave) + ctx.worklist_spec().len() as int
                            <= m_entry - 1,
                        0 <= wave_count_total(*wave),
                        forall|x2: int, y2: int, d2: int|
                            0 <= x2 < size.width as int && 0 <= y2 < size.height as int
                                && 0 <= d2 < 4 && !(x2 == cx as int && y2 == cy as int)
                                ==> ctx.in_worklist(x2, y2)
                                    || #[trigger] arc_ok_dir(
                                        wave.masks(), *stats, wrap, size, x2, y2, d2),
                        forall|d2: int| 0 <= d2 < d as int
                            ==> ctx.in_worklist(cx as int, cy as int) || c_dirty
                                || #[trigger] arc_ok_dir(
                                    wave.masks(), *stats, wrap, size,
                                    cx as int, cy as int, d2),
                        wave.masks()[ci] == snapshot@
                            || ctx.in_worklist(cx as int, cy as int) || c_dirty,
                        c_dirty ==> ctx.in_worklist(cx as int, cy as int),
                        forall|p: int| 0 <= p < stats.num_patterns_spec()
                            && (#[trigger] wave.masks()[ci][p]) ==> snapshot@[p],
                        forall|m2: Seq<Seq<bool>>|
                            masks_shaped(m2, *stats, size) && masks_subset(m2, m0)
                                && #[trigger] arc_consistent(m2, *stats, wrap, size)
                                ==> masks_subset(m2, wave.masks()),
                        old(ctx).worklist_spec().len() >= 1,
                    decreases 4 - d,
                {
                    let nb = wrap.neighbor(size, cx, cy, d);
                    match nb {
                        None => {}
                        Some((nx, ny)) => {
                            proof {
                                lemma_cidx_range(size, nx as int, ny as int);
                            }
                            let ghost ni = cidx(size, nx as int, ny as int);
                            let ghost m_d = wave_count_total(*wave)
                                + ctx.worklist_spec().len() as int;
                            let mut changed = false;
                            let mut q: usize = 0;
                            while q < num
                                invariant
                                    stats.wf(),
                                    wave.wf(*stats),
                                    wave.nonempty(),
                                    wave.size() == size,
                                    size == old(wave).size(),
                                    ctx.wf(size),
                                    num as int == stats.num_patterns_spec(),
                                    masks_subset(wave.masks(), m0),
                                    m0 == old(wave).masks(),
                                    q <= num,
                                    d < 4,
                                    cx < size.width,
                                    cy < size.height,
                                    nx < size.width,
                                    ny < size.height,
                                    ci == cidx(size, cx as int, cy as int),
                                    ni == cidx(size, nx as int, ny as int),
                                    wrap.spec_has_neighbor(size, cx as int, cy as int, d as int),
                                    nx as int == wrap.spec_neighbor_x(
                                        size, cx as int, cy as int, d as int),
                                    ny as int == wrap.spec_neighbor_y(
                                        size, cx as int, cy as int, d as int),
                                    snapshot@.len() == stats.num_patterns_spec(),
                                    changed ==> wave_count_total(*wave)
                                        + ctx.worklist_spec().len() as int <= m_d - 1,
                                    !changed ==> wave_count_total(*wave)
                                        + ctx.worklist_spec().len() as int == m_d,
                                    m_d <= m_entry - 1,
                                    0 <= wave_count_total(*wave),
                                    forall|x2: int, y2: int, d2: int|
                                        0 <= x2 < size.width as int
                                            && 0 <= y2 < size.height as int
                                            && 0 <= d2 < 4
                                            && !(x2 == cx as int && y2 == cy as int)
                                            && !(x2 == nx as int && y2 == ny as int)
                                            ==> ctx.in_worklist(x2, y2)
                                                || #[trigger] arc_ok_dir(
                                                    wave.masks(), *stats, wrap, size,
                                                    x2, y2, d2),
                                    !changed && ni != ci ==> (forall|d2: int| 0 <= d2 < 4
                                        ==> ctx.in_worklist(nx as int, ny as int)
                                            || #[trigger] arc_ok_dir(
                                                wave.masks(), *stats, wrap, size,
                                                nx as int, ny as int, d2)),
                                    forall|d2: int| 0 <= d2 < d as int
                                        ==> ctx.in_worklist(cx as int, cy as int) || c_dirty
                                            || #[trigger] arc_ok_dir(
                                                wave.masks(), *stats, wrap, size,
                                                cx as int, cy as int, d2),
                                    wave.masks()[ci] == snapshot@
                                        || ctx.in_worklist(cx as int, cy as int) || c_dirty,
                                    c_dirty ==> ctx.in_worklist(cx as int, cy as int)
                                        || (changed && ni == ci),
                                    forall|q2: int| 0 <= q2 < q as int
                                        && (#[trigger] wave.masks()[ni][q2])
                                        ==> spec_supported_by(
                                            snapshot@, *stats, d as int, q2),
                                    forall|p: int| 0 <= p < stats.num_patterns_spec()
                                        && (#[trigger] wave.masks()[ci][p])
                                        ==> snapshot@[p],
                                    forall|m2: Seq<Seq<bool>>|
                                        masks_shaped(m2, *stats, size)
                                            && masks_subset(m2, m0)
                                            && #[trigger] arc_consistent(
                                                m2, *stats, wrap, size)
                                            ==> masks_subset(m2, wave.masks()),
                                    old(ctx).worklist_spec().len() >= 1,
                                decreases num - q,
                            {
                                proof {
                                    lemma_cidx_range(size, nx as int, ny as int);
                                    assert(wave.cells()[ni].wf(*stats));
                                }
                                let npossible = wave.cell_at(nx, ny).is_possible(q);
                                if npossible && !supported_by(&snapshot, stats, d, q) {
                                    let ghost w_before = *wave;
                                    wave.remove_at(nx, ny, q, stats);
                                    proof {
                                        lemma_cidx_range(size, nx as int, ny as int);
                                        lemma_wave_count_after_remove(
                                            w_before, *wave, ni);
                                        assert(wave.masks()[ni]
                                            =~= w_before.masks()[ni]
                                                .update(q as int, false));
                                        assert forall|i: int, p: int|
                                            0 <= i < wave.masks().len()
                                                && 0 <= p < wave.masks()[i].len()
                                                && (#[trigger] wave.masks()[i][p])
                                            implies m0[i][p]
                                        by {
                                            if i == ni {
                                                assert(w_before.masks()[i][p]);
                                            } else {
                                                assert(wave.cells()[i]
                                                    == w_before.cells()[i]);
                                                assert(w_before.masks()[i][p]);
                                            }
                                        }
                                        lemma_cidx_range(size, cx as int, cy as int);
                                        // The removed pattern had no support in
                                        // the popped cell, so no arc-consistent
                                        // subfamily could keep it either.
                                        assert forall|m2: Seq<Seq<bool>>|
                                            masks_shaped(m2, *stats, size)
                                                && masks_subset(m2, m0)
                                                && #[trigger] arc_consistent(
                                                    m2, *stats, wrap, size)
                                            implies masks_subset(m2, wave.masks())
                                        by {
                                            assert(masks_subset(m2, w_before.masks()));
                                            assert forall|i2: int, p2: int|
                                                0 <= i2 < m2.len()
                                                    && 0 <= p2 < m2[i2].len()
                                                    && (#[trigger] m2[i2][p2])
                                                implies wave.masks()[i2][p2]
                                            by {
                                                assert(w_before.masks()[i2][p2]);
                                                if i2 == ni && p2 == q as int {
                                                    assert(arc_ok_dir(
                                                        m2, *stats, wrap, size,
                                                        cx as int, cy as int,
                                                        d as int));
                                                    assert(spec_supported_by(
                                                        m2[ci], *stats,
                                                        d as int, q as int));
                                                    let p3 = choose|p3: int|
                                                        0 <= p3
                                                            < stats.num_patterns_spec()
                                                            && m2[ci][p3]
                                                            && #[trigger] stats
                                                                .compat_spec(
                                                                    d as int, p3,
                                                                    q as int);
                                                    assert(w_before.masks()[ci][p3]);
                                                    assert(snapshot@[p3]);
                                                    assert(spec_supported_by(
                                                        snapshot@, *stats,
                                                        d as int, q as int));
                                                    assert(false);
                                                }
                                            }
                                        }
                                        assert forall|p2: int|
                                            0 <= p2 < stats.num_patterns_spec()
                                                && (#[trigger] wave.masks()[ci][p2])
                                            implies snapshot@[p2]
                                        by {
                                            assert(w_before.masks()[ci][p2]);
                                        }
                                        assert forall|x2: int, y2: int, d2: int|
                                            0 <= x2 < size.width as int
                                                && 0 <= y2 < size.height as int
                                                && 0 <= d2 < 4
                                                && !(x2 == cx as int && y2 == cy as int)
                                                && !(x2 == nx as int && y2 == ny as int)
                                            implies ctx.in_worklist(x2, y2)
                                                || #[trigger] arc_ok_dir(
                                                    wave.masks(), *stats, wrap, size,
                                                    x2, y2, d2)
                                        by {
                                            if !ctx.in_worklist(x2, y2) {
                                                lemma_cidx_range(size, x2, y2);
                                                if cidx(size, x2, y2) == ni {
                                                    lemma_cidx_injective(
                                                        size, x2, y2,
                                                        nx as int, ny as int);
                                                    assert(false);
                                                }
                                                assert(arc_ok_dir(
                                                    w_before.masks(), *stats, wrap,
                                                    size, x2, y2, d2));
                                                lemma_arc_dir_preserved(
                                                    w_before.masks(), wave.masks(),
                                                    *stats, wrap, size, ni,
                                                    x2, y2, d2);
                                            }
                                        }
                                        assert forall|d2: int| 0 <= d2 < d as int
                                            implies ctx.in_worklist(cx as int, cy as int)
                                                || (c_dirty || ni == ci)
                                                || #[trigger] arc_ok_dir(
                                                    wave.masks(), *stats, wrap, size,
                                                    cx as int, cy as int, d2)
                                        by {
                                            if !ctx.in_worklist(cx as int, cy as int)
                                                && !c_dirty && ni != ci {
                                                assert(arc_ok_dir(
                                                    w_before.masks(), *stats, wrap,
                                                    size, cx as int, cy as int, d2));
                                                lemma_arc_dir_preserved(
                                                    w_before.masks(), wave.masks(),
                                                    *stats, wrap, size, ni,
                                                    cx as int, cy as int, d2);
                                            }
                                        }
                                        lemma_cidx_range(size, cx as int, cy as int);
                                        if ni == ci {
                                            c_dirty = true;
                                        } else {
                                            assert(wave.cells()[ci]
                                                == w_before.cells()[ci]);
                                            assert(wave.masks()[ci]
                                                == w_before.masks()[ci]);
                                        }
                                    }
                                    changed = true;
                                    proof {
                                        lemma_cidx_range(size, nx as int, ny as int);
                                        assert(wave.cells()[ni].wf(*stats));
                                    }
                                    if wave.cell_at(nx, ny).count() == 0 {
                                        proof {
                                            let cell = wave.cells()[ni];
                                            assert forall|p2: int|
                                                0 <= p2 < stats.num_patterns_spec()
                                                implies !wave.masks()[ni][p2]
                                            by {
                                                if cell.mask()[p2] {
                                                    lemma_sum_prefix_element_bound(
                                                        count_vals(cell.mask()),
                                                        cell.mask().len() as int,
                                                        p2,
                                                    );
                                                }
                                            }
                                            assert forall|m2: Seq<Seq<bool>>|
                                                masks_shaped(m2, *stats, size)
                                                    && masks_subset(m2, m0)
                                                    && #[trigger] arc_consistent(
                                                        m2, *stats, wrap, size)
                                                implies !masks_nonempty(m2, *stats)
                                            by {
                                                assert(masks_subset(
                                                    m2, wave.masks()));
                                                if cell_nonempty(m2[ni], *stats) {
                                                    let p2 = choose|p2: int|
                                                        0 <= p2
                                                            < stats
                                                                .num_patterns_spec()
                                                            && #[trigger] m2[ni][p2];
                                                    assert(wave.masks()[ni][p2]);
                                                    assert(false);
                                                }
                                                assert(!cell_nonempty(
                                                    m2[ni], *stats));
                                            }
                                        }
                                        return Err(WfcError::Contradiction);
                                    }
                                    proof {
                                        assert forall|i: int|
                                            0 <= i < wave.cells().len()
                                            implies (#[trigger] wave.cells()[i])
                                                .num_spec() >= 1
                                        by {
                                            if i != ni {
                                                assert(wave.cells()[i]
                                                    == w_before.cells()[i]);
                                            }
                                        }
                                    }
                                }
                                proof {
                                    lemma_wave_count_nonneg(*wave, *stats);
                                }
                                q = q + 1;
                            }
                            let ghost ctx_q = *ctx;
                            if changed {
                                ctx.enqueue(size, nx, ny);
                            }
                            proof {
                                assert forall|x2: int, y2: int| ctx_q.in_worklist(x2, y2)
                                    implies #[trigger] ctx.in_worklist(x2, y2)
                                by {
                                }
                                // The constraint of c towards d now holds, or c is
                                // pending.
                                assert forall|d2: int| 0 <= d2 < d as int + 1
                                    implies ctx.in_worklist(cx as int, cy as int) || c_dirty
                                        || #[trigger] arc_ok_dir(
                                            wave.masks(), *stats, wrap, size,
                                            cx as int, cy as int, d2)
                                by {
                                    if d2 < d as int {
                                        if !ctx.in_worklist(cx as int, cy as int)
                                            && !c_dirty {
                                            assert(!ctx_q.in_worklist(
                                                cx as int, cy as int));
                                            assert(arc_ok_dir(
                                                wave.masks(), *stats, wrap, size,
                                                cx as int, cy as int, d2));
                                        }
                                    } else {
                                        if !ctx.in_worklist(cx as int, cy as int)
                                            && !c_dirty {
                                            assert(!ctx_q.in_worklist(
                                                cx as int, cy as int));
                                            assert(wave.masks()[ci] == snapshot@);
                                            assert forall|q2: int|
                                                0 <= q2 < stats.num_patterns_spec()
                                                    && (#[trigger] wave.masks()[ni][q2])
                                                implies spec_supported_by(
                                                    wave.masks()[ci], *stats,
                                                    d as int, q2)
                                            by {
                                                assert(spec_supported_by(
                                                    snapshot@, *stats, d as int, q2));
                                            }
                                            assert(arc_ok_dir(
                                                wave.masks(), *stats, wrap, size,
                                                cx as int, cy as int, d as int));
                                        }
                                    }
                                }
                                assert forall|x2: int, y2: int, d2: int|
                                    0 <= x2 < size.width as int
                                        && 0 <= y2 < size.height as int && 0 <= d2 < 4
                                        && !(x2 == cx as int && y2 == cy as int)
                                    implies ctx.in_worklist(x2, y2)
                                        || #[trigger] arc_ok_dir(
                                            wave.masks(), *stats, wrap, size,
                                            x2, y2, d2)
                                by {
                                    if x2 == nx as int && y2 == ny as int {
                                        if changed {
                                            assert(ctx.in_worklist(nx as int, ny as int));
                                        } else {
                                            if ni == ci {
                                                lemma_cidx_injective(
                                                    size, nx as int, ny as int,
                                                    cx as int, cy as int);
                                                assert(false);
                                            }
                                            if !ctx_q.in_worklist(x2, y2) {
                                                assert(arc_ok_dir(
                                                    wave.masks(), *stats, wrap, size,
                                                    x2, y2, d2));
                                            }
                                        }
                                    } else {
                                        if !ctx_q.in_worklist(x2, y2) {
                                            assert(arc_ok_dir(
                                                wave.masks(), *stats, wrap, size,
                                                x2, y2, d2));
                                        }
                                    }
                                }
                                if c_dirty {
                                    if ctx_q.in_worklist(cx as int, cy as int) {
                                    } else {
                                        assert(changed && ni == ci);
                                        assert(ctx.in_worklist(nx as int, ny as int));
                                        lemma_cidx_injective(
                                            size, nx as int, ny as int,
                                            cx as int, cy as int);
                                    }
                                    assert(ctx.in_worklist(cx as int, cy as int));
                                }
                            }
                        }
                    }
                    d = d + 1;
                }
                proof {
                    assert forall|x2: int, y2: int, d2: int|
                        0 <= x2 < size.width as int && 0 <= y2 < size.height as int
                            && 0 <= d2 < 4
                        implies ctx.in_worklist(x2, y2)
                            || #[trigger] arc_ok_dir(
                                wave.masks(), *stats, wrap, size, x2, y2, d2)
                    by {
                        if x2 == cx as int && y2 == cy as int {
                            if c_dirty {
                                assert(ctx.in_worklist(x2, y2));
                            }
                        }
                    }
                }
            }
        }
    }
    proof {
        assert forall|x2: int, y2: int, d2: int|
            0 <= x2 < size.width as int && 0 <= y2 < size.height as int && 0 <= d2 < 4
            implies #[trigger] arc_ok_dir(wave.masks(), *stats, wrap, size, x2, y2, d2)
        by {
            assert(!ctx.in_worklist(x2, y2));
        }
    }
    Ok(())
}

} // verus!
