//! A rectangular grid stored row-major in a `Vec`.

use vstd::prelude::*;

verus! {

/// Largest accepted grid dimension; keeps every cell index inside `u32`.
pub const MAX_DIM: u32 = 0xFFFF;

/// Width and height of a grid, in cells.
#[derive(Clone, Copy, PartialEq, Eq, Structural, Debug)]
pub struct Size {
    pub width: u32,
    pub height: u32,
}

impl Size {
    pub fn new(width: u32, height: u32) -> (r: Size)
        ensures
            r.width == width,
            r.height == height,
    {
        Size { width, height }
    }

    /// Number of cells, as a mathematical integer.
    pub open spec fn area(self) -> int {
        self.width as int * self.height as int
    }

    /// Both dimensions within the machine limit.
    pub open spec fn fits(self) -> bool {
        self.width <= MAX_DIM && self.height <= MAX_DIM
    }
}

/// A `width x height` grid of values, stored row-major.
pub struct Grid<T> {
    width: u32,
    height: u32,
    cells: Vec<T>,
}

impl<T> Grid<T> {
    pub closed spec fn size(&self) -> Size {
        Size { width: self.width, height: self.height }
    }

    /// Row-major cell contents.
    pub closed spec fn contents(&self) -> Seq<T> {
        self.cells@
    }

    pub open spec fn wf(&self) -> bool {
        self.contents().len() == self.size().area() && self.size().fits()
    }

    /// Index of cell (x, y) in the row-major contents.
    pub open spec fn spec_index_of(&self, x: int, y: int) -> int {
        y * self.size().width as int + x
    }

    pub open spec fn in_bounds(&self, x: int, y: int) -> bool {
        0 <= x < self.size().width as int && 0 <= y < self.size().height as int
    }

    proof fn lemma_index_in_range(&self, x: int, y: int)
        requires
            self.wf(),
            self.in_bounds(x, y),
        ensures
            0 <= self.spec_index_of(x, y) < self.contents().len(),
    {
        let w = self.size().width as int;
        let h = self.size().height as int;
        assert(y * w + x < h * w) by (nonlinear_arith)
            requires 0 <= x < w && 0 <= y < h,
        ;
        assert(0 <= y * w + x) by (nonlinear_arith)
            requires 0 <= x && 0 <= y && 0 <= w,
        ;
    }

    proof fn lemma_area_bound(&self)
        requires
            self.size().fits(),
        ensures
            0 <= self.size().area() < u32::MAX as int,
    {
        let w = self.size().width as int;
        let h = self.size().height as int;
        assert(w * h <= MAX_DIM as int * MAX_DIM as int) by (nonlinear_arith)
            requires 0 <= w <= MAX_DIM as int && 0 <= h <= MAX_DIM as int,
        ;
        assert(0 <= w * h) by (nonlinear_arith)
            requires 0 <= w && 0 <= h,
        ;
    }

    /// Builds a grid from row-major cell contents.
    pub fn from_vec(width: u32, height: u32, cells: Vec<T>) -> (r: Grid<T>)
        requires
            cells@.len() == width as int * height as int,
            width <= MAX_DIM,
            height <= MAX_DIM,
        ensures
            r.wf(),
            r.size() == (Size { width, height }),
            r.contents() == cells@,
    {
        Grid { width, height, cells }
    }

    pub fn size_of(&self) -> (r: Size)
        ensures
            r == self.size(),
    {
        Size { width: self.width, height: self.height }
    }

    /// The cell at row-major index `i`.
    pub fn get_linear(&self, i: usize) -> (r: &T)
        requires
            self.wf(),
            (i as int) < self.contents().len(),
        ensures
            *r == self.contents()[i as int],
    {
        &self.cells[i]
    }

    pub fn get(&self, x: u32, y: u32) -> (r: &T)
        requires
            self.wf(),
            self.in_bounds(x as int, y as int),
        ensures
            *r == self.contents()[self.spec_index_of(x as int, y as int)],
    {
        proof {
            self.lemma_index_in_range(x as int, y as int);
            self.lemma_area_bound();
        }
        let i: usize = (y as usize) * (self.width as usize) + (x as usize);
        &self.cells[i]
    }

    /// Mutable access to the cell at (x, y).
    pub fn get_mut(&mut self, x: u32, y: u32) -> (r: &mut T)
        requires
            old(self).wf(),
            old(self).in_bounds(x as int, y as int),
        ensures
            *r == old(self).contents()[old(self).spec_index_of(x as int, y as int)],
            final(self).contents() == old(self).contents().update(
                old(self).spec_index_of(x as int, y as int),
                *final(r),
            ),
            final(self).size() == old(self).size(),
            final(self).wf(),
    {
        proof {
            old(self).lemma_index_in_range(x as int, y as int);
            old(self).lemma_area_bound();
        }
        let i: usize = (y as usize) * (self.width as usize) + (x as usize);
        &mut self.cells[i]
    }

    pub fn set(&mut self, x: u32, y: u32, v: T)
        requires
            old(self).wf(),
            old(self).in_bounds(x as int, y as int),
        ensures
            final(self).wf(),
            final(self).size() == old(self).size(),
            final(self).contents() == old(self).contents().update(
                old(self).spec_index_of(x as int, y as int),
                v,
            ),
    {
        proof {
            old(self).lemma_index_in_range(x as int, y as int);
            old(self).lemma_area_bound();
        }
        let i: usize = (y as usize) * (self.width as usize) + (x as usize);
        self.cells.set(i, v);
    }
}

impl<T: Copy> Grid<T> {
    /// A grid with every cell holding `v`.
    pub fn new_filled(width: u32, height: u32, v: T) -> (r: Grid<T>)
        requires
            width <= MAX_DIM,
            height <= MAX_DIM,
        ensures
            r.wf(),
            r.size() == (Size { width, height }),
            forall|i: int| 0 <= i < r.contents().len() ==> r.contents()[i] == v,
    {
        proof {
            assert(width as int * height as int <= MAX_DIM as int * MAX_DIM as int)
                by (nonlinear_arith)
                requires 0 <= width as int <= MAX_DIM as int
                    && 0 <= height as int <= MAX_DIM as int,
            ;
        }
        let n: usize = (width as usize) * (height as usize);
        let mut cells: Vec<T> = Vec::new();
        let mut k: usize = 0;
        while k < n
            invariant
                k <= n,
                cells@.len() == k as int,
                forall|i: int| 0 <= i < k as int ==> cells@[i] == v,
            decreases n - k,
        {
            cells.push(v);
            k = k + 1;
        }
        Grid { width, height, cells }
    }

    /// Copy of the cell at (x, y).
    pub fn at(&self, x: u32, y: u32) -> (r: T)
        requires
            self.wf(),
            self.in_bounds(x as int, y as int),
        ensures
            r == self.contents()[self.spec_index_of(x as int, y as int)],
    {
        *self.get(x, y)
    }
}

} // verus!
