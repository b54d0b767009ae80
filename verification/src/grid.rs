//! Dense two-dimensional storage addressed by [`Point`] coordinates.

use vstd::prelude::*;

use crate::point::Point;

verus! {

/// Row-major index of the cell `(x, y)` stays inside a `w * h` cell array.
pub proof fn lemma_row_major_index(x: int, y: int, w: int, h: int)
    requires
        0 <= x < w,
        0 <= y < h,
    ensures
        0 <= y * w + x < w * h,
{
    assert(y * w + x < w * h) by (nonlinear_arith)
        requires
            0 <= x < w,
            0 <= y < h,
    ;
    assert(0 <= y * w + x) by (nonlinear_arith)
        requires
            0 <= x,
            0 <= y,
            0 < w,
    ;
}

/// Distinct in-bounds coordinate pairs have distinct row-major indices.
pub proof fn lemma_row_major_injective(x1: int, y1: int, x2: int, y2: int, w: int, h: int)
    requires
        0 <= x1 < w,
        0 <= y1 < h,
        0 <= x2 < w,
        0 <= y2 < h,
        x1 != x2 || y1 != y2,
    ensures
        y1 * w + x1 != y2 * w + x2,
{
    assert(y1 * w + x1 != y2 * w + x2) by (nonlinear_arith)
        requires
            0 <= x1 < w,
            0 <= y1 < h,
            0 <= x2 < w,
            0 <= y2 < h,
            x1 != x2 || y1 != y2,
    ;
}

/// Every row-major index decomposes into the in-bounds coordinate pair it
/// stands for.
pub proof fn lemma_row_major_decompose(k: int, w: int, h: int)
    requires
        0 < w,
        0 < h,
        0 <= k < w * h,
    ensures
        0 <= k % w < w,
        0 <= k / w < h,
        (k / w) * w + (k % w) == k,
{
    assert(0 <= k % w < w && (k / w) * w + (k % w) == k) by (nonlinear_arith)
        requires
            0 < w,
            0 <= k,
    ;
    assert(0 <= k / w < h) by (nonlinear_arith)
        requires
            0 < w,
            0 < h,
            0 <= k < w * h,
    ;
}

/// Dense, bounds-addressable `width x height` storage with O(1) indexed
/// access, laid out row-major in a single vector.
pub struct Grid<T> {
    width: usize,
    height: usize,
    cells: Vec<T>,
}

impl<T: Copy> Grid<T> {
    pub closed spec fn spec_width(&self) -> usize {
        self.width
    }

    pub closed spec fn spec_height(&self) -> usize {
        self.height
    }

    /// The backing cells, row-major: cell `(x, y)` sits at `y * width + x`.
    pub closed spec fn cell_seq(&self) -> Seq<T> {
        self.cells@
    }

    pub open spec fn wf(&self) -> bool {
        &&& 1 <= self.spec_width()
        &&& 1 <= self.spec_height()
        &&& self.spec_width() * self.spec_height() <= usize::MAX
        &&& self.cell_seq().len() == self.spec_width() * self.spec_height()
    }

    pub open spec fn in_bounds(&self, p: Point) -> bool {
        p.x < self.spec_width() && p.y < self.spec_height()
    }

    /// The value stored at column `x`, row `y`.
    pub open spec fn at(&self, x: int, y: int) -> T {
        self.cell_seq()[y * self.spec_width() + x]
    }

    /// A grid of `width x height` cells, all set to `value`.
    pub fn new(width: usize, height: usize, value: T) -> (g: Grid<T>)
        requires
            1 <= width,
            1 <= height,
            width * height <= usize::MAX,
        ensures
            g.wf(),
            g.spec_width() == width,
            g.spec_height() == height,
            forall|x: int, y: int|
                0 <= x < width && 0 <= y < height ==> g.at(x, y) == value,
    {
        let n: usize = width * height;
        let mut cells: Vec<T> = Vec::new();
        let mut i: usize = 0;
        while i < n
            invariant
                i <= n,
                cells@.len() == i,
                forall|k: int| 0 <= k < i ==> cells@[k] == value,
            decreases n - i,
        {
            cells.push(value);
            i += 1;
        }
        let g = Grid { width, height, cells };
        proof {
            assert forall|x: int, y: int|
                0 <= x < width && 0 <= y < height implies g.at(x, y) == value by {
                lemma_row_major_index(x, y, width as int, height as int);
            }
        }
        g
    }

    /// Indexed read; the point must lie inside the grid.
    pub fn get(&self, p: Point) -> (v: T)
        requires
            self.wf(),
            self.in_bounds(p),
        ensures
            v == self.at(p.x as int, p.y as int),
    {
        proof {
            lemma_row_major_index(
                p.x as int,
                p.y as int,
                self.width as int,
                self.height as int,
            );
        }
        self.cells[p.y * self.width + p.x]
    }

    /// Indexed write; every other cell keeps its value.
    pub fn set(&mut self, p: Point, value: T)
        requires
            old(self).wf(),
            old(self).in_bounds(p),
        ensures
            final(self).wf(),
            final(self).spec_width() == old(self).spec_width(),
            final(self).spec_height() == old(self).spec_height(),
            final(self).cell_seq() == old(self).cell_seq().update(
                p.y * old(self).spec_width() + p.x,
                value,
            ),
            final(self).at(p.x as int, p.y as int) == value,
            forall|x: int, y: int|
                0 <= x < old(self).spec_width() && 0 <= y < old(self).spec_height()
                    && (x != p.x || y != p.y) ==> final(self).at(x, y) == old(self).at(x, y),
    {
        proof {
            lemma_row_major_index(
                p.x as int,
                p.y as int,
                self.width as int,
                self.height as int,
            );
        }
        let idx: usize = p.y * self.width + p.x;
        self.cells.set(idx, value);
        proof {
            assert forall|x: int, y: int|
                0 <= x < self.spec_width() && 0 <= y < self.spec_height()
                    && (x != p.x || y != p.y) implies self.at(x, y) == old(self).at(x, y) by {
                lemma_row_major_injective(
                    x,
                    y,
                    p.x as int,
                    p.y as int,
                    self.width as int,
                    self.height as int,
                );
                lemma_row_major_index(x, y, self.width as int, self.height as int);
            }
        }
    }

    /// Resets every cell to `value` in place.
    pub fn fill(&mut self, value: T)
        requires
            old(self).wf(),
        ensures
            final(self).wf(),
            final(self).spec_width() == old(self).spec_width(),
            final(self).spec_height() == old(self).spec_height(),
            forall|x: int, y: int|
                0 <= x < old(self).spec_width() && 0 <= y < old(self).spec_height()
                    ==> final(self).at(x, y) == value,
    {
        let n: usize = self.cells.len();
        let mut i: usize = 0;
        while i < n
            invariant
                i <= n,
                self.wf(),
                self.spec_width() == old(self).spec_width(),
                self.spec_height() == old(self).spec_height(),
                self.cell_seq().len() == n,
                forall|k: int| 0 <= k < i ==> self.cell_seq()[k] == value,
            decreases n - i,
        {
            self.cells.set(i, value);
            i += 1;
        }
        proof {
            assert forall|x: int, y: int|
                0 <= x < self.spec_width() && 0 <= y < self.spec_height()
                    implies self.at(x, y) == value by {
                lemma_row_major_index(x, y, self.width as int, self.height as int);
            }
        }
    }

    pub fn width(&self) -> (w: usize)
        ensures
            w == self.spec_width(),
    {
        self.width
    }

    pub fn height(&self) -> (h: usize)
        ensures
            h == self.spec_height(),
    {
        self.height
    }
}

/// Two well-formed grids of the same size that agree on every cell are
/// identical, down to their backing storage.
pub proof fn lemma_grid_pointwise_eq<T: Copy>(a: Grid<T>, b: Grid<T>)
    requires
        a.wf(),
        b.wf(),
        a.spec_width() == b.spec_width(),
        a.spec_height() == b.spec_height(),
        forall|x: int, y: int|
            0 <= x < a.spec_width() && 0 <= y < a.spec_height() ==> a.at(x, y) == b.at(x, y),
    ensures
        a.cell_seq() == b.cell_seq(),
{
    let w = a.spec_width() as int;
    let h = a.spec_height() as int;
    assert forall|k: int| 0 <= k < a.cell_seq().len() implies a.cell_seq()[k]
        == b.cell_seq()[k] by {
        lemma_row_major_decompose(k, w, h);
        assert(a.at(k % w, k / w) == b.at(k % w, k / w));
    }
    assert(a.cell_seq() =~= b.cell_seq());
}

} // verus!
