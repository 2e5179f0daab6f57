//! A dense, fixed-size, row-major 2D array of cells.

use vstd::prelude::*;

verus! {

/// A dense row-major grid of `width * height` cells, fixed at construction.
/// For levels the cell type is the tile-type id (`u8`).
pub struct Grid<T> {
    width: usize,
    height: usize,
    storage: Vec<T>,
}

impl<T> Grid<T> {
    /// The number of columns.
    pub closed spec fn spec_width(self) -> int {
        self.width as int
    }

    /// The number of rows.
    pub closed spec fn spec_height(self) -> int {
        self.height as int
    }

    /// The cells in row-major order: cell `(col, row)` sits at
    /// `row * width + col`.
    pub closed spec fn cells(self) -> Seq<T> {
        self.storage@
    }

    /// The storage holds exactly one cell per grid position.  Established
    /// by the constructor and never broken: grids cannot be resized.
    pub open spec fn wf(self) -> bool {
        self.cells().len() == self.spec_width() * self.spec_height()
    }

    /// Builds a grid from a row-major cell vector.  The caller must supply
    /// exactly `width * height` cells: the grid is only ever constructed
    /// from data whose size was already validated.
    pub fn new(width: usize, height: usize, cells: Vec<T>) -> (r: Self)
        requires
            cells@.len() == width * height,
        ensures
            r.spec_width() == width,
            r.spec_height() == height,
            r.cells() == cells@,
            r.wf(),
    {
        Grid { width, height, storage: cells }
    }

    /// The number of columns.
    pub fn width(&self) -> (r: usize)
        ensures
            r == self.spec_width(),
    {
        self.width
    }

    /// The number of rows.
    pub fn height(&self) -> (r: usize)
        ensures
            r == self.spec_height(),
    {
        self.height
    }

    /// The cell at column `col` of row `row`.
    pub fn get(&self, col: usize, row: usize) -> (r: &T)
        requires
            self.wf(),
            col < self.spec_width(),
            row < self.spec_height(),
        ensures
            *r == self.cells()[row * self.spec_width() + col],
    {
        let n = self.storage.len();
        proof {
            assert(0 <= row * self.spec_width() && row * self.spec_width() + col
                < self.spec_width() * self.spec_height()) by (nonlinear_arith)
                requires
                    0 <= col < self.spec_width(),
                    0 <= row < self.spec_height(),
            ;
        }
        &self.storage[row * self.width + col]
    }
}

} // verus!
