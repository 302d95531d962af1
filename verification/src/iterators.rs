use vstd::prelude::*;

use crate::puzzle::{Grid, SudokuPuzzle, Slot, copy_cells, unit_seq, unit_slots};

verus! {

// ---------------------------------------------------------------------------
// The unit decomposer: restartable walks over the 27 constraint units, in
// the fixed order rows (9), then columns (9), then blocks (9). Each family
// can be walked on its own; `UnitIterator` chains all three. The walks are
// read-only views: each holds its own copy of the cells (grids are cheap
// value types) and a cursor, and materialises one unit at a time.
// ---------------------------------------------------------------------------
/// Walks the 9 rows of a grid, top to bottom.
pub struct RowIterator {
    grid: Grid,
    at: usize,
}

/// Walks the 9 columns of a grid, left to right.
pub struct ColumnIterator {
    grid: Grid,
    at: usize,
}

/// Walks the 9 blocks of a grid, in row-major block order.
pub struct BlockIterator {
    grid: Grid,
    at: usize,
}

/// Walks all 27 units of a grid: rows, then columns, then blocks.
pub struct UnitIterator {
    grid: Grid,
    at: usize,
}

impl RowIterator {
    /// The cells this iterator walks.
    pub closed spec fn cells(&self) -> Seq<Slot> {
        self.grid@
    }

    /// How many units it has already handed out.
    pub closed spec fn pos(&self) -> int {
        self.at as int
    }

    pub open spec fn wf(&self) -> bool {
        self.cells().len() == 81 && 0 <= self.pos() <= 9
    }

    /// Start a walk over the rows of `grid`.
    pub fn new(grid: &Grid) -> (r: RowIterator)
        requires
            grid@.len() == 81,
        ensures
            r.wf(),
            r.cells() == grid@,
            r.pos() == 0,
    {
        RowIterator { grid: copy_cells(grid), at: 0 }
    }

    /// The next row, or `None` after the ninth.
    pub fn next(&mut self) -> (r: Option<Vec<Slot>>)
        requires
            old(self).wf(),
        ensures
            final(self).wf(),
            final(self).cells() == old(self).cells(),
            old(self).pos() < 9 ==> final(self).pos() == old(self).pos() + 1 && (r matches Some(v)
                && v@ == unit_seq(old(self).cells(), old(self).pos())),
            old(self).pos() >= 9 ==> final(self).pos() == old(self).pos() && r is None,
    {
        if self.at >= 9 {
            return None;
        }
        let v = unit_slots(&self.grid, self.at);
        self.at = self.at + 1;
        Some(v)
    }
}

impl ColumnIterator {
    /// The cells this iterator walks.
    pub closed spec fn cells(&self) -> Seq<Slot> {
        self.grid@
    }

    /// How many units it has already handed out.
    pub closed spec fn pos(&self) -> int {
        self.at as int
    }

    pub open spec fn wf(&self) -> bool {
        self.cells().len() == 81 && 0 <= self.pos() <= 9
    }

    /// Start a walk over the columns of `grid`.
    pub fn new(grid: &Grid) -> (r: ColumnIterator)
        requires
            grid@.len() == 81,
        ensures
            r.wf(),
            r.cells() == grid@,
            r.pos() == 0,
    {
        ColumnIterator { grid: copy_cells(grid), at: 0 }
    }

    /// The next column, or `None` after the ninth. Column `j` is unit
    /// `9 + j` of the grid.
    pub fn next(&mut self) -> (r: Option<Vec<Slot>>)
        requires
            old(self).wf(),
        ensures
            final(self).wf(),
            final(self).cells() == old(self).cells(),
            old(self).pos() < 9 ==> final(self).pos() == old(self).pos() + 1 && (r matches Some(v)
                && v@ == unit_seq(old(self).cells(), 9 + old(self).pos())),
            old(self).pos() >= 9 ==> final(self).pos() == old(self).pos() && r is None,
    {
        if self.at >= 9 {
            return None;
        }
        let v = unit_slots(&self.grid, 9 + self.at);
        self.at = self.at + 1;
        Some(v)
    }
}

impl BlockIterator {
    /// The cells this iterator walks.
    pub closed spec fn cells(&self) -> Seq<Slot> {
        self.grid@
    }

    /// How many units it has already handed out.
    pub closed spec fn pos(&self) -> int {
        self.at as int
    }

    pub open spec fn wf(&self) -> bool {
        self.cells().len() == 81 && 0 <= self.pos() <= 9
    }

    /// Start a walk over the blocks of `grid`.
    pub fn new(grid: &Grid) -> (r: BlockIterator)
        requires
            grid@.len() == 81,
        ensures
            r.wf(),
            r.cells() == grid@,
            r.pos() == 0,
    {
        BlockIterator { grid: copy_cells(grid), at: 0 }
    }

    /// The next block, or `None` after the ninth. Block `b` is unit
    /// `18 + b` of the grid.
    pub fn next(&mut self) -> (r: Option<Vec<Slot>>)
        requires
            old(self).wf(),
        ensures
            final(self).wf(),
            final(self).cells() == old(self).cells(),
            old(self).pos() < 9 ==> final(self).pos() == old(self).pos() + 1 && (r matches Some(v)
                && v@ == unit_seq(old(self).cells(), 18 + old(self).pos())),
            old(self).pos() >= 9 ==> final(self).pos() == old(self).pos() && r is None,
    {
        if self.at >= 9 {
            return None;
        }
        let v = unit_slots(&self.grid, 18 + self.at);
        self.at = self.at + 1;
        Some(v)
    }
}

impl UnitIterator {
    /// The cells this iterator walks.
    pub closed spec fn cells(&self) -> Seq<Slot> {
        self.grid@
    }

    /// How many units it has already handed out.
    pub closed spec fn pos(&self) -> int {
        self.at as int
    }

    pub open spec fn wf(&self) -> bool {
        self.cells().len() == 81 && 0 <= self.pos() <= 27
    }

    /// Start a walk over all 27 units of `grid`.
    pub fn new(grid: &Grid) -> (r: UnitIterator)
        requires
            grid@.len() == 81,
        ensures
            r.wf(),
            r.cells() == grid@,
            r.pos() == 0,
    {
        UnitIterator { grid: copy_cells(grid), at: 0 }
    }

    /// The next unit, or `None` after the 27th.
    pub fn next(&mut self) -> (r: Option<Vec<Slot>>)
        requires
            old(self).wf(),
        ensures
            final(self).wf(),
            final(self).cells() == old(self).cells(),
            old(self).pos() < 27 ==> final(self).pos() == old(self).pos() + 1 && (r matches Some(
                v,
            ) && v@ == unit_seq(old(self).cells(), old(self).pos())),
            old(self).pos() >= 27 ==> final(self).pos() == old(self).pos() && r is None,
    {
        if self.at >= 27 {
            return None;
        }
        let v = unit_slots(&self.grid, self.at);
        self.at = self.at + 1;
        Some(v)
    }
}

impl SudokuPuzzle {
    /// A walk over this puzzle's 9 rows.
    pub fn rows(&self) -> (r: RowIterator)
        requires
            self.wf(),
        ensures
            r.wf(),
            r.cells() == self@,
            r.pos() == 0,
    {
        RowIterator::new(self.grid_ref())
    }

    /// A walk over this puzzle's 9 columns.
    pub fn columns(&self) -> (r: ColumnIterator)
        requires
            self.wf(),
        ensures
            r.wf(),
            r.cells() == self@,
            r.pos() == 0,
    {
        ColumnIterator::new(self.grid_ref())
    }

    /// A walk over this puzzle's 9 blocks.
    pub fn blocks(&self) -> (r: BlockIterator)
        requires
            self.wf(),
        ensures
            r.wf(),
            r.cells() == self@,
            r.pos() == 0,
    {
        BlockIterator::new(self.grid_ref())
    }

    /// A walk over all 27 units: rows, then columns, then blocks.
    pub fn units(&self) -> (r: UnitIterator)
        requires
            self.wf(),
        ensures
            r.wf(),
            r.cells() == self@,
            r.pos() == 0,
    {
        UnitIterator::new(self.grid_ref())
    }
}

} // verus!
