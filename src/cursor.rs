use vstd::prelude::*;

verus! {

/// A board cursor: the tile it marks, the grid and tile sizes it moves
/// over, and whether it is hidden.
#[derive(Debug)]
pub struct Cursor {
    col: u32,
    row: u32,
    grid_size: (u32, u32),
    tile_size: (u32, u32),
    hidden: bool,
}

impl Cursor {
    pub closed spec fn spec_tile(&self) -> (u32, u32) {
        (self.col, self.row)
    }

    pub closed spec fn spec_grid_size(&self) -> (u32, u32) {
        self.grid_size
    }

    pub closed spec fn spec_hidden(&self) -> bool {
        self.hidden
    }

    /// The cursor stays on the grid.
    pub open spec fn wf(&self) -> bool {
        self.spec_tile().0 < self.spec_grid_size().0 && self.spec_tile().1 < self.spec_grid_size().1
    }

    /// A visible cursor on `tile`.
    pub fn new(tile: (u32, u32), grid_size: (u32, u32), tile_size: (u32, u32)) -> (r: Cursor)
        ensures
            r.spec_tile() == tile,
            r.spec_grid_size() == grid_size,
            !r.spec_hidden(),
    {
        let (col, row) = tile;
        Cursor { col, row, grid_size, tile_size, hidden: false }
    }

    /// The tile the cursor marks.
    pub fn tile(&self) -> (r: (u32, u32))
        ensures
            r == self.spec_tile(),
    {
        (self.col, self.row)
    }

    /// Moves one row up, stopping at the top edge.
    pub fn move_up(&mut self)
        requires
            old(self).wf(),
        ensures
            final(self).wf(),
            final(self).spec_grid_size() == old(self).spec_grid_size(),
            final(self).spec_tile() == (old(self).spec_tile().0, if old(self).spec_tile().1 + 1
                < old(self).spec_grid_size().1 {
                (old(self).spec_tile().1 + 1) as u32
            } else {
                old(self).spec_tile().1
            }),
    {
        if self.row < self.grid_size.1 - 1 {
            self.row = self.row + 1;
        }
    }

    /// Moves one row down, stopping at the bottom edge.
    pub fn move_down(&mut self)
        requires
            old(self).wf(),
        ensures
            final(self).wf(),
            final(self).spec_grid_size() == old(self).spec_grid_size(),
            final(self).spec_tile() == (old(self).spec_tile().0, if old(self).spec_tile().1 > 0 {
                (old(self).spec_tile().1 - 1) as u32
            } else {
                0
            }),
    {
        if self.row > 0 {
            self.row = self.row - 1;
        }
    }

    /// Moves one column left, stopping at the left edge.
    pub fn move_left(&mut self)
        requires
            old(self).wf(),
        ensures
            final(self).wf(),
            final(self).spec_grid_size() == old(self).spec_grid_size(),
            final(self).spec_tile() == (if old(self).spec_tile().0 > 0 {
                (old(self).spec_tile().0 - 1) as u32
            } else {
                0
            }, old(self).spec_tile().1),
    {
        if self.col > 0 {
            self.col = self.col - 1;
        }
    }

    /// Moves one column right, stopping at the right edge.
    pub fn move_right(&mut self)
        requires
            old(self).wf(),
        ensures
            final(self).wf(),
            final(self).spec_grid_size() == old(self).spec_grid_size(),
            final(self).spec_tile() == (if old(self).spec_tile().0 + 1 < old(
                self,
            ).spec_grid_size().0 {
                (old(self).spec_tile().0 + 1) as u32
            } else {
                old(self).spec_tile().0
            }, old(self).spec_tile().1),
    {
        if self.col < self.grid_size.0 - 1 {
            self.col = self.col + 1;
        }
    }

    /// Shows or hides the cursor.
    pub fn set_hidden(&mut self, hidden: bool)
        ensures
            final(self).spec_hidden() == hidden,
            final(self).spec_tile() == old(self).spec_tile(),
            final(self).spec_grid_size() == old(self).spec_grid_size(),
    {
        self.hidden = hidden;
    }
}

} // verus!
