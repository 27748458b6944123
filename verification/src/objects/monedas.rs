use vstd::prelude::*;

verus! {

/// A coin lying on a cell of the maze, taken or not.
#[derive(Clone, Copy, Debug)]
pub struct Moneda {
    grid_i: usize,
    grid_j: usize,
    colected: bool,
}

impl Moneda {
    /// The cell of the coin, as (row, column).
    pub closed spec fn spec_grid_pos(&self) -> (usize, usize) {
        (self.grid_i, self.grid_j)
    }

    /// Whether the coin has been taken.
    pub closed spec fn spec_tomada(&self) -> bool {
        self.colected
    }

    /// A coin, not taken, on the cell in row `grid_i` and column `grid_j`.
    pub fn new(grid_i: usize, grid_j: usize) -> (m: Moneda)
        ensures
            m.spec_grid_pos() == (grid_i, grid_j),
            !m.spec_tomada(),
    {
        Moneda { grid_i, grid_j, colected: false }
    }

    /// Takes the coin; a coin already taken stays taken.
    pub fn tomar_moneda(&mut self)
        ensures
            final(self).spec_tomada(),
            final(self).spec_grid_pos() == old(self).spec_grid_pos(),
    {
        self.colected = true;
    }

    /// Whether the coin has been taken.
    pub fn tomada(&self) -> (r: bool)
        ensures
            r == self.spec_tomada(),
    {
        self.colected
    }

    /// The cell of the coin, as (row, column).
    pub fn grid_pos(&self) -> (r: (usize, usize))
        ensures
            r == self.spec_grid_pos(),
    {
        (self.grid_i, self.grid_j)
    }
}

} // verus!
