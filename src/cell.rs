use vstd::prelude::*;

verus! {

/// The state of one cell of the grid.
#[derive(Clone, Copy, Debug, PartialEq, Eq, Structural)]
pub enum Cell {
    Dead,
    Alive,
}

/// The other state.
pub open spec fn flipped(c: Cell) -> Cell {
    match c {
        Cell::Dead => Cell::Alive,
        Cell::Alive => Cell::Dead,
    }
}

/// One for a live cell, zero for a dead one.
pub open spec fn alive_count(c: Cell) -> nat {
    match c {
        Cell::Dead => 0,
        Cell::Alive => 1,
    }
}

/// The glyph that the text rendering shows for a cell.
pub open spec fn glyph(c: Cell) -> char {
    match c {
        Cell::Alive => '\u{2639}',
        Cell::Dead => '\u{263B}',
    }
}

impl Cell {
    /// Flips the cell between Dead and Alive.
    pub fn toggle(&mut self)
        ensures
            *final(self) == flipped(*old(self)),
    {
        *self = match *self {
            Cell::Dead => Cell::Alive,
            Cell::Alive => Cell::Dead,
        };
    }

    /// The cell's glyph in the text rendering.
    pub fn glyph(&self) -> (r: char)
        ensures
            r == glyph(*self),
    {
        match *self {
            Cell::Alive => '\u{2639}',
            Cell::Dead => '\u{263B}',
        }
    }
}

} // verus!
