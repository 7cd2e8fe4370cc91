//! The universe: a toroidal grid of cells, advanced one generation at a time.
use vstd::prelude::*;
use crate::cell::{flipped, Cell};
use crate::grid::{
    dead_grid, glider_pattern, index_of, lemma_index_of, lemma_wrap_shift, seeded_grid,
    striped_grid, wrap, Grid, DEFAULT_HEIGHT, DEFAULT_WIDTH,
};

verus! {

/// The one failure of an indexed operation.
#[derive(Clone, Copy, Debug, PartialEq, Eq, Structural)]
pub enum GridError {
    /// A row at or past the height, or a column at or past the width.
    OutOfBounds,
}

/// A toroidal grid of `width * height` cells, stored row-major.
pub struct Universe {
    width: u32,
    height: u32,
    cells: Vec<Cell>,
}

/// Relies on String::push: the character is appended at the end.
#[verifier::external_body]
fn push_char(s: &mut String, c: char)
    ensures
        final(s)@ == old(s)@.push(c),
{
    s.push(c)
}

impl View for Universe {
    type V = Grid;

    closed spec fn view(&self) -> Grid {
        Grid { width: self.width as nat, height: self.height as nat, cells: self.cells@ }
    }
}

impl Universe {
    /// The invariant: one cell per grid position, dimensions that fit a `u32`
    /// and a cell count that fits a `usize`.
    pub open spec fn wf(&self) -> bool {
        &&& self@.well_formed()
        &&& self@.width * self@.height <= usize::MAX
        &&& self@.width <= u32::MAX
        &&& self@.height <= u32::MAX
    }

    fn get_index(&self, row: u32, column: u32) -> (r: usize)
        requires
            self.wf(),
            self@.in_bounds(row as int, column as int),
        ensures
            r == index_of(self@.width as int, row as int, column as int),
            r < self@.cells.len(),
    {
        proof {
            lemma_index_of(self.width as int, self.height as int, row as int, column as int);
        }
        row as usize * self.width as usize + column as usize
    }

    /// Coordinate `x` moved by `delta - 1` on a ring of `n` positions.
    fn wrap_step(x: u32, delta: u32, n: u32) -> (r: u32)
        requires
            x < n,
            delta <= 2,
        ensures
            r == wrap(x as int, delta - 1, n as int),
            r < n,
    {
        proof {
            lemma_wrap_shift(x as int, delta - 1, n as int, 1);
        }
        ((x as u64 + n as u64 - 1 + delta as u64) % n as u64) as u32
    }

    /// How many of the eight neighbours of `(row, column)`, across the edges,
    /// are alive.
    pub fn live_neighbor_count(&self, row: u32, column: u32) -> (r: u8)
        requires
            self.wf(),
            self@.in_bounds(row as int, column as int),
        ensures
            r as nat == self@.live_neighbors(row as int, column as int),
            r <= 8,
    {
        let mut count: u8 = 0;
        let mut dr: u32 = 0;
        while dr < 3
            invariant
                self.wf(),
                self@.in_bounds(row as int, column as int),
                dr <= 3,
                count as nat == self@.offsets_sum(row as int, column as int, 3 * dr as int),
                count <= 3 * dr,
            decreases 3 - dr,
        {
            let mut dc: u32 = 0;
            while dc < 3
                invariant
                    self.wf(),
                    self@.in_bounds(row as int, column as int),
                    dr < 3,
                    dc <= 3,
                    count as nat == self@.offsets_sum(
                        row as int,
                        column as int,
                        3 * dr + dc,
                    ),
                    count <= 3 * dr + dc,
                decreases 3 - dc,
            {
                if !(dr == 1 && dc == 1) {
                    let n_row = Self::wrap_step(row, dr, self.height);
                    let n_col = Self::wrap_step(column, dc, self.width);
                    let idx = self.get_index(n_row, n_col);
                    let add: u8 = match self.cells[idx] {
                        Cell::Alive => 1,
                        Cell::Dead => 0,
                    };
                    count = count + add;
                }
                let ghost k: int = 3 * dr + dc;
                assert(k / 3 - 1 == dr - 1 && k % 3 - 1 == dc - 1);
                dc = dc + 1;
            }
            dr = dr + 1;
        }
        proof {
            self@.lemma_offsets_sum_bound(row as int, column as int, 9);
        }
        count
    }

    /// Advances one generation: every cell follows the rule against the
    /// grid as it was before the step.
    pub fn tick(&mut self)
        requires
            old(self).wf(),
        ensures
            final(self).wf(),
            final(self)@ == old(self)@.next(),
    {
        let mut next = self.cells.clone();
        let ghost target = self@.next();
        let mut row: u32 = 0;
        while row < self.height
            invariant
                self.wf(),
                self@ == old(self)@,
                target == old(self)@.next(),
                row <= self.height,
                next@.len() == self@.cells.len(),
                forall|j: int|
                    0 <= j < row * self.width ==> #[trigger] next@[j] == target.cells[j],
            decreases self.height - row,
        {
            let mut col: u32 = 0;
            while col < self.width
                invariant
                    self.wf(),
                    self@ == old(self)@,
                    target == old(self)@.next(),
                    row < self.height,
                    col <= self.width,
                    next@.len() == self@.cells.len(),
                    forall|j: int|
                        0 <= j < row * self.width + col ==> #[trigger] next@[j]
                            == target.cells[j],
                decreases self.width - col,
            {
                let idx = self.get_index(row, col);
                proof {
                    lemma_index_of(self.width as int, self.height as int, row as int, col as int);
                }
                let cell = self.cells[idx];
                let live_neighbors = self.live_neighbor_count(row, col);
                let next_cell = match (cell, live_neighbors) {
                    (Cell::Alive, x) if x < 2 => Cell::Dead,
                    (Cell::Alive, 2) | (Cell::Alive, 3) => Cell::Alive,
                    (Cell::Alive, x) if x > 3 => Cell::Dead,
                    (Cell::Dead, 3) => Cell::Alive,
                    (otherwise, _) => otherwise,
                };
                next.set(idx, next_cell);
                col = col + 1;
            }
            assert((row + 1) * self.width == row * self.width + self.width) by (nonlinear_arith);
            row = row + 1;
        }
        proof {
            assert(row * self.width == self.width * self.height) by (nonlinear_arith)
                requires
                    row == self.height,
            ;
            assert(next@ =~= target.cells);
        }
        self.cells = next;
    }

    /// Coordinate `x + d` wrapped onto a ring of `n` positions.
    fn wrap_offset(x: u32, d: i8, n: u32) -> (r: u32)
        requires
            n > 0,
        ensures
            r == wrap(x as int, d as int, n as int),
            r < n,
    {
        proof {
            lemma_wrap_shift(x as int, d as int, n as int, 128);
        }
        ((x as i64 + 128 * n as i64 + d as i64) as u64 % n as u64) as u32
    }

    /// Writes each `(row offset, column offset, state)` of `pattern`, in
    /// order, at the anchor moved by the offsets and wrapped across the
    /// edges. A grid without cells is left as it is; an anchor outside the
    /// grid is refused and nothing is written.
    pub fn stamp_pattern(&mut self, row: u32, column: u32, pattern: &[(i8, i8, Cell)]) -> (r:
        Result<(), GridError>)
        requires
            old(self).wf(),
        ensures
            final(self).wf(),
            old(self)@.degenerate() ==> r == Ok::<(), GridError>(()) && final(self)@
                == old(self)@,
            !old(self)@.degenerate() && !old(self)@.in_bounds(row as int, column as int)
                ==> r == Err::<(), GridError>(GridError::OutOfBounds) && final(self)@
                == old(self)@,
            old(self)@.in_bounds(row as int, column as int) ==> r == Ok::<(), GridError>(())
                && final(self)@ == old(self)@.stamped(row as int, column as int, pattern@),
    {
        if self.width == 0 || self.height == 0 {
            return Ok(());
        }
        if row >= self.height || column >= self.width {
            return Err(GridError::OutOfBounds);
        }
        let mut i: usize = 0;
        while i < pattern.len()
            invariant
                self.wf(),
                self@.width == old(self)@.width,
                self@.height == old(self)@.height,
                self@.width > 0,
                self@.height > 0,
                i <= pattern@.len(),
                self@ == old(self)@.stamped(row as int, column as int, pattern@.subrange(0, i as int)),
            decreases pattern@.len() - i,
        {
            let (dr, dc, state) = pattern[i];
            let n_row = Self::wrap_offset(row, dr, self.height);
            let n_col = Self::wrap_offset(column, dc, self.width);
            let idx = self.get_index(n_row, n_col);
            self.cells.set(idx, state);
            proof {
                let done = pattern@.subrange(0, i + 1);
                assert(done.drop_last() =~= pattern@.subrange(0, i as int));
                assert(done.last() == pattern@[i as int]);
            }
            i = i + 1;
        }
        proof {
            assert(pattern@.subrange(0, i as int) =~= pattern@);
        }
        Ok(())
    }

    /// Draws a glider in the 3 by 3 box centred on `(row, column)`, wrapped
    /// across the edges.
    pub fn draw_glider(&mut self, row: u32, column: u32) -> (r: Result<(), GridError>)
        requires
            old(self).wf(),
        ensures
            final(self).wf(),
            old(self)@.degenerate() ==> r == Ok::<(), GridError>(()) && final(self)@
                == old(self)@,
            !old(self)@.degenerate() && !old(self)@.in_bounds(row as int, column as int)
                ==> r == Err::<(), GridError>(GridError::OutOfBounds) && final(self)@
                == old(self)@,
            old(self)@.in_bounds(row as int, column as int) ==> r == Ok::<(), GridError>(())
                && final(self)@ == old(self)@.stamped(row as int, column as int, glider_pattern()),
    {
        let glider: Vec<(i8, i8, Cell)> = vec![
            (-1, -1, Cell::Dead), (-1, 0, Cell::Alive), (-1, 1, Cell::Dead),
            (0, -1, Cell::Dead), (0, 0, Cell::Dead), (0, 1, Cell::Alive),
            (1, -1, Cell::Alive), (1, 0, Cell::Alive), (1, 1, Cell::Alive),
        ];
        assert(glider@ =~= glider_pattern());
        self.stamp_pattern(row, column, glider.as_slice())
    }

    /// A vector of `size` Dead cells.
    fn all_dead_init(size: usize) -> (r: Vec<Cell>)
        ensures
            r@ == Seq::new(size as nat, |i: int| Cell::Dead),
    {
        let mut cells: Vec<Cell> = Vec::with_capacity(size);
        let mut i: usize = 0;
        while i < size
            invariant
                i <= size,
                cells@ == Seq::new(i as nat, |j: int| Cell::Dead),
            decreases size - i,
        {
            cells.push(Cell::Dead);
            i = i + 1;
            assert(cells@ =~= Seq::new(i as nat, |j: int| Cell::Dead));
        }
        cells
    }

    /// A 64 by 64 universe whose cell `i`, row-major, is Alive exactly where
    /// `alive[i]` is true (the caller's random draws, say); cells past the
    /// end of `alive` are Dead.
    pub fn new(alive: &Vec<bool>) -> (r: Universe)
        ensures
            r.wf(),
            r@ == seeded_grid(alive@),
    {
        let size: usize = DEFAULT_WIDTH as usize * DEFAULT_HEIGHT as usize;
        let mut cells: Vec<Cell> = Vec::with_capacity(size);
        let mut i: usize = 0;
        while i < size
            invariant
                size == DEFAULT_WIDTH * DEFAULT_HEIGHT,
                i <= size,
                cells@ =~= seeded_grid(alive@).cells.subrange(0, i as int),
            decreases size - i,
        {
            let cell = if i < alive.len() && alive[i] {
                Cell::Alive
            } else {
                Cell::Dead
            };
            cells.push(cell);
            i = i + 1;
            assert(cells@ =~= seeded_grid(alive@).cells.subrange(0, i as int));
        }
        assert(cells@ =~= seeded_grid(alive@).cells);
        Universe { width: DEFAULT_WIDTH, height: DEFAULT_HEIGHT, cells }
    }

    /// A 64 by 64 universe whose cell `i`, row-major, is Alive when `i` is a
    /// multiple of two or of seven.
    pub fn striped() -> (r: Universe)
        ensures
            r.wf(),
            r@ == striped_grid(),
    {
        let size: usize = DEFAULT_WIDTH as usize * DEFAULT_HEIGHT as usize;
        let mut cells: Vec<Cell> = Vec::with_capacity(size);
        let mut i: usize = 0;
        while i < size
            invariant
                size == DEFAULT_WIDTH * DEFAULT_HEIGHT,
                i <= size,
                cells@ =~= striped_grid().cells.subrange(0, i as int),
            decreases size - i,
        {
            let cell = if i % 2 == 0 || i % 7 == 0 {
                Cell::Alive
            } else {
                Cell::Dead
            };
            cells.push(cell);
            i = i + 1;
            assert(cells@ =~= striped_grid().cells.subrange(0, i as int));
        }
        assert(cells@ =~= striped_grid().cells);
        Universe { width: DEFAULT_WIDTH, height: DEFAULT_HEIGHT, cells }
    }

    /// A universe of the same dimensions with every cell Dead.
    pub fn all_dead(self) -> (r: Universe)
        requires
            self.wf(),
        ensures
            r.wf(),
            r@ == dead_grid(self@.width, self@.height),
    {
        let cells = Self::all_dead_init(self.width as usize * self.height as usize);
        Universe { width: self.width, height: self.height, cells }
    }

    pub fn width(&self) -> (r: u32)
        ensures
            r == self@.width,
    {
        self.width
    }

    pub fn height(&self) -> (r: u32)
        ensures
            r == self@.height,
    {
        self.height
    }

    /// The cells, row-major, as a read-only view of the storage.
    pub fn cells(&self) -> (r: &[Cell])
        ensures
            r@ == self@.cells,
    {
        self.cells.as_slice()
    }

    /// The cells, row-major.
    pub fn get_cells(&self) -> (r: &[Cell])
        ensures
            r@ == self@.cells,
    {
        self.cells.as_slice()
    }

    /// Sets the width and clears the grid: every cell is Dead afterwards.
    pub fn set_width(&mut self, width: u32)
        requires
            old(self).wf(),
            width * old(self)@.height <= usize::MAX,
        ensures
            final(self).wf(),
            final(self)@ == dead_grid(width as nat, old(self)@.height),
    {
        self.width = width;
        self.cells = Self::all_dead_init(width as usize * self.height as usize);
    }

    /// Sets the height and clears the grid: every cell is Dead afterwards.
    pub fn set_height(&mut self, height: u32)
        requires
            old(self).wf(),
            old(self)@.width * height <= usize::MAX,
        ensures
            final(self).wf(),
            final(self)@ == dead_grid(old(self)@.width, height as nat),
    {
        self.height = height;
        self.cells = Self::all_dead_init(self.width as usize * height as usize);
    }

    /// The cell at `(row, column)`.
    pub fn get(&self, row: u32, column: u32) -> (r: Result<Cell, GridError>)
        requires
            self.wf(),
        ensures
            self@.in_bounds(row as int, column as int) ==> r == Ok::<Cell, GridError>(
                self@.at(row as int, column as int),
            ),
            !self@.in_bounds(row as int, column as int) ==> r == Err::<Cell, GridError>(
                GridError::OutOfBounds,
            ),
    {
        if row >= self.height || column >= self.width {
            return Err(GridError::OutOfBounds);
        }
        let idx = self.get_index(row, column);
        Ok(self.cells[idx])
    }

    /// Writes `cell` at `(row, column)`; outside the grid nothing changes.
    pub fn set(&mut self, row: u32, column: u32, cell: Cell) -> (r: Result<(), GridError>)
        requires
            old(self).wf(),
        ensures
            final(self).wf(),
            old(self)@.in_bounds(row as int, column as int) ==> r == Ok::<(), GridError>(())
                && final(self)@ == old(self)@.with_cell(row as int, column as int, cell),
            !old(self)@.in_bounds(row as int, column as int) ==> r == Err::<(), GridError>(
                GridError::OutOfBounds,
            ) && final(self)@ == old(self)@,
    {
        if row >= self.height || column >= self.width {
            return Err(GridError::OutOfBounds);
        }
        let idx = self.get_index(row, column);
        self.cells.set(idx, cell);
        Ok(())
    }

    /// Flips the cell at `(row, column)`; outside the grid nothing changes.
    pub fn toggle_cell(&mut self, row: u32, column: u32) -> (r: Result<(), GridError>)
        requires
            old(self).wf(),
        ensures
            final(self).wf(),
            old(self)@.in_bounds(row as int, column as int) ==> r == Ok::<(), GridError>(())
                && final(self)@ == old(self)@.with_cell(
                row as int,
                column as int,
                flipped(old(self)@.at(row as int, column as int)),
            ),
            !old(self)@.in_bounds(row as int, column as int) ==> r == Err::<(), GridError>(
                GridError::OutOfBounds,
            ) && final(self)@ == old(self)@,
    {
        if row >= self.height || column >= self.width {
            return Err(GridError::OutOfBounds);
        }
        let idx = self.get_index(row, column);
        let mut cell = self.cells[idx];
        cell.toggle();
        self.cells.set(idx, cell);
        Ok(())
    }

    /// Sets every listed `(row, column)` to Alive and leaves the others as
    /// they are. If any coordinate lies outside the grid, nothing changes.
    pub fn set_cells(&mut self, cells: &[(u32, u32)]) -> (r: Result<(), GridError>)
        requires
            old(self).wf(),
        ensures
            final(self).wf(),
            (forall|k: int|
                0 <= k < cells@.len() ==> old(self)@.in_bounds(
                    #[trigger] cells@[k].0 as int,
                    cells@[k].1 as int,
                )) ==> r == Ok::<(), GridError>(()) && final(self)@ == old(self)@.marked(cells@),
            !(forall|k: int|
                0 <= k < cells@.len() ==> old(self)@.in_bounds(
                    #[trigger] cells@[k].0 as int,
                    cells@[k].1 as int,
                )) ==> r == Err::<(), GridError>(GridError::OutOfBounds) && final(self)@
                == old(self)@,
    {
        let mut i: usize = 0;
        while i < cells.len()
            invariant
                self.wf(),
                self@ == old(self)@,
                i <= cells@.len(),
                forall|k: int|
                    0 <= k < i ==> self@.in_bounds(#[trigger] cells@[k].0 as int, cells@[k].1 as int),
            decreases cells@.len() - i,
        {
            let (row, col) = cells[i];
            if row >= self.height || col >= self.width {
                return Err(GridError::OutOfBounds);
            }
            i = i + 1;
        }
        assert(old(self)@.marked(cells@.subrange(0, 0)).cells =~= old(self)@.cells);
        let mut i: usize = 0;
        while i < cells.len()
            invariant
                self.wf(),
                self@.width == old(self)@.width,
                self@.height == old(self)@.height,
                i <= cells@.len(),
                forall|k: int|
                    0 <= k < cells@.len() ==> old(self)@.in_bounds(
                        #[trigger] cells@[k].0 as int,
                        cells@[k].1 as int,
                    ),
                self@ == old(self)@.marked(cells@.subrange(0, i as int)),
            decreases cells@.len() - i,
        {
            let (row, col) = cells[i];
            let idx = self.get_index(row, col);
            self.cells.set(idx, Cell::Alive);
            proof {
                let before = cells@.subrange(0, i as int);
                let after = cells@.subrange(0, i + 1);
                let w = old(self)@.width as int;
                assert forall|j: int| 0 <= j < self@.cells.len() implies self@.cells[j]
                    == old(self)@.marked(after).cells[j] by {
                    if j == idx {
                        assert(after[i as int] == cells@[i as int]);
                    } else {
                        if exists|k: int|
                            0 <= k < after.len() && index_of(w, after[k].0 as int, after[k].1 as int)
                                == j {
                            let k = choose|k: int|
                                0 <= k < after.len() && index_of(
                                    w,
                                    after[k].0 as int,
                                    after[k].1 as int,
                                ) == j;
                            assert(before[k] == after[k]);
                        }
                        if exists|k: int|
                            0 <= k < before.len() && index_of(w, before[k].0 as int, before[k].1 as int)
                                == j {
                            let k = choose|k: int|
                                0 <= k < before.len() && index_of(
                                    w,
                                    before[k].0 as int,
                                    before[k].1 as int,
                                ) == j;
                            assert(before[k] == after[k]);
                        }
                    }
                }
                assert(self@.cells =~= old(self)@.marked(after).cells);
            }
            i = i + 1;
        }
        proof {
            assert(cells@.subrange(0, i as int) =~= cells@);
        }
        Ok(())
    }

    /// The text rendering: one line per row, one glyph per cell.
    pub fn render(&self) -> (r: String)
        requires
            self.wf(),
        ensures
            r@ == self@.rendering(),
    {
        let mut text = String::new();
        let mut row: u32 = 0;
        while row < self.height
            invariant
                self.wf(),
                row <= self.height,
                text@ == self@.rows_text(row as int),
            decreases self.height - row,
        {
            let mut col: u32 = 0;
            while col < self.width
                invariant
                    self.wf(),
                    row < self.height,
                    col <= self.width,
                    text@ == self@.rows_text(row as int) + self@.line_prefix(row as int, col as int),
                decreases self.width - col,
            {
                let idx = self.get_index(row, col);
                let g = self.cells[idx].glyph();
                push_char(&mut text, g);
                assert(self@.line_prefix(row as int, col + 1) =~= self@.line_prefix(
                    row as int,
                    col as int,
                ).push(g));
                assert(text@ =~= self@.rows_text(row as int) + self@.line_prefix(row as int, col + 1));
                col = col + 1;
            }
            push_char(&mut text, '\n');
            assert(text@ =~= self@.rows_text(row + 1));
            row = row + 1;
        }
        text
    }
}

} // verus!
