//! The mathematical model of a universe: its dimensions and its cells in
//! row-major order, with the neighbourhood and the transition rule.
use vstd::prelude::*;
use crate::cell::{alive_count, glyph, Cell};

verus! {

/// A grid of `width * height` cells, row-major.
pub struct Grid {
    pub width: nat,
    pub height: nat,
    pub cells: Seq<Cell>,
}

/// Coordinate `x + d` wrapped onto a ring of `n` positions.
pub open spec fn wrap(x: int, d: int, n: int) -> int {
    (x + d) % n
}

/// Linear index of the cell at `(r, c)` in a grid of width `w`.
pub open spec fn index_of(w: int, r: int, c: int) -> int {
    r * w + c
}

/// The transition rule: the next state of a cell with `n` live neighbours.
pub open spec fn rule(cell: Cell, n: nat) -> Cell {
    match cell {
        Cell::Alive => if n < 2 || n > 3 { Cell::Dead } else { Cell::Alive },
        Cell::Dead => if n == 3 { Cell::Alive } else { Cell::Dead },
    }
}

/// The glider, as `(row offset, column offset, state)` over its 3 by 3 box:
/// `.#.` above, `..#` through the anchor, `###` below.
pub open spec fn glider_pattern() -> Seq<(i8, i8, Cell)> {
    seq![
        (-1i8, -1i8, Cell::Dead), (-1i8, 0i8, Cell::Alive), (-1i8, 1i8, Cell::Dead),
        (0i8, -1i8, Cell::Dead), (0i8, 0i8, Cell::Dead), (0i8, 1i8, Cell::Alive),
        (1i8, -1i8, Cell::Alive), (1i8, 0i8, Cell::Alive), (1i8, 1i8, Cell::Alive),
    ]
}

/// Width and height of a newly made universe.
pub const DEFAULT_WIDTH: u32 = 64;
pub const DEFAULT_HEIGHT: u32 = 64;

/// A default-sized grid whose cell `i` is Alive exactly where `alive[i]`
/// is true; cells past the end of `alive` are Dead.
pub open spec fn seeded_grid(alive: Seq<bool>) -> Grid {
    Grid {
        width: DEFAULT_WIDTH as nat,
        height: DEFAULT_HEIGHT as nat,
        cells: Seq::new(
            (DEFAULT_WIDTH * DEFAULT_HEIGHT) as nat,
            |i: int| if i < alive.len() && alive[i] { Cell::Alive } else { Cell::Dead },
        ),
    }
}

/// A default-sized grid whose cell `i` is Alive when `i` is a multiple of
/// two or of seven.
pub open spec fn striped_grid() -> Grid {
    Grid {
        width: DEFAULT_WIDTH as nat,
        height: DEFAULT_HEIGHT as nat,
        cells: Seq::new(
            (DEFAULT_WIDTH * DEFAULT_HEIGHT) as nat,
            |i: int| if i % 2 == 0 || i % 7 == 0 { Cell::Alive } else { Cell::Dead },
        ),
    }
}

/// A grid of the given dimensions with every cell Dead.
pub open spec fn dead_grid(width: nat, height: nat) -> Grid {
    Grid { width, height, cells: Seq::new(width * height, |i: int| Cell::Dead) }
}

impl Grid {
    pub open spec fn well_formed(self) -> bool {
        self.cells.len() == self.width * self.height
    }

    /// A grid without rows or without columns: it has no cells.
    pub open spec fn degenerate(self) -> bool {
        self.width == 0 || self.height == 0
    }

    pub open spec fn in_bounds(self, r: int, c: int) -> bool {
        0 <= r < self.height && 0 <= c < self.width
    }

    /// The cell at row `r`, column `c`.
    pub open spec fn at(self, r: int, c: int) -> Cell {
        self.cells[index_of(self.width as int, r, c)]
    }

    /// The neighbour of `(r, c)` at offset `(dr, dc)`, across the edges.
    pub open spec fn neighbor(self, r: int, c: int, dr: int, dc: int) -> Cell {
        self.at(wrap(r, dr, self.height as int), wrap(c, dc, self.width as int))
    }

    /// Live cells among the first `k` of the nine offsets
    /// `(k / 3 - 1, k % 3 - 1)`, the centre `(0, 0)` left out.
    pub open spec fn offsets_sum(self, r: int, c: int, k: int) -> nat
        decreases k,
    {
        if k <= 0 {
            0
        } else {
            let j = k - 1;
            let here = if j == 4 {
                0
            } else {
                alive_count(self.neighbor(r, c, j / 3 - 1, j % 3 - 1))
            };
            self.offsets_sum(r, c, j) + here
        }
    }

    /// A partial sum over `k` offsets counts at most `k` cells, one fewer
    /// once the centre is passed.
    pub proof fn lemma_offsets_sum_bound(self, r: int, c: int, k: int)
        requires
            0 <= k <= 9,
        ensures
            self.offsets_sum(r, c, k) <= if k > 4 { k - 1 } else { k },
        decreases k,
    {
        if k > 0 {
            self.lemma_offsets_sum_bound(r, c, k - 1);
        }
    }

    /// Live cells among the eight wrapped neighbours of `(r, c)`.
    pub open spec fn live_neighbors(self, r: int, c: int) -> nat {
        self.offsets_sum(r, c, 9)
    }

    /// The next generation, each cell judged against this grid alone.
    pub open spec fn next(self) -> Grid {
        Grid {
            width: self.width,
            height: self.height,
            cells: Seq::new(
                self.cells.len(),
                |i: int|
                    rule(
                        self.cells[i],
                        self.live_neighbors(i / self.width as int, i % self.width as int),
                    ),
            ),
        }
    }

    /// The grid after `n` generations.
    pub open spec fn after(self, n: nat) -> Grid
        decreases n,
    {
        if n == 0 {
            self
        } else {
            self.next().after((n - 1) as nat)
        }
    }

    /// The grid with the cell at `(r, c)` set to `v`.
    pub open spec fn with_cell(self, r: int, c: int, v: Cell) -> Grid {
        Grid {
            cells: self.cells.update(index_of(self.width as int, r, c), v),
            ..self
        }
    }

    /// The grid after writing each `(dr, dc, state)` of `pattern`, in order,
    /// at `(r + dr, c + dc)` wrapped.
    pub open spec fn stamped(self, r: int, c: int, pattern: Seq<(i8, i8, Cell)>) -> Grid
        decreases pattern.len(),
    {
        if pattern.len() == 0 {
            self
        } else {
            let (dr, dc, v) = pattern.last();
            self.stamped(r, c, pattern.drop_last()).with_cell(
                wrap(r, dr as int, self.height as int),
                wrap(c, dc as int, self.width as int),
                v,
            )
        }
    }

    /// The grid with every listed coordinate set to Alive.
    pub open spec fn marked(self, coords: Seq<(u32, u32)>) -> Grid {
        Grid {
            cells: Seq::new(
                self.cells.len(),
                |i: int|
                    if exists|k: int|
                        0 <= k < coords.len() && index_of(
                            self.width as int,
                            coords[k].0 as int,
                            coords[k].1 as int,
                        ) == i {
                        Cell::Alive
                    } else {
                        self.cells[i]
                    },
            ),
            ..self
        }
    }

    /// The glyphs of the first `k` cells of row `r`.
    pub open spec fn line_prefix(self, r: int, k: int) -> Seq<char> {
        Seq::new(k as nat, |c: int| glyph(self.at(r, c)))
    }

    /// The text of the first `k` rows, each ended by a newline.
    pub open spec fn rows_text(self, k: int) -> Seq<char>
        decreases k,
    {
        if k <= 0 {
            Seq::empty()
        } else {
            self.rows_text(k - 1) + self.line_prefix(k - 1, self.width as int).push('\n')
        }
    }

    /// The text rendering: one line per row, one glyph per cell.
    pub open spec fn rendering(self) -> Seq<char> {
        self.rows_text(self.height as int)
    }
}

/// `x + d` shifted by whole turns of the ring wraps to the same place.
pub proof fn lemma_wrap_shift(x: int, d: int, n: int, turns: int)
    requires
        n > 0,
    ensures
        (x + turns * n + d) % n == wrap(x, d, n),
{
    let v = x + d;
    let q = v / n;
    let m = v % n;
    vstd::arithmetic::div_mod::lemma_fundamental_div_mod(v, n);
    assert(x + turns * n + d == (q + turns) * n + m) by (nonlinear_arith)
        requires
            v == x + d,
            v == n * q + m,
    ;
    vstd::arithmetic::div_mod::lemma_fundamental_div_mod_converse(x + turns * n + d, n, q + turns, m);
}

/// On a ring of `n` positions a step of at most one wraps by at most one turn.
pub proof fn lemma_wrap_cases(x: int, d: int, n: int)
    requires
        0 <= x < n,
        -1 <= d <= 1,
    ensures
        wrap(x, d, n) == if x + d < 0 {
            x + d + n
        } else if x + d >= n {
            x + d - n
        } else {
            x + d
        },
{
    if x + d < 0 {
        vstd::arithmetic::div_mod::lemma_fundamental_div_mod_converse(x + d, n, -1, x + d + n);
    } else if x + d >= n {
        vstd::arithmetic::div_mod::lemma_fundamental_div_mod_converse(x + d, n, 1, x + d - n);
    } else {
        vstd::arithmetic::div_mod::lemma_fundamental_div_mod_converse(x + d, n, 0, x + d);
    }
}

/// The row and column of the linear index `r * w + c`.
pub proof fn lemma_index_of(w: int, h: int, r: int, c: int)
    requires
        0 <= r < h,
        0 <= c < w,
    ensures
        0 <= index_of(w, r, c) < w * h,
        index_of(w, r, c) / w == r,
        index_of(w, r, c) % w == c,
{
    assert(0 <= r * w + c < w * h) by (nonlinear_arith)
        requires
            0 <= r < h,
            0 <= c < w,
    ;
    vstd::arithmetic::div_mod::lemma_fundamental_div_mod_converse(r * w + c, w, r, c);
}

} // verus!
