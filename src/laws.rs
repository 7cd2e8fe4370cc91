//! General properties of the engine, stated over the grid model.
use vstd::prelude::*;
use crate::cell::{alive_count, flipped, Cell};
use crate::grid::{dead_grid, glider_pattern, index_of, lemma_index_of, lemma_wrap_cases, rule, wrap, Grid};

verus! {

/// The grid turned by 180 degrees: row-major, that is the cells in reverse.
pub open spec fn rotated(g: Grid) -> Grid {
    Grid { cells: g.cells.reverse(), ..g }
}

/// A cell never has more than eight live neighbours.
pub proof fn lemma_live_neighbors_at_most_eight(g: Grid, r: int, c: int)
    ensures
        g.live_neighbors(r, c) <= 8,
{
    g.lemma_offsets_sum_bound(r, c, 9);
}

/// The live-neighbour count of a cell depends on its eight wrapped
/// neighbours alone: two grids that agree on them give the same count.
pub proof fn lemma_live_neighbors_local(g1: Grid, g2: Grid, r: int, c: int)
    requires
        forall|dr: int, dc: int|
            -1 <= dr <= 1 && -1 <= dc <= 1 && !(dr == 0 && dc == 0) ==> #[trigger] g1.neighbor(
                r,
                c,
                dr,
                dc,
            ) == g2.neighbor(r, c, dr, dc),
    ensures
        g1.live_neighbors(r, c) == g2.live_neighbors(r, c),
{
    reveal_with_fuel(Grid::offsets_sum, 10);
    assert(g1.neighbor(r, c, -1, -1) == g2.neighbor(r, c, -1, -1));
    assert(g1.neighbor(r, c, -1, 0) == g2.neighbor(r, c, -1, 0));
    assert(g1.neighbor(r, c, -1, 1) == g2.neighbor(r, c, -1, 1));
    assert(g1.neighbor(r, c, 0, -1) == g2.neighbor(r, c, 0, -1));
    assert(g1.neighbor(r, c, 0, 1) == g2.neighbor(r, c, 0, 1));
    assert(g1.neighbor(r, c, 1, -1) == g2.neighbor(r, c, 1, -1));
    assert(g1.neighbor(r, c, 1, 0) == g2.neighbor(r, c, 1, 0));
    assert(g1.neighbor(r, c, 1, 1) == g2.neighbor(r, c, 1, 1));
}

/// Turning the grid by 180 degrees turns the neighbour counts with it: the
/// count at `(r, c)` of the turned grid is the count at the opposite cell.
pub proof fn lemma_live_neighbors_rotated(g: Grid, r: int, c: int)
    requires
        g.well_formed(),
        g.in_bounds(r, c),
    ensures
        rotated(g).live_neighbors(r, c) == g.live_neighbors(
            g.height - 1 - r,
            g.width - 1 - c,
        ),
{
    let w = g.width as int;
    let h = g.height as int;
    let rg = rotated(g);
    assert forall|dr: int, dc: int|
        -1 <= dr <= 1 && -1 <= dc <= 1 implies #[trigger] rg.neighbor(r, c, dr, dc)
        == g.neighbor(h - 1 - r, w - 1 - c, -dr, -dc) by {
        lemma_wrap_cases(r, dr, h);
        lemma_wrap_cases(c, dc, w);
        lemma_wrap_cases(h - 1 - r, -dr, h);
        lemma_wrap_cases(w - 1 - c, -dc, w);
        let a = wrap(r, dr, h);
        let b = wrap(c, dc, w);
        lemma_index_of(w, h, a, b);
        assert((h - 1 - a) * w + (w - 1 - b) == w * h - 1 - (a * w + b)) by (nonlinear_arith);
    }
    reveal_with_fuel(Grid::offsets_sum, 10);
    assert(rg.neighbor(r, c, -1, -1) == g.neighbor(h - 1 - r, w - 1 - c, 1, 1));
    assert(rg.neighbor(r, c, -1, 0) == g.neighbor(h - 1 - r, w - 1 - c, 1, 0));
    assert(rg.neighbor(r, c, -1, 1) == g.neighbor(h - 1 - r, w - 1 - c, 1, -1));
    assert(rg.neighbor(r, c, 0, -1) == g.neighbor(h - 1 - r, w - 1 - c, 0, 1));
    assert(rg.neighbor(r, c, 0, 1) == g.neighbor(h - 1 - r, w - 1 - c, 0, -1));
    assert(rg.neighbor(r, c, 1, -1) == g.neighbor(h - 1 - r, w - 1 - c, -1, 1));
    assert(rg.neighbor(r, c, 1, 0) == g.neighbor(h - 1 - r, w - 1 - c, -1, 0));
    assert(rg.neighbor(r, c, 1, 1) == g.neighbor(h - 1 - r, w - 1 - c, -1, -1));
}

/// A pattern that a 180-degree turn leaves as it is has the same neighbour
/// count at opposite cells.
pub proof fn lemma_live_neighbors_symmetric(g: Grid, r: int, c: int)
    requires
        g.well_formed(),
        g.in_bounds(r, c),
        rotated(g) == g,
    ensures
        g.live_neighbors(r, c) == g.live_neighbors(g.height - 1 - r, g.width - 1 - c),
{
    lemma_live_neighbors_rotated(g, r, c);
}

/// The neighbourhood wraps across both edges: the top-left cell has the
/// bottom-right cell as a neighbour, and counts it when it is alive.
pub proof fn lemma_corner_wraps(g: Grid)
    requires
        g.width > 0,
        g.height > 0,
    ensures
        g.neighbor(0, 0, -1, -1) == g.at(g.height - 1, g.width - 1),
        g.at(g.height - 1, g.width - 1) == Cell::Alive ==> g.live_neighbors(0, 0) >= 1,
{
    lemma_wrap_cases(0, -1, g.height as int);
    lemma_wrap_cases(0, -1, g.width as int);
    reveal_with_fuel(Grid::offsets_sum, 10);
}

/// Every cell of a cleared grid is Dead.
pub proof fn lemma_dead_grid_all_dead(width: nat, height: nat, r: int, c: int)
    requires
        0 <= r < height,
        0 <= c < width,
    ensures
        dead_grid(width, height).at(r, c) == Cell::Dead,
{
    lemma_index_of(width as int, height as int, r, c);
}

/// Flipping a cell twice gives back the grid it started from.
pub proof fn lemma_toggle_twice(g: Grid, r: int, c: int)
    requires
        g.well_formed(),
        g.in_bounds(r, c),
    ensures
        ({
            let once = g.with_cell(r, c, flipped(g.at(r, c)));
            once.with_cell(r, c, flipped(once.at(r, c)))
        }) == g,
{
    lemma_index_of(g.width as int, g.height as int, r, c);
    let once = g.with_cell(r, c, flipped(g.at(r, c)));
    let twice = once.with_cell(r, c, flipped(once.at(r, c)));
    assert(twice.cells =~= g.cells);
}

/// `x` is one of the positions `a + d`, wrapped, for `lo <= d <= hi`, where
/// the span reaches at most one step either side of `a`.
pub open spec fn in_span(x: int, a: int, lo: int, hi: int, n: int) -> bool {
    ||| (lo <= -1 && x == wrap(a, -1, n))
    ||| x == a
    ||| (hi >= 1 && x == wrap(a, 1, n))
}

/// The live cells of `g` are exactly the rows `r + lo..=r + hi` crossed
/// with the columns `c + clo..=c + chi`, wrapped.
pub open spec fn is_rect(g: Grid, r: int, c: int, lo: int, hi: int, clo: int, chi: int) -> bool {
    &&& g.well_formed()
    &&& g.in_bounds(r, c)
    &&& forall|x: int, y: int|
        g.in_bounds(x, y) ==> #[trigger] g.at(x, y) == if in_span(x, r, lo, hi, g.height as int)
            && in_span(y, c, clo, chi, g.width as int) {
            Cell::Alive
        } else {
            Cell::Dead
        }
}

/// One for a neighbour inside the rectangle.
pub open spec fn rect_hit(
    g: Grid,
    r: int,
    c: int,
    lo: int,
    hi: int,
    clo: int,
    chi: int,
    x: int,
    y: int,
    dx: int,
    dy: int,
) -> nat {
    if in_span(wrap(x, dx, g.height as int), r, lo, hi, g.height as int) && in_span(
        wrap(y, dy, g.width as int),
        c,
        clo,
        chi,
        g.width as int,
    ) {
        1
    } else {
        0
    }
}

proof fn lemma_rect_neighbors(
    g: Grid,
    r: int,
    c: int,
    lo: int,
    hi: int,
    clo: int,
    chi: int,
    x: int,
    y: int,
)
    requires
        is_rect(g, r, c, lo, hi, clo, chi),
        g.in_bounds(x, y),
    ensures
        g.live_neighbors(x, y) == rect_hit(g, r, c, lo, hi, clo, chi, x, y, -1, -1) + rect_hit(
            g,
            r,
            c,
            lo,
            hi,
            clo,
            chi,
            x,
            y,
            -1,
            0,
        ) + rect_hit(g, r, c, lo, hi, clo, chi, x, y, -1, 1) + rect_hit(
            g,
            r,
            c,
            lo,
            hi,
            clo,
            chi,
            x,
            y,
            0,
            -1,
        ) + rect_hit(g, r, c, lo, hi, clo, chi, x, y, 0, 1) + rect_hit(
            g,
            r,
            c,
            lo,
            hi,
            clo,
            chi,
            x,
            y,
            1,
            -1,
        ) + rect_hit(g, r, c, lo, hi, clo, chi, x, y, 1, 0) + rect_hit(
            g,
            r,
            c,
            lo,
            hi,
            clo,
            chi,
            x,
            y,
            1,
            1,
        ),
{
    let h = g.height as int;
    let w = g.width as int;
    lemma_wrap_cases(x, -1, h);
    lemma_wrap_cases(x, 0, h);
    lemma_wrap_cases(x, 1, h);
    lemma_wrap_cases(y, -1, w);
    lemma_wrap_cases(y, 0, w);
    lemma_wrap_cases(y, 1, w);
    reveal_with_fuel(Grid::offsets_sum, 10);
    assert(g.at(wrap(x, -1, h), wrap(y, -1, w)) == g.neighbor(x, y, -1, -1));
    assert(g.at(wrap(x, -1, h), wrap(y, 0, w)) == g.neighbor(x, y, -1, 0));
    assert(g.at(wrap(x, -1, h), wrap(y, 1, w)) == g.neighbor(x, y, -1, 1));
    assert(g.at(wrap(x, 0, h), wrap(y, -1, w)) == g.neighbor(x, y, 0, -1));
    assert(g.at(wrap(x, 0, h), wrap(y, 1, w)) == g.neighbor(x, y, 0, 1));
    assert(g.at(wrap(x, 1, h), wrap(y, -1, w)) == g.neighbor(x, y, 1, -1));
    assert(g.at(wrap(x, 1, h), wrap(y, 0, w)) == g.neighbor(x, y, 1, 0));
    assert(g.at(wrap(x, 1, h), wrap(y, 1, w)) == g.neighbor(x, y, 1, 1));
}

/// The row and column of every linear index of a well-formed grid.
proof fn lemma_position(g: Grid, i: int)
    requires
        g.well_formed(),
        0 <= i < g.cells.len(),
    ensures
        g.width > 0,
        g.in_bounds(i / g.width as int, i % g.width as int),
        index_of(g.width as int, i / g.width as int, i % g.width as int) == i,
{
    let w = g.width as int;
    let h = g.height as int;
    assert(w > 0) by (nonlinear_arith)
        requires
            0 <= i < w * h,
            w >= 0,
            h >= 0,
    ;
    vstd::arithmetic::div_mod::lemma_fundamental_div_mod(i, w);
    assert(0 <= i / w < h) by (nonlinear_arith)
        requires
            0 <= i < w * h,
            w > 0,
            i == w * (i / w) + i % w,
            0 <= i % w < w,
    ;
    assert((i / w) * w == w * (i / w)) by (nonlinear_arith);
}

/// How many of the three positions around `x` fall in a span of at most
/// three positions on a ring of at least three (of at least four for a span
/// of three).
proof fn lemma_span_steps(x: int, a: int, lo: int, hi: int, n: int)
    requires
        0 <= x < n,
        0 <= a < n,
        n >= 4 || (n == 3 && hi - lo <= 1),
        -1 <= lo <= 0,
        0 <= hi <= 1,
    ensures
        wrap(x, 0, n) == x,
        in_span(x, a, lo, hi, n) ==> (in_span(wrap(x, -1, n), a, lo, hi, n) || in_span(
            wrap(x, 1, n),
            a,
            lo,
            hi,
            n,
        ) || (lo == 0 && hi == 0)),
        hi - lo <= 1 && (n >= 4 || in_span(x, a, lo, hi, n)) ==> !(in_span(
            wrap(x, -1, n),
            a,
            lo,
            hi,
            n,
        ) && in_span(wrap(x, 1, n), a, lo, hi, n)),
        lo == -1 && hi == 1 && in_span(x, a, lo, hi, n) ==> (x == a <==> (in_span(
            wrap(x, -1, n),
            a,
            lo,
            hi,
            n,
        ) && in_span(wrap(x, 1, n), a, lo, hi, n))),
{
    lemma_wrap_cases(x, -1, n);
    lemma_wrap_cases(x, 0, n);
    lemma_wrap_cases(x, 1, n);
    lemma_wrap_cases(a, -1, n);
    lemma_wrap_cases(a, 1, n);
}

/// A 2 by 2 block of live cells on an otherwise dead grid of at least 3 by 3
/// is a still life: a step leaves it as it is.
#[verifier::rlimit(50)]
pub proof fn lemma_block_still(g: Grid, r: int, c: int)
    requires
        is_rect(g, r, c, 0, 1, 0, 1),
        g.height >= 3,
        g.width >= 3,
    ensures
        g.next() == g,
{
    let h = g.height as int;
    let w = g.width as int;
    lemma_wrap_cases(r, 1, h);
    lemma_wrap_cases(c, 1, w);
    assert forall|i: int| 0 <= i < g.cells.len() implies #[trigger] g.next().cells[i]
        == g.cells[i] by {
        lemma_position(g, i);
        let x = i / w;
        let y = i % w;
        lemma_rect_neighbors(g, r, c, 0, 1, 0, 1, x, y);
        lemma_span_steps(x, r, 0, 1, h);
        lemma_span_steps(y, c, 0, 1, w);
        assert(g.cells[i] == g.at(x, y));
    }
    assert(g.next().cells =~= g.cells);
}

/// Two grids of the same dimensions that hold the same rectangle are equal.
proof fn lemma_rect_unique(
    g1: Grid,
    g2: Grid,
    r: int,
    c: int,
    lo: int,
    hi: int,
    clo: int,
    chi: int,
)
    requires
        is_rect(g1, r, c, lo, hi, clo, chi),
        is_rect(g2, r, c, lo, hi, clo, chi),
        g1.width == g2.width,
        g1.height == g2.height,
    ensures
        g1 == g2,
{
    assert forall|i: int| 0 <= i < g1.cells.len() implies #[trigger] g1.cells[i] == g2.cells[i] by {
        lemma_position(g1, i);
        let x = i / g1.width as int;
        let y = i % g1.width as int;
        assert(g1.at(x, y) == g2.at(x, y));
    }
    assert(g1.cells =~= g2.cells);
}

/// One step of a three-cell line: the row `r`, columns `c - 1..=c + 1`,
/// turns into the column `c`, rows `r - 1..=r + 1`, and back.
#[verifier::rlimit(50)]
proof fn lemma_line_turns(g: Grid, r: int, c: int, lo: int, hi: int, clo: int, chi: int)
    requires
        is_rect(g, r, c, lo, hi, clo, chi),
        (lo == 0 && hi == 0 && clo == -1 && chi == 1) || (lo == -1 && hi == 1 && clo == 0 && chi
            == 0),
        g.height >= 4,
        g.width >= 4,
    ensures
        is_rect(g.next(), r, c, clo, chi, lo, hi),
{
    let h = g.height as int;
    let w = g.width as int;
    let n = g.next();
    assert forall|x: int, y: int| n.in_bounds(x, y) implies #[trigger] n.at(x, y) == if in_span(
        x,
        r,
        clo,
        chi,
        h,
    ) && in_span(y, c, lo, hi, w) {
        Cell::Alive
    } else {
        Cell::Dead
    } by {
        lemma_index_of(w, h, x, y);
        lemma_rect_neighbors(g, r, c, lo, hi, clo, chi, x, y);
        lemma_span_steps(x, r, lo, hi, h);
        lemma_span_steps(y, c, clo, chi, w);
        lemma_span_steps(x, r, clo, chi, h);
        lemma_span_steps(y, c, lo, hi, w);
        lemma_wrap_cases(r, -1, h);
        lemma_wrap_cases(r, 1, h);
        lemma_wrap_cases(c, -1, w);
        lemma_wrap_cases(c, 1, w);
        lemma_wrap_cases(x, -1, h);
        lemma_wrap_cases(x, 1, h);
        lemma_wrap_cases(y, -1, w);
        lemma_wrap_cases(y, 1, w);
        assert(g.at(x, y) == g.cells[index_of(w, x, y)]);
    }
}

/// A blinker, three live cells in a row on an otherwise dead grid of at
/// least 4 by 4, has period two: one step changes it, two steps give it back.
pub proof fn lemma_blinker_period(g: Grid, r: int, c: int)
    requires
        is_rect(g, r, c, 0, 0, -1, 1),
        g.height >= 4,
        g.width >= 4,
    ensures
        g.after(1) != g,
        g.after(2) == g,
{
    let h = g.height as int;
    let w = g.width as int;
    lemma_line_turns(g, r, c, 0, 0, -1, 1);
    let g1 = g.next();
    lemma_line_turns(g1, r, c, -1, 1, 0, 0);
    let g2 = g1.next();
    lemma_rect_unique(g2, g, r, c, 0, 0, -1, 1);
    reveal_with_fuel(Grid::after, 3);
    assert(g.after(2) == g2);
    lemma_wrap_cases(r, -1, h);
    lemma_wrap_cases(r, 1, h);
    let above = wrap(r, -1, h);
    assert(g1.at(above, c) == Cell::Alive);
    assert(g.at(above, c) == Cell::Dead);
}

/// Where `x` lies from `a` on a ring of `n`, as an offset in `-2..=3`; 9
/// when it lies farther away.
pub open spec fn offset(x: int, a: int, n: int) -> int {
    let d = x - a;
    if -2 <= d <= 3 {
        d
    } else if -2 <= d + n <= 3 {
        d + n
    } else if -2 <= d - n <= 3 {
        d - n
    } else {
        9
    }
}

/// The offset of the position one step `d` from offset `o`, on a ring of
/// `n`; 9 stays 9.
pub open spec fn shift(o: int, d: int, n: int) -> int {
    if o == 9 {
        9
    } else {
        let e = o + d;
        if -2 <= e <= 3 {
            e
        } else if -2 <= e + n <= 3 {
            e + n
        } else if -2 <= e - n <= 3 {
            e - n
        } else {
            9
        }
    }
}

/// The live cells of the glider's phase `k`, as offsets `(a, b)` from the
/// anchor of phase 0; phase 4 is phase 0 moved one row down and one column
/// right.
pub open spec fn glider_phase(k: int, a: int, b: int) -> bool {
    if k == 0 {
        {
            ||| (a == -1 && b == 0)
            ||| (a == 0 && b == 1)
            ||| (a == 1 && b == -1)
            ||| (a == 1 && b == 0)
            ||| (a == 1 && b == 1)
        }
    } else if k == 1 {
        {
            ||| (a == 0 && b == -1)
            ||| (a == 0 && b == 1)
            ||| (a == 1 && b == 0)
            ||| (a == 1 && b == 1)
            ||| (a == 2 && b == 0)
        }
    } else if k == 2 {
        {
            ||| (a == 0 && b == 1)
            ||| (a == 1 && b == -1)
            ||| (a == 1 && b == 1)
            ||| (a == 2 && b == 0)
            ||| (a == 2 && b == 1)
        }
    } else if k == 3 {
        {
            ||| (a == 0 && b == 0)
            ||| (a == 1 && b == 1)
            ||| (a == 1 && b == 2)
            ||| (a == 2 && b == 0)
            ||| (a == 2 && b == 1)
        }
    } else {
        {
            ||| (a == 0 && b == 1)
            ||| (a == 1 && b == 2)
            ||| (a == 2 && b == 0)
            ||| (a == 2 && b == 1)
            ||| (a == 2 && b == 2)
        }
    }
}

/// One for a live cell of phase `k` at offset `(a, b)`.
pub open spec fn phase_hit(k: int, a: int, b: int) -> nat {
    if glider_phase(k, a, b) {
        1
    } else {
        0
    }
}

/// The live neighbours of offset `(a, b)` in phase `k`, on a grid of
/// height `h` and width `w`.
pub open spec fn phase_count(k: int, a: int, b: int, h: int, w: int) -> nat {
    phase_hit(k, shift(a, -1, h), shift(b, -1, w)) + phase_hit(k, shift(a, -1, h), b) + phase_hit(
        k,
        shift(a, -1, h),
        shift(b, 1, w),
    ) + phase_hit(k, a, shift(b, -1, w)) + phase_hit(k, a, shift(b, 1, w)) + phase_hit(
        k,
        shift(a, 1, h),
        shift(b, -1, w),
    ) + phase_hit(k, shift(a, 1, h), b) + phase_hit(k, shift(a, 1, h), shift(b, 1, w))
}

/// The live cells of `g` are exactly phase `k` of a glider anchored at
/// `(r, c)`.
pub open spec fn is_glider_phase(g: Grid, r: int, c: int, k: int) -> bool {
    &&& g.well_formed()
    &&& g.in_bounds(r, c)
    &&& forall|x: int, y: int|
        g.in_bounds(x, y) ==> #[trigger] g.at(x, y) == if glider_phase(
            k,
            offset(x, r, g.height as int),
            offset(y, c, g.width as int),
        ) {
            Cell::Alive
        } else {
            Cell::Dead
        }
}

proof fn lemma_offset_step(x: int, d: int, a: int, n: int)
    requires
        0 <= x < n,
        0 <= a < n,
        n >= 5,
        -1 <= d <= 1,
    ensures
        -2 <= offset(x, a, n) <= 3 || offset(x, a, n) == 9,
        offset(x, a, n) != 9 ==> offset(wrap(x, d, n), a, n) == shift(offset(x, a, n), d, n) || (
        n == 5 && (offset(wrap(x, d, n), a, n) == -2 || offset(wrap(x, d, n), a, n) == 3) && (
        shift(offset(x, a, n), d, n) == -2 || shift(offset(x, a, n), d, n) == 3)),
        offset(x, a, n) == 9 ==> !(-1 <= offset(wrap(x, d, n), a, n) <= 2),
{
    lemma_wrap_cases(x, d, n);
}

#[verifier::rlimit(100)]
proof fn lemma_phase_table(k: int, a: int, b: int, h: int, w: int)
    requires
        0 <= k < 4,
        -2 <= a <= 3 || a == 9,
        -2 <= b <= 3 || b == 9,
        h >= 5,
        w >= 5,
    ensures
        (if glider_phase(k + 1, a, b) { Cell::Alive } else { Cell::Dead }) == rule(
            if glider_phase(k, a, b) {
                Cell::Alive
            } else {
                Cell::Dead
            },
            phase_count(k, a, b, h, w),
        ),
{
    if a == -2 {
    } else if a == -1 {
    } else if a == 0 {
    } else if a == 1 {
    } else if a == 2 {
    } else if a == 3 {
    } else {
    }
}

proof fn lemma_glider_term(g: Grid, r: int, c: int, k: int, x: int, y: int, dx: int, dy: int)
    requires
        is_glider_phase(g, r, c, k),
        g.height >= 5,
        g.width >= 5,
        g.in_bounds(x, y),
        -1 <= dx <= 1,
        -1 <= dy <= 1,
    ensures
        alive_count(g.neighbor(x, y, dx, dy)) == phase_hit(
            k,
            shift(offset(x, r, g.height as int), dx, g.height as int),
            shift(offset(y, c, g.width as int), dy, g.width as int),
        ),
{
    let h = g.height as int;
    let w = g.width as int;
    lemma_wrap_cases(x, dx, h);
    lemma_wrap_cases(y, dy, w);
    lemma_offset_step(x, dx, r, h);
    lemma_offset_step(y, dy, c, w);
    assert(g.neighbor(x, y, dx, dy) == g.at(wrap(x, dx, h), wrap(y, dy, w)));
}

#[verifier::spinoff_prover]
proof fn lemma_glider_count(g: Grid, r: int, c: int, k: int, x: int, y: int)
    requires
        is_glider_phase(g, r, c, k),
        g.height >= 5,
        g.width >= 5,
        g.in_bounds(x, y),
    ensures
        g.live_neighbors(x, y) == phase_count(
            k,
            offset(x, r, g.height as int),
            offset(y, c, g.width as int),
            g.height as int,
            g.width as int,
        ),
{
    reveal_with_fuel(Grid::offsets_sum, 10);
    lemma_glider_term(g, r, c, k, x, y, -1, -1);
    lemma_glider_term(g, r, c, k, x, y, -1, 0);
    lemma_glider_term(g, r, c, k, x, y, -1, 1);
    lemma_glider_term(g, r, c, k, x, y, 0, -1);
    lemma_glider_term(g, r, c, k, x, y, 0, 1);
    lemma_glider_term(g, r, c, k, x, y, 1, -1);
    lemma_glider_term(g, r, c, k, x, y, 1, 0);
    lemma_glider_term(g, r, c, k, x, y, 1, 1);
}

#[verifier::spinoff_prover]
proof fn lemma_glider_step(g: Grid, r: int, c: int, k: int)
    requires
        is_glider_phase(g, r, c, k),
        0 <= k < 4,
        g.height >= 5,
        g.width >= 5,
    ensures
        is_glider_phase(g.next(), r, c, k + 1),
{
    let h = g.height as int;
    let w = g.width as int;
    let n = g.next();
    assert forall|x: int, y: int| n.in_bounds(x, y) implies #[trigger] n.at(x, y) == if glider_phase(
        k + 1,
        offset(x, r, h),
        offset(y, c, w),
    ) {
        Cell::Alive
    } else {
        Cell::Dead
    } by {
        lemma_index_of(w, h, x, y);
        assert(g.at(x, y) == g.cells[index_of(w, x, y)]);
        lemma_offset_step(x, 0, r, h);
        lemma_offset_step(y, 0, c, w);
        lemma_wrap_cases(x, 0, h);
        lemma_wrap_cases(y, 0, w);
        lemma_glider_count(g, r, c, k, x, y);
        lemma_phase_table(k, offset(x, r, h), offset(y, c, w), h, w);
    }
}

/// A glider on an otherwise dead grid of at least 5 by 5, after four steps,
/// is the same shape moved one row down and one column right, across the
/// edges: each cell then holds what the cell diagonally above-left of it held.
pub proof fn lemma_glider_translation(g: Grid, r: int, c: int)
    requires
        is_glider_phase(g, r, c, 0),
        g.height >= 5,
        g.width >= 5,
    ensures
        forall|x: int, y: int|
            g.in_bounds(x, y) ==> #[trigger] g.after(4).at(x, y) == g.at(
                wrap(x, -1, g.height as int),
                wrap(y, -1, g.width as int),
            ),
{
    let h = g.height as int;
    let w = g.width as int;
    lemma_glider_step(g, r, c, 0);
    let g1 = g.next();
    lemma_glider_step(g1, r, c, 1);
    let g2 = g1.next();
    lemma_glider_step(g2, r, c, 2);
    let g3 = g2.next();
    lemma_glider_step(g3, r, c, 3);
    let g4 = g3.next();
    reveal_with_fuel(Grid::after, 5);
    assert(g.after(4) == g4);
    assert forall|x: int, y: int| g.in_bounds(x, y) implies #[trigger] g.after(4).at(x, y) == g.at(
        wrap(x, -1, h),
        wrap(y, -1, w),
    ) by {
        lemma_wrap_cases(x, -1, h);
        lemma_wrap_cases(y, -1, w);
        lemma_offset_step(x, -1, r, h);
        lemma_offset_step(y, -1, c, w);
        assert(g4.at(x, y) == g.at(wrap(x, -1, h), wrap(y, -1, w)));
    }
}

/// Drawing the glider on a dead grid of at least 5 by 5 gives phase 0 of a
/// glider anchored at the drawing point.
#[verifier::rlimit(100)]
pub proof fn lemma_drawn_glider(width: nat, height: nat, r: int, c: int)
    requires
        width >= 5,
        height >= 5,
        0 <= r < height,
        0 <= c < width,
    ensures
        is_glider_phase(dead_grid(width, height).stamped(r, c, glider_pattern()), r, c, 0),
{
    let h = height as int;
    let w = width as int;
    let g = dead_grid(width, height);
    let s = g.stamped(r, c, glider_pattern());
    reveal_with_fuel(Grid::stamped, 10);
    lemma_wrap_cases(r, -1, h);
    lemma_wrap_cases(r, 0, h);
    lemma_wrap_cases(r, 1, h);
    lemma_wrap_cases(c, -1, w);
    lemma_wrap_cases(c, 0, w);
    lemma_wrap_cases(c, 1, w);
    let rs = seq![wrap(r, -1, h), wrap(r, 0, h), wrap(r, 1, h)];
    let cs = seq![wrap(c, -1, w), wrap(c, 0, w), wrap(c, 1, w)];
    assert forall|i: int, j: int| 0 <= i < 3 && 0 <= j < 3 implies {
        let k = index_of(w, #[trigger] rs[i], #[trigger] cs[j]);
        &&& 0 <= k < w * h
        &&& k / w == rs[i]
        &&& k % w == cs[j]
    } by {
        lemma_index_of(w, h, rs[i], cs[j]);
    }
    assert(s.cells.len() == g.cells.len());
    assert forall|x: int, y: int| s.in_bounds(x, y) implies #[trigger] s.at(x, y) == if glider_phase(
        0,
        offset(x, r, h),
        offset(y, c, w),
    ) {
        Cell::Alive
    } else {
        Cell::Dead
    } by {
        lemma_index_of(w, h, x, y);
        lemma_offset_step(x, 0, r, h);
        lemma_offset_step(y, 0, c, w);
        assert(rs[0] == wrap(r, -1, h) && rs[1] == wrap(r, 0, h) && rs[2] == wrap(r, 1, h));
        assert(cs[0] == wrap(c, -1, w) && cs[1] == wrap(c, 0, w) && cs[2] == wrap(c, 1, w));
    }
}

/// Two moves along a ring add up in either order.
proof fn lemma_wrap_commute(x: int, d: int, e: int, n: int)
    requires
        n > 0,
    ensures
        wrap(wrap(x, d, n), e, n) == wrap(wrap(x, e, n), d, n),
        0 <= wrap(x, d, n) < n,
{
    vstd::arithmetic::div_mod::lemma_add_mod_noop_right(e, x + d, n);
    vstd::arithmetic::div_mod::lemma_add_mod_noop_right(d, x + e, n);
    assert(e + (x + d) == d + (x + e));
    vstd::arithmetic::div_mod::lemma_mod_bound(x + d, n);
}

/// The grid `t` is `g` moved `a` rows down and `b` columns right, across
/// the edges.
pub open spec fn is_translation(g: Grid, t: Grid, a: int, b: int) -> bool {
    &&& g.well_formed()
    &&& t.well_formed()
    &&& t.width == g.width
    &&& t.height == g.height
    &&& 0 <= a < g.height
    &&& 0 <= b < g.width
    &&& forall|r: int, c: int|
        g.in_bounds(r, c) ==> #[trigger] t.at(wrap(r, a, g.height as int), wrap(c, b, g.width as int))
            == g.at(r, c)
}

proof fn lemma_translated_neighbor(g: Grid, t: Grid, a: int, b: int, r: int, c: int, dr: int, dc: int)
    requires
        is_translation(g, t, a, b),
        g.in_bounds(r, c),
        -1 <= dr <= 1,
        -1 <= dc <= 1,
    ensures
        t.neighbor(wrap(r, a, g.height as int), wrap(c, b, g.width as int), dr, dc) == g.neighbor(
            r,
            c,
            dr,
            dc,
        ),
{
    let h = g.height as int;
    let w = g.width as int;
    lemma_wrap_commute(r, a, dr, h);
    lemma_wrap_commute(c, b, dc, w);
    lemma_wrap_cases(r, dr, h);
    lemma_wrap_cases(c, dc, w);
    assert(t.at(wrap(wrap(r, dr, h), a, h), wrap(wrap(c, dc, w), b, w)) == g.at(
        wrap(r, dr, h),
        wrap(c, dc, w),
    ));
}

/// A step commutes with moving the grid across its edges: the next
/// generation of a moved grid is the next generation of the grid, moved the
/// same way. A pattern evolves across the edges as it does inside.
pub proof fn lemma_next_commutes_with_translation(g: Grid, t: Grid, a: int, b: int)
    requires
        is_translation(g, t, a, b),
    ensures
        is_translation(g.next(), t.next(), a, b),
{
    let h = g.height as int;
    let w = g.width as int;
    assert forall|r: int, c: int| g.next().in_bounds(r, c) implies #[trigger] t.next().at(
        wrap(r, a, h),
        wrap(c, b, w),
    ) == g.next().at(r, c) by {
        let r2 = wrap(r, a, h);
        let c2 = wrap(c, b, w);
        lemma_wrap_commute(r, a, 0, h);
        lemma_wrap_commute(c, b, 0, w);
        lemma_index_of(w, h, r, c);
        lemma_index_of(w, h, r2, c2);
        assert(t.at(r2, c2) == g.at(r, c));
        lemma_translated_neighbor(g, t, a, b, r, c, -1, -1);
        lemma_translated_neighbor(g, t, a, b, r, c, -1, 0);
        lemma_translated_neighbor(g, t, a, b, r, c, -1, 1);
        lemma_translated_neighbor(g, t, a, b, r, c, 0, -1);
        lemma_translated_neighbor(g, t, a, b, r, c, 0, 1);
        lemma_translated_neighbor(g, t, a, b, r, c, 1, -1);
        lemma_translated_neighbor(g, t, a, b, r, c, 1, 0);
        lemma_translated_neighbor(g, t, a, b, r, c, 1, 1);
        reveal_with_fuel(Grid::offsets_sum, 10);
        assert(t.live_neighbors(r2, c2) == g.live_neighbors(r, c));
        assert(g.at(r, c) == g.cells[index_of(w, r, c)]);
        assert(t.at(r2, c2) == t.cells[index_of(w, r2, c2)]);
    }
}

/// `(x, y)` is one of the five live cells of a glider anchored at `(r, c)`:
/// above the anchor, right of it, and the three cells of the row below.
pub open spec fn glider_cell(x: int, y: int, r: int, c: int, h: int, w: int) -> bool {
    ||| (x == wrap(r, -1, h) && y == c)
    ||| (x == r && y == wrap(c, 1, w))
    ||| (x == wrap(r, 1, h) && y == wrap(c, -1, w))
    ||| (x == wrap(r, 1, h) && y == c)
    ||| (x == wrap(r, 1, h) && y == wrap(c, 1, w))
}

/// The live cells of `g` are exactly the five cells of a glider anchored at
/// `(r, c)`.
pub open spec fn is_glider_at(g: Grid, r: int, c: int) -> bool {
    &&& g.well_formed()
    &&& g.in_bounds(r, c)
    &&& forall|x: int, y: int|
        g.in_bounds(x, y) ==> #[trigger] g.at(x, y) == if glider_cell(
            x,
            y,
            r,
            c,
            g.height as int,
            g.width as int,
        ) {
            Cell::Alive
        } else {
            Cell::Dead
        }
}

proof fn lemma_offset_small(x: int, a: int, n: int)
    requires
        0 <= x < n,
        0 <= a < n,
        n >= 5,
    ensures
        offset(x, a, n) == -1 <==> x == wrap(a, -1, n),
        offset(x, a, n) == 0 <==> x == a,
        offset(x, a, n) == 1 <==> x == wrap(a, 1, n),
{
    lemma_wrap_cases(a, -1, n);
    lemma_wrap_cases(a, 0, n);
    lemma_wrap_cases(a, 1, n);
}

proof fn lemma_offset_anchor_step(x: int, a: int, n: int)
    requires
        0 <= x < n,
        0 <= a < n,
        n >= 5,
    ensures
        -1 <= offset(x, wrap(a, 1, n), n) <= 1 ==> offset(x, a, n) == offset(x, wrap(a, 1, n), n)
            + 1,
        0 <= offset(x, a, n) <= 2 ==> offset(x, wrap(a, 1, n), n) == offset(x, a, n) - 1,
{
    lemma_wrap_cases(a, 1, n);
}

/// The five-cell description and phase 0 of the glider agree.
proof fn lemma_glider_at_phase(g: Grid, r: int, c: int)
    requires
        g.well_formed(),
        g.in_bounds(r, c),
        g.height >= 5,
        g.width >= 5,
    ensures
        is_glider_at(g, r, c) <==> is_glider_phase(g, r, c, 0),
{
    let h = g.height as int;
    let w = g.width as int;
    assert forall|x: int, y: int| g.in_bounds(x, y) implies glider_cell(x, y, r, c, h, w)
        == glider_phase(0, offset(x, r, h), offset(y, c, w)) by {
        lemma_offset_small(x, r, h);
        lemma_offset_small(y, c, w);
    }
}

/// Two grids of the same dimensions holding a glider at the same anchor are
/// equal.
proof fn lemma_glider_unique(g1: Grid, g2: Grid, r: int, c: int)
    requires
        is_glider_at(g1, r, c),
        is_glider_at(g2, r, c),
        g1.width == g2.width,
        g1.height == g2.height,
    ensures
        g1 == g2,
{
    assert forall|i: int| 0 <= i < g1.cells.len() implies #[trigger] g1.cells[i] == g2.cells[i] by {
        lemma_position(g1, i);
        let x = i / g1.width as int;
        let y = i % g1.width as int;
        assert(g1.at(x, y) == g2.at(x, y));
    }
    assert(g1.cells =~= g2.cells);
}

/// A glider anchored anywhere on an otherwise dead grid of at least 5 by 5
/// is, after four steps, a glider anchored one row down and one column
/// right, across the edges.
pub proof fn lemma_glider_moves(g: Grid, r: int, c: int)
    requires
        is_glider_at(g, r, c),
        g.height >= 5,
        g.width >= 5,
    ensures
        is_glider_at(g.after(4), wrap(r, 1, g.height as int), wrap(c, 1, g.width as int)),
{
    let h = g.height as int;
    let w = g.width as int;
    lemma_glider_at_phase(g, r, c);
    lemma_glider_step(g, r, c, 0);
    let g1 = g.next();
    lemma_glider_step(g1, r, c, 1);
    let g2 = g1.next();
    lemma_glider_step(g2, r, c, 2);
    let g3 = g2.next();
    lemma_glider_step(g3, r, c, 3);
    let g4 = g3.next();
    reveal_with_fuel(Grid::after, 5);
    assert(g.after(4) == g4);
    let r2 = wrap(r, 1, h);
    let c2 = wrap(c, 1, w);
    lemma_wrap_cases(r, 1, h);
    lemma_wrap_cases(c, 1, w);
    assert forall|x: int, y: int| g4.in_bounds(x, y) implies #[trigger] g4.at(x, y) == if glider_phase(
        0,
        offset(x, r2, h),
        offset(y, c2, w),
    ) {
        Cell::Alive
    } else {
        Cell::Dead
    } by {
        lemma_offset_anchor_step(x, r, h);
        lemma_offset_anchor_step(y, c, w);
        lemma_offset_step(x, 0, r, h);
        lemma_offset_step(y, 0, c, w);
        lemma_offset_step(x, 0, r2, h);
        lemma_offset_step(y, 0, c2, w);
    }
    lemma_glider_at_phase(g4, r2, c2);
}

/// On a dead grid of at least 5 by 5, a glider drawn at `(r, c)` and left
/// for four steps is the glider drawn one row down and one column right,
/// across the edges.
pub proof fn lemma_drawn_glider_moves(width: nat, height: nat, r: int, c: int)
    requires
        width >= 5,
        height >= 5,
        0 <= r < height,
        0 <= c < width,
    ensures
        dead_grid(width, height).stamped(r, c, glider_pattern()).after(4) == dead_grid(
            width,
            height,
        ).stamped(wrap(r, 1, height as int), wrap(c, 1, width as int), glider_pattern()),
{
    let h = height as int;
    let w = width as int;
    let g = dead_grid(width, height).stamped(r, c, glider_pattern());
    lemma_wrap_cases(r, 1, h);
    lemma_wrap_cases(c, 1, w);
    let r2 = wrap(r, 1, h);
    let c2 = wrap(c, 1, w);
    let moved = dead_grid(width, height).stamped(r2, c2, glider_pattern());
    lemma_drawn_glider(width, height, r, c);
    lemma_drawn_glider(width, height, r2, c2);
    lemma_stamped_dims(dead_grid(width, height), r, c, glider_pattern());
    lemma_stamped_dims(dead_grid(width, height), r2, c2, glider_pattern());
    lemma_glider_at_phase(g, r, c);
    lemma_glider_at_phase(moved, r2, c2);
    lemma_glider_moves(g, r, c);
    lemma_after_dims(g, 4);
    lemma_glider_unique(g.after(4), moved, r2, c2);
}

proof fn lemma_stamped_dims(g: Grid, r: int, c: int, pattern: Seq<(i8, i8, Cell)>)
    ensures
        g.stamped(r, c, pattern).width == g.width,
        g.stamped(r, c, pattern).height == g.height,
    decreases pattern.len(),
{
    if pattern.len() > 0 {
        lemma_stamped_dims(g, r, c, pattern.drop_last());
    }
}

proof fn lemma_after_dims(g: Grid, n: nat)
    ensures
        g.after(n).width == g.width,
        g.after(n).height == g.height,
    decreases n,
{
    if n > 0 {
        lemma_after_dims(g.next(), (n - 1) as nat);
    }
}

} // verus!
