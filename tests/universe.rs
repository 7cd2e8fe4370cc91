use game_of_life::{Cell, GridError, Universe};

fn blank(width: u32, height: u32) -> Universe {
    let mut u = Universe::new(&vec![]);
    u.set_width(width);
    u.set_height(height);
    u
}

fn alive_cells(u: &Universe) -> Vec<(u32, u32)> {
    let mut out = Vec::new();
    for r in 0..u.height() {
        for c in 0..u.width() {
            if u.get(r, c) == Ok(Cell::Alive) {
                out.push((r, c));
            }
        }
    }
    out
}

#[test]
fn new_takes_cells_from_draws() {
    let u = Universe::new(&vec![true, false, true]);
    assert_eq!(u.width(), 64);
    assert_eq!(u.height(), 64);
    assert_eq!(u.cells().len(), 64 * 64);
    assert_eq!(u.cells()[0], Cell::Alive);
    assert_eq!(u.cells()[1], Cell::Dead);
    assert_eq!(u.cells()[2], Cell::Alive);
    assert!(u.cells()[3..].iter().all(|c| *c == Cell::Dead));
}

#[test]
fn striped_marks_multiples_of_two_and_seven() {
    let u = Universe::striped();
    let cells = u.get_cells();
    assert_eq!(cells.len(), 4096);
    assert_eq!(cells[0], Cell::Alive);
    assert_eq!(cells[1], Cell::Dead);
    assert_eq!(cells[2], Cell::Alive);
    assert_eq!(cells[7], Cell::Alive);
    assert_eq!(cells[9], Cell::Dead);
    assert_eq!(cells[21], Cell::Alive);
    assert_eq!(cells[4095], Cell::Alive);
    assert_eq!(cells[4093], Cell::Dead);
}

#[test]
fn all_dead_keeps_dimensions() {
    let mut u = Universe::striped();
    u.set_width(5);
    u.toggle_cell(1, 1).unwrap();
    let d = u.all_dead();
    assert_eq!(d.width(), 5);
    assert_eq!(d.height(), 64);
    assert_eq!(d.cells().len(), 5 * 64);
    assert!(d.cells().iter().all(|c| *c == Cell::Dead));
}

#[test]
fn corner_counts_neighbor_across_wrap() {
    let mut u = blank(3, 3);
    u.set(2, 2, Cell::Alive).unwrap();
    assert_eq!(u.live_neighbor_count(0, 0), 1);
    assert_eq!(u.live_neighbor_count(1, 1), 1);
}

#[test]
fn full_grid_has_eight_neighbors_everywhere() {
    let mut u = blank(4, 5);
    for r in 0..5 {
        for c in 0..4 {
            u.toggle_cell(r, c).unwrap();
        }
    }
    for r in 0..5 {
        for c in 0..4 {
            assert_eq!(u.live_neighbor_count(r, c), 8);
        }
    }
}

#[test]
fn neighbor_counts_symmetric_under_half_turn() {
    let mut u = blank(5, 5);
    u.set_cells(&[(0, 0), (4, 4), (1, 2), (3, 2)]).unwrap();
    for r in 0..5 {
        for c in 0..5 {
            assert_eq!(u.live_neighbor_count(r, c), u.live_neighbor_count(4 - r, 4 - c));
        }
    }
}

#[test]
fn block_is_still_life() {
    let mut u = blank(6, 6);
    u.set_cells(&[(2, 2), (2, 3), (3, 2), (3, 3)]).unwrap();
    let before = u.cells().to_vec();
    u.tick();
    assert_eq!(u.cells(), &before[..]);
}

#[test]
fn block_is_still_on_smallest_grid() {
    let mut u = blank(3, 3);
    u.set_cells(&[(2, 2), (2, 0), (0, 2), (0, 0)]).unwrap();
    let before = u.cells().to_vec();
    u.tick();
    assert_eq!(u.cells(), &before[..]);
}

#[test]
fn blinker_has_period_two() {
    let mut u = blank(5, 5);
    u.set_cells(&[(2, 1), (2, 2), (2, 3)]).unwrap();
    let before = u.cells().to_vec();
    u.tick();
    assert_eq!(alive_cells(&u), vec![(1, 2), (2, 2), (3, 2)]);
    assert_ne!(u.cells(), &before[..]);
    u.tick();
    assert_eq!(u.cells(), &before[..]);
}

#[test]
fn lonely_cell_dies_and_three_give_birth() {
    let mut u = blank(5, 5);
    u.set(0, 0, Cell::Alive).unwrap();
    u.tick();
    assert!(u.cells().iter().all(|c| *c == Cell::Dead));
    u.set_cells(&[(1, 1), (1, 3), (3, 2)]).unwrap();
    u.tick();
    assert_eq!(alive_cells(&u), vec![(2, 2)]);
}

#[test]
fn crowded_cell_dies() {
    let mut u = blank(5, 5);
    u.set_cells(&[(2, 2), (1, 1), (1, 2), (1, 3), (2, 1)]).unwrap();
    u.tick();
    assert_eq!(u.get(2, 2), Ok(Cell::Dead));
}

#[test]
fn glider_shape() {
    let mut u = blank(6, 6);
    u.draw_glider(2, 2).unwrap();
    assert_eq!(alive_cells(&u), vec![(1, 2), (2, 3), (3, 1), (3, 2), (3, 3)]);
}

#[test]
fn glider_drawn_across_corner() {
    let mut u = blank(6, 6);
    u.draw_glider(0, 0).unwrap();
    assert_eq!(alive_cells(&u), vec![(0, 1), (1, 0), (1, 1), (1, 5), (5, 0)]);
}

#[test]
fn glider_moves_one_diagonal_in_four_ticks() {
    for &(w, h, r, c) in &[(8u32, 8u32, 2u32, 2u32), (8, 8, 0, 0), (7, 9, 6, 5), (5, 5, 4, 4)] {
        let mut u = blank(w, h);
        u.draw_glider(r, c).unwrap();
        let before = alive_cells(&u);
        for _ in 0..4 {
            u.tick();
        }
        let mut expected: Vec<(u32, u32)> =
            before.iter().map(|&(r, c)| ((r + 1) % h, (c + 1) % w)).collect();
        expected.sort();
        assert_eq!(alive_cells(&u), expected);
    }
}

#[test]
fn stamp_pattern_writes_in_order() {
    let mut u = blank(4, 4);
    u.stamp_pattern(0, 0, &[(0, -1, Cell::Alive), (-1, 0, Cell::Alive), (0, -1, Cell::Dead)])
        .unwrap();
    assert_eq!(alive_cells(&u), vec![(3, 0)]);
}

#[test]
fn draw_glider_bounds_and_empty_grid() {
    let mut u = blank(6, 6);
    assert_eq!(u.draw_glider(6, 0), Err(GridError::OutOfBounds));
    assert_eq!(u.draw_glider(0, 6), Err(GridError::OutOfBounds));
    assert!(u.cells().iter().all(|c| *c == Cell::Dead));
    let mut e = blank(0, 6);
    assert_eq!(e.draw_glider(0, 0), Ok(()));
    assert_eq!(e.cells().len(), 0);
}

#[test]
fn resize_clears_every_cell() {
    let mut u = Universe::striped();
    u.set_width(5);
    assert_eq!(u.width(), 5);
    assert_eq!(u.cells().len(), 5 * 64);
    assert!(u.cells().iter().all(|c| *c == Cell::Dead));
    u.toggle_cell(0, 0).unwrap();
    u.set_height(3);
    assert_eq!(u.height(), 3);
    assert_eq!(u.cells().len(), 15);
    assert!(u.cells().iter().all(|c| *c == Cell::Dead));
}

#[test]
fn toggle_twice_restores_cell() {
    let mut u = Universe::striped();
    let before = u.cells().to_vec();
    u.toggle_cell(3, 5).unwrap();
    assert_ne!(u.cells(), &before[..]);
    assert_eq!(u.get(3, 5), Ok(Cell::Alive));
    u.toggle_cell(3, 5).unwrap();
    assert_eq!(u.cells(), &before[..]);
}

#[test]
fn cell_toggle_flips() {
    let mut c = Cell::Dead;
    c.toggle();
    assert_eq!(c, Cell::Alive);
    c.toggle();
    assert_eq!(c, Cell::Dead);
}

#[test]
fn out_of_bounds_is_refused_without_change() {
    let mut u = blank(4, 3);
    u.set(1, 1, Cell::Alive).unwrap();
    let before = u.cells().to_vec();
    assert_eq!(u.toggle_cell(3, 0), Err(GridError::OutOfBounds));
    assert_eq!(u.toggle_cell(0, 4), Err(GridError::OutOfBounds));
    assert_eq!(u.set(3, 0, Cell::Alive), Err(GridError::OutOfBounds));
    assert_eq!(u.set(0, 4, Cell::Alive), Err(GridError::OutOfBounds));
    assert_eq!(u.get(3, 0), Err(GridError::OutOfBounds));
    assert_eq!(u.get(0, 4), Err(GridError::OutOfBounds));
    assert_eq!(u.cells(), &before[..]);
}

#[test]
fn set_cells_marks_listed_and_keeps_others() {
    let mut u = blank(4, 4);
    u.set(0, 0, Cell::Alive).unwrap();
    u.set_cells(&[(1, 2), (3, 3), (1, 2)]).unwrap();
    assert_eq!(alive_cells(&u), vec![(0, 0), (1, 2), (3, 3)]);
    let before = u.cells().to_vec();
    assert_eq!(u.set_cells(&[(2, 2), (4, 0)]), Err(GridError::OutOfBounds));
    assert_eq!(u.cells(), &before[..]);
}

#[test]
fn render_draws_one_line_per_row() {
    let mut u = blank(3, 2);
    u.set(0, 0, Cell::Alive).unwrap();
    u.set(1, 2, Cell::Alive).unwrap();
    assert_eq!(u.render(), "\u{2639}\u{263B}\u{263B}\n\u{263B}\u{263B}\u{2639}\n");
    assert_eq!(Cell::Alive.glyph(), '\u{2639}');
    assert_eq!(blank(0, 2).render(), "\n\n");
    assert_eq!(blank(2, 0).render(), "");
}

#[test]
fn tick_on_empty_grid_is_no_op() {
    let mut u = blank(0, 5);
    u.tick();
    assert_eq!(u.cells().len(), 0);
    let mut v = blank(5, 0);
    v.tick();
    assert_eq!(v.cells().len(), 0);
}

#[test]
fn tick_commutes_with_wrapped_shift() {
    let (w, h, a, b) = (6u32, 5u32, 3u32, 2u32);
    let pattern = [(0u32, 0u32), (0, 1), (1, 5), (2, 2), (3, 3), (4, 4), (4, 0), (2, 3)];
    let mut u1 = blank(w, h);
    let mut u2 = blank(w, h);
    u1.set_cells(&pattern).unwrap();
    let moved: Vec<(u32, u32)> = pattern.iter().map(|&(r, c)| ((r + a) % h, (c + b) % w)).collect();
    u2.set_cells(&moved).unwrap();
    u1.tick();
    u2.tick();
    for r in 0..h {
        for c in 0..w {
            assert_eq!(u2.get((r + a) % h, (c + b) % w), u1.get(r, c));
        }
    }
}

#[test]
fn drawn_glider_equals_glider_drawn_one_diagonal_on() {
    for &(w, h, r, c) in &[(5u32, 5u32, 0u32, 0u32), (6, 7, 5, 2), (9, 8, 3, 8)] {
        let mut u = blank(w, h);
        u.draw_glider(r, c).unwrap();
        for _ in 0..4 {
            u.tick();
        }
        let mut v = blank(w, h);
        v.draw_glider((r + 1) % h, (c + 1) % w).unwrap();
        assert_eq!(u.cells(), v.cells());
    }
}
