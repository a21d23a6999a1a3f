use life_core::board::{i_to_xy, rasterize_line, Board, VecU2};
use life_core::rule::Rule;

fn conway() -> Rule {
    Rule::parse("23/3").unwrap()
}

fn live_cells(b: &Board) -> Vec<(usize, usize)> {
    let mut out = Vec::new();
    for y in 0..b.height() {
        for x in 0..b.width() {
            if b.get(x, y) == Some(true) {
                out.push((x, y));
            }
        }
    }
    out
}

#[test]
fn new_board_is_dead() {
    let b = Board::new(4, 3);
    assert_eq!(b.wh(), (4, 3));
    assert_eq!(live_cells(&b), vec![]);
}

#[test]
fn get_and_set_respect_bounds() {
    let mut b = Board::new(3, 3);
    b.set(1, 2, true);
    assert_eq!(b.get(1, 2), Some(true));
    assert_eq!(b.get(3, 2), None);
    b.set(9, 9, true);
    assert_eq!(live_cells(&b), vec![(1, 2)]);
    assert_eq!(b.try_set(1, 1, true), Some(()));
    assert_eq!(b.try_set(3, 1, true), None);
    assert!(!b.get_or_empty(-1, 0));
    assert!(!b.get_or_empty(0, -1));
    assert!(b.get_or_empty(1, 2));
}

#[test]
fn blinker_oscillates_with_period_two() {
    let mut b = Board::new(5, 5);
    b.set(1, 2, true);
    b.set(2, 2, true);
    b.set(3, 2, true);
    let rule = conway();
    b.advance(&rule);
    assert_eq!(live_cells(&b), vec![(2, 1), (2, 2), (2, 3)]);
    b.advance(&rule);
    assert_eq!(live_cells(&b), vec![(1, 2), (2, 2), (3, 2)]);
}

#[test]
fn block_is_a_still_life() {
    let mut b = Board::new(4, 4);
    for (x, y) in [(1, 1), (2, 1), (1, 2), (2, 2)] {
        b.set(x, y, true);
    }
    for (x, y) in [(1, 1), (2, 1), (1, 2), (2, 2)] {
        assert_eq!(b.count_neighbors(x, y), 3);
    }
    b.advance(&conway());
    assert_eq!(live_cells(&b), vec![(1, 1), (2, 1), (1, 2), (2, 2)]);
}

#[test]
fn lone_corner_cell_dies() {
    for side in [1usize, 2, 5, 9] {
        let mut b = Board::new(side, side);
        b.set(0, 0, true);
        assert_eq!(b.count_neighbors(0, 0), 0);
        b.advance(&conway());
        assert_eq!(live_cells(&b), vec![]);
    }
}

#[test]
fn advance_is_deterministic() {
    let build = || {
        let mut b = Board::new(6, 6);
        b.set(1, 1, true);
        b.set(2, 1, true);
        b.set(3, 1, true);
        b.set(3, 2, true);
        b.set(2, 3, true);
        b
    };
    let rule = conway();
    let mut a = build();
    let mut b = build();
    a.advance(&rule);
    b.advance(&rule);
    assert_eq!(live_cells(&a), live_cells(&b));
}

#[test]
fn advance_on_empty_board_is_a_no_op() {
    let mut b = Board::new(0, 0);
    b.advance(&conway());
    assert_eq!(b.wh(), (0, 0));
}

#[test]
fn neighbor_count_reaches_eight() {
    let mut b = Board::new(3, 3);
    for y in 0..3 {
        for x in 0..3 {
            b.set(x, y, true);
        }
    }
    assert_eq!(b.count_neighbors(1, 1), 8);
    assert_eq!(b.count_neighbors(0, 0), 3);
}

#[test]
fn draw_line_horizontal_sets_exactly_four_cells() {
    let mut b = Board::new(5, 5);
    b.draw_line(0, 0, 3, 0, true);
    assert_eq!(live_cells(&b), vec![(0, 0), (1, 0), (2, 0), (3, 0)]);
}

#[test]
fn draw_line_is_direction_independent_on_axes() {
    let mut a = Board::new(5, 5);
    a.draw_line(1, 1, 1, 4, true);
    assert_eq!(live_cells(&a), vec![(1, 1), (1, 2), (1, 3), (1, 4)]);
    let mut c = Board::new(5, 5);
    c.draw_line(4, 4, 0, 0, true);
    assert_eq!(live_cells(&c), vec![(0, 0), (1, 1), (2, 2), (3, 3), (4, 4)]);
}

#[test]
fn draw_line_diagonal_fills_the_walk() {
    let mut b = Board::new(4, 4);
    b.draw_line(0, 0, 2, 2, true);
    assert_eq!(live_cells(&b), vec![(0, 0), (1, 1), (2, 2)]);
}

#[test]
fn draw_line_steep_diagonal_follows_the_error_walk() {
    let mut b = Board::new(4, 4);
    b.draw_line(0, 0, 1, 3, true);
    assert_eq!(live_cells(&b), vec![(0, 0), (0, 1), (1, 2), (1, 3)]);
}

#[test]
fn rasterize_line_is_a_fixed_function_of_the_endpoints() {
    assert_eq!(rasterize_line(5, 1, 2, 7), rasterize_line(5, 1, 2, 7));
    assert_eq!(rasterize_line(0, 0, 3, 2), vec![(0, 0), (1, 1), (2, 1), (3, 2), (3, 2)]);
}

#[test]
fn rasterize_line_includes_endpoints() {
    let pts = rasterize_line(0, 0, 3, 2);
    assert!(pts.contains(&(0, 0)));
    assert!(pts.contains(&(3, 2)));
    for (x, y) in pts {
        assert!(x <= 3 && y <= 2);
    }
}

#[test]
fn crop_strips_dead_borders() {
    let mut b = Board::new(5, 5);
    b.set(2, 2, true);
    b.set(3, 3, true);
    b.crop();
    assert_eq!(b.wh(), (2, 2));
    assert_eq!(live_cells(&b), vec![(0, 0), (1, 1)]);
}

#[test]
fn crop_twice_is_crop_once() {
    let mut b = Board::new(7, 6);
    b.set(2, 1, true);
    b.set(4, 3, true);
    b.crop();
    let once_dims = b.wh();
    let once_cells = live_cells(&b);
    b.crop();
    assert_eq!(b.wh(), once_dims);
    assert_eq!(live_cells(&b), once_cells);
}

#[test]
fn crop_of_all_dead_board_is_empty() {
    let mut b = Board::new(4, 4);
    b.crop();
    assert_eq!(b.wh(), (0, 0));
}

#[test]
fn resize_recenters_cells() {
    let mut b = Board::new(4, 4);
    b.set(2, 2, true);
    b.set_wh(6, 6);
    assert_eq!(b.wh(), (6, 6));
    assert_eq!(live_cells(&b), vec![(3, 3)]);
}

#[test]
fn resize_drops_cells_outside() {
    let mut b = Board::new(4, 4);
    b.set(0, 0, true);
    b.set(2, 2, true);
    b.set_wh(2, 2);
    assert_eq!(b.wh(), (2, 2));
    assert_eq!(live_cells(&b), vec![(1, 1)]);
}

#[test]
fn set_area_overwrites_a_rectangle() {
    let mut b = Board::new(4, 4);
    b.set(0, 0, true);
    let patch = grid::Grid::from_vec(vec![true, false, false, true], 2);
    b.set_area(VecU2::new(1, 1), &patch);
    assert_eq!(live_cells(&b), vec![(0, 0), (1, 1), (2, 2)]);
}

#[test]
fn set_area_skips_cells_outside_the_board() {
    let mut b = Board::new(3, 3);
    let patch = grid::Grid::from_vec(vec![true, true, true, true], 2);
    b.set_area(VecU2::new(2, 2), &patch);
    assert_eq!(live_cells(&b), vec![(2, 2)]);
}

#[test]
fn clear_keeps_dimensions() {
    let mut b = Board::new(3, 2);
    b.set(1, 1, true);
    b.clear();
    assert_eq!(b.wh(), (3, 2));
    assert_eq!(live_cells(&b), vec![]);
}

#[test]
fn cells_round_trips_through_from_cells() {
    let mut b = Board::new(3, 2);
    b.set(1, 0, true);
    b.set(2, 1, true);
    let flat = b.cells();
    assert_eq!(flat, vec![false, true, false, false, false, true]);
    let back = Board::from_cells(flat, 3).unwrap();
    assert_eq!(back.wh(), (3, 2));
    assert_eq!(live_cells(&back), vec![(1, 0), (2, 1)]);
    assert!(Board::from_cells(vec![true, true, true], 2).is_none());
}

#[test]
fn index_splits_row_major() {
    assert_eq!(i_to_xy(4, 10), (2, 2));
    let b = Board::new(4, 4);
    assert_eq!(b.i_to_xy(7), (3, 1));
}
