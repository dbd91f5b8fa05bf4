//! The engine's records, score deltas, spawning, terminal-state queries,
//! and concrete instances of the structural laws.

use grid2048::Coord;
use grid2048::Grid;
use grid2048::score_to_colour;

fn count_nonzero(cells: &[usize]) -> usize {
    cells.iter().filter(|&&v| v != 0).count()
}

fn sorted_nonzero(cells: &[usize]) -> Vec<usize> {
    let mut v: Vec<usize> = cells.iter().copied().filter(|&v| v != 0).collect();
    v.sort();
    v
}

#[test]
fn new_board_is_empty() {
    let grid = Grid::new();
    assert_eq!(grid.cells, vec![0; 16]);
    assert!(grid.has_empty_cells());
    assert_eq!(grid.max_value(), 0);
    assert!(!grid.has_legal_move());
}

#[test]
fn default_board_is_empty() {
    let grid = Grid::default();
    assert_eq!(grid.cells, vec![0; 16]);
}

#[test]
fn move_left_scatter_scores_zero() {
    let mut grid = Grid::new();
    grid.cells = vec![0, 2, 0, 0, 2, 0, 0, 0, 0, 0, 2, 0, 0, 0, 0, 2];
    let (records, score) = grid.move_left();
    assert_eq!(grid.cells, vec![2, 0, 0, 0, 2, 0, 0, 0, 2, 0, 0, 0, 2, 0, 0, 0]);
    assert_eq!(score, 0);
    assert_eq!(
        records,
        vec![
            (Coord { x: 1, y: 0 }, Coord { x: 0, y: 0 }),
            (Coord { x: 2, y: 2 }, Coord { x: 0, y: 2 }),
            (Coord { x: 3, y: 3 }, Coord { x: 0, y: 3 }),
        ]
    );
}

#[test]
fn move_left_full_rows_scores_every_merge() {
    // Each row of four equal tiles merges twice: the row of 2s creates
    // two 4s, and so on, for 8 + 16 + 32 + 64 in all.
    let mut grid = Grid::new();
    grid.cells = vec![2, 2, 2, 2, 4, 4, 4, 4, 8, 8, 8, 8, 16, 16, 16, 16];
    let (records, score) = grid.move_left();
    assert_eq!(grid.cells, vec![4, 4, 0, 0, 8, 8, 0, 0, 16, 16, 0, 0, 32, 32, 0, 0]);
    assert_eq!(score, 120);
    assert_eq!(records.len(), 12);
}

#[test]
fn move_left_blocked_board_reports_nothing() {
    let mut grid = Grid::new();
    let test = vec![8, 2, 16, 4, 2, 4, 16, 8, 4, 256, 2, 256, 4, 16, 8, 16];
    grid.cells = test.clone();
    let (records, score) = grid.move_left();
    assert_eq!(grid.cells, test);
    assert!(records.is_empty());
    assert_eq!(score, 0);
}

#[test]
fn move_up_scenario() {
    let mut grid = Grid::new();
    grid.cells = vec![0, 2, 4, 4, 2, 4, 0, 0, 0, 0, 2, 0, 4, 0, 0, 2];
    let _ = grid.move_up();
    assert_eq!(grid.cells, vec![0, 0, 0, 0, 0, 0, 0, 0, 2, 2, 4, 4, 4, 4, 2, 2]);
}

#[test]
fn merged_destination_is_inert() {
    // The third equal tile may not land on a cell that already absorbed a
    // merge this move: it stays where it was.
    let mut grid = Grid::new();
    grid.cells = vec![0, 2, 2, 4, 0, 0, 0, 0, 0, 0, 0, 0, 0, 0, 0, 0];
    let (records, score) = grid.move_left();
    assert_eq!(grid.cells, vec![4, 0, 0, 4, 0, 0, 0, 0, 0, 0, 0, 0, 0, 0, 0, 0]);
    assert_eq!(score, 4);
    assert_eq!(records.len(), 2);
}

#[test]
fn three_equal_tiles_merge_once() {
    // Only the pair nearest the edge merges; the destination then blocks.
    let mut grid = Grid::new();
    grid.cells = vec![2, 2, 2, 0, 0, 0, 0, 0, 0, 0, 0, 0, 0, 0, 0, 0];
    let (_, score) = grid.move_left();
    assert_eq!(grid.cells, vec![4, 2, 0, 0, 0, 0, 0, 0, 0, 0, 0, 0, 0, 0, 0, 0]);
    assert_eq!(score, 4);
}

#[test]
fn conservation_of_values() {
    // Non-zero values before the move, with the merged pair replaced by
    // its sum, are exactly the non-zero values after the move.
    let mut grid = Grid::new();
    grid.cells = vec![2, 2, 4, 0, 8, 0, 8, 16, 0, 0, 2, 0, 32, 4, 0, 4];
    let before = sorted_nonzero(&grid.cells);
    assert_eq!(before, vec![2, 2, 2, 4, 4, 4, 8, 8, 16, 32]);
    let _ = grid.move_left();
    // merges: the pair of 2s makes a 4, the pair of 8s a 16, the pair of 4s an 8
    assert_eq!(sorted_nonzero(&grid.cells), vec![2, 4, 4, 8, 16, 16, 32]);
}

#[test]
fn max_value_is_monotonic_over_moves() {
    let mut grid = Grid::new();
    grid.cells = vec![2, 2, 4, 0, 8, 0, 8, 16, 0, 0, 2, 0, 32, 4, 0, 4];
    let before = grid.max_value();
    let _ = grid.move_left();
    assert!(grid.max_value() >= before);
    assert_eq!(grid.max_value(), 32);
}

#[test]
fn left_then_right_does_not_add_tiles() {
    let mut grid = Grid::new();
    grid.cells = vec![2, 2, 4, 0, 8, 0, 8, 16, 0, 0, 2, 0, 32, 4, 0, 4];
    let before = count_nonzero(&grid.cells);
    let _ = grid.move_left();
    let _ = grid.move_right();
    assert!(count_nonzero(&grid.cells) <= before);
}

#[test]
fn no_op_move_keeps_board_bit_for_bit() {
    let mut grid = Grid::new();
    let test = vec![8, 2, 16, 4, 2, 4, 16, 8, 4, 256, 2, 256, 4, 16, 8, 16];
    grid.cells = test.clone();
    let (records, _) = grid.move_right();
    assert!(records.is_empty());
    assert_eq!(grid.cells, test);
}

#[test]
fn has_legal_move_false_when_locked() {
    // No empty cell and no two adjacent equal cells in any row or column.
    let mut grid = Grid::new();
    grid.cells = vec![2, 4, 2, 4, 4, 2, 4, 2, 2, 4, 2, 4, 4, 2, 4, 2];
    assert!(!grid.has_legal_move());
    assert!(!grid.has_empty_cells());
}

#[test]
fn has_legal_move_true_with_adjacent_pair() {
    let mut grid = Grid::new();
    grid.cells = vec![2, 2, 4, 8, 4, 8, 16, 4, 8, 4, 2, 8, 4, 8, 4, 2];
    assert!(grid.has_legal_move());
}

#[test]
fn has_legal_move_does_not_touch_the_board() {
    let mut grid = Grid::new();
    let test = vec![2, 2, 4, 8, 0, 8, 16, 4, 8, 4, 2, 8, 4, 8, 4, 2];
    grid.cells = test.clone();
    let _ = grid.has_legal_move();
    assert_eq!(grid.cells, test);
}

#[test]
fn max_value_finds_the_single_2048() {
    let mut grid = Grid::new();
    grid.cells = vec![0, 0, 0, 0, 0, 0, 2048, 0, 0, 0, 0, 0, 0, 0, 0, 0];
    assert_eq!(grid.max_value(), 2048);
}

#[test]
fn has_empty_cells_on_full_board() {
    let mut grid = Grid::new();
    grid.cells = vec![2; 16];
    assert!(!grid.has_empty_cells());
    grid.cells[7] = 0;
    assert!(grid.has_empty_cells());
}

#[test]
fn spawn_tile_fills_chosen_empty_cell() {
    let mut grid = Grid::new();
    grid.cells = vec![2, 0, 2, 0, 0, 2, 2, 2, 2, 2, 2, 2, 2, 2, 2, 2];
    // empty cells in row-major order: 1, 3, 4
    let c = grid.spawn_tile(1, false);
    assert_eq!(c, Coord { x: 3, y: 0 });
    assert_eq!(grid.cells[3], 2);
    let c = grid.spawn_tile(1, true);
    assert_eq!(c, Coord { x: 0, y: 1 });
    assert_eq!(grid.cells[4], 4);
    let c = grid.spawn_tile(0, false);
    assert_eq!(c, Coord { x: 1, y: 0 });
    assert_eq!(grid.cells[1], 2);
    assert!(!grid.has_empty_cells());
}

#[test]
fn add_random_tile_fills_the_last_hole() {
    let mut grid = Grid::new();
    grid.cells = vec![2; 16];
    grid.cells[11] = 0;
    let c = grid.add_random_tile();
    assert_eq!(c, Some(Coord { x: 3, y: 2 }));
    assert!(grid.cells[11] == 2 || grid.cells[11] == 4);
    assert!(!grid.has_empty_cells());
}

#[test]
fn add_random_tile_on_full_board_returns_none() {
    let mut grid = Grid::new();
    let test = vec![2, 4, 2, 4, 4, 2, 4, 2, 2, 4, 2, 4, 4, 2, 4, 2];
    grid.cells = test.clone();
    assert_eq!(grid.add_random_tile(), None);
    assert_eq!(grid.cells, test);
}

#[test]
fn add_random_tile_changes_exactly_one_empty_cell() {
    let mut grid = Grid::new();
    let c = grid.add_random_tile().expect("an empty board has room");
    let idx = (c.y * 4 + c.x) as usize;
    assert!(idx < 16);
    for (i, &v) in grid.cells.iter().enumerate() {
        if i == idx {
            assert!(v == 2 || v == 4);
        } else {
            assert_eq!(v, 0);
        }
    }
}

#[test]
fn index_helpers_agree() {
    assert_eq!(Grid::index_2d(3, 2, 4, 4), 11);
    assert_eq!(Grid::index_2d(0, 0, 4, 4), 0);
    let c = Grid::index_to_coord(11, 4, 4);
    assert_eq!(c, Coord { x: 3, y: 2 });
    let c = Grid::index_to_coord(4, 4, 4);
    assert_eq!(c, Coord { x: 0, y: 1 });
}

#[test]
fn tile_colours() {
    assert_eq!(score_to_colour(0), 0xcdc1b4);
    assert_eq!(score_to_colour(2), 0xeee4da);
    assert_eq!(score_to_colour(2048), 0xedc22e);
    assert_eq!(score_to_colour(4096), 0xff00ff);
    assert_eq!(score_to_colour(3), 0xff00ff);
}
