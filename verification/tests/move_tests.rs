//! The four directional move operations on concrete boards.

use grid2048::Grid;

#[test]
fn move_left_simple() {
    let mut grid = Grid::new();
    let test = vec![0, 2, 0, 0, 2, 0, 0, 0, 0, 0, 2, 0, 0, 0, 0, 2];

    grid.cells = test;

    let res = vec![2, 0, 0, 0, 2, 0, 0, 0, 2, 0, 0, 0, 2, 0, 0, 0];

    let _ = grid.move_left();

    assert_eq!(grid.cells, res);
}

#[test]
fn move_left_four_in_a_row() {
    let mut grid = Grid::new();
    let test = vec![2, 2, 2, 2, 4, 4, 4, 4, 8, 8, 8, 8, 16, 16, 16, 16];

    grid.cells = test;

    let res = vec![4, 4, 0, 0, 8, 8, 0, 0, 16, 16, 0, 0, 32, 32, 0, 0];

    let _ = grid.move_left();

    assert_eq!(grid.cells, res);
}

#[test]
fn move_left_more() {
    let mut grid = Grid::new();
    let test = vec![0, 2, 0, 4, 2, 4, 0, 0, 4, 0, 2, 0, 4, 0, 0, 2];

    grid.cells = test;

    let res = vec![2, 4, 0, 0, 2, 4, 0, 0, 4, 2, 0, 0, 4, 2, 0, 0];

    let _ = grid.move_left();

    assert_eq!(grid.cells, res);
}

#[test]
fn move_left_no_move() {
    let mut grid = Grid::new();
    let test = vec![8, 2, 16, 4, 2, 4, 16, 8, 4, 256, 2, 256, 4, 16, 8, 16];

    grid.cells = test.clone();

    let _ = grid.move_left();

    assert_eq!(grid.cells, test);
}

#[test]
fn move_right_simple() {
    let mut grid = Grid::new();
    let test = vec![0, 2, 0, 0, 2, 0, 0, 0, 0, 0, 2, 0, 0, 0, 0, 2];

    grid.cells = test;

    let res = vec![0, 0, 0, 2, 0, 0, 0, 2, 0, 0, 0, 2, 0, 0, 0, 2];

    let _ = grid.move_right();

    assert_eq!(grid.cells, res);
}

#[test]
fn move_right_four_in_a_row() {
    let mut grid = Grid::new();
    let test = vec![2, 2, 2, 2, 4, 4, 4, 4, 8, 8, 8, 8, 16, 16, 16, 16];

    grid.cells = test;

    let res = vec![0, 0, 4, 4, 0, 0, 8, 8, 0, 0, 16, 16, 0, 0, 32, 32];

    let _ = grid.move_right();

    assert_eq!(grid.cells, res);
}

#[test]
fn move_right_more() {
    let mut grid = Grid::new();
    let test = vec![0, 2, 0, 4, 2, 4, 0, 0, 4, 0, 2, 0, 4, 0, 0, 2];

    grid.cells = test;

    let res = vec![0, 0, 2, 4, 0, 0, 2, 4, 0, 0, 4, 2, 0, 0, 4, 2];

    let _ = grid.move_right();

    assert_eq!(grid.cells, res);
}

#[test]
fn move_right_no_move() {
    let mut grid = Grid::new();
    let test = vec![8, 2, 16, 4, 2, 4, 16, 8, 4, 256, 2, 256, 4, 16, 8, 16];

    grid.cells = test.clone();

    let _ = grid.move_right();

    assert_eq!(grid.cells, test);
}

#[test]
fn move_down_simple() {
    let mut grid = Grid::new();
    let test = vec![0, 2, 0, 0, 2, 0, 0, 0, 0, 0, 2, 0, 0, 0, 0, 2];

    grid.cells = test;

    let res = vec![2, 2, 2, 2, 0, 0, 0, 0, 0, 0, 0, 0, 0, 0, 0, 0];

    let _ = grid.move_down();

    assert_eq!(grid.cells, res);
}

#[test]
fn move_down_four_in_a_row() {
    let mut grid = Grid::new();
    let test = vec![2, 4, 8, 16, 2, 4, 8, 16, 2, 4, 8, 16, 2, 4, 8, 16];

    grid.cells = test;

    let res = vec![4, 8, 16, 32, 4, 8, 16, 32, 0, 0, 0, 0, 0, 0, 0, 0];

    let _ = grid.move_down();

    assert_eq!(grid.cells, res);
}

#[test]
fn move_down_more() {
    let mut grid = Grid::new();
    let test = vec![0, 2, 4, 4, 2, 4, 0, 0, 0, 0, 2, 0, 4, 0, 0, 2];

    grid.cells = test;

    let res = vec![2, 2, 4, 4, 4, 4, 2, 2, 0, 0, 0, 0, 0, 0, 0, 0];

    let _ = grid.move_down();

    assert_eq!(grid.cells, res);
}

#[test]
fn move_down_no_move() {
    let mut grid = Grid::new();
    let test = vec![8, 2, 8, 4, 2, 4, 16, 8, 4, 256, 2, 256, 8, 16, 8, 16];

    grid.cells = test.clone();

    let _ = grid.move_down();

    assert_eq!(grid.cells, test);
}

#[test]
fn move_up_simple() {
    let mut grid = Grid::new();
    let test = vec![0, 2, 0, 0, 2, 0, 0, 0, 0, 0, 2, 0, 0, 0, 0, 2];

    grid.cells = test;

    let res = vec![0, 0, 0, 0, 0, 0, 0, 0, 0, 0, 0, 0, 2, 2, 2, 2];

    let _ = grid.move_up();

    assert_eq!(grid.cells, res);
}

#[test]
fn move_up_four_in_a_row() {
    let mut grid = Grid::new();
    let test = vec![2, 4, 8, 16, 2, 4, 8, 16, 2, 4, 8, 16, 2, 4, 8, 16];

    grid.cells = test;

    let res = vec![0, 0, 0, 0, 0, 0, 0, 0, 4, 8, 16, 32, 4, 8, 16, 32];

    let _ = grid.move_up();

    assert_eq!(grid.cells, res);
}

#[test]
fn move_up_more() {
    let mut grid = Grid::new();

    let test = vec![0, 2, 4, 4, 2, 4, 0, 0, 0, 0, 2, 0, 4, 0, 0, 2];

    grid.cells = test;

    let res = vec![0, 0, 0, 0, 0, 0, 0, 0, 2, 2, 4, 4, 4, 4, 2, 2];

    let _ = grid.move_up();

    assert_eq!(grid.cells, res);
}

#[test]
fn move_up_no_move() {
    let mut grid = Grid::new();
    let test = vec![8, 2, 8, 4, 2, 4, 16, 8, 4, 256, 2, 256, 8, 16, 8, 16];

    grid.cells = test.clone();

    let _ = grid.move_up();

    assert_eq!(grid.cells, test);
}
