use std::collections::HashSet;

use tetris::game::shape::{Cell, Piece, Shape};
use tetris::game::tetris::{Direction, Tetris, TetrisBoard};

fn falling(board: &TetrisBoard) -> HashSet<Cell> {
    board.current_piece().iter_positions().into_iter().collect()
}

fn landed(board: &TetrisBoard) -> Vec<HashSet<Cell>> {
    board
        .landed_pieces()
        .iter()
        .map(|piece| piece.iter_positions().into_iter().collect())
        .collect()
}

fn all_landed(board: &TetrisBoard) -> HashSet<Cell> {
    landed(board).into_iter().flatten().collect()
}

fn points(list: &[(i32, i32)]) -> HashSet<Cell> {
    list.iter().map(|&(x, y)| Cell(x, y)).collect()
}

fn shape_number(n: u32) -> Shape {
    Shape::from_index((n % 7) as i32)
}

#[test]
fn new_board_spawns_in_the_middle() {
    let board = TetrisBoard::new_with(10, 20, Shape::I);
    assert!(board.alive());
    assert_eq!(board.board_size(), (10, 20));
    assert_eq!(falling(&board), points(&[(4, 0), (5, 0), (6, 0), (7, 0)]));
    assert_eq!(board.current_piece().pivot(), Cell(5, 0));
    assert!(board.landed_pieces().is_empty());
    assert_eq!(board.get(Cell(4, 0)), Some(Shape::I));
    assert_eq!(board.get(Cell(3, 0)), None);
    assert_eq!(board.get(Cell(4, 1)), None);
}

#[test]
fn spawn_column_rounds_toward_zero() {
    let o = [(0, 0), (1, 0), (0, 1), (1, 1)];
    for (width, column) in [
        (1, 0),
        (2, 0),
        (3, 1),
        (4, 1),
        (9, 4),
        (0, 0),
        (-1, -1),
        (-2, -1),
        (-3, -2),
        (i32::MAX, 1073741823),
        (i32::MIN, -1073741824),
    ] {
        let board = TetrisBoard::new_with(width, 5, Shape::O);
        let expected: HashSet<Cell> = o.iter().map(|&(x, y)| Cell(x + column, y)).collect();
        assert_eq!(falling(&board), expected);
        assert!(board.alive());
    }
}

#[test]
fn new_default_is_ten_by_twenty() {
    let board = TetrisBoard::new_default();
    assert_eq!(board.board_size(), (10, 20));
    assert!(board.alive());
    assert!(board.landed_pieces().is_empty());
    let shape = board.current_piece().shape();
    let expected = Piece::new(shape).translate(Cell(4, 0));
    let expected: HashSet<Cell> = expected.iter_positions().into_iter().collect();
    assert_eq!(falling(&board), expected);
    assert!(!board.is_out_of_bounds(board.current_piece()));
}

#[test]
fn new_takes_the_given_size() {
    let board = TetrisBoard::new(7, 9);
    assert_eq!(board.board_size(), (7, 9));
    assert!(board.alive());
    let shape = board.current_piece().shape();
    let expected: HashSet<Cell> =
        Piece::new(shape).translate(Cell(3, 0)).iter_positions().into_iter().collect();
    assert_eq!(falling(&board), expected);
}

#[test]
fn tick_moves_the_piece_down_by_one() {
    let mut board = TetrisBoard::new_with(10, 20, Shape::T);
    board.tick_with(Shape::O);
    assert_eq!(falling(&board), points(&[(4, 1), (5, 1), (6, 1), (5, 2)]));
    assert_eq!(board.current_piece().pivot(), Cell(5, 1));
    assert!(board.landed_pieces().is_empty());
    assert!(board.alive());
}

#[test]
fn piece_lands_at_the_bottom_and_the_next_enters() {
    let mut board = TetrisBoard::new_with(10, 20, Shape::O);
    for _ in 0..18 {
        board.tick_with(Shape::T);
    }
    assert_eq!(falling(&board), points(&[(4, 18), (5, 18), (4, 19), (5, 19)]));
    assert!(board.landed_pieces().is_empty());
    board.tick_with(Shape::T);
    assert_eq!(landed(&board), vec![points(&[(4, 18), (5, 18), (4, 19), (5, 19)])]);
    assert_eq!(falling(&board), points(&[(4, 0), (5, 0), (6, 0), (5, 1)]));
    assert_eq!(board.current_piece().shape(), Shape::T);
    assert_eq!(board.get(Cell(4, 19)), Some(Shape::O));
    assert_eq!(board.get(Cell(5, 1)), Some(Shape::T));
    assert!(board.alive());
}

#[test]
fn piece_lands_on_a_landed_piece() {
    let mut board = TetrisBoard::new_with(10, 20, Shape::O);
    for _ in 0..19 {
        board.tick_with(Shape::O);
    }
    for _ in 0..16 {
        board.tick_with(Shape::I);
    }
    assert_eq!(falling(&board), points(&[(4, 16), (5, 16), (4, 17), (5, 17)]));
    board.tick_with(Shape::I);
    assert_eq!(
        landed(&board),
        vec![
            points(&[(4, 18), (5, 18), (4, 19), (5, 19)]),
            points(&[(4, 16), (5, 16), (4, 17), (5, 17)])
        ]
    );
    assert_eq!(board.current_piece().shape(), Shape::I);
}

#[test]
fn shift_moves_one_column() {
    let mut board = TetrisBoard::new_with(10, 20, Shape::O);
    board.shift(Direction::Left);
    assert_eq!(falling(&board), points(&[(3, 0), (4, 0), (3, 1), (4, 1)]));
    assert_eq!(board.current_piece().pivot(), Cell(3, 0));
    board.shift(Direction::Right);
    board.shift(Direction::Right);
    assert_eq!(falling(&board), points(&[(5, 0), (6, 0), (5, 1), (6, 1)]));
}

#[test]
fn shift_into_the_wall_changes_nothing() {
    let mut board = TetrisBoard::new_with(10, 20, Shape::O);
    for _ in 0..4 {
        board.shift(Direction::Left);
    }
    assert_eq!(falling(&board), points(&[(0, 0), (1, 0), (0, 1), (1, 1)]));
    let pivot = board.current_piece().pivot();
    board.shift(Direction::Left);
    assert_eq!(falling(&board), points(&[(0, 0), (1, 0), (0, 1), (1, 1)]));
    assert_eq!(board.current_piece().pivot(), pivot);
    assert!(board.alive());
    for _ in 0..20 {
        board.shift(Direction::Right);
    }
    assert_eq!(falling(&board), points(&[(8, 0), (9, 0), (8, 1), (9, 1)]));
}

#[test]
fn shift_into_a_landed_piece_changes_nothing() {
    let mut board = TetrisBoard::new_with(10, 20, Shape::O);
    for _ in 0..19 {
        board.tick_with(Shape::O);
    }
    board.shift(Direction::Right);
    board.shift(Direction::Right);
    for _ in 0..18 {
        board.tick_with(Shape::O);
    }
    assert_eq!(falling(&board), points(&[(6, 18), (7, 18), (6, 19), (7, 19)]));
    let pivot = board.current_piece().pivot();
    let before = landed(&board);
    board.shift(Direction::Left);
    assert_eq!(falling(&board), points(&[(6, 18), (7, 18), (6, 19), (7, 19)]));
    assert_eq!(board.current_piece().pivot(), pivot);
    assert_eq!(landed(&board), before);
}

#[test]
fn rotate_turns_the_piece_when_there_is_room() {
    let mut board = TetrisBoard::new_with(10, 20, Shape::I);
    // at the top the turned piece would reach row -1
    board.rotate();
    assert_eq!(falling(&board), points(&[(4, 0), (5, 0), (6, 0), (7, 0)]));
    board.tick_with(Shape::O);
    board.rotate();
    assert_eq!(falling(&board), points(&[(5, 0), (5, 1), (5, 2), (5, 3)]));
    assert_eq!(board.current_piece().pivot(), Cell(5, 1));
    assert_eq!(board.current_piece().shape(), Shape::I);
}

#[test]
fn rotate_into_a_landed_piece_changes_nothing() {
    let mut board = TetrisBoard::new_with(10, 20, Shape::O);
    for _ in 0..19 {
        board.tick_with(Shape::I);
    }
    // the I piece falls until it lies on the landed O
    for _ in 0..17 {
        board.tick_with(Shape::O);
    }
    assert_eq!(falling(&board), points(&[(4, 17), (5, 17), (6, 17), (7, 17)]));
    board.rotate();
    assert_eq!(falling(&board), points(&[(4, 17), (5, 17), (6, 17), (7, 17)]));
    assert_eq!(board.current_piece().pivot(), Cell(5, 17));
}

#[test]
fn get_prefers_the_falling_piece_then_the_first_landed() {
    let mut board = TetrisBoard::new_with(10, 20, Shape::O);
    for _ in 0..19 {
        board.tick_with(Shape::T);
    }
    assert_eq!(board.get(Cell(4, 19)), Some(Shape::O));
    assert_eq!(board.get(Cell(4, 0)), Some(Shape::T));
    assert_eq!(board.get(Cell(5, 1)), Some(Shape::T));
    assert_eq!(board.get(Cell(4, 1)), None);
    assert_eq!(board.get(Cell(-1, 0)), None);
    assert_eq!(board.get(Cell(4, 20)), None);
}

#[test]
fn full_row_is_cleared_when_a_piece_completes_it() {
    let mut board = TetrisBoard::new_with(4, 3, Shape::O);
    board.shift(Direction::Right);
    board.tick_with(Shape::J);
    board.tick_with(Shape::J);
    assert_eq!(landed(&board), vec![points(&[(2, 1), (3, 1), (2, 2), (3, 2)])]);
    assert_eq!(falling(&board), points(&[(1, 0), (1, 1), (1, 2), (0, 2)]));
    assert!(!board.is_line_full(2));
    assert!(board.alive());

    // the J piece stands on the floor and fills the two free columns of row 2
    board.tick_with(Shape::T);
    assert!(board.alive());
    assert_eq!(
        landed(&board),
        vec![points(&[(2, 2), (3, 2)]), points(&[(1, 1), (1, 2)])]
    );
    assert_eq!(falling(&board), points(&[(1, 0), (2, 0), (3, 0), (2, 1)]));
    assert_eq!(board.get(Cell(0, 2)), None);
    assert_eq!(board.get(Cell(1, 2)), Some(Shape::J));
    assert_eq!(board.get(Cell(2, 2)), Some(Shape::O));
    assert_eq!(board.get(Cell(3, 2)), Some(Shape::O));
    assert_eq!(board.get(Cell(1, 1)), Some(Shape::J));
    assert_eq!(board.get(Cell(0, 1)), None);
    assert_eq!(board.get(Cell(3, 1)), None);
    assert_eq!(board.get(Cell(2, 1)), Some(Shape::T));
    assert!(!board.is_line_full(2));
}

#[test]
fn cleared_row_is_empty_when_nothing_lay_above() {
    let mut board = TetrisBoard::new_with(4, 3, Shape::I);
    assert!(board.is_out_of_bounds(board.current_piece()));
    board.shift(Direction::Left);
    assert!(!board.is_out_of_bounds(board.current_piece()));
    board.tick_with(Shape::O);
    board.tick_with(Shape::O);
    assert_eq!(falling(&board), points(&[(0, 2), (1, 2), (2, 2), (3, 2)]));
    board.tick_with(Shape::O);
    assert!(board.alive());
    assert_eq!(board.landed_pieces().len(), 1);
    assert_eq!(board.landed_pieces()[0].shape(), Shape::I);
    assert!(all_landed(&board).is_empty());
    for x in 0..4 {
        assert_eq!(board.get(Cell(x, 2)), None);
    }
    assert_eq!(falling(&board), points(&[(1, 0), (2, 0), (1, 1), (2, 1)]));
}

#[test]
fn two_full_rows_are_cleared_in_one_pass() {
    let mut board = TetrisBoard::new_with(4, 6, Shape::O);
    board.shift(Direction::Left);
    for _ in 0..5 {
        board.tick_with(Shape::I);
    }
    assert_eq!(landed(&board), vec![points(&[(0, 4), (1, 4), (0, 5), (1, 5)])]);

    for (steps_right, next) in [(2, Shape::I), (1, Shape::O)] {
        board.shift(Direction::Left);
        board.tick_with(next);
        board.rotate();
        assert_eq!(falling(&board), points(&[(1, 0), (1, 1), (1, 2), (1, 3)]));
        for _ in 0..steps_right {
            board.shift(Direction::Right);
        }
        board.tick_with(next);
        board.tick_with(next);
        if steps_right == 2 {
            assert_eq!(falling(&board), points(&[(3, 2), (3, 3), (3, 4), (3, 5)]));
        }
        board.tick_with(next);
    }

    assert!(board.alive());
    assert_eq!(
        landed(&board),
        vec![points(&[]), points(&[(3, 4), (3, 5)]), points(&[(2, 4), (2, 5)])]
    );
    assert_eq!(falling(&board), points(&[(1, 0), (2, 0), (1, 1), (2, 1)]));
    assert!(!board.is_line_full(4));
    assert!(!board.is_line_full(5));
}

#[test]
fn line_full_counts_distinct_columns() {
    let mut board = TetrisBoard::new_with(6, 2, Shape::O);
    board.shift(Direction::Left);
    board.shift(Direction::Left);
    board.tick_with(Shape::O);
    assert_eq!(landed(&board), vec![points(&[(0, 0), (1, 0), (0, 1), (1, 1)])]);
    assert!(!board.is_line_full(0));
    assert!(!board.is_line_full(1));
    assert!(!board.is_line_full(2));

    // a board without columns: every row holds exactly zero of them
    let empty = TetrisBoard::new_with(0, 3, Shape::O);
    assert!(empty.is_line_full(0));
    let negative = TetrisBoard::new_with(-1, 3, Shape::O);
    assert!(!negative.is_line_full(0));
}

#[test]
fn game_ends_when_the_entering_piece_is_hit() {
    let mut board = TetrisBoard::new_with(10, 20, Shape::O);
    for _ in 0..99 {
        board.tick_with(Shape::O);
        assert!(board.alive());
    }
    // the tenth piece has nowhere to go and lands where it entered
    assert_eq!(board.landed_pieces().len(), 9);
    assert_eq!(falling(&board), points(&[(4, 0), (5, 0), (4, 1), (5, 1)]));
    board.tick_with(Shape::T);
    assert!(!board.alive());
    assert_eq!(board.landed_pieces().len(), 10);
    assert_eq!(board.current_piece().shape(), Shape::T);
    assert!(board.is_colliding(board.current_piece()));
}

#[test]
fn game_ends_at_once_on_a_board_too_low() {
    let mut board = TetrisBoard::new_with(10, 1, Shape::O);
    assert!(board.alive());
    assert!(board.is_out_of_bounds(board.current_piece()));
    board.tick_with(Shape::I);
    assert!(!board.alive());
    assert_eq!(landed(&board), vec![points(&[(4, 0), (5, 0), (4, 1), (5, 1)])]);
}

#[test]
fn nothing_changes_once_the_game_is_over() {
    let mut board = TetrisBoard::new_with(10, 20, Shape::O);
    while board.alive() {
        board.tick_with(Shape::O);
    }
    let piece = falling(&board);
    let pivot = board.current_piece().pivot();
    let pieces = landed(&board);
    for round in 0..50u32 {
        board.tick_with(shape_number(round));
        board.tick();
        board.shift(Direction::Left);
        board.shift(Direction::Right);
        board.rotate();
        assert!(!board.alive());
        assert_eq!(falling(&board), piece);
        assert_eq!(board.current_piece().pivot(), pivot);
        assert_eq!(landed(&board), pieces);
    }
}

#[test]
fn falling_piece_stays_on_the_board_and_off_the_landed() {
    let mut state: u32 = 12345;
    for game in 0..20u32 {
        let mut board = TetrisBoard::new_with(10, 20, shape_number(game));
        let mut steps = 0;
        while board.alive() && steps < 5000 {
            state = state.wrapping_mul(1664525).wrapping_add(1013904223);
            match (state >> 16) % 5 {
                0 => board.shift(Direction::Left),
                1 => board.shift(Direction::Right),
                2 => board.rotate(),
                _ => board.tick_with(shape_number(state >> 8)),
            }
            if board.alive() {
                assert!(!board.is_colliding(board.current_piece()));
                assert!(!board.is_out_of_bounds(board.current_piece()));
            }
            let cells: usize = landed(&board).iter().map(|piece| piece.len()).sum();
            assert_eq!(cells, all_landed(&board).len());
            steps += 1;
        }
    }
}

#[test]
fn random_ticks_keep_the_rules() {
    let mut board = TetrisBoard::new_default();
    let mut steps = 0;
    while board.alive() && steps < 5000 {
        let before = board.landed_pieces().len();
        board.tick();
        assert!(board.landed_pieces().len() <= before + 1);
        if board.alive() {
            assert!(!board.is_colliding(board.current_piece()));
            assert!(!board.is_out_of_bounds(board.current_piece()));
        }
        steps += 1;
    }
    // without a shift no row is ever completed, so the pile reaches the top
    assert!(!board.alive());
}
