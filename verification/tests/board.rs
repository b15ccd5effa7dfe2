use okf::board::{Board, BoardError};
use okf::piece::{piece_shape, rotate_piece, Rotation, Shape};

fn occupied(board: &Board) -> Vec<(usize, usize)> {
    let mut cells = Vec::new();
    for row in 0..board.height() {
        for col in 0..board.width() {
            if board.get(col, row).unwrap().is_some() {
                cells.push((col, row));
            }
        }
    }
    cells
}

fn snapshot(board: &Board) -> Vec<Vec<Option<Shape>>> {
    (0..board.height())
        .map(|row| (0..board.width()).map(|col| board.get(col, row).unwrap()).collect())
        .collect()
}

fn fill_row(board: &mut Board, row: usize, shape: Shape) {
    for col in 0..board.width() {
        board.set(col, row, Some(shape)).unwrap();
    }
}

#[test]
fn new_board_is_empty() {
    let board = Board::new(32, 10, 20);
    assert_eq!(board.width(), 10);
    assert_eq!(board.height(), 20);
    assert_eq!(board.cell_size(), 32);
    assert!(occupied(&board).is_empty());
}

#[test]
fn board_without_cells_rejects_every_access() {
    let mut board = Board::new(32, 0, 0);
    assert_eq!(board.get(0, 0), Err(BoardError::OutOfBounds));
    assert_eq!(board.set(0, 0, Some(Shape::I)), Err(BoardError::OutOfBounds));
    board.clear_lines();
    assert_eq!(board.put(0, Rotation::Normal, Shape::O), Err(BoardError::OutOfBounds));
}

#[test]
fn access_in_range_succeeds_everywhere() {
    let mut board = Board::new(32, 10, 20);
    for row in 0..20 {
        for col in 0..10 {
            assert_eq!(board.get(col, row), Ok(None));
            assert_eq!(board.set(col, row, Some(Shape::T)), Ok(None));
            assert_eq!(board.get(col, row), Ok(Some(Shape::T)));
        }
    }
}

#[test]
fn access_out_of_range_fails() {
    let mut board = Board::new(32, 10, 20);
    for (col, row) in [(10, 0), (0, 20), (10, 20), (11, 5), (5, 21), (usize::MAX, 0), (0, usize::MAX)]
    {
        assert_eq!(board.index(col, row), Err(BoardError::OutOfBounds));
        assert_eq!(board.get(col, row), Err(BoardError::OutOfBounds));
        assert_eq!(board.set(col, row, Some(Shape::Z)), Err(BoardError::OutOfBounds));
    }
    assert!(occupied(&board).is_empty());
}

#[test]
fn index_is_row_major() {
    let board = Board::new(32, 10, 20);
    assert_eq!(board.index(0, 0), Ok(0));
    assert_eq!(board.index(3, 2), Ok(23));
    assert_eq!(board.index(9, 19), Ok(199));
}

#[test]
fn set_hands_back_the_previous_cell() {
    let mut board = Board::new(32, 10, 20);
    assert_eq!(board.set(4, 7, Some(Shape::S)), Ok(None));
    assert_eq!(board.set(4, 7, Some(Shape::L)), Ok(Some(Shape::S)));
    assert_eq!(board.set(4, 7, None), Ok(Some(Shape::L)));
    assert_eq!(board.get(4, 7), Ok(None));
}

#[test]
fn set_changes_one_cell_only() {
    let mut board = Board::new(32, 10, 20);
    board.set(9, 0, Some(Shape::J)).unwrap();
    assert_eq!(occupied(&board), vec![(9, 0)]);
    assert_eq!(board.get(0, 1), Ok(None));
    assert_eq!(board.get(8, 0), Ok(None));
}

#[test]
fn error_message_names_the_bounds() {
    assert_eq!(BoardError::OutOfBounds.message(), "out of bounds index");
}

#[test]
fn square_lands_on_the_floor() {
    let mut board = Board::new(32, 10, 20);
    let square = piece_shape(Shape::O);
    assert_eq!(board.drop(0, &square), Ok((0, 18)));
    assert_eq!(board.put(0, Rotation::Normal, Shape::O), Ok(()));
    assert_eq!(occupied(&board), vec![(0, 18), (1, 18), (0, 19), (1, 19)]);
    assert_eq!(board.get(0, 18), Ok(Some(Shape::O)));
}

#[test]
fn placement_is_the_same_on_equal_boards() {
    let mut first = Board::new(32, 10, 20);
    let mut second = Board::new(32, 10, 20);
    for board in [&mut first, &mut second] {
        board.put(3, Rotation::Clockwise, Shape::L).unwrap();
        board.put(4, Rotation::OneEighty, Shape::T).unwrap();
        board.put(3, Rotation::Normal, Shape::S).unwrap();
    }
    assert_eq!(snapshot(&first), snapshot(&second));
}

#[test]
fn bar_is_moved_left_to_lie_on_the_board() {
    let mut board = Board::new(32, 10, 20);
    let bar = piece_shape(Shape::I);
    assert_eq!(board.drop(9, &bar), Ok((6, 19)));
    assert_eq!(board.put(9, Rotation::Normal, Shape::I), Ok(()));
    assert_eq!(occupied(&board), vec![(6, 19), (7, 19), (8, 19), (9, 19)]);
}

#[test]
fn column_within_reach_is_kept() {
    let board = Board::new(32, 10, 20);
    let bar = piece_shape(Shape::I);
    assert_eq!(board.drop(6, &bar), Ok((6, 19)));
    assert_eq!(board.drop(5, &bar), Ok((5, 19)));
    assert_eq!(board.drop(7, &bar), Ok((6, 19)));
    assert_eq!(board.drop(usize::MAX, &bar), Ok((6, 19)));
    let upright = rotate_piece(&bar, Rotation::Clockwise);
    assert_eq!(board.drop(9, &upright), Ok((9, 16)));
}

#[test]
fn pieces_stack() {
    let mut board = Board::new(32, 10, 20);
    board.put(0, Rotation::Normal, Shape::O).unwrap();
    board.put(0, Rotation::Normal, Shape::O).unwrap();
    assert_eq!(
        occupied(&board),
        vec![(0, 16), (1, 16), (0, 17), (1, 17), (0, 18), (1, 18), (0, 19), (1, 19)]
    );
    assert_eq!(board.drop(1, &piece_shape(Shape::O)), Ok((1, 14)));
    assert_eq!(board.drop(2, &piece_shape(Shape::O)), Ok((2, 18)));
}

#[test]
fn piece_stops_at_the_first_obstacle() {
    let mut board = Board::new(32, 10, 20);
    board.set(0, 10, Some(Shape::Z)).unwrap();
    assert_eq!(board.drop(0, &piece_shape(Shape::O)), Ok((0, 8)));
    assert_eq!(board.drop(0, &piece_shape(Shape::I)), Ok((0, 9)));
    assert_eq!(board.drop(1, &piece_shape(Shape::I)), Ok((1, 19)));
}

#[test]
fn empty_matrix_cells_may_lie_over_occupied_cells() {
    let mut board = Board::new(32, 10, 20);
    board.set(1, 19, Some(Shape::Z)).unwrap();
    board.set(2, 19, Some(Shape::Z)).unwrap();
    board.put(0, Rotation::Normal, Shape::J).unwrap();
    assert_eq!(board.get(0, 17), Ok(Some(Shape::J)));
    assert_eq!(board.get(0, 18), Ok(Some(Shape::J)));
    assert_eq!(board.get(1, 18), Ok(Some(Shape::J)));
    assert_eq!(board.get(2, 18), Ok(Some(Shape::J)));
    assert_eq!(board.get(1, 17), Ok(None));
    let mut fitted = Board::new(32, 10, 20);
    fitted.set(0, 19, Some(Shape::Z)).unwrap();
    fitted.put(0, Rotation::Normal, Shape::L).unwrap();
    assert_eq!(fitted.get(2, 17), Ok(Some(Shape::L)));
    assert_eq!(fitted.get(0, 18), Ok(Some(Shape::L)));
    let mut nested = Board::new(32, 10, 20);
    nested.set(0, 19, Some(Shape::I)).unwrap();
    nested.put(0, Rotation::Normal, Shape::S).unwrap();
    assert_eq!(nested.get(1, 17), Ok(Some(Shape::S)));
    assert_eq!(nested.get(0, 18), Ok(Some(Shape::S)));
    assert_eq!(nested.get(0, 17), Ok(None));
}

#[test]
fn put_writes_the_rotated_matrix() {
    let mut board = Board::new(32, 10, 20);
    board.put(4, Rotation::Clockwise, Shape::J).unwrap();
    assert_eq!(occupied(&board), vec![(4, 17), (5, 17), (4, 18), (4, 19)]);
    let mut other = Board::new(32, 10, 20);
    other.put(4, Rotation::CounterClockwise, Shape::J).unwrap();
    assert_eq!(occupied(&other), vec![(5, 17), (5, 18), (4, 19), (5, 19)]);
    let mut third = Board::new(32, 10, 20);
    third.put(4, Rotation::OneEighty, Shape::J).unwrap();
    assert_eq!(occupied(&third), vec![(4, 18), (5, 18), (6, 18), (6, 19)]);
}

#[test]
fn put_fails_on_a_full_column_and_changes_nothing() {
    let mut board = Board::new(32, 10, 20);
    for _ in 0..10 {
        assert_eq!(board.put(0, Rotation::Normal, Shape::O), Ok(()));
    }
    let before = snapshot(&board);
    assert_eq!(board.drop(0, &piece_shape(Shape::O)), Err(BoardError::OutOfBounds));
    assert_eq!(board.put(0, Rotation::Normal, Shape::O), Err(BoardError::OutOfBounds));
    assert_eq!(board.put(1, Rotation::Normal, Shape::T), Err(BoardError::OutOfBounds));
    assert_eq!(snapshot(&board), before);
    assert_eq!(board.put(2, Rotation::Normal, Shape::O), Ok(()));
}

#[test]
fn put_fails_on_a_board_smaller_than_the_piece() {
    let mut narrow = Board::new(32, 3, 20);
    assert_eq!(narrow.put(0, Rotation::Normal, Shape::I), Err(BoardError::OutOfBounds));
    assert_eq!(narrow.put(0, Rotation::Clockwise, Shape::I), Ok(()));
    let mut low = Board::new(32, 10, 1);
    assert_eq!(low.put(0, Rotation::Normal, Shape::O), Err(BoardError::OutOfBounds));
    assert_eq!(low.drop(0, &piece_shape(Shape::O)), Err(BoardError::OutOfBounds));
    assert_eq!(low.put(0, Rotation::Normal, Shape::I), Ok(()));
    assert_eq!(occupied(&low), vec![(0, 0), (1, 0), (2, 0), (3, 0)]);
}

#[test]
fn piece_as_large_as_the_board_fills_it() {
    let mut board = Board::new(32, 2, 2);
    assert_eq!(board.put(1, Rotation::Normal, Shape::O), Ok(()));
    assert_eq!(occupied(&board), vec![(0, 0), (1, 0), (0, 1), (1, 1)]);
}

#[test]
fn full_bottom_row_is_cleared() {
    let mut board = Board::new(32, 10, 20);
    fill_row(&mut board, 19, Shape::I);
    board.clear_lines();
    assert!(occupied(&board).is_empty());
}

#[test]
fn rows_above_a_cleared_row_move_down() {
    let mut board = Board::new(32, 10, 20);
    fill_row(&mut board, 19, Shape::I);
    board.set(3, 18, Some(Shape::T)).unwrap();
    board.set(4, 5, Some(Shape::L)).unwrap();
    board.clear_lines();
    assert_eq!(occupied(&board), vec![(4, 6), (3, 19)]);
    assert_eq!(board.get(3, 19), Ok(Some(Shape::T)));
    assert_eq!(board.get(4, 6), Ok(Some(Shape::L)));
}

#[test]
fn three_full_rows_are_cleared_at_once() {
    let mut board = Board::new(32, 10, 20);
    fill_row(&mut board, 17, Shape::S);
    fill_row(&mut board, 18, Shape::Z);
    fill_row(&mut board, 19, Shape::O);
    board.set(0, 16, Some(Shape::J)).unwrap();
    let before = occupied(&board).len();
    board.clear_lines();
    assert_eq!(occupied(&board), vec![(0, 19)]);
    assert_eq!(board.get(0, 19), Ok(Some(Shape::J)));
    for row in 0..19 {
        for col in 0..10 {
            assert_eq!(board.get(col, row), Ok(None));
        }
    }
    assert_eq!(before - 30, occupied(&board).len());
}

#[test]
fn full_rows_apart_are_cleared_in_one_pass() {
    let mut board = Board::new(32, 4, 6);
    fill_row(&mut board, 1, Shape::I);
    fill_row(&mut board, 3, Shape::I);
    fill_row(&mut board, 5, Shape::I);
    board.set(0, 0, Some(Shape::J)).unwrap();
    board.set(1, 2, Some(Shape::L)).unwrap();
    board.set(2, 4, Some(Shape::T)).unwrap();
    board.clear_lines();
    assert_eq!(occupied(&board), vec![(0, 3), (1, 4), (2, 5)]);
    assert_eq!(board.get(0, 3), Ok(Some(Shape::J)));
    assert_eq!(board.get(1, 4), Ok(Some(Shape::L)));
    assert_eq!(board.get(2, 5), Ok(Some(Shape::T)));
}

#[test]
fn clearing_equals_taking_out_the_lowest_full_row_again_and_again() {
    let mut board = Board::new(32, 4, 6);
    fill_row(&mut board, 0, Shape::O);
    fill_row(&mut board, 2, Shape::I);
    fill_row(&mut board, 3, Shape::I);
    board.set(1, 1, Some(Shape::L)).unwrap();
    board.set(3, 4, Some(Shape::T)).unwrap();
    let mut stepwise = Board::new(32, 4, 6);
    for row in 0..6 {
        for col in 0..4 {
            stepwise.set(col, row, board.get(col, row).unwrap()).unwrap();
        }
    }
    board.clear_lines();
    loop {
        let lowest = (0..6)
            .rev()
            .find(|row| (0..4).all(|col| stepwise.get(col, *row).unwrap().is_some()));
        match lowest {
            Some(row) => stepwise.clear_line(row),
            None => break,
        }
    }
    assert_eq!(snapshot(&board), snapshot(&stepwise));
    assert_eq!(occupied(&board), vec![(1, 3), (3, 4)]);
}

#[test]
fn clearing_without_full_rows_changes_nothing() {
    let mut board = Board::new(32, 10, 20);
    board.put(0, Rotation::Normal, Shape::O).unwrap();
    board.put(5, Rotation::Clockwise, Shape::T).unwrap();
    let before = snapshot(&board);
    board.clear_lines();
    assert_eq!(snapshot(&board), before);
}

#[test]
fn full_top_row_is_cleared() {
    let mut board = Board::new(32, 3, 3);
    fill_row(&mut board, 0, Shape::S);
    board.set(1, 2, Some(Shape::T)).unwrap();
    board.clear_lines();
    assert_eq!(occupied(&board), vec![(1, 2)]);
}

#[test]
fn every_row_full_leaves_an_empty_board() {
    let mut board = Board::new(32, 3, 4);
    for row in 0..4 {
        fill_row(&mut board, row, Shape::Z);
    }
    board.clear_lines();
    assert!(occupied(&board).is_empty());
}

#[test]
fn clear_line_takes_out_one_row() {
    let mut board = Board::new(32, 3, 4);
    board.set(0, 0, Some(Shape::I)).unwrap();
    board.set(1, 1, Some(Shape::J)).unwrap();
    board.set(2, 2, Some(Shape::L)).unwrap();
    board.set(0, 3, Some(Shape::O)).unwrap();
    board.clear_line(2);
    assert_eq!(occupied(&board), vec![(0, 1), (1, 2), (0, 3)]);
    assert_eq!(board.get(0, 1), Ok(Some(Shape::I)));
    assert_eq!(board.get(1, 2), Ok(Some(Shape::J)));
    assert_eq!(board.get(0, 3), Ok(Some(Shape::O)));
    board.clear_line(0);
    assert_eq!(occupied(&board), vec![(0, 1), (1, 2), (0, 3)]);
    board.clear_line(3);
    assert_eq!(occupied(&board), vec![(0, 2), (1, 3)]);
}

#[test]
fn clear_line_empties_the_top_row() {
    let mut board = Board::new(32, 2, 2);
    board.set(0, 0, Some(Shape::I)).unwrap();
    board.set(1, 0, Some(Shape::I)).unwrap();
    board.clear_line(0);
    assert!(occupied(&board).is_empty());
    board.set(1, 0, Some(Shape::T)).unwrap();
    board.clear_line(1);
    assert_eq!(occupied(&board), vec![(1, 1)]);
}

#[test]
fn placement_that_completes_a_row_can_be_cleared() {
    let mut board = Board::new(32, 4, 6);
    board.put(0, Rotation::Normal, Shape::O).unwrap();
    board.put(2, Rotation::Normal, Shape::O).unwrap();
    board.clear_lines();
    assert!(occupied(&board).is_empty());
    board.put(0, Rotation::Normal, Shape::I).unwrap();
    board.put(0, Rotation::Normal, Shape::T).unwrap();
    board.clear_lines();
    assert_eq!(occupied(&board), vec![(1, 4), (0, 5), (1, 5), (2, 5)]);
}

#[test]
fn click_finds_the_cell_under_a_point() {
    let board = Board::new(32, 10, 20);
    assert_eq!(board.click(0, 0), Some((0, 0)));
    assert_eq!(board.click(31, 31), Some((0, 0)));
    assert_eq!(board.click(32, 31), Some((1, 0)));
    assert_eq!(board.click(33, 64), Some((1, 2)));
    assert_eq!(board.click(319, 639), Some((9, 19)));
}

#[test]
fn click_off_the_board_finds_nothing() {
    let board = Board::new(32, 10, 20);
    assert_eq!(board.click(320, 0), None);
    assert_eq!(board.click(0, 640), None);
    assert_eq!(board.click(320, 640), None);
    assert_eq!(board.click(usize::MAX, 5), None);
    assert_eq!(board.click(5, usize::MAX), None);
}

#[test]
fn click_on_a_board_without_extent_finds_nothing() {
    assert_eq!(Board::new(0, 10, 20).click(0, 0), None);
    assert_eq!(Board::new(32, 0, 20).click(0, 0), None);
    assert_eq!(Board::new(32, 10, 0).click(0, 0), None);
    assert_eq!(Board::new(1, 10, 20).click(9, 19), Some((9, 19)));
}

#[test]
fn rows_above_the_floor_stand_for_rotations() {
    let board = Board::new(32, 10, 20);
    assert_eq!(board.get_rotation(16), Some(Rotation::OneEighty));
    assert_eq!(board.get_rotation(17), Some(Rotation::Clockwise));
    assert_eq!(board.get_rotation(18), Some(Rotation::Normal));
    assert_eq!(board.get_rotation(19), Some(Rotation::CounterClockwise));
}

#[test]
fn other_rows_stand_for_no_rotation() {
    let board = Board::new(32, 10, 20);
    assert_eq!(board.get_rotation(0), None);
    assert_eq!(board.get_rotation(15), None);
    assert_eq!(board.get_rotation(20), None);
    assert_eq!(board.get_rotation(21), None);
    assert_eq!(board.get_rotation(usize::MAX), None);
    let low = Board::new(32, 10, 2);
    assert_eq!(low.get_rotation(0), Some(Rotation::Normal));
    assert_eq!(low.get_rotation(1), Some(Rotation::CounterClockwise));
}

#[test]
fn preview_shows_where_a_click_would_place() {
    let mut board = Board::new(32, 10, 20);
    board.set(3, 19, Some(Shape::Z)).unwrap();
    let before = snapshot(&board);
    let shown = board.preview(3 * 32 + 5, 18 * 32 + 1, Shape::O);
    assert_eq!(shown, Some((3, 17, vec![vec![1, 1], vec![1, 1]])));
    let turned = board.preview(9 * 32, 17 * 32, Shape::I);
    assert_eq!(turned, Some((9, 16, vec![vec![1], vec![1], vec![1], vec![1]])));
    let moved = board.preview(9 * 32, 16 * 32, Shape::I);
    assert_eq!(moved, Some((6, 19, vec![vec![1, 1, 1, 1]])));
    assert_eq!(snapshot(&board), before);
    board.put(3, Rotation::Normal, Shape::O).unwrap();
    assert_eq!(board.get(3, 17), Ok(Some(Shape::O)));
    assert_eq!(board.get(4, 18), Ok(Some(Shape::O)));
}

#[test]
fn preview_shows_nothing_without_a_placement() {
    let mut board = Board::new(32, 10, 20);
    assert_eq!(board.preview(0, 0, Shape::O), None);
    assert_eq!(board.preview(320, 18 * 32, Shape::O), None);
    assert_eq!(board.preview(0, 640, Shape::O), None);
    for _ in 0..10 {
        board.put(0, Rotation::Normal, Shape::O).unwrap();
    }
    assert_eq!(board.preview(0, 18 * 32, Shape::O), None);
    assert!(board.preview(2 * 32, 18 * 32, Shape::O).is_some());
}
