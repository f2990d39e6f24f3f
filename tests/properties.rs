use lib_minesweeper::numbers_on_board;
use lib_minesweeper::Board;
use lib_minesweeper::BoardState;
use lib_minesweeper::MapElement;
use lib_minesweeper::MapElement::Mine;
use lib_minesweeper::MapElement::Number;
use lib_minesweeper::MapElementCellState::Closed;
use lib_minesweeper::MapElementCellState::Flagged;
use lib_minesweeper::MapElementCellState::Open;
use lib_minesweeper::MinePlacement;
use lib_minesweeper::Point;

fn grid(mines: &[(usize, usize)], width: usize, height: usize) -> Vec<Vec<MapElement>> {
    (0..height)
        .map(|y| {
            (0..width)
                .map(|x| {
                    if mines.contains(&(x, y)) {
                        Mine { state: Closed }
                    } else {
                        Number {
                            state: Closed,
                            count: 0,
                        }
                    }
                })
                .collect()
        })
        .collect()
}

fn visibility_rows(board: &Board) -> Vec<String> {
    board
        .rows()
        .iter()
        .map(|row| {
            row.iter()
                .map(|e| match e {
                    Mine { state } | Number { state, .. } => match state {
                        Open => 'O',
                        Closed => 'C',
                        Flagged => 'F',
                    },
                })
                .collect()
        })
        .collect()
}

fn count_at(board: &Board, x: usize, y: usize) -> i32 {
    match board.at(&Point::new(x, y)) {
        Some(Number { count, .. }) => *count,
        other => panic!("no number at ({x}, {y}): {other:?}"),
    }
}

fn diagonal_board() -> Board {
    numbers_on_board(Board::new(grid(&[(0, 0), (1, 1), (2, 2), (3, 3)], 5, 4)))
}

fn two_mine_board() -> Board {
    numbers_on_board(Board::new(grid(&[(0, 0), (1, 1)], 5, 2)))
}

#[test]
fn diagonal_counts_and_flood() {
    let board = diagonal_board();
    assert_eq!(count_at(&board, 1, 0), 2);
    assert_eq!(count_at(&board, 4, 3), 1);
    assert_eq!(count_at(&board, 4, 0), 0);
    let board = board.cascade_open_item(&Point::new(4, 0)).unwrap();
    assert_eq!(
        visibility_rows(&board),
        vec!["CCOOO", "CCOOO", "CCCOO", "CCCCC"]
    );
    assert_eq!(board.state, BoardState::Playing);
    assert_eq!(board.missing_points, 16 - 8);
}

#[test]
fn mine_count_and_counter_after_numbering() {
    let board = diagonal_board();
    assert_eq!(board.mines, 4);
    assert_eq!(board.missing_points, 16);
    assert_eq!(board.width, 5);
    assert_eq!(board.height, 4);
}

#[test]
fn numbering_twice_changes_nothing() {
    let once = diagonal_board();
    let twice = numbers_on_board(once.clone());
    assert_eq!(once.rows(), twice.rows());
    assert_eq!(twice.state, BoardState::Ready);
}

#[test]
fn numbering_overwrites_wrong_counts() {
    let mut map = grid(&[(0, 0)], 2, 2);
    map[1][1] = Number {
        state: Closed,
        count: 7,
    };
    let board = numbers_on_board(Board::new(map));
    assert_eq!(count_at(&board, 1, 1), 1);
    assert_eq!(count_at(&board, 1, 0), 1);
}

#[test]
fn new_board_counts_mines_and_cells_to_open() {
    let board = Board::new(grid(&[(0, 0), (2, 1)], 3, 2));
    assert_eq!(board.mines, 2);
    assert_eq!(board.missing_points, 4);
    assert_eq!(board.state, BoardState::NotReady);
}

#[test]
fn at_outside_the_grid() {
    let board = two_mine_board();
    assert!(board.at(&Point { x: -1, y: 0 }).is_none());
    assert!(board.at(&Point { x: 5, y: 0 }).is_none());
    assert!(board.at(&Point { x: 0, y: 2 }).is_none());
    assert_eq!(board.at(&Point { x: 0, y: 0 }), Some(&Mine { state: Closed }));
}

#[test]
fn surrounding_points_in_a_corner_and_the_middle() {
    let board = diagonal_board();
    assert_eq!(
        board.surrounding_points(&Point { x: 4, y: 3 }),
        vec![
            Point { x: 3, y: 2 },
            Point { x: 3, y: 3 },
            Point { x: 4, y: 2 },
        ]
    );
    assert_eq!(board.surrounding_points(&Point { x: 2, y: 1 }).len(), 8);
    assert_eq!(
        board.surrounding_points(&Point {
            x: i32::MAX,
            y: i32::MIN
        }),
        vec![]
    );
}

#[test]
fn flagging_a_mine_twice_restores_the_board() {
    let board = two_mine_board().flag_item(&Point::new(4, 1));
    let again = board
        .flag_item(&Point::new(0, 0))
        .flag_item(&Point::new(0, 0));
    assert_eq!(again, board);
}

#[test]
fn flagging_a_number_counts_it_down() {
    let board = two_mine_board();
    let board = board.flag_item(&Point::new(3, 1));
    assert_eq!(board.missing_points, 7);
    let board = board.flag_item(&Point::new(3, 1));
    assert_eq!(board.missing_points, 7);
    assert_eq!(board.at(&Point::new(3, 1)), Some(&Number { state: Closed, count: 0 }));
}

#[test]
fn flagging_outside_the_grid_changes_nothing() {
    let board = two_mine_board();
    let after = board.flag_item(&Point { x: 9, y: 9 });
    assert_eq!(after, board);
}

#[test]
fn opening_flagged_or_open_cells_gives_nothing() {
    let board = two_mine_board().flag_item(&Point::new(0, 0));
    assert!(board.cascade_open_item(&Point::new(0, 0)).is_none());
    let board = board.flag_item(&Point::new(2, 1));
    assert!(board.cascade_open_item(&Point::new(2, 1)).is_none());
    let board = board.cascade_open_item(&Point::new(2, 0)).unwrap();
    assert!(board.cascade_open_item(&Point::new(2, 0)).is_none());
    assert!(board.cascade_open_item(&Point { x: 7, y: 0 }).is_none());
}

#[test]
fn opening_a_mine_fails() {
    let board = two_mine_board().cascade_open_item(&Point::new(3, 0)).unwrap();
    let lost = board.cascade_open_item(&Point::new(1, 1)).unwrap();
    assert_eq!(lost.state, BoardState::Failed);
    assert_eq!(lost.rows(), board.rows());
    assert_eq!(lost.missing_points, board.missing_points);
}

#[test]
fn opening_every_safe_cell_wins() {
    let mut board = two_mine_board();
    for y in 0..2 {
        for x in 0..5 {
            if !matches!(board.at(&Point::new(x, y)), Some(Mine { .. })) {
                board = board.cascade_open_item(&Point::new(x, y)).unwrap_or(board);
            }
        }
    }
    assert_eq!(board.missing_points, 0);
    assert_eq!(board.state, BoardState::Won);
}

#[test]
fn flood_stops_at_numbers() {
    let board = two_mine_board();
    let board = board.cascade_open_item(&Point::new(2, 0)).unwrap();
    assert_eq!(visibility_rows(&board), vec!["CCOCC", "CCCCC"]);
    assert_eq!(board.missing_points, 7);
}

#[test]
fn robot_flags_the_only_unopened_neighbour() {
    let board = two_mine_board();
    let board = board.cascade_open_item(&Point::new(3, 0)).unwrap();
    let board = board.cascade_open_item(&Point::new(1, 0)).unwrap();
    assert_eq!(visibility_rows(&board), vec!["COOOO", "CCOOO"]);
    let board = board.run_robot_on_point(Point::new(2, 0)).unwrap();
    assert_eq!(board.at(&Point::new(1, 1)), Some(&Mine { state: Flagged }));
    assert!(board.run_robot_on_point(Point::new(2, 0)).is_none());
}

#[test]
fn robot_ignores_closed_and_empty_cells() {
    let board = two_mine_board();
    assert!(board.run_robot_on_point(Point::new(2, 0)).is_none());
    let board = board.cascade_open_item(&Point::new(4, 0)).unwrap();
    assert!(board.run_robot_on_point(Point::new(4, 0)).is_none());
    assert!(board.run_robot_on_point(Point { x: -3, y: 0 }).is_none());
}

#[test]
fn robot_scan_takes_the_first_step_in_row_major_order() {
    let board = two_mine_board();
    assert!(board.run_robot().is_none());
    let board = board.cascade_open_item(&Point::new(3, 0)).unwrap();
    let board = board.cascade_open_item(&Point::new(1, 0)).unwrap();
    let stepped = board.run_robot().unwrap();
    assert!(board.run_robot_on_point(Point::new(1, 0)).is_none());
    assert_eq!(stepped, board.run_robot_on_point(Point::new(2, 0)).unwrap());
    assert_eq!(stepped.at(&Point::new(1, 1)), Some(&Mine { state: Flagged }));
}

#[test]
fn placement_rejects_too_many_mines() {
    assert!(MinePlacement::new(2, 2, 5).is_none());
    assert!(MinePlacement::new(2, 0, 0).is_none());
    assert!(MinePlacement::new(2, 2, 4).is_some());
}

#[test]
fn placement_turns_down_repeats_and_outside_points() {
    let mut placement = MinePlacement::new(3, 3, 2).unwrap();
    assert!(placement.offer(1, 2));
    assert!(!placement.offer(1, 2));
    assert!(!placement.offer(3, 0));
    assert!(!placement.is_complete());
    assert!(placement.offer(0, 0));
    assert!(placement.is_complete());
    assert!(!placement.offer(2, 2));
    let board = placement.board();
    assert_eq!(board.mines, 2);
    assert_eq!(board.at(&Point::new(1, 2)), Some(&Mine { state: Closed }));
    assert_eq!(board.at(&Point::new(2, 2)), Some(&Number { state: Closed, count: 0 }));
}

#[test]
fn full_grid_of_mines() {
    let mut placement = MinePlacement::new(2, 1, 2).unwrap();
    placement.offer(0, 0);
    placement.offer(1, 0);
    let board = numbers_on_board(placement.board());
    assert_eq!(board.mines, 2);
    assert_eq!(board.missing_points, 0);
}

#[test]
fn robot_scan_leaves_a_lost_board_alone() {
    let board = two_mine_board().flag_item(&Point::new(1, 1));
    let board = board.cascade_open_item(&Point::new(2, 0)).unwrap();
    assert!(board.run_robot().is_some());
    let lost = board.cascade_open_item(&Point::new(0, 0)).unwrap();
    assert_eq!(lost.state, BoardState::Failed);
    assert!(lost.run_robot_on_point(Point::new(2, 0)).is_some());
    assert!(lost.run_robot().is_none());
}

#[test]
fn robot_scan_leaves_a_won_board_alone() {
    let mut board = two_mine_board();
    for (x, y) in [(3, 1), (0, 1), (1, 0)] {
        board = board.cascade_open_item(&Point::new(x, y)).unwrap();
    }
    assert_eq!(board.state, BoardState::Won);
    assert!(board.run_robot().is_none());
}
