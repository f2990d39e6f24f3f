use lib_minesweeper::numbers_on_board;
use lib_minesweeper::Board;
use lib_minesweeper::BoardState;
use lib_minesweeper::MapElement;
use lib_minesweeper::MapElement::Mine;
use lib_minesweeper::MapElement::Number;
use lib_minesweeper::MapElementCellState;
use lib_minesweeper::MapElementCellState::Closed;
use lib_minesweeper::MapElementCellState::Flagged;
use lib_minesweeper::MapElementCellState::Open;
use lib_minesweeper::MinePlacement;
use lib_minesweeper::Point;

fn state_from(state: u8) -> MapElementCellState {
    match state {
        b'O' => Open,
        b'C' => Closed,
        b'F' => Flagged,
        _ => unreachable!(),
    }
}

fn count_from_bytes(c: u8) -> i32 {
    (c as i32) - (b'0' as i32)
}

fn make_map(map: &str, state: &str) -> Vec<Vec<MapElement>> {
    map.lines()
        .zip(state.lines())
        .map(|(map_row, state_row)| {
            let map_row = map_row.trim();
            let state_row = state_row.trim();
            map_row
                .as_bytes()
                .iter()
                .zip(state_row.as_bytes())
                .map(|(row_el, state_el)| match row_el {
                    b'X' => Mine {
                        state: state_from(*state_el),
                    },
                    _ => Number {
                        state: state_from(*state_el),
                        count: count_from_bytes(*row_el),
                    },
                })
                .collect()
        })
        .collect()
}

fn board_to_string(board: &Board) -> String {
    let mut ret = String::default();
    for y in 0..board.height {
        for x in 0..board.width {
            let p = Point::new(x, y);
            let el = board.at(&p).unwrap();
            let v = match el {
                Mine { state: Flagged } | Number { state: Flagged, .. } => "F".to_string(),
                Number { state: Closed, .. } | Mine { state: Closed } => "•".to_string(),
                Number {
                    state: Open,
                    count: 0,
                } => "_".to_string(),
                Number { state: Open, count } => count.to_string(),
                _ => unreachable!(),
            };
            ret.push_str(&v);
        }
        ret.push('\n');
    }
    ret
}

fn assert_board_matches(board: &Board, expected: &str) {
    let s = board_to_string(board);
    for (i, (line_value, line_expected)) in s.lines().zip(expected.lines()).enumerate() {
        let line_expected = line_expected.trim();
        assert_eq!(line_value, line_expected, "boards didn't match on line {i}");
    }
}

/// Draws points from `rand` until the wanted number of distinct mines is
/// placed, as a front end does with its random source.
fn create_board(
    width: usize,
    height: usize,
    mines: usize,
    mut rand: impl FnMut(usize, usize) -> usize,
) -> Board {
    let mut placement = MinePlacement::new(width, height, mines).unwrap();
    while !placement.is_complete() {
        let x = rand(0, width);
        let y = rand(0, height);
        placement.offer(x, y);
    }
    placement.board()
}

fn five_by_four_board() -> Board {
    Board::new(make_map(
        "X0000
         0X000
         00X00
         000X0",
        "CCCCC
         CCCCC
         CCCCC
         CCCCC",
    ))
}

fn five_by_two_board() -> Board {
    Board::new(make_map(
        "X0000
         0X000",
        "CCCCC
         CCCCC",
    ))
}

#[test]
fn test_make_map() {
    let map = make_map(
        "00
         22
         XX",
        "OC
         FC
         CF",
    );
    let expected_map = vec![
        vec![
            Number {
                count: 0,
                state: Open,
            },
            Number {
                count: 0,
                state: Closed,
            },
        ],
        vec![
            Number {
                count: 2,
                state: Flagged,
            },
            Number {
                count: 2,
                state: Closed,
            },
        ],
        vec![Mine { state: Closed }, Mine { state: Flagged }],
    ];

    assert_eq!(map, expected_map);
}

#[test]
fn test_create_board() {
    let width = 5;
    let height = 4;
    let mines = 4;
    let mut v = vec![3, 3, 2, 2, 1, 1, 0, 0];
    let rand = move |_start: usize, _end: usize| -> usize { v.pop().unwrap() };
    let board = create_board(width, height, mines, rand);
    let expected_map = five_by_four_board().rows();
    assert_eq!(board.rows(), expected_map);
    assert_eq!(board.state, BoardState::NotReady);
}

#[test]
fn test_create_board_without_repeated_mines() {
    let width = 5;
    let height = 4;
    let mines = 4;
    let mut v = vec![3, 3, 2, 2, 0, 0, 1, 1, 0, 0];
    let rand = move |_start: usize, _end: usize| -> usize { v.pop().unwrap() };
    let board = create_board(width, height, mines, rand);
    let expected_map = five_by_four_board().rows();
    assert_eq!(board.rows(), expected_map);
    assert_eq!(board.state, BoardState::NotReady);
}

#[test]
fn test_numbers_on_board() {
    let board = numbers_on_board(five_by_four_board());
    let expected_map = make_map(
        "X2100
         2X210
         12X21
         012X1",
        "CCCCC
         CCCCC
         CCCCC
         CCCCC",
    );
    assert_eq!(board.rows(), expected_map);
    assert_eq!(board.state, BoardState::Ready);
}

#[test]
fn test_surrounding_points() {
    assert_eq!(
        five_by_two_board().surrounding_points(&Point { x: 1, y: 0 }),
        vec![
            Point { x: 0, y: 0 },
            Point { x: 0, y: 1 },
            Point { x: 1, y: 1 },
            Point { x: 2, y: 0 },
            Point { x: 2, y: 1 },
        ]
    );
}

#[test]
fn test_cascade_open_item() {
    let board = numbers_on_board(five_by_two_board());
    let board = board.cascade_open_item(&Point::new(3, 1)).unwrap();
    let expected_map = make_map(
        "X2100
         2X100",
        "CCOOO
         CCOOO",
    );
    assert_eq!(board.rows(), expected_map);
    assert_eq!(board.state, BoardState::Playing);
}

#[test]
fn test_win_board() {
    let board = numbers_on_board(five_by_two_board());
    let board = board.cascade_open_item(&Point::new(3, 1)).unwrap();
    let board = board.cascade_open_item(&Point::new(0, 1)).unwrap();
    let board = board.cascade_open_item(&Point::new(1, 0)).unwrap();
    let expected_map = make_map(
        "X2100
         2X100",
        "COOOO
         OCOOO",
    );
    assert_eq!(board.rows(), expected_map);
    assert_eq!(board.state, BoardState::Won);
}

#[test]
fn test_flag() {
    let board = numbers_on_board(five_by_two_board());
    let board = board.flag_item(&Point::new(3, 1));
    let expected_map = make_map(
        "X2100
         2X100",
        "CCCCC
         CCCFC",
    );
    assert_eq!(board.rows(), expected_map);
    assert_eq!(board.state, BoardState::Playing);
}

#[test]
fn test_flagging_again_unflags() {
    let board = numbers_on_board(five_by_two_board());
    let board = board.flag_item(&Point::new(3, 1));
    let board = board.flag_item(&Point::new(3, 1));
    let expected_map = make_map(
        "X2100
         2X100",
        "CCCCC
         CCCCC",
    );
    assert_eq!(board.rows(), expected_map);
    assert_eq!(board.state, BoardState::Playing);
}

#[test]
fn test_flagging_open_does_noting() {
    let board = numbers_on_board(five_by_two_board());
    let board = board.cascade_open_item(&Point::new(2, 0)).unwrap();
    let board = board.flag_item(&Point::new(2, 0));
    let expected_map = make_map(
        "X2100
         2X100",
        "CCOCC
         CCCCC",
    );
    assert_eq!(board.rows(), expected_map);
    assert_eq!(board.state, BoardState::Playing);
}

#[test]
fn test_run_robot_on_point() {
    let board = numbers_on_board(five_by_two_board());
    let res = board.run_robot_on_point(Point::new(4, 0));
    assert!(res.is_none());

    let board = board.flag_item(&Point::new(1, 1));
    let board = board.cascade_open_item(&Point::new(2, 0)).unwrap();
    assert_board_matches(
        &board,
        "••1••
         •F•••",
    );
    let board = board.run_robot_on_point(Point::new(2, 0)).unwrap();
    assert_board_matches(
        &board,
        "•21••
         •F•••",
    );
    let board = board.run_robot_on_point(Point::new(2, 0)).unwrap();
    assert_board_matches(
        &board,
        "•21••
         •F1••",
    );
    let board = board.run_robot_on_point(Point::new(2, 0)).unwrap();
    assert_board_matches(
        &board,
        "•21__
         •F1__",
    );
    let res = board.run_robot_on_point(Point::new(2, 0));
    assert!(res.is_none());
}
