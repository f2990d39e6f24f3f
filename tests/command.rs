use lib_minesweeper::coord_reverse_mapping;
use lib_minesweeper::process_line;
use lib_minesweeper::Board;
use lib_minesweeper::MapElement;
use lib_minesweeper::MapElement::Mine;
use lib_minesweeper::MapElement::Number;
use lib_minesweeper::MapElementCellState::Closed;
use lib_minesweeper::MapElementCellState::Open;
use lib_minesweeper::Operation;
use lib_minesweeper::Point;

fn make_map(map: Vec<Vec<(bool, i32)>>) -> Vec<Vec<MapElement>> {
    map.iter()
        .map(|row| {
            row.iter()
                .map(|(open, count)| match count {
                    -1 => Mine {
                        state: if *open { Open } else { Closed },
                    },
                    count => Number {
                        state: if *open { Open } else { Closed },
                        count: *count,
                    },
                })
                .collect()
        })
        .collect()
}

fn five_by_two_board() -> Board {
    Board::new(make_map(vec![
        vec![(false, -1), (false, 0), (false, 0), (false, 0), (false, 0)],
        vec![(false, 0), (false, -1), (false, 0), (false, 0), (false, 0)],
    ]))
}

#[test]
fn test_process_line() {
    let o = process_line(String::from("o01\n"), &five_by_two_board());
    assert_eq!(
        o,
        Some(Operation::Open {
            point: Point { x: 0, y: 1 }
        })
    );
}

#[test]
fn test_process_line_out_of_bounds_argument() {
    let o = process_line(String::from("o34\n"), &five_by_two_board());
    assert_eq!(o, None);
}

#[test]
fn test_process_line_bad_arguments() {
    let o = process_line(String::from("o\n"), &five_by_two_board());
    assert_eq!(o, None);
}

#[test]
fn process_line_flag_command() {
    let o = process_line(String::from("f41\n"), &five_by_two_board());
    assert_eq!(
        o,
        Some(Operation::Flag {
            point: Point { x: 4, y: 1 }
        })
    );
}

#[test]
fn process_line_unknown_operation() {
    let o = process_line(String::from("x01\n"), &five_by_two_board());
    assert_eq!(o, None);
}

#[test]
fn process_line_without_line_feed() {
    let o = process_line(String::from("o01x"), &five_by_two_board());
    assert_eq!(o, None);
}

#[test]
fn process_line_bad_coordinate_character() {
    let o = process_line(String::from("o!1\n"), &five_by_two_board());
    assert_eq!(o, None);
}

#[test]
fn coordinates_of_characters() {
    assert_eq!(coord_reverse_mapping(b'0'), 0);
    assert_eq!(coord_reverse_mapping(b'9'), 9);
    assert_eq!(coord_reverse_mapping(b'a'), 10);
    assert_eq!(coord_reverse_mapping(b'z'), 35);
    assert_eq!(coord_reverse_mapping(b'A'), -1);
    assert_eq!(coord_reverse_mapping(b'/'), -1);
    assert_eq!(coord_reverse_mapping(b'{'), -1);
}
