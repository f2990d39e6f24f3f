//! Commands typed by a player: an operation letter, a column and a row.

use vstd::prelude::*;
use vstd::utf8::encode_utf8;
use crate::board::{Board, BoardView, Point};

verus! {

const DIGIT_ZERO: u8 = 48;
const DIGIT_NINE: u8 = 57;
const LETTER_A: u8 = 97;
const LETTER_Z: u8 = 122;
const LETTER_F: u8 = 102;
const LETTER_O: u8 = 111;
const LINE_FEED: u8 = 10;

/// What a player asks to do with a cell.
#[derive(Debug, Clone, Copy, PartialEq, Eq, Structural)]
pub enum Operation {
    Open { point: Point },
    Flag { point: Point },
}

/// Coordinate written as one character: `0` to `9` are 0 to 9, `a` to `z`
/// are 10 to 35; any other byte is -1.
pub open spec fn coord_of(c: u8) -> int {
    if 48 <= c <= 57 {
        c - 48
    } else if 97 <= c <= 122 {
        c - 97 + 10
    } else {
        -1
    }
}

/// The command that the bytes of a line ask for on the board: exactly an
/// operation letter (`o` to open, `f` to flag), a column, a row and a line
/// feed, naming a cell of the grid.
pub open spec fn command_of(bs: Seq<u8>, v: BoardView) -> Option<Operation> {
    if bs.len() == 4 && bs[3] == 10 {
        let p = Point { x: coord_of(bs[1]) as i32, y: coord_of(bs[2]) as i32 };
        if !v.contains(p) {
            None
        } else if bs[0] == 111 {
            Some(Operation::Open { point: p })
        } else if bs[0] == 102 {
            Some(Operation::Flag { point: p })
        } else {
            None
        }
    } else {
        None
    }
}

/// The coordinate that the character `c` stands for, or -1.
pub fn coord_reverse_mapping(c: u8) -> (r: i32)
    ensures
        r == coord_of(c),
{
    if DIGIT_ZERO <= c && c <= DIGIT_NINE {
        (c - DIGIT_ZERO) as i32
    } else if LETTER_A <= c && c <= LETTER_Z {
        (c - LETTER_A) as i32 + 10
    } else {
        -1
    }
}

/// The command that a line typed by the player asks for, or `None` where
/// the line is not one, or names a point outside the grid.
pub fn process_line(line: String, board: &Board) -> (r: Option<Operation>)
    requires
        board.wf(),
    ensures
        r == command_of(encode_utf8(line@), board@),
{
    let bytes = line.as_str().as_bytes();
    if bytes.len() != 4 || bytes[3] != LINE_FEED {
        return None;
    }
    let x = coord_reverse_mapping(bytes[1]);
    let y = coord_reverse_mapping(bytes[2]);
    let p = Point { x, y };
    if board.at(&p).is_none() {
        return None;
    }
    if bytes[0] == LETTER_O {
        Some(Operation::Open { point: p })
    } else if bytes[0] == LETTER_F {
        Some(Operation::Flag { point: p })
    } else {
        None
    }
}

} // verus!
