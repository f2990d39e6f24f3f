//! Rules engine of a minesweeper game: a rectangular grid of mines and
//! numbered cells, flagging, flood-fill opening, win/loss detection and a
//! one-step logical solver.

pub mod board;
pub mod cascade;
pub mod command;
pub mod numbering;
pub mod placement;
pub mod robot;

pub use board::{Board, BoardState, BoardView, MapElement, MapElementCellState, Point};
pub use command::{coord_reverse_mapping, process_line, Operation};
pub use numbering::numbers_on_board;
pub use placement::MinePlacement;
