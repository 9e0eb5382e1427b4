//! Exhaustive solver for a calendar-puzzle board: a 7x7 grid with six
//! permanently blocked cells and two date-marker cells, tiled by polyomino
//! pieces tried in all eight (reflection, rotation) combinations by a
//! depth-first backtracking search.

pub mod block;
pub mod board;
pub mod search;

pub use block::Block;
pub use block::BlockIterator;
pub use block::Orientation;
pub use board::Board;
pub use search::solve_puzzle;
