//! A solver for the hexagonal marble-matching solitaire.
//!
//! The board is a padded 13×13 grid of marbles. The library decides which
//! marbles are free, lists the legal moves of a position, and searches for a
//! sequence of moves that clears the board, remembering the fingerprints of
//! positions that are known to be dead ends.
//!
//! Two steps of reading a board off an image work on plain pixels and are
//! here as well: linking weak edge pixels to strong ones, and matching an
//! edge image against the sample images of the marble kinds.

pub mod marble;
pub mod rows;
pub mod zobrist;
pub mod board;
pub mod freeness;
pub mod moves;
pub mod rules;
pub mod solver;
pub mod glyphs;
pub mod edges;

pub use marble::{Marble, marble_values};
pub use rows::{RowDesc, board_rows};
pub use zobrist::ZobristTable;
pub use board::{Board, MarblePos, Move};
