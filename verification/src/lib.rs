//! Search for the four-bishops puzzle.
//!
//! A grid of five files and four ranks holds four white and four black
//! tokens that move like chess bishops. A token slides along a diagonal, is
//! blocked by the tokens of its own side and may not come to rest on a cell
//! that the other side attacks. The sides move in turn, white first.
//! [`bfs`] searches level by level for a way from one board to another, for
//! instance from the start to the board on which the sides have changed
//! places.
//!
//! The modules, from the ground up:
//!
//! - [`grid`]: cells as pairs of integers, their dense index, their shade
//!   and their number among the cells of a shade;
//! - [`position`]: a cell of the grid as a value;
//! - [`moves`]: the four directions and the slide of a token;
//! - [`layout`]: the mathematical model of a board;
//! - [`board`]: the board itself, with the cells that a side occupies and
//!   those that it attacks;
//! - [`successors`]: the boards one move away;
//! - [`key`]: the 32-bit key of a board and the way back from a key;
//! - [`canon`]: what the key tells of a board, and what a move keeps;
//! - [`peace`]: why a token never meets a token of the other side;
//! - [`levels`]: what a search by levels finds, depth by depth;
//! - [`search`]: the search;
//! - [`render`]: the picture of a board as text.

pub mod board;
pub mod canon;
pub mod color;
pub mod error;
pub mod grid;
pub mod key;
pub mod layout;
pub mod levels;
pub mod moves;
pub mod peace;
pub mod position;
pub mod render;
pub mod search;
pub mod successors;
mod tree;

pub use crate::board::Board;
pub use crate::color::Color;
pub use crate::error::BoardError;
pub use crate::moves::{Direction, Moves};
pub use crate::position::Position;
pub use crate::search::bfs;
