//! A single-player grid-reveal puzzle engine: a rectangular board of
//! concealed tiles hides a number of mines, and the player opens or flags
//! tiles one at a time.
//!
//! The board is one sequence of tiles, row by row, and a tile is addressed
//! by its index in it, `row * col_count + col`. Neighbourhoods are computed
//! by plain offsets on that index, stopped at both ends of the board; see
//! [`neighbours`] for what this means on the board's left and right edges.
//!
//! - [`neighbours`]: the neighbourhood of a tile and the mines in it.
//! - [`board`]: the tiles and the two changes a tile can undergo.
//! - [`placement`]: the random placement of the mines at the first move.
//! - [`cascade`]: the reveal that spreads from a tile without adjacent mines.
//! - [`session`]: one game, from the first move to a loss or the player's
//!   exit.
//! - [`command`]: the player's commands as typed on a line.
//! - [`render`]: the board and the messages as text.

pub mod board;
pub mod cascade;
pub mod command;
pub mod neighbours;
pub mod placement;
pub mod render;
pub mod session;
