//! Rule engine for a sliding-tile merge puzzle on a square grid.
//!
//! Tiles holding powers of two slide along one of four compass directions;
//! equal neighbours merge into their doubled value, the score grows by each
//! merged tile, a new tile spawns after every move that changed the board,
//! and the game ends when no direction would change anything.
//!
//! The crate holds the grid state and its move resolution (rotation,
//! compaction, merge), the legal-move and terminal-state detector, the
//! tile-spawn policy, the pseudo-random source that drives it, and the
//! deterministic value-to-color mapping used by a renderer. Terminal
//! input and output stay outside.

pub mod color;
pub mod grid;
pub mod laws;
pub mod rng;
pub mod rows;

pub use grid::Direction;
pub use grid::Grid;
pub use grid::SpawnPolicy;
pub use rng::Rng;
