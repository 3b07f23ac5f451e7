//! A verified single-player mine-clearing game engine.
//!
//! The engine owns a rectangular board of cells, each either a mine or a
//! safe cell carrying the number of mines among its up-to-8 neighbours.
//! It offers board construction (random or with chosen mine positions),
//! revealing with flood-fill cascade, flag toggling, win detection, and a
//! read-only display projection that hides unrevealed mines.

pub mod api;
pub mod clock;
pub mod minesweeper;
pub mod rng;

pub use minesweeper::Cell;
pub use minesweeper::CellState;
pub use minesweeper::Difficulty;
pub use minesweeper::DisplayBoard;
pub use minesweeper::DisplayCell;
pub use minesweeper::DisplayCellState;
pub use minesweeper::GameState;
pub use minesweeper::MinesweeperGame;
pub use api::CellRequest;
pub use api::NewGameRequest;
pub use api::parse_difficulty;
