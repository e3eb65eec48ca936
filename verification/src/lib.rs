//! A turn-based maze game: a player ("Theseus") walks a fixed rectangular
//! grid toward a goal tile while a pursuer ("Minotaur") greedily chases the
//! player one step per turn. The library parses and validates board text,
//! applies the movement rules, and classifies the game state; reading input
//! and rendering are left to a surrounding driver.

pub mod board;
pub mod command;
pub mod game;
pub mod grid;

pub use board::BoardError;
pub use command::input;
pub use command::Command;
pub use game::Game;
pub use game::GameStatus;
pub use grid::Grid;
