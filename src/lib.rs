//! A Minesweeper game engine with a session registry.
//!
//! `grid` models a square grid of tiles and the facts about it, `flood`
//! holds the reveal algorithm, `board` the rules of one game, `placement`
//! random mine layouts, `view` what a client may see of a board, and
//! `registry` the sessions addressed by identifier.

pub mod board;
pub mod flood;
pub mod grid;
pub mod placement;
pub mod registry;
pub mod view;
