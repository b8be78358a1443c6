//! A verified minesweeper game engine.
//!
//! The crate is split into layers that mirror the runtime ownership
//! structure: `board` holds the pure game model (first-click-safe mine
//! placement, flood-fill reveal, flag logic, win/loss detection), `grid`
//! computes the pixel layout of the cell grid together with its hit-test
//! inverse, and `game` is the controller that turns pointer and resize
//! events into board operations.

pub mod board;
pub mod game;
pub mod grid;
