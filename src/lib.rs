//! Rules engine for a hexagonal ring-and-marble territory game.

pub mod coordinate;
pub mod board;
pub mod union_find;
pub mod rules;
pub mod connectivity;
pub mod error;
pub mod game;
pub mod app;
pub mod laws;
pub mod notation;
