//! An N-dimensional minesweeper engine: a deterministic game server, a
//! constraint-propagation player, and a batch runner that measures the
//! player's win rate over many seeded games.

pub mod action_queue;
pub mod batch;
pub mod cell;
pub mod client;
pub mod coords;
pub mod grid;
pub mod rng;
pub mod server;

pub use batch::{GameBatch, SpecResult};
pub use client::Client;
pub use coords::Coords;
pub use grid::surr_indices;
pub use server::{GameError, GameSpec, GameState, NativeServer};
