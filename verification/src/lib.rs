//! AlphaZero-style tree search with batched evaluation, the board and move
//! mapping around it, and the bookkeeping of a self-play session.

pub mod board;
pub mod graph;
pub mod mapping;
mod random;
pub mod selfplay;
pub mod shape;
pub mod text;
pub mod util;
pub mod zero;
