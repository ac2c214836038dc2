//! How boards and moves are laid out in the tensors that the network reads
//! and writes.

pub mod chess;
pub mod glue;
pub mod mapper;
pub mod sttt;
pub mod ttt;
