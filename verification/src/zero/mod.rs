//! The search tree and the two-phase step that grows it.

pub mod game;
pub mod keep;
pub mod muzero;
pub mod node;
pub mod range;
pub mod step;
pub mod symmetry;
pub mod tree;
pub mod wrapper;
