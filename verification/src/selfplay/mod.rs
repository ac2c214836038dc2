//! The bookkeeping of a self-play session: the commands that steer it, the
//! games that are played in it and the files its games are gathered into.

pub mod collector;
pub mod executor;
pub mod generator;
pub mod protocol;
pub mod server;
