//! Transforms of the messages that pass through a proxy.
pub mod message;
pub mod null;
pub mod parallel_map;
pub mod rounds;
pub mod uo_futures;
