//! A queryable, decoded event log for vehicle-bus trace files: a line
//! decoder with per-channel signal-database bindings, a frame store behind
//! stable keys, and a family of deterministic orderings over the decoded
//! frames.

pub mod abs_time;
pub mod arena;
pub mod database;
pub mod errors;
pub mod ext;
pub mod frame;
pub mod index;
pub mod line;
pub mod log;
pub mod numtext;
pub mod parse;
pub mod timestamp;
pub mod tokens;
