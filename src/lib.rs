//! Global line deduplication: each distinct line of a stream is kept once, in
//! the order of its first appearance, optionally with its number of occurrences.
pub mod counts;
pub mod dedup;
pub mod engine;
pub mod live;
pub mod model;
pub mod table;
pub mod text;
