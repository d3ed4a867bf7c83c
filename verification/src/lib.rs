//! A small feed-forward network engine: a layered graph of nodes and
//! weighted edges kept in arenas, forward evaluation against a cache that
//! the caller owns, and training by backpropagation. Beside it, a queue
//! kept in one array.

pub mod arena;
pub mod graph;
pub mod math;
pub mod model;
pub mod priorityqueue;
pub mod topology;
pub mod training;
