//! Routing by asking: a node knows where its own peers sit, and finds the rest.

pub mod bargain;
pub mod duties;
pub mod laws;
pub mod message;
pub mod model;
pub mod node;
pub mod reach;
pub mod tree;
