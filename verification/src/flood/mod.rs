//! Routing by gossip: every node hears where every other node sits.

pub mod claim;
pub mod duties;
pub mod laws;
pub mod message;
pub mod model;
pub mod node;
pub mod quiet;
pub mod reach;
