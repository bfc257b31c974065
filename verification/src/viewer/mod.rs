//! A simulated network to look at, and the commands that drive it.

pub mod command;
pub mod duties;
pub mod http;
pub mod json;
pub mod laws;
pub mod model;
pub mod protocol;
pub mod quiet;
pub mod sim;
