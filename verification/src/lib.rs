//! Counters for a sidecar process, their rendering in the text exposition
//! format that polling collectors read, and the decisions of the loop that
//! serves them until it is told to stop.

pub mod exposition;
pub mod model;
pub mod registry;
pub mod responder;
pub mod server;
pub mod text;
