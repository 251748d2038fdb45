//! VoltPanel core.
pub mod archive;
pub mod digest;
pub mod encoding;
pub mod json;
pub mod laws;
pub mod models;
pub mod node_daemon;
pub mod node_protocol;
pub mod nodes;
pub mod order;
pub mod paths;
pub mod services;
pub mod swap;
pub mod text;
