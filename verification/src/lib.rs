//! File synchronisation logic.

pub mod bench;
pub mod block;
pub mod checksum;
pub mod chunker;
pub mod chunking;
pub mod cli;
pub mod delta;
pub mod digest;
pub mod endpoint;
pub mod engine;
pub mod error;
pub mod fs;
pub mod internal;
pub mod manifest;
pub mod path;
pub mod plan;
pub mod protocol;
pub mod session;
pub mod strategy;
pub mod text;
pub mod transport;
pub mod wire;
